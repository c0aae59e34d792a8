use vstd::prelude::*;
use crate::config::{PAGE_SIZE, PAGE_SIZE_BITS};

verus! {

/// The largest value plus one of a 56-bit physical address.
pub const PA_LIMIT: u64 = 0x0100_0000_0000_0000;

/// The largest value plus one of a 39-bit virtual address.
pub const VA_LIMIT: u64 = 0x0080_0000_0000;

/// The largest value plus one of a 44-bit physical page number.
pub const PPN_LIMIT: u64 = 0x1000_0000_0000;

/// The largest value plus one of a 27-bit virtual page number.
pub const VPN_LIMIT: u64 = 0x0800_0000;

/// A physical address, at most 56 bits wide when built by `from`.
#[derive(Clone, Copy, Debug, PartialEq, Eq, Structural, PartialOrd, Ord)]
pub struct PhysAddr(pub u64);

/// A virtual address inside the 39-bit SV39 window, when built by `from`.
#[derive(Clone, Copy, Debug, PartialEq, Eq, Structural, PartialOrd, Ord)]
pub struct VirtAddr(pub u64);

/// A physical page number.
#[derive(Clone, Copy, Debug, PartialEq, Eq, Structural, PartialOrd, Ord)]
pub struct PhysPageNum(pub u64);

/// A virtual page number.
#[derive(Clone, Copy, Debug, PartialEq, Eq, Structural, PartialOrd, Ord)]
pub struct VirtPageNum(pub u64);

/// An address is valid in the 39-bit window when its top bits are clear.
pub open spec fn valid_va(a: u64) -> bool {
    a < VA_LIMIT
}

/// The page a byte address lies in.
pub open spec fn floor_spec(a: u64) -> int {
    a as int / PAGE_SIZE as int
}

/// The first page boundary at or above a byte address, as a page number.
pub open spec fn ceil_spec(a: u64) -> int {
    (a as int + PAGE_SIZE as int - 1) / PAGE_SIZE as int
}

/// The sign extension of a 39-bit address to a full machine word.
pub open spec fn sign_extend_va(a: u64) -> u64 {
    if a >= VA_LIMIT / 2 {
        a | !((VA_LIMIT - 1) as u64)
    } else {
        a
    }
}

proof fn lemma_mask_is_mod(x: u64)
    ensures
        x & 0xfff == x % 4096,
        x & (VA_LIMIT - 1) as u64 == x % VA_LIMIT,
        x & (PA_LIMIT - 1) as u64 == x % PA_LIMIT,
        x & (PPN_LIMIT - 1) as u64 == x % PPN_LIMIT,
        x & (VPN_LIMIT - 1) as u64 == x % VPN_LIMIT,
{
    assert(x & 0xfff == x % 4096) by (bit_vector);
    assert(x & 0x7f_ffff_ffff == x % 0x80_0000_0000) by (bit_vector);
    assert(x & 0xff_ffff_ffff_ffff == x % 0x100_0000_0000_0000) by (bit_vector);
    assert(x & 0xfff_ffff_ffff == x % 0x1000_0000_0000) by (bit_vector);
    assert(x & 0x7ff_ffff == x % 0x800_0000) by (bit_vector);
}

proof fn lemma_shl_page(x: u64)
    requires
        x < PPN_LIMIT,
    ensures
        x << 12 == x * 4096,
{
    assert(x < 0x1000_0000_0000 ==> x << 12 == x * 4096) by (bit_vector);
}

impl PhysAddr {
    /// Keeps the low 56 bits of a machine word.
    pub fn from(v: u64) -> (r: PhysAddr)
        ensures
            r.0 == v % PA_LIMIT,
    {
        proof {
            lemma_mask_is_mod(v);
        }
        PhysAddr(v & (PA_LIMIT - 1))
    }

    /// The page that holds this address.
    pub fn floor(&self) -> (r: PhysPageNum)
        ensures
            r.0 == floor_spec(self.0),
    {
        PhysPageNum(self.0 / PAGE_SIZE)
    }

    /// The first page boundary at or above this address.
    pub fn ceil(&self) -> (r: PhysPageNum)
        ensures
            r.0 == ceil_spec(self.0),
    {
        if self.0 == 0 {
            PhysPageNum(0)
        } else {
            PhysPageNum((self.0 - 1) / PAGE_SIZE + 1)
        }
    }

    /// The offset of this address inside its page.
    pub fn page_offset(&self) -> (r: u64)
        ensures
            r == self.0 % PAGE_SIZE,
    {
        proof {
            lemma_mask_is_mod(self.0);
        }
        self.0 & (PAGE_SIZE - 1)
    }

    /// Whether this address is the first byte of a page.
    pub fn aligned(&self) -> (r: bool)
        ensures
            r == (self.0 % PAGE_SIZE == 0),
    {
        self.page_offset() == 0
    }

    /// The machine word of this address.
    pub fn to_usize(&self) -> (r: u64)
        ensures
            r == self.0,
    {
        self.0
    }

    /// The page number of a page-aligned address.
    pub fn to_ppn(&self) -> (r: PhysPageNum)
        requires
            self.0 % PAGE_SIZE == 0,
        ensures
            r.0 * PAGE_SIZE == self.0,
    {
        self.floor()
    }
}

impl PhysPageNum {
    /// Keeps the low 44 bits of a machine word.
    pub fn from(v: u64) -> (r: PhysPageNum)
        ensures
            r.0 == v % PPN_LIMIT,
    {
        proof {
            lemma_mask_is_mod(v);
        }
        PhysPageNum(v & (PPN_LIMIT - 1))
    }

    /// The address of the first byte of this page.
    pub fn to_addr(&self) -> (r: PhysAddr)
        requires
            self.0 < PPN_LIMIT,
        ensures
            r.0 == self.0 * PAGE_SIZE,
    {
        proof {
            lemma_shl_page(self.0);
        }
        PhysAddr(self.0 << PAGE_SIZE_BITS)
    }
}

impl VirtAddr {
    /// Keeps the low 39 bits of a machine word.
    pub fn from(v: u64) -> (r: VirtAddr)
        ensures
            r.0 == v % VA_LIMIT,
            valid_va(r.0),
    {
        proof {
            lemma_mask_is_mod(v);
        }
        VirtAddr(v & (VA_LIMIT - 1))
    }

    /// The machine word of this address: bit 38 is copied into every bit
    /// above it.
    pub fn to_usize(&self) -> (r: u64)
        ensures
            r == sign_extend_va(self.0),
    {
        if self.0 >= VA_LIMIT / 2 {
            self.0 | !(VA_LIMIT - 1)
        } else {
            self.0
        }
    }

    /// The page that holds this address.
    pub fn floor(&self) -> (r: VirtPageNum)
        ensures
            r.0 == floor_spec(self.0),
    {
        VirtPageNum(self.0 / PAGE_SIZE)
    }

    /// The first page boundary at or above this address.
    pub fn ceil(&self) -> (r: VirtPageNum)
        ensures
            r.0 == ceil_spec(self.0),
    {
        if self.0 == 0 {
            VirtPageNum(0)
        } else {
            VirtPageNum((self.0 - 1) / PAGE_SIZE + 1)
        }
    }

    /// The offset of this address inside its page.
    pub fn page_offset(&self) -> (r: u64)
        ensures
            r == self.0 % PAGE_SIZE,
    {
        proof {
            lemma_mask_is_mod(self.0);
        }
        self.0 & (PAGE_SIZE - 1)
    }

    /// Whether this address is the first byte of a page.
    pub fn aligned(&self) -> (r: bool)
        ensures
            r == (self.0 % PAGE_SIZE == 0),
    {
        self.page_offset() == 0
    }

    /// The page number of a page-aligned address.
    pub fn to_vpn(&self) -> (r: VirtPageNum)
        requires
            self.0 % PAGE_SIZE == 0,
        ensures
            r.0 * PAGE_SIZE == self.0,
    {
        self.floor()
    }
}

impl VirtPageNum {
    /// Keeps the low 27 bits of a machine word.
    pub fn from(v: u64) -> (r: VirtPageNum)
        ensures
            r.0 == v % VPN_LIMIT,
    {
        proof {
            lemma_mask_is_mod(v);
        }
        VirtPageNum(v & (VPN_LIMIT - 1))
    }

    /// The address of the first byte of this page.
    pub fn to_addr(&self) -> (r: VirtAddr)
        requires
            self.0 < PPN_LIMIT,
        ensures
            r.0 == self.0 * PAGE_SIZE,
    {
        proof {
            lemma_shl_page(self.0);
        }
        VirtAddr(self.0 << PAGE_SIZE_BITS)
    }

    /// The three 9-bit table indices of this page number, root level first.
    pub fn indexes(&self) -> (r: [usize; 3])
        ensures
            r[0] == pt_index(self.0, 0),
            r[1] == pt_index(self.0, 1),
            r[2] == pt_index(self.0, 2),
    {
        let v = self.0;
        proof {
            assert(v & 511 == v % 512) by (bit_vector);
            assert((v >> 9) & 511 == (v / 512) % 512) by (bit_vector);
            assert((v >> 18) & 511 == (v / 262144) % 512) by (bit_vector);
        }
        let i0 = ((v >> 18) & 511) as usize;
        let i1 = ((v >> 9) & 511) as usize;
        let i2 = (v & 511) as usize;
        [i0, i1, i2]
    }
}

/// The index that page number `vpn` selects at `level` (0 is the root).
pub open spec fn pt_index(vpn: u64, level: int) -> int {
    if level == 0 {
        (vpn as int / 262144) % 512
    } else if level == 1 {
        (vpn as int / 512) % 512
    } else {
        vpn as int % 512
    }
}

/// For every valid virtual address, the page below it starts at or before
/// it and the page boundary above it lies at or after it, and both lie
/// within one page of it.
pub proof fn lemma_address_round_trip(a: VirtAddr)
    requires
        valid_va(a.0),
    ensures
        floor_spec(a.0) * PAGE_SIZE <= a.0,
        a.0 - floor_spec(a.0) * PAGE_SIZE < PAGE_SIZE,
        ceil_spec(a.0) * PAGE_SIZE >= a.0,
        ceil_spec(a.0) * PAGE_SIZE - a.0 < PAGE_SIZE,
        floor_spec(a.0) < VPN_LIMIT,
        ceil_spec(a.0) <= VPN_LIMIT,
{
    let x = a.0 as int;
    assert(x / 4096 * 4096 <= x && x - x / 4096 * 4096 < 4096) by (nonlinear_arith)
        requires x >= 0;
    assert((x + 4095) / 4096 * 4096 >= x && (x + 4095) / 4096 * 4096 - x < 4096)
        by (nonlinear_arith)
        requires x >= 0;
    assert(x / 4096 < 0x800_0000 && (x + 4095) / 4096 <= 0x800_0000) by (nonlinear_arith)
        requires 0 <= x < 0x80_0000_0000;
}

/// Advancing to the next value of an ordered, discrete type.
pub trait StepByOne: Sized {
    /// Whether the value has a successor.
    spec fn can_step(&self) -> bool;

    /// The successor of the value.
    spec fn stepped(&self) -> Self;

    fn step(&mut self)
        requires
            old(self).can_step(),
        ensures
            *final(self) == old(self).stepped(),
    ;
}

impl StepByOne for VirtPageNum {
    open spec fn can_step(&self) -> bool {
        self.0 < u64::MAX
    }

    open spec fn stepped(&self) -> VirtPageNum {
        VirtPageNum((self.0 + 1) as u64)
    }

    fn step(&mut self) {
        self.0 = self.0 + 1;
    }
}

/// A half-open range `[l, r)`.
pub struct SimpleRange<T: StepByOne + Copy> {
    l: T,
    r: T,
}

impl<T: StepByOne + Copy> SimpleRange<T> {
    pub closed spec fn start(&self) -> T {
        self.l
    }

    pub closed spec fn end(&self) -> T {
        self.r
    }

    pub fn new(start: T, end: T) -> (r: Self)
        ensures
            r.start() == start,
            r.end() == end,
    {
        SimpleRange { l: start, r: end }
    }

    pub fn get_start(&self) -> (r: T)
        ensures
            r == self.start(),
    {
        self.l
    }

    pub fn get_end(&self) -> (r: T)
        ensures
            r == self.end(),
    {
        self.r
    }

    /// Walks the range from its start.
    pub fn into_iter(self) -> (r: SimpleRangeIterator<T>)
        ensures
            r.current() == self.start(),
            r.end() == self.end(),
    {
        SimpleRangeIterator::new(self.l, self.r)
    }
}

/// A cursor over a `SimpleRange`.
pub struct SimpleRangeIterator<T: StepByOne + Copy> {
    current: T,
    end: T,
}

impl<T: StepByOne + Copy> SimpleRangeIterator<T> {
    pub closed spec fn current(&self) -> T {
        self.current
    }

    pub closed spec fn end(&self) -> T {
        self.end
    }

    pub fn new(l: T, r: T) -> (it: Self)
        ensures
            it.current() == l,
            it.end() == r,
    {
        SimpleRangeIterator { current: l, end: r }
    }
}

impl SimpleRangeIterator<VirtPageNum> {
    /// The next page number of the range, or `None` once the end is reached.
    pub fn next(&mut self) -> (r: Option<VirtPageNum>)
        requires
            old(self).current().0 <= old(self).end().0,
        ensures
            final(self).end() == old(self).end(),
            final(self).current().0 <= final(self).end().0,
            old(self).current() == old(self).end() ==> r is None && *final(self) == *old(self),
            old(self).current() != old(self).end() ==> r == Some(old(self).current())
                && final(self).current().0 == old(self).current().0 + 1,
    {
        if self.current == self.end {
            None
        } else {
            let t = self.current;
            self.current.step();
            Some(t)
        }
    }
}

/// A range of virtual page numbers.
pub type VPNRange = SimpleRange<VirtPageNum>;

} // verus!
