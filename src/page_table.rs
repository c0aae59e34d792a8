use vstd::prelude::*;
use std::collections::BTreeMap;
use crate::address::{pt_index, PhysPageNum, VirtAddr, VirtPageNum, PPN_LIMIT, VA_LIMIT, VPN_LIMIT};
use crate::config::PAGE_SIZE;
use crate::frame_allocator::{frame_alloc, frame_dealloc, StackFrameAllocator};

verus! {

/// Entries in one page-table node.
pub const PTE_PER_NODE: usize = 512;

/// Page-table entry flag: the entry is valid.
pub const PTE_V: u8 = 1;

/// Page-table entry flag: readable.
pub const PTE_R: u8 = 2;

/// Page-table entry flag: writable.
pub const PTE_W: u8 = 4;

/// Page-table entry flag: executable.
pub const PTE_X: u8 = 8;

/// Page-table entry flag: reachable from user mode.
pub const PTE_U: u8 = 16;

/// Page-table entry flag: global.
pub const PTE_G: u8 = 32;

/// Page-table entry flag: accessed.
pub const PTE_A: u8 = 64;

/// Page-table entry flag: dirty.
pub const PTE_D: u8 = 128;

/// The SV39 mode tag of a table token.
pub const SATP_SV39: u64 = 0x8000_0000_0000_0000;

/// The eight permission and status bits of a page-table entry.
#[derive(Clone, Copy, Debug, PartialEq, Eq, Structural)]
pub struct PTEFlags {
    pub bits: u8,
}

impl PTEFlags {
    pub fn from_bits(bits: u8) -> (r: PTEFlags)
        ensures
            r.bits == bits,
    {
        PTEFlags { bits }
    }

    pub fn empty() -> (r: PTEFlags)
        ensures
            r.bits == 0,
    {
        PTEFlags { bits: 0 }
    }

    /// The flags of both.
    pub fn union(self, other: PTEFlags) -> (r: PTEFlags)
        ensures
            r.bits == self.bits | other.bits,
    {
        PTEFlags { bits: self.bits | other.bits }
    }

    /// Whether every flag of `other` is set here.
    pub fn contains(self, other: PTEFlags) -> (r: bool)
        ensures
            r == (self.bits & other.bits == other.bits),
    {
        self.bits & other.bits == other.bits
    }
}

/// One entry of a page-table node: a page number above ten flag bits.
#[derive(Clone, Copy, Debug, PartialEq, Eq, Structural)]
pub struct PageTableEntry {
    pub bits: u64,
}

/// The page number an entry points to.
pub open spec fn pte_ppn(e: PageTableEntry) -> u64 {
    ((e.bits >> 10u64) & 0xfff_ffff_ffffu64) as u64
}

/// The flags of an entry.
pub open spec fn pte_flags(e: PageTableEntry) -> u8 {
    (e.bits & 0xffu64) as u8
}

/// Whether an entry is valid.
pub open spec fn pte_valid(e: PageTableEntry) -> bool {
    e.bits & 1u64 == 1u64
}

/// The entry built from a page number and flags.
pub open spec fn pte_of(ppn: u64, flags: u8) -> PageTableEntry {
    PageTableEntry { bits: (ppn << 10u64) | (flags as u64) }
}

/// An entry built from a page number and flags gives both back.
pub proof fn lemma_pte_fields(ppn: u64, flags: u8)
    requires
        ppn < PPN_LIMIT,
    ensures
        pte_ppn(pte_of(ppn, flags)) == ppn,
        pte_flags(pte_of(ppn, flags)) == flags,
        pte_valid(pte_of(ppn, flags)) == (flags & 1u8 == 1u8),
{
    let f = flags as u64;
    assert(f < 256);
    assert(ppn < 0x1000_0000_0000u64 && f < 256 ==> (((ppn << 10u64) | f) >> 10u64)
        & 0xfff_ffff_ffffu64 == ppn) by (bit_vector);
    assert(f < 256 ==> ((ppn << 10u64) | f) & 0xffu64 == f) by (bit_vector);
    assert(f < 256 ==> (((ppn << 10u64) | f) & 1u64 == 1u64) == (f & 1u64 == 1u64))
        by (bit_vector);
    assert((flags & 1u8 == 1u8) == ((flags as u64) & 1u64 == 1u64)) by (bit_vector);
}

proof fn lemma_empty_pte()
    ensures
        !pte_valid(zero_pte()),
{
    assert(0u64 & 1u64 != 1u64) by (bit_vector);
}

impl PageTableEntry {
    /// The entry for page `ppn` with `flags`.
    pub fn new(ppn: PhysPageNum, flags: PTEFlags) -> (r: Self)
        requires
            ppn.0 < PPN_LIMIT,
        ensures
            r == pte_of(ppn.0, flags.bits),
            pte_ppn(r) == ppn.0,
            pte_flags(r) == flags.bits,
            pte_valid(r) == (flags.bits & 1u8 == 1u8),
    {
        proof {
            lemma_pte_fields(ppn.0, flags.bits);
        }
        PageTableEntry { bits: (ppn.0 << 10u64) | (flags.bits as u64) }
    }

    /// The invalid entry.
    pub fn empty() -> (r: Self)
        ensures
            r.bits == 0,
            !pte_valid(r),
    {
        proof {
            lemma_empty_pte();
        }
        PageTableEntry { bits: 0 }
    }

    pub fn ppn(&self) -> (r: PhysPageNum)
        ensures
            r.0 == pte_ppn(*self),
    {
        PhysPageNum((self.bits >> 10u64) & 0xfff_ffff_ffffu64)
    }

    pub fn flags(&self) -> (r: PTEFlags)
        ensures
            r.bits == pte_flags(*self),
    {
        PTEFlags { bits: (self.bits & 0xffu64) as u8 }
    }

    pub fn is_valid(&self) -> (r: bool)
        ensures
            r == pte_valid(*self),
    {
        self.bits & 1u64 == 1u64
    }

    pub fn readable(&self) -> (r: bool)
        ensures
            r == (self.bits & 2u64 == 2u64),
    {
        self.bits & 2u64 == 2u64
    }

    pub fn writable(&self) -> (r: bool)
        ensures
            r == (self.bits & 4u64 == 4u64),
    {
        self.bits & 4u64 == 4u64
    }

    pub fn executable(&self) -> (r: bool)
        ensures
            r == (self.bits & 8u64 == 8u64),
    {
        self.bits & 8u64 == 8u64
    }
}

/// The index path, root first, that leads to the node used at `level` for
/// page number `vpn`.
pub open spec fn vpn_prefix(vpn: u64, level: int) -> Seq<int> {
    if level == 0 {
        Seq::empty()
    } else if level == 1 {
        seq![pt_index(vpn, 0)]
    } else {
        seq![pt_index(vpn, 0), pt_index(vpn, 1)]
    }
}

/// The leaf entry that a walk from `root` finds for `vpn`, if every entry on
/// the way, the leaf included, is valid.
pub open spec fn walk(nodes: Map<u64, Seq<PageTableEntry>>, root: u64, vpn: u64) -> Option<
    PageTableEntry,
> {
    let e0 = nodes[root][pt_index(vpn, 0)];
    if !pte_valid(e0) {
        None
    } else {
        let e1 = nodes[pte_ppn(e0)][pt_index(vpn, 1)];
        if !pte_valid(e1) {
            None
        } else {
            let e2 = nodes[pte_ppn(e1)][pt_index(vpn, 2)];
            if !pte_valid(e2) {
                None
            } else {
                Some(e2)
            }
        }
    }
}

/// The shape of a radix tree: each node has its entries and a path from
/// the root, and each valid entry of an inner node leads to a node one
/// index further down.
pub open spec fn tree_wf(
    nodes: Map<u64, Seq<PageTableEntry>>,
    paths: Map<u64, Seq<int>>,
    root: u64,
) -> bool {
    &&& nodes.contains_key(root)
    &&& paths.dom() == nodes.dom()
    &&& paths[root] == Seq::<int>::empty()
    &&& forall|n: u64| #[trigger]
        nodes.contains_key(n) ==> nodes[n].len() == PTE_PER_NODE && paths[n].len() <= 2
    &&& forall|n: u64, i: int|
        #![trigger nodes[n][i]]
        nodes.contains_key(n) && 0 <= i < PTE_PER_NODE && paths[n].len() < 2 && pte_valid(
            nodes[n][i],
        ) ==> nodes.contains_key(pte_ppn(nodes[n][i])) && paths[pte_ppn(nodes[n][i])]
            == paths[n].push(i)
}

/// The all-zero entry.
pub open spec fn zero_pte() -> PageTableEntry {
    PageTableEntry { bits: 0 }
}

/// A node of all-invalid entries.
pub open spec fn empty_node() -> Seq<PageTableEntry> {
    Seq::new(PTE_PER_NODE as nat, |i: int| zero_pte())
}

proof fn lemma_walk_visits(
    nodes: Map<u64, Seq<PageTableEntry>>,
    paths: Map<u64, Seq<int>>,
    root: u64,
    vpn: u64,
)
    requires
        tree_wf(nodes, paths, root),
    ensures
        ({
            let e0 = nodes[root][pt_index(vpn, 0)];
            let n1 = pte_ppn(e0);
            pte_valid(e0) ==> nodes.contains_key(n1) && paths[n1] == vpn_prefix(vpn, 1) && ({
                let e1 = nodes[n1][pt_index(vpn, 1)];
                let n2 = pte_ppn(e1);
                pte_valid(e1) ==> nodes.contains_key(n2) && paths[n2] == vpn_prefix(vpn, 2)
            })
        }),
{
    let i0 = pt_index(vpn, 0);
    let i1 = pt_index(vpn, 1);
    let e0 = nodes[root][i0];
    if pte_valid(e0) {
        let n1 = pte_ppn(e0);
        assert(paths[n1] == paths[root].push(i0));
        assert(paths[n1] =~= vpn_prefix(vpn, 1));
        let e1 = nodes[n1][i1];
        if pte_valid(e1) {
            assert(paths[pte_ppn(e1)] =~= vpn_prefix(vpn, 2));
        }
    }
}

/// Writing entry `e` at index `i` of node `n` changes the walk only of page
/// numbers whose path runs through that slot.
proof fn lemma_write_frame(
    nodes: Map<u64, Seq<PageTableEntry>>,
    paths: Map<u64, Seq<int>>,
    root: u64,
    n: u64,
    i: int,
    e: PageTableEntry,
    vpn: u64,
)
    requires
        tree_wf(nodes, paths, root),
        nodes.contains_key(n),
        0 <= i < PTE_PER_NODE,
        !(vpn_prefix(vpn, paths[n].len() as int) == paths[n] && pt_index(vpn, paths[n].len() as int)
            == i),
    ensures
        walk(nodes.insert(n, nodes[n].update(i, e)), root, vpn) == walk(nodes, root, vpn),
{
    lemma_walk_visits(nodes, paths, root, vpn);
    let nodes2 = nodes.insert(n, nodes[n].update(i, e));
    let e0 = nodes[root][pt_index(vpn, 0)];
    assert(pt_index(vpn, 0) >= 0 && pt_index(vpn, 1) >= 0 && pt_index(vpn, 2) >= 0);
    if root == n {
        assert(vpn_prefix(vpn, 0) =~= paths[n]);
    }
    assert(nodes2[root][pt_index(vpn, 0)] == e0);
    if pte_valid(e0) {
        let n1 = pte_ppn(e0);
        if n1 == n {
            assert(paths[n].len() == 1);
        }
        let e1 = nodes[n1][pt_index(vpn, 1)];
        assert(nodes2[n1][pt_index(vpn, 1)] == e1);
        if pte_valid(e1) {
            let n2 = pte_ppn(e1);
            if n2 == n {
                assert(paths[n].len() == 2);
            }
            assert(nodes2[n2][pt_index(vpn, 2)] == nodes[n2][pt_index(vpn, 2)]);
        }
    }
}

/// Pointing an invalid entry of an inner node at a fresh, empty node keeps
/// the shape of the tree and changes no walk.
proof fn lemma_link_fresh(
    nodes: Map<u64, Seq<PageTableEntry>>,
    paths: Map<u64, Seq<int>>,
    root: u64,
    n: u64,
    i: int,
    c: u64,
    e: PageTableEntry,
)
    requires
        tree_wf(nodes, paths, root),
        nodes.contains_key(n),
        !nodes.contains_key(c),
        paths[n].len() < 2,
        0 <= i < PTE_PER_NODE,
        !pte_valid(nodes[n][i]),
        pte_valid(e),
        pte_ppn(e) == c,
    ensures
        ({
            let mid = nodes.insert(c, empty_node());
            let nodes2 = mid.insert(n, mid[n].update(i, e));
            let paths2 = paths.insert(c, paths[n].push(i));
            &&& tree_wf(nodes2, paths2, root)
            &&& forall|vpn: u64| #[trigger] walk(nodes2, root, vpn) == walk(nodes, root, vpn)
        }),
{
    let mid = nodes.insert(c, empty_node());
    let nodes2 = mid.insert(n, mid[n].update(i, e));
    let paths2 = paths.insert(c, paths[n].push(i));
    lemma_empty_pte();
    assert(mid[n] == nodes[n]);
    assert(nodes2[c] == empty_node());
    assert(paths2.dom() =~= nodes2.dom());
    assert forall|m: u64, j: int|
        #![trigger nodes2[m][j]]
        nodes2.contains_key(m) && 0 <= j < PTE_PER_NODE && paths2[m].len() < 2 && pte_valid(
            nodes2[m][j],
        ) implies nodes2.contains_key(pte_ppn(nodes2[m][j])) && paths2[pte_ppn(nodes2[m][j])]
        == paths2[m].push(j) by {
        if m == c {
            assert(nodes2[m][j] == zero_pte());
        } else if m == n && j == i {
        } else {
            assert(nodes2[m][j] == nodes[m][j]);
            assert(nodes.contains_key(pte_ppn(nodes[m][j])));
        }
    };
    assert forall|vpn: u64| #[trigger] walk(nodes2, root, vpn) == walk(nodes, root, vpn) by {
        lemma_walk_visits(nodes, paths, root, vpn);
        let i0 = pt_index(vpn, 0);
        let i1 = pt_index(vpn, 1);
        let i2 = pt_index(vpn, 2);
        assert(0 <= i0 < 512 && 0 <= i1 < 512 && 0 <= i2 < 512);
        let e0 = nodes[root][i0];
        if root == n && i0 == i {
            assert(nodes2[root][i0] == e);
            assert(nodes2[c][i1] == zero_pte());
        } else {
            assert(nodes2[root][i0] == e0);
            if pte_valid(e0) {
                let n1 = pte_ppn(e0);
                assert(n1 != c);
                let e1 = nodes[n1][i1];
                if n1 == n && i1 == i {
                    assert(nodes2[n1][i1] == e);
                    assert(nodes2[c][i2] == zero_pte());
                } else {
                    assert(nodes2[n1][i1] == e1);
                    if pte_valid(e1) {
                        let n2 = pte_ppn(e1);
                        assert(n2 != c);
                        assert(n2 != n) by {
                            if n2 == n {
                                assert(paths[n2].len() == 2);
                            }
                        };
                        assert(nodes2[n2][i2] == nodes[n2][i2]);
                    }
                }
            }
        }
    };
}

/// Writing a leaf node keeps the shape of the tree and changes only the
/// walks through the written slot.
proof fn lemma_leaf_write(
    nodes: Map<u64, Seq<PageTableEntry>>,
    paths: Map<u64, Seq<int>>,
    root: u64,
    n: u64,
    i: int,
    e: PageTableEntry,
)
    requires
        tree_wf(nodes, paths, root),
        nodes.contains_key(n),
        paths[n].len() == 2,
        0 <= i < PTE_PER_NODE,
    ensures
        tree_wf(nodes.insert(n, nodes[n].update(i, e)), paths, root),
{
    let nodes2 = nodes.insert(n, nodes[n].update(i, e));
    assert(paths.dom() =~= nodes2.dom());
    assert forall|m: u64, j: int|
        #![trigger nodes2[m][j]]
        nodes2.contains_key(m) && 0 <= j < PTE_PER_NODE && paths[m].len() < 2 && pte_valid(
            nodes2[m][j],
        ) implies nodes2.contains_key(pte_ppn(nodes2[m][j])) && paths[pte_ppn(nodes2[m][j])]
        == paths[m].push(j) by {
        assert(m != n);
        assert(nodes2[m][j] == nodes[m][j]);
    };
}

/// Two page numbers below the SV39 limit with the same three indices are
/// the same.
proof fn lemma_indices_determine(a: u64, b: u64)
    requires
        a < VPN_LIMIT,
        b < VPN_LIMIT,
        pt_index(a, 0) == pt_index(b, 0),
        pt_index(a, 1) == pt_index(b, 1),
        pt_index(a, 2) == pt_index(b, 2),
    ensures
        a == b,
{
    let x = a as int;
    let y = b as int;
    assert(x == (x / 262144) % 512 * 262144 + (x / 512) % 512 * 512 + x % 512) by (nonlinear_arith)
        requires 0 <= x < 0x800_0000;
    assert(y == (y / 262144) % 512 * 262144 + (y / 512) % 512 * 512 + y % 512) by (nonlinear_arith)
        requires 0 <= y < 0x800_0000;
}

/// A three-level SV39 page table. Its node contents are held by the table,
/// keyed by the physical page number of the frame each node lives in.
pub struct PageTable {
    root_ppn: PhysPageNum,
    nodes: BTreeMap<u64, Vec<PageTableEntry>>,
    paths: Ghost<Map<u64, Seq<int>>>,
}

impl PageTable {
    /// The node contents, by frame.
    pub closed spec fn node_map(&self) -> Map<u64, Seq<PageTableEntry>> {
        self.nodes@.map_values(|v: Vec<PageTableEntry>| v@)
    }

    /// The frames that hold this table's nodes.
    pub closed spec fn node_frames(&self) -> Set<u64> {
        self.nodes@.dom()
    }

    /// The frame of the root node.
    pub closed spec fn root(&self) -> u64 {
        self.root_ppn.0
    }

    pub closed spec fn wf(&self) -> bool {
        &&& tree_wf(self.node_map(), self.paths@, self.root_ppn.0)
        &&& forall|n: u64| #[trigger] self.nodes@.contains_key(n) ==> n < PPN_LIMIT
    }

    /// What the table maps: each page number below the SV39 limit whose walk
    /// ends at a valid leaf, to that leaf.
    pub closed spec fn view(&self) -> Map<u64, PageTableEntry> {
        Map::new(
            |vpn: u64| vpn < VPN_LIMIT && walk(self.node_map(), self.root_ppn.0, vpn) is Some,
            |vpn: u64| walk(self.node_map(), self.root_ppn.0, vpn).unwrap(),
        )
    }

    proof fn lemma_node_map(&self, n: u64)
        ensures
            self.nodes@.contains_key(n) == self.node_map().contains_key(n),
            self.nodes@.contains_key(n) ==> self.node_map()[n] == self.nodes@[n]@,
    {
    }

    /// A table of one empty root node, or `None` when no frame is free.
    pub fn new(allocator: &mut StackFrameAllocator) -> (r: Option<PageTable>)
        requires
            old(allocator).wf(),
            old(allocator).end() <= PPN_LIMIT,
        ensures
            final(allocator).wf(),
            final(allocator).end() == old(allocator).end(),
            r matches Some(t) ==> t.wf() && t@ == Map::<u64, PageTableEntry>::empty()
                && !old(allocator).allocated().contains(t.root()) && t.node_frames() == set![
                t.root()] && final(allocator).allocated() == old(allocator).allocated().insert(
                t.root(),
            ),
            r is None ==> final(allocator).allocated() == old(allocator).allocated(),
            r is Some ==> final(allocator).free_count() == old(allocator).free_count() - 1,
            old(allocator).recycled().len() > 0 || old(allocator).current() < old(allocator).end()
                ==> r is Some,
    {
        match frame_alloc(allocator) {
            None => None,
            Some(frame) => {
                let root = frame.ppn.0;
                let node = Self::empty_node_vec();
                let mut nodes: BTreeMap<u64, Vec<PageTableEntry>> = BTreeMap::new();
                nodes.insert(root, node);
                let ghost paths = Map::<u64, Seq<int>>::empty().insert(root, Seq::<int>::empty());
                let t = PageTable { root_ppn: frame.ppn, nodes, paths: Ghost(paths) };
                proof {
                    assert(t.nodes@.dom() =~= set![root]);
                    assert(t.paths@.dom() =~= t.node_map().dom());
                    lemma_empty_pte();
                    assert(t.node_map()[root] == empty_node());
                    assert forall|m: u64, j: int|
                        #![trigger t.node_map()[m][j]]
                        t.node_map().contains_key(m) && 0 <= j < PTE_PER_NODE implies !pte_valid(
                        t.node_map()[m][j],
                    ) by {
                        assert(m == root);
                        assert(t.node_map()[m][j] == zero_pte());
                    };
                    assert forall|vpn: u64| !(#[trigger] walk(t.node_map(), root, vpn) is Some) by {
                        assert(t.node_map()[root] == empty_node());
                        lemma_empty_pte();
                    };
                    assert(t@ =~= Map::<u64, PageTableEntry>::empty());
                    assert(allocator.allocated().contains(root));
                }
                Some(t)
            },
        }
    }

    fn empty_node_vec() -> (r: Vec<PageTableEntry>)
        ensures
            r@ == empty_node(),
    {
        let mut v: Vec<PageTableEntry> = Vec::new();
        let mut i: usize = 0;
        while i < PTE_PER_NODE
            invariant
                i <= PTE_PER_NODE,
                v@.len() == i,
                forall|j: int| 0 <= j < i ==> v@[j] == zero_pte(),
            decreases PTE_PER_NODE - i,
        {
            v.push(PageTableEntry::empty());
            i = i + 1;
        }
        assert(v@ =~= empty_node());
        v
    }

    /// Entry `i` of node `n`.
    fn entry(&self, n: u64, i: usize) -> (r: PageTableEntry)
        requires
            self.wf(),
            self.node_map().contains_key(n),
            i < PTE_PER_NODE,
        ensures
            r == self.node_map()[n][i as int],
    {
        proof {
            self.lemma_node_map(n);
        }
        let node = self.nodes.get(&n).unwrap();
        node[i]
    }

    /// Overwrites entry `i` of node `n`.
    fn set_entry(&mut self, n: u64, i: usize, e: PageTableEntry)
        requires
            old(self).node_map().contains_key(n),
            i < PTE_PER_NODE,
            old(self).node_map()[n].len() == PTE_PER_NODE,
        ensures
            final(self).node_map() == old(self).node_map().insert(
                n,
                old(self).node_map()[n].update(i as int, e),
            ),
            final(self).root_ppn == old(self).root_ppn,
            final(self).paths == old(self).paths,
            final(self).node_frames() == old(self).node_frames(),
    {
        proof {
            self.lemma_node_map(n);
        }
        let mut node = self.nodes.remove(&n).unwrap();
        node.set(i, e);
        self.nodes.insert(n, node);
        proof {
            assert(self.node_map() =~= old(self).node_map().insert(
                n,
                old(self).node_map()[n].update(i as int, e),
            ));
            assert(self.nodes@.dom() =~= old(self).nodes@.dom());
        }
    }

    /// The node that entry `i` of inner node `n` leads to, made from a fresh
    /// frame when the entry is not valid yet; `None` when that needs a
    /// frame and none is free.
    fn child_or_create(&mut self, allocator: &mut StackFrameAllocator, n: u64, i: usize) -> (r:
        Option<u64>)
        requires
            old(self).wf(),
            old(self).node_map().contains_key(n),
            old(self).paths@[n].len() < 2,
            i < PTE_PER_NODE,
            old(allocator).wf(),
            old(allocator).end() <= PPN_LIMIT,
        ensures
            final(self).wf(),
            final(self)@ == old(self)@,
            final(self).root() == old(self).root(),
            final(allocator).wf(),
            final(allocator).end() == old(allocator).end(),
            old(self).node_frames().subset_of(old(allocator).allocated()) ==> final(self).node_frames().subset_of(
                final(allocator).allocated(),
            ),
            final(allocator).allocated().difference(old(allocator).allocated()).subset_of(
                final(self).node_frames(),
            ),
            old(allocator).allocated().subset_of(final(allocator).allocated()),
            old(self).node_frames().subset_of(final(self).node_frames()),
            final(self).node_frames().subset_of(old(self).node_frames().union(
                final(allocator).allocated().difference(old(allocator).allocated()),
            )),
            forall|m: u64|
                old(self).node_map().contains_key(m) ==> #[trigger] final(self).paths@[m]
                    == old(self).paths@[m],
            r matches Some(c) ==> final(self).node_map().contains_key(c) && final(self).paths@[c]
                == old(self).paths@[n].push(i as int),
            r is None ==> final(self).node_frames() == old(self).node_frames(),
            r is None ==> old(allocator).free_count() == 0 || !old(self).node_frames().subset_of(
                old(allocator).allocated(),
            ),
            final(allocator).free_count() >= old(allocator).free_count() - 1,
            r matches Some(c) ==> pte_valid(final(self).node_map()[n][i as int]) && pte_ppn(
                final(self).node_map()[n][i as int],
            ) == c,
            forall|m: u64, j: int|
                old(self).node_map().contains_key(m) && 0 <= j < PTE_PER_NODE && (m != n || j != i) ==> #[trigger] final(self).node_map()[m][j]
                    == old(self).node_map()[m][j],
    {
        let e = self.entry(n, i);
        if e.is_valid() {
            let c = e.ppn().0;
            proof {
                assert(self.node_map()[n][i as int] == e);
                assert(allocator.allocated().difference(old(allocator).allocated()) =~= Set::empty());
            }
            return Some(c);
        }
        match frame_alloc(allocator) {
            None => None,
            Some(frame) => {
                let c = frame.ppn.0;
                let ghost old_nodes = self.node_map();
                let ghost old_paths = self.paths@;
                let ghost root = self.root_ppn.0;
                if self.nodes.contains_key(&c) {
                    proof {
                        assert(old(self).node_frames().contains(c));
                    }
                    frame_dealloc(allocator, frame.ppn);
                    proof {
                        assert(allocator.allocated() =~= old(allocator).allocated());
                    }
                    return None;
                }
                proof {
                    assert(allocator.allocated().contains(c));
                    assert(c < PPN_LIMIT);
                }
                let node = Self::empty_node_vec();
                self.nodes.insert(c, node);
                self.paths = Ghost(old_paths.insert(c, old_paths[n].push(i as int)));
                let pte = PageTableEntry::new(PhysPageNum(c), PTEFlags::from_bits(PTE_V));
                proof {
                    assert(self.node_map() =~= old_nodes.insert(c, empty_node()));
                    assert((PTE_V & 1u8) == 1u8) by (bit_vector);
                }
                self.set_entry(n, i, pte);
                proof {
                    lemma_link_fresh(old_nodes, old_paths, root, n, i as int, c, pte);
                    assert(self.node_map() == old_nodes.insert(c, empty_node()).insert(
                        n,
                        old_nodes[n].update(i as int, pte),
                    ));
                    assert forall|vpn: u64| #[trigger]
                        walk(self.node_map(), root, vpn) == walk(old_nodes, root, vpn) by {
                        lemma_link_fresh(old_nodes, old_paths, root, n, i as int, c, pte);
                    };
                    assert(self@ =~= old(self)@);
                    assert(self.nodes@.dom() =~= old(self).nodes@.dom().insert(c));
                    assert(self.node_map()[n][i as int] == pte);
                }
                Some(c)
            },
        }
    }

    /// The table is well formed, and every frame that `allocator` can hand
    /// out fits in an entry.
    pub open spec fn fits_in(&self, allocator: &StackFrameAllocator) -> bool {
        &&& self.wf()
        &&& allocator.wf()
        &&& allocator.end() <= PPN_LIMIT
    }

    /// Whether frame `ppn` holds one of this table's nodes.
    pub fn holds_node(&self, ppn: u64) -> (r: bool)
        ensures
            r == self.node_frames().contains(ppn),
    {
        self.nodes.contains_key(&ppn)
    }

    /// The leaf entry that the walk for `vpn` finds, if it is valid.
    pub open spec fn lookup(&self, vpn: u64) -> Option<PageTableEntry> {
        walk(self.node_map(), self.root(), vpn)
    }

    proof fn lemma_view(&self, vpn: u64)
        ensures
            self@.contains_key(vpn) == (vpn < VPN_LIMIT && self.lookup(vpn) is Some),
            self@.contains_key(vpn) ==> Some(self@[vpn]) == self.lookup(vpn),
    {
    }

    /// The node that holds the leaf entry for `vpn`, if the walk gets that
    /// far.
    fn find_leaf(&self, vpn: VirtPageNum) -> (r: Option<u64>)
        requires
            self.wf(),
        ensures
            r matches Some(n2) ==> self.node_map().contains_key(n2) && self.paths@[n2]
                == vpn_prefix(vpn.0, 2) && self.lookup(vpn.0) == (if pte_valid(
                self.node_map()[n2][pt_index(vpn.0, 2)],
            ) {
                Some(self.node_map()[n2][pt_index(vpn.0, 2)])
            } else {
                None
            }),
            r matches Some(n2) ==> ({
                let e0 = self.node_map()[self.root()][pt_index(vpn.0, 0)];
                let e1 = self.node_map()[pte_ppn(e0)][pt_index(vpn.0, 1)];
                pte_valid(e0) && pte_valid(e1) && n2 == pte_ppn(e1)
            }),
            r is None ==> self.lookup(vpn.0) is None,
    {
        proof {
            lemma_walk_visits(self.node_map(), self.paths@, self.root_ppn.0, vpn.0);
        }
        let idxs = vpn.indexes();
        let e0 = self.entry(self.root_ppn.0, idxs[0]);
        if !e0.is_valid() {
            return None;
        }
        let n1 = e0.ppn().0;
        let e1 = self.entry(n1, idxs[1]);
        if !e1.is_valid() {
            return None;
        }
        Some(e1.ppn().0)
    }

    /// The valid leaf entry for `vpn`, or `None` when some entry on the way
    /// is not valid.
    pub fn translate(&self, vpn: VirtPageNum) -> (r: Option<PageTableEntry>)
        requires
            self.wf(),
        ensures
            r == self.lookup(vpn.0),
            vpn.0 < VPN_LIMIT ==> (r is Some <==> self@.contains_key(vpn.0)),
            vpn.0 < VPN_LIMIT && r is Some ==> r == Some(self@[vpn.0]),
    {
        proof {
            self.lemma_view(vpn.0);
        }
        match self.find_leaf(vpn) {
            None => None,
            Some(n2) => {
                let idxs = vpn.indexes();
                let e = self.entry(n2, idxs[2]);
                if e.is_valid() {
                    Some(e)
                } else {
                    None
                }
            },
        }
    }

    /// Maps `vpn` to frame `ppn` with `flags` and the valid bit, building
    /// the inner nodes on the way from fresh frames as needed. Returns
    /// `false`, with the mapping unchanged, when a node was needed and no
    /// frame was free.
    pub fn map(
        &mut self,
        allocator: &mut StackFrameAllocator,
        vpn: VirtPageNum,
        ppn: PhysPageNum,
        flags: PTEFlags,
    ) -> (r: bool)
        requires
            old(self).wf(),
            vpn.0 < VPN_LIMIT,
            ppn.0 < PPN_LIMIT,
            !old(self)@.contains_key(vpn.0),
            old(allocator).wf(),
            old(allocator).end() <= PPN_LIMIT,
        ensures
            final(self).wf(),
            final(self).root() == old(self).root(),
            final(allocator).wf(),
            final(allocator).end() == old(allocator).end(),
            old(self).node_frames().subset_of(old(allocator).allocated()) ==> final(self).node_frames().subset_of(
                final(allocator).allocated(),
            ),
            old(allocator).allocated().subset_of(final(allocator).allocated()),
            old(self).node_frames().subset_of(final(self).node_frames()),
            final(allocator).allocated().difference(old(allocator).allocated()).subset_of(
                final(self).node_frames(),
            ),
            final(self).node_frames().subset_of(old(self).node_frames().union(
                final(allocator).allocated().difference(old(allocator).allocated()),
            )),
            r ==> final(self)@ == old(self)@.insert(vpn.0, pte_of(ppn.0, flags.bits | PTE_V)),
            !r ==> final(self)@ == old(self)@,
            final(allocator).free_count() >= old(allocator).free_count() - 2,
            old(allocator).free_count() >= 2 && old(self).node_frames().subset_of(old(allocator).allocated())
                ==> r,
    {
        let idxs = vpn.indexes();
        let root = self.root_ppn.0;
        let n1 = match self.child_or_create(allocator, root, idxs[0]) {
            None => {
                return false;
            },
            Some(c) => c,
        };
        let ghost s1 = self.node_map();
        let n2 = match self.child_or_create(allocator, n1, idxs[1]) {
            None => {
                return false;
            },
            Some(c) => c,
        };
        let ghost s2 = self.node_map();
        let ghost paths = self.paths@;
        let flags_v = flags.union(PTEFlags::from_bits(PTE_V));
        let pte = PageTableEntry::new(ppn, flags_v);
        proof {
            let fb = flags.bits;
            assert((fb | 1u8) & 1u8 == 1u8) by (bit_vector);
            lemma_walk_visits(s2, paths, root, vpn.0);
            assert(paths[n1] =~= vpn_prefix(vpn.0, 1));
            assert(paths[n2] =~= vpn_prefix(vpn.0, 2));
            assert(root != n1);
            assert(s2[root][idxs[0] as int] == s1[root][idxs[0] as int]);
            old(self).lemma_view(vpn.0);
            self.lemma_view(vpn.0);
            assert(!pte_valid(s2[n2][idxs[2] as int]));
        }
        self.set_entry(n2, idxs[2], pte);
        proof {
            let s3 = self.node_map();
            lemma_leaf_write(s2, paths, root, n2, idxs[2] as int, pte);
            assert(n1 != n2 && root != n2);
            assert(s3[root][idxs[0] as int] == s2[root][idxs[0] as int]);
            assert(s3[n1][idxs[1] as int] == s2[n1][idxs[1] as int]);
            assert(walk(s3, root, vpn.0) == Some(pte));
            assert forall|v: u64| v != vpn.0 && v < VPN_LIMIT implies #[trigger] walk(s3, root, v)
                == walk(s2, root, v) by {
                if vpn_prefix(v, 2) == paths[n2] && pt_index(v, 2) == idxs[2] as int {
                    assert(vpn_prefix(v, 2)[0] == vpn_prefix(vpn.0, 2)[0]);
                    assert(vpn_prefix(v, 2)[1] == vpn_prefix(vpn.0, 2)[1]);
                    lemma_indices_determine(v, vpn.0);
                }
                lemma_write_frame(s2, paths, root, n2, idxs[2] as int, pte, v);
            };
            assert(self@ =~= old(self)@.insert(vpn.0, pte_of(ppn.0, flags.bits | PTE_V)));
        }
        true
    }

    /// Clears the leaf entry of a mapped `vpn`.
    pub fn unmap(&mut self, vpn: VirtPageNum)
        requires
            old(self).wf(),
            old(self)@.contains_key(vpn.0),
        ensures
            final(self).wf(),
            final(self).root() == old(self).root(),
            final(self).node_frames() == old(self).node_frames(),
            final(self)@ == old(self)@.remove(vpn.0),
    {
        proof {
            self.lemma_view(vpn.0);
        }
        let n2 = self.find_leaf(vpn).unwrap();
        let idxs = vpn.indexes();
        let ghost s2 = self.node_map();
        let ghost paths = self.paths@;
        let ghost root = self.root_ppn.0;
        self.set_entry(n2, idxs[2], PageTableEntry::empty());
        proof {
            let s3 = self.node_map();
            lemma_empty_pte();
            lemma_walk_visits(s2, paths, root, vpn.0);
            lemma_leaf_write(s2, paths, root, n2, idxs[2] as int, zero_pte());
            assert(walk(s3, root, vpn.0) is None) by {
                let e0 = s2[root][idxs[0] as int];
                let n1 = pte_ppn(e0);
                assert(root != n2);
                assert(n1 != n2);
                assert(s3[root][idxs[0] as int] == e0);
                assert(s3[n1][idxs[1] as int] == s2[n1][idxs[1] as int]);
            };
            assert forall|v: u64| v != vpn.0 && v < VPN_LIMIT implies #[trigger] walk(s3, root, v)
                == walk(s2, root, v) by {
                if vpn_prefix(v, 2) == paths[n2] && pt_index(v, 2) == idxs[2] as int {
                    assert(vpn_prefix(v, 2)[0] == vpn_prefix(vpn.0, 2)[0]);
                    assert(vpn_prefix(v, 2)[1] == vpn_prefix(vpn.0, 2)[1]);
                    lemma_indices_determine(v, vpn.0);
                }
                lemma_write_frame(s2, paths, root, n2, idxs[2] as int, zero_pte(), v);
            };
            assert(self@ =~= old(self)@.remove(vpn.0));
        }
    }

    /// The value to install in the root-table register: the SV39 mode tag
    /// above the root frame number.
    pub fn token(&self) -> (r: u64)
        requires
            self.wf(),
        ensures
            r == SATP_SV39 + self.root(),
    {
        proof {
            assert(self.nodes@.contains_key(self.root_ppn.0));
            let x = self.root_ppn.0;
            assert(x < 0x1000_0000_0000u64 ==> (8u64 << 60u64) | x == 0x8000_0000_0000_0000u64 + x)
                by (bit_vector);
        }
        (8u64 << 60u64) | self.root_ppn.0
    }
}

/// Mapping an unmapped page makes it translate to the new entry, and
/// unmapping it again leaves the table translating exactly as before.
pub proof fn lemma_map_unmap_inverse(
    before: PageTable,
    mapped: PageTable,
    unmapped: PageTable,
    vpn: VirtPageNum,
    ppn: PhysPageNum,
    flags: PTEFlags,
)
    requires
        before.wf(),
        vpn.0 < VPN_LIMIT,
        !before@.contains_key(vpn.0),
        mapped@ == before@.insert(vpn.0, pte_of(ppn.0, flags.bits | PTE_V)),
        unmapped@ == mapped@.remove(vpn.0),
    ensures
        mapped@.contains_key(vpn.0),
        mapped@[vpn.0] == pte_of(ppn.0, flags.bits | PTE_V),
        !unmapped@.contains_key(vpn.0),
        unmapped@ == before@,
{
    assert(unmapped@ =~= before@);
}

/// Whether every page of `[ptr, ptr + len)` is mapped in `view` and the
/// range lies in the address window.
pub open spec fn translate_byte_buffer_ok(view: Map<u64, PageTableEntry>, ptr: u64, len: u64) -> bool {
    &&& ptr + len <= VA_LIMIT
    &&& forall|a: int| ptr <= a < ptr + len ==> #[trigger] view.contains_key((a / PAGE_SIZE as int) as u64)
}

/// A run of bytes inside one physical frame: offsets `[start, end)`.
#[derive(Clone, Copy, Debug, PartialEq, Eq, Structural)]
pub struct ByteChunk {
    pub ppn: PhysPageNum,
    pub start: u64,
    pub end: u64,
}

/// The number of bytes in `chunks`.
pub open spec fn total_len(chunks: Seq<ByteChunk>) -> int
    decreases chunks.len(),
{
    if chunks.len() == 0 {
        0
    } else {
        total_len(chunks.drop_last()) + (chunks.last().end - chunks.last().start)
    }
}

/// Chunk `c` holds the bytes from virtual address `va` on, up to the end of
/// its page at most, in the frame `view` maps that page to.
pub open spec fn chunk_at(view: Map<u64, PageTableEntry>, c: ByteChunk, va: int) -> bool {
    &&& view.contains_key((va / PAGE_SIZE as int) as u64)
    &&& c.ppn.0 == pte_ppn(view[(va / PAGE_SIZE as int) as u64])
    &&& c.start == va % PAGE_SIZE as int
    &&& c.start < c.end <= PAGE_SIZE
}

/// The chunks of `[ptr, ptr + len)` through `page_table`, split at page
/// boundaries, in address order. `None` when the range leaves the address
/// window or one of its pages is not mapped.
pub fn translate_byte_buffer(page_table: &PageTable, ptr: u64, len: u64) -> (r: Option<Vec<ByteChunk>>)
    requires
        page_table.wf(),
    ensures
        r matches Some(chunks) ==> {
            &&& total_len(chunks@) == len
            &&& forall|i: int| 0 <= i < chunks@.len() ==> #[trigger] chunk_at(page_table@, chunks@[i], ptr + total_len(chunks@.take(i)))
            &&& forall|i: int| 0 <= i < chunks@.len() - 1 ==> (#[trigger] chunks@[i]).end == PAGE_SIZE
        },
        r is None <==> !translate_byte_buffer_ok(page_table@, ptr, len),
{
    if ptr > VA_LIMIT || len > VA_LIMIT - ptr {
        return None;
    }
    proof {
        assert(ptr + len <= VA_LIMIT);
    }
    let end = ptr + len;
    let mut start = ptr;
    let mut v: Vec<ByteChunk> = Vec::new();
    while start < end
        invariant
            ptr <= start <= end <= VA_LIMIT,
            end == ptr + len,
            total_len(v@) == start - ptr,
            page_table.wf(),
            forall|i: int| 0 <= i < v@.len() ==> #[trigger] chunk_at(page_table@, v@[i], ptr + total_len(v@.take(i))),
            forall|a: int| ptr <= a < start ==> #[trigger] page_table@.contains_key((a / PAGE_SIZE as int) as u64),
            forall|i: int| 0 <= i < v@.len() - 1 ==> (#[trigger] v@[i]).end == PAGE_SIZE,
            v@.len() > 0 && start < end ==> v@.last().end == PAGE_SIZE,
        decreases end - start,
    {
        let start_va = VirtAddr(start);
        let vpn = start_va.floor();
        let ppn = match page_table.translate(vpn) {
            None => {
                proof {
                    assert(!page_table@.contains_key((start as int / PAGE_SIZE as int) as u64));
                    assert(!translate_byte_buffer_ok(page_table@, ptr, len));
                }
                return None;
            },
            Some(pte) => pte.ppn(),
        };
        proof {
            crate::address::lemma_address_round_trip(start_va);
        }
        let page_end: u64 = (vpn.0 + 1) * PAGE_SIZE;
        let chunk_end: u64 = if page_end < end {
            page_end
        } else {
            end
        };
        let c = ByteChunk { ppn, start: start_va.page_offset(), end: start_va.page_offset() + (chunk_end - start) };
        proof {
            let st = start as int;
            let pe = page_end as int;
            assert(st % 4096 + (pe - st) == 4096) by (nonlinear_arith)
                requires pe == (st / 4096 + 1) * 4096, st >= 0;
            assert(c.start == start % 4096);
        }
        let ghost v0 = v@;
        v.push(c);
        proof {
            assert(chunk_end < end ==> c.end == PAGE_SIZE);
            assert forall|i: int| 0 <= i < v@.len() - 1 implies (#[trigger] v@[i]).end == PAGE_SIZE by {
                assert(v@[i] == v0[i]);
            };
            assert(v@.drop_last() =~= v0);
            assert(v@.take(v0.len() as int) =~= v0);
            assert forall|i: int| 0 <= i < v@.len() implies #[trigger] chunk_at(page_table@, v@[i], ptr + total_len(v@.take(i))) by {
                if i < v0.len() {
                    assert(v@.take(i) =~= v0.take(i));
                    assert(v@[i] == v0[i]);
                }
            };
            assert forall|a: int| ptr <= a < chunk_end implies #[trigger] page_table@.contains_key((a / PAGE_SIZE as int) as u64) by {
                if a >= start {
                    assert(a / 4096 == start as int / 4096) by (nonlinear_arith)
                        requires start <= a, a < chunk_end, chunk_end <= page_end, page_end == (start as int / 4096 + 1) * 4096, start >= 0;
                }
            };
        }
        start = chunk_end;
    }
    proof {
        assert(translate_byte_buffer_ok(page_table@, ptr, len));
    }
    Some(v)
}

} // verus!
