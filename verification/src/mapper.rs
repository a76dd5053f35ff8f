//! The mapper: the 4-level page-table hierarchy and its operations.
//!
//! On the hardware, page tables live in physical frames and the active
//! root is found through the CPU's root register; a recursive slot in
//! the root table (entry 511 points back at the root frame) lets the
//! kernel reach every table through fixed address arithmetic. This crate
//! models the same state directly: a store from frame index to table
//! contents, plus the root frame the walk starts from. Every operation
//! of the original design — walking, mapping, unmapping, retargeting to
//! an inactive root — is a verified function over that store.

use vstd::prelude::*;
use vstd::hash_map::HashMapWithView;
use crate::frame::Frame;
use crate::frame_allocators::FrameAllocator;
use crate::page::{
    Page, spec_canonical_page, spec_p1_index, spec_p2_index, spec_p3_index, spec_p4_index,
};
use crate::table::{
    Entry, EntryFlags, Table, lemma_entry_bit_facts, lemma_entry_value_decodes, spec_entry_frame,
    spec_entry_value, spec_huge, spec_present, spec_zero_table, ADDRESS_MASK, ALL_FLAGS, PRESENT,
    WRITABLE,
};

verus! {

/// The frame index an entry points at, as a store key.
pub open spec fn spec_child(e: u64) -> u64 {
    spec_entry_frame(e) as u64
}

/// The result of the 4-level table walk for a virtual page: the physical
/// frame it maps to, through either a present P1 entry, a 2 MiB huge
/// entry at P2, or a 1 GiB huge entry at P3.
pub open spec fn spec_walk_page(mem: Map<u64, Seq<u64>>, root: u64, page: nat) -> Option<nat> {
    let e4 = mem[root][spec_p4_index(page) as int];
    if !(spec_present(e4) && !spec_huge(e4)) {
        None
    } else {
        let e3 = mem[spec_child(e4)][spec_p3_index(page) as int];
        if spec_present(e3) && spec_huge(e3) {
            Some(spec_entry_frame(e3) + spec_p2_index(page) * 512 + spec_p1_index(page))
        } else if spec_present(e3) {
            let e2 = mem[spec_child(e3)][spec_p2_index(page) as int];
            if spec_present(e2) && spec_huge(e2) {
                Some(spec_entry_frame(e2) + spec_p1_index(page))
            } else if spec_present(e2) {
                let e1 = mem[spec_child(e2)][spec_p1_index(page) as int];
                if spec_present(e1) {
                    Some(spec_entry_frame(e1))
                } else {
                    None
                }
            } else {
                None
            }
        } else {
            None
        }
    }
}

/// The walk applied to a whole virtual address: page walk plus offset.
pub open spec fn spec_translate_addr(mem: Map<u64, Seq<u64>>, root: u64, va: nat) -> Option<nat> {
    match spec_walk_page(mem, root, va / 4096) {
        Some(f) => Some(f * 4096 + va % 4096),
        None => None,
    }
}

/// How many of the three sub-tables (P3, P2, P1) a mapping of `page`
/// would still have to create: the first absent entry on the directory
/// path decides.
pub open spec fn spec_missing_tables(mem: Map<u64, Seq<u64>>, root: u64, page: nat) -> nat {
    let e4 = mem[root][spec_p4_index(page) as int];
    if !spec_present(e4) {
        3
    } else {
        let e3 = mem[spec_child(e4)][spec_p3_index(page) as int];
        if !spec_present(e3) {
            2
        } else {
            let e2 = mem[spec_child(e3)][spec_p2_index(page) as int];
            if !spec_present(e2) {
                1
            } else {
                0
            }
        }
    }
}

/// No stored table holds a present huge-page entry. The kernel never
/// creates huge mappings, so every store this crate builds satisfies
/// this; the walk then succeeds only through full directory chains.
pub open spec fn spec_mem_no_huge(mem: Map<u64, Seq<u64>>) -> bool {
    forall|f: u64, i: int|
        mem.dom().contains(f) && 0 <= i < 512 ==> !(spec_present(#[trigger] mem[f][i]) && spec_huge(
            mem[f][i],
        ))
}

/// Entry `i` of table `f` links to a child table: a present, non-huge
/// entry of a directory level, not counting the recursive slot.
pub open spec fn spec_dir_link(mem: Map<u64, Seq<u64>>, lv: Map<u64, nat>, f: u64, i: int) -> bool {
    &&& mem.dom().contains(f)
    &&& 0 <= i < 512
    &&& 2 <= lv[f]
    &&& !(lv[f] == 4 && i == 511)
    &&& spec_present(mem[f][i])
    &&& !spec_huge(mem[f][i])
}

/// What one entry of a stored table may hold, given the level of its
/// table: absent entries are fully cleared; leaf entries map anything;
/// the recursive slot of a root points back at the root; huge entries
/// are aligned to the size they map; and directory entries point at a
/// stored table one level down.
pub open spec fn spec_entry_ok(mem: Map<u64, Seq<u64>>, lv: Map<u64, nat>, f: u64, i: int) -> bool {
    let e = mem[f][i];
    &&& (!spec_present(e) ==> e == 0)
    &&& spec_present(e) ==> {
        if lv[f] == 1 {
            true
        } else if lv[f] == 4 && i == 511 {
            !spec_huge(e) && spec_child(e) == f
        } else if spec_huge(e) {
            if lv[f] == 3 {
                spec_entry_frame(e) % 0x40000 == 0
            } else if lv[f] == 2 {
                spec_entry_frame(e) % 512 == 0
            } else {
                false
            }
        } else {
            &&& mem.dom().contains(spec_child(e))
            &&& lv[spec_child(e)] == lv[f] - 1
        }
    }
}

/// Well-formedness of a whole store: a root at level 4 whose recursive
/// slot is present and writable, every stored table 512 entries long
/// with a 40-bit frame index, every entry as `spec_entry_ok` says, and
/// no two directory links aimed at the same child table.
pub open spec fn spec_state_inv(mem: Map<u64, Seq<u64>>, lv: Map<u64, nat>, root: u64) -> bool {
    &&& mem.dom().contains(root)
    &&& lv[root] == 4
    &&& mem[root][511] == spec_entry_value(root as nat, PRESENT | WRITABLE)
    &&& forall|f: u64|
        #[trigger] mem.dom().contains(f) ==> 1 <= lv[f] <= 4 && mem[f].len() == 512 && f
            < 0x100_0000_0000
    &&& forall|f: u64, i: int|
        mem.dom().contains(f) && 0 <= i < 512 ==> #[trigger] spec_entry_ok(mem, lv, f, i)
    &&& forall|f1: u64, i1: int, f2: u64, i2: int|
        #[trigger] spec_dir_link(mem, lv, f1, i1) && #[trigger] spec_dir_link(mem, lv, f2, i2) && !(
        f1 == f2 && i1 == i2) ==> spec_child(mem[f1][i1]) != spec_child(mem[f2][i2])
}

/// Owns the store of page-table frames and the root the walk starts at.
pub struct Mapper {
    tables: HashMapWithView<u64, Table>,
    root: u64,
    levels: Ghost<Map<u64, nat>>,
}

impl Mapper {
    /// The table contents of every stored page-table frame.
    pub closed spec fn mem(self) -> Map<u64, Seq<u64>> {
        Map::new(|f: u64| self.tables@.dom().contains(f), |f: u64| self.tables@[f]@)
    }

    /// The frame the walk starts at: the model's stand-in for the value
    /// of the CPU's root register.
    pub closed spec fn root_frame(self) -> u64 {
        self.root
    }

    pub(crate) closed spec fn lv(self) -> Map<u64, nat> {
        self.levels@
    }

    /// The mapper's well-formedness.
    pub closed spec fn inv(self) -> bool {
        spec_state_inv(self.mem(), self.lv(), self.root)
    }

    /// Frame `f` holds a root-style table: stored at the root level with
    /// its recursive slot aimed at itself. Only such frames may become
    /// the walk's root.
    pub closed spec fn is_root_table(self, f: u64) -> bool {
        &&& self.mem().dom().contains(f)
        &&& self.lv()[f] == 4
        &&& self.mem()[f][511] == spec_entry_value(f as nat, PRESENT | WRITABLE)
    }

    /// The current root is always a root-style table.
    pub proof fn lemma_root_is_root_table(&self)
        requires
            self.inv(),
        ensures
            self.is_root_table(self.root_frame()),
    {
    }

    /// What a root-style table pins down publicly: its recursive slot
    /// holds itself, present and writable.
    pub proof fn lemma_root_table_entry(&self, f: u64)
        requires
            self.inv(),
            self.is_root_table(f),
        ensures
            self.mem().dom().contains(f),
            self.mem()[f][511] == spec_entry_value(f as nat, PRESENT | WRITABLE),
            f < 0x100_0000_0000,
            self.table_frames().contains(f as nat),
    {
    }

    /// In a store without huge entries, a successful walk means the full
    /// directory chain for the page is present, ending in a present P1
    /// entry — the shape `unmap` asks for.
    pub proof fn lemma_walk_implies_chain(&self, p: nat)
        requires
            self.inv(),
            spec_mem_no_huge(self.mem()),
            spec_walk_page(self.mem(), self.root_frame(), p) is Some,
        ensures
            spec_chain_present(
                self.mem(),
                self.root_frame(),
                spec_p4_index(p) as int,
                spec_p3_index(p) as int,
                spec_p2_index(p) as int,
            ),
            spec_present(
                self.mem()[spec_chain_leaf(
                    self.mem(),
                    self.root_frame(),
                    spec_p4_index(p) as int,
                    spec_p3_index(p) as int,
                    spec_p2_index(p) as int,
                )][spec_p1_index(p) as int],
            ),
    {
        let mem = self.mem();
        let lv = self.lv();
        let root = self.root;
        let i4 = spec_p4_index(p) as int;
        let i3 = spec_p3_index(p) as int;
        let i2 = spec_p2_index(p) as int;
        assert(0 <= i4 < 512 && 0 <= i3 < 512 && 0 <= i2 < 512);
        let e4 = mem[root][i4];
        assert(!(spec_present(e4) && spec_huge(e4)));
        assert(spec_present(e4));
        assert(spec_entry_ok(mem, lv, root, i4));
        let t3 = spec_child(e4);
        assert(mem.dom().contains(t3));
        let e3 = mem[t3][i3];
        assert(!(spec_present(e3) && spec_huge(e3)));
        assert(spec_present(e3));
        assert(spec_entry_ok(mem, lv, t3, i3));
        let t2 = spec_child(e3);
        assert(mem.dom().contains(t2));
        let e2 = mem[t2][i2];
        assert(!(spec_present(e2) && spec_huge(e2)));
        assert(spec_present(e2));
    }

    /// The store's frames at directory levels, as the invariant sees
    /// them. Exposed only so that contracts can speak of which frames
    /// hold page tables.
    pub closed spec fn table_frames(self) -> Set<nat> {
        Set::new(|f: nat| f < 0x100_0000_0000 && self.tables@.dom().contains(f as u64))
    }

    /// A mapper over one freshly zeroed root table whose recursive slot
    /// points back at itself. This models taking ownership of a root
    /// frame (the boot stub keeps its tables inside the kernel image).
    pub(crate) fn new_with_root(frame: Frame) -> (r: Mapper)
        requires
            frame@ < 0x100_0000_0000,
        ensures
            r.inv(),
            r.root_frame() == frame@,
            r.mem().dom() =~= Set::<u64>::empty().insert(frame@ as u64),
            r.mem()[frame@ as u64] == spec_zero_table().update(
                511,
                spec_entry_value(frame@, PRESENT | WRITABLE),
            ),
            spec_mem_no_huge(r.mem()),
            r.is_root_table(frame@ as u64),
            r.table_frames() =~= Set::<nat>::empty().insert(frame@),
    {
        let root: u64 = frame.index();
        let mut table = Table::new();
        let mut entry = Entry::unused();
        entry.set(frame, EntryFlags::from_bits_truncate(PRESENT | WRITABLE));
        table.set_entry(511, entry);
        let mut tables: HashMapWithView<u64, Table> = HashMapWithView::new();
        tables.insert(root, table);
        let r = Mapper {
            tables,
            root,
            levels: Ghost(Map::<u64, nat>::empty().insert(root, 4)),
        };
        proof {
            lemma_entry_bit_facts();
            lemma_entry_value_decodes(root, PRESENT | WRITABLE);
            assert(r.mem().dom() =~= Set::<u64>::empty().insert(root));
            assert(r.mem()[root] =~= spec_zero_table().update(
                511,
                spec_entry_value(frame@, PRESENT | WRITABLE),
            ));
            assert forall|f: u64, i: int|
                r.mem().dom().contains(f) && 0 <= i < 512 implies #[trigger] spec_entry_ok(
                r.mem(),
                r.lv(),
                f,
                i,
            ) by {
                assert(f == root);
                let e = r.mem()[f][i];
                if i == 511 {
                    assert(e == spec_entry_value(root as nat, PRESENT | WRITABLE));
                    assert(!spec_huge(e) && spec_child(e) == f);
                } else {
                    assert(e == spec_zero_table()[i]);
                    assert(e == 0);
                    assert((0u64 & 0x1) == 0);
                    assert(!spec_present(e));
                }
            }
            assert forall|f1: u64, i1: int, f2: u64, i2: int|
                spec_dir_link(r.mem(), r.lv(), f1, i1) && spec_dir_link(r.mem(), r.lv(), f2, i2)
                    && !(f1 == f2 && i1 == i2) implies spec_child(r.mem()[f1][i1]) != spec_child(
                r.mem()[f2][i2],
            ) by {
                assert(r.mem()[f1][i1] == 0 || (f1 == root && i1 == 511));
                assert(false);
            }
            assert(!spec_huge(spec_entry_value(root as nat, PRESENT | WRITABLE)));
            assert forall|f: u64, i: int|
                r.mem().dom().contains(f) && 0 <= i < 512 implies !(spec_present(
                #[trigger] r.mem()[f][i]) && spec_huge(r.mem()[f][i])) by {
                if i != 511 {
                    assert(r.mem()[f][i] == 0);
                    assert((0u64 & PRESENT) == 0);
                }
            }
            assert(r.table_frames() =~= Set::<nat>::empty().insert(frame@));
        }
        r
    }

    /// The root frame of the hierarchy the mapper is editing; on the
    /// hardware this is a read of the root register.
    pub fn p4_frame(&self) -> (r: Frame)
        requires
            self.inv(),
        ensures
            r@ == self.root_frame(),
    {
        Frame::new(self.root)
    }

    /// The root (P4) table itself.
    pub fn p4(&self) -> (r: &Table)
        requires
            self.inv(),
        ensures
            r@ == self.mem()[self.root_frame()],
    {
        self.tables.get(&self.root).unwrap()
    }

    /// Walks the hierarchy for `page` and returns the frame it maps to,
    /// through a P1 entry or a (necessarily aligned) huge entry.
    pub fn page_to_frame(&self, page: Page) -> (r: Option<Frame>)
        requires
            self.inv(),
        ensures
            match r {
                Some(f) => spec_walk_page(self.mem(), self.root_frame(), page@) == Some(f@),
                None => spec_walk_page(self.mem(), self.root_frame(), page@) is None,
            },
    {
        proof {
            lemma_entry_bit_facts();
        }
        let ghost mem = self.mem();
        let ghost lv = self.lv();
        let p4 = self.tables.get(&self.root).unwrap();
        let e4 = p4.entry(page.p4_index());
        let f3 = match e4.pointed_frame() {
            Some(f) => f,
            None => {
                return None;
            },
        };
        if e4.flags().contains(EntryFlags::from_bits_truncate(crate::table::HUGE_PAGE)) {
            proof {
                lemma_flags_huge(e4@);
            }
            return None;
        }
        proof {
            lemma_flags_huge(e4@);
            assert(spec_entry_ok(mem, lv, self.root, spec_p4_index(page@) as int));
        }
        let p3 = self.tables.get(&f3.index()).unwrap();
        let e3 = p3.entry(page.p3_index());
        let ghost i3 = spec_p3_index(page@) as int;
        match e3.pointed_frame() {
            Some(start) => {
                if e3.flags().contains(EntryFlags::from_bits_truncate(crate::table::HUGE_PAGE)) {
                    // A 1 GiB page; the invariant keeps it 1 GiB-aligned.
                    proof {
                        lemma_flags_huge(e3@);
                    }
                    return Some(
                        Frame::new(start.index() + page.p2_index() * 512 + page.p1_index()),
                    );
                }
                proof {
                    lemma_flags_huge(e3@);
                    assert(spec_entry_ok(mem, lv, spec_child(e4@), i3));
                }
                let p2 = self.tables.get(&start.index()).unwrap();
                let e2 = p2.entry(page.p2_index());
                let ghost i2 = spec_p2_index(page@) as int;
                match e2.pointed_frame() {
                    Some(start2) => {
                        if e2.flags().contains(
                            EntryFlags::from_bits_truncate(crate::table::HUGE_PAGE),
                        ) {
                            // A 2 MiB page; the invariant keeps it 2 MiB-aligned.
                            proof {
                                lemma_flags_huge(e2@);
                            }
                            return Some(Frame::new(start2.index() + page.p1_index()));
                        }
                        proof {
                            lemma_flags_huge(e2@);
                            assert(spec_entry_ok(mem, lv, spec_child(e3@), i2));
                        }
                        let p1 = self.tables.get(&start2.index()).unwrap();
                        let e1 = p1.entry(page.p1_index());
                        e1.pointed_frame()
                    },
                    None => None,
                }
            },
            None => None,
        }
    }

    /// Finds the child table under `parent` at `index`, materializing a
    /// freshly zeroed one (frame from `allocator`, entry set present and
    /// writable) if the slot is unused.
    fn ensure_child<A: FrameAllocator>(
        &mut self,
        parent: u64,
        index: u64,
        level: Ghost<nat>,
        allocator: &mut A,
    ) -> (r: u64)
        requires
            old(self).inv(),
            old(allocator).inv(),
            old(self).mem().dom().contains(parent),
            old(self).lv()[parent] == level@,
            2 <= level@ <= 4,
            index < 512,
            !(level@ == 4 && index == 511),
            !(spec_present(old(self).mem()[parent][index as int]) && spec_huge(
                old(self).mem()[parent][index as int],
            )),
            old(self).table_frames().disjoint(old(allocator).future()),
            !spec_present(old(self).mem()[parent][index as int]) ==> old(allocator).avail() >= 1,
        ensures
            final(self).inv(),
            final(allocator).inv(),
            final(self).root_frame() == old(self).root_frame(),
            final(self).mem().dom().contains(r),
            final(self).lv()[r] == (level@ - 1) as nat,
            ({
                let e = final(self).mem()[parent][index as int];
                spec_present(e) && !spec_huge(e) && spec_child(e) == r
            }),
            old(self).mem().dom().subset_of(final(self).mem().dom()),
            forall|f: u64|
                old(self).mem().dom().contains(f) ==> final(self).lv()[f] == old(self).lv()[f],
            forall|f: u64, i: int|
                old(self).mem().dom().contains(f) && 0 <= i < 512 && !(f == parent && i
                    == index as int) ==> final(self).mem()[f][i] == old(self).mem()[f][i],
            forall|p: nat|
                spec_p4_index(p) != 511 ==> spec_walk_page(
                    final(self).mem(),
                    final(self).root_frame(),
                    p,
                ) == spec_walk_page(old(self).mem(), old(self).root_frame(), p),
            final(self).table_frames().disjoint(final(allocator).future()),
            old(self).table_frames().subset_of(final(self).table_frames()),
            forall|n: nat|
                final(self).table_frames().contains(n) ==> old(self).table_frames().contains(n)
                    || old(allocator).future().contains(n),
            final(allocator).future().subset_of(old(allocator).future()),
            spec_present(old(self).mem()[parent][index as int]) ==> *final(allocator) == *old(
                allocator,
            ) && final(self).mem() == old(self).mem(),
            !spec_present(old(self).mem()[parent][index as int]) ==> final(allocator).avail() + 1
                >= old(allocator).avail(),
            spec_mem_no_huge(old(self).mem()) ==> spec_mem_no_huge(final(self).mem()),
            forall|f: u64| old(self).is_root_table(f) ==> final(self).is_root_table(f),
    {
        proof {
            lemma_entry_bit_facts();
        }
        let ghost mem1 = self.mem();
        let ghost lv1 = self.lv();
        let e = self.tables.get(&parent).unwrap().entry(index);
        match e.pointed_frame() {
            Some(f) => {
                proof {
                    assert(spec_entry_ok(mem1, lv1, parent, index as int));
                }
                f.index()
            },
            None => {
                let frame = allocator.alloc_frame().unwrap();
                let nf = frame.index();
                proof {
                    assert(old(allocator).future().contains(nf as nat));
                    assert(!old(self).table_frames().contains(nf as nat));
                    assert(!mem1.dom().contains(nf));
                }
                self.tables.insert(nf, Table::new());
                let mut ptab = self.tables.remove(&parent).unwrap();
                let mut entry = Entry::unused();
                entry.set(frame, EntryFlags::from_bits_truncate(PRESENT | WRITABLE));
                ptab.set_entry(index, entry);
                self.tables.insert(parent, ptab);
                self.levels = Ghost(lv1.insert(nf, (level@ - 1) as nat));
                proof {
                    let ev = spec_entry_value(nf as nat, PRESENT | WRITABLE);
                    lemma_entry_value_decodes(nf, PRESENT | WRITABLE);
                    assert(self.mem() =~~= mem1.insert(nf, spec_zero_table()).insert(
                        parent,
                        mem1[parent].update(index as int, ev),
                    ));
                    lemma_link_empty_table(mem1, lv1, self.root, parent, index as int, nf);
                    assert(!spec_huge(ev) && (0u64 & PRESENT) == 0);
                    if spec_mem_no_huge(mem1) {
                        assert forall|f: u64, i: int|
                            self.mem().dom().contains(f) && 0 <= i < 512 implies !(spec_present(
                            #[trigger] self.mem()[f][i]) && spec_huge(self.mem()[f][i])) by {
                            if f == nf {
                                assert(self.mem()[f][i] == 0);
                            } else if f == parent && i == index as int {
                            } else {
                                assert(self.mem()[f][i] == mem1[f][i]);
                            }
                        }
                    }
                    assert forall|fr: nat|
                        self.table_frames().contains(fr) && allocator.future().contains(fr)
                        implies false by {
                        if fr != nf as nat {
                            assert(old(self).table_frames().contains(fr));
                        }
                    }
                    assert forall|f: u64| old(self).is_root_table(f) implies self.is_root_table(
                        f,
                    ) by {
                        assert(f != nf);
                        if f == parent {
                            assert(index as int != 511);
                        }
                        assert(self.mem()[f][511] == mem1[f][511]);
                    }
                }
                nf
            },
        }
    }

    /// Maps virtual page `page` to physical frame `frame` with `flags`
    /// (plus the present bit), creating any missing P3/P2/P1 tables from
    /// `allocator`. The page must currently map to nothing: mapping over
    /// an existing mapping is a programmer error, so it is excluded
    /// outright, as is the reserved recursive-slot region of the
    /// address space.
    #[verifier::rlimit(100)]
    pub fn map_to<A: FrameAllocator>(
        &mut self,
        page: Page,
        frame: Frame,
        flags: EntryFlags,
        allocator: &mut A,
    )
        requires
            old(self).inv(),
            old(allocator).inv(),
            spec_canonical_page(page@),
            spec_p4_index(page@) != 511,
            spec_walk_page(old(self).mem(), old(self).root_frame(), page@) is None,
            frame@ < 0x100_0000_0000,
            old(self).table_frames().disjoint(old(allocator).future()),
            old(allocator).avail() >= spec_missing_tables(
                old(self).mem(),
                old(self).root_frame(),
                page@,
            ),
        ensures
            final(self).inv(),
            final(allocator).inv(),
            final(self).root_frame() == old(self).root_frame(),
            spec_walk_page(final(self).mem(), final(self).root_frame(), page@) == Some(frame@),
            forall|q: nat|
                spec_canonical_page(q) && spec_p4_index(q) != 511 && q != page@
                    ==> spec_walk_page(final(self).mem(), final(self).root_frame(), q)
                    == spec_walk_page(old(self).mem(), old(self).root_frame(), q),
            final(self).table_frames().disjoint(final(allocator).future()),
            old(self).table_frames().subset_of(final(self).table_frames()),
            forall|n: nat|
                final(self).table_frames().contains(n) ==> old(self).table_frames().contains(n)
                    || old(allocator).future().contains(n),
            final(allocator).future().subset_of(old(allocator).future()),
            final(allocator).avail() + spec_missing_tables(
                old(self).mem(),
                old(self).root_frame(),
                page@,
            ) >= old(allocator).avail(),
            spec_mem_no_huge(old(self).mem()) && flags@ & crate::table::HUGE_PAGE == 0
                ==> spec_mem_no_huge(final(self).mem()),
            forall|f: u64| old(self).is_root_table(f) ==> final(self).is_root_table(f),
            // The full directory chain exists afterwards and its P1 slot
            // holds exactly the given frame and flags, plus the present
            // bit.
            spec_chain_present(
                final(self).mem(),
                final(self).root_frame(),
                spec_p4_index(page@) as int,
                spec_p3_index(page@) as int,
                spec_p2_index(page@) as int,
            ),
            final(self).mem()[spec_chain_leaf(
                final(self).mem(),
                final(self).root_frame(),
                spec_p4_index(page@) as int,
                spec_p3_index(page@) as int,
                spec_p2_index(page@) as int,
            )][spec_p1_index(page@) as int] == spec_entry_value(frame@, flags@ | PRESENT),
    {
        proof {
            lemma_entry_bit_facts();
            use_type_invariant(flags);
            crate::table::lemma_flags_wf_masked(flags);
            assert(spec_entry_ok(old(self).mem(), old(self).lv(), old(self).root_frame(), spec_p4_index(page@) as int));
        }
        let ghost mem0 = self.mem();
        let ghost root = self.root;
        let ghost i4 = spec_p4_index(page@) as int;
        let ghost i3 = spec_p3_index(page@) as int;
        let ghost i2 = spec_p2_index(page@) as int;
        let ghost i1 = spec_p1_index(page@) as int;
        let root_l = self.p4_frame();
        let f3 = self.ensure_child(root_l.index(), page.p4_index(), Ghost(4nat), allocator);
        let ghost mem_a = self.mem();
        let ghost lv_a = self.lv();
        proof {
            assert(mem0.dom().contains(root));
            assert(mem_a.dom().contains(root) && mem_a.dom().contains(f3));
            assert(lv_a[root] == 4 && lv_a[f3] == 3);
            if spec_present(mem_a[f3][i3]) && spec_huge(mem_a[f3][i3]) {
                assert(spec_walk_page(mem_a, root, page@) is Some);
                assert(false);
            }
        }
        let f2 = self.ensure_child(f3, page.p3_index(), Ghost(3nat), allocator);
        let ghost mem_b = self.mem();
        let ghost lv_b = self.lv();
        proof {
            assert(mem_b.dom().contains(root) && mem_b.dom().contains(f3) && mem_b.dom().contains(
                f2,
            ));
            assert(lv_b[root] == 4 && lv_b[f3] == 3 && lv_b[f2] == 2);
            if spec_present(mem_b[f2][i2]) && spec_huge(mem_b[f2][i2]) {
                assert(spec_walk_page(mem_b, root, page@) is Some);
                assert(false);
            }
        }
        let f1 = self.ensure_child(f2, page.p2_index(), Ghost(2nat), allocator);
        let ghost state_c = *self;
        let ghost mem_c = self.mem();
        let ghost lv_c = self.lv();
        proof {
            assert(mem_c.dom().contains(root) && mem_c.dom().contains(f3) && mem_c.dom().contains(
                f2,
            ) && mem_c.dom().contains(f1));
            assert(lv_c[root] == 4 && lv_c[f3] == 3 && lv_c[f2] == 2 && lv_c[f1] == 1);
            assert(mem_c[root][i4] == mem_a[root][i4]);
            assert(mem_c[f3][i3] == mem_b[f3][i3]);
            assert(spec_chain_present(mem_c, root, i4, i3, i2));
            assert(spec_chain_leaf(mem_c, root, i4, i3, i2) == f1);
        }
        let mut new_entry = Entry::unused();
        new_entry.set(frame, flags.union(EntryFlags::from_bits_truncate(PRESENT)));
        let ghost v = spec_entry_value(frame@, flags@ | PRESENT);
        let mut t1 = self.tables.remove(&f1).unwrap();
        t1.set_entry(page.p1_index(), new_entry);
        self.tables.insert(f1, t1);
        proof {
            assert((PRESENT & ALL_FLAGS) == PRESENT);
            assert((flags@ | PRESENT) & ALL_FLAGS == (flags@ | PRESENT));
            assert((flags@ | PRESENT) & ADDRESS_MASK == 0);
            lemma_entry_value_decodes(frame.view() as u64, flags@ | PRESENT);
            assert(self.mem() =~~= mem_c.insert(f1, mem_c[f1].update(i1, v)));
            lemma_leaf_write(mem_c, lv_c, root, i4, i3, i2, i1, v);
            assert((flags@ | PRESENT) & PRESENT != 0);
            assert(spec_present(v) && spec_entry_frame(v) == frame@);
            assert(spec_walk_page(self.mem(), root, page@) == Some(frame@));
            assert forall|q: nat|
                spec_canonical_page(q) && spec_p4_index(q) != 511 && q != page@
                    implies spec_walk_page(self.mem(), root, q) == spec_walk_page(
                mem0,
                root,
                q,
            ) by {
                if spec_p4_index(q) == i4 && spec_p3_index(q) == i3 && spec_p2_index(q) == i2
                    && spec_p1_index(q) == i1 {
                    crate::page::lemma_canonical_page_injective(q, page@);
                    assert(false);
                } else {
                    assert(spec_walk_page(self.mem(), root, q) == spec_walk_page(
                        mem_c,
                        root,
                        q,
                    ));
                }
            }
            assert(self.table_frames() =~= state_c.table_frames());
            assert forall|f: u64| old(self).is_root_table(f) implies self.is_root_table(f) by {
                assert(state_c.is_root_table(f));
                assert(f != f1);
                assert(self.mem()[f][511] == mem_c[f][511]);
            }
            if spec_mem_no_huge(mem0) && flags@ & crate::table::HUGE_PAGE == 0 {
                assert(spec_mem_no_huge(mem_c));
                assert(((flags@ | PRESENT) & crate::table::HUGE_PAGE) == flags@
                    & crate::table::HUGE_PAGE);
                assert(!spec_huge(v));
                assert forall|f: u64, i: int|
                    self.mem().dom().contains(f) && 0 <= i < 512 implies !(spec_present(
                    #[trigger] self.mem()[f][i]) && spec_huge(self.mem()[f][i])) by {
                    if f == f1 && i == i1 {
                    } else if f == f1 {
                        assert(self.mem()[f][i] == mem_c[f][i]);
                    } else {
                        assert(self.mem()[f][i] == mem_c[f][i]);
                    }
                }
            }
        }
    }

    /// Maps `page` to a frame the allocator picks.
    pub fn map<A: FrameAllocator>(&mut self, page: Page, flags: EntryFlags, allocator: &mut A)
        requires
            old(self).inv(),
            old(allocator).inv(),
            spec_canonical_page(page@),
            spec_p4_index(page@) != 511,
            spec_walk_page(old(self).mem(), old(self).root_frame(), page@) is None,
            old(self).table_frames().disjoint(old(allocator).future()),
            old(allocator).avail() >= spec_missing_tables(
                old(self).mem(),
                old(self).root_frame(),
                page@,
            ) + 1,
        ensures
            final(self).inv(),
            final(allocator).inv(),
            final(self).root_frame() == old(self).root_frame(),
            ({
                let r = spec_walk_page(final(self).mem(), final(self).root_frame(), page@);
                r is Some && old(allocator).future().contains(r.unwrap())
            }),
            forall|q: nat|
                spec_canonical_page(q) && spec_p4_index(q) != 511 && q != page@
                    ==> spec_walk_page(final(self).mem(), final(self).root_frame(), q)
                    == spec_walk_page(old(self).mem(), old(self).root_frame(), q),
            final(self).table_frames().disjoint(final(allocator).future()),
            old(self).table_frames().subset_of(final(self).table_frames()),
            forall|n: nat|
                final(self).table_frames().contains(n) ==> old(self).table_frames().contains(n)
                    || old(allocator).future().contains(n),
            final(allocator).future().subset_of(old(allocator).future()),
            final(allocator).avail() + spec_missing_tables(
                old(self).mem(),
                old(self).root_frame(),
                page@,
            ) + 1 >= old(allocator).avail(),
            spec_mem_no_huge(old(self).mem()) && flags@ & crate::table::HUGE_PAGE == 0
                ==> spec_mem_no_huge(final(self).mem()),
            forall|f: u64| old(self).is_root_table(f) ==> final(self).is_root_table(f),
    {
        let frame = allocator.alloc_frame().unwrap();
        self.map_to(page, frame, flags, allocator);
    }

    /// Maps the page at a frame's own address to that frame, so virtual
    /// and physical address coincide there.
    pub fn identity_map<A: FrameAllocator>(
        &mut self,
        frame: Frame,
        flags: EntryFlags,
        allocator: &mut A,
    )
        requires
            old(self).inv(),
            old(allocator).inv(),
            frame@ < 0x8_0000_0000,
            spec_walk_page(old(self).mem(), old(self).root_frame(), frame@) is None,
            old(self).table_frames().disjoint(old(allocator).future()),
            old(allocator).avail() >= spec_missing_tables(
                old(self).mem(),
                old(self).root_frame(),
                frame@,
            ),
        ensures
            final(self).inv(),
            final(allocator).inv(),
            final(self).root_frame() == old(self).root_frame(),
            spec_walk_page(final(self).mem(), final(self).root_frame(), frame@) == Some(frame@),
            forall|q: nat|
                spec_canonical_page(q) && spec_p4_index(q) != 511 && q != frame@
                    ==> spec_walk_page(final(self).mem(), final(self).root_frame(), q)
                    == spec_walk_page(old(self).mem(), old(self).root_frame(), q),
            final(self).table_frames().disjoint(final(allocator).future()),
            old(self).table_frames().subset_of(final(self).table_frames()),
            forall|n: nat|
                final(self).table_frames().contains(n) ==> old(self).table_frames().contains(n)
                    || old(allocator).future().contains(n),
            final(allocator).future().subset_of(old(allocator).future()),
            final(allocator).avail() + spec_missing_tables(
                old(self).mem(),
                old(self).root_frame(),
                frame@,
            ) >= old(allocator).avail(),
            spec_mem_no_huge(old(self).mem()) && flags@ & crate::table::HUGE_PAGE == 0
                ==> spec_mem_no_huge(final(self).mem()),
            forall|f: u64| old(self).is_root_table(f) ==> final(self).is_root_table(f),
    {
        proof {
            crate::frame::lemma_frame_containing_start_address(frame);
            crate::page::lemma_bit35_low(frame@);
            assert(frame@ * 4096 < 0x8_0000_0000 * 4096) by (nonlinear_arith)
                requires frame@ < 0x8_0000_0000;
        }
        let page = Page::containing_address(frame.start_address());
        self.map_to(page, frame, flags, allocator);
    }

    /// Removes the mapping of `page`: clears its P1 entry. On hardware
    /// the kernel then invalidates that page's cached translation; the
    /// store itself is the only translation state in this model. The
    /// page must be mapped through a full directory chain (huge-page
    /// unmapping is unsupported), and the now-possibly-empty sub-tables
    /// are deliberately not reclaimed, so the allocator is untouched.
    pub fn unmap<A: FrameAllocator>(&mut self, page: Page, allocator: &mut A)
        requires
            old(self).inv(),
            spec_canonical_page(page@),
            spec_p4_index(page@) != 511,
            spec_chain_present(
                old(self).mem(),
                old(self).root_frame(),
                spec_p4_index(page@) as int,
                spec_p3_index(page@) as int,
                spec_p2_index(page@) as int,
            ),
            spec_present(
                old(self).mem()[spec_chain_leaf(
                    old(self).mem(),
                    old(self).root_frame(),
                    spec_p4_index(page@) as int,
                    spec_p3_index(page@) as int,
                    spec_p2_index(page@) as int,
                )][spec_p1_index(page@) as int],
            ),
        ensures
            final(self).inv(),
            final(self).root_frame() == old(self).root_frame(),
            spec_walk_page(final(self).mem(), final(self).root_frame(), page@) is None,
            forall|q: nat|
                spec_canonical_page(q) && spec_p4_index(q) != 511 && q != page@
                    ==> spec_walk_page(final(self).mem(), final(self).root_frame(), q)
                    == spec_walk_page(old(self).mem(), old(self).root_frame(), q),
            final(self).table_frames() == old(self).table_frames(),
            *final(allocator) == *old(allocator),
            final(self).mem().dom() == old(self).mem().dom(),
            forall|f: u64, i: int|
                old(self).mem().dom().contains(f) && 0 <= i < 512 ==> final(self).mem()[f][i]
                    == old(self).mem()[f][i] || final(self).mem()[f][i] == 0,
            forall|f: u64| old(self).is_root_table(f) ==> final(self).is_root_table(f),
            spec_mem_no_huge(old(self).mem()) ==> spec_mem_no_huge(final(self).mem()),
    {
        proof {
            lemma_entry_bit_facts();
        }
        let ghost mem1 = self.mem();
        let ghost lv1 = self.lv();
        let ghost root = self.root;
        let ghost i4 = spec_p4_index(page@) as int;
        let ghost i3 = spec_p3_index(page@) as int;
        let ghost i2 = spec_p2_index(page@) as int;
        let ghost i1 = spec_p1_index(page@) as int;
        proof {
            assert(spec_entry_ok(mem1, lv1, root, i4));
        }
        let p4t = self.tables.get(&self.root).unwrap();
        let e4 = p4t.entry(page.p4_index());
        let f3 = e4.pointed_frame().unwrap();
        proof {
            assert(spec_entry_ok(mem1, lv1, spec_child(e4@), i3));
        }
        let p3t = self.tables.get(&f3.index()).unwrap();
        let e3 = p3t.entry(page.p3_index());
        let f2 = e3.pointed_frame().unwrap();
        proof {
            assert(spec_entry_ok(mem1, lv1, spec_child(e3@), i2));
        }
        let p2t = self.tables.get(&f2.index()).unwrap();
        let e2 = p2t.entry(page.p2_index());
        let f1 = e2.pointed_frame().unwrap();
        let mut t1 = self.tables.remove(&f1.index()).unwrap();
        t1.set_entry(page.p1_index(), Entry::unused());
        self.tables.insert(f1.index(), t1);
        proof {
            assert(spec_chain_leaf(mem1, root, i4, i3, i2) == f1@ as u64);
            assert(self.mem() =~~= mem1.insert(f1@ as u64, mem1[f1@ as u64].update(i1, 0u64)));
            lemma_leaf_write(mem1, lv1, root, i4, i3, i2, i1, 0u64);
            assert((0u64 & PRESENT) == 0);
            assert(!spec_present(0u64));
            assert forall|q: nat|
                spec_canonical_page(q) && spec_p4_index(q) != 511 && q != page@
                    implies spec_walk_page(self.mem(), root, q) == spec_walk_page(
                mem1,
                root,
                q,
            ) by {
                if spec_p4_index(q) == i4 && spec_p3_index(q) == i3 && spec_p2_index(q) == i2
                    && spec_p1_index(q) == i1 {
                    crate::page::lemma_canonical_page_injective(q, page@);
                    assert(false);
                }
            }
            assert(self.mem().dom() =~= mem1.dom());
            let lf = f1@ as u64;
            assert forall|f: u64, i: int|
                mem1.dom().contains(f) && 0 <= i < 512 implies self.mem()[f][i] == mem1[f][i]
                || self.mem()[f][i] == 0 by {
                if f != lf {
                    assert(self.mem()[f][i] == mem1[f][i]);
                } else if i != i1 {
                    assert(self.mem()[f][i] == mem1[f][i]);
                } else {
                    assert(self.mem()[f][i] == 0);
                }
            }
            assert forall|f: u64| old(self).is_root_table(f) implies self.is_root_table(f) by {
                assert(lv1[f] == 4 && lv1[lf] == 1);
                assert(self.mem()[f][511] == mem1[f][511]);
            }
            if spec_mem_no_huge(mem1) {
                assert forall|f: u64, i: int|
                    self.mem().dom().contains(f) && 0 <= i < 512 implies !(spec_present(
                    #[trigger] self.mem()[f][i]) && spec_huge(self.mem()[f][i])) by {
                    if f == lf && i == i1 {
                        assert(self.mem()[f][i] == 0);
                        assert((0u64 & PRESENT) == 0);
                    } else {
                        assert(self.mem()[f][i] == mem1[f][i]);
                    }
                }
            }
            assert(self.table_frames() =~= old(self).table_frames());
        }
    }

    /// Retargets the mapper at another stored root table; the model's
    /// counterpart of overwriting the live recursive slot (or the root
    /// register) so that table edits resolve against that hierarchy.
    pub(crate) fn set_root(&mut self, frame: Frame)
        requires
            old(self).inv(),
            old(self).is_root_table(frame@ as u64),
        ensures
            final(self).inv(),
            final(self).root_frame() == frame@,
            final(self).mem() == old(self).mem(),
            final(self).lv() == old(self).lv(),
            final(self).table_frames() == old(self).table_frames(),
            forall|f: u64| final(self).is_root_table(f) == old(self).is_root_table(f),
    {
        self.root = frame.index();
        proof {
            assert(self.table_frames() =~= old(self).table_frames());
        }
    }

    /// Installs a freshly zeroed root-style table (recursive slot set to
    /// its own frame) at a frame not yet holding a table. Walks through
    /// the current root are unaffected: nothing links to the new table.
    pub(crate) fn install_root(&mut self, frame: Frame)
        requires
            old(self).inv(),
            frame@ < 0x100_0000_0000,
            !old(self).table_frames().contains(frame@),
        ensures
            final(self).inv(),
            final(self).root_frame() == old(self).root_frame(),
            final(self).mem().dom() =~= old(self).mem().dom().insert(frame@ as u64),
            final(self).mem()[frame@ as u64] == spec_zero_table().update(
                511,
                spec_entry_value(frame@, PRESENT | WRITABLE),
            ),
            final(self).lv()[frame@ as u64] == 4,
            forall|f: u64|
                old(self).mem().dom().contains(f) ==> final(self).mem()[f] == old(self).mem()[f]
                    && final(self).lv()[f] == old(self).lv()[f],
            forall|p: nat|
                spec_p4_index(p) != 511 ==> spec_walk_page(
                    final(self).mem(),
                    final(self).root_frame(),
                    p,
                ) == spec_walk_page(old(self).mem(), old(self).root_frame(), p),
            final(self).table_frames() =~= old(self).table_frames().insert(frame@),
            final(self).is_root_table(frame@ as u64),
            forall|f: u64| old(self).is_root_table(f) ==> final(self).is_root_table(f),
            spec_mem_no_huge(old(self).mem()) ==> spec_mem_no_huge(final(self).mem()),
    {
        let ghost mem1 = self.mem();
        let ghost lv1 = self.lv();
        proof {
            assert(!mem1.dom().contains(frame@ as u64)) by {
                if mem1.dom().contains(frame@ as u64) {
                    assert(old(self).table_frames().contains(frame@));
                }
            }
        }
        let nf = frame.index();
        let mut table = Table::new();
        let mut entry = Entry::unused();
        entry.set(frame, EntryFlags::from_bits_truncate(PRESENT | WRITABLE));
        table.set_entry(511, entry);
        self.tables.insert(nf, table);
        self.levels = Ghost(lv1.insert(nf, 4));
        proof {
            lemma_entry_bit_facts();
            lemma_entry_value_decodes(nf, PRESENT | WRITABLE);
            let t = spec_zero_table().update(511, spec_entry_value(nf as nat, PRESENT | WRITABLE));
            assert(self.mem() =~~= mem1.insert(nf, t));
            lemma_add_root_table(mem1, lv1, self.root, nf);
            assert(self.table_frames() =~= old(self).table_frames().insert(frame@));
            assert(!spec_huge(spec_entry_value(nf as nat, PRESENT | WRITABLE)));
            if spec_mem_no_huge(mem1) {
                assert forall|f: u64, i: int|
                    self.mem().dom().contains(f) && 0 <= i < 512 implies !(spec_present(
                    #[trigger] self.mem()[f][i]) && spec_huge(self.mem()[f][i])) by {
                    if f == nf {
                        if i != 511 {
                            assert(self.mem()[f][i] == 0);
                            assert((0u64 & PRESENT) == 0);
                        }
                    } else {
                        assert(self.mem()[f][i] == mem1[f][i]);
                    }
                }
            }
        }
    }

    /// Translates a virtual address to the physical address it maps to.
    pub fn translate(&self, virtual_address: u64) -> (r: Option<u64>)
        requires
            self.inv(),
            crate::page::spec_canonical_address(virtual_address as nat),
        ensures
            match r {
                Some(pa) => spec_translate_addr(
                    self.mem(),
                    self.root_frame(),
                    virtual_address as nat,
                ) == Some(pa as nat),
                None => spec_translate_addr(
                    self.mem(),
                    self.root_frame(),
                    virtual_address as nat,
                ) is None,
            },
    {
        let offset = virtual_address % crate::frame::PAGE_SIZE;
        let page = Page::containing_address(virtual_address);
        match self.page_to_frame(page) {
            Some(f) => {
                proof {
                    lemma_walk_result_fits(self.mem(), self.lv(), self.root, page@);
                }
                Some(f.index() * crate::frame::PAGE_SIZE + offset)
            },
            None => None,
        }
    }
}

/// Installing a link from an unused directory slot to a freshly zeroed
/// table keeps the store well-formed and changes no walk outside the
/// recursive-slot region: every walk that reaches the new link falls
/// into the all-zero table and still resolves to nothing.
proof fn lemma_link_empty_table(
    mem1: Map<u64, Seq<u64>>,
    lv1: Map<u64, nat>,
    root: u64,
    parent: u64,
    idx: int,
    nf: u64,
)
    requires
        spec_state_inv(mem1, lv1, root),
        mem1.dom().contains(parent),
        2 <= lv1[parent] <= 4,
        0 <= idx < 512,
        !(lv1[parent] == 4 && idx == 511),
        !spec_present(mem1[parent][idx]),
        !mem1.dom().contains(nf),
        nf < 0x100_0000_0000,
    ensures
        ({
            let ev = spec_entry_value(nf as nat, PRESENT | WRITABLE);
            let mem2 = mem1.insert(nf, spec_zero_table()).insert(
                parent,
                mem1[parent].update(idx, ev),
            );
            let lv2 = lv1.insert(nf, (lv1[parent] - 1) as nat);
            &&& spec_state_inv(mem2, lv2, root)
            &&& forall|p: nat|
                spec_p4_index(p) != 511 ==> spec_walk_page(mem2, root, p) == spec_walk_page(
                    mem1,
                    root,
                    p,
                )
        }),
{
    lemma_entry_bit_facts();
    lemma_entry_value_decodes(nf, PRESENT | WRITABLE);
    let ev = spec_entry_value(nf as nat, PRESENT | WRITABLE);
    let mem2 = mem1.insert(nf, spec_zero_table()).insert(parent, mem1[parent].update(idx, ev));
    let lv2 = lv1.insert(nf, (lv1[parent] - 1) as nat);
    assert(spec_present(ev) && !spec_huge(ev) && spec_child(ev) == nf);
    assert(parent != nf);
    assert(root != nf);
    assert(mem2[root][511] == mem1[root][511]);

    // Entry-level well-formedness carries over; the new link and the
    // zeroed table satisfy it outright.
    assert forall|f: u64, i: int| mem2.dom().contains(f) && 0 <= i < 512 implies #[trigger]
        spec_entry_ok(mem2, lv2, f, i) by {
        if f == nf {
            assert(mem2[f][i] == 0);
            assert((0u64 & 0x1) == 0);
        } else if f == parent && i == idx {
            assert(mem2[f][i] == ev);
        } else {
            assert(mem2[f][i] == mem1[f][i]);
            assert(spec_entry_ok(mem1, lv1, f, i));
            let e = mem1[f][i];
            if spec_present(e) && !(lv1[f] == 1) && !(lv1[f] == 4 && i == 511) && !spec_huge(e) {
                assert(mem2.dom().contains(spec_child(e)));
                assert(spec_child(e) != nf);
                assert(lv2[spec_child(e)] == lv1[spec_child(e)]);
            }
        }
    }

    // No two directory links share a child: the only new link aims at a
    // frame no old link could reach.
    assert forall|f1: u64, i1: int, f2: u64, i2: int|
        #[trigger] spec_dir_link(mem2, lv2, f1, i1) && #[trigger] spec_dir_link(mem2, lv2, f2, i2)
            && !(f1 == f2 && i1 == i2) implies spec_child(mem2[f1][i1]) != spec_child(
        mem2[f2][i2],
    ) by {
        if f1 == nf || f2 == nf {
            assert(false);
        } else {
            if !(f1 == parent && i1 == idx) && !(f2 == parent && i2 == idx) {
                assert(mem2[f1][i1] == mem1[f1][i1] && mem2[f2][i2] == mem1[f2][i2]);
                assert(spec_dir_link(mem1, lv1, f1, i1) && spec_dir_link(mem1, lv1, f2, i2));
            } else if f1 == parent && i1 == idx {
                assert(mem2[f1][i1] == ev && spec_child(ev) == nf);
                assert(mem2[f2][i2] == mem1[f2][i2]);
                assert(spec_dir_link(mem1, lv1, f2, i2));
                assert(spec_entry_ok(mem1, lv1, f2, i2));
                assert(mem1.dom().contains(spec_child(mem1[f2][i2])));
            } else {
                assert(mem2[f2][i2] == ev && spec_child(ev) == nf);
                assert(mem2[f1][i1] == mem1[f1][i1]);
                assert(spec_dir_link(mem1, lv1, f1, i1));
                assert(spec_entry_ok(mem1, lv1, f1, i1));
                assert(mem1.dom().contains(spec_child(mem1[f1][i1])));
            }
        }
    }
    assert(spec_state_inv(mem2, lv2, root));

    // Walks outside the recursive-slot region are untouched.
    assert forall|p: nat| spec_p4_index(p) != 511 implies spec_walk_page(mem2, root, p)
        == spec_walk_page(mem1, root, p) by {
        lemma_walk_unchanged_by_link(mem1, lv1, root, parent, idx, nf, p);
    }
}

/// The walk-preservation core of `lemma_link_empty_table`, one page at
/// a time.
proof fn lemma_walk_unchanged_by_link(
    mem1: Map<u64, Seq<u64>>,
    lv1: Map<u64, nat>,
    root: u64,
    parent: u64,
    idx: int,
    nf: u64,
    p: nat,
)
    requires
        spec_state_inv(mem1, lv1, root),
        mem1.dom().contains(parent),
        2 <= lv1[parent] <= 4,
        0 <= idx < 512,
        !(lv1[parent] == 4 && idx == 511),
        !spec_present(mem1[parent][idx]),
        !mem1.dom().contains(nf),
        nf < 0x100_0000_0000,
        spec_p4_index(p) != 511,
    ensures
        ({
            let ev = spec_entry_value(nf as nat, PRESENT | WRITABLE);
            let mem2 = mem1.insert(nf, spec_zero_table()).insert(
                parent,
                mem1[parent].update(idx, ev),
            );
            spec_walk_page(mem2, root, p) == spec_walk_page(mem1, root, p)
        }),
{
    lemma_entry_bit_facts();
    lemma_entry_value_decodes(nf, PRESENT | WRITABLE);
    let ev = spec_entry_value(nf as nat, PRESENT | WRITABLE);
    let mem2 = mem1.insert(nf, spec_zero_table()).insert(parent, mem1[parent].update(idx, ev));
    let i4 = spec_p4_index(p) as int;
    let i3 = spec_p3_index(p) as int;
    let i2 = spec_p2_index(p) as int;
    let i1 = spec_p1_index(p) as int;
    assert(i3 < 512 && i2 < 512 && i1 < 512);
    assert((0u64 & 0x1) == 0);
    let e4_1 = mem1[root][i4];
    let e4_2 = mem2[root][i4];
    if parent == root && idx == i4 {
        // The walk now enters the fresh table and dies on a zero entry.
        assert(e4_2 == ev);
        assert(mem2[nf][i3] == 0);
        assert(spec_walk_page(mem2, root, p) is None);
        assert(spec_walk_page(mem1, root, p) is None);
    } else {
        assert(e4_2 == e4_1);
        if !(spec_present(e4_1) && !spec_huge(e4_1)) {
        } else {
            assert(spec_entry_ok(mem1, lv1, root, i4));
            let t3 = spec_child(e4_1);
            assert(mem1.dom().contains(t3) && lv1[t3] == 3);
            assert(t3 != nf);
            let e3_1 = mem1[t3][i3];
            let e3_2 = mem2[t3][i3];
            if t3 == parent && idx == i3 {
                assert(e3_2 == ev);
                assert(mem2[nf][i2] == 0);
                assert(spec_walk_page(mem2, root, p) is None);
                assert(spec_walk_page(mem1, root, p) is None);
            } else {
                assert(e3_2 == e3_1);
                if spec_present(e3_1) && spec_huge(e3_1) {
                } else if !spec_present(e3_1) {
                } else {
                    assert(spec_entry_ok(mem1, lv1, t3, i3));
                    let t2 = spec_child(e3_1);
                    assert(mem1.dom().contains(t2) && lv1[t2] == 2);
                    assert(t2 != nf);
                    let e2_1 = mem1[t2][i2];
                    let e2_2 = mem2[t2][i2];
                    if t2 == parent && idx == i2 {
                        assert(e2_2 == ev);
                        assert(mem2[nf][i1] == 0);
                        assert(spec_walk_page(mem2, root, p) is None);
                        assert(spec_walk_page(mem1, root, p) is None);
                    } else {
                        assert(e2_2 == e2_1);
                        if spec_present(e2_1) && spec_huge(e2_1) {
                        } else if !spec_present(e2_1) {
                        } else {
                            assert(spec_entry_ok(mem1, lv1, t2, i2));
                            let t1 = spec_child(e2_1);
                            assert(mem1.dom().contains(t1) && lv1[t1] == 1);
                            assert(t1 != nf && t1 != parent);
                            assert(mem2[t1][i1] == mem1[t1][i1]);
                        }
                    }
                }
            }
        }
    }
}

/// Writing the P1 entry at the end of a present directory chain keeps
/// the store well-formed, gives exactly the pages that use that chain
/// and slot the written mapping, and leaves every other walk outside
/// the recursive-slot region unchanged. The chain to a P1 table is
/// unique because no two directory links share a child.
proof fn lemma_leaf_write(
    mem1: Map<u64, Seq<u64>>,
    lv1: Map<u64, nat>,
    root: u64,
    c4: int,
    c3: int,
    c2: int,
    idx: int,
    v: u64,
)
    requires
        spec_state_inv(mem1, lv1, root),
        0 <= c4 < 512 && c4 != 511,
        0 <= c3 < 512,
        0 <= c2 < 512,
        0 <= idx < 512,
        spec_chain_present(mem1, root, c4, c3, c2),
        spec_present(v) || v == 0,
    ensures
        ({
            let f1 = spec_chain_leaf(mem1, root, c4, c3, c2);
            let mem2 = mem1.insert(f1, mem1[f1].update(idx, v));
            &&& spec_state_inv(mem2, lv1, root)
            &&& forall|p: nat|
                spec_p4_index(p) != 511 && !(spec_p4_index(p) == c4 && spec_p3_index(p) == c3
                    && spec_p2_index(p) == c2 && spec_p1_index(p) == idx)
                    ==> spec_walk_page(mem2, root, p) == spec_walk_page(mem1, root, p)
            &&& forall|p: nat|
                spec_p4_index(p) == c4 && spec_p3_index(p) == c3 && spec_p2_index(p) == c2
                    && spec_p1_index(p) == idx ==> spec_walk_page(mem2, root, p) == (
                if spec_present(v) {
                    Some(spec_entry_frame(v))
                } else {
                    None::<nat>
                })
        }),
{
    let e4 = mem1[root][c4];
    let f3 = spec_child(e4);
    let e3 = mem1[f3][c3];
    let f2 = spec_child(e3);
    let e2 = mem1[f2][c2];
    let f1 = spec_child(e2);
    let mem2 = mem1.insert(f1, mem1[f1].update(idx, v));
    assert(spec_entry_ok(mem1, lv1, root, c4));
    assert(lv1[f3] == 3);
    assert(spec_entry_ok(mem1, lv1, f3, c3));
    assert(lv1[f2] == 2);
    assert(spec_entry_ok(mem1, lv1, f2, c2));
    assert(lv1[f1] == 1);
    assert(root != f1 && f3 != f1 && f2 != f1);

    assert forall|f: u64, i: int| mem2.dom().contains(f) && 0 <= i < 512 implies #[trigger]
        spec_entry_ok(mem2, lv1, f, i) by {
        if f == f1 {
            assert(lv1[f] == 1);
            if i != idx {
                assert(mem2[f][i] == mem1[f][i]);
                assert(spec_entry_ok(mem1, lv1, f, i));
            }
        } else {
            assert(mem2[f][i] == mem1[f][i]);
            assert(spec_entry_ok(mem1, lv1, f, i));
            let e = mem1[f][i];
            if spec_present(e) && !(lv1[f] == 1) && !(lv1[f] == 4 && i == 511) && !spec_huge(e) {
                assert(mem2.dom().contains(spec_child(e)));
            }
        }
    }
    assert forall|fa: u64, ia: int, fb: u64, ib: int|
        #[trigger] spec_dir_link(mem2, lv1, fa, ia) && #[trigger] spec_dir_link(mem2, lv1, fb, ib)
            && !(fa == fb && ia == ib) implies spec_child(mem2[fa][ia]) != spec_child(
        mem2[fb][ib],
    ) by {
        assert(fa != f1 && fb != f1);
        assert(mem2[fa][ia] == mem1[fa][ia] && mem2[fb][ib] == mem1[fb][ib]);
        assert(spec_dir_link(mem1, lv1, fa, ia) && spec_dir_link(mem1, lv1, fb, ib));
    }
    assert(spec_state_inv(mem2, lv1, root));

    assert forall|p: nat|
        spec_p4_index(p) != 511 && !(spec_p4_index(p) == c4 && spec_p3_index(p) == c3
            && spec_p2_index(p) == c2 && spec_p1_index(p) == idx) implies spec_walk_page(
        mem2,
        root,
        p,
    ) == spec_walk_page(mem1, root, p) by {
        lemma_leaf_write_other(mem1, lv1, root, c4, c3, c2, idx, v, p);
    }
    assert forall|p: nat|
        spec_p4_index(p) == c4 && spec_p3_index(p) == c3 && spec_p2_index(p) == c2
            && spec_p1_index(p) == idx implies spec_walk_page(mem2, root, p) == (if spec_present(v) {
        Some(spec_entry_frame(v))
    } else {
        None::<nat>
    }) by {
        assert(mem2[root][c4] == e4);
        assert(mem2[f3][c3] == e3);
        assert(mem2[f2][c2] == e2);
        assert(mem2[f1][idx] == v);
    }
}

/// The directory chain `root --c4--> P3 --c3--> P2 --c2--> P1` exists,
/// with every step a present, non-huge entry.
pub open spec fn spec_chain_present(
    mem: Map<u64, Seq<u64>>,
    root: u64,
    c4: int,
    c3: int,
    c2: int,
) -> bool {
    let e4 = mem[root][c4];
    &&& spec_present(e4) && !spec_huge(e4)
    &&& {
        let e3 = mem[spec_child(e4)][c3];
        &&& spec_present(e3) && !spec_huge(e3)
        &&& {
            let e2 = mem[spec_child(e3)][c2];
            spec_present(e2) && !spec_huge(e2)
        }
    }
}

/// The P1 table frame at the end of that chain.
pub open spec fn spec_chain_leaf(
    mem: Map<u64, Seq<u64>>,
    root: u64,
    c4: int,
    c3: int,
    c2: int,
) -> u64 {
    spec_child(mem[spec_child(mem[spec_child(mem[root][c4])][c3])][c2])
}

/// Walk preservation for `lemma_leaf_write`: a page whose four slot
/// indices are not exactly the written chain reads no changed entry.
proof fn lemma_leaf_write_other(
    mem1: Map<u64, Seq<u64>>,
    lv1: Map<u64, nat>,
    root: u64,
    c4: int,
    c3: int,
    c2: int,
    idx: int,
    v: u64,
    p: nat,
)
    requires
        spec_state_inv(mem1, lv1, root),
        0 <= c4 < 512 && c4 != 511,
        0 <= c3 < 512,
        0 <= c2 < 512,
        0 <= idx < 512,
        spec_chain_present(mem1, root, c4, c3, c2),
        spec_p4_index(p) != 511,
        !(spec_p4_index(p) == c4 && spec_p3_index(p) == c3 && spec_p2_index(p) == c2
            && spec_p1_index(p) == idx),
    ensures
        ({
            let f1 = spec_chain_leaf(mem1, root, c4, c3, c2);
            let mem2 = mem1.insert(f1, mem1[f1].update(idx, v));
            spec_walk_page(mem2, root, p) == spec_walk_page(mem1, root, p)
        }),
{
    let e4c = mem1[root][c4];
    let f3 = spec_child(e4c);
    let e3c = mem1[f3][c3];
    let f2 = spec_child(e3c);
    let e2c = mem1[f2][c2];
    let f1 = spec_child(e2c);
    let mem2 = mem1.insert(f1, mem1[f1].update(idx, v));
    assert(spec_entry_ok(mem1, lv1, root, c4));
    assert(lv1[f3] == 3);
    assert(spec_entry_ok(mem1, lv1, f3, c3));
    assert(lv1[f2] == 2);
    assert(spec_entry_ok(mem1, lv1, f2, c2));
    assert(lv1[f1] == 1);
    assert(root != f1);

    let i4 = spec_p4_index(p) as int;
    let i3 = spec_p3_index(p) as int;
    let i2 = spec_p2_index(p) as int;
    let i1 = spec_p1_index(p) as int;
    assert(i3 < 512 && i2 < 512 && i1 < 512);
    let e4 = mem1[root][i4];
    assert(mem2[root][i4] == e4);
    if !(spec_present(e4) && !spec_huge(e4)) {
    } else {
        assert(spec_entry_ok(mem1, lv1, root, i4));
        let t3 = spec_child(e4);
        assert(mem1.dom().contains(t3) && lv1[t3] == 3);
        assert(t3 != f1);
        let e3 = mem1[t3][i3];
        assert(mem2[t3][i3] == e3);
        if spec_present(e3) && spec_huge(e3) {
        } else if !spec_present(e3) {
        } else {
            assert(spec_entry_ok(mem1, lv1, t3, i3));
            let t2 = spec_child(e3);
            assert(mem1.dom().contains(t2) && lv1[t2] == 2);
            assert(t2 != f1);
            let e2 = mem1[t2][i2];
            assert(mem2[t2][i2] == e2);
            if spec_present(e2) && spec_huge(e2) {
            } else if !spec_present(e2) {
            } else {
                assert(spec_entry_ok(mem1, lv1, t2, i2));
                let t1 = spec_child(e2);
                assert(mem1.dom().contains(t1) && lv1[t1] == 1);
                if t1 == f1 {
                    // The chain to a P1 table is unique: this page shares
                    // the whole directory prefix, so its last index must
                    // differ from the written slot.
                    assert(spec_dir_link(mem1, lv1, t2, i2) && spec_dir_link(mem1, lv1, f2, c2));
                    assert(t2 == f2 && i2 == c2);
                    assert(spec_dir_link(mem1, lv1, t3, i3) && spec_dir_link(mem1, lv1, f3, c3));
                    assert(t3 == f3 && i3 == c3);
                    assert(spec_dir_link(mem1, lv1, root, i4) && spec_dir_link(mem1, lv1, root, c4));
                    assert(i4 == c4);
                    assert(i1 != idx);
                    assert(mem2[f1][i1] == mem1[f1][i1]);
                } else {
                    assert(mem2[t1][i1] == mem1[t1][i1]);
                }
            }
        }
    }
}

/// Installing a root-style table (zeroed, recursive slot aimed at its
/// own frame) at a frame holding no table yet keeps the store
/// well-formed and changes no walk outside the recursive-slot region:
/// no existing directory link can reach the new table.
proof fn lemma_add_root_table(mem1: Map<u64, Seq<u64>>, lv1: Map<u64, nat>, root: u64, nf: u64)
    requires
        spec_state_inv(mem1, lv1, root),
        !mem1.dom().contains(nf),
        nf < 0x100_0000_0000,
    ensures
        ({
            let t = spec_zero_table().update(511, spec_entry_value(nf as nat, PRESENT | WRITABLE));
            let mem2 = mem1.insert(nf, t);
            let lv2 = lv1.insert(nf, 4);
            &&& spec_state_inv(mem2, lv2, root)
            &&& forall|p: nat|
                spec_p4_index(p) != 511 ==> spec_walk_page(mem2, root, p) == spec_walk_page(
                    mem1,
                    root,
                    p,
                )
        }),
{
    lemma_entry_bit_facts();
    lemma_entry_value_decodes(nf, PRESENT | WRITABLE);
    let ev = spec_entry_value(nf as nat, PRESENT | WRITABLE);
    let t = spec_zero_table().update(511, ev);
    let mem2 = mem1.insert(nf, t);
    let lv2 = lv1.insert(nf, 4);
    assert(root != nf);
    assert(mem2[root][511] == mem1[root][511]);

    assert forall|f: u64, i: int| mem2.dom().contains(f) && 0 <= i < 512 implies #[trigger]
        spec_entry_ok(mem2, lv2, f, i) by {
        if f == nf {
            if i == 511 {
                assert(mem2[f][i] == ev);
                assert(!spec_huge(ev) && spec_child(ev) == nf);
            } else {
                assert(mem2[f][i] == 0);
                assert((0u64 & PRESENT) == 0);
            }
        } else {
            assert(mem2[f][i] == mem1[f][i]);
            assert(spec_entry_ok(mem1, lv1, f, i));
            let e = mem1[f][i];
            if spec_present(e) && !(lv1[f] == 1) && !(lv1[f] == 4 && i == 511) && !spec_huge(e) {
                assert(mem2.dom().contains(spec_child(e)));
                assert(spec_child(e) != nf);
            }
        }
    }

    assert forall|f1: u64, i1: int, f2: u64, i2: int|
        #[trigger] spec_dir_link(mem2, lv2, f1, i1) && #[trigger] spec_dir_link(mem2, lv2, f2, i2)
            && !(f1 == f2 && i1 == i2) implies spec_child(mem2[f1][i1]) != spec_child(
        mem2[f2][i2],
    ) by {
        if f1 == nf {
            assert(mem2[f1][i1] == 0 || i1 == 511);
            assert(false);
        } else if f2 == nf {
            assert(mem2[f2][i2] == 0 || i2 == 511);
            assert(false);
        } else {
            assert(mem2[f1][i1] == mem1[f1][i1] && mem2[f2][i2] == mem1[f2][i2]);
            assert(spec_dir_link(mem1, lv1, f1, i1) && spec_dir_link(mem1, lv1, f2, i2));
        }
    }
    assert(spec_state_inv(mem2, lv2, root));

    assert forall|p: nat| spec_p4_index(p) != 511 implies spec_walk_page(mem2, root, p)
        == spec_walk_page(mem1, root, p) by {
        let i4 = spec_p4_index(p) as int;
        let i3 = spec_p3_index(p) as int;
        let i2 = spec_p2_index(p) as int;
        let i1 = spec_p1_index(p) as int;
        assert(i3 < 512 && i2 < 512 && i1 < 512);
        let e4 = mem1[root][i4];
        assert(mem2[root][i4] == e4);
        if spec_present(e4) && !spec_huge(e4) {
            assert(spec_entry_ok(mem1, lv1, root, i4));
            let t3 = spec_child(e4);
            assert(mem1.dom().contains(t3) && t3 != nf);
            let e3 = mem1[t3][i3];
            assert(mem2[t3][i3] == e3);
            if spec_present(e3) && !spec_huge(e3) {
                assert(spec_entry_ok(mem1, lv1, t3, i3));
                let t2 = spec_child(e3);
                assert(mem1.dom().contains(t2) && t2 != nf);
                let e2 = mem1[t2][i2];
                assert(mem2[t2][i2] == e2);
                if spec_present(e2) && !spec_huge(e2) {
                    assert(spec_entry_ok(mem1, lv1, t2, i2));
                    let t1 = spec_child(e2);
                    assert(mem1.dom().contains(t1) && t1 != nf);
                    assert(mem2[t1][i1] == mem1[t1][i1]);
                }
            }
        }
    }
}

/// A page mapped to a frame translates address-for-address: for every
/// offset into the page, the translated address is the same offset into
/// the frame.
pub proof fn lemma_translate_offset(mem: Map<u64, Seq<u64>>, root: u64, p: nat, f: nat, k: nat)
    requires
        spec_walk_page(mem, root, p) == Some(f),
        k < 4096,
    ensures
        spec_translate_addr(mem, root, p * 4096 + k) == Some(f * 4096 + k),
{
    assert((p * 4096 + k) / 4096 == p) by (nonlinear_arith)
        requires k < 4096;
    assert((p * 4096 + k) % 4096 == k) by (nonlinear_arith)
        requires k < 4096;
}

/// A page that maps to nothing translates to nothing, at every offset.
pub proof fn lemma_translate_none(mem: Map<u64, Seq<u64>>, root: u64, p: nat, k: nat)
    requires
        spec_walk_page(mem, root, p) is None,
        k < 4096,
    ensures
        spec_translate_addr(mem, root, p * 4096 + k) is None,
{
    assert((p * 4096 + k) / 4096 == p) by (nonlinear_arith)
        requires k < 4096;
}

impl Mapper {
    /// Huge mappings the walk accepts are always aligned to the size
    /// they map: a well-formed store cannot hold a 1 GiB entry whose
    /// frame is not a multiple of 512 * 512, nor a 2 MiB entry whose
    /// frame is not a multiple of 512. States that violate this are
    /// data corruption and are excluded outright.
    pub proof fn lemma_huge_mappings_aligned(&self, p: nat)
        requires
            self.inv(),
            spec_p4_index(p) != 511,
        ensures
            ({
                let e4 = self.mem()[self.root_frame()][spec_p4_index(p) as int];
                spec_present(e4) && !spec_huge(e4) ==> {
                    let e3 = self.mem()[spec_child(e4)][spec_p3_index(p) as int];
                    &&& (spec_present(e3) && spec_huge(e3) ==> spec_entry_frame(e3) % 0x40000
                        == 0)
                    &&& (spec_present(e3) && !spec_huge(e3) ==> {
                        let e2 = self.mem()[spec_child(e3)][spec_p2_index(p) as int];
                        spec_present(e2) && spec_huge(e2) ==> spec_entry_frame(e2) % 512 == 0
                    })
                }
            }),
    {
        let mem = self.mem();
        let lv = self.lv();
        let root = self.root;
        let i4 = spec_p4_index(p) as int;
        let i3 = spec_p3_index(p) as int;
        let i2 = spec_p2_index(p) as int;
        assert(0 <= i4 < 512 && i4 != 511 && 0 <= i3 < 512 && 0 <= i2 < 512);
        let e4 = mem[root][i4];
        if spec_present(e4) && !spec_huge(e4) {
            assert(spec_entry_ok(mem, lv, root, i4));
            let t3 = spec_child(e4);
            assert(mem.dom().contains(t3) && lv[t3] == 3);
            assert(spec_entry_ok(mem, lv, t3, i3));
            let e3 = mem[t3][i3];
            if spec_present(e3) && !spec_huge(e3) {
                let t2 = spec_child(e3);
                assert(mem.dom().contains(t2) && lv[t2] == 2);
                assert(spec_entry_ok(mem, lv, t2, i2));
            }
        }
    }
}

/// The huge bit read through `EntryFlags` agrees with `spec_huge`.
proof fn lemma_flags_huge(e: u64)
    ensures
        ((e & ALL_FLAGS) & 0x80 == 0x80) == spec_huge(e),
{
    assert(((e & 0x8000_0000_0000_01ff) & 0x80 == 0x80) <==> e & 0x80 != 0) by (bit_vector);
}

/// A successful walk never produces a frame index above 2^40 + 2^18:
/// entry frames fit in 40 bits and the huge-page arithmetic adds less
/// than 2^18.
pub proof fn lemma_walk_result_fits(mem: Map<u64, Seq<u64>>, lv: Map<u64, nat>, root: u64, p: nat)
    requires
        spec_walk_page(mem, root, p) is Some,
    ensures
        spec_walk_page(mem, root, p).unwrap() < 0x100_0000_0000 + 0x40000 + 512,
{
    lemma_entry_bit_facts();
    assert(spec_p2_index(p) < 512 && spec_p1_index(p) < 512) by (nonlinear_arith);
}

} // verus!
