//! The Sv39 page-table manager: a three-level translation tree whose
//! intermediate tables are frames taken from the frame allocator, with the
//! map and translate walks verified against a recursive interpretation.

use vstd::prelude::*;
use vstd::arithmetic::div_mod::lemma_fundamental_div_mod;
use crate::KernelError;
use crate::frame::{FrameAllocator, PAGE_SIZE, count_free, is_free_run, lemma_count_free_all_taken, run_end, Descriptor};

verus! {

/// Permission flags of a leaf entry, as a tagged set instead of raw bits.
#[derive(Clone, Copy, Debug, PartialEq, Eq, Structural)]
pub struct PermBits {
    pub read: bool,
    pub write: bool,
    pub execute: bool,
    pub user: bool,
}

impl PermBits {
    /// A leaf permission must grant at least one of read/write/execute;
    /// an entry with none of them set is reserved for pointer entries.
    pub open spec fn rwx(self) -> bool {
        self.read || self.write || self.execute
    }

    /// Kernel read/write data.
    pub fn read_write() -> (p: PermBits)
        ensures
            p == (PermBits { read: true, write: true, execute: false, user: false }),
    {
        PermBits { read: true, write: true, execute: false, user: false }
    }

    /// Kernel code.
    pub fn read_execute() -> (p: PermBits)
        ensures
            p == (PermBits { read: true, write: false, execute: true, user: false }),
    {
        PermBits { read: true, write: false, execute: true, user: false }
    }
}

/// One slot of a table: empty, a leaf entry (physical page number plus
/// permissions), or a pointer entry owning the next-level table.
pub enum Slot {
    Empty,
    Leaf { ppn: usize, perm: PermBits },
    Branch(Box<Table>),
}

/// One translation table: 512 slots backed by the frame at `addr`.
pub struct Table {
    pub addr: usize,
    pub slots: Vec<Slot>,
}

/// Bytes of address space covered by one slot at the given level:
/// 4096 at level 0, 2 MiB at level 1, 1 GiB at level 2.
pub open spec fn level_bytes(lvl: nat) -> int
    decreases lvl,
{
    if lvl == 0 {
        4096
    } else {
        512 * level_bytes((lvl - 1) as nat)
    }
}

/// Nine-bit slice of a virtual address selecting the slot at a level.
pub open spec fn vpn_index(va: usize, lvl: nat) -> int {
    (va as int / level_bytes(lvl)) % 512
}

/// Physical address a leaf at level `lvl` assigns to `va`: the entry's page
/// number supplies the high bits, `va` the low `12 + 9*lvl` bits verbatim.
pub open spec fn leaf_pa(ppn: int, va: int, lvl: nat) -> int {
    let sp = level_bytes(lvl);
    ((ppn * 4096) / sp) * sp + va % sp
}

/// Well-formed slot at a level: branches only above level 0, and leaf
/// addresses that stay inside the machine's address range.
pub open spec fn slot_wf(s: Slot, lvl: nat) -> bool
    decreases lvl, 0int,
{
    match s {
        Slot::Empty => true,
        Slot::Leaf { ppn, perm } => {
            &&& perm.rwx()
            &&& ppn * 4096 + level_bytes(lvl) <= usize::MAX as int + 1
        },
        Slot::Branch(child) => lvl >= 1 && node_wf(*child, (lvl - 1) as nat),
    }
}

/// Well-formed table at a level: exactly 512 slots, each well formed.
pub open spec fn node_wf(t: Table, lvl: nat) -> bool
    decreases lvl, 1int,
{
    &&& t.slots@.len() == 512
    &&& forall|i: int| 0 <= i < 512 ==> slot_wf(#[trigger] t.slots@[i], lvl)
}

/// No leaf above level 0 anywhere in the slot (no super-pages).
pub open spec fn slot_base_only(s: Slot, lvl: nat) -> bool
    decreases lvl, 0int,
{
    match s {
        Slot::Empty => true,
        Slot::Leaf { .. } => lvl == 0,
        Slot::Branch(child) => lvl >= 1 && base_only(*child, (lvl - 1) as nat),
    }
}

/// No leaf above level 0 anywhere in the tree.
pub open spec fn base_only(t: Table, lvl: nat) -> bool
    decreases lvl, 1int,
{
    forall|i: int| 0 <= i < t.slots@.len() ==> slot_base_only(#[trigger] t.slots@[i], lvl)
}

/// The physical address (if any) that the tree rooted at `t`, standing at
/// level `lvl`, assigns to `va`.
pub open spec fn translate_node(t: Table, va: usize, lvl: nat) -> Option<int>
    decreases lvl,
{
    match t.slots@[vpn_index(va, lvl)] {
        Slot::Empty => None,
        Slot::Leaf { ppn, perm } => Some(leaf_pa(ppn as int, va as int, lvl)),
        Slot::Branch(child) => if lvl == 0 {
            None
        } else {
            translate_node(*child, va, (lvl - 1) as nat)
        },
    }
}

/// Translation through a full three-level root table.
pub open spec fn translate(t: Table, va: usize) -> Option<int> {
    translate_node(t, va, 2)
}

/// The permission flags (if any) that the tree rooted at `t`, standing at
/// level `lvl`, assigns to `va`: those stored in the leaf that terminates
/// the walk.
pub open spec fn perm_of_node(t: Table, va: usize, lvl: nat) -> Option<PermBits>
    decreases lvl,
{
    match t.slots@[vpn_index(va, lvl)] {
        Slot::Empty => None,
        Slot::Leaf { ppn, perm } => Some(perm),
        Slot::Branch(child) => if lvl == 0 {
            None
        } else {
            perm_of_node(*child, va, (lvl - 1) as nat)
        },
    }
}

/// Permission lookup through a full three-level root table.
pub open spec fn perm_of(t: Table, va: usize) -> Option<PermBits> {
    perm_of_node(t, va, 2)
}

/// The walk for `va` from `lvl` down to target level `tgt` meets no leaf
/// above `tgt` and no branch at `tgt`, so a mapping may be installed.
pub open spec fn path_clear(t: Table, va: usize, lvl: nat, tgt: nat) -> bool
    decreases lvl,
{
    let s = t.slots@[vpn_index(va, lvl)];
    if lvl <= tgt {
        !(s is Branch)
    } else {
        match s {
            Slot::Empty => true,
            Slot::Leaf { .. } => false,
            Slot::Branch(child) => path_clear(*child, va, (lvl - 1) as nat, tgt),
        }
    }
}

/// How many fresh intermediate tables a `map` of `va` at target level
/// `tgt` must allocate.
pub open spec fn missing_tables(t: Table, va: usize, lvl: nat, tgt: nat) -> nat
    decreases lvl,
{
    if lvl <= tgt {
        0
    } else {
        match t.slots@[vpn_index(va, lvl)] {
            Slot::Empty => (lvl - tgt) as nat,
            Slot::Leaf { .. } => 0,
            Slot::Branch(child) => missing_tables(*child, va, (lvl - 1) as nat, tgt),
        }
    }
}

/// A 4 KiB mapping ever needs at most two fresh intermediate tables.
pub proof fn lemma_missing_at_most_two(t: Table, va: usize)
    ensures
        missing_tables(t, va, 2, 0) <= 2,
{
    match t.slots@[vpn_index(va, 2)] {
        Slot::Branch(child) => {
            assert(missing_tables(t, va, 2, 0) == missing_tables(*child, va, 1, 0));
            match child.slots@[vpn_index(va, 1)] {
                Slot::Branch(child2) => {
                    assert(missing_tables(*child, va, 1, 0) == missing_tables(*child2, va, 0, 0));
                    assert(missing_tables(*child2, va, 0, 0) == 0);
                },
                Slot::Empty => {
                    assert(missing_tables(*child, va, 1, 0) == 1);
                },
                Slot::Leaf { .. } => {
                    assert(missing_tables(*child, va, 1, 0) == 0);
                },
            }
        },
        Slot::Empty => {
            assert(missing_tables(t, va, 2, 0) == 2);
        },
        Slot::Leaf { .. } => {
            assert(missing_tables(t, va, 2, 0) == 0);
        },
    }
}

/// A page that already translates needs no fresh tables to be remapped:
/// repeated or overlapping `map` calls at level 0 allocate nothing new.
pub proof fn lemma_mapped_no_missing(t: Table, va: usize, lvl: nat)
    requires
        translate_node(t, va, lvl) is Some,
    ensures
        missing_tables(t, va, lvl, 0) == 0,
    decreases lvl,
{
    match t.slots@[vpn_index(va, lvl)] {
        Slot::Branch(child) => {
            if lvl > 0 {
                lemma_mapped_no_missing(*child, va, (lvl - 1) as nat);
            }
        },
        _ => {},
    }
}

/// `va2` selects the same slots as `va` at every level from `tgt` up to
/// `lvl`, i.e. both lie in the page (or super-page) being mapped.
pub open spec fn same_vpns(va2: usize, va: usize, lvl: nat, tgt: nat) -> bool {
    forall|l: nat| tgt <= l <= lvl ==> #[trigger] vpn_index(va2, l) == vpn_index(va, l)
}

/// The byte count of one slot at each level, as executable code.
fn level_size(lvl: usize) -> (r: usize)
    requires
        lvl <= 2,
    ensures
        r == level_bytes(lvl as nat),
        4096 <= r,
{
    proof {
        assert(level_bytes(0) == 4096);
        assert(level_bytes(1) == 512 * 4096);
        assert(level_bytes(2) == 512 * (512 * 4096));
    }
    if lvl == 0 {
        4096
    } else if lvl == 1 {
        0x20_0000
    } else {
        0x4000_0000
    }
}

impl Table {
    /// A fresh, empty table over the frame at `addr`.
    pub fn new(addr: usize) -> (t: Table)
        ensures
            t.addr == addr,
            t.slots@.len() == 512,
            forall|i: int| 0 <= i < 512 ==> (#[trigger] t.slots@[i]) is Empty,
            forall|lvl: nat| lvl <= 2 ==> node_wf(t, lvl),
            forall|lvl: nat| lvl <= 2 ==> base_only(t, lvl),
            forall|va: usize| translate(t, va) is None,
    {
        let mut slots: Vec<Slot> = Vec::new();
        let mut i: usize = 0;
        while i < 512
            invariant
                i <= 512,
                slots@.len() == i,
                forall|k: int| 0 <= k < i ==> (#[trigger] slots@[k]) is Empty,
            decreases 512 - i,
        {
            slots.push(Slot::Empty);
            i = i + 1;
        }
        let t = Table { addr, slots };
        proof {
            assert forall|lvl: nat| lvl <= 2 implies node_wf(t, lvl) by {
                assert(forall|i: int| 0 <= i < 512 ==> slot_wf(#[trigger] t.slots@[i], lvl));
            }
            assert forall|lvl: nat| lvl <= 2 implies base_only(t, lvl) by {
                assert(forall|i: int|
                    0 <= i < 512 ==> slot_base_only(#[trigger] t.slots@[i], lvl));
            }
        }
        t
    }
}

/// A table whose slots are all empty translates nothing.
pub proof fn lemma_empty_translate(t: Table, va: usize, lvl: nat)
    requires
        t.slots@.len() == 512,
        forall|i: int| 0 <= i < 512 ==> (#[trigger] t.slots@[i]) is Empty,
    ensures
        translate_node(t, va, lvl) is None,
{
}

/// A table whose slots are all empty assigns no permissions.
pub proof fn lemma_empty_perm(t: Table, va: usize, lvl: nat)
    requires
        t.slots@.len() == 512,
        forall|i: int| 0 <= i < 512 ==> (#[trigger] t.slots@[i]) is Empty,
    ensures
        perm_of_node(t, va, lvl) is None,
{
}

/// A tree with leaves only at level 0 has a clear path to level 0 for
/// every address.
pub proof fn lemma_base_only_path_clear(t: Table, va: usize, lvl: nat)
    requires
        node_wf(t, lvl),
        base_only(t, lvl),
    ensures
        path_clear(t, va, lvl, 0),
    decreases lvl,
{
    let s = t.slots@[vpn_index(va, lvl)];
    if lvl == 0 {
        assert(slot_base_only(s, lvl));
    } else {
        match s {
            Slot::Branch(child) => {
                assert(slot_wf(s, lvl));
                assert(slot_base_only(s, lvl));
                lemma_base_only_path_clear(*child, va, (lvl - 1) as nat);
            },
            Slot::Leaf { .. } => {
                assert(slot_base_only(s, lvl));
            },
            Slot::Empty => {},
        }
    }
}

/// Extending agreement on the slot index at `lvl` down to agreement below
/// it is exactly agreement on the whole range `[tgt, lvl]`.
proof fn lemma_same_vpns_step(va2: usize, va: usize, lvl: nat, tgt: nat)
    requires
        tgt < lvl,
    ensures
        same_vpns(va2, va, lvl, tgt) <==> (vpn_index(va2, lvl) == vpn_index(va, lvl)
            && same_vpns(va2, va, (lvl - 1) as nat, tgt)),
{
    if vpn_index(va2, lvl) == vpn_index(va, lvl) && same_vpns(va2, va, (lvl - 1) as nat, tgt) {
        assert forall|l: nat| tgt <= l <= lvl implies #[trigger] vpn_index(va2, l) == vpn_index(
            va,
            l,
        ) by {
            if l < lvl {
                assert(vpn_index(va2, l) == vpn_index(va, l));
            }
        }
    }
}

/// Replacing the slot at `va`'s index by a branch over `cnew` rewrites
/// translation under that index to `cnew`'s and leaves all else unchanged.
proof fn lemma_branch_update_translate(
    told: Table,
    tnew: Table,
    cnew: Table,
    va: usize,
    ppn: int,
    lvl: nat,
    tgt: nat,
)
    requires
        tgt < lvl,
        told.slots@.len() == 512,
        tnew.slots@.len() == 512,
        forall|j: int|
            0 <= j < 512 && j != vpn_index(va, lvl) ==> #[trigger] tnew.slots@[j]
                == told.slots@[j],
        tnew.slots@[vpn_index(va, lvl)] matches Slot::Branch(c) && *c == cnew,
        forall|va2: usize|
            #[trigger] vpn_index(va2, lvl) == vpn_index(va, lvl) ==> translate_node(
                cnew,
                va2,
                (lvl - 1) as nat,
            ) == if same_vpns(va2, va, (lvl - 1) as nat, tgt) {
                Some(leaf_pa(ppn, va2 as int, tgt))
            } else {
                translate_node(told, va2, lvl)
            },
    ensures
        forall|va2: usize|
            #[trigger] translate_node(tnew, va2, lvl) == if same_vpns(va2, va, lvl, tgt) {
                Some(leaf_pa(ppn, va2 as int, tgt))
            } else {
                translate_node(told, va2, lvl)
            },
{
    let idx = vpn_index(va, lvl);
    assert forall|va2: usize|
        #[trigger] translate_node(tnew, va2, lvl) == if same_vpns(va2, va, lvl, tgt) {
            Some(leaf_pa(ppn, va2 as int, tgt))
        } else {
            translate_node(told, va2, lvl)
        } by {
        lemma_same_vpns_step(va2, va, lvl, tgt);
        if vpn_index(va2, lvl) == idx {
            assert(translate_node(tnew, va2, lvl) == translate_node(cnew, va2, (lvl - 1) as nat));
        } else {
            assert(translate_node(tnew, va2, lvl) == translate_node(told, va2, lvl));
            assert(!same_vpns(va2, va, lvl, tgt)) by {
                if same_vpns(va2, va, lvl, tgt) {
                    assert(vpn_index(va2, lvl) == vpn_index(va, lvl));
                }
            }
        }
    }
}

/// Replacing the slot at `va`'s index by a branch over `cnew` that
/// translates exactly as the old slot did changes no translation at all.
proof fn lemma_branch_update_translate_same(told: Table, tnew: Table, cnew: Table, va: usize, lvl: nat)
    requires
        1 <= lvl,
        told.slots@.len() == 512,
        tnew.slots@.len() == 512,
        forall|j: int|
            0 <= j < 512 && j != vpn_index(va, lvl) ==> #[trigger] tnew.slots@[j]
                == told.slots@[j],
        tnew.slots@[vpn_index(va, lvl)] matches Slot::Branch(c) && *c == cnew,
        forall|va2: usize|
            #[trigger] vpn_index(va2, lvl) == vpn_index(va, lvl) ==> translate_node(
                cnew,
                va2,
                (lvl - 1) as nat,
            ) == translate_node(told, va2, lvl),
    ensures
        forall|va2: usize|
            #[trigger] translate_node(tnew, va2, lvl) == translate_node(told, va2, lvl),
{
    assert forall|va2: usize|
        #[trigger] translate_node(tnew, va2, lvl) == translate_node(told, va2, lvl) by {
        if vpn_index(va2, lvl) == vpn_index(va, lvl) {
            assert(translate_node(tnew, va2, lvl) == translate_node(cnew, va2, (lvl - 1) as nat));
        }
    }
}

/// Permission twin of `lemma_branch_update_translate`.
proof fn lemma_branch_update_perm(
    told: Table,
    tnew: Table,
    cnew: Table,
    va: usize,
    perm: PermBits,
    lvl: nat,
    tgt: nat,
)
    requires
        tgt < lvl,
        told.slots@.len() == 512,
        tnew.slots@.len() == 512,
        forall|j: int|
            0 <= j < 512 && j != vpn_index(va, lvl) ==> #[trigger] tnew.slots@[j]
                == told.slots@[j],
        tnew.slots@[vpn_index(va, lvl)] matches Slot::Branch(c) && *c == cnew,
        forall|va2: usize|
            #[trigger] vpn_index(va2, lvl) == vpn_index(va, lvl) ==> perm_of_node(
                cnew,
                va2,
                (lvl - 1) as nat,
            ) == if same_vpns(va2, va, (lvl - 1) as nat, tgt) {
                Some(perm)
            } else {
                perm_of_node(told, va2, lvl)
            },
    ensures
        forall|va2: usize|
            #[trigger] perm_of_node(tnew, va2, lvl) == if same_vpns(va2, va, lvl, tgt) {
                Some(perm)
            } else {
                perm_of_node(told, va2, lvl)
            },
{
    let idx = vpn_index(va, lvl);
    assert forall|va2: usize|
        #[trigger] perm_of_node(tnew, va2, lvl) == if same_vpns(va2, va, lvl, tgt) {
            Some(perm)
        } else {
            perm_of_node(told, va2, lvl)
        } by {
        lemma_same_vpns_step(va2, va, lvl, tgt);
        if vpn_index(va2, lvl) == idx {
            assert(perm_of_node(tnew, va2, lvl) == perm_of_node(cnew, va2, (lvl - 1) as nat));
        } else {
            assert(perm_of_node(tnew, va2, lvl) == perm_of_node(told, va2, lvl));
            assert(!same_vpns(va2, va, lvl, tgt)) by {
                if same_vpns(va2, va, lvl, tgt) {
                    assert(vpn_index(va2, lvl) == vpn_index(va, lvl));
                }
            }
        }
    }
}

/// Permission twin of `lemma_branch_update_translate_same`.
proof fn lemma_branch_update_perm_same(told: Table, tnew: Table, cnew: Table, va: usize, lvl: nat)
    requires
        1 <= lvl,
        told.slots@.len() == 512,
        tnew.slots@.len() == 512,
        forall|j: int|
            0 <= j < 512 && j != vpn_index(va, lvl) ==> #[trigger] tnew.slots@[j]
                == told.slots@[j],
        tnew.slots@[vpn_index(va, lvl)] matches Slot::Branch(c) && *c == cnew,
        forall|va2: usize|
            #[trigger] vpn_index(va2, lvl) == vpn_index(va, lvl) ==> perm_of_node(
                cnew,
                va2,
                (lvl - 1) as nat,
            ) == perm_of_node(told, va2, lvl),
    ensures
        forall|va2: usize|
            #[trigger] perm_of_node(tnew, va2, lvl) == perm_of_node(told, va2, lvl),
{
    assert forall|va2: usize|
        #[trigger] perm_of_node(tnew, va2, lvl) == perm_of_node(told, va2, lvl) by {
        if vpn_index(va2, lvl) == vpn_index(va, lvl) {
            assert(perm_of_node(tnew, va2, lvl) == perm_of_node(cnew, va2, (lvl - 1) as nat));
        }
    }
}

/// One step of `map`: installs a leaf for `va` at level `tgt` in the
/// subtree `t` standing at level `lvl`, allocating intermediate tables as
/// needed.
#[verifier::rlimit(100)]
#[verifier::spinoff_prover]
fn map_rec(
    t: &mut Table,
    va: usize,
    ppn: usize,
    perm: PermBits,
    tgt: usize,
    lvl: usize,
    fa: &mut FrameAllocator,
) -> (r: Result<(), KernelError>)
    requires
        old(fa).wf(),
        tgt <= lvl <= 2,
        node_wf(*old(t), lvl as nat),
        path_clear(*old(t), va, lvl as nat, tgt as nat),
        perm.rwx(),
        ppn * 4096 + level_bytes(tgt as nat) <= usize::MAX as int + 1,
    ensures
        final(fa).wf(),
        final(fa).heap_base == old(fa).heap_base,
        final(fa).heap_len == old(fa).heap_len,
        final(fa).alloc_start == old(fa).alloc_start,
        final(fa).descs@.len() == old(fa).descs@.len(),
        final(fa).frames@.len() == old(fa).frames@.len(),
        forall|i: int|
            0 <= i < old(fa).descs@.len() && (#[trigger] old(fa).descs@[i]).taken
                ==> final(fa).descs@[i] == old(fa).descs@[i],
        forall|a: int| old(fa).single_alloc(a) ==> #[trigger] final(fa).single_alloc(a),
        forall|i: int|
            0 <= i < old(fa).descs@.len() && (#[trigger] old(fa).descs@[i]).taken
                ==> final(fa).frames@[i] == old(fa).frames@[i],
        tree_frames_ok(*old(t), lvl as nat, *old(fa)) ==> tree_frames_ok(
            *final(t),
            lvl as nat,
            *final(fa),
        ),
        (tgt == 0 && missing_tables(*old(t), va, lvl as nat, 0) == 0 && r is Ok) ==> (*final(fa)
            == *old(fa) && forall|va2: usize|
            #[trigger] missing_tables(*final(t), va2, lvl as nat, 0) == missing_tables(
                *old(t),
                va2,
                lvl as nat,
                0,
            )),
        node_wf(*final(t), lvl as nat),
        final(t).addr == old(t).addr,
        r is Ok <==> missing_tables(*old(t), va, lvl as nat, tgt as nat) <= count_free(
            old(fa).descs@,
        ),
        match r {
            Ok(_) => {
                &&& count_free(final(fa).descs@) + missing_tables(
                    *old(t),
                    va,
                    lvl as nat,
                    tgt as nat,
                ) == count_free(old(fa).descs@)
                &&& forall|va2: usize|
                    #[trigger] translate_node(*final(t), va2, lvl as nat) == if same_vpns(
                        va2,
                        va,
                        lvl as nat,
                        tgt as nat,
                    ) {
                        Some(leaf_pa(ppn as int, va2 as int, tgt as nat))
                    } else {
                        translate_node(*old(t), va2, lvl as nat)
                    }
                &&& forall|va2: usize|
                    #[trigger] perm_of_node(*final(t), va2, lvl as nat) == if same_vpns(
                        va2,
                        va,
                        lvl as nat,
                        tgt as nat,
                    ) {
                        Some(perm)
                    } else {
                        perm_of_node(*old(t), va2, lvl as nat)
                    }
                &&& (tgt == 0 && base_only(*old(t), lvl as nat) ==> base_only(
                    *final(t),
                    lvl as nat,
                ))
            },
            Err(e) => {
                &&& e == KernelError::AllocationExhausted
                &&& count_free(final(fa).descs@) == 0
                &&& forall|va2: usize|
                    #[trigger] translate_node(*final(t), va2, lvl as nat) == translate_node(
                        *old(t),
                        va2,
                        lvl as nat,
                    )
                &&& forall|va2: usize|
                    #[trigger] perm_of_node(*final(t), va2, lvl as nat) == perm_of_node(
                        *old(t),
                        va2,
                        lvl as nat,
                    )
                &&& (base_only(*old(t), lvl as nat) ==> base_only(*final(t), lvl as nat))
            },
        },
    decreases lvl,
{
    let sp = level_size(lvl);
    let idx = (va / sp) % 512;
    proof {
        assert(idx == vpn_index(va, lvl as nat));
        assert(slot_wf(old(t).slots@[idx as int], lvl as nat));
    }
    if lvl == tgt {
        let ghost told = *t;
        t.slots[idx] = Slot::Leaf { ppn, perm };
        proof {
            assert(t.slots@ =~= told.slots@.update(idx as int, Slot::Leaf { ppn, perm }));
            assert forall|va2: usize|
                #[trigger] translate_node(*t, va2, lvl as nat) == if same_vpns(
                    va2,
                    va,
                    lvl as nat,
                    tgt as nat,
                ) {
                    Some(leaf_pa(ppn as int, va2 as int, tgt as nat))
                } else {
                    translate_node(told, va2, lvl as nat)
                } by {
                if vpn_index(va2, lvl as nat) == idx {
                    assert(same_vpns(va2, va, lvl as nat, tgt as nat));
                } else {
                    if same_vpns(va2, va, lvl as nat, tgt as nat) {
                        assert(vpn_index(va2, lvl as nat) == vpn_index(va, lvl as nat));
                    }
                }
            }
            assert forall|va2: usize|
                #[trigger] perm_of_node(*t, va2, lvl as nat) == if same_vpns(
                    va2,
                    va,
                    lvl as nat,
                    tgt as nat,
                ) {
                    Some(perm)
                } else {
                    perm_of_node(told, va2, lvl as nat)
                } by {
                if vpn_index(va2, lvl as nat) == idx {
                    assert(same_vpns(va2, va, lvl as nat, tgt as nat));
                } else {
                    if same_vpns(va2, va, lvl as nat, tgt as nat) {
                        assert(vpn_index(va2, lvl as nat) == vpn_index(va, lvl as nat));
                    }
                }
            }
            if tree_frames_ok(told, lvl as nat, *old(fa)) {
                assert forall|a: int| #[trigger] owns_frame(*t, lvl as nat, a) implies fa.single_alloc(
                    a,
                ) by {
                    let i = choose|i: int|
                        0 <= i < t.slots@.len() && slot_owns(#[trigger] t.slots@[i], lvl as nat, a);
                    assert(i != idx);
                    assert(slot_owns(told.slots@[i], lvl as nat, a));
                    assert(owns_frame(told, lvl as nat, a));
                }
            }
        }
        Ok(())
    } else {
        let slot = t.slots.remove(idx);
        match slot {
            Slot::Branch(mut child) => {
                let ghost childold = *child;
                let r = map_rec(&mut *child, va, ppn, perm, tgt, lvl - 1, fa);
                let ghost childnew = *child;
                t.slots.insert(idx, Slot::Branch(child));
                proof {
                    assert(forall|j: int|
                        0 <= j < 512 && j != idx ==> #[trigger] t.slots@[j] == old(t).slots@[j]);
                    assert(t.slots@[idx as int] matches Slot::Branch(c) && *c == childnew);
                    assert(forall|va2: usize|
                        #[trigger] vpn_index(va2, lvl as nat) == idx ==> translate_node(
                            *old(t),
                            va2,
                            lvl as nat,
                        ) == translate_node(childold, va2, (lvl - 1) as nat));
                    assert(forall|va2: usize|
                        #[trigger] vpn_index(va2, lvl as nat) == idx ==> perm_of_node(
                            *old(t),
                            va2,
                            lvl as nat,
                        ) == perm_of_node(childold, va2, (lvl - 1) as nat));
                    if r is Ok {
                        lemma_branch_update_translate(
                            *old(t),
                            *t,
                            childnew,
                            va,
                            ppn as int,
                            lvl as nat,
                            tgt as nat,
                        );
                        lemma_branch_update_perm(
                            *old(t),
                            *t,
                            childnew,
                            va,
                            perm,
                            lvl as nat,
                            tgt as nat,
                        );
                    } else {
                        lemma_branch_update_translate_same(
                            *old(t),
                            *t,
                            childnew,
                            va,
                            lvl as nat,
                        );
                        lemma_branch_update_perm_same(
                            *old(t),
                            *t,
                            childnew,
                            va,
                            lvl as nat,
                        );
                    }
                    assert(node_wf(*t, lvl as nat)) by {
                        assert(forall|j: int|
                            0 <= j < 512 && j != idx ==> slot_wf(#[trigger] t.slots@[j],
                            lvl as nat));
                        assert(slot_wf(t.slots@[idx as int], lvl as nat));
                    }
                    if base_only(*old(t), lvl as nat) && (r is Err || tgt == 0) {
                        assert(slot_base_only(old(t).slots@[idx as int], lvl as nat));
                        assert(base_only(childold, (lvl - 1) as nat));
                        assert(base_only(childnew, (lvl - 1) as nat));
                        assert(forall|j: int|
                            0 <= j < 512 && j != idx ==> slot_base_only(#[trigger] t.slots@[j],
                            lvl as nat));
                        assert(base_only(*t, lvl as nat));
                    }
                    if tgt == 0 && missing_tables(*old(t), va, lvl as nat, 0) == 0 && r is Ok {
                        assert(missing_tables(childold, va, (lvl - 1) as nat, 0) == 0);
                        assert forall|va2: usize|
                            #[trigger] missing_tables(*t, va2, lvl as nat, 0) == missing_tables(
                                *old(t),
                                va2,
                                lvl as nat,
                                0,
                            ) by {
                            if vpn_index(va2, lvl as nat) == idx {
                                assert(missing_tables(*t, va2, lvl as nat, 0) == missing_tables(
                                    childnew,
                                    va2,
                                    (lvl - 1) as nat,
                                    0,
                                ));
                                assert(missing_tables(*old(t), va2, lvl as nat, 0)
                                    == missing_tables(childold, va2, (lvl - 1) as nat, 0));
                            }
                        }
                    }
                    if tree_frames_ok(*old(t), lvl as nat, *old(fa)) {
                        assert(tree_frames_ok(childold, (lvl - 1) as nat, *old(fa))) by {
                            assert forall|a: int|
                                #[trigger] owns_frame(childold, (lvl - 1) as nat, a)
                                    implies old(fa).single_alloc(a) by {
                                assert(slot_owns(old(t).slots@[idx as int], lvl as nat, a));
                                assert(owns_frame(*old(t), lvl as nat, a));
                            }
                        }
                        assert forall|a: int|
                            #[trigger] owns_frame(*t, lvl as nat, a) implies fa.single_alloc(
                            a,
                        ) by {
                            let i = choose|i: int|
                                0 <= i < t.slots@.len() && slot_owns(
                                    #[trigger] t.slots@[i],
                                    lvl as nat,
                                    a,
                                );
                            if i == idx {
                                if a == childnew.addr as int {
                                    assert(childnew.addr == childold.addr);
                                    assert(slot_owns(old(t).slots@[idx as int], lvl as nat, a));
                                    assert(owns_frame(*old(t), lvl as nat, a));
                                    assert(old(fa).single_alloc(a));
                                } else {
                                    assert(owns_frame(childnew, (lvl - 1) as nat, a));
                                    assert(tree_frames_ok(childnew, (lvl - 1) as nat, *fa));
                                }
                            } else {
                                assert(slot_owns(old(t).slots@[i], lvl as nat, a));
                                assert(owns_frame(*old(t), lvl as nat, a));
                                assert(old(fa).single_alloc(a));
                            }
                        }
                    }
                }
                r
            },
            Slot::Empty => {
                let ra = fa.allocate(1);
                match ra {
                    Err(_) => {
                        t.slots.insert(idx, Slot::Empty);
                        proof {
                            assert(t.slots@ =~= old(t).slots@);
                            assert forall|va2: usize|
                                #[trigger] translate_node(*t, va2, lvl as nat) == translate_node(
                                    *old(t),
                                    va2,
                                    lvl as nat,
                                ) by {}
                            assert forall|va2: usize|
                                #[trigger] perm_of_node(*t, va2, lvl as nat) == perm_of_node(
                                    *old(t),
                                    va2,
                                    lvl as nat,
                                ) by {}
                            assert(node_wf(*t, lvl as nat));
                            assert forall|i: int|
                                0 <= i < old(fa).descs@.len() implies (
                            #[trigger] fa.descs@[i]).taken by {
                                assert(!is_free_run(old(fa).descs@, i, 1));
                            }
                            lemma_count_free_all_taken(fa.descs@);
                            if tree_frames_ok(*old(t), lvl as nat, *old(fa)) {
                                assert forall|a: int|
                                    #[trigger] owns_frame(*t, lvl as nat, a)
                                        implies fa.single_alloc(a) by {
                                    let i = choose|i: int|
                                        0 <= i < t.slots@.len() && slot_owns(
                                            #[trigger] t.slots@[i],
                                            lvl as nat,
                                            a,
                                        );
                                    assert(slot_owns(old(t).slots@[i], lvl as nat, a));
                                    assert(owns_frame(*old(t), lvl as nat, a));
                                }
                            }
                        }
                        Err(KernelError::AllocationExhausted)
                    },
                    Ok(child_addr) => {
                        let ghost famid = *fa;
                        proof {
                            let s = choose|s: int|
                                {
                                    &&& #[trigger] is_free_run(old(fa).descs@, s, 1)
                                    &&& forall|t2: int|
                                        0 <= t2 < s ==> !is_free_run(old(fa).descs@, t2, 1)
                                    &&& child_addr == famid.alloc_start + s * 4096
                                    &&& famid.descs@ == crate::frame::spec_mark(
                                        old(fa).descs@,
                                        s,
                                        1,
                                    )
                                };
                            crate::frame::lemma_fresh_single(*old(fa), famid, child_addr, s);
                        }
                        let mut child = Box::new(Table::new(child_addr));
                        let ghost child0 = *child;
                        let r = map_rec(&mut *child, va, ppn, perm, tgt, lvl - 1, fa);
                        let ghost childnew = *child;
                        t.slots.insert(idx, Slot::Branch(child));
                        proof {
                            assert(forall|j: int|
                                0 <= j < 512 && j != idx ==> #[trigger] t.slots@[j]
                                    == old(t).slots@[j]);
                            assert(t.slots@[idx as int] matches Slot::Branch(c) && *c == childnew);
                            assert(missing_tables(child0, va, (lvl - 1) as nat, tgt as nat)
                                == (lvl - 1 - tgt) as nat);
                            assert(missing_tables(*old(t), va, lvl as nat, tgt as nat)
                                == (lvl - tgt) as nat);
                            assert forall|va2: usize|
                                #[trigger] vpn_index(va2, lvl as nat) == idx implies translate_node(
                                    *old(t),
                                    va2,
                                    lvl as nat,
                                ) is None by {}
                            if r is Ok {
                                assert forall|va2: usize|
                                    #[trigger] vpn_index(va2, lvl as nat) == idx
                                        implies translate_node(childnew, va2, (lvl - 1) as nat)
                                        == if same_vpns(va2, va, (lvl - 1) as nat, tgt as nat) {
                                        Some(leaf_pa(ppn as int, va2 as int, tgt as nat))
                                    } else {
                                        translate_node(*old(t), va2, lvl as nat)
                                    } by {
                                    lemma_empty_translate(child0, va2, (lvl - 1) as nat);
                                }
                                assert forall|va2: usize|
                                    #[trigger] vpn_index(va2, lvl as nat) == idx
                                        implies perm_of_node(childnew, va2, (lvl - 1) as nat)
                                        == if same_vpns(va2, va, (lvl - 1) as nat, tgt as nat) {
                                        Some(perm)
                                    } else {
                                        perm_of_node(*old(t), va2, lvl as nat)
                                    } by {
                                    lemma_empty_perm(child0, va2, (lvl - 1) as nat);
                                }
                                lemma_branch_update_translate(
                                    *old(t),
                                    *t,
                                    childnew,
                                    va,
                                    ppn as int,
                                    lvl as nat,
                                    tgt as nat,
                                );
                                lemma_branch_update_perm(
                                    *old(t),
                                    *t,
                                    childnew,
                                    va,
                                    perm,
                                    lvl as nat,
                                    tgt as nat,
                                );
                            } else {
                                assert forall|va2: usize|
                                    #[trigger] vpn_index(va2, lvl as nat) == idx
                                        implies translate_node(childnew, va2, (lvl - 1) as nat)
                                        == translate_node(*old(t), va2, lvl as nat) by {
                                    lemma_empty_translate(child0, va2, (lvl - 1) as nat);
                                }
                                assert forall|va2: usize|
                                    #[trigger] vpn_index(va2, lvl as nat) == idx
                                        implies perm_of_node(childnew, va2, (lvl - 1) as nat)
                                        == perm_of_node(*old(t), va2, lvl as nat) by {
                                    lemma_empty_perm(child0, va2, (lvl - 1) as nat);
                                }
                                lemma_branch_update_translate_same(
                                    *old(t),
                                    *t,
                                    childnew,
                                    va,
                                    lvl as nat,
                                );
                                lemma_branch_update_perm_same(
                                    *old(t),
                                    *t,
                                    childnew,
                                    va,
                                    lvl as nat,
                                );
                            }
                            assert(node_wf(*t, lvl as nat)) by {
                                assert(forall|j: int|
                                    0 <= j < 512 && j != idx ==> slot_wf(#[trigger] t.slots@[j],
                                    lvl as nat));
                                assert(slot_wf(t.slots@[idx as int], lvl as nat));
                            }
                            if base_only(*old(t), lvl as nat) && (r is Err || tgt == 0) {
                                assert(base_only(child0, (lvl - 1) as nat));
                                assert(base_only(childnew, (lvl - 1) as nat));
                                assert(forall|j: int|
                                    0 <= j < 512 && j != idx ==> slot_base_only(
                                    #[trigger] t.slots@[j], lvl as nat));
                                assert(base_only(*t, lvl as nat));
                            }
                            if tree_frames_ok(*old(t), lvl as nat, *old(fa)) {
                                assert(tree_frames_ok(child0, (lvl - 1) as nat, famid)) by {
                                    assert forall|a: int|
                                        #[trigger] owns_frame(child0, (lvl - 1) as nat, a)
                                            implies famid.single_alloc(a) by {
                                        let i = choose|i: int|
                                            0 <= i < child0.slots@.len() && slot_owns(
                                                #[trigger] child0.slots@[i],
                                                (lvl - 1) as nat,
                                                a,
                                            );
                                        assert(child0.slots@[i] is Empty);
                                        assert(false);
                                    }
                                }
                                assert forall|a: int|
                                    #[trigger] owns_frame(*t, lvl as nat, a)
                                        implies fa.single_alloc(a) by {
                                    let i = choose|i: int|
                                        0 <= i < t.slots@.len() && slot_owns(
                                            #[trigger] t.slots@[i],
                                            lvl as nat,
                                            a,
                                        );
                                    if i == idx {
                                        if a == childnew.addr as int {
                                            assert(childnew.addr == child_addr);
                                            assert(famid.single_alloc(a));
                                            assert(fa.single_alloc(a));
                                        } else {
                                            assert(owns_frame(childnew, (lvl - 1) as nat, a));
                                            assert(tree_frames_ok(
                                                childnew,
                                                (lvl - 1) as nat,
                                                *fa,
                                            ));
                                        }
                                    } else {
                                        assert(slot_owns(old(t).slots@[i], lvl as nat, a));
                                        assert(owns_frame(*old(t), lvl as nat, a));
                                        assert(old(fa).single_alloc(a));
                                        assert(famid.single_alloc(a));
                                    }
                                }
                            }
                        }
                        r
                    },
                }
            },
            Slot::Leaf { ppn: p0, perm: q0 } => {
                // Unreachable: `path_clear` excludes a leaf above the
                // target level.
                proof {
                    assert(false);
                }
                t.slots.insert(idx, Slot::Leaf { ppn: p0, perm: q0 });
                Err(KernelError::AllocationExhausted)
            },
        }
    }
}

/// Maps the virtual page of `vaddr` to the physical page of `paddr` with
/// the given permissions, installing a leaf at `level` (0 for 4 KiB pages)
/// and allocating any intermediate tables from `fa`. Fails exactly when the
/// allocator cannot supply the missing tables.
pub fn map(
    root: &mut Table,
    vaddr: usize,
    paddr: usize,
    perm: PermBits,
    level: usize,
    fa: &mut FrameAllocator,
) -> (r: Result<(), KernelError>)
    requires
        old(fa).wf(),
        level <= 2,
        node_wf(*old(root), 2),
        path_clear(*old(root), vaddr, 2, level as nat),
        perm.rwx(),
        (paddr as int / 4096) * 4096 + level_bytes(level as nat) <= usize::MAX as int + 1,
    ensures
        final(fa).wf(),
        final(fa).heap_base == old(fa).heap_base,
        final(fa).heap_len == old(fa).heap_len,
        final(fa).alloc_start == old(fa).alloc_start,
        final(fa).descs@.len() == old(fa).descs@.len(),
        final(fa).frames@.len() == old(fa).frames@.len(),
        forall|i: int|
            0 <= i < old(fa).descs@.len() && (#[trigger] old(fa).descs@[i]).taken ==> final(fa).descs@[i] == old(fa).descs@[i],
        forall|a: int| old(fa).single_alloc(a) ==> #[trigger] final(fa).single_alloc(a),
        forall|i: int|
            0 <= i < old(fa).descs@.len() && (#[trigger] old(fa).descs@[i]).taken
                ==> final(fa).frames@[i] == old(fa).frames@[i],
        tree_frames_ok(*old(root), 2, *old(fa)) ==> tree_frames_ok(
            *final(root),
            2,
            *final(fa),
        ),
        (level == 0 && missing_tables(*old(root), vaddr, 2, 0) == 0 && r is Ok) ==> (*final(fa)
            == *old(fa) && forall|va2: usize|
            #[trigger] missing_tables(*final(root), va2, 2, 0) == missing_tables(
                *old(root),
                va2,
                2,
                0,
            )),
        node_wf(*final(root), 2),
        final(root).addr == old(root).addr,
        r is Ok <==> missing_tables(*old(root), vaddr, 2, level as nat) <= count_free(
            old(fa).descs@,
        ),
        match r {
            Ok(_) => {
                &&& count_free(final(fa).descs@) + missing_tables(
                    *old(root),
                    vaddr,
                    2,
                    level as nat,
                ) == count_free(old(fa).descs@)
                &&& forall|va2: usize|
                    #[trigger] translate(*final(root), va2) == if same_vpns(
                        va2,
                        vaddr,
                        2,
                        level as nat,
                    ) {
                        Some(leaf_pa(paddr as int / 4096, va2 as int, level as nat))
                    } else {
                        translate(*old(root), va2)
                    }
                &&& forall|va2: usize|
                    #[trigger] perm_of(*final(root), va2) == if same_vpns(
                        va2,
                        vaddr,
                        2,
                        level as nat,
                    ) {
                        Some(perm)
                    } else {
                        perm_of(*old(root), va2)
                    }
                &&& (level == 0 && base_only(*old(root), 2) ==> base_only(*final(root), 2))
            },
            Err(e) => {
                &&& e == KernelError::AllocationExhausted
                &&& count_free(final(fa).descs@) == 0
                &&& forall|va2: usize| #[trigger] translate(*final(root), va2) == translate(
                    *old(root),
                    va2,
                )
                &&& forall|va2: usize| #[trigger] perm_of(*final(root), va2) == perm_of(
                    *old(root),
                    va2,
                )
                &&& (base_only(*old(root), 2) ==> base_only(*final(root), 2))
            },
        },
{
    let ppn = paddr / PAGE_SIZE;
    map_rec(root, vaddr, ppn, perm, level, 2, fa)
}

/// One step of the read-only walk mirroring `map`'s index derivation.
fn walk_rec(t: &Table, va: usize, lvl: usize) -> (r: Option<usize>)
    requires
        lvl <= 2,
        node_wf(*t, lvl as nat),
    ensures
        match translate_node(*t, va, lvl as nat) {
            Some(pa) => r == Some(pa as usize) && pa == r.unwrap() as int,
            None => r is None,
        },
    decreases lvl,
{
    let sp = level_size(lvl);
    let idx = (va / sp) % 512;
    proof {
        assert(idx == vpn_index(va, lvl as nat));
        assert(slot_wf(t.slots@[idx as int], lvl as nat));
    }
    match &t.slots[idx] {
        Slot::Empty => None,
        Slot::Leaf { ppn, perm: _ } => {
            proof {
                assert(*ppn * 4096 + level_bytes(lvl as nat) <= usize::MAX as int + 1);
            }
            proof {
                lemma_fundamental_div_mod((*ppn * 4096) as int, sp as int);
                assert(sp as int * ((*ppn * 4096) as int / sp as int) == ((*ppn * 4096) as int
                    / sp as int) * sp as int) by (nonlinear_arith);
                assert(((*ppn * 4096) as int / sp as int) * sp as int <= *ppn * 4096);
            }
            let base = ((*ppn * PAGE_SIZE) / sp) * sp;
            Some(base + va % sp)
        },
        Slot::Branch(child) => {
            if lvl == 0 {
                proof {
                    assert(false);
                }
                None
            } else {
                walk_rec(child, va, lvl - 1)
            }
        },
    }
}

/// Read-only translation of `vaddr` through the tree rooted at `root`:
/// returns the physical address, or `None` where any traversed entry is
/// invalid ("unmapped").
pub fn virt_to_phys(root: &Table, vaddr: usize) -> (r: Option<usize>)
    requires
        node_wf(*root, 2),
    ensures
        match translate(*root, vaddr) {
            Some(pa) => r == Some(pa as usize) && pa == r.unwrap() as int,
            None => r is None,
        },
{
    walk_rec(root, vaddr, 2)
}

/// The page number of an Sv39 address is rebuilt exactly from its three
/// nine-bit slot indices.
pub proof fn lemma_vpn_decompose(va: usize)
    requires
        va < 0x80_0000_0000,
    ensures
        va as int / 4096 == 512 * 512 * vpn_index(va, 2) + 512 * vpn_index(va, 1) + vpn_index(
            va,
            0,
        ),
        0 <= vpn_index(va, 0) < 512,
        0 <= vpn_index(va, 1) < 512,
        0 <= vpn_index(va, 2) < 512,
{
    let q = va as int / 4096;
    vstd::arithmetic::div_mod::lemma_div_pos_is_pos(va as int, 4096);
    vstd::arithmetic::div_mod::lemma_div_is_ordered(va as int, 0x7f_ffff_ffff, 4096);
    assert(0x7f_ffff_ffffint / 4096 == 0x7ff_ffff);
    assert(level_bytes(0) == 4096);
    assert(level_bytes(1) == 512 * 4096);
    assert(level_bytes(2) == 512 * (512 * 4096));
    vstd::arithmetic::div_mod::lemma_div_denominator(va as int, 4096int, 512int);
    assert(va as int / (4096int * 512) == q / 512);
    vstd::arithmetic::div_mod::lemma_div_denominator(va as int, (4096 * 512) as int, 512);
    assert(va as int / ((4096int * 512) * 512) == (q / 512) / 512);
    assert(vpn_index(va, 1) == (q / 512) % 512);
    assert(vpn_index(va, 2) == ((q / 512) / 512) % 512);
    vstd::arithmetic::div_mod::lemma_div_pos_is_pos(q, 512);
    vstd::arithmetic::div_mod::lemma_div_is_ordered(q, 0x7ff_ffff, 512);
    vstd::arithmetic::div_mod::lemma_div_pos_is_pos(q / 512, 512);
    vstd::arithmetic::div_mod::lemma_div_is_ordered(q / 512, 0x3_ffff, 512);
    assert((q / 512) / 512 < 512);
    vstd::arithmetic::div_mod::lemma_small_mod((((q / 512) / 512)) as nat, 512);
    vstd::arithmetic::div_mod::lemma_fundamental_div_mod(q, 512);
    vstd::arithmetic::div_mod::lemma_fundamental_div_mod(q / 512, 512);
    vstd::arithmetic::div_mod::lemma_mod_bound(q, 512);
    vstd::arithmetic::div_mod::lemma_mod_bound(q / 512, 512);
    assert(q == 512 * (512 * ((q / 512) / 512) + (q / 512) % 512) + q % 512);
    assert(512 * (512 * ((q / 512) / 512) + (q / 512) % 512) == 512 * 512 * ((q / 512) / 512)
        + 512 * ((q / 512) % 512)) by (nonlinear_arith);
}

/// For Sv39 addresses, selecting the same slot at all three levels is the
/// same as lying in the same 4 KiB page.
pub proof fn lemma_same_page_equiv(va2: usize, va: usize)
    requires
        va2 < 0x80_0000_0000,
        va < 0x80_0000_0000,
    ensures
        same_vpns(va2, va, 2, 0) <==> va2 as int / 4096 == va as int / 4096,
{
    lemma_vpn_decompose(va2);
    lemma_vpn_decompose(va);
    assert(level_bytes(0) == 4096);
    assert(level_bytes(1) == 512 * 4096);
    assert(level_bytes(2) == 512 * (512 * 4096));
    vstd::arithmetic::div_mod::lemma_div_denominator(va2 as int, 4096int, 512int);
    vstd::arithmetic::div_mod::lemma_div_denominator(va2 as int, (4096 * 512) as int, 512);
    vstd::arithmetic::div_mod::lemma_div_denominator(va as int, 4096int, 512int);
    vstd::arithmetic::div_mod::lemma_div_denominator(va as int, (4096 * 512) as int, 512);
    if same_vpns(va2, va, 2, 0) {
        assert(vpn_index(va2, 0) == vpn_index(va, 0));
        assert(vpn_index(va2, 1) == vpn_index(va, 1));
        assert(vpn_index(va2, 2) == vpn_index(va, 2));
        assert(va2 as int / 4096 == va as int / 4096);
    }
    if va2 as int / 4096 == va as int / 4096 {
        let q = va as int / 4096;
        assert forall|l: nat| 0 <= l <= 2 implies #[trigger] vpn_index(va2, l) == vpn_index(
            va,
            l,
        ) by {
            if l == 0 {
                assert(vpn_index(va2, 0) == q % 512);
                assert(vpn_index(va, 0) == q % 512);
            } else if l == 1 {
                assert(vpn_index(va2, 1) == (q / 512) % 512);
                assert(vpn_index(va, 1) == (q / 512) % 512);
            } else {
                assert(vpn_index(va2, 2) == ((q / 512) / 512) % 512);
                assert(vpn_index(va, 2) == ((q / 512) / 512) % 512);
            }
        }
    }
}


/// Whether the frame at address `a` backs some pointer table inside the
/// slot (the child table itself or anything below it).
pub open spec fn slot_owns(s: Slot, lvl: nat, a: int) -> bool
    decreases lvl, 0int,
{
    match s {
        Slot::Branch(child) => a == child.addr as int || (lvl >= 1 && owns_frame(
            *child,
            (lvl - 1) as nat,
            a,
        )),
        _ => false,
    }
}

/// Whether the frame at address `a` backs some pointer table strictly
/// below `t` (not `t`'s own frame).
pub open spec fn owns_frame(t: Table, lvl: nat, a: int) -> bool
    decreases lvl, 1int,
{
    exists|i: int| 0 <= i < t.slots@.len() && slot_owns(#[trigger] t.slots@[i], lvl, a)
}

/// A table with only empty slots owns no frame at all.
pub proof fn lemma_empty_no_owned(t: Table, lvl: nat, a: int)
    requires
        forall|i: int| 0 <= i < t.slots@.len() ==> (#[trigger] t.slots@[i]) is Empty,
    ensures
        !owns_frame(t, lvl, a),
{
    if owns_frame(t, lvl, a) {
        let i = choose|i: int|
            0 <= i < t.slots@.len() && slot_owns(#[trigger] t.slots@[i], lvl, a);
        assert(false);
    }
}

/// Every frame backing a pointer table below `t` is a live single-frame
/// allocation, so `unmap` can hand each one back.
pub open spec fn tree_frames_ok(t: Table, lvl: nat, fa: FrameAllocator) -> bool {
    forall|a: int| #[trigger] owns_frame(t, lvl, a) ==> fa.single_alloc(a)
}

/// Frees a whole subtree: children first, then the table's own frame goes
/// back to the allocator.
#[verifier::rlimit(100)]
#[verifier::spinoff_prover]
fn free_subtree(t: Table, lvl: usize, fa: &mut FrameAllocator)
    requires
        old(fa).wf(),
        lvl <= 2,
        node_wf(t, lvl as nat),
    ensures
        final(fa).wf(),
        final(fa).heap_base == old(fa).heap_base,
        final(fa).heap_len == old(fa).heap_len,
        final(fa).alloc_start == old(fa).alloc_start,
        final(fa).descs@.len() == old(fa).descs@.len(),
        final(fa).frames@ == old(fa).frames@,
        forall|i: int|
            0 <= i < old(fa).descs@.len() && !(t.addr == old(fa).addr_of(i) || owns_frame(
                t,
                lvl as nat,
                old(fa).addr_of(i),
            )) ==> final(fa).descs@[i] == old(fa).descs@[i],
        forall|i: int|
            0 <= i < old(fa).descs@.len() && (t.addr == old(fa).addr_of(i) || owns_frame(
                t,
                lvl as nat,
                old(fa).addr_of(i),
            )) && (!(#[trigger] old(fa).descs@[i]).taken || old(fa).single_alloc(
                old(fa).addr_of(i),
            )) ==> !final(fa).descs@[i].taken,
        forall|i: int|
            0 <= i < old(fa).descs@.len() ==> (#[trigger] final(fa).descs@[i]) == old(
                fa,
            ).descs@[i] || final(fa).descs@[i] == (Descriptor { taken: false, last: false }),
        count_free(final(fa).descs@) >= count_free(old(fa).descs@),
    decreases lvl, 0int,
{
    let mut t = t;
    let ghost orig = t.slots@;
    let ghost t0 = t;
    while t.slots.len() > 0
        invariant
            fa.wf(),
            fa.heap_base == old(fa).heap_base,
            fa.heap_len == old(fa).heap_len,
            fa.alloc_start == old(fa).alloc_start,
            fa.descs@.len() == old(fa).descs@.len(),
            fa.frames@ == old(fa).frames@,
            lvl <= 2,
            t.addr == t0.addr,
            t.slots@ == orig.take(t.slots@.len() as int),
            t.slots@.len() <= orig.len(),
            forall|k: int| 0 <= k < orig.len() ==> slot_wf(#[trigger] orig[k], lvl as nat),
            forall|i: int|
                0 <= i < old(fa).descs@.len() && !(exists|j: int|
                    t.slots@.len() <= j < orig.len() && slot_owns(
                        #[trigger] orig[j],
                        lvl as nat,
                        old(fa).addr_of(i),
                    )) ==> #[trigger] fa.descs@[i] == old(fa).descs@[i],
            forall|i: int|
                0 <= i < old(fa).descs@.len() && (exists|j: int|
                    t.slots@.len() <= j < orig.len() && slot_owns(
                        #[trigger] orig[j],
                        lvl as nat,
                        old(fa).addr_of(i),
                    )) && (!(#[trigger] old(fa).descs@[i]).taken || old(fa).single_alloc(
                    old(fa).addr_of(i),
                )) ==> !fa.descs@[i].taken,
            forall|i: int|
                0 <= i < old(fa).descs@.len() ==> (#[trigger] fa.descs@[i]) == old(
                    fa,
                ).descs@[i] || fa.descs@[i] == (Descriptor { taken: false, last: false }),
            count_free(fa.descs@) >= count_free(old(fa).descs@),
        decreases t.slots@.len(),
    {
        let ghost lpre = t.slots@.len() as int;
        let ghost fapre = *fa;
        let s = t.slots.pop().unwrap();
        proof {
            assert(s == orig[lpre - 1]);
            assert(t.slots@ =~= orig.take(lpre - 1));
        }
        match s {
            Slot::Branch(child) => {
                proof {
                    assert(slot_wf(orig[lpre - 1], lvl as nat));
                }
                free_subtree_child(*child, lvl - 1, fa);
                proof {
                    lemma_freeing_step(orig, lpre - 1, *child, lvl as nat, fapre, *fa, *old(fa));
                }
            },
            _ => {
                proof {
                    assert forall|i: int|
                        #![trigger old(fa).addr_of(i)]
                        0 <= i < old(fa).descs@.len() && (exists|j: int|
                            lpre - 1 <= j < orig.len() && slot_owns(
                                #[trigger] orig[j],
                                lvl as nat,
                                old(fa).addr_of(i),
                            )) implies (exists|j: int|
                        lpre <= j < orig.len() && slot_owns(
                            #[trigger] orig[j],
                            lvl as nat,
                            old(fa).addr_of(i),
                        )) by {
                        let j = choose|j: int|
                            lpre - 1 <= j < orig.len() && slot_owns(
                                #[trigger] orig[j],
                                lvl as nat,
                                old(fa).addr_of(i),
                            );
                        assert(j != lpre - 1);
                    }
                }
            },
        }
    }
    // Hand the table's own frame back, but only where it is a live
    // single-frame allocation: anything else is left untouched.
    let ghost famid = *fa;
    free_single_frame(t.addr, fa);
    proof {
        assert forall|i: int|
            #![trigger old(fa).addr_of(i)]
            0 <= i < old(fa).descs@.len() && !(t0.addr == old(fa).addr_of(i) || owns_frame(
                t0,
                lvl as nat,
                old(fa).addr_of(i),
            )) implies fa.descs@[i] == old(fa).descs@[i] by {
            let a = old(fa).addr_of(i);
            assert(!(exists|j: int|
                0 <= j < orig.len() && slot_owns(#[trigger] orig[j], lvl as nat, a))) by {
                if exists|j: int|
                    0 <= j < orig.len() && slot_owns(#[trigger] orig[j], lvl as nat, a) {
                    let j = choose|j: int|
                        0 <= j < orig.len() && slot_owns(#[trigger] orig[j], lvl as nat, a);
                    assert(slot_owns(t0.slots@[j], lvl as nat, a));
                    assert(owns_frame(t0, lvl as nat, a));
                }
            }
            assert(famid.descs@[i] == old(fa).descs@[i]);
            assert(famid.addr_of(i) != t0.addr);
        }
        assert forall|i: int|
            #![trigger old(fa).addr_of(i)]
            0 <= i < old(fa).descs@.len() && (t0.addr == old(fa).addr_of(i) || owns_frame(
                t0,
                lvl as nat,
                old(fa).addr_of(i),
            )) && (!old(fa).descs@[i].taken || old(fa).single_alloc(
                old(fa).addr_of(i),
            )) implies !fa.descs@[i].taken by {
            let a = old(fa).addr_of(i);
            if owns_frame(t0, lvl as nat, a) {
                let j = choose|j: int|
                    0 <= j < t0.slots@.len() && slot_owns(#[trigger] t0.slots@[j], lvl as nat, a);
                assert(slot_owns(orig[j], lvl as nat, a));
                assert(!famid.descs@[i].taken);
                if fa.descs@[i] != famid.descs@[i] {
                    assert(!fa.descs@[i].taken);
                }
            } else {
                assert(t0.addr == a);
                if !famid.descs@[i].taken {
                    if fa.descs@[i] != famid.descs@[i] {
                        assert(!fa.descs@[i].taken);
                    }
                } else {
                    assert(famid.descs@[i] == old(fa).descs@[i]);
                    assert(old(fa).single_alloc(a));
                    let prev = i - 1;
                    if prev >= 0 {
                        assert(famid.descs@[prev] == old(fa).descs@[prev] || famid.descs@[prev]
                            == (Descriptor { taken: false, last: false }));
                    }
                    assert(famid.single_alloc(a));
                    assert(famid.addr_of(i) == a);
                    assert(!fa.descs@[i].taken);
                }
            }
        }
    }
}

/// One recursion step of `free_subtree`, kept separate so the recursion
/// decreases on the level alone.
fn free_subtree_child(t: Table, lvl: usize, fa: &mut FrameAllocator)
    requires
        old(fa).wf(),
        lvl <= 2,
        node_wf(t, lvl as nat),
    ensures
        final(fa).wf(),
        final(fa).heap_base == old(fa).heap_base,
        final(fa).heap_len == old(fa).heap_len,
        final(fa).alloc_start == old(fa).alloc_start,
        final(fa).descs@.len() == old(fa).descs@.len(),
        final(fa).frames@ == old(fa).frames@,
        forall|i: int|
            0 <= i < old(fa).descs@.len() && !(t.addr == old(fa).addr_of(i) || owns_frame(
                t,
                lvl as nat,
                old(fa).addr_of(i),
            )) ==> final(fa).descs@[i] == old(fa).descs@[i],
        forall|i: int|
            0 <= i < old(fa).descs@.len() && (t.addr == old(fa).addr_of(i) || owns_frame(
                t,
                lvl as nat,
                old(fa).addr_of(i),
            )) && (!(#[trigger] old(fa).descs@[i]).taken || old(fa).single_alloc(
                old(fa).addr_of(i),
            )) ==> !final(fa).descs@[i].taken,
        forall|i: int|
            0 <= i < old(fa).descs@.len() ==> (#[trigger] final(fa).descs@[i]) == old(
                fa,
            ).descs@[i] || final(fa).descs@[i] == (Descriptor { taken: false, last: false }),
        count_free(final(fa).descs@) >= count_free(old(fa).descs@),
    decreases lvl, 1int,
{
    free_subtree(t, lvl, fa);
}

/// Frees the frame at `addr` if and only if it is currently a live
/// single-frame allocation; any other address leaves the allocator
/// untouched.
fn free_single_frame(addr: usize, fa: &mut FrameAllocator)
    requires
        old(fa).wf(),
    ensures
        final(fa).wf(),
        final(fa).heap_base == old(fa).heap_base,
        final(fa).heap_len == old(fa).heap_len,
        final(fa).alloc_start == old(fa).alloc_start,
        final(fa).descs@.len() == old(fa).descs@.len(),
        final(fa).frames@ == old(fa).frames@,
        forall|i: int|
            0 <= i < old(fa).descs@.len() && old(fa).addr_of(i) != addr ==> final(fa).descs@[i]
                == old(fa).descs@[i],
        forall|i: int|
            0 <= i < old(fa).descs@.len() && old(fa).addr_of(i) == addr && (!(
            #[trigger] old(fa).descs@[i]).taken || old(fa).single_alloc(addr as int))
                ==> !final(fa).descs@[i].taken,
        forall|i: int|
            0 <= i < old(fa).descs@.len() ==> (#[trigger] final(fa).descs@[i]) == old(
                fa,
            ).descs@[i] || final(fa).descs@[i] == (Descriptor { taken: false, last: false }),
        count_free(final(fa).descs@) >= count_free(old(fa).descs@),
{
    if addr < fa.alloc_start {
        return ;
    }
    let off = addr - fa.alloc_start;
    if off % PAGE_SIZE != 0 {
        proof {
            assert forall|i: int|
                0 <= i < old(fa).descs@.len() implies old(fa).addr_of(i) != addr by {
                let ao = old(fa).addr_of(i);
                let base = fa.alloc_start as int;
                assert((ao - base) % 4096 == 0) by (nonlinear_arith)
                    requires
                        ao == base + i * 4096,
                        i >= 0,
                        base >= 0,
                ;
            }
        }
        return ;
    }
    let idx = off / PAGE_SIZE;
    let n = fa.descs.len();
    if idx >= n {
        proof {
            lemma_addr_of_index(*fa, addr);
        }
        return ;
    }
    let d = fa.descs[idx];
    if !(d.taken && d.last) {
        proof {
            lemma_addr_of_index(*fa, addr);
        }
        return ;
    }
    if idx > 0 {
        let p = fa.descs[idx - 1];
        if p.taken && !p.last {
            proof {
                lemma_addr_of_index(*fa, addr);
            }
            return ;
        }
    }
    proof {
        lemma_addr_of_index(*fa, addr);
        assert(run_end(old(fa).descs@, idx as int) == idx as int);
    }
    let r = fa.dealloc(addr);
    proof {
        assert(r is Ok);
    }
}

/// Distinct frame indices have distinct base addresses, and the index of
/// an in-range frame-aligned address is recovered by division.
proof fn lemma_addr_of_index(fa: FrameAllocator, addr: usize)
    requires
        fa.wf(),
        fa.alloc_start <= addr,
        (addr - fa.alloc_start) % 4096 == 0,
    ensures
        forall|i: int|
            0 <= i < fa.descs@.len() && #[trigger] fa.addr_of(i) == addr ==> i == (addr
                - fa.alloc_start) as int / 4096,
        (addr - fa.alloc_start) as int / 4096 < fa.descs@.len() ==> fa.addr_of(
            (addr - fa.alloc_start) as int / 4096,
        ) == addr,
{
    let q = (addr - fa.alloc_start) as int / 4096;
    vstd::arithmetic::div_mod::lemma_fundamental_div_mod((addr - fa.alloc_start) as int, 4096);
    assert forall|i: int|
        0 <= i < fa.descs@.len() && #[trigger] fa.addr_of(i) == addr implies i == q by {
        assert(i * 4096 == addr - fa.alloc_start);
        assert(4096 * q == q * 4096) by (nonlinear_arith);
        assert(i * 4096 == q * 4096);
        assert(i == q) by (nonlinear_arith)
            requires
                i * 4096 == q * 4096,
        ;
    }
    if q < fa.descs@.len() {
        assert(4096 * q == q * 4096) by (nonlinear_arith);
    }
}

/// Composing one child-freeing step into the suffix-of-slots bookkeeping
/// of `free_subtree`'s loop.
proof fn lemma_freeing_step(
    orig: Seq<Slot>,
    pos: int,
    child: Table,
    lvl: nat,
    famid: FrameAllocator,
    fanew: FrameAllocator,
    fa0: FrameAllocator,
)
    requires
        0 <= pos < orig.len(),
        orig[pos] matches Slot::Branch(c) && *c == child,
        famid.descs@.len() == fa0.descs@.len(),
        famid.alloc_start == fa0.alloc_start,
        fanew.descs@.len() == famid.descs@.len(),
        fanew.alloc_start == famid.alloc_start,
        // what held before the step (suffix starting at pos + 1)
        forall|i: int|
            0 <= i < fa0.descs@.len() && !(exists|j: int|
                pos + 1 <= j < orig.len() && slot_owns(
                    #[trigger] orig[j],
                    lvl,
                    fa0.addr_of(i),
                )) ==> #[trigger] famid.descs@[i] == fa0.descs@[i],
        forall|i: int|
            0 <= i < fa0.descs@.len() && (exists|j: int|
                pos + 1 <= j < orig.len() && slot_owns(
                    #[trigger] orig[j],
                    lvl,
                    fa0.addr_of(i),
                )) && (!(#[trigger] fa0.descs@[i]).taken || fa0.single_alloc(fa0.addr_of(i)))
                ==> !famid.descs@[i].taken,
        // what the recursive call did
        forall|i: int|
            0 <= i < famid.descs@.len() && !(child.addr == famid.addr_of(i) || owns_frame(
                child,
                (lvl - 1) as nat,
                famid.addr_of(i),
            )) ==> fanew.descs@[i] == famid.descs@[i],
        forall|i: int|
            0 <= i < famid.descs@.len() && (child.addr == famid.addr_of(i) || owns_frame(
                child,
                (lvl - 1) as nat,
                famid.addr_of(i),
            )) && (!(#[trigger] famid.descs@[i]).taken || famid.single_alloc(famid.addr_of(i)))
                ==> !fanew.descs@[i].taken,
        forall|i: int|
            0 <= i < fa0.descs@.len() ==> (#[trigger] famid.descs@[i]) == fa0.descs@[i]
                || famid.descs@[i] == (Descriptor { taken: false, last: false }),
        forall|i: int|
            0 <= i < fa0.descs@.len() ==> (#[trigger] fanew.descs@[i]) == famid.descs@[i]
                || fanew.descs@[i] == (Descriptor { taken: false, last: false }),
        lvl >= 1,
    ensures
        forall|i: int|
            0 <= i < fa0.descs@.len() && !(exists|j: int|
                pos <= j < orig.len() && slot_owns(#[trigger] orig[j], lvl, fa0.addr_of(i)))
                ==> #[trigger] fanew.descs@[i] == fa0.descs@[i],
        forall|i: int|
            0 <= i < fa0.descs@.len() && (exists|j: int|
                pos <= j < orig.len() && slot_owns(#[trigger] orig[j], lvl, fa0.addr_of(i)))
                && (!(#[trigger] fa0.descs@[i]).taken || fa0.single_alloc(fa0.addr_of(i)))
                ==> !fanew.descs@[i].taken,
{
    let len = fa0.descs@.len() as int;
    assert forall|i: int|
        0 <= i < len && !(exists|j: int|
            pos <= j < orig.len() && slot_owns(
                #[trigger] orig[j],
                lvl,
                fa0.addr_of(i),
            )) implies #[trigger] fanew.descs@[i] == fa0.descs@[i] by {
        assert(!slot_owns(orig[pos], lvl, fa0.addr_of(i)));
        assert(!(exists|j: int|
            pos + 1 <= j < orig.len() && slot_owns(#[trigger] orig[j], lvl, fa0.addr_of(i))));
        assert(famid.descs@[i] == fa0.descs@[i]);
        assert(!(child.addr == famid.addr_of(i) || owns_frame(
            child,
            (lvl - 1) as nat,
            famid.addr_of(i),
        )));
    }
    assert forall|i: int|
        0 <= i < len && (exists|j: int|
            pos <= j < orig.len() && slot_owns(#[trigger] orig[j], lvl, fa0.addr_of(i))) && (!(
        #[trigger] fa0.descs@[i]).taken || fa0.single_alloc(
            fa0.addr_of(i),
        )) implies !fanew.descs@[i].taken by {
        let j = choose|j: int|
            pos <= j < orig.len() && slot_owns(#[trigger] orig[j], lvl, fa0.addr_of(i));
        if j >= pos + 1 {
            assert(!famid.descs@[i].taken);
            if fanew.descs@[i] != famid.descs@[i] {
                assert(!fanew.descs@[i].taken);
            }
        } else {
            assert(slot_owns(orig[pos], lvl, fa0.addr_of(i)));
            if exists|j2: int|
                pos + 1 <= j2 < orig.len() && slot_owns(
                    #[trigger] orig[j2],
                    lvl,
                    fa0.addr_of(i),
                ) {
                assert(!famid.descs@[i].taken);
                if fanew.descs@[i] != famid.descs@[i] {
                    assert(!fanew.descs@[i].taken);
                }
            } else {
                assert(famid.descs@[i] == fa0.descs@[i]);
                assert(child.addr == famid.addr_of(i) || owns_frame(
                    child,
                    (lvl - 1) as nat,
                    famid.addr_of(i),
                ));
                if famid.descs@[i].taken {
                    assert(fa0.single_alloc(fa0.addr_of(i)));
                    let prev = i - 1;
                    if prev >= 0 {
                        assert(famid.descs@[prev] == fa0.descs@[prev] || famid.descs@[prev]
                            == (Descriptor { taken: false, last: false }));
                    }
                    assert(famid.single_alloc(famid.addr_of(i)));
                }
                assert(!fanew.descs@[i].taken);
            }
        }
    }
}


/// Composing one child-freeing step into the prefix-of-slots bookkeeping
/// of `unmap`'s loop.
proof fn lemma_freeing_step_prefix(
    orig: Seq<Slot>,
    pos: int,
    child: Table,
    lvl: nat,
    famid: FrameAllocator,
    fanew: FrameAllocator,
    fa0: FrameAllocator,
)
    requires
        0 <= pos < orig.len(),
        orig[pos] matches Slot::Branch(c) && *c == child,
        famid.descs@.len() == fa0.descs@.len(),
        famid.alloc_start == fa0.alloc_start,
        fanew.descs@.len() == famid.descs@.len(),
        fanew.alloc_start == famid.alloc_start,
        forall|i: int|
            0 <= i < fa0.descs@.len() && !(exists|j: int|
                0 <= j < pos && slot_owns(#[trigger] orig[j], lvl, fa0.addr_of(i)))
                ==> #[trigger] famid.descs@[i] == fa0.descs@[i],
        forall|i: int|
            0 <= i < fa0.descs@.len() && (exists|j: int|
                0 <= j < pos && slot_owns(#[trigger] orig[j], lvl, fa0.addr_of(i))) && (!(
            #[trigger] fa0.descs@[i]).taken || fa0.single_alloc(fa0.addr_of(i)))
                ==> !famid.descs@[i].taken,
        forall|i: int|
            0 <= i < famid.descs@.len() && !(child.addr == famid.addr_of(i) || owns_frame(
                child,
                (lvl - 1) as nat,
                famid.addr_of(i),
            )) ==> fanew.descs@[i] == famid.descs@[i],
        forall|i: int|
            0 <= i < famid.descs@.len() && (child.addr == famid.addr_of(i) || owns_frame(
                child,
                (lvl - 1) as nat,
                famid.addr_of(i),
            )) && (!(#[trigger] famid.descs@[i]).taken || famid.single_alloc(famid.addr_of(i)))
                ==> !fanew.descs@[i].taken,
        forall|i: int|
            0 <= i < fa0.descs@.len() ==> (#[trigger] famid.descs@[i]) == fa0.descs@[i]
                || famid.descs@[i] == (Descriptor { taken: false, last: false }),
        forall|i: int|
            0 <= i < fa0.descs@.len() ==> (#[trigger] fanew.descs@[i]) == famid.descs@[i]
                || fanew.descs@[i] == (Descriptor { taken: false, last: false }),
        lvl >= 1,
    ensures
        forall|i: int|
            0 <= i < fa0.descs@.len() && !(exists|j: int|
                0 <= j < pos + 1 && slot_owns(#[trigger] orig[j], lvl, fa0.addr_of(i)))
                ==> #[trigger] fanew.descs@[i] == fa0.descs@[i],
        forall|i: int|
            0 <= i < fa0.descs@.len() && (exists|j: int|
                0 <= j < pos + 1 && slot_owns(#[trigger] orig[j], lvl, fa0.addr_of(i))) && (!(
            #[trigger] fa0.descs@[i]).taken || fa0.single_alloc(fa0.addr_of(i)))
                ==> !fanew.descs@[i].taken,
{
    let len = fa0.descs@.len() as int;
    assert forall|i: int|
        0 <= i < len && !(exists|j: int|
            0 <= j < pos + 1 && slot_owns(
                #[trigger] orig[j],
                lvl,
                fa0.addr_of(i),
            )) implies #[trigger] fanew.descs@[i] == fa0.descs@[i] by {
        assert(!slot_owns(orig[pos], lvl, fa0.addr_of(i)));
        assert(!(exists|j: int|
            0 <= j < pos && slot_owns(#[trigger] orig[j], lvl, fa0.addr_of(i))));
        assert(famid.descs@[i] == fa0.descs@[i]);
        assert(!(child.addr == famid.addr_of(i) || owns_frame(
            child,
            (lvl - 1) as nat,
            famid.addr_of(i),
        )));
    }
    assert forall|i: int|
        0 <= i < len && (exists|j: int|
            0 <= j < pos + 1 && slot_owns(#[trigger] orig[j], lvl, fa0.addr_of(i))) && (!(
    #[trigger] fa0.descs@[i]).taken || fa0.single_alloc(
            fa0.addr_of(i),
        )) implies !fanew.descs@[i].taken by {
        let j = choose|j: int|
            0 <= j < pos + 1 && slot_owns(#[trigger] orig[j], lvl, fa0.addr_of(i));
        if j < pos {
            assert(!famid.descs@[i].taken);
            if fanew.descs@[i] != famid.descs@[i] {
                assert(!fanew.descs@[i].taken);
            }
        } else {
            assert(slot_owns(orig[pos], lvl, fa0.addr_of(i)));
            if exists|j2: int|
                0 <= j2 < pos && slot_owns(#[trigger] orig[j2], lvl, fa0.addr_of(i)) {
                assert(!famid.descs@[i].taken);
                if fanew.descs@[i] != famid.descs@[i] {
                    assert(!fanew.descs@[i].taken);
                }
            } else {
                assert(famid.descs@[i] == fa0.descs@[i]);
                assert(child.addr == famid.addr_of(i) || owns_frame(
                    child,
                    (lvl - 1) as nat,
                    famid.addr_of(i),
                ));
                if famid.descs@[i].taken {
                    assert(fa0.single_alloc(fa0.addr_of(i)));
                    let prev = i - 1;
                    if prev >= 0 {
                        assert(famid.descs@[prev] == fa0.descs@[prev] || famid.descs@[prev]
                            == (Descriptor { taken: false, last: false }));
                    }
                    assert(famid.single_alloc(famid.addr_of(i)));
                }
                assert(!fanew.descs@[i].taken);
            }
        }
    }
}

/// Recursively frees every intermediate (pointer) table reachable from
/// `root` back to the frame allocator, leaving the cleared pointer slots
/// empty. Leaf-referenced memory is never freed: leaves stay as they are,
/// and afterwards no pointer table remains reachable from `root`.
pub fn unmap(root: &mut Table, fa: &mut FrameAllocator)
    requires
        old(fa).wf(),
        node_wf(*old(root), 2),
    ensures
        final(fa).wf(),
        final(fa).heap_base == old(fa).heap_base,
        final(fa).heap_len == old(fa).heap_len,
        final(fa).alloc_start == old(fa).alloc_start,
        final(fa).descs@.len() == old(fa).descs@.len(),
        final(fa).frames@ == old(fa).frames@,
        forall|i: int|
            0 <= i < old(fa).descs@.len() && !(#[trigger] old(fa).descs@[i]).taken
                ==> !final(fa).descs@[i].taken,
        forall|i: int|
            0 <= i < old(fa).descs@.len() && !owns_frame(*old(root), 2, old(fa).addr_of(i))
                ==> #[trigger] final(fa).descs@[i] == old(fa).descs@[i],
        forall|i: int|
            0 <= i < old(fa).descs@.len() && owns_frame(*old(root), 2, old(fa).addr_of(i)) && (!(
            #[trigger] old(fa).descs@[i]).taken || old(fa).single_alloc(old(fa).addr_of(i)))
                ==> !final(fa).descs@[i].taken,
        count_free(final(fa).descs@) >= count_free(old(fa).descs@),
        final(root).addr == old(root).addr,
        node_wf(*final(root), 2),
        base_only(*old(root), 2) ==> base_only(*final(root), 2),
        final(root).slots@.len() == 512,
        forall|i: int|
            0 <= i < 512 ==> #[trigger] final(root).slots@[i] == (if old(root).slots@[i]
                is Branch {
                Slot::Empty
            } else {
                old(root).slots@[i]
            }),
        forall|va2: usize|
            #[trigger] translate(*final(root), va2) == (if old(root).slots@[vpn_index(va2, 2)]
                is Leaf {
                translate(*old(root), va2)
            } else {
                None
            }),
{
    let mut i: usize = 0;
    while i < 512
        invariant
            fa.wf(),
            fa.heap_base == old(fa).heap_base,
            fa.heap_len == old(fa).heap_len,
            fa.alloc_start == old(fa).alloc_start,
            fa.descs@.len() == old(fa).descs@.len(),
            fa.frames@ == old(fa).frames@,
            forall|k: int|
                0 <= k < old(fa).descs@.len() && !(#[trigger] old(fa).descs@[k]).taken
                    ==> !fa.descs@[k].taken,
            forall|k: int|
                0 <= k < old(fa).descs@.len() ==> (#[trigger] fa.descs@[k]) == old(
                    fa,
                ).descs@[k] || fa.descs@[k] == (Descriptor { taken: false, last: false }),
            forall|k: int|
                0 <= k < old(fa).descs@.len() && !(exists|j: int|
                    0 <= j < i && slot_owns(
                        #[trigger] old(root).slots@[j],
                        2,
                        old(fa).addr_of(k),
                    )) ==> #[trigger] fa.descs@[k] == old(fa).descs@[k],
            forall|k: int|
                0 <= k < old(fa).descs@.len() && (exists|j: int|
                    0 <= j < i && slot_owns(
                        #[trigger] old(root).slots@[j],
                        2,
                        old(fa).addr_of(k),
                    )) && (!(#[trigger] old(fa).descs@[k]).taken || old(fa).single_alloc(
                    old(fa).addr_of(k),
                )) ==> !fa.descs@[k].taken,
            count_free(fa.descs@) >= count_free(old(fa).descs@),
            i <= 512,
            root.addr == old(root).addr,
            root.slots@.len() == 512,
            node_wf(*old(root), 2),
            forall|k: int|
                0 <= k < i ==> #[trigger] root.slots@[k] == (if old(root).slots@[k] is Branch {
                    Slot::Empty
                } else {
                    old(root).slots@[k]
                }),
            forall|k: int| i <= k < 512 ==> #[trigger] root.slots@[k] == old(root).slots@[k],
        decreases 512 - i,
    {
        let ghost pre = root.slots@;
        let slot = t_remove(root, i);
        match slot {
            Slot::Branch(child) => {
                root.slots.insert(i, Slot::Empty);
                proof {
                    assert(root.slots@ =~= pre.update(i as int, Slot::Empty));
                    assert(slot_wf(old(root).slots@[i as int], 2));
                }
                let ghost fapre = *fa;
                free_subtree(*child, 1, fa);
                proof {
                    lemma_freeing_step_prefix(
                        old(root).slots@,
                        i as int,
                        *child,
                        2,
                        fapre,
                        *fa,
                        *old(fa),
                    );
                }
            },
            other => {
                root.slots.insert(i, other);
                proof {
                    assert(root.slots@ =~= pre);
                    assert forall|k: int|
                        #![trigger old(fa).addr_of(k)]
                        0 <= k < old(fa).descs@.len() && (exists|j: int|
                            0 <= j < i + 1 && slot_owns(
                                #[trigger] old(root).slots@[j],
                                2,
                                old(fa).addr_of(k),
                            )) implies (exists|j: int|
                        0 <= j < i && slot_owns(
                            #[trigger] old(root).slots@[j],
                            2,
                            old(fa).addr_of(k),
                        )) by {
                        let j = choose|j: int|
                            0 <= j < i + 1 && slot_owns(
                                #[trigger] old(root).slots@[j],
                                2,
                                old(fa).addr_of(k),
                            );
                        assert(j != i);
                    }
                }
            },
        }
        i = i + 1;
    }
    proof {
        assert(node_wf(*root, 2)) by {
            assert forall|k: int| 0 <= k < 512 implies slot_wf(#[trigger] root.slots@[k], 2) by {
                assert(slot_wf(old(root).slots@[k], 2));
            }
        }
        if base_only(*old(root), 2) {
            assert forall|k: int|
                0 <= k < root.slots@.len() implies slot_base_only(
                #[trigger] root.slots@[k],
                2,
            ) by {
                assert(slot_base_only(old(root).slots@[k], 2));
            }
        }
        assert forall|va2: usize|
            #[trigger] translate(*root, va2) == (if old(root).slots@[vpn_index(va2, 2)] is Leaf {
                translate(*old(root), va2)
            } else {
                None
            }) by {
            let ix = vpn_index(va2, 2);
            assert(level_bytes(0) == 4096);
            assert(level_bytes(1) == 512 * 4096);
            assert(level_bytes(2) == 512 * (512 * 4096));
            vstd::arithmetic::div_mod::lemma_mod_bound(
                va2 as int / level_bytes(2),
                512,
            );
            vstd::arithmetic::div_mod::lemma_div_pos_is_pos(va2 as int, level_bytes(2));
            assert(0 <= ix < 512);
        }
    }
}

/// Under the bootstrap invariant that every pointer table reachable from
/// `t` sits in a live single-frame allocation, `unmap`'s guarantee frees
/// every one of those frames: none of the tree's intermediate tables
/// remains allocated afterwards.
pub proof fn lemma_unmap_frees_all_tables(t: Table, fa0: FrameAllocator, fa1: FrameAllocator)
    requires
        tree_frames_ok(t, 2, fa0),
        forall|i: int|
            0 <= i < fa0.descs@.len() && owns_frame(t, 2, fa0.addr_of(i)) && (!(
            #[trigger] fa0.descs@[i]).taken || fa0.single_alloc(fa0.addr_of(i)))
                ==> !fa1.descs@[i].taken,
    ensures
        forall|i: int|
            0 <= i < fa0.descs@.len() && #[trigger] owns_frame(t, 2, fa0.addr_of(i))
                ==> !fa1.descs@[i].taken,
{
    assert forall|i: int|
        0 <= i < fa0.descs@.len() && #[trigger] owns_frame(t, 2, fa0.addr_of(i))
            implies !fa1.descs@[i].taken by {
        assert(fa0.single_alloc(fa0.addr_of(i)));
    }
}

/// Takes the slot at `i` out of the table, leaving the remaining slots
/// shifted; the caller puts a slot back at the same place.
fn t_remove(t: &mut Table, i: usize) -> (s: Slot)
    requires
        i < old(t).slots@.len(),
    ensures
        s == old(t).slots@[i as int],
        final(t).slots@ == old(t).slots@.remove(i as int),
        final(t).addr == old(t).addr,
{
    t.slots.remove(i)
}


/// One step of the read-only permission walk.
fn perm_walk_rec(t: &Table, va: usize, lvl: usize) -> (r: Option<PermBits>)
    requires
        lvl <= 2,
        node_wf(*t, lvl as nat),
    ensures
        r == perm_of_node(*t, va, lvl as nat),
    decreases lvl,
{
    let sp = level_size(lvl);
    let idx = (va / sp) % 512;
    proof {
        assert(idx == vpn_index(va, lvl as nat));
        assert(slot_wf(t.slots@[idx as int], lvl as nat));
    }
    match &t.slots[idx] {
        Slot::Empty => None,
        Slot::Leaf { ppn: _, perm } => Some(*perm),
        Slot::Branch(child) => {
            if lvl == 0 {
                proof {
                    assert(false);
                }
                None
            } else {
                perm_walk_rec(child, va, lvl - 1)
            }
        },
    }
}

/// Read-only lookup of the permission flags the tree assigns to `vaddr`:
/// the flags of the leaf that terminates the walk, or `None` where the
/// address is unmapped.
pub fn virt_to_perms(root: &Table, vaddr: usize) -> (r: Option<PermBits>)
    requires
        node_wf(*root, 2),
    ensures
        r == perm_of(*root, vaddr),
{
    perm_walk_rec(root, vaddr, 2)
}

} // verus!
