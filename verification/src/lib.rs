//! Memory-management core of a small RISC-V kernel model: a physical frame
//! allocator, the Sv39 three-level page-table structure with map / unmap /
//! translate operations, and the bootstrap that builds the kernel's initial
//! identity-mapped address space and computes the translation-control value.
//!
//! Hardware register writes and console output live outside this crate; the
//! logic here works on explicit values (a memory-layout record, an owned
//! allocator and table) so that every operation carries a contract.

use vstd::prelude::*;

pub mod cpu;
pub mod frame;
pub mod page;

verus! {

/// Errors reported by the allocator and the bootstrap.
///
/// `InvalidDeallocation` is a checked error: a `dealloc` of an address that
/// is not the start of a live allocation is reported, never left undefined.
#[derive(Clone, Copy, Debug, PartialEq, Eq, Structural)]
pub enum KernelError {
    /// The heap window cannot hold even one frame after descriptor space.
    HeapTooSmall,
    /// No run of free frames of the requested length exists.
    AllocationExhausted,
    /// `dealloc` was called with an address that is not the start of a live
    /// allocation.
    InvalidDeallocation,
}

/// Base address of the 4 KiB page containing `a`.
pub open spec fn page_base(a: int) -> int {
    (a / 4096) * 4096
}

/// Sv39 virtual addresses span 39 bits.
pub open spec fn va_limit() -> int {
    0x80_0000_0000
}

/// Every address whose page lies in `[lo, hi)` translates to itself.
pub open spec fn id_mapped(t: page::Table, lo: int, hi: int) -> bool {
    forall|va2: usize|
        va2 < va_limit() && lo <= page_base(va2 as int) < hi ==> #[trigger] page::translate(t, va2)
            == Some(va2 as int)
}

/// Every address whose page lies in `[lo, hi)` carries exactly the
/// permission flags `p`.
pub open spec fn perm_mapped(t: page::Table, lo: int, hi: int, p: page::PermBits) -> bool {
    forall|va2: usize|
        va2 < va_limit() && lo <= page_base(va2 as int) < hi ==> #[trigger] page::perm_of(t, va2)
            == Some(p)
}

/// Identity-maps every page touching `[start, end)` (rounded out to page
/// boundaries) into `root` with the given permissions, one 4 KiB leaf per
/// page, allocating intermediate tables from `fa`.
pub fn id_map_range(
    root: &mut page::Table,
    start: usize,
    end: usize,
    perm: page::PermBits,
    fa: &mut frame::FrameAllocator,
) -> (r: Result<(), KernelError>)
    requires
        old(fa).wf(),
        page::node_wf(*old(root), 2),
        page::base_only(*old(root), 2),
        perm.rwx(),
        start <= end,
        end <= va_limit(),
        end + 4096 <= usize::MAX as int + 1,
    ensures
        final(fa).wf(),
        final(fa).heap_base == old(fa).heap_base,
        final(fa).heap_len == old(fa).heap_len,
        final(fa).alloc_start == old(fa).alloc_start,
        final(fa).descs@.len() == old(fa).descs@.len(),
        final(fa).frames@.len() == old(fa).frames@.len(),
        forall|i: int|
            0 <= i < old(fa).descs@.len() && (#[trigger] old(fa).descs@[i]).taken
                ==> final(fa).descs@[i] == old(fa).descs@[i],
        forall|a: int| old(fa).single_alloc(a) ==> #[trigger] final(fa).single_alloc(a),
        forall|i: int|
            0 <= i < old(fa).descs@.len() && (#[trigger] old(fa).descs@[i]).taken
                ==> final(fa).frames@[i] == old(fa).frames@[i],
        page::tree_frames_ok(*old(root), 2, *old(fa)) ==> page::tree_frames_ok(
            *final(root),
            2,
            *final(fa),
        ),
        page::node_wf(*final(root), 2),
        page::base_only(*final(root), 2),
        final(root).addr == old(root).addr,
        forall|va2: usize|
            va2 < va_limit() && !(page_base(start as int) <= page_base(va2 as int)
                < frame::spec_align_up(end as int, 4096)) ==> #[trigger] page::translate(
                *final(root),
                va2,
            ) == page::translate(*old(root), va2),
        forall|va2: usize|
            va2 < va_limit() && !(page_base(start as int) <= page_base(va2 as int)
                < frame::spec_align_up(end as int, 4096)) ==> #[trigger] page::perm_of(
                *final(root),
                va2,
            ) == page::perm_of(*old(root), va2),
        frame::count_free(old(fa).descs@) >= 2 * ((frame::spec_align_up(end as int, 4096)
            - page_base(start as int)) / 4096) ==> r is Ok,
        r is Ok ==> frame::count_free(final(fa).descs@) + 2 * ((frame::spec_align_up(
            end as int,
            4096,
        ) - page_base(start as int)) / 4096) >= frame::count_free(old(fa).descs@),
        (forall|va2: usize|
            va2 < va_limit() && page_base(start as int) <= page_base(va2 as int)
                < frame::spec_align_up(end as int, 4096)
                ==> #[trigger] page::missing_tables(*old(root), va2, 2, 0) == 0) ==> (r is Ok
            && *final(fa) == *old(fa) && forall|va2: usize|
            #[trigger] page::missing_tables(*final(root), va2, 2, 0) == page::missing_tables(
                *old(root),
                va2,
                2,
                0,
            )),
        match r {
            Ok(_) => id_mapped(
                *final(root),
                page_base(start as int),
                frame::spec_align_up(end as int, 4096),
            ) && perm_mapped(
                *final(root),
                page_base(start as int),
                frame::spec_align_up(end as int, 4096),
                perm,
            ),
            Err(e) => {
                &&& e == KernelError::AllocationExhausted
                &&& frame::count_free(final(fa).descs@) == 0
                &&& forall|va2: usize|
                    va2 < va_limit() ==> (#[trigger] page::translate(*final(root), va2)
                        == page::translate(*old(root), va2) || page::translate(*final(root), va2)
                        == Some(va2 as int))
            },
        },
{
    proof {
        vstd::arithmetic::power2::lemma2_to64();
        vstd::arithmetic::div_mod::lemma_fundamental_div_mod(start as int, 4096);
        vstd::arithmetic::div_mod::lemma_mod_bound(start as int, 4096);
        assert(4096int * (start as int / 4096) == (start as int / 4096) * 4096)
            by (nonlinear_arith);
    }
    let m0 = (start / frame::PAGE_SIZE) * frame::PAGE_SIZE;
    let top = frame::align_val(end, 12);
    proof {
        frame::lemma_align_up_properties(end as int, 4096);
        assert((m0 as int) % 4096 == 0) by (nonlinear_arith)
            requires
                m0 == (start as int / 4096) * 4096,
        ;
        assert(m0 <= start);
        assert(top >= end);
        assert((top - m0) % 4096 == 0) by (nonlinear_arith)
            requires
                (m0 as int) % 4096 == 0,
                (top as int) % 4096 == 0,
                0 <= m0 <= top,
        ;
        vstd::arithmetic::div_mod::lemma_fundamental_div_mod((top - m0) as int, 4096);
        assert(4096int * ((top - m0) as int / 4096) == ((top - m0) as int / 4096) * 4096)
            by (nonlinear_arith);
    }
    let num = (top - m0) / frame::PAGE_SIZE;
    let mut memaddr = m0;
    let mut i: usize = 0;
    while i < num
        invariant
            fa.wf(),
            fa.heap_base == old(fa).heap_base,
            fa.heap_len == old(fa).heap_len,
            fa.alloc_start == old(fa).alloc_start,
            fa.descs@.len() == old(fa).descs@.len(),
            fa.frames@.len() == old(fa).frames@.len(),
            forall|k: int|
                0 <= k < old(fa).descs@.len() && (#[trigger] old(fa).descs@[k]).taken
                    ==> fa.descs@[k] == old(fa).descs@[k],
            forall|a: int| old(fa).single_alloc(a) ==> #[trigger] fa.single_alloc(a),
            forall|k: int|
                0 <= k < old(fa).descs@.len() && (#[trigger] old(fa).descs@[k]).taken
                    ==> fa.frames@[k] == old(fa).frames@[k],
            page::tree_frames_ok(*old(root), 2, *old(fa)) ==> page::tree_frames_ok(
                *root,
                2,
                *fa,
            ),
            frame::count_free(fa.descs@) + 2 * i >= frame::count_free(old(fa).descs@),
            (forall|va2: usize|
                va2 < va_limit() && m0 <= page_base(va2 as int) < top
                    ==> #[trigger] page::missing_tables(*old(root), va2, 2, 0) == 0) ==> (*fa
                == *old(fa) && forall|va2: usize|
                #[trigger] page::missing_tables(*root, va2, 2, 0) == page::missing_tables(
                    *old(root),
                    va2,
                    2,
                    0,
                )),
            page::node_wf(*root, 2),
            page::base_only(*root, 2),
            root.addr == old(root).addr,
            perm.rwx(),
            i <= num,
            memaddr == m0 + i * 4096,
            m0 + num * 4096 == top,
            num == (top - m0) as int / 4096,
            frame::count_free(old(fa).descs@) >= 2 * num ==> frame::count_free(fa.descs@) + 2 * i
                >= frame::count_free(old(fa).descs@),
            m0 % 4096 == 0,
            top <= va_limit(),
            top == frame::spec_align_up(end as int, 4096),
            m0 == page_base(start as int),
            forall|va2: usize|
                va2 < va_limit() && m0 <= page_base(va2 as int) < memaddr
                    ==> #[trigger] page::translate(*root, va2) == Some(va2 as int),
            forall|va2: usize|
                va2 < va_limit() && !(m0 <= page_base(va2 as int) < memaddr)
                    ==> #[trigger] page::translate(*root, va2) == page::translate(
                    *old(root),
                    va2,
                ),
            forall|va2: usize|
                va2 < va_limit() && m0 <= page_base(va2 as int) < memaddr
                    ==> #[trigger] page::perm_of(*root, va2) == Some(perm),
            forall|va2: usize|
                va2 < va_limit() && !(m0 <= page_base(va2 as int) < memaddr)
                    ==> #[trigger] page::perm_of(*root, va2) == page::perm_of(*old(root), va2),
        decreases num - i,
    {
        proof {
            assert(memaddr + 4096 <= top) by (nonlinear_arith)
                requires
                    memaddr == m0 + i * 4096,
                    i < num,
                    m0 + num * 4096 == top,
            ;
            assert(memaddr % 4096 == 0) by (nonlinear_arith)
                requires
                    memaddr == m0 + i * 4096,
                    m0 % 4096 == 0,
                    i >= 0,
                    m0 >= 0,
            ;
            page::lemma_base_only_path_clear(*root, memaddr, 2);
            page::lemma_missing_at_most_two(*root, memaddr);
            vstd::arithmetic::div_mod::lemma_fundamental_div_mod(memaddr as int, 4096);
            assert(4096int * (memaddr as int / 4096) == (memaddr as int / 4096) * 4096)
                by (nonlinear_arith);
            assert((memaddr as int / 4096) * 4096 == memaddr);
            assert(page::level_bytes(0) == 4096);
        }
        let ghost rootpre = *root;
        let r = page::map(root, memaddr, memaddr, perm, 0, fa);
        proof {
            assert forall|va2: usize|
                va2 < va_limit() implies (page::same_vpns(va2, memaddr, 2, 0) <==> page_base(
                va2 as int,
            ) == memaddr) by {
                page::lemma_same_page_equiv(va2, memaddr);
                vstd::arithmetic::div_mod::lemma_fundamental_div_mod(va2 as int, 4096);
                assert(4096int * (va2 as int / 4096) == (va2 as int / 4096) * 4096)
                    by (nonlinear_arith);
            }
        }
        match r {
            Ok(_) => {
                proof {
                    if forall|va2: usize|
                        va2 < va_limit() && m0 <= page_base(va2 as int) < top
                            ==> #[trigger] page::missing_tables(*old(root), va2, 2, 0) == 0 {
                        assert(page::missing_tables(*old(root), memaddr, 2, 0) == 0) by {
                            assert(page_base(memaddr as int) == memaddr);
                        }
                        assert(page::missing_tables(rootpre, memaddr, 2, 0) == 0);
                    }
                    assert forall|va2: usize|
                        va2 < va_limit() && m0 <= page_base(va2 as int) < memaddr
                            + 4096 implies #[trigger] page::perm_of(*root, va2) == Some(
                        perm,
                    ) by {
                        if page_base(va2 as int) == memaddr {
                            assert(page::same_vpns(va2, memaddr, 2, 0));
                        } else {
                            assert(!page::same_vpns(va2, memaddr, 2, 0));
                            assert(page::perm_of(*root, va2) == page::perm_of(rootpre, va2));
                        }
                    }
                    assert forall|va2: usize|
                        va2 < va_limit() && m0 <= page_base(va2 as int) < memaddr
                            + 4096 implies #[trigger] page::translate(*root, va2) == Some(
                        va2 as int,
                    ) by {
                        if page_base(va2 as int) == memaddr {
                            assert(page::same_vpns(va2, memaddr, 2, 0));
                            assert(page::translate(*root, va2) == Some(
                                page::leaf_pa(memaddr as int / 4096, va2 as int, 0),
                            ));
                            vstd::arithmetic::div_mod::lemma_fundamental_div_mod(
                                va2 as int,
                                4096,
                            );
                            assert(page::level_bytes(0) == 4096);
                            assert(page::leaf_pa(memaddr as int / 4096, va2 as int, 0)
                                == va2 as int) by (nonlinear_arith)
                                requires
                                    page::leaf_pa(memaddr as int / 4096, va2 as int, 0) == ((
                                    memaddr as int / 4096) * 4096 / 4096) * 4096 + va2 as int
                                        % 4096,
                                    (memaddr as int / 4096) * 4096 == memaddr,
                                    page_base(va2 as int) == memaddr,
                                    page_base(va2 as int) == (va2 as int / 4096) * 4096,
                                    va2 as int == 4096 * (va2 as int / 4096) + va2 as int % 4096,
                            ;
                        } else {
                            assert(!page::same_vpns(va2, memaddr, 2, 0));
                        }
                    }
                }
            },
            Err(e) => {
                proof {
                    if forall|va2: usize|
                        va2 < va_limit() && m0 <= page_base(va2 as int) < top
                            ==> #[trigger] page::missing_tables(*old(root), va2, 2, 0) == 0 {
                        assert(page::missing_tables(*old(root), memaddr, 2, 0) == 0) by {
                            assert(page_base(memaddr as int) == memaddr);
                        }
                        assert(page::missing_tables(rootpre, memaddr, 2, 0) == 0);
                        assert(false);
                    }
                    assert forall|va2: usize|
                        va2 < va_limit() implies (#[trigger] page::translate(*root, va2)
                        == page::translate(*old(root), va2) || page::translate(*root, va2)
                        == Some(va2 as int)) by {
                        assert(page::translate(*root, va2) == page::translate(rootpre, va2));
                    }
                }
                return Err(KernelError::AllocationExhausted);
            },
        }
        memaddr = memaddr + frame::PAGE_SIZE;
        i = i + 1;
    }
    Ok(())
}

/// One identity-mapped region: bounds and its leaf permissions.
pub type Region = (usize, usize, page::PermBits);

/// Bounds fit the 39-bit space and leave room for page rounding.
pub open spec fn bounded_end(hi: usize) -> bool {
    hi <= va_limit() && hi + 4096 <= usize::MAX as int + 1
}

/// A region the bootstrap may hand to `id_map_range`.
pub open spec fn rg_ok(r: Region) -> bool {
    r.0 <= r.1 && bounded_end(r.1) && r.2.rwx()
}

/// `region_id_mapped(t, lo, hi)`: every page touching `[lo, hi)` is
/// identity-mapped in `t`.
pub open spec fn region_id_mapped(t: page::Table, lo: int, hi: int) -> bool {
    id_mapped(t, page_base(lo), frame::spec_align_up(hi, 4096))
}

/// Console device window.
pub const UART_BASE: usize = 0x1000_0000;
/// End of the console device window.
pub const UART_END: usize = 0x1000_0100;
/// Core-local interrupt/timer control window.
pub const CLINT_BASE: usize = 0x0200_0000;
/// End of the core-local interrupt/timer control window.
pub const CLINT_END: usize = 0x0200_ffff;
/// Platform interrupt controller, first window.
pub const PLIC_A_BASE: usize = 0x0c00_0000;
/// End of the platform interrupt controller's first window.
pub const PLIC_A_END: usize = 0x0c00_2000;
/// Platform interrupt controller, second window.
pub const PLIC_B_BASE: usize = 0x0c20_0000;
/// End of the platform interrupt controller's second window.
pub const PLIC_B_END: usize = 0x0c20_8000;

/// Section bounds produced by the external build/link step, passed to the
/// bootstrap as an explicit value instead of ambient linker symbols.
#[derive(Clone, Copy, Debug, PartialEq, Eq, Structural)]
pub struct MemoryLayout {
    pub text_start: usize,
    pub text_end: usize,
    pub rodata_start: usize,
    pub rodata_end: usize,
    pub data_start: usize,
    pub data_end: usize,
    pub bss_start: usize,
    pub bss_end: usize,
    pub stack_start: usize,
    pub stack_end: usize,
    pub heap_start: usize,
    pub heap_size: usize,
}

impl MemoryLayout {
    /// Every section is an ordered range inside the 39-bit space, and the
    /// heap window leaves room for the allocator's page rounding.
    pub open spec fn wf(self) -> bool {
        &&& self.text_start <= self.text_end
        &&& bounded_end(self.text_end)
        &&& self.rodata_start <= self.rodata_end
        &&& bounded_end(self.rodata_end)
        &&& self.data_start <= self.data_end
        &&& bounded_end(self.data_end)
        &&& self.bss_start <= self.bss_end
        &&& bounded_end(self.bss_end)
        &&& self.stack_start <= self.stack_end
        &&& bounded_end(self.stack_end)
        &&& self.heap_start + self.heap_size <= va_limit()
        &&& self.heap_start + self.heap_size <= usize::MAX - 2 * 4096
    }
}

/// The bootstrapped kernel address space: the allocator, the root table,
/// the trap frame, and the translation-control value ready to commit.
pub struct Kernel {
    pub fa: frame::FrameAllocator,
    pub root: page::Table,
    pub trap_frame: TrapFrame,
    pub trap_frame_addr: usize,
    pub satp: u64,
}

use crate::cpu::{TrapFrame, SatpMode, build_satp, spec_satp};
use crate::frame::FrameAllocator;
use crate::page::Table;

/// Appends a region while keeping every entry acceptable to
/// `id_map_range`.
fn push_region(v: &mut Vec<Region>, lo: usize, hi: usize, perm: page::PermBits)
    requires
        lo <= hi,
        hi <= va_limit(),
        hi + 4096 <= usize::MAX as int + 1,
        perm.rwx(),
        forall|j: int| 0 <= j < old(v)@.len() ==> rg_ok(#[trigger] old(v)@[j]),
    ensures
        final(v)@ == old(v)@.push((lo, hi, perm)),
        forall|j: int| 0 <= j < final(v)@.len() ==> rg_ok(#[trigger] final(v)@[j]),
{
    v.push((lo, hi, perm));
}


/// Pages covered by a region once rounded out to page boundaries.
pub open spec fn region_pages(lo: int, hi: int) -> int {
    (frame::spec_align_up(hi, 4096) - page_base(lo)) / 4096
}

/// `va2`'s page lies inside the rounded-out region `[lo, hi)`.
pub open spec fn in_pages(lo: int, hi: int, va2: usize) -> bool {
    page_base(lo) <= page_base(va2 as int) < frame::spec_align_up(hi, 4096)
}

/// Base of the allocator's frame pool, as determined by the layout.
pub open spec fn pool_lo_of(l: MemoryLayout) -> int {
    frame::spec_alloc_start(l.heap_start, l.heap_size)
}

/// End of the allocator's frame pool, as determined by the layout.
pub open spec fn pool_hi_of(l: MemoryLayout) -> int {
    pool_lo_of(l) + frame::spec_num_frames(l.heap_start, l.heap_size) * 4096
}

/// End of the descriptor-table region at the start of the heap window.
pub open spec fn desc_hi_of(l: MemoryLayout) -> int {
    l.heap_start + l.heap_size as int / 4096
}

/// `va2` lies in one of the ten read/write bootstrap regions.
pub open spec fn rw_covered(l: MemoryLayout, va2: usize) -> bool {
    ||| in_pages(pool_lo_of(l), pool_hi_of(l), va2)
    ||| in_pages(l.heap_start as int, desc_hi_of(l), va2)
    ||| in_pages(l.rodata_start as int, l.rodata_end as int, va2)
    ||| in_pages(l.data_start as int, l.data_end as int, va2)
    ||| in_pages(l.bss_start as int, l.bss_end as int, va2)
    ||| in_pages(l.stack_start as int, l.stack_end as int, va2)
    ||| in_pages(UART_BASE as int, UART_END as int, va2)
    ||| in_pages(CLINT_BASE as int, CLINT_END as int, va2)
    ||| in_pages(PLIC_A_BASE as int, PLIC_A_END as int, va2)
    ||| in_pages(PLIC_B_BASE as int, PLIC_B_END as int, va2)
}

/// `va2` lies in some bootstrap region, code included.
pub open spec fn bootstrap_covered(l: MemoryLayout, va2: usize) -> bool {
    in_pages(l.text_start as int, l.text_end as int, va2) || rw_covered(l, va2)
}

/// Enough frames for the whole bootstrap: the root table, the trap stack
/// and trap-frame frames with their page maps, and at most two fresh
/// tables for every page of the eleven fixed regions.
pub open spec fn frames_needed(l: MemoryLayout) -> int {
    7 + 2 * (region_pages(l.text_start as int, l.text_end as int) + region_pages(
        pool_lo_of(l),
        pool_hi_of(l),
    ) + region_pages(l.heap_start as int, desc_hi_of(l)) + region_pages(
        l.rodata_start as int,
        l.rodata_end as int,
    ) + region_pages(l.data_start as int, l.data_end as int) + region_pages(
        l.bss_start as int,
        l.bss_end as int,
    ) + region_pages(l.stack_start as int, l.stack_end as int) + region_pages(
        UART_BASE as int,
        UART_END as int,
    ) + region_pages(CLINT_BASE as int, CLINT_END as int) + region_pages(
        PLIC_A_BASE as int,
        PLIC_A_END as int,
    ) + region_pages(PLIC_B_BASE as int, PLIC_B_END as int))
}

/// Page count of the first `k` regions of a list.
pub open spec fn pages_sum(rs: Seq<Region>, k: int) -> int
    decreases k,
{
    if k <= 0 {
        0
    } else {
        pages_sum(rs, k - 1) + region_pages(rs[k - 1].0 as int, rs[k - 1].1 as int)
    }
}

/// An acceptable region covers a non-negative number of pages.
proof fn lemma_region_pages_nonneg(lo: int, hi: int)
    requires
        0 <= lo <= hi,
    ensures
        region_pages(lo, hi) >= 0,
{
    frame::lemma_align_up_properties(hi, 4096);
    vstd::arithmetic::div_mod::lemma_fundamental_div_mod(lo, 4096);
    vstd::arithmetic::div_mod::lemma_mod_bound(lo, 4096);
    assert(4096int * (lo / 4096) == (lo / 4096) * 4096) by (nonlinear_arith);
    assert(page_base(lo) <= lo);
    vstd::arithmetic::div_mod::lemma_div_pos_is_pos(
        frame::spec_align_up(hi, 4096) - page_base(lo),
        4096,
    );
}

/// Prefix page counts only grow.
proof fn lemma_pages_sum_mono(rs: Seq<Region>, a: int, b: int)
    requires
        0 <= a <= b <= rs.len(),
        forall|j: int| 0 <= j < rs.len() ==> rg_ok(#[trigger] rs[j]),
    ensures
        pages_sum(rs, a) <= pages_sum(rs, b),
    decreases b - a,
{
    if a < b {
        lemma_pages_sum_mono(rs, a, b - 1);
        lemma_region_pages_nonneg(rs[b - 1].0 as int, rs[b - 1].1 as int);
    }
}


/// A page outside every read/write bootstrap range is hit by none of the
/// read/write entries of the bootstrap's region list.
proof fn lemma_no_rw_region_hit(l: MemoryLayout, rs: Seq<Region>, va2: usize)
    requires
        rs.len() == 11,
        rs[1].0 as int == pool_lo_of(l) && rs[1].1 as int == pool_hi_of(l),
        rs[2].0 == l.heap_start && rs[2].1 as int == desc_hi_of(l),
        rs[3].0 == l.rodata_start && rs[3].1 == l.rodata_end,
        rs[4].0 == l.data_start && rs[4].1 == l.data_end,
        rs[5].0 == l.bss_start && rs[5].1 == l.bss_end,
        rs[6].0 == l.stack_start && rs[6].1 == l.stack_end,
        rs[7].0 == UART_BASE && rs[7].1 == UART_END,
        rs[8].0 == CLINT_BASE && rs[8].1 == CLINT_END,
        rs[9].0 == PLIC_A_BASE && rs[9].1 == PLIC_A_END,
        rs[10].0 == PLIC_B_BASE && rs[10].1 == PLIC_B_END,
        !rw_covered(l, va2),
    ensures
        !(exists|j: int|
            1 <= j < 11 && in_pages((#[trigger] rs[j]).0 as int, rs[j].1 as int, va2)),
{
    if exists|j: int|
        1 <= j < 11 && in_pages((#[trigger] rs[j]).0 as int, rs[j].1 as int, va2) {
        let j = choose|j: int|
            1 <= j < 11 && in_pages((#[trigger] rs[j]).0 as int, rs[j].1 as int, va2);
        if j == 1 {
            assert(in_pages(pool_lo_of(l), pool_hi_of(l), va2));
        } else if j == 2 {
            assert(in_pages(l.heap_start as int, desc_hi_of(l), va2));
        } else if j == 3 {
            assert(in_pages(l.rodata_start as int, l.rodata_end as int, va2));
        } else if j == 4 {
            assert(in_pages(l.data_start as int, l.data_end as int, va2));
        } else if j == 5 {
            assert(in_pages(l.bss_start as int, l.bss_end as int, va2));
        } else if j == 6 {
            assert(in_pages(l.stack_start as int, l.stack_end as int, va2));
        } else if j == 7 {
            assert(in_pages(UART_BASE as int, UART_END as int, va2));
        } else if j == 8 {
            assert(in_pages(CLINT_BASE as int, CLINT_END as int, va2));
        } else if j == 9 {
            assert(in_pages(PLIC_A_BASE as int, PLIC_A_END as int, va2));
        } else {
            assert(j == 10);
            assert(in_pages(PLIC_B_BASE as int, PLIC_B_END as int, va2));
        }
        assert(false);
    }
}

/// A page outside every bootstrap region is hit by no entry of the
/// bootstrap's region list at all.
proof fn lemma_no_region_hit(l: MemoryLayout, rs: Seq<Region>, va2: usize)
    requires
        rs.len() == 11,
        rs[0].0 == l.text_start && rs[0].1 == l.text_end,
        rs[1].0 as int == pool_lo_of(l) && rs[1].1 as int == pool_hi_of(l),
        rs[2].0 == l.heap_start && rs[2].1 as int == desc_hi_of(l),
        rs[3].0 == l.rodata_start && rs[3].1 == l.rodata_end,
        rs[4].0 == l.data_start && rs[4].1 == l.data_end,
        rs[5].0 == l.bss_start && rs[5].1 == l.bss_end,
        rs[6].0 == l.stack_start && rs[6].1 == l.stack_end,
        rs[7].0 == UART_BASE && rs[7].1 == UART_END,
        rs[8].0 == CLINT_BASE && rs[8].1 == CLINT_END,
        rs[9].0 == PLIC_A_BASE && rs[9].1 == PLIC_A_END,
        rs[10].0 == PLIC_B_BASE && rs[10].1 == PLIC_B_END,
        !bootstrap_covered(l, va2),
    ensures
        !(exists|j: int|
            0 <= j < 11 && in_pages((#[trigger] rs[j]).0 as int, rs[j].1 as int, va2)),
{
    lemma_no_rw_region_hit(l, rs, va2);
    if exists|j: int|
        0 <= j < 11 && in_pages((#[trigger] rs[j]).0 as int, rs[j].1 as int, va2) {
        let j = choose|j: int|
            0 <= j < 11 && in_pages((#[trigger] rs[j]).0 as int, rs[j].1 as int, va2);
        if j == 0 {
            assert(in_pages(l.text_start as int, l.text_end as int, va2));
        }
        assert(false);
    }
}



/// Inside the rounded-out single page at an aligned `base`, every address
/// has that very page as its page base.
proof fn lemma_page_range_member(base: usize, va2: usize)
    requires
        base % 4096 == 0,
        base + 4096 <= usize::MAX as int + 1,
        page_base(base as int) <= page_base(va2 as int) < frame::spec_align_up(
            base + 4096,
            4096,
        ),
    ensures
        page_base(va2 as int) == page_base(base as int),
{
    vstd::arithmetic::div_mod::lemma_fundamental_div_mod(base as int, 4096);
    assert(4096int * (base as int / 4096) == (base as int / 4096) * 4096) by (nonlinear_arith);
    assert(page_base(base as int) == base);
    frame::lemma_align_up_properties(base + 4096, 4096);
    assert((base + 4096) as int % 4096 == 0) by (nonlinear_arith)
        requires
            base as int % 4096 == 0,
            base >= 0,
    ;
    assert(frame::spec_align_up(base + 4096, 4096) == base + 4096);
    assert((page_base(va2 as int)) % 4096 == 0) by (nonlinear_arith);
    assert(page_base(va2 as int) == base) by (nonlinear_arith)
        requires
            base <= page_base(va2 as int) < base + 4096,
            page_base(va2 as int) % 4096 == 0,
            base as int % 4096 == 0,
    ;
}

/// Carries the loop's mapping facts across the two trailing single-page
/// maps (trap stack, trap frame) to the final root table.
#[verifier::rlimit(100)]
#[verifier::spinoff_prover]
proof fn lemma_finish_maps(
    l: MemoryLayout,
    rs: Seq<Region>,
    r2: page::Table,
    r3: page::Table,
    rf: page::Table,
    ts_base: usize,
    ts_top: usize,
    tf_addr: usize,
    rw: page::PermBits,
    rx: page::PermBits,
)
    requires
        rs.len() == 11,
        rs[0].0 == l.text_start && rs[0].1 == l.text_end,
        rs[1].0 as int == pool_lo_of(l) && rs[1].1 as int == pool_hi_of(l),
        rs[2].0 == l.heap_start && rs[2].1 as int == desc_hi_of(l),
        rs[3].0 == l.rodata_start && rs[3].1 == l.rodata_end,
        rs[4].0 == l.data_start && rs[4].1 == l.data_end,
        rs[5].0 == l.bss_start && rs[5].1 == l.bss_end,
        rs[6].0 == l.stack_start && rs[6].1 == l.stack_end,
        rs[7].0 == UART_BASE && rs[7].1 == UART_END,
        rs[8].0 == CLINT_BASE && rs[8].1 == CLINT_END,
        rs[9].0 == PLIC_A_BASE && rs[9].1 == PLIC_A_END,
        rs[10].0 == PLIC_B_BASE && rs[10].1 == PLIC_B_END,
        ts_top == ts_base + 4096,
        ts_base % 4096 == 0,
        tf_addr % 4096 == 0,
        tf_addr + 4096 <= usize::MAX as int + 1,
        in_pages(pool_lo_of(l), pool_hi_of(l), ts_base),
        in_pages(pool_lo_of(l), pool_hi_of(l), tf_addr),
        forall|j: int|
            0 <= j < 11 ==> region_id_mapped(r2, (#[trigger] rs[j]).0 as int, rs[j].1 as int),
        forall|j: int|
            1 <= j < 11 ==> perm_mapped(
                r2,
                page_base((#[trigger] rs[j]).0 as int),
                frame::spec_align_up(rs[j].1 as int, 4096),
                rw,
            ),
        forall|va2: usize|
            va2 < va_limit() && in_pages(l.text_start as int, l.text_end as int, va2) && !(
            exists|j: int|
                1 <= j < 11 && in_pages((#[trigger] rs[j]).0 as int, rs[j].1 as int, va2))
                ==> #[trigger] page::perm_of(r2, va2) == Some(rx),
        forall|va2: usize|
            va2 < va_limit() && !(exists|j: int|
                0 <= j < 11 && in_pages((#[trigger] rs[j]).0 as int, rs[j].1 as int, va2))
                ==> #[trigger] page::translate(r2, va2) is None,
        id_mapped(r3, page_base(ts_base as int), frame::spec_align_up(ts_top as int, 4096)),
        perm_mapped(
            r3,
            page_base(ts_base as int),
            frame::spec_align_up(ts_top as int, 4096),
            rw,
        ),
        forall|va2: usize|
            va2 < va_limit() && !(page_base(ts_base as int) <= page_base(va2 as int)
                < frame::spec_align_up(ts_top as int, 4096)) ==> #[trigger] page::translate(
                r3,
                va2,
            ) == page::translate(r2, va2),
        forall|va2: usize|
            va2 < va_limit() && !(page_base(ts_base as int) <= page_base(va2 as int)
                < frame::spec_align_up(ts_top as int, 4096)) ==> #[trigger] page::perm_of(
                r3,
                va2,
            ) == page::perm_of(r2, va2),
        id_mapped(
            rf,
            page_base(tf_addr as int),
            frame::spec_align_up(tf_addr + 4096, 4096),
        ),
        perm_mapped(
            rf,
            page_base(tf_addr as int),
            frame::spec_align_up(tf_addr + 4096, 4096),
            rw,
        ),
        forall|va2: usize|
            va2 < va_limit() && !(page_base(tf_addr as int) <= page_base(va2 as int)
                < frame::spec_align_up(tf_addr + 4096, 4096)) ==> #[trigger] page::translate(
                rf,
                va2,
            ) == page::translate(r3, va2),
        forall|va2: usize|
            va2 < va_limit() && !(page_base(tf_addr as int) <= page_base(va2 as int)
                < frame::spec_align_up(tf_addr + 4096, 4096)) ==> #[trigger] page::perm_of(
                rf,
                va2,
            ) == page::perm_of(r3, va2),
    ensures
        forall|j: int|
            0 <= j < 11 ==> region_id_mapped(rf, (#[trigger] rs[j]).0 as int, rs[j].1 as int),
        forall|j: int|
            1 <= j < 11 ==> perm_mapped(
                rf,
                page_base((#[trigger] rs[j]).0 as int),
                frame::spec_align_up(rs[j].1 as int, 4096),
                rw,
            ),
        region_id_mapped(rf, ts_base as int, ts_top as int),
        perm_mapped(rf, ts_base as int, ts_top as int, rw),
        perm_mapped(rf, tf_addr as int, tf_addr + 4096, rw),
        forall|va2: usize|
            va2 < va_limit() && in_pages(l.text_start as int, l.text_end as int, va2)
                && !rw_covered(l, va2) ==> #[trigger] page::perm_of(rf, va2) == Some(rx),
        forall|va2: usize|
            va2 < va_limit() && !bootstrap_covered(l, va2) ==> #[trigger] page::translate(
                rf,
                va2,
            ) is None,
{
    assert forall|j: int| 0 <= j < 11 implies region_id_mapped(
        rf,
        (#[trigger] rs[j]).0 as int,
        rs[j].1 as int,
    ) by {
        let lo = page_base(rs[j].0 as int);
        let hi = frame::spec_align_up(rs[j].1 as int, 4096);
        assert forall|va2: usize|
            va2 < va_limit() && lo <= page_base(va2 as int) < hi implies #[trigger]
        page::translate(rf, va2) == Some(va2 as int) by {
            assert(page::translate(r2, va2) == Some(va2 as int));
            assert(page::translate(r3, va2) == Some(va2 as int));
        }
    }
    assert forall|j: int| 1 <= j < 11 implies perm_mapped(
        rf,
        page_base((#[trigger] rs[j]).0 as int),
        frame::spec_align_up(rs[j].1 as int, 4096),
        rw,
    ) by {
        let lo = page_base(rs[j].0 as int);
        let hi = frame::spec_align_up(rs[j].1 as int, 4096);
        assert forall|va2: usize|
            va2 < va_limit() && lo <= page_base(va2 as int) < hi implies #[trigger]
        page::perm_of(rf, va2) == Some(rw) by {
            assert(page::perm_of(r2, va2) == Some(rw));
            if !(page_base(ts_base as int) <= page_base(va2 as int) < frame::spec_align_up(
                ts_top as int,
                4096,
            )) {
                assert(page::perm_of(r3, va2) == Some(rw));
            }
        }
    }
    assert forall|va2: usize|
        va2 < va_limit() && page_base(ts_base as int) <= page_base(va2 as int)
            < frame::spec_align_up(ts_top as int, 4096) implies #[trigger] page::translate(
        rf,
        va2,
    ) == Some(va2 as int) by {
        assert(page::translate(r3, va2) == Some(va2 as int));
    }
    assert forall|va2: usize|
        va2 < va_limit() && in_pages(l.text_start as int, l.text_end as int, va2)
            && !rw_covered(l, va2) implies #[trigger] page::perm_of(rf, va2) == Some(rx) by {
        lemma_no_rw_region_hit(l, rs, va2);
        assert(page::perm_of(r2, va2) == Some(rx));
        assert(!(page_base(ts_base as int) <= page_base(va2 as int) < frame::spec_align_up(
            ts_top as int,
            4096,
        ))) by {
            if page_base(ts_base as int) <= page_base(va2 as int) < frame::spec_align_up(
                ts_top as int,
                4096,
            ) {
                lemma_page_range_member(ts_base, va2);
                assert(in_pages(pool_lo_of(l), pool_hi_of(l), va2));
            }
        }
        assert(page::perm_of(r3, va2) == Some(rx));
        assert(!(page_base(tf_addr as int) <= page_base(va2 as int) < frame::spec_align_up(
            tf_addr + 4096,
            4096,
        ))) by {
            if page_base(tf_addr as int) <= page_base(va2 as int) < frame::spec_align_up(
                tf_addr + 4096,
                4096,
            ) {
                lemma_page_range_member(tf_addr, va2);
                assert(in_pages(pool_lo_of(l), pool_hi_of(l), va2));
            }
        }
    }
    assert forall|va2: usize|
        va2 < va_limit() && !bootstrap_covered(l, va2) implies #[trigger] page::translate(
        rf,
        va2,
    ) is None by {
        lemma_no_region_hit(l, rs, va2);
        assert(page::translate(r2, va2) is None);
        assert(!(page_base(ts_base as int) <= page_base(va2 as int) < frame::spec_align_up(
            ts_top as int,
            4096,
        ))) by {
            if page_base(ts_base as int) <= page_base(va2 as int) < frame::spec_align_up(
                ts_top as int,
                4096,
            ) {
                lemma_page_range_member(ts_base, va2);
                assert(in_pages(pool_lo_of(l), pool_hi_of(l), va2));
            }
        }
        assert(page::translate(r3, va2) is None);
        assert(!(page_base(tf_addr as int) <= page_base(va2 as int) < frame::spec_align_up(
            tf_addr + 4096,
            4096,
        ))) by {
            if page_base(tf_addr as int) <= page_base(va2 as int) < frame::spec_align_up(
                tf_addr + 4096,
                4096,
            ) {
                lemma_page_range_member(tf_addr, va2);
                assert(in_pages(pool_lo_of(l), pool_hi_of(l), va2));
            }
        }
    }
    assert(perm_mapped(
        rf,
        page_base(rs[1].0 as int),
        frame::spec_align_up(rs[1].1 as int, 4096),
        rw,
    ));
    assert forall|va2: usize|
        va2 < va_limit() && ts_base as int <= page_base(va2 as int) < ts_top as int implies
    #[trigger] page::perm_of(rf, va2) == Some(rw) by {
        vstd::arithmetic::div_mod::lemma_fundamental_div_mod(ts_base as int, 4096);
        assert(4096int * (ts_base as int / 4096) == (ts_base as int / 4096) * 4096)
            by (nonlinear_arith);
        assert(page_base(ts_base as int) == ts_base);
        lemma_page_range_member(ts_base, va2);
        assert(in_pages(pool_lo_of(l), pool_hi_of(l), va2));
    }
    assert forall|va2: usize|
        va2 < va_limit() && tf_addr as int <= page_base(va2 as int) < tf_addr + 4096 implies
    #[trigger] page::perm_of(rf, va2) == Some(rw) by {
        vstd::arithmetic::div_mod::lemma_fundamental_div_mod(tf_addr as int, 4096);
        assert(4096int * (tf_addr as int / 4096) == (tf_addr as int / 4096) * 4096)
            by (nonlinear_arith);
        assert(page_base(tf_addr as int) == tf_addr);
        lemma_page_range_member(tf_addr, va2);
        assert(in_pages(pool_lo_of(l), pool_hi_of(l), va2));
    }
}

/// Builds the kernel's initial address space: sets up the frame allocator
/// over the heap window, allocates a root table, identity-maps every
/// region the processor will touch (heap pool, descriptor table, kernel
/// sections, stack, device windows, trap stack and trap frame), and
/// computes the translation-control value, which the caller commits to
/// hardware.
#[verifier::rlimit(100)]
#[verifier::spinoff_prover]
pub fn init_os(layout: &MemoryLayout) -> (r: Result<Kernel, KernelError>)
    requires
        layout.wf(),
    ensures
        frame::spec_num_frames(layout.heap_start, layout.heap_size) >= frames_needed(*layout)
            ==> r is Ok,
        match r {
            Ok(k) => {
                &&& k.fa.wf()
                &&& k.fa.heap_base == layout.heap_start
                &&& k.fa.heap_len == layout.heap_size
                &&& page::node_wf(k.root, 2)
                &&& page::base_only(k.root, 2)
                &&& page::tree_frames_ok(k.root, 2, k.fa)
                &&& k.fa.single_alloc(k.root.addr as int)
                &&& k.satp as int == spec_satp(SatpMode::Sv39, 0, k.root.addr)
                &&& k.trap_frame.satp == k.satp
                &&& k.trap_frame.hartid == 0
                &&& k.trap_frame.trap_stack % 4096 == 0
                &&& k.trap_frame.trap_stack >= 4096
                &&& k.fa.single_alloc(k.trap_frame.trap_stack - 4096)
                &&& k.fa.single_alloc(k.trap_frame_addr as int)
                &&& exists|ix: int|
                    {
                        &&& 0 <= ix < k.fa.descs@.len()
                        &&& #[trigger] k.fa.addr_of(ix) == k.trap_frame.trap_stack - 4096
                        &&& forall|j: int|
                            0 <= j < 512 ==> (#[trigger] k.fa.frames@[ix].words@[j]) == 0
                    }
                &&& region_id_mapped(
                    k.root,
                    k.fa.alloc_start as int,
                    k.fa.alloc_start + k.fa.descs@.len() * 4096,
                )
                &&& region_id_mapped(
                    k.root,
                    layout.heap_start as int,
                    layout.heap_start + layout.heap_size as int / 4096,
                )
                &&& region_id_mapped(k.root, layout.text_start as int, layout.text_end as int)
                &&& region_id_mapped(
                    k.root,
                    layout.rodata_start as int,
                    layout.rodata_end as int,
                )
                &&& region_id_mapped(k.root, layout.data_start as int, layout.data_end as int)
                &&& region_id_mapped(k.root, layout.bss_start as int, layout.bss_end as int)
                &&& region_id_mapped(k.root, layout.stack_start as int, layout.stack_end as int)
                &&& region_id_mapped(k.root, UART_BASE as int, UART_END as int)
                &&& region_id_mapped(k.root, CLINT_BASE as int, CLINT_END as int)
                &&& region_id_mapped(k.root, PLIC_A_BASE as int, PLIC_A_END as int)
                &&& region_id_mapped(k.root, PLIC_B_BASE as int, PLIC_B_END as int)
                &&& region_id_mapped(
                    k.root,
                    k.trap_frame.trap_stack - 4096,
                    k.trap_frame.trap_stack as int,
                )
                &&& region_id_mapped(
                    k.root,
                    k.trap_frame_addr as int,
                    k.trap_frame_addr + 4096,
                )
                &&& perm_mapped(
                    k.root,
                    k.trap_frame.trap_stack - 4096,
                    k.trap_frame.trap_stack as int,
                    page::PermBits { read: true, write: true, execute: false, user: false },
                )
                &&& perm_mapped(
                    k.root,
                    k.trap_frame_addr as int,
                    k.trap_frame_addr + 4096,
                    page::PermBits { read: true, write: true, execute: false, user: false },
                )
                &&& perm_mapped(
                    k.root,
                    pool_lo_of(*layout),
                    frame::spec_align_up(pool_hi_of(*layout), 4096),
                    page::PermBits { read: true, write: true, execute: false, user: false },
                )
                &&& perm_mapped(
                    k.root,
                    page_base(layout.heap_start as int),
                    frame::spec_align_up(desc_hi_of(*layout), 4096),
                    page::PermBits { read: true, write: true, execute: false, user: false },
                )
                &&& perm_mapped(
                    k.root,
                    page_base(layout.rodata_start as int),
                    frame::spec_align_up(layout.rodata_end as int, 4096),
                    page::PermBits { read: true, write: true, execute: false, user: false },
                )
                &&& perm_mapped(
                    k.root,
                    page_base(layout.data_start as int),
                    frame::spec_align_up(layout.data_end as int, 4096),
                    page::PermBits { read: true, write: true, execute: false, user: false },
                )
                &&& perm_mapped(
                    k.root,
                    page_base(layout.bss_start as int),
                    frame::spec_align_up(layout.bss_end as int, 4096),
                    page::PermBits { read: true, write: true, execute: false, user: false },
                )
                &&& perm_mapped(
                    k.root,
                    page_base(layout.stack_start as int),
                    frame::spec_align_up(layout.stack_end as int, 4096),
                    page::PermBits { read: true, write: true, execute: false, user: false },
                )
                &&& perm_mapped(
                    k.root,
                    UART_BASE as int,
                    frame::spec_align_up(UART_END as int, 4096),
                    page::PermBits { read: true, write: true, execute: false, user: false },
                )
                &&& perm_mapped(
                    k.root,
                    CLINT_BASE as int,
                    frame::spec_align_up(CLINT_END as int, 4096),
                    page::PermBits { read: true, write: true, execute: false, user: false },
                )
                &&& perm_mapped(
                    k.root,
                    PLIC_A_BASE as int,
                    frame::spec_align_up(PLIC_A_END as int, 4096),
                    page::PermBits { read: true, write: true, execute: false, user: false },
                )
                &&& perm_mapped(
                    k.root,
                    PLIC_B_BASE as int,
                    frame::spec_align_up(PLIC_B_END as int, 4096),
                    page::PermBits { read: true, write: true, execute: false, user: false },
                )
                &&& forall|va2: usize|
                    va2 < va_limit() && in_pages(
                        layout.text_start as int,
                        layout.text_end as int,
                        va2,
                    ) && !rw_covered(*layout, va2) ==> #[trigger] page::perm_of(k.root, va2)
                        == Some(
                        page::PermBits { read: true, write: false, execute: true, user: false },
                    )
                &&& forall|va2: usize|
                    va2 < va_limit() && !bootstrap_covered(*layout, va2)
                        ==> #[trigger] page::translate(k.root, va2) is None
            },
            Err(e) => {
                &&& (e == KernelError::HeapTooSmall || e == KernelError::AllocationExhausted)
                &&& (e == KernelError::HeapTooSmall <==> frame::spec_num_frames(
                    layout.heap_start,
                    layout.heap_size,
                ) == 0)
            },
        },
{
    proof {
        if frame::spec_num_frames(layout.heap_start, layout.heap_size) >= frames_needed(
            *layout,
        ) {
            lemma_region_pages_nonneg(layout.text_start as int, layout.text_end as int);
            lemma_region_pages_nonneg(pool_lo_of(*layout), pool_hi_of(*layout));
            lemma_region_pages_nonneg(layout.heap_start as int, desc_hi_of(*layout));
            lemma_region_pages_nonneg(layout.rodata_start as int, layout.rodata_end as int);
            lemma_region_pages_nonneg(layout.data_start as int, layout.data_end as int);
            lemma_region_pages_nonneg(layout.bss_start as int, layout.bss_end as int);
            lemma_region_pages_nonneg(layout.stack_start as int, layout.stack_end as int);
            lemma_region_pages_nonneg(UART_BASE as int, UART_END as int);
            lemma_region_pages_nonneg(CLINT_BASE as int, CLINT_END as int);
            lemma_region_pages_nonneg(PLIC_A_BASE as int, PLIC_A_END as int);
            lemma_region_pages_nonneg(PLIC_B_BASE as int, PLIC_B_END as int);
            assert(frames_needed(*layout) >= 7);
        }
    }
    let ghost need_ok = frame::spec_num_frames(layout.heap_start, layout.heap_size)
        >= frames_needed(*layout);
    let fa0 = FrameAllocator::init(layout.heap_start, layout.heap_size);
    let mut fa = match fa0 {
        Ok(f) => f,
        Err(e) => {
            return Err(e);
        },
    };
    let ghost fa_pre_root = fa;
    let root_alloc = fa.allocate(1);
    let root_addr = match root_alloc {
        Ok(a) => a,
        Err(e) => {
            proof {
                if need_ok {
                    assert(frame::count_free(fa_pre_root.descs@) >= 1);
                    crate::frame::lemma_count_free_all_taken(fa_pre_root.descs@);
                    assert(exists|s: int| frame::is_free_run(fa_pre_root.descs@, s, 1)) by {
                        assert(false);
                    }
                }
            }
            return Err(e);
        },
    };
    proof {
        let s = choose|s: int|
            {
                &&& #[trigger] frame::is_free_run(fa_pre_root.descs@, s, 1)
                &&& forall|t2: int| 0 <= t2 < s ==> !frame::is_free_run(fa_pre_root.descs@, t2, 1)
                &&& root_addr == fa.alloc_start + s * 4096
                &&& fa.descs@ == frame::spec_mark(fa_pre_root.descs@, s, 1)
            };
        frame::lemma_fresh_single(fa_pre_root, fa, root_addr, s);
    }
    let mut root = Table::new(root_addr);
    proof {
        assert forall|a: int| #[trigger] page::owns_frame(root, 2, a) implies fa.single_alloc(
            a,
        ) by {
            page::lemma_empty_no_owned(root, 2, a);
        }
    }

    let pool_lo = fa.alloc_start;
    let n_frames = fa.descs.len();
    let pool_hi = pool_lo + n_frames * frame::PAGE_SIZE;
    proof {
        assert(n_frames * 4096 >= 0) by (nonlinear_arith)
            requires
                n_frames >= 0,
        ;
        assert(pool_lo == pool_lo_of(*layout));
        assert(pool_hi == pool_hi_of(*layout));
    }
    let desc_hi = layout.heap_start + layout.heap_size / frame::PAGE_SIZE;

    let rw = page::PermBits::read_write();
    let rx = page::PermBits::read_execute();
    let mut regions: Vec<Region> = Vec::new();
    push_region(&mut regions, layout.text_start, layout.text_end, rx);
    push_region(&mut regions, pool_lo, pool_hi, rw);
    push_region(&mut regions, layout.heap_start, desc_hi, rw);
    push_region(&mut regions, layout.rodata_start, layout.rodata_end, rw);
    push_region(&mut regions, layout.data_start, layout.data_end, rw);
    push_region(&mut regions, layout.bss_start, layout.bss_end, rw);
    push_region(&mut regions, layout.stack_start, layout.stack_end, rw);
    push_region(&mut regions, UART_BASE, UART_END, rw);
    push_region(&mut regions, CLINT_BASE, CLINT_END, rw);
    push_region(&mut regions, PLIC_A_BASE, PLIC_A_END, rw);
    push_region(&mut regions, PLIC_B_BASE, PLIC_B_END, rw);
    let ghost regs0 = regions@;
    proof {
        assert(forall|j: int| 1 <= j < 11 ==> (#[trigger] regs0[j]).2 == rw);
        reveal_with_fuel(pages_sum, 12);
        assert(pages_sum(regs0, 11) == region_pages(regs0[0].0 as int, regs0[0].1 as int)
            + region_pages(regs0[1].0 as int, regs0[1].1 as int) + region_pages(
            regs0[2].0 as int,
            regs0[2].1 as int,
        ) + region_pages(regs0[3].0 as int, regs0[3].1 as int) + region_pages(
            regs0[4].0 as int,
            regs0[4].1 as int,
        ) + region_pages(regs0[5].0 as int, regs0[5].1 as int) + region_pages(
            regs0[6].0 as int,
            regs0[6].1 as int,
        ) + region_pages(regs0[7].0 as int, regs0[7].1 as int) + region_pages(
            regs0[8].0 as int,
            regs0[8].1 as int,
        ) + region_pages(regs0[9].0 as int, regs0[9].1 as int) + region_pages(
            regs0[10].0 as int,
            regs0[10].1 as int,
        ));
        assert(frames_needed(*layout) == 7 + 2 * pages_sum(regs0, 11));
    }

    let n_regions = regions.len();
    let mut i: usize = 0;
    while i < n_regions
        invariant
            fa.wf(),
            fa.heap_base == layout.heap_start,
            fa.heap_len == layout.heap_size,
            page::node_wf(root, 2),
            page::base_only(root, 2),
            page::tree_frames_ok(root, 2, fa),
            fa.single_alloc(root_addr as int),
            root.addr == root_addr,
            regions@ == regs0,
            n_regions == regs0.len(),
            n_regions == 11,
            i <= n_regions,
            layout.wf(),
            regs0[0].0 == layout.text_start && regs0[0].1 == layout.text_end,
            regs0[0].2 == rx,
            forall|j: int| 1 <= j < 11 ==> (#[trigger] regs0[j]).2 == rw,
            rw == (page::PermBits { read: true, write: true, execute: false, user: false }),
            rx == (page::PermBits { read: true, write: false, execute: true, user: false }),
            forall|j: int| 0 <= j < regs0.len() ==> rg_ok(#[trigger] regs0[j]),
            need_ok == (frame::spec_num_frames(layout.heap_start, layout.heap_size)
                >= frames_needed(*layout)),
            frames_needed(*layout) == 7 + 2 * pages_sum(regs0, 11),
            need_ok ==> frame::count_free(fa.descs@) + 2 * pages_sum(regs0, i as int) + 1
                >= frame::spec_num_frames(layout.heap_start, layout.heap_size),
            forall|j: int|
                0 <= j < i ==> region_id_mapped(
                    root,
                    (#[trigger] regs0[j]).0 as int,
                    regs0[j].1 as int,
                ),
            forall|j: int|
                1 <= j < i ==> perm_mapped(
                    root,
                    page_base((#[trigger] regs0[j]).0 as int),
                    frame::spec_align_up(regs0[j].1 as int, 4096),
                    rw,
                ),
            i >= 1 ==> forall|va2: usize|
                va2 < va_limit() && in_pages(
                    layout.text_start as int,
                    layout.text_end as int,
                    va2,
                ) && !(exists|j: int|
                    1 <= j < i && in_pages(
                        (#[trigger] regs0[j]).0 as int,
                        regs0[j].1 as int,
                        va2,
                    )) ==> #[trigger] page::perm_of(root, va2) == Some(rx),
            forall|va2: usize|
                va2 < va_limit() && !(exists|j: int|
                    0 <= j < i && in_pages(
                        (#[trigger] regs0[j]).0 as int,
                        regs0[j].1 as int,
                        va2,
                    )) ==> #[trigger] page::translate(root, va2) is None,
        decreases n_regions - i,
    {
        let rg = regions[i];
        let ghost rootpre = root;
        let ghost fapre = fa;
        proof {
            if need_ok {
                lemma_pages_sum_mono(regs0, i as int + 1, 11);
                lemma_region_pages_nonneg(regs0[i as int].0 as int, regs0[i as int].1 as int);
                assert(pages_sum(regs0, i as int + 1) == pages_sum(regs0, i as int)
                    + region_pages(regs0[i as int].0 as int, regs0[i as int].1 as int));
                assert(frame::count_free(fa.descs@) >= 2 * region_pages(
                    regs0[i as int].0 as int,
                    regs0[i as int].1 as int,
                ));
            }
        }
        let res = id_map_range(&mut root, rg.0, rg.1, rg.2, &mut fa);
        if let Err(_) = res {
            proof {
                if need_ok {
                    assert(false);
                }
            }
            return Err(KernelError::AllocationExhausted);
        }
        proof {
            assert forall|j: int| 0 <= j < i + 1 implies region_id_mapped(
                root,
                (#[trigger] regs0[j]).0 as int,
                regs0[j].1 as int,
            ) by {
                let lo = page_base(regs0[j].0 as int);
                let hi = frame::spec_align_up(regs0[j].1 as int, 4096);
                assert forall|va2: usize|
                    va2 < va_limit() && lo <= page_base(va2 as int) < hi implies #[trigger]
                page::translate(root, va2) == Some(va2 as int) by {
                    if j < i {
                        assert(region_id_mapped(rootpre, regs0[j].0 as int, regs0[j].1 as int));
                        assert(page::translate(rootpre, va2) == Some(va2 as int));
                    }
                }
            }
            assert forall|j: int| 1 <= j < i + 1 implies perm_mapped(
                root,
                page_base((#[trigger] regs0[j]).0 as int),
                frame::spec_align_up(regs0[j].1 as int, 4096),
                rw,
            ) by {
                let lo = page_base(regs0[j].0 as int);
                let hi = frame::spec_align_up(regs0[j].1 as int, 4096);
                assert forall|va2: usize|
                    va2 < va_limit() && lo <= page_base(va2 as int) < hi implies #[trigger]
                page::perm_of(root, va2) == Some(rw) by {
                    if j < i {
                        assert(perm_mapped(rootpre, lo, hi, rw));
                        assert(page::perm_of(rootpre, va2) == Some(rw));
                        if in_pages(regs0[i as int].0 as int, regs0[i as int].1 as int, va2) {
                            assert(rg.2 == rw);
                            assert(page::perm_of(root, va2) == Some(rw));
                        } else {
                            assert(page::perm_of(root, va2) == page::perm_of(rootpre, va2));
                        }
                    } else {
                        assert(rg.2 == rw);
                    }
                }
            }
            if i >= 1 {
                assert forall|va2: usize|
                    va2 < va_limit() && in_pages(
                        layout.text_start as int,
                        layout.text_end as int,
                        va2,
                    ) && !(exists|j: int|
                        1 <= j < i + 1 && in_pages(
                            (#[trigger] regs0[j]).0 as int,
                            regs0[j].1 as int,
                            va2,
                        )) implies #[trigger] page::perm_of(root, va2) == Some(rx) by {
                    assert(!in_pages(regs0[i as int].0 as int, regs0[i as int].1 as int, va2));
                    assert(!(exists|j: int|
                        1 <= j < i && in_pages(
                            (#[trigger] regs0[j]).0 as int,
                            regs0[j].1 as int,
                            va2,
                        )));
                    assert(page::perm_of(rootpre, va2) == Some(rx));
                    assert(page::perm_of(root, va2) == page::perm_of(rootpre, va2));
                }
            } else {
                assert forall|va2: usize|
                    va2 < va_limit() && in_pages(
                        layout.text_start as int,
                        layout.text_end as int,
                        va2,
                    ) implies #[trigger] page::perm_of(root, va2) == Some(rx) by {
                    assert(perm_mapped(
                        root,
                        page_base(layout.text_start as int),
                        frame::spec_align_up(layout.text_end as int, 4096),
                        rx,
                    ));
                }
            }
            assert forall|va2: usize|
                va2 < va_limit() && !(exists|j: int|
                    0 <= j < i + 1 && in_pages(
                        (#[trigger] regs0[j]).0 as int,
                        regs0[j].1 as int,
                        va2,
                    )) implies #[trigger] page::translate(root, va2) is None by {
                assert(!in_pages(regs0[i as int].0 as int, regs0[i as int].1 as int, va2));
                assert(!(exists|j: int|
                    0 <= j < i && in_pages(
                        (#[trigger] regs0[j]).0 as int,
                        regs0[j].1 as int,
                        va2,
                    )));
                assert(page::translate(rootpre, va2) is None);
                assert(page::translate(root, va2) == page::translate(rootpre, va2));
            }
        }
        i = i + 1;
    }

    // Dedicated trap-handling stack: one fresh frame, identity-mapped.
    let ghost fa_pre_ts = fa;
    let ts_alloc = fa.allocate(1);
    let ts_base = match ts_alloc {
        Ok(a) => a,
        Err(e) => {
            proof {
                if need_ok {
                    lemma_pages_sum_mono(regs0, 0, 11);
                    crate::frame::lemma_count_free_all_taken(fa_pre_ts.descs@);
                }
            }
            return Err(e);
        },
    };
    let ghost s_ts = choose|s: int|
        {
            &&& #[trigger] frame::is_free_run(fa_pre_ts.descs@, s, 1)
            &&& forall|t2: int| 0 <= t2 < s ==> !frame::is_free_run(fa_pre_ts.descs@, t2, 1)
            &&& ts_base == fa.alloc_start + s * 4096
            &&& fa.descs@ == frame::spec_mark(fa_pre_ts.descs@, s, 1)
            &&& forall|k: int, j: int|
                s <= k < s + 1 && 0 <= j < 512 ==> (#[trigger] fa.frames@[k].words@[j]) == 0
        };
    proof {
        frame::lemma_fresh_single(fa_pre_ts, fa, ts_base, s_ts);
        assert(fa.single_alloc(ts_base as int));
    }
    let ts_top = ts_base + frame::PAGE_SIZE;
    let ghost rootpre2 = root;
    proof {
        assert(in_pages(pool_lo as int, pool_hi as int, ts_base)) by {
            assert(ts_base == fa.alloc_start + s_ts * 4096);
            assert(s_ts * 4096 >= 0) by (nonlinear_arith)
                requires
                    s_ts >= 0,
            ;
            assert((s_ts + 1) * 4096 <= n_frames * 4096) by (nonlinear_arith)
                requires
                    s_ts + 1 <= n_frames,
            ;
            vstd::arithmetic::div_mod::lemma_fundamental_div_mod(ts_base as int, 4096);
            assert(4096int * (ts_base as int / 4096) == (ts_base as int / 4096) * 4096)
                by (nonlinear_arith);
            assert(page_base(ts_base as int) == ts_base) by (nonlinear_arith)
                requires
                    ts_base as int % 4096 == 0,
                    ts_base == 4096 * (ts_base as int / 4096) + ts_base as int % 4096,
                    page_base(ts_base as int) == (ts_base as int / 4096) * 4096,
                    4096int * (ts_base as int / 4096) == (ts_base as int / 4096) * 4096,
            ;
            assert(page_base(pool_lo as int) == pool_lo) by {
                vstd::arithmetic::div_mod::lemma_fundamental_div_mod(pool_lo as int, 4096);
                assert(4096int * (pool_lo as int / 4096) == (pool_lo as int / 4096) * 4096)
                    by (nonlinear_arith);
            }
            frame::lemma_align_up_properties(pool_hi as int, 4096);
        }
    }
    let res = id_map_range(&mut root, ts_base, ts_top, rw, &mut fa);
    if let Err(_) = res {
        proof {
            if need_ok {
                assert(false);
            }
        }
        return Err(KernelError::AllocationExhausted);
    }

    // The trap frame record gets a frame of its own, identity-mapped.
    let ghost fa_pre_tf = fa;
    let tf_alloc = fa.allocate(1);
    let tf_addr = match tf_alloc {
        Ok(a) => a,
        Err(e) => {
            proof {
                if need_ok {
                    crate::frame::lemma_count_free_all_taken(fa_pre_tf.descs@);
                }
            }
            return Err(e);
        },
    };
    let ghost s_tf = choose|s: int|
        {
            &&& #[trigger] frame::is_free_run(fa_pre_tf.descs@, s, 1)
            &&& tf_addr == fa.alloc_start + s * 4096
            &&& fa.descs@ == frame::spec_mark(fa_pre_tf.descs@, s, 1)
        };
    proof {
        frame::lemma_fresh_single(fa_pre_tf, fa, tf_addr, s_tf);
        assert(fa.single_alloc(tf_addr as int));
        assert(in_pages(pool_lo as int, pool_hi as int, tf_addr)) by {
            assert(s_tf * 4096 >= 0) by (nonlinear_arith)
                requires
                    s_tf >= 0,
            ;
            assert((s_tf + 1) * 4096 <= n_frames * 4096) by (nonlinear_arith)
                requires
                    s_tf + 1 <= n_frames,
            ;
            vstd::arithmetic::div_mod::lemma_fundamental_div_mod(tf_addr as int, 4096);
            assert(4096int * (tf_addr as int / 4096) == (tf_addr as int / 4096) * 4096)
                by (nonlinear_arith);
            assert(page_base(pool_lo as int) == pool_lo) by {
                vstd::arithmetic::div_mod::lemma_fundamental_div_mod(pool_lo as int, 4096);
                assert(4096int * (pool_lo as int / 4096) == (pool_lo as int / 4096) * 4096)
                    by (nonlinear_arith);
            }
            frame::lemma_align_up_properties(pool_hi as int, 4096);
        }
    }
    let ghost rootpre3 = root;
    let res = id_map_range(&mut root, tf_addr, tf_addr + frame::PAGE_SIZE, rw, &mut fa);
    if let Err(_) = res {
        proof {
            if need_ok {
                assert(false);
            }
        }
        return Err(KernelError::AllocationExhausted);
    }

    let satp_value = build_satp(SatpMode::Sv39, 0, root_addr);
    let mut trap_frame = TrapFrame::new();
    trap_frame.satp = satp_value;
    trap_frame.trap_stack = ts_top;
    let k = Kernel { fa, root, trap_frame, trap_frame_addr: tf_addr, satp: satp_value };
    proof {
        lemma_finish_maps(
            *layout,
            regs0,
            rootpre2,
            rootpre3,
            k.root,
            ts_base,
            ts_top,
            tf_addr,
            rw,
            rx,
        );
        // The trap stack's frame stayed zero-filled and singly allocated.
        assert(k.fa.single_alloc(ts_base as int));
        assert(0 <= s_ts < k.fa.descs@.len());
        assert(k.fa.addr_of(s_ts) == ts_base);
        assert forall|j: int| 0 <= j < 512 implies (#[trigger] k.fa.frames@[s_ts].words@[j])
            == 0 by {
            assert(fa_pre_tf.descs@[s_ts].taken);
            assert(fa_pre_tf.frames@[s_ts].words@[j] == 0);
        }
    }
    Ok(k)
}

/// Memory self-test: two first-fit 100-frame allocations, exactly as the
/// allocator's contract fixes them — each at the lowest-addressed free run
/// of the incoming state, marked, zero-filled, and everything else
/// untouched.
pub fn test_mem(fa: &mut frame::FrameAllocator) -> (r: Result<(usize, usize), KernelError>)
    requires
        old(fa).wf(),
    ensures
        final(fa).wf(),
        final(fa).heap_base == old(fa).heap_base,
        final(fa).heap_len == old(fa).heap_len,
        final(fa).alloc_start == old(fa).alloc_start,
        final(fa).descs@.len() == old(fa).descs@.len(),
        final(fa).frames@.len() == old(fa).frames@.len(),
        match r {
            Ok(pair) => {
                &&& pair.0 % 4096 == 0
                &&& pair.1 % 4096 == 0
                &&& (pair.0 + 100 * 4096 <= pair.1 || pair.1 + 100 * 4096 <= pair.0)
                &&& frame::count_free(final(fa).descs@) + 200 == frame::count_free(
                    old(fa).descs@,
                )
                &&& exists|s1: int, s2: int|
                    {
                        &&& #[trigger] frame::is_free_run(old(fa).descs@, s1, 100)
                        &&& forall|t2: int|
                            0 <= t2 < s1 ==> !frame::is_free_run(old(fa).descs@, t2, 100)
                        &&& pair.0 == old(fa).alloc_start + s1 * 4096
                        &&& #[trigger] frame::is_free_run(
                            frame::spec_mark(old(fa).descs@, s1, 100),
                            s2,
                            100,
                        )
                        &&& forall|t2: int|
                            0 <= t2 < s2 ==> !frame::is_free_run(
                                frame::spec_mark(old(fa).descs@, s1, 100),
                                t2,
                                100,
                            )
                        &&& pair.1 == old(fa).alloc_start + s2 * 4096
                        &&& final(fa).descs@ == frame::spec_mark(
                            frame::spec_mark(old(fa).descs@, s1, 100),
                            s2,
                            100,
                        )
                        &&& forall|k: int, j: int|
                            (s1 <= k < s1 + 100 || s2 <= k < s2 + 100) && 0 <= j < 512 ==> (
                            #[trigger] final(fa).frames@[k].words@[j]) == 0
                        &&& forall|k: int|
                            0 <= k < final(fa).frames@.len() && !(s1 <= k < s1 + 100) && !(s2
                                <= k < s2 + 100) ==> final(fa).frames@[k] == old(fa).frames@[k]
                    }
            },
            Err(e) => {
                &&& e == KernelError::AllocationExhausted
                &&& ((!(exists|s: int| frame::is_free_run(old(fa).descs@, s, 100)) && *final(fa)
                    == *old(fa)) || exists|s1: int|
                    {
                        &&& #[trigger] frame::is_free_run(old(fa).descs@, s1, 100)
                        &&& forall|t2: int|
                            0 <= t2 < s1 ==> !frame::is_free_run(old(fa).descs@, t2, 100)
                        &&& final(fa).descs@ == frame::spec_mark(old(fa).descs@, s1, 100)
                        &&& !(exists|s: int|
                            frame::is_free_run(
                                frame::spec_mark(old(fa).descs@, s1, 100),
                                s,
                                100,
                            ))
                        &&& forall|k: int|
                            0 <= k < final(fa).frames@.len() && !(s1 <= k < s1 + 100)
                                ==> final(fa).frames@[k] == old(fa).frames@[k]
                    })
            },
        },
        r is Ok <==> (exists|s1: int|
            {
                &&& #[trigger] frame::is_free_run(old(fa).descs@, s1, 100)
                &&& forall|t2: int| 0 <= t2 < s1 ==> !frame::is_free_run(old(fa).descs@, t2, 100)
                &&& exists|s2: int|
                    frame::is_free_run(frame::spec_mark(old(fa).descs@, s1, 100), s2, 100)
            }),
{
    let ghost d0 = fa.descs@;
    let ra = fa.allocate(100);
    let a = match ra {
        Ok(a) => a,
        Err(e) => {
            return Err(e);
        },
    };
    let ghost d1 = fa.descs@;
    let ghost frames1 = fa.frames@;
    let rb = fa.allocate(100);
    let b = match rb {
        Ok(b) => b,
        Err(e) => {
            proof {
                let s1 = choose|s: int|
                    {
                        &&& #[trigger] frame::is_free_run(d0, s, 100)
                        &&& forall|t2: int| 0 <= t2 < s ==> !frame::is_free_run(d0, t2, 100)
                        &&& a == fa.alloc_start + s * 4096
                        &&& d1 == frame::spec_mark(d0, s, 100)
                    };
                assert(frame::is_free_run(d0, s1, 100));
            }
            return Err(e);
        },
    };
    proof {
        let s1 = choose|s: int|
            {
                &&& #[trigger] frame::is_free_run(d0, s, 100)
                &&& forall|t2: int| 0 <= t2 < s ==> !frame::is_free_run(d0, t2, 100)
                &&& a == fa.alloc_start + s * 4096
                &&& d1 == frame::spec_mark(d0, s, 100)
                &&& forall|k: int, j: int|
                    s <= k < s + 100 && 0 <= j < 512 ==> (#[trigger] frames1[k].words@[j]) == 0
                &&& forall|k: int|
                    0 <= k < frames1.len() && !(s <= k < s + 100) ==> frames1[k]
                        == old(fa).frames@[k]
            };
        let s2 = choose|s: int|
            {
                &&& #[trigger] frame::is_free_run(d1, s, 100)
                &&& forall|t2: int| 0 <= t2 < s ==> !frame::is_free_run(d1, t2, 100)
                &&& b == fa.alloc_start + s * 4096
                &&& fa.descs@ == frame::spec_mark(d1, s, 100)
                &&& forall|k: int, j: int|
                    s <= k < s + 100 && 0 <= j < 512 ==> (#[trigger] fa.frames@[k].words@[j]) == 0
                &&& forall|k: int|
                    0 <= k < fa.frames@.len() && !(s <= k < s + 100) ==> fa.frames@[k]
                        == frames1[k]
            };
        frame::lemma_alloc_disjoint(d0, 100, s1, s2);
        assert forall|k: int, j: int|
            (s1 <= k < s1 + 100 || s2 <= k < s2 + 100) && 0 <= j < 512 implies (
        #[trigger] fa.frames@[k].words@[j]) == 0 by {
            if s1 <= k < s1 + 100 {
                assert(frames1[k].words@[j] == 0);
                assert(fa.frames@[k] == frames1[k]);
            }
        }
    }
    Ok((a, b))
}

} // verus!


