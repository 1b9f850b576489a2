//! The physical frame allocator: fixed 4096-byte frames described by a flat
//! descriptor table, allocated first-fit and zero-filled.

use vstd::prelude::*;
use vstd::arithmetic::power2::{pow2, lemma_pow2_strictly_increases, lemma_pow2_pos};
use vstd::arithmetic::div_mod::{lemma_fundamental_div_mod, lemma_mod_self_0, lemma_div_is_ordered};
use crate::KernelError;

verus! {

/// Size of one frame (and one page) in bytes.
pub const PAGE_SIZE: usize = 4096;

/// The smallest multiple of `size` that is not less than `val`.
pub open spec fn spec_align_up(val: int, size: int) -> int {
    ((val + size - 1) / size) * size
}

/// Rounds `val` up to the next multiple of `2^order`.
pub fn align_val(val: usize, order: usize) -> (r: usize)
    requires
        pow2(order as nat) <= usize::MAX,
        val + pow2(order as nat) <= usize::MAX as int + 1,
    ensures
        r == spec_align_up(val as int, pow2(order as nat) as int),
        val <= r,
        r < val + pow2(order as nat),
        (r as int) % (pow2(order as nat) as int) == 0,
{
    proof {
        vstd::arithmetic::power2::lemma2_to64();
    }
    let mut sp: usize = 1;
    let mut i: usize = 0;
    while i < order
        invariant
            i <= order,
            sp == pow2(i as nat),
            pow2(order as nat) <= usize::MAX,
            val + pow2(order as nat) <= usize::MAX as int + 1,
        decreases order - i,
    {
        proof {
            lemma_pow2_pos(order as nat);
            if i + 1 < order {
                lemma_pow2_strictly_increases((i + 1) as nat, order as nat);
            }
            assert(pow2((i + 1) as nat) == 2 * pow2(i as nat)) by {
                vstd::arithmetic::power2::lemma_pow2_unfold((i + 1) as nat);
            }
        }
        sp = sp * 2;
        i = i + 1;
    }
    proof {
        lemma_pow2_pos(order as nat);
    }
    let q = (val + (sp - 1)) / sp;
    proof {
        lemma_fundamental_div_mod((val + (sp - 1)) as int, sp as int);
        assert((sp as int) * (q as int) == (q as int) * (sp as int)) by (nonlinear_arith);
        assert(q * sp + ((val + (sp - 1)) as int) % (sp as int) == val + sp - 1);
        assert(((val + (sp - 1)) as int) % (sp as int) >= 0);
        assert(q * sp <= val + sp - 1);
    }
    let r = q * sp;
    proof {
        lemma_align_up_properties(val as int, sp as int);
    }
    r
}

/// `spec_align_up(val, size)` is the smallest multiple of `size` that is at
/// least `val`, and rounding up is idempotent.
pub proof fn lemma_align_up_properties(val: int, size: int)
    requires
        size >= 1,
        val >= 0,
    ensures
        spec_align_up(val, size) % size == 0,
        val <= spec_align_up(val, size) < val + size,
        spec_align_up(spec_align_up(val, size), size) == spec_align_up(val, size),
        forall|m: int| m >= val && #[trigger] (m % size) == 0 ==> m >= spec_align_up(val, size),
{
    let a = val + size - 1;
    lemma_fundamental_div_mod(a, size);
    let q = a / size;
    let rem = a % size;
    assert(size * q == q * size) by (nonlinear_arith);
    assert(spec_align_up(val, size) == q * size);
    assert((q * size) % size == 0) by {
        lemma_mod_self_0(size);
        vstd::arithmetic::div_mod::lemma_mod_multiples_basic(q, size);
    }
    assert(q * size == a - rem);
    assert(0 <= rem < size);
    assert(val <= q * size < val + size);
    assert(spec_align_up(q * size, size) == q * size) by {
        lemma_fundamental_div_mod(q * size + size - 1, size);
        vstd::arithmetic::div_mod::lemma_div_multiples_vanish(q, size);
        assert((q * size + size - 1) / size == q + (size - 1) / size) by {
            vstd::arithmetic::div_mod::lemma_hoist_over_denominator(size - 1, q, size as nat);
        }
        assert((size - 1) / size == 0) by {
            vstd::arithmetic::div_mod::lemma_basic_div(size - 1, size);
        }
    }
    assert forall|m: int| m >= val && #[trigger] (m % size) == 0 implies m >= spec_align_up(val, size) by {
        lemma_fundamental_div_mod(m, size);
        let k = m / size;
        assert(m == k * size);
        if m < q * size {
            assert(k * size < q * size);
            assert(k < q) by (nonlinear_arith)
                requires k * size < q * size, size >= 1;
            assert(k * size <= (q - 1) * size) by (nonlinear_arith)
                requires k <= q - 1, size >= 1;
            assert((q - 1) * size == q * size - size) by (nonlinear_arith);
            assert(m <= q * size - size);
            assert(q * size <= a);
            assert(m <= a - size);
            assert(a - size == val - 1);
            assert(m < val);
        }
    }
}

/// Per-frame bookkeeping record. `last` marks the final frame of an
/// allocation run and is only ever set on a taken frame.
#[derive(Clone, Copy, Debug, PartialEq, Eq, Structural)]
pub struct Descriptor {
    pub taken: bool,
    pub last: bool,
}

/// The modelled contents of one 4096-byte frame, as 512 machine words.
pub struct Frame {
    pub words: Vec<usize>,
}

/// First-fit physical frame allocator over a heap window. A prefix of the
/// window is reserved for the descriptor table (one byte per candidate
/// frame); the managed frames start at the next page boundary.
pub struct FrameAllocator {
    pub heap_base: usize,
    pub heap_len: usize,
    pub alloc_start: usize,
    pub descs: Vec<Descriptor>,
    pub frames: Vec<Frame>,
}

/// Number of descriptor bytes reserved at the start of the heap window.
pub open spec fn spec_candidate_frames(heap_len: usize) -> int {
    heap_len as int / 4096
}

/// Base address of the first managed frame.
pub open spec fn spec_alloc_start(heap_base: usize, heap_len: usize) -> int {
    spec_align_up(heap_base + spec_candidate_frames(heap_len), 4096)
}

/// Number of whole frames between the descriptor table and the window's end.
pub open spec fn spec_num_frames(heap_base: usize, heap_len: usize) -> int {
    let a0 = spec_alloc_start(heap_base, heap_len);
    if heap_base + heap_len >= a0 + 4096 {
        (heap_base + heap_len - a0) / 4096
    } else {
        0
    }
}

/// `n` consecutive free descriptors starting at `s`.
pub open spec fn is_free_run(d: Seq<Descriptor>, s: int, n: int) -> bool {
    &&& 0 <= s
    &&& s + n <= d.len()
    &&& forall|j: int| s <= j < s + n ==> !(#[trigger] d[j]).taken
}

/// The descriptor table after marking the run `[s, s+n)` allocated.
pub open spec fn spec_mark(d: Seq<Descriptor>, s: int, n: int) -> Seq<Descriptor> {
    Seq::new(
        d.len(),
        |i: int|
            if s <= i < s + n {
                Descriptor { taken: true, last: i == s + n - 1 }
            } else {
                d[i]
            },
    )
}

/// Index of the first descriptor at or after `i` with `last` set.
pub open spec fn run_end(d: Seq<Descriptor>, i: int) -> int
    decreases d.len() - i,
{
    if i < 0 || i >= d.len() {
        i
    } else if d[i].last {
        i
    } else {
        run_end(d, i + 1)
    }
}

/// The descriptor table after clearing the run that starts at `i`.
pub open spec fn spec_clear(d: Seq<Descriptor>, i: int) -> Seq<Descriptor> {
    Seq::new(
        d.len(),
        |k: int|
            if i <= k <= run_end(d, i) {
                Descriptor { taken: false, last: false }
            } else {
                d[k]
            },
    )
}

/// Number of free descriptors.
pub open spec fn count_free(d: Seq<Descriptor>) -> nat
    decreases d.len(),
{
    if d.len() == 0 {
        0
    } else {
        count_free(d.drop_last()) + if d.last().taken {
            0nat
        } else {
            1nat
        }
    }
}

/// Structural soundness of the descriptor table: `last` only on taken
/// frames, and every taken run reaches a `last` marker before the table
/// ends.
pub open spec fn descs_wf(d: Seq<Descriptor>) -> bool {
    &&& forall|i: int| 0 <= i < d.len() && (#[trigger] d[i]).last ==> d[i].taken
    &&& forall|i: int|
        0 <= i < d.len() && (#[trigger] d[i]).taken && !d[i].last ==> i + 1 < d.len()
            && d[i + 1].taken
}

impl FrameAllocator {
    /// Number of managed frames.
    pub open spec fn num_frames(self) -> int {
        self.descs@.len() as int
    }

    /// Physical base address of frame `i`.
    pub open spec fn addr_of(self, i: int) -> int {
        self.alloc_start + i * 4096
    }

    /// Frame index of a (frame-aligned) address in the managed region.
    pub open spec fn index_of(self, addr: int) -> int {
        (addr - self.alloc_start) / 4096
    }

    /// Geometry of the managed region and shape of the bookkeeping vectors.
    pub open spec fn region_wf(self) -> bool {
        &&& self.alloc_start == spec_alloc_start(self.heap_base, self.heap_len)
        &&& self.descs@.len() == spec_num_frames(self.heap_base, self.heap_len)
        &&& self.descs@.len() >= 1
        &&& self.alloc_start % 4096 == 0
        &&& self.heap_base + self.heap_len <= usize::MAX - 2 * 4096
        &&& self.alloc_start + self.descs@.len() * 4096 <= self.heap_base + self.heap_len
        &&& self.frames@.len() == self.descs@.len()
        &&& forall|i: int|
            0 <= i < self.frames@.len() ==> (#[trigger] self.frames@[i]).words@.len() == 512
    }

    /// Full allocator invariant.
    pub open spec fn wf(self) -> bool {
        &&& self.region_wf()
        &&& descs_wf(self.descs@)
    }

    /// The frame at address `a` is a live single-frame allocation: taken,
    /// its own `last` marker, and the start of its run.
    pub open spec fn single_alloc(self, a: int) -> bool {
        let i = (a - self.alloc_start) / 4096;
        &&& self.alloc_start <= a
        &&& (a - self.alloc_start) % 4096 == 0
        &&& i < self.descs@.len()
        &&& self.descs@[i].taken
        &&& self.descs@[i].last
        &&& (i == 0 || !self.descs@[i - 1].taken || self.descs@[i - 1].last)
    }

    /// A `dealloc(addr)` call is valid when `addr` is the frame-aligned
    /// start of a live allocation run.
    pub open spec fn valid_dealloc(self, addr: usize) -> bool {
        let i = self.index_of(addr as int);
        &&& self.alloc_start <= addr
        &&& (addr - self.alloc_start) % 4096 == 0
        &&& i < self.num_frames()
        &&& self.descs@[i].taken
        &&& (i == 0 || !self.descs@[i - 1].taken || self.descs@[i - 1].last)
    }
}

/// A 4096-byte frame filled with zero words.
fn zeroed_frame() -> (f: Frame)
    ensures
        f.words@.len() == 512,
        forall|j: int| 0 <= j < 512 ==> f.words@[j] == 0,
{
    let mut w: Vec<usize> = Vec::new();
    let mut j: usize = 0;
    while j < 512
        invariant
            j <= 512,
            w@.len() == j,
            forall|k: int| 0 <= k < j ==> w@[k] == 0,
        decreases 512 - j,
    {
        w.push(0);
        j = j + 1;
    }
    Frame { words: w }
}

/// A table where every descriptor is free has as many free frames as
/// entries.
proof fn lemma_count_free_all_free(d: Seq<Descriptor>)
    requires
        forall|i: int| 0 <= i < d.len() ==> !(#[trigger] d[i]).taken,
    ensures
        count_free(d) == d.len(),
    decreases d.len(),
{
    if d.len() > 0 {
        lemma_count_free_all_free(d.drop_last());
    }
}

/// Replacing one descriptor changes the free count by the difference of the
/// two entries' free bits.
proof fn lemma_count_free_update(d: Seq<Descriptor>, i: int, x: Descriptor)
    requires
        0 <= i < d.len(),
    ensures
        count_free(d.update(i, x)) == count_free(d) - (if !d[i].taken {
            1int
        } else {
            0int
        }) + (if !x.taken {
            1int
        } else {
            0int
        }),
    decreases d.len(),
{
    let du = d.update(i, x);
    if i == d.len() - 1 {
        assert(du.drop_last() =~= d.drop_last());
    } else {
        assert(du.drop_last() =~= d.drop_last().update(i, x));
        lemma_count_free_update(d.drop_last(), i, x);
    }
}

impl FrameAllocator {
    /// Sets up the allocator over the heap window `[heap_base,
    /// heap_base + heap_len)`: reserves descriptor space, then manages every
    /// whole frame that fits in the rest, all initially free and zeroed.
    pub fn init(heap_base: usize, heap_len: usize) -> (r: Result<FrameAllocator, KernelError>)
        requires
            heap_base + heap_len <= usize::MAX - 2 * 4096,
        ensures
            match r {
                Ok(fa) => {
                    &&& fa.wf()
                    &&& fa.heap_base == heap_base
                    &&& fa.heap_len == heap_len
                    &&& fa.num_frames() == spec_num_frames(heap_base, heap_len)
                    &&& spec_num_frames(heap_base, heap_len) >= 1
                    &&& forall|i: int|
                        0 <= i < fa.num_frames() ==> fa.descs@[i] == (Descriptor {
                            taken: false,
                            last: false,
                        })
                    &&& forall|i: int, j: int|
                        0 <= i < fa.num_frames() && 0 <= j < 512 ==> (
                        #[trigger] fa.frames@[i].words@[j]) == 0
                    &&& count_free(fa.descs@) == fa.num_frames()
                },
                Err(e) => {
                    &&& e == KernelError::HeapTooSmall
                    &&& spec_num_frames(heap_base, heap_len) == 0
                },
            },
    {
        proof {
            vstd::arithmetic::power2::lemma2_to64();
        }
        let nc = heap_len / PAGE_SIZE;
        let a0 = align_val(heap_base + nc, 12);
        let hend = heap_base + heap_len;
        if a0 >= hend || hend - a0 < PAGE_SIZE {
            return Err(KernelError::HeapTooSmall);
        }
        let n = (hend - a0) / PAGE_SIZE;
        proof {
            assert(n >= 1) by {
                lemma_div_is_ordered(4096, hend - a0, 4096);
                assert(4096int / 4096 == 1);
            }
            lemma_fundamental_div_mod((hend - a0) as int, 4096);
        }
        let mut descs: Vec<Descriptor> = Vec::new();
        let mut i: usize = 0;
        while i < n
            invariant
                i <= n,
                descs@.len() == i,
                forall|k: int|
                    0 <= k < i ==> descs@[k] == (Descriptor { taken: false, last: false }),
            decreases n - i,
        {
            descs.push(Descriptor { taken: false, last: false });
            i = i + 1;
        }
        let mut frames: Vec<Frame> = Vec::new();
        let mut i: usize = 0;
        while i < n
            invariant
                i <= n,
                frames@.len() == i,
                forall|k: int| 0 <= k < i ==> (#[trigger] frames@[k]).words@.len() == 512,
                forall|k: int, j: int|
                    0 <= k < i && 0 <= j < 512 ==> (#[trigger] frames@[k].words@[j]) == 0,
            decreases n - i,
        {
            frames.push(zeroed_frame());
            i = i + 1;
        }
        let fa = FrameAllocator { heap_base, heap_len, alloc_start: a0, descs, frames };
        proof {
            lemma_count_free_all_free(fa.descs@);
            assert(fa.alloc_start + fa.descs@.len() * 4096 <= hend) by {
                lemma_fundamental_div_mod((hend - a0) as int, 4096);
                assert(4096 * ((hend - a0) as int / 4096) == ((hend - a0) as int / 4096) * 4096)
                    by (nonlinear_arith);
            }
        }
        Ok(fa)
    }
}

/// A table with no free descriptor has free count zero.
pub(crate) proof fn lemma_count_free_all_taken(d: Seq<Descriptor>)
    requires
        forall|i: int| 0 <= i < d.len() ==> (#[trigger] d[i]).taken,
    ensures
        count_free(d) == 0,
    decreases d.len(),
{
    if d.len() > 0 {
        lemma_count_free_all_taken(d.drop_last());
    }
}

/// Marking a free run keeps the descriptor table sound.
proof fn lemma_mark_preserves_wf(d: Seq<Descriptor>, s: int, n: int)
    requires
        descs_wf(d),
        is_free_run(d, s, n),
        n >= 1,
    ensures
        descs_wf(spec_mark(d, s, n)),
{
    let m = spec_mark(d, s, n);
    assert forall|i: int|
        0 <= i < m.len() && (#[trigger] m[i]).taken && !m[i].last implies i + 1 < m.len() && m[i
        + 1].taken by {
        if !(s <= i < s + n) {
            assert(d[i].taken && !d[i].last);
        }
    }
}

/// From a taken frame, the run extends through consecutive taken frames to
/// a `last` marker inside the table.
pub(crate) proof fn lemma_run_end_props(d: Seq<Descriptor>, i: int)
    requires
        descs_wf(d),
        0 <= i < d.len(),
        d[i].taken,
    ensures
        i <= run_end(d, i) < d.len(),
        d[run_end(d, i)].last,
        forall|j: int| i <= j <= run_end(d, i) ==> (#[trigger] d[j]).taken,
        forall|j: int| i <= j < run_end(d, i) ==> !(#[trigger] d[j]).last,
    decreases d.len() - i,
{
    if !d[i].last {
        assert(i + 1 < d.len() && d[i + 1].taken);
        lemma_run_end_props(d, i + 1);
    }
}

/// Clearing a whole run, starting from the run's first frame, keeps the
/// descriptor table sound.
proof fn lemma_clear_preserves_wf(d: Seq<Descriptor>, i: int)
    requires
        descs_wf(d),
        0 <= i < d.len(),
        d[i].taken,
        i == 0 || !d[i - 1].taken || d[i - 1].last,
    ensures
        descs_wf(spec_clear(d, i)),
{
    lemma_run_end_props(d, i);
    let e = run_end(d, i);
    let c = spec_clear(d, i);
    assert forall|k: int|
        0 <= k < c.len() && (#[trigger] c[k]).taken && !c[k].last implies k + 1 < c.len() && c[k
        + 1].taken by {
        assert(!(i <= k <= e));
        assert(d[k].taken && !d[k].last);
        assert(k + 1 < d.len() && d[k + 1].taken);
        if k + 1 == i {
            assert(false);
        }
        assert(!(i <= k + 1 <= e));
    }
}

/// In a table where `[s, s+n)` has just been marked, the run that starts at
/// any of its frames ends exactly at `s + n - 1`.
proof fn lemma_run_end_marked(d: Seq<Descriptor>, s: int, n: int, k: int)
    requires
        is_free_run(d, s, n),
        n >= 1,
        s <= k <= s + n - 1,
    ensures
        run_end(spec_mark(d, s, n), k) == s + n - 1,
    decreases s + n - 1 - k,
{
    if k < s + n - 1 {
        lemma_run_end_marked(d, s, n, k + 1);
    }
}

/// Any free run found after marking `[s1, s1+n)` is disjoint from it, both
/// as frame indices and as byte ranges.
pub proof fn lemma_alloc_disjoint(d: Seq<Descriptor>, n: int, s1: int, s2: int)
    requires
        n >= 1,
        is_free_run(d, s1, n),
        is_free_run(spec_mark(d, s1, n), s2, n),
    ensures
        s1 + n <= s2 || s2 + n <= s1,
        (s1 + n) * 4096 <= s2 * 4096 || (s2 + n) * 4096 <= s1 * 4096,
{
    let m = spec_mark(d, s1, n);
    if !(s1 + n <= s2) && !(s2 + n <= s1) {
        let j = if s1 >= s2 {
            s1
        } else {
            s2
        };
        assert(s1 <= j < s1 + n);
        assert(s2 <= j < s2 + n);
        assert(m[j].taken);
        assert(!m[j].taken);
    }
}

/// Marking a free run and then clearing it from its first frame restores
/// the descriptor table exactly, so an identical first-fit search finds the
/// same run again.
pub proof fn lemma_alloc_dealloc_restores(d: Seq<Descriptor>, s: int, n: int)
    requires
        descs_wf(d),
        n >= 1,
        is_free_run(d, s, n),
    ensures
        run_end(spec_mark(d, s, n), s) == s + n - 1,
        spec_clear(spec_mark(d, s, n), s) == d,
{
    lemma_run_end_marked(d, s, n, s);
    let m = spec_mark(d, s, n);
    let c = spec_clear(m, s);
    assert forall|k: int| 0 <= k < d.len() implies c[k] == d[k] by {
        if s <= k <= s + n - 1 {
            assert(!d[k].taken);
            assert(!d[k].last);
        }
    }
    assert(c =~= d);
}

/// A frame taken from the lowest free slot is a single-frame allocation:
/// taken, its own `last` marker, and the start of its run.
pub(crate) proof fn lemma_fresh_single(
    fa_old: FrameAllocator,
    fa_new: FrameAllocator,
    addr: usize,
    s: int,
)
    requires
        fa_new.alloc_start == fa_old.alloc_start,
        descs_wf(fa_old.descs@),
        is_free_run(fa_old.descs@, s, 1),
        forall|t: int| 0 <= t < s ==> !is_free_run(fa_old.descs@, t, 1),
        addr == fa_old.alloc_start + s * 4096,
        fa_new.descs@ == spec_mark(fa_old.descs@, s, 1),
    ensures
        fa_new.single_alloc(addr as int),
{
    let base = fa_new.alloc_start as int;
    assert((addr - base) == s * 4096);
    assert((s * 4096) % 4096 == 0) by (nonlinear_arith);
    assert((s * 4096) / 4096 == s) by (nonlinear_arith);
    assert(fa_new.descs@[s] == (Descriptor { taken: true, last: true }));
    if s > 0 {
        if !fa_old.descs@[s - 1].taken {
            assert(is_free_run(fa_old.descs@, s - 1, 1));
            assert(false);
        }
        if !fa_old.descs@[s - 1].last {
            assert(fa_old.descs@[s].taken);
            assert(false);
        }
        assert(fa_new.descs@[s - 1] == fa_old.descs@[s - 1]);
    }
}

impl FrameAllocator {
    /// First-fit allocation of `n` consecutive frames: finds the
    /// lowest-addressed free run of length `n`, marks it taken with `last`
    /// on its final frame, zero-fills the backing frames, and returns the
    /// run's base address. Fails exactly when no such run exists.
    pub fn allocate(&mut self, n: usize) -> (r: Result<usize, KernelError>)
        requires
            old(self).wf(),
            n >= 1,
        ensures
            final(self).wf(),
            final(self).heap_base == old(self).heap_base,
            final(self).heap_len == old(self).heap_len,
            final(self).alloc_start == old(self).alloc_start,
            final(self).descs@.len() == old(self).descs@.len(),
            final(self).frames@.len() == old(self).frames@.len(),
            r is Ok <==> exists|s: int| is_free_run(old(self).descs@, s, n as int),
            r is Ok ==> count_free(final(self).descs@) + n == count_free(old(self).descs@),
            forall|i: int|
                0 <= i < old(self).descs@.len() && (#[trigger] old(self).descs@[i]).taken
                    ==> final(self).descs@[i] == old(self).descs@[i],
            forall|a: int| old(self).single_alloc(a) ==> #[trigger] final(self).single_alloc(a),
            forall|i: int|
                0 <= i < old(self).descs@.len() && (#[trigger] old(self).descs@[i]).taken
                    ==> final(self).frames@[i] == old(self).frames@[i],
            match r {
                Ok(addr) => exists|s: int|
                    {
                        &&& #[trigger] is_free_run(old(self).descs@, s, n as int)
                        &&& forall|t: int|
                            0 <= t < s ==> !is_free_run(old(self).descs@, t, n as int)
                        &&& addr == final(self).alloc_start + s * 4096
                        &&& addr % 4096 == 0
                        &&& addr + n * 4096 <= final(self).heap_base + final(self).heap_len
                        &&& final(self).descs@ == spec_mark(old(self).descs@, s, n as int)
                        &&& forall|k: int, j: int|
                            s <= k < s + n && 0 <= j < 512 ==> (
                            #[trigger] final(self).frames@[k].words@[j]) == 0
                        &&& forall|k: int|
                            0 <= k < final(self).frames@.len() && !(s <= k < s + n)
                                ==> final(self).frames@[k] == old(self).frames@[k]
                    },
                Err(e) => {
                    &&& e == KernelError::AllocationExhausted
                    &&& *final(self) == *old(self)
                },
            },
    {
        let n_frames = self.descs.len();
        if n > n_frames {
            return Err(KernelError::AllocationExhausted);
        }
        let ghost d0 = self.descs@;
        proof {
            assert(n_frames <= usize::MAX as int / 4096) by (nonlinear_arith)
                requires
                    n_frames * 4096 <= usize::MAX,
                    n_frames >= 0,
            ;
        }
        let mut s: usize = 0;
        while s + n <= n_frames
            invariant
                old(self).wf(),
                *self == *old(self),
                d0 == self.descs@,
                n_frames == self.descs@.len(),
                n_frames <= usize::MAX as int / 4096,
                1 <= n <= n_frames,
                s <= n_frames,
                forall|t: int| 0 <= t < s ==> !is_free_run(d0, t, n as int),
            decreases n_frames - s,
        {
            let mut j: usize = 0;
            let mut run_free = true;
            while run_free && j < n
                invariant
                    *self == *old(self),
                    d0 == self.descs@,
                    n_frames == self.descs@.len(),
                    s + n <= n_frames,
                    j <= n,
                    run_free ==> forall|jj: int| s <= jj < s + j ==> !(#[trigger] d0[jj]).taken,
                    !run_free ==> !is_free_run(d0, s as int, n as int),
                decreases n - j,
            {
                if self.descs[s + j].taken {
                    run_free = false;
                }
                j = j + 1;
            }
            if run_free {
                assert(is_free_run(d0, s as int, n as int));
                // Mark the run taken, `last` on its final frame.
                let mut k: usize = 0;
                while k < n
                    invariant
                        old(self).wf(),
                        is_free_run(d0, s as int, n as int),
                        d0 == old(self).descs@,
                        k <= n,
                        1 <= n,
                        s + n <= n_frames,
                        n_frames == self.descs@.len(),
                        self.heap_base == old(self).heap_base,
                        self.heap_len == old(self).heap_len,
                        self.alloc_start == old(self).alloc_start,
                        self.frames@ == old(self).frames@,
                        forall|i: int|
                            0 <= i < self.descs@.len() && !(s <= i < s + k) ==> self.descs@[i]
                                == d0[i],
                        forall|i: int|
                            s <= i < s + k ==> self.descs@[i] == (Descriptor {
                                taken: true,
                                last: i == s + n - 1,
                            }),
                        count_free(self.descs@) + k == count_free(d0),
                    decreases n - k,
                {
                    let ghost dpre = self.descs@;
                    let entry = Descriptor { taken: true, last: k == n - 1 };
                    self.descs[s + k] = entry;
                    proof {
                        assert(dpre[(s + k) as int] == d0[(s + k) as int]);
                        assert(!d0[(s + k) as int].taken);
                        lemma_count_free_update(dpre, (s + k) as int, entry);
                    }
                    k = k + 1;
                }
                assert(self.descs@ =~= spec_mark(d0, s as int, n as int));
                proof {
                    lemma_mark_preserves_wf(d0, s as int, n as int);
                }
                // Zero-fill the backing frames.
                let mut k: usize = 0;
                while k < n
                    invariant
                        k <= n,
                        s + n <= n_frames,
                        n_frames == self.frames@.len(),
                        self.frames@.len() == old(self).frames@.len(),
                        self.heap_base == old(self).heap_base,
                        self.heap_len == old(self).heap_len,
                        self.alloc_start == old(self).alloc_start,
                        self.descs@ == spec_mark(d0, s as int, n as int),
                        self.descs@.len() == n_frames,
                        forall|i: int|
                            0 <= i < self.frames@.len() && !(s <= i < s + k) ==> self.frames@[i]
                                == old(self).frames@[i],
                        forall|i: int|
                            s <= i < s + k ==> (#[trigger] self.frames@[i]).words@.len() == 512,
                        forall|i: int, j: int|
                            s <= i < s + k && 0 <= j < 512 ==> (
                            #[trigger] self.frames@[i].words@[j]) == 0,
                    decreases n - k,
                {
                    self.frames[s + k] = zeroed_frame();
                    k = k + 1;
                }
                let addr = self.alloc_start + s * PAGE_SIZE;
                proof {
                    assert(s * 4096 + n * 4096 == (s + n) * 4096) by (nonlinear_arith);
                    assert((s + n) * 4096 <= n_frames * 4096) by (nonlinear_arith)
                        requires
                            s + n <= n_frames,
                    ;
                    assert((s as int * 4096) % 4096 == 0) by (nonlinear_arith);
                    assert(addr % 4096 == 0) by (nonlinear_arith)
                        requires
                            addr == self.alloc_start + s * 4096,
                            self.alloc_start % 4096 == 0,
                            (s as int * 4096) % 4096 == 0,
                            s >= 0,
                            self.alloc_start >= 0,
                    ;
                }
                return Ok(addr);
            }
            s = s + 1;
        }
        assert forall|t: int| !is_free_run(d0, t, n as int) by {
            if 0 <= t && t + n <= n_frames {
                assert(!is_free_run(d0, t, n as int));
            }
        }
        Err(KernelError::AllocationExhausted)
    }

    /// Checked deallocation: `addr` must be the frame-aligned start of a
    /// live allocation run, which is then cleared forward through its
    /// `last` marker. Anything else is reported as `InvalidDeallocation`
    /// and leaves the allocator untouched.
    pub fn dealloc(&mut self, addr: usize) -> (r: Result<(), KernelError>)
        requires
            old(self).wf(),
        ensures
            final(self).wf(),
            final(self).heap_base == old(self).heap_base,
            final(self).heap_len == old(self).heap_len,
            final(self).alloc_start == old(self).alloc_start,
            final(self).descs@.len() == old(self).descs@.len(),
            final(self).frames@ == old(self).frames@,
            r is Ok <==> old(self).valid_dealloc(addr),
            match r {
                Ok(_) => {
                    &&& final(self).descs@ == spec_clear(
                        old(self).descs@,
                        old(self).index_of(addr as int),
                    )
                    &&& count_free(final(self).descs@) == count_free(old(self).descs@) + (run_end(
                        old(self).descs@,
                        old(self).index_of(addr as int),
                    ) - old(self).index_of(addr as int) + 1)
                },
                Err(e) => {
                    &&& e == KernelError::InvalidDeallocation
                    &&& *final(self) == *old(self)
                },
            },
    {
        if addr < self.alloc_start {
            return Err(KernelError::InvalidDeallocation);
        }
        let off = addr - self.alloc_start;
        if off % PAGE_SIZE != 0 {
            return Err(KernelError::InvalidDeallocation);
        }
        let idx = off / PAGE_SIZE;
        let n_frames = self.descs.len();
        if idx >= n_frames {
            proof {
                assert(self.index_of(addr as int) >= self.num_frames());
            }
            return Err(KernelError::InvalidDeallocation);
        }
        if !self.descs[idx].taken {
            return Err(KernelError::InvalidDeallocation);
        }
        if idx > 0 {
            let p = self.descs[idx - 1];
            if p.taken && !p.last {
                return Err(KernelError::InvalidDeallocation);
            }
        }
        let ghost d0 = self.descs@;
        proof {
            lemma_run_end_props(d0, idx as int);
        }
        let ghost e = run_end(d0, idx as int);
        let mut k = idx;
        let mut done = false;
        while !done
            invariant
                old(self).wf(),
                descs_wf(d0),
                d0 == old(self).descs@,
                idx <= k < d0.len(),
                n_frames == d0.len(),
                self.descs@.len() == d0.len(),
                self.heap_base == old(self).heap_base,
                self.heap_len == old(self).heap_len,
                self.alloc_start == old(self).alloc_start,
                self.frames@ == old(self).frames@,
                idx <= e < d0.len(),
                d0[e].last,
                forall|j: int| idx <= j <= e ==> (#[trigger] d0[j]).taken,
                forall|j: int| idx <= j < e ==> !(#[trigger] d0[j]).last,
                !done ==> k <= e,
                done ==> k == e,
                forall|i: int|
                    0 <= i < d0.len() && !(idx <= i < (if done {
                        e + 1
                    } else {
                        k as int
                    })) ==> self.descs@[i] == d0[i],
                forall|i: int|
                    idx <= i < (if done {
                        e + 1
                    } else {
                        k as int
                    }) ==> self.descs@[i] == (Descriptor { taken: false, last: false }),
                count_free(self.descs@) == count_free(d0) + (if done {
                    e - idx + 1
                } else {
                    k - idx
                }),
            decreases e - k + (if done {
                0int
            } else {
                1int
            }),
        {
            let was_last = self.descs[k].last;
            let ghost dpre = self.descs@;
            self.descs[k] = Descriptor { taken: false, last: false };
            proof {
                assert(dpre[k as int] == d0[k as int]);
                assert(d0[k as int].taken);
                lemma_count_free_update(dpre, k as int, Descriptor { taken: false, last: false });
            }
            if was_last {
                proof {
                    assert(d0[k as int].last);
                    assert(k == e);
                }
                done = true;
            } else {
                proof {
                    assert(k < e);
                }
                k = k + 1;
            }
        }
        assert(self.descs@ =~= spec_clear(d0, idx as int));
        proof {
            lemma_clear_preserves_wf(d0, idx as int);
        }
        Ok(())
    }
}

/// One maximal run of equally-allocated frames, for diagnostics.
#[derive(Clone, Copy, Debug, PartialEq, Eq, Structural)]
pub struct RegionInfo {
    pub start: usize,
    pub end: usize,
    pub taken: bool,
}

impl FrameAllocator {
    /// Read-only introspection: the managed region as consecutive,
    /// alternating allocated/free address ranges, in address order and
    /// covering every frame exactly once.
    #[verifier::rlimit(100)]
    #[verifier::spinoff_prover]
    pub fn describe(&self) -> (v: Vec<RegionInfo>)
        requires
            self.wf(),
        ensures
            v@.len() >= 1,
            v@[0].start == self.alloc_start,
            v@[v@.len() - 1].end == self.alloc_start + self.descs@.len() * 4096,
            forall|j: int| 0 <= j < v@.len() ==> (#[trigger] v@[j]).start < v@[j].end,
            forall|j: int| 0 <= j < v@.len() - 1 ==> (#[trigger] v@[j]).end == v@[j + 1].start,
            forall|j: int| 0 <= j < v@.len() - 1 ==> (#[trigger] v@[j]).taken != v@[j + 1].taken,
            forall|j: int, i: int|
                0 <= j < v@.len() && 0 <= i < self.descs@.len() && (#[trigger] v@[j]).start
                    <= self.alloc_start + i * 4096 < v@[j].end ==> (
                #[trigger] self.descs@[i]).taken == v@[j].taken,
    {
        let n = self.descs.len();
        let mut v: Vec<RegionInfo> = Vec::new();
        let mut cur = self.descs[0].taken;
        let mut rs: usize = 0;
        let mut i: usize = 1;
        while i < n
            invariant
                self.wf(),
                n == self.descs@.len(),
                1 <= i <= n,
                rs < i,
                forall|k: int| rs <= k < i ==> (#[trigger] self.descs@[k]).taken == cur,
                v@.len() == 0 ==> rs == 0,
                v@.len() >= 1 ==> v@[0].start == self.alloc_start,
                v@.len() >= 1 ==> v@[v@.len() - 1].end == self.alloc_start + rs * 4096,
                v@.len() >= 1 ==> v@[v@.len() - 1].taken != cur,
                forall|j: int| 0 <= j < v@.len() ==> (#[trigger] v@[j]).start < v@[j].end,
                forall|j: int|
                    0 <= j < v@.len() - 1 ==> (#[trigger] v@[j]).end == v@[j + 1].start,
                forall|j: int|
                    0 <= j < v@.len() - 1 ==> (#[trigger] v@[j]).taken != v@[j + 1].taken,
                forall|j: int, k: int|
                    0 <= j < v@.len() && 0 <= k < self.descs@.len() && (#[trigger] v@[j]).start
                        <= self.alloc_start + k * 4096 < v@[j].end ==> (
                    #[trigger] self.descs@[k]).taken == v@[j].taken,
            decreases n - i,
        {
            let t = self.descs[i].taken;
            if t != cur {
                v.push(
                    RegionInfo {
                        start: self.alloc_start + rs * PAGE_SIZE,
                        end: self.alloc_start + i * PAGE_SIZE,
                        taken: cur,
                    },
                );
                rs = i;
                cur = t;
            }
            i = i + 1;
        }
        v.push(
            RegionInfo {
                start: self.alloc_start + rs * PAGE_SIZE,
                end: self.alloc_start + n * PAGE_SIZE,
                taken: cur,
            },
        );
        v
    }
}

} // verus!
