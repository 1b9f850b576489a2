use myos::frame::{FrameAllocator, align_val, PAGE_SIZE};
use myos::KernelError;

const HEAP_BASE: usize = 0x8000_0000;

fn sixteen_frame_allocator() -> FrameAllocator {
    // A 16-frame heap window: descriptor bytes round up to one page, so 15
    // frames are managed starting one page into the window.
    FrameAllocator::init(HEAP_BASE, 16 * PAGE_SIZE).unwrap()
}

#[test]
fn align_val_exact_values() {
    assert_eq!(align_val(0, 12), 0);
    assert_eq!(align_val(1, 12), 4096);
    assert_eq!(align_val(4095, 12), 4096);
    assert_eq!(align_val(4096, 12), 4096);
    assert_eq!(align_val(4097, 12), 8192);
    assert_eq!(align_val(100, 0), 100);
    assert_eq!(align_val(100, 4), 112);
}

#[test]
fn align_val_idempotent_and_least() {
    for x in [0usize, 1, 5, 4095, 4096, 5000, 123456] {
        let a = align_val(x, 12);
        assert!(a >= x);
        assert_eq!(a % 4096, 0);
        assert_eq!(align_val(a, 12), a);
        assert!(a < x + 4096);
    }
}

#[test]
fn init_layout_is_page_aligned() {
    let fa = sixteen_frame_allocator();
    assert_eq!(fa.alloc_start, HEAP_BASE + PAGE_SIZE);
    assert_eq!(fa.descs.len(), 15);
    assert_eq!(fa.frames.len(), 15);
}

#[test]
fn init_rejects_heap_with_no_room_for_a_frame() {
    match FrameAllocator::init(HEAP_BASE, PAGE_SIZE) {
        Err(KernelError::HeapTooSmall) => {},
        other => panic!("expected HeapTooSmall, got {:?}", other.is_ok()),
    }
}

#[test]
fn successive_allocations_are_disjoint_aligned_and_zeroed() {
    let mut fa = sixteen_frame_allocator();
    let a = fa.allocate(3).unwrap();
    let b = fa.allocate(3).unwrap();
    assert_eq!(a % 4096, 0);
    assert_eq!(b % 4096, 0);
    assert!(a + 3 * PAGE_SIZE <= b || b + 3 * PAGE_SIZE <= a);
    for base in [a, b] {
        let first = (base - fa.alloc_start) / PAGE_SIZE;
        for k in 0..3 {
            let frame = &fa.frames[first + k];
            assert_eq!(frame.words.len(), 512);
            assert!(frame.words.iter().all(|w| *w == 0));
        }
    }
}

#[test]
fn sixteen_frame_scenario_reuses_the_freed_address() {
    let mut fa = sixteen_frame_allocator();
    let a = fa.allocate(1).unwrap();
    let b = fa.allocate(1).unwrap();
    assert_ne!(a, b);
    assert_eq!(a % 4096, 0);
    assert_eq!(b % 4096, 0);
    assert_eq!(b - a, PAGE_SIZE);
    fa.dealloc(a).unwrap();
    let c = fa.allocate(1).unwrap();
    assert_eq!(c, a);
}

#[test]
fn multi_frame_runs_are_reused_lowest_first() {
    let mut fa = sixteen_frame_allocator();
    let a = fa.allocate(2).unwrap();
    let _b = fa.allocate(2).unwrap();
    fa.dealloc(a).unwrap();
    let c = fa.allocate(2).unwrap();
    assert_eq!(c, a);
}

#[test]
fn allocation_is_exhausted_when_no_run_fits() {
    let mut fa = sixteen_frame_allocator();
    // 15 frames are managed; a 16-frame run cannot exist.
    assert_eq!(fa.allocate(16), Err(KernelError::AllocationExhausted));
    // Fragmentation: take everything, free a single middle frame, and ask
    // for two.
    let base = fa.allocate(15).unwrap();
    fa.dealloc(base).unwrap();
    let x = fa.allocate(1).unwrap();
    let y = fa.allocate(1).unwrap();
    let _z = fa.allocate(13).unwrap();
    fa.dealloc(x).unwrap();
    fa.dealloc(y).unwrap();
    let w = fa.allocate(2).unwrap();
    assert_eq!(w, x.min(y));
}

#[test]
fn dealloc_rejects_bad_addresses() {
    let mut fa = sixteen_frame_allocator();
    let a = fa.allocate(2).unwrap();
    // Misaligned.
    assert_eq!(fa.dealloc(a + 1), Err(KernelError::InvalidDeallocation));
    // Below the managed region.
    assert_eq!(fa.dealloc(HEAP_BASE), Err(KernelError::InvalidDeallocation));
    // Beyond the managed region.
    assert_eq!(
        fa.dealloc(fa.alloc_start + 64 * PAGE_SIZE),
        Err(KernelError::InvalidDeallocation)
    );
    // Middle of a live run is not the start of an allocation.
    assert_eq!(fa.dealloc(a + PAGE_SIZE), Err(KernelError::InvalidDeallocation));
    // A frame that is free.
    fa.dealloc(a).unwrap();
    assert_eq!(fa.dealloc(a), Err(KernelError::InvalidDeallocation));
}

#[test]
fn test_mem() {
    // A window large enough for the two 100-frame demo allocations.
    let mut fa = FrameAllocator::init(HEAP_BASE, 256 * PAGE_SIZE).unwrap();
    let (a, b) = myos::test_mem(&mut fa).unwrap();
    // First-fit: on a fresh allocator the two runs are the lowest ones.
    assert_eq!(a, fa.alloc_start);
    assert_eq!(b, fa.alloc_start + 100 * PAGE_SIZE);
    // And it fails exactly when no 100-frame run exists.
    let mut small = FrameAllocator::init(HEAP_BASE, 64 * PAGE_SIZE).unwrap();
    assert_eq!(myos::test_mem(&mut small), Err(KernelError::AllocationExhausted));
}

#[test]
fn allocation_zero_fills_recycled_frames() {
    let mut fa = sixteen_frame_allocator();
    let a = fa.allocate(1).unwrap();
    let idx = (a - fa.alloc_start) / PAGE_SIZE;
    fa.frames[idx].words[7] = 0xdead_beef;
    fa.dealloc(a).unwrap();
    let b = fa.allocate(1).unwrap();
    assert_eq!(b, a);
    assert!(fa.frames[idx].words.iter().all(|w| *w == 0));
}

#[test]
fn describe_partitions_the_region_into_alternating_runs() {
    let mut fa = sixteen_frame_allocator();
    let whole = fa.describe();
    assert_eq!(whole.len(), 1);
    assert_eq!(whole[0].start, fa.alloc_start);
    assert_eq!(whole[0].end, fa.alloc_start + 15 * PAGE_SIZE);
    assert!(!whole[0].taken);

    let a = fa.allocate(2).unwrap();
    let b = fa.allocate(1).unwrap();
    fa.dealloc(a).unwrap();
    // Layout now: two free frames, one taken, the rest free.
    let v = fa.describe();
    assert_eq!(v.len(), 3);
    assert_eq!(v[0].start, fa.alloc_start);
    assert_eq!(v[0].end, b);
    assert!(!v[0].taken);
    assert_eq!(v[1].start, b);
    assert_eq!(v[1].end, b + PAGE_SIZE);
    assert!(v[1].taken);
    assert_eq!(v[2].start, b + PAGE_SIZE);
    assert_eq!(v[2].end, fa.alloc_start + 15 * PAGE_SIZE);
    assert!(!v[2].taken);
}
