use myos::frame::{FrameAllocator, PAGE_SIZE};
use myos::page::{unmap, virt_to_phys, PermBits, Table};
use myos::{id_map_range, KernelError};

const HEAP_BASE: usize = 0x8000_0000;

fn setup(frames: usize) -> (FrameAllocator, Table) {
    let mut fa = FrameAllocator::init(HEAP_BASE, frames * PAGE_SIZE).unwrap();
    let root_addr = fa.allocate(1).unwrap();
    let root = Table::new(root_addr);
    (fa, root)
}

/// Allocates single frames until the allocator is exhausted, hands them
/// all back, and reports how many were free.
fn free_frames(fa: &mut FrameAllocator) -> usize {
    let mut held = Vec::new();
    loop {
        match fa.allocate(1) {
            Ok(a) => held.push(a),
            Err(_) => break,
        }
    }
    let n = held.len();
    for a in held {
        fa.dealloc(a).unwrap();
    }
    n
}

#[test]
fn fresh_table_translates_nothing() {
    let (_fa, root) = setup(16);
    assert_eq!(virt_to_phys(&root, 0), None);
    assert_eq!(virt_to_phys(&root, 0x1000_0000), None);
    assert_eq!(virt_to_phys(&root, 0x7f_ffff_ffff), None);
}

#[test]
fn map_then_translate_preserves_offset_bits() {
    let (mut fa, mut root) = setup(16);
    myos::page::map(&mut root, 0x1000_0000, 0x4000_2000, PermBits::read_write(), 0, &mut fa).unwrap();
    assert_eq!(virt_to_phys(&root, 0x1000_0000), Some(0x4000_2000));
    assert_eq!(virt_to_phys(&root, 0x1000_0042), Some(0x4000_2042));
    assert_eq!(virt_to_phys(&root, 0x1000_0fff), Some(0x4000_2fff));
    // The neighbouring pages stay unmapped.
    assert_eq!(virt_to_phys(&root, 0x1000_1000), None);
    assert_eq!(virt_to_phys(&root, 0x0fff_f000), None);
}

#[test]
fn map_is_idempotent_for_remapping_a_page() {
    let (mut fa, mut root) = setup(16);
    myos::page::map(&mut root, 0x2000, 0x5000, PermBits::read_write(), 0, &mut fa).unwrap();
    myos::page::map(&mut root, 0x2000, 0x7000, PermBits::read_execute(), 0, &mut fa).unwrap();
    assert_eq!(virt_to_phys(&root, 0x2000), Some(0x7000));
}

#[test]
fn map_reports_exhaustion_when_tables_cannot_be_allocated() {
    // Two frames managed: the root takes one, the first map needs two
    // fresh tables.
    let mut fa = FrameAllocator::init(HEAP_BASE, 3 * PAGE_SIZE).unwrap();
    let root_addr = fa.allocate(1).unwrap();
    let mut root = Table::new(root_addr);
    match myos::page::map(&mut root, 0x1234_5000, 0x1000, PermBits::read_write(), 0, &mut fa) {
        Err(KernelError::AllocationExhausted) => {},
        other => panic!("expected exhaustion, got {:?}", other.is_ok()),
    }
}

#[test]
fn id_map_range_gives_identity_translation() {
    let (mut fa, mut root) = setup(32);
    id_map_range(&mut root, 0x1000_0000, 0x1000_0100, PermBits::read_write(), &mut fa).unwrap();
    assert_eq!(virt_to_phys(&root, 0x1000_0050), Some(0x1000_0050));
    assert_eq!(virt_to_phys(&root, 0x1000_0000), Some(0x1000_0000));
    assert_eq!(virt_to_phys(&root, 0x1000_00ff), Some(0x1000_00ff));
    // Within the rounded-out final page.
    assert_eq!(virt_to_phys(&root, 0x1000_0fff), Some(0x1000_0fff));
    // Outside the range nothing is mapped.
    assert_eq!(virt_to_phys(&root, 0x1000_1000), None);
    assert_eq!(virt_to_phys(&root, 0x0200_0000), None);
}

#[test]
fn id_map_range_identity_over_every_page() {
    let (mut fa, mut root) = setup(32);
    let start: usize = 0x3000_0000;
    let end: usize = 0x3000_8000;
    id_map_range(&mut root, start, end, PermBits::read_execute(), &mut fa).unwrap();
    let mut p = start;
    while p < end {
        assert_eq!(virt_to_phys(&root, p), Some(p));
        assert_eq!(virt_to_phys(&root, p + 0x123), Some(p + 0x123));
        p += PAGE_SIZE;
    }
    assert_eq!(virt_to_phys(&root, end), None);
}

#[test]
fn unmap_returns_intermediate_tables_to_the_allocator() {
    let (mut fa, mut root) = setup(32);
    let before = free_frames(&mut fa);
    // Three widely separated pages force several intermediate tables.
    myos::page::map(&mut root, 0x0000_1000, 0x1000, PermBits::read_write(), 0, &mut fa).unwrap();
    myos::page::map(&mut root, 0x0020_0000, 0x2000, PermBits::read_write(), 0, &mut fa).unwrap();
    myos::page::map(&mut root, 0x4000_0000, 0x3000, PermBits::read_write(), 0, &mut fa).unwrap();
    let during = free_frames(&mut fa);
    assert!(during < before);
    unmap(&mut root, &mut fa);
    let after = free_frames(&mut fa);
    assert_eq!(after, before);
    // No mapping survives and no pointer table is reachable.
    assert_eq!(virt_to_phys(&root, 0x0000_1000), None);
    assert_eq!(virt_to_phys(&root, 0x0020_0000), None);
    assert_eq!(virt_to_phys(&root, 0x4000_0000), None);
}

#[test]
fn unmapped_addresses_stay_unmapped_after_maps() {
    let (mut fa, mut root) = setup(32);
    myos::page::map(&mut root, 0x1_0000, 0x9000, PermBits::read_write(), 0, &mut fa).unwrap();
    id_map_range(&mut root, 0x0c00_0000, 0x0c00_2000, PermBits::read_write(), &mut fa).unwrap();
    for va in [0usize, 0x2_0000, 0x0c00_2000, 0x7f_ffff_f000, 0x1234_5678] {
        assert_eq!(virt_to_phys(&root, va), None, "va {:#x}", va);
    }
}

#[test]
fn mapped_leaves_carry_their_permissions() {
    let (mut fa, mut root) = setup(16);
    assert_eq!(myos::page::virt_to_perms(&root, 0x2000), None);
    myos::page::map(&mut root, 0x2000, 0x5000, PermBits::read_write(), 0, &mut fa).unwrap();
    assert_eq!(
        myos::page::virt_to_perms(&root, 0x2abc),
        Some(PermBits::read_write())
    );
    // Remapping overwrites the leaf's flags.
    myos::page::map(&mut root, 0x2000, 0x5000, PermBits::read_execute(), 0, &mut fa).unwrap();
    assert_eq!(
        myos::page::virt_to_perms(&root, 0x2000),
        Some(PermBits::read_execute())
    );
    // Neighbours stay without permissions.
    assert_eq!(myos::page::virt_to_perms(&root, 0x3000), None);
}

#[test]
fn id_map_range_applies_one_permission_to_the_whole_range() {
    let (mut fa, mut root) = setup(32);
    id_map_range(&mut root, 0x3000_0000, 0x3000_3000, PermBits::read_execute(), &mut fa)
        .unwrap();
    for va in [0x3000_0000usize, 0x3000_1abc, 0x3000_2fff] {
        assert_eq!(
            myos::page::virt_to_perms(&root, va),
            Some(PermBits::read_execute()),
            "va {:#x}",
            va
        );
    }
    assert_eq!(myos::page::virt_to_perms(&root, 0x3000_3000), None);
}

#[test]
fn remapping_an_existing_range_allocates_nothing_new() {
    let (mut fa, mut root) = setup(32);
    id_map_range(&mut root, 0x3000_0000, 0x3000_4000, PermBits::read_write(), &mut fa).unwrap();
    let free_after_first = free_frames(&mut fa);
    // Same range again, different flags: translation identical, no frame
    // consumed.
    id_map_range(&mut root, 0x3000_0000, 0x3000_4000, PermBits::read_execute(), &mut fa)
        .unwrap();
    assert_eq!(free_frames(&mut fa), free_after_first);
    assert_eq!(virt_to_phys(&root, 0x3000_1234), Some(0x3000_1234));
    assert_eq!(
        myos::page::virt_to_perms(&root, 0x3000_1234),
        Some(PermBits::read_execute())
    );
}
