use myos::cpu::{build_satp, SatpMode, TrapFrame};
use myos::frame::PAGE_SIZE;
use myos::page::virt_to_phys;
use myos::{init_os, KernelError, MemoryLayout};

fn demo_layout() -> MemoryLayout {
    MemoryLayout {
        text_start: 0x8020_0000,
        text_end: 0x8020_3000,
        rodata_start: 0x8020_3000,
        rodata_end: 0x8020_4000,
        data_start: 0x8020_4000,
        data_end: 0x8020_6000,
        bss_start: 0x8020_6000,
        bss_end: 0x8020_8000,
        stack_start: 0x8020_8000,
        stack_end: 0x8021_0000,
        heap_start: 0x8100_0000,
        heap_size: 128 * PAGE_SIZE,
    }
}

#[test]
fn build_satp_encodes_mode_asid_and_root_page_number() {
    assert_eq!(build_satp(SatpMode::Bare, 0, 0), 0);
    assert_eq!(
        build_satp(SatpMode::Sv39, 0, 0x8100_1000),
        (8u64 << 60) | (0x8100_1000u64 >> 12)
    );
    assert_eq!(
        build_satp(SatpMode::Sv39, 7, 0x8100_1000),
        (8u64 << 60) | (7u64 << 44) | (0x8100_1000u64 >> 12)
    );
    assert_eq!(
        build_satp(SatpMode::Sv48, 0xffff, 0x1000),
        (9u64 << 60) | (0xffffu64 << 44) | 1
    );
}

#[test]
fn trap_frame_starts_zeroed() {
    let tf = TrapFrame::new();
    assert_eq!(tf.regs.len(), 32);
    assert_eq!(tf.fregs.len(), 32);
    assert!(tf.regs.iter().all(|r| *r == 0));
    assert!(tf.fregs.iter().all(|r| *r == 0));
    assert_eq!(tf.satp, 0);
    assert_eq!(tf.trap_stack, 0);
    assert_eq!(tf.hartid, 0);
}

#[test]
fn init_os_identity_maps_every_bootstrap_region() {
    let layout = demo_layout();
    let k = init_os(&layout).unwrap();

    // The translation-control value selects Sv39 over the root table.
    assert_eq!(k.satp, (8u64 << 60) | ((k.root.addr as u64) >> 12));
    assert_eq!(k.trap_frame.satp, k.satp);
    assert_eq!(k.trap_frame.hartid, 0);

    // Device windows answer identically (the console scenario).
    assert_eq!(virt_to_phys(&k.root, 0x1000_0050), Some(0x1000_0050));
    assert_eq!(virt_to_phys(&k.root, 0x0200_0000), Some(0x0200_0000));
    assert_eq!(virt_to_phys(&k.root, 0x0200_ffff), Some(0x0200_ffff));
    assert_eq!(virt_to_phys(&k.root, 0x0c00_1abc), Some(0x0c00_1abc));
    assert_eq!(virt_to_phys(&k.root, 0x0c20_7000), Some(0x0c20_7000));

    // Kernel sections, stack, descriptor table and pool.
    for va in [
        layout.text_start,
        layout.text_end - 1,
        layout.rodata_start,
        layout.data_start + 0x10,
        layout.bss_end - 1,
        layout.stack_start,
        layout.stack_end - 1,
        layout.heap_start,
        k.fa.alloc_start,
        k.fa.alloc_start + 127 * PAGE_SIZE - 1,
    ] {
        assert_eq!(virt_to_phys(&k.root, va), Some(va), "va {:#x}", va);
    }

    // The trap stack's page and the trap frame's own page are mapped; the
    // stack pointer starts at the page's top.
    assert_eq!(k.trap_frame.trap_stack % PAGE_SIZE, 0);
    let ts = k.trap_frame.trap_stack;
    assert_eq!(virt_to_phys(&k.root, ts - 1), Some(ts - 1));
    assert_eq!(virt_to_phys(&k.root, k.trap_frame_addr), Some(k.trap_frame_addr));

    // Far-away addresses the bootstrap never touched stay unmapped.
    assert_eq!(virt_to_phys(&k.root, 0x4000_0000), None);
    assert_eq!(virt_to_phys(&k.root, 0x7000_0000), None);
}

#[test]
fn init_os_rejects_a_heap_with_no_frames() {
    let mut layout = demo_layout();
    layout.heap_size = PAGE_SIZE;
    assert!(matches!(init_os(&layout), Err(KernelError::HeapTooSmall)));
}

#[test]
fn init_os_reports_exhaustion_on_a_tiny_heap() {
    let mut layout = demo_layout();
    // Two managed frames: the root table fits, the region maps do not.
    layout.heap_size = 3 * PAGE_SIZE;
    assert!(matches!(
        init_os(&layout),
        Err(KernelError::AllocationExhausted)
    ));
}

#[test]
fn bootstrap_permissions_follow_the_region_kind() {
    let layout = demo_layout();
    let k = init_os(&layout).unwrap();
    let rw = myos::page::PermBits::read_write();
    let rx = myos::page::PermBits::read_execute();
    // Code is execute; everything else, read-only data included, is
    // read/write.
    assert_eq!(myos::page::virt_to_perms(&k.root, layout.text_start), Some(rx));
    assert_eq!(
        myos::page::virt_to_perms(&k.root, layout.rodata_start),
        Some(rw)
    );
    assert_eq!(myos::page::virt_to_perms(&k.root, layout.data_start), Some(rw));
    assert_eq!(myos::page::virt_to_perms(&k.root, layout.stack_start), Some(rw));
    assert_eq!(myos::page::virt_to_perms(&k.root, 0x1000_0050), Some(rw));
    assert_eq!(myos::page::virt_to_perms(&k.root, 0x0c20_7000), Some(rw));
    assert_eq!(
        myos::page::virt_to_perms(&k.root, k.trap_frame.trap_stack - 1),
        Some(rw)
    );
}

#[test]
fn bootstrap_leaves_everything_else_unmapped() {
    let layout = demo_layout();
    let k = init_os(&layout).unwrap();
    for va in [0usize, 0x1000, 0x4000_0000, 0x7000_0000, 0x7f_ffff_f000] {
        assert_eq!(virt_to_phys(&k.root, va), None, "va {:#x}", va);
    }
}

#[test]
fn trap_stack_page_is_a_fresh_zeroed_frame() {
    let layout = demo_layout();
    let k = init_os(&layout).unwrap();
    let sb = k.trap_frame.trap_stack - PAGE_SIZE;
    assert_eq!(sb % PAGE_SIZE, 0);
    let ix = (sb - k.fa.alloc_start) / PAGE_SIZE;
    assert!(k.fa.descs[ix].taken && k.fa.descs[ix].last);
    assert!(k.fa.frames[ix].words.iter().all(|w| *w == 0));
}
