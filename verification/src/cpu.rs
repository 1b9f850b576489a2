//! The register-level handoff values: the translation-control (`satp`)
//! encoding and the trap-frame record bootstrapped for the boot processor.
//! Writing the value into the hardware register is left to the caller
//! outside this crate.

use vstd::prelude::*;

verus! {

/// Translation mode selector of the `satp` register.
#[derive(Clone, Copy, Debug, PartialEq, Eq, Structural)]
pub enum SatpMode {
    /// No translation.
    Bare,
    /// Three-level, 39-bit virtual addressing.
    Sv39,
    /// Four-level, 48-bit virtual addressing.
    Sv48,
}

/// Hardware encoding of the mode selector (bits 60..64 of `satp`).
pub open spec fn satp_mode_val(mode: SatpMode) -> int {
    match mode {
        SatpMode::Bare => 0,
        SatpMode::Sv39 => 8,
        SatpMode::Sv48 => 9,
    }
}

/// The `satp` value: mode in bits 60..64, address-space id in bits 44..60,
/// root-table physical page number in bits 0..44.
pub open spec fn spec_satp(mode: SatpMode, asid: u64, addr: usize) -> int {
    satp_mode_val(mode) * 0x1000_0000_0000_0000 + (asid as int % 0x1_0000) * 0x1000_0000_0000 + (
    addr as int / 4096) % 0x1000_0000_0000
}

/// Builds the translation-control value committed to hardware: the root
/// table's address is divided down to its page number, the address-space
/// id and mode fields are placed above it.
pub fn build_satp(mode: SatpMode, asid: u64, addr: usize) -> (r: u64)
    ensures
        r as int == spec_satp(mode, asid, addr),
{
    let m: u64 = match mode {
        SatpMode::Bare => 0,
        SatpMode::Sv39 => 8,
        SatpMode::Sv48 => 9,
    };
    let ppn: u64 = ((addr / 4096) as u64) % 0x1000_0000_0000;
    m * 0x1000_0000_0000_0000 + (asid % 0x1_0000) * 0x1000_0000_0000 + ppn
}

/// Fixed-layout per-processor record read by the trap entry path. The
/// bootstrap fills `satp` and `trap_stack`; the register banks start
/// zeroed.
pub struct TrapFrame {
    pub regs: Vec<usize>,
    pub fregs: Vec<usize>,
    pub satp: u64,
    pub trap_stack: usize,
    pub hartid: usize,
}

impl TrapFrame {
    /// A zeroed trap frame with its 32 integer and 32 float register slots.
    pub fn new() -> (tf: TrapFrame)
        ensures
            tf.regs@.len() == 32,
            tf.fregs@.len() == 32,
            forall|i: int| 0 <= i < 32 ==> tf.regs@[i] == 0,
            forall|i: int| 0 <= i < 32 ==> tf.fregs@[i] == 0,
            tf.satp == 0,
            tf.trap_stack == 0,
            tf.hartid == 0,
    {
        let mut regs: Vec<usize> = Vec::new();
        let mut fregs: Vec<usize> = Vec::new();
        let mut i: usize = 0;
        while i < 32
            invariant
                i <= 32,
                regs@.len() == i,
                fregs@.len() == i,
                forall|k: int| 0 <= k < i ==> regs@[k] == 0,
                forall|k: int| 0 <= k < i ==> fregs@[k] == 0,
            decreases 32 - i,
        {
            regs.push(0);
            fregs.push(0);
            i = i + 1;
        }
        TrapFrame { regs, fregs, satp: 0, trap_stack: 0, hartid: 0 }
    }
}

} // verus!
