//! What the entry sequence and the handoff to the application decide.

use vstd::prelude::*;

verus! {

/// Base of the vector table to which interrupts are forwarded, and from
/// which the stack pointer and the reset handler are read.
pub const APP_VECTOR_BASE: u32 = 0x1000;

/// Value of the anti-brick word of a device that was deliberately left open.
pub const UNLOCK_WORD: u32 = 0xe35c_38e7;

/// Watchdog timeout in ticks of its 32768 Hz clock: five seconds.
pub const WATCHDOG_TIMEOUT_TICKS: u32 = 32768 * 5;

/// Value that the bootloader hands to the application in the link register.
pub const INITIAL_LINK_REGISTER: u32 = 0xffff_ffff;

/// Whether the readback protection must be switched on now:
/// the protection word is not yet cleared and the device is not marked as
/// deliberately left open.
pub open spec fn spec_must_protect(approtect: u32, unlock: u32) -> bool {
    approtect != 0 && unlock != UNLOCK_WORD
}

/// Whether the readback protection must be switched on now, given the
/// protection word and the anti-brick word of the device.
pub fn must_protect(approtect: u32, unlock: u32) -> (protect: bool)
    ensures
        protect == spec_must_protect(approtect, unlock),
{
    approtect != 0 && unlock != UNLOCK_WORD
}

} // verus!
