use bootloader::boot::{
    must_protect, APP_VECTOR_BASE, INITIAL_LINK_REGISTER, UNLOCK_WORD, WATCHDOG_TIMEOUT_TICKS,
};
use bootloader::partitions::softdevice;

#[test]
fn protection_is_enforced_once() {
    assert!(must_protect(0xffff_ffff, 0xffff_ffff));
    assert!(must_protect(0x0000_005a, 0));
    assert!(!must_protect(0, 0xffff_ffff));
    assert!(!must_protect(0xffff_ffff, 0xe35c_38e7));
    assert!(!must_protect(0, 0xe35c_38e7));
}

#[test]
fn handoff_constants() {
    assert_eq!(APP_VECTOR_BASE, 0x1000);
    assert_eq!(APP_VECTOR_BASE as usize, softdevice().start);
    assert_eq!(UNLOCK_WORD, 0xe35c_38e7);
    assert_eq!(WATCHDOG_TIMEOUT_TICKS, 163_840);
    assert_eq!(INITIAL_LINK_REGISTER, 0xffff_ffff);
}
