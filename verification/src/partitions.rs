//! The partition map of the flash.

use crate::flash::{page_aligned, Flash, FLASH_SIZE, PAGE_SIZE};
use vstd::prelude::*;

verus! {

/// A half-open byte range `[start, end)` of the flash.
#[derive(Debug, Copy, Clone, Eq, PartialEq, Structural)]
pub struct Partition {
    pub start: usize,
    pub end: usize,
}

impl Partition {
    /// The range is not inverted, starts and ends on page boundaries and lies
    /// inside the flash.
    pub open spec fn wf(&self) -> bool {
        &&& self.start <= self.end <= FLASH_SIZE
        &&& page_aligned(self.start as int)
        &&& page_aligned(self.end as int)
    }

    pub open spec fn spec_len(&self) -> int {
        self.end - self.start
    }

    /// Number of bytes in the range.
    pub fn len(&self) -> (n: usize)
        requires
            self.start <= self.end,
        ensures
            n == self.spec_len(),
    {
        self.end - self.start
    }

    /// A copy of the partition's contents.
    pub fn bytes(&self, flash: &Flash) -> (out: Vec<u8>)
        requires
            flash.wf(),
            self.start <= self.end <= FLASH_SIZE,
        ensures
            out@ == flash@.bytes(self.start as int, self.spec_len()),
    {
        flash.read(self.start, self.end - self.start)
    }
}

pub const MBR_START: usize = 0x00000;

pub const MBR_END: usize = 0x01000;

/// The master boot record.
pub open spec fn spec_mbr() -> Partition {
    Partition { start: MBR_START, end: MBR_END }
}

/// The master boot record.
#[verifier::when_used_as_spec(spec_mbr)]
pub fn mbr() -> (p: Partition)
    ensures
        p == spec_mbr(),
{
    Partition { start: MBR_START, end: MBR_END }
}

pub const SOFTDEVICE_START: usize = 0x01000;

pub const SOFTDEVICE_END: usize = 0x27000;

/// The radio stack.
pub open spec fn spec_softdevice() -> Partition {
    Partition { start: SOFTDEVICE_START, end: SOFTDEVICE_END }
}

/// The radio stack.
#[verifier::when_used_as_spec(spec_softdevice)]
pub fn softdevice() -> (p: Partition)
    ensures
        p == spec_softdevice(),
{
    Partition { start: SOFTDEVICE_START, end: SOFTDEVICE_END }
}

pub const APP_START: usize = 0x27000;

pub const APP_END: usize = 0x85000;

/// The active application.
pub open spec fn spec_app() -> Partition {
    Partition { start: APP_START, end: APP_END }
}

/// The active application.
#[verifier::when_used_as_spec(spec_app)]
pub fn app() -> (p: Partition)
    ensures
        p == spec_app(),
{
    Partition { start: APP_START, end: APP_END }
}

pub const DFU_START: usize = 0x85000;

pub const DFU_END: usize = 0xe4000;

/// The staging area: one page larger than the application.
pub open spec fn spec_dfu() -> Partition {
    Partition { start: DFU_START, end: DFU_END }
}

/// The staging area: one page larger than the application.
#[verifier::when_used_as_spec(spec_dfu)]
pub fn dfu() -> (p: Partition)
    ensures
        p == spec_dfu(),
{
    Partition { start: DFU_START, end: DFU_END }
}

pub const BOOTLOADER_START: usize = 0xf8000;

pub const BOOTLOADER_END: usize = 0xfe000;

/// The bootloader itself.
pub open spec fn spec_bootloader() -> Partition {
    Partition { start: BOOTLOADER_START, end: BOOTLOADER_END }
}

/// The bootloader itself.
#[verifier::when_used_as_spec(spec_bootloader)]
pub fn bootloader() -> (p: Partition)
    ensures
        p == spec_bootloader(),
{
    Partition { start: BOOTLOADER_START, end: BOOTLOADER_END }
}

pub const MBR_PARAMS_PAGE_START: usize = 0xfe000;

pub const MBR_PARAMS_PAGE_END: usize = 0xff000;

/// The page that the master boot record keeps for itself.
pub open spec fn spec_mbr_params_page() -> Partition {
    Partition { start: MBR_PARAMS_PAGE_START, end: MBR_PARAMS_PAGE_END }
}

/// The page that the master boot record keeps for itself.
#[verifier::when_used_as_spec(spec_mbr_params_page)]
pub fn mbr_params_page() -> (p: Partition)
    ensures
        p == spec_mbr_params_page(),
{
    Partition { start: MBR_PARAMS_PAGE_START, end: MBR_PARAMS_PAGE_END }
}

pub const BOOTLOADER_COPYLIST_START: usize = 0xff000;

pub const BOOTLOADER_COPYLIST_END: usize = 0x100000;

/// The control page: an armed copy-list, or the progress log of a swap.
pub open spec fn spec_bootloader_copylist() -> Partition {
    Partition { start: BOOTLOADER_COPYLIST_START, end: BOOTLOADER_COPYLIST_END }
}

/// The control page: an armed copy-list, or the progress log of a swap.
#[verifier::when_used_as_spec(spec_bootloader_copylist)]
pub fn bootloader_copylist() -> (p: Partition)
    ensures
        p == spec_bootloader_copylist(),
{
    Partition { start: BOOTLOADER_COPYLIST_START, end: BOOTLOADER_COPYLIST_END }
}

/// The map is sound: every partition is a page-aligned range of the flash, no
/// two of them overlap, the staging partition is exactly one page larger than
/// the application, and the two control partitions are one page each.
pub proof fn lemma_partition_map()
    ensures
        mbr().wf() && softdevice().wf() && app().wf() && dfu().wf() && bootloader().wf()
            && mbr_params_page().wf() && bootloader_copylist().wf(),
        mbr().end <= softdevice().start,
        softdevice().end <= app().start,
        app().end <= dfu().start,
        dfu().end <= bootloader().start,
        bootloader().end <= mbr_params_page().start,
        mbr_params_page().end <= bootloader_copylist().start,
        dfu().spec_len() == app().spec_len() + PAGE_SIZE,
        mbr_params_page().spec_len() == PAGE_SIZE,
        bootloader_copylist().spec_len() == PAGE_SIZE,
{
}

} // verus!
