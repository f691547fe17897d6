//! The power-fail-safe swap of the application and the staging partition.
//!
//! The staging partition is one page larger than the application. That page
//! is a hole which moves through both partitions while their pages rotate,
//! so that every page is copied into a place whose old contents exist
//! elsewhere. Each copy is a step; the progress log records the steps done.

pub mod laws;
pub mod progress;

use crate::flash::{
    erase_and_write, page_aligned, spec_erase_and_write, Flash, FlashState, FLASH_SIZE, PAGE_SIZE,
};
use crate::model::SWAP_MAGIC;
use crate::partitions::{APP_END, APP_START, DFU_START};
use crate::swap::laws::{
    lemma_execute, lemma_revert_swaps, lemma_steps_skipped, lemma_update_swaps, log_at, reverted,
    rolled_back, updated,
};
use crate::swap::progress::{
    spec_get, spec_is_started, spec_set, spec_set_as_reverted, MAX_INDEX, PROGRESS_PAGE,
};
use vstd::prelude::*;

verus! {

/// Number of pages of the application.
pub const PAGE_COUNT: usize = (APP_END - APP_START) / PAGE_SIZE;

/// Address of page `n` of the application.
pub open spec fn spec_app(n: int) -> int {
    APP_START + n * PAGE_SIZE
}

/// Address of page `n` of the staging partition.
pub open spec fn spec_dfu(n: int) -> int {
    DFU_START + n * PAGE_SIZE
}

/// The page that step `k` reads. Steps below `2 * PAGE_COUNT` swap forward,
/// from the last page down; the steps from there to `4 * PAGE_COUNT` swap
/// back, from the first page up.
pub open spec fn step_from(k: int) -> int {
    let n = PAGE_COUNT as int;
    if k < 2 * n {
        if k % 2 == 0 {
            spec_app(n - 1 - k / 2)
        } else {
            spec_dfu(n - 1 - k / 2)
        }
    } else {
        if k % 2 == 0 {
            spec_app((k - 2 * n) / 2)
        } else {
            spec_dfu((k - 2 * n) / 2 + 1)
        }
    }
}

/// The page that step `k` writes.
pub open spec fn step_to(k: int) -> int {
    let n = PAGE_COUNT as int;
    if k < 2 * n {
        if k % 2 == 0 {
            spec_dfu(n - k / 2)
        } else {
            spec_app(n - 1 - k / 2)
        }
    } else {
        if k % 2 == 0 {
            spec_dfu((k - 2 * n) / 2)
        } else {
            spec_app((k - 2 * n) / 2)
        }
    }
}

/// What `copy_page_once` does: nothing when the log is past `index`, else
/// the copy and then the mark.
pub open spec fn spec_copy_page_once(s: FlashState, index: int, from: int, to: int) -> FlashState {
    if spec_get(s.mem) <= index {
        spec_set(spec_erase_and_write(s, to, s.bytes(from, PAGE_SIZE as int)), index)
    } else {
        s
    }
}

/// Step `k` of the swap.
pub open spec fn spec_step(s: FlashState, k: int) -> FlashState {
    spec_copy_page_once(s, k, step_from(k), step_to(k))
}

/// The steps `lo..hi`, in order.
pub open spec fn run_steps(s: FlashState, lo: int, hi: int) -> FlashState
    decreases hi - lo,
{
    if hi <= lo {
        s
    } else {
        spec_step(run_steps(s, lo, hi - 1), hi - 1)
    }
}

/// The forward swap: steps `0..2 * PAGE_COUNT`.
pub open spec fn spec_do_update(s: FlashState) -> FlashState {
    run_steps(s, 0, 2 * PAGE_COUNT)
}

/// The swap back: steps `2 * PAGE_COUNT..4 * PAGE_COUNT`.
pub open spec fn spec_do_revert(s: FlashState) -> FlashState {
    run_steps(s, 2 * PAGE_COUNT, 4 * PAGE_COUNT)
}

/// What `execute` does.
pub open spec fn spec_execute(s: FlashState) -> FlashState {
    match spec_phase(s.word(PROGRESS_PAGE as int), spec_get(s.mem)) {
        Phase::Idle => s,
        Phase::Update => spec_do_update(s),
        Phase::Revert => spec_set_as_reverted(spec_do_revert(s)),
    }
}

/// One step of the swap: the page to read, the page to write, and the
/// counter to mark.
#[derive(Debug, Copy, Clone, Eq, PartialEq, Structural)]
pub struct PageCopy {
    pub index: usize,
    pub from: u32,
    pub to: u32,
}

/// What the engine has to do.
#[derive(Debug, Copy, Clone, Eq, PartialEq, Structural)]
pub enum Phase {
    /// No swap is armed.
    Idle,
    /// A swap is armed and the forward swap is not finished.
    Update,
    /// The forward swap was finished and the log is still armed: swap back.
    Revert,
}

/// What the engine has to do when the log starts with the word `magic` and
/// counts `progress` steps as done.
pub open spec fn spec_phase(magic: u32, progress: int) -> Phase {
    if magic != SWAP_MAGIC {
        Phase::Idle
    } else if progress >= 2 * PAGE_COUNT {
        Phase::Revert
    } else {
        Phase::Update
    }
}

/// What the engine has to do when the log starts with the word `magic` and
/// counts `progress` steps as done.
pub fn phase(magic: u32, progress: usize) -> (p: Phase)
    ensures
        p == spec_phase(magic, progress as int),
{
    if magic != SWAP_MAGIC {
        Phase::Idle
    } else if progress >= PAGE_COUNT * 2 {
        Phase::Revert
    } else {
        Phase::Update
    }
}

/// Step `k` of the swap.
pub fn step(k: usize) -> (c: PageCopy)
    requires
        k < 4 * PAGE_COUNT,
    ensures
        c.index == k,
        c.from == step_from(k as int),
        c.to == step_to(k as int),
{
    let half: usize = k / 2;
    if k < 2 * PAGE_COUNT {
        if k % 2 == 0 {
            PageCopy { index: k, from: app(PAGE_COUNT - 1 - half), to: dfu(PAGE_COUNT - half) }
        } else {
            PageCopy { index: k, from: dfu(PAGE_COUNT - 1 - half), to: app(PAGE_COUNT - 1 - half) }
        }
    } else {
        let p: usize = half - PAGE_COUNT;
        if k % 2 == 0 {
            PageCopy { index: k, from: app(p), to: dfu(p) }
        } else {
            PageCopy { index: k, from: dfu(p + 1), to: app(p) }
        }
    }
}

/// Address of page `n` of the application.
pub fn app(n: usize) -> (a: u32)
    requires
        n < PAGE_COUNT,
    ensures
        a == spec_app(n as int),
{
    (APP_START + n * PAGE_SIZE) as u32
}

/// Address of page `n` of the staging partition, which has one page more
/// than the application.
pub fn dfu(n: usize) -> (a: u32)
    requires
        n <= PAGE_COUNT,
    ensures
        a == spec_dfu(n as int),
{
    (DFU_START + n * PAGE_SIZE) as u32
}

/// Copies the page at `from` over the page at `to` and marks step
/// `progress_index`, unless the log says that this step was done before.
pub fn copy_page_once(flash: &mut Flash, progress_index: usize, from: u32, to: u32)
    requires
        old(flash).wf(),
        progress_index < MAX_INDEX,
        from + PAGE_SIZE <= FLASH_SIZE,
        page_aligned(to as int),
        to + PAGE_SIZE <= FLASH_SIZE,
    ensures
        final(flash).wf(),
        final(flash)@ == spec_copy_page_once(
            old(flash)@,
            progress_index as int,
            from as int,
            to as int,
        ),
{
    if progress::get(flash) <= progress_index {
        let data = flash.read(from as usize, PAGE_SIZE);
        erase_and_write(flash, to as usize, data.as_slice());
        progress::set(flash, progress_index);
    }
}

/// Swaps forward: the new image goes into the application and the old one
/// moves up by one page in the staging partition. Steps that the log counts
/// as done are left out, so that nothing at all is done once the log has
/// reached `2 * PAGE_COUNT`.
pub fn do_update(flash: &mut Flash)
    requires
        old(flash).wf(),
    ensures
        final(flash).wf(),
        final(flash)@ == spec_do_update(old(flash)@),
        log_at(old(flash)@.mem, 0) ==> updated(old(flash)@, final(flash)@),
        spec_get(old(flash)@.mem) >= 2 * PAGE_COUNT ==> final(flash)@ == old(flash)@,
{
    proof {
        if log_at(flash@.mem, 0) {
            lemma_update_swaps(flash@);
        }
        if spec_get(flash@.mem) >= 2 * PAGE_COUNT {
            lemma_steps_skipped(flash@, 0, 2 * PAGE_COUNT);
        }
    }
    let mut p: usize = 0;
    while p < PAGE_COUNT
        invariant
            p <= PAGE_COUNT,
            flash.wf(),
            flash@ == run_steps(old(flash)@, 0, 2 * p),
        decreases PAGE_COUNT - p,
    {
        let ghost k: int = 2 * p;
        assert(k / 2 == p && k % 2 == 0 && (k + 1) / 2 == p && (k + 1) % 2 == 1);
        copy_page_once(flash, p * 2, app(PAGE_COUNT - 1 - p), dfu(PAGE_COUNT - p));
        assert(flash@ == run_steps(old(flash)@, 0, k + 1));
        copy_page_once(flash, p * 2 + 1, dfu(PAGE_COUNT - 1 - p), app(PAGE_COUNT - 1 - p));
        assert(flash@ == run_steps(old(flash)@, 0, k + 2));
        p += 1;
    }
}

/// Swaps back: the old image returns into the application and the new one
/// into the first pages of the staging partition. Steps that the log counts
/// as done are left out, so that nothing at all is done once the log has
/// reached `4 * PAGE_COUNT`.
pub fn do_revert(flash: &mut Flash)
    requires
        old(flash).wf(),
    ensures
        final(flash).wf(),
        final(flash)@ == spec_do_revert(old(flash)@),
        log_at(old(flash)@.mem, 2 * PAGE_COUNT) ==> reverted(old(flash)@, final(flash)@),
        spec_get(old(flash)@.mem) >= 4 * PAGE_COUNT ==> final(flash)@ == old(flash)@,
{
    proof {
        if log_at(flash@.mem, 2 * PAGE_COUNT) {
            lemma_revert_swaps(flash@);
        }
        if spec_get(flash@.mem) >= 4 * PAGE_COUNT {
            lemma_steps_skipped(flash@, 2 * PAGE_COUNT, 4 * PAGE_COUNT);
        }
    }
    let mut p: usize = 0;
    while p < PAGE_COUNT
        invariant
            p <= PAGE_COUNT,
            flash.wf(),
            flash@ == run_steps(old(flash)@, 2 * PAGE_COUNT, 2 * PAGE_COUNT + 2 * p),
        decreases PAGE_COUNT - p,
    {
        let ghost k: int = 2 * PAGE_COUNT + 2 * p;
        assert((k - 2 * PAGE_COUNT) / 2 == p && k % 2 == 0 && (k + 1 - 2 * PAGE_COUNT) / 2 == p
            && (k + 1) % 2 == 1);
        copy_page_once(flash, PAGE_COUNT * 2 + p * 2, app(p), dfu(p));
        assert(flash@ == run_steps(old(flash)@, 2 * PAGE_COUNT, k + 1));
        copy_page_once(flash, PAGE_COUNT * 2 + p * 2 + 1, dfu(p + 1), app(p));
        assert(flash@ == run_steps(old(flash)@, 2 * PAGE_COUNT, k + 2));
        p += 1;
    }
}

/// Runs the swap engine: nothing when no swap is armed; the forward swap when
/// one is armed and not finished; and when the forward swap was finished on an
/// earlier boot and nobody disarmed the log since, the swap back, after which
/// the log says so.
pub fn execute(flash: &mut Flash)
    requires
        old(flash).wf(),
    ensures
        final(flash).wf(),
        final(flash)@ == spec_execute(old(flash)@),
        !spec_is_started(old(flash)@.mem) ==> final(flash)@ == old(flash)@,
        spec_is_started(old(flash)@.mem) && log_at(old(flash)@.mem, 0) ==> updated(
            old(flash)@,
            final(flash)@,
        ),
        spec_is_started(old(flash)@.mem) && log_at(old(flash)@.mem, 2 * PAGE_COUNT)
            ==> rolled_back(old(flash)@, final(flash)@),
{
    proof {
        lemma_execute(flash@);
    }
    match phase(flash.word(PROGRESS_PAGE), progress::get(flash)) {
        Phase::Idle => {},
        Phase::Update => {
            do_update(flash);
        },
        Phase::Revert => {
            do_revert(flash);
            progress::set_as_reverted(flash);
        },
    }
}

} // verus!
