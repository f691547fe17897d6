//! What holds of the swap engine: a finished run is not repeated, and a run
//! that a power cut interrupted ends, once it is taken up again, where the
//! uninterrupted run ends.

use crate::flash::{lemma_program_byte, page_aligned, FlashState, FLASH_SIZE, PAGE_SIZE};
use crate::model::SWAP_REVERTED_MAGIC;
use crate::partitions::{APP_END, APP_START, DFU_END, DFU_START};
use crate::swap::progress::{
    counter_erased, lemma_first_erased, lemma_get_is, lemma_set_as_reverted, spec_addr, spec_get,
    spec_is_started, spec_set_as_reverted, MAX_INDEX, PROGRESS_PAGE,
};
use crate::swap::{
    run_steps, spec_do_revert, spec_do_update, spec_execute, spec_step, step_from, step_to,
    PAGE_COUNT,
};
use crate::word::lemma_erased_word;
use vstd::prelude::*;

verus! {

/// The log stands at `k`: every counter below `k` is marked and every counter
/// from `k` on is erased.
pub open spec fn log_at(mem: Seq<u8>, k: int) -> bool {
    &&& forall|j: int| 0 <= j < k && j < MAX_INDEX ==> !#[trigger] counter_erased(mem, j)
    &&& forall|j: int| k <= j < MAX_INDEX && 0 <= j ==> #[trigger] counter_erased(mem, j)
}

/// `c` is what a power cut during the copy of step `k` can leave of `s`:
/// anything in the page that the step writes, and `s` everywhere else.
pub open spec fn cut_in_step(s: FlashState, k: int, c: FlashState) -> bool {
    &&& c.mem.len() == s.mem.len()
    &&& forall|i: int|
        0 <= i < s.mem.len() && !(step_to(k) <= i < step_to(k) + PAGE_SIZE) ==> #[trigger] c.mem[i]
            == s.mem[i]
}

/// A log that stands at `k` makes `get` return `k`.
pub proof fn lemma_log_at_get(mem: Seq<u8>, k: int)
    requires
        0 <= k <= MAX_INDEX,
        log_at(mem, k),
    ensures
        spec_get(mem) == k,
{
    lemma_get_is(mem, k);
}

/// Every step reads and writes whole pages of the application and the
/// staging partition, and never reads the page it writes.
pub proof fn lemma_step_pages(k: int)
    requires
        0 <= k < 4 * PAGE_COUNT,
    ensures
        page_aligned(step_from(k)),
        page_aligned(step_to(k)),
        APP_START <= step_from(k),
        step_from(k) + PAGE_SIZE <= DFU_END,
        APP_START <= step_to(k),
        step_to(k) + PAGE_SIZE <= DFU_END,
        step_from(k) != step_to(k),
        step_from(k) + PAGE_SIZE <= step_to(k) || step_to(k) + PAGE_SIZE <= step_from(k),
{
}

/// A step that is not yet done copies its page and marks its counter, and
/// changes nothing else.
pub proof fn lemma_step_effect(s: FlashState, k: int)
    requires
        s.wf(),
        0 <= k < 4 * PAGE_COUNT,
        spec_get(s.mem) <= k,
    ensures
        spec_step(s, k).wf(),
        forall|i: int|
            step_to(k) <= i < step_to(k) + PAGE_SIZE ==> #[trigger] spec_step(s, k).mem[i]
                == s.mem[step_from(k) + (i - step_to(k))],
        forall|i: int|
            spec_addr(k) <= i < spec_addr(k) + 4 ==> #[trigger] spec_step(s, k).mem[i] == 0u8,
        forall|i: int|
            0 <= i < FLASH_SIZE && !(step_to(k) <= i < step_to(k) + PAGE_SIZE) && !(spec_addr(k)
                <= i < spec_addr(k) + 4) ==> #[trigger] spec_step(s, k).mem[i] == s.mem[i],
{
    lemma_step_pages(k);
    lemma_program_byte();
}

/// Whether a counter is erased depends on its four bytes alone.
pub proof fn lemma_counter_bytes(a: Seq<u8>, b: Seq<u8>, j: int)
    requires
        forall|i: int| spec_addr(j) <= i < spec_addr(j) + 4 ==> a[i] == b[i],
    ensures
        counter_erased(a, j) == counter_erased(b, j),
{
}

/// A step that is not yet done moves a log that stands at `k` to `k + 1`,
/// and leaves the magic alone.
pub proof fn lemma_step_advances(s: FlashState, k: int)
    requires
        s.wf(),
        0 <= k < 4 * PAGE_COUNT,
        log_at(s.mem, k),
    ensures
        spec_step(s, k).wf(),
        log_at(spec_step(s, k).mem, k + 1),
        spec_is_started(spec_step(s, k).mem) == spec_is_started(s.mem),
{
    lemma_log_at_get(s.mem, k);
    lemma_step_effect(s, k);
    lemma_step_pages(k);
    let r = spec_step(s, k);
    assert forall|j: int| 0 <= j < MAX_INDEX implies (#[trigger] counter_erased(r.mem, j) == (j
        > k)) by {
        if j == k {
            let a = spec_addr(k);
            assert(r.mem[a] == 0u8 && r.mem[a + 1] == 0u8 && r.mem[a + 2] == 0u8 && r.mem[a + 3]
                == 0u8);
            lemma_erased_word(r.mem[a], r.mem[a + 1], r.mem[a + 2], r.mem[a + 3]);
        } else {
            lemma_counter_bytes(r.mem, s.mem, j);
        }
    }
    let p = PROGRESS_PAGE as int;
    assert(r.mem[p] == s.mem[p] && r.mem[p + 1] == s.mem[p + 1] && r.mem[p + 2] == s.mem[p + 2]
        && r.mem[p + 3] == s.mem[p + 3]);
}

/// The steps `lo..hi` move a log that stands at `lo` to `hi`.
pub proof fn lemma_run_advances(s: FlashState, lo: int, hi: int)
    requires
        s.wf(),
        0 <= lo <= hi <= 4 * PAGE_COUNT,
        log_at(s.mem, lo),
    ensures
        run_steps(s, lo, hi).wf(),
        log_at(run_steps(s, lo, hi).mem, hi),
        spec_is_started(run_steps(s, lo, hi).mem) == spec_is_started(s.mem),
    decreases hi - lo,
{
    if lo < hi {
        lemma_run_advances(s, lo, hi - 1);
        lemma_step_advances(run_steps(s, lo, hi - 1), hi - 1);
    }
}

/// Steps that the log records as done are not done again: nothing is erased,
/// nothing is written, the watchdog is not even fed.
pub proof fn lemma_steps_skipped(s: FlashState, lo: int, hi: int)
    requires
        spec_get(s.mem) >= hi,
    ensures
        run_steps(s, lo, hi) == s,
    decreases hi - lo,
{
    if lo < hi {
        lemma_steps_skipped(s, lo, hi - 1);
    }
}

/// Once the log has reached the end of the forward swap, `do_update` does
/// nothing at all.
pub proof fn lemma_update_idempotent(s: FlashState)
    requires
        spec_get(s.mem) >= 2 * PAGE_COUNT,
    ensures
        spec_do_update(s) == s,
{
    lemma_steps_skipped(s, 0, 2 * PAGE_COUNT);
}

/// Once the log has reached the end of the swap back, `do_revert` does
/// nothing at all.
pub proof fn lemma_revert_idempotent(s: FlashState)
    requires
        spec_get(s.mem) >= 4 * PAGE_COUNT,
    ensures
        spec_do_revert(s) == s,
{
    lemma_steps_skipped(s, 2 * PAGE_COUNT, 4 * PAGE_COUNT);
}

/// A run of steps can be cut in two.
pub proof fn lemma_steps_split(s: FlashState, lo: int, mid: int, hi: int)
    requires
        lo <= mid <= hi,
    ensures
        run_steps(s, lo, hi) == run_steps(run_steps(s, lo, mid), mid, hi),
    decreases hi - mid,
{
    if mid < hi {
        lemma_steps_split(s, lo, mid, hi - 1);
    }
}

/// What the steps leave in the flash depends on what was in the flash, not
/// on what had been done to it before.
pub proof fn lemma_steps_by_contents(a: FlashState, b: FlashState, lo: int, hi: int)
    requires
        a.mem == b.mem,
    ensures
        run_steps(a, lo, hi).mem == run_steps(b, lo, hi).mem,
    decreases hi - lo,
{
    if lo < hi {
        lemma_steps_by_contents(a, b, lo, hi - 1);
    }
}

/// A step whose copy was cut short is repeated in full: taken up again, it
/// leaves the flash as the undisturbed step does.
pub proof fn lemma_step_heals(s: FlashState, k: int, c: FlashState)
    requires
        s.wf(),
        c.wf(),
        0 <= k < 4 * PAGE_COUNT,
        log_at(s.mem, k),
        cut_in_step(s, k, c),
    ensures
        log_at(c.mem, k),
        spec_is_started(c.mem) == spec_is_started(s.mem),
        spec_step(c, k).mem == spec_step(s, k).mem,
{
    lemma_step_pages(k);
    assert forall|j: int| 0 <= j < MAX_INDEX implies #[trigger] counter_erased(c.mem, j)
        == counter_erased(s.mem, j) by {
        lemma_counter_bytes(c.mem, s.mem, j);
    }
    let p = PROGRESS_PAGE as int;
    assert(c.mem[p] == s.mem[p] && c.mem[p + 1] == s.mem[p + 1] && c.mem[p + 2] == s.mem[p + 2]
        && c.mem[p + 3] == s.mem[p + 3]);
    lemma_log_at_get(s.mem, k);
    lemma_log_at_get(c.mem, k);
    lemma_step_effect(s, k);
    lemma_step_effect(c, k);
    assert(spec_step(c, k).mem =~= spec_step(s, k).mem);
}

/// A power cut during the copy of any step of the swap, forward (`lo` is 0)
/// or back (`lo` is `2 * PAGE_COUNT`), does no harm: when the engine runs
/// again on what the cut left, the flash ends up holding what it holds after
/// a run that nothing interrupted.
///
/// `s0` is the flash when the phase begins, with the log armed and standing
/// at `lo`; `k` is the step that was under way; `c` is what the cut left.
pub proof fn lemma_swap_resumable(s0: FlashState, lo: int, k: int, c: FlashState)
    requires
        s0.wf(),
        c.wf(),
        spec_is_started(s0.mem),
        lo == 0 || lo == 2 * PAGE_COUNT,
        log_at(s0.mem, lo),
        lo <= k < lo + 2 * PAGE_COUNT,
        cut_in_step(run_steps(s0, lo, k), k, c),
    ensures
        spec_execute(c).mem == spec_execute(s0).mem,
{
    let hi = lo + 2 * PAGE_COUNT;
    let sk = run_steps(s0, lo, k);
    lemma_run_advances(s0, lo, k);
    lemma_step_heals(sk, k, c);
    lemma_log_at_get(s0.mem, lo);
    lemma_log_at_get(c.mem, k);
    // the uninterrupted run, seen from step k
    lemma_steps_split(s0, lo, k, hi);
    lemma_steps_split(sk, k, k + 1, hi);
    assert(run_steps(sk, k, k + 1) == spec_step(sk, k)) by {
        assert(run_steps(sk, k, k) == sk);
    }
    // the run on what the cut left: the steps before k are skipped
    lemma_steps_split(c, lo, k, hi);
    lemma_steps_skipped(c, lo, k);
    lemma_steps_split(c, k, k + 1, hi);
    assert(run_steps(c, k, k + 1) == spec_step(c, k)) by {
        assert(run_steps(c, k, k) == c);
    }
    lemma_steps_by_contents(spec_step(c, k), spec_step(sk, k), k + 1, hi);
    assert(run_steps(c, lo, hi).mem == run_steps(s0, lo, hi).mem);
}

/// Two contents are alike where they agree on every byte outside the
/// counters of the log, and on which of the counters are marked.
pub open spec fn alike(a: Seq<u8>, b: Seq<u8>) -> bool {
    &&& a.len() == b.len()
    &&& forall|i: int|
        0 <= i < a.len() && !(spec_addr(0) <= i < spec_addr(MAX_INDEX as int)) ==> #[trigger] a[i]
            == b[i]
    &&& forall|j: int|
        #![trigger counter_erased(a, j)]
        #![trigger counter_erased(b, j)]
        0 <= j < MAX_INDEX ==> counter_erased(a, j) == counter_erased(b, j)
}

/// `c` is what a power cut during the marking of step `k` can leave of `s`:
/// the page is copied, and the counter of the step holds anything.
pub open spec fn cut_in_mark(s: FlashState, k: int, c: FlashState) -> bool {
    &&& c.mem.len() == s.mem.len()
    &&& forall|i: int|
        0 <= i < s.mem.len() && !(spec_addr(k) <= i < spec_addr(k) + 4) ==> #[trigger] c.mem[i]
            == spec_step(s, k).mem[i]
}

/// Contents that are alike have logs that count the same.
pub proof fn lemma_alike_get(a: Seq<u8>, b: Seq<u8>)
    requires
        a.len() == FLASH_SIZE,
        alike(a, b),
    ensures
        spec_get(a) == spec_get(b),
        spec_is_started(a) == spec_is_started(b),
{
    lemma_first_erased(a, 0);
    lemma_get_is(b, spec_get(a));
    let p = PROGRESS_PAGE as int;
    assert(a[p] == b[p] && a[p + 1] == b[p + 1] && a[p + 2] == b[p + 2] && a[p + 3] == b[p + 3]);
}

/// A step takes contents that are alike to contents that are alike.
pub proof fn lemma_step_alike(a: FlashState, b: FlashState, k: int)
    requires
        a.wf(),
        b.wf(),
        0 <= k < 4 * PAGE_COUNT,
        alike(a.mem, b.mem),
    ensures
        spec_step(a, k).wf(),
        spec_step(b, k).wf(),
        alike(spec_step(a, k).mem, spec_step(b, k).mem),
{
    lemma_alike_get(a.mem, b.mem);
    if spec_get(a.mem) <= k {
        lemma_step_effect(a, k);
        lemma_step_effect(b, k);
        lemma_step_pages(k);
        let ra = spec_step(a, k).mem;
        let rb = spec_step(b, k).mem;
        assert forall|j: int| 0 <= j < MAX_INDEX implies #[trigger] counter_erased(ra, j)
            == counter_erased(rb, j) by {
            if j == k {
                let w = spec_addr(k);
                assert(ra[w] == 0u8 && ra[w + 1] == 0u8 && ra[w + 2] == 0u8 && ra[w + 3] == 0u8);
                assert(rb[w] == 0u8 && rb[w + 1] == 0u8 && rb[w + 2] == 0u8 && rb[w + 3] == 0u8);
            } else {
                lemma_counter_bytes(ra, a.mem, j);
                lemma_counter_bytes(rb, b.mem, j);
            }
        }
        assert forall|i: int|
            0 <= i < ra.len() && !(spec_addr(0) <= i < spec_addr(
                MAX_INDEX as int,
            )) implies #[trigger] ra[i] == rb[i] by {
            if step_to(k) <= i < step_to(k) + PAGE_SIZE {
                let j = step_from(k) + (i - step_to(k));
                assert(a.mem[j] == b.mem[j]);
            } else {
                assert(a.mem[i] == b.mem[i]);
            }
        }
    }
}

/// A run of steps takes contents that are alike to contents that are alike.
pub proof fn lemma_steps_alike(a: FlashState, b: FlashState, lo: int, hi: int)
    requires
        a.wf(),
        b.wf(),
        0 <= lo,
        hi <= 4 * PAGE_COUNT,
        alike(a.mem, b.mem),
    ensures
        run_steps(a, lo, hi).wf(),
        run_steps(b, lo, hi).wf(),
        alike(run_steps(a, lo, hi).mem, run_steps(b, lo, hi).mem),
    decreases hi - lo,
{
    if lo < hi {
        lemma_steps_alike(a, b, lo, hi - 1);
        lemma_step_alike(run_steps(a, lo, hi - 1), run_steps(b, lo, hi - 1), hi - 1);
    }
}

/// The log that says "reverted" wipes out every difference between contents
/// that are alike.
pub proof fn lemma_reverted_alike(a: FlashState, b: FlashState)
    requires
        a.wf(),
        b.wf(),
        alike(a.mem, b.mem),
    ensures
        spec_set_as_reverted(a).mem == spec_set_as_reverted(b).mem,
{
    assert(spec_set_as_reverted(a).mem =~= spec_set_as_reverted(b).mem);
}

/// A power cut while a step is being marked does no harm either, but for the
/// last step of the forward swap, whose mark ends the update: an update that
/// is marked as done and was not confirmed is swapped back at the next boot.
///
/// When the engine runs again on what the cut left, the flash ends up alike
/// to what it holds after a run that nothing interrupted: the same
/// everywhere but for the values of marked counters. After the swap back it
/// is the same everywhere.
pub proof fn lemma_swap_resumable_in_mark(s0: FlashState, lo: int, k: int, c: FlashState)
    requires
        s0.wf(),
        c.wf(),
        spec_is_started(s0.mem),
        lo == 0 || lo == 2 * PAGE_COUNT,
        log_at(s0.mem, lo),
        lo <= k < lo + 2 * PAGE_COUNT,
        lo == 0 ==> k < 2 * PAGE_COUNT - 1,
        cut_in_mark(run_steps(s0, lo, k), k, c),
    ensures
        alike(spec_execute(c).mem, spec_execute(s0).mem),
        lo == 2 * PAGE_COUNT ==> spec_execute(c).mem == spec_execute(s0).mem,
{
    let hi = lo + 2 * PAGE_COUNT;
    let sk = run_steps(s0, lo, k);
    let t = spec_step(sk, k);
    lemma_run_advances(s0, lo, k);
    lemma_log_at_get(sk.mem, k);
    lemma_step_effect(sk, k);
    lemma_step_advances(sk, k);
    lemma_step_pages(k);
    lemma_log_at_get(s0.mem, lo);
    let w = spec_addr(k);
    if counter_erased(c.mem, k) {
        lemma_erased_word(c.mem[w], c.mem[w + 1], c.mem[w + 2], c.mem[w + 3]);
        lemma_erased_word(sk.mem[w], sk.mem[w + 1], sk.mem[w + 2], sk.mem[w + 3]);
        assert(counter_erased(sk.mem, k));
        assert(cut_in_step(sk, k, c));
        lemma_swap_resumable(s0, lo, k, c);
    } else {
        assert forall|j: int| 0 <= j < MAX_INDEX implies #[trigger] counter_erased(c.mem, j)
            == counter_erased(t.mem, j) by {
            if j != k {
                lemma_counter_bytes(c.mem, t.mem, j);
            }
        }
        assert(alike(c.mem, t.mem));
        lemma_alike_get(c.mem, t.mem);
        lemma_log_at_get(t.mem, k + 1);
        // the uninterrupted run, seen from behind step k
        lemma_steps_split(s0, lo, k, hi);
        lemma_steps_split(sk, k, k + 1, hi);
        assert(run_steps(sk, k, k + 1) == t) by {
            assert(run_steps(sk, k, k) == sk);
        }
        // the run on what the cut left: the steps up to k are skipped
        lemma_steps_split(c, lo, k + 1, hi);
        lemma_steps_skipped(c, lo, k + 1);
        lemma_steps_alike(c, t, k + 1, hi);
        if lo == 2 * PAGE_COUNT {
            lemma_reverted_alike(run_steps(c, k + 1, hi), run_steps(t, k + 1, hi));
        }
    }
}

/// Once the magic is spoiled the engine leaves the flash alone, whatever the
/// rest of the log holds: a swap back that was cut off while the log was
/// being rewritten is not taken up again, and the log does not say
/// "reverted".
pub proof fn lemma_idle_when_disarmed(c: FlashState)
    requires
        !spec_is_started(c.mem),
    ensures
        spec_execute(c) == c,
{
}

/// A power cut after the last step of the swap back and before the log is
/// touched does no harm: the engine finds every step done and goes on to
/// rewrite the log.
pub proof fn lemma_revert_end_resumable(s0: FlashState)
    requires
        s0.wf(),
        spec_is_started(s0.mem),
        log_at(s0.mem, 2 * PAGE_COUNT),
    ensures
        spec_execute(spec_do_revert(s0)) == spec_execute(s0),
{
    let c = spec_do_revert(s0);
    lemma_run_advances(s0, 2 * PAGE_COUNT, 4 * PAGE_COUNT);
    lemma_log_at_get(s0.mem, 2 * PAGE_COUNT);
    lemma_log_at_get(c.mem, 4 * PAGE_COUNT);
    lemma_revert_idempotent(c);
}

/// A power cut while the log is being rewritten after the swap back leaves
/// the two partitions as the swap back made them, whatever it leaves of the
/// log, as long as that is not armed: every byte before the log is what it
/// is after a run that nothing interrupted.
pub proof fn lemma_cut_in_log_rewrite(s0: FlashState, c: FlashState)
    requires
        s0.wf(),
        c.wf(),
        spec_is_started(s0.mem),
        log_at(s0.mem, 2 * PAGE_COUNT),
        !spec_is_started(c.mem),
        forall|i: int| 0 <= i < PROGRESS_PAGE ==> #[trigger] c.mem[i] == spec_do_revert(s0).mem[i],
    ensures
        forall|i: int|
            0 <= i < PROGRESS_PAGE ==> #[trigger] spec_execute(c).mem[i] == spec_execute(
                s0,
            ).mem[i],
{
    lemma_run_advances(s0, 2 * PAGE_COUNT, 4 * PAGE_COUNT);
    lemma_log_at_get(s0.mem, 2 * PAGE_COUNT);
    lemma_set_as_reverted(spec_do_revert(s0));
    lemma_idle_when_disarmed(c);
}

/// Where the byte at `i` comes from after `k` steps of the forward swap: a
/// page of the application that was replaced holds the same page of the
/// staging partition, a page of the staging partition that was replaced
/// holds the page before it of the application.
pub open spec fn forward_source(k: int, i: int) -> int {
    let n = PAGE_COUNT as int;
    if APP_START <= i < APP_END {
        if 2 * (n - 1 - (i - APP_START) / (PAGE_SIZE as int)) + 1 < k {
            i + (DFU_START - APP_START)
        } else {
            i
        }
    } else if DFU_START + PAGE_SIZE <= i < DFU_END {
        if 2 * (n - (i - DFU_START) / (PAGE_SIZE as int)) < k {
            i - (DFU_START - APP_START) - PAGE_SIZE
        } else {
            i
        }
    } else {
        i
    }
}

/// Where the byte at `i` comes from after `k` steps of the swap back: a page
/// of the staging partition that was replaced holds the same page of the
/// application, a page of the application that was replaced holds the page
/// after it of the staging partition.
pub open spec fn backward_source(k: int, i: int) -> int {
    if APP_START <= i < APP_END {
        if 2 * ((i - APP_START) / (PAGE_SIZE as int)) + 1 < k {
            i + (DFU_START - APP_START) + PAGE_SIZE
        } else {
            i
        }
    } else if DFU_START <= i < DFU_END - PAGE_SIZE {
        if 2 * ((i - DFU_START) / (PAGE_SIZE as int)) < k {
            i - (DFU_START - APP_START)
        } else {
            i
        }
    } else {
        i
    }
}

/// Whether `i` is a byte of one of the counters `lo..hi`.
pub open spec fn in_counters(lo: int, hi: int, i: int) -> bool {
    spec_addr(lo) <= i < spec_addr(hi)
}

/// The contents after the first `k` steps of the forward swap, byte by byte.
pub proof fn lemma_forward_contents(s0: FlashState, k: int)
    requires
        s0.wf(),
        log_at(s0.mem, 0),
        0 <= k <= 2 * PAGE_COUNT,
    ensures
        run_steps(s0, 0, k).wf(),
        forall|i: int|
            0 <= i < FLASH_SIZE && !in_counters(0, k, i) ==> #[trigger] run_steps(s0, 0, k).mem[i]
                == s0.mem[forward_source(k, i)],
    decreases k,
{
    if k > 0 {
        let before = run_steps(s0, 0, k - 1);
        let after = run_steps(s0, 0, k);
        lemma_forward_contents(s0, k - 1);
        lemma_run_advances(s0, 0, k - 1);
        lemma_log_at_get(before.mem, k - 1);
        lemma_step_effect(before, k - 1);
        lemma_step_pages(k - 1);
        assert(after == spec_step(before, k - 1));
        let to = step_to(k - 1);
        let from = step_from(k - 1);
        assert forall|i: int| 0 <= i < FLASH_SIZE && !in_counters(0, k, i) implies #[trigger]
            after.mem[i] == s0.mem[forward_source(k, i)] by {
            if to <= i < to + PAGE_SIZE {
                let j = from + (i - to);
                assert(after.mem[i] == before.mem[j]);
                assert(before.mem[j] == s0.mem[forward_source(k - 1, j)]);
                assert(forward_source(k - 1, j) == j);
                assert(forward_source(k, i) == j);
            } else {
                assert(after.mem[i] == before.mem[i]);
                assert(forward_source(k, i) == forward_source(k - 1, i));
            }
        }
    }
}

/// The contents after the first `k` steps of the swap back, byte by byte.
pub proof fn lemma_backward_contents(u: FlashState, k: int)
    requires
        u.wf(),
        log_at(u.mem, 2 * PAGE_COUNT),
        0 <= k <= 2 * PAGE_COUNT,
    ensures
        run_steps(u, 2 * PAGE_COUNT, 2 * PAGE_COUNT + k).wf(),
        forall|i: int|
            0 <= i < FLASH_SIZE && !in_counters(2 * PAGE_COUNT, 2 * PAGE_COUNT + k, i)
                ==> #[trigger] run_steps(u, 2 * PAGE_COUNT, 2 * PAGE_COUNT + k).mem[i]
                == u.mem[backward_source(k, i)],
    decreases k,
{
    if k > 0 {
        let lo = 2 * PAGE_COUNT;
        let before = run_steps(u, lo, lo + k - 1);
        let after = run_steps(u, lo, lo + k);
        lemma_backward_contents(u, k - 1);
        lemma_run_advances(u, lo, lo + k - 1);
        lemma_log_at_get(before.mem, lo + k - 1);
        lemma_step_effect(before, lo + k - 1);
        lemma_step_pages(lo + k - 1);
        assert(after == spec_step(before, lo + k - 1));
        let to = step_to(lo + k - 1);
        let from = step_from(lo + k - 1);
        assert forall|i: int| 0 <= i < FLASH_SIZE && !in_counters(lo, lo + k, i) implies #[trigger]
            after.mem[i] == u.mem[backward_source(k, i)] by {
            if to <= i < to + PAGE_SIZE {
                let j = from + (i - to);
                assert(after.mem[i] == before.mem[j]);
                assert(before.mem[j] == u.mem[backward_source(k - 1, j)]);
                assert(backward_source(k - 1, j) == j);
                assert(backward_source(k, i) == j);
            } else {
                assert(after.mem[i] == before.mem[i]);
                assert(backward_source(k, i) == backward_source(k - 1, i));
            }
        }
    }
}

/// `after` holds what the forward swap makes of `before`: the first pages of
/// the staging partition are in the application, the application is one
/// page up in the staging partition, whose first page stayed, the log stands
/// at `2 * PAGE_COUNT`, and nothing else but the counters has changed.
pub open spec fn updated(before: FlashState, after: FlashState) -> bool {
    &&& after.wf()
    &&& log_at(after.mem, 2 * PAGE_COUNT)
    &&& after.bytes(APP_START as int, APP_END - APP_START) == before.bytes(
        DFU_START as int,
        APP_END - APP_START,
    )
    &&& after.bytes(DFU_START + PAGE_SIZE, APP_END - APP_START) == before.bytes(
        APP_START as int,
        APP_END - APP_START,
    )
    &&& forall|i: int|
        0 <= i < FLASH_SIZE && !(APP_START <= i < APP_END) && !(DFU_START + PAGE_SIZE <= i
            < DFU_END) && !in_counters(0, 2 * PAGE_COUNT, i) ==> #[trigger] after.mem[i]
            == before.mem[i]
}

/// `after` holds what the swap back makes of `before`: the pages of the
/// staging partition after the first are in the application, the application
/// is in the first pages of the staging partition, whose last page stayed,
/// the log stands at `4 * PAGE_COUNT`, and nothing else but the counters has
/// changed.
pub open spec fn reverted(before: FlashState, after: FlashState) -> bool {
    &&& after.wf()
    &&& log_at(after.mem, 4 * PAGE_COUNT)
    &&& after.bytes(APP_START as int, APP_END - APP_START) == before.bytes(
        DFU_START + PAGE_SIZE,
        APP_END - APP_START,
    )
    &&& after.bytes(DFU_START as int, APP_END - APP_START) == before.bytes(
        APP_START as int,
        APP_END - APP_START,
    )
    &&& forall|i: int|
        0 <= i < FLASH_SIZE && !(APP_START <= i < APP_END) && !(DFU_START <= i < DFU_END
            - PAGE_SIZE) && !in_counters(2 * PAGE_COUNT, 4 * PAGE_COUNT, i)
            ==> #[trigger] after.mem[i] == before.mem[i]
}

/// The forward swap, run from a log that stands at 0, swaps.
pub proof fn lemma_update_swaps(s0: FlashState)
    requires
        s0.wf(),
        log_at(s0.mem, 0),
    ensures
        updated(s0, spec_do_update(s0)),
{
    let n = 2 * PAGE_COUNT;
    let r = spec_do_update(s0);
    lemma_forward_contents(s0, n);
    lemma_run_advances(s0, 0, n);
    let len = APP_END - APP_START;
    let app_after = r.bytes(APP_START as int, len);
    let dfu_before = s0.bytes(DFU_START as int, len);
    assert forall|o: int| 0 <= o < len implies #[trigger] app_after[o] == dfu_before[o] by {
        assert(forward_source(n, APP_START + o) == DFU_START + o);
    }
    assert(app_after =~= dfu_before);
    let up_after = r.bytes(DFU_START + PAGE_SIZE, len);
    let app_before = s0.bytes(APP_START as int, len);
    assert forall|o: int| 0 <= o < len implies #[trigger] up_after[o] == app_before[o] by {
        assert(forward_source(n, DFU_START + PAGE_SIZE + o) == APP_START + o);
    }
    assert(up_after =~= app_before);
    assert forall|i: int|
        0 <= i < FLASH_SIZE && !(APP_START <= i < APP_END) && !(DFU_START + PAGE_SIZE <= i
            < DFU_END) && !in_counters(0, n, i) implies #[trigger] r.mem[i] == s0.mem[i] by {
        assert(forward_source(n, i) == i);
    }
}

/// The swap back, run from a log that stands at `2 * PAGE_COUNT`, swaps back.
pub proof fn lemma_revert_swaps(u: FlashState)
    requires
        u.wf(),
        log_at(u.mem, 2 * PAGE_COUNT),
    ensures
        reverted(u, spec_do_revert(u)),
{
    let n = 2 * PAGE_COUNT;
    let r = spec_do_revert(u);
    lemma_backward_contents(u, n);
    lemma_run_advances(u, n, 2 * n);
    let len = APP_END - APP_START;
    let app_after = r.bytes(APP_START as int, len);
    let up_before = u.bytes(DFU_START + PAGE_SIZE, len);
    assert forall|o: int| 0 <= o < len implies #[trigger] app_after[o] == up_before[o] by {
        assert(backward_source(n, APP_START + o) == DFU_START + PAGE_SIZE + o);
    }
    assert(app_after =~= up_before);
    let dfu_after = r.bytes(DFU_START as int, len);
    let app_before = u.bytes(APP_START as int, len);
    assert forall|o: int| 0 <= o < len implies #[trigger] dfu_after[o] == app_before[o] by {
        assert(backward_source(n, DFU_START + o) == APP_START + o);
    }
    assert(dfu_after =~= app_before);
    assert forall|i: int|
        0 <= i < FLASH_SIZE && !(APP_START <= i < APP_END) && !(DFU_START <= i < DFU_END
            - PAGE_SIZE) && !in_counters(n, 2 * n, i) implies #[trigger] r.mem[i] == u.mem[i] by {
        assert(backward_source(n, i) == i);
    }
}

/// `after` holds what the engine makes of `before` when it rolls an update
/// back: the pages of the staging partition after the first are in the
/// application, the application is in the first pages of the staging
/// partition, and the log is disarmed and says "reverted".
pub open spec fn rolled_back(before: FlashState, after: FlashState) -> bool {
    &&& after.wf()
    &&& after.word(PROGRESS_PAGE as int) == SWAP_REVERTED_MAGIC
    &&& spec_get(after.mem) == 0
    &&& after.bytes(APP_START as int, APP_END - APP_START) == before.bytes(
        DFU_START + PAGE_SIZE,
        APP_END - APP_START,
    )
    &&& after.bytes(DFU_START as int, APP_END - APP_START) == before.bytes(
        APP_START as int,
        APP_END - APP_START,
    )
    &&& forall|i: int|
        0 <= i < PROGRESS_PAGE && !(APP_START <= i < APP_END) && !(DFU_START <= i < DFU_END
            - PAGE_SIZE) ==> #[trigger] after.mem[i] == before.mem[i]
}

/// What the engine does, case by case: nothing without the magic; the
/// forward swap on a log that is armed and stands at 0; the swap back and
/// the rewriting of the log on a log that is armed and stands at
/// `2 * PAGE_COUNT`.
pub proof fn lemma_execute(s: FlashState)
    requires
        s.wf(),
    ensures
        !spec_is_started(s.mem) ==> spec_execute(s) == s,
        spec_is_started(s.mem) && log_at(s.mem, 0) ==> updated(s, spec_execute(s)),
        spec_is_started(s.mem) && log_at(s.mem, 2 * PAGE_COUNT) ==> rolled_back(
            s,
            spec_execute(s),
        ),
{
    if spec_is_started(s.mem) {
        if log_at(s.mem, 0) {
            lemma_log_at_get(s.mem, 0);
            lemma_update_swaps(s);
        }
        if log_at(s.mem, 2 * PAGE_COUNT) {
            lemma_log_at_get(s.mem, 2 * PAGE_COUNT);
            lemma_revert_swaps(s);
            let mid = spec_do_revert(s);
            let r = spec_execute(s);
            lemma_set_as_reverted(mid);
            let len = APP_END - APP_START;
            assert(r.bytes(APP_START as int, len) =~= mid.bytes(APP_START as int, len));
            assert(r.bytes(DFU_START as int, len) =~= mid.bytes(DFU_START as int, len));
        }
    }
}

/// The swap back undoes the forward swap: the application holds what it held
/// before the update, and the staging partition holds the new image again in
/// its first pages.
pub proof fn lemma_revert_restores(s0: FlashState)
    requires
        s0.wf(),
        log_at(s0.mem, 0),
    ensures
        spec_do_revert(spec_do_update(s0)).bytes(APP_START as int, APP_END - APP_START)
            == s0.bytes(APP_START as int, APP_END - APP_START),
        spec_do_revert(spec_do_update(s0)).bytes(DFU_START as int, APP_END - APP_START)
            == s0.bytes(DFU_START as int, APP_END - APP_START),
{
    lemma_update_swaps(s0);
    lemma_revert_swaps(spec_do_update(s0));
}

} // verus!
