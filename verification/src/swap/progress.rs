//! The progress log of a swap: a magic word followed by one counter word per
//! step. A counter that is no longer erased marks its step as done, so the
//! log moves forward by clearing bits only.

use crate::flash::{
    erase, lemma_program_byte, spec_erase, spec_write, Flash, FlashState, ERASED_BYTE,
    ERASED_WORD, FLASH_SIZE, PAGE_SIZE,
};
use crate::model::{SWAP_MAGIC, SWAP_REVERTED_MAGIC};
use crate::partitions::BOOTLOADER_COPYLIST_START;
use crate::word::{lemma_erased_word, lemma_word_of_bytes, push_word, word_byte, word_in};
use vstd::prelude::*;

verus! {

/// Address of the page that holds the log.
pub const PROGRESS_PAGE: usize = BOOTLOADER_COPYLIST_START;

/// Number of counters in the log, and the value of `get` when all are marked.
pub const MAX_INDEX: usize = 1022;

/// Address of counter `i`.
pub open spec fn spec_addr(i: int) -> int {
    PROGRESS_PAGE + 4 + i * 4
}

/// Whether counter `i` is still erased.
pub open spec fn counter_erased(mem: Seq<u8>, i: int) -> bool {
    word_in(mem, spec_addr(i)) == ERASED_WORD
}

/// The first erased counter at or after `i`, or `MAX_INDEX`.
pub open spec fn first_erased_from(mem: Seq<u8>, i: int) -> int
    decreases MAX_INDEX - i,
{
    if i >= MAX_INDEX {
        MAX_INDEX as int
    } else if counter_erased(mem, i) {
        i
    } else {
        first_erased_from(mem, i + 1)
    }
}

/// Whether a swap is armed.
pub open spec fn spec_is_started(mem: Seq<u8>) -> bool {
    word_in(mem, PROGRESS_PAGE as int) == SWAP_MAGIC
}

/// Number of steps that the log records as done.
pub open spec fn spec_get(mem: Seq<u8>) -> int {
    first_erased_from(mem, 0)
}

/// Four zero bytes.
pub open spec fn zero_word() -> Seq<u8> {
    seq![0u8, 0u8, 0u8, 0u8]
}

/// The four bytes of `w`, least significant first.
pub open spec fn word_image(w: u32) -> Seq<u8> {
    seq![word_byte(w, 0), word_byte(w, 1), word_byte(w, 2), word_byte(w, 3)]
}

/// What `set` does.
pub open spec fn spec_set(s: FlashState, i: int) -> FlashState {
    spec_write(s, spec_addr(i), zero_word())
}

/// What `reset` does: spoil the magic, then erase the page.
pub open spec fn spec_reset(s: FlashState) -> FlashState {
    spec_erase(spec_write(s, PROGRESS_PAGE as int, zero_word()), PROGRESS_PAGE as int)
}

/// What `set_as_reverted` does.
pub open spec fn spec_set_as_reverted(s: FlashState) -> FlashState {
    spec_write(spec_reset(s), PROGRESS_PAGE as int, word_image(SWAP_REVERTED_MAGIC))
}

/// `first_erased_from` finds the first erased counter: all before it are
/// marked, and it is erased itself unless the log is full.
pub proof fn lemma_first_erased(mem: Seq<u8>, i: int)
    requires
        0 <= i <= MAX_INDEX,
    ensures
        i <= first_erased_from(mem, i) <= MAX_INDEX,
        forall|j: int| i <= j < first_erased_from(mem, i) ==> !counter_erased(mem, j),
        first_erased_from(mem, i) < MAX_INDEX ==> counter_erased(
            mem,
            first_erased_from(mem, i),
        ),
    decreases MAX_INDEX - i,
{
    if i < MAX_INDEX && !counter_erased(mem, i) {
        lemma_first_erased(mem, i + 1);
    }
}

/// A number with all counters below it marked, and itself erased or the end
/// of the log, is what `get` returns.
pub proof fn lemma_get_is(mem: Seq<u8>, g: int)
    requires
        0 <= g <= MAX_INDEX,
        forall|j: int| 0 <= j < g ==> !counter_erased(mem, j),
        g < MAX_INDEX ==> counter_erased(mem, g),
    ensures
        spec_get(mem) == g,
{
    lemma_first_erased(mem, 0);
}

/// Marking a counter marks that counter and leaves the rest of the flash,
/// the magic and the other counters among it, as it is.
pub proof fn lemma_set(s: FlashState, i: int)
    requires
        s.wf(),
        0 <= i < MAX_INDEX,
    ensures
        spec_set(s, i).wf(),
        !counter_erased(spec_set(s, i).mem, i),
        forall|k: int|
            0 <= k < FLASH_SIZE && !(spec_addr(i) <= k < spec_addr(i) + 4) ==> #[trigger] spec_set(
                s,
                i,
            ).mem[k] == s.mem[k],
        forall|j: int|
            0 <= j < MAX_INDEX && j != i ==> #[trigger] counter_erased(spec_set(s, i).mem, j)
                == counter_erased(s.mem, j),
        spec_is_started(spec_set(s, i).mem) == spec_is_started(s.mem),
{
    lemma_program_byte();
    let r = spec_set(s, i).mem;
    let a = spec_addr(i);
    assert(r[a] == 0u8 && r[a + 1] == 0u8 && r[a + 2] == 0u8 && r[a + 3] == 0u8);
    lemma_erased_word(r[a], r[a + 1], r[a + 2], r[a + 3]);
    assert forall|j: int| 0 <= j < MAX_INDEX && j != i implies #[trigger] counter_erased(r, j)
        == counter_erased(s.mem, j) by {
        let b = spec_addr(j);
        assert(r[b] == s.mem[b] && r[b + 1] == s.mem[b + 1] && r[b + 2] == s.mem[b + 2] && r[b
            + 3] == s.mem[b + 3]);
    }
    let p = PROGRESS_PAGE as int;
    assert(r[p] == s.mem[p] && r[p + 1] == s.mem[p + 1] && r[p + 2] == s.mem[p + 2] && r[p + 3]
        == s.mem[p + 3]);
}

/// A log that was reset is an erased page; nothing else has changed.
pub proof fn lemma_reset(s: FlashState)
    requires
        s.wf(),
    ensures
        spec_reset(s).wf(),
        forall|k: int|
            PROGRESS_PAGE <= k < PROGRESS_PAGE + PAGE_SIZE ==> #[trigger] spec_reset(s).mem[k]
                == ERASED_BYTE,
        forall|k: int|
            0 <= k < PROGRESS_PAGE ==> #[trigger] spec_reset(s).mem[k] == s.mem[k],
        !spec_is_started(spec_reset(s).mem),
        spec_get(spec_reset(s).mem) == 0,
{
    let r = spec_reset(s).mem;
    let p = PROGRESS_PAGE as int;
    assert(r[p] == ERASED_BYTE && r[p + 1] == ERASED_BYTE && r[p + 2] == ERASED_BYTE && r[p + 3]
        == ERASED_BYTE);
    lemma_erased_word(r[p], r[p + 1], r[p + 2], r[p + 3]);
    let a = spec_addr(0);
    assert(r[a] == ERASED_BYTE && r[a + 1] == ERASED_BYTE && r[a + 2] == ERASED_BYTE && r[a + 3]
        == ERASED_BYTE);
    lemma_erased_word(r[a], r[a + 1], r[a + 2], r[a + 3]);
}

/// A log that was set as reverted holds the magic that says so and is
/// erased behind it; nothing else has changed.
pub proof fn lemma_set_as_reverted(s: FlashState)
    requires
        s.wf(),
    ensures
        spec_set_as_reverted(s).wf(),
        word_in(spec_set_as_reverted(s).mem, PROGRESS_PAGE as int) == SWAP_REVERTED_MAGIC,
        forall|k: int|
            PROGRESS_PAGE + 4 <= k < PROGRESS_PAGE + PAGE_SIZE ==> #[trigger] spec_set_as_reverted(
                s,
            ).mem[k] == ERASED_BYTE,
        forall|k: int|
            0 <= k < PROGRESS_PAGE ==> #[trigger] spec_set_as_reverted(s).mem[k] == s.mem[k],
        !spec_is_started(spec_set_as_reverted(s).mem),
        spec_get(spec_set_as_reverted(s).mem) == 0,
{
    lemma_reset(s);
    lemma_program_byte();
    let r = spec_set_as_reverted(s).mem;
    let p = PROGRESS_PAGE as int;
    let m = word_image(SWAP_REVERTED_MAGIC);
    assert(r[p] == m[0] && r[p + 1] == m[1] && r[p + 2] == m[2] && r[p + 3] == m[3]);
    lemma_word_of_bytes(SWAP_REVERTED_MAGIC);
    let a = spec_addr(0);
    assert(r[a] == ERASED_BYTE && r[a + 1] == ERASED_BYTE && r[a + 2] == ERASED_BYTE && r[a + 3]
        == ERASED_BYTE);
    lemma_erased_word(r[a], r[a + 1], r[a + 2], r[a + 3]);
}

/// Whether a swap is armed: the first word of the page is `SWAP_MAGIC`.
pub fn is_started(flash: &Flash) -> (started: bool)
    requires
        flash.wf(),
    ensures
        started == spec_is_started(flash@.mem),
{
    flash.word(PROGRESS_PAGE) == SWAP_MAGIC
}

/// Address of counter `i`.
pub fn addr(i: usize) -> (a: usize)
    requires
        spec_addr(i as int) <= usize::MAX,
    ensures
        a == spec_addr(i as int),
{
    PROGRESS_PAGE + 4 + i * 4
}

/// The counters of the log, in order.
pub fn read_counters(flash: &Flash) -> (words: Vec<u32>)
    requires
        flash.wf(),
    ensures
        words@.len() == MAX_INDEX,
        forall|i: int|
            0 <= i < MAX_INDEX ==> #[trigger] words@[i] == word_in(flash@.mem, spec_addr(i)),
{
    let mut words: Vec<u32> = Vec::new();
    let mut i: usize = 0;
    while i < MAX_INDEX
        invariant
            i <= MAX_INDEX,
            flash.wf(),
            words@.len() == i,
            forall|j: int| 0 <= j < i ==> #[trigger] words@[j] == word_in(flash@.mem, spec_addr(j)),
        decreases MAX_INDEX - i,
    {
        words.push(flash.word(addr(i)));
        i += 1;
    }
    words
}

/// How many counters are marked before the first erased one.
pub fn count_marked(words: &[u32]) -> (n: usize)
    ensures
        n <= words@.len(),
        forall|j: int| 0 <= j < n ==> words@[j] != ERASED_WORD,
        n < words@.len() ==> words@[n as int] == ERASED_WORD,
{
    let mut i: usize = 0;
    while i < words.len()
        invariant
            i <= words@.len(),
            forall|j: int| 0 <= j < i ==> words@[j] != ERASED_WORD,
        decreases words@.len() - i,
    {
        if words[i] == ERASED_WORD {
            return i;
        }
        i += 1;
    }
    i
}

/// Number of steps done: the index of the first erased counter, or
/// `MAX_INDEX` when none is erased.
pub fn get(flash: &Flash) -> (index: usize)
    requires
        flash.wf(),
    ensures
        index == spec_get(flash@.mem),
        index <= MAX_INDEX,
{
    let words = read_counters(flash);
    let index = count_marked(words.as_slice());
    proof {
        assert forall|j: int| 0 <= j < index implies !counter_erased(flash@.mem, j) by {
            assert(words@[j] != ERASED_WORD);
        }
        lemma_get_is(flash@.mem, index as int);
    }
    index
}

/// Marks step `i` as done by programming zeros into its counter.
pub fn set(flash: &mut Flash, i: usize)
    requires
        old(flash).wf(),
        i < MAX_INDEX,
    ensures
        final(flash).wf(),
        final(flash)@ == spec_set(old(flash)@, i as int),
        !counter_erased(final(flash)@.mem, i as int),
        forall|j: int|
            0 <= j < MAX_INDEX && j != i ==> #[trigger] counter_erased(final(flash)@.mem, j)
                == counter_erased(old(flash)@.mem, j),
        forall|k: int|
            0 <= k < FLASH_SIZE && !(spec_addr(i as int) <= k < spec_addr(i as int) + 4)
                ==> #[trigger] final(flash)@.mem[k] == old(flash)@.mem[k],
{
    proof {
        lemma_set(flash@, i as int);
    }
    let mut zeros: Vec<u8> = Vec::new();
    push_word(&mut zeros, 0);
    proof {
        assert(0u32 & 0xff == 0 && (0u32 >> 8) & 0xff == 0 && (0u32 >> 16) & 0xff == 0 && (0u32
            >> 24) & 0xff == 0) by (bit_vector);
        assert(zeros@ =~= zero_word());
    }
    crate::flash::write(flash, addr(i), zeros.as_slice());
}

/// Disarms the log. The magic is spoiled before the page is erased, so that
/// an erase cut short cannot leave an armed log behind.
pub fn reset(flash: &mut Flash)
    requires
        old(flash).wf(),
    ensures
        final(flash).wf(),
        final(flash)@ == spec_reset(old(flash)@),
        !spec_is_started(final(flash)@.mem),
        spec_get(final(flash)@.mem) == 0,
        forall|k: int|
            PROGRESS_PAGE <= k < PROGRESS_PAGE + PAGE_SIZE ==> #[trigger] final(flash)@.mem[k]
                == ERASED_BYTE,
        forall|k: int|
            0 <= k < PROGRESS_PAGE ==> #[trigger] final(flash)@.mem[k] == old(flash)@.mem[k],
{
    proof {
        lemma_reset(flash@);
    }
    let mut zeros: Vec<u8> = Vec::new();
    push_word(&mut zeros, 0);
    proof {
        assert(0u32 & 0xff == 0 && (0u32 >> 8) & 0xff == 0 && (0u32 >> 16) & 0xff == 0 && (0u32
            >> 24) & 0xff == 0) by (bit_vector);
        assert(zeros@ =~= zero_word());
    }
    crate::flash::write(flash, PROGRESS_PAGE, zeros.as_slice());
    erase(flash, PROGRESS_PAGE);
}

/// Disarms the log and leaves `SWAP_REVERTED_MAGIC` in its first word.
pub fn set_as_reverted(flash: &mut Flash)
    requires
        old(flash).wf(),
    ensures
        final(flash).wf(),
        final(flash)@ == spec_set_as_reverted(old(flash)@),
        word_in(final(flash)@.mem, PROGRESS_PAGE as int) == SWAP_REVERTED_MAGIC,
        spec_get(final(flash)@.mem) == 0,
        forall|k: int|
            PROGRESS_PAGE + 4 <= k < PROGRESS_PAGE + PAGE_SIZE ==> #[trigger] final(flash)@.mem[k] == ERASED_BYTE,
        forall|k: int|
            0 <= k < PROGRESS_PAGE ==> #[trigger] final(flash)@.mem[k] == old(flash)@.mem[k],
{
    proof {
        lemma_set_as_reverted(flash@);
    }
    reset(flash);
    let mut magic: Vec<u8> = Vec::new();
    push_word(&mut magic, SWAP_REVERTED_MAGIC);
    assert(magic@ =~= word_image(SWAP_REVERTED_MAGIC));
    crate::flash::write(flash, PROGRESS_PAGE, magic.as_slice());
}

} // verus!
