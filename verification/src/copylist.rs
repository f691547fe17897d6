//! The copy-list executor: applies the items of an armed copy-list, each by a
//! plain copy, by writing out what an inflater produced, or by asking the
//! master boot record to replace the bootloader.
//!
//! The inflater and the master boot record are not part of this crate. What
//! the inflater returned, call by call, is handed in as a list of chunks; a
//! request to the master boot record is handed out as an `Outcome`.

pub mod laws;

use crate::crc32::{crc32, spec_crc32};
use crate::copylist::laws::{
    lemma_copy_result, lemma_copy_same, lemma_each_item_intact, lemma_inflate, lemma_item_frame,
    page_span, stream_bytes, stream_in_order, stream_total, verdict,
};
use crate::flash::{
    erase, erase_and_write_if_different, erase_count, page_aligned, spec_erase,
    spec_erase_and_write_if_different, write_count, Flash, FlashState, ERASED_BYTE, FLASH_SIZE,
    PAGE_SIZE,
};
use crate::model::{
    copylist_in, Copylist, Item, COPYLIST_SIZE, FLAG_BOOTLOADER, FLAG_COMPRESSED, MAX_ITEMS,
};
use crate::partitions::{BOOTLOADER_COPYLIST_START, BOOTLOADER_END, BOOTLOADER_START};
use vstd::prelude::*;
use vstd::slice::slice_subrange;

verus! {

/// Why an item could not be applied. Every one of these is fatal.
#[derive(Debug, Copy, Clone, Eq, PartialEq, Structural)]
pub enum Error {
    /// The inflater reported an error.
    InflateCorrupted,
    /// The inflater produced more than the item's destination size.
    InflateOverflow,
    /// The inflater finished with less than the item's destination size.
    InflateUnderflow,
    /// The inflater broke its interface: more than a page at once, less than
    /// a page without being done, or no answer at all.
    InflateProtocol,
    /// An item that is not compressed has different source and destination sizes.
    SizeMismatch,
    /// A bootloader item is marked as compressed.
    BootloaderCompressed,
    /// A bootloader item does not aim inside the bootloader partition.
    BootloaderRange,
    /// The flash driver would refuse: an address is not on a page boundary or
    /// a range leaves the flash.
    Flash,
    /// What an item left at its destination does not have the CRC it names.
    CrcMismatch,
}

/// How the work on an item, or on the list, ended where it did not fail.
#[derive(Debug, Copy, Clone, Eq, PartialEq, Structural)]
pub enum Outcome {
    /// Everything was applied.
    Done,
    /// The master boot record must now copy `len_words` words from `src` over
    /// the bootloader. It resets the device when it has done so; the list
    /// stays armed and is taken up again after that.
    CopyBootloader { src: u32, len_words: u32 },
}

/// What one call of the inflater returned.
#[derive(Debug, Copy, Clone, Eq, PartialEq, Structural)]
pub enum InflateStatus {
    /// The page buffer is full and there is more to come.
    More,
    /// The stream has ended.
    Done,
    /// The stream is broken.
    Failed,
}

/// One call of the inflater: its status and the bytes it left in the page buffer.
#[derive(Debug)]
pub struct Chunk {
    pub status: InflateStatus,
    pub data: Vec<u8>,
}

/// What to do with a chunk that is in order.
#[derive(Debug, Copy, Clone, Eq, PartialEq, Structural)]
pub struct ChunkPlan {
    /// How many bytes of the page buffer to write: the chunk's size rounded
    /// up to whole words.
    pub write_len: usize,
    /// How many bytes of the destination are still to come after this chunk.
    pub remaining: usize,
    /// Whether this was the last chunk.
    pub done: bool,
}

/// How an item is to be applied, once it has been found in order.
#[derive(Debug, Copy, Clone, Eq, PartialEq, Structural)]
pub enum ItemPlan {
    /// Copy `size` bytes, the item's size rounded up to whole words, from
    /// `src` to `dst`.
    Copy { dst: usize, src: usize, size: usize },
    /// Write what the inflater produces, `dst_size` bytes, to `dst`.
    Inflate { dst: usize, dst_size: usize },
    /// Have the `len` bytes at `src` brought over the bootloader at `dst`.
    Bootloader { dst: usize, src: usize, len: usize },
}

/// `n` rounded up to a multiple of the word size.
pub open spec fn spec_round_up_word(n: int) -> int {
    (n + 3) / 4 * 4
}

/// A page of zeros: the page buffer before the first chunk.
pub open spec fn blank_page() -> Seq<u8> {
    Seq::new(PAGE_SIZE as nat, |i: int| 0u8)
}

/// What `copy` does: one rewrite-if-different per page of `data`, the last
/// one with what is left.
pub open spec fn spec_copy(s: FlashState, dst: int, data: Seq<u8>) -> FlashState
    decreases data.len(),
{
    if data.len() == 0 {
        s
    } else {
        let n = if data.len() < PAGE_SIZE {
            data.len() as int
        } else {
            PAGE_SIZE as int
        };
        spec_copy(
            spec_erase_and_write_if_different(s, dst, data.take(n)),
            dst + PAGE_SIZE,
            data.skip(n),
        )
    }
}

/// What `plan_chunk` decides about a chunk of `size` bytes that came with
/// `status` while `remaining` bytes of the destination were still to come.
pub open spec fn spec_plan_chunk(status: InflateStatus, size: int, remaining: int) -> Result<
    ChunkPlan,
    Error,
> {
    if status == InflateStatus::Failed {
        Err(Error::InflateCorrupted)
    } else if size > PAGE_SIZE {
        Err(Error::InflateProtocol)
    } else if size > remaining {
        Err(Error::InflateOverflow)
    } else if status == InflateStatus::More && size != PAGE_SIZE {
        Err(Error::InflateProtocol)
    } else {
        Ok(
            ChunkPlan {
                write_len: spec_round_up_word(size) as usize,
                remaining: (remaining - size) as usize,
                done: status == InflateStatus::Done,
            },
        )
    }
}

/// How a stream ends that is done while `remaining` bytes are still to come.
pub open spec fn spec_check_complete(remaining: int) -> Result<(), Error> {
    if remaining != 0 {
        Err(Error::InflateUnderflow)
    } else {
        Ok(())
    }
}

/// The page buffer after the inflater left `data` at its start.
pub open spec fn refill(buf: Seq<u8>, data: Seq<u8>) -> Seq<u8> {
    data + buf.skip(data.len() as int)
}

/// What `copy_uncompress` does with the chunks from number `i` on, when the
/// page buffer holds `buf`, the next page goes to `at` and `remaining` bytes
/// are still to come.
pub open spec fn inflate_from(
    s: FlashState,
    buf: Seq<u8>,
    at: int,
    remaining: int,
    chunks: Seq<Chunk>,
    i: int,
) -> (FlashState, Result<(), Error>)
    decreases chunks.len() - i,
{
    if i < 0 || i >= chunks.len() {
        (s, Err(Error::InflateProtocol))
    } else {
        match spec_plan_chunk(chunks[i].status, chunks[i].data@.len() as int, remaining) {
            Err(e) => (s, Err(e)),
            Ok(plan) => {
                let filled = refill(buf, chunks[i].data@);
                let written = spec_erase_and_write_if_different(
                    s,
                    at,
                    filled.take(plan.write_len as int),
                );
                if plan.done {
                    (written, spec_check_complete(plan.remaining as int))
                } else {
                    inflate_from(
                        written,
                        filled,
                        at + PAGE_SIZE,
                        plan.remaining as int,
                        chunks,
                        i + 1,
                    )
                }
            },
        }
    }
}

/// What `copy_uncompress` does.
pub open spec fn spec_copy_uncompress(
    s: FlashState,
    dst: int,
    dst_size: int,
    chunks: Seq<Chunk>,
) -> (FlashState, Result<(), Error>) {
    inflate_from(s, blank_page(), dst, dst_size, chunks, 0)
}

/// The request that the master boot record copy `len` bytes from `src`:
/// the length is in words, rounded up.
pub open spec fn spec_bootloader_request(src: int, len: int) -> Outcome {
    Outcome::CopyBootloader { src: src as u32, len_words: ((len + 3) / 4) as u32 }
}

/// What `copy_bootloader` decides: nothing is to do where the bootloader is
/// there already, else the master boot record must copy it.
pub open spec fn spec_copy_bootloader(s: FlashState, dst: int, src: int, len: int) -> Outcome {
    if s.bytes(dst, len) == s.bytes(src, len) {
        Outcome::Done
    } else {
        spec_bootloader_request(src, len)
    }
}

/// What `plan_item` decides: the way to apply the item, or what is wrong with it.
pub open spec fn spec_plan_item(item: Item) -> Result<ItemPlan, Error> {
    let dst = item.dst as int;
    let src = item.src as int;
    if item.flags & FLAG_BOOTLOADER != 0 {
        if item.flags & FLAG_COMPRESSED != 0 {
            Err(Error::BootloaderCompressed)
        } else if item.dst_size != item.src_size {
            Err(Error::SizeMismatch)
        } else if !(BOOTLOADER_START <= dst < BOOTLOADER_END && dst + item.src_size
            <= BOOTLOADER_END) {
            Err(Error::BootloaderRange)
        } else if src + item.src_size > FLASH_SIZE {
            Err(Error::Flash)
        } else {
            Ok(
                ItemPlan::Bootloader {
                    dst: item.dst as usize,
                    src: item.src as usize,
                    len: item.src_size as usize,
                },
            )
        }
    } else if item.flags & FLAG_COMPRESSED != 0 {
        if !(page_aligned(dst) && dst + item.dst_size <= FLASH_SIZE) {
            Err(Error::Flash)
        } else {
            Ok(ItemPlan::Inflate { dst: item.dst as usize, dst_size: item.dst_size as usize })
        }
    } else {
        let size = spec_round_up_word(item.dst_size as int);
        if item.dst_size != item.src_size {
            Err(Error::SizeMismatch)
        } else if !(page_aligned(dst) && dst + size <= FLASH_SIZE && src + size <= FLASH_SIZE) {
            Err(Error::Flash)
        } else {
            Ok(
                ItemPlan::Copy {
                    dst: item.dst as usize,
                    src: item.src as usize,
                    size: size as usize,
                },
            )
        }
    }
}

/// What applying `item` does, before its destination is checked.
pub open spec fn spec_apply_item(s: FlashState, item: Item, chunks: Seq<Chunk>) -> (
    FlashState,
    Result<Outcome, Error>,
) {
    match spec_plan_item(item) {
        Err(e) => (s, Err(e)),
        Ok(ItemPlan::Copy { dst, src, size }) => (
            spec_copy(s, dst as int, s.bytes(src as int, size as int)),
            Ok(Outcome::Done),
        ),
        Ok(ItemPlan::Inflate { dst, dst_size }) => {
            let (after, r) = spec_copy_uncompress(s, dst as int, dst_size as int, chunks);
            match r {
                Ok(_) => (after, Ok(Outcome::Done)),
                Err(e) => (after, Err(e)),
            }
        },
        Ok(ItemPlan::Bootloader { dst, src, len }) => (
            s,
            Ok(spec_copy_bootloader(s, dst as int, src as int, len as int)),
        ),
    }
}

/// Whether the destination of `item` has the CRC that the item names.
pub open spec fn destination_intact(s: FlashState, item: Item) -> bool {
    spec_crc32(s.bytes(item.dst as int, item.dst_size as int)) == item.dst_crc
}

/// What `execute_item` does: apply the item, then check its destination.
pub open spec fn spec_execute_item(s: FlashState, item: Item, chunks: Seq<Chunk>) -> (
    FlashState,
    Result<Outcome, Error>,
) {
    let (after, r) = spec_apply_item(s, item, chunks);
    if r == Ok::<Outcome, Error>(Outcome::Done) && !destination_intact(after, item) {
        (after, Err(Error::CrcMismatch))
    } else {
        (after, r)
    }
}

/// The chunks handed in for item `i`: none where the list of lists is too short.
pub open spec fn chunks_for(inflated: Seq<Vec<Chunk>>, i: int) -> Seq<Chunk> {
    if 0 <= i < inflated.len() {
        inflated[i]@
    } else {
        Seq::empty()
    }
}

/// What `do_execute` does with the first `n` items: one after the other,
/// until one fails or hands over to the master boot record.
pub open spec fn run_items(s: FlashState, items: Seq<Item>, inflated: Seq<Vec<Chunk>>, n: int) -> (
    FlashState,
    Result<Outcome, Error>,
)
    decreases n,
{
    if n <= 0 {
        (s, Ok(Outcome::Done))
    } else {
        let (before, r) = run_items(s, items, inflated, n - 1);
        if r == Ok::<Outcome, Error>(Outcome::Done) {
            spec_execute_item(before, items[n - 1], chunks_for(inflated, n - 1))
        } else {
            (before, r)
        }
    }
}

/// What `execute` does: nothing where the control page holds no valid list;
/// else the listed items, and the erase of the control page when all of them
/// are done.
pub open spec fn spec_execute(s: FlashState, inflated: Seq<Vec<Chunk>>) -> (
    FlashState,
    Result<Outcome, Error>,
) {
    let list = copylist_in(s.bytes(BOOTLOADER_COPYLIST_START as int, COPYLIST_SIZE as int));
    if !list.is_valid() {
        (s, Ok(Outcome::Done))
    } else {
        let (after, r) = run_items(s, list.listed(), inflated, list.count as int);
        if r == Ok::<Outcome, Error>(Outcome::Done) {
            (spec_erase(after, BOOTLOADER_COPYLIST_START as int), r)
        } else {
            (after, r)
        }
    }
}

/// `n` rounded up to a multiple of the word size.
pub fn round_up_word(n: usize) -> (m: usize)
    requires
        n + 3 <= usize::MAX,
    ensures
        m == spec_round_up_word(n as int),
        n <= m < n + 4,
        m % 4 == 0,
{
    (n + 3) / 4 * 4
}

/// Copies `src` to `dst`, page by page, rewriting only the pages that differ:
/// where the destination holds `src` already, no page is erased and nothing
/// is written.
pub fn copy(flash: &mut Flash, dst: usize, src: &[u8])
    requires
        old(flash).wf(),
        page_aligned(dst as int),
        dst + src@.len() <= FLASH_SIZE,
        src@.len() % 4 == 0,
    ensures
        final(flash).wf(),
        final(flash)@ == spec_copy(old(flash)@, dst as int, src@),
        final(flash)@.bytes(dst as int, src@.len() as int) == src@,
        forall|i: int|
            0 <= i < FLASH_SIZE && !(dst <= i < dst + page_span(src@.len() as int))
                ==> #[trigger] final(flash)@.mem[i] == old(flash)@.mem[i],
        old(flash)@.bytes(dst as int, src@.len() as int) == src@ ==> final(flash)@.mem == old(flash)@.mem,
        old(flash)@.bytes(dst as int, src@.len() as int) == src@ ==> erase_count(
            final(flash)@.ops,
        ) == erase_count(old(flash)@.ops),
        old(flash)@.bytes(dst as int, src@.len() as int) == src@ ==> write_count(
            final(flash)@.ops,
        ) == write_count(old(flash)@.ops),
{
    proof {
        lemma_copy_result(flash@, dst as int, src@);
        if flash@.bytes(dst as int, src@.len() as int) == src@ {
            lemma_copy_same(flash@, dst as int, src@);
        }
    }
    let mut done: usize = 0;
    let mut at: usize = dst;
    assert(src@.skip(0) =~= src@);
    while done < src.len()
        invariant
            flash.wf(),
            done <= src@.len(),
            done % 4 == 0,
            dst + src@.len() <= FLASH_SIZE,
            src@.len() % 4 == 0,
            page_aligned(at as int),
            at <= FLASH_SIZE,
            done < src@.len() ==> at == dst + done,
            spec_copy(flash@, at as int, src@.skip(done as int)) == spec_copy(
                old(flash)@,
                dst as int,
                src@,
            ),
        decreases src@.len() - done,
    {
        let left: usize = src.len() - done;
        let n: usize = if left < PAGE_SIZE {
            left
        } else {
            PAGE_SIZE
        };
        let page = slice_subrange(src, done, done + n);
        proof {
            let rest = src@.skip(done as int);
            assert(rest.take(n as int) =~= page@);
            assert(rest.skip(n as int) =~= src@.skip(done + n));
        }
        erase_and_write_if_different(flash, at, page);
        done += n;
        at += PAGE_SIZE;
    }
    proof {
        assert(src@.skip(done as int).len() == 0);
    }
}

/// Decides what to do with one chunk of the inflater.
pub fn plan_chunk(status: InflateStatus, size: usize, remaining: usize) -> (r: Result<
    ChunkPlan,
    Error,
>)
    ensures
        r == spec_plan_chunk(status, size as int, remaining as int),
{
    match status {
        InflateStatus::Failed => {
            return Err(Error::InflateCorrupted);
        },
        _ => {},
    }
    if size > PAGE_SIZE {
        return Err(Error::InflateProtocol);
    }
    if size > remaining {
        return Err(Error::InflateOverflow);
    }
    let done: bool = match status {
        InflateStatus::Done => true,
        _ => false,
    };
    if !done && size != PAGE_SIZE {
        return Err(Error::InflateProtocol);
    }
    Ok(ChunkPlan { write_len: round_up_word(size), remaining: remaining - size, done })
}

/// How a stream ends that is done while `remaining` bytes of the destination
/// are still to come: well if there are none, else with an underflow.
pub fn check_complete(remaining: usize) -> (r: Result<(), Error>)
    ensures
        r == spec_check_complete(remaining as int),
{
    if remaining != 0 {
        return Err(Error::InflateUnderflow);
    }
    Ok(())
}

fn new_page_buffer() -> (buf: Vec<u8>)
    ensures
        buf@ == blank_page(),
{
    let mut buf: Vec<u8> = Vec::new();
    let mut i: usize = 0;
    while i < PAGE_SIZE
        invariant
            i <= PAGE_SIZE,
            buf@.len() == i,
            forall|j: int| 0 <= j < i ==> buf@[j] == 0u8,
        decreases PAGE_SIZE - i,
    {
        buf.push(0);
        i += 1;
    }
    assert(buf@ =~= blank_page());
    buf
}

fn fill_page_buffer(buf: &mut Vec<u8>, data: &[u8])
    requires
        old(buf)@.len() == PAGE_SIZE,
        data@.len() <= PAGE_SIZE,
    ensures
        final(buf)@ == refill(old(buf)@, data@),
        final(buf)@.len() == PAGE_SIZE,
{
    let mut i: usize = 0;
    while i < data.len()
        invariant
            i <= data@.len(),
            data@.len() <= PAGE_SIZE,
            buf@.len() == PAGE_SIZE,
            forall|j: int|
                0 <= j < PAGE_SIZE ==> buf@[j] == if j < i {
                    data@[j]
                } else {
                    old(buf)@[j]
                },
        decreases data@.len() - i,
    {
        buf.set(i, data[i]);
        i += 1;
    }
    assert(buf@ =~= refill(old(buf)@, data@));
}

/// Writes what the inflater produced to `dst`, one page per chunk, and checks
/// that it produced `dst_size` bytes, no more and no less.
#[verifier::loop_isolation(false)]
pub fn copy_uncompress(flash: &mut Flash, dst: usize, dst_size: usize, chunks: &[Chunk]) -> (r:
    Result<(), Error>)
    requires
        old(flash).wf(),
        page_aligned(dst as int),
        dst + dst_size <= FLASH_SIZE,
    ensures
        final(flash).wf(),
        (final(flash)@, r) == spec_copy_uncompress(
            old(flash)@,
            dst as int,
            dst_size as int,
            chunks@,
        ),
        r is Ok ==> stream_total(chunks@, 0) == dst_size && final(flash)@.bytes(
            dst as int,
            dst_size as int,
        ) == stream_bytes(chunks@, 0),
        stream_in_order(chunks@, 0) ==> r == verdict(stream_total(chunks@, 0), dst_size as int),
        forall|i: int|
            0 <= i < FLASH_SIZE && !(dst <= i < dst + page_span(dst_size as int))
                ==> #[trigger] final(flash)@.mem[i] == old(flash)@.mem[i],
{
    proof {
        lemma_inflate(flash@, blank_page(), dst as int, dst_size as int, chunks@, 0);
    }
    let mut buf = new_page_buffer();
    let mut at: usize = dst;
    let mut remaining: usize = dst_size;
    let mut i: usize = 0;
    while i < chunks.len()
        invariant
            flash.wf(),
            buf@.len() == PAGE_SIZE,
            page_aligned(at as int),
            at + remaining <= FLASH_SIZE,
            i <= chunks@.len(),
            inflate_from(flash@, buf@, at as int, remaining as int, chunks@, i as int)
                == spec_copy_uncompress(old(flash)@, dst as int, dst_size as int, chunks@),
        decreases chunks@.len() - i,
    {
        let chunk = &chunks[i];
        let plan = match plan_chunk(chunk.status, chunk.data.len(), remaining) {
            Err(e) => {
                return Err(e);
            },
            Ok(plan) => plan,
        };
        fill_page_buffer(&mut buf, chunk.data.as_slice());
        let page = slice_subrange(buf.as_slice(), 0, plan.write_len);
        assert(page@ =~= buf@.take(plan.write_len as int));
        erase_and_write_if_different(flash, at, page);
        if plan.done {
            return check_complete(plan.remaining);
        }
        at += PAGE_SIZE;
        remaining = plan.remaining;
        i += 1;
    }
    Err(Error::InflateProtocol)
}

/// The request that the master boot record copy `len` bytes from `src` over
/// the bootloader. It counts in words, so the length is rounded up.
pub fn bootloader_request(src: usize, len: usize) -> (request: Outcome)
    requires
        src + len <= FLASH_SIZE,
    ensures
        request == spec_bootloader_request(src as int, len as int),
{
    Outcome::CopyBootloader { src: src as u32, len_words: ((len + 3) / 4) as u32 }
}

/// Decides how to bring the `len` bytes at `src` over the bootloader at `dst`:
/// nothing is to do where they are there already; else the master boot
/// record must copy them.
pub fn copy_bootloader(flash: &Flash, dst: usize, src: usize, len: usize) -> (outcome: Outcome)
    requires
        flash.wf(),
        BOOTLOADER_START <= dst < BOOTLOADER_END,
        dst + len <= BOOTLOADER_END,
        src + len <= FLASH_SIZE,
    ensures
        outcome == spec_copy_bootloader(flash@, dst as int, src as int, len as int),
{
    let data = flash.read(src, len);
    if flash.holds(dst, data.as_slice()) {
        return Outcome::Done;
    }
    bootloader_request(src, len)
}

/// Decides how an item is to be applied. A bootloader item must not be
/// compressed, must have equal sizes and must aim inside the bootloader
/// partition; a compressed item must aim at a page boundary and stay inside
/// the flash; a plain item must have equal sizes, aim at a page boundary, and
/// its source and destination, rounded up to whole words, must stay inside
/// the flash.
pub fn plan_item(item: &Item) -> (plan: Result<ItemPlan, Error>)
    ensures
        plan == spec_plan_item(*item),
{
    let dst: usize = item.dst as usize;
    let src: usize = item.src as usize;
    let dst_size: usize = item.dst_size as usize;
    if item.flags & FLAG_BOOTLOADER != 0 {
        if item.flags & FLAG_COMPRESSED != 0 {
            return Err(Error::BootloaderCompressed);
        }
        if item.dst_size != item.src_size {
            return Err(Error::SizeMismatch);
        }
        if dst < BOOTLOADER_START || dst >= BOOTLOADER_END || dst_size > BOOTLOADER_END - dst {
            return Err(Error::BootloaderRange);
        }
        if src > FLASH_SIZE || dst_size > FLASH_SIZE - src {
            return Err(Error::Flash);
        }
        Ok(ItemPlan::Bootloader { dst, src, len: dst_size })
    } else if item.flags & FLAG_COMPRESSED != 0 {
        if dst % PAGE_SIZE != 0 || dst > FLASH_SIZE || dst_size > FLASH_SIZE - dst {
            return Err(Error::Flash);
        }
        Ok(ItemPlan::Inflate { dst, dst_size })
    } else {
        if item.dst_size != item.src_size {
            return Err(Error::SizeMismatch);
        }
        if dst_size > FLASH_SIZE {
            return Err(Error::Flash);
        }
        let size: usize = round_up_word(dst_size);
        if dst % PAGE_SIZE != 0 || dst > FLASH_SIZE || size > FLASH_SIZE - dst || src > FLASH_SIZE
            || size > FLASH_SIZE - src {
            return Err(Error::Flash);
        }
        Ok(ItemPlan::Copy { dst, src, size })
    }
}

/// Applies one item and checks the CRC of what it left at its destination.
/// `chunks` is what the inflater returned for the item's source; it is read
/// for a compressed item only.
pub fn execute_item(flash: &mut Flash, item: &Item, chunks: &[Chunk]) -> (r: Result<
    Outcome,
    Error,
>)
    requires
        old(flash).wf(),
    ensures
        final(flash).wf(),
        (final(flash)@, r) == spec_execute_item(old(flash)@, *item, chunks@),
        r == Ok::<Outcome, Error>(Outcome::Done) ==> destination_intact(final(flash)@, *item),
        forall|i: int|
            0 <= i < FLASH_SIZE && !(item.dst <= i < item.dst + page_span(item.dst_size as int))
                ==> #[trigger] final(flash)@.mem[i] == old(flash)@.mem[i],
{
    proof {
        lemma_item_frame(flash@, *item, chunks@);
    }
    match plan_item(item) {
        Err(e) => {
            return Err(e);
        },
        Ok(ItemPlan::Copy { dst, src, size }) => {
            let data = flash.read(src, size);
            copy(flash, dst, data.as_slice());
        },
        Ok(ItemPlan::Inflate { dst, dst_size }) => {
            match copy_uncompress(flash, dst, dst_size, chunks) {
                Ok(_) => {},
                Err(e) => {
                    return Err(e);
                },
            }
        },
        Ok(ItemPlan::Bootloader { dst, src, len }) => {
            match copy_bootloader(flash, dst, src, len) {
                Outcome::Done => {},
                request => {
                    return Ok(request);
                },
            }
        },
    }
    let written = flash.read(item.dst as usize, item.dst_size as usize);
    if crc32(written.as_slice()) != item.dst_crc {
        return Err(Error::CrcMismatch);
    }
    Ok(Outcome::Done)
}

/// Applies the listed items in order. Stops at the first one that fails or
/// that hands over to the master boot record. When all are done, each of
/// them had, right after it was applied, a destination with the CRC that it
/// names.
pub fn do_execute(flash: &mut Flash, copylist: &Copylist, inflated: &Vec<Vec<Chunk>>) -> (r:
    Result<Outcome, Error>)
    requires
        old(flash).wf(),
        copylist.count <= MAX_ITEMS,
    ensures
        final(flash).wf(),
        (final(flash)@, r) == run_items(
            old(flash)@,
            copylist@.listed(),
            inflated@,
            copylist.count as int,
        ),
        r == Ok::<Outcome, Error>(Outcome::Done) ==> forall|i: int|
            0 <= i < copylist.count ==> destination_intact(
                run_items(old(flash)@, copylist@.listed(), inflated@, i + 1).0,
                #[trigger] copylist@.listed()[i],
            ),
{
    let none: Vec<Chunk> = Vec::new();
    let count: usize = copylist.count as usize;
    let mut i: usize = 0;
    while i < count
        invariant
            flash.wf(),
            i <= count,
            count == copylist.count,
            count <= MAX_ITEMS,
            none@.len() == 0,
            (flash@, Ok::<Outcome, Error>(Outcome::Done)) == run_items(
                old(flash)@,
                copylist@.listed(),
                inflated@,
                i as int,
            ),
        decreases count - i,
    {
        let chunks: &[Chunk] = if i < inflated.len() {
            inflated[i].as_slice()
        } else {
            none.as_slice()
        };
        assert(chunks@ =~= chunks_for(inflated@, i as int));
        let ghost before = flash@;
        let r = execute_item(flash, &copylist.items[i], chunks);
        proof {
            assert(copylist@.listed()[i as int] == copylist.items@[i as int]);
            assert(run_items(old(flash)@, copylist@.listed(), inflated@, i + 1)
                == spec_execute_item(before, copylist.items@[i as int], chunks@));
        }
        match r {
            Ok(Outcome::Done) => {},
            other => {
                proof {
                    lemma_run_items_stops(
                        old(flash)@,
                        copylist@.listed(),
                        inflated@,
                        i + 1,
                        count as int,
                    );
                }
                return other;
            },
        }
        i += 1;
    }
    proof {
        assert forall|k: int| 0 <= k < copylist.count implies destination_intact(
            run_items(old(flash)@, copylist@.listed(), inflated@, k + 1).0,
            #[trigger] copylist@.listed()[k],
        ) by {
            lemma_each_item_intact(
                old(flash)@,
                copylist@.listed(),
                inflated@,
                copylist.count as int,
                k,
            );
        }
    }
    Ok(Outcome::Done)
}

/// Once an item has failed or handed over, the items after it change nothing.
pub proof fn lemma_run_items_stops(
    s: FlashState,
    items: Seq<Item>,
    inflated: Seq<Vec<Chunk>>,
    n: int,
    m: int,
)
    requires
        0 <= n <= m,
        run_items(s, items, inflated, n).1 != Ok::<Outcome, Error>(Outcome::Done),
    ensures
        run_items(s, items, inflated, m) == run_items(s, items, inflated, n),
    decreases m - n,
{
    if n < m {
        lemma_run_items_stops(s, items, inflated, n, m - 1);
    }
}

/// Runs the copy-list engine: where the control page holds a valid list, its
/// items are applied, and when all of them are done the page is erased. A
/// page that holds no valid list is left alone, and so is the rest of the
/// flash. `inflated` holds, for each
/// item by its number, what the inflater returned for it.
pub fn execute(flash: &mut Flash, inflated: &Vec<Vec<Chunk>>) -> (r: Result<Outcome, Error>)
    requires
        old(flash).wf(),
    ensures
        final(flash).wf(),
        (final(flash)@, r) == spec_execute(old(flash)@, inflated@),
        !copylist_in(
            old(flash)@.bytes(BOOTLOADER_COPYLIST_START as int, COPYLIST_SIZE as int),
        ).is_valid() ==> final(flash)@ == old(flash)@ && r == Ok::<Outcome, Error>(Outcome::Done),
        copylist_in(
            old(flash)@.bytes(BOOTLOADER_COPYLIST_START as int, COPYLIST_SIZE as int),
        ).is_valid() && r == Ok::<Outcome, Error>(Outcome::Done) ==> forall|k: int|
            BOOTLOADER_COPYLIST_START <= k < BOOTLOADER_COPYLIST_START + PAGE_SIZE
                ==> #[trigger] final(flash)@.mem[k] == ERASED_BYTE,
{
    let image = flash.read(BOOTLOADER_COPYLIST_START, COPYLIST_SIZE);
    let copylist = match Copylist::parse(image.as_slice()) {
        Some(list) => list,
        None => {
            return Ok(Outcome::Done);
        },
    };
    if !copylist.is_valid() {
        return Ok(Outcome::Done);
    }
    let r = do_execute(flash, &copylist, inflated);
    match r {
        Ok(Outcome::Done) => {
            erase(flash, BOOTLOADER_COPYLIST_START);
        },
        _ => {},
    }
    r
}

} // verus!
