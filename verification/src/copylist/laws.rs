//! What holds of the copy-list executor.

use crate::copylist::{
    chunks_for, destination_intact, inflate_from, lemma_run_items_stops, refill, run_items,
    spec_apply_item, spec_copy, spec_copy_uncompress, spec_execute_item, spec_plan_chunk,
    spec_plan_item, spec_round_up_word, Chunk, Error, InflateStatus, ItemPlan, Outcome,
};
use crate::flash::{
    erase_count, lemma_rewrite, lemma_rewrite_same, page_aligned,
    spec_erase_and_write_if_different, write_count, FlashState, FLASH_SIZE, PAGE_SIZE,
};
use crate::model::{Item, FLAG_BOOTLOADER, FLAG_COMPRESSED};
use vstd::prelude::*;

verus! {

/// `n` rounded up to whole pages.
pub open spec fn page_span(n: int) -> int {
    (n + PAGE_SIZE - 1) / (PAGE_SIZE as int) * PAGE_SIZE
}

/// After `copy` the flash holds the data at `dst`, and nothing outside the
/// pages that the data reaches into has changed.
pub proof fn lemma_copy_result(s: FlashState, dst: int, data: Seq<u8>)
    requires
        s.wf(),
        0 <= dst,
        page_aligned(dst),
        dst + data.len() <= FLASH_SIZE,
    ensures
        spec_copy(s, dst, data).wf(),
        spec_copy(s, dst, data).bytes(dst, data.len() as int) == data,
        forall|i: int|
            0 <= i < FLASH_SIZE && !(dst <= i < dst + page_span(data.len() as int))
                ==> #[trigger] spec_copy(s, dst, data).mem[i] == s.mem[i],
    decreases data.len(),
{
    if data.len() > 0 {
        let n = if data.len() < PAGE_SIZE {
            data.len() as int
        } else {
            PAGE_SIZE as int
        };
        let first = data.take(n);
        let rest = data.skip(n);
        let stepped = spec_erase_and_write_if_different(s, dst, first);
        let r = spec_copy(s, dst, data);
        lemma_rewrite(s, dst, first);
        lemma_copy_result(stepped, dst + PAGE_SIZE, rest);
        assert forall|k: int| 0 <= k < data.len() implies #[trigger] r.bytes(
            dst,
            data.len() as int,
        )[k] == data[k] by {
            if k < n {
                assert(stepped.bytes(dst, n)[k] == first[k]);
                assert(r.mem[dst + k] == stepped.mem[dst + k]);
            } else {
                assert(r.bytes(dst + PAGE_SIZE, rest.len() as int)[k - n] == rest[k - n]);
            }
        }
        assert(r.bytes(dst, data.len() as int) =~= data);
    } else {
        assert(s.bytes(dst, 0) =~= data);
    }
}

/// Where the destination holds the data already, `copy` erases no page and
/// writes nothing: the contents stay as they are.
pub proof fn lemma_copy_same(s: FlashState, dst: int, data: Seq<u8>)
    requires
        0 <= dst,
        dst + data.len() <= s.mem.len(),
        s.bytes(dst, data.len() as int) == data,
    ensures
        spec_copy(s, dst, data).mem == s.mem,
        erase_count(spec_copy(s, dst, data).ops) == erase_count(s.ops),
        write_count(spec_copy(s, dst, data).ops) == write_count(s.ops),
    decreases data.len(),
{
    if data.len() > 0 {
        let n = if data.len() < PAGE_SIZE {
            data.len() as int
        } else {
            PAGE_SIZE as int
        };
        let first = data.take(n);
        let rest = data.skip(n);
        assert(s.bytes(dst, n) =~= first);
        lemma_rewrite_same(s, dst, first);
        let stepped = s.pet();
        if rest.len() > 0 {
            assert(stepped.bytes(dst + PAGE_SIZE, rest.len() as int) =~= rest);
            lemma_copy_same(stepped, dst + PAGE_SIZE, rest);
        } else {
            assert(spec_copy(stepped, dst + PAGE_SIZE, rest) == stepped);
        }
    }
}

/// A plain item whose source and destination hold the same bytes erases no
/// page and leaves the contents as they are.
pub proof fn lemma_plain_copy_idempotent(s: FlashState, item: Item, chunks: Seq<Chunk>)
    requires
        s.wf(),
        item.flags & FLAG_BOOTLOADER == 0,
        item.flags & FLAG_COMPRESSED == 0,
        spec_apply_item(s, item, chunks).1 is Ok,
        s.bytes(item.src as int, spec_round_up_word(item.dst_size as int)) == s.bytes(
            item.dst as int,
            spec_round_up_word(item.dst_size as int),
        ),
    ensures
        spec_apply_item(s, item, chunks).0.mem == s.mem,
        erase_count(spec_apply_item(s, item, chunks).0.ops) == erase_count(s.ops),
        write_count(spec_apply_item(s, item, chunks).0.ops) == write_count(s.ops),
{
    let size = spec_round_up_word(item.dst_size as int);
    lemma_copy_same(s, item.dst as int, s.bytes(item.src as int, size));
}

/// How many bytes the inflater produced from chunk `i` on, up to the chunk
/// with which it stopped.
pub open spec fn stream_total(chunks: Seq<Chunk>, i: int) -> int
    decreases chunks.len() - i,
{
    if i < 0 || i >= chunks.len() {
        0
    } else if chunks[i].status == InflateStatus::More {
        chunks[i].data@.len() + stream_total(chunks, i + 1)
    } else {
        chunks[i].data@.len() as int
    }
}

/// The bytes that the inflater produced from chunk `i` on, up to the chunk
/// with which it stopped.
pub open spec fn stream_bytes(chunks: Seq<Chunk>, i: int) -> Seq<u8>
    decreases chunks.len() - i,
{
    if i < 0 || i >= chunks.len() {
        Seq::empty()
    } else if chunks[i].status == InflateStatus::More {
        chunks[i].data@ + stream_bytes(chunks, i + 1)
    } else {
        chunks[i].data@
    }
}

/// The inflater kept to its interface from chunk `i` on: full pages while
/// there was more to come, then a last chunk of at most a page with which
/// it was done.
pub open spec fn stream_in_order(chunks: Seq<Chunk>, i: int) -> bool
    decreases chunks.len() - i,
{
    if i < 0 || i >= chunks.len() {
        false
    } else {
        match chunks[i].status {
            InflateStatus::More => chunks[i].data@.len() == PAGE_SIZE && stream_in_order(
                chunks,
                i + 1,
            ),
            InflateStatus::Done => chunks[i].data@.len() <= PAGE_SIZE,
            InflateStatus::Failed => false,
        }
    }
}

/// What a stream that kept to the interface ends in: success exactly when it
/// produced as much as the destination takes.
pub open spec fn verdict(total: int, remaining: int) -> Result<(), Error> {
    if total == remaining {
        Ok(())
    } else if total > remaining {
        Err(Error::InflateOverflow)
    } else {
        Err(Error::InflateUnderflow)
    }
}

/// What `copy_uncompress` guarantees, stated from any point of the stream.
///
/// It succeeds only if the inflater produced exactly the bytes that were
/// still to come, and then the destination holds them. Where the inflater
/// kept to its interface, it fails with an overflow if there were more, and
/// with an underflow if there were fewer. Whatever happens, nothing outside
/// the pages of the destination changes.
pub proof fn lemma_inflate(
    s: FlashState,
    buf: Seq<u8>,
    at: int,
    remaining: int,
    chunks: Seq<Chunk>,
    i: int,
)
    requires
        s.wf(),
        buf.len() == PAGE_SIZE,
        0 <= at,
        page_aligned(at),
        0 <= remaining,
        at + remaining <= FLASH_SIZE,
        0 <= i,
    ensures
        inflate_from(s, buf, at, remaining, chunks, i).0.wf(),
        forall|j: int|
            0 <= j < FLASH_SIZE && !(at <= j < at + page_span(remaining)) ==> #[trigger] inflate_from(
                s,
                buf,
                at,
                remaining,
                chunks,
                i,
            ).0.mem[j] == s.mem[j],
        stream_total(chunks, i) >= 0,
        inflate_from(s, buf, at, remaining, chunks, i).1 is Ok ==> stream_total(chunks, i)
            == remaining && inflate_from(s, buf, at, remaining, chunks, i).0.bytes(at, remaining)
            == stream_bytes(chunks, i),
        stream_in_order(chunks, i) ==> inflate_from(s, buf, at, remaining, chunks, i).1
            == verdict(stream_total(chunks, i), remaining),
    decreases chunks.len() - i,
{
    let r = inflate_from(s, buf, at, remaining, chunks, i);
    if i < chunks.len() {
        let data = chunks[i].data@;
        let size = data.len() as int;
        if chunks[i].status == InflateStatus::More {
            lemma_stream_total_nonnegative(chunks, i + 1);
        }
        match spec_plan_chunk(chunks[i].status, size, remaining) {
            Err(e) => {},
            Ok(plan) => {
                let filled = refill(buf, data);
                let page = filled.take(plan.write_len as int);
                let written = spec_erase_and_write_if_different(s, at, page);
                assert(plan.write_len == spec_round_up_word(size));
                assert(plan.remaining == remaining - size);
                lemma_rewrite(s, at, page);
                assert(written.bytes(at, size) =~= data) by {
                    assert forall|k: int| 0 <= k < size implies #[trigger] written.bytes(
                        at,
                        size,
                    )[k] == data[k] by {
                        assert(written.bytes(at, page.len() as int)[k] == page[k]);
                    }
                }
                if plan.done {
                    assert(r.0 == written);
                    if r.1 is Ok {
                        assert(written.bytes(at, remaining) =~= stream_bytes(chunks, i));
                    }
                } else {
                    lemma_inflate(written, filled, at + PAGE_SIZE, remaining - size, chunks, i + 1);
                    assert(r == inflate_from(
                        written,
                        filled,
                        at + PAGE_SIZE,
                        remaining - size,
                        chunks,
                        i + 1,
                    ));
                    if r.1 is Ok {
                        let rest = stream_bytes(chunks, i + 1);
                        assert forall|k: int| 0 <= k < remaining implies #[trigger] r.0.bytes(
                            at,
                            remaining,
                        )[k] == (data + rest)[k] by {
                            if k < size {
                                assert(r.0.mem[at + k] == written.mem[at + k]);
                                assert(written.bytes(at, size)[k] == data[k]);
                            } else {
                                assert(r.0.bytes(at + PAGE_SIZE, remaining - size)[k - size]
                                    == rest[k - size]);
                            }
                        }
                        assert(r.0.bytes(at, remaining) =~= data + rest);
                    }
                }
            },
        }
    } else {
        if r.1 is Ok {
        }
    }
}

/// A stream never produces a negative number of bytes.
pub proof fn lemma_stream_total_nonnegative(chunks: Seq<Chunk>, i: int)
    ensures
        stream_total(chunks, i) >= 0,
    decreases chunks.len() - i,
{
    if 0 <= i < chunks.len() && chunks[i].status == InflateStatus::More {
        lemma_stream_total_nonnegative(chunks, i + 1);
    }
}

/// `copy_uncompress` succeeds only where the inflater produced exactly
/// `dst_size` bytes, which the destination then holds. Where the inflater
/// kept to its interface, it fails with an overflow if there were more and
/// with an underflow if there were fewer.
pub proof fn lemma_inflate_bounds(s: FlashState, dst: int, dst_size: int, chunks: Seq<Chunk>)
    requires
        s.wf(),
        0 <= dst,
        page_aligned(dst),
        0 <= dst_size,
        dst + dst_size <= FLASH_SIZE,
    ensures
        spec_copy_uncompress(s, dst, dst_size, chunks).1 is Ok ==> stream_total(chunks, 0)
            == dst_size && spec_copy_uncompress(s, dst, dst_size, chunks).0.bytes(dst, dst_size)
            == stream_bytes(chunks, 0),
        stream_in_order(chunks, 0) ==> spec_copy_uncompress(s, dst, dst_size, chunks).1
            == verdict(stream_total(chunks, 0), dst_size),
{
    lemma_inflate(s, crate::copylist::blank_page(), dst, dst_size, chunks, 0);
}

/// An item that was applied aims inside the flash.
pub proof fn lemma_applied_in_range(s: FlashState, item: Item, chunks: Seq<Chunk>)
    requires
        spec_apply_item(s, item, chunks).1 == Ok::<Outcome, Error>(Outcome::Done),
    ensures
        item.dst + item.dst_size <= FLASH_SIZE,
{
}

/// An item changes nothing outside the pages of its destination, whether it
/// succeeds or not.
pub proof fn lemma_item_frame(s: FlashState, item: Item, chunks: Seq<Chunk>)
    requires
        s.wf(),
    ensures
        spec_execute_item(s, item, chunks).0.wf(),
        forall|j: int|
            0 <= j < FLASH_SIZE && !(item.dst <= j < item.dst + page_span(item.dst_size as int))
                ==> #[trigger] spec_execute_item(s, item, chunks).0.mem[j] == s.mem[j],
{
    let r = spec_apply_item(s, item, chunks);
    assert(spec_execute_item(s, item, chunks).0 == r.0);
    match spec_plan_item(item) {
        Err(e) => {},
        Ok(ItemPlan::Copy { dst, src, size }) => {
            lemma_copy_result(s, dst as int, s.bytes(src as int, size as int));
            assert(page_span(size as int) == page_span(item.dst_size as int));
        },
        Ok(ItemPlan::Inflate { dst, dst_size }) => {
            lemma_inflate(s, crate::copylist::blank_page(), dst as int, dst_size as int, chunks, 0);
        },
        Ok(ItemPlan::Bootloader { dst, src, len }) => {},
    }
}

/// Whether applying `later` can leave the destination of `earlier` as it is:
/// the pages that `later` writes into do not reach into it.
pub open spec fn leaves_alone(later: Item, earlier: Item) -> bool {
    ||| later.flags & FLAG_BOOTLOADER != 0
    ||| later.dst + page_span(later.dst_size as int) <= earlier.dst
    ||| earlier.dst + earlier.dst_size <= later.dst
}

/// When the first `n` items have been applied, each of them had, right after
/// it was applied, a destination with the CRC that it names.
pub proof fn lemma_each_item_intact(
    s: FlashState,
    items: Seq<Item>,
    inflated: Seq<Vec<Chunk>>,
    n: int,
    i: int,
)
    requires
        0 <= i < n,
        run_items(s, items, inflated, n).1 == Ok::<Outcome, Error>(Outcome::Done),
    ensures
        run_items(s, items, inflated, i + 1).1 == Ok::<Outcome, Error>(Outcome::Done),
        destination_intact(run_items(s, items, inflated, i + 1).0, items[i]),
{
    if run_items(s, items, inflated, i + 1).1 != Ok::<Outcome, Error>(Outcome::Done) {
        lemma_run_items_stops(s, items, inflated, i + 1, n);
    }
    if run_items(s, items, inflated, i).1 != Ok::<Outcome, Error>(Outcome::Done) {
        lemma_run_items_stops(s, items, inflated, i, i + 1);
    }
}

/// When the first `n` items have been applied and no item writes into the
/// destination of one before it, every one of them has, in the end, a
/// destination with the CRC that it names.
pub proof fn lemma_all_items_intact(
    s: FlashState,
    items: Seq<Item>,
    inflated: Seq<Vec<Chunk>>,
    n: int,
)
    requires
        s.wf(),
        0 <= n <= items.len(),
        run_items(s, items, inflated, n).1 == Ok::<Outcome, Error>(Outcome::Done),
        forall|a: int, b: int| 0 <= a < b < n ==> leaves_alone(#[trigger] items[b], #[trigger] items[a]),
    ensures
        run_items(s, items, inflated, n).0.wf(),
        forall|i: int|
            0 <= i < n ==> destination_intact(
                run_items(s, items, inflated, n).0,
                #[trigger] items[i],
            ),
    decreases n,
{
    if n > 0 {
        let before = run_items(s, items, inflated, n - 1);
        if before.1 != Ok::<Outcome, Error>(Outcome::Done) {
            lemma_run_items_stops(s, items, inflated, n - 1, n);
        }
        lemma_all_items_intact(s, items, inflated, n - 1);
        let last = items[n - 1];
        let chunks = chunks_for(inflated, n - 1);
        let after = spec_execute_item(before.0, last, chunks);
        assert(run_items(s, items, inflated, n) == after);
        lemma_item_frame(before.0, last, chunks);
        assert forall|i: int| 0 <= i < n implies destination_intact(
            after.0,
            #[trigger] items[i],
        ) by {
            if i < n - 1 {
                let item = items[i];
                lemma_each_item_intact(s, items, inflated, n, i);
                let then = run_items(s, items, inflated, i);
                if then.1 != Ok::<Outcome, Error>(Outcome::Done) {
                    lemma_run_items_stops(s, items, inflated, i, i + 1);
                }
                lemma_applied_in_range(then.0, item, chunks_for(inflated, i));
                assert(leaves_alone(items[n - 1], items[i]));
                if last.flags & FLAG_BOOTLOADER != 0 {
                    assert(after.0 == before.0);
                }
                assert(after.0.bytes(item.dst as int, item.dst_size as int) =~= before.0.bytes(
                    item.dst as int,
                    item.dst_size as int,
                ));
            }
        }
    }
}

} // verus!
