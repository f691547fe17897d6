//! Magic numbers and record layouts of the two control structures.

use crate::crc32::{crc32, lemma_crc32_detects_byte, spec_crc32};
use crate::word::{lemma_bytes_of_word, lemma_word_of_bytes, push_word, read_word, word_byte, word_in};
use vstd::prelude::*;

verus! {

/// First word of the progress page while a swap is armed.
pub const SWAP_MAGIC: u32 = 0x55e5_3c7d;

/// First word of the progress page after a swap was rolled back.
pub const SWAP_REVERTED_MAGIC: u32 = 0xc7d1_034a;

/// First word of an armed copy-list.
pub const MAGIC: u32 = 0x6cda_65cc;

/// Capacity of a copy-list.
pub const MAX_ITEMS: usize = 16;

/// The source is a DEFLATE stream.
pub const FLAG_COMPRESSED: u32 = 1;

/// The item replaces the bootloader, through the master boot record.
pub const FLAG_BOOTLOADER: u32 = 2;

/// Size of one item on flash.
pub const ITEM_SIZE: usize = 32;

/// Size of the copy-list header on flash: magic, count and CRC.
pub const HEADER_SIZE: usize = 12;

/// Size of a copy-list on flash.
pub const COPYLIST_SIZE: usize = HEADER_SIZE + MAX_ITEMS * ITEM_SIZE;

/// One entry of a copy-list: where to copy from, where to, and how.
#[derive(Copy, Clone, Debug)]
pub struct Item {
    pub flags: u32,
    pub src: u32,
    /// Size of the source: the compressed size where the item is compressed,
    /// else equal to `dst_size`.
    pub src_size: u32,
    pub dst: u32,
    /// Size of what ends up at the destination.
    pub dst_size: u32,
    /// CRC-32 of what ends up at the destination.
    pub dst_crc: u32,
    pub reserved1: u32,
    pub reserved2: u32,
}

/// The copy-list: a header and a fixed array of items, of which the first
/// `count` are meant.
#[derive(Copy, Clone, Debug)]
pub struct Copylist {
    pub magic: u32,
    pub count: u32,
    pub crc: u32,
    pub items: [Item; MAX_ITEMS],
}

impl Item {
    /// Word `j` of the record.
    pub open spec fn field(self, j: int) -> u32 {
        if j == 0 {
            self.flags
        } else if j == 1 {
            self.src
        } else if j == 2 {
            self.src_size
        } else if j == 3 {
            self.dst
        } else if j == 4 {
            self.dst_size
        } else if j == 5 {
            self.dst_crc
        } else if j == 6 {
            self.reserved1
        } else {
            self.reserved2
        }
    }

    /// The record as it lies on flash: eight little-endian words.
    pub open spec fn image(self) -> Seq<u8> {
        Seq::new(ITEM_SIZE as nat, |k: int| word_byte(self.field(k / 4), k % 4))
    }

    /// Appends the record's image to `out`.
    pub fn write_to(&self, out: &mut Vec<u8>)
        ensures
            final(out)@ == old(out)@ + self.image(),
    {
        push_word(out, self.flags);
        push_word(out, self.src);
        push_word(out, self.src_size);
        push_word(out, self.dst);
        push_word(out, self.dst_size);
        push_word(out, self.dst_crc);
        push_word(out, self.reserved1);
        push_word(out, self.reserved2);
        assert(out@ =~= old(out)@ + self.image());
    }
}

/// The item whose image starts at offset `at` of `bytes`.
pub open spec fn item_in(bytes: Seq<u8>, at: int) -> Item {
    Item {
        flags: word_in(bytes, at),
        src: word_in(bytes, at + 4),
        src_size: word_in(bytes, at + 8),
        dst: word_in(bytes, at + 12),
        dst_size: word_in(bytes, at + 16),
        dst_crc: word_in(bytes, at + 20),
        reserved1: word_in(bytes, at + 24),
        reserved2: word_in(bytes, at + 28),
    }
}

/// The images of `items`, one after the other.
pub open spec fn items_image(items: Seq<Item>) -> Seq<u8> {
    Seq::new(items.len() * ITEM_SIZE as nat, |k: int| items[k / 32].image()[k % 32])
}

/// What a copy-list holds: its header and its sixteen items.
pub struct CopylistView {
    pub magic: u32,
    pub count: u32,
    pub crc: u32,
    pub items: Seq<Item>,
}

impl View for Copylist {
    type V = CopylistView;

    open spec fn view(&self) -> CopylistView {
        CopylistView { magic: self.magic, count: self.count, crc: self.crc, items: self.items@ }
    }
}

/// The list that the first `COPYLIST_SIZE` bytes of `bytes` hold.
pub open spec fn copylist_in(bytes: Seq<u8>) -> CopylistView {
    CopylistView {
        magic: word_in(bytes, 0),
        count: word_in(bytes, 4),
        crc: word_in(bytes, 8),
        items: Seq::new(MAX_ITEMS as nat, |i: int| item_in(bytes, HEADER_SIZE + i * ITEM_SIZE)),
    }
}

impl CopylistView {
    /// The items that the list means: the first `count`.
    pub open spec fn listed(self) -> Seq<Item> {
        self.items.take(self.count as int)
    }

    /// The list as it lies on flash.
    pub open spec fn image(self) -> Seq<u8> {
        Seq::new(
            COPYLIST_SIZE as nat,
            |k: int|
                if k < 4 {
                    word_byte(self.magic, k)
                } else if k < 8 {
                    word_byte(self.count, k - 4)
                } else if k < 12 {
                    word_byte(self.crc, k - 8)
                } else {
                    items_image(self.items)[k - 12]
                },
        )
    }

    /// CRC-32 over the images of the listed items.
    pub open spec fn calc_crc(self) -> u32 {
        spec_crc32(items_image(self.listed()))
    }

    /// The magic is right, the count is in range, and the CRC matches.
    pub open spec fn is_valid(self) -> bool {
        &&& self.magic == MAGIC
        &&& self.count <= MAX_ITEMS
        &&& self.calc_crc() == self.crc
    }
}

fn read_item(bytes: &[u8], at: usize) -> (item: Item)
    requires
        at + ITEM_SIZE <= bytes@.len(),
    ensures
        item == item_in(bytes@, at as int),
{
    assert(bytes.len() == bytes@.len());
    Item {
        flags: read_word(bytes, at),
        src: read_word(bytes, at + 4),
        src_size: read_word(bytes, at + 8),
        dst: read_word(bytes, at + 12),
        dst_size: read_word(bytes, at + 16),
        dst_crc: read_word(bytes, at + 20),
        reserved1: read_word(bytes, at + 24),
        reserved2: read_word(bytes, at + 28),
    }
}

impl Copylist {
    /// The list held by the first `COPYLIST_SIZE` bytes of `bytes`, if there
    /// are that many.
    pub fn parse(bytes: &[u8]) -> (list: Option<Copylist>)
        ensures
            list is Some <==> bytes@.len() >= COPYLIST_SIZE,
            list matches Some(c) ==> c@ == copylist_in(bytes@),
    {
        if bytes.len() < COPYLIST_SIZE {
            return None;
        }
        let blank = Item {
            flags: 0,
            src: 0,
            src_size: 0,
            dst: 0,
            dst_size: 0,
            dst_crc: 0,
            reserved1: 0,
            reserved2: 0,
        };
        let mut items: [Item; MAX_ITEMS] = [blank;MAX_ITEMS];
        let mut i: usize = 0;
        while i < MAX_ITEMS
            invariant
                i <= MAX_ITEMS,
                bytes@.len() >= COPYLIST_SIZE,
                forall|j: int|
                    0 <= j < i ==> #[trigger] items@[j] == item_in(
                        bytes@,
                        HEADER_SIZE + j * ITEM_SIZE,
                    ),
            decreases MAX_ITEMS - i,
        {
            items[i] = read_item(bytes, HEADER_SIZE + i * ITEM_SIZE);
            i += 1;
        }
        let list = Copylist {
            magic: read_word(bytes, 0),
            count: read_word(bytes, 4),
            crc: read_word(bytes, 8),
            items,
        };
        assert(list@.items =~= copylist_in(bytes@).items);
        Some(list)
    }

    /// The list as it lies on flash.
    pub fn to_bytes(&self) -> (out: Vec<u8>)
        ensures
            out@ == self@.image(),
    {
        let mut out: Vec<u8> = Vec::new();
        push_word(&mut out, self.magic);
        push_word(&mut out, self.count);
        push_word(&mut out, self.crc);
        let mut i: usize = 0;
        while i < MAX_ITEMS
            invariant
                i <= MAX_ITEMS,
                out@ == self@.image().take(HEADER_SIZE + i * ITEM_SIZE),
            decreases MAX_ITEMS - i,
        {
            let ghost before = out@;
            self.items[i].write_to(&mut out);
            assert(out@ =~= self@.image().take(HEADER_SIZE + (i + 1) * ITEM_SIZE)) by {
                assert forall|k: int| 0 <= k < ITEM_SIZE implies self.items@[i as int].image()[k]
                    == self@.image()[HEADER_SIZE + i * ITEM_SIZE + k] by {
                    let m = i * ITEM_SIZE + k;
                    assert(m / 32 == i && m % 32 == k);
                }
            }
            i += 1;
        }
        assert(out@ =~= self@.image());
        out
    }

    /// CRC-32 over the images of the first `count` items.
    pub fn calc_crc(&self) -> (crc: u32)
        requires
            self.count <= MAX_ITEMS,
        ensures
            crc == self@.calc_crc(),
    {
        let mut out: Vec<u8> = Vec::new();
        let n: usize = self.count as usize;
        let mut i: usize = 0;
        while i < n
            invariant
                i <= n,
                n == self.count,
                n <= MAX_ITEMS,
                out@ == items_image(self@.listed()).take(i * ITEM_SIZE),
            decreases n - i,
        {
            self.items[i].write_to(&mut out);
            assert(out@ =~= items_image(self@.listed()).take((i + 1) * ITEM_SIZE)) by {
                assert forall|k: int| 0 <= k < ITEM_SIZE implies self.items@[i as int].image()[k]
                    == items_image(self@.listed())[i * ITEM_SIZE + k] by {
                    let m = i * ITEM_SIZE + k;
                    assert(m / 32 == i && m % 32 == k);
                }
            }
            i += 1;
        }
        assert(out@ =~= items_image(self@.listed()));
        crc32(out.as_slice())
    }

    /// Whether the list is armed and intact: the magic is right, the count is
    /// at most `MAX_ITEMS`, and the stored CRC is that of the listed items.
    /// The items' own destination CRCs play no part here.
    pub fn is_valid(&self) -> (valid: bool)
        ensures
            valid == self@.is_valid(),
    {
        if self.magic != MAGIC {
            return false;
        }
        if self.count > MAX_ITEMS as u32 {
            return false;
        }
        if self.calc_crc() != self.crc {
            return false;
        }
        true
    }
}

/// The image of the item read at `at` is the thirty-two bytes at `at`.
pub proof fn lemma_item_image(bytes: Seq<u8>, at: int)
    requires
        0 <= at,
        at + ITEM_SIZE <= bytes.len(),
    ensures
        item_in(bytes, at).image() == bytes.subrange(at, at + ITEM_SIZE),
{
    let item = item_in(bytes, at);
    assert forall|k: int| 0 <= k < ITEM_SIZE implies #[trigger] item.image()[k] == bytes[at
        + k] by {
        let j = k / 4;
        let w = at + 4 * j;
        lemma_bytes_of_word(bytes[w], bytes[w + 1], bytes[w + 2], bytes[w + 3]);
        assert(item.field(j) == word_in(bytes, w));
    }
    assert(item.image() =~= bytes.subrange(at, at + ITEM_SIZE));
}

/// The item read from an item's image is that item.
pub proof fn lemma_item_of_image(bytes: Seq<u8>, at: int, item: Item)
    requires
        0 <= at,
        at + ITEM_SIZE <= bytes.len(),
        bytes.subrange(at, at + ITEM_SIZE) == item.image(),
    ensures
        item_in(bytes, at) == item,
{
    assert forall|j: int| 0 <= j < 8 implies word_in(bytes, at + 4 * j) == item.field(j) by {
        let img = item.image();
        let sub = bytes.subrange(at, at + ITEM_SIZE);
        assert(bytes[at + 4 * j] == sub[4 * j] && bytes[at + 4 * j + 1] == sub[4 * j + 1]
            && bytes[at + 4 * j + 2] == sub[4 * j + 2] && bytes[at + 4 * j + 3] == sub[4 * j
            + 3]);
        assert(img[4 * j] == word_byte(item.field((4 * j) / 4), (4 * j) % 4));
        assert(img[4 * j + 1] == word_byte(item.field((4 * j + 1) / 4), (4 * j + 1) % 4));
        assert(img[4 * j + 2] == word_byte(item.field((4 * j + 2) / 4), (4 * j + 2) % 4));
        assert(img[4 * j + 3] == word_byte(item.field((4 * j + 3) / 4), (4 * j + 3) % 4));
        lemma_word_of_bytes(item.field(j));
    }
    assert(word_in(bytes, at + 4 * 0) == item.field(0));
    assert(word_in(bytes, at + 4 * 1) == item.field(1));
    assert(word_in(bytes, at + 4 * 2) == item.field(2));
    assert(word_in(bytes, at + 4 * 3) == item.field(3));
    assert(word_in(bytes, at + 4 * 4) == item.field(4));
    assert(word_in(bytes, at + 4 * 5) == item.field(5));
    assert(word_in(bytes, at + 4 * 6) == item.field(6));
    assert(word_in(bytes, at + 4 * 7) == item.field(7));
}

/// The images of the first `n` items read from `bytes` are the bytes behind
/// the header.
pub proof fn lemma_listed_image(bytes: Seq<u8>, n: int)
    requires
        bytes.len() >= COPYLIST_SIZE,
        0 <= n <= MAX_ITEMS,
    ensures
        items_image(copylist_in(bytes).items.take(n)) == bytes.subrange(
            HEADER_SIZE as int,
            HEADER_SIZE + n * ITEM_SIZE,
        ),
{
    let items = copylist_in(bytes).items.take(n);
    let img = items_image(items);
    let sub = bytes.subrange(HEADER_SIZE as int, HEADER_SIZE + n * ITEM_SIZE);
    assert forall|k: int| 0 <= k < n * ITEM_SIZE implies #[trigger] img[k] == sub[k] by {
        let j = k / 32;
        let at = HEADER_SIZE + j * ITEM_SIZE;
        lemma_item_image(bytes, at);
        assert(items[j] == item_in(bytes, at));
        assert(items[j].image()[k % 32] == bytes.subrange(at, at + ITEM_SIZE)[k % 32]);
    }
    assert(img =~= sub);
}

/// Reading a list and writing it out again gives the bytes that were read.
pub proof fn lemma_image_of_parsed(bytes: Seq<u8>)
    requires
        bytes.len() >= COPYLIST_SIZE,
    ensures
        copylist_in(bytes).image() == bytes.take(COPYLIST_SIZE as int),
{
    let list = copylist_in(bytes);
    lemma_listed_image(bytes, MAX_ITEMS as int);
    assert(list.items.take(MAX_ITEMS as int) =~= list.items);
    lemma_bytes_of_word(bytes[0], bytes[1], bytes[2], bytes[3]);
    lemma_bytes_of_word(bytes[4], bytes[5], bytes[6], bytes[7]);
    lemma_bytes_of_word(bytes[8], bytes[9], bytes[10], bytes[11]);
    let sub = bytes.subrange(HEADER_SIZE as int, COPYLIST_SIZE as int);
    assert forall|k: int| 0 <= k < COPYLIST_SIZE implies #[trigger] list.image()[k]
        == bytes[k] by {
        if k >= 12 {
            assert(items_image(list.items)[k - 12] == sub[k - 12]);
        }
    }
    assert(list.image() =~= bytes.take(COPYLIST_SIZE as int));
}

/// Writing a list out and reading it again gives the list that was written.
pub proof fn lemma_parsed_of_image(list: CopylistView)
    requires
        list.items.len() == MAX_ITEMS,
    ensures
        copylist_in(list.image()) == list,
{
    let bytes = list.image();
    let back = copylist_in(bytes);
    lemma_word_of_bytes(list.magic);
    lemma_word_of_bytes(list.count);
    lemma_word_of_bytes(list.crc);
    assert forall|i: int| 0 <= i < MAX_ITEMS implies #[trigger] back.items[i]
        == list.items[i] by {
        let at = HEADER_SIZE + i * ITEM_SIZE;
        assert forall|k: int| 0 <= k < ITEM_SIZE implies #[trigger] bytes.subrange(
            at,
            at + ITEM_SIZE,
        )[k] == list.items[i].image()[k] by {
            let m = i * ITEM_SIZE + k;
            assert(m / 32 == i && m % 32 == k);
            assert(bytes[at + k] == items_image(list.items)[m]);
        }
        assert(bytes.subrange(at, at + ITEM_SIZE) =~= list.items[i].image());
        lemma_item_of_image(bytes, at, list.items[i]);
    }
    assert(back.items =~= list.items);
}

/// A valid list does not survive the change of one byte of its magic, of its
/// CRC or of a listed item.
///
/// `good` holds a valid list; `bad` is `good` with the byte at `k` changed.
pub proof fn lemma_byte_change_invalidates(good: Seq<u8>, bad: Seq<u8>, k: int)
    requires
        good.len() >= COPYLIST_SIZE,
        bad.len() == good.len(),
        copylist_in(good).is_valid(),
        0 <= k < HEADER_SIZE + copylist_in(good).count * ITEM_SIZE,
        !(4 <= k < 8),
        bad[k] != good[k],
        forall|i: int| 0 <= i < good.len() && i != k ==> bad[i] == good[i],
    ensures
        !copylist_in(bad).is_valid(),
{
    let a = copylist_in(good);
    let b = copylist_in(bad);
    let n = a.count as int;
    lemma_bytes_of_word(good[0], good[1], good[2], good[3]);
    lemma_bytes_of_word(bad[0], bad[1], bad[2], bad[3]);
    lemma_bytes_of_word(good[8], good[9], good[10], good[11]);
    lemma_bytes_of_word(bad[8], bad[9], bad[10], bad[11]);
    assert(b.count == a.count);
    if k < 4 {
        assert(b.magic != a.magic);
    } else {
        lemma_listed_image(good, n);
        lemma_listed_image(bad, n);
        let ga = good.subrange(HEADER_SIZE as int, HEADER_SIZE + n * ITEM_SIZE);
        let gb = bad.subrange(HEADER_SIZE as int, HEADER_SIZE + n * ITEM_SIZE);
        if k < 12 {
            assert(b.crc != a.crc);
            assert(ga =~= gb);
        } else {
            assert(b.crc == a.crc);
            lemma_crc32_detects_byte(ga, gb, k - HEADER_SIZE);
        }
    }
}

/// A change in the count of a valid list leaves a list that is valid only
/// if the new count is in range and the items that it now lists happen to
/// have the CRC of those that were listed before.
///
/// `good` holds a valid list; `bad` is `good` with the byte at `k`, one of
/// the four bytes of the count, changed.
pub proof fn lemma_count_change(good: Seq<u8>, bad: Seq<u8>, k: int)
    requires
        good.len() >= COPYLIST_SIZE,
        bad.len() == good.len(),
        copylist_in(good).is_valid(),
        4 <= k < 8,
        bad[k] != good[k],
        forall|i: int| 0 <= i < good.len() && i != k ==> bad[i] == good[i],
    ensures
        copylist_in(bad).count != copylist_in(good).count,
        copylist_in(bad).is_valid() <==> (copylist_in(bad).count <= MAX_ITEMS && spec_crc32(
            items_image(copylist_in(good).items.take(copylist_in(bad).count as int)),
        ) == copylist_in(good).crc),
{
    let a = copylist_in(good);
    let b = copylist_in(bad);
    lemma_bytes_of_word(good[4], good[5], good[6], good[7]);
    lemma_bytes_of_word(bad[4], bad[5], bad[6], bad[7]);
    assert(b.magic == a.magic && b.crc == a.crc);
    assert(b.items =~= a.items);
}

} // verus!
