//! A model of the on-chip NOR flash and the page primitives built on it.
//!
//! The flash is a byte array of `FLASH_SIZE` bytes in pages of `PAGE_SIZE`.
//! Erasing a page sets every bit in it; programming can only clear bits, so a
//! programmed byte is the bitwise AND of what was there and what is written.
//! Besides the contents the model records every operation that a driver would
//! be asked to perform, watchdog pets included.

use crate::word::{word_from, word_in};
use vstd::prelude::*;

verus! {

/// Size of one erase unit in bytes.
pub const PAGE_SIZE: usize = 4096;

/// Size of one program unit in bytes.
pub const WORD_SIZE: usize = 4;

/// Size of the whole flash in bytes.
pub const FLASH_SIZE: usize = 0x10_0000;

/// Value of an erased byte.
pub const ERASED_BYTE: u8 = 0xff;

/// Value of an erased word.
pub const ERASED_WORD: u32 = 0xffff_ffff;

/// One operation asked of the hardware.
#[derive(Clone, Copy, Debug, PartialEq, Eq, Structural)]
pub enum FlashOp {
    /// The watchdog was fed.
    Pet,
    /// The page starting at `page` was erased.
    Erase { page: usize },
    /// `len` bytes were programmed starting at `addr`.
    Write { addr: usize, len: usize },
}

/// The abstract state of the flash: its contents and the operations so far.
pub struct FlashState {
    pub mem: Seq<u8>,
    pub ops: Seq<FlashOp>,
}

pub open spec fn page_aligned(addr: int) -> bool {
    addr % (PAGE_SIZE as int) == 0
}

pub open spec fn word_aligned(addr: int) -> bool {
    addr % (WORD_SIZE as int) == 0
}

/// Contents in which the page at `page` is erased.
pub open spec fn mem_erase(mem: Seq<u8>, page: int) -> Seq<u8> {
    Seq::new(
        mem.len(),
        |i: int|
            if page <= i < page + PAGE_SIZE {
                ERASED_BYTE
            } else {
                mem[i]
            },
    )
}

/// Contents after programming `data` at `addr`: bits can only be cleared.
pub open spec fn mem_program(mem: Seq<u8>, addr: int, data: Seq<u8>) -> Seq<u8> {
    Seq::new(
        mem.len(),
        |i: int|
            if addr <= i < addr + data.len() {
                mem[i] & data[i - addr]
            } else {
                mem[i]
            },
    )
}

impl FlashState {
    pub open spec fn wf(self) -> bool {
        self.mem.len() == FLASH_SIZE
    }

    /// The `len` bytes starting at `addr`.
    pub open spec fn bytes(self, addr: int, len: int) -> Seq<u8> {
        self.mem.subrange(addr, addr + len)
    }

    /// The little-endian word at `addr`.
    pub open spec fn word(self, addr: int) -> u32 {
        word_in(self.mem, addr)
    }

    /// The state with the watchdog fed once more.
    pub open spec fn pet(self) -> FlashState {
        FlashState { mem: self.mem, ops: self.ops.push(FlashOp::Pet) }
    }

    /// The state after the driver erased the page at `page`.
    pub open spec fn erased(self, page: int) -> FlashState {
        FlashState {
            mem: mem_erase(self.mem, page),
            ops: self.ops.push(FlashOp::Erase { page: page as usize }),
        }
    }

    /// The state after the driver programmed `data` at `addr`.
    pub open spec fn programmed(self, addr: int, data: Seq<u8>) -> FlashState {
        FlashState {
            mem: mem_program(self.mem, addr, data),
            ops: self.ops.push(FlashOp::Write { addr: addr as usize, len: data.len() as usize }),
        }
    }
}

/// What `erase` does: feed the watchdog, erase the page.
pub open spec fn spec_erase(s: FlashState, dst: int) -> FlashState {
    s.pet().erased(dst)
}

/// What `write` does: feed the watchdog, program the data.
pub open spec fn spec_write(s: FlashState, dst: int, data: Seq<u8>) -> FlashState {
    s.pet().programmed(dst, data)
}

/// What `erase_and_write` does: feed the watchdog, erase the page, program the data.
pub open spec fn spec_erase_and_write(s: FlashState, dst: int, data: Seq<u8>) -> FlashState {
    s.pet().erased(dst).programmed(dst, data)
}

/// What `erase_and_write_if_different` does: feed the watchdog, and rewrite the
/// page only where it does not start with `data` already.
pub open spec fn spec_erase_and_write_if_different(
    s: FlashState,
    dst: int,
    data: Seq<u8>,
) -> FlashState {
    if s.bytes(dst, data.len() as int) == data {
        s.pet()
    } else {
        spec_erase_and_write(s.pet(), dst, data)
    }
}

/// Number of page erases among `ops`.
pub open spec fn erase_count(ops: Seq<FlashOp>) -> nat
    decreases ops.len(),
{
    if ops.len() == 0 {
        0
    } else {
        erase_count(ops.drop_last()) + if ops.last() is Erase {
            1nat
        } else {
            0nat
        }
    }
}

/// Number of program operations among `ops`.
pub open spec fn write_count(ops: Seq<FlashOp>) -> nat
    decreases ops.len(),
{
    if ops.len() == 0 {
        0
    } else {
        write_count(ops.drop_last()) + if ops.last() is Write {
            1nat
        } else {
            0nat
        }
    }
}

/// Programming over an erased byte stores the byte; programming zero clears.
pub proof fn lemma_program_byte()
    ensures
        forall|b: u8| #[trigger] (ERASED_BYTE & b) == b,
        forall|b: u8| #[trigger] (b & 0u8) == 0u8,
        forall|b: u8| #[trigger] (b & b) == b,
{
    assert(forall|b: u8| #[trigger] (0xffu8 & b) == b) by (bit_vector);
    assert(forall|b: u8| #[trigger] (b & 0u8) == 0u8) by (bit_vector);
    assert(forall|b: u8| #[trigger] (b & b) == b) by (bit_vector);
}

/// After `erase_and_write` the page starts with the data and is erased
/// behind it; nothing else has changed.
pub proof fn lemma_erase_and_write(s: FlashState, dst: int, data: Seq<u8>)
    requires
        s.wf(),
        0 <= dst,
        dst + PAGE_SIZE <= FLASH_SIZE,
        data.len() <= PAGE_SIZE,
    ensures
        spec_erase_and_write(s, dst, data).wf(),
        spec_erase_and_write(s, dst, data).bytes(dst, data.len() as int) == data,
        forall|i: int|
            dst + data.len() <= i < dst + PAGE_SIZE ==> #[trigger] spec_erase_and_write(
                s,
                dst,
                data,
            ).mem[i] == ERASED_BYTE,
        forall|i: int|
            0 <= i < FLASH_SIZE && !(dst <= i < dst + PAGE_SIZE) ==> #[trigger] spec_erase_and_write(
                s,
                dst,
                data,
            ).mem[i] == s.mem[i],
{
    lemma_program_byte();
    let r = spec_erase_and_write(s, dst, data);
    assert(r.bytes(dst, data.len() as int) =~= data);
}

/// Counting the erases one operation further.
pub proof fn lemma_erase_count_push(ops: Seq<FlashOp>, op: FlashOp)
    ensures
        erase_count(ops.push(op)) == erase_count(ops) + if op is Erase {
            1nat
        } else {
            0nat
        },
        write_count(ops.push(op)) == write_count(ops) + if op is Write {
            1nat
        } else {
            0nat
        },
{
    assert(ops.push(op).drop_last() =~= ops);
}

/// After `erase_and_write_if_different` the flash holds the data at `dst`,
/// and nothing outside that page has changed.
pub proof fn lemma_rewrite(s: FlashState, dst: int, data: Seq<u8>)
    requires
        s.wf(),
        0 <= dst,
        dst + data.len() <= FLASH_SIZE,
        data.len() <= PAGE_SIZE,
        data.len() > 0 ==> dst + PAGE_SIZE <= FLASH_SIZE,
    ensures
        spec_erase_and_write_if_different(s, dst, data).wf(),
        spec_erase_and_write_if_different(s, dst, data).bytes(dst, data.len() as int) == data,
        forall|i: int|
            0 <= i < FLASH_SIZE && !(data.len() > 0 && dst <= i < dst + PAGE_SIZE)
                ==> #[trigger] spec_erase_and_write_if_different(s, dst, data).mem[i] == s.mem[i],
{
    if s.bytes(dst, data.len() as int) == data {
    } else {
        assert(data.len() > 0) by {
            if data.len() == 0 {
                assert(s.bytes(dst, 0) =~= data);
            }
        }
        lemma_erase_and_write(s.pet(), dst, data);
    }
}

/// Where the flash holds the data at `dst` already,
/// `erase_and_write_if_different` feeds the watchdog and does nothing else.
pub proof fn lemma_rewrite_same(s: FlashState, dst: int, data: Seq<u8>)
    requires
        s.bytes(dst, data.len() as int) == data,
    ensures
        spec_erase_and_write_if_different(s, dst, data) == s.pet(),
        spec_erase_and_write_if_different(s, dst, data).mem == s.mem,
        erase_count(spec_erase_and_write_if_different(s, dst, data).ops) == erase_count(s.ops),
        write_count(spec_erase_and_write_if_different(s, dst, data).ops) == write_count(s.ops),
{
    lemma_erase_count_push(s.ops, FlashOp::Pet);
}

/// The simulated flash device.
pub struct Flash {
    mem: Vec<u8>,
    ops: Vec<FlashOp>,
}

impl View for Flash {
    type V = FlashState;

    closed spec fn view(&self) -> FlashState {
        FlashState { mem: self.mem@, ops: self.ops@ }
    }
}

impl Flash {
    /// The device holds exactly `FLASH_SIZE` bytes.
    pub open spec fn wf(&self) -> bool {
        self@.wf()
    }

    /// A fully erased device on which nothing has been done yet.
    pub fn new() -> (flash: Flash)
        ensures
            flash.wf(),
            flash@.ops == Seq::<FlashOp>::empty(),
            forall|i: int| 0 <= i < FLASH_SIZE ==> flash@.mem[i] == ERASED_BYTE,
    {
        let mut mem: Vec<u8> = Vec::new();
        let mut i: usize = 0;
        while i < FLASH_SIZE
            invariant
                i <= FLASH_SIZE,
                mem@.len() == i,
                forall|j: int| 0 <= j < i ==> mem@[j] == ERASED_BYTE,
            decreases FLASH_SIZE - i,
        {
            mem.push(ERASED_BYTE);
            i += 1;
        }
        Flash { mem, ops: Vec::new() }
    }

    /// A device with the given contents, if they have the size of the flash.
    pub fn with_contents(mem: Vec<u8>) -> (flash: Option<Flash>)
        ensures
            flash is Some <==> mem@.len() == FLASH_SIZE,
            flash matches Some(f) ==> f.wf() && f@.mem == mem@ && f@.ops
                == Seq::<FlashOp>::empty(),
    {
        if mem.len() == FLASH_SIZE {
            Some(Flash { mem, ops: Vec::new() })
        } else {
            None
        }
    }

    /// The byte at `addr`.
    pub fn byte(&self, addr: usize) -> (b: u8)
        requires
            self.wf(),
            addr < FLASH_SIZE,
        ensures
            b == self@.mem[addr as int],
    {
        self.mem[addr]
    }

    /// The little-endian word at `addr`.
    pub fn word(&self, addr: usize) -> (w: u32)
        requires
            self.wf(),
            addr + WORD_SIZE <= FLASH_SIZE,
        ensures
            w == self@.word(addr as int),
    {
        word_from(self.mem[addr], self.mem[addr + 1], self.mem[addr + 2], self.mem[addr + 3])
    }

    /// A copy of the `len` bytes starting at `addr`.
    pub fn read(&self, addr: usize, len: usize) -> (out: Vec<u8>)
        requires
            self.wf(),
            addr + len <= FLASH_SIZE,
        ensures
            out@ == self@.bytes(addr as int, len as int),
    {
        let mut out: Vec<u8> = Vec::new();
        let mut i: usize = 0;
        while i < len
            invariant
                i <= len,
                addr + len <= FLASH_SIZE,
                self.mem@.len() == FLASH_SIZE,
                out@ == self.mem@.subrange(addr as int, addr + i),
            decreases len - i,
        {
            out.push(self.mem[addr + i]);
            assert(self.mem@.subrange(addr as int, addr + i + 1) == self.mem@.subrange(
                addr as int,
                addr + i,
            ).push(self.mem@[addr + i]));
            i += 1;
        }
        out
    }

    /// Whether the flash holds exactly `data` at `addr`.
    pub fn holds(&self, addr: usize, data: &[u8]) -> (same: bool)
        requires
            self.wf(),
            addr + data@.len() <= FLASH_SIZE,
        ensures
            same == (self@.bytes(addr as int, data@.len() as int) == data@),
    {
        let mut i: usize = 0;
        while i < data.len()
            invariant
                i <= data@.len(),
                addr + data@.len() <= FLASH_SIZE,
                self.mem@.len() == FLASH_SIZE,
                self.mem@.subrange(addr as int, addr + i) == data@.take(i as int),
            decreases data@.len() - i,
        {
            if self.mem[addr + i] != data[i] {
                proof {
                    let whole = self.mem@.subrange(addr as int, addr + data@.len());
                    assert(whole[i as int] != data@[i as int]);
                }
                return false;
            }
            assert(self.mem@.subrange(addr as int, addr + i + 1) == self.mem@.subrange(
                addr as int,
                addr + i,
            ).push(self.mem@[addr + i]));
            assert(data@.take(i + 1) == data@.take(i as int).push(data@[i as int]));
            i += 1;
        }
        assert(data@.take(i as int) == data@);
        true
    }

    /// The operations performed so far, oldest first.
    pub fn ops(&self) -> (ops: &Vec<FlashOp>)
        ensures
            ops@ == self@.ops,
    {
        &self.ops
    }

    /// How many pages have been erased so far.
    pub fn erases(&self) -> (n: usize)
        ensures
            n == erase_count(self@.ops),
    {
        let mut n: usize = 0;
        let mut i: usize = 0;
        while i < self.ops.len()
            invariant
                i <= self.ops@.len(),
                n <= i,
                n == erase_count(self.ops@.take(i as int)),
            decreases self.ops@.len() - i,
        {
            assert(self.ops@.take(i + 1).drop_last() == self.ops@.take(i as int));
            match self.ops[i] {
                FlashOp::Erase { .. } => {
                    n += 1;
                },
                _ => {},
            }
            i += 1;
        }
        assert(self.ops@.take(i as int) == self.ops@);
        n
    }

    fn driver_erase(&mut self, page: usize)
        requires
            old(self).wf(),
            page + PAGE_SIZE <= FLASH_SIZE,
        ensures
            final(self)@ == old(self)@.erased(page as int),
            final(self).wf(),
    {
        self.ops.push(FlashOp::Erase { page });
        let ghost before = self.mem@;
        let mut i: usize = 0;
        while i < PAGE_SIZE
            invariant
                i <= PAGE_SIZE,
                page + PAGE_SIZE <= FLASH_SIZE,
                self.mem@.len() == FLASH_SIZE,
                before.len() == FLASH_SIZE,
                self.ops@ == old(self).ops@.push(FlashOp::Erase { page }),
                forall|j: int|
                    0 <= j < FLASH_SIZE ==> self.mem@[j] == if page <= j < page + i {
                        ERASED_BYTE
                    } else {
                        before[j]
                    },
            decreases PAGE_SIZE - i,
        {
            self.mem.set(page + i, ERASED_BYTE);
            i += 1;
        }
        assert(self.mem@ =~= mem_erase(before, page as int));
    }

    fn driver_program(&mut self, addr: usize, data: &[u8])
        requires
            old(self).wf(),
            addr + data@.len() <= FLASH_SIZE,
        ensures
            final(self)@ == old(self)@.programmed(addr as int, data@),
            final(self).wf(),
    {
        self.ops.push(FlashOp::Write { addr, len: data.len() });
        let ghost before = self.mem@;
        let mut i: usize = 0;
        while i < data.len()
            invariant
                i <= data@.len(),
                addr + data@.len() <= FLASH_SIZE,
                self.mem@.len() == FLASH_SIZE,
                before.len() == FLASH_SIZE,
                self.ops@ == old(self).ops@.push(
                    FlashOp::Write { addr, len: data@.len() as usize },
                ),
                forall|j: int|
                    0 <= j < FLASH_SIZE ==> self.mem@[j] == if addr <= j < addr + i {
                        before[j] & data@[j - addr]
                    } else {
                        before[j]
                    },
            decreases data@.len() - i,
        {
            let cur: u8 = self.mem[addr + i];
            self.mem.set(addr + i, cur & data[i]);
            i += 1;
        }
        assert(self.mem@ =~= mem_program(before, addr as int, data@));
    }

    fn pet(&mut self)
        ensures
            final(self)@ == old(self)@.pet(),
    {
        self.ops.push(FlashOp::Pet);
    }
}

/// Erases the page at `dst`.
pub fn erase(flash: &mut Flash, dst: usize)
    requires
        old(flash).wf(),
        page_aligned(dst as int),
        dst + PAGE_SIZE <= FLASH_SIZE,
    ensures
        final(flash).wf(),
        final(flash)@ == spec_erase(old(flash)@, dst as int),
{
    flash.pet();
    flash.driver_erase(dst);
}

/// Programs `src` at `dst`. Address and length are whole words and the data
/// stays inside one page.
pub fn write(flash: &mut Flash, dst: usize, src: &[u8])
    requires
        old(flash).wf(),
        word_aligned(dst as int),
        word_aligned(src@.len() as int),
        dst % PAGE_SIZE + src@.len() <= PAGE_SIZE,
        dst + src@.len() <= FLASH_SIZE,
    ensures
        final(flash).wf(),
        final(flash)@ == spec_write(old(flash)@, dst as int, src@),
{
    flash.pet();
    flash.driver_program(dst, src);
}

/// Erases the page at `dst`, then programs `src` at its start.
pub fn erase_and_write(flash: &mut Flash, dst: usize, src: &[u8])
    requires
        old(flash).wf(),
        page_aligned(dst as int),
        dst + PAGE_SIZE <= FLASH_SIZE,
        word_aligned(src@.len() as int),
        src@.len() <= PAGE_SIZE,
    ensures
        final(flash).wf(),
        final(flash)@ == spec_erase_and_write(old(flash)@, dst as int, src@),
        final(flash)@.bytes(dst as int, src@.len() as int) == src@,
        forall|i: int|
            dst + src@.len() <= i < dst + PAGE_SIZE ==> #[trigger] final(flash)@.mem[i]
                == ERASED_BYTE,
        forall|i: int|
            0 <= i < FLASH_SIZE && !(dst <= i < dst + PAGE_SIZE) ==> #[trigger] final(flash)@.mem[i] == old(flash)@.mem[i],
{
    proof {
        lemma_erase_and_write(flash@, dst as int, src@);
    }
    flash.pet();
    flash.driver_erase(dst);
    flash.driver_program(dst, src);
}

/// Rewrites the page at `dst` with `src` unless it starts with `src` already.
/// Nothing but the comparison happens where it does, and empty data is always
/// there already.
pub fn erase_and_write_if_different(flash: &mut Flash, dst: usize, src: &[u8])
    requires
        old(flash).wf(),
        page_aligned(dst as int),
        dst + src@.len() <= FLASH_SIZE,
        word_aligned(src@.len() as int),
        src@.len() <= PAGE_SIZE,
    ensures
        final(flash).wf(),
        final(flash)@ == spec_erase_and_write_if_different(old(flash)@, dst as int, src@),
        final(flash)@.bytes(dst as int, src@.len() as int) == src@,
        old(flash)@.bytes(dst as int, src@.len() as int) == src@ ==> final(flash)@ == old(flash)@.pet(),
        forall|i: int|
            0 <= i < FLASH_SIZE && !(dst <= i < dst + PAGE_SIZE) ==> #[trigger] final(flash)@.mem[i] == old(flash)@.mem[i],
{
    proof {
        lemma_rewrite(flash@, dst as int, src@);
    }
    flash.pet();
    if flash.holds(dst, src) {
        return ;
    }
    assert(src@.len() > 0) by {
        if src@.len() == 0 {
            assert(flash@.bytes(dst as int, 0) =~= src@);
        }
    }
    erase_and_write(flash, dst, src);
}

} // verus!
