use bootloader::copylist::{
    bootloader_request, check_complete, copy, copy_bootloader, copy_uncompress, do_execute, execute, execute_item,
    plan_chunk, plan_item, round_up_word, Chunk, ChunkPlan, Error, InflateStatus, ItemPlan, Outcome,
};
use bootloader::crc32::crc32;
use bootloader::flash::{Flash, FlashOp, FLASH_SIZE, PAGE_SIZE};
use bootloader::model::{Copylist, Item, FLAG_BOOTLOADER, FLAG_COMPRESSED, MAGIC, MAX_ITEMS};

const LIST_PAGE: usize = 0xff000;

fn blank() -> Item {
    Item {
        flags: 0,
        src: 0,
        src_size: 0,
        dst: 0,
        dst_size: 0,
        dst_crc: 0,
        reserved1: 0,
        reserved2: 0,
    }
}

fn noise(i: usize) -> u8 {
    ((i as u32).wrapping_mul(2_654_435_761) >> 13) as u8
}

fn noisy_image() -> Vec<u8> {
    (0..FLASH_SIZE).map(noise).collect()
}

fn list_of(items: &[Item]) -> Copylist {
    let mut all = [blank(); MAX_ITEMS];
    all[..items.len()].copy_from_slice(items);
    let mut list = Copylist { magic: MAGIC, count: items.len() as u32, crc: 0, items: all };
    list.crc = list.calc_crc();
    list
}

fn arm(mem: &mut [u8], items: &[Item]) {
    for b in mem[LIST_PAGE..].iter_mut() {
        *b = 0xff;
    }
    let bytes = list_of(items).to_bytes();
    mem[LIST_PAGE..LIST_PAGE + bytes.len()].copy_from_slice(&bytes);
}

fn plain(src: u32, dst: u32, size: u32, crc: u32) -> Item {
    Item { flags: 0, src, src_size: size, dst, dst_size: size, dst_crc: crc, ..blank() }
}

fn more(data: Vec<u8>) -> Chunk {
    Chunk { status: InflateStatus::More, data }
}

fn done(data: Vec<u8>) -> Chunk {
    Chunk { status: InflateStatus::Done, data }
}

fn failed() -> Chunk {
    Chunk { status: InflateStatus::Failed, data: Vec::new() }
}

fn payload(len: usize) -> Vec<u8> {
    (0..len).map(|i| noise(i * 7 + 1)).collect()
}

/// The answers of an inflater with a page buffer for `data`.
fn chunked(data: &[u8]) -> Vec<Chunk> {
    let mut chunks = Vec::new();
    let mut rest = data;
    while rest.len() >= PAGE_SIZE {
        chunks.push(more(rest[..PAGE_SIZE].to_vec()));
        rest = &rest[PAGE_SIZE..];
    }
    chunks.push(done(rest.to_vec()));
    chunks
}

fn contents(flash: &Flash) -> Vec<u8> {
    flash.read(0, FLASH_SIZE)
}

#[test]
fn round_up_to_words() {
    assert_eq!(round_up_word(0), 0);
    assert_eq!(round_up_word(1), 4);
    assert_eq!(round_up_word(4), 4);
    assert_eq!(round_up_word(100), 100);
    assert_eq!(round_up_word(101), 104);
    assert_eq!(round_up_word(4093), 4096);
}

#[test]
fn no_op_boot() {
    let mut flash = Flash::new();
    assert_eq!(execute(&mut flash, &Vec::new()), Ok(Outcome::Done));
    assert_eq!(contents(&flash), vec![0xffu8; FLASH_SIZE]);
    assert!(flash.ops().is_empty());
    bootloader::swap::execute(&mut flash);
    assert_eq!(contents(&flash), vec![0xffu8; FLASH_SIZE]);
    assert!(flash.ops().is_empty());
}

#[test]
fn plain_copy_of_one_item() {
    let mut mem = noisy_image();
    let data = mem[0x80000..0x80100].to_vec();
    arm(&mut mem, &[plain(0x80000, 0x40000, 0x100, crc32(&data))]);
    let mut flash = Flash::with_contents(mem.clone()).unwrap();
    assert_eq!(execute(&mut flash, &Vec::new()), Ok(Outcome::Done));
    let after = contents(&flash);
    assert_eq!(&after[0x40000..0x40100], &data[..]);
    assert_eq!(&after[0x40100..0x41000], &vec![0xffu8; 0xf00][..]);
    assert_eq!(&after[LIST_PAGE..], &vec![0xffu8; PAGE_SIZE][..]);
    assert_eq!(&after[..0x40000], &mem[..0x40000]);
    assert_eq!(&after[0x41000..LIST_PAGE], &mem[0x41000..LIST_PAGE]);
    assert_eq!(
        flash.ops().as_slice(),
        &[
            FlashOp::Pet,
            FlashOp::Pet,
            FlashOp::Erase { page: 0x40000 },
            FlashOp::Write { addr: 0x40000, len: 0x100 },
            FlashOp::Pet,
            FlashOp::Erase { page: LIST_PAGE },
        ]
    );
}

#[test]
fn an_invalid_list_is_ignored() {
    let mut mem = noisy_image();
    let data = mem[0x80000..0x80100].to_vec();
    arm(&mut mem, &[plain(0x80000, 0x40000, 0x100, crc32(&data))]);
    for at in [LIST_PAGE, LIST_PAGE + 4, LIST_PAGE + 8, LIST_PAGE + 12 + 13] {
        let mut bad = mem.clone();
        bad[at] ^= 0x40;
        let mut flash = Flash::with_contents(bad.clone()).unwrap();
        assert_eq!(execute(&mut flash, &Vec::new()), Ok(Outcome::Done));
        assert_eq!(contents(&flash), bad);
        assert!(flash.ops().is_empty());
    }
}

#[test]
fn copy_goes_page_by_page() {
    let mut flash = Flash::with_contents(noisy_image()).unwrap();
    let data = payload(2 * PAGE_SIZE + 8);
    copy(&mut flash, 0x30000, &data);
    assert_eq!(flash.read(0x30000, data.len()), data);
    assert_eq!(flash.read(0x32008, PAGE_SIZE - 8), vec![0xffu8; PAGE_SIZE - 8]);
    assert_eq!(flash.byte(0x2ffff), noise(0x2ffff));
    assert_eq!(flash.byte(0x33000), noise(0x33000));
    assert_eq!(flash.erases(), 3);
    assert_eq!(
        flash.ops().as_slice(),
        &[
            FlashOp::Pet,
            FlashOp::Pet,
            FlashOp::Erase { page: 0x30000 },
            FlashOp::Write { addr: 0x30000, len: 4096 },
            FlashOp::Pet,
            FlashOp::Pet,
            FlashOp::Erase { page: 0x31000 },
            FlashOp::Write { addr: 0x31000, len: 4096 },
            FlashOp::Pet,
            FlashOp::Pet,
            FlashOp::Erase { page: 0x32000 },
            FlashOp::Write { addr: 0x32000, len: 8 },
        ]
    );
}

#[test]
fn copy_of_nothing_does_nothing() {
    let mut flash = Flash::with_contents(noisy_image()).unwrap();
    copy(&mut flash, 0x30000, &[]);
    assert!(flash.ops().is_empty());
}

#[test]
fn copy_of_equal_bytes_erases_nothing() {
    let mem = noisy_image();
    let mut flash = Flash::with_contents(mem.clone()).unwrap();
    let data = mem[0x30000..0x30000 + 3 * PAGE_SIZE + 100].to_vec();
    copy(&mut flash, 0x30000, &data);
    assert_eq!(contents(&flash), mem);
    assert_eq!(flash.erases(), 0);
    assert_eq!(flash.ops().as_slice(), &[FlashOp::Pet; 4]);
}

#[test]
fn copy_rewrites_only_the_pages_that_differ() {
    let mem = noisy_image();
    let mut flash = Flash::with_contents(mem.clone()).unwrap();
    let mut data = mem[0x30000..0x33000].to_vec();
    data[PAGE_SIZE + 5] ^= 0xff;
    copy(&mut flash, 0x30000, &data);
    assert_eq!(flash.read(0x30000, data.len()), data);
    assert_eq!(flash.erases(), 1);
    assert_eq!(
        flash.ops().as_slice(),
        &[
            FlashOp::Pet,
            FlashOp::Pet,
            FlashOp::Pet,
            FlashOp::Erase { page: 0x31000 },
            FlashOp::Write { addr: 0x31000, len: 4096 },
            FlashOp::Pet,
        ]
    );
}

#[test]
fn a_plain_item_that_is_there_already_erases_nothing() {
    let mut mem = noisy_image();
    let data = mem[0x80000..0x81234].to_vec();
    mem[0x40000..0x41234].copy_from_slice(&data);
    let item = plain(0x80000, 0x40000, 0x1234, crc32(&data));
    let mut flash = Flash::with_contents(mem.clone()).unwrap();
    assert_eq!(execute_item(&mut flash, &item, &[]), Ok(Outcome::Done));
    assert_eq!(contents(&flash), mem);
    assert_eq!(flash.erases(), 0);
}

#[test]
fn a_plain_item_is_rounded_up_to_words() {
    let mut mem = noisy_image();
    for b in mem[0x40000..0x41000].iter_mut() {
        *b = 0;
    }
    let data = mem[0x80000..0x80065].to_vec();
    let item = plain(0x80000, 0x40000, 0x65, crc32(&data));
    let mut flash = Flash::with_contents(mem.clone()).unwrap();
    assert_eq!(execute_item(&mut flash, &item, &[]), Ok(Outcome::Done));
    assert_eq!(flash.read(0x40000, 0x68), &mem[0x80000..0x80068]);
    assert_eq!(flash.read(0x40068, PAGE_SIZE - 0x68), vec![0xffu8; PAGE_SIZE - 0x68]);
    assert_eq!(flash.ops()[3], FlashOp::Write { addr: 0x40000, len: 0x68 });
}

#[test]
fn plans_of_items() {
    assert_eq!(
        plan_item(&plain(0x80000, 0x40000, 0x101, 0)),
        Ok(ItemPlan::Copy { dst: 0x40000, src: 0x80000, size: 0x104 })
    );
    let packed = Item {
        flags: FLAG_COMPRESSED,
        src: 0x90000,
        src_size: 77,
        dst: 0x41000,
        dst_size: 5000,
        ..blank()
    };
    assert_eq!(plan_item(&packed), Ok(ItemPlan::Inflate { dst: 0x41000, dst_size: 5000 }));
    let boot = Item {
        flags: FLAG_BOOTLOADER,
        src: 0x90000,
        src_size: 0x6000,
        dst: 0xf8000,
        dst_size: 0x6000,
        ..blank()
    };
    assert_eq!(
        plan_item(&boot),
        Ok(ItemPlan::Bootloader { dst: 0xf8000, src: 0x90000, len: 0x6000 })
    );
}

#[test]
fn items_that_are_not_in_order() {
    let sizes = Item { src_size: 8, dst_size: 12, dst: 0x40000, src: 0x80000, ..blank() };
    assert_eq!(plan_item(&sizes), Err(Error::SizeMismatch));
    assert_eq!(plan_item(&plain(0x80000, 0x40004, 16, 0)), Err(Error::Flash));
    assert_eq!(plan_item(&plain(0x80000, 0xff000, 0x1001, 0)), Err(Error::Flash));
    assert_eq!(plan_item(&plain(0xffffe, 0x40000, 3, 0)), Err(Error::Flash));
    assert_eq!(plan_item(&plain(0, 0x40000, 0xffff_ffff, 0)), Err(Error::Flash));
    assert_eq!(
        plan_item(&plain(0x80000, 0xff000, 0x1000, 0)),
        Ok(ItemPlan::Copy { dst: 0xff000, src: 0x80000, size: 0x1000 })
    );

    let packed = Item { flags: FLAG_COMPRESSED, dst: 0x40100, dst_size: 16, ..blank() };
    assert_eq!(plan_item(&packed), Err(Error::Flash));
    let packed = Item { flags: FLAG_COMPRESSED, dst: 0xff000, dst_size: 0x1001, ..blank() };
    assert_eq!(plan_item(&packed), Err(Error::Flash));

    let boot = Item {
        flags: FLAG_BOOTLOADER | FLAG_COMPRESSED,
        dst: 0xf8000,
        dst_size: 16,
        src_size: 16,
        ..blank()
    };
    assert_eq!(plan_item(&boot), Err(Error::BootloaderCompressed));
    let boot = Item { flags: FLAG_BOOTLOADER, dst: 0xf8000, dst_size: 16, src_size: 20, ..blank() };
    assert_eq!(plan_item(&boot), Err(Error::SizeMismatch));
    let boot = Item { flags: FLAG_BOOTLOADER, dst: 0xf7000, dst_size: 16, src_size: 16, ..blank() };
    assert_eq!(plan_item(&boot), Err(Error::BootloaderRange));
    let boot = Item { flags: FLAG_BOOTLOADER, dst: 0xfe000, dst_size: 0, src_size: 0, ..blank() };
    assert_eq!(plan_item(&boot), Err(Error::BootloaderRange));
    let boot =
        Item { flags: FLAG_BOOTLOADER, dst: 0xf8000, dst_size: 0x6004, src_size: 0x6004, ..blank() };
    assert_eq!(plan_item(&boot), Err(Error::BootloaderRange));
    let boot = Item {
        flags: FLAG_BOOTLOADER,
        src: 0xffff0,
        dst: 0xf8000,
        dst_size: 0x20,
        src_size: 0x20,
        ..blank()
    };
    assert_eq!(plan_item(&boot), Err(Error::Flash));
}

#[test]
fn an_item_in_disorder_changes_nothing() {
    let mem = noisy_image();
    let mut flash = Flash::with_contents(mem.clone()).unwrap();
    let sizes = Item { src_size: 8, dst_size: 12, dst: 0x40000, src: 0x80000, ..blank() };
    assert_eq!(execute_item(&mut flash, &sizes, &[]), Err(Error::SizeMismatch));
    assert_eq!(contents(&flash), mem);
    assert!(flash.ops().is_empty());
}

#[test]
fn a_wrong_destination_crc_is_fatal() {
    let mem = noisy_image();
    let data = mem[0x80000..0x80100].to_vec();
    let item = plain(0x80000, 0x40000, 0x100, crc32(&data) ^ 1);
    let mut flash = Flash::with_contents(mem).unwrap();
    assert_eq!(execute_item(&mut flash, &item, &[]), Err(Error::CrcMismatch));
    assert_eq!(flash.read(0x40000, 0x100), data);
}

#[test]
fn plans_of_chunks() {
    assert_eq!(
        plan_chunk(InflateStatus::More, 4096, 5000),
        Ok(ChunkPlan { write_len: 4096, remaining: 904, done: false })
    );
    assert_eq!(
        plan_chunk(InflateStatus::Done, 100, 100),
        Ok(ChunkPlan { write_len: 100, remaining: 0, done: true })
    );
    assert_eq!(
        plan_chunk(InflateStatus::Done, 101, 200),
        Ok(ChunkPlan { write_len: 104, remaining: 99, done: true })
    );
    assert_eq!(
        plan_chunk(InflateStatus::Done, 0, 0),
        Ok(ChunkPlan { write_len: 0, remaining: 0, done: true })
    );
    assert_eq!(plan_chunk(InflateStatus::Failed, 0, 100), Err(Error::InflateCorrupted));
    assert_eq!(plan_chunk(InflateStatus::Failed, 5000, 0), Err(Error::InflateCorrupted));
    assert_eq!(plan_chunk(InflateStatus::Done, 101, 100), Err(Error::InflateOverflow));
    assert_eq!(plan_chunk(InflateStatus::More, 4096, 4095), Err(Error::InflateOverflow));
    assert_eq!(plan_chunk(InflateStatus::More, 4095, 8192), Err(Error::InflateProtocol));
    assert_eq!(plan_chunk(InflateStatus::More, 0, 8192), Err(Error::InflateProtocol));
    assert_eq!(plan_chunk(InflateStatus::Done, 4097, 8192), Err(Error::InflateProtocol));
}

#[test]
fn a_stream_is_complete_when_nothing_remains() {
    assert_eq!(check_complete(0), Ok(()));
    assert_eq!(check_complete(1), Err(Error::InflateUnderflow));
    assert_eq!(check_complete(4096), Err(Error::InflateUnderflow));
}

#[test]
fn decompressing_copy_with_a_short_tail() {
    let data = payload(PAGE_SIZE + 100);
    let item = Item {
        flags: FLAG_COMPRESSED,
        src: 0x90000,
        src_size: 1234,
        dst: 0x40000,
        dst_size: (PAGE_SIZE + 100) as u32,
        dst_crc: crc32(&data),
        ..blank()
    };
    let chunks = vec![more(data[..PAGE_SIZE].to_vec()), done(data[PAGE_SIZE..].to_vec())];
    let mem = noisy_image();
    let mut flash = Flash::with_contents(mem.clone()).unwrap();
    assert_eq!(execute_item(&mut flash, &item, &chunks), Ok(Outcome::Done));
    let after = contents(&flash);
    assert_eq!(&after[0x40000..0x41000], &data[..PAGE_SIZE]);
    assert_eq!(&after[0x41000..0x41064], &data[PAGE_SIZE..]);
    assert_eq!(&after[0x41064..0x42000], &vec![0xffu8; PAGE_SIZE - 100][..]);
    assert_eq!(&after[..0x40000], &mem[..0x40000]);
    assert_eq!(&after[0x42000..], &mem[0x42000..]);
    assert_eq!(crc32(&after[0x40000..0x41064]), item.dst_crc);
    assert_eq!(
        flash.ops().as_slice(),
        &[
            FlashOp::Pet,
            FlashOp::Pet,
            FlashOp::Erase { page: 0x40000 },
            FlashOp::Write { addr: 0x40000, len: 4096 },
            FlashOp::Pet,
            FlashOp::Pet,
            FlashOp::Erase { page: 0x41000 },
            FlashOp::Write { addr: 0x41000, len: 100 },
        ]
    );
}

#[test]
fn the_tail_is_rounded_up_with_what_the_buffer_held() {
    let data = payload(PAGE_SIZE + 101);
    let mut flash = Flash::with_contents(noisy_image()).unwrap();
    let chunks = chunked(&data);
    assert_eq!(copy_uncompress(&mut flash, 0x40000, PAGE_SIZE + 101, &chunks), Ok(()));
    assert_eq!(flash.read(0x40000, PAGE_SIZE + 101), data);
    // three bytes of padding: what the first page left in the buffer
    assert_eq!(flash.read(0x41065, 3), &data[101..104]);
    assert_eq!(flash.read(0x41068, 8), vec![0xffu8; 8]);
    assert_eq!(flash.ops()[7], FlashOp::Write { addr: 0x41000, len: 104 });
}

#[test]
fn the_first_tail_is_padded_with_zeros() {
    let data = payload(5);
    let mut flash = Flash::new();
    assert_eq!(copy_uncompress(&mut flash, 0x40000, 5, &chunked(&data)), Ok(()));
    assert_eq!(flash.read(0x40000, 5), data);
    assert_eq!(flash.read(0x40005, 3), vec![0u8; 3]);
    assert_eq!(flash.read(0x40008, 8), vec![0xffu8; 8]);
}

#[test]
fn whole_pages_and_an_empty_last_chunk() {
    let data = payload(2 * PAGE_SIZE);
    let mut flash = Flash::with_contents(noisy_image()).unwrap();
    let chunks = chunked(&data);
    assert_eq!(chunks.len(), 3);
    assert_eq!(copy_uncompress(&mut flash, 0xfe000, 2 * PAGE_SIZE, &chunks), Ok(()));
    assert_eq!(flash.read(0xfe000, 2 * PAGE_SIZE), data);
    assert_eq!(flash.erases(), 2);
    assert_eq!(flash.ops().last(), Some(&FlashOp::Pet));
}

#[test]
fn a_last_chunk_of_a_whole_page() {
    let data = payload(PAGE_SIZE);
    let mut flash = Flash::with_contents(noisy_image()).unwrap();
    assert_eq!(copy_uncompress(&mut flash, 0x40000, PAGE_SIZE, &[done(data.clone())]), Ok(()));
    assert_eq!(flash.read(0x40000, PAGE_SIZE), data);
}

#[test]
fn inflate_corrupted() {
    let data = payload(PAGE_SIZE);
    let mem = noisy_image();
    let mut flash = Flash::with_contents(mem.clone()).unwrap();
    assert_eq!(
        copy_uncompress(&mut flash, 0x40000, 3 * PAGE_SIZE, &[more(data.clone()), failed()]),
        Err(Error::InflateCorrupted)
    );
    assert_eq!(flash.read(0x40000, PAGE_SIZE), data);
    assert_eq!(flash.read(0x41000, PAGE_SIZE), &mem[0x41000..0x42000]);
    let mut flash = Flash::with_contents(mem.clone()).unwrap();
    assert_eq!(copy_uncompress(&mut flash, 0x40000, 10, &[failed()]), Err(Error::InflateCorrupted));
    assert_eq!(contents(&flash), mem);
}

#[test]
fn inflate_overflow() {
    let data = payload(PAGE_SIZE + 101);
    let mem = noisy_image();
    let mut flash = Flash::with_contents(mem.clone()).unwrap();
    assert_eq!(
        copy_uncompress(&mut flash, 0x40000, PAGE_SIZE + 100, &chunked(&data)),
        Err(Error::InflateOverflow)
    );
    assert_eq!(flash.read(0x40000, PAGE_SIZE), &data[..PAGE_SIZE]);
    assert_eq!(flash.read(0x41000, PAGE_SIZE), &mem[0x41000..0x42000]);
    let mut flash = Flash::with_contents(mem.clone()).unwrap();
    assert_eq!(copy_uncompress(&mut flash, 0x40000, 0, &chunked(&[1])), Err(Error::InflateOverflow));
    assert_eq!(contents(&flash), mem);
}

#[test]
fn inflate_underflow() {
    let data = payload(PAGE_SIZE + 99);
    let mut flash = Flash::with_contents(noisy_image()).unwrap();
    assert_eq!(
        copy_uncompress(&mut flash, 0x40000, PAGE_SIZE + 100, &chunked(&data)),
        Err(Error::InflateUnderflow)
    );
    assert_eq!(flash.read(0x40000, PAGE_SIZE + 99), data);
    let mut flash = Flash::new();
    assert_eq!(copy_uncompress(&mut flash, 0x40000, 1, &chunked(&[])), Err(Error::InflateUnderflow));
}

#[test]
fn inflate_protocol() {
    let mem = noisy_image();
    let mut flash = Flash::with_contents(mem.clone()).unwrap();
    assert_eq!(
        copy_uncompress(&mut flash, 0x40000, 8192, &[more(payload(4095)), done(payload(1))]),
        Err(Error::InflateProtocol)
    );
    assert_eq!(contents(&flash), mem);
    assert_eq!(
        copy_uncompress(&mut flash, 0x40000, 8192, &[done(payload(4097))]),
        Err(Error::InflateProtocol)
    );
    assert_eq!(copy_uncompress(&mut flash, 0x40000, 8192, &[]), Err(Error::InflateProtocol));
    assert_eq!(copy_uncompress(&mut flash, 0x40000, 0, &[]), Err(Error::InflateProtocol));
    assert_eq!(contents(&flash), mem);
    assert_eq!(
        copy_uncompress(&mut flash, 0x40000, 8192, &[more(payload(4096))]),
        Err(Error::InflateProtocol)
    );
    assert_eq!(flash.read(0x40000, 4096), payload(4096));
}

#[test]
fn chunks_after_the_last_are_not_read() {
    let data = payload(40);
    let mut flash = Flash::new();
    assert_eq!(
        copy_uncompress(&mut flash, 0x40000, 40, &[done(data.clone()), failed(), more(vec![1])]),
        Ok(())
    );
    assert_eq!(flash.read(0x40000, 40), data);
}

#[test]
fn a_compressed_item_without_chunks_fails() {
    let item = Item { flags: FLAG_COMPRESSED, dst: 0x40000, dst_size: 16, ..blank() };
    let mut flash = Flash::new();
    assert_eq!(execute_item(&mut flash, &item, &[]), Err(Error::InflateProtocol));
    let list = list_of(&[item]);
    assert_eq!(do_execute(&mut flash, &list, &Vec::new()), Err(Error::InflateProtocol));
}

#[test]
fn a_real_inflater_feeds_the_copy() {
    let data: Vec<u8> = (0..3 * PAGE_SIZE + 777).map(|i| ((i / 7) as u8) ^ noise(i / 64)).collect();
    let packed = miniz_oxide::deflate::compress_to_vec(&data, 6);
    assert!(packed.len() < data.len());

    let mut state = miniz_oxide::inflate::stream::InflateState::new(miniz_oxide::DataFormat::Raw);
    let mut input = &packed[..];
    let mut chunks = Vec::new();
    loop {
        let mut page = vec![0u8; PAGE_SIZE];
        let mut filled = 0;
        let mut status = InflateStatus::More;
        while filled < PAGE_SIZE {
            let r = miniz_oxide::inflate::stream::inflate(
                &mut state,
                input,
                &mut page[filled..],
                miniz_oxide::MZFlush::None,
            );
            input = &input[r.bytes_consumed..];
            filled += r.bytes_written;
            match r.status {
                Ok(miniz_oxide::MZStatus::StreamEnd) => {
                    status = InflateStatus::Done;
                    break;
                }
                Ok(_) => {}
                Err(_) => {
                    status = InflateStatus::Failed;
                    break;
                }
            }
        }
        page.truncate(filled);
        chunks.push(Chunk { status, data: page });
        if status != InflateStatus::More {
            break;
        }
    }
    assert_eq!(chunks.len(), 4);

    let mut mem = noisy_image();
    mem[0x90000..0x90000 + packed.len()].copy_from_slice(&packed);
    let item = Item {
        flags: FLAG_COMPRESSED,
        src: 0x90000,
        src_size: packed.len() as u32,
        dst: 0x40000,
        dst_size: data.len() as u32,
        dst_crc: crc32(&data),
        ..blank()
    };
    arm(&mut mem, &[item]);
    let mut flash = Flash::with_contents(mem).unwrap();
    assert_eq!(execute(&mut flash, &vec![chunks]), Ok(Outcome::Done));
    assert_eq!(flash.read(0x40000, data.len()), data);
    assert_eq!(flash.read(LIST_PAGE, PAGE_SIZE), vec![0xffu8; PAGE_SIZE]);
}

#[test]
fn bootloader_request_counts_in_words() {
    assert_eq!(
        bootloader_request(0x90000, 0x6000),
        Outcome::CopyBootloader { src: 0x90000, len_words: 0x1800 }
    );
    assert_eq!(bootloader_request(0x90000, 5), Outcome::CopyBootloader { src: 0x90000, len_words: 2 });
    assert_eq!(bootloader_request(0, 0), Outcome::CopyBootloader { src: 0, len_words: 0 });
}

#[test]
fn a_bootloader_that_is_there_is_left_alone() {
    let mut mem = noisy_image();
    let image = mem[0x90000..0x95000].to_vec();
    mem[0xf8000..0xfd000].copy_from_slice(&image);
    let flash = Flash::with_contents(mem.clone()).unwrap();
    assert_eq!(copy_bootloader(&flash, 0xf8000, 0x90000, 0x5000), Outcome::Done);

    let item = Item {
        flags: FLAG_BOOTLOADER,
        src: 0x90000,
        src_size: 0x5000,
        dst: 0xf8000,
        dst_size: 0x5000,
        dst_crc: crc32(&image),
        ..blank()
    };
    let mut flash = Flash::with_contents(mem.clone()).unwrap();
    assert_eq!(execute_item(&mut flash, &item, &[]), Ok(Outcome::Done));
    assert_eq!(contents(&flash), mem);
    assert!(flash.ops().is_empty());
}

#[test]
fn a_new_bootloader_is_handed_to_the_master_boot_record() {
    let mem = noisy_image();
    let flash = Flash::with_contents(mem.clone()).unwrap();
    assert_eq!(
        copy_bootloader(&flash, 0xf8000, 0x90000, 0x5001),
        Outcome::CopyBootloader { src: 0x90000, len_words: 0x1401 }
    );
    let item = Item {
        flags: FLAG_BOOTLOADER,
        src: 0x90000,
        src_size: 0x5000,
        dst: 0xf8000,
        dst_size: 0x5000,
        dst_crc: 0,
        ..blank()
    };
    let mut flash = Flash::with_contents(mem.clone()).unwrap();
    assert_eq!(
        execute_item(&mut flash, &item, &[]),
        Ok(Outcome::CopyBootloader { src: 0x90000, len_words: 0x1400 })
    );
    assert_eq!(contents(&flash), mem);
}

#[test]
fn the_list_stays_armed_across_the_handover() {
    let mut mem = noisy_image();
    let first = mem[0x80000..0x80200].to_vec();
    let image = mem[0x90000..0x92000].to_vec();
    let last = mem[0x82000..0x82010].to_vec();
    let items = [
        plain(0x80000, 0x40000, 0x200, crc32(&first)),
        Item {
            flags: FLAG_BOOTLOADER,
            src: 0x90000,
            src_size: 0x2000,
            dst: 0xf8000,
            dst_size: 0x2000,
            dst_crc: crc32(&image),
            ..blank()
        },
        plain(0x82000, 0x50000, 0x10, crc32(&last)),
    ];
    arm(&mut mem, &items);
    let armed = mem[LIST_PAGE..].to_vec();
    let mut flash = Flash::with_contents(mem).unwrap();
    assert_eq!(
        execute(&mut flash, &Vec::new()),
        Ok(Outcome::CopyBootloader { src: 0x90000, len_words: 0x800 })
    );
    assert_eq!(flash.read(0x40000, 0x200), first);
    assert_eq!(flash.read(LIST_PAGE, PAGE_SIZE), armed);
    assert_eq!(flash.read(0x50000, 0x10), (0x50000..0x50010).map(noise).collect::<Vec<u8>>());

    // the master boot record copies the image and resets: the next boot goes on
    let mut mem = contents(&flash);
    mem[0xf8000..0xfa000].copy_from_slice(&image);
    let mut flash = Flash::with_contents(mem).unwrap();
    assert_eq!(execute(&mut flash, &Vec::new()), Ok(Outcome::Done));
    assert_eq!(flash.read(0x50000, 0x10), last);
    assert_eq!(flash.read(LIST_PAGE, PAGE_SIZE), vec![0xffu8; PAGE_SIZE]);
    assert_eq!(flash.erases(), 2);
}

#[test]
fn a_failing_item_stops_the_list_and_keeps_it_armed() {
    let mut mem = noisy_image();
    let first = mem[0x80000..0x80200].to_vec();
    let items = [
        plain(0x80000, 0x40000, 0x200, crc32(&first)),
        plain(0x81000, 0x42000, 0x200, 0x1234_5678),
        plain(0x82000, 0x44000, 0x200, 0),
    ];
    arm(&mut mem, &items);
    let armed = mem[LIST_PAGE..].to_vec();
    let mut flash = Flash::with_contents(mem.clone()).unwrap();
    assert_eq!(execute(&mut flash, &Vec::new()), Err(Error::CrcMismatch));
    assert_eq!(flash.read(0x40000, 0x200), first);
    assert_eq!(flash.read(0x42000, 0x200), &mem[0x81000..0x81200]);
    assert_eq!(flash.read(0x44000, 0x200), &mem[0x44000..0x44200]);
    assert_eq!(flash.read(LIST_PAGE, PAGE_SIZE), armed);
}

#[test]
fn every_item_has_its_crc_after_the_list() {
    let mut mem = noisy_image();
    let packed = payload(PAGE_SIZE + 40);
    let a = mem[0x80000..0x80300].to_vec();
    let b = mem[0x30000..0x32000].to_vec();
    let items = [
        plain(0x80000, 0x40000, 0x300, crc32(&a)),
        Item {
            flags: FLAG_COMPRESSED,
            src: 0x90000,
            src_size: 99,
            dst: 0x60000,
            dst_size: packed.len() as u32,
            dst_crc: crc32(&packed),
            ..blank()
        },
        plain(0x30000, 0x62000, 0x2000, crc32(&b)),
    ];
    arm(&mut mem, &items);
    let mut flash = Flash::with_contents(mem).unwrap();
    let inflated = vec![Vec::new(), chunked(&packed)];
    assert_eq!(execute(&mut flash, &inflated), Ok(Outcome::Done));
    for item in &items {
        let got = flash.read(item.dst as usize, item.dst_size as usize);
        assert_eq!(crc32(&got), item.dst_crc);
    }
}

#[test]
fn do_execute_runs_the_listed_items_only() {
    let mem = noisy_image();
    let a = mem[0x80000..0x80100].to_vec();
    let mut list = list_of(&[
        plain(0x80000, 0x40000, 0x100, crc32(&a)),
        plain(0x81000, 0x42000, 0x100, 0),
    ]);
    list.count = 1;
    let mut flash = Flash::with_contents(mem.clone()).unwrap();
    assert_eq!(do_execute(&mut flash, &list, &Vec::new()), Ok(Outcome::Done));
    assert_eq!(flash.read(0x40000, 0x100), a);
    assert_eq!(flash.read(0x42000, 0x100), &mem[0x42000..0x42100]);
    assert_eq!(flash.read(LIST_PAGE, PAGE_SIZE), &mem[LIST_PAGE..]);
    list.count = 0;
    let done = flash.ops().len();
    assert_eq!(do_execute(&mut flash, &list, &Vec::new()), Ok(Outcome::Done));
    assert_eq!(flash.ops().len(), done);
}
