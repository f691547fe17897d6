use bootloader::flash::{
    erase, erase_and_write, erase_and_write_if_different, Flash, FlashOp, FLASH_SIZE, PAGE_SIZE,
};
use bootloader::partitions::{
    app, bootloader, bootloader_copylist, dfu, mbr, mbr_params_page, softdevice, Partition,
};

fn patterned() -> Flash {
    let mem: Vec<u8> = (0..FLASH_SIZE).map(|i| (i as u8) ^ ((i >> 8) as u8)).collect();
    Flash::with_contents(mem).unwrap()
}

#[test]
fn new_flash_is_erased_and_untouched() {
    let flash = Flash::new();
    assert_eq!(flash.read(0, FLASH_SIZE), vec![0xffu8; FLASH_SIZE]);
    assert!(flash.ops().is_empty());
    assert_eq!(flash.erases(), 0);
    assert_eq!(flash.byte(0), 0xff);
    assert_eq!(flash.byte(FLASH_SIZE - 1), 0xff);
    assert_eq!(flash.word(FLASH_SIZE - 4), 0xffff_ffff);
}

#[test]
fn with_contents_wants_the_size_of_the_flash() {
    assert!(Flash::with_contents(vec![0u8; FLASH_SIZE - 1]).is_none());
    assert!(Flash::with_contents(vec![0u8; FLASH_SIZE + 1]).is_none());
    assert!(Flash::with_contents(Vec::new()).is_none());
    let flash = Flash::with_contents(vec![7u8; FLASH_SIZE]).unwrap();
    assert_eq!(flash.byte(12345), 7);
    assert!(flash.ops().is_empty());
}

#[test]
fn words_are_little_endian() {
    let mut mem = vec![0xffu8; FLASH_SIZE];
    mem[0x100..0x104].copy_from_slice(&[0x7d, 0x3c, 0xe5, 0x55]);
    let flash = Flash::with_contents(mem).unwrap();
    assert_eq!(flash.word(0x100), 0x55e5_3c7d);
}

#[test]
fn erase_sets_one_page_and_feeds_the_watchdog() {
    let mut flash = patterned();
    let before = flash.read(0, FLASH_SIZE);
    erase(&mut flash, 0x3000);
    let after = flash.read(0, FLASH_SIZE);
    assert_eq!(&after[0x3000..0x4000], &vec![0xffu8; PAGE_SIZE][..]);
    assert_eq!(&after[..0x3000], &before[..0x3000]);
    assert_eq!(&after[0x4000..], &before[0x4000..]);
    assert_eq!(flash.ops().as_slice(), &[FlashOp::Pet, FlashOp::Erase { page: 0x3000 }]);
    assert_eq!(flash.erases(), 1);
}

#[test]
fn write_can_only_clear_bits() {
    let mut flash = Flash::new();
    bootloader::flash::write(&mut flash, 0x2000, &[0xf0, 0x0f, 0xaa, 0x55]);
    assert_eq!(flash.read(0x2000, 4), vec![0xf0, 0x0f, 0xaa, 0x55]);
    bootloader::flash::write(&mut flash, 0x2000, &[0x3c, 0x3c, 0xff, 0x00]);
    assert_eq!(flash.read(0x2000, 4), vec![0x30, 0x0c, 0xaa, 0x00]);
    assert_eq!(flash.read(0x2004, 4), vec![0xff; 4]);
    assert_eq!(
        flash.ops().as_slice(),
        &[
            FlashOp::Pet,
            FlashOp::Write { addr: 0x2000, len: 4 },
            FlashOp::Pet,
            FlashOp::Write { addr: 0x2000, len: 4 },
        ]
    );
    assert_eq!(flash.erases(), 0);
}

#[test]
fn erase_and_write_replaces_the_page() {
    let mut flash = patterned();
    let data: Vec<u8> = (0..256u32).map(|i| (i * 3) as u8).collect();
    erase_and_write(&mut flash, 0x5000, &data);
    assert_eq!(flash.read(0x5000, 256), data);
    assert_eq!(flash.read(0x5100, PAGE_SIZE - 256), vec![0xffu8; PAGE_SIZE - 256]);
    assert_eq!(flash.byte(0x4fff), (0x4fffusize as u8) ^ ((0x4fffusize >> 8) as u8));
    assert_eq!(flash.byte(0x6000), (0x6000usize as u8) ^ ((0x6000usize >> 8) as u8));
    assert_eq!(
        flash.ops().as_slice(),
        &[FlashOp::Pet, FlashOp::Erase { page: 0x5000 }, FlashOp::Write { addr: 0x5000, len: 256 }]
    );
}

#[test]
fn rewrite_skips_a_page_that_holds_the_data() {
    let mut flash = patterned();
    let data = flash.read(0x7000, 512);
    let before = flash.read(0, FLASH_SIZE);
    erase_and_write_if_different(&mut flash, 0x7000, &data);
    assert_eq!(flash.read(0, FLASH_SIZE), before);
    assert_eq!(flash.ops().as_slice(), &[FlashOp::Pet]);
    assert_eq!(flash.erases(), 0);
}

#[test]
fn rewrite_replaces_a_page_that_differs() {
    let mut flash = patterned();
    let mut data = flash.read(0x7000, 512);
    data[511] ^= 1;
    erase_and_write_if_different(&mut flash, 0x7000, &data);
    assert_eq!(flash.read(0x7000, 512), data);
    assert_eq!(flash.read(0x7200, PAGE_SIZE - 512), vec![0xffu8; PAGE_SIZE - 512]);
    assert_eq!(
        flash.ops().as_slice(),
        &[
            FlashOp::Pet,
            FlashOp::Pet,
            FlashOp::Erase { page: 0x7000 },
            FlashOp::Write { addr: 0x7000, len: 512 },
        ]
    );
    assert_eq!(flash.erases(), 1);
}

#[test]
fn rewrite_of_nothing_only_feeds_the_watchdog() {
    let mut flash = patterned();
    let before = flash.read(0, FLASH_SIZE);
    erase_and_write_if_different(&mut flash, FLASH_SIZE, &[]);
    assert_eq!(flash.read(0, FLASH_SIZE), before);
    assert_eq!(flash.ops().as_slice(), &[FlashOp::Pet]);
}

#[test]
fn holds_compares_byte_for_byte() {
    let flash = patterned();
    let mut data = flash.read(0x9000, 64);
    assert!(flash.holds(0x9000, &data));
    assert!(!flash.holds(0x9001, &data));
    data[0] ^= 0x10;
    assert!(!flash.holds(0x9000, &data));
    assert!(flash.holds(0x9000, &[]));
}

#[test]
fn partition_map_is_the_documented_one() {
    assert_eq!(mbr(), Partition { start: 0x00000, end: 0x01000 });
    assert_eq!(softdevice(), Partition { start: 0x01000, end: 0x27000 });
    assert_eq!(app(), Partition { start: 0x27000, end: 0x85000 });
    assert_eq!(dfu(), Partition { start: 0x85000, end: 0xe4000 });
    assert_eq!(bootloader(), Partition { start: 0xf8000, end: 0xfe000 });
    assert_eq!(mbr_params_page(), Partition { start: 0xfe000, end: 0xff000 });
    assert_eq!(bootloader_copylist(), Partition { start: 0xff000, end: 0x100000 });
}

#[test]
fn staging_is_one_page_larger_than_the_application() {
    assert_eq!(app().len(), 0x5e000);
    assert_eq!(dfu().len(), app().len() + PAGE_SIZE);
    assert_eq!(app().len() % PAGE_SIZE, 0);
    assert_eq!(bootloader_copylist().len(), PAGE_SIZE);
}

#[test]
fn partitions_do_not_overlap() {
    let all = [
        mbr(),
        softdevice(),
        app(),
        dfu(),
        bootloader(),
        mbr_params_page(),
        bootloader_copylist(),
    ];
    for pair in all.windows(2) {
        assert!(pair[0].start < pair[0].end);
        assert!(pair[0].end <= pair[1].start);
    }
    assert_eq!(all[6].end, FLASH_SIZE);
}

#[test]
fn partition_bytes_are_its_contents() {
    let flash = patterned();
    let part = Partition { start: 0x1234, end: 0x1300 };
    assert_eq!(part.len(), 0xcc);
    assert_eq!(part.bytes(&flash), flash.read(0x1234, 0xcc));
    assert_eq!(mbr().bytes(&flash), flash.read(0, 0x1000));
    assert!(Partition { start: 5, end: 5 }.bytes(&flash).is_empty());
}
