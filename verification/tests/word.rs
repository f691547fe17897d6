use bootloader::word::{push_word, read_word, word_from};

#[test]
fn a_word_is_put_together_least_significant_byte_first() {
    assert_eq!(word_from(0x7d, 0x3c, 0xe5, 0x55), 0x55e5_3c7d);
    assert_eq!(word_from(0, 0, 0, 0), 0);
    assert_eq!(word_from(0xff, 0xff, 0xff, 0xff), 0xffff_ffff);
    assert_eq!(word_from(1, 0, 0, 0), 1);
    assert_eq!(word_from(0, 0, 0, 1), 0x0100_0000);
}

#[test]
fn a_word_is_read_at_its_offset() {
    let bytes = [0xaa, 0x4a, 0x03, 0xd1, 0xc7, 0xbb];
    assert_eq!(read_word(&bytes, 1), 0xc7d1_034a);
    assert_eq!(read_word(&bytes, 0), 0xd103_4aaa);
    assert_eq!(read_word(&bytes, 2), 0xbbc7_d103);
}

#[test]
fn a_word_is_appended_least_significant_byte_first() {
    let mut out = vec![9u8];
    push_word(&mut out, 0x6cda_65cc);
    push_word(&mut out, 1);
    assert_eq!(out, vec![9, 0xcc, 0x65, 0xda, 0x6c, 1, 0, 0, 0]);
}

#[test]
fn reading_undoes_appending() {
    for w in [0u32, 1, 0x8000_0000, 0xffff_ffff, 0x1234_5678, 0xedb8_8320] {
        let mut out = Vec::new();
        push_word(&mut out, w);
        assert_eq!(out, w.to_le_bytes());
        assert_eq!(read_word(&out, 0), w);
    }
}
