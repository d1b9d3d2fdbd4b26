use h264_rbsp::{golomb_to_signed, BitRead, BitReader, BitReaderError};

#[test]
fn bitreader_has_more_data() {
    // Should work when the end bit is byte-aligned.
    let mut reader = BitReader::new(&[0x12, 0x80][..]);
    assert!(reader.has_more_rbsp_data("call 1").unwrap());
    assert_eq!(reader.read_u8(8, "u8 1").unwrap(), 0x12);
    assert!(!reader.has_more_rbsp_data("call 2").unwrap());

    // and when it's not.
    let mut reader = BitReader::new(&[0x18][..]);
    assert!(reader.has_more_rbsp_data("call 3").unwrap());
    assert_eq!(reader.read_u8(4, "u8 2").unwrap(), 0x1);
    assert!(!reader.has_more_rbsp_data("call 4").unwrap());

    // should also work when there are cabac-zero-words.
    let mut reader = BitReader::new(&[0x80, 0x00, 0x00][..]);
    assert!(!reader.has_more_rbsp_data("at end with cabac-zero-words").unwrap());
}

#[test]
fn read_ue_overflow() {
    let mut reader = BitReader::new(&[0, 0, 0, 0, 255, 255, 255, 255, 255][..]);
    assert!(matches!(reader.read_ue("test"), Err(BitReaderError::ExpGolombTooLarge("test"))));
}

#[test]
fn signed_mapping_table() {
    assert_eq!(golomb_to_signed(0), 0);
    assert_eq!(golomb_to_signed(1), 1);
    assert_eq!(golomb_to_signed(2), -1);
    assert_eq!(golomb_to_signed(3), 2);
    assert_eq!(golomb_to_signed(4), -2);
    assert_eq!(golomb_to_signed(0xFFFF_FFFE), -0x7FFF_FFFF);
    assert_eq!(golomb_to_signed(0xFFFF_FFFD), 0x7FFF_FFFF);
}

/// Writes the unsigned Exp-Golomb code of each value, then pads with a
/// stop bit and zeros.
fn ue_bytes(values: &[u32]) -> Vec<u8> {
    let mut bits: Vec<bool> = Vec::new();
    for &k in values {
        let v = k as u64 + 1;
        let z = 63 - v.leading_zeros();
        for _ in 0..z {
            bits.push(false);
        }
        for b in (0..=z).rev() {
            bits.push((v >> b) & 1 == 1);
        }
    }
    bits.push(true);
    while bits.len() % 8 != 0 {
        bits.push(false);
    }
    bits.chunks(8).map(|c| c.iter().fold(0u8, |a, &b| (a << 1) | b as u8)).collect()
}

#[test]
fn read_ue_round_trip() {
    let values = [0, 1, 2, 3, 4, 5, 6, 7, 8, 100, 255, 256, 65535, 0x7FFF_FFFE, 0xFFFF_FFFE];
    let bytes = ue_bytes(&values);
    let mut reader = BitReader::new(&bytes);
    for &v in &values {
        assert_eq!(reader.read_ue("v").unwrap(), v);
    }
    assert!(!reader.has_more_rbsp_data("end").unwrap());
}

#[test]
fn read_ue_known_codes() {
    // 1 -> 0, 010 -> 1, 011 -> 2, 00100 -> 3: 1010 0110 0100 0000
    let mut reader = BitReader::new(&[0b1010_0110, 0b0100_0000][..]);
    assert_eq!(reader.read_ue("a").unwrap(), 0);
    assert_eq!(reader.read_ue("b").unwrap(), 1);
    assert_eq!(reader.read_ue("c").unwrap(), 2);
    assert_eq!(reader.read_ue("d").unwrap(), 3);
}

#[test]
fn read_se_values() {
    let bytes = ue_bytes(&[0, 1, 2, 3, 4]);
    let mut reader = BitReader::new(&bytes);
    assert_eq!(reader.read_se("a").unwrap(), 0);
    assert_eq!(reader.read_se("b").unwrap(), 1);
    assert_eq!(reader.read_se("c").unwrap(), -1);
    assert_eq!(reader.read_se("d").unwrap(), 2);
    assert_eq!(reader.read_se("e").unwrap(), -2);
}

#[test]
fn read_ue_largest_prefix_accepted() {
    // 31 zeros, a one, then 31 ones: 2^32 - 2
    let bytes = ue_bytes(&[0xFFFF_FFFE]);
    let mut reader = BitReader::new(&bytes);
    assert_eq!(reader.read_ue("max").unwrap(), 0xFFFF_FFFE);
}

#[test]
fn read_ue_truncated_is_an_io_error() {
    // 00001 then the data ends before the four suffix bits
    let mut reader = BitReader::new(&[0b0000_1000][..]);
    assert!(matches!(reader.read_ue("cut"), Err(BitReaderError::ReaderErrorFor("cut", _))));
    let mut reader = BitReader::new(&[0, 0][..]);
    assert!(matches!(reader.read_ue("zeros"), Err(BitReaderError::ReaderErrorFor("zeros", _))));
}

#[test]
fn fixed_width_reads() {
    let mut reader = BitReader::new(&[0b1011_0111, 0xAB, 0xCD, 0xFF, 0xFF, 0xFF, 0xFF][..]);
    assert!(reader.read_bool("a").unwrap());
    assert!(!reader.read_bool("b").unwrap());
    assert_eq!(reader.read_u8(3, "c").unwrap(), 0b110);
    assert_eq!(reader.read_u16(11, "d").unwrap(), 0b111_1010_1011);
    assert_eq!(reader.read_u32(8, "e").unwrap(), 0xCD);
    assert_eq!(reader.read_i32(32, "f").unwrap(), -1);
    assert!(matches!(reader.read_bool("g"), Err(BitReaderError::ReaderErrorFor("g", _))));
}

#[test]
fn read_past_end_is_an_io_error() {
    let mut reader = BitReader::new(&[0xFF][..]);
    assert!(matches!(reader.read_u16(9, "wide"), Err(BitReaderError::ReaderErrorFor("wide", _))));
}

#[test]
fn has_more_data_on_empty() {
    let mut reader = BitReader::new(&[][..]);
    assert!(!reader.has_more_rbsp_data("empty").unwrap());
}

#[test]
fn has_more_data_does_not_move() {
    let mut reader = BitReader::new(&[0xC0][..]);
    assert!(reader.has_more_rbsp_data("x").unwrap());
    assert!(reader.has_more_rbsp_data("x").unwrap());
    assert!(reader.read_bool("y").unwrap());
    assert!(!reader.has_more_rbsp_data("z").unwrap());
}
