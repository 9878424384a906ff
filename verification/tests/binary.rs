use uf2_tool::binary::{BinaryError, ByteReader, Encoding, Reader, Writer};

#[test]
fn u16_from_bytes_both_orders() {
    assert_eq!(Encoding::LittleEndian.u16_from_bytes([0x34, 0x12]), 0x1234);
    assert_eq!(Encoding::BigEndian.u16_from_bytes([0x12, 0x34]), 0x1234);
}

#[test]
fn u32_from_bytes_both_orders() {
    assert_eq!(Encoding::LittleEndian.u32_from_bytes([0x78, 0x56, 0x34, 0x12]), 0x12345678);
    assert_eq!(Encoding::BigEndian.u32_from_bytes([0x12, 0x34, 0x56, 0x78]), 0x12345678);
}

#[test]
fn u64_from_bytes_both_orders() {
    let le = [0xEF, 0xCD, 0xAB, 0x89, 0x67, 0x45, 0x23, 0x01];
    let be = [0x01, 0x23, 0x45, 0x67, 0x89, 0xAB, 0xCD, 0xEF];
    assert_eq!(Encoding::LittleEndian.u64_from_bytes(le), 0x0123456789ABCDEF);
    assert_eq!(Encoding::BigEndian.u64_from_bytes(be), 0x0123456789ABCDEF);
}

#[test]
fn byte_reader_reads_in_order() {
    let data = [1u8, 2, 3, 4, 5];
    let mut r = ByteReader::new(&data);
    assert_eq!(r.len(), 5);
    assert_eq!(r.remaining(), 5);
    assert!(!r.is_empty());
    assert_eq!(r.read().unwrap(), 1);
    assert_eq!(r.read_bytes(2).unwrap(), &[2u8, 3][..]);
    assert_eq!(r.read_array::<2>().unwrap(), [4u8, 5]);
    assert!(r.is_empty());
    assert_eq!(r.remaining(), 0);
}

#[test]
fn byte_reader_failed_read_keeps_position() {
    let data = [1u8, 2, 3];
    let mut r = ByteReader::new(&data);
    r.skip(2).unwrap();
    match r.read_bytes(2) {
        Err(BinaryError::OutOfBounds { needed, position, buf_len }) => {
            assert_eq!((needed, position, buf_len), (2, 2, 3));
        }
        _ => panic!("expected an out-of-bounds error"),
    }
    assert_eq!(r.remaining(), 1);
    assert_eq!(r.read().unwrap(), 3);
}

#[test]
fn byte_reader_cursor_overflow() {
    let data = [1u8, 2, 3];
    let mut r = ByteReader::new(&data);
    r.skip(1).unwrap();
    match r.skip(usize::MAX) {
        Err(BinaryError::CursorOverflow { position, added }) => {
            assert_eq!((position, added), (1, usize::MAX));
        }
        _ => panic!("expected a cursor overflow"),
    }
    assert_eq!(r.remaining(), 2);
}

#[test]
fn byte_reader_seek() {
    let data = [9u8, 8, 7, 6];
    let mut r = ByteReader::new(&data);
    r.seek(3).unwrap();
    assert_eq!(r.read().unwrap(), 6);
    r.seek(4).unwrap();
    assert!(r.is_empty());
    r.seek(1).unwrap();
    match r.seek(5) {
        Err(BinaryError::OutOfBounds { needed, position, buf_len }) => {
            assert_eq!((needed, position, buf_len), (0, 1, 4));
        }
        _ => panic!("expected an out-of-bounds error"),
    }
    assert_eq!(r.read().unwrap(), 8);
}

#[test]
fn reader_reads_words_in_its_byte_order() {
    let data = [0x01u8, 0x02, 0x03, 0x04, 0x05, 0x06, 0x07, 0x08, 0x09, 0x0A, 0x0B, 0x0C, 0x0D, 0x0E];
    let mut le = Reader::new(&data, Encoding::LittleEndian);
    assert_eq!(le.read_u16().unwrap(), 0x0201);
    assert_eq!(le.read_u32().unwrap(), 0x06050403);
    assert_eq!(le.read_u64().unwrap(), 0x0E0D0C0B0A090807);
    assert!(le.is_empty());

    let mut be = Reader::new(&data, Encoding::BigEndian);
    assert_eq!(be.len(), 14);
    assert_eq!(be.read_u16().unwrap(), 0x0102);
    assert_eq!(be.read_u32().unwrap(), 0x03040506);
    assert_eq!(be.read_u64().unwrap(), 0x0708090A0B0C0D0E);
    assert_eq!(be.remaining(), 0);
}

#[test]
fn reader_skip_seek_and_short_read() {
    let data = [0xAAu8, 0xBB, 0xCC, 0xDD, 0xEE];
    let mut r = Reader::new(&data, Encoding::LittleEndian);
    r.skip(1).unwrap();
    assert_eq!(r.read_u16().unwrap(), 0xCCBB);
    assert!(r.read_u32().is_err());
    assert_eq!(r.remaining(), 2);
    r.seek(0).unwrap();
    assert_eq!(r.read_u32().unwrap(), 0xDDCCBBAA);
    assert!(r.seek(6).is_err());
    assert!(r.skip(2).is_err());
    assert_eq!(r.remaining(), 1);
}

#[test]
fn writer_appends_in_its_byte_order() {
    let mut w = Writer::with_capacity(16, Encoding::LittleEndian);
    assert!(w.is_empty());
    w.append_u32(0x12345678);
    w.append_bytes(&[0xAA, 0xBB]);
    assert_eq!(w.len(), 6);
    assert_eq!(w.into_bytes(), vec![0x78, 0x56, 0x34, 0x12, 0xAA, 0xBB]);

    let mut b = Writer::with_capacity(4, Encoding::BigEndian);
    b.append_u32(0x12345678);
    assert_eq!(b.into_bytes(), vec![0x12, 0x34, 0x56, 0x78]);
}

#[test]
fn writer_pads_only_when_shorter() {
    let mut w = Writer::with_capacity(8, Encoding::LittleEndian);
    w.append_bytes(&[1, 2]);
    w.pad_to(5);
    assert_eq!(w.len(), 5);
    w.pad_to(3);
    assert_eq!(w.into_bytes(), vec![1, 2, 0, 0, 0]);
}

#[test]
fn written_word_reads_back() {
    for enc in [Encoding::LittleEndian, Encoding::BigEndian] {
        let mut w = Writer::with_capacity(8, enc);
        w.append_bytes(&[0x55]);
        w.append_u32(0xDEADBEEF);
        let bytes = w.into_bytes();
        let mut r = Reader::new(&bytes, enc);
        r.skip(1).unwrap();
        assert_eq!(r.read_u32().unwrap(), 0xDEADBEEF);
    }
}

#[test]
fn writer_holds_its_calls_in_order() {
    assert!(Writer::with_capacity(100, Encoding::BigEndian).into_bytes().is_empty());
    let mut w = Writer::with_capacity(0, Encoding::BigEndian);
    w.append_bytes(&[9]);
    w.pad_to(3);
    w.append_u32(0x0102_0304);
    w.pad_to(2);
    w.append_bytes(&[]);
    assert_eq!(w.into_bytes(), vec![9, 0, 0, 1, 2, 3, 4]);
}
