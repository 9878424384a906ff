use uf2_tool::uf2::{FieldErrorKind, Uf2, Uf2Error, BLOCK_SIZE};

fn word(b: &[u8], at: usize) -> u32 {
    u32::from_le_bytes([b[at], b[at + 1], b[at + 2], b[at + 3]])
}

#[test]
fn new_rejects_payload_out_of_range() {
    for p in [0u32, 477, 1000] {
        match Uf2::new(p, 1, None) {
            Err(Uf2Error::InvalidField {
                field: "payload size",
                kind: FieldErrorKind::OutOfRange { min, max },
            }) => assert_eq!((min, max), (1, 476)),
            _ => panic!("expected a range error"),
        }
    }
}

#[test]
fn new_rejects_unaligned_payload() {
    assert!(matches!(
        Uf2::new(6, 1, None),
        Err(Uf2Error::InvalidField { field: "payload size", kind: FieldErrorKind::NotAligned { align: 4 } })
    ));
}

#[test]
fn new_rejects_zero_blocks() {
    assert!(matches!(
        Uf2::new(256, 0, None),
        Err(Uf2Error::InvalidField { field: "block count", kind: FieldErrorKind::Zero })
    ));
}

#[test]
fn create_block_layout_without_family() {
    let uf2 = Uf2::new(256, 3, None).unwrap();
    let data = [0xA5u8; 10];
    let b = uf2.create_block(0x1000_0100, 1, &data).unwrap();
    assert_eq!(b.len(), BLOCK_SIZE);
    assert_eq!(word(&b, 0), 0x0A32_4655);
    assert_eq!(word(&b, 4), 0x9E5D_5157);
    assert_eq!(word(&b, 8), 0);
    assert_eq!(word(&b, 12), 0x1000_0100);
    assert_eq!(word(&b, 16), 256);
    assert_eq!(word(&b, 20), 1);
    assert_eq!(word(&b, 24), 3);
    assert_eq!(word(&b, 28), 0);
    assert_eq!(&b[32..42], &data[..]);
    assert!(b[42..508].iter().all(|&x| x == 0));
    assert_eq!(word(&b, 508), 0x0AB1_6F30);
}

#[test]
fn create_block_with_family() {
    let uf2 = Uf2::new(476, 1, Some(0xE48B_FF56)).unwrap();
    let data = [7u8; 476];
    let b = uf2.create_block(0, 0, &data).unwrap();
    assert_eq!(b.len(), 512);
    assert_eq!(word(&b, 8), 0x0000_2000);
    assert_eq!(word(&b, 28), 0xE48B_FF56);
    assert_eq!(&b[32..508], &data[..]);
}

#[test]
fn create_block_rejects_long_data() {
    let uf2 = Uf2::new(8, 1, None).unwrap();
    match uf2.create_block(0, 0, &[0u8; 9]) {
        Err(Uf2Error::InvalidDataSize { found, expected }) => assert_eq!((found, expected), (9, 8)),
        _ => panic!("expected a data size error"),
    }
}

#[test]
fn create_block_rejects_block_number() {
    let uf2 = Uf2::new(8, 2, None).unwrap();
    match uf2.create_block(0, 2, &[0u8; 8]) {
        Err(Uf2Error::InvalidField { field: "block number", kind: FieldErrorKind::OutOfRange { min, max } }) => {
            assert_eq!((min, max), (0, 1))
        }
        _ => panic!("expected a block number error"),
    }
}
