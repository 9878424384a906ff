use uf2_tool::converter::{conversion_needs_payload, elf_to_uf2_blocks, ConverterError, InvalidElfKind};
use uf2_tool::elf::{FileType, ParserError};
use uf2_tool::uf2::{FieldErrorKind, Uf2Error};

fn put16(v: &mut Vec<u8>, x: u16) {
    v.extend_from_slice(&x.to_le_bytes());
}

fn put32(v: &mut Vec<u8>, x: u32) {
    v.extend_from_slice(&x.to_le_bytes());
}

fn word(b: &[u8], at: usize) -> u32 {
    u32::from_le_bytes([b[at], b[at + 1], b[at + 2], b[at + 3]])
}

/// An ELF32 little-endian file of type `file_type` whose segments `(type, paddr, bytes)` follow the
/// program header table, in order.
fn elf32(file_type: u16, segs: &[(u32, u32, &[u8])]) -> Vec<u8> {
    let mut v = vec![0x7F, b'E', b'L', b'F', 1, 1, 1];
    v.resize(16, 0);
    put16(&mut v, file_type);
    put16(&mut v, 0x28);
    put32(&mut v, 1);
    put32(&mut v, 0);
    put32(&mut v, if segs.is_empty() { 0 } else { 52 });
    put32(&mut v, 0);
    put32(&mut v, 0);
    put16(&mut v, 52);
    put16(&mut v, 32);
    put16(&mut v, segs.len() as u16);
    put16(&mut v, 0);
    put16(&mut v, 0);
    put16(&mut v, 0);
    let mut offset = 52 + 32 * segs.len() as u32;
    for &(t, paddr, data) in segs {
        put32(&mut v, t);
        put32(&mut v, offset);
        put32(&mut v, paddr);
        put32(&mut v, paddr);
        put32(&mut v, data.len() as u32);
        put32(&mut v, data.len() as u32);
        put32(&mut v, 0);
        put32(&mut v, 0);
        offset += data.len() as u32;
    }
    for &(_, _, data) in segs {
        v.extend_from_slice(data);
    }
    v
}

fn elf64_header() -> Vec<u8> {
    let mut v = vec![0x7F, b'E', b'L', b'F', 2, 1, 1];
    v.resize(16, 0);
    put16(&mut v, 2);
    put16(&mut v, 0xB7);
    put32(&mut v, 1);
    v.extend_from_slice(&[0u8; 24]);
    put32(&mut v, 0);
    put16(&mut v, 64);
    put16(&mut v, 0x38);
    put16(&mut v, 0);
    put16(&mut v, 0);
    put16(&mut v, 0);
    put16(&mut v, 0);
    v
}

#[test]
fn single_segment_single_block() {
    let data: Vec<u8> = (1..=10).collect();
    let elf = elf32(2, &[(1, 0x1000_0000, &data)]);
    let blocks = elf_to_uf2_blocks(&elf, 256, None).unwrap();
    assert_eq!(blocks.len(), 1);
    let b = &blocks[0];
    assert_eq!(b.len(), 512);
    assert_eq!(word(b, 0), 0x0A32_4655);
    assert_eq!(word(b, 4), 0x9E5D_5157);
    assert_eq!(word(b, 8), 0);
    assert_eq!(word(b, 12), 0x1000_0000);
    assert_eq!(word(b, 16), 256);
    assert_eq!(word(b, 20), 0);
    assert_eq!(word(b, 24), 1);
    assert_eq!(word(b, 28), 0);
    assert_eq!(&b[32..42], &data[..]);
    assert!(b[42..508].iter().all(|&x| x == 0));
    assert_eq!(word(b, 508), 0x0AB1_6F30);
}

#[test]
fn segment_split_across_aligned_blocks() {
    let data = [1u8, 2, 3, 4, 5, 6];
    let elf = elf32(2, &[(1, 2, &data)]);
    let blocks = elf_to_uf2_blocks(&elf, 4, None).unwrap();
    assert_eq!(blocks.len(), 2);
    assert_eq!(word(&blocks[0], 12), 0);
    assert_eq!(&blocks[0][32..36], &[0, 0, 1, 2]);
    assert_eq!(word(&blocks[0], 20), 0);
    assert_eq!(word(&blocks[1], 12), 4);
    assert_eq!(&blocks[1][32..36], &[3, 4, 5, 6]);
    assert_eq!(word(&blocks[1], 20), 1);
    for b in &blocks {
        assert_eq!(word(b, 24), 2);
        assert_eq!(word(b, 16), 4);
        assert!(b[36..508].iter().all(|&x| x == 0));
    }
}

#[test]
fn blocks_come_out_in_address_order() {
    let high = [0xAAu8; 4];
    let low = [0xBBu8; 4];
    let elf = elf32(2, &[(1, 0x200, &high), (1, 0x100, &low)]);
    let blocks = elf_to_uf2_blocks(&elf, 256, None).unwrap();
    assert_eq!(blocks.len(), 2);
    assert_eq!(word(&blocks[0], 12), 0x100);
    assert_eq!(&blocks[0][32..36], &low);
    assert_eq!(word(&blocks[1], 12), 0x200);
    assert_eq!(&blocks[1][32..36], &high);
}

#[test]
fn later_segment_overwrites_earlier() {
    let first = [1u8, 1, 1, 1, 1, 1, 1, 1];
    let second = [2u8, 2];
    let elf = elf32(2, &[(1, 0x40, &first), (1, 0x43, &second)]);
    let blocks = elf_to_uf2_blocks(&elf, 16, None).unwrap();
    assert_eq!(blocks.len(), 1);
    assert_eq!(word(&blocks[0], 12), 0x40);
    assert_eq!(&blocks[0][32..48], &[1, 1, 1, 2, 2, 1, 1, 1, 0, 0, 0, 0, 0, 0, 0, 0]);
}

#[test]
fn only_loadable_segments_with_bytes_are_converted() {
    let note = [9u8; 4];
    let load = [5u8; 4];
    let empty: [u8; 0] = [];
    let elf = elf32(2, &[(4, 0x0, &note), (1, 0x800, &empty), (1, 0x1000, &load)]);
    let blocks = elf_to_uf2_blocks(&elf, 256, None).unwrap();
    assert_eq!(blocks.len(), 1);
    assert_eq!(word(&blocks[0], 12), 0x1000);
}

#[test]
fn family_id_is_flagged_in_every_block() {
    let data = [3u8; 12];
    let elf = elf32(2, &[(1, 0, &data)]);
    let blocks = elf_to_uf2_blocks(&elf, 8, Some(0xE48B_FF56)).unwrap();
    assert_eq!(blocks.len(), 2);
    for b in &blocks {
        assert_eq!(word(b, 8), 0x2000);
        assert_eq!(word(b, 28), 0xE48B_FF56);
    }
}

#[test]
fn rejects_non_executable() {
    let elf = elf32(1, &[]);
    assert!(matches!(
        elf_to_uf2_blocks(&elf, 256, None),
        Err(ConverterError::InvalidElf { kind: InvalidElfKind::FileType(FileType::Rel) })
    ));
}

#[test]
fn rejects_elf64() {
    let elf = elf64_header();
    assert!(matches!(
        elf_to_uf2_blocks(&elf, 256, None),
        Err(ConverterError::InvalidElf { kind: InvalidElfKind::Class })
    ));
}

#[test]
fn rejects_unparsable_input() {
    assert!(matches!(
        elf_to_uf2_blocks(&[1, 2, 3], 256, None),
        Err(ConverterError::ElfParser(ParserError::InvalidSize { field: "ident", .. }))
    ));
}

#[test]
fn address_overflow_past_four_gib() {
    let data = [1u8; 4];
    let elf = elf32(2, &[(1, 0xFFFF_FFFE, &data)]);
    assert!(matches!(elf_to_uf2_blocks(&elf, 4, None), Err(ConverterError::AddressOverflow)));
}

#[test]
fn segment_in_last_block_of_address_space() {
    let data = [7u8; 2];
    let elf = elf32(2, &[(1, 0xFFFF_FFFE, &data)]);
    let blocks = elf_to_uf2_blocks(&elf, 4, None).unwrap();
    assert_eq!(blocks.len(), 1);
    assert_eq!(word(&blocks[0], 12), 0xFFFF_FFFC);
    assert_eq!(&blocks[0][32..36], &[0, 0, 7, 7]);
}

#[test]
fn segment_reaching_past_four_gib_in_one_block_is_refused() {
    let data = [5u8; 12];
    let elf = elf32(2, &[(1, 0xFFFF_FFFC, &data)]);
    assert!(matches!(elf_to_uf2_blocks(&elf, 12, None), Err(ConverterError::AddressOverflow)));
    assert!(!conversion_needs_payload(&elf));
}

#[test]
fn segment_ending_at_last_address_is_accepted() {
    let data = [6u8; 4];
    let elf = elf32(2, &[(1, 0xFFFF_FFFC, &data)]);
    let blocks = elf_to_uf2_blocks(&elf, 12, None).unwrap();
    assert_eq!(blocks.len(), 1);
    assert_eq!(word(&blocks[0], 12), 0xFFFF_FFFC);
    assert_eq!(&blocks[0][32..44], &[6, 6, 6, 6, 0, 0, 0, 0, 0, 0, 0, 0]);
}

#[test]
fn no_loadable_data_means_no_blocks() {
    let elf = elf32(2, &[]);
    assert!(matches!(
        elf_to_uf2_blocks(&elf, 256, None),
        Err(ConverterError::Uf2Writer(Uf2Error::InvalidField { field: "block count", kind: FieldErrorKind::Zero }))
    ));
}

#[test]
fn invalid_payload_size_is_reported_after_loading() {
    let data = [1u8; 8];
    let elf = elf32(2, &[(1, 0, &data)]);
    assert!(matches!(
        elf_to_uf2_blocks(&elf, 6, None),
        Err(ConverterError::Uf2Writer(Uf2Error::InvalidField {
            field: "payload size",
            kind: FieldErrorKind::NotAligned { align: 4 }
        }))
    ));
    let elf = elf32(2, &[]);
    assert!(matches!(
        elf_to_uf2_blocks(&elf, 0, None),
        Err(ConverterError::Uf2Writer(Uf2Error::InvalidField {
            field: "payload size",
            kind: FieldErrorKind::OutOfRange { min: 1, max: 476 }
        }))
    ));
}

#[test]
fn payload_needed_only_when_a_segment_is_split() {
    let data = [1u8; 4];
    let note = [2u8; 4];
    assert!(conversion_needs_payload(&elf32(2, &[(4, 0, &note), (1, 0x100, &data)])));
    assert!(!conversion_needs_payload(&elf32(2, &[(4, 0, &note)])));
    assert!(!conversion_needs_payload(&elf32(1, &[(1, 0x100, &data)])));
    assert!(!conversion_needs_payload(&[0u8; 3]));
}

#[test]
fn only_segments_with_file_data_decide_the_image() {
    let data = [4u8, 3, 2, 1, 0, 9];
    let note = [7u8; 5];
    let empty: [u8; 0] = [];
    let mut a = elf32(2, &[(4, 0x10, &note), (1, 0x2000, &data), (1, 0x3000, &empty)]);
    a[24] = 0x55;
    let b = elf32(2, &[(1, 0x2000, &data)]);
    assert_eq!(elf_to_uf2_blocks(&a, 8, Some(1)).unwrap(), elf_to_uf2_blocks(&b, 8, Some(1)).unwrap());
}

#[test]
fn converter_error_from_conversions() {
    let e: ConverterError = ParserError::Overflow { op: "addition", lhs: 1, rhs: 2 }.into();
    assert!(matches!(e, ConverterError::ElfParser(ParserError::Overflow { .. })));
    let e: ConverterError = Uf2Error::InvalidDataSize { found: 2, expected: 1 }.into();
    assert!(matches!(e, ConverterError::Uf2Writer(Uf2Error::InvalidDataSize { found: 2, expected: 1 })));
    let e: ConverterError = std::io::Error::new(std::io::ErrorKind::NotFound, "gone").into();
    assert!(matches!(e, ConverterError::IO(_)));
}
