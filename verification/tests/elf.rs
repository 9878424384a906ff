use uf2_tool::binary::{BinaryError, Encoding};
use uf2_tool::elf::{
    Class, Elf, FieldErrorKind, FileType, Header, Ident, InconsistentKind, ParserError,
    ProgramHeaderTable, SegmentType,
};

fn ident_bytes(class: u8, data: u8, version: u8) -> Vec<u8> {
    let mut v = vec![0x7F, b'E', b'L', b'F', class, data, version];
    v.resize(16, 0);
    v
}

fn put16(v: &mut Vec<u8>, x: u16) {
    v.extend_from_slice(&x.to_le_bytes());
}

fn put32(v: &mut Vec<u8>, x: u32) {
    v.extend_from_slice(&x.to_le_bytes());
}

/// An ELF32 little-endian file header followed by `phs` program headers
/// (type, offset, vaddr, paddr, file size, mem size, align) and `tail`.
fn elf32(file_type: u16, phs: &[(u32, u32, u32, u32, u32, u32, u32)], tail: &[u8]) -> Vec<u8> {
    let mut v = ident_bytes(1, 1, 1);
    put16(&mut v, file_type);
    put16(&mut v, 0x28);
    put32(&mut v, 1);
    put32(&mut v, 0x1000_0101);
    put32(&mut v, if phs.is_empty() { 0 } else { 52 });
    put32(&mut v, 0);
    put32(&mut v, 0);
    put16(&mut v, 52);
    put16(&mut v, 32);
    put16(&mut v, phs.len() as u16);
    put16(&mut v, 0);
    put16(&mut v, 0);
    put16(&mut v, 0);
    for &(t, off, va, pa, fs, ms, al) in phs {
        put32(&mut v, t);
        put32(&mut v, off);
        put32(&mut v, va);
        put32(&mut v, pa);
        put32(&mut v, fs);
        put32(&mut v, ms);
        put32(&mut v, 0);
        put32(&mut v, al);
    }
    v.extend_from_slice(tail);
    v
}

#[test]
fn ident_parses_class_and_encoding() {
    let b = ident_bytes(1, 1, 1);
    let id = Ident::parse(&b).unwrap();
    assert_eq!(id.class, Class::Elf32);
    assert_eq!(id.encoding, Encoding::LittleEndian);
    let b = ident_bytes(2, 2, 1);
    let id = Ident::parse(&b).unwrap();
    assert_eq!(id.class, Class::Elf64);
    assert_eq!(id.encoding, Encoding::BigEndian);
}

#[test]
fn ident_too_short() {
    let b = [0x7F, b'E', b'L', b'F'];
    match Ident::parse(&b) {
        Err(ParserError::InvalidSize { field, found, expected }) => {
            assert_eq!((field, found, expected), ("ident", 4, 16));
        }
        _ => panic!("expected an invalid size"),
    }
}

#[test]
fn ident_bad_magic() {
    let mut b = ident_bytes(1, 1, 1);
    b[1] = b'X';
    assert!(matches!(
        Ident::parse(&b),
        Err(ParserError::InvalidField { field: "magic number", kind: FieldErrorKind::InvalidValue })
    ));
}

#[test]
fn ident_bad_class_encoding_version() {
    let b = ident_bytes(3, 1, 1);
    assert!(matches!(
        Ident::parse(&b),
        Err(ParserError::InvalidField { field: "elf class", kind: FieldErrorKind::NotInSet(_) })
    ));
    let b = ident_bytes(1, 0, 1);
    assert!(matches!(
        Ident::parse(&b),
        Err(ParserError::InvalidField { field: "elf data encoding", kind: FieldErrorKind::NotInSet(_) })
    ));
    let b = ident_bytes(1, 1, 2);
    match Ident::parse(&b) {
        Err(ParserError::InvalidField {
            field: "version",
            kind: FieldErrorKind::NotEqual { expected, found },
        }) => assert_eq!((expected, found), (1, 2)),
        _ => panic!("expected a version error"),
    }
}

#[test]
fn header_parses_elf32_fields() {
    let b = elf32(2, &[(1, 84, 0, 0x2000_0000, 4, 4, 4)], &[1, 2, 3, 4]);
    let id = Ident::parse(&b).unwrap();
    let h = Header::parse(&b, &id).unwrap();
    assert_eq!(h.file_type, FileType::Exec);
    assert_eq!(h.machine_type, 0x28);
    assert_eq!(h.entry, 0x1000_0101);
    assert_eq!(h.ph_offset, 52);
    assert_eq!(h.ph_count, 1);
}

#[test]
fn header_file_types() {
    for (raw, ft) in [
        (0u16, FileType::NoneType),
        (1, FileType::Rel),
        (3, FileType::Dyn),
        (4, FileType::Core),
        (0xfe10, FileType::OsSpecific(0xfe10)),
        (0xff01, FileType::ProcSpecific(0xff01)),
        (0x0042, FileType::Unknown(0x0042)),
    ] {
        let b = elf32(raw, &[], &[]);
        let id = Ident::parse(&b).unwrap();
        assert_eq!(Header::parse(&b, &id).unwrap().file_type, ft);
        assert_eq!(FileType::try_from(raw).unwrap(), ft);
    }
}

#[test]
fn header_too_short() {
    let mut b = elf32(2, &[], &[]);
    b.truncate(40);
    let id = Ident::parse(&b).unwrap();
    match Header::parse(&b, &id) {
        Err(ParserError::InvalidSize { field, found, expected }) => {
            assert_eq!((field, found, expected), ("header", 40, 52));
        }
        _ => panic!("expected an invalid size"),
    }
}

#[test]
fn header_wrong_sizes() {
    let mut b = elf32(2, &[], &[]);
    b[40] = 60;
    let id = Ident::parse(&b).unwrap();
    match Header::parse(&b, &id) {
        Err(ParserError::InvalidField {
            field: "header size",
            kind: FieldErrorKind::NotEqual { expected, found },
        }) => assert_eq!((expected, found), (52, 60)),
        _ => panic!("expected a header size error"),
    }
    let mut b = elf32(2, &[], &[]);
    b[42] = 56;
    match Header::parse(&b, &id) {
        Err(ParserError::InvalidField {
            field: "program header entry size",
            kind: FieldErrorKind::NotEqual { expected, found },
        }) => assert_eq!((expected, found), (32, 56)),
        _ => panic!("expected an entry size error"),
    }
}

#[test]
fn header_count_without_offset() {
    let mut b = elf32(2, &[], &[]);
    b[44] = 2;
    let id = Ident::parse(&b).unwrap();
    match Header::parse(&b, &id) {
        Err(ParserError::Inconsistent { fields, kind: InconsistentKind::OffsetWithoutCount { count } }) => {
            assert_eq!(fields, ["ph_offset", "ph_count"]);
            assert_eq!(count, 2);
        }
        _ => panic!("expected an inconsistency"),
    }
}

#[test]
fn header_table_past_end() {
    let mut b = elf32(2, &[(1, 0, 0, 0, 0, 0, 0)], &[]);
    b.truncate(70);
    let id = Ident::parse(&b).unwrap();
    match Header::parse(&b, &id) {
        Err(ParserError::OutOfBounds { what, start, end, size }) => {
            assert_eq!((what, start, end, size), ("program header table", 52, 84, 70));
        }
        _ => panic!("expected an out-of-bounds table"),
    }
}

#[test]
fn program_headers_read_in_order() {
    let b = elf32(
        2,
        &[(1, 148, 0x100, 0x2000_0000, 4, 8, 4), (4, 152, 0, 0, 2, 2, 0), (0, 0, 0, 0, 0, 0, 0)],
        &[1, 2, 3, 4, 5, 6],
    );
    let elf = Elf::parse(&b).unwrap();
    let mut table = elf.program_headers().unwrap();
    let first = table.next().unwrap().unwrap();
    assert_eq!(first.segment_type, SegmentType::Load);
    assert_eq!(first.offset, 148);
    assert_eq!(first.vaddr, 0x100);
    assert_eq!(first.paddr, 0x2000_0000);
    assert_eq!(first.file_size, 4);
    assert_eq!(first.mem_size, 8);
    assert_eq!(first.align, 4);
    assert_eq!(elf.read_segment(&first).unwrap(), &[1u8, 2, 3, 4][..]);
    let second = table.next().unwrap().unwrap();
    assert_eq!(second.segment_type, SegmentType::Note);
    let third = table.next().unwrap().unwrap();
    assert_eq!(third.segment_type, SegmentType::Null);
    assert!(table.next().is_none());
    assert!(table.next().is_none());
}

#[test]
fn program_header_table_new_at_offset() {
    let b = elf32(2, &[(6, 52, 0, 0, 32, 32, 4)], &[]);
    let elf = Elf::parse(&b).unwrap();
    let mut table = ProgramHeaderTable::new(&elf).unwrap();
    assert_eq!(table.next().unwrap().unwrap().segment_type, SegmentType::Phdr);
    assert!(table.next().is_none());
}

#[test]
fn program_header_errors_stop_the_table() {
    let b = elf32(2, &[(1, 84, 0, 0, 4, 2, 0), (1, 84, 0, 0, 4, 4, 0)], &[9, 9, 9, 9]);
    let elf = Elf::parse(&b).unwrap();
    let mut table = elf.program_headers().unwrap();
    match table.next() {
        Some(Err(ParserError::Inconsistent {
            kind: InconsistentKind::SizeMismatch { smaller, larger },
            ..
        })) => assert_eq!((smaller, larger), (2, 4)),
        _ => panic!("expected a size mismatch"),
    }
    assert!(table.next().is_none());
}

#[test]
fn program_header_segment_checks() {
    let b = elf32(2, &[(1, 100, 0, 0, 4, 4, 0)], &[]);
    let elf = Elf::parse(&b).unwrap();
    match elf.program_headers().unwrap().next() {
        Some(Err(ParserError::OutOfBounds { what, start, end, size })) => {
            assert_eq!((what, start, end, size), ("Segment", 100, 104, 84));
        }
        _ => panic!("expected an out-of-bounds segment"),
    }
    let b = elf32(2, &[(1, 84, 0, 0, 4, 4, 3)], &[0; 4]);
    let elf = Elf::parse(&b).unwrap();
    match elf.program_headers().unwrap().next() {
        Some(Err(ParserError::InvalidField { field: "align", kind: FieldErrorKind::NotPowerOfTwo { value } })) => {
            assert_eq!(value, 3)
        }
        _ => panic!("expected an alignment error"),
    }
    let b = elf32(2, &[(1, 84, 1, 0, 4, 4, 4)], &[0; 4]);
    let elf = Elf::parse(&b).unwrap();
    match elf.program_headers().unwrap().next() {
        Some(Err(ParserError::Inconsistent { kind: InconsistentKind::Misaligned { align, a, b }, .. })) => {
            assert_eq!((align, a, b), (4, 84, 1))
        }
        _ => panic!("expected a misalignment"),
    }
    let b = elf32(2, &[(0, 5000, 0, 0, 4, 0, 3)], &[]);
    let elf = Elf::parse(&b).unwrap();
    assert!(matches!(elf.program_headers().unwrap().next(), Some(Ok(_))));
}

#[test]
fn segment_types_from_raw() {
    assert_eq!(SegmentType::from(0), SegmentType::Null);
    assert_eq!(SegmentType::from(1), SegmentType::Load);
    assert_eq!(SegmentType::from(2), SegmentType::Dynamic);
    assert_eq!(SegmentType::from(3), SegmentType::Interp);
    assert_eq!(SegmentType::from(5), SegmentType::ShLib);
    assert_eq!(SegmentType::from(7), SegmentType::Tls);
    assert_eq!(SegmentType::from(0x6000_0001), SegmentType::OsSpecific(0x6000_0001));
    assert_eq!(SegmentType::from(0x7FFF_FFFF), SegmentType::ProcSpecific(0x7FFF_FFFF));
    assert_eq!(SegmentType::from(8), SegmentType::Unknown(8));
}

#[test]
fn elf_parse_reports_ident_errors_first() {
    let b = [0u8; 8];
    assert!(matches!(Elf::parse(&b), Err(ParserError::InvalidSize { field: "ident", .. })));
}

#[test]
fn to_usize_converts_small_values() {
    assert_eq!(uf2_tool::elf::to_usize(42, "x").unwrap(), 42);
}

#[test]
fn read_segment_overflow() {
    let b = elf32(2, &[], &[]);
    let elf = Elf::parse(&b).unwrap();
    let ph = uf2_tool::elf::ProgramHeader {
        segment_type: SegmentType::Load,
        offset: usize::MAX,
        vaddr: 0,
        paddr: 0,
        file_size: 2,
        mem_size: 2,
        align: 0,
    };
    assert!(matches!(
        elf.read_segment(&ph),
        Err(ParserError::Overflow { op: "addition", lhs: usize::MAX, rhs: 2 })
    ));
    let _ = BinaryError::CursorOverflow { position: 0, added: 0 };
}

#[test]
fn read_program_headers_collects_all_entries() {
    let b = elf32(
        2,
        &[(1, 116, 0, 0x100, 4, 4, 0), (4, 120, 0, 0, 1, 1, 0)],
        &[1, 2, 3, 4, 5],
    );
    let elf = Elf::parse(&b).unwrap();
    let phs = elf.read_program_headers().unwrap();
    assert_eq!(phs.len(), 2);
    assert_eq!(phs[0].segment_type, SegmentType::Load);
    assert_eq!(phs[0].paddr, 0x100);
    assert_eq!(phs[1].segment_type, SegmentType::Note);
    assert_eq!(phs[1].file_size, 1);
}

#[test]
fn read_program_headers_stops_at_first_error() {
    let b = elf32(2, &[(1, 116, 0, 0, 4, 4, 0), (1, 500, 0, 0, 4, 4, 0)], &[0; 4]);
    let elf = Elf::parse(&b).unwrap();
    match elf.read_program_headers() {
        Err(ParserError::OutOfBounds { what, start, end, size }) => {
            assert_eq!((what, start, end, size), ("Segment", 500, 504, 120));
        }
        _ => panic!("expected the second entry to fail"),
    }
}
