use uf2_tool::binary::{BinaryError, Encoding};
use uf2_tool::converter::{ConverterError, InvalidElfKind};
use uf2_tool::elf::{Class, FieldErrorKind, FileType, InconsistentKind, ParserError, SegmentType};
use uf2_tool::uf2;

#[test]
fn binary_error_messages() {
    let e = BinaryError::OutOfBounds { needed: 4, position: 0x1a, buf_len: 20 };
    assert_eq!(e.describe(), "out of bounds: cursor at position 0x1a, needed 4 bytes, but buffer length is 20");
    let e = BinaryError::OutOfBounds { needed: 0, position: 0, buf_len: 3 };
    assert_eq!(e.describe(), "out of bounds: cursor at position 0x0, needed 0 bytes, but buffer length is 3");
    let e = BinaryError::CursorOverflow { position: 5, added: 7 };
    assert_eq!(e.describe(), "cursor overflow: adding 7 to cursor position 5 caused overflow");
}

#[test]
fn parser_error_messages() {
    let e = ParserError::InvalidField {
        field: "version",
        kind: FieldErrorKind::NotEqual { expected: 1, found: 2 },
    };
    assert_eq!(e.describe(), "'version' is invalid: found 2, expected 1");
    let e = ParserError::InvalidSize { field: "ident", found: 4, expected: 16 };
    assert_eq!(e.describe(), "invalid size for 'ident': got 4, expected 16");
    let e = ParserError::Inconsistent {
        fields: ["ph_offset", "ph_count"],
        kind: InconsistentKind::OffsetWithoutCount { count: 2 },
    };
    assert_eq!(
        e.describe(),
        "invalid relationship between fields: [\"ph_offset\", \"ph_count\"] - offset is 0 but count is 2"
    );
    let e = ParserError::OutOfBounds { what: "Segment", start: 100, end: 104, size: 84 };
    assert_eq!(e.describe(), "'Segment' is out of bounds: range [0x64..0x68) exceeds file size 0x54");
    let e = ParserError::Overflow { op: "addition", lhs: 1, rhs: 2 };
    assert_eq!(e.describe(), "arithmetic overflow during addition: 1 and 2");
    let e = ParserError::IntegerConversion { field: "file size", value: 5_000_000_000, target: "usize" };
    assert_eq!(e.describe(), "conversion falied for 'file size': 5000000000 does not fit in usize");
    let e = ParserError::Binary(BinaryError::CursorOverflow { position: 1, added: 2 });
    assert_eq!(e.describe(), "cursor overflow: adding 2 to cursor position 1 caused overflow");
}

#[test]
fn field_and_inconsistency_messages() {
    assert_eq!(FieldErrorKind::InvalidValue.describe(), "invalid value");
    assert_eq!(FieldErrorKind::NotInSet("1 or 2").describe(), "value not in 1 or 2");
    assert_eq!(FieldErrorKind::NotPowerOfTwo { value: 3 }.describe(), "3 is not a power of two");
    assert_eq!(InconsistentKind::SizeMismatch { smaller: 2, larger: 4 }.describe(), "2 is smaller than 4");
    assert_eq!(
        InconsistentKind::Misaligned { align: 4, a: 0xab, b: 0x1 }.describe(),
        "0xAB and 0x1 are not 4-byte aligned"
    );
}

#[test]
fn type_names() {
    assert_eq!(FileType::NoneType.describe(), "None");
    assert_eq!(FileType::Rel.describe(), "Relocatable");
    assert_eq!(FileType::Exec.describe(), "Executable");
    assert_eq!(FileType::Dyn.describe(), "Shared Object");
    assert_eq!(FileType::Core.describe(), "Core");
    assert_eq!(FileType::OsSpecific(0xfe10).describe(), "OS Specific (0xfe10)");
    assert_eq!(FileType::ProcSpecific(0xff01).describe(), "Processor Specific (0xff01)");
    assert_eq!(FileType::Unknown(0x42).describe(), "Unknown (0x0042)");
    assert_eq!(SegmentType::Load.describe(), "Loadable (0x00000001)");
    assert_eq!(SegmentType::Phdr.describe(), "Program Header (0x00000006)");
    assert_eq!(SegmentType::OsSpecific(0x6000_0001).describe(), "OS Specific (0x60000001)");
    assert_eq!(SegmentType::Unknown(8).describe(), "Unknown (0x00000008)");
    assert_eq!(Class::Elf32.describe(), "ELF32");
    assert_eq!(Class::Elf64.describe(), "ELF64");
    assert_eq!(Encoding::LittleEndian.describe(), "Little Endian");
    assert_eq!(Encoding::BigEndian.describe(), "Big Endian");
}

#[test]
fn uf2_error_messages() {
    assert_eq!(uf2::FieldErrorKind::Zero.describe(), "must not be zero");
    assert_eq!(uf2::FieldErrorKind::NotAligned { align: 4 }.describe(), "must be aligned to 4");
    assert_eq!(uf2::FieldErrorKind::OutOfRange { min: 1, max: 476 }.describe(), "must be between 1 and 476");
    let e = uf2::Uf2Error::InvalidField { field: "payload size", kind: uf2::FieldErrorKind::NotAligned { align: 4 } };
    assert_eq!(e.describe(), "'payload size' is invalid: must be aligned to 4");
    let e = uf2::Uf2Error::InvalidDataSize { found: 9, expected: 8 };
    assert_eq!(e.describe(), "invalid data size: got 9, must be <= 8");
}

#[test]
fn converter_error_messages() {
    assert_eq!(
        InvalidElfKind::FileType(FileType::Rel).describe(),
        "Invalid file type Relocatable, must be EXEC"
    );
    assert_eq!(InvalidElfKind::Class.describe(), "Elf class must be ELF32");
    assert_eq!(
        InvalidElfKind::AddressTooLarge(4_294_967_296).describe(),
        "ELF segment address 4294967296 does not fit in UF2 address space (u32)"
    );
    let e = ConverterError::InvalidElf { kind: InvalidElfKind::Class };
    assert_eq!(e.describe(), "Invalid file: Elf class must be ELF32");
    assert_eq!(ConverterError::TooManyBlocks { value: 5 }.describe(), "Too many UF2 blocks: 5 exceeds u32::MAX");
    assert_eq!(
        ConverterError::OffsetTooLarge { value: 7 }.describe(),
        "Segment offset 7 does not fit in u32 address space"
    );
    assert_eq!(ConverterError::AddressOverflow.describe(), "Address computation overflow");
    let e = ConverterError::ElfParser(ParserError::Overflow { op: "addition", lhs: 1, rhs: 2 });
    assert_eq!(e.describe(), "arithmetic overflow during addition: 1 and 2");
    let e = ConverterError::Uf2Writer(uf2::Uf2Error::InvalidDataSize { found: 1, expected: 0 });
    assert_eq!(e.describe(), "invalid data size: got 1, must be <= 0");
    let e = ConverterError::IO(std::io::Error::new(std::io::ErrorKind::Other, "boom"));
    assert_eq!(e.describe(), "boom");
}
