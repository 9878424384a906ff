use vstd::prelude::*;

use super::error::{FieldErrorKind, InconsistentKind, ParserError};
use super::ident::IDENT_SIZE;
use super::{to_usize, to_usize_result, u16_at, u32_at, u64_at, Class, Ident};
use vstd::string::StringExecFns;

use crate::binary::{decode, lemma_decode_bound, pow256, Encoding, Reader};
use crate::text::{append_padded_hex, hex, zero_padded};

verus! {

/// Length of an ELF32 file header.
pub const ELF32_HEADER_SIZE: usize = 52;

/// Length of an ELF64 file header.
pub const ELF64_HEADER_SIZE: usize = 64;

/// Length of one ELF32 program header table entry.
pub const ELF32_PH_ENTRY_SIZE: usize = 0x20;

/// Length of one ELF64 program header table entry.
pub const ELF64_PH_ENTRY_SIZE: usize = 0x38;

/// Kind of an ELF file.
#[derive(Debug, Clone, Copy, PartialEq, Eq, Structural)]
pub enum FileType {
    NoneType,
    Rel,
    Exec,
    Dyn,
    Core,
    OsSpecific(u16),
    ProcSpecific(u16),
    Unknown(u16),
}

/// The file type that the raw `e_type` value `value` stands for.
pub open spec fn file_type_of(value: u16) -> FileType {
    if value == 0 {
        FileType::NoneType
    } else if value == 1 {
        FileType::Rel
    } else if value == 2 {
        FileType::Exec
    } else if value == 3 {
        FileType::Dyn
    } else if value == 4 {
        FileType::Core
    } else if 0xfe00 <= value <= 0xfeff {
        FileType::OsSpecific(value)
    } else if 0xff00 <= value {
        FileType::ProcSpecific(value)
    } else {
        FileType::Unknown(value)
    }
}

impl FileType {
    /// The name of this file type; the raw value of a type without a name follows in
    /// hexadecimal.
    pub open spec fn text(&self) -> Seq<char> {
        match *self {
            FileType::NoneType => "None"@,
            FileType::Rel => "Relocatable"@,
            FileType::Exec => "Executable"@,
            FileType::Dyn => "Shared Object"@,
            FileType::Core => "Core"@,
            FileType::OsSpecific(v) => "OS Specific (0x"@ + zero_padded(hex(v as nat), 4) + ")"@,
            FileType::ProcSpecific(v) => "Processor Specific (0x"@ + zero_padded(hex(v as nat), 4)
                + ")"@,
            FileType::Unknown(v) => "Unknown (0x"@ + zero_padded(hex(v as nat), 4) + ")"@,
        }
    }

    /// Writes the name of this file type.
    pub fn describe(&self) -> (r: String)
        ensures
            r@ == self.text(),
    {
        let mut s = String::new();
        match self {
            FileType::NoneType => s.append("None"),
            FileType::Rel => s.append("Relocatable"),
            FileType::Exec => s.append("Executable"),
            FileType::Dyn => s.append("Shared Object"),
            FileType::Core => s.append("Core"),
            FileType::OsSpecific(v) => {
                s.append("OS Specific (0x");
                append_padded_hex(&mut s, *v as u64, 4);
                s.append(")");
            },
            FileType::ProcSpecific(v) => {
                s.append("Processor Specific (0x");
                append_padded_hex(&mut s, *v as u64, 4);
                s.append(")");
            },
            FileType::Unknown(v) => {
                s.append("Unknown (0x");
                append_padded_hex(&mut s, *v as u64, 4);
                s.append(")");
            },
        }
        assert(s@ =~= self.text());
        s
    }
}

impl TryFrom<u16> for FileType {
    type Error = ParserError;

    fn try_from(value: u16) -> (r: Result<Self, Self::Error>) {
        Ok(
            match value {
                0x00 => Self::NoneType,
                0x01 => Self::Rel,
                0x02 => Self::Exec,
                0x03 => Self::Dyn,
                0x04 => Self::Core,
                0xfe00..=0xfeff => Self::OsSpecific(value),
                0xff00..=0xffff => Self::ProcSpecific(value),
                _ => Self::Unknown(value),
            },
        )
    }
}

impl vstd::std_specs::convert::TryFromSpecImpl<u16> for FileType {
    open spec fn obeys_try_from_spec() -> bool {
        true
    }

    open spec fn try_from_spec(v: u16) -> Result<Self, Self::Error> {
        Ok(file_type_of(v))
    }
}

/// The fields of an ELF file header that the conversion reads.
#[derive(Debug)]
pub struct Header {
    pub file_type: FileType,
    pub machine_type: u16,
    pub entry: u64,
    pub ph_offset: usize,
    pub ph_count: u16,
    pub header_size: usize,
    pub ph_entry_size: usize,
}

/// The raw header fields of the ELF32 file `b` in byte order `ident.encoding`.
pub open spec fn elf32_fields(b: Seq<u8>, ident: Ident) -> Result<Header, ParserError> {
    let enc = ident.encoding;
    if b.len() < ELF32_HEADER_SIZE {
        Err(
            ParserError::InvalidSize {
                field: "header",
                found: b.len() as usize,
                expected: ELF32_HEADER_SIZE,
            },
        )
    } else {
        match to_usize_result(u32_at(enc, b, 28) as u64, "program header offset") {
            Err(e) => Err(e),
            Ok(ph_offset) => Ok(
                Header {
                    file_type: file_type_of(u16_at(enc, b, 16)),
                    machine_type: u16_at(enc, b, 18),
                    entry: u32_at(enc, b, 24) as u64,
                    ph_offset,
                    ph_count: u16_at(enc, b, 44),
                    header_size: u16_at(enc, b, 40) as usize,
                    ph_entry_size: u16_at(enc, b, 42) as usize,
                },
            ),
        }
    }
}

/// The raw header fields of the ELF64 file `b` in byte order `ident.encoding`.
pub open spec fn elf64_fields(b: Seq<u8>, ident: Ident) -> Result<Header, ParserError> {
    let enc = ident.encoding;
    if b.len() < ELF64_HEADER_SIZE {
        Err(
            ParserError::InvalidSize {
                field: "header",
                found: b.len() as usize,
                expected: ELF64_HEADER_SIZE,
            },
        )
    } else {
        match to_usize_result(u64_at(enc, b, 32), "program header offset") {
            Err(e) => Err(e),
            Ok(ph_offset) => Ok(
                Header {
                    file_type: file_type_of(u16_at(enc, b, 16)),
                    machine_type: u16_at(enc, b, 18),
                    entry: u64_at(enc, b, 24),
                    ph_offset,
                    ph_count: u16_at(enc, b, 56),
                    header_size: u16_at(enc, b, 52) as usize,
                    ph_entry_size: u16_at(enc, b, 54) as usize,
                },
            ),
        }
    }
}

/// Whether the header fields `h` agree with each other and with a file of `file_size` bytes.
pub open spec fn header_check(
    h: Header,
    expected_header_size: usize,
    expected_ph_entry_size: usize,
    file_size: usize,
) -> Result<(), ParserError> {
    let table_size = h.ph_count * h.ph_entry_size;
    if h.header_size != expected_header_size {
        Err(
            ParserError::InvalidField {
                field: "header size",
                kind: FieldErrorKind::NotEqual {
                    expected: expected_header_size as u64,
                    found: h.header_size as u64,
                },
            },
        )
    } else if h.ph_entry_size != expected_ph_entry_size {
        Err(
            ParserError::InvalidField {
                field: "program header entry size",
                kind: FieldErrorKind::NotEqual {
                    expected: expected_ph_entry_size as u64,
                    found: h.ph_entry_size as u64,
                },
            },
        )
    } else if h.ph_offset == 0 && h.ph_count != 0 {
        Err(
            ParserError::Inconsistent {
                fields: ["ph_offset", "ph_count"],
                kind: InconsistentKind::OffsetWithoutCount { count: h.ph_count as u64 },
            },
        )
    } else if table_size > usize::MAX {
        Err(
            ParserError::Overflow {
                op: "multiplication",
                lhs: h.ph_count as usize,
                rhs: h.ph_entry_size,
            },
        )
    } else if h.ph_offset + table_size > usize::MAX {
        Err(
            ParserError::Overflow {
                op: "addition",
                lhs: h.ph_offset,
                rhs: table_size as usize,
            },
        )
    } else if h.ph_offset + table_size > file_size {
        Err(
            ParserError::OutOfBounds {
                what: "program header table",
                start: h.ph_offset,
                end: (h.ph_offset + table_size) as usize,
                size: file_size,
            },
        )
    } else {
        Ok(())
    }
}

/// What `Header::parse` gives for the file bytes `b` with identification `ident`.
pub open spec fn header_result(b: Seq<u8>, ident: Ident) -> Result<Header, ParserError> {
    let (fields, expected_header_size, expected_ph_entry_size) = match ident.class {
        Class::Elf32 => (elf32_fields(b, ident), ELF32_HEADER_SIZE, ELF32_PH_ENTRY_SIZE),
        Class::Elf64 => (elf64_fields(b, ident), ELF64_HEADER_SIZE, ELF64_PH_ENTRY_SIZE),
    };
    match fields {
        Err(e) => Err(e),
        Ok(h) => match header_check(
            h,
            expected_header_size,
            expected_ph_entry_size,
            b.len() as usize,
        ) {
            Err(e) => Err(e),
            Ok(_) => Ok(h),
        },
    }
}

/// The value of the `n` bytes at offset `off` of `b` in byte order `enc`.
pub open spec fn header_field(enc: Encoding, b: Seq<u8>, off: int, n: int) -> nat {
    decode(enc, b.subrange(off, off + n))
}

proof fn lemma_field_bound(enc: Encoding, b: Seq<u8>, off: int, n: int)
    requires
        0 <= off,
        0 <= n,
        off + n <= b.len(),
    ensures
        header_field(enc, b, off, n) < pow256(n as nat),
{
    lemma_decode_bound(enc, b.subrange(off, off + n));
}

/// The file header is read in the byte order that the identification names, each field at its
/// fixed offset (ELF32: type 16, machine 18, entry 24, table offset 28, header size 40, entry
/// size 42, entry count 44; ELF64: type 16, machine 18, entry 24, table offset 32, header size
/// 52, entry size 54, entry count 56), and a header is accepted only with the header and entry
/// sizes of its class.
pub proof fn lemma_header_fields(b: Seq<u8>, ident: Ident)
    requires
        header_result(b, ident) is Ok,
    ensures
        ({
            let h = header_result(b, ident)->Ok_0;
            let enc = ident.encoding;
            &&& h.file_type == file_type_of(header_field(enc, b, 16, 2) as u16)
            &&& (h.file_type == FileType::Exec <==> header_field(enc, b, 16, 2) == 2)
            &&& h.machine_type == header_field(enc, b, 18, 2)
            &&& ident.class == Class::Elf32 ==> {
                &&& b.len() >= 52
                &&& h.entry == header_field(enc, b, 24, 4)
                &&& h.ph_offset == header_field(enc, b, 28, 4)
                &&& h.header_size == header_field(enc, b, 40, 2) == 52
                &&& h.ph_entry_size == header_field(enc, b, 42, 2) == 32
                &&& h.ph_count == header_field(enc, b, 44, 2)
            }
            &&& ident.class == Class::Elf64 ==> {
                &&& b.len() >= 64
                &&& h.entry == header_field(enc, b, 24, 8)
                &&& h.ph_offset == header_field(enc, b, 32, 8)
                &&& h.header_size == header_field(enc, b, 52, 2) == 64
                &&& h.ph_entry_size == header_field(enc, b, 54, 2) == 56
                &&& h.ph_count == header_field(enc, b, 56, 2)
            }
        }),
{
    reveal_with_fuel(pow256, 9);
    let enc = ident.encoding;
    let min = if ident.class == Class::Elf32 { 52int } else { 64int };
    assert(b.len() >= min);
    lemma_field_bound(enc, b, 16, 2);
    lemma_field_bound(enc, b, 18, 2);
    if ident.class == Class::Elf32 {
        lemma_field_bound(enc, b, 24, 4);
        lemma_field_bound(enc, b, 28, 4);
        lemma_field_bound(enc, b, 40, 2);
        lemma_field_bound(enc, b, 42, 2);
        lemma_field_bound(enc, b, 44, 2);
    } else {
        lemma_field_bound(enc, b, 24, 8);
        lemma_field_bound(enc, b, 32, 8);
        lemma_field_bound(enc, b, 52, 2);
        lemma_field_bound(enc, b, 54, 2);
        lemma_field_bound(enc, b, 56, 2);
    }
}

impl Header {
    fn parse_elf32(bytes: &[u8], ident: &Ident) -> (r: Result<Self, ParserError>)
        ensures
            r matches Ok(h) ==> elf32_fields(bytes@, *ident) == Ok::<Header, ParserError>(h),
            r matches Err(e) ==> elf32_fields(bytes@, *ident) == Err::<Header, ParserError>(e),
    {
        if bytes.len() < ELF32_HEADER_SIZE {
            return Err(
                ParserError::InvalidSize {
                    field: "header",
                    found: bytes.len(),
                    expected: ELF32_HEADER_SIZE,
                },
            );
        }

        let mut reader = Reader::new(bytes, ident.encoding);

        reader.skip(IDENT_SIZE)?;

        let file_type = FileType::try_from(reader.read_u16()?)?;
        let machine_type = reader.read_u16()?;

        reader.skip(4)?;

        let entry = reader.read_u32()? as u64;
        let ph_offset_raw = reader.read_u32()? as u64;

        let ph_offset = to_usize(ph_offset_raw, "program header offset")?;

        reader.skip(4 + 4)?;

        let header_size = reader.read_u16()? as usize;
        let ph_entry_size = reader.read_u16()? as usize;
        let ph_count = reader.read_u16()?;

        Ok(Self { file_type, machine_type, entry, ph_offset, ph_count, header_size, ph_entry_size })
    }

    fn parse_elf64(bytes: &[u8], ident: &Ident) -> (r: Result<Self, ParserError>)
        ensures
            r matches Ok(h) ==> elf64_fields(bytes@, *ident) == Ok::<Header, ParserError>(h),
            r matches Err(e) ==> elf64_fields(bytes@, *ident) == Err::<Header, ParserError>(e),
    {
        if bytes.len() < ELF64_HEADER_SIZE {
            return Err(
                ParserError::InvalidSize {
                    field: "header",
                    found: bytes.len(),
                    expected: ELF64_HEADER_SIZE,
                },
            );
        }

        let mut reader = Reader::new(bytes, ident.encoding);

        reader.skip(IDENT_SIZE)?;

        let file_type = FileType::try_from(reader.read_u16()?)?;
        let machine_type = reader.read_u16()?;

        reader.skip(4)?;

        let entry = reader.read_u64()?;
        let ph_offset_raw = reader.read_u64()?;
        let ph_offset = to_usize(ph_offset_raw, "program header offset")?;

        reader.skip(8 + 4)?;

        let header_size = reader.read_u16()? as usize;
        let ph_entry_size = reader.read_u16()? as usize;
        let ph_count = reader.read_u16()?;

        Ok(Self { file_type, machine_type, entry, ph_offset, ph_count, header_size, ph_entry_size })
    }

    fn validate(
        &self,
        expected_header_size: usize,
        expected_ph_entry_size: usize,
        file_size: usize,
    ) -> (r: Result<(), ParserError>)
        ensures
            r == header_check(*self, expected_header_size, expected_ph_entry_size, file_size),
    {
        if self.header_size != expected_header_size {
            return Err(
                ParserError::InvalidField {
                    field: "header size",
                    kind: FieldErrorKind::NotEqual {
                        expected: expected_header_size as u64,
                        found: self.header_size as u64,
                    },
                },
            );
        }

        if self.ph_entry_size != expected_ph_entry_size {
            return Err(
                ParserError::InvalidField {
                    field: "program header entry size",
                    kind: FieldErrorKind::NotEqual {
                        expected: expected_ph_entry_size as u64,
                        found: self.ph_entry_size as u64,
                    },
                },
            );
        }

        if self.ph_offset == 0 && self.ph_count != 0 {
            return Err(
                ParserError::Inconsistent {
                    fields: ["ph_offset", "ph_count"],
                    kind: InconsistentKind::OffsetWithoutCount { count: self.ph_count as u64 },
                },
            );
        }

        let ph_count = self.ph_count as usize;
        let ph_table_size = match ph_count.checked_mul(self.ph_entry_size) {
            Some(v) => v,
            None => {
                return Err(
                    ParserError::Overflow {
                        op: "multiplication",
                        lhs: ph_count,
                        rhs: self.ph_entry_size,
                    },
                );
            },
        };

        let ph_table_end = match self.ph_offset.checked_add(ph_table_size) {
            Some(v) => v,
            None => {
                return Err(
                    ParserError::Overflow {
                        op: "addition",
                        lhs: self.ph_offset,
                        rhs: ph_table_size,
                    },
                );
            },
        };

        if ph_table_end > file_size {
            return Err(
                ParserError::OutOfBounds {
                    what: "program header table",
                    start: self.ph_offset,
                    end: ph_table_end,
                    size: file_size,
                },
            );
        }

        Ok(())
    }

    /// Reads and checks the file header of the ELF file `bytes`, whose identification is `ident`.
    pub fn parse(bytes: &[u8], ident: &Ident) -> (r: Result<Self, ParserError>)
        ensures
            r matches Ok(h) ==> header_result(bytes@, *ident) == Ok::<Header, ParserError>(h),
            r matches Err(e) ==> header_result(bytes@, *ident) == Err::<Header, ParserError>(e),
    {
        let (header, expected_header_size, expected_ph_entry_size) = match ident.class {
            Class::Elf32 => (Self::parse_elf32(bytes, ident)?, ELF32_HEADER_SIZE, ELF32_PH_ENTRY_SIZE),
            Class::Elf64 => (Self::parse_elf64(bytes, ident)?, ELF64_HEADER_SIZE, ELF64_PH_ENTRY_SIZE),
        };

        header.validate(expected_header_size, expected_ph_entry_size, bytes.len())?;

        Ok(header)
    }
}

} // verus!
