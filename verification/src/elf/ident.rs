use vstd::prelude::*;

use super::error::{FieldErrorKind, ParserError};
use super::{Class, EV_CURRENT};
use crate::binary::{ByteReader, Encoding};

verus! {

/// Length of the identification block at the start of an ELF file.
pub const IDENT_SIZE: usize = 16;

/// The four bytes every ELF file starts with: `0x7F`, `E`, `L`, `F`.
pub const ELF_MAGIC: [u8; 4] = [0x7F, 0x45, 0x4C, 0x46];

/// Word size and byte order of an ELF file.
#[derive(Debug)]
pub struct Ident {
    pub class: Class,
    pub encoding: Encoding,
}

/// What `Ident::parse` gives for the file bytes `b`.
pub open spec fn ident_result(b: Seq<u8>) -> Result<Ident, ParserError> {
    if b.len() < IDENT_SIZE {
        Err(ParserError::InvalidSize { field: "ident", found: b.len() as usize, expected: IDENT_SIZE })
    } else if b.subrange(0, 4) != ELF_MAGIC@ {
        Err(ParserError::InvalidField { field: "magic number", kind: FieldErrorKind::InvalidValue })
    } else if b[4] != 1 && b[4] != 2 {
        Err(
            ParserError::InvalidField {
                field: "elf class",
                kind: FieldErrorKind::NotInSet("1 (32-bit) or 2 (64-bit)"),
            },
        )
    } else if b[5] != 1 && b[5] != 2 {
        Err(
            ParserError::InvalidField {
                field: "elf data encoding",
                kind: FieldErrorKind::NotInSet("1 (little endian) or 2 (big endian)"),
            },
        )
    } else if b[6] != EV_CURRENT {
        Err(
            ParserError::InvalidField {
                field: "version",
                kind: FieldErrorKind::NotEqual { expected: EV_CURRENT as u64, found: b[6] as u64 },
            },
        )
    } else {
        Ok(
            Ident {
                class: if b[4] == 1 {
                    Class::Elf32
                } else {
                    Class::Elf64
                },
                encoding: if b[5] == 1 {
                    Encoding::LittleEndian
                } else {
                    Encoding::BigEndian
                },
            },
        )
    }
}

impl Ident {
    /// Reads the identification block: magic number, class, byte order and version.
    pub fn parse(bytes: &[u8]) -> (r: Result<Ident, ParserError>)
        ensures
            r == ident_result(bytes@),
    {
        if bytes.len() < IDENT_SIZE {
            return Err(
                ParserError::InvalidSize { field: "ident", found: bytes.len(), expected: IDENT_SIZE },
            );
        }
        let mut reader = ByteReader::new(bytes);

        let magic = match reader.read_bytes(4) {
            Ok(m) => m,
            Err(e) => return Err(ParserError::Binary(e)),
        };
        if !(magic[0] == ELF_MAGIC[0] && magic[1] == ELF_MAGIC[1] && magic[2] == ELF_MAGIC[2]
            && magic[3] == ELF_MAGIC[3]) {
            proof {
                assert(bytes@.subrange(0, 4) != ELF_MAGIC@) by {
                    if bytes@.subrange(0, 4) == ELF_MAGIC@ {
                        assert(magic@ == ELF_MAGIC@);
                    }
                }
            }
            return Err(
                ParserError::InvalidField { field: "magic number", kind: FieldErrorKind::InvalidValue },
            );
        }
        assert(bytes@.subrange(0, 4) =~= ELF_MAGIC@);

        let class = match reader.read() {
            Ok(1) => Class::Elf32,
            Ok(2) => Class::Elf64,
            Ok(_) => {
                return Err(
                    ParserError::InvalidField {
                        field: "elf class",
                        kind: FieldErrorKind::NotInSet("1 (32-bit) or 2 (64-bit)"),
                    },
                );
            },
            Err(e) => return Err(ParserError::Binary(e)),
        };

        let encoding = match reader.read() {
            Ok(1) => Encoding::LittleEndian,
            Ok(2) => Encoding::BigEndian,
            Ok(_) => {
                return Err(
                    ParserError::InvalidField {
                        field: "elf data encoding",
                        kind: FieldErrorKind::NotInSet("1 (little endian) or 2 (big endian)"),
                    },
                );
            },
            Err(e) => return Err(ParserError::Binary(e)),
        };

        let version = match reader.read() {
            Ok(v) => v,
            Err(e) => return Err(ParserError::Binary(e)),
        };
        if version != EV_CURRENT {
            return Err(
                ParserError::InvalidField {
                    field: "version",
                    kind: FieldErrorKind::NotEqual {
                        expected: EV_CURRENT as u64,
                        found: version as u64,
                    },
                },
            );
        }

        if let Err(e) = reader.skip(9) {
            return Err(ParserError::Binary(e));
        }

        Ok(Ident { class, encoding })
    }
}

} // verus!
