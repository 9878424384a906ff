use vstd::prelude::*;

use crate::binary::{decode, BinaryError, Encoding};

mod error;
mod header;
mod ident;
mod program;

pub use error::{FieldErrorKind, InconsistentKind, ParserError};
pub use header::{
    elf32_fields, elf64_fields, file_type_of, header_check, header_field, lemma_header_fields, header_result, FileType, Header,
    ELF32_HEADER_SIZE, ELF32_PH_ENTRY_SIZE, ELF64_HEADER_SIZE, ELF64_PH_ENTRY_SIZE,
};
pub use program::{
    all_read_before, bounds_check, elf32_entry, elf64_entry, entry_at, entry_check, entry_result, entry_size, is_power_of_two,
    lemma_entry_check_ignores_paddr, lemma_entry_fields, lemma_load_entry_accepted, lemma_table_calls,
    lemma_table_entries_in_order, lemma_table_entries_unfold, load_check,
    next_step, table_output, read_error, segment_type_of, table_entries,
    ProgramHeader, ProgramHeaderTable, SegmentType,
};
pub use ident::{ident_result, Ident, ELF_MAGIC, IDENT_SIZE};

verus! {

/// The version number every valid ELF file carries.
pub const EV_CURRENT: u8 = 1;

/// Word size of an ELF file.
#[derive(Debug, Clone, Copy, PartialEq, Eq, Structural)]
pub enum Class {
    Elf32,
    Elf64,
}

impl Class {
    /// The name of this class.
    pub open spec fn text(&self) -> Seq<char> {
        match *self {
            Class::Elf32 => "ELF32"@,
            Class::Elf64 => "ELF64"@,
        }
    }

    /// Writes the name of this class.
    pub fn describe(&self) -> (r: String)
        ensures
            r@ == self.text(),
    {
        match self {
            Class::Elf32 => "ELF32".to_owned(),
            Class::Elf64 => "ELF64".to_owned(),
        }
    }
}

/// A parsed ELF file: its identification and header, over the borrowed file bytes.
pub struct Elf<'a> {
    pub bytes: &'a [u8],
    pub ident: Ident,
    pub header: Header,
}

/// What `Elf::parse` gives for the file bytes `b`: its identification and header fields.
pub open spec fn elf_result(b: Seq<u8>) -> Result<(Ident, Header), ParserError> {
    match ident_result(b) {
        Err(e) => Err(e),
        Ok(ident) => match header_result(b, ident) {
            Err(e) => Err(e),
            Ok(h) => Ok((ident, h)),
        },
    }
}

/// A file that parses has its whole program header table inside it, entries of the size its
/// class gives.
pub proof fn lemma_parsed_table_in_file(b: Seq<u8>)
    requires
        elf_result(b) is Ok,
    ensures
        ({
            let (ident, h) = elf_result(b)->Ok_0;
            &&& h.ph_entry_size == match ident.class {
                Class::Elf32 => ELF32_PH_ENTRY_SIZE,
                Class::Elf64 => ELF64_PH_ENTRY_SIZE,
            }
            &&& h.ph_offset + h.ph_count * h.ph_entry_size <= b.len()
        }),
{
}

/// What reading the program header table of the file `b`, whose identification and header are
/// `ident` and `h`, gives: all its entries, or the first error.
pub open spec fn program_headers_result(ident: Ident, h: Header, b: Seq<u8>) -> Result<
    Seq<ProgramHeader>,
    ParserError,
> {
    if h.ph_offset > b.len() {
        Err(
            ParserError::Binary(
                BinaryError::OutOfBounds { needed: 0, position: 0, buf_len: b.len() as usize },
            ),
        )
    } else {
        table_entries(ident.class, ident.encoding, b, h.ph_offset as int, h.ph_count as nat)
    }
}

/// The result `r` of reading some entries, after the entries `done` that were read before.
spec fn after_entries(done: Seq<ProgramHeader>, r: Result<Seq<ProgramHeader>, ParserError>) -> Result<
    Seq<ProgramHeader>,
    ParserError,
> {
    match r {
        Ok(rest) => Ok(done + rest),
        Err(e) => Err(e),
    }
}

impl<'a> Elf<'a> {
    /// Reads the identification block and the file header of `bytes`.
    pub fn parse(bytes: &'a [u8]) -> (r: Result<Self, ParserError>)
        ensures
            r matches Ok(e) ==> e.bytes@ == bytes@ && elf_result(bytes@) == Ok::<
                (Ident, Header),
                ParserError,
            >((e.ident, e.header)),
            r matches Err(e) ==> elf_result(bytes@) == Err::<(Ident, Header), ParserError>(e),
    {
        let ident = Ident::parse(bytes)?;
        let header = Header::parse(bytes, &ident)?;
        Ok(Self { bytes, ident, header })
    }

    /// Starts reading the program header table.
    pub fn program_headers(&'a self) -> (r: Result<ProgramHeaderTable<'a>, ParserError>)
        ensures
            self.header.ph_offset <= self.bytes@.len() ==> (r matches Ok(t) && t.wf() && t.class()
                == self.ident.class && t.encoding() == self.ident.encoding && t.data()
                == self.bytes@ && t.pos() == self.header.ph_offset && t.index() == 0 && t.count()
                == self.header.ph_count),
            self.header.ph_offset > self.bytes@.len() ==> r == Err::<ProgramHeaderTable<'a>, ParserError>(
                ParserError::Binary(
                    BinaryError::OutOfBounds {
                        needed: 0,
                        position: 0,
                        buf_len: self.bytes@.len() as usize,
                    },
                ),
            ),
    {
        ProgramHeaderTable::new(self)
    }

    /// The bytes of segment `ph`: `ph.file_size` bytes from `ph.offset` on.
    pub fn read_segment(&self, ph: &ProgramHeader) -> (r: Result<&[u8], ParserError>)
        requires
            ph.offset + ph.file_size <= usize::MAX ==> ph.offset + ph.file_size <= self.bytes@.len(),
        ensures
            ph.offset + ph.file_size <= usize::MAX ==> (r matches Ok(s) && s@ == self.bytes@.subrange(
                ph.offset as int,
                ph.offset + ph.file_size,
            )),
            ph.offset + ph.file_size > usize::MAX ==> r == Err::<&[u8], ParserError>(
                ParserError::Overflow { op: "addition", lhs: ph.offset, rhs: ph.file_size },
            ),
    {
        let end = match ph.offset.checked_add(ph.file_size) {
            Some(end) => end,
            None => {
                return Err(
                    ParserError::Overflow { op: "addition", lhs: ph.offset, rhs: ph.file_size },
                );
            },
        };
        Ok(vstd::slice::slice_subrange(self.bytes, ph.offset, end))
    }

    /// Reads all entries of the program header table, stopping at the first error.
    pub fn read_program_headers(&'a self) -> (r: Result<Vec<ProgramHeader>, ParserError>)
        ensures
            match program_headers_result(self.ident, self.header, self.bytes@) {
                Ok(phs) => r matches Ok(v) && v@ == phs,
                Err(e) => r == Err::<Vec<ProgramHeader>, ParserError>(e),
            },
    {
        let ghost b = self.bytes@;
        let ghost class = self.ident.class;
        let ghost enc = self.ident.encoding;
        let ghost total = program_headers_result(self.ident, self.header, b);
        let mut table = match self.program_headers() {
            Ok(t) => t,
            Err(e) => return Err(e),
        };
        let mut headers: Vec<ProgramHeader> = Vec::new();
        assert(after_entries(headers@, total) =~= total) by {
            if let Ok(s) = total {
                assert(headers@ + s =~= s);
            }
        };
        loop
            invariant
                table.wf(),
                table.class() == class,
                table.encoding() == enc,
                table.data() == b,
                b == self.bytes@,
                total == program_headers_result(self.ident, self.header, b),
                total == after_entries(
                    headers@,
                    table_entries(class, enc, b, table.pos() as int, (table.count() - table.index()) as nat),
                ),
            decreases table.count() - table.index(),
        {
            let ghost old_headers = headers@;
            let ghost pos = table.pos() as int;
            let ghost rem = (table.count() - table.index()) as nat;
            let next = table.next();
            match next {
                None => {
                    proof {
                        lemma_table_entries_unfold(class, enc, b, pos, rem);
                        assert(headers@ + Seq::<ProgramHeader>::empty() =~= headers@);
                    }
                    return Ok(headers);
                },
                Some(Ok(ph)) => {
                    proof {
                        lemma_table_entries_unfold(class, enc, b, pos, rem);
                    }
                    headers.push(ph);
                    proof {
                        let tail = table_entries(class, enc, b, pos + entry_size(class), (rem - 1) as nat);
                        assert(table.pos() == pos + entry_size(class));
                        if let Ok(rest) = tail {
                            assert(old_headers + (seq![ph] + rest) =~= headers@ + rest);
                        }
                    }
                },
                Some(Err(e)) => {
                    proof {
                        lemma_table_entries_unfold(class, enc, b, pos, rem);
                    }
                    return Err(e);
                },
            }
        }
    }
}

/// The 16-bit value at offset `off` of `b` in byte order `enc`.
pub open spec fn u16_at(enc: Encoding, b: Seq<u8>, off: int) -> u16 {
    decode(enc, b.subrange(off, off + 2)) as u16
}

/// The 32-bit value at offset `off` of `b` in byte order `enc`.
pub open spec fn u32_at(enc: Encoding, b: Seq<u8>, off: int) -> u32 {
    decode(enc, b.subrange(off, off + 4)) as u32
}

/// The 64-bit value at offset `off` of `b` in byte order `enc`.
pub open spec fn u64_at(enc: Encoding, b: Seq<u8>, off: int) -> u64 {
    decode(enc, b.subrange(off, off + 8)) as u64
}

/// What `to_usize` gives for `value`.
pub open spec fn to_usize_result(value: u64, field: &'static str) -> Result<usize, ParserError> {
    if value <= usize::MAX {
        Ok(value as usize)
    } else {
        Err(ParserError::IntegerConversion { field, value, target: "usize" })
    }
}

/// Converts a 64-bit file value to `usize`, naming `field` when it does not fit.
pub fn to_usize(value: u64, field: &'static str) -> (r: Result<usize, ParserError>)
    ensures
        r == to_usize_result(value, field),
{
    match usize::try_from(value) {
        Ok(v) => Ok(v),
        Err(_) => Err(ParserError::IntegerConversion { field, value, target: "usize" }),
    }
}

impl From<BinaryError> for ParserError {
    fn from(err: BinaryError) -> (r: Self) {
        ParserError::Binary(err)
    }
}

impl vstd::std_specs::convert::FromSpecImpl<BinaryError> for ParserError {
    open spec fn obeys_from_spec() -> bool {
        true
    }

    open spec fn from_spec(err: BinaryError) -> Self {
        ParserError::Binary(err)
    }
}

} // verus!
