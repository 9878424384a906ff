use vstd::prelude::*;

use super::error::{FieldErrorKind, InconsistentKind, ParserError};
use super::{header_field, to_usize, to_usize_result, u32_at, u64_at, Class, Elf};
use vstd::string::StringExecFns;

use crate::binary::{advance_error, lemma_decode_bound, pow256, Encoding, Reader};
use crate::text::{append_padded_hex, hex, zero_padded};

verus! {

/// Kind of a program segment.
#[derive(Debug, Clone, Copy, PartialEq, Eq, Structural)]
pub enum SegmentType {
    Null,
    Load,
    Dynamic,
    Interp,
    Note,
    ShLib,
    Phdr,
    Tls,
    OsSpecific(u32),
    ProcSpecific(u32),
    Unknown(u32),
}

/// The segment type that the raw `p_type` value `value` stands for.
pub open spec fn segment_type_of(value: u32) -> SegmentType {
    if value == 0 {
        SegmentType::Null
    } else if value == 1 {
        SegmentType::Load
    } else if value == 2 {
        SegmentType::Dynamic
    } else if value == 3 {
        SegmentType::Interp
    } else if value == 4 {
        SegmentType::Note
    } else if value == 5 {
        SegmentType::ShLib
    } else if value == 6 {
        SegmentType::Phdr
    } else if value == 7 {
        SegmentType::Tls
    } else if 0x60000000 <= value <= 0x6FFFFFFF {
        SegmentType::OsSpecific(value)
    } else if 0x70000000 <= value <= 0x7FFFFFFF {
        SegmentType::ProcSpecific(value)
    } else {
        SegmentType::Unknown(value)
    }
}

impl From<u32> for SegmentType {
    fn from(value: u32) -> (r: Self) {
        match value {
            0 => Self::Null,
            1 => Self::Load,
            2 => Self::Dynamic,
            3 => Self::Interp,
            4 => Self::Note,
            5 => Self::ShLib,
            6 => Self::Phdr,
            7 => Self::Tls,
            0x60000000..=0x6FFFFFFF => Self::OsSpecific(value),
            0x70000000..=0x7FFFFFFF => Self::ProcSpecific(value),
            _ => Self::Unknown(value),
        }
    }
}

impl vstd::std_specs::convert::FromSpecImpl<u32> for SegmentType {
    open spec fn obeys_from_spec() -> bool {
        true
    }

    open spec fn from_spec(v: u32) -> Self {
        segment_type_of(v)
    }
}

impl SegmentType {
    /// The name of this segment type.
    pub open spec fn name(&self) -> Seq<char> {
        match *self {
            SegmentType::Null => "Null"@,
            SegmentType::Load => "Loadable"@,
            SegmentType::Dynamic => "Dynamic"@,
            SegmentType::Interp => "Interpreter"@,
            SegmentType::Note => "Note"@,
            SegmentType::ShLib => "Reserved"@,
            SegmentType::Phdr => "Program Header"@,
            SegmentType::Tls => "TLS"@,
            SegmentType::OsSpecific(_) => "OS Specific"@,
            SegmentType::ProcSpecific(_) => "Processor Specific"@,
            SegmentType::Unknown(_) => "Unknown"@,
        }
    }

    /// The raw `p_type` value of this segment type.
    pub open spec fn raw(&self) -> u32 {
        match *self {
            SegmentType::Null => 0,
            SegmentType::Load => 1,
            SegmentType::Dynamic => 2,
            SegmentType::Interp => 3,
            SegmentType::Note => 4,
            SegmentType::ShLib => 5,
            SegmentType::Phdr => 6,
            SegmentType::Tls => 7,
            SegmentType::OsSpecific(v) => v,
            SegmentType::ProcSpecific(v) => v,
            SegmentType::Unknown(v) => v,
        }
    }

    /// The name of this segment type followed by its raw value in eight hexadecimal digits.
    pub open spec fn text(&self) -> Seq<char> {
        self.name() + " (0x"@ + zero_padded(hex(self.raw() as nat), 8) + ")"@
    }

    /// Writes the name and raw value of this segment type.
    pub fn describe(&self) -> (r: String)
        ensures
            r@ == self.text(),
    {
        let (name, value) = match self {
            SegmentType::Null => ("Null", 0u32),
            SegmentType::Load => ("Loadable", 1u32),
            SegmentType::Dynamic => ("Dynamic", 2u32),
            SegmentType::Interp => ("Interpreter", 3u32),
            SegmentType::Note => ("Note", 4u32),
            SegmentType::ShLib => ("Reserved", 5u32),
            SegmentType::Phdr => ("Program Header", 6u32),
            SegmentType::Tls => ("TLS", 7u32),
            SegmentType::OsSpecific(v) => ("OS Specific", *v),
            SegmentType::ProcSpecific(v) => ("Processor Specific", *v),
            SegmentType::Unknown(v) => ("Unknown", *v),
        };
        let mut s = String::new();
        s.append(name);
        s.append(" (0x");
        append_padded_hex(&mut s, value as u64, 8);
        s.append(")");
        assert(s@ =~= self.text());
        s
    }
}

/// One entry of the program header table.
pub struct ProgramHeader {
    pub segment_type: SegmentType,
    pub offset: usize,
    pub vaddr: u64,
    pub paddr: u64,
    pub file_size: usize,
    pub mem_size: u64,
    pub align: u64,
}

/// Whether `n` is a power of two.
pub open spec fn is_power_of_two(n: nat) -> bool
    decreases n,
{
    if n <= 1 {
        n == 1
    } else {
        n % 2 == 0 && is_power_of_two(n / 2)
    }
}

fn power_of_two(x: u64) -> (r: bool)
    ensures
        r == is_power_of_two(x as nat),
{
    if x == 0 {
        return false;
    }
    let mut v = x;
    while v > 1 && v % 2 == 0
        invariant
            v > 0,
            is_power_of_two(v as nat) == is_power_of_two(x as nat),
        decreases v,
    {
        v = v / 2;
    }
    v == 1
}

/// The error that a failed read of `n` bytes at `pos` in a file of `len` bytes gives.
pub open spec fn read_error<T>(pos: int, n: usize, len: nat) -> Result<T, ParserError> {
    Err(ParserError::Binary(advance_error(pos as usize, n, len as usize)))
}

/// What reading an ELF32 program header at offset `p` of the file `b` gives.
pub open spec fn elf32_entry(enc: Encoding, b: Seq<u8>, p: usize) -> Result<
    ProgramHeader,
    ParserError,
> {
    let len = b.len();
    if p + 4 > len {
        read_error(p as int, 4, len)
    } else if p + 8 > len {
        read_error(p + 4, 4, len)
    } else {
        match to_usize_result(u32_at(enc, b, p + 4) as u64, "segment offset") {
            Err(e) => Err(e),
            Ok(offset) => if p + 12 > len {
                read_error(p + 8, 4, len)
            } else if p + 16 > len {
                read_error(p + 12, 4, len)
            } else if p + 20 > len {
                read_error(p + 16, 4, len)
            } else {
                match to_usize_result(u32_at(enc, b, p + 16) as u64, "file size") {
                    Err(e) => Err(e),
                    Ok(file_size) => if p + 24 > len {
                        read_error(p + 20, 4, len)
                    } else if p + 28 > len {
                        read_error(p + 24, 4, len)
                    } else if p + 32 > len {
                        read_error(p + 28, 4, len)
                    } else {
                        Ok(
                            ProgramHeader {
                                segment_type: segment_type_of(u32_at(enc, b, p as int)),
                                offset,
                                vaddr: u32_at(enc, b, p + 8) as u64,
                                paddr: u32_at(enc, b, p + 12) as u64,
                                file_size,
                                mem_size: u32_at(enc, b, p + 20) as u64,
                                align: u32_at(enc, b, p + 28) as u64,
                            },
                        )
                    },
                }
            },
        }
    }
}

/// What reading an ELF64 program header at offset `p` of the file `b` gives.
pub open spec fn elf64_entry(enc: Encoding, b: Seq<u8>, p: usize) -> Result<
    ProgramHeader,
    ParserError,
> {
    let len = b.len();
    if p + 4 > len {
        read_error(p as int, 4, len)
    } else if p + 8 > len {
        read_error(p + 4, 4, len)
    } else if p + 16 > len {
        read_error(p + 8, 8, len)
    } else {
        match to_usize_result(u64_at(enc, b, p + 8), "segment offset") {
            Err(e) => Err(e),
            Ok(offset) => if p + 24 > len {
                read_error(p + 16, 8, len)
            } else if p + 32 > len {
                read_error(p + 24, 8, len)
            } else if p + 40 > len {
                read_error(p + 32, 8, len)
            } else {
                match to_usize_result(u64_at(enc, b, p + 32), "file size") {
                    Err(e) => Err(e),
                    Ok(file_size) => if p + 48 > len {
                        read_error(p + 40, 8, len)
                    } else if p + 56 > len {
                        read_error(p + 48, 8, len)
                    } else {
                        Ok(
                            ProgramHeader {
                                segment_type: segment_type_of(u32_at(enc, b, p as int)),
                                offset,
                                vaddr: u64_at(enc, b, p + 16),
                                paddr: u64_at(enc, b, p + 24),
                                file_size,
                                mem_size: u64_at(enc, b, p + 40),
                                align: u64_at(enc, b, p + 48),
                            },
                        )
                    },
                }
            },
        }
    }
}

/// Whether the bytes of segment `ph` lie inside a file of `file_size` bytes.
pub open spec fn bounds_check(ph: ProgramHeader, file_size: usize) -> Result<(), ParserError> {
    if ph.offset + ph.file_size > usize::MAX {
        Err(ParserError::Overflow { op: "addition", lhs: ph.offset, rhs: ph.file_size })
    } else if ph.offset + ph.file_size > file_size {
        Err(
            ParserError::OutOfBounds {
                what: "Segment",
                start: ph.offset,
                end: (ph.offset + ph.file_size) as usize,
                size: file_size,
            },
        )
    } else {
        Ok(())
    }
}

/// The checks a loadable segment `ph` of a file of `file_size` bytes must pass.
pub open spec fn load_check(ph: ProgramHeader, file_size: usize) -> Result<(), ParserError> {
    if ph.mem_size < ph.file_size {
        Err(
            ParserError::Inconsistent {
                fields: ["memory size", "file size"],
                kind: InconsistentKind::SizeMismatch {
                    smaller: ph.mem_size,
                    larger: ph.file_size as u64,
                },
            },
        )
    } else {
        match bounds_check(ph, file_size) {
            Err(e) => Err(e),
            Ok(_) => if ph.align <= 1 {
                Ok(())
            } else if !is_power_of_two(ph.align as nat) {
                Err(
                    ParserError::InvalidField {
                        field: "align",
                        kind: FieldErrorKind::NotPowerOfTwo { value: ph.align },
                    },
                )
            } else if (ph.offset as u64) % ph.align != ph.vaddr % ph.align {
                Err(
                    ParserError::Inconsistent {
                        fields: ["offset", "virtual address"],
                        kind: InconsistentKind::Misaligned {
                            align: ph.align,
                            a: ph.offset as u64,
                            b: ph.vaddr,
                        },
                    },
                )
            } else {
                Ok(())
            },
        }
    }
}

/// The checks segment `ph` of a file of `file_size` bytes must pass, by its type.
pub open spec fn entry_check(ph: ProgramHeader, file_size: usize) -> Result<(), ParserError> {
    match ph.segment_type {
        SegmentType::Null => Ok(()),
        SegmentType::Load => load_check(ph, file_size),
        _ => bounds_check(ph, file_size),
    }
}

proof fn lemma_entry_field_bound(enc: Encoding, b: Seq<u8>, off: int, n: int)
    requires
        0 <= off,
        0 <= n,
        off + n <= b.len(),
    ensures
        header_field(enc, b, off, n) < pow256(n as nat),
{
    lemma_decode_bound(enc, b.subrange(off, off + n));
}

/// A program header entry is read in the file's byte order at the fixed offsets of its class
/// (ELF32: type 0, offset 4, virtual address 8, physical address 12, file size 16, memory size
/// 20, alignment 28; ELF64: type 0, offset 8, virtual address 16, physical address 24, file size
/// 32, memory size 40, alignment 48), relative to where the entry starts.
pub proof fn lemma_entry_fields(class: Class, enc: Encoding, b: Seq<u8>, p: usize)
    requires
        entry_result(class, enc, b, p) is Ok,
    ensures
        ({
            let ph = entry_result(class, enc, b, p)->Ok_0;
            &&& ph.segment_type == segment_type_of(header_field(enc, b, p as int, 4) as u32)
            &&& (ph.segment_type == SegmentType::Load <==> header_field(enc, b, p as int, 4) == 1)
            &&& class == Class::Elf32 ==> {
                &&& p + 32 <= b.len()
                &&& ph.offset == header_field(enc, b, p + 4, 4)
                &&& ph.vaddr == header_field(enc, b, p + 8, 4)
                &&& ph.paddr == header_field(enc, b, p + 12, 4)
                &&& ph.file_size == header_field(enc, b, p + 16, 4)
                &&& ph.mem_size == header_field(enc, b, p + 20, 4)
                &&& ph.align == header_field(enc, b, p + 28, 4)
            }
            &&& class == Class::Elf64 ==> {
                &&& p + 56 <= b.len()
                &&& ph.offset == header_field(enc, b, p + 8, 8)
                &&& ph.vaddr == header_field(enc, b, p + 16, 8)
                &&& ph.paddr == header_field(enc, b, p + 24, 8)
                &&& ph.file_size == header_field(enc, b, p + 32, 8)
                &&& ph.mem_size == header_field(enc, b, p + 40, 8)
                &&& ph.align == header_field(enc, b, p + 48, 8)
            }
        }),
{
    reveal_with_fuel(pow256, 9);
    lemma_entry_field_bound(enc, b, p as int, 4);
    if class == Class::Elf32 {
        lemma_entry_field_bound(enc, b, p + 4, 4);
        lemma_entry_field_bound(enc, b, p + 8, 4);
        lemma_entry_field_bound(enc, b, p + 12, 4);
        lemma_entry_field_bound(enc, b, p + 16, 4);
        lemma_entry_field_bound(enc, b, p + 20, 4);
        lemma_entry_field_bound(enc, b, p + 28, 4);
    } else {
        lemma_entry_field_bound(enc, b, p + 8, 8);
        lemma_entry_field_bound(enc, b, p + 16, 8);
        lemma_entry_field_bound(enc, b, p + 24, 8);
        lemma_entry_field_bound(enc, b, p + 32, 8);
        lemma_entry_field_bound(enc, b, p + 40, 8);
        lemma_entry_field_bound(enc, b, p + 48, 8);
    }
}

/// A loadable entry of a file of `file_size` bytes is accepted exactly when its memory size is at
/// least its file size, its bytes lie inside the file, and its alignment is 0 or 1, or a power of
/// two by which its offset and virtual address agree.
pub proof fn lemma_load_entry_accepted(ph: ProgramHeader, file_size: usize)
    requires
        ph.segment_type == SegmentType::Load,
    ensures
        entry_check(ph, file_size) is Ok <==> {
            &&& ph.mem_size >= ph.file_size
            &&& ph.offset + ph.file_size <= file_size
            &&& ph.align <= 1 || (is_power_of_two(ph.align as nat) && (ph.offset as u64) % ph.align
                == ph.vaddr % ph.align)
        },
{
}

/// Whether an entry is accepted, and the error when it is not, depend on its type, offset,
/// virtual address, file size, memory size and alignment only: never on its physical address.
pub proof fn lemma_entry_check_ignores_paddr(ph1: ProgramHeader, ph2: ProgramHeader, file_size: usize)
    requires
        ph1.segment_type == ph2.segment_type,
        ph1.offset == ph2.offset,
        ph1.vaddr == ph2.vaddr,
        ph1.file_size == ph2.file_size,
        ph1.mem_size == ph2.mem_size,
        ph1.align == ph2.align,
    ensures
        entry_check(ph1, file_size) == entry_check(ph2, file_size),
{
}

/// What reading and checking the program header at offset `p` of the file `b` gives.
pub open spec fn entry_result(class: Class, enc: Encoding, b: Seq<u8>, p: usize) -> Result<
    ProgramHeader,
    ParserError,
> {
    let read = match class {
        Class::Elf32 => elf32_entry(enc, b, p),
        Class::Elf64 => elf64_entry(enc, b, p),
    };
    match read {
        Err(e) => Err(e),
        Ok(ph) => match entry_check(ph, b.len() as usize) {
            Err(e) => Err(e),
            Ok(_) => Ok(ph),
        },
    }
}

/// Length of one program header table entry of class `class`.
pub open spec fn entry_size(class: Class) -> nat {
    match class {
        Class::Elf32 => 0x20,
        Class::Elf64 => 0x38,
    }
}

/// What reading `n` entries of class `class` one after the other from offset `pos` of the file
/// `b` gives: all of them, or the first error.
#[verifier::opaque]
pub open spec fn table_entries(class: Class, enc: Encoding, b: Seq<u8>, pos: int, n: nat) -> Result<
    Seq<ProgramHeader>,
    ParserError,
>
    decreases n,
{
    if n == 0 {
        Ok(Seq::empty())
    } else {
        match entry_result(class, enc, b, pos as usize) {
            Err(e) => Err(e),
            Ok(ph) => match table_entries(class, enc, b, pos + entry_size(class), (n - 1) as nat) {
                Err(e) => Err(e),
                Ok(rest) => Ok(seq![ph] + rest),
            },
        }
    }
}

/// Reading no entries gives none; reading `n > 0` entries reads the first one at `pos` and the
/// others from the end of it on.
pub proof fn lemma_table_entries_unfold(class: Class, enc: Encoding, b: Seq<u8>, pos: int, n: nat)
    ensures
        table_entries(class, enc, b, pos, n) == (if n == 0 {
            Ok(Seq::empty())
        } else {
            match entry_result(class, enc, b, pos as usize) {
                Err(e) => Err(e),
                Ok(ph) => match table_entries(class, enc, b, pos + entry_size(class), (n - 1) as nat) {
                    Err(e) => Err(e),
                    Ok(rest) => Ok(seq![ph] + rest),
                },
            }
        }),
{
    reveal_with_fuel(table_entries, 1);
}

/// What reading entry number `k` of a table of class `class` that starts at offset `pos` of the
/// file `b` gives.
pub open spec fn entry_at(class: Class, enc: Encoding, b: Seq<u8>, pos: int, k: int) -> Result<
    ProgramHeader,
    ParserError,
> {
    entry_result(class, enc, b, (pos + k * entry_size(class)) as usize)
}

/// Reading `n` entries that all read gives exactly `n` entries, entry `k` read at `k` entry
/// sizes past `pos`; otherwise it gives the error of the first entry that fails.
pub proof fn lemma_table_entries_in_order(class: Class, enc: Encoding, b: Seq<u8>, pos: int, n: nat)
    ensures
        table_entries(class, enc, b, pos, n) matches Ok(s) ==> s.len() == n && forall|k: int|
            0 <= k < n ==> entry_at(class, enc, b, pos, k) == Ok::<ProgramHeader, ParserError>(
                #[trigger] s[k],
            ),
        table_entries(class, enc, b, pos, n) matches Err(e) ==> exists|k: int|
            0 <= k < n && #[trigger] entry_at(class, enc, b, pos, k) == Err::<
                ProgramHeader,
                ParserError,
            >(e) && forall|j: int| 0 <= j < k ==> (#[trigger] entry_at(class, enc, b, pos, j)) is Ok,
    decreases n,
{
    lemma_table_entries_unfold(class, enc, b, pos, n);
    if n > 0 {
        let size = entry_size(class);
        let next = pos + size;
        lemma_table_entries_in_order(class, enc, b, next, (n - 1) as nat);
        assert forall|k: int| #[trigger] entry_at(class, enc, b, next, k) == entry_at(
            class,
            enc,
            b,
            pos,
            k + 1,
        ) by {
            assert(next + k * size == pos + (k + 1) * size) by (nonlinear_arith)
                requires
                    next == pos + size,
            ;
        }
        assert(entry_at(class, enc, b, pos, 0) == entry_result(class, enc, b, pos as usize));
        match table_entries(class, enc, b, pos, n) {
            Ok(s) => {
                let rest = table_entries(class, enc, b, next, (n - 1) as nat)->Ok_0;
                assert forall|k: int| 0 <= k < n implies entry_at(class, enc, b, pos, k) == Ok::<
                    ProgramHeader,
                    ParserError,
                >(#[trigger] s[k]) by {
                    if k > 0 {
                        assert(s[k] == rest[k - 1]);
                        assert(entry_at(class, enc, b, next, k - 1) == entry_at(class, enc, b, pos, k));
                    }
                }
            },
            Err(e) => {
                if entry_result(class, enc, b, pos as usize) is Ok {
                    let k0 = choose|k: int|
                        0 <= k < n - 1 && #[trigger] entry_at(class, enc, b, next, k) == Err::<
                            ProgramHeader,
                            ParserError,
                        >(e) && forall|j: int|
                            0 <= j < k ==> (#[trigger] entry_at(class, enc, b, next, j)) is Ok;
                    assert(entry_at(class, enc, b, next, k0) == entry_at(class, enc, b, pos, k0 + 1));
                    assert forall|j: int| 0 <= j < k0 + 1 implies (#[trigger] entry_at(
                        class,
                        enc,
                        b,
                        pos,
                        j,
                    )) is Ok by {
                        if j > 0 {
                            assert(entry_at(class, enc, b, next, j - 1) == entry_at(class, enc, b, pos, j));
                        }
                    }
                }
            },
        }
    }
}

impl ProgramHeader {
    fn check_bounds(&self, file_size: usize) -> (r: Result<(), ParserError>)
        ensures
            r == bounds_check(*self, file_size),
    {
        let end = match self.offset.checked_add(self.file_size) {
            Some(end) => end,
            None => {
                return Err(
                    ParserError::Overflow { op: "addition", lhs: self.offset, rhs: self.file_size },
                );
            },
        };

        if end > file_size {
            return Err(
                ParserError::OutOfBounds { what: "Segment", start: self.offset, end, size: file_size },
            );
        }

        Ok(())
    }

    fn validate_load(&self, file_size: usize) -> (r: Result<(), ParserError>)
        ensures
            r == load_check(*self, file_size),
    {
        if self.mem_size < self.file_size as u64 {
            return Err(
                ParserError::Inconsistent {
                    fields: ["memory size", "file size"],
                    kind: InconsistentKind::SizeMismatch {
                        smaller: self.mem_size,
                        larger: self.file_size as u64,
                    },
                },
            );
        }

        self.check_bounds(file_size)?;

        if self.align <= 1 {
            return Ok(());
        }

        if !power_of_two(self.align) {
            return Err(
                ParserError::InvalidField {
                    field: "align",
                    kind: FieldErrorKind::NotPowerOfTwo { value: self.align },
                },
            );
        }

        let offset = self.offset as u64;
        if offset % self.align != self.vaddr % self.align {
            return Err(
                ParserError::Inconsistent {
                    fields: ["offset", "virtual address"],
                    kind: InconsistentKind::Misaligned {
                        align: self.align,
                        a: self.offset as u64,
                        b: self.vaddr,
                    },
                },
            );
        }

        Ok(())
    }

    fn read_elf32(reader: &mut Reader) -> (r: Result<Self, ParserError>)
        ensures
            final(reader).data() == old(reader).data(),
            final(reader).encoding() == old(reader).encoding(),
            r matches Ok(ph) ==> elf32_entry(old(reader).encoding(), old(reader).data(), old(reader).pos())
                == Ok::<ProgramHeader, ParserError>(ph) && final(reader).pos() == old(reader).pos()
                + 32,
            r matches Err(e) ==> elf32_entry(old(reader).encoding(), old(reader).data(), old(reader).pos())
                == Err::<ProgramHeader, ParserError>(e),
    {
        let segment_type_raw = match reader.read_u32() {
            Ok(v) => v,
            Err(e) => return Err(ParserError::Binary(e)),
        };
        let segment_type = SegmentType::from(segment_type_raw);

        let offset_raw = match reader.read_u32() {
            Ok(v) => v,
            Err(e) => return Err(ParserError::Binary(e)),
        } as u64;
        let offset = to_usize(offset_raw, "segment offset")?;

        let vaddr = match reader.read_u32() {
            Ok(v) => v,
            Err(e) => return Err(ParserError::Binary(e)),
        } as u64;
        let paddr = match reader.read_u32() {
            Ok(v) => v,
            Err(e) => return Err(ParserError::Binary(e)),
        } as u64;

        let file_size_raw = match reader.read_u32() {
            Ok(v) => v,
            Err(e) => return Err(ParserError::Binary(e)),
        } as u64;
        let file_size = to_usize(file_size_raw, "file size")?;

        let mem_size = match reader.read_u32() {
            Ok(v) => v,
            Err(e) => return Err(ParserError::Binary(e)),
        } as u64;

        if let Err(e) = reader.skip(4) {
            return Err(ParserError::Binary(e));
        }

        let align = match reader.read_u32() {
            Ok(v) => v,
            Err(e) => return Err(ParserError::Binary(e)),
        } as u64;

        Ok(Self { segment_type, offset, vaddr, paddr, file_size, mem_size, align })
    }

    fn read_elf64(reader: &mut Reader) -> (r: Result<Self, ParserError>)
        ensures
            final(reader).data() == old(reader).data(),
            final(reader).encoding() == old(reader).encoding(),
            r matches Ok(ph) ==> elf64_entry(old(reader).encoding(), old(reader).data(), old(reader).pos())
                == Ok::<ProgramHeader, ParserError>(ph) && final(reader).pos() == old(reader).pos()
                + 56,
            r matches Err(e) ==> elf64_entry(old(reader).encoding(), old(reader).data(), old(reader).pos())
                == Err::<ProgramHeader, ParserError>(e),
    {
        let segment_type_raw = match reader.read_u32() {
            Ok(v) => v,
            Err(e) => return Err(ParserError::Binary(e)),
        };
        let segment_type = SegmentType::from(segment_type_raw);

        if let Err(e) = reader.skip(4) {
            return Err(ParserError::Binary(e));
        }

        let offset_raw = match reader.read_u64() {
            Ok(v) => v,
            Err(e) => return Err(ParserError::Binary(e)),
        };
        let offset = to_usize(offset_raw, "segment offset")?;

        let vaddr = match reader.read_u64() {
            Ok(v) => v,
            Err(e) => return Err(ParserError::Binary(e)),
        };
        let paddr = match reader.read_u64() {
            Ok(v) => v,
            Err(e) => return Err(ParserError::Binary(e)),
        };

        let file_size_raw = match reader.read_u64() {
            Ok(v) => v,
            Err(e) => return Err(ParserError::Binary(e)),
        };
        let file_size = to_usize(file_size_raw, "file size")?;

        let mem_size = match reader.read_u64() {
            Ok(v) => v,
            Err(e) => return Err(ParserError::Binary(e)),
        };
        let align = match reader.read_u64() {
            Ok(v) => v,
            Err(e) => return Err(ParserError::Binary(e)),
        };

        Ok(Self { segment_type, offset, vaddr, paddr, file_size, mem_size, align })
    }

    fn validate(self, file_size: usize) -> (r: Result<Self, ParserError>)
        ensures
            r matches Ok(ph) ==> ph == self && entry_check(self, file_size) is Ok,
            r matches Err(e) ==> entry_check(self, file_size) == Err::<(), ParserError>(e),
    {
        match self.segment_type {
            SegmentType::Null => {},
            SegmentType::Load => self.validate_load(file_size)?,
            _ => self.check_bounds(file_size)?,
        }

        Ok(self)
    }

    fn parse_elf32(reader: &mut Reader) -> (r: Result<Self, ParserError>)
        ensures
            final(reader).data() == old(reader).data(),
            final(reader).encoding() == old(reader).encoding(),
            r matches Ok(ph) ==> entry_result(Class::Elf32, old(reader).encoding(), old(reader).data(), old(reader).pos())
                == Ok::<ProgramHeader, ParserError>(ph) && final(reader).pos() == old(reader).pos()
                + 32,
            r matches Err(e) ==> entry_result(Class::Elf32, old(reader).encoding(), old(reader).data(), old(reader).pos())
                == Err::<ProgramHeader, ParserError>(e),
    {
        let ph = ProgramHeader::read_elf32(reader)?;
        let len = reader.len();
        let ph = ph.validate(len)?;
        Ok(ph)
    }

    fn parse_elf64(reader: &mut Reader) -> (r: Result<Self, ParserError>)
        ensures
            final(reader).data() == old(reader).data(),
            final(reader).encoding() == old(reader).encoding(),
            r matches Ok(ph) ==> entry_result(Class::Elf64, old(reader).encoding(), old(reader).data(), old(reader).pos())
                == Ok::<ProgramHeader, ParserError>(ph) && final(reader).pos() == old(reader).pos()
                + 56,
            r matches Err(e) ==> entry_result(Class::Elf64, old(reader).encoding(), old(reader).data(), old(reader).pos())
                == Err::<ProgramHeader, ParserError>(e),
    {
        let ph = ProgramHeader::read_elf64(reader)?;
        let len = reader.len();
        let ph = ph.validate(len)?;
        Ok(ph)
    }
}

/// The entries of a program header table, read one after the other.
pub struct ProgramHeaderTable<'a> {
    class: Class,
    ph_current_idx: u16,
    ph_count: u16,
    reader: Reader<'a>,
}

/// Whether `t1` and the outcome `r` are what one call of `next` on the table `t0` gives: the
/// entry at the current position, then the position moves past it; after an error, or once all
/// entries were handed out, no more.
pub open spec fn next_step<'a>(
    t0: ProgramHeaderTable<'a>,
    r: Option<Result<ProgramHeader, ParserError>>,
    t1: ProgramHeaderTable<'a>,
) -> bool {
    &&& t1.wf()
    &&& t1.class() == t0.class()
    &&& t1.encoding() == t0.encoding()
    &&& t1.data() == t0.data()
    &&& t1.count() == t0.count()
    &&& t0.index() == t0.count() ==> r is None && t1.index() == t0.index() && t1.pos() == t0.pos()
    &&& t0.index() < t0.count() ==> (r matches Some(res) && match res {
        Ok(ph) => entry_result(t0.class(), t0.encoding(), t0.data(), t0.pos()) == Ok::<
            ProgramHeader,
            ParserError,
        >(ph) && t1.index() == t0.index() + 1 && t1.pos() == t0.pos() + entry_size(t0.class()),
        Err(e) => entry_result(t0.class(), t0.encoding(), t0.data(), t0.pos()) == Err::<
            ProgramHeader,
            ParserError,
        >(e) && t1.index() == t1.count(),
    })
}

/// Whether the entries before entry number `k` of a table at offset `pos` of the file `b` all
/// read.
pub open spec fn all_read_before(class: Class, enc: Encoding, b: Seq<u8>, pos: int, k: int) -> bool {
    forall|j: int| 0 <= j < k ==> (#[trigger] entry_at(class, enc, b, pos, j)) is Ok
}

/// What call number `i` of `next` gives on a table of `n` entries of class `class` at offset
/// `pos` of the file `b`, fresh at its first entry: entry `i`, read or refused, while `i` is below
/// `n` and every entry before it read; nothing after that.
pub open spec fn table_output(class: Class, enc: Encoding, b: Seq<u8>, pos: int, n: nat, i: int) -> Option<
    Result<ProgramHeader, ParserError>,
> {
    if 0 <= i < n && all_read_before(class, enc, b, pos, i) {
        Some(entry_at(class, enc, b, pos, i))
    } else {
        None
    }
}

/// The state of the table `ts[k]` after `k` calls of `next` on the fresh table `ts[0]`.
proof fn lemma_table_state<'a>(
    ts: Seq<ProgramHeaderTable<'a>>,
    rs: Seq<Option<Result<ProgramHeader, ParserError>>>,
    k: int,
)
    requires
        ts.len() == rs.len() + 1,
        ts[0].wf(),
        ts[0].index() == 0,
        forall|i: int| #![trigger rs[i]] 0 <= i < rs.len() ==> next_step(ts[i], rs[i], ts[i + 1]),
        0 <= k < ts.len(),
    ensures
        ({
            let t0 = ts[0];
            let (c, e, b, p, n) = (t0.class(), t0.encoding(), t0.data(), t0.pos() as int, t0.count() as nat);
            &&& ts[k].wf()
            &&& ts[k].class() == c && ts[k].encoding() == e && ts[k].data() == b && ts[k].count() == n
            &&& k <= n && all_read_before(c, e, b, p, k) ==> ts[k].index() == k && ts[k].pos() == p
                + k * entry_size(c)
            &&& !(k <= n && all_read_before(c, e, b, p, k)) ==> ts[k].index() == n
            &&& forall|i: int| 0 <= i < k ==> #[trigger] rs[i] == table_output(c, e, b, p, n, i)
        }),
    decreases k,
{
    let t0 = ts[0];
    let (c, e, b, p, n) = (t0.class(), t0.encoding(), t0.data(), t0.pos() as int, t0.count() as nat);
    if k > 0 {
        let j = k - 1;
        lemma_table_state(ts, rs, j);
        assert(next_step(ts[j], rs[j], ts[k]));
        let size = entry_size(c);
        let ok_j = j <= n && all_read_before(c, e, b, p, j);
        if ok_j && j < n {
            assert(entry_at(c, e, b, p, j) == entry_result(c, e, b, ts[j].pos()));
            assert(p + j * size + size == p + k * size) by (nonlinear_arith)
                requires
                    k == j + 1,
            ;
            if entry_at(c, e, b, p, j) is Ok {
                assert(all_read_before(c, e, b, p, k)) by {
                    assert forall|m: int| 0 <= m < k implies (#[trigger] entry_at(
                        c,
                        e,
                        b,
                        p,
                        m,
                    )) is Ok by {
                        if m < j {
                            assert(all_read_before(c, e, b, p, j));
                        }
                    }
                }
            } else {
                assert(!all_read_before(c, e, b, p, k));
            }
        } else {
            assert(!(k <= n && all_read_before(c, e, b, p, k))) by {
                if k <= n && all_read_before(c, e, b, p, k) {
                    assert(all_read_before(c, e, b, p, j));
                }
            }
        }
        assert(rs[j] == table_output(c, e, b, p, n, j));
    }
}

/// Calling `next` again and again on a fresh table hands out its entries in order, entry `i` read
/// at `i` entry sizes past the table's offset, until one is refused or all `count` were handed
/// out: at most `count` entries, at most one error, which is the last thing handed out, and
/// nothing after it. `ts[i]` is the table after `i` calls and `rs[i]` what call `i` gave.
pub proof fn lemma_table_calls<'a>(
    ts: Seq<ProgramHeaderTable<'a>>,
    rs: Seq<Option<Result<ProgramHeader, ParserError>>>,
)
    requires
        ts.len() == rs.len() + 1,
        ts[0].wf(),
        ts[0].index() == 0,
        forall|i: int| #![trigger rs[i]] 0 <= i < rs.len() ==> next_step(ts[i], rs[i], ts[i + 1]),
    ensures
        forall|i: int|
            0 <= i < rs.len() ==> #[trigger] rs[i] == table_output(
                ts[0].class(),
                ts[0].encoding(),
                ts[0].data(),
                ts[0].pos() as int,
                ts[0].count() as nat,
                i,
            ),
        forall|i: int| ts[0].count() <= i < rs.len() ==> (#[trigger] rs[i]) is None,
        forall|i: int, j: int|
            0 <= i < j < rs.len() && (#[trigger] rs[i] matches Some(Err(_))) ==> (#[trigger] rs[j]) is None,
{
    let t0 = ts[0];
    let (c, e, b, p, n) = (t0.class(), t0.encoding(), t0.data(), t0.pos() as int, t0.count() as nat);
    lemma_table_state(ts, rs, rs.len() as int);
    assert forall|i: int, j: int|
        0 <= i < j < rs.len() && (#[trigger] rs[i] matches Some(Err(_))) implies (#[trigger] rs[j]) is None by {
        assert(rs[i] == table_output(c, e, b, p, n, i));
        assert(rs[j] == table_output(c, e, b, p, n, j));
        if j < n && all_read_before(c, e, b, p, j) {
            assert(entry_at(c, e, b, p, i) is Ok);
        }
    }
}

impl<'a> ProgramHeaderTable<'a> {
    /// The class whose entry layout is read.
    pub closed spec fn class(&self) -> Class {
        self.class
    }

    /// How many entries were handed out so far.
    pub closed spec fn index(&self) -> u16 {
        self.ph_current_idx
    }

    /// How many entries the table has.
    pub closed spec fn count(&self) -> u16 {
        self.ph_count
    }

    /// The bytes of the whole file.
    pub closed spec fn data(&self) -> Seq<u8> {
        self.reader.data()
    }

    /// Where the next entry is read.
    pub closed spec fn pos(&self) -> usize {
        self.reader.pos()
    }

    /// The byte order of the file.
    pub closed spec fn encoding(&self) -> Encoding {
        self.reader.encoding()
    }

    #[verifier::type_invariant]
    spec fn within_count(self) -> bool {
        self.ph_current_idx <= self.ph_count
    }

    /// No more entries are handed out than the table has; every table keeps this.
    pub open spec fn wf(&self) -> bool {
        self.index() <= self.count()
    }

    /// Starts reading the program header table of `elf_file` at its first entry.
    pub fn new(elf_file: &'a Elf) -> (r: Result<Self, ParserError>)
        ensures
            elf_file.header.ph_offset <= elf_file.bytes@.len() ==> (r matches Ok(t) && t.wf()
                && t.class() == elf_file.ident.class && t.encoding() == elf_file.ident.encoding
                && t.data() == elf_file.bytes@ && t.pos() == elf_file.header.ph_offset && t.index()
                == 0 && t.count() == elf_file.header.ph_count),
            elf_file.header.ph_offset > elf_file.bytes@.len() ==> r == Err::<Self, ParserError>(
                ParserError::Binary(
                    crate::binary::BinaryError::OutOfBounds {
                        needed: 0,
                        position: 0,
                        buf_len: elf_file.bytes@.len() as usize,
                    },
                ),
            ),
    {
        let mut reader = Reader::new(elf_file.bytes, elf_file.ident.encoding);

        if let Err(e) = reader.seek(elf_file.header.ph_offset) {
            return Err(ParserError::Binary(e));
        }

        Ok(Self { class: elf_file.ident.class, ph_current_idx: 0, ph_count: elf_file.header.ph_count, reader })
    }

    /// Hands out the next entry, or `None` once all were handed out or one failed.
    pub fn next(&mut self) -> (r: Option<Result<ProgramHeader, ParserError>>)
        ensures
            old(self).wf(),
            next_step(*old(self), r, *final(self)),
    {
        proof {
            use_type_invariant(&*self);
        }
        if self.ph_current_idx == self.ph_count {
            return None;
        }

        // The reader leaves the table while the entry is read, so the table stays whole on every
        // path out of the read.
        let mut reader = Reader::new(&[], Encoding::LittleEndian);
        std::mem::swap(&mut reader, &mut self.reader);
        let res = match self.class {
            Class::Elf32 => ProgramHeader::parse_elf32(&mut reader),
            Class::Elf64 => ProgramHeader::parse_elf64(&mut reader),
        };
        self.reader = reader;
        match res {
            Ok(ph) => {
                self.ph_current_idx = self.ph_current_idx + 1;
                Some(Ok(ph))
            },
            Err(e) => {
                self.ph_current_idx = self.ph_count;
                Some(Err(e))
            },
        }
    }
}

} // verus!
