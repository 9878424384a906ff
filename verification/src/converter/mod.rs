use vstd::prelude::*;

use std::collections::BTreeMap;
use vstd::string::StringExecFns;

use crate::binary::{decode, Encoding};
use crate::elf::{
    self, elf_result, entry_result, entry_size, lemma_table_entries_unfold, program_headers_result,
    table_entries, Class, Elf, FileType, Header, Ident, ParserError, ProgramHeader, SegmentType,
};
use crate::text::{append_number, dec};
use crate::uf2::{self, uf2_settings_check, Uf2, FAMILY_ID_PRESENT_FLAG, MAX_DATA_SIZE};

mod image;
mod segment;

pub use image::{
    block_addresses, increasing, lemma_block_addresses_sorted, lemma_image_layout, uf2_image,
};
pub use segment::{
    block_bytes, block_of, blocks_sized, lemma_segment_blocks_aligned, lemma_segment_bytes_placed,
    lemma_segment_keeps_others, load_segment, splits_into_blocks, touches, write_segment,
};

use image::render_blocks;
use segment::load_segment_blocks;

verus! {

#[verifier::external_type_specification]
#[verifier::external_body]
pub struct ExIoError(std::io::Error);

/// Why a conversion failed.
#[derive(Debug)]
pub enum ConverterError {
    /// Reading the input or writing the output failed.
    IO(std::io::Error),
    /// The input is not a well-formed ELF file.
    ElfParser(ParserError),
    /// The UF2 settings are not valid.
    Uf2Writer(uf2::Uf2Error),
    /// The input is a well-formed ELF file that cannot be converted.
    InvalidElf { kind: InvalidElfKind },
    /// The image needs more blocks than a block number can count.
    TooManyBlocks { value: usize },
    /// A segment offset does not fit in the UF2 address space.
    OffsetTooLarge { value: usize },
    /// A block address past the end of the 32-bit address space.
    AddressOverflow,
}

/// Why a well-formed ELF file cannot be converted.
#[derive(Debug)]
pub enum InvalidElfKind {
    FileType(elf::FileType),
    Class,
    AddressTooLarge(u64),
}

impl From<ParserError> for ConverterError {
    fn from(e: ParserError) -> (r: Self) {
        ConverterError::ElfParser(e)
    }
}

impl vstd::std_specs::convert::FromSpecImpl<ParserError> for ConverterError {
    open spec fn obeys_from_spec() -> bool {
        true
    }

    open spec fn from_spec(e: ParserError) -> Self {
        ConverterError::ElfParser(e)
    }
}

impl From<uf2::Uf2Error> for ConverterError {
    fn from(e: uf2::Uf2Error) -> (r: Self) {
        ConverterError::Uf2Writer(e)
    }
}

impl vstd::std_specs::convert::FromSpecImpl<uf2::Uf2Error> for ConverterError {
    open spec fn obeys_from_spec() -> bool {
        true
    }

    open spec fn from_spec(e: uf2::Uf2Error) -> Self {
        ConverterError::Uf2Writer(e)
    }
}

impl From<std::io::Error> for ConverterError {
    fn from(e: std::io::Error) -> (r: Self) {
        ConverterError::IO(e)
    }
}

impl vstd::std_specs::convert::FromSpecImpl<std::io::Error> for ConverterError {
    open spec fn obeys_from_spec() -> bool {
        true
    }

    open spec fn from_spec(e: std::io::Error) -> Self {
        ConverterError::IO(e)
    }
}

impl InvalidElfKind {
    /// The message of this reason.
    pub open spec fn text(&self) -> Seq<char> {
        match *self {
            InvalidElfKind::FileType(ft) => "Invalid file type "@ + ft.text() + ", must be EXEC"@,
            InvalidElfKind::Class => "Elf class must be ELF32"@,
            InvalidElfKind::AddressTooLarge(addr) => "ELF segment address "@ + dec(addr as nat)
                + " does not fit in UF2 address space (u32)"@,
        }
    }

    /// Writes the message of this reason.
    pub fn describe(&self) -> (r: String)
        ensures
            r@ == self.text(),
    {
        let mut s = String::new();
        match self {
            InvalidElfKind::FileType(ft) => {
                s.append("Invalid file type ");
                let t = ft.describe();
                s.append(t.as_str());
                s.append(", must be EXEC");
            },
            InvalidElfKind::Class => s.append("Elf class must be ELF32"),
            InvalidElfKind::AddressTooLarge(addr) => {
                s.append("ELF segment address ");
                append_number(&mut s, *addr, 10, false);
                s.append(" does not fit in UF2 address space (u32)");
            },
        }
        assert(s@ =~= self.text());
        s
    }
}

impl ConverterError {
    /// The message of this error; an I/O error is described by the operating system, which is
    /// left out here.
    pub open spec fn text(&self) -> Seq<char> {
        match *self {
            ConverterError::IO(_) => Seq::empty(),
            ConverterError::ElfParser(e) => e.text(),
            ConverterError::Uf2Writer(e) => e.text(),
            ConverterError::InvalidElf { kind } => "Invalid file: "@ + kind.text(),
            ConverterError::TooManyBlocks { value } => "Too many UF2 blocks: "@ + dec(value as nat)
                + " exceeds u32::MAX"@,
            ConverterError::OffsetTooLarge { value } => "Segment offset "@ + dec(value as nat)
                + " does not fit in u32 address space"@,
            ConverterError::AddressOverflow => "Address computation overflow"@,
        }
    }

    /// Writes the message of this error.
    pub fn describe(&self) -> (r: String)
        ensures
            !(self is IO) ==> r@ == self.text(),
    {
        let mut s = String::new();
        match self {
            ConverterError::IO(e) => {
                return e.to_string();
            },
            ConverterError::ElfParser(e) => {
                let t = e.describe();
                s.append(t.as_str());
            },
            ConverterError::Uf2Writer(e) => {
                let t = e.describe();
                s.append(t.as_str());
            },
            ConverterError::InvalidElf { kind } => {
                s.append("Invalid file: ");
                let t = kind.describe();
                s.append(t.as_str());
            },
            ConverterError::TooManyBlocks { value } => {
                s.append("Too many UF2 blocks: ");
                append_number(&mut s, *value as u64, 10, false);
                s.append(" exceeds u32::MAX");
            },
            ConverterError::OffsetTooLarge { value } => {
                s.append("Segment offset ");
                append_number(&mut s, *value as u64, 10, false);
                s.append(" does not fit in u32 address space");
            },
            ConverterError::AddressOverflow => s.append("Address computation overflow"),
        }
        assert(s@ =~= self.text());
        s
    }
}

/// Whether segment `ph` is loadable and has bytes in the file.
pub open spec fn has_file_data(ph: ProgramHeader) -> bool {
    ph.segment_type == SegmentType::Load && ph.file_size > 0
}

/// The blocks of `payload` bytes after the segments `phs` of the file `b` were loaded one after
/// the other, starting from no blocks; the first error stops it.
pub open spec fn load_segments(b: Seq<u8>, phs: Seq<ProgramHeader>, payload: int) -> Result<
    Map<u32, Seq<u8>>,
    ConverterError,
>
    decreases phs.len(),
{
    if phs.len() == 0 {
        Ok(Map::empty())
    } else {
        match load_segments(b, phs.drop_last(), payload) {
            Err(e) => Err(e),
            Ok(m) => load_segment(b, phs.last(), payload, m),
        }
    }
}

/// Whether loading the segments `phs` one after the other splits one of them into blocks: the
/// first segment with file data has all its addresses in the 32-bit address space.
pub open spec fn splits_any(phs: Seq<ProgramHeader>) -> bool {
    exists|i: int|
        0 <= i < phs.len() && splits_into_blocks(#[trigger] phs[i]) && forall|j: int|
            0 <= j < i ==> !has_file_data(#[trigger] phs[j])
}

/// The flags word of the blocks of an image with the optional family ID `family_id`.
pub open spec fn flags_for(family_id: Option<u32>) -> u32 {
    if family_id is Some {
        FAMILY_ID_PRESENT_FLAG
    } else {
        0
    }
}

/// The family ID word of the blocks of an image with the optional family ID `family_id`.
pub open spec fn family_word(family_id: Option<u32>) -> u32 {
    match family_id {
        Some(id) => id,
        None => 0,
    }
}

/// What converting the ELF file `b` gives: the UF2 blocks of the loadable segments, cut into
/// blocks of `payload_size` bytes, or why it cannot be converted.
#[verifier::opaque]
pub open spec fn conversion(b: Seq<u8>, payload_size: u32, family_id: Option<u32>) -> Result<
    Seq<Seq<u8>>,
    ConverterError,
> {
    match elf_result(b) {
        Err(e) => Err(ConverterError::ElfParser(e)),
        Ok((ident, h)) => if h.file_type != FileType::Exec {
            Err(ConverterError::InvalidElf { kind: InvalidElfKind::FileType(h.file_type) })
        } else if ident.class != Class::Elf32 {
            Err(ConverterError::InvalidElf { kind: InvalidElfKind::Class })
        } else {
            match program_headers_result(ident, h, b) {
                Err(e) => Err(ConverterError::ElfParser(e)),
                Ok(phs) => match load_segments(b, phs, payload_size as int) {
                    Err(e) => Err(e),
                    Ok(m) => if m.dom().len() > u32::MAX {
                        Err(ConverterError::TooManyBlocks { value: m.dom().len() as usize })
                    } else {
                        match uf2_settings_check(payload_size, m.dom().len() as u32) {
                            Err(e) => Err(ConverterError::Uf2Writer(e)),
                            Ok(_) => Ok(
                                uf2_image(
                                    m,
                                    flags_for(family_id),
                                    payload_size,
                                    family_word(family_id),
                                ),
                            ),
                        }
                    },
                },
            }
        },
    }
}

/// Whether converting the ELF file `b` splits a segment into blocks, which divides by the
/// payload size.
pub open spec fn conversion_splits(b: Seq<u8>) -> bool {
    match elf_result(b) {
        Err(_) => false,
        Ok((ident, h)) => {
            &&& h.file_type == FileType::Exec
            &&& ident.class == Class::Elf32
            &&& program_headers_result(ident, h, b) matches Ok(phs) && splits_any(phs)
        },
    }
}

/// What an entry of a table of class `class`, read from a file of `len` bytes, can be relied on
/// for: a loadable segment lies inside the file, and an ELF32 segment is at most 4 GiB long.
spec fn entry_fits(class: Class, ph: ProgramHeader, len: int) -> bool {
    &&& ph.segment_type == SegmentType::Load ==> ph.offset + ph.file_size <= len
    &&& class == Class::Elf32 ==> ph.file_size <= u32::MAX
}

proof fn lemma_entry_fits(class: Class, enc: Encoding, b: Seq<u8>, pos: usize)
    requires
        b.len() <= usize::MAX,
        entry_result(class, enc, b, pos) is Ok,
    ensures
        entry_fits(class, entry_result(class, enc, b, pos)->Ok_0, b.len() as int),
{
}

proof fn lemma_entries_fit(class: Class, enc: Encoding, b: Seq<u8>, pos: int, n: nat)
    requires
        b.len() <= usize::MAX,
        table_entries(class, enc, b, pos, n) is Ok,
    ensures
        forall|i: int|
            0 <= i < table_entries(class, enc, b, pos, n)->Ok_0.len() ==> entry_fits(
                class,
                #[trigger] table_entries(class, enc, b, pos, n)->Ok_0[i],
                b.len() as int,
            ),
    decreases n,
{
    lemma_table_entries_unfold(class, enc, b, pos, n);
    if n > 0 {
        lemma_entry_fits(class, enc, b, pos as usize);
        lemma_entries_fit(class, enc, b, pos + entry_size(class), (n - 1) as nat);
    }
}

/// Once loading the first `k` segments fails, loading all of them fails in the same way.
proof fn lemma_load_error_stays(b: Seq<u8>, phs: Seq<ProgramHeader>, p: int, k: int)
    requires
        0 <= k <= phs.len(),
        load_segments(b, phs.take(k), p) is Err,
    ensures
        load_segments(b, phs, p) == load_segments(b, phs.take(k), p),
    decreases phs.len() - k,
{
    if k == phs.len() {
        assert(phs.take(k) =~= phs);
    } else {
        assert(phs.take(k + 1).drop_last() =~= phs.take(k));
        lemma_load_error_stays(b, phs, p, k + 1);
    }
}

/// Converts the ELF file `bytes` into the blocks of a UF2 image: the loadable segments with file
/// bytes are copied, in table order, into zero-filled blocks of `payload_size` bytes at their
/// physical addresses (a later segment overwrites an earlier one), and each block becomes one
/// 512-byte UF2 block, in increasing address order. `family_id`, when given, is written into
/// every block.
pub fn elf_to_uf2_blocks(bytes: &[u8], payload_size: u32, family_id: Option<u32>) -> (r: Result<
    Vec<Vec<u8>>,
    ConverterError,
>)
    requires
        payload_size == 0 ==> !conversion_splits(bytes@),
    ensures
        match conversion(bytes@, payload_size, family_id) {
            Ok(image) => r matches Ok(v) && v@.map_values(|blk: Vec<u8>| blk@) == image,
            Err(e) => r matches Err(re) && re == e,
        },
{
    proof {
        reveal(conversion);
    }
    let elf_file = match Elf::parse(bytes) {
        Ok(e) => e,
        Err(e) => return Err(ConverterError::ElfParser(e)),
    };
    if elf_file.header.file_type != FileType::Exec {
        return Err(
            ConverterError::InvalidElf { kind: InvalidElfKind::FileType(elf_file.header.file_type) },
        );
    }
    if elf_file.ident.class != Class::Elf32 {
        return Err(ConverterError::InvalidElf { kind: InvalidElfKind::Class });
    }

    let ph_table = match elf_file.read_program_headers() {
        Ok(t) => t,
        Err(e) => return Err(ConverterError::ElfParser(e)),
    };
    let ghost b = bytes@;
    let ghost phs = ph_table@;
    let ghost p = payload_size as int;
    proof {
        assert(b.len() == bytes.len());
        lemma_entries_fit(
            Class::Elf32,
            elf_file.ident.encoding,
            b,
            elf_file.header.ph_offset as int,
            elf_file.header.ph_count as nat,
        );
        assert(load_segments(b, phs.take(0), p) =~= Ok::<Map<u32, Seq<u8>>, ConverterError>(
            Map::empty(),
        ));
    }

    let mut blocks: BTreeMap<u32, Vec<u8>> = BTreeMap::new();
    proof {
        assert(block_bytes(blocks@) =~= Map::empty());
    }
    let mut i: usize = 0;
    while i < ph_table.len()
        invariant
            i <= phs.len(),
            phs == ph_table@,
            b == elf_file.bytes@,
            b == bytes@,
            p == payload_size,
            elf_result(b) == Ok::<(Ident, Header), ParserError>((elf_file.ident, elf_file.header)),
            elf_file.header.file_type == FileType::Exec,
            elf_file.ident.class == Class::Elf32,
            program_headers_result(elf_file.ident, elf_file.header, b) == Ok::<
                Seq<ProgramHeader>,
                ParserError,
            >(phs),
            load_segments(b, phs.take(i as int), p) == Ok::<Map<u32, Seq<u8>>, ConverterError>(
                block_bytes(blocks@),
            ),
            blocks_sized(block_bytes(blocks@), p),
            forall|k: int| 0 <= k < phs.len() ==> entry_fits(Class::Elf32, #[trigger] phs[k], b.len() as int),
            payload_size == 0 ==> !splits_any(phs),
            payload_size == 0 ==> forall|j: int| 0 <= j < i ==> !has_file_data(#[trigger] phs[j]),
        decreases phs.len() - i,
    {
        let ghost m = block_bytes(blocks@);
        proof {
            assert(entry_fits(Class::Elf32, phs[i as int], b.len() as int));
            if payload_size == 0 && splits_into_blocks(phs[i as int]) {
                assert(splits_any(phs));
            }
            assert(phs.take(i + 1).drop_last() =~= phs.take(i as int));
        }
        let loaded = load_segment_blocks(&elf_file, &ph_table[i], payload_size, &mut blocks);
        if let Err(e) = loaded {
            proof {
                reveal(conversion);
                lemma_load_error_stays(b, phs, p, i + 1);
            }
            return Err(e);
        }
        i = i + 1;
    }
    proof {
        assert(phs.take(i as int) =~= phs);
    }

    let count = blocks.len();
    proof {
        assert(block_bytes(blocks@).dom() =~= blocks@.dom());
    }
    let block_count = match u32::try_from(count) {
        Ok(c) => c,
        Err(_) => return Err(ConverterError::TooManyBlocks { value: count }),
    };
    let uf2 = match Uf2::new(payload_size, block_count, family_id) {
        Ok(u) => u,
        Err(e) => return Err(ConverterError::Uf2Writer(e)),
    };
    match render_blocks(&uf2, &blocks) {
        Ok(v) => Ok(v),
        Err(e) => Err(ConverterError::Uf2Writer(e)),
    }
}

/// A segment that is not loadable, or has no bytes in the file, leaves the blocks as they are.
pub proof fn lemma_segment_without_data_skipped(
    b: Seq<u8>,
    ph: ProgramHeader,
    p: int,
    m: Map<u32, Seq<u8>>,
)
    requires
        !has_file_data(ph),
    ensures
        load_segment(b, ph, p, m) == Ok::<Map<u32, Seq<u8>>, ConverterError>(m),
{
}

/// Loading segments gives blocks of the payload size that start at multiples of it.
pub proof fn lemma_loaded_blocks_aligned(b: Seq<u8>, phs: Seq<ProgramHeader>, p: int)
    requires
        p > 0,
        load_segments(b, phs, p) is Ok,
    ensures
        blocks_sized(load_segments(b, phs, p)->Ok_0, p),
        forall|a: u32| #[trigger]
            load_segments(b, phs, p)->Ok_0.contains_key(a) ==> (a as int) % p == 0,
    decreases phs.len(),
{
    if phs.len() > 0 {
        let prev = phs.drop_last();
        lemma_loaded_blocks_aligned(b, prev, p);
        let m0 = load_segments(b, prev, p)->Ok_0;
        let ph = phs.last();
        if has_file_data(ph) {
            lemma_segment_blocks_aligned(
                m0,
                ph.paddr as int,
                b.subrange(ph.offset as int, ph.offset + ph.file_size),
                p,
            );
        }
    }
}

/// After the segments `phs` were loaded, the byte at address `a` is the byte of the file that
/// the last segment with file data covering `a` holds for it: it is found in the block of `a`,
/// at the offset of `a` in that block.
pub proof fn lemma_loaded_byte(b: Seq<u8>, phs: Seq<ProgramHeader>, p: int, i: int, a: int)
    requires
        p > 0,
        load_segments(b, phs, p) is Ok,
        0 <= i < phs.len(),
        has_file_data(phs[i]),
        forall|k: int|
            0 <= k < phs.len() && has_file_data(#[trigger] phs[k]) ==> phs[k].offset
                + phs[k].file_size <= b.len(),
        phs[i].paddr <= a < phs[i].paddr + phs[i].file_size,
        forall|k: int|
            i < k < phs.len() && has_file_data(#[trigger] phs[k]) ==> !(phs[k].paddr <= a
                < phs[k].paddr + phs[k].file_size),
    ensures
        ({
            let m = load_segments(b, phs, p)->Ok_0;
            let blk = block_of(a, p);
            &&& 0 <= blk <= a < blk + p
            &&& blk <= u32::MAX
            &&& m.contains_key(blk as u32)
            &&& m[blk as u32][a - blk] == b[phs[i].offset + (a - phs[i].paddr)]
        }),
    decreases phs.len(),
{
    let n = phs.len() as int;
    let prev = phs.drop_last();
    let m0 = load_segments(b, prev, p)->Ok_0;
    let last = phs.last();
    let blk = block_of(a, p);
    if i == n - 1 {
        let d = b.subrange(last.offset as int, last.offset + last.file_size);
        lemma_segment_bytes_placed(m0, last.paddr as int, d, p, a - last.paddr);
    } else {
        lemma_loaded_byte(b, prev, p, i, a);
        if has_file_data(last) {
            assert(!(last.paddr <= a < last.paddr + last.file_size));
            let d = b.subrange(last.offset as int, last.offset + last.file_size);
            lemma_loaded_blocks_aligned(b, prev, p);
            lemma_segment_blocks_aligned(m0, last.paddr as int, d, p);
            vstd::arithmetic::div_mod::lemma_mod_pos_bound(a, p);
            lemma_segment_keeps_others(m0, last.paddr as int, d, p, blk as u32, a - blk);
        }
    }
}

/// Whether converting the ELF file `bytes` splits a segment into blocks, and so needs a payload
/// size other than zero.
pub fn conversion_needs_payload(bytes: &[u8]) -> (r: bool)
    ensures
        r == conversion_splits(bytes@),
{
    let elf_file = match Elf::parse(bytes) {
        Ok(e) => e,
        Err(_) => return false,
    };
    if elf_file.header.file_type != FileType::Exec || elf_file.ident.class != Class::Elf32 {
        return false;
    }
    let ph_table = match elf_file.read_program_headers() {
        Ok(t) => t,
        Err(_) => return false,
    };
    let ghost phs = ph_table@;
    let mut i: usize = 0;
    while i < ph_table.len()
        invariant
            i <= phs.len(),
            phs == ph_table@,
            forall|j: int| 0 <= j < i ==> !has_file_data(#[trigger] phs[j]),
            elf_result(bytes@) == Ok::<(Ident, Header), ParserError>((elf_file.ident, elf_file.header)),
            elf_file.header.file_type == FileType::Exec,
            elf_file.ident.class == Class::Elf32,
            program_headers_result(elf_file.ident, elf_file.header, bytes@) == Ok::<
                Seq<ProgramHeader>,
                ParserError,
            >(phs),
        decreases phs.len() - i,
    {
        let ph = &ph_table[i];
        if ph.segment_type == SegmentType::Load && ph.file_size > 0 {
            let splits = ph.paddr <= u32::MAX as u64 && (ph.file_size as u64) - 1 <= u32::MAX as u64
                - ph.paddr;
            proof {
                if splits {
                    assert(splits_into_blocks(phs[i as int]));
                    assert(splits_any(phs));
                } else {
                    assert forall|k: int|
                        0 <= k < phs.len() && splits_into_blocks(#[trigger] phs[k]) implies exists|
                        j: int,
                    | 0 <= j < k && has_file_data(#[trigger] phs[j]) by {
                        assert(k != i);
                        if k > i {
                            assert(has_file_data(phs[i as int]));
                        }
                    }
                }
            }
            return splits;
        }
        i = i + 1;
    }
    false
}

/// The program headers of the ELF file `b`, when it parses and its table reads; none otherwise.
pub open spec fn segments_of(b: Seq<u8>) -> Seq<ProgramHeader> {
    match elf_result(b) {
        Ok((ident, h)) => match program_headers_result(ident, h, b) {
            Ok(phs) => phs,
            Err(_) => Seq::empty(),
        },
        Err(_) => Seq::empty(),
    }
}

/// Only ELF32 executables are converted: a well-formed file of another type, or an executable
/// of another class, is refused with the reason.
pub proof fn lemma_conversion_rejects(b: Seq<u8>, payload_size: u32, family_id: Option<u32>)
    requires
        elf_result(b) is Ok,
    ensures
        ({
            let (ident, h) = elf_result(b)->Ok_0;
            &&& h.file_type != FileType::Exec ==> conversion(b, payload_size, family_id) == Err::<
                Seq<Seq<u8>>,
                ConverterError,
            >(ConverterError::InvalidElf { kind: InvalidElfKind::FileType(h.file_type) })
            &&& h.file_type == FileType::Exec && ident.class != Class::Elf32 ==> conversion(
                b,
                payload_size,
                family_id,
            ) == Err::<Seq<Seq<u8>>, ConverterError>(
                ConverterError::InvalidElf { kind: InvalidElfKind::Class },
            )
        }),
{
    reveal(conversion);
}

/// What a successful conversion of the ELF file `b` is made of: its segments loaded into
/// blocks, fewer than `2^32` of them, rendered with a valid payload size.
proof fn lemma_conversion_parts(b: Seq<u8>, payload_size: u32, family_id: Option<u32>)
    requires
        conversion(b, payload_size, family_id) is Ok,
    ensures
        elf_result(b) is Ok,
        elf_result(b)->Ok_0.0.class == Class::Elf32,
        program_headers_result(elf_result(b)->Ok_0.0, elf_result(b)->Ok_0.1, b)
            == Ok::<Seq<ProgramHeader>, ParserError>(segments_of(b)),
        load_segments(b, segments_of(b), payload_size as int) is Ok,
        ({
            let m = load_segments(b, segments_of(b), payload_size as int)->Ok_0;
            &&& m.dom().len() <= u32::MAX
            &&& 0 < payload_size <= MAX_DATA_SIZE
            &&& conversion(b, payload_size, family_id)->Ok_0 == uf2_image(
                m,
                flags_for(family_id),
                payload_size,
                family_word(family_id),
            )
        }),
{
    reveal(conversion);
}

/// Loading the segments `phs` of the file `b` and rendering the blocks carries every loaded
/// byte: the byte for address `a` of the last segment with file data that covers `a` is found in
/// the UF2 block that targets the block of `a`, at the offset of `a` in its data.
proof fn lemma_rendered_byte(
    b: Seq<u8>,
    phs: Seq<ProgramHeader>,
    payload_size: u32,
    flags: u32,
    family: u32,
    i: int,
    a: int,
)
    requires
        0 < payload_size <= MAX_DATA_SIZE,
        load_segments(b, phs, payload_size as int) is Ok,
        load_segments(b, phs, payload_size as int)->Ok_0.dom().len() <= u32::MAX,
        forall|k: int|
            0 <= k < phs.len() && has_file_data(#[trigger] phs[k]) ==> phs[k].offset
                + phs[k].file_size <= b.len(),
        0 <= i < phs.len(),
        has_file_data(phs[i]),
        phs[i].paddr <= a < phs[i].paddr + phs[i].file_size,
        forall|k: int|
            i < k < phs.len() && has_file_data(#[trigger] phs[k]) ==> !(phs[k].paddr <= a
                < phs[k].paddr + phs[k].file_size),
    ensures
        ({
            let img = uf2_image(
                load_segments(b, phs, payload_size as int)->Ok_0,
                flags,
                payload_size,
                family,
            );
            let blk = block_of(a, payload_size as int);
            exists|k: int|
                0 <= k < img.len() && decode(Encoding::LittleEndian, #[trigger] img[k].subrange(12, 16))
                    == blk && img[k][32 + (a - blk)] == b[phs[i].offset + (a - phs[i].paddr)]
        }),
{
    broadcast use vstd::set_lib::full_set_properties;

    let p = payload_size as int;
    let m = load_segments(b, phs, p)->Ok_0;
    lemma_loaded_byte(b, phs, p, i, a);
    lemma_loaded_blocks_aligned(b, phs, p);
    assert(Set::<u32>::full().finite());
    vstd::set_lib::lemma_set_subset_finite(Set::<u32>::full(), m.dom());
    lemma_image_layout(m, flags, payload_size, family);
    let img = uf2_image(m, flags, payload_size, family);
    let blk = block_of(a, p);
    let addrs = block_addresses(m);
    assert(addrs.to_set().contains(blk as u32));
    let k = choose|k: int| 0 <= k < addrs.len() && addrs[k] == blk as u32;
    assert(img[k].subrange(32, 32 + payload_size)[a - blk] == img[k][32 + (a - blk)]);
}

/// Converting an ELF file carries every byte that its segments load: the byte for address `a`
/// of the last segment with file data that covers `a` is found in the UF2 block that targets the
/// block of `a`, at the offset of `a` in the data of that block.
pub proof fn lemma_image_carries_byte(
    b: Seq<u8>,
    payload_size: u32,
    family_id: Option<u32>,
    i: int,
    a: int,
)
    requires
        b.len() <= usize::MAX,
        conversion(b, payload_size, family_id) is Ok,
        0 <= i < segments_of(b).len(),
        has_file_data(segments_of(b)[i]),
        segments_of(b)[i].paddr <= a < segments_of(b)[i].paddr + segments_of(b)[i].file_size,
        forall|k: int|
            i < k < segments_of(b).len() && has_file_data(#[trigger] segments_of(b)[k]) ==> !(
            segments_of(b)[k].paddr <= a < segments_of(b)[k].paddr + segments_of(b)[k].file_size),
    ensures
        ({
            let img = conversion(b, payload_size, family_id)->Ok_0;
            let blk = block_of(a, payload_size as int);
            let ph = segments_of(b)[i];
            exists|k: int|
                0 <= k < img.len() && decode(Encoding::LittleEndian, #[trigger] img[k].subrange(12, 16))
                    == blk && img[k][32 + (a - blk)] == b[ph.offset + (a - ph.paddr)]
        }),
{
    lemma_conversion_parts(b, payload_size, family_id);
    let (ident, h) = elf_result(b)->Ok_0;
    let phs = segments_of(b);
    lemma_entries_fit(Class::Elf32, ident.encoding, b, h.ph_offset as int, h.ph_count as nat);
    assert forall|k: int| 0 <= k < phs.len() && has_file_data(#[trigger] phs[k]) implies phs[k].offset
        + phs[k].file_size <= b.len() by {
        assert(entry_fits(Class::Elf32, phs[k], b.len() as int));
    }
    lemma_rendered_byte(
        b,
        phs,
        payload_size,
        flags_for(family_id),
        family_word(family_id),
        i,
        a,
    );
}

/// What the segment `ph` of the file `b` gives the image: its physical address, its size in the
/// file and its bytes.
pub open spec fn segment_data(b: Seq<u8>, ph: ProgramHeader) -> (u64, usize, Seq<u8>) {
    (ph.paddr, ph.file_size, b.subrange(ph.offset as int, ph.offset + ph.file_size))
}

/// What the segments `phs` of the file `b` that have file data give the image, in table order.
pub open spec fn data_segments(b: Seq<u8>, phs: Seq<ProgramHeader>) -> Seq<(u64, usize, Seq<u8>)>
    decreases phs.len(),
{
    if phs.len() == 0 {
        Seq::empty()
    } else if has_file_data(phs.last()) {
        data_segments(b, phs.drop_last()).push(segment_data(b, phs.last()))
    } else {
        data_segments(b, phs.drop_last())
    }
}

/// The blocks of `payload` bytes after the segment data `segs` (address, size, bytes) were
/// written one after the other, starting from no blocks; the first error stops it.
pub open spec fn load_data(segs: Seq<(u64, usize, Seq<u8>)>, payload: int) -> Result<
    Map<u32, Seq<u8>>,
    ConverterError,
>
    decreases segs.len(),
{
    if segs.len() == 0 {
        Ok(Map::empty())
    } else {
        match load_data(segs.drop_last(), payload) {
            Err(e) => Err(e),
            Ok(m) => {
                let (paddr, size, bytes) = segs.last();
                if paddr > u32::MAX {
                    Err(ConverterError::InvalidElf { kind: InvalidElfKind::AddressTooLarge(paddr) })
                } else if paddr + size - 1 > u32::MAX {
                    Err(ConverterError::AddressOverflow)
                } else {
                    Ok(write_segment(m, paddr as int, bytes, payload))
                }
            },
        }
    }
}

/// Loading segments depends only on what the segments with file data give: their addresses,
/// sizes and bytes, in table order.
pub proof fn lemma_load_segments_by_data(b: Seq<u8>, phs: Seq<ProgramHeader>, p: int)
    ensures
        load_segments(b, phs, p) == load_data(data_segments(b, phs), p),
    decreases phs.len(),
{
    if phs.len() > 0 {
        lemma_load_segments_by_data(b, phs.drop_last(), p);
        if has_file_data(phs.last()) {
            let segs = data_segments(b, phs);
            assert(segs.drop_last() =~= data_segments(b, phs.drop_last()));
        }
    }
}

/// Two ELF32 executables whose segments with file data give the same addresses, sizes and bytes,
/// in the same order, convert into the same result: nothing else of the files decides the image.
pub proof fn lemma_conversion_decided_by_data(
    b1: Seq<u8>,
    b2: Seq<u8>,
    payload_size: u32,
    family_id: Option<u32>,
)
    requires
        elf_result(b1) is Ok,
        elf_result(b2) is Ok,
        elf_result(b1)->Ok_0.1.file_type == FileType::Exec,
        elf_result(b2)->Ok_0.1.file_type == FileType::Exec,
        elf_result(b1)->Ok_0.0.class == Class::Elf32,
        elf_result(b2)->Ok_0.0.class == Class::Elf32,
        program_headers_result(elf_result(b1)->Ok_0.0, elf_result(b1)->Ok_0.1, b1) is Ok,
        program_headers_result(elf_result(b2)->Ok_0.0, elf_result(b2)->Ok_0.1, b2) is Ok,
        data_segments(b1, segments_of(b1)) == data_segments(b2, segments_of(b2)),
    ensures
        conversion(b1, payload_size, family_id) == conversion(b2, payload_size, family_id),
{
    reveal(conversion);
    lemma_load_segments_by_data(b1, segments_of(b1), payload_size as int);
    lemma_load_segments_by_data(b2, segments_of(b2), payload_size as int);
}

/// Every loadable segment with bytes in the file is converted, whatever its virtual address: for
/// each address `a` that such a segment covers and no later such segment covers, the image holds
/// the segment's file byte for `a` in the block that targets the block of `a`, at the offset of
/// `a` in its data.
pub proof fn lemma_image_holds_segment_bytes(
    b: Seq<u8>,
    payload_size: u32,
    family_id: Option<u32>,
    i: int,
    a: int,
)
    requires
        b.len() <= usize::MAX,
        conversion(b, payload_size, family_id) is Ok,
        0 <= i < segments_of(b).len(),
        segments_of(b)[i].segment_type == SegmentType::Load,
        segments_of(b)[i].file_size > 0,
        segments_of(b)[i].paddr <= a < segments_of(b)[i].paddr + segments_of(b)[i].file_size,
        forall|k: int|
            #![trigger segments_of(b)[k]]
            i < k < segments_of(b).len() && segments_of(b)[k].segment_type == SegmentType::Load
                && segments_of(b)[k].file_size > 0 ==> !(segments_of(b)[k].paddr <= a
                < segments_of(b)[k].paddr + segments_of(b)[k].file_size),
    ensures
        ({
            let img = conversion(b, payload_size, family_id)->Ok_0;
            let blk = block_of(a, payload_size as int);
            let ph = segments_of(b)[i];
            exists|k: int|
                0 <= k < img.len() && decode(Encoding::LittleEndian, #[trigger] img[k].subrange(12, 16))
                    == blk && img[k][32 + (a - blk)] == b[ph.offset + (a - ph.paddr)]
        }),
{
    lemma_image_carries_byte(b, payload_size, family_id, i, a);
}

} // verus!
