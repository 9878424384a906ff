use vstd::prelude::*;

use vstd::string::StringExecFns;

use crate::binary::{decode, encode, lemma_encode_decode, pow256, Encoding, Writer};
use crate::text::{append_number, dec};

verus! {

/// The flags word that marks the family ID field as present.
pub const FAMILY_ID_PRESENT_FLAG: u32 = 0x00002000;

/// Length of one UF2 block.
pub const BLOCK_SIZE: usize = 512;

/// The first magic word of every UF2 block.
pub const MAGIC_START0: u32 = 0x0a324655;

/// The second magic word of every UF2 block.
pub const MAGIC_START1: u32 = 0x9e5d5157;

/// The magic word that closes every UF2 block.
pub const MAGIC_END: u32 = 0x0ab16f30;

/// The largest payload one UF2 block can carry.
pub const MAX_DATA_SIZE: usize = 476;

/// The four little-endian bytes of `v`.
pub open spec fn word(v: u32) -> Seq<u8> {
    encode(Encoding::LittleEndian, v as nat, 4)
}

/// The 512 bytes of a UF2 block: eight header words, `data`, zero padding up to byte 508, and the
/// closing magic word.
pub open spec fn uf2_block(
    flags: u32,
    addr: u32,
    payload_size: u32,
    block_num: u32,
    block_count: u32,
    family_id: u32,
    data: Seq<u8>,
) -> Seq<u8> {
    word(MAGIC_START0) + word(MAGIC_START1) + word(flags) + word(addr) + word(payload_size) + word(
        block_num,
    ) + word(block_count) + word(family_id) + data + Seq::new(
        (MAX_DATA_SIZE - data.len()) as nat,
        |i: int| 0u8,
    ) + word(MAGIC_END)
}

/// Builds the UF2 blocks of one image: every block carries the same payload size, block count
/// and family ID.
pub struct Uf2 {
    flags: u32,
    payload_size: u32,
    block_count: u32,
    family_id: u32,
}

/// Why a UF2 block could not be built.
#[derive(Debug)]
pub enum Uf2Error {
    /// A field holds a value that is not allowed.
    InvalidField { field: &'static str, kind: FieldErrorKind },
    /// The data of a block is longer than the payload size.
    InvalidDataSize { found: usize, expected: usize },
}

/// What is wrong with a UF2 field.
#[derive(Debug)]
pub enum FieldErrorKind {
    Zero,
    NotAligned { align: u32 },
    OutOfRange { min: u32, max: u32 },
}

impl FieldErrorKind {
    /// The message of this kind of field error.
    pub open spec fn text(&self) -> Seq<char> {
        match *self {
            FieldErrorKind::Zero => "must not be zero"@,
            FieldErrorKind::NotAligned { align } => "must be aligned to "@ + dec(align as nat),
            FieldErrorKind::OutOfRange { min, max } => "must be between "@ + dec(min as nat)
                + " and "@ + dec(max as nat),
        }
    }

    /// Writes the message of this kind of field error.
    pub fn describe(&self) -> (r: String)
        ensures
            r@ == self.text(),
    {
        let mut s = String::new();
        match self {
            FieldErrorKind::Zero => s.append("must not be zero"),
            FieldErrorKind::NotAligned { align } => {
                s.append("must be aligned to ");
                append_number(&mut s, *align as u64, 10, false);
            },
            FieldErrorKind::OutOfRange { min, max } => {
                s.append("must be between ");
                append_number(&mut s, *min as u64, 10, false);
                s.append(" and ");
                append_number(&mut s, *max as u64, 10, false);
            },
        }
        assert(s@ =~= self.text());
        s
    }
}

impl Uf2Error {
    /// The message of this error.
    pub open spec fn text(&self) -> Seq<char> {
        match *self {
            Uf2Error::InvalidField { field, kind } => "'"@ + field@ + "' is invalid: "@ + kind.text(),
            Uf2Error::InvalidDataSize { found, expected } => "invalid data size: got "@ + dec(
                found as nat,
            ) + ", must be <= "@ + dec(expected as nat),
        }
    }

    /// Writes the message of this error.
    pub fn describe(&self) -> (r: String)
        ensures
            r@ == self.text(),
    {
        let mut s = String::new();
        match self {
            Uf2Error::InvalidField { field, kind } => {
                s.append("'");
                s.append(field);
                s.append("' is invalid: ");
                let k = kind.describe();
                s.append(k.as_str());
            },
            Uf2Error::InvalidDataSize { found, expected } => {
                s.append("invalid data size: got ");
                append_number(&mut s, *found as u64, 10, false);
                s.append(", must be <= ");
                append_number(&mut s, *expected as u64, 10, false);
            },
        }
        assert(s@ =~= self.text());
        s
    }
}

/// The error `Uf2::new` gives for these settings, if any.
pub open spec fn uf2_settings_check(payload_size: u32, block_count: u32) -> Result<(), Uf2Error> {
    if payload_size == 0 || payload_size > MAX_DATA_SIZE {
        Err(
            Uf2Error::InvalidField {
                field: "payload size",
                kind: FieldErrorKind::OutOfRange { min: 1, max: MAX_DATA_SIZE as u32 },
            },
        )
    } else if payload_size % 4 != 0 {
        Err(
            Uf2Error::InvalidField {
                field: "payload size",
                kind: FieldErrorKind::NotAligned { align: 4 },
            },
        )
    } else if block_count == 0 {
        Err(Uf2Error::InvalidField { field: "block count", kind: FieldErrorKind::Zero })
    } else {
        Ok(())
    }
}

/// The UF2 settings are accepted exactly when the payload size is from 1 to 476 and a multiple of
/// 4 and there is at least one block; a refused payload size is reported before the block count,
/// a size out of range before a misaligned one.
pub proof fn lemma_uf2_settings(payload_size: u32, block_count: u32)
    ensures
        uf2_settings_check(payload_size, block_count) is Ok <==> (1 <= payload_size <= 476
            && payload_size % 4 == 0 && block_count > 0),
        !(1 <= payload_size <= 476) ==> uf2_settings_check(payload_size, block_count) == Err::<
            (),
            Uf2Error,
        >(
            Uf2Error::InvalidField {
                field: "payload size",
                kind: FieldErrorKind::OutOfRange { min: 1, max: 476 },
            },
        ),
        1 <= payload_size <= 476 && payload_size % 4 != 0 ==> uf2_settings_check(
            payload_size,
            block_count,
        ) == Err::<(), Uf2Error>(
            Uf2Error::InvalidField {
                field: "payload size",
                kind: FieldErrorKind::NotAligned { align: 4 },
            },
        ),
{
}

impl Uf2 {
    #[verifier::type_invariant]
    spec fn settings_valid(self) -> bool {
        &&& uf2_settings_check(self.payload_size, self.block_count) is Ok
        &&& self.flags == 0 ==> self.family_id == 0
        &&& self.flags == 0 || self.flags == FAMILY_ID_PRESENT_FLAG
    }

    /// The flags word of every block.
    pub closed spec fn flags(&self) -> u32 {
        self.flags
    }

    /// The payload size of every block.
    pub closed spec fn payload_size(&self) -> u32 {
        self.payload_size
    }

    /// The number of blocks of the image.
    pub closed spec fn block_count(&self) -> u32 {
        self.block_count
    }

    /// The family ID word of every block.
    pub closed spec fn family_id(&self) -> u32 {
        self.family_id
    }

    /// Checks the settings of an image of `block_count` blocks of `payload_size` bytes; the
    /// family ID, when given, is written into every block and flagged.
    pub fn new(payload_size: u32, block_count: u32, family_id: Option<u32>) -> (r: Result<
        Self,
        Uf2Error,
    >)
        ensures
            r matches Err(e) ==> uf2_settings_check(payload_size, block_count) == Err::<(), Uf2Error>(e),
            r matches Ok(u) ==> {
                &&& uf2_settings_check(payload_size, block_count) is Ok
                &&& u.payload_size() == payload_size
                &&& u.block_count() == block_count
                &&& u.flags() == (if family_id is Some {
                    FAMILY_ID_PRESENT_FLAG
                } else {
                    0
                })
                &&& u.family_id() == (match family_id {
                    Some(id) => id,
                    None => 0,
                })
            },
            uf2_settings_check(payload_size, block_count) is Ok ==> r is Ok,
            r is Ok <==> (1 <= payload_size <= 476 && payload_size % 4 == 0 && block_count > 0),
    {
        proof {
            lemma_uf2_settings(payload_size, block_count);
        }
        if payload_size == 0 || payload_size > MAX_DATA_SIZE as u32 {
            return Err(
                Uf2Error::InvalidField {
                    field: "payload size",
                    kind: FieldErrorKind::OutOfRange { min: 1, max: MAX_DATA_SIZE as u32 },
                },
            );
        }

        if payload_size % 4 != 0 {
            return Err(
                Uf2Error::InvalidField {
                    field: "payload size",
                    kind: FieldErrorKind::NotAligned { align: 4 },
                },
            );
        }

        if block_count == 0 {
            return Err(Uf2Error::InvalidField { field: "block count", kind: FieldErrorKind::Zero });
        }

        let (flags, family_id) = match family_id {
            None => (0, 0),
            Some(id) => (FAMILY_ID_PRESENT_FLAG, id),
        };

        Ok(Self { flags, payload_size, block_count, family_id })
    }

    /// Renders block `block_num` of the image, which carries `data` for address `addr`.
    pub fn create_block(&self, addr: u32, block_num: u32, data: &[u8]) -> (r: Result<
        Vec<u8>,
        Uf2Error,
    >)
        ensures
            data@.len() > self.payload_size() ==> r == Err::<Vec<u8>, Uf2Error>(
                Uf2Error::InvalidDataSize {
                    found: data@.len() as usize,
                    expected: self.payload_size() as usize,
                },
            ),
            data@.len() <= self.payload_size() && block_num >= self.block_count() ==> r == Err::<
                Vec<u8>,
                Uf2Error,
            >(
                Uf2Error::InvalidField {
                    field: "block number",
                    kind: FieldErrorKind::OutOfRange { min: 0, max: (self.block_count() - 1) as u32 },
                },
            ),
            data@.len() <= self.payload_size() && block_num < self.block_count() ==> (r matches Ok(
                b,
            ) && b@ == uf2_block(
                self.flags(),
                addr,
                self.payload_size(),
                block_num,
                self.block_count(),
                self.family_id(),
                data@,
            )),
    {
        proof {
            use_type_invariant(self);
        }
        if data.len() > self.payload_size as usize {
            return Err(
                Uf2Error::InvalidDataSize { found: data.len(), expected: self.payload_size as usize },
            );
        }

        if block_num >= self.block_count {
            return Err(
                Uf2Error::InvalidField {
                    field: "block number",
                    kind: FieldErrorKind::OutOfRange { min: 0, max: self.block_count - 1 },
                },
            );
        }

        let mut writer = Writer::with_capacity(BLOCK_SIZE, Encoding::LittleEndian);

        writer.append_u32(MAGIC_START0);
        writer.append_u32(MAGIC_START1);
        writer.append_u32(self.flags);
        writer.append_u32(addr);
        writer.append_u32(self.payload_size);
        writer.append_u32(block_num);
        writer.append_u32(self.block_count);
        writer.append_u32(self.family_id);
        writer.append_bytes(data);
        writer.pad_to(BLOCK_SIZE - 4);
        writer.append_u32(MAGIC_END);

        proof {
            lemma_word_len(MAGIC_START0);
            lemma_word_len(MAGIC_START1);
            lemma_word_len(self.flags);
            lemma_word_len(addr);
            lemma_word_len(self.payload_size);
            lemma_word_len(block_num);
            lemma_word_len(self.block_count);
            lemma_word_len(self.family_id);
            lemma_word_len(MAGIC_END);
            assert(writer.bytes() =~= uf2_block(
                self.flags,
                addr,
                self.payload_size,
                block_num,
                self.block_count,
                self.family_id,
                data@,
            ));
        }
        Ok(writer.into_bytes())
    }
}

proof fn lemma_word_len(v: u32)
    ensures
        word(v).len() == 4,
{
    reveal_with_fuel(crate::binary::le_bytes, 5);
}

/// A word of a UF2 block reads back as the value written into it.
proof fn lemma_word_value(v: u32)
    ensures
        word(v).len() == 4,
        decode(Encoding::LittleEndian, word(v)) == v,
{
    reveal_with_fuel(pow256, 5);
    lemma_encode_decode(Encoding::LittleEndian, v as nat, 4);
}

/// Every UF2 block is 512 bytes long: the two start magic words, then the flags, target address,
/// payload size, block number, block count and family ID, each a little-endian word that reads
/// back as the value written, then the data, zeros up to byte 508, and the end magic word.
pub proof fn lemma_uf2_block_layout(
    flags: u32,
    addr: u32,
    payload_size: u32,
    block_num: u32,
    block_count: u32,
    family_id: u32,
    data: Seq<u8>,
)
    requires
        data.len() <= MAX_DATA_SIZE,
    ensures
        ({
            let blk = uf2_block(flags, addr, payload_size, block_num, block_count, family_id, data);
            &&& blk.len() == BLOCK_SIZE
            &&& decode(Encoding::LittleEndian, blk.subrange(0, 4)) == MAGIC_START0
            &&& decode(Encoding::LittleEndian, blk.subrange(4, 8)) == MAGIC_START1
            &&& decode(Encoding::LittleEndian, blk.subrange(8, 12)) == flags
            &&& decode(Encoding::LittleEndian, blk.subrange(12, 16)) == addr
            &&& decode(Encoding::LittleEndian, blk.subrange(16, 20)) == payload_size
            &&& decode(Encoding::LittleEndian, blk.subrange(20, 24)) == block_num
            &&& decode(Encoding::LittleEndian, blk.subrange(24, 28)) == block_count
            &&& decode(Encoding::LittleEndian, blk.subrange(28, 32)) == family_id
            &&& blk.subrange(32, 32 + data.len() as int) == data
            &&& forall|j: int| 32 + data.len() <= j < 508 ==> blk[j] == 0
            &&& decode(Encoding::LittleEndian, blk.subrange(508, 512)) == MAGIC_END
        }),
{
    lemma_word_value(MAGIC_START0);
    lemma_word_value(MAGIC_START1);
    lemma_word_value(flags);
    lemma_word_value(addr);
    lemma_word_value(payload_size);
    lemma_word_value(block_num);
    lemma_word_value(block_count);
    lemma_word_value(family_id);
    lemma_word_value(MAGIC_END);
    let blk = uf2_block(flags, addr, payload_size, block_num, block_count, family_id, data);
    let zeros = Seq::new((MAX_DATA_SIZE - data.len()) as nat, |i: int| 0u8);
    assert(blk.len() == 512);
    assert(blk.subrange(0, 4) =~= word(MAGIC_START0));
    assert(blk.subrange(4, 8) =~= word(MAGIC_START1));
    assert(blk.subrange(8, 12) =~= word(flags));
    assert(blk.subrange(12, 16) =~= word(addr));
    assert(blk.subrange(16, 20) =~= word(payload_size));
    assert(blk.subrange(20, 24) =~= word(block_num));
    assert(blk.subrange(24, 28) =~= word(block_count));
    assert(blk.subrange(28, 32) =~= word(family_id));
    assert(blk.subrange(32, 32 + data.len() as int) =~= data);
    assert forall|j: int| 32 + data.len() <= j < 508 implies blk[j] == 0 by {
        assert(blk[j] == zeros[j - 32 - data.len()]);
    }
    assert(blk.subrange(508, 512) =~= word(MAGIC_END));
}

} // verus!
