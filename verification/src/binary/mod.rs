use vstd::prelude::*;

mod error;
mod reader;
mod writer;

pub use error::BinaryError;
pub use reader::{advance_error, ByteReader, Reader};
pub use writer::{
    apply_write, apply_writes, lemma_appended_word_reads_back, lemma_writes_in_order, writer_step,
    WriteOp, Writer,
};

verus! {

/// Byte order of multi-byte integers.
#[derive(Debug, Copy, Clone, PartialEq, Eq, Structural)]
pub enum Encoding {
    LittleEndian,
    BigEndian,
}

/// Value of `b` read as an unsigned little-endian number.
pub open spec fn le_value(b: Seq<u8>) -> nat
    decreases b.len(),
{
    if b.len() == 0 {
        0
    } else {
        (b[0] + 256 * le_value(b.drop_first())) as nat
    }
}

/// Value of `b` read as an unsigned big-endian number.
pub open spec fn be_value(b: Seq<u8>) -> nat
    decreases b.len(),
{
    if b.len() == 0 {
        0
    } else {
        (be_value(b.drop_last()) * 256 + b.last()) as nat
    }
}

/// Value of `b` read as an unsigned number in byte order `enc`.
pub open spec fn decode(enc: Encoding, b: Seq<u8>) -> nat {
    match enc {
        Encoding::LittleEndian => le_value(b),
        Encoding::BigEndian => be_value(b),
    }
}

/// The `n` low-order bytes of `v`, least significant first.
pub open spec fn le_bytes(v: nat, n: nat) -> Seq<u8>
    decreases n,
{
    if n == 0 {
        Seq::empty()
    } else {
        seq![(v % 256) as u8] + le_bytes(v / 256, (n - 1) as nat)
    }
}

/// The `n` low-order bytes of `v`, most significant first.
pub open spec fn be_bytes(v: nat, n: nat) -> Seq<u8>
    decreases n,
{
    if n == 0 {
        Seq::empty()
    } else {
        be_bytes(v / 256, (n - 1) as nat) + seq![(v % 256) as u8]
    }
}

/// The `n` low-order bytes of `v` in byte order `enc`.
pub open spec fn encode(enc: Encoding, v: nat, n: nat) -> Seq<u8> {
    match enc {
        Encoding::LittleEndian => le_bytes(v, n),
        Encoding::BigEndian => be_bytes(v, n),
    }
}

proof fn lemma_decode2(b: Seq<u8>)
    requires
        b.len() == 2,
    ensures
        le_value(b) == b[0] + 256 * b[1],
        be_value(b) == b[0] * 256 + b[1],
{
    reveal_with_fuel(le_value, 3);
    reveal_with_fuel(be_value, 3);
    assert(b.drop_first().drop_first().len() == 0);
    assert(b.drop_last().drop_last().len() == 0);
}

proof fn lemma_decode4(b: Seq<u8>)
    requires
        b.len() == 4,
    ensures
        le_value(b) == b[0] + 256 * b[1] + 65536 * b[2] + 16777216 * b[3],
        be_value(b) == b[0] * 16777216 + b[1] * 65536 + b[2] * 256 + b[3],
{
    reveal_with_fuel(le_value, 5);
    reveal_with_fuel(be_value, 5);
    let l1 = b.drop_first();
    let l2 = l1.drop_first();
    let l3 = l2.drop_first();
    assert(l3.drop_first().len() == 0);
    let r1 = b.drop_last();
    let r2 = r1.drop_last();
    let r3 = r2.drop_last();
    assert(r3.drop_last().len() == 0);
}

proof fn lemma_decode8(b: Seq<u8>)
    requires
        b.len() == 8,
    ensures
        le_value(b) == b[0] + 0x100 * b[1] + 0x10000 * b[2] + 0x1000000 * b[3] + 0x100000000
            * b[4] + 0x10000000000 * b[5] + 0x1000000000000 * b[6] + 0x100000000000000 * b[7],
        be_value(b) == b[7] + 0x100 * b[6] + 0x10000 * b[5] + 0x1000000 * b[4] + 0x100000000
            * b[3] + 0x10000000000 * b[2] + 0x1000000000000 * b[1] + 0x100000000000000 * b[0],
{
    let lo = b.subrange(0, 4);
    let hi = b.subrange(4, 8);
    lemma_decode4(hi);
    lemma_decode4(lo);
    lemma_le_split(b, 4);
    lemma_be_split(b, 4);
    reveal_with_fuel(pow256, 5);
    assert(pow256(4) == 0x100000000);
    assert(lo[0] == b[0] && lo[1] == b[1] && lo[2] == b[2] && lo[3] == b[3]);
    assert(hi[0] == b[4] && hi[1] == b[5] && hi[2] == b[6] && hi[3] == b[7]);
    assert(b.subrange(4, b.len() as int) == hi);
    assert((b.len() - 4) as nat == 4);
    let l = le_value(lo);
    let h = le_value(hi);
    assert(le_value(b) == l + 0x100000000 * h);
    let bl = be_value(lo);
    let bh = be_value(hi);
    assert(be_value(b) == bl * 0x100000000 + bh);
    assert(h == b[4] + 256 * b[5] + 65536 * b[6] + 16777216 * b[7]);
    assert(l == b[0] + 256 * b[1] + 65536 * b[2] + 16777216 * b[3]);
    assert(bh == b[4] * 16777216 + b[5] * 65536 + b[6] * 256 + b[7]);
    assert(bl == b[0] * 16777216 + b[1] * 65536 + b[2] * 256 + b[3]);
    let (b0, b1, b2, b3, b4, b5, b6, b7) = (
        b[0] as int,
        b[1] as int,
        b[2] as int,
        b[3] as int,
        b[4] as int,
        b[5] as int,
        b[6] as int,
        b[7] as int,
    );
    let lv = le_value(b) as int;
    let bv = be_value(b) as int;
    assert(lv == b0 + 0x100 * b1 + 0x10000 * b2 + 0x1000000 * b3 + 0x100000000 * b4 + 0x10000000000
        * b5 + 0x1000000000000 * b6 + 0x100000000000000 * b7) by (nonlinear_arith)
        requires
            lv == l + 0x100000000 * h,
            h == b4 + 256 * b5 + 65536 * b6 + 16777216 * b7,
            l == b0 + 256 * b1 + 65536 * b2 + 16777216 * b3,
    ;
    assert(bv == b7 + 0x100 * b6 + 0x10000 * b5 + 0x1000000 * b4 + 0x100000000 * b3 + 0x10000000000
        * b2 + 0x1000000000000 * b1 + 0x100000000000000 * b0) by (nonlinear_arith)
        requires
            bv == bl * 0x100000000 + bh,
            bh == b4 * 16777216 + b5 * 65536 + b6 * 256 + b7,
            bl == b0 * 16777216 + b1 * 65536 + b2 * 256 + b3,
    ;
}

/// Little-endian value of a concatenation splits at any index.
pub proof fn lemma_le_split(b: Seq<u8>, k: int)
    requires
        0 <= k <= b.len(),
    ensures
        le_value(b) == le_value(b.subrange(0, k)) + pow256(k as nat) * le_value(
            b.subrange(k, b.len() as int),
        ),
    decreases k,
{
    if k == 0 {
        assert(b.subrange(0, b.len() as int) =~= b);
        assert(le_value(b.subrange(0, 0)) == 0);
        let x = le_value(b.subrange(k, b.len() as int));
        assert(x == le_value(b));
        assert(pow256(k as nat) == 1);
        assert(pow256(k as nat) * x == x);
    } else {
        let b1 = b.drop_first();
        lemma_le_split(b1, k - 1);
        let head = b.subrange(0, k);
        assert(b1.subrange(0, k - 1) =~= head.drop_first());
        assert(b1.subrange(k - 1, b1.len() as int) =~= b.subrange(k, b.len() as int));
        let x = le_value(b.subrange(k, b.len() as int));
        let y = le_value(b1.subrange(0, k - 1));
        assert(le_value(head) == head[0] + 256 * y);
        assert(le_value(b) == b[0] + 256 * le_value(b1));
        assert(pow256(k as nat) == 256 * pow256((k - 1) as nat));
        assert(256 * (y + pow256((k - 1) as nat) * x) == 256 * y + pow256(k as nat) * x)
            by (nonlinear_arith)
            requires
                pow256(k as nat) == 256 * pow256((k - 1) as nat),
        ;
        assert(le_value(b1) == y + pow256((k - 1) as nat) * x);
        assert(head[0] == b[0]);
        assert(le_value(b) == le_value(head) + pow256(k as nat) * x);
    }
}

/// Big-endian value of a concatenation splits at any index.
pub proof fn lemma_be_split(b: Seq<u8>, k: int)
    requires
        0 <= k <= b.len(),
    ensures
        be_value(b) == be_value(b.subrange(0, k)) * pow256((b.len() - k) as nat) + be_value(
            b.subrange(k, b.len() as int),
        ),
    decreases b.len() - k,
{
    if k == b.len() {
        assert(b.subrange(0, k) =~= b);
        assert(be_value(b.subrange(k, k)) == 0);
        let x = be_value(b.subrange(0, k));
        assert(x == be_value(b));
        assert(pow256((b.len() - k) as nat) == 1);
        assert(x * pow256((b.len() - k) as nat) == x);
    } else {
        let b1 = b.drop_last();
        lemma_be_split(b1, k);
        let tail = b.subrange(k, b.len() as int);
        assert(b1.subrange(0, k) =~= b.subrange(0, k));
        assert(b1.subrange(k, b1.len() as int) =~= tail.drop_last());
        let x = be_value(b.subrange(0, k));
        let y = be_value(b1.subrange(k, b1.len() as int));
        let n = (b.len() - k) as nat;
        assert(be_value(tail) == y * 256 + tail.last());
        assert(be_value(b) == be_value(b1) * 256 + b.last());
        assert(pow256(n) == 256 * pow256((n - 1) as nat));
        assert((x * pow256((n - 1) as nat) + y) * 256 == x * pow256(n) + y * 256)
            by (nonlinear_arith)
            requires
                pow256(n) == 256 * pow256((n - 1) as nat),
        ;
        assert(be_value(b1) == x * pow256((n - 1) as nat) + y);
        assert(tail.last() == b.last());
        assert(be_value(b) == x * pow256(n) + be_value(tail));
    }
}

/// Writing the `n` low bytes of a value below `256^n` and reading them back in the same byte
/// order gives the value again; the written bytes are exactly `n` long.
pub proof fn lemma_encode_decode(enc: Encoding, v: nat, n: nat)
    requires
        v < pow256(n),
    ensures
        encode(enc, v, n).len() == n,
        decode(enc, encode(enc, v, n)) == v,
    decreases n,
{
    if n > 0 {
        let q = v / 256;
        assert(q < pow256((n - 1) as nat)) by (nonlinear_arith)
            requires
                v < 256 * pow256((n - 1) as nat),
                q == v / 256,
        ;
        lemma_encode_decode(enc, q, (n - 1) as nat);
        let lo = seq![(v % 256) as u8];
        match enc {
            Encoding::LittleEndian => {
                let s = lo + le_bytes(q, (n - 1) as nat);
                assert(s.drop_first() =~= le_bytes(q, (n - 1) as nat));
                assert(le_value(s) == (v % 256) + 256 * q);
            },
            Encoding::BigEndian => {
                let s = be_bytes(q, (n - 1) as nat) + lo;
                assert(s.drop_last() =~= be_bytes(q, (n - 1) as nat));
                assert(be_value(s) == q * 256 + (v % 256));
            },
        }
    } else {
        assert(v == 0);
    }
}

/// A number read from `n` bytes, in either byte order, is below `256^n`.
pub proof fn lemma_decode_bound(enc: Encoding, b: Seq<u8>)
    ensures
        decode(enc, b) < pow256(b.len()),
    decreases b.len(),
{
    if b.len() > 0 {
        match enc {
            Encoding::LittleEndian => {
                lemma_decode_bound(enc, b.drop_first());
                assert(b.drop_first().len() == (b.len() - 1) as nat);
            },
            Encoding::BigEndian => {
                lemma_decode_bound(enc, b.drop_last());
                assert(b.drop_last().len() == (b.len() - 1) as nat);
            },
        }
    }
}

/// `256` raised to the power `n`.
pub open spec fn pow256(n: nat) -> nat
    decreases n,
{
    if n == 0 {
        1
    } else {
        256 * pow256((n - 1) as nat)
    }
}

impl Encoding {
    /// The name of this byte order.
    pub open spec fn text(&self) -> Seq<char> {
        match *self {
            Encoding::LittleEndian => "Little Endian"@,
            Encoding::BigEndian => "Big Endian"@,
        }
    }

    /// Writes the name of this byte order.
    pub fn describe(&self) -> (r: String)
        ensures
            r@ == self.text(),
    {
        match self {
            Encoding::LittleEndian => "Little Endian".to_owned(),
            Encoding::BigEndian => "Big Endian".to_owned(),
        }
    }

    /// Reads a 16-bit unsigned integer from two bytes in this byte order.
    pub fn u16_from_bytes(self, bytes: [u8; 2]) -> (r: u16)
        ensures
            r == decode(self, bytes@),
    {
        proof {
            lemma_decode2(bytes@);
        }
        match self {
            Self::LittleEndian => (bytes[0] as u16) + (bytes[1] as u16) * 256,
            Self::BigEndian => (bytes[0] as u16) * 256 + (bytes[1] as u16),
        }
    }

    /// Reads a 32-bit unsigned integer from four bytes in this byte order.
    pub fn u32_from_bytes(self, bytes: [u8; 4]) -> (r: u32)
        ensures
            r == decode(self, bytes@),
    {
        proof {
            lemma_decode4(bytes@);
        }
        let b0 = bytes[0] as u32;
        let b1 = bytes[1] as u32;
        let b2 = bytes[2] as u32;
        let b3 = bytes[3] as u32;
        match self {
            Self::LittleEndian => b0 + b1 * 0x100 + b2 * 0x10000 + b3 * 0x1000000,
            Self::BigEndian => b3 + b2 * 0x100 + b1 * 0x10000 + b0 * 0x1000000,
        }
    }

    /// Reads a 64-bit unsigned integer from eight bytes in this byte order.
    pub fn u64_from_bytes(self, bytes: [u8; 8]) -> (r: u64)
        ensures
            r == decode(self, bytes@),
    {
        proof {
            lemma_decode8(bytes@);
        }
        let b0 = bytes[0] as u64;
        let b1 = bytes[1] as u64;
        let b2 = bytes[2] as u64;
        let b3 = bytes[3] as u64;
        let b4 = bytes[4] as u64;
        let b5 = bytes[5] as u64;
        let b6 = bytes[6] as u64;
        let b7 = bytes[7] as u64;
        match self {
            Self::LittleEndian => b0 + b1 * 0x100 + b2 * 0x10000 + b3 * 0x1000000 + b4
                * 0x100000000 + b5 * 0x10000000000 + b6 * 0x1000000000000 + b7
                * 0x100000000000000,
            Self::BigEndian => b7 + b6 * 0x100 + b5 * 0x10000 + b4 * 0x1000000 + b3
                * 0x100000000 + b2 * 0x10000000000 + b1 * 0x1000000000000 + b0
                * 0x100000000000000,
        }
    }
}

} // verus!
