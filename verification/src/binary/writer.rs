use vstd::prelude::*;

use super::{decode, encode, lemma_encode_decode, pow256, Encoding};

verus! {

/// One call that changes what a `Writer` holds: `append_u32`, `append_bytes` or `pad_to`.
pub enum WriteOp {
    Word(u32),
    Bytes(Seq<u8>),
    PadTo(usize),
}

/// The bytes `bytes` after the call `op` on a writer of byte order `enc`.
pub open spec fn apply_write(enc: Encoding, bytes: Seq<u8>, op: WriteOp) -> Seq<u8> {
    match op {
        WriteOp::Word(v) => bytes + encode(enc, v as nat, 4),
        WriteOp::Bytes(b) => bytes + b,
        WriteOp::PadTo(len) => if bytes.len() < len {
            bytes + Seq::new((len - bytes.len()) as nat, |i: int| 0u8)
        } else {
            bytes
        },
    }
}

/// The bytes that the calls `ops`, made in order on a new writer of byte order `enc`, leave.
pub open spec fn apply_writes(enc: Encoding, ops: Seq<WriteOp>) -> Seq<u8>
    decreases ops.len(),
{
    if ops.len() == 0 {
        Seq::empty()
    } else {
        apply_write(enc, apply_writes(enc, ops.drop_last()), ops.last())
    }
}

/// Whether the writer `w1` is what the call `op` leaves of the writer `w0`.
pub open spec fn writer_step(w0: Writer, op: WriteOp, w1: Writer) -> bool {
    &&& w1.encoding() == w0.encoding()
    &&& w1.bytes() == apply_write(w0.encoding(), w0.bytes(), op)
}

/// A growable byte buffer that appends integers in a fixed byte order.
pub struct Writer {
    buf: Vec<u8>,
    encoding: Encoding,
}

impl Writer {
    /// The bytes written so far.
    pub closed spec fn bytes(self) -> Seq<u8> {
        self.buf@
    }

    /// The byte order integers are written in.
    pub closed spec fn encoding(self) -> Encoding {
        self.encoding
    }

    /// Starts an empty writer with room reserved for `capacity` bytes.
    pub fn with_capacity(capacity: usize, encoding: Encoding) -> (r: Self)
        ensures
            r.bytes() == Seq::<u8>::empty(),
            r.encoding() == encoding,
    {
        Self { buf: Vec::with_capacity(capacity), encoding }
    }

    /// The number of bytes written so far.
    pub fn len(&self) -> (r: usize)
        ensures
            r == self.bytes().len(),
    {
        self.buf.len()
    }

    /// Whether nothing was written yet.
    pub fn is_empty(&self) -> (r: bool)
        ensures
            r == (self.bytes().len() == 0),
    {
        self.buf.len() == 0
    }

    /// Appends the four bytes of `val` in the writer's byte order.
    pub fn append_u32(&mut self, val: u32)
        requires
            old(self).bytes().len() + 4 <= usize::MAX,
        ensures
            writer_step(*old(self), WriteOp::Word(val), *final(self)),
            final(self).bytes() == old(self).bytes() + encode(old(self).encoding(), val as nat, 4),
            final(self).bytes().len() == old(self).bytes().len() + 4,
            final(self).encoding() == old(self).encoding(),
    {
        let b0 = (val % 256) as u8;
        let v1 = val / 256;
        let b1 = (v1 % 256) as u8;
        let v2 = v1 / 256;
        let b2 = (v2 % 256) as u8;
        let v3 = v2 / 256;
        let b3 = (v3 % 256) as u8;
        let bytes: [u8; 4] = match self.encoding {
            Encoding::LittleEndian => [b0, b1, b2, b3],
            Encoding::BigEndian => [b3, b2, b1, b0],
        };
        proof {
            reveal_with_fuel(super::le_bytes, 5);
            reveal_with_fuel(super::be_bytes, 5);
            assert(v3 / 256 == 0);
            let e = encode(self.encoding, val as nat, 4);
            assert(bytes@ =~= e);
        }
        let ghost before = self.buf@;
        self.buf.extend_from_slice(&bytes);
        assert(self.buf@ =~= before + bytes@);
    }

    /// Appends `bytes` unchanged.
    pub fn append_bytes(&mut self, bytes: &[u8])
        ensures
            writer_step(*old(self), WriteOp::Bytes(bytes@), *final(self)),
            final(self).bytes() == old(self).bytes() + bytes@,
            final(self).encoding() == old(self).encoding(),
    {
        let ghost before = self.buf@;
        self.buf.extend_from_slice(bytes);
        assert(self.buf@ =~= before + bytes@);
    }

    /// Gives up the written bytes.
    pub fn into_bytes(self: Writer) -> (r: Vec<u8>)
        ensures
            r@ == self.bytes(),
    {
        self.buf
    }

    /// Appends zero bytes until `len` bytes are written; does nothing when there already are.
    pub fn pad_to(&mut self, len: usize)
        ensures
            writer_step(*old(self), WriteOp::PadTo(len), *final(self)),
            final(self).encoding() == old(self).encoding(),
            old(self).bytes().len() < len ==> final(self).bytes() == old(self).bytes() + Seq::new(
                (len - old(self).bytes().len()) as nat,
                |i: int| 0u8,
            ),
            old(self).bytes().len() >= len ==> final(self).bytes() == old(self).bytes(),
    {
        if self.buf.len() < len {
            let ghost before = self.buf@;
            self.buf.resize(len, 0);
            assert(self.buf@ =~= before + Seq::new((len - before.len()) as nat, |i: int| 0u8));
        }
    }
}

/// A word appended after the bytes `before` reads back, in the same byte order, as the value
/// that was appended.
pub proof fn lemma_appended_word_reads_back(enc: Encoding, before: Seq<u8>, val: u32)
    ensures
        ({
            let after = before + encode(enc, val as nat, 4);
            &&& after.len() == before.len() + 4
            &&& after.subrange(0, before.len() as int) == before
            &&& decode(enc, after.subrange(before.len() as int, before.len() + 4int)) == val
        }),
{
    reveal_with_fuel(pow256, 5);
    lemma_encode_decode(enc, val as nat, 4);
    let after = before + encode(enc, val as nat, 4);
    assert(after.subrange(0, before.len() as int) =~= before);
    assert(after.subrange(before.len() as int, before.len() + 4int) =~= encode(enc, val as nat, 4));
}

/// A new writer followed by the calls `ops`, one after the other, holds the bytes those calls
/// leave when applied in order to no bytes: writer `ws[i]` is the writer after the first `i`
/// calls, and its bytes, which `into_bytes` hands out, are `apply_writes` of them.
pub proof fn lemma_writes_in_order(ws: Seq<Writer>, ops: Seq<WriteOp>)
    requires
        ws.len() == ops.len() + 1,
        ws[0].bytes() == Seq::<u8>::empty(),
        forall|i: int| #![trigger ops[i]] 0 <= i < ops.len() ==> writer_step(ws[i], ops[i], ws[i + 1]),
    ensures
        forall|i: int|
            #![trigger ws[i]]
            0 <= i < ws.len() ==> ws[i].encoding() == ws[0].encoding() && ws[i].bytes()
                == apply_writes(ws[0].encoding(), ops.take(i)),
    decreases ops.len(),
{
    if ops.len() > 0 {
        let n = ops.len() - 1;
        lemma_writes_in_order(ws.take(ws.len() - 1), ops.take(n));
        assert forall|i: int| #![trigger ws[i]] 0 <= i < ws.len() implies ws[i].encoding()
            == ws[0].encoding() && ws[i].bytes() == apply_writes(ws[0].encoding(), ops.take(i)) by {
            if i < ws.len() - 1 {
                assert(ws.take(ws.len() - 1)[i] == ws[i]);
                assert(ops.take(n).take(i) =~= ops.take(i));
            } else {
                assert(ws.take(ws.len() - 1)[n] == ws[n]);
                assert(ops.take(n).take(n) =~= ops.take(n));
                assert(ops[n] == ops.last());
                assert(writer_step(ws[n], ops[n], ws[n + 1]));
                assert(ops.take(i).drop_last() =~= ops.take(n));
                assert(ops.take(i) =~= ops);
            }
        }
    }
}

} // verus!
