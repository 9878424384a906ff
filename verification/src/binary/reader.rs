use vstd::prelude::*;

use super::{decode, BinaryError, Encoding};

verus! {

/// A cursor over a borrowed byte buffer.
pub struct ByteReader<'a> {
    buf: &'a [u8],
    cursor: usize,
}

/// The error that moving a cursor at `pos` by `n` bytes over a buffer of `len` bytes gives,
/// when the move does not fit.
pub open spec fn advance_error(pos: usize, n: usize, len: usize) -> BinaryError {
    if pos + n > usize::MAX {
        BinaryError::CursorOverflow { position: pos, added: n }
    } else {
        BinaryError::OutOfBounds { needed: n, position: pos, buf_len: len }
    }
}

impl<'a> ByteReader<'a> {
    #[verifier::type_invariant]
    spec fn cursor_in_buffer(self) -> bool {
        self.cursor <= self.buf@.len()
    }

    /// The bytes the reader walks over.
    pub closed spec fn data(self) -> Seq<u8> {
        self.buf@
    }

    /// The position of the cursor.
    pub closed spec fn pos(self) -> usize {
        self.cursor
    }

    /// Starts a reader at the first byte of `buf`.
    pub fn new(buf: &'a [u8]) -> (r: Self)
        ensures
            r.data() == buf@,
            r.pos() == 0,
    {
        Self { buf, cursor: 0 }
    }

    /// The length of the whole buffer.
    pub fn len(&self) -> (r: usize)
        ensures
            r == self.data().len(),
            self.pos() <= self.data().len(),
    {
        proof {
            use_type_invariant(self);
        }
        self.buf.len()
    }

    /// Whether no byte is left after the cursor.
    pub fn is_empty(&self) -> (r: bool)
        ensures
            r == (self.pos() == self.data().len()),
            self.pos() <= self.data().len(),
    {
        self.remaining() == 0
    }

    /// The number of bytes after the cursor.
    pub fn remaining(&self) -> (r: usize)
        ensures
            r == self.data().len() - self.pos(),
            self.pos() <= self.data().len(),
    {
        proof {
            use_type_invariant(self);
        }
        self.buf.len().saturating_sub(self.cursor)
    }

    /// Reads one byte and moves past it.
    pub fn read(&mut self) -> (r: Result<u8, BinaryError>)
        ensures
            final(self).data() == old(self).data(),
            final(self).pos() <= final(self).data().len(),
            old(self).pos() < old(self).data().len() ==> r == Ok::<u8, BinaryError>(
                old(self).data()[old(self).pos() as int],
            ) && final(self).pos() == old(self).pos() + 1,
            old(self).pos() >= old(self).data().len() ==> r == Err::<u8, BinaryError>(
                advance_error(old(self).pos(), 1, old(self).data().len() as usize),
            ) && final(self).pos() == old(self).pos(),
    {
        let arr = self.read_array::<1>()?;
        Ok(arr[0])
    }

    fn advance(&mut self, n: usize) -> (r: Result<usize, BinaryError>)
        ensures
            final(self).data() == old(self).data(),
            final(self).pos() <= final(self).data().len(),
            old(self).pos() + n <= old(self).data().len() ==> r == Ok::<usize, BinaryError>(
                old(self).pos(),
            ) && final(self).pos() == old(self).pos() + n,
            old(self).pos() + n > old(self).data().len() ==> r == Err::<usize, BinaryError>(
                advance_error(old(self).pos(), n, old(self).data().len() as usize),
            ) && final(self).pos() == old(self).pos(),
    {
        proof {
            use_type_invariant(&*self);
        }
        let buf_len = self.buf.len();
        let end = match self.cursor.checked_add(n) {
            Some(end) => end,
            None => {
                return Err(BinaryError::CursorOverflow { position: self.cursor, added: n });
            },
        };
        if end > self.len() {
            return Err(
                BinaryError::OutOfBounds { needed: n, position: self.cursor, buf_len: self.len() },
            );
        }
        let start = self.cursor;
        self.cursor = end;
        Ok(start)
    }

    /// Moves the cursor `n` bytes forward.
    pub fn skip(&mut self, n: usize) -> (r: Result<(), BinaryError>)
        ensures
            final(self).data() == old(self).data(),
            final(self).pos() <= final(self).data().len(),
            old(self).pos() + n <= old(self).data().len() ==> r is Ok && final(self).pos()
                == old(self).pos() + n,
            old(self).pos() + n > old(self).data().len() ==> r == Err::<(), BinaryError>(
                advance_error(old(self).pos(), n, old(self).data().len() as usize),
            ) && final(self).pos() == old(self).pos(),
    {
        self.advance(n)?;
        Ok(())
    }

    /// Moves the cursor to `pos`.
    pub fn seek(&mut self, pos: usize) -> (r: Result<(), BinaryError>)
        ensures
            final(self).data() == old(self).data(),
            final(self).pos() <= final(self).data().len(),
            pos <= old(self).data().len() ==> r is Ok && final(self).pos() == pos,
            pos > old(self).data().len() ==> r == Err::<(), BinaryError>(
                BinaryError::OutOfBounds {
                    needed: 0,
                    position: old(self).pos(),
                    buf_len: old(self).data().len() as usize,
                },
            ) && final(self).pos() == old(self).pos(),
    {
        proof {
            use_type_invariant(&*self);
        }
        if pos > self.buf.len() {
            return Err(
                BinaryError::OutOfBounds {
                    needed: 0,
                    position: self.cursor,
                    buf_len: self.buf.len(),
                },
            );
        }
        self.cursor = pos;
        Ok(())
    }

    /// Reads the next `len` bytes and moves past them.
    pub fn read_bytes(&mut self, len: usize) -> (r: Result<&'a [u8], BinaryError>)
        ensures
            final(self).data() == old(self).data(),
            final(self).pos() <= final(self).data().len(),
            old(self).pos() + len <= old(self).data().len() ==> (r matches Ok(s) && s@
                == old(self).data().subrange(old(self).pos() as int, old(self).pos() + len)
                && final(self).pos() == old(self).pos() + len),
            old(self).pos() + len > old(self).data().len() ==> r == Err::<&'a [u8], BinaryError>(
                advance_error(old(self).pos(), len, old(self).data().len() as usize),
            ) && final(self).pos() == old(self).pos(),
    {
        let start = self.advance(len)?;
        Ok(vstd::slice::slice_subrange(self.buf, start, self.cursor))
    }

    /// Reads the next `N` bytes into an array and moves past them.
    pub fn read_array<const N: usize>(&mut self) -> (r: Result<[u8; N], BinaryError>)
        ensures
            final(self).data() == old(self).data(),
            final(self).pos() <= final(self).data().len(),
            old(self).pos() + N <= old(self).data().len() ==> (r matches Ok(a) && a@
                == old(self).data().subrange(old(self).pos() as int, old(self).pos() + N)
                && final(self).pos() == old(self).pos() + N),
            old(self).pos() + N > old(self).data().len() ==> r == Err::<[u8; N], BinaryError>(
                advance_error(old(self).pos(), N, old(self).data().len() as usize),
            ) && final(self).pos() == old(self).pos(),
    {
        let bytes = self.read_bytes(N)?;
        let mut arr = [0u8; N];
        let mut i: usize = 0;
        while i < N
            invariant
                bytes@.len() == N,
                i <= N,
                forall|j: int| 0 <= j < i ==> arr@[j] == bytes@[j],
            decreases N - i,
        {
            arr[i] = bytes[i];
            i = i + 1;
        }
        assert(arr@ =~= bytes@);
        Ok(arr)
    }
}

/// A cursor over a borrowed byte buffer that reads integers in a fixed byte order.
pub struct Reader<'a> {
    inner: ByteReader<'a>,
    encoding: Encoding,
}

impl<'a> Reader<'a> {
    /// The bytes the reader walks over.
    pub closed spec fn data(self) -> Seq<u8> {
        self.inner.data()
    }

    /// The position of the cursor.
    pub closed spec fn pos(self) -> usize {
        self.inner.pos()
    }

    /// The byte order integers are read in.
    pub closed spec fn encoding(self) -> Encoding {
        self.encoding
    }

    /// Starts a reader at the first byte of `buf`.
    pub fn new(buf: &'a [u8], encoding: Encoding) -> (r: Self)
        ensures
            r.data() == buf@,
            r.pos() == 0,
            r.encoding() == encoding,
    {
        Self { inner: ByteReader::new(buf), encoding }
    }

    /// The length of the whole buffer.
    pub fn len(&self) -> (r: usize)
        ensures
            r == self.data().len(),
            self.pos() <= self.data().len(),
    {
        self.inner.len()
    }

    /// Whether no byte is left after the cursor.
    pub fn is_empty(&self) -> (r: bool)
        ensures
            r == (self.pos() == self.data().len()),
            self.pos() <= self.data().len(),
    {
        self.inner.is_empty()
    }

    /// The number of bytes after the cursor.
    pub fn remaining(&self) -> (r: usize)
        ensures
            r == self.data().len() - self.pos(),
            self.pos() <= self.data().len(),
    {
        self.inner.remaining()
    }

    /// Moves the cursor `n` bytes forward.
    pub fn skip(&mut self, n: usize) -> (r: Result<(), BinaryError>)
        ensures
            final(self).data() == old(self).data(),
            final(self).encoding() == old(self).encoding(),
            final(self).pos() <= final(self).data().len(),
            old(self).pos() + n <= old(self).data().len() ==> r is Ok && final(self).pos()
                == old(self).pos() + n,
            old(self).pos() + n > old(self).data().len() ==> r == Err::<(), BinaryError>(
                advance_error(old(self).pos(), n, old(self).data().len() as usize),
            ) && final(self).pos() == old(self).pos(),
    {
        self.inner.skip(n)
    }

    /// Moves the cursor to `pos`.
    pub fn seek(&mut self, pos: usize) -> (r: Result<(), BinaryError>)
        ensures
            final(self).data() == old(self).data(),
            final(self).encoding() == old(self).encoding(),
            final(self).pos() <= final(self).data().len(),
            pos <= old(self).data().len() ==> r is Ok && final(self).pos() == pos,
            pos > old(self).data().len() ==> r == Err::<(), BinaryError>(
                BinaryError::OutOfBounds {
                    needed: 0,
                    position: old(self).pos(),
                    buf_len: old(self).data().len() as usize,
                },
            ) && final(self).pos() == old(self).pos(),
    {
        self.inner.seek(pos)
    }

    /// Reads a 16-bit integer at the cursor and moves past it.
    pub fn read_u16(&mut self) -> (r: Result<u16, BinaryError>)
        ensures
            final(self).data() == old(self).data(),
            final(self).encoding() == old(self).encoding(),
            final(self).pos() <= final(self).data().len(),
            old(self).pos() + 2 <= old(self).data().len() ==> r == Ok::<u16, BinaryError>(
                decode(
                    old(self).encoding(),
                    old(self).data().subrange(old(self).pos() as int, old(self).pos() + 2),
                ) as u16,
            ) && final(self).pos() == old(self).pos() + 2,
            old(self).pos() + 2 > old(self).data().len() ==> r == Err::<u16, BinaryError>(
                advance_error(old(self).pos(), 2, old(self).data().len() as usize),
            ) && final(self).pos() == old(self).pos(),
    {
        let bytes: [u8; 2] = self.inner.read_array::<2>()?;
        Ok(self.encoding.u16_from_bytes(bytes))
    }

    /// Reads a 32-bit integer at the cursor and moves past it.
    pub fn read_u32(&mut self) -> (r: Result<u32, BinaryError>)
        ensures
            final(self).data() == old(self).data(),
            final(self).encoding() == old(self).encoding(),
            final(self).pos() <= final(self).data().len(),
            old(self).pos() + 4 <= old(self).data().len() ==> r == Ok::<u32, BinaryError>(
                decode(
                    old(self).encoding(),
                    old(self).data().subrange(old(self).pos() as int, old(self).pos() + 4),
                ) as u32,
            ) && final(self).pos() == old(self).pos() + 4,
            old(self).pos() + 4 > old(self).data().len() ==> r == Err::<u32, BinaryError>(
                advance_error(old(self).pos(), 4, old(self).data().len() as usize),
            ) && final(self).pos() == old(self).pos(),
    {
        let bytes = self.inner.read_array::<4>()?;
        Ok(self.encoding.u32_from_bytes(bytes))
    }

    /// Reads a 64-bit integer at the cursor and moves past it.
    pub fn read_u64(&mut self) -> (r: Result<u64, BinaryError>)
        ensures
            final(self).data() == old(self).data(),
            final(self).encoding() == old(self).encoding(),
            final(self).pos() <= final(self).data().len(),
            old(self).pos() + 8 <= old(self).data().len() ==> r == Ok::<u64, BinaryError>(
                decode(
                    old(self).encoding(),
                    old(self).data().subrange(old(self).pos() as int, old(self).pos() + 8),
                ) as u64,
            ) && final(self).pos() == old(self).pos() + 8,
            old(self).pos() + 8 > old(self).data().len() ==> r == Err::<u64, BinaryError>(
                advance_error(old(self).pos(), 8, old(self).data().len() as usize),
            ) && final(self).pos() == old(self).pos(),
    {
        let bytes = self.inner.read_array::<8>()?;
        Ok(self.encoding.u64_from_bytes(bytes))
    }
}

} // verus!
