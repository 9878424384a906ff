use vstd::prelude::*;

use vstd::string::StringExecFns;

use crate::text::{append_number, dec, hex};

verus! {

/// Failure of a cursor movement over a byte buffer.
#[derive(Debug)]
pub enum BinaryError {
    /// Reading `needed` bytes at `position` would pass the end of a buffer of `buf_len` bytes.
    OutOfBounds { needed: usize, position: usize, buf_len: usize },
    /// Adding `added` to the cursor at `position` does not fit in `usize`.
    CursorOverflow { position: usize, added: usize },
}

impl BinaryError {
    /// The message of this error.
    pub open spec fn text(&self) -> Seq<char> {
        match *self {
            BinaryError::OutOfBounds { needed, position, buf_len } => "out of bounds: cursor at position 0x"@
                + hex(position as nat) + ", needed "@ + dec(needed as nat)
                + " bytes, but buffer length is "@ + dec(buf_len as nat),
            BinaryError::CursorOverflow { position, added } => "cursor overflow: adding "@ + dec(
                added as nat,
            ) + " to cursor position "@ + dec(position as nat) + " caused overflow"@,
        }
    }

    /// Writes the message of this error.
    pub fn describe(&self) -> (r: String)
        ensures
            r@ == self.text(),
    {
        let mut s = String::new();
        match self {
            BinaryError::OutOfBounds { needed, position, buf_len } => {
                s.append("out of bounds: cursor at position 0x");
                append_number(&mut s, *position as u64, 16, false);
                s.append(", needed ");
                append_number(&mut s, *needed as u64, 10, false);
                s.append(" bytes, but buffer length is ");
                append_number(&mut s, *buf_len as u64, 10, false);
            },
            BinaryError::CursorOverflow { position, added } => {
                s.append("cursor overflow: adding ");
                append_number(&mut s, *added as u64, 10, false);
                s.append(" to cursor position ");
                append_number(&mut s, *position as u64, 10, false);
                s.append(" caused overflow");
            },
        }
        assert(s@ =~= self.text());
        s
    }
}

} // verus!
