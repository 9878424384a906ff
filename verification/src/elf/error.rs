use vstd::prelude::*;

use vstd::string::StringExecFns;

use crate::binary::BinaryError;
use crate::text::{append_number, dec, hex, upper_hex};

verus! {

/// Why an ELF file was refused.
#[derive(Debug)]
pub enum ParserError {
    /// A field holds a value that is not allowed.
    InvalidField { field: &'static str, kind: FieldErrorKind },
    /// A block is too short.
    InvalidSize { field: &'static str, found: usize, expected: usize },
    /// Two fields do not agree.
    Inconsistent { fields: [&'static str; 2], kind: InconsistentKind },
    /// A range of the file passes its end.
    OutOfBounds { what: &'static str, start: usize, end: usize, size: usize },
    /// An offset or size computation does not fit in `usize`.
    Overflow { op: &'static str, lhs: usize, rhs: usize },
    /// A 64-bit value does not fit in the target type.
    IntegerConversion { field: &'static str, value: u64, target: &'static str },
    /// The file ended in the middle of a field.
    Binary(BinaryError),
}

/// What is wrong with a single field.
#[derive(Debug)]
pub enum FieldErrorKind {
    InvalidValue,
    NotEqual { expected: u64, found: u64 },
    NotInSet(&'static str),
    NotPowerOfTwo { value: u64 },
}

/// How two fields disagree.
#[derive(Debug)]
pub enum InconsistentKind {
    OffsetWithoutCount { count: u64 },
    SizeMismatch { smaller: u64, larger: u64 },
    Misaligned { align: u64, a: u64, b: u64 },
}

impl FieldErrorKind {
    /// The message of this kind of field error.
    pub open spec fn text(&self) -> Seq<char> {
        match *self {
            FieldErrorKind::InvalidValue => "invalid value"@,
            FieldErrorKind::NotEqual { expected, found } => "found "@ + dec(found as nat)
                + ", expected "@ + dec(expected as nat),
            FieldErrorKind::NotInSet(set) => "value not in "@ + set@,
            FieldErrorKind::NotPowerOfTwo { value } => dec(value as nat) + " is not a power of two"@,
        }
    }

    /// Writes the message of this kind of field error.
    pub fn describe(&self) -> (r: String)
        ensures
            r@ == self.text(),
    {
        let mut s = String::new();
        match self {
            FieldErrorKind::InvalidValue => {
                s.append("invalid value");
            },
            FieldErrorKind::NotEqual { expected, found } => {
                s.append("found ");
                append_number(&mut s, *found, 10, false);
                s.append(", expected ");
                append_number(&mut s, *expected, 10, false);
            },
            FieldErrorKind::NotInSet(set) => {
                s.append("value not in ");
                s.append(set);
            },
            FieldErrorKind::NotPowerOfTwo { value } => {
                append_number(&mut s, *value, 10, false);
                s.append(" is not a power of two");
            },
        }
        assert(s@ =~= self.text());
        s
    }
}

impl InconsistentKind {
    /// The message of this kind of disagreement.
    pub open spec fn text(&self) -> Seq<char> {
        match *self {
            InconsistentKind::OffsetWithoutCount { count } => "offset is 0 but count is "@ + dec(
                count as nat,
            ),
            InconsistentKind::SizeMismatch { smaller, larger } => dec(smaller as nat)
                + " is smaller than "@ + dec(larger as nat),
            InconsistentKind::Misaligned { align, a, b } => "0x"@ + upper_hex(a as nat)
                + " and 0x"@ + upper_hex(b as nat) + " are not "@ + dec(align as nat)
                + "-byte aligned"@,
        }
    }

    /// Writes the message of this kind of disagreement.
    pub fn describe(&self) -> (r: String)
        ensures
            r@ == self.text(),
    {
        let mut s = String::new();
        match self {
            InconsistentKind::OffsetWithoutCount { count } => {
                s.append("offset is 0 but count is ");
                append_number(&mut s, *count, 10, false);
            },
            InconsistentKind::SizeMismatch { smaller, larger } => {
                append_number(&mut s, *smaller, 10, false);
                s.append(" is smaller than ");
                append_number(&mut s, *larger, 10, false);
            },
            InconsistentKind::Misaligned { align, a, b } => {
                s.append("0x");
                append_number(&mut s, *a, 16, true);
                s.append(" and 0x");
                append_number(&mut s, *b, 16, true);
                s.append(" are not ");
                append_number(&mut s, *align, 10, false);
                s.append("-byte aligned");
            },
        }
        assert(s@ =~= self.text());
        s
    }
}

/// The two field names `fields` as a list of quoted names.
pub open spec fn field_list(fields: [&'static str; 2]) -> Seq<char> {
    "[\""@ + fields[0]@ + "\", \""@ + fields[1]@ + "\"]"@
}

impl ParserError {
    /// The message of this error.
    pub open spec fn text(&self) -> Seq<char> {
        match *self {
            ParserError::InvalidField { field, kind } => "'"@ + field@ + "' is invalid: "@
                + kind.text(),
            ParserError::InvalidSize { field, found, expected } => "invalid size for '"@ + field@
                + "': got "@ + dec(found as nat) + ", expected "@ + dec(expected as nat),
            ParserError::Inconsistent { fields, kind } => "invalid relationship between fields: "@
                + field_list(fields) + " - "@ + kind.text(),
            ParserError::OutOfBounds { what, start, end, size } => "'"@ + what@
                + "' is out of bounds: range [0x"@ + hex(start as nat) + "..0x"@ + hex(end as nat)
                + ") exceeds file size 0x"@ + hex(size as nat),
            ParserError::Overflow { op, lhs, rhs } => "arithmetic overflow during "@ + op@ + ": "@
                + dec(lhs as nat) + " and "@ + dec(rhs as nat),
            ParserError::IntegerConversion { field, value, target } => "conversion falied for '"@
                + field@ + "': "@ + dec(value as nat) + " does not fit in "@ + target@,
            ParserError::Binary(e) => e.text(),
        }
    }

    /// Writes the message of this error.
    pub fn describe(&self) -> (r: String)
        ensures
            r@ == self.text(),
    {
        let mut s = String::new();
        match self {
            ParserError::InvalidField { field, kind } => {
                s.append("'");
                s.append(field);
                s.append("' is invalid: ");
                let k = kind.describe();
                s.append(k.as_str());
            },
            ParserError::InvalidSize { field, found, expected } => {
                s.append("invalid size for '");
                s.append(field);
                s.append("': got ");
                append_number(&mut s, *found as u64, 10, false);
                s.append(", expected ");
                append_number(&mut s, *expected as u64, 10, false);
            },
            ParserError::Inconsistent { fields, kind } => {
                s.append("invalid relationship between fields: ");
                s.append("[\"");
                s.append(fields[0]);
                s.append("\", \"");
                s.append(fields[1]);
                s.append("\"]");
                s.append(" - ");
                let k = kind.describe();
                s.append(k.as_str());
            },
            ParserError::OutOfBounds { what, start, end, size } => {
                s.append("'");
                s.append(what);
                s.append("' is out of bounds: range [0x");
                append_number(&mut s, *start as u64, 16, false);
                s.append("..0x");
                append_number(&mut s, *end as u64, 16, false);
                s.append(") exceeds file size 0x");
                append_number(&mut s, *size as u64, 16, false);
            },
            ParserError::Overflow { op, lhs, rhs } => {
                s.append("arithmetic overflow during ");
                s.append(op);
                s.append(": ");
                append_number(&mut s, *lhs as u64, 10, false);
                s.append(" and ");
                append_number(&mut s, *rhs as u64, 10, false);
            },
            ParserError::IntegerConversion { field, value, target } => {
                s.append("conversion falied for '");
                s.append(field);
                s.append("': ");
                append_number(&mut s, *value, 10, false);
                s.append(" does not fit in ");
                s.append(target);
            },
            ParserError::Binary(e) => {
                let t = e.describe();
                s.append(t.as_str());
            },
        }
        assert(s@ =~= self.text());
        s
    }
}

} // verus!
