use vstd::prelude::*;

use vstd::string::{StrSliceExecFns, StringExecFns};

verus! {

/// The digits of base 16 and below, lower case.
pub open spec fn lower_digits() -> Seq<char> {
    "0123456789abcdef"@
}

/// The digits of base 16 and below, upper case.
pub open spec fn upper_digits() -> Seq<char> {
    "0123456789ABCDEF"@
}

/// The character of digit `d`.
pub open spec fn digit_char(d: nat, upper: bool) -> char {
    if upper {
        upper_digits()[d as int]
    } else {
        lower_digits()[d as int]
    }
}

/// The digits of `v` in base `base`, most significant first, without leading zeros (`0` is
/// written as one digit).
pub open spec fn number_text(v: nat, base: nat, upper: bool) -> Seq<char>
    decreases v,
{
    if base < 2 || v < base {
        seq![digit_char(v, upper)]
    } else {
        proof {
            vstd::arithmetic::div_mod::lemma_div_decreases(v as int, base as int);
        }
        number_text(v / base, base, upper).push(digit_char(v % base, upper))
    }
}

/// `v` in decimal.
pub open spec fn dec(v: nat) -> Seq<char> {
    number_text(v, 10, false)
}

/// `v` in lower-case hexadecimal, without prefix.
pub open spec fn hex(v: nat) -> Seq<char> {
    number_text(v, 16, false)
}

/// `v` in upper-case hexadecimal, without prefix.
pub open spec fn upper_hex(v: nat) -> Seq<char> {
    number_text(v, 16, true)
}

/// `t` preceded by as many zeros as make it `width` characters long.
pub open spec fn zero_padded(t: Seq<char>, width: nat) -> Seq<char> {
    if t.len() < width {
        Seq::new((width - t.len()) as nat, |i: int| '0') + t
    } else {
        t
    }
}

/// Appends digit `d` to `out`.
fn append_digit(out: &mut String, d: u64, upper: bool)
    requires
        d < 16,
    ensures
        final(out)@ == old(out)@.push(digit_char(d as nat, upper)),
{
    let digits = if upper {
        "0123456789ABCDEF"
    } else {
        "0123456789abcdef"
    };
    proof {
        reveal_strlit("0123456789ABCDEF");
        reveal_strlit("0123456789abcdef");
    }
    let c = digits.substring_char(d as usize, d as usize + 1);
    out.append(c);
    assert(c@ =~= seq![digit_char(d as nat, upper)]);
}

/// Appends the digits of `v` in base `base` to `out`.
pub fn append_number(out: &mut String, v: u64, base: u64, upper: bool)
    requires
        2 <= base <= 16,
    ensures
        final(out)@ == old(out)@ + number_text(v as nat, base as nat, upper),
    decreases v,
{
    if v >= base {
        proof {
            vstd::arithmetic::div_mod::lemma_div_decreases(v as int, base as int);
        }
        append_number(out, v / base, base, upper);
        append_digit(out, v % base, upper);
        assert(old(out)@ + number_text((v / base) as nat, base as nat, upper).push(
            digit_char((v % base) as nat, upper),
        ) =~= old(out)@ + number_text(v as nat, base as nat, upper));
    } else {
        append_digit(out, v, upper);
        assert(old(out)@.push(digit_char(v as nat, upper)) =~= old(out)@ + number_text(
            v as nat,
            base as nat,
            upper,
        ));
    }
}

/// Appends `v` in lower-case hexadecimal to `out`, zero-padded to `width` digits.
pub fn append_padded_hex(out: &mut String, v: u64, width: usize)
    ensures
        final(out)@ == old(out)@ + zero_padded(hex(v as nat), width as nat),
{
    let mut digits = String::new();
    append_number(&mut digits, v, 16, false);
    assert(digits@ =~= hex(v as nat));
    let n = digits.as_str().unicode_len();
    let mut k: usize = n;
    while k < width
        invariant
            n == hex(v as nat).len(),
            n <= k <= width || (k == n && n >= width),
            out@ == old(out)@ + Seq::new((k - n) as nat, |i: int| '0'),
        decreases width - k,
    {
        out.append("0");
        proof {
            reveal_strlit("0");
        }
        k = k + 1;
        assert(out@ =~= old(out)@ + Seq::new((k - n) as nat, |i: int| '0'));
    }
    out.append(digits.as_str());
    assert(out@ =~= old(out)@ + zero_padded(hex(v as nat), width as nat));
}

/// Whether the texts `a` and `b` are the same.
pub fn same_text(a: &str, b: &str) -> (r: bool)
    ensures
        r == (a@ == b@),
{
    let n = a.unicode_len();
    if n != b.unicode_len() {
        return false;
    }
    let mut i: usize = 0;
    while i < n
        invariant
            n == a@.len(),
            n == b@.len(),
            i <= n,
            forall|k: int| 0 <= k < i ==> a@[k] == b@[k],
        decreases n - i,
    {
        if a.get_char(i) != b.get_char(i) {
            return false;
        }
        i = i + 1;
    }
    assert(a@ =~= b@);
    true
}

} // verus!
