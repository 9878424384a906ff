use vstd::prelude::*;

use vstd::string::{StrSliceExecFns, StringExecFns};

use crate::text::{append_number, dec, same_text};

verus! {

/// How the name of every temporary output file starts.
pub open spec fn tmp_prefix() -> Seq<char> {
    "uf2-tool."@
}

/// How the name of every temporary output file ends.
pub open spec fn tmp_suffix() -> Seq<char> {
    ".tmp"@
}

/// Whether `name` is the name of a temporary output file: it starts with `uf2-tool.` and ends
/// with `.tmp`.
pub open spec fn is_tmp_name(name: Seq<char>) -> bool {
    &&& name.len() >= tmp_prefix().len()
    &&& name.subrange(0, tmp_prefix().len() as int) == tmp_prefix()
    &&& name.len() >= tmp_suffix().len()
    &&& name.subrange(name.len() - tmp_suffix().len(), name.len() as int) == tmp_suffix()
}

/// The name of the temporary file that the output file `output_name` is written through by the
/// process `pid`.
pub open spec fn tmp_name(output_name: Seq<char>, pid: u32) -> Seq<char> {
    tmp_prefix() + output_name + "."@ + dec(pid as nat) + tmp_suffix()
}

/// Whether `name` is the name of a temporary output file, which startup cleans up.
pub fn is_tmp_file_name(name: &str) -> (r: bool)
    ensures
        r == is_tmp_name(name@),
{
    proof {
        reveal_strlit("uf2-tool.");
        reveal_strlit(".tmp");
    }
    let n = name.unicode_len();
    if n < 9 {
        return false;
    }
    let head = name.substring_char(0, 9);
    if !same_text(head, "uf2-tool.") {
        return false;
    }
    let tail = name.substring_char(n - 4, n);
    same_text(tail, ".tmp")
}

/// The name of the temporary file that the output file `output_name` is written through by the
/// process `pid`.
pub fn tmp_file_name(output_name: &str, pid: u32) -> (r: String)
    ensures
        r@ == tmp_name(output_name@, pid),
{
    let mut s = String::new();
    s.append("uf2-tool.");
    s.append(output_name);
    s.append(".");
    append_number(&mut s, pid as u64, 10, false);
    s.append(".tmp");
    assert(s@ =~= tmp_name(output_name@, pid));
    s
}

/// Every temporary file that the output is written through is one that startup cleans up.
pub proof fn lemma_tmp_names_cleaned(output_name: Seq<char>, pid: u32)
    ensures
        is_tmp_name(tmp_name(output_name, pid)),
{
    reveal_strlit("uf2-tool.");
    reveal_strlit(".tmp");
    let t = tmp_name(output_name, pid);
    assert(t.subrange(0, 9) =~= tmp_prefix());
    assert(t.subrange(t.len() - 4, t.len() as int) =~= tmp_suffix());
}

} // verus!
