//! Repair of the prediction feed's malformed escaping.

use vstd::prelude::*;

verus! {

/// `s` with every occurrence of `from` replaced by `to`.
pub open spec fn replaced(s: Seq<char>, from: char, to: char) -> Seq<char> {
    s.map_values(|c: char| if c == from { to } else { c })
}

/// Relies on `str::replace`: every match of the pattern `from` (a single
/// character) is replaced by the string `to`, and the rest is copied.
#[verifier::external_body]
fn replace_char(s: &str, from: char, to: &str) -> (r: String)
    requires
        to@.len() == 1,
    ensures
        r@ == replaced(s@, from, to@[0]),
{
    s.replace(from, to)
}

/// The feed writes literal backslashes where forward slashes belong (inside
/// timestamps and text), which JSON reads as broken escapes. Every backslash
/// becomes a forward slash; nothing else changes.
pub fn normalize_escapes(raw: &str) -> (r: String)
    ensures
        r@ == replaced(raw@, '\\', '/'),
        r@.len() == raw@.len(),
        forall|i: int| 0 <= i < r@.len() ==> r@[i] != '\\',
{
    let slash = "/";
    proof {
        reveal_strlit("/");
    }
    replace_char(raw, '\\', slash)
}

} // verus!
