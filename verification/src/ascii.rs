//! Byte-level ASCII helpers shared by the tokenizer and the command tree.

use vstd::prelude::*;

verus! {

/// Uppercase folding for a single ASCII byte.
pub open spec fn spec_to_upper(c: u8) -> u8 {
    if 97 <= c && c <= 122 {
        (c - 32) as u8
    } else {
        c
    }
}

/// Uppercase folding applied to a whole byte sequence.
pub open spec fn spec_upper_seq(s: Seq<u8>) -> Seq<u8> {
    s.map_values(|c: u8| spec_to_upper(c))
}

/// A lowercase ASCII letter; lowercase letters are the optional tail of a
/// mnemonic's long form.
pub open spec fn spec_is_lower_alpha(c: u8) -> bool {
    97 <= c && c <= 122
}

/// Blank bytes that may pad a command unit: space and horizontal tab.
pub open spec fn spec_is_blank(c: u8) -> bool {
    c == 32 || c == 9
}

pub fn to_upper(c: u8) -> (r: u8)
    ensures
        r == spec_to_upper(c),
{
    if c >= 97 && c <= 122 {
        c - 32
    } else {
        c
    }
}

pub fn is_lower_alpha(c: u8) -> (r: bool)
    ensures
        r == spec_is_lower_alpha(c),
{
    c >= 97 && c <= 122
}

pub fn is_blank(c: u8) -> (r: bool)
    ensures
        r == spec_is_blank(c),
{
    c == 32 || c == 9
}

/// The views of a sequence of byte vectors.
pub open spec fn views(s: Seq<Vec<u8>>) -> Seq<Seq<u8>> {
    s.map_values(|v: Vec<u8>| v@)
}

/// Uppercase folding is idempotent, so matching a folded token behaves as
/// matching the raw token.
pub proof fn lemma_upper_idempotent(c: u8)
    ensures
        spec_to_upper(spec_to_upper(c)) == spec_to_upper(c),
{
}

} // verus!
