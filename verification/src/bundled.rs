//! The emoji artwork compiled into the library, looked up by the lowercase
//! hex codepoint name of the sequence (e.g. "1f1eb-1f1f7"). The full artwork
//! set is not part of this source tree; a single flag, drawn here, stands in
//! for it, and every other sequence needs a custom sprite.

use vstd::prelude::*;

use crate::emoji::{emoji_codepoint, spec_emoji_codepoint};

verus! {

/// The bundled SVG for a codepoint name, if there is one.
pub open spec fn bundled_asset(name: Seq<char>) -> Option<Seq<char>> {
    if name == "1f1eb-1f1f7"@ {
        Some(FLAG_FR@)
    } else {
        None
    }
}

/// Flag of France (regional indicators F, R): blue, white and red bands,
/// standing in for the missing artwork set.
pub const FLAG_FR: &'static str = "<svg xmlns=\"http://www.w3.org/2000/svg\" viewBox=\"0 0 36 36\"><rect x=\"0\" y=\"6\" width=\"12\" height=\"24\" fill=\"#0055a4\"/><rect x=\"12\" y=\"6\" width=\"12\" height=\"24\" fill=\"#ffffff\"/><rect x=\"24\" y=\"6\" width=\"12\" height=\"24\" fill=\"#ef4135\"/></svg>";

fn bytes_eq(a: &[u8], b: &[u8]) -> (r: bool)
    ensures
        r == (a@ == b@),
{
    if a.len() != b.len() {
        return false;
    }
    let mut i: usize = 0;
    while i < a.len()
        invariant
            a@.len() == b@.len(),
            i <= a@.len(),
            forall|j: int| 0 <= j < i ==> a@[j] == b@[j],
        decreases a@.len() - i,
    {
        if a[i] != b[i] {
            return false;
        }
        i += 1;
    }
    assert(a@ == b@);
    true
}

/// Look up bundled SVG data by codepoint name.
pub fn bundled_svg_data(name: &str) -> (r: Option<&'static str>)
    ensures
        r is Some <==> bundled_asset(name@) is Some,
        r matches Some(s) ==> s@ == bundled_asset(name@)->0,
{
    let key = "1f1eb-1f1f7";
    let same = bytes_eq(name.as_bytes(), key.as_bytes());
    proof {
        vstd::utf8::encode_utf8_decode_utf8(name@);
        vstd::utf8::encode_utf8_decode_utf8(key@);
    }
    if same {
        Some(FLAG_FR)
    } else {
        None
    }
}

/// Find bundled SVG data for an emoji sequence.
pub fn bundled_svg(emoji: &str) -> (r: Option<&'static str>)
    ensures
        r is Some <==> bundled_asset(spec_emoji_codepoint(emoji@)) is Some,
        r matches Some(s) ==> s@ == bundled_asset(spec_emoji_codepoint(emoji@))->0,
{
    let codepoint = emoji_codepoint(emoji);
    bundled_svg_data(codepoint.as_str())
}

} // verus!
