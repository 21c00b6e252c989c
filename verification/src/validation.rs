//! Character and token classification shared by both parsers.

use vstd::prelude::*;

use crate::text::{begins_with, str_begins, str_contains};

verus! {

/// An identifier character: ASCII letters, digits, `-` and `_`.
pub open spec fn is_tag_char_spec(c: char) -> bool {
    ('a' <= c && c <= 'z') || ('A' <= c && c <= 'Z') || ('0' <= c && c <= '9') || c == '-' || c
        == '_'
}

pub open spec fn pred_tag() -> spec_fn(char) -> bool {
    |c: char| is_tag_char_spec(c)
}

pub fn is_tag_char(character: char) -> (r: bool)
    ensures
        r == is_tag_char_spec(character),
{
    ('a' <= character && character <= 'z') || ('A' <= character && character <= 'Z') || ('0'
        <= character && character <= '9') || character == '-' || character == '_'
}

/// Text that looks like a color value: an `rgb`/`rgba` prefix, an `hsl`
/// occurrence, or a leading `#`.
pub open spec fn is_color_pattern_spec(s: Seq<char>) -> bool {
    begins_with(s, 0, "rgb"@) || (exists|p: int| begins_with(s, p, "hsl"@)) || begins_with(
        s,
        0,
        "#"@,
    )
}

pub fn is_color_pattern(pattern: &str) -> (r: bool)
    ensures
        r == is_color_pattern_spec(pattern@),
{
    if str_begins(pattern, "rgb") {
        return true;
    }
    if str_contains(pattern, "hsl") {
        return true;
    }
    str_begins(pattern, "#")
}

} // verus!
