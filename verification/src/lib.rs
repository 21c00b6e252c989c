//! A minimal document front-end: a markup parser producing a document tree,
//! a stylesheet parser producing a rule model, and a cascade resolver that
//! computes the styled tree handed to layout.

pub mod text;
pub mod validation;
pub mod dom;
pub mod markup;
pub mod css;
pub mod style;
pub mod cascade;
pub mod serialize;
pub mod diagnostics;
pub mod net;
pub mod jit;

use vstd::prelude::*;

verus! {

/// The kinds of failure a parse can report.  Parsing is strict: any
/// structural violation aborts the whole parse with one of these.
#[derive(Clone, Copy, Debug, PartialEq, Eq, Structural)]
pub enum ParseError {
    /// An expected token or character was not found at the cursor.
    StructuralMismatch,
    /// The input ended where more characters were required.
    UnexpectedEnd,
    /// An unrecognized unit keyword in a length value.
    UnknownUnit,
    /// A numeric literal too large to represent.
    NumberTooLarge,
}

/// What a parsing step is specified against: the parsed model value and the
/// cursor position after it, or the error the parse reports.
pub enum Parsed<T> {
    Val(T, int),
    Fail(ParseError),
}

/// Parse markup text into a document root: an optional doctype and the
/// ordered top-level nodes.  Reading stops at the end of the trimmed input
/// or at an unmatched close tag; the grammar makes no end-of-input demand,
/// so trailing text after the top-level nodes is left unread.
pub fn parse_html(input: String) -> (r: Result<dom::HtmlRoot, ParseError>)
    ensures
        match markup::sp_parse_root(text::spec_trim(input@), 0) {
            Parsed::Val(v, _) => r is Ok && r.unwrap()@ == v,
            Parsed::Fail(e) => r == Err::<dom::HtmlRoot, ParseError>(e),
        },
{
    let mut parser = markup::HTMLParser::new(input);
    parser.parse_root()
}

/// Parse stylesheet text into the ordered rule model.
pub fn parse_css(input: String) -> (r: Result<css::StyleSheet, ParseError>)
    ensures
        match style::sp_parse_stylesheet(text::spec_trim(input@), 0) {
            Parsed::Val(v, _) => r is Ok && r.unwrap()@ == v,
            Parsed::Fail(e) => r == Err::<css::StyleSheet, ParseError>(e),
        },
{
    let mut parser = style::CSSParser::new(input);
    parser.parse_syle_sheet()
}

} // verus!
