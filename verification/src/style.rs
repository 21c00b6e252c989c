//! The stylesheet parser: a strict recursive-descent parser from text to
//! the style model.  As with the markup parser, every executable function
//! is proved to compute exactly what its `sp_*` specification function
//! says, including which error a malformed input reports.

use vstd::prelude::*;

use crate::css::{
    decls_view, lemma_sel_insert_at, sel_insert, sel_sort, sel_sort_upto, sels_view, ColorValue,
    ColorValueV, Declaration,
    DeclarationV, DeclarationValue, DeclarationValueV, Rule, RuleV, Selector, SelectorV,
    SimpleSelector, SimpleSelectorV, StyleSheet, StyleSheetV, UnitValue,
};
use crate::text::{
    begins_with, is_digit_char, pred_digit, pred_not, scan_end, spec_trim, ws_end, Scanner,
};
use crate::validation::{is_tag_char, is_tag_char_spec, pred_tag};
use crate::{ParseError, Parsed};

verus! {

// ------------------------------------------------------------------
// Characters and small tokens.
// ------------------------------------------------------------------
/// The value of a hexadecimal digit, or -1.
pub open spec fn hex_val(c: char) -> int {
    if '0' <= c && c <= '9' {
        c as u32 - '0' as u32
    } else if 'a' <= c && c <= 'f' {
        10 + (c as u32 - 'a' as u32)
    } else if 'A' <= c && c <= 'F' {
        10 + (c as u32 - 'A' as u32)
    } else {
        -1
    }
}

/// The value of a hexadecimal digit character, if it is one.
fn hex_digit(c: char) -> (r: Option<u8>)
    ensures
        match r {
            Some(v) => hex_val(c) == v as int && v < 16,
            None => hex_val(c) == -1,
        },
{
    if '0' <= c && c <= '9' {
        Some(((c as u32) - ('0' as u32)) as u8)
    } else if 'a' <= c && c <= 'f' {
        Some((10 + ((c as u32) - ('a' as u32))) as u8)
    } else if 'A' <= c && c <= 'F' {
        Some((10 + ((c as u32) - ('A' as u32))) as u8)
    } else {
        None
    }
}

/// `c` is `l` or its ASCII upper-case form (`l` being a lower-case letter).
pub open spec fn low_is(c: char, l: char) -> bool {
    c == l || c as u32 == l as u32 - 32
}

fn char_low_is(c: char, l: char) -> (r: bool)
    ensures
        r == low_is(c, l),
{
    c == l || ((l as u32) >= 32 && (c as u32) == (l as u32) - 32)
}

/// The unit a token names, compared without regard to ASCII case.
pub open spec fn unit_of(u: Seq<char>) -> Option<UnitValue> {
    if u.len() == 2 && low_is(u[0], 'p') && low_is(u[1], 'x') {
        Some(UnitValue::Px)
    } else if u.len() == 2 && low_is(u[0], 'e') && low_is(u[1], 'm') {
        Some(UnitValue::Em)
    } else if u.len() == 3 && low_is(u[0], 'r') && low_is(u[1], 'e') && low_is(u[2], 'm') {
        Some(UnitValue::Rem)
    } else {
        None
    }
}

/// The number a digit string denotes, reading the first `i` digits.
pub open spec fn val_upto(ds: Seq<char>, i: int) -> int
    decreases i,
{
    if i <= 0 {
        0
    } else {
        val_upto(ds, i - 1) * 10 + (ds[i - 1] as u32 - '0' as u32)
    }
}

/// The number a digit string denotes.
pub open spec fn digits_val(ds: Seq<char>) -> int {
    val_upto(ds, ds.len() as int)
}

/// Reading more digits never shrinks the value.
pub proof fn lemma_val_mono(ds: Seq<char>, i: int, j: int)
    requires
        0 <= i <= j <= ds.len(),
        forall|q: int| 0 <= q < ds.len() ==> is_digit_char(#[trigger] ds[q]),
    ensures
        0 <= val_upto(ds, i) <= val_upto(ds, j),
    decreases j,
{
    if j <= 0 {
    } else if i == j {
        lemma_val_mono(ds, i - 1, j - 1);
    } else {
        lemma_val_mono(ds, i, j - 1);
    }
}

// ------------------------------------------------------------------
// Specification of the grammar.
// ------------------------------------------------------------------
/// A simple selector: any number of `.class`, `#id` and tag tokens.
pub open spec fn sp_simple_sel(s: Seq<char>, p: int, acc: SimpleSelectorV) -> Parsed<
    SimpleSelectorV,
>
    decreases s.len() - p,
{
    if p >= s.len() {
        Parsed::Val(acc, p)
    } else if s[p] == '.' {
        let e = scan_end(s, p + 1, pred_tag());
        if p < e <= s.len() {
            sp_simple_sel(
                s,
                e,
                SimpleSelectorV {
                    tag_name: acc.tag_name,
                    id: acc.id,
                    class: acc.class.push(s.subrange(p + 1, e)),
                },
            )
        } else {
            Parsed::Fail(ParseError::StructuralMismatch)
        }
    } else if s[p] == '#' {
        let e = scan_end(s, p + 1, pred_tag());
        if p < e <= s.len() {
            sp_simple_sel(
                s,
                e,
                SimpleSelectorV {
                    tag_name: acc.tag_name,
                    id: Some(s.subrange(p + 1, e)),
                    class: acc.class,
                },
            )
        } else {
            Parsed::Fail(ParseError::StructuralMismatch)
        }
    } else if is_tag_char_spec(s[p]) {
        let e = scan_end(s, p, pred_tag());
        if p < e <= s.len() {
            sp_simple_sel(
                s,
                e,
                SimpleSelectorV {
                    tag_name: Some(s.subrange(p, e)),
                    id: acc.id,
                    class: acc.class,
                },
            )
        } else {
            Parsed::Fail(ParseError::StructuralMismatch)
        }
    } else {
        Parsed::Val(acc, p)
    }
}

/// The empty simple selector.
pub open spec fn empty_simple() -> SimpleSelectorV {
    SimpleSelectorV { tag_name: None, id: None, class: Seq::empty() }
}

/// One selector of a selector list.
pub open spec fn sp_parse_selector(s: Seq<char>, p: int) -> Parsed<SelectorV> {
    match sp_simple_sel(s, p, empty_simple()) {
        Parsed::Fail(e) => Parsed::Fail(e),
        Parsed::Val(ss, p2) => Parsed::Val(SelectorV::Simple(ss), p2),
    }
}

/// The comma-separated selector list, in source order, ending before `{`.
pub open spec fn sp_selectors(s: Seq<char>, p: int, acc: Seq<SelectorV>) -> Parsed<Seq<SelectorV>>
    decreases s.len() - p,
{
    if p >= s.len() {
        Parsed::Val(acc, p)
    } else {
        match sp_parse_selector(s, p) {
            Parsed::Fail(e) => Parsed::Fail(e),
            Parsed::Val(sel, p2) => {
                let p3 = ws_end(s, p2);
                if p3 >= s.len() {
                    Parsed::Fail(ParseError::UnexpectedEnd)
                } else if s[p3] == ',' {
                    let p4 = ws_end(s, p3 + 1);
                    if p < p4 <= s.len() {
                        sp_selectors(s, p4, acc.push(sel))
                    } else {
                        Parsed::Fail(ParseError::StructuralMismatch)
                    }
                } else if s[p3] == '{' {
                    Parsed::Val(acc.push(sel), p3)
                } else {
                    Parsed::Fail(ParseError::StructuralMismatch)
                }
            },
        }
    }
}

/// The selector list of a rule, sorted by descending specificity.
pub open spec fn sp_parse_selectors(s: Seq<char>, p: int) -> Parsed<Seq<SelectorV>> {
    match sp_selectors(s, p, Seq::empty()) {
        Parsed::Fail(e) => Parsed::Fail(e),
        Parsed::Val(sels, p2) => Parsed::Val(sel_sort(sels), p2),
    }
}

/// Two hexadecimal digits as one byte.
pub open spec fn sp_hex_pair(s: Seq<char>, p: int) -> Parsed<u8> {
    if p + 2 > s.len() {
        Parsed::Fail(ParseError::UnexpectedEnd)
    } else if hex_val(s[p]) >= 0 && hex_val(s[p + 1]) >= 0 {
        Parsed::Val((hex_val(s[p]) * 16 + hex_val(s[p + 1])) as u8, p + 2)
    } else {
        Parsed::Fail(ParseError::StructuralMismatch)
    }
}

/// `#rrggbb`: three hex byte pairs, alpha fixed to 255.
pub open spec fn sp_parse_hex_color(s: Seq<char>, p: int) -> Parsed<ColorValueV> {
    if !begins_with(s, p, "#"@) {
        Parsed::Fail(ParseError::StructuralMismatch)
    } else {
        let p1 = p + "#"@.len();
        match sp_hex_pair(s, p1) {
            Parsed::Fail(e) => Parsed::Fail(e),
            Parsed::Val(r, p2) => match sp_hex_pair(s, p2) {
                Parsed::Fail(e) => Parsed::Fail(e),
                Parsed::Val(g, p3) => match sp_hex_pair(s, p3) {
                    Parsed::Fail(e) => Parsed::Fail(e),
                    Parsed::Val(b, p4) => Parsed::Val(ColorValueV::Rgb(r, g, b, 255), p4),
                },
            },
        }
    }
}

/// A color value: only the `#` form has a grammar; anything else falls
/// back to a keyword.
pub open spec fn sp_parse_color(s: Seq<char>, p: int) -> Parsed<DeclarationValueV> {
    if p >= s.len() {
        Parsed::Fail(ParseError::UnexpectedEnd)
    } else if s[p] == '#' {
        match sp_parse_hex_color(s, p) {
            Parsed::Fail(e) => Parsed::Fail(e),
            Parsed::Val(c, p2) => Parsed::Val(DeclarationValueV::ColorValue(c), p2),
        }
    } else {
        let e = scan_end(s, p, pred_tag());
        Parsed::Val(DeclarationValueV::Keyword(s.subrange(p, e)), e)
    }
}

/// A declaration value: a color when the lookahead says so, else a keyword.
pub open spec fn sp_parse_value(s: Seq<char>, p: int) -> Parsed<DeclarationValueV> {
    if p >= s.len() {
        Parsed::Fail(ParseError::UnexpectedEnd)
    } else if s[p] == '#' || begins_with(s, p, "rgb("@) || begins_with(s, p, "rgba("@) {
        sp_parse_color(s, p)
    } else {
        let e = scan_end(s, p, pred_tag());
        Parsed::Val(DeclarationValueV::Keyword(s.subrange(p, e)), e)
    }
}

/// A unit keyword: `px`, `em` or `rem`, case-insensitively.
pub open spec fn sp_parse_unit(s: Seq<char>, p: int) -> Parsed<UnitValue> {
    let e = scan_end(s, p, pred_tag());
    match unit_of(s.subrange(p, e)) {
        Some(u) => Parsed::Val(u, e),
        None => Parsed::Fail(ParseError::UnknownUnit),
    }
}

/// A length: a nonempty digit run, then a unit keyword.
pub open spec fn sp_parse_value_length(s: Seq<char>, p: int) -> Parsed<DeclarationValueV> {
    let e = scan_end(s, p, pred_digit());
    let ds = s.subrange(p, e);
    if ds.len() == 0 {
        Parsed::Fail(ParseError::StructuralMismatch)
    } else if digits_val(ds) > u64::MAX {
        Parsed::Fail(ParseError::NumberTooLarge)
    } else {
        match sp_parse_unit(s, e) {
            Parsed::Fail(er) => Parsed::Fail(er),
            Parsed::Val(u, p2) => Parsed::Val(
                DeclarationValueV::Length(digits_val(ds) as u64, u),
                p2,
            ),
        }
    }
}

/// One `name: value;` declaration.
pub open spec fn sp_parse_declaration(s: Seq<char>, p: int) -> Parsed<DeclarationV> {
    let ne = scan_end(s, p, pred_tag());
    let name = s.subrange(p, ne);
    let p1 = ws_end(s, ne);
    if !begins_with(s, p1, ":"@) {
        Parsed::Fail(ParseError::StructuralMismatch)
    } else {
        let p2 = ws_end(s, p1 + ":"@.len());
        match sp_parse_value(s, p2) {
            Parsed::Fail(e) => Parsed::Fail(e),
            Parsed::Val(value, p3) => {
                let p4 = ws_end(s, p3);
                if !begins_with(s, p4, ";"@) {
                    Parsed::Fail(ParseError::StructuralMismatch)
                } else {
                    Parsed::Val(DeclarationV { name, value }, p4 + ";"@.len())
                }
            },
        }
    }
}

/// Declarations until `}` or the end of input.
pub open spec fn sp_decls(s: Seq<char>, p: int, acc: Seq<DeclarationV>) -> Parsed<
    Seq<DeclarationV>,
>
    decreases s.len() - p,
{
    let q = ws_end(s, p);
    if q >= s.len() || (p <= q && s[q] == '}') {
        Parsed::Val(acc, q)
    } else {
        match sp_parse_declaration(s, q) {
            Parsed::Fail(e) => Parsed::Fail(e),
            Parsed::Val(d, p2) => {
                if p < p2 <= s.len() {
                    sp_decls(s, p2, acc.push(d))
                } else {
                    Parsed::Fail(ParseError::StructuralMismatch)
                }
            },
        }
    }
}

/// A `{ ... }` declaration block.
pub open spec fn sp_parse_declarations(s: Seq<char>, p: int) -> Parsed<Seq<DeclarationV>> {
    if !begins_with(s, p, "{"@) {
        Parsed::Fail(ParseError::StructuralMismatch)
    } else {
        match sp_decls(s, p + "{"@.len(), Seq::empty()) {
            Parsed::Fail(e) => Parsed::Fail(e),
            Parsed::Val(ds, p2) => {
                if !begins_with(s, p2, "}"@) {
                    Parsed::Fail(ParseError::StructuralMismatch)
                } else {
                    Parsed::Val(ds, p2 + "}"@.len())
                }
            },
        }
    }
}

/// One rule: a selector list, then a declaration block.
pub open spec fn sp_parse_rule(s: Seq<char>, p: int) -> Parsed<RuleV> {
    match sp_parse_selectors(s, p) {
        Parsed::Fail(e) => Parsed::Fail(e),
        Parsed::Val(sels, p2) => match sp_parse_declarations(s, p2) {
            Parsed::Fail(e) => Parsed::Fail(e),
            Parsed::Val(ds, p3) => Parsed::Val(RuleV { selectors: sels, declarations: ds }, p3),
        },
    }
}

/// Rules separated by whitespace, to the end of input.
pub open spec fn sp_rules(s: Seq<char>, p: int, acc: Seq<RuleV>) -> Parsed<Seq<RuleV>>
    decreases s.len() - p,
{
    let q = ws_end(s, p);
    if q >= s.len() {
        Parsed::Val(acc, q)
    } else {
        match sp_parse_rule(s, q) {
            Parsed::Fail(e) => Parsed::Fail(e),
            Parsed::Val(r, p2) => {
                if p < p2 <= s.len() {
                    sp_rules(s, p2, acc.push(r))
                } else {
                    Parsed::Fail(ParseError::StructuralMismatch)
                }
            },
        }
    }
}

/// A whole stylesheet.
pub open spec fn sp_parse_stylesheet(s: Seq<char>, p: int) -> Parsed<StyleSheetV> {
    match sp_rules(s, p, Seq::empty()) {
        Parsed::Fail(e) => Parsed::Fail(e),
        Parsed::Val(rs, p2) => Parsed::Val(StyleSheetV { rules: rs }, p2),
    }
}

/// The digits of `ds` as a `u64`, or the report that they do not fit.
fn digits_to_u64(ds: &str) -> (r: Result<u64, ParseError>)
    requires
        forall|q: int| 0 <= q < ds@.len() ==> is_digit_char(#[trigger] ds@[q]),
    ensures
        match r {
            Ok(n) => n as int == digits_val(ds@) && digits_val(ds@) <= u64::MAX,
            Err(e) => e == ParseError::NumberTooLarge && digits_val(ds@) > u64::MAX,
        },
{
    let n: usize = ds.unicode_len();
    let mut acc: u64 = 0;
    let mut i: usize = 0;
    while i < n
        invariant
            0 <= i <= n,
            n == ds@.len(),
            forall|q: int| 0 <= q < ds@.len() ==> is_digit_char(#[trigger] ds@[q]),
            acc as int == val_upto(ds@, i as int),
        decreases n - i,
    {
        let c: char = ds.get_char(i);
        let d: u64 = ((c as u32) - ('0' as u32)) as u64;
        let m: u64 = match acc.checked_mul(10) {
            Some(m) => m,
            None => {
                proof {
                    lemma_val_mono(ds@, i + 1, n as int);
                }
                return Err(ParseError::NumberTooLarge);
            },
        };
        let v: u64 = match m.checked_add(d) {
            Some(v) => v,
            None => {
                proof {
                    lemma_val_mono(ds@, i + 1, n as int);
                }
                return Err(ParseError::NumberTooLarge);
            },
        };
        acc = v;
        i += 1;
    }
    Ok(acc)
}

/// The stylesheet parser: a cursor over the trimmed input text.
pub struct CSSParser {
    pub sc: Scanner,
}

impl CSSParser {
    pub open spec fn src(&self) -> Seq<char> {
        self.sc.src()
    }

    pub open spec fn pos(&self) -> int {
        self.sc.pos()
    }

    pub open spec fn wf(&self) -> bool {
        self.sc.wf()
    }

    /// Stand at the start of the trimmed input.
    pub fn new(input: String) -> (r: CSSParser)
        ensures
            r.src() == spec_trim(input@),
            r.pos() == 0,
            r.wf(),
    {
        CSSParser { sc: Scanner::new(input) }
    }

    /// Parse a whole stylesheet.
    pub fn parse_syle_sheet(&mut self) -> (r: Result<StyleSheet, ParseError>)
        requires
            old(self).wf(),
        ensures
            final(self).wf(),
            final(self).src() == old(self).src(),
            match r {
                Ok(sheet) => sp_parse_stylesheet(old(self).src(), old(self).pos()) == Parsed::Val(
                    sheet@,
                    final(self).pos(),
                ),
                Err(e) => sp_parse_stylesheet(old(self).src(), old(self).pos()) == Parsed::<
                    StyleSheetV,
                >::Fail(e),
            },
    {
        let rules: Vec<Rule> = match self.parse_rules() {
            Ok(rs) => rs,
            Err(e) => {
                return Err(e);
            },
        };
        Ok(StyleSheet { rules })
    }

    /// Parse rules separated by whitespace until the input ends.
    fn parse_rules(&mut self) -> (r: Result<Vec<Rule>, ParseError>)
        requires
            old(self).wf(),
        ensures
            final(self).wf(),
            final(self).src() == old(self).src(),
            old(self).pos() <= final(self).pos(),
            match r {
                Ok(rs) => sp_rules(old(self).src(), old(self).pos(), Seq::empty()) == Parsed::Val(
                    crate::css::rules_view(rs@),
                    final(self).pos(),
                ),
                Err(e) => sp_rules(old(self).src(), old(self).pos(), Seq::empty()) == Parsed::<
                    Seq<RuleV>,
                >::Fail(e),
            },
    {
        let ghost s = self.src();
        let ghost p0 = self.pos();
        let mut rules: Vec<Rule> = Vec::new();
        proof {
            assert(crate::css::rules_view(rules@) =~= Seq::<RuleV>::empty());
        }
        loop
            invariant
                self.wf(),
                s == old(self).src(),
                p0 == old(self).pos(),
                self.src() == s,
                p0 <= self.pos(),
                sp_rules(s, p0, Seq::empty()) == sp_rules(
                    s,
                    self.pos(),
                    crate::css::rules_view(rules@),
                ),
            decreases s.len() - self.pos(),
        {
            let ghost p_iter = self.pos();
            self.sc.skip_ws();
            if self.sc.is_end() {
                return Ok(rules);
            }
            let rule: Rule = match self.parse_rule() {
                Ok(ru) => ru,
                Err(e) => {
                    return Err(e);
                },
            };
            proof {
                assert(crate::css::rules_view(rules@.push(rule)) =~= crate::css::rules_view(
                    rules@,
                ).push(rule@));
            }
            rules.push(rule);
        }
    }

    /// Parse one rule: selectors, then a declaration block.
    fn parse_rule(&mut self) -> (r: Result<Rule, ParseError>)
        requires
            old(self).wf(),
        ensures
            final(self).wf(),
            final(self).src() == old(self).src(),
            old(self).pos() <= final(self).pos(),
            match r {
                Ok(ru) => sp_parse_rule(old(self).src(), old(self).pos()) == Parsed::Val(
                    ru@,
                    final(self).pos(),
                ) && old(self).pos() < final(self).pos(),
                Err(e) => sp_parse_rule(old(self).src(), old(self).pos()) == Parsed::<
                    RuleV,
                >::Fail(e),
            },
    {
        let selectors: Vec<Selector> = match self.parse_selectors() {
            Ok(v) => v,
            Err(e) => {
                return Err(e);
            },
        };
        let declarations: Vec<Declaration> = match self.parse_declarations() {
            Ok(v) => v,
            Err(e) => {
                return Err(e);
            },
        };
        Ok(Rule { selectors, declarations })
    }

    /// Parse one simple selector: `.class`, `#id` and tag tokens in any
    /// order and number.
    fn parse_simple_selector(&mut self) -> (r: SimpleSelector)
        requires
            old(self).wf(),
        ensures
            final(self).wf(),
            final(self).src() == old(self).src(),
            old(self).pos() <= final(self).pos(),
            sp_simple_sel(old(self).src(), old(self).pos(), empty_simple()) == Parsed::Val(
                r@,
                final(self).pos(),
            ),
    {
        let ghost s = self.src();
        let ghost p0 = self.pos();
        let mut sel: SimpleSelector = SimpleSelector::new();
        loop
            invariant
                self.wf(),
                s == old(self).src(),
                p0 == old(self).pos(),
                self.src() == s,
                p0 <= self.pos(),
                sp_simple_sel(s, p0, empty_simple()) == sp_simple_sel(s, self.pos(), sel@),
            decreases s.len() - self.pos(),
        {
            if self.sc.is_end() {
                return sel;
            }
            let c: char = self.sc.peek();
            if c == '.' {
                let _dot: char = self.sc.bump();
                let cls: String = self.sc.take_tag();
                let ghost before = sel@;
                sel.class.push(cls);
                proof {
                    assert(sel@.class =~= before.class.push(cls@));
                }
            } else if c == '#' {
                let _hash: char = self.sc.bump();
                let idt: String = self.sc.take_tag();
                sel.id = Some(idt);
            } else if is_tag_char(c) {
                let ghost p_here = self.pos();
                let t: String = self.sc.take_tag();
                proof {
                    crate::text::lemma_scan_end(s, p_here + 1, pred_tag());
                    assert(pred_tag()(s[p_here]));
                    assert(scan_end(s, p_here, pred_tag()) > p_here);
                }
                sel.tag_name = Some(t);
            } else {
                return sel;
            }
        }
    }

    /// Parse one selector of a selector list.
    fn parse_selector(&mut self) -> (r: Selector)
        requires
            old(self).wf(),
        ensures
            final(self).wf(),
            final(self).src() == old(self).src(),
            old(self).pos() <= final(self).pos(),
            sp_parse_selector(old(self).src(), old(self).pos()) == Parsed::Val(
                r@,
                final(self).pos(),
            ),
    {
        let simple: SimpleSelector = self.parse_simple_selector();
        Selector::Simple(simple)
    }

    /// Sort a selector list by descending specificity, stably.
    fn sort_selectors(sels: &mut Vec<Selector>)
        ensures
            sels_view(final(sels)@) == sel_sort(sels_view(old(sels)@)),
    {
        let ghost orig = sels_view(sels@);
        if sels.len() <= 1 {
            proof {
                reveal_with_fuel(sel_sort_upto, 2);
                if orig.len() == 1 {
                    assert(sel_sort_upto(orig, 1) == sel_insert(orig[0], Seq::empty()));
                    assert(sel_insert(orig[0], Seq::empty()) =~= orig);
                } else {
                    assert(sel_sort(orig) =~= orig);
                }
            }
            return ;
        }
        let mut i: usize = 1;
        proof {
            reveal_with_fuel(sel_sort_upto, 2);
            assert(sel_sort_upto(orig, 1) == sel_insert(orig[0], Seq::empty()));
            assert(sels_view(sels@).take(1) =~= sel_insert(orig[0], Seq::empty()));
            assert(sels_view(sels@).skip(1) =~= orig.skip(1));
        }
        while i < sels.len()
            invariant
                1 <= i <= sels@.len(),
                sels@.len() == orig.len(),
                orig == sels_view(old(sels)@),
                sels_view(sels@).take(i as int) == sel_sort_upto(orig, i as int),
                sels_view(sels@).skip(i as int) == orig.skip(i as int),
            decreases sels@.len() - i,
        {
            let ghost sv = sels_view(sels@);
            let ghost pfx = sv.take(i as int);
            let x: Selector = sels.remove(i);
            proof {
                assert(sv.skip(i as int)[0] == orig.skip(i as int)[0]);
                assert(x@ == orig[i as int]);
                assert forall|q: int| 0 <= q < i implies sels_view(sels@)[q] == pfx[q] by {
                    assert(sels@[q] == sels@.subrange(0, i as int)[q]);
                }
            }
            let mut idx: usize = 0;
            while idx < i && !sels[idx].specificity_lt(&x)
                invariant
                    0 <= idx <= i,
                    i < orig.len(),
                    sels@.len() == orig.len() - 1,
                    forall|q: int| 0 <= q < i ==> sels_view(sels@)[q] == pfx[q],
                    pfx.len() == i,
                    forall|q: int|
                        0 <= q < idx ==> !crate::css::spec3_lt(
                            crate::css::sel_spec3(#[trigger] pfx[q]),
                            crate::css::sel_spec3(x@),
                        ),
                decreases i - idx,
            {
                idx += 1;
            }
            proof {
                crate::css::lemma_sel_insert_at(x@, pfx, idx as int);
            }
            let ghost pre_insert = sels@;
            sels.insert(idx, x);
            proof {
                assert(sels_view(sels@).take(i + 1 as int) =~= pfx.take(idx as int) + seq![x@]
                    + pfx.skip(idx as int)) by {
                    assert forall|q: int| 0 <= q < i + 1 implies sels_view(sels@)[q] == (pfx.take(
                        idx as int,
                    ) + seq![x@] + pfx.skip(idx as int))[q] by {
                        if q < idx {
                            assert(sels@[q] == pre_insert[q]);
                        } else if q == idx {
                            assert(sels@[q] == x);
                        } else {
                            assert(sels@[q] == pre_insert[q - 1]);
                        }
                    }
                }
                assert(sel_sort_upto(orig, i + 1 as int) == sel_insert(
                    orig[i as int],
                    sel_sort_upto(orig, i as int),
                ));
                assert forall|q: int| i + 1 <= q < orig.len() implies sels_view(sels@)[q]
                    == orig[q] by {
                    assert(sels@[q] == pre_insert[q - 1]);
                    assert(sels_view(pre_insert)[q - 1] == sv[q]);
                    assert(sv.skip(i as int)[q - i] == orig.skip(i as int)[q - i]);
                }
                assert(sels_view(sels@).skip(i + 1 as int) =~= orig.skip(i + 1 as int));
            }
            i += 1;
        }
        proof {
            assert(sels_view(sels@) =~= sels_view(sels@).take(sels@.len() as int));
        }
    }

    /// Parse the comma-separated selector list of a rule and sort it by
    /// descending specificity.
    fn parse_selectors(&mut self) -> (r: Result<Vec<Selector>, ParseError>)
        requires
            old(self).wf(),
        ensures
            final(self).wf(),
            final(self).src() == old(self).src(),
            old(self).pos() <= final(self).pos(),
            match r {
                Ok(v) => sp_parse_selectors(old(self).src(), old(self).pos()) == Parsed::Val(
                    sels_view(v@),
                    final(self).pos(),
                ),
                Err(e) => sp_parse_selectors(old(self).src(), old(self).pos()) == Parsed::<
                    Seq<SelectorV>,
                >::Fail(e),
            },
    {
        let ghost s = self.src();
        let ghost p0 = self.pos();
        let mut sels: Vec<Selector> = Vec::new();
        proof {
            assert(sels_view(sels@) =~= Seq::<SelectorV>::empty());
        }
        loop
            invariant
                self.wf(),
                s == old(self).src(),
                p0 == old(self).pos(),
                self.src() == s,
                p0 <= self.pos(),
                sp_selectors(s, p0, Seq::empty()) == sp_selectors(s, self.pos(), sels_view(sels@)),
            decreases s.len() - self.pos(),
        {
            if self.sc.is_end() {
                Self::sort_selectors(&mut sels);
                return Ok(sels);
            }
            let ghost p_iter = self.pos();
            let sel: Selector = self.parse_selector();
            self.sc.skip_ws();
            if self.sc.is_end() {
                return Err(ParseError::UnexpectedEnd);
            }
            let c: char = self.sc.peek();
            if c == ',' {
                let _comma: char = self.sc.bump();
                self.sc.skip_ws();
                proof {
                    assert(sels_view(sels@.push(sel)) =~= sels_view(sels@).push(sel@));
                }
                sels.push(sel);
            } else if c == '{' {
                proof {
                    assert(sels_view(sels@.push(sel)) =~= sels_view(sels@).push(sel@));
                }
                sels.push(sel);
                Self::sort_selectors(&mut sels);
                return Ok(sels);
            } else {
                return Err(ParseError::StructuralMismatch);
            }
        }
    }

    /// Parse a `{ ... }` declaration block.
    fn parse_declarations(&mut self) -> (r: Result<Vec<Declaration>, ParseError>)
        requires
            old(self).wf(),
        ensures
            final(self).wf(),
            final(self).src() == old(self).src(),
            old(self).pos() <= final(self).pos(),
            match r {
                Ok(v) => sp_parse_declarations(old(self).src(), old(self).pos()) == Parsed::Val(
                    decls_view(v@),
                    final(self).pos(),
                ) && old(self).pos() < final(self).pos(),
                Err(e) => sp_parse_declarations(old(self).src(), old(self).pos()) == Parsed::<
                    Seq<DeclarationV>,
                >::Fail(e),
            },
    {
        let ghost s = self.src();
        let ghost p0 = self.pos();
        proof {
            reveal_strlit("{");
            reveal_strlit("}");
        }
        match self.sc.expect("{") {
            Ok(()) => (),
            Err(e) => {
                return Err(e);
            },
        }
        let ghost pb = self.pos();
        let mut decls: Vec<Declaration> = Vec::new();
        proof {
            assert(decls_view(decls@) =~= Seq::<DeclarationV>::empty());
        }
        loop
            invariant
                self.wf(),
                s == old(self).src(),
                p0 == old(self).pos(),
                self.src() == s,
                begins_with(s, p0, "{"@),
                pb == p0 + "{"@.len(),
                "{"@.len() == 1,
                "}"@.len() == 1,
                pb <= self.pos(),
                sp_decls(s, pb, Seq::empty()) == sp_decls(s, self.pos(), decls_view(decls@)),
            decreases s.len() - self.pos(),
        {
            let ghost p_iter = self.pos();
            self.sc.skip_ws();
            if self.sc.is_end() {
                return Err(ParseError::StructuralMismatch);
            }
            if self.sc.peek() == '}' {
                match self.sc.expect("}") {
                    Ok(()) => (),
                    Err(e) => {
                        return Err(e);
                    },
                }
                return Ok(decls);
            }
            let d: Declaration = match self.parse_declaration() {
                Ok(d) => d,
                Err(e) => {
                    return Err(e);
                },
            };
            proof {
                assert(decls_view(decls@.push(d)) =~= decls_view(decls@).push(d@));
            }
            decls.push(d);
        }
    }

    /// Parse one `name: value;` declaration.
    fn parse_declaration(&mut self) -> (r: Result<Declaration, ParseError>)
        requires
            old(self).wf(),
        ensures
            final(self).wf(),
            final(self).src() == old(self).src(),
            old(self).pos() <= final(self).pos(),
            match r {
                Ok(d) => sp_parse_declaration(old(self).src(), old(self).pos()) == Parsed::Val(
                    d@,
                    final(self).pos(),
                ) && old(self).pos() < final(self).pos(),
                Err(e) => sp_parse_declaration(old(self).src(), old(self).pos()) == Parsed::<
                    DeclarationV,
                >::Fail(e),
            },
    {
        proof {
            reveal_strlit(":");
            reveal_strlit(";");
        }
        let name: String = self.sc.take_tag();
        self.sc.skip_ws();
        match self.sc.expect(":") {
            Ok(()) => (),
            Err(e) => {
                return Err(e);
            },
        }
        self.sc.skip_ws();
        let value: DeclarationValue = match self.parse_value() {
            Ok(v) => v,
            Err(e) => {
                return Err(e);
            },
        };
        self.sc.skip_ws();
        match self.sc.expect(";") {
            Ok(()) => (),
            Err(e) => {
                return Err(e);
            },
        }
        Ok(Declaration { name, value })
    }

    /// Parse a declaration value: a color when the lookahead says so, else
    /// a keyword.
    fn parse_value(&mut self) -> (r: Result<DeclarationValue, ParseError>)
        requires
            old(self).wf(),
        ensures
            final(self).wf(),
            final(self).src() == old(self).src(),
            old(self).pos() <= final(self).pos(),
            match r {
                Ok(v) => sp_parse_value(old(self).src(), old(self).pos()) == Parsed::Val(
                    v@,
                    final(self).pos(),
                ),
                Err(e) => sp_parse_value(old(self).src(), old(self).pos()) == Parsed::<
                    DeclarationValueV,
                >::Fail(e),
            },
    {
        if self.sc.is_end() {
            return Err(ParseError::UnexpectedEnd);
        }
        let c: char = self.sc.peek();
        if c == '#' || self.sc.starts_with("rgb(") || self.sc.starts_with("rgba(") {
            self.parse_color()
        } else {
            let word: String = self.sc.take_tag();
            Ok(DeclarationValue::Keyword(word))
        }
    }

    /// Parse a color: only the `#` form has a grammar here.
    fn parse_color(&mut self) -> (r: Result<DeclarationValue, ParseError>)
        requires
            old(self).wf(),
        ensures
            final(self).wf(),
            final(self).src() == old(self).src(),
            old(self).pos() <= final(self).pos(),
            match r {
                Ok(v) => sp_parse_color(old(self).src(), old(self).pos()) == Parsed::Val(
                    v@,
                    final(self).pos(),
                ),
                Err(e) => sp_parse_color(old(self).src(), old(self).pos()) == Parsed::<
                    DeclarationValueV,
                >::Fail(e),
            },
    {
        if self.sc.is_end() {
            return Err(ParseError::UnexpectedEnd);
        }
        if self.sc.peek() == '#' {
            let cv: ColorValue = match self.parse_hex_color() {
                Ok(cv) => cv,
                Err(e) => {
                    return Err(e);
                },
            };
            Ok(DeclarationValue::ColorValue(cv))
        } else {
            let word: String = self.sc.take_tag();
            Ok(DeclarationValue::Keyword(word))
        }
    }

    /// Parse `#rrggbb` into a color with alpha 255.
    pub fn parse_hex_color(&mut self) -> (r: Result<ColorValue, ParseError>)
        requires
            old(self).wf(),
        ensures
            final(self).wf(),
            final(self).src() == old(self).src(),
            old(self).pos() <= final(self).pos(),
            match r {
                Ok(cv) => sp_parse_hex_color(old(self).src(), old(self).pos()) == Parsed::Val(
                    cv@,
                    final(self).pos(),
                ),
                Err(e) => sp_parse_hex_color(old(self).src(), old(self).pos()) == Parsed::<
                    ColorValueV,
                >::Fail(e),
            },
    {
        proof {
            reveal_strlit("#");
        }
        match self.sc.expect("#") {
            Ok(()) => (),
            Err(e) => {
                return Err(e);
            },
        }
        let red: u8 = match self.parse_hex_pair() {
            Ok(v) => v,
            Err(e) => {
                return Err(e);
            },
        };
        let green: u8 = match self.parse_hex_pair() {
            Ok(v) => v,
            Err(e) => {
                return Err(e);
            },
        };
        let blue: u8 = match self.parse_hex_pair() {
            Ok(v) => v,
            Err(e) => {
                return Err(e);
            },
        };
        Ok(ColorValue::RBGColorValue(red, green, blue, 255))
    }

    /// Parse two hexadecimal digits as one byte.
    fn parse_hex_pair(&mut self) -> (r: Result<u8, ParseError>)
        requires
            old(self).wf(),
        ensures
            final(self).wf(),
            final(self).src() == old(self).src(),
            old(self).pos() <= final(self).pos(),
            match r {
                Ok(v) => sp_hex_pair(old(self).src(), old(self).pos()) == Parsed::Val(
                    v,
                    final(self).pos(),
                ),
                Err(e) => sp_hex_pair(old(self).src(), old(self).pos()) == Parsed::<u8>::Fail(e),
            },
    {
        if self.sc.is_end() {
            return Err(ParseError::UnexpectedEnd);
        }
        let c0: char = self.sc.bump();
        if self.sc.is_end() {
            return Err(ParseError::UnexpectedEnd);
        }
        let c1: char = self.sc.bump();
        let h0: u8 = match hex_digit(c0) {
            Some(v) => v,
            None => {
                return Err(ParseError::StructuralMismatch);
            },
        };
        let h1: u8 = match hex_digit(c1) {
            Some(v) => v,
            None => {
                return Err(ParseError::StructuralMismatch);
            },
        };
        Ok(h0 * 16 + h1)
    }

    /// Parse a length value: digits then a unit.
    pub fn parse_value_length(&mut self) -> (r: Result<DeclarationValue, ParseError>)
        requires
            old(self).wf(),
        ensures
            final(self).wf(),
            final(self).src() == old(self).src(),
            old(self).pos() <= final(self).pos(),
            match r {
                Ok(v) => sp_parse_value_length(old(self).src(), old(self).pos()) == Parsed::Val(
                    v@,
                    final(self).pos(),
                ),
                Err(e) => sp_parse_value_length(old(self).src(), old(self).pos()) == Parsed::<
                    DeclarationValueV,
                >::Fail(e),
            },
    {
        let ds: String = self.sc.take_digits();
        if ds.as_str().unicode_len() == 0 {
            return Err(ParseError::StructuralMismatch);
        }
        let n: u64 = match digits_to_u64(ds.as_str()) {
            Ok(n) => n,
            Err(e) => {
                return Err(e);
            },
        };
        let unit: UnitValue = match self.parse_unit() {
            Ok(u) => u,
            Err(e) => {
                return Err(e);
            },
        };
        Ok(DeclarationValue::Length(n, unit))
    }

    /// Parse a unit keyword: `px`, `em` or `rem`, case-insensitively.
    pub fn parse_unit(&mut self) -> (r: Result<UnitValue, ParseError>)
        requires
            old(self).wf(),
        ensures
            final(self).wf(),
            final(self).src() == old(self).src(),
            old(self).pos() <= final(self).pos(),
            match r {
                Ok(u) => sp_parse_unit(old(self).src(), old(self).pos()) == Parsed::Val(
                    u,
                    final(self).pos(),
                ),
                Err(e) => sp_parse_unit(old(self).src(), old(self).pos()) == Parsed::<
                    UnitValue,
                >::Fail(e),
            },
    {
        let tok: String = self.sc.take_tag();
        let t: &str = tok.as_str();
        let n: usize = t.unicode_len();
        if n == 2 && char_low_is(t.get_char(0), 'p') && char_low_is(t.get_char(1), 'x') {
            Ok(UnitValue::Px)
        } else if n == 2 && char_low_is(t.get_char(0), 'e') && char_low_is(t.get_char(1), 'm') {
            Ok(UnitValue::Em)
        } else if n == 3 && char_low_is(t.get_char(0), 'r') && char_low_is(t.get_char(1), 'e')
            && char_low_is(t.get_char(2), 'm') {
            Ok(UnitValue::Rem)
        } else {
            Err(ParseError::UnknownUnit)
        }
    }

    /// Parse a run of decimal digits, as text.
    pub fn parse_number(&mut self) -> (r: String)
        requires
            old(self).wf(),
        ensures
            final(self).wf(),
            final(self).src() == old(self).src(),
            old(self).pos() <= final(self).pos(),
            final(self).pos() == scan_end(old(self).src(), old(self).pos(), pred_digit()),
            r@ == old(self).src().subrange(old(self).pos(), final(self).pos()),
    {
        self.sc.take_digits()
    }

    /// Parse a run of identifier characters.
    fn parse_identifier(&mut self) -> (r: String)
        requires
            old(self).wf(),
        ensures
            final(self).wf(),
            final(self).src() == old(self).src(),
            old(self).pos() <= final(self).pos(),
            final(self).pos() == scan_end(old(self).src(), old(self).pos(), pred_tag()),
            r@ == old(self).src().subrange(old(self).pos(), final(self).pos()),
    {
        self.sc.take_tag()
    }

    /// Skip whitespace.
    fn skip_whitespace(&mut self)
        requires
            old(self).wf(),
        ensures
            final(self).wf(),
            final(self).src() == old(self).src(),
            old(self).pos() <= final(self).pos(),
            final(self).pos() == ws_end(old(self).src(), old(self).pos()),
    {
        self.sc.skip_ws()
    }
}

} // verus!
