//! The style model: stylesheets, rules, selectors, declarations, and
//! selector specificity.  A rule's selectors are kept sorted by descending
//! specificity so that the first matching selector is a highest-specificity
//! match.

use vstd::prelude::*;

verus! {

/// A length unit.
#[derive(Debug, Clone, Copy, PartialEq, Eq, Structural)]
pub enum UnitValue {
    Px,
    Em,
    Rem,
    Percent,
}

/// A color value.
#[derive(Debug, Clone, PartialEq)]
pub enum ColorValue {
    HexColorValue(String),
    RBGColorValue(u8, u8, u8, u8),
    HSLColorValue(u8, u8, u8, u8),
}

/// Model of a color value.
pub enum ColorValueV {
    Hex(Seq<char>),
    Rgb(u8, u8, u8, u8),
    Hsl(u8, u8, u8, u8),
}

impl View for ColorValue {
    type V = ColorValueV;

    open spec fn view(&self) -> ColorValueV {
        match self {
            ColorValue::HexColorValue(s) => ColorValueV::Hex(s@),
            ColorValue::RBGColorValue(r, g, b, a) => ColorValueV::Rgb(*r, *g, *b, *a),
            ColorValue::HSLColorValue(h, s, l, a) => ColorValueV::Hsl(*h, *s, *l, *a),
        }
    }
}

/// The value of a declaration: a keyword, a length, or a color.
#[derive(Debug, Clone, PartialEq)]
pub enum DeclarationValue {
    Keyword(String),
    Length(u64, UnitValue),
    ColorValue(ColorValue),
}

/// Model of a declaration value.
pub enum DeclarationValueV {
    Keyword(Seq<char>),
    Length(u64, UnitValue),
    ColorValue(ColorValueV),
}

impl View for DeclarationValue {
    type V = DeclarationValueV;

    open spec fn view(&self) -> DeclarationValueV {
        match self {
            DeclarationValue::Keyword(s) => DeclarationValueV::Keyword(s@),
            DeclarationValue::Length(n, u) => DeclarationValueV::Length(*n, *u),
            DeclarationValue::ColorValue(c) => DeclarationValueV::ColorValue(c@),
        }
    }
}

/// A copy of a declaration value.
pub fn copy_value(v: &DeclarationValue) -> (r: DeclarationValue)
    ensures
        r@ == v@,
{
    match v {
        DeclarationValue::Keyword(s) => DeclarationValue::Keyword(s.clone()),
        DeclarationValue::Length(n, u) => DeclarationValue::Length(*n, *u),
        DeclarationValue::ColorValue(c) => DeclarationValue::ColorValue(
            match c {
                ColorValue::HexColorValue(s) => ColorValue::HexColorValue(s.clone()),
                ColorValue::RBGColorValue(a, b, cc, d) => ColorValue::RBGColorValue(*a, *b, *cc, *d),
                ColorValue::HSLColorValue(a, b, cc, d) => ColorValue::HSLColorValue(*a, *b, *cc, *d),
            },
        ),
    }
}

/// One `name: value;` declaration.
#[derive(Debug, Clone, PartialEq)]
pub struct Declaration {
    pub name: String,
    pub value: DeclarationValue,
}

/// Model of a declaration.
pub struct DeclarationV {
    pub name: Seq<char>,
    pub value: DeclarationValueV,
}

impl View for Declaration {
    type V = DeclarationV;

    open spec fn view(&self) -> DeclarationV {
        DeclarationV { name: self.name@, value: self.value@ }
    }
}

/// A simple selector: optional tag, optional id, required classes, all
/// conjunctive.
#[derive(Debug, Clone, PartialEq)]
pub struct SimpleSelector {
    pub tag_name: Option<String>,
    pub id: Option<String>,
    pub class: Vec<String>,
}

/// Model of a simple selector.
pub struct SimpleSelectorV {
    pub tag_name: Option<Seq<char>>,
    pub id: Option<Seq<char>>,
    pub class: Seq<Seq<char>>,
}

impl View for SimpleSelector {
    type V = SimpleSelectorV;

    open spec fn view(&self) -> SimpleSelectorV {
        SimpleSelectorV {
            tag_name: match self.tag_name {
                Some(t) => Some(t@),
                None => None,
            },
            id: match self.id {
                Some(t) => Some(t@),
                None => None,
            },
            class: crate::dom::strs_view(self.class@),
        }
    }
}

impl SimpleSelector {
    /// A selector with no constraints at all.
    pub fn new() -> (r: Self)
        ensures
            r@.tag_name is None,
            r@.id is None,
            r@.class == Seq::<Seq<char>>::empty(),
    {
        let r = SimpleSelector { tag_name: None, id: None, class: Vec::new() };
        proof {
            assert(r@.class =~= Seq::<Seq<char>>::empty());
        }
        r
    }
}

/// A selector; only the simple form exists.
#[derive(Debug, Clone, PartialEq)]
pub enum Selector {
    Simple(SimpleSelector),
}

/// Model of a selector.
pub enum SelectorV {
    Simple(SimpleSelectorV),
}

impl View for Selector {
    type V = SelectorV;

    open spec fn view(&self) -> SelectorV {
        match self {
            Selector::Simple(s) => SelectorV::Simple(s@),
        }
    }
}

/// The views of a sequence of selectors.
pub open spec fn sels_view(v: Seq<Selector>) -> Seq<SelectorV> {
    v.map_values(|s: Selector| s@)
}

/// The views of a sequence of declarations.
pub open spec fn decls_view(v: Seq<Declaration>) -> Seq<DeclarationV> {
    v.map_values(|d: Declaration| d@)
}

/// The views of a sequence of rules.
pub open spec fn rules_view(v: Seq<Rule>) -> Seq<RuleV> {
    v.map_values(|r: Rule| r@)
}

/// The specificity triple: (tag present, id present, class count).
pub type Specificity = (usize, usize, usize);

/// The specificity of a selector, as mathematical integers.
pub open spec fn sel_spec3(s: SelectorV) -> (int, int, int) {
    match s {
        SelectorV::Simple(ss) => (
            if ss.tag_name is Some {
                1int
            } else {
                0int
            },
            if ss.id is Some {
                1int
            } else {
                0int
            },
            ss.class.len() as int,
        ),
    }
}

/// Strict specificity order: id components outrank class components, which
/// outrank tag components.
pub open spec fn spec3_lt(a: (int, int, int), b: (int, int, int)) -> bool {
    a.1 < b.1 || (a.1 == b.1 && (a.2 < b.2 || (a.2 == b.2 && a.0 < b.0)))
}

impl Selector {
    /// A selector with no constraints.
    pub fn new() -> (r: Self)
        ensures
            r@ matches SelectorV::Simple(ss) && ss.tag_name is None && ss.id is None && ss.class
                == Seq::<Seq<char>>::empty(),
    {
        Selector::Simple(SimpleSelector::new())
    }

    /// The specificity triple of this selector.
    pub fn specificity(&self) -> (r: Specificity)
        ensures
            (r.0 as int, r.1 as int, r.2 as int) == sel_spec3(self@),
    {
        let Selector::Simple(simple) = self;
        let t: usize = match &simple.tag_name {
            Some(_) => 1,
            None => 0,
        };
        let i: usize = match &simple.id {
            Some(_) => 1,
            None => 0,
        };
        let c: usize = simple.class.len();
        (t, i, c)
    }

    /// Does `self` rank strictly below `other`?
    pub fn specificity_lt(&self, other: &Selector) -> (r: bool)
        ensures
            r == spec3_lt(sel_spec3(self@), sel_spec3(other@)),
    {
        let a: Specificity = self.specificity();
        let b: Specificity = other.specificity();
        a.1 < b.1 || (a.1 == b.1 && (a.2 < b.2 || (a.2 == b.2 && a.0 < b.0)))
    }
}

/// A rule: its selectors (sorted by descending specificity) and its
/// declarations in source order.
#[derive(Debug, Clone, PartialEq)]
pub struct Rule {
    pub selectors: Vec<Selector>,
    pub declarations: Vec<Declaration>,
}

/// Model of a rule.
pub struct RuleV {
    pub selectors: Seq<SelectorV>,
    pub declarations: Seq<DeclarationV>,
}

impl View for Rule {
    type V = RuleV;

    open spec fn view(&self) -> RuleV {
        RuleV {
            selectors: sels_view(self.selectors@),
            declarations: decls_view(self.declarations@),
        }
    }
}

/// An ordered list of rules; the order is the source order and is
/// significant for cascade tie-breaks.
#[derive(Debug, Clone, PartialEq)]
pub struct StyleSheet {
    pub rules: Vec<Rule>,
}

/// Model of a stylesheet.
pub struct StyleSheetV {
    pub rules: Seq<RuleV>,
}

impl View for StyleSheet {
    type V = StyleSheetV;

    open spec fn view(&self) -> StyleSheetV {
        StyleSheetV { rules: rules_view(self.rules@) }
    }
}

// ------------------------------------------------------------------
// Sorting a selector list by descending specificity, stably.
// ------------------------------------------------------------------
/// Insert `x` behind every selector whose specificity is not below `x`'s.
pub open spec fn sel_insert(x: SelectorV, s: Seq<SelectorV>) -> Seq<SelectorV>
    decreases s.len(),
{
    if s.len() > 0 && !spec3_lt(sel_spec3(s[0]), sel_spec3(x)) {
        seq![s[0]] + sel_insert(x, s.drop_first())
    } else {
        seq![x] + s
    }
}

/// The first `i` selectors, sorted by descending specificity, equal ones
/// keeping their order.
pub open spec fn sel_sort_upto(s: Seq<SelectorV>, i: int) -> Seq<SelectorV>
    decreases i,
{
    if i <= 0 {
        Seq::empty()
    } else {
        sel_insert(s[i - 1], sel_sort_upto(s, i - 1))
    }
}

/// The whole selector list sorted by descending specificity.
pub open spec fn sel_sort(s: Seq<SelectorV>) -> Seq<SelectorV> {
    sel_sort_upto(s, s.len() as int)
}

/// `sel_insert` works at the position where the scan for the first
/// lower-specificity selector stops.
pub proof fn lemma_sel_insert_at(x: SelectorV, s: Seq<SelectorV>, idx: int)
    requires
        0 <= idx <= s.len(),
        forall|i: int| 0 <= i < idx ==> !spec3_lt(sel_spec3(#[trigger] s[i]), sel_spec3(x)),
        idx < s.len() ==> spec3_lt(sel_spec3(s[idx]), sel_spec3(x)),
    ensures
        sel_insert(x, s) == s.take(idx) + seq![x] + s.skip(idx),
    decreases idx,
{
    if idx == 0 {
        assert(seq![x] + s =~= s.take(0) + seq![x] + s.skip(0));
    } else {
        let d = s.drop_first();
        assert forall|i: int| 0 <= i < idx - 1 implies !spec3_lt(
            sel_spec3(#[trigger] d[i]),
            sel_spec3(x),
        ) by {
            assert(d[i] == s[i + 1]);
        }
        if idx - 1 < d.len() {
            assert(d[idx - 1] == s[idx]);
        }
        lemma_sel_insert_at(x, d, idx - 1);
        assert(seq![s[0]] + (d.take(idx - 1) + seq![x] + d.skip(idx - 1)) =~= s.take(idx) + seq![x]
            + s.skip(idx));
    }
}

/// After sorting, specificities stand in descending order.
pub proof fn lemma_sel_insert_sorted(x: SelectorV, s: Seq<SelectorV>)
    requires
        forall|i: int, j: int|
            0 <= i < j < s.len() ==> !spec3_lt(
                sel_spec3(#[trigger] s[i]),
                sel_spec3(#[trigger] s[j]),
            ),
    ensures
        forall|i: int, j: int|
            0 <= i < j < sel_insert(x, s).len() ==> !spec3_lt(
                sel_spec3(#[trigger] sel_insert(x, s)[i]),
                sel_spec3(#[trigger] sel_insert(x, s)[j]),
            ),
        sel_insert(x, s).len() == s.len() + 1,
    decreases s.len(),
{
    let r = sel_insert(x, s);
    if s.len() > 0 && !spec3_lt(sel_spec3(s[0]), sel_spec3(x)) {
        let d = s.drop_first();
        assert forall|i: int, j: int| 0 <= i < j < d.len() implies !spec3_lt(
            sel_spec3(#[trigger] d[i]),
            sel_spec3(#[trigger] d[j]),
        ) by {
            assert(d[i] == s[i + 1] && d[j] == s[j + 1]);
        }
        lemma_sel_insert_sorted(x, d);
        let rd = sel_insert(x, d);
        // every element of rd is x or an element of d, so s[0] is not below it
        assert forall|j: int| 0 <= j < rd.len() implies !spec3_lt(
            sel_spec3(s[0]),
            sel_spec3(#[trigger] rd[j]),
        ) by {
            lemma_sel_insert_membership(x, d, j);
            if rd[j] == x {
            } else {
                let k = choose|k: int| 0 <= k < d.len() && d[k] == rd[j];
                assert(s[k + 1] == d[k]);
            }
        }
        assert forall|i: int, j: int| 0 <= i < j < r.len() implies !spec3_lt(
            sel_spec3(#[trigger] r[i]),
            sel_spec3(#[trigger] r[j]),
        ) by {
            if i == 0 {
                assert(r[j] == rd[j - 1]);
            } else {
                assert(r[i] == rd[i - 1] && r[j] == rd[j - 1]);
            }
        }
    } else {
    }
}

/// Each element of `sel_insert(x, s)` is `x` or one of `s`.
pub proof fn lemma_sel_insert_membership(x: SelectorV, s: Seq<SelectorV>, j: int)
    requires
        0 <= j < sel_insert(x, s).len(),
    ensures
        sel_insert(x, s)[j] == x || exists|k: int| 0 <= k < s.len() && s[k] == sel_insert(x, s)[j],
    decreases s.len(),
{
    if s.len() > 0 && !spec3_lt(sel_spec3(s[0]), sel_spec3(x)) {
        if j == 0 {
            assert(sel_insert(x, s)[0] == s[0]);
        } else {
            lemma_sel_insert_membership(x, s.drop_first(), j - 1);
            assert(sel_insert(x, s)[j] == sel_insert(x, s.drop_first())[j - 1]);
            if sel_insert(x, s.drop_first())[j - 1] != x {
                let k = choose|k: int|
                    0 <= k < s.drop_first().len() && s.drop_first()[k] == sel_insert(
                        x,
                        s.drop_first(),
                    )[j - 1];
                assert(s[k + 1] == s.drop_first()[k]);
            }
        }
    } else {
        if j == 0 {
        } else {
            assert(sel_insert(x, s)[j] == s[j - 1]);
        }
    }
}

/// How specificities rank: more id components outrank any number of class
/// components, which outrank any number of tag components.
pub proof fn lemma_specificity_ranks(a: (int, int, int), b: (int, int, int))
    ensures
        a.1 < b.1 ==> spec3_lt(a, b),
        a.1 == b.1 && a.2 < b.2 ==> spec3_lt(a, b),
        a.1 == b.1 && a.2 == b.2 && a.0 < b.0 ==> spec3_lt(a, b),
        spec3_lt(a, b) ==> !spec3_lt(b, a) && a != b,
        spec3_lt(a, b) || spec3_lt(b, a) || a == b,
{
}

/// A sorted selector list has its specificities in descending order.
pub proof fn lemma_sel_sort_sorted(s: Seq<SelectorV>, i: int)
    requires
        0 <= i <= s.len(),
    ensures
        sel_sort_upto(s, i).len() == i,
        forall|a: int, b: int|
            0 <= a < b < i ==> !spec3_lt(
                sel_spec3(#[trigger] sel_sort_upto(s, i)[a]),
                sel_spec3(#[trigger] sel_sort_upto(s, i)[b]),
            ),
    decreases i,
{
    if i > 0 {
        lemma_sel_sort_sorted(s, i - 1);
        lemma_sel_insert_sorted(s[i - 1], sel_sort_upto(s, i - 1));
    }
}

} // verus!
