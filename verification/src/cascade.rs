//! The cascade resolver: matching rules against tree elements and folding
//! the matched declarations into one property map per element.  The
//! resolver's contract is declarative: for every property name, the value
//! in the map is the one written by the matching rule of greatest
//! (effective specificity, source position), and a property no matching
//! rule declares is absent.

use vstd::prelude::*;
use vstd::multiset::Multiset;

use crate::css::{
    copy_value, sel_spec3, spec3_lt, DeclarationValue, DeclarationValueV, DeclarationV, Rule,
    RuleV, Selector, SelectorV, SimpleSelector, Specificity, StyleSheet,
};
use crate::dom::{amap_get, Element, ElementV, Node, NodeType};
use crate::text::str_eq;

verus! {

// ------------------------------------------------------------------
// Selector matching.
// ------------------------------------------------------------------
/// A selector matches an element iff every constraint it declares holds.
pub open spec fn sel_matches(e: ElementV, sel: SelectorV) -> bool {
    match sel {
        SelectorV::Simple(ss) => {
            &&& (match ss.tag_name {
                Some(t) => t == e.tag_name,
                None => true,
            })
            &&& (match ss.id {
                Some(id) => amap_get(e.atributes, "id"@) == Some(id),
                None => true,
            })
            &&& (forall|i: int|
                0 <= i < ss.class.len() ==> Element::spec_classes(e).contains(
                    #[trigger] ss.class[i],
                ))
        },
    }
}

/// Does a simple selector match this element?
pub fn matches_simple_selector(elem: &Element, selector: &SimpleSelector) -> (r: bool)
    ensures
        r == sel_matches(elem@, SelectorV::Simple(selector@)),
{
    match &selector.tag_name {
        Some(name) => {
            if !str_eq(elem.tag_name.as_str(), name.as_str()) {
                return false;
            }
        },
        None => (),
    }
    match &selector.id {
        Some(id) => {
            match elem.atributes.get("id") {
                Some(v) => {
                    if !str_eq(v.as_str(), id.as_str()) {
                        return false;
                    }
                },
                None => {
                    return false;
                },
            }
        },
        None => (),
    }
    let mut i: usize = 0;
    while i < selector.class.len()
        invariant
            0 <= i <= selector.class@.len(),
            forall|q: int|
                0 <= q < i ==> Element::spec_classes(elem@).contains(
                    #[trigger] crate::dom::strs_view(selector.class@)[q],
                ),
        decreases selector.class@.len() - i,
    {
        if !elem.has_class(selector.class[i].as_str()) {
            proof {
                assert(selector@.class[i as int] == crate::dom::strs_view(selector.class@)[
                    i as int]);
                assert(!Element::spec_classes(elem@).contains(selector@.class[i as int]));
            }
            return false;
        }
        i += 1;
    }
    true
}

/// Does a selector match this element?
pub fn matches(elem: &Element, selector: &Selector) -> (r: bool)
    ensures
        r == sel_matches(elem@, selector@),
{
    match selector {
        Selector::Simple(simple_selector) => matches_simple_selector(elem, simple_selector),
    }
}

// ------------------------------------------------------------------
// Rule matching and effective specificity.
// ------------------------------------------------------------------
/// A rule matches iff at least one of its selectors matches.
pub open spec fn rule_matches(e: ElementV, r: RuleV) -> bool {
    exists|i: int| 0 <= i < r.selectors.len() && sel_matches(e, #[trigger] r.selectors[i])
}

/// The index of the first matching selector.
pub open spec fn first_match(e: ElementV, sels: Seq<SelectorV>) -> int
    decreases sels.len(),
{
    if sels.len() == 0 {
        0
    } else if sel_matches(e, sels[0]) {
        0
    } else {
        1 + first_match(e, sels.drop_first())
    }
}

/// The effective specificity of a matched rule: that of the first matching
/// selector in its (descending-sorted) list.
pub open spec fn rule_eff(e: ElementV, r: RuleV) -> (int, int, int) {
    sel_spec3(r.selectors[first_match(e, r.selectors)])
}

/// `first_match` is the least matching index.
pub proof fn lemma_first_match(e: ElementV, sels: Seq<SelectorV>, j: int)
    requires
        0 <= j < sels.len(),
        sel_matches(e, sels[j]),
        forall|i: int| 0 <= i < j ==> !sel_matches(e, #[trigger] sels[i]),
    ensures
        first_match(e, sels) == j,
    decreases j,
{
    if j > 0 {
        assert forall|i: int| 0 <= i < j - 1 implies !sel_matches(
            e,
            #[trigger] sels.drop_first()[i],
        ) by {
            assert(sels.drop_first()[i] == sels[i + 1]);
        }
        assert(sels.drop_first()[j - 1] == sels[j]);
        lemma_first_match(e, sels.drop_first(), j - 1);
    }
}

/// In a selector list sorted by descending specificity, the first matching
/// selector is a highest-specificity matching selector, so a rule's
/// effective specificity is the greatest among its matching selectors.
pub proof fn lemma_first_match_is_highest(e: ElementV, sels: Seq<SelectorV>)
    requires
        forall|i: int, j: int|
            0 <= i < j < sels.len() ==> !crate::css::spec3_lt(
                sel_spec3(#[trigger] sels[i]),
                sel_spec3(#[trigger] sels[j]),
            ),
        exists|i: int| 0 <= i < sels.len() && sel_matches(e, #[trigger] sels[i]),
    ensures
        0 <= first_match(e, sels) < sels.len(),
        sel_matches(e, sels[first_match(e, sels)]),
        forall|i: int|
            0 <= i < sels.len() && sel_matches(e, #[trigger] sels[i]) ==> !crate::css::spec3_lt(
                sel_spec3(sels[first_match(e, sels)]),
                sel_spec3(sels[i]),
            ),
    decreases sels.len(),
{
    let f = first_match(e, sels);
    if sels.len() > 0 && !sel_matches(e, sels[0]) {
        let d = sels.drop_first();
        assert forall|i: int, j: int| 0 <= i < j < d.len() implies !crate::css::spec3_lt(
            sel_spec3(#[trigger] d[i]),
            sel_spec3(#[trigger] d[j]),
        ) by {
            assert(d[i] == sels[i + 1] && d[j] == sels[j + 1]);
        }
        let w = choose|i: int| 0 <= i < sels.len() && sel_matches(e, #[trigger] sels[i]);
        assert(d[w - 1] == sels[w]);
        lemma_first_match_is_highest(e, d);
        assert(sels[f] == d[first_match(e, d)]);
        assert forall|i: int|
            0 <= i < sels.len() && sel_matches(e, #[trigger] sels[i]) implies !crate::css::spec3_lt(
            sel_spec3(sels[f]),
            sel_spec3(sels[i]),
        ) by {
            assert(i > 0);
            assert(d[i - 1] == sels[i]);
        }
    } else {
        assert forall|i: int|
            0 <= i < sels.len() && sel_matches(e, #[trigger] sels[i]) implies !crate::css::spec3_lt(
            sel_spec3(sels[f]),
            sel_spec3(sels[i]),
        ) by {
            if i > 0 {
                assert(!crate::css::spec3_lt(sel_spec3(sels[0]), sel_spec3(sels[i])));
            }
        }
    }
}

/// For a parse-time sorted selector list, the first matching selector's
/// specificity — the rule's effective specificity — is a maximum over all
/// matching selectors.
pub proof fn lemma_sorted_selectors_effective(e: ElementV, sels: Seq<SelectorV>)
    requires
        exists|i: int|
            0 <= i < crate::css::sel_sort(sels).len() && sel_matches(
                e,
                #[trigger] crate::css::sel_sort(sels)[i],
            ),
    ensures
        ({
            let sorted = crate::css::sel_sort(sels);
            let f = first_match(e, sorted);
            &&& 0 <= f < sorted.len()
            &&& sel_matches(e, sorted[f])
            &&& forall|i: int|
                0 <= i < sorted.len() && sel_matches(e, #[trigger] sorted[i])
                    ==> !crate::css::spec3_lt(sel_spec3(sorted[f]), sel_spec3(sorted[i]))
        }),
{
    crate::css::lemma_sel_sort_sorted(sels, sels.len() as int);
    lemma_first_match_is_highest(e, crate::css::sel_sort(sels));
}

/// The specificity triple and rule index of a matched rule, as integers.
pub type Pair = ((int, int, int), int);

/// If `rule` matches `elem`, its effective specificity; otherwise nothing.
pub fn match_rule(elem: &Element, rule: &Rule) -> (r: Option<Specificity>)
    ensures
        match r {
            Some(sp) => rule_matches(elem@, rule@) && (sp.0 as int, sp.1 as int, sp.2 as int)
                == rule_eff(elem@, rule@),
            None => !rule_matches(elem@, rule@),
        },
{
    let mut i: usize = 0;
    while i < rule.selectors.len()
        invariant
            0 <= i <= rule.selectors@.len(),
            forall|q: int| 0 <= q < i ==> !sel_matches(elem@, #[trigger] rule@.selectors[q]),
        decreases rule.selectors@.len() - i,
    {
        if matches(elem, &rule.selectors[i]) {
            proof {
                assert(sel_matches(elem@, rule@.selectors[i as int]));
                lemma_first_match(elem@, rule@.selectors, i as int);
            }
            return Some(rule.selectors[i].specificity());
        }
        i += 1;
    }
    None
}

// ------------------------------------------------------------------
// Collecting the matched rules in source order.
// ------------------------------------------------------------------
/// The matched (effective specificity, rule index) pairs among the first
/// `k` rules, in source order.
pub open spec fn mp(e: ElementV, rules: Seq<RuleV>, k: int) -> Seq<Pair>
    decreases k,
{
    if k <= 0 {
        Seq::empty()
    } else if rule_matches(e, rules[k - 1]) {
        mp(e, rules, k - 1).push((rule_eff(e, rules[k - 1]), k - 1))
    } else {
        mp(e, rules, k - 1)
    }
}

pub proof fn lemma_mp_props(e: ElementV, rules: Seq<RuleV>, k: int)
    requires
        0 <= k <= rules.len(),
    ensures
        forall|j: int|
            0 <= j < mp(e, rules, k).len() ==> {
                let x = #[trigger] mp(e, rules, k)[j];
                0 <= x.1 < k && rule_matches(e, rules[x.1]) && x.0 == rule_eff(e, rules[x.1])
            },
        forall|j1: int, j2: int|
            0 <= j1 < j2 < mp(e, rules, k).len() ==> mp(e, rules, k)[j1].1 < mp(
                e,
                rules,
                k,
            )[j2].1,
        forall|r: int|
            0 <= r < k && rule_matches(e, #[trigger] rules[r]) ==> mp(e, rules, k).contains(
                (rule_eff(e, rules[r]), r),
            ),
    decreases k,
{
    if k > 0 {
        lemma_mp_props(e, rules, k - 1);
        let prev = mp(e, rules, k - 1);
        if rule_matches(e, rules[k - 1]) {
            let cur = prev.push((rule_eff(e, rules[k - 1]), k - 1));
            assert(cur[prev.len() as int] == (rule_eff(e, rules[k - 1]), k - 1));
            assert forall|j: int| 0 <= j < cur.len() implies {
                let x = #[trigger] cur[j];
                0 <= x.1 < k && rule_matches(e, rules[x.1]) && x.0 == rule_eff(e, rules[x.1])
            } by {
                if j < prev.len() {
                    assert(cur[j] == prev[j]);
                }
            }
            assert forall|r: int|
                0 <= r < k && rule_matches(e, #[trigger] rules[r]) implies cur.contains(
                (rule_eff(e, rules[r]), r),
            ) by {
                if r < k - 1 {
                    let jw = choose|jw: int|
                        0 <= jw < prev.len() && prev[jw] == (rule_eff(e, rules[r]), r);
                    assert(cur[jw] == (rule_eff(e, rules[r]), r));
                } else {
                    assert(cur[prev.len() as int] == (rule_eff(e, rules[r]), r));
                }
            }
        } else {
            assert forall|r: int|
                0 <= r < k && rule_matches(e, #[trigger] rules[r]) implies mp(
                e,
                rules,
                k,
            ).contains((rule_eff(e, rules[r]), r)) by {
                assert(r != k - 1);
            }
        }
    }
}

/// The view of an executable (specificity, rule index) pair.
pub open spec fn pv(p: (Specificity, usize)) -> Pair {
    (((p.0.0 as int, p.0.1 as int, p.0.2 as int)), p.1 as int)
}

/// The views of a sequence of executable pairs.
pub open spec fn pairs_view(v: Seq<(Specificity, usize)>) -> Seq<Pair> {
    v.map_values(|p: (Specificity, usize)| pv(p))
}

/// All matched rules with their effective specificities, in source order.
pub fn matching_rules(elem: &Element, styleheet: &StyleSheet) -> (r: Vec<(Specificity, usize)>)
    ensures
        pairs_view(r@) == mp(elem@, styleheet@.rules, styleheet@.rules.len() as int),
{
    let mut out: Vec<(Specificity, usize)> = Vec::new();
    proof {
        assert(pairs_view(out@) =~= Seq::<Pair>::empty());
    }
    let mut k: usize = 0;
    while k < styleheet.rules.len()
        invariant
            0 <= k <= styleheet.rules@.len(),
            pairs_view(out@) == mp(elem@, styleheet@.rules, k as int),
        decreases styleheet.rules@.len() - k,
    {
        match match_rule(elem, &styleheet.rules[k]) {
            Some(sp) => {
                proof {
                    assert(pairs_view(out@.push((sp, k))) =~= pairs_view(out@).push(pv((sp, k))));
                }
                out.push((sp, k));
            },
            None => (),
        }
        k += 1;
    }
    out
}

// ------------------------------------------------------------------
// Sorting the matched pairs, ascending and stably.
// ------------------------------------------------------------------
/// Strict order on pairs: by specificity, ties by source position.
pub open spec fn pair_lt(a: Pair, b: Pair) -> bool {
    spec3_lt(a.0, b.0) || (a.0 == b.0 && a.1 < b.1)
}

pub open spec fn pair_le(a: Pair, b: Pair) -> bool {
    pair_lt(a, b) || a == b
}

/// Insert `x` behind every pair not above it.
pub open spec fn pair_insert(x: Pair, s: Seq<Pair>) -> Seq<Pair>
    decreases s.len(),
{
    if s.len() > 0 && !pair_lt(x, s[0]) {
        seq![s[0]] + pair_insert(x, s.drop_first())
    } else {
        seq![x] + s
    }
}

/// The first `i` pairs, sorted ascending, equal pairs keeping their order.
pub open spec fn pair_sort_upto(s: Seq<Pair>, i: int) -> Seq<Pair>
    decreases i,
{
    if i <= 0 {
        Seq::empty()
    } else {
        pair_insert(s[i - 1], pair_sort_upto(s, i - 1))
    }
}

pub open spec fn pair_sort(s: Seq<Pair>) -> Seq<Pair> {
    pair_sort_upto(s, s.len() as int)
}

pub proof fn lemma_pair_insert_at(x: Pair, s: Seq<Pair>, idx: int)
    requires
        0 <= idx <= s.len(),
        forall|i: int| 0 <= i < idx ==> !pair_lt(x, #[trigger] s[i]),
        idx < s.len() ==> pair_lt(x, s[idx]),
    ensures
        pair_insert(x, s) == s.take(idx) + seq![x] + s.skip(idx),
    decreases idx,
{
    if idx == 0 {
        assert(seq![x] + s =~= s.take(0) + seq![x] + s.skip(0));
    } else {
        let d = s.drop_first();
        assert forall|i: int| 0 <= i < idx - 1 implies !pair_lt(x, #[trigger] d[i]) by {
            assert(d[i] == s[i + 1]);
        }
        if idx - 1 < d.len() {
            assert(d[idx - 1] == s[idx]);
        }
        lemma_pair_insert_at(x, d, idx - 1);
        assert(seq![s[0]] + (d.take(idx - 1) + seq![x] + d.skip(idx - 1)) =~= s.take(idx) + seq![x]
            + s.skip(idx));
    }
}

/// Each element of `pair_insert(x, s)` is `x` or one of `s`.
pub proof fn lemma_pair_insert_membership(x: Pair, s: Seq<Pair>, j: int)
    requires
        0 <= j < pair_insert(x, s).len(),
    ensures
        pair_insert(x, s)[j] == x || exists|k: int|
            0 <= k < s.len() && s[k] == pair_insert(x, s)[j],
    decreases s.len(),
{
    if s.len() > 0 && !pair_lt(x, s[0]) {
        if j == 0 {
            assert(pair_insert(x, s)[0] == s[0]);
        } else {
            lemma_pair_insert_membership(x, s.drop_first(), j - 1);
            assert(pair_insert(x, s)[j] == pair_insert(x, s.drop_first())[j - 1]);
            if pair_insert(x, s.drop_first())[j - 1] != x {
                let k = choose|k: int|
                    0 <= k < s.drop_first().len() && s.drop_first()[k] == pair_insert(
                        x,
                        s.drop_first(),
                    )[j - 1];
                assert(s[k + 1] == s.drop_first()[k]);
            }
        }
    } else {
        if j > 0 {
            assert(pair_insert(x, s)[j] == s[j - 1]);
        }
    }
}

pub proof fn lemma_pair_insert_sorted(x: Pair, s: Seq<Pair>)
    requires
        forall|i: int, j: int| 0 <= i < j < s.len() ==> pair_le(#[trigger] s[i], #[trigger] s[j]),
    ensures
        forall|i: int, j: int|
            0 <= i < j < pair_insert(x, s).len() ==> pair_le(
                #[trigger] pair_insert(x, s)[i],
                #[trigger] pair_insert(x, s)[j],
            ),
        pair_insert(x, s).len() == s.len() + 1,
    decreases s.len(),
{
    let r = pair_insert(x, s);
    if s.len() > 0 && !pair_lt(x, s[0]) {
        let d = s.drop_first();
        assert forall|i: int, j: int| 0 <= i < j < d.len() implies pair_le(
            #[trigger] d[i],
            #[trigger] d[j],
        ) by {
            assert(d[i] == s[i + 1] && d[j] == s[j + 1]);
        }
        lemma_pair_insert_sorted(x, d);
        let rd = pair_insert(x, d);
        assert forall|j: int| 0 <= j < rd.len() implies pair_le(s[0], #[trigger] rd[j]) by {
            lemma_pair_insert_membership(x, d, j);
            if rd[j] == x {
            } else {
                let k = choose|k: int| 0 <= k < d.len() && d[k] == rd[j];
                assert(s[k + 1] == d[k]);
                if k + 1 > 0 {
                    assert(pair_le(s[0], s[k + 1]));
                }
            }
        }
        assert forall|i: int, j: int| 0 <= i < j < r.len() implies pair_le(
            #[trigger] r[i],
            #[trigger] r[j],
        ) by {
            if i == 0 {
                assert(r[j] == rd[j - 1]);
            } else {
                assert(r[i] == rd[i - 1] && r[j] == rd[j - 1]);
            }
        }
    } else {
    }
}

pub proof fn lemma_pair_sort_sorted(s: Seq<Pair>, i: int)
    requires
        0 <= i <= s.len(),
    ensures
        pair_sort_upto(s, i).len() == i,
        forall|a: int, b: int|
            0 <= a < b < i ==> pair_le(
                #[trigger] pair_sort_upto(s, i)[a],
                #[trigger] pair_sort_upto(s, i)[b],
            ),
    decreases i,
{
    if i > 0 {
        lemma_pair_sort_sorted(s, i - 1);
        lemma_pair_insert_sorted(s[i - 1], pair_sort_upto(s, i - 1));
    }
}

/// Inserting adds exactly one occurrence of `x`.
pub proof fn lemma_pair_insert_multiset(x: Pair, s: Seq<Pair>)
    ensures
        pair_insert(x, s).to_multiset() == s.to_multiset().insert(x),
    decreases s.len(),
{
    broadcast use vstd::seq_lib::group_to_multiset_ensures;

    if s.len() > 0 && !pair_lt(x, s[0]) {
        let d = s.drop_first();
        lemma_pair_insert_multiset(x, d);
        assert(seq![s[0]] + pair_insert(x, d) =~= pair_insert(x, d).insert(0, s[0]));
        vstd::seq_lib::lemma_multiset_commutative(seq![s[0]], pair_insert(x, d));
        assert(seq![s[0]] =~= Seq::<Pair>::empty().push(s[0]));
        assert(seq![s[0]].to_multiset() =~= Multiset::<Pair>::empty().insert(s[0]));
        assert(s =~= seq![s[0]] + d);
        vstd::seq_lib::lemma_multiset_commutative(seq![s[0]], d);
        assert(pair_insert(x, s).to_multiset() =~= s.to_multiset().insert(x));
    } else {
        assert(seq![x] + s =~= s.insert(0, x));
        vstd::seq_lib::lemma_multiset_commutative(seq![x], s);
        assert(seq![x] =~= Seq::<Pair>::empty().push(x));
        assert(seq![x].to_multiset() =~= Multiset::<Pair>::empty().insert(x));
        assert(pair_insert(x, s).to_multiset() =~= s.to_multiset().insert(x));
    }
}

/// Sorting keeps exactly the same pairs.
pub proof fn lemma_pair_sort_multiset(s: Seq<Pair>, i: int)
    requires
        0 <= i <= s.len(),
    ensures
        pair_sort_upto(s, i).to_multiset() == s.take(i).to_multiset(),
    decreases i,
{
    broadcast use vstd::seq_lib::group_to_multiset_ensures;

    if i > 0 {
        lemma_pair_sort_multiset(s, i - 1);
        lemma_pair_insert_multiset(s[i - 1], pair_sort_upto(s, i - 1));
        assert(s.take(i) =~= s.take(i - 1).push(s[i - 1]));
    }
}

/// Decide `pair_lt` on two executable pairs.
fn pair_lt_exec(a: &(Specificity, usize), b: &(Specificity, usize)) -> (r: bool)
    ensures
        r == pair_lt(pv(*a), pv(*b)),
{
    let sa: Specificity = a.0;
    let sb: Specificity = b.0;
    if sa.1 < sb.1 || (sa.1 == sb.1 && (sa.2 < sb.2 || (sa.2 == sb.2 && sa.0 < sb.0))) {
        true
    } else if sa.0 == sb.0 && sa.1 == sb.1 && sa.2 == sb.2 {
        a.1 < b.1
    } else {
        false
    }
}

/// Sort the matched pairs ascending, stably.
fn sort_pairs(pairs: &mut Vec<(Specificity, usize)>)
    ensures
        pairs_view(final(pairs)@) == pair_sort(pairs_view(old(pairs)@)),
{
    let ghost orig = pairs_view(pairs@);
    if pairs.len() <= 1 {
        proof {
            reveal_with_fuel(pair_sort_upto, 2);
            if orig.len() == 1 {
                assert(pair_sort_upto(orig, 1) == pair_insert(orig[0], Seq::empty()));
                assert(pair_insert(orig[0], Seq::empty()) =~= orig);
            } else {
                assert(pair_sort(orig) =~= orig);
            }
        }
        return ;
    }
    let mut i: usize = 1;
    proof {
        reveal_with_fuel(pair_sort_upto, 2);
        assert(pair_sort_upto(orig, 1) == pair_insert(orig[0], Seq::empty()));
        assert(pairs_view(pairs@).take(1) =~= pair_insert(orig[0], Seq::empty()));
        assert(pairs_view(pairs@).skip(1) =~= orig.skip(1));
    }
    while i < pairs.len()
        invariant
            1 <= i <= pairs@.len(),
            pairs@.len() == orig.len(),
            orig == pairs_view(old(pairs)@),
            pairs_view(pairs@).take(i as int) == pair_sort_upto(orig, i as int),
            pairs_view(pairs@).skip(i as int) == orig.skip(i as int),
        decreases pairs@.len() - i,
    {
        let ghost sv = pairs_view(pairs@);
        let ghost pfx = sv.take(i as int);
        let x: (Specificity, usize) = pairs.remove(i);
        proof {
            assert(sv.skip(i as int)[0] == orig.skip(i as int)[0]);
            assert(pv(x) == orig[i as int]);
            assert forall|q: int| 0 <= q < i implies pairs_view(pairs@)[q] == pfx[q] by {
                assert(pairs@[q] == pairs@.subrange(0, i as int)[q]);
            }
        }
        let mut idx: usize = 0;
        while idx < i && !pair_lt_exec(&x, &pairs[idx])
            invariant
                0 <= idx <= i,
                i < orig.len(),
                pairs@.len() == orig.len() - 1,
                forall|q: int| 0 <= q < i ==> pairs_view(pairs@)[q] == pfx[q],
                pfx.len() == i,
                forall|q: int| 0 <= q < idx ==> !pair_lt(pv(x), #[trigger] pfx[q]),
            decreases i - idx,
        {
            idx += 1;
        }
        proof {
            lemma_pair_insert_at(pv(x), pfx, idx as int);
        }
        let ghost pre_insert = pairs@;
        pairs.insert(idx, x);
        proof {
            assert(pairs_view(pairs@).take(i + 1 as int) =~= pfx.take(idx as int) + seq![pv(x)]
                + pfx.skip(idx as int)) by {
                assert forall|q: int| 0 <= q < i + 1 implies pairs_view(pairs@)[q] == (pfx.take(
                    idx as int,
                ) + seq![pv(x)] + pfx.skip(idx as int))[q] by {
                    if q < idx {
                        assert(pairs@[q] == pre_insert[q]);
                    } else if q == idx {
                        assert(pairs@[q] == x);
                    } else {
                        assert(pairs@[q] == pre_insert[q - 1]);
                    }
                }
            }
            assert(pair_sort_upto(orig, i + 1 as int) == pair_insert(
                orig[i as int],
                pair_sort_upto(orig, i as int),
            ));
            assert forall|q: int| i + 1 <= q < orig.len() implies pairs_view(pairs@)[q]
                == orig[q] by {
                assert(pairs@[q] == pre_insert[q - 1]);
                assert(pairs_view(pre_insert)[q - 1] == sv[q]);
                assert(sv.skip(i as int)[q - i] == orig.skip(i as int)[q - i]);
            }
            assert(pairs_view(pairs@).skip(i + 1 as int) =~= orig.skip(i + 1 as int));
        }
        i += 1;
    }
    proof {
        assert(pairs_view(pairs@) =~= pairs_view(pairs@).take(pairs@.len() as int));
    }
}

// ------------------------------------------------------------------
// The per-element property map.
// ------------------------------------------------------------------
/// A mapping from property names to declaration values, unique keys in
/// insertion order; later writes of a name replace earlier ones.
#[derive(Debug, PartialEq)]
pub struct PropertyMap {
    pub entries: Vec<(String, DeclarationValue)>,
}

impl View for PropertyMap {
    type V = Seq<(Seq<char>, DeclarationValueV)>;

    open spec fn view(&self) -> Seq<(Seq<char>, DeclarationValueV)> {
        self.entries@.map_values(|p: (String, DeclarationValue)| (p.0@, p.1@))
    }
}

impl PropertyMap {
    pub open spec fn spec_get(&self, k: Seq<char>) -> Option<DeclarationValueV> {
        amap_get(self@, k)
    }

    /// Every key occurs at most once.
    pub open spec fn wf(&self) -> bool {
        forall|i: int, j: int| 0 <= i < j < self@.len() ==> (#[trigger] self@[i]).0 != (
        #[trigger] self@[j]).0
    }

    pub fn new() -> (r: PropertyMap)
        ensures
            r@ == Seq::<(Seq<char>, DeclarationValueV)>::empty(),
            r.wf(),
    {
        let r = PropertyMap { entries: Vec::new() };
        proof {
            assert(r@ =~= Seq::<(Seq<char>, DeclarationValueV)>::empty());
        }
        r
    }

    /// The number of properties.
    pub fn len(&self) -> (n: usize)
        ensures
            n == self@.len(),
    {
        self.entries.len()
    }

    /// Write `name`, replacing an earlier write of the same name.
    pub fn insert(&mut self, name: String, value: DeclarationValue)
        requires
            old(self).wf(),
        ensures
            final(self).wf(),
            forall|k: Seq<char>|
                final(self).spec_get(k) == (if k == name@ {
                    Some(value@)
                } else {
                    old(self).spec_get(k)
                }),
    {
        let ghost m0 = self@;
        let mut idx: usize = 0;
        while idx < self.entries.len() && !str_eq(self.entries[idx].0.as_str(), name.as_str())
            invariant
                *self == *old(self),
                0 <= idx <= self.entries@.len(),
                forall|q: int| 0 <= q < idx ==> (#[trigger] self@[q]).0 != name@,
            decreases self.entries@.len() - idx,
        {
            idx += 1;
        }
        let replace: bool = idx < self.entries.len();
        let ghost pre = m0.take(idx as int);
        let ghost suf = if replace {
            m0.skip(idx as int + 1)
        } else {
            m0.skip(idx as int)
        };
        if replace {
            self.entries.remove(idx);
        }
        self.entries.insert(idx, (name, value));
        proof {
            let m1 = self@;
            let name_s = name@;
            let value_s = value@;
            assert(m1 =~= pre + (seq![(name_s, value_s)] + suf));
            assert forall|q: int| 0 <= q < suf.len() implies (#[trigger] suf[q]).0 != name_s by {
                if replace {
                    assert(suf[q] == m0[idx + 1 + q]);
                    assert(m0[idx as int].0 == name_s);
                }
            }
            // uniqueness of keys in the new sequence
            assert forall|i: int, j: int| 0 <= i < j < m1.len() implies (#[trigger] m1[i]).0 != (
            #[trigger] m1[j]).0 by {
                if i < idx {
                    assert(m1[i] == m0[i]);
                }
                if j < idx {
                    assert(m1[j] == m0[j]);
                }
                if i > idx {
                    assert(m1[i] == suf[i - idx - 1]);
                }
                if j > idx {
                    assert(m1[j] == suf[j - idx - 1]);
                }
                if i < idx && j > idx {
                    if replace {
                        assert(suf[j - idx - 1] == m0[j]);
                    } else {
                        assert(suf[j - idx - 1] == m0[j - 1]);
                    }
                }
                if i > idx && j > idx {
                    if replace {
                        assert(suf[i - idx - 1] == m0[i] && suf[j - idx - 1] == m0[j]);
                    } else {
                        assert(suf[i - idx - 1] == m0[i - 1] && suf[j - idx - 1] == m0[j - 1]);
                    }
                }
            }
            // the get-relation for every key
            assert forall|k: Seq<char>|
                amap_get(m1, k) == (if k == name_s {
                    Some(value_s)
                } else {
                    amap_get(m0, k)
                }) by {
                crate::dom::lemma_amap_concat(pre, seq![(name_s, value_s)] + suf, k);
                assert((seq![(name_s, value_s)] + suf)[0] == (name_s, value_s));
                if k == name_s {
                    assert forall|q: int| 0 <= q < pre.len() implies (#[trigger] pre[q]).0
                        != k by {
                        assert(pre[q] == m0[q]);
                    }
                    crate::dom::lemma_amap_absent(pre, k);
                    assert(amap_get(seq![(name_s, value_s)] + suf, k) == Some(value_s));
                } else {
                    assert((seq![(name_s, value_s)] + suf).drop_first() =~= suf);
                    assert(amap_get(seq![(name_s, value_s)] + suf, k) == amap_get(suf, k));
                    if replace {
                        assert(m0 =~= pre + (seq![m0[idx as int]] + suf));
                        crate::dom::lemma_amap_concat(pre, seq![m0[idx as int]] + suf, k);
                        assert((seq![m0[idx as int]] + suf)[0] == m0[idx as int]);
                        assert((seq![m0[idx as int]] + suf).drop_first() =~= suf);
                        assert(m0[idx as int].0 == name_s);
                        assert(amap_get(seq![m0[idx as int]] + suf, k) == amap_get(suf, k));
                    } else {
                        assert(m0 =~= pre + suf);
                        crate::dom::lemma_amap_concat(pre, suf, k);
                    }
                }
            }
        }
    }

    /// Look a property up.
    pub fn get(&self, name: &str) -> (r: Option<&DeclarationValue>)
        ensures
            match r {
                Some(v) => self.spec_get(name@) == Some(v@),
                None => self.spec_get(name@) == None::<DeclarationValueV>,
            },
    {
        let mut i: usize = 0;
        while i < self.entries.len()
            invariant
                0 <= i <= self.entries@.len(),
                forall|q: int| 0 <= q < i ==> (#[trigger] self@[q]).0 != name@,
            decreases self.entries@.len() - i,
        {
            if str_eq(self.entries[i].0.as_str(), name) {
                proof {
                    crate::dom::lemma_amap_first_match(self@, name@, i as int);
                }
                return Some(&self.entries[i].1);
            }
            i += 1;
        }
        proof {
            crate::dom::lemma_amap_absent(self@, name@);
        }
        None
    }
}

// ------------------------------------------------------------------
// Folding declarations, and the winner they determine.
// ------------------------------------------------------------------
/// The value of the last of the first `d` declarations that is named `p`.
pub open spec fn decls_last_upto(ds: Seq<DeclarationV>, d: int, p: Seq<char>) -> Option<
    DeclarationValueV,
>
    decreases d,
{
    if d <= 0 {
        None
    } else if ds[d - 1].name == p {
        Some(ds[d - 1].value)
    } else {
        decls_last_upto(ds, d - 1, p)
    }
}

/// Does the rule write the property `p` at all?
pub open spec fn declares(r: RuleV, p: Seq<char>) -> bool {
    decls_last_upto(r.declarations, r.declarations.len() as int, p) is Some
}

/// The value the rule writes for `p` (its last declaration of `p` wins).
pub open spec fn last_decl(r: RuleV, p: Seq<char>) -> Option<DeclarationValueV> {
    decls_last_upto(r.declarations, r.declarations.len() as int, p)
}

/// The value for `p` after applying the first `j` sorted pairs in order.
pub open spec fn fold_val(rules: Seq<RuleV>, s: Seq<Pair>, j: int, p: Seq<char>) -> Option<
    DeclarationValueV,
>
    decreases j,
{
    if j <= 0 {
        None
    } else {
        let ri = s[j - 1].1;
        if 0 <= ri < rules.len() && declares(rules[ri], p) {
            last_decl(rules[ri], p)
        } else {
            fold_val(rules, s, j - 1, p)
        }
    }
}

/// The position of the last pair among the first `j` whose rule writes `p`.
pub open spec fn last_declaring(rules: Seq<RuleV>, s: Seq<Pair>, j: int, p: Seq<char>) -> int
    decreases j,
{
    if j <= 0 {
        -1
    } else if 0 <= s[j - 1].1 < rules.len() && declares(rules[s[j - 1].1], p) {
        j - 1
    } else {
        last_declaring(rules, s, j - 1, p)
    }
}

/// The fold keeps exactly the value of the last pair that writes `p`.
proof fn lemma_fold_last(rules: Seq<RuleV>, s: Seq<Pair>, j: int, p: Seq<char>)
    requires
        0 <= j <= s.len(),
    ensures
        -1 <= last_declaring(rules, s, j, p) < j,
        last_declaring(rules, s, j, p) >= 0 ==> {
            let l = last_declaring(rules, s, j, p);
            0 <= s[l].1 < rules.len() && declares(rules[s[l].1], p) && fold_val(rules, s, j, p)
                == last_decl(rules[s[l].1], p)
        },
        last_declaring(rules, s, j, p) == -1 ==> fold_val(rules, s, j, p) == None::<
            DeclarationValueV,
        >,
        forall|k: int|
            last_declaring(rules, s, j, p) < k < j ==> !(0 <= (#[trigger] s[k]).1 < rules.len()
                && declares(rules[s[k].1], p)),
    decreases j,
{
    if j > 0 {
        lemma_fold_last(rules, s, j - 1, p);
    }
}

/// The rule that wins property `p` on this element: it matches, it writes
/// `p`, and every other matching rule that writes `p` stands strictly below
/// it in (effective specificity, source position).
pub open spec fn is_winner(e: ElementV, rules: Seq<RuleV>, p: Seq<char>, r: int) -> bool {
    &&& 0 <= r < rules.len()
    &&& rule_matches(e, rules[r])
    &&& declares(rules[r], p)
    &&& forall|r2: int|
        0 <= r2 < rules.len() && rule_matches(e, #[trigger] rules[r2]) && declares(rules[r2], p)
            ==> (r2 == r || pair_lt((rule_eff(e, rules[r2]), r2), (rule_eff(e, rules[r]), r)))
}

/// The cascaded value of property `p`: what the winning rule writes, or
/// nothing when no matching rule writes `p`.
pub open spec fn winner_value(e: ElementV, rules: Seq<RuleV>, p: Seq<char>) -> Option<
    DeclarationValueV,
> {
    if exists|r: int| is_winner(e, rules, p, r) {
        last_decl(rules[choose|r: int| is_winner(e, rules, p, r)], p)
    } else {
        None
    }
}

/// A winning rule's value is the cascaded value: a rule that matches,
/// writes `p`, and outranks (by effective specificity, then source order)
/// every other matching rule that writes `p`, decides the property.
pub proof fn lemma_winner_is(e: ElementV, rules: Seq<RuleV>, p: Seq<char>, r: int)
    requires
        is_winner(e, rules, p, r),
    ensures
        winner_value(e, rules, p) == last_decl(rules[r], p),
{
    let rc = choose|rr: int| is_winner(e, rules, p, rr);
    lemma_winner_unique(e, rules, p, rc, r);
}

/// Ties are broken by source order: of two matching rules of equal
/// effective specificity that both write `p`, the earlier one never
/// decides the property.
pub proof fn lemma_tie_break_by_source_order(
    e: ElementV,
    rules: Seq<RuleV>,
    p: Seq<char>,
    r1: int,
    r2: int,
)
    requires
        0 <= r1 < r2 < rules.len(),
        rule_matches(e, rules[r1]) && declares(rules[r1], p),
        rule_matches(e, rules[r2]) && declares(rules[r2], p),
        rule_eff(e, rules[r1]) == rule_eff(e, rules[r2]),
    ensures
        !is_winner(e, rules, p, r1),
{
    assert(!pair_lt((rule_eff(e, rules[r2]), r2), (rule_eff(e, rules[r1]), r1)));
}

/// Specificity beats source order: a matching rule of strictly lower
/// effective specificity never decides `p` while a higher one also matches
/// and writes it, wherever the two stand in the stylesheet.
pub proof fn lemma_specificity_beats_source_order(
    e: ElementV,
    rules: Seq<RuleV>,
    p: Seq<char>,
    r1: int,
    r2: int,
)
    requires
        0 <= r1 < rules.len(),
        0 <= r2 < rules.len(),
        r1 != r2,
        rule_matches(e, rules[r1]) && declares(rules[r1], p),
        rule_matches(e, rules[r2]) && declares(rules[r2], p),
        crate::css::spec3_lt(rule_eff(e, rules[r1]), rule_eff(e, rules[r2])),
    ensures
        !is_winner(e, rules, p, r1),
{
    assert(!pair_lt((rule_eff(e, rules[r2]), r2), (rule_eff(e, rules[r1]), r1)));
}

proof fn lemma_winner_unique(e: ElementV, rules: Seq<RuleV>, p: Seq<char>, r1: int, r2: int)
    requires
        is_winner(e, rules, p, r1),
        is_winner(e, rules, p, r2),
    ensures
        r1 == r2,
{
    if r1 != r2 {
        assert(pair_lt((rule_eff(e, rules[r1]), r1), (rule_eff(e, rules[r2]), r2)));
        assert(pair_lt((rule_eff(e, rules[r2]), r2), (rule_eff(e, rules[r1]), r1)));
        assert(false);
    }
}

/// Folding the sorted matched pairs yields exactly the winner's value.
proof fn lemma_fold_is_winner(e: ElementV, rules: Seq<RuleV>, s: Seq<Pair>, p: Seq<char>)
    requires
        forall|i: int, j: int| 0 <= i < j < s.len() ==> pair_le(#[trigger] s[i], #[trigger] s[j]),
        s.no_duplicates(),
        forall|j: int|
            0 <= j < s.len() ==> {
                let x = #[trigger] s[j];
                0 <= x.1 < rules.len() && rule_matches(e, rules[x.1]) && x.0 == rule_eff(
                    e,
                    rules[x.1],
                )
            },
        forall|r: int|
            0 <= r < rules.len() && rule_matches(e, #[trigger] rules[r]) && declares(rules[r], p)
                ==> s.contains((rule_eff(e, rules[r]), r)),
    ensures
        fold_val(rules, s, s.len() as int, p) == winner_value(e, rules, p),
{
    let n = s.len() as int;
    lemma_fold_last(rules, s, n, p);
    let l = last_declaring(rules, s, n, p);
    if l == -1 {
        if exists|r: int| is_winner(e, rules, p, r) {
            let r = choose|r: int| is_winner(e, rules, p, r);
            assert(s.contains((rule_eff(e, rules[r]), r)));
            let k = choose|k: int| 0 <= k < s.len() && s[k] == (rule_eff(e, rules[r]), r);
            assert(s[k].1 == r);
            assert(false);
        }
    } else {
        let rx = s[l].1;
        assert(rule_matches(e, rules[rx]) && s[l].0 == rule_eff(e, rules[rx]));
        assert forall|r2: int|
            0 <= r2 < rules.len() && rule_matches(e, #[trigger] rules[r2]) && declares(
                rules[r2],
                p,
            ) implies (r2 == rx || pair_lt(
            (rule_eff(e, rules[r2]), r2),
            (rule_eff(e, rules[rx]), rx),
        )) by {
            assert(s.contains((rule_eff(e, rules[r2]), r2)));
            let k2 = choose|k2: int| 0 <= k2 < s.len() && s[k2] == (rule_eff(e, rules[r2]), r2);
            if k2 == l {
                assert(r2 == rx);
            } else if k2 < l {
                assert(pair_le(s[k2], s[l]));
                assert(s[k2] != s[l]);
                assert(pair_lt((rule_eff(e, rules[r2]), r2), (rule_eff(e, rules[rx]), rx)));
            } else {
                assert(!(0 <= s[k2].1 < rules.len() && declares(rules[s[k2].1], p)));
                assert(s[k2].1 == r2);
                assert(false);
            }
        }
        assert(is_winner(e, rules, p, rx));
        let rc = choose|r: int| is_winner(e, rules, p, r);
        lemma_winner_unique(e, rules, p, rc, rx);
    }
}

// ------------------------------------------------------------------
// The resolver itself.
// ------------------------------------------------------------------
/// Apply the stylesheet to one element: every property's value is the one
/// the winning rule wrote, and an element no rule matches gets the empty
/// map.
pub fn specified_values(elem: &Element, styleheet: &StyleSheet) -> (r: PropertyMap)
    ensures
        r.wf(),
        forall|p: Seq<char>| amap_get(r@, p) == winner_value(elem@, styleheet@.rules, p),
        (forall|ri: int|
            0 <= ri < styleheet@.rules.len() ==> !rule_matches(
                elem@,
                #[trigger] styleheet@.rules[ri],
            )) ==> r@ == Seq::<(Seq<char>, DeclarationValueV)>::empty(),
{
    let ghost e = elem@;
    let ghost rules = styleheet@.rules;
    let mut rules_matched: Vec<(Specificity, usize)> = matching_rules(elem, styleheet);
    let ghost m = pairs_view(rules_matched@);
    sort_pairs(&mut rules_matched);
    let ghost s = pairs_view(rules_matched@);
    proof {
        broadcast use vstd::seq_lib::group_to_multiset_ensures;

        lemma_mp_props(e, rules, rules.len() as int);
        lemma_pair_sort_sorted(m, m.len() as int);
        lemma_pair_sort_multiset(m, m.len() as int);
        assert(m.take(m.len() as int) =~= m);
        assert(s.to_multiset() == m.to_multiset());
        assert(m.no_duplicates()) by {
            assert forall|i: int, j: int|
                0 <= i < m.len() && 0 <= j < m.len() && i != j implies m[i] != m[j] by {
                if i < j {
                    assert(m[i].1 < m[j].1);
                } else {
                    assert(m[j].1 < m[i].1);
                }
            }
        }
        m.lemma_multiset_has_no_duplicates();
        s.lemma_multiset_has_no_duplicates_conv();
        assert forall|x: Pair| s.contains(x) implies m.contains(x) by {
            assert(s.to_multiset().count(x) > 0);
        }
        assert forall|x: Pair| m.contains(x) implies s.contains(x) by {
            assert(m.to_multiset().count(x) > 0);
        }
        assert forall|j: int| 0 <= j < s.len() implies {
            let x = #[trigger] s[j];
            0 <= x.1 < rules.len() && rule_matches(e, rules[x.1]) && x.0 == rule_eff(e, rules[x.1])
        } by {
            assert(s.contains(s[j]));
            assert(m.contains(s[j]));
            let jm = choose|jm: int| 0 <= jm < m.len() && m[jm] == s[j];
            assert({
                let x = m[jm];
                0 <= x.1 < rules.len() && rule_matches(e, rules[x.1]) && x.0 == rule_eff(
                    e,
                    rules[x.1],
                )
            });
        }
        assert forall|r: int|
            0 <= r < rules.len() && rule_matches(e, #[trigger] rules[r]) implies s.contains(
            (rule_eff(e, rules[r]), r),
        ) by {
            assert(m.contains((rule_eff(e, rules[r]), r)));
        }
    }
    let mut values: PropertyMap = PropertyMap::new();
    let mut j: usize = 0;
    while j < rules_matched.len()
        invariant
            0 <= j <= rules_matched@.len(),
            s == pairs_view(rules_matched@),
            rules == styleheet@.rules,
            e == elem@,
            values.wf(),
            forall|jj: int|
                0 <= jj < s.len() ==> {
                    let x = #[trigger] s[jj];
                    0 <= x.1 < rules.len()
                },
            forall|p: Seq<char>| values.spec_get(p) == fold_val(rules, s, j as int, p),
            j == 0 ==> values@ == Seq::<(Seq<char>, DeclarationValueV)>::empty(),
        decreases rules_matched@.len() - j,
    {
        let pair: (Specificity, usize) = rules_matched[j];
        let ri: usize = pair.1;
        proof {
            assert(pv(rules_matched@[j as int]) == s[j as int]);
            assert(0 <= s[j as int].1 < rules.len());
        }
        let rule: &Rule = &styleheet.rules[ri];
        let ghost ds = rules[ri as int].declarations;
        proof {
            assert(rule@.declarations == ds);
        }
        let mut d: usize = 0;
        while d < rule.declarations.len()
            invariant
                0 <= d <= rule.declarations@.len(),
                rule@ == rules[ri as int],
                ds == rules[ri as int].declarations,
                crate::css::decls_view(rule.declarations@) == ds,
                values.wf(),
                0 <= j < s.len(),
                s[j as int].1 == ri as int,
                ri < rules.len(),
                forall|p: Seq<char>|
                    values.spec_get(p) == (match decls_last_upto(ds, d as int, p) {
                        Some(v) => Some(v),
                        None => fold_val(rules, s, j as int, p),
                    }),
            decreases rule.declarations@.len() - d,
        {
            let name: String = rule.declarations[d].name.clone();
            let value: DeclarationValue = copy_value(&rule.declarations[d].value);
            proof {
                assert(ds[d as int] == rule.declarations@[d as int]@);
            }
            values.insert(name, value);
            d += 1;
        }
        proof {
            assert forall|p: Seq<char>|
                values.spec_get(p) == fold_val(rules, s, j + 1 as int, p) by {
                assert(declares(rules[ri as int], p) == (decls_last_upto(
                    ds,
                    ds.len() as int,
                    p,
                ) is Some));
            }
        }
        j += 1;
    }
    proof {
        assert forall|p: Seq<char>| amap_get(values@, p) == winner_value(e, rules, p) by {
            lemma_fold_is_winner(e, rules, s, p);
            assert(values.spec_get(p) == fold_val(rules, s, j as int, p));
        }
        if forall|ri: int| 0 <= ri < rules.len() ==> !rule_matches(e, #[trigger] rules[ri]) {
            broadcast use vstd::seq_lib::group_to_multiset_ensures;

            assert(m.len() == 0) by {
                if m.len() > 0 {
                    assert({
                        let x = m[0];
                        0 <= x.1 < rules.len() && rule_matches(e, rules[x.1])
                    });
                }
            }
            assert(s.len() == 0);
        }
    }
    values
}

// ------------------------------------------------------------------
// The styled tree.
// ------------------------------------------------------------------
/// A node of the styled tree: a borrow of its source node, its resolved
/// property map, and its styled children, mirroring the source tree.
#[derive(Debug)]
pub struct StyledNode<'a> {
    pub node: &'a Node,
    pub specified_values: PropertyMap,
    pub children: Vec<StyledNode<'a>>,
}

/// The styled tree `sn` resolves `n` against `rules`: same shape, and each
/// element carries exactly its cascaded property map.
pub open spec fn styles_ok<'a>(n: Node, rules: Seq<RuleV>, sn: StyledNode<'a>) -> bool
    decreases n,
{
    &&& *sn.node == n
    &&& (match n.node_type {
        NodeType::Element(el) => forall|p: Seq<char>|
            amap_get(sn.specified_values@, p) == winner_value(el@, rules, p),
        NodeType::Text(_) => sn.specified_values@ == Seq::<(Seq<char>, DeclarationValueV)>::empty(),
    })
    &&& styles_ok_list(n.children@, rules, sn.children@)
}

/// Same, node by node, for a sequence of children.
pub open spec fn styles_ok_list<'a>(
    ns: Seq<Node>,
    rules: Seq<RuleV>,
    sns: Seq<StyledNode<'a>>,
) -> bool
    decreases ns,
{
    &&& ns.len() == sns.len()
    &&& (ns.len() > 0 ==> styles_ok(ns[0], rules, sns[0]) && styles_ok_list(
        ns.drop_first(),
        rules,
        sns.drop_first(),
    ))
}

/// `styles_ok_list` is the element-wise condition.
pub proof fn lemma_styles_ok_list<'a>(ns: Seq<Node>, rules: Seq<RuleV>, sns: Seq<StyledNode<'a>>)
    ensures
        styles_ok_list(ns, rules, sns) == (ns.len() == sns.len() && (forall|i: int|
            0 <= i < ns.len() ==> styles_ok(ns[i], rules, #[trigger] sns[i]))),
    decreases ns.len(),
{
    if ns.len() > 0 {
        lemma_styles_ok_list(ns.drop_first(), rules, sns.drop_first());
        if ns.len() == sns.len() {
            assert forall|i: int| 0 <= i < ns.drop_first().len() implies (ns.drop_first()[i]
                == ns[i + 1] && sns.drop_first()[i] == sns[i + 1]) by {}
            if styles_ok_list(ns, rules, sns) {
                assert forall|i: int| 0 <= i < ns.len() implies styles_ok(
                    ns[i],
                    rules,
                    #[trigger] sns[i],
                ) by {
                    if i > 0 {
                        assert(styles_ok(ns.drop_first()[i - 1], rules, sns.drop_first()[i - 1]));
                    }
                }
            }
            if ns.len() == sns.len() && (forall|i: int|
                0 <= i < ns.len() ==> styles_ok(ns[i], rules, #[trigger] sns[i])) {
                assert(styles_ok(ns[0], rules, sns[0]));
                assert forall|i: int| 0 <= i < ns.drop_first().len() implies styles_ok(
                    ns.drop_first()[i],
                    rules,
                    #[trigger] sns.drop_first()[i],
                ) by {
                    assert(styles_ok(ns[i + 1], rules, sns[i + 1]));
                }
            }
        }
    }
}

/// The property map of one node: resolved for an element, empty for text.
fn node_values(root: &Node, stylesheet: &StyleSheet) -> (r: PropertyMap)
    ensures
        r.wf(),
        root.node_type is Element ==> forall|p: Seq<char>|
            amap_get(r@, p) == winner_value(root.node_type->Element_0@, stylesheet@.rules, p),
        root.node_type is Text ==> r@ == Seq::<(Seq<char>, DeclarationValueV)>::empty(),
{
    match &root.node_type {
        NodeType::Element(elem) => specified_values(elem, stylesheet),
        NodeType::Text(_) => PropertyMap::new(),
    }
}

/// Build the styled tree for a whole document tree.
pub fn style_tree<'a>(root: &'a Node, stylesheet: &'a StyleSheet) -> (r: StyledNode<'a>)
    ensures
        styles_ok(*root, stylesheet@.rules, r),
    decreases *root,
{
    let values: PropertyMap = node_values(root, stylesheet);
    let mut children: Vec<StyledNode<'a>> = Vec::new();
    let mut i: usize = 0;
    while i < root.children.len()
        invariant
            0 <= i <= root.children@.len(),
            children@.len() == i,
            forall|q: int|
                0 <= q < i ==> styles_ok(
                    root.children@[q],
                    stylesheet@.rules,
                    #[trigger] children@[q],
                ),
            root.node_type is Element ==> forall|p: Seq<char>|
                amap_get(values@, p) == winner_value(
                    root.node_type->Element_0@,
                    stylesheet@.rules,
                    p,
                ),
            root.node_type is Text ==> values@ == Seq::<(Seq<char>, DeclarationValueV)>::empty(),
        decreases root.children@.len() - i,
    {
        let c: StyledNode<'a> = style_tree(&root.children[i], stylesheet);
        children.push(c);
        i += 1;
    }
    proof {
        lemma_styles_ok_list(root.children@, stylesheet@.rules, children@);
    }
    StyledNode { node: root, specified_values: values, children }
}

// ------------------------------------------------------------------
// Reading a styled node.
// ------------------------------------------------------------------
/// How an element takes part in layout.
#[derive(Debug, Clone, Copy, PartialEq, Eq, Structural)]
pub enum Display {
    Inline,
    Block,
    NoDisplay,
}

/// The display mode a property map asks for: `block` and `none` keywords
/// are honoured, everything else is inline.
pub open spec fn spec_display(m: Seq<(Seq<char>, DeclarationValueV)>) -> Display {
    match amap_get(m, "display"@) {
        Some(DeclarationValueV::Keyword(k)) => if k == "block"@ {
            Display::Block
        } else if k == "none"@ {
            Display::NoDisplay
        } else {
            Display::Inline
        },
        _ => Display::Inline,
    }
}

impl<'a> StyledNode<'a> {
    /// The resolved value of a property, if one was written.
    pub fn value(&self, name: &str) -> (r: Option<DeclarationValue>)
        ensures
            match r {
                Some(v) => amap_get(self.specified_values@, name@) == Some(v@),
                None => amap_get(self.specified_values@, name@) == None::<DeclarationValueV>,
            },
    {
        match self.specified_values.get(name) {
            Some(v) => Some(copy_value(v)),
            None => None,
        }
    }

    /// The value of `name`, else of `fallback_name`, else the given default.
    pub fn lookup(&self, name: &str, fallback_name: &str, default: &DeclarationValue) -> (r:
        DeclarationValue)
        ensures
            r@ == (match amap_get(self.specified_values@, name@) {
                Some(v) => v,
                None => match amap_get(self.specified_values@, fallback_name@) {
                    Some(v) => v,
                    None => default@,
                },
            }),
    {
        match self.value(name) {
            Some(v) => v,
            None => match self.value(fallback_name) {
                Some(v) => v,
                None => copy_value(default),
            },
        }
    }

    /// The value of the `display` property, defaulting to inline.
    pub fn display(&self) -> (r: Display)
        ensures
            r == spec_display(self.specified_values@),
    {
        match self.value("display") {
            Some(DeclarationValue::Keyword(keyword)) => {
                if str_eq(keyword.as_str(), "block") {
                    Display::Block
                } else if str_eq(keyword.as_str(), "none") {
                    Display::NoDisplay
                } else {
                    Display::Inline
                }
            },
            _ => Display::Inline,
        }
    }
}

} // verus!
