//! Writing a document tree back out as markup text.  Attribute keys are
//! written in ascending lexicographic order — the order the attribute
//! mapping keeps them in — so equal attribute sets always serialize the
//! same way.  Elements without children are written self-closing.

use vstd::prelude::*;

use crate::dom::{
    AttributeMap, AttrsV, Doctype, DoctypeV, HtmlRoot, HtmlRootV, Node, NodeType, NodeTypeV, NodeV,
};
use crate::markup::{sp_parse_doctype, sp_parse_public_id, sp_parse_system_id};
use crate::text::{
    begins_with, is_space_char, lemma_scan_end_eq, pred_not, pred_space, scan_end, ws_end,
};
use crate::validation::{is_tag_char_spec, pred_tag};
use crate::Parsed;

verus! {

/// A name an identifier scan reads back whole: nonempty, identifier
/// characters only.
pub open spec fn wf_name(s: Seq<char>) -> bool {
    s.len() > 0 && (forall|i: int| 0 <= i < s.len() ==> is_tag_char_spec(#[trigger] s[i]))
}

/// Text a quote-delimited scan reads back whole: no quote inside.
pub open spec fn quote_free(s: Seq<char>) -> bool {
    forall|i: int| 0 <= i < s.len() ==> (#[trigger] s[i]) != '"'
}

/// The text of an attribute list: ` key="value"` for each binding, in
/// stored (sorted) order.
pub open spec fn attrs_markup(m: AttrsV) -> Seq<char>
    decreases m.len(),
{
    if m.len() == 0 {
        Seq::empty()
    } else {
        " "@ + m[0].0 + "=\""@ + m[0].1 + "\""@ + attrs_markup(m.drop_first())
    }
}

/// The markup text of one node.
pub open spec fn node_markup(n: NodeV) -> Seq<char>
    decreases n,
{
    match n.node_type {
        NodeTypeV::Text(t) => t,
        NodeTypeV::Element(e) => {
            if n.children.len() == 0 {
                "<"@ + e.tag_name + attrs_markup(e.atributes) + "/>"@
            } else {
                "<"@ + e.tag_name + attrs_markup(e.atributes) + ">"@ + nodes_markup(n.children)
                    + "</"@ + e.tag_name + ">"@
            }
        },
    }
}

/// The markup text of a node sequence, in order.
pub open spec fn nodes_markup(v: Seq<NodeV>) -> Seq<char>
    decreases v,
{
    if v.len() == 0 {
        Seq::empty()
    } else {
        node_markup(v[0]) + nodes_markup(v.drop_first())
    }
}

/// The text of a doctype declaration.
pub open spec fn doctype_markup(d: DoctypeV) -> Seq<char> {
    "<!DOCTYPE "@ + d.name + (match d.public_id {
        Some(p) => " PUBLIC\""@ + p + "\""@,
        None => Seq::empty(),
    }) + (match d.system_id {
        Some(p) => " SYSTEM\""@ + p + "\""@,
        None => Seq::empty(),
    }) + ">"@
}

/// The text of a whole document.
pub open spec fn root_markup(r: HtmlRootV) -> Seq<char> {
    (match r.doctype {
        Some(d) => doctype_markup(d),
        None => Seq::empty(),
    }) + r.children_markup()
}

impl HtmlRootV {
    /// The markup of the document's children.
    pub open spec fn children_markup(&self) -> Seq<char> {
        nodes_markup(self.children)
    }
}

/// A prefix made of two pieces begins with each piece in turn.
pub proof fn lemma_begins_split(s: Seq<char>, p: int, x: Seq<char>, y: Seq<char>)
    requires
        begins_with(s, p, x + y),
    ensures
        begins_with(s, p, x),
        begins_with(s, p + x.len(), y),
{
    assert forall|q: int| 0 <= q < x.len() + y.len() implies s[p + q] == (x + y)[q] by {
        assert(s.subrange(p, p + (x + y).len())[q] == s[p + q]);
    }
    assert(s.subrange(p, p + x.len()) =~= x);
    assert forall|q: int| 0 <= q < y.len() implies s.subrange(
        p + x.len(),
        p + x.len() + y.len(),
    )[q] == y[q] by {
        assert(s.subrange(p, p + (x + y).len())[x.len() + q] == s[p + x.len() + q]);
    }
    assert(s.subrange(p + x.len(), p + x.len() + y.len()) =~= y);
}

/// The characters a prefix pins down, one by one.
pub proof fn lemma_begins_chars(s: Seq<char>, p: int, x: Seq<char>)
    requires
        begins_with(s, p, x),
    ensures
        forall|q: int| 0 <= q < x.len() ==> s[p + q] == #[trigger] x[q],
{
    assert forall|q: int| 0 <= q < x.len() implies s[p + q] == #[trigger] x[q] by {
        assert(s.subrange(p, p + x.len())[q] == s[p + q]);
    }
}

/// Attribute names are identifiers and values hold no quote, so writing
/// and re-reading them is exact.
pub open spec fn wf_attrs(m: AttrsV) -> bool {
    forall|i: int|
        0 <= i < m.len() ==> wf_name((#[trigger] m[i]).0) && quote_free(m[i].1)
}

/// A serialized `PUBLIC"<id>"` part parses back to its identifier.
proof fn lemma_public_id_round_trip(s: Seq<char>, p: int, idv: Seq<char>)
    requires
        quote_free(idv),
        0 <= p,
        begins_with(s, p, "PUBLIC\""@ + idv + "\""@),
    ensures
        sp_parse_public_id(s, p) == Parsed::Val(Some(idv), p + 8 + idv.len()),
{
    reveal_strlit("PUBLIC\"");
    reveal_strlit("PUBLIC");
    reveal_strlit("\"");
    let whole = "PUBLIC\""@ + idv + "\""@;
    assert(s.subrange(p, p + whole.len()) == whole);
    assert forall|q: int| 0 <= q < whole.len() implies s[p + q] == whole[q] by {
        assert(s.subrange(p, p + whole.len())[q] == s[p + q]);
    }
    assert(begins_with(s, p, "PUBLIC"@)) by {
        assert(s.subrange(p, p + 6) =~= "PUBLIC"@);
    }
    let p1 = p + 6;
    assert(begins_with(s, p1, "\""@)) by {
        assert(s[p1] == whole[6]);
        assert(whole[6] == '"');
        assert(s.subrange(p1, p1 + 1) =~= "\""@);
    }
    let p2 = p1 + 1;
    assert(scan_end(s, p2, pred_not('"')) == p2 + idv.len()) by {
        assert forall|q: int| p2 <= q < p2 + idv.len() implies pred_not('"')(s[q]) by {
            assert(s[q] == whole[q - p]);
            assert(whole[q - p] == idv[q - p - 7]);
        }
        assert(s[p2 + idv.len()] == whole[7 + idv.len() as int]);
        assert(whole[7 + idv.len() as int] == '"');
        lemma_scan_end_eq(s, p2, p2 + idv.len(), pred_not('"'));
    }
    let p3 = p2 + idv.len();
    assert(begins_with(s, p3, "\""@)) by {
        assert(s[p3] == whole[7 + idv.len() as int]);
        assert(whole[7 + idv.len() as int] == '"');
        assert(s.subrange(p3, p3 + 1) =~= "\""@);
    }
    assert(s.subrange(p2, p3) =~= idv) by {
        assert forall|q: int| 0 <= q < idv.len() implies s.subrange(p2, p3)[q] == idv[q] by {
            assert(s[p2 + q] == whole[7 + q]);
            assert(whole[7 + q] == idv[q]);
        }
    }
}

/// A serialized `SYSTEM"<id>"` part parses back to its identifier.
proof fn lemma_system_id_round_trip(s: Seq<char>, p: int, idv: Seq<char>)
    requires
        quote_free(idv),
        0 <= p,
        begins_with(s, p, "SYSTEM\""@ + idv + "\""@),
    ensures
        sp_parse_system_id(s, p) == Parsed::Val(Some(idv), p + 8 + idv.len()),
{
    reveal_strlit("SYSTEM\"");
    reveal_strlit("SYSTEM");
    reveal_strlit("\"");
    let whole = "SYSTEM\""@ + idv + "\""@;
    assert(s.subrange(p, p + whole.len()) == whole);
    assert forall|q: int| 0 <= q < whole.len() implies s[p + q] == whole[q] by {
        assert(s.subrange(p, p + whole.len())[q] == s[p + q]);
    }
    assert(begins_with(s, p, "SYSTEM"@)) by {
        assert(s.subrange(p, p + 6) =~= "SYSTEM"@);
    }
    let p1 = p + 6;
    assert(begins_with(s, p1, "\""@)) by {
        assert(s[p1] == whole[6]);
        assert(whole[6] == '"');
        assert(s.subrange(p1, p1 + 1) =~= "\""@);
    }
    let p2 = p1 + 1;
    assert(scan_end(s, p2, pred_not('"')) == p2 + idv.len()) by {
        assert forall|q: int| p2 <= q < p2 + idv.len() implies pred_not('"')(s[q]) by {
            assert(s[q] == whole[q - p]);
            assert(whole[q - p] == idv[q - p - 7]);
        }
        assert(s[p2 + idv.len()] == whole[7 + idv.len() as int]);
        assert(whole[7 + idv.len() as int] == '"');
        lemma_scan_end_eq(s, p2, p2 + idv.len(), pred_not('"'));
    }
    let p3 = p2 + idv.len();
    assert(begins_with(s, p3, "\""@)) by {
        assert(s[p3] == whole[7 + idv.len() as int]);
        assert(whole[7 + idv.len() as int] == '"');
        assert(s.subrange(p3, p3 + 1) =~= "\""@);
    }
    assert(s.subrange(p2, p3) =~= idv) by {
        assert forall|q: int| 0 <= q < idv.len() implies s.subrange(p2, p3)[q] == idv[q] by {
            assert(s[p2 + q] == whole[7 + q]);
            assert(whole[7 + q] == idv[q]);
        }
    }
}

/// Re-parsing a serialized doctype yields the doctype itself: for any
/// doctype whose name is a nonempty identifier and whose public and system
/// identifiers hold no quote, and any following text, parsing
/// `doctype_markup(d) + rest` reads back exactly `d` and stops right after
/// the closing `>`.
#[verifier::rlimit(60)]
pub proof fn lemma_doctype_round_trip(d: DoctypeV, rest: Seq<char>)
    requires
        wf_name(d.name),
        match d.public_id {
            Some(p) => quote_free(p),
            None => true,
        },
        match d.system_id {
            Some(p) => quote_free(p),
            None => true,
        },
    ensures
        sp_parse_doctype(doctype_markup(d) + rest, 0) == Parsed::Val(
            Some(d),
            doctype_markup(d).len() as int,
        ),
{
    reveal_strlit("<!DOCTYPE ");
    reveal_strlit("<!");
    reveal_strlit(" PUBLIC\"");
    reveal_strlit(" SYSTEM\"");
    reveal_strlit("PUBLIC\"");
    reveal_strlit("SYSTEM\"");
    reveal_strlit("PUBLIC");
    reveal_strlit("SYSTEM");
    reveal_strlit("\"");
    reveal_strlit(">");
    let a = "<!DOCTYPE "@;
    let pubpart = match d.public_id {
        Some(p) => " PUBLIC\""@ + p + "\""@,
        None => Seq::<char>::empty(),
    };
    let syspart = match d.system_id {
        Some(p) => " SYSTEM\""@ + p + "\""@,
        None => Seq::<char>::empty(),
    };
    let dm = doctype_markup(d);
    let s = dm + rest;
    let n = d.name.len() as int;
    let pl = pubpart.len() as int;
    let sl = syspart.len() as int;
    assert(dm =~= a + d.name + pubpart + syspart + ">"@);
    assert(dm.len() == 10 + n + pl + sl + 1);
    assert forall|q: int| 0 <= q < dm.len() implies s[q] == dm[q] by {}
    assert forall|q: int| 0 <= q < 10 implies dm[q] == a[q] by {}
    assert forall|q: int| 0 <= q < n implies dm[10 + q] == d.name[q] by {}
    assert forall|q: int| 0 <= q < pl implies dm[10 + n + q] == pubpart[q] by {}
    assert forall|q: int| 0 <= q < sl implies dm[10 + n + pl + q] == syspart[q] by {}
    assert(dm[10 + n + pl + sl] == '>');
    // `<!`
    assert(begins_with(s, 0, "<!"@)) by {
        assert(s.subrange(0, 2) =~= "<!"@);
    }
    // no whitespace before the first word
    assert(ws_end(s, 2) == 2) by {
        assert(s[2] == 'D');
        lemma_scan_end_eq(s, 2, 2, pred_space());
    }
    // the discarded word `DOCTYPE`
    assert(scan_end(s, 2, pred_tag()) == 9) by {
        assert forall|q: int| 2 <= q < 9 implies pred_tag()(s[q]) by {
            assert(s[q] == a[q]);
        }
        assert(s[9] == ' ');
        lemma_scan_end_eq(s, 2, 9, pred_tag());
    }
    // one space, then the name
    assert(ws_end(s, 9) == 10) by {
        assert(s[9] == ' ');
        assert(s[10] == d.name[0]);
        assert(is_tag_char_spec(d.name[0]));
        lemma_scan_end_eq(s, 9, 10, pred_space());
    }
    assert(scan_end(s, 10, pred_tag()) == 10 + n) by {
        assert forall|q: int| 10 <= q < 10 + n implies pred_tag()(s[q]) by {
            assert(s[q] == d.name[q - 10]);
        }
        if pl > 0 {
            assert(s[10 + n] == pubpart[0]);
            assert(pubpart[0] == ' ');
        } else if sl > 0 {
            assert(s[10 + n] == syspart[0]);
            assert(syspart[0] == ' ');
        } else {
            assert(s[10 + n] == '>');
        }
        lemma_scan_end_eq(s, 10, 10 + n, pred_tag());
    }
    assert(s.subrange(10, 10 + n) =~= d.name);
    // whitespace after the name
    let p6 = if pl > 0 || sl > 0 {
        11 + n
    } else {
        10 + n
    };
    assert(ws_end(s, 10 + n) == p6) by {
        if pl > 0 {
            assert(s[10 + n] == ' ');
            assert(s[11 + n] == pubpart[1] && pubpart[1] == 'P');
            lemma_scan_end_eq(s, 10 + n, 11 + n, pred_space());
        } else if sl > 0 {
            assert(s[10 + n] == ' ');
            assert(s[11 + n] == syspart[1] && syspart[1] == 'S');
            lemma_scan_end_eq(s, 10 + n, 11 + n, pred_space());
        } else {
            assert(s[10 + n] == '>');
            lemma_scan_end_eq(s, 10 + n, 10 + n, pred_space());
        }
    }
    // the PUBLIC part
    let p7 = if pl > 0 {
        10 + n + pl
    } else {
        p6
    };
    match d.public_id {
        Some(p) => {
            assert(begins_with(s, p6, "PUBLIC\""@ + p + "\""@)) by {
                assert(pubpart.drop_first() =~= "PUBLIC\""@ + p + "\""@);
                assert forall|q: int| 0 <= q < pl - 1 implies s.subrange(p6, p6 + pl - 1)[q] == (
                "PUBLIC\""@ + p + "\""@)[q] by {
                    assert(s[11 + n + q] == pubpart[1 + q]);
                    assert(pubpart[1 + q] == pubpart.drop_first()[q]);
                }
                assert(s.subrange(p6, p6 + pl - 1) =~= "PUBLIC\""@ + p + "\""@);
            }
            lemma_public_id_round_trip(s, p6, p);
            assert(sp_parse_public_id(s, p6) == Parsed::Val(Some(p), p7));
        },
        None => {
            assert(!begins_with(s, p6, "PUBLIC"@)) by {
                if begins_with(s, p6, "PUBLIC"@) {
                    assert(s.subrange(p6, p6 + 6)[0] == 'P');
                    if sl > 0 {
                        assert(s[p6] == syspart[1] && syspart[1] == 'S');
                    } else {
                        assert(s[p6] == '>');
                    }
                }
            }
            assert(sp_parse_public_id(s, p6) == Parsed::Val(None::<Seq<char>>, p6));
        },
    }
    // whitespace between the parts
    let p8 = if sl > 0 {
        10 + n + pl + 1
    } else {
        p7
    };
    assert(ws_end(s, p7) == p8) by {
        if sl > 0 {
            assert(s[10 + n + pl] == syspart[0] && syspart[0] == ' ');
            assert(s[10 + n + pl + 1] == syspart[1] && syspart[1] == 'S');
            lemma_scan_end_eq(s, p7, p8, pred_space());
        } else {
            assert(s[p7] == '>');
            lemma_scan_end_eq(s, p7, p7, pred_space());
        }
    }
    // the SYSTEM part
    let p9 = if sl > 0 {
        10 + n + pl + sl
    } else {
        p8
    };
    match d.system_id {
        Some(p) => {
            assert(begins_with(s, p8, "SYSTEM\""@ + p + "\""@)) by {
                assert(syspart.drop_first() =~= "SYSTEM\""@ + p + "\""@);
                assert forall|q: int| 0 <= q < sl - 1 implies s.subrange(p8, p8 + sl - 1)[q] == (
                "SYSTEM\""@ + p + "\""@)[q] by {
                    assert(s[10 + n + pl + 1 + q] == syspart[1 + q]);
                    assert(syspart[1 + q] == syspart.drop_first()[q]);
                }
                assert(s.subrange(p8, p8 + sl - 1) =~= "SYSTEM\""@ + p + "\""@);
            }
            lemma_system_id_round_trip(s, p8, p);
            assert(sp_parse_system_id(s, p8) == Parsed::Val(Some(p), p9));
        },
        None => {
            assert(!begins_with(s, p8, "SYSTEM"@)) by {
                if begins_with(s, p8, "SYSTEM"@) {
                    assert(s.subrange(p8, p8 + 6)[0] == 'S');
                    assert(s[p8] == '>');
                }
            }
            assert(sp_parse_system_id(s, p8) == Parsed::Val(None::<Seq<char>>, p8));
        },
    }
    // the closing `>`
    assert(begins_with(s, p9, ">"@)) by {
        assert(s[p9] == '>');
        assert(s.subrange(p9, p9 + 1) =~= ">"@);
    }
    assert(sp_parse_doctype(s, 0) == Parsed::Val(Some(d), dm.len() as int));
}

/// The attribute text after its leading space.
pub open spec fn attrs_tail(m: AttrsV) -> Seq<char> {
    if m.len() == 0 {
        Seq::empty()
    } else {
        attrs_markup(m).drop_first()
    }
}

/// One serialized `name="value"` pair parses back to its pair.
proof fn lemma_attr_round_trip(s: Seq<char>, p: int, k: Seq<char>, v: Seq<char>)
    requires
        wf_name(k),
        quote_free(v),
        0 <= p,
        begins_with(s, p, k + "=\""@ + v + "\""@),
    ensures
        crate::markup::sp_attr(s, p) == Parsed::Val((k, v), p + k.len() + 3 + v.len()),
{
    reveal_strlit("=\"");
    reveal_strlit("\"");
    let kl = k.len() as int;
    let vl = v.len() as int;
    assert(k + "=\""@ + v + "\""@ =~= k + ("=\""@ + (v + "\""@)));
    lemma_begins_split(s, p, k, "=\""@ + (v + "\""@));
    lemma_begins_split(s, p + kl, "=\""@, v + "\""@);
    lemma_begins_split(s, p + kl + 2, v, "\""@);
    lemma_begins_chars(s, p, k);
    lemma_begins_chars(s, p + kl, "=\""@);
    lemma_begins_chars(s, p + kl + 2, v);
    lemma_begins_chars(s, p + kl + 2 + vl, "\""@);
    assert(s[p + kl + 0] == "=\""@[0]);
    assert(s[p + kl + 1] == "=\""@[1]);
    assert(s[p + kl + 2 + vl + 0] == "\""@[0]);
    assert(s[p + kl] == '=');
    assert(s[p + kl + 1] == '"');
    assert(s[p + kl + 2 + vl] == '"');
    assert(scan_end(s, p, pred_tag()) == p + kl) by {
        assert forall|q: int| p <= q < p + kl implies pred_tag()(s[q]) by {
            assert(s[p + (q - p)] == k[q - p]);
        }
        lemma_scan_end_eq(s, p, p + kl, pred_tag());
    }
    assert(s.subrange(p, p + kl) =~= k);
    assert(scan_end(s, p + kl + 2, pred_not('"')) == p + kl + 2 + vl) by {
        assert forall|q: int| p + kl + 2 <= q < p + kl + 2 + vl implies pred_not('"')(s[q]) by {
            assert(s[p + kl + 2 + (q - p - kl - 2)] == v[q - p - kl - 2]);
        }
        lemma_scan_end_eq(s, p + kl + 2, p + kl + 2 + vl, pred_not('"'));
    }
    assert(p + kl + 2 + vl < s.len());
    assert(s.subrange(p + kl + 2, p + kl + 2 + vl) =~= v);
}

/// Reading a serialized attribute list back appends exactly its bindings:
/// the cursor stands at the first attribute name, every name read sorts
/// after the names already accumulated, and the list ends at the tag's
/// closing character.
proof fn lemma_attrs_loop(s: Seq<char>, p: int, m: AttrsV, acc: AttrsV)
    requires
        wf_attrs(m),
        crate::dom::amap_sorted(acc + m),
        0 <= p,
        begins_with(s, p, attrs_tail(m)),
        p + attrs_tail(m).len() < s.len(),
        s[p + attrs_tail(m).len()] == '>' || s[p + attrs_tail(m).len()] == '/',
    ensures
        crate::markup::sp_attrs(s, p, acc) == Parsed::Val(acc + m, p + attrs_tail(m).len()),
    decreases m.len(),
{
    reveal_strlit(" ");
    reveal_strlit("=\"");
    reveal_strlit("\"");
    let e = p + attrs_tail(m).len();
    if m.len() == 0 {
        assert(acc + m =~= acc);
    } else {
        let k = m[0].0;
        let v = m[0].1;
        let d = m.drop_first();
        let kl = k.len() as int;
        let vl = v.len() as int;
        assert(wf_name(k) && quote_free(v));
        assert(attrs_tail(m) =~= (k + "=\""@ + v + "\""@) + attrs_markup(d));
        lemma_begins_split(s, p, k + "=\""@ + v + "\""@, attrs_markup(d));
        lemma_attr_round_trip(s, p, k, v);
        let p2 = p + kl + 3 + vl;
        assert(begins_with(s, p2, attrs_markup(d)));
        assert(p < s.len());
        assert(s[p] == k[0]) by {
            lemma_begins_chars(s, p, k + "=\""@ + v + "\""@);
            assert(s[p + 0] == (k + "=\""@ + v + "\""@)[0]);
        }
        assert(is_tag_char_spec(s[p]));
        // the gap before the next name, or the closing character
        let q2 = if d.len() > 0 {
            p2 + 1
        } else {
            p2
        };
        if d.len() > 0 {
            assert(attrs_markup(d) == " "@ + d[0].0 + "=\""@ + d[0].1 + "\""@ + attrs_markup(
                d.drop_first(),
            ));
            assert(attrs_markup(d) =~= " "@ + attrs_tail(d)) by {
                assert(attrs_markup(d)[0] == ' ');
                assert forall|q: int|
                    0 <= q < attrs_markup(d).len() implies attrs_markup(d)[q] == (" "@
                    + attrs_tail(d))[q] by {
                    if q > 0 {
                        assert(attrs_tail(d)[q - 1] == attrs_markup(d)[q]);
                    }
                }
            }
            lemma_begins_split(s, p2, " "@, attrs_tail(d));
            lemma_begins_chars(s, p2, " "@);
            assert(s[p2 + 0] == " "@[0]);
            assert(s[p2] == ' ');
            assert(d[0] == m[1]);
            assert(wf_name(d[0].0));
            assert(begins_with(s, q2, attrs_tail(d)));
            assert(s[q2] == d[0].0[0]) by {
                lemma_begins_chars(s, q2, attrs_tail(d));
                assert(attrs_tail(d)[0] == d[0].0[0]);
                assert(s[q2 + 0] == attrs_tail(d)[0]);
            }
            assert(ws_end(s, p2) == q2) by {
                assert(is_tag_char_spec(s[q2]));
                lemma_scan_end_eq(s, p2, q2, pred_space());
            }
            assert(q2 + attrs_tail(d).len() == e);
        } else {
            assert(attrs_tail(d) =~= Seq::<char>::empty());
            assert(attrs_markup(d) =~= Seq::<char>::empty());
            assert(p2 == e);
            assert(ws_end(s, p2) == q2) by {
                lemma_scan_end_eq(s, p2, p2, pred_space());
            }
            assert(s.subrange(q2, q2) =~= Seq::<char>::empty());
            assert(begins_with(s, q2, attrs_tail(d)));
        }
        // the new binding lands at the end of the accumulator
        assert(crate::dom::amap_sorted(acc)) by {
            assert forall|i: int, j: int| 0 <= i < j < acc.len() implies crate::dom::lex_lt(
                (#[trigger] acc[i]).0,
                (#[trigger] acc[j]).0,
            ) by {
                assert((acc + m)[i] == acc[i] && (acc + m)[j] == acc[j]);
            }
        }
        assert forall|i: int| 0 <= i < acc.len() implies crate::dom::lex_lt(
            (#[trigger] acc[i]).0,
            k,
        ) by {
            assert((acc + m)[i] == acc[i]);
            assert((acc + m)[acc.len() as int] == m[0]);
        }
        crate::dom::lemma_amap_put_at(acc, k, v, acc.len() as int);
        assert(crate::dom::amap_put(acc, k, v) =~= acc.push((k, v)));
        assert(wf_attrs(d)) by {
            assert forall|i: int| 0 <= i < d.len() implies wf_name((#[trigger] d[i]).0)
                && quote_free(d[i].1) by {
                assert(d[i] == m[i + 1]);
            }
        }
        assert(acc.push((k, v)) + d =~= acc + m);
        lemma_attrs_loop(s, q2, d, acc.push((k, v)));
        assert(crate::markup::sp_attrs(s, q2, crate::dom::amap_put(acc, k, v)) == Parsed::Val(
            acc + m,
            e,
        ));
    }
}

/// A tree the serializer can write and the parser read back whole: tag
/// names are identifiers, attributes are well formed and sorted, text is
/// nonempty, holds no `<`, and does not begin with whitespace, and a text
/// node never directly follows another text node.
pub open spec fn wf_out_node(n: NodeV) -> bool
    decreases n,
{
    match n.node_type {
        NodeTypeV::Text(t) => {
            &&& n.children.len() == 0
            &&& t.len() > 0
            &&& !is_space_char(t[0])
            &&& (forall|i: int| 0 <= i < t.len() ==> (#[trigger] t[i]) != '<')
        },
        NodeTypeV::Element(e) => {
            &&& wf_name(e.tag_name)
            &&& wf_attrs(e.atributes)
            &&& crate::dom::amap_sorted(e.atributes)
            &&& wf_out_nodes(n.children)
        },
    }
}

/// The same, for a sequence of sibling nodes.
pub open spec fn wf_out_nodes(v: Seq<NodeV>) -> bool
    decreases v,
{
    if v.len() == 0 {
        true
    } else {
        &&& wf_out_node(v[0])
        &&& (v.len() > 1 && v[0].node_type is Text ==> v[1].node_type is Element)
        &&& wf_out_nodes(v.drop_first())
    }
}

/// Re-parsing one serialized node yields the node itself.  A text node
/// needs the following character, if any, to be `<`, which siblings and
/// close tags provide.
#[verifier::rlimit(100)]
#[verifier::spinoff_prover]
pub proof fn lemma_node_round_trip(n: NodeV, s: Seq<char>, p: int)
    requires
        wf_out_node(n),
        0 <= p,
        begins_with(s, p, node_markup(n)),
        n.node_type is Text ==> (p + node_markup(n).len() == s.len() || s[p + node_markup(
            n,
        ).len()] == '<'),
    ensures
        crate::markup::sp_parse_node(s, p) == Parsed::Val(n, p + node_markup(n).len()),
    decreases n,
{
    reveal_strlit("<");
    reveal_strlit(">");
    reveal_strlit("/>");
    reveal_strlit("</");
    reveal_strlit("/");
    reveal_strlit(" ");
    let nm = node_markup(n);
    match n.node_type {
        NodeTypeV::Text(t) => {
            lemma_begins_chars(s, p, t);
            assert(s[p + 0] == t[0]);
            assert(s[p] != '<');
            assert(scan_end(s, p, pred_not('<')) == p + t.len()) by {
                assert forall|q: int| p <= q < p + t.len() implies pred_not('<')(s[q]) by {
                    assert(s[p + (q - p)] == t[q - p]);
                }
                lemma_scan_end_eq(s, p, p + t.len(), pred_not('<'));
            }
            assert(s.subrange(p, p + t.len()) =~= t);
            assert(n.children =~= Seq::<NodeV>::empty());
            assert(crate::markup::text_v(t) == n);
        },
        NodeTypeV::Element(el) => {
            let tag = el.tag_name;
            let am = el.atributes;
            let tl = tag.len() as int;
            let al = attrs_markup(am).len() as int;
            let kids = n.children;
            if kids.len() == 0 {
                assert(nm =~= "<"@ + (tag + (attrs_markup(am) + "/>"@)));
                lemma_begins_split(s, p, "<"@, tag + (attrs_markup(am) + "/>"@));
                lemma_begins_split(s, p + 1, tag, attrs_markup(am) + "/>"@);
                lemma_begins_split(s, p + 1 + tl, attrs_markup(am), "/>"@);
                lemma_begins_chars(s, p, "<"@);
                lemma_begins_chars(s, p + 1, tag);
                lemma_begins_chars(s, p + 1 + tl + al, "/>"@);
                assert(s[p + 0] == "<"@[0]);
                assert(s[p] == '<');
                assert(s[p + 1 + tl + al + 0] == "/>"@[0]);
                assert(s[p + 1 + tl + al] == '/');
                let te = p + 1 + tl;
                assert(scan_end(s, p + 1, pred_tag()) == te) by {
                    assert forall|q: int| p + 1 <= q < te implies pred_tag()(s[q]) by {
                        assert(s[p + 1 + (q - p - 1)] == tag[q - p - 1]);
                    }
                    if al > 0 {
                        lemma_begins_chars(s, te, attrs_markup(am));
                        assert(s[te + 0] == attrs_markup(am)[0]);
                        assert(attrs_markup(am)[0] == ' ');
                    } else {
                        assert(s[te] == '/');
                    }
                    lemma_scan_end_eq(s, p + 1, te, pred_tag());
                }
                assert(s.subrange(p + 1, te) =~= tag);
                // the attribute list, then `/>`
                let q = if al > 0 {
                    te + 1
                } else {
                    te
                };
                if al > 0 {
                    assert(attrs_markup(am) =~= " "@ + attrs_tail(am)) by {
                        assert(attrs_markup(am)[0] == ' ');
                        assert forall|q2: int|
                            0 <= q2 < al implies attrs_markup(am)[q2] == (" "@ + attrs_tail(
                            am,
                        ))[q2] by {
                            if q2 > 0 {
                                assert(attrs_tail(am)[q2 - 1] == attrs_markup(am)[q2]);
                            }
                        }
                    }
                    lemma_begins_split(s, te, " "@, attrs_tail(am));
                    lemma_begins_chars(s, te, " "@);
                    lemma_begins_chars(s, q, attrs_tail(am));
                }
                assert(ws_end(s, te) == q) by {
                    if al > 0 {
                        assert(s[te + 0] == " "@[0]);
                        assert(s[te] == ' ');
                        assert(am.len() > 0);
                        assert(attrs_tail(am)[0] == am[0].0[0]) by {
                            assert(attrs_markup(am)[1] == am[0].0[0]);
                        }
                        assert(s[q + 0] == attrs_tail(am)[0]);
                        assert(wf_name(am[0].0));
                        assert(is_tag_char_spec(s[q]));
                        lemma_scan_end_eq(s, te, q, pred_space());
                    } else {
                        assert(s[te] == '/');
                        lemma_scan_end_eq(s, te, te, pred_space());
                    }
                }
                let pa = p + 1 + tl + al;
                assert(begins_with(s, q, attrs_tail(am))) by {
                    if al == 0 {
                        assert(am.len() == 0);
                        assert(attrs_tail(am) =~= Seq::<char>::empty());
                        assert(s.subrange(q, q) =~= Seq::<char>::empty());
                    }
                }
                assert(q + attrs_tail(am).len() == pa);
                assert(pa < s.len());
                assert(s[pa] == '/');
                assert(crate::dom::amap_sorted(Seq::<(Seq<char>, Seq<char>)>::empty() + am)) by {
                    assert(Seq::<(Seq<char>, Seq<char>)>::empty() + am =~= am);
                }
                lemma_attrs_loop(s, q, am, Seq::empty());
                assert(Seq::<(Seq<char>, Seq<char>)>::empty() + am =~= am);
                assert(crate::markup::sp_parse_attributes(s, te) == Parsed::Val(am, pa));
                assert(begins_with(s, pa, "/>"@)) by {
                    assert(s[pa + 1] == "/>"@[1]);
                    assert(s[pa + 1] == '>');
                    assert(s.subrange(pa, pa + 2) =~= "/>"@);
                }
                assert(crate::markup::elem_v(s.subrange(p + 1, te), am, Seq::empty()) == n) by {
                    assert(n.children =~= Seq::<NodeV>::empty());
                }
            } else {
                let inner = nodes_markup(kids);
                let il = inner.len() as int;
                assert(nm =~= "<"@ + (tag + (attrs_markup(am) + (">"@ + (inner + ("</"@ + (tag
                    + ">"@)))))));
                lemma_begins_split(s, p, "<"@, tag + (attrs_markup(am) + (">"@ + (inner + ("</"@
                    + (tag + ">"@))))));
                lemma_begins_split(s, p + 1, tag, attrs_markup(am) + (">"@ + (inner + ("</"@ + (tag
                    + ">"@)))));
                lemma_begins_split(s, p + 1 + tl, attrs_markup(am), ">"@ + (inner + ("</"@ + (tag
                    + ">"@))));
                lemma_begins_split(s, p + 1 + tl + al, ">"@, inner + ("</"@ + (tag + ">"@)));
                lemma_begins_split(s, p + 2 + tl + al, inner, "</"@ + (tag + ">"@));
                lemma_begins_split(s, p + 2 + tl + al + il, "</"@, tag + ">"@);
                lemma_begins_split(s, p + 4 + tl + al + il, tag, ">"@);
                lemma_begins_chars(s, p, "<"@);
                lemma_begins_chars(s, p + 1, tag);
                lemma_begins_chars(s, p + 1 + tl + al, ">"@);
                lemma_begins_chars(s, p + 2 + tl + al + il, "</"@);
                lemma_begins_chars(s, p + 4 + tl + al + il + tl, ">"@);
                assert(s[p + 0] == "<"@[0]);
                assert(s[p] == '<');
                assert(s[p + 1 + tl + al + 0] == ">"@[0]);
                assert(s[p + 1 + tl + al] == '>');
                assert(s[p + 2 + tl + al + il + 0] == "</"@[0]);
                assert(s[p + 2 + tl + al + il + 1] == "</"@[1]);
                assert(s[p + 4 + tl + al + il + tl + 0] == ">"@[0]);
                let te = p + 1 + tl;
                assert(scan_end(s, p + 1, pred_tag()) == te) by {
                    assert forall|q: int| p + 1 <= q < te implies pred_tag()(s[q]) by {
                        assert(s[p + 1 + (q - p - 1)] == tag[q - p - 1]);
                    }
                    if al > 0 {
                        lemma_begins_chars(s, te, attrs_markup(am));
                        assert(s[te + 0] == attrs_markup(am)[0]);
                        assert(attrs_markup(am)[0] == ' ');
                    } else {
                        assert(s[te] == '>');
                    }
                    lemma_scan_end_eq(s, p + 1, te, pred_tag());
                }
                assert(s.subrange(p + 1, te) =~= tag);
                let q = if al > 0 {
                    te + 1
                } else {
                    te
                };
                if al > 0 {
                    assert(attrs_markup(am) =~= " "@ + attrs_tail(am)) by {
                        assert(attrs_markup(am)[0] == ' ');
                        assert forall|q2: int|
                            0 <= q2 < al implies attrs_markup(am)[q2] == (" "@ + attrs_tail(
                            am,
                        ))[q2] by {
                            if q2 > 0 {
                                assert(attrs_tail(am)[q2 - 1] == attrs_markup(am)[q2]);
                            }
                        }
                    }
                    lemma_begins_split(s, te, " "@, attrs_tail(am));
                    lemma_begins_chars(s, te, " "@);
                    lemma_begins_chars(s, q, attrs_tail(am));
                }
                assert(ws_end(s, te) == q) by {
                    if al > 0 {
                        assert(s[te + 0] == " "@[0]);
                        assert(s[te] == ' ');
                        assert(am.len() > 0);
                        assert(attrs_tail(am)[0] == am[0].0[0]) by {
                            assert(attrs_markup(am)[1] == am[0].0[0]);
                        }
                        assert(s[q + 0] == attrs_tail(am)[0]);
                        assert(wf_name(am[0].0));
                        assert(is_tag_char_spec(s[q]));
                        lemma_scan_end_eq(s, te, q, pred_space());
                    } else {
                        assert(s[te] == '>');
                        lemma_scan_end_eq(s, te, te, pred_space());
                    }
                }
                let pa = p + 1 + tl + al;
                assert(begins_with(s, q, attrs_tail(am))) by {
                    if al > 0 {
                    } else {
                        assert(am.len() == 0);
                        assert(attrs_tail(am) =~= Seq::<char>::empty());
                        assert(s.subrange(q, q) =~= Seq::<char>::empty());
                    }
                }
                assert(q + attrs_tail(am).len() == pa);
                assert(pa < s.len());
                assert(s[pa] == '>');
                assert(crate::dom::amap_sorted(Seq::<(Seq<char>, Seq<char>)>::empty() + am)) by {
                    assert(Seq::<(Seq<char>, Seq<char>)>::empty() + am =~= am);
                }
                lemma_attrs_loop(s, q, am, Seq::empty());
                assert(Seq::<(Seq<char>, Seq<char>)>::empty() + am =~= am);
                assert(crate::markup::sp_parse_attributes(s, te) == Parsed::Val(am, pa));
                // not self-closing: the next character is `>`
                assert(!begins_with(s, pa, "/>"@)) by {
                    if begins_with(s, pa, "/>"@) {
                        lemma_begins_chars(s, pa, "/>"@);
                        assert(s[pa + 0] == '/');
                    }
                }
                assert(begins_with(s, pa, ">"@)) by {
                    assert(s.subrange(pa, pa + 1) =~= ">"@);
                }
                let p3 = pa + 1;
                // the children, then the close tag
                let ec = p3 + il;
                assert(begins_with(s, ec, "</"@)) by {
                    assert(s.subrange(ec, ec + 2) =~= "</"@);
                }
                assert(ws_end(s, p3) == p3) by {
                    assert(kids[0].node_type is Text || kids[0].node_type is Element);
                    assert(inner == node_markup(kids[0]) + nodes_markup(kids.drop_first()));
                    lemma_begins_split(s, p3, node_markup(kids[0]), nodes_markup(
                        kids.drop_first(),
                    ));
                    lemma_begins_chars(s, p3, node_markup(kids[0]));
                    assert(wf_out_node(kids[0]));
                    match kids[0].node_type {
                        NodeTypeV::Text(t0) => {
                            assert(node_markup(kids[0]) == t0);
                            assert(s[p3 + 0] == t0[0]);
                            assert(!is_space_char(s[p3]));
                        },
                        NodeTypeV::Element(_) => {
                            assert(node_markup(kids[0])[0] == '<');
                            assert(s[p3 + 0] == node_markup(kids[0])[0]);
                        },
                    }
                    lemma_scan_end_eq(s, p3, p3, pred_space());
                }
                lemma_nodes_round_trip(kids, s, p3);
                assert(crate::markup::sp_parse_nodes(s, p3) == Parsed::Val(kids, ec));
                // the close tag pieces
                assert(begins_with(s, ec, "<"@)) by {
                    assert(s.subrange(ec, ec + 1) =~= "<"@);
                }
                assert(begins_with(s, ec + 1, "/"@)) by {
                    assert(s.subrange(ec + 1, ec + 2) =~= "/"@);
                }
                assert(begins_with(s, ec + 2, s.subrange(p + 1, te))) by {
                    assert forall|q2: int| 0 <= q2 < tl implies s.subrange(ec + 2, ec + 2 + tl)[q2]
                        == tag[q2] by {
                        assert(s[ec + 2 + q2] == tag[q2]);
                    }
                    assert(s.subrange(ec + 2, ec + 2 + tl) =~= tag);
                }
                assert(begins_with(s, ec + 2 + tl, ">"@)) by {
                    assert(s.subrange(ec + 2 + tl, ec + 2 + tl + 1) =~= ">"@);
                }
                assert(crate::markup::elem_v(s.subrange(p + 1, te), am, kids) == n);
                assert(p + nm.len() == ec + 2 + tl + 1);
            }
        },
    }
}

/// Re-parsing serialized siblings yields exactly those siblings; the text
/// ends at the input's end or at a close tag.
pub proof fn lemma_nodes_round_trip(v: Seq<NodeV>, s: Seq<char>, p: int)
    requires
        wf_out_nodes(v),
        0 <= p,
        begins_with(s, p, nodes_markup(v)),
        p + nodes_markup(v).len() == s.len() || begins_with(s, p + nodes_markup(v).len(), "</"@),
    ensures
        crate::markup::sp_nodes_loop(s, p) == Parsed::Val(v, p + nodes_markup(v).len()),
    decreases v,
{
    reveal_strlit("</");
    reveal_strlit("<");
    let e = p + nodes_markup(v).len();
    if v.len() == 0 {
        assert(v =~= Seq::<NodeV>::empty());
        if e < s.len() {
            lemma_begins_chars(s, e, "</"@);
        }
    } else {
        let n0 = v[0];
        let d = v.drop_first();
        assert(wf_out_node(n0));
        assert(wf_out_nodes(d));
        let nm0 = node_markup(n0);
        assert(nodes_markup(v) == nm0 + nodes_markup(d));
        lemma_begins_split(s, p, nm0, nodes_markup(d));
        let p2 = p + nm0.len() as int;
        lemma_begins_chars(s, p, nm0);
        // what stands right after this node's text
        if d.len() > 0 {
            assert(wf_out_nodes(d));
            assert(wf_out_node(d[0]));
            assert(d[0] == v[1]);
            lemma_begins_split(s, p2, node_markup(d[0]), nodes_markup(d.drop_first()));
            lemma_begins_chars(s, p2, node_markup(d[0]));
        }
        match n0.node_type {
            NodeTypeV::Text(t0) => {
                assert(nm0 == t0);
                assert(t0.len() > 0);
                assert(s[p + 0] == nm0[0]);
                assert(s[p] == t0[0]);
                assert(s[p] != '<');
                if d.len() > 0 {
                    assert(d[0].node_type is Element);
                    assert(node_markup(d[0])[0] == '<');
                    assert(s[p2 + 0] == node_markup(d[0])[0]);
                    assert(s[p2] == '<');
                } else {
                    assert(p2 == e);
                    if e < s.len() {
                        lemma_begins_chars(s, e, "</"@);
                        assert(s[e + 0] == "</"@[0]);
                        assert(s[e] == '<');
                    }
                }
                // the loop does not stop here
                assert(!begins_with(s, p, "</"@)) by {
                    if begins_with(s, p, "</"@) {
                        lemma_begins_chars(s, p, "</"@);
                        assert(s[p + 0] == "</"@[0]);
                        assert(s[p] == '<');
                    }
                }
                lemma_node_round_trip(n0, s, p);
            },
            NodeTypeV::Element(_) => {
                assert(nm0[0] == '<');
                assert(s[p + 0] == nm0[0]);
                assert(wf_name(n0.node_type->Element_0.tag_name));
                assert(nm0[1] == n0.node_type->Element_0.tag_name[0]) by {
                    reveal_strlit(">");
                    reveal_strlit("/>");
                }
                assert(s[p + 1] == nm0[1]);
                assert(!begins_with(s, p, "</"@)) by {
                    if begins_with(s, p, "</"@) {
                        lemma_begins_chars(s, p, "</"@);
                        assert(s[p + 1] == "</"@[1]);
                        assert(s[p + 1] == '/');
                        assert(is_tag_char_spec(n0.node_type->Element_0.tag_name[0]));
                    }
                }
                lemma_node_round_trip(n0, s, p);
            },
        }
        // no whitespace separates serialized siblings
        assert(ws_end(s, p2) == p2) by {
            if d.len() > 0 {
                match d[0].node_type {
                    NodeTypeV::Text(t1) => {
                        assert(node_markup(d[0]) == t1);
                        assert(t1.len() > 0);
                        assert(s[p2 + 0] == node_markup(d[0])[0]);
                        assert(s[p2] == t1[0]);
                        assert(!is_space_char(s[p2]));
                    },
                    NodeTypeV::Element(_) => {
                        assert(node_markup(d[0])[0] == '<');
                        assert(s[p2 + 0] == node_markup(d[0])[0]);
                    },
                }
                lemma_scan_end_eq(s, p2, p2, pred_space());
            } else {
                assert(p2 == e);
                if e < s.len() {
                    lemma_begins_chars(s, e, "</"@);
                    assert(s[e + 0] == "</"@[0]);
                    assert(s[e] == '<');
                }
                lemma_scan_end_eq(s, p2, p2, pred_space());
            }
        }
        assert(nm0.len() > 0) by {
            match n0.node_type {
                NodeTypeV::Text(t0) => {
                    assert(nm0 == t0);
                },
                NodeTypeV::Element(_) => {
                    reveal_strlit("<");
                },
            }
        }
        lemma_nodes_round_trip(d, s, p2);
        assert(seq![n0] + d =~= v);
    }
}

/// What serialized siblings start with: never whitespace, `<` exactly for
/// an element.
proof fn lemma_first_char(v: Seq<NodeV>, s: Seq<char>, p: int)
    requires
        wf_out_nodes(v),
        v.len() > 0,
        0 <= p,
        begins_with(s, p, nodes_markup(v)),
    ensures
        p < s.len(),
        !is_space_char(s[p]),
        v[0].node_type is Text ==> s[p] != '<',
        v[0].node_type is Element ==> s[p] == '<' && p + 1 < s.len() && is_tag_char_spec(s[p + 1]),
{
    reveal_strlit("<");
    reveal_strlit(">");
    reveal_strlit("/>");
    reveal_strlit("</");
    let n0 = v[0];
    assert(wf_out_node(n0));
    let nm0 = node_markup(n0);
    assert(nodes_markup(v) == nm0 + nodes_markup(v.drop_first()));
    lemma_begins_split(s, p, nm0, nodes_markup(v.drop_first()));
    lemma_begins_chars(s, p, nm0);
    match n0.node_type {
        NodeTypeV::Text(t0) => {
            assert(nm0 == t0);
            assert(t0.len() > 0);
            assert(s[p + 0] == nm0[0]);
            assert(s[p] == t0[0]);
        },
        NodeTypeV::Element(el) => {
            let tag = el.tag_name;
            assert(wf_name(tag));
            assert(nm0[0] == '<');
            assert(nm0[1] == tag[0]);
            assert(s[p + 0] == nm0[0]);
            assert(s[p + 1] == nm0[1]);
            assert(is_tag_char_spec(tag[0]));
        },
    }
}

/// A root the serializer can write and the parser read back whole.
pub open spec fn wf_out_doctype(d: DoctypeV) -> bool {
    &&& wf_name(d.name)
    &&& (match d.public_id {
        Some(p) => quote_free(p),
        None => true,
    })
    &&& (match d.system_id {
        Some(p) => quote_free(p),
        None => true,
    })
}

pub open spec fn wf_out_root(r: HtmlRootV) -> bool {
    &&& (match r.doctype {
        Some(d) => wf_out_doctype(d),
        None => true,
    })
    &&& wf_out_nodes(r.children)
}

/// Re-parsing a serialized document yields the document itself.
pub proof fn lemma_root_round_trip(r: HtmlRootV)
    requires
        wf_out_root(r),
    ensures
        crate::markup::sp_parse_root(root_markup(r), 0) == Parsed::Val(
            r,
            root_markup(r).len() as int,
        ),
{
    reveal_strlit("<!DOCTYPE ");
    reveal_strlit("<!");
    let s = root_markup(r);
    let cm = nodes_markup(r.children);
    assert(s.subrange(0, s.len() as int) =~= s);
    assert(begins_with(s, 0, s));
    let p1: int = match r.doctype {
        Some(d) => doctype_markup(d).len() as int,
        None => 0,
    };
    match r.doctype {
        Some(d) => {
            assert(s == doctype_markup(d) + cm);
            lemma_doctype_round_trip(d, cm);
            assert(crate::markup::sp_parse_doctype(s, 0) == Parsed::Val(Some(d), p1));
            lemma_begins_split(s, 0, doctype_markup(d), cm);
        },
        None => {
            assert(s =~= Seq::<char>::empty() + cm);
            assert(s == cm);
            assert(!begins_with(s, 0, "<!"@)) by {
                if begins_with(s, 0, "<!"@) {
                    lemma_begins_chars(s, 0, "<!"@);
                    assert(s[0int + 0] == "<!"@[0]);
                    assert(s[0int + 1] == "<!"@[1]);
                    assert(s.len() >= 2);
                    assert(cm.len() > 0);
                    assert(r.children.len() > 0);
                    lemma_first_char(r.children, s, 0);
                    if r.children[0].node_type is Text {
                        assert(s[0] != '<');
                    } else {
                        assert(is_tag_char_spec(s[1]));
                        assert(s[1] == '!');
                    }
                }
            }
            assert(crate::markup::sp_parse_doctype(s, 0) == Parsed::Val(None::<DoctypeV>, 0));
        },
    }
    assert(begins_with(s, p1, cm));
    assert(p1 + cm.len() == s.len());
    assert(ws_end(s, p1) == p1) by {
        if r.children.len() > 0 {
            lemma_first_char(r.children, s, p1);
            lemma_scan_end_eq(s, p1, p1, pred_space());
        } else {
            assert(cm.len() == 0);
            assert(p1 == s.len());
            lemma_scan_end_eq(s, p1, p1, pred_space());
        }
    }
    if r.children.len() == 0 {
        assert(cm =~= Seq::<char>::empty());
    }
    lemma_nodes_round_trip(r.children, s, p1);
    assert(crate::markup::sp_parse_nodes(s, p1) == Parsed::Val(r.children, s.len() as int));
    assert(HtmlRootV { doctype: r.doctype, children: r.children } == r);
}

/// The round trip through the public entry point: parsing the serialized
/// text of a writable document — whose text does not end in whitespace the
/// trim would take — reads back exactly that document.
///
/// The well-formedness bound is necessary, not a convenience.  The grammar
/// has no escape sequences, so an attribute value holding a double quote —
/// parseable from a single-quoted source such as `<a x='"'/>` — cannot be
/// written back in the double-quoted form this serializer uses; likewise
/// adjacent text nodes would merge on re-parse, and text beginning with
/// whitespace would lose it to the skip before each node.
pub proof fn lemma_document_round_trip(r: HtmlRootV)
    requires
        wf_out_root(r),
        root_markup(r).len() > 0 ==> !is_space_char(root_markup(r)[root_markup(r).len() - 1]),
    ensures
        crate::markup::sp_parse_root(crate::text::spec_trim(root_markup(r)), 0) == Parsed::Val(
            r,
            root_markup(r).len() as int,
        ),
{
    reveal_strlit("<!DOCTYPE ");
    let s = root_markup(r);
    let cm = nodes_markup(r.children);
    assert(s.subrange(0, s.len() as int) =~= s);
    assert(begins_with(s, 0, s));
    if s.len() > 0 {
        assert(!is_space_char(s[0])) by {
            match r.doctype {
                Some(d) => {
                    assert(s == doctype_markup(d) + cm);
                    lemma_begins_split(s, 0, doctype_markup(d), cm);
                    lemma_begins_chars(s, 0, doctype_markup(d));
                    assert(doctype_markup(d)[0] == '<');
                    assert(s[0int + 0] == doctype_markup(d)[0]);
                },
                None => {
                    assert(s =~= Seq::<char>::empty() + cm);
                    assert(s == cm);
                    assert(r.children.len() > 0);
                    assert(s.subrange(0, s.len() as int) =~= s);
                    lemma_first_char(r.children, s, 0);
                },
            }
        }
    }
    assert(crate::text::spec_trim(s) == s) by {
        assert(crate::text::trim_lo(s) == 0) by {
            if s.len() > 0 {
                lemma_scan_end_eq(s, 0, 0, pred_space());
            } else {
                lemma_scan_end_eq(s, 0, 0, pred_space());
            }
        }
        assert(crate::text::trim_hi(s, s.len() as int) == s.len());
        assert(s.subrange(0, s.len() as int) =~= s);
    }
    lemma_root_round_trip(r);
}

/// Write an attribute list as ` key="value"` pairs in sorted key order.
pub fn attrs_to_markup(m: &AttributeMap) -> (r: String)
    ensures
        r@ == attrs_markup(m@),
{
    let mut out: String = String::new();
    let mut i: usize = 0;
    proof {
        assert(m@.skip(0) =~= m@);
        assert(out@ + attrs_markup(m@.skip(0)) =~= attrs_markup(m@));
    }
    while i < m.entries.len()
        invariant
            0 <= i <= m.entries@.len(),
            m@.len() == m.entries@.len(),
            out@ + attrs_markup(m@.skip(i as int)) == attrs_markup(m@),
        decreases m.entries@.len() - i,
    {
        let ghost before = out@;
        let ghost tail = m@.skip(i as int);
        out.append(" ");
        out.append(m.entries[i].0.as_str());
        out.append("=\"");
        out.append(m.entries[i].1.as_str());
        out.append("\"");
        proof {
            assert(tail[0] == m@[i as int]);
            assert(tail.drop_first() =~= m@.skip(i as int + 1));
            assert(attrs_markup(tail) == " "@ + m@[i as int].0 + "=\""@ + m@[i as int].1 + "\""@
                + attrs_markup(m@.skip(i as int + 1)));
            assert(out@ =~= before + (" "@ + m@[i as int].0 + "=\""@ + m@[i as int].1 + "\""@));
            assert(out@ + attrs_markup(m@.skip(i as int + 1)) =~= before + attrs_markup(tail));
        }
        i += 1;
    }
    proof {
        assert(attrs_markup(m@.skip(m@.len() as int)) =~= Seq::<char>::empty()) by {
            assert(m@.skip(m@.len() as int) =~= Seq::<(Seq<char>, Seq<char>)>::empty());
        }
        assert(out@ =~= out@ + attrs_markup(m@.skip(m@.len() as int)));
    }
    out
}

/// Write one node as markup text.
pub fn node_to_markup(n: &Node) -> (r: String)
    ensures
        r@ == node_markup(n@),
    decreases *n,
{
    match &n.node_type {
        NodeType::Text(t) => t.clone(),
        NodeType::Element(e) => {
            let mut out: String = String::new();
            out.append("<");
            out.append(e.tag_name.as_str());
            let attrs: String = attrs_to_markup(&e.atributes);
            out.append(attrs.as_str());
            if n.children.len() == 0 {
                out.append("/>");
                proof {
                    assert(n@.children =~= Seq::<NodeV>::empty());
                    assert(out@ =~= "<"@ + e.tag_name@ + attrs_markup(e.atributes@) + "/>"@);
                }
                return out;
            }
            out.append(">");
            let ghost head = "<"@ + e.tag_name@ + attrs_markup(e.atributes@) + ">"@;
            proof {
                assert(out@ =~= head);
                crate::dom::lemma_nodes_view(n.children@);
                assert(n@.children.skip(0) =~= n@.children);
                assert(out@ + nodes_markup(n@.children.skip(0)) =~= head + nodes_markup(
                    n@.children,
                ));
            }
            let mut i: usize = 0;
            while i < n.children.len()
                invariant
                    0 <= i <= n.children@.len(),
                    n@.children.len() == n.children@.len(),
                    forall|q: int|
                        0 <= q < n.children@.len() ==> #[trigger] n@.children[q]
                            == crate::dom::node_view(n.children@[q]),
                    out@ + nodes_markup(n@.children.skip(i as int)) == head + nodes_markup(
                        n@.children,
                    ),
                decreases n.children@.len() - i,
            {
                let ghost before = out@;
                let ghost tail = n@.children.skip(i as int);
                let piece: String = node_to_markup(&n.children[i]);
                out.append(piece.as_str());
                proof {
                    assert(tail[0] == n@.children[i as int]);
                    assert(tail.drop_first() =~= n@.children.skip(i as int + 1));
                    assert(nodes_markup(tail) == node_markup(n@.children[i as int])
                        + nodes_markup(n@.children.skip(i as int + 1)));
                    assert(out@ + nodes_markup(n@.children.skip(i as int + 1)) =~= before
                        + nodes_markup(tail));
                }
                i += 1;
            }
            proof {
                assert(nodes_markup(n@.children.skip(n@.children.len() as int))
                    =~= Seq::<char>::empty()) by {
                    assert(n@.children.skip(n@.children.len() as int) =~= Seq::<NodeV>::empty());
                }
                assert(out@ =~= head + nodes_markup(n@.children));
            }
            out.append("</");
            out.append(e.tag_name.as_str());
            out.append(">");
            proof {
                assert(out@ =~= head + nodes_markup(n@.children) + "</"@ + e.tag_name@ + ">"@);
            }
            out
        },
    }
}

/// Write a doctype declaration.
pub fn doctype_to_markup(d: &Doctype) -> (r: String)
    ensures
        r@ == doctype_markup(d@),
{
    let mut out: String = String::new();
    out.append("<!DOCTYPE ");
    out.append(d.name.as_str());
    match &d.public_id {
        Some(p) => {
            out.append(" PUBLIC\"");
            out.append(p.as_str());
            out.append("\"");
        },
        None => (),
    }
    match &d.system_id {
        Some(p) => {
            out.append(" SYSTEM\"");
            out.append(p.as_str());
            out.append("\"");
        },
        None => (),
    }
    out.append(">");
    proof {
        assert(out@ =~= doctype_markup(d@));
    }
    out
}

/// Write a whole document back out as markup text.
pub fn root_to_markup(root: &HtmlRoot) -> (r: String)
    ensures
        r@ == root_markup(root@),
{
    let mut out: String = String::new();
    match &root.doctype {
        Some(d) => {
            let dt: String = doctype_to_markup(d);
            out.append(dt.as_str());
        },
        None => (),
    }
    let ghost head = match root@.doctype {
        Some(d) => doctype_markup(d),
        None => Seq::empty(),
    };
    proof {
        assert(out@ =~= head);
        crate::dom::lemma_nodes_view(root.children@);
        assert(root@.children.skip(0) =~= root@.children);
        assert(out@ + nodes_markup(root@.children.skip(0)) =~= head + nodes_markup(
            root@.children,
        ));
    }
    let mut i: usize = 0;
    while i < root.children.len()
        invariant
            0 <= i <= root.children@.len(),
            root@.children.len() == root.children@.len(),
            forall|q: int|
                0 <= q < root.children@.len() ==> #[trigger] root@.children[q]
                    == crate::dom::node_view(root.children@[q]),
            out@ + nodes_markup(root@.children.skip(i as int)) == (match root@.doctype {
                Some(d) => doctype_markup(d),
                None => Seq::empty(),
            }) + nodes_markup(root@.children),
        decreases root.children@.len() - i,
    {
        let ghost before = out@;
        let ghost tail = root@.children.skip(i as int);
        let piece: String = node_to_markup(&root.children[i]);
        out.append(piece.as_str());
        proof {
            assert(tail[0] == root@.children[i as int]);
            assert(tail.drop_first() =~= root@.children.skip(i as int + 1));
            assert(nodes_markup(tail) == node_markup(root@.children[i as int]) + nodes_markup(
                root@.children.skip(i as int + 1),
            ));
            assert(out@ + nodes_markup(root@.children.skip(i as int + 1)) =~= before
                + nodes_markup(tail));
        }
        i += 1;
    }
    proof {
        assert(nodes_markup(root@.children.skip(root@.children.len() as int))
            =~= Seq::<char>::empty()) by {
            assert(root@.children.skip(root@.children.len() as int) =~= Seq::<NodeV>::empty());
        }
        assert(out@ =~= root_markup(root@));
    }
    out
}

} // verus!
