//! The markup parser: a strict recursive-descent parser from text to the
//! document tree.  Each executable function is proved to compute exactly
//! what the corresponding `sp_*` specification function says, including
//! which error a malformed input reports.

use vstd::prelude::*;

use crate::dom::{
    amap_put, create_element, create_text, AttributeMap, AttrsV, Doctype, DoctypeV, ElementV,
    HtmlRoot, HtmlRootV, Node, NodeTypeV, NodeV,
};
use crate::text::{begins_with, pred_not, scan_end, spec_trim, ws_end, Scanner};
use crate::validation::pred_tag;
use crate::{ParseError, Parsed};

verus! {

/// An element node, as a model value.
pub open spec fn elem_v(tag: Seq<char>, attrs: AttrsV, children: Seq<NodeV>) -> NodeV {
    NodeV { children, node_type: NodeTypeV::Element(ElementV { tag_name: tag, atributes: attrs }) }
}

/// A text node, as a model value.
pub open spec fn text_v(t: Seq<char>) -> NodeV {
    NodeV { children: Seq::empty(), node_type: NodeTypeV::Text(t) }
}

/// `PUBLIC "<public id>"`, if present.
pub open spec fn sp_parse_public_id(s: Seq<char>, p: int) -> Parsed<Option<Seq<char>>> {
    if !begins_with(s, p, "PUBLIC"@) {
        Parsed::Val(None, p)
    } else {
        let p1 = p + "PUBLIC"@.len();
        if !begins_with(s, p1, "\""@) {
            Parsed::Fail(ParseError::StructuralMismatch)
        } else {
            let p2 = p1 + "\""@.len();
            let p3 = scan_end(s, p2, pred_not('"'));
            if !begins_with(s, p3, "\""@) {
                Parsed::Fail(ParseError::StructuralMismatch)
            } else {
                Parsed::Val(Some(s.subrange(p2, p3)), p3 + "\""@.len())
            }
        }
    }
}

/// `SYSTEM "<system id>"`, if present.
pub open spec fn sp_parse_system_id(s: Seq<char>, p: int) -> Parsed<Option<Seq<char>>> {
    if !begins_with(s, p, "SYSTEM"@) {
        Parsed::Val(None, p)
    } else {
        let p1 = p + "SYSTEM"@.len();
        if !begins_with(s, p1, "\""@) {
            Parsed::Fail(ParseError::StructuralMismatch)
        } else {
            let p2 = p1 + "\""@.len();
            let p3 = scan_end(s, p2, pred_not('"'));
            if !begins_with(s, p3, "\""@) {
                Parsed::Fail(ParseError::StructuralMismatch)
            } else {
                Parsed::Val(Some(s.subrange(p2, p3)), p3 + "\""@.len())
            }
        }
    }
}

/// An optional `<! ... >` doctype declaration.
pub open spec fn sp_parse_doctype(s: Seq<char>, p: int) -> Parsed<Option<DoctypeV>> {
    if !begins_with(s, p, "<!"@) {
        Parsed::Val(None, p)
    } else {
        let p1 = p + "<!"@.len();
        let p2 = ws_end(s, p1);
        let p3 = scan_end(s, p2, pred_tag());  // the word before the name, discarded
        let p4 = ws_end(s, p3);
        let p5 = scan_end(s, p4, pred_tag());
        let name = s.subrange(p4, p5);
        let p6 = ws_end(s, p5);
        match sp_parse_public_id(s, p6) {
            Parsed::Fail(e) => Parsed::Fail(e),
            Parsed::Val(public_id, p7) => {
                let p8 = ws_end(s, p7);
                match sp_parse_system_id(s, p8) {
                    Parsed::Fail(e) => Parsed::Fail(e),
                    Parsed::Val(system_id, p9) => {
                        if !begins_with(s, p9, ">"@) {
                            Parsed::Fail(ParseError::StructuralMismatch)
                        } else {
                            Parsed::Val(
                                Some(DoctypeV { name, public_id, system_id }),
                                p9 + ">"@.len(),
                            )
                        }
                    },
                }
            },
        }
    }
}

/// A quoted attribute value; the quote character must match itself.
pub open spec fn sp_attr_value(s: Seq<char>, p: int) -> Parsed<Seq<char>> {
    if p >= s.len() {
        Parsed::Fail(ParseError::UnexpectedEnd)
    } else {
        let open = s[p];
        if open != '"' && open != '\'' {
            Parsed::Fail(ParseError::StructuralMismatch)
        } else {
            let vend = scan_end(s, p + 1, pred_not(open));
            if vend >= s.len() {
                Parsed::Fail(ParseError::StructuralMismatch)
            } else {
                Parsed::Val(s.subrange(p + 1, vend), vend + 1)
            }
        }
    }
}

/// One `name="value"` attribute pair.
pub open spec fn sp_attr(s: Seq<char>, p: int) -> Parsed<(Seq<char>, Seq<char>)> {
    let ne = scan_end(s, p, pred_tag());
    let name = s.subrange(p, ne);
    if !(ne < s.len() && s[ne] == '=') {
        Parsed::Fail(ParseError::StructuralMismatch)
    } else {
        match sp_attr_value(s, ne + 1) {
            Parsed::Fail(e) => Parsed::Fail(e),
            Parsed::Val(v, p2) => Parsed::Val((name, v), p2),
        }
    }
}

/// Attribute pairs up to `>` or `/`, folded into the mapping `m`.
pub open spec fn sp_attrs(s: Seq<char>, p: int, m: AttrsV) -> Parsed<AttrsV>
    decreases s.len() - p,
{
    if p >= s.len() {
        Parsed::Fail(ParseError::UnexpectedEnd)
    } else if s[p] == '>' || s[p] == '/' {
        Parsed::Val(m, p)
    } else {
        match sp_attr(s, p) {
            Parsed::Fail(e) => Parsed::Fail(e),
            Parsed::Val(pair, p2) => {
                let q = ws_end(s, p2);
                if p < q <= s.len() {
                    sp_attrs(s, q, amap_put(m, pair.0, pair.1))
                } else {
                    Parsed::Fail(ParseError::StructuralMismatch)
                }
            },
        }
    }
}

/// The attribute list of an open tag.
pub open spec fn sp_parse_attributes(s: Seq<char>, p: int) -> Parsed<AttrsV> {
    sp_attrs(s, ws_end(s, p), Seq::empty())
}

/// Raw text up to the next `<`, taken verbatim.
pub open spec fn sp_parse_text(s: Seq<char>, p: int) -> Parsed<NodeV> {
    let e = scan_end(s, p, pred_not('<'));
    Parsed::Val(text_v(s.subrange(p, e)), e)
}

/// An element: open tag, attributes, then either `/>` or children and a
/// matching close tag.
pub open spec fn sp_parse_element(s: Seq<char>, p: int) -> Parsed<NodeV>
    decreases s.len() - p, 0int,
{
    if !begins_with(s, p, "<"@) {
        Parsed::Fail(ParseError::StructuralMismatch)
    } else {
        let p1 = p + "<"@.len();
        let te = scan_end(s, p1, pred_tag());
        let tag = s.subrange(p1, te);
        match sp_parse_attributes(s, te) {
            Parsed::Fail(e) => Parsed::Fail(e),
            Parsed::Val(attrs, p2) => {
                if begins_with(s, p2, "/>"@) {
                    Parsed::Val(elem_v(tag, attrs, Seq::empty()), p2 + "/>"@.len())
                } else if !begins_with(s, p2, ">"@) {
                    Parsed::Fail(ParseError::StructuralMismatch)
                } else {
                    let p3 = p2 + ">"@.len();
                    if p < p3 <= s.len() {
                        match sp_parse_nodes(s, p3) {
                            Parsed::Fail(e) => Parsed::Fail(e),
                            Parsed::Val(children, p4) => {
                                if !begins_with(s, p4, "<"@) {
                                    Parsed::Fail(ParseError::StructuralMismatch)
                                } else {
                                    let p5 = p4 + "<"@.len();
                                    if !begins_with(s, p5, "/"@) {
                                        Parsed::Fail(ParseError::StructuralMismatch)
                                    } else {
                                        let p6 = p5 + "/"@.len();
                                        if !begins_with(s, p6, tag) {
                                            Parsed::Fail(ParseError::StructuralMismatch)
                                        } else {
                                            let p7 = p6 + tag.len();
                                            if !begins_with(s, p7, ">"@) {
                                                Parsed::Fail(ParseError::StructuralMismatch)
                                            } else {
                                                Parsed::Val(
                                                    elem_v(tag, attrs, children),
                                                    p7 + ">"@.len(),
                                                )
                                            }
                                        }
                                    }
                                }
                            },
                        }
                    } else {
                        Parsed::Fail(ParseError::StructuralMismatch)
                    }
                }
            },
        }
    }
}

/// One node: an element if the cursor is at `<`, raw text otherwise.
pub open spec fn sp_parse_node(s: Seq<char>, p: int) -> Parsed<NodeV>
    decreases s.len() - p, 1int,
{
    if p >= s.len() {
        Parsed::Fail(ParseError::UnexpectedEnd)
    } else if s[p] == '<' {
        sp_parse_element(s, p)
    } else {
        sp_parse_text(s, p)
    }
}

/// Nodes until the end of input or a `</` close tag, the cursor standing
/// past whitespace.
pub open spec fn sp_nodes_loop(s: Seq<char>, p: int) -> Parsed<Seq<NodeV>>
    decreases s.len() - p, 2int,
{
    if p >= s.len() || begins_with(s, p, "</"@) {
        Parsed::Val(Seq::empty(), p)
    } else {
        match sp_parse_node(s, p) {
            Parsed::Fail(e) => Parsed::Fail(e),
            Parsed::Val(n, p2) => {
                let p3 = ws_end(s, p2);
                if p < p3 <= s.len() {
                    match sp_nodes_loop(s, p3) {
                        Parsed::Fail(e) => Parsed::Fail(e),
                        Parsed::Val(rest, p4) => Parsed::Val(seq![n] + rest, p4),
                    }
                } else {
                    Parsed::Fail(ParseError::StructuralMismatch)
                }
            },
        }
    }
}

/// A whitespace-separated node sequence.
pub open spec fn sp_parse_nodes(s: Seq<char>, p: int) -> Parsed<Seq<NodeV>>
    decreases s.len() - p, 3int,
{
    let q = ws_end(s, p);
    if p <= q <= s.len() {
        sp_nodes_loop(s, q)
    } else {
        Parsed::Fail(ParseError::StructuralMismatch)
    }
}

/// A whole document: optional doctype, then the top-level nodes.
pub open spec fn sp_parse_root(s: Seq<char>, p: int) -> Parsed<HtmlRootV> {
    match sp_parse_doctype(s, p) {
        Parsed::Fail(e) => Parsed::Fail(e),
        Parsed::Val(doctype, p1) => match sp_parse_nodes(s, p1) {
            Parsed::Fail(e) => Parsed::Fail(e),
            Parsed::Val(children, p2) => Parsed::Val(HtmlRootV { doctype, children }, p2),
        },
    }
}

/// The markup parser: a cursor over the trimmed input text.
pub struct HTMLParser {
    pub sc: Scanner,
}

impl HTMLParser {
    pub open spec fn src(&self) -> Seq<char> {
        self.sc.src()
    }

    pub open spec fn pos(&self) -> int {
        self.sc.pos()
    }

    pub open spec fn wf(&self) -> bool {
        self.sc.wf()
    }

    /// Stand at the start of the trimmed input.
    pub fn new(input: String) -> (r: HTMLParser)
        ensures
            r.src() == spec_trim(input@),
            r.pos() == 0,
            r.wf(),
    {
        HTMLParser { sc: Scanner::new(input) }
    }

    /// Parse the document root: optional doctype, then the children.
    pub fn parse_root(&mut self) -> (r: Result<HtmlRoot, ParseError>)
        requires
            old(self).wf(),
        ensures
            final(self).wf(),
            final(self).src() == old(self).src(),
            match r {
                Ok(root) => sp_parse_root(old(self).src(), old(self).pos()) == Parsed::Val(
                    root@,
                    final(self).pos(),
                ),
                Err(e) => sp_parse_root(old(self).src(), old(self).pos()) == Parsed::<HtmlRootV>::Fail(e),
            },
    {
        let doctype: Option<Doctype> = match self.parse_doctype() {
            Ok(d) => d,
            Err(e) => {
                return Err(e);
            },
        };
        let children: Vec<Node> = match self.parse_nodes() {
            Ok(ns) => ns,
            Err(e) => {
                return Err(e);
            },
        };
        Ok(HtmlRoot { doctype, children })
    }

    /// Parse the top-level node sequence without a doctype.
    pub fn parse_root_children(&mut self) -> (r: Result<Vec<Node>, ParseError>)
        requires
            old(self).wf(),
        ensures
            final(self).wf(),
            final(self).src() == old(self).src(),
            match r {
                Ok(ns) => sp_parse_nodes(old(self).src(), old(self).pos()) == Parsed::Val(
                    crate::dom::nodes_view(ns@),
                    final(self).pos(),
                ),
                Err(e) => sp_parse_nodes(old(self).src(), old(self).pos()) == Parsed::<Seq<NodeV>>::Fail(e),
            },
    {
        self.parse_nodes()
    }

    /// Parse an optional doctype declaration.
    pub fn parse_doctype(&mut self) -> (r: Result<Option<Doctype>, ParseError>)
        requires
            old(self).wf(),
        ensures
            final(self).wf(),
            final(self).src() == old(self).src(),
            old(self).pos() <= final(self).pos(),
            match r {
                Ok(d) => sp_parse_doctype(old(self).src(), old(self).pos()) == Parsed::Val(
                    (match d {
                        Some(dt) => Some(dt@),
                        None => None,
                    }),
                    final(self).pos(),
                ),
                Err(e) => sp_parse_doctype(old(self).src(), old(self).pos()) == Parsed::<Option<DoctypeV>>::Fail(e),
            },
    {
        if !self.sc.starts_with("<!") {
            return Ok(None);
        }
        match self.sc.expect("<!") {
            Ok(()) => (),
            Err(e) => {
                return Err(e);
            },
        }
        self.sc.skip_ws();
        let _word: String = self.sc.take_tag();
        self.sc.skip_ws();
        let name: String = self.sc.take_tag();
        self.sc.skip_ws();
        let public_id: Option<String> = match self.parse_public_id() {
            Ok(v) => v,
            Err(e) => {
                return Err(e);
            },
        };
        self.sc.skip_ws();
        let system_id: Option<String> = match self.parse_system_id() {
            Ok(v) => v,
            Err(e) => {
                return Err(e);
            },
        };
        match self.sc.expect(">") {
            Ok(()) => (),
            Err(e) => {
                return Err(e);
            },
        }
        Ok(Some(Doctype { name, public_id, system_id }))
    }

    /// Parse `PUBLIC "<id>"` if it is present.
    fn parse_public_id(&mut self) -> (r: Result<Option<String>, ParseError>)
        requires
            old(self).wf(),
        ensures
            final(self).wf(),
            final(self).src() == old(self).src(),
            old(self).pos() <= final(self).pos(),
            match r {
                Ok(v) => sp_parse_public_id(old(self).src(), old(self).pos()) == Parsed::Val(
                    (match v {
                        Some(x) => Some(x@),
                        None => None,
                    }),
                    final(self).pos(),
                ),
                Err(e) => sp_parse_public_id(old(self).src(), old(self).pos()) == Parsed::<Option<Seq<char>>>::Fail(e),
            },
    {
        if !self.sc.starts_with("PUBLIC") {
            return Ok(None);
        }
        match self.sc.expect("PUBLIC") {
            Ok(()) => (),
            Err(e) => {
                return Err(e);
            },
        }
        match self.sc.expect("\"") {
            Ok(()) => (),
            Err(e) => {
                return Err(e);
            },
        }
        let id: String = self.sc.take_until('"');
        match self.sc.expect("\"") {
            Ok(()) => (),
            Err(e) => {
                return Err(e);
            },
        }
        Ok(Some(id))
    }

    /// Parse `SYSTEM "<id>"` if it is present.
    fn parse_system_id(&mut self) -> (r: Result<Option<String>, ParseError>)
        requires
            old(self).wf(),
        ensures
            final(self).wf(),
            final(self).src() == old(self).src(),
            old(self).pos() <= final(self).pos(),
            match r {
                Ok(v) => sp_parse_system_id(old(self).src(), old(self).pos()) == Parsed::Val(
                    (match v {
                        Some(x) => Some(x@),
                        None => None,
                    }),
                    final(self).pos(),
                ),
                Err(e) => sp_parse_system_id(old(self).src(), old(self).pos()) == Parsed::<Option<Seq<char>>>::Fail(e),
            },
    {
        if !self.sc.starts_with("SYSTEM") {
            return Ok(None);
        }
        match self.sc.expect("SYSTEM") {
            Ok(()) => (),
            Err(e) => {
                return Err(e);
            },
        }
        match self.sc.expect("\"") {
            Ok(()) => (),
            Err(e) => {
                return Err(e);
            },
        }
        let id: String = self.sc.take_until('"');
        match self.sc.expect("\"") {
            Ok(()) => (),
            Err(e) => {
                return Err(e);
            },
        }
        Ok(Some(id))
    }

    /// Parse a quoted attribute value.
    fn parse_attribute_value(&mut self) -> (r: Result<String, ParseError>)
        requires
            old(self).wf(),
        ensures
            final(self).wf(),
            final(self).src() == old(self).src(),
            old(self).pos() <= final(self).pos(),
            match r {
                Ok(v) => sp_attr_value(old(self).src(), old(self).pos()) == Parsed::Val(
                    v@,
                    final(self).pos(),
                ),
                Err(e) => sp_attr_value(old(self).src(), old(self).pos()) == Parsed::<Seq<char>>::Fail(e),
            },
    {
        if self.sc.is_end() {
            return Err(ParseError::UnexpectedEnd);
        }
        let open: char = self.sc.bump();
        if !(open == '"' || open == '\'') {
            return Err(ParseError::StructuralMismatch);
        }
        let value: String = self.sc.take_until(open);
        if self.sc.is_end() {
            return Err(ParseError::StructuralMismatch);
        }
        let _close: char = self.sc.bump();
        Ok(value)
    }

    /// Parse one `name="value"` pair.
    fn parse_attribute(&mut self) -> (r: Result<(String, String), ParseError>)
        requires
            old(self).wf(),
        ensures
            final(self).wf(),
            final(self).src() == old(self).src(),
            old(self).pos() <= final(self).pos(),
            match r {
                Ok(pair) => sp_attr(old(self).src(), old(self).pos()) == Parsed::Val(
                    (pair.0@, pair.1@),
                    final(self).pos(),
                ) && old(self).pos() < final(self).pos(),
                Err(e) => sp_attr(old(self).src(), old(self).pos()) == Parsed::<(Seq<char>, Seq<char>)>::Fail(e),
            },
    {
        let name: String = self.sc.take_tag();
        if self.sc.is_end() {
            return Err(ParseError::StructuralMismatch);
        }
        if self.sc.peek() != '=' {
            return Err(ParseError::StructuralMismatch);
        }
        let _eq: char = self.sc.bump();
        let value: String = match self.parse_attribute_value() {
            Ok(v) => v,
            Err(e) => {
                return Err(e);
            },
        };
        Ok((name, value))
    }

    /// Parse the attribute list of an open tag, up to `>` or `/`.
    fn parse_attributes(&mut self) -> (r: Result<AttributeMap, ParseError>)
        requires
            old(self).wf(),
        ensures
            final(self).wf(),
            final(self).src() == old(self).src(),
            old(self).pos() <= final(self).pos(),
            match r {
                Ok(m) => sp_parse_attributes(old(self).src(), old(self).pos()) == Parsed::Val(
                    m@,
                    final(self).pos(),
                ) && m.wf(),
                Err(e) => sp_parse_attributes(old(self).src(), old(self).pos()) == Parsed::<AttrsV>::Fail(e),
            },
    {
        let ghost s = self.src();
        let ghost p0 = self.pos();
        self.sc.skip_ws();
        let mut attributes: AttributeMap = AttributeMap::new();
        loop
            invariant
                self.wf(),
                s == old(self).src(),
                p0 == old(self).pos(),
                self.src() == s,
                p0 <= self.pos(),
                attributes.wf(),
                sp_parse_attributes(s, p0) == sp_attrs(s, self.pos(), attributes@),
            decreases s.len() - self.pos(),
        {
            if self.sc.is_end() {
                return Err(ParseError::UnexpectedEnd);
            }
            let c: char = self.sc.peek();
            if c == '>' || c == '/' {
                return Ok(attributes);
            }
            let ghost p_here = self.pos();
            let (name, value): (String, String) = match self.parse_attribute() {
                Ok(pair) => pair,
                Err(e) => {
                    return Err(e);
                },
            };
            attributes.insert(name, value);
            self.sc.skip_ws();
            proof {
                assert(p_here < self.pos() <= s.len());
            }
        }
    }

    /// Parse raw text up to the next `<`.
    fn parse_text(&mut self) -> (r: Node)
        requires
            old(self).wf(),
        ensures
            final(self).wf(),
            final(self).src() == old(self).src(),
            old(self).pos() <= final(self).pos(),
            sp_parse_text(old(self).src(), old(self).pos()) == Parsed::Val(r@, final(self).pos()),
    {
        let text: String = self.sc.take_until('<');
        create_text(text)
    }

    /// Parse one node: an element at `<`, raw text otherwise.
    fn parse_node(&mut self) -> (r: Result<Node, ParseError>)
        requires
            old(self).wf(),
        ensures
            final(self).wf(),
            final(self).src() == old(self).src(),
            old(self).pos() <= final(self).pos(),
            match r {
                Ok(n) => sp_parse_node(old(self).src(), old(self).pos()) == Parsed::Val(
                    n@,
                    final(self).pos(),
                ) && old(self).pos() < final(self).pos(),
                Err(e) => sp_parse_node(old(self).src(), old(self).pos()) == Parsed::<NodeV>::Fail(e),
            },
        decreases old(self).src().len() - old(self).pos(), 1int,
    {
        if self.sc.is_end() {
            return Err(ParseError::UnexpectedEnd);
        }
        if self.sc.peek() == '<' {
            self.parse_element()
        } else {
            let ghost p = self.pos();
            let n: Node = self.parse_text();
            proof {
                crate::text::lemma_scan_end(self.src(), p + 1, pred_not('<'));
                assert(pred_not('<')(self.src()[p]));
                assert(scan_end(self.src(), p, pred_not('<')) > p);
            }
            Ok(n)
        }
    }

    /// Parse one element with its children and matching close tag.
    fn parse_element(&mut self) -> (r: Result<Node, ParseError>)
        requires
            old(self).wf(),
        ensures
            final(self).wf(),
            final(self).src() == old(self).src(),
            old(self).pos() <= final(self).pos(),
            match r {
                Ok(n) => sp_parse_element(old(self).src(), old(self).pos()) == Parsed::Val(
                    n@,
                    final(self).pos(),
                ) && old(self).pos() < final(self).pos(),
                Err(e) => sp_parse_element(old(self).src(), old(self).pos()) == Parsed::<NodeV>::Fail(e),
            },
        decreases old(self).src().len() - old(self).pos(), 0int,
    {
        let ghost p = self.pos();
        proof {
            reveal_strlit("<");
            reveal_strlit(">");
            reveal_strlit("/>");
            reveal_strlit("/");
        }
        match self.sc.expect("<") {
            Ok(()) => (),
            Err(e) => {
                return Err(e);
            },
        }
        let tag_name: String = self.sc.take_tag();
        let attributes: AttributeMap = match self.parse_attributes() {
            Ok(m) => m,
            Err(e) => {
                return Err(e);
            },
        };
        if self.sc.starts_with("/>") {
            match self.sc.expect("/>") {
                Ok(()) => (),
                Err(e) => {
                    return Err(e);
                },
            }
            let n: Node = create_element(tag_name, attributes, Vec::new());
            proof {
                assert(n@.children =~= Seq::<NodeV>::empty());
            }
            return Ok(n);
        }
        match self.sc.expect(">") {
            Ok(()) => (),
            Err(e) => {
                return Err(e);
            },
        }
        let children: Vec<Node> = match self.parse_nodes() {
            Ok(ns) => ns,
            Err(e) => {
                return Err(e);
            },
        };
        match self.sc.expect("<") {
            Ok(()) => (),
            Err(e) => {
                return Err(e);
            },
        }
        match self.sc.expect("/") {
            Ok(()) => (),
            Err(e) => {
                return Err(e);
            },
        }
        match self.sc.expect(tag_name.as_str()) {
            Ok(()) => (),
            Err(e) => {
                return Err(e);
            },
        }
        match self.sc.expect(">") {
            Ok(()) => (),
            Err(e) => {
                return Err(e);
            },
        }
        Ok(create_element(tag_name, attributes, children))
    }

    /// Parse nodes until the end of input or a `</` close tag.
    fn parse_nodes(&mut self) -> (r: Result<Vec<Node>, ParseError>)
        requires
            old(self).wf(),
        ensures
            final(self).wf(),
            final(self).src() == old(self).src(),
            old(self).pos() <= final(self).pos(),
            match r {
                Ok(ns) => sp_parse_nodes(old(self).src(), old(self).pos()) == Parsed::Val(
                    crate::dom::nodes_view(ns@),
                    final(self).pos(),
                ),
                Err(e) => sp_parse_nodes(old(self).src(), old(self).pos()) == Parsed::<Seq<NodeV>>::Fail(e),
            },
        decreases old(self).src().len() - old(self).pos(), 3int,
    {
        let ghost s = self.src();
        let ghost p0 = self.pos();
        self.sc.skip_ws();
        let mut nodes: Vec<Node> = Vec::new();
        proof {
            assert(crate::dom::nodes_view(nodes@) =~= Seq::<NodeV>::empty());
        }
        loop
            invariant
                self.wf(),
                s == old(self).src(),
                p0 == old(self).pos(),
                self.src() == s,
                p0 <= self.pos() <= s.len(),
                (match sp_nodes_loop(s, self.pos()) {
                    Parsed::Val(rest, pe) => sp_parse_nodes(s, p0) == Parsed::Val(
                        crate::dom::nodes_view(nodes@) + rest,
                        pe,
                    ),
                    Parsed::Fail(e) => sp_parse_nodes(s, p0) == Parsed::<Seq<NodeV>>::Fail(e),
                }),
            decreases s.len() - self.pos(),
        {
            let done: bool = {
                if self.sc.is_end() {
                    true
                } else {
                    self.sc.starts_with("</")
                }
            };
            if done {
                proof {
                    assert(sp_nodes_loop(s, self.pos()) == Parsed::Val(
                        Seq::<NodeV>::empty(),
                        self.pos(),
                    ));
                    assert(crate::dom::nodes_view(nodes@) + Seq::<NodeV>::empty()
                        =~= crate::dom::nodes_view(nodes@));
                }
                return Ok(nodes);
            }
            let ghost p_here = self.pos();
            let n: Node = match self.parse_node() {
                Ok(n) => n,
                Err(e) => {
                    return Err(e);
                },
            };
            let ghost p_n = self.pos();
            self.sc.skip_ws();
            proof {
                assert(p_here < self.pos() <= s.len());
                let rest0 = sp_nodes_loop(s, p_here);
                assert(rest0 == (match sp_nodes_loop(s, self.pos()) {
                    Parsed::Fail(e) => Parsed::Fail(e),
                    Parsed::Val(rest, p4) => Parsed::Val(seq![n@] + rest, p4),
                }));
                assert(crate::dom::nodes_view(nodes@.push(n)) =~= crate::dom::nodes_view(nodes@)
                    + seq![n@]) by {
                    crate::dom::lemma_nodes_view(nodes@.push(n));
                    crate::dom::lemma_nodes_view(nodes@);
                }
                assert(forall|rest: Seq<NodeV>|
                    crate::dom::nodes_view(nodes@.push(n)) + rest =~= crate::dom::nodes_view(
                        nodes@,
                    ) + (seq![n@] + rest));
            }
            nodes.push(n);
        }
    }
}

} // verus!
