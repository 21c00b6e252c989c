use webcore::dom::{Node, NodeType};
use webcore::markup::HTMLParser;
use webcore::{parse_html, ParseError};

fn element_of(node: &Node) -> &webcore::dom::Element {
    match &node.node_type {
        NodeType::Element(e) => e,
        NodeType::Text(_) => panic!("expected an element"),
    }
}

fn text_of(node: &Node) -> String {
    match &node.node_type {
        NodeType::Text(t) => t.clone(),
        NodeType::Element(_) => panic!("expected text"),
    }
}

#[test]
fn shape_preservation() {
    let root = parse_html("<div><p>a</p><p>b</p></div>".to_string()).unwrap();
    assert_eq!(root.children.len(), 1);
    let div = &root.children[0];
    assert_eq!(element_of(div).tag_name, "div");
    assert_eq!(div.children.len(), 2);
    let p0 = &div.children[0];
    let p1 = &div.children[1];
    assert_eq!(element_of(p0).tag_name, "p");
    assert_eq!(element_of(p1).tag_name, "p");
    assert_eq!(p0.children.len(), 1);
    assert_eq!(text_of(&p0.children[0]), "a");
    assert_eq!(p1.children.len(), 1);
    assert_eq!(text_of(&p1.children[0]), "b");
}

#[test]
fn self_closing_element() {
    let root = parse_html("<img src=\"x\"/>".to_string()).unwrap();
    assert_eq!(root.children.len(), 1);
    let img = &root.children[0];
    let elem = element_of(img);
    assert_eq!(elem.tag_name, "img");
    assert_eq!(elem.atributes.get("src").unwrap().as_str(), "x");
    assert_eq!(img.children.len(), 0);
}

#[test]
fn attribute_determinism() {
    let a = parse_html("<div id=\"x\" class=\"a b\"/>".to_string()).unwrap();
    let b = parse_html("<div class=\"a b\" id=\"x\"/>".to_string()).unwrap();
    let ea = element_of(&a.children[0]);
    let eb = element_of(&b.children[0]);
    assert_eq!(ea.id(), Some("x".to_string()));
    assert_eq!(eb.id(), Some("x".to_string()));
    assert_eq!(ea.classes(), vec!["a".to_string(), "b".to_string()]);
    assert!(ea.has_class("a"));
    assert!(ea.has_class("b"));
    assert!(!ea.has_class("c"));
    // the same attributes, written in either order, give the same mapping
    assert_eq!(ea.atributes, eb.atributes);
    assert_eq!(ea, eb);
}

#[test]
fn missing_attributes_are_optional() {
    let root = parse_html("<div/>".to_string()).unwrap();
    let elem = element_of(&root.children[0]);
    assert_eq!(elem.id(), None);
    assert_eq!(elem.classes(), Vec::<String>::new());
    assert!(!elem.has_class("a"));
}

#[test]
fn doctype_plain() {
    let root = parse_html("<!DOCTYPE html><p></p>".to_string()).unwrap();
    let dt = root.doctype.unwrap();
    assert_eq!(dt.name, "html");
    assert_eq!(dt.public_id, None);
    assert_eq!(dt.system_id, None);
    assert_eq!(root.children.len(), 1);
}

#[test]
fn doctype_public_and_system() {
    // the quote follows the keyword directly; only the gap between the two
    // identifiers may hold whitespace
    let text = "<!DOCTYPE html PUBLIC\"pub-id\" SYSTEM\"sys-id\"><p></p>";
    let root = parse_html(text.to_string()).unwrap();
    let dt = root.doctype.unwrap();
    assert_eq!(dt.name, "html");
    assert_eq!(dt.public_id, Some("pub-id".to_string()));
    assert_eq!(dt.system_id, Some("sys-id".to_string()));
}

#[test]
fn no_doctype_means_none() {
    let root = parse_html("<p>hi</p>".to_string()).unwrap();
    assert!(root.doctype.is_none());
}

#[test]
fn nested_elements_and_text() {
    let root = parse_html("<html><body><h1>Title</h1></body></html>".to_string()).unwrap();
    let html = &root.children[0];
    assert_eq!(element_of(html).tag_name, "html");
    let body = &html.children[0];
    assert_eq!(element_of(body).tag_name, "body");
    let h1 = &body.children[0];
    assert_eq!(element_of(h1).tag_name, "h1");
    assert_eq!(text_of(&h1.children[0]), "Title");
}

#[test]
fn single_quoted_attribute_value() {
    let root = parse_html("<a href='y'>t</a>".to_string()).unwrap();
    let elem = element_of(&root.children[0]);
    assert_eq!(elem.atributes.get("href").unwrap().as_str(), "y");
}

#[test]
fn later_attribute_write_wins() {
    let root = parse_html("<div id=\"a\" id=\"b\"/>".to_string()).unwrap();
    let elem = element_of(&root.children[0]);
    assert_eq!(elem.id(), Some("b".to_string()));
    assert_eq!(elem.atributes.len(), 1);
}

#[test]
fn mismatched_close_tag_fails() {
    let r = parse_html("<div><p></div>".to_string());
    assert_eq!(r, Err(ParseError::StructuralMismatch));
}

#[test]
fn unterminated_quote_fails() {
    let r = parse_html("<div id=\"x".to_string());
    assert_eq!(r, Err(ParseError::StructuralMismatch));
}

#[test]
fn bad_quote_character_fails() {
    let r = parse_html("<div id=x/>".to_string());
    assert_eq!(r, Err(ParseError::StructuralMismatch));
}

#[test]
fn input_ending_mid_tag_fails() {
    let r = parse_html("<div".to_string());
    assert_eq!(r, Err(ParseError::UnexpectedEnd));
}

#[test]
fn parser_entry_points_agree() {
    let mut p = HTMLParser::new("<p>x</p>".to_string());
    let root = p.parse_root().unwrap();
    assert!(root.doctype.is_none());
    assert_eq!(root.children.len(), 1);
    let mut q = HTMLParser::new("<p>x</p>".to_string());
    let kids = q.parse_root_children().unwrap();
    assert_eq!(kids, root.children);
}

#[test]
fn parse_doctype_alone() {
    let mut p = HTMLParser::new("<!DOCTYPE html><p></p>".to_string());
    let dt = p.parse_doctype().unwrap().unwrap();
    assert_eq!(dt.name, "html");
}

#[test]
fn surrounding_whitespace_is_trimmed() {
    let root = parse_html("   <p>x</p>\n  ".to_string()).unwrap();
    assert_eq!(root.children.len(), 1);
    assert_eq!(element_of(&root.children[0]).tag_name, "p");
}

#[test]
fn text_is_kept_verbatim() {
    let root = parse_html("<p>a &amp; b</p>".to_string()).unwrap();
    let p = &root.children[0];
    assert_eq!(text_of(&p.children[0]), "a &amp; b");
}

#[test]
fn unicode_whitespace_is_trimmed_and_skipped() {
    // form feed inside a tag, vertical tab and no-break space at the edges
    let text = "\u{000b}<div\u{000c}id=\"x\"/>\u{00a0}";
    let root = parse_html(text.to_string()).unwrap();
    let elem = element_of(&root.children[0]);
    assert_eq!(elem.tag_name, "div");
    assert_eq!(elem.id(), Some("x".to_string()));
}
