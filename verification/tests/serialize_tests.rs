use webcore::parse_html;
use webcore::serialize::{node_to_markup, root_to_markup};

#[test]
fn reparse_of_serialized_document_is_equal() {
    let text = "<div id=\"main\" class=\"a b\"><p>Hello </p><img src=\"x\"/></div>";
    let root = parse_html(text.to_string()).unwrap();
    let written = root_to_markup(&root);
    let again = parse_html(written).unwrap();
    assert_eq!(root, again);
}

#[test]
fn reparse_of_serialized_doctype_document_is_equal() {
    let text = "<!DOCTYPE html PUBLIC\"p\" SYSTEM\"s\"><html><body>t</body></html>";
    let root = parse_html(text.to_string()).unwrap();
    let written = root_to_markup(&root);
    let again = parse_html(written).unwrap();
    assert_eq!(root, again);
}

#[test]
fn serialization_sorts_attribute_keys() {
    let root = parse_html("<div zeta=\"1\" alpha=\"2\" mid=\"3\"/>".to_string()).unwrap();
    let written = node_to_markup(&root.children[0]);
    assert_eq!(written, "<div alpha=\"2\" mid=\"3\" zeta=\"1\"/>");
}

#[test]
fn serialization_is_attribute_order_blind() {
    let a = parse_html("<div id=\"x\" class=\"c\"/>".to_string()).unwrap();
    let b = parse_html("<div class=\"c\" id=\"x\"/>".to_string()).unwrap();
    assert_eq!(root_to_markup(&a), root_to_markup(&b));
}

#[test]
fn empty_element_serializes_self_closing() {
    let root = parse_html("<p></p>".to_string()).unwrap();
    assert_eq!(node_to_markup(&root.children[0]), "<p/>");
    let again = parse_html("<p/>".to_string()).unwrap();
    assert_eq!(root, again);
}

#[test]
fn text_serializes_verbatim() {
    let root = parse_html("<p>a b  c</p>".to_string()).unwrap();
    assert_eq!(node_to_markup(&root.children[0]), "<p>a b  c</p>");
}
