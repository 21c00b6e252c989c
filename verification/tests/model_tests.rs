use webcore::css::StyleSheet;
use webcore::diagnostics::Diagnostics;
use webcore::dom::{create_element, create_text, AttributeMap, NodeType};
use webcore::jit::CssJitCompiler;
use webcore::net::URL;
use webcore::validation::{is_color_pattern, is_tag_char};
use webcore::parse_css;

#[test]
fn tag_characters() {
    assert!(is_tag_char('a'));
    assert!(is_tag_char('Z'));
    assert!(is_tag_char('0'));
    assert!(is_tag_char('-'));
    assert!(is_tag_char('_'));
    assert!(!is_tag_char(' '));
    assert!(!is_tag_char('<'));
    assert!(!is_tag_char('#'));
}

#[test]
fn color_patterns() {
    assert!(is_color_pattern("rgb(1,2,3)"));
    assert!(is_color_pattern("rgba(1,2,3,4)"));
    assert!(is_color_pattern("hsl(1,2,3)"));
    assert!(is_color_pattern("light-hsl-mix"));
    assert!(is_color_pattern("#fff"));
    assert!(!is_color_pattern("red"));
    assert!(!is_color_pattern(""));
}

#[test]
fn attribute_map_sorts_keys() {
    let mut m = AttributeMap::new();
    m.insert("zeta".to_string(), "1".to_string());
    m.insert("alpha".to_string(), "2".to_string());
    m.insert("mid".to_string(), "3".to_string());
    assert_eq!(m.len(), 3);
    assert_eq!(m.entries[0].0, "alpha");
    assert_eq!(m.entries[1].0, "mid");
    assert_eq!(m.entries[2].0, "zeta");
    assert!(m.contains_key("mid"));
    assert!(!m.contains_key("other"));
}

#[test]
fn attribute_map_insert_order_irrelevant() {
    let mut a = AttributeMap::new();
    a.insert("id".to_string(), "x".to_string());
    a.insert("class".to_string(), "c".to_string());
    let mut b = AttributeMap::new();
    b.insert("class".to_string(), "c".to_string());
    b.insert("id".to_string(), "x".to_string());
    assert_eq!(a, b);
}

#[test]
fn node_constructors_and_queries() {
    let text = create_text("hello".to_string());
    assert_eq!(text.tag_name(), "");
    assert_eq!(text.text(), Some("hello".to_string()));
    assert_eq!(text.get_children().len(), 0);

    let mut attrs = AttributeMap::new();
    attrs.insert("id".to_string(), "n".to_string());
    let elem = create_element("span".to_string(), attrs, vec![text]);
    assert_eq!(elem.tag_name(), "span");
    assert_eq!(elem.text(), None);
    let kids = elem.get_children();
    assert_eq!(kids.len(), 1);
    assert_eq!(kids[0].text(), Some("hello".to_string()));
    match &elem.node_type {
        NodeType::Element(e) => assert_eq!(e.id(), Some("n".to_string())),
        NodeType::Text(_) => panic!("expected an element"),
    }
}

#[test]
fn classes_split_on_single_spaces() {
    let mut attrs = AttributeMap::new();
    attrs.insert("class".to_string(), "a  b".to_string());
    let elem = create_element("p".to_string(), attrs, Vec::new());
    match &elem.node_type {
        NodeType::Element(e) => {
            // a doubled space yields an empty piece, as splitting on each
            // single space does
            assert_eq!(e.classes(), vec!["a".to_string(), "".to_string(), "b".to_string()]);
            assert!(e.has_class("a"));
            assert!(e.has_class("b"));
        },
        NodeType::Text(_) => panic!("expected an element"),
    }
}

#[test]
fn diagnostics_buckets() {
    let mut d = Diagnostics::new();
    assert!(d.errors.is_empty() && d.warnings.is_empty() && d.infos.is_empty());
    d.add_error("e1".to_string());
    d.add_warning("w1".to_string());
    d.add_info("i1".to_string());
    d.add_error("e2".to_string());
    assert_eq!(d.errors, vec!["e1".to_string(), "e2".to_string()]);
    assert_eq!(d.warnings, vec!["w1".to_string()]);
    assert_eq!(d.infos, vec!["i1".to_string()]);
}

#[test]
fn url_holds_its_parts() {
    let url = URL {
        scheme: "http".to_string(),
        host: "example.test".to_string(),
        port: 8080,
        path: "/a/b".to_string(),
        query: "q=1".to_string(),
        fragment: "top".to_string(),
    };
    assert_eq!(url.scheme, "http");
    assert_eq!(url.port, 8080);
}

#[test]
fn jit_compiler_holds_stylesheet() {
    let sheet: StyleSheet = parse_css("p { a: b; }".to_string()).unwrap();
    let jit = CssJitCompiler::new(sheet.clone());
    assert_eq!(jit.stylesheet, sheet);
}

#[test]
fn classes_collapse_duplicates() {
    let mut attrs = AttributeMap::new();
    attrs.insert("class".to_string(), "a b a".to_string());
    let elem = create_element("p".to_string(), attrs, Vec::new());
    match &elem.node_type {
        NodeType::Element(e) => {
            assert_eq!(e.classes(), vec!["a".to_string(), "b".to_string()]);
            assert!(e.has_class("a"));
            assert!(e.has_class("b"));
        },
        NodeType::Text(_) => panic!("expected an element"),
    }
}
