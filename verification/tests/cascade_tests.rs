use webcore::cascade::{
    match_rule, matches_simple_selector, matching_rules, specified_values, style_tree, Display,
    PropertyMap,
};
use webcore::css::{DeclarationValue, Rule, Selector, SimpleSelector};
use webcore::dom::{Element, Node, NodeType};
use webcore::{parse_css, parse_html};

fn element_of(node: &Node) -> &Element {
    match &node.node_type {
        NodeType::Element(e) => e,
        NodeType::Text(_) => panic!("expected an element"),
    }
}

fn keyword(s: &str) -> DeclarationValue {
    DeclarationValue::Keyword(s.to_string())
}

#[test]
fn tie_break_by_source_order() {
    let root = parse_html("<div/>".to_string()).unwrap();
    let sheet = parse_css("div { color: red; } div { color: blue; }".to_string()).unwrap();
    let map = specified_values(element_of(&root.children[0]), &sheet);
    assert_eq!(map.get("color"), Some(&keyword("blue")));
}

#[test]
fn specificity_beats_source_order() {
    let root = parse_html("<div id=\"x\"/>".to_string()).unwrap();
    let sheet = parse_css("#x { color: blue; } div { color: red; }".to_string()).unwrap();
    let map = specified_values(element_of(&root.children[0]), &sheet);
    assert_eq!(map.get("color"), Some(&keyword("blue")));
}

#[test]
fn class_beats_tag() {
    let root = parse_html("<div class=\"c\"/>".to_string()).unwrap();
    let sheet = parse_css("div { a: tagwins; } .c { a: classwins; }".to_string()).unwrap();
    let map = specified_values(element_of(&root.children[0]), &sheet);
    assert_eq!(map.get("a"), Some(&keyword("classwins")));
}

#[test]
fn no_match_gives_empty_map() {
    let root = parse_html("<div/>".to_string()).unwrap();
    let sheet = parse_css("p { color: red; }".to_string()).unwrap();
    let map = specified_values(element_of(&root.children[0]), &sheet);
    assert_eq!(map.len(), 0);
    assert_eq!(map.get("color"), None);
    let styled = style_tree(&root.children[0], &sheet);
    let d = styled.lookup("display", "display", &keyword("inline"));
    assert_eq!(d, keyword("inline"));
}

#[test]
fn later_declaration_in_one_rule_wins() {
    let root = parse_html("<p/>".to_string()).unwrap();
    let sheet = parse_css("p { color: red; color: blue; }".to_string()).unwrap();
    let map = specified_values(element_of(&root.children[0]), &sheet);
    assert_eq!(map.get("color"), Some(&keyword("blue")));
}

#[test]
fn unrelated_properties_merge() {
    let root = parse_html("<p class=\"c\"/>".to_string()).unwrap();
    let sheet = parse_css("p { margin: one; } .c { padding: two; }".to_string()).unwrap();
    let map = specified_values(element_of(&root.children[0]), &sheet);
    assert_eq!(map.len(), 2);
    assert_eq!(map.get("margin"), Some(&keyword("one")));
    assert_eq!(map.get("padding"), Some(&keyword("two")));
}

#[test]
fn selector_with_id_needs_the_attribute() {
    let root = parse_html("<div/>".to_string()).unwrap();
    let sheet = parse_css("#x { color: red; }".to_string()).unwrap();
    let map = specified_values(element_of(&root.children[0]), &sheet);
    assert_eq!(map.len(), 0);
}

#[test]
fn all_selector_classes_must_be_present() {
    let root = parse_html("<div class=\"a\"/>".to_string()).unwrap();
    let sheet = parse_css(".a.b { color: red; }".to_string()).unwrap();
    let map = specified_values(element_of(&root.children[0]), &sheet);
    assert_eq!(map.len(), 0);
    let root2 = parse_html("<div class=\"a b\"/>".to_string()).unwrap();
    let map2 = specified_values(element_of(&root2.children[0]), &sheet);
    assert_eq!(map2.get("color"), Some(&keyword("red")));
}

#[test]
fn matching_helpers_agree() {
    let root = parse_html("<div id=\"x\" class=\"a\"/>".to_string()).unwrap();
    let elem = element_of(&root.children[0]);
    let simple = SimpleSelector {
        tag_name: Some("div".to_string()),
        id: Some("x".to_string()),
        class: vec!["a".to_string()],
    };
    assert!(matches_simple_selector(elem, &simple));
    let sel = Selector::Simple(simple);
    assert!(webcore::cascade::matches(elem, &sel));
    let other = Selector::Simple(SimpleSelector {
        tag_name: Some("p".to_string()),
        id: None,
        class: Vec::new(),
    });
    assert!(!webcore::cascade::matches(elem, &other));
}

#[test]
fn match_rule_takes_first_matching_selector() {
    let root = parse_html("<div id=\"x\"/>".to_string()).unwrap();
    let elem = element_of(&root.children[0]);
    let sheet = parse_css("div, #x { color: red; }".to_string()).unwrap();
    // selectors sorted descending: #x first, so the effective specificity
    // is the id selector's
    let sp = match_rule(elem, &sheet.rules[0]).unwrap();
    assert_eq!(sp, (0, 1, 0));
    let rule_without_match = Rule {
        selectors: vec![Selector::Simple(SimpleSelector {
            tag_name: Some("p".to_string()),
            id: None,
            class: Vec::new(),
        })],
        declarations: Vec::new(),
    };
    assert_eq!(match_rule(elem, &rule_without_match), None);
}

#[test]
fn matching_rules_keeps_source_order() {
    let root = parse_html("<div/>".to_string()).unwrap();
    let elem = element_of(&root.children[0]);
    let sheet = parse_css("div { a: x; } p { a: y; } div { a: z; }".to_string()).unwrap();
    let pairs = matching_rules(elem, &sheet);
    assert_eq!(pairs.len(), 2);
    assert_eq!(pairs[0], ((1, 0, 0), 0));
    assert_eq!(pairs[1], ((1, 0, 0), 2));
}

#[test]
fn styled_tree_mirrors_document_shape() {
    let root = parse_html("<div><p>a</p><p>b</p></div>".to_string()).unwrap();
    let sheet = parse_css("p { color: red; }".to_string()).unwrap();
    let styled = style_tree(&root.children[0], &sheet);
    assert_eq!(styled.children.len(), 2);
    assert_eq!(styled.specified_values.len(), 0);
    assert_eq!(styled.children[0].specified_values.get("color"), Some(&keyword("red")));
    // text children get empty maps
    assert_eq!(styled.children[0].children.len(), 1);
    assert_eq!(styled.children[0].children[0].specified_values.len(), 0);
}

#[test]
fn styled_node_value_and_lookup() {
    let root = parse_html("<p/>".to_string()).unwrap();
    let sheet = parse_css("p { margin-left: one; }".to_string()).unwrap();
    let styled = style_tree(&root.children[0], &sheet);
    assert_eq!(styled.value("margin-left"), Some(keyword("one")));
    assert_eq!(styled.value("margin"), None);
    assert_eq!(styled.lookup("margin-left", "margin", &keyword("zero")), keyword("one"));
    assert_eq!(styled.lookup("margin-top", "margin-left", &keyword("zero")), keyword("one"));
    assert_eq!(styled.lookup("margin-top", "margin-bottom", &keyword("zero")), keyword("zero"));
}

#[test]
fn display_modes() {
    let root = parse_html("<div><a></a><b></b><c></c></div>".to_string()).unwrap();
    let sheet = parse_css("a { display: block; } b { display: none; }".to_string()).unwrap();
    let styled = style_tree(&root.children[0], &sheet);
    assert_eq!(styled.children[0].display(), Display::Block);
    assert_eq!(styled.children[1].display(), Display::NoDisplay);
    assert_eq!(styled.children[2].display(), Display::Inline);
}

#[test]
fn property_map_insert_replaces() {
    let mut map = PropertyMap::new();
    map.insert("color".to_string(), keyword("red"));
    map.insert("color".to_string(), keyword("blue"));
    map.insert("margin".to_string(), keyword("one"));
    assert_eq!(map.len(), 2);
    assert_eq!(map.get("color"), Some(&keyword("blue")));
    assert_eq!(map.get("margin"), Some(&keyword("one")));
    assert_eq!(map.get("padding"), None);
}
