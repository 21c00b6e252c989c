use webcore::css::{ColorValue, DeclarationValue, Selector, SimpleSelector, UnitValue};
use webcore::style::CSSParser;
use webcore::{parse_css, ParseError};

#[test]
fn specificity_ordering() {
    let sheet = parse_css("div#id.class { color: red; } #id { color: red; } .a.b.c { color: red; }".to_string())
        .unwrap();
    let s0 = sheet.rules[0].selectors[0].specificity();
    let s1 = sheet.rules[1].selectors[0].specificity();
    let s2 = sheet.rules[2].selectors[0].specificity();
    assert_eq!(s0, (1, 1, 1));
    assert_eq!(s1, (0, 1, 0));
    assert_eq!(s2, (0, 0, 3));
    // id components outrank class components outrank tag components
    let full = &sheet.rules[0].selectors[0];
    let id_only = &sheet.rules[1].selectors[0];
    let classes = &sheet.rules[2].selectors[0];
    assert!(id_only.specificity_lt(full));
    assert!(classes.specificity_lt(id_only));
    assert!(!id_only.specificity_lt(classes));
}

#[test]
fn tag_specificity_is_weakest() {
    let sheet = parse_css("div { color: red; } .a { color: red; }".to_string()).unwrap();
    let tag = &sheet.rules[0].selectors[0];
    let class = &sheet.rules[1].selectors[0];
    assert_eq!(tag.specificity(), (1, 0, 0));
    assert_eq!(class.specificity(), (0, 0, 1));
    assert!(tag.specificity_lt(class));
}

#[test]
fn hex_color_parsing() {
    let sheet = parse_css("a { color: #ff0000; }".to_string()).unwrap();
    let decl = &sheet.rules[0].declarations[0];
    assert_eq!(decl.name, "color");
    assert_eq!(
        decl.value,
        DeclarationValue::ColorValue(ColorValue::RBGColorValue(255, 0, 0, 255))
    );
}

#[test]
fn hex_color_mixed_digits() {
    let sheet = parse_css("a { color: #0aF1b2; }".to_string()).unwrap();
    let decl = &sheet.rules[0].declarations[0];
    assert_eq!(
        decl.value,
        DeclarationValue::ColorValue(ColorValue::RBGColorValue(0x0a, 0xf1, 0xb2, 255))
    );
}

#[test]
fn keyword_value() {
    let sheet = parse_css("p { display: block; }".to_string()).unwrap();
    let decl = &sheet.rules[0].declarations[0];
    assert_eq!(decl.name, "display");
    assert_eq!(decl.value, DeclarationValue::Keyword("block".to_string()));
}

#[test]
fn several_declarations_keep_order() {
    let sheet = parse_css("p { margin: one; padding: two; }".to_string()).unwrap();
    let ds = &sheet.rules[0].declarations;
    assert_eq!(ds.len(), 2);
    assert_eq!(ds[0].name, "margin");
    assert_eq!(ds[1].name, "padding");
}

#[test]
fn selector_list_is_sorted_by_descending_specificity() {
    let sheet = parse_css("p.a, #x, div { color: red; }".to_string()).unwrap();
    let sels = &sheet.rules[0].selectors;
    assert_eq!(sels.len(), 3);
    assert_eq!(
        sels[0],
        Selector::Simple(SimpleSelector {
            tag_name: None,
            id: Some("x".to_string()),
            class: Vec::new(),
        })
    );
    assert_eq!(
        sels[1],
        Selector::Simple(SimpleSelector {
            tag_name: Some("p".to_string()),
            id: None,
            class: vec!["a".to_string()],
        })
    );
    assert_eq!(
        sels[2],
        Selector::Simple(SimpleSelector {
            tag_name: Some("div".to_string()),
            id: None,
            class: Vec::new(),
        })
    );
}

#[test]
fn compound_simple_selector_parts() {
    let sheet = parse_css("div#main.x.y { color: red; }".to_string()).unwrap();
    let sel = &sheet.rules[0].selectors[0];
    assert_eq!(
        sel,
        &Selector::Simple(SimpleSelector {
            tag_name: Some("div".to_string()),
            id: Some("main".to_string()),
            class: vec!["x".to_string(), "y".to_string()],
        })
    );
}

#[test]
fn empty_stylesheet() {
    let sheet = parse_css("".to_string()).unwrap();
    assert_eq!(sheet.rules.len(), 0);
}

#[test]
fn empty_declaration_block() {
    let sheet = parse_css("div { }".to_string()).unwrap();
    assert_eq!(sheet.rules.len(), 1);
    assert_eq!(sheet.rules[0].declarations.len(), 0);
}

#[test]
fn rules_separated_by_whitespace() {
    let sheet = parse_css("a { x: y; }\n\nb { z: w; }".to_string()).unwrap();
    assert_eq!(sheet.rules.len(), 2);
}

#[test]
fn unexpected_character_in_selector_list_fails() {
    let r = parse_css("div p { color: red; }".to_string());
    assert_eq!(r, Err(ParseError::StructuralMismatch));
}

#[test]
fn missing_semicolon_fails() {
    let r = parse_css("div { color: red }".to_string());
    assert_eq!(r, Err(ParseError::StructuralMismatch));
}

#[test]
fn selector_at_end_of_input_fails() {
    let r = parse_css("div".to_string());
    assert_eq!(r, Err(ParseError::UnexpectedEnd));
}

#[test]
fn hex_pair_cut_short_fails() {
    let r = parse_css("a { color: #ff0".to_string());
    assert_eq!(r, Err(ParseError::UnexpectedEnd));
}

#[test]
fn non_hex_digits_fail() {
    let r = parse_css("a { color: #ffzz00; }".to_string());
    assert_eq!(r, Err(ParseError::StructuralMismatch));
}

#[test]
fn rgb_call_form_is_not_parsed() {
    let r = parse_css("a { color: rgb(1,2,3); }".to_string());
    assert!(r.is_err());
}

#[test]
fn length_value_with_px() {
    let mut p = CSSParser::new("12px".to_string());
    let v = p.parse_value_length().unwrap();
    assert_eq!(v, DeclarationValue::Length(12, UnitValue::Px));
}

#[test]
fn unit_keyword_ignores_ascii_case() {
    let mut p = CSSParser::new("REM".to_string());
    assert_eq!(p.parse_unit(), Ok(UnitValue::Rem));
    let mut q = CSSParser::new("Em".to_string());
    assert_eq!(q.parse_unit(), Ok(UnitValue::Em));
}

#[test]
fn unknown_unit_fails() {
    let mut p = CSSParser::new("pt".to_string());
    assert_eq!(p.parse_unit(), Err(ParseError::UnknownUnit));
}

#[test]
fn number_too_large_fails() {
    let mut p = CSSParser::new("99999999999999999999999px".to_string());
    assert_eq!(p.parse_value_length(), Err(ParseError::NumberTooLarge));
}

#[test]
fn parse_number_takes_digits_only() {
    let mut p = CSSParser::new("123abc".to_string());
    assert_eq!(p.parse_number(), "123");
}

#[test]
fn parse_hex_color_directly() {
    let mut p = CSSParser::new("#010203;".to_string());
    assert_eq!(p.parse_hex_color(), Ok(ColorValue::RBGColorValue(1, 2, 3, 255)));
}
