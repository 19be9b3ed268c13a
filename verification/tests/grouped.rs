use pgen_grammar::grouped::ParsedElement;

#[test]
fn test_display_simple() {
    let element = ParsedElement::Simple { token_type: "rule_reference".to_string(), token_value: "expression".to_string() };
    assert_eq!(element.to_string(), "rule_reference:expression");
}

#[test]
fn test_display_sequence() {
    let element = ParsedElement::Sequence {
        elements: vec![
            ParsedElement::Simple { token_type: "rule_reference".to_string(), token_value: "term".to_string() },
            ParsedElement::Simple { token_type: "terminal".to_string(), token_value: "+".to_string() },
        ],
    };
    assert_eq!(element.to_string(), "(rule_reference:term terminal:+)");
}
