use pgen_grammar::ast::{ASTNode, ASTValue, TokenValue};
use pgen_grammar::lr_plan::{DeclineReason, render_elements, survey_indirect_left_recursion};
use pgen_grammar::names::StrMap;

fn rule(name: &str) -> ASTNode {
    ASTNode::Atom {
        value: ASTValue::Token(vec![TokenValue::String("rule_reference".to_string()), TokenValue::String(name.to_string())]),
    }
}

fn text(literal: &str) -> ASTNode {
    ASTNode::Atom {
        value: ASTValue::Token(vec![TokenValue::String("quoted_string".to_string()), TokenValue::String(literal.to_string())]),
    }
}

fn order_of(v: &[&str]) -> Vec<String> {
    v.iter().map(|s| s.to_string()).collect()
}

fn cast_body() -> ASTNode {
    ASTNode::Sequence { elements: vec![rule("ct"), text("'"), text("("), rule("lit"), text(")")] }
}

/// `scratch := prim ; prim := lit | cast_expr ; cast_expr := ct "'" "(" lit ")" ; ct := kw | prim`
fn knot_a() -> (StrMap<ASTNode>, Vec<String>) {
    let mut grammar = StrMap::new();
    grammar.insert("scratch".to_string(), rule("prim"));
    grammar.insert("prim".to_string(), ASTNode::Or { alternatives: vec![rule("lit"), rule("cast_expr")] });
    grammar.insert("cast_expr".to_string(), cast_body());
    grammar.insert("ct".to_string(), ASTNode::Or { alternatives: vec![rule("kw"), rule("prim")] });
    grammar.insert("lit".to_string(), text("n"));
    grammar.insert("kw".to_string(), text("t"));
    (grammar, order_of(&["scratch", "prim", "cast_expr", "ct", "lit", "kw"]))
}

#[test]
fn knot_a_route_reproduces_the_p3_suffix() {
    let (grammar, order) = knot_a();
    let survey = survey_indirect_left_recursion(&grammar, &order);
    let prim = survey.candidates.iter().find(|c| c.base_rule == "prim").expect("prim is a candidate base rule");
    assert_eq!(prim.routes.len(), 1);
    let route = &prim.routes[0];
    assert_eq!(route.base_alternative_index, 1, "the cyclic alternative is cast_expr");
    assert_eq!(route.path(), vec!["prim", "cast_expr", "ct"]);
    assert_eq!(route.intermediate_rules(), vec!["cast_expr", "ct"]);
    assert_eq!(render_elements(&route.suffix_elements()), "\"'\" \"(\" lit \")\"");
    assert_eq!(prim.acyclic_alternative_indices, vec![0]);
}

#[test]
fn the_consumer_rule_is_starvation_safe_and_the_lint_named_rule_is_not() {
    let (grammar, order) = knot_a();
    let survey = survey_indirect_left_recursion(&grammar, &order);
    let prim = survey.candidates.iter().find(|c| c.base_rule == "prim").expect("prim is a candidate");
    let ct = survey.candidates.iter().find(|c| c.base_rule == "ct").expect("ct is a candidate too — every rule on a cycle is");
    assert!(prim.is_starvation_safe(), "prim holds no external starvation site");
    assert!(!ct.is_starvation_safe());
    let site = &ct.starvation_sites[0];
    assert_eq!(site.rule, "cast_expr");
    assert_eq!(site.residual, "\"'\" \"(\" lit \")\"");
    assert!(site.on_route);
    assert!(site.survives_rewrite);
}

#[test]
fn a_transparent_holder_that_outlives_the_rewrite_starves_the_base_rule() {
    let (mut grammar, mut order) = knot_a();
    grammar.insert("scratch".to_string(), ASTNode::Or { alternatives: vec![rule("outer_cast"), rule("prim")] });
    grammar.insert("outer_cast".to_string(), cast_body());
    order.insert(1, "outer_cast".to_string());
    let survey = survey_indirect_left_recursion(&grammar, &order);
    let prim = survey.candidates.iter().find(|candidate| candidate.base_rule == "prim").expect("prim is still a candidate");
    assert!(!prim.is_starvation_safe());
    let site = prim.surviving_starvation_sites().into_iter().find(|site| site.rule == "outer_cast").expect("the surviving holder is outer_cast");
    assert_eq!(site.residual, "\"'\" \"(\" lit \")\"");
    assert!(!site.on_route);
    assert!(site.survives_rewrite);
    let (control_grammar, control_order) = knot_a();
    let control = survey_indirect_left_recursion(&control_grammar, &control_order);
    assert!(control.candidates.iter().find(|candidate| candidate.base_rule == "prim").expect("prim is a candidate").is_starvation_safe());
}

#[test]
fn clone_cost_is_one_rule_per_intermediate() {
    let (grammar, order) = knot_a();
    let survey = survey_indirect_left_recursion(&grammar, &order);
    let prim = survey.candidates.iter().find(|c| c.base_rule == "prim").expect("prim is a candidate");
    let cost = prim.clone_cost();
    assert_eq!(cost.len(), 2);
    assert!(cost.contains("cast_expr") && cost.contains("ct"));
}

#[test]
fn a_nullable_left_corner_is_declined_not_guessed() {
    let mut grammar = StrMap::new();
    grammar.insert(
        "a".to_string(),
        ASTNode::Or {
            alternatives: vec![
                text("seed"),
                ASTNode::Sequence {
                    elements: vec![ASTNode::Quantified { element: Box::new(text("x")), quantifier: "?".to_string() }, rule("b")],
                },
            ],
        },
    );
    grammar.insert("b".to_string(), ASTNode::Sequence { elements: vec![rule("a"), text("!")] });
    let order = order_of(&["a", "b"]);
    let survey = survey_indirect_left_recursion(&grammar, &order);
    assert!(survey.candidates.iter().all(|c| c.base_rule != "a"));
    let declined = survey.declined.iter().find(|d| d.rule == "a").expect("the declined cycle is REPORTED, never silently dropped");
    assert_eq!(declined.reason.token(), "no_bare_left_corner_route");
}

#[test]
fn an_empty_suffix_route_is_degenerate_and_refused() {
    let mut grammar = StrMap::new();
    grammar.insert("a".to_string(), ASTNode::Or { alternatives: vec![text("s"), rule("b")] });
    grammar.insert("b".to_string(), rule("a"));
    let order = order_of(&["a", "b"]);
    let survey = survey_indirect_left_recursion(&grammar, &order);
    assert!(survey.candidates.is_empty());
    assert_eq!(
        survey.declined.iter().map(|d| d.reason.token()).collect::<Vec<_>>(),
        vec!["only_degenerate_routes", "only_degenerate_routes"]
    );
    assert_eq!(survey.declined[0].reason, DeclineReason::OnlyDegenerateRoutes);
}
