use pgen_grammar::annotations::{Annotations, SemanticAnnotation};
use pgen_grammar::ast::{ASTNode, ASTValue, TokenValue};
use pgen_grammar::elimination::{
    allocate, chain_alt_type_marker, eliminate_indirect_left_recursion, insert_before, replace_left_corner,
};
use pgen_grammar::left_rec::detect_left_recursion;
use pgen_grammar::lr_plan::{alt_at, alt_count, render_elements};
use pgen_grammar::names::{NameSet, StrMap};
use pgen_grammar::return_ast::{BranchAnnotation, UnifiedReturnAST};

fn rule(name: &str) -> ASTNode {
    ASTNode::Atom {
        value: ASTValue::Token(vec![
            TokenValue::String("rule_reference".to_string()),
            TokenValue::String(name.to_string()),
        ]),
    }
}

fn text(literal: &str) -> ASTNode {
    ASTNode::Atom {
        value: ASTValue::Token(vec![
            TokenValue::String("quoted_string".to_string()),
            TokenValue::String(literal.to_string()),
        ]),
    }
}

fn object(pairs: Vec<(&str, UnifiedReturnAST)>) -> UnifiedReturnAST {
    UnifiedReturnAST::Object {
        properties: pairs.into_iter().map(|(key, value)| (key.to_string(), Box::new(value))).collect(),
    }
}

fn positional(index: usize) -> UnifiedReturnAST {
    UnifiedReturnAST::PositionalRef { index }
}

fn literal(value: &str) -> UnifiedReturnAST {
    UnifiedReturnAST::StringLiteral { value: value.to_string() }
}

fn annotation(ast: UnifiedReturnAST) -> Option<BranchAnnotation> {
    Some(BranchAnnotation {
        annotation_type: "return_annotation".to_string(),
        annotation_content: String::new(),
        parsed_ast: Some(ast),
    })
}

fn names(v: &[&str]) -> Vec<String> {
    v.iter().map(|s| s.to_string()).collect()
}

fn knot_a_annotated() -> (StrMap<ASTNode>, Vec<String>, Annotations) {
    let mut grammar = StrMap::new();
    grammar.insert("scratch".to_string(), rule("prim"));
    grammar.insert("prim".to_string(), ASTNode::Or { alternatives: vec![rule("lit"), rule("cast_expr")] });
    grammar.insert(
        "cast_expr".to_string(),
        ASTNode::Sequence { elements: vec![rule("ct"), text("'"), text("("), rule("lit"), text(")")] },
    );
    grammar.insert("ct".to_string(), ASTNode::Or { alternatives: vec![rule("kw"), rule("prim")] });
    grammar.insert("lit".to_string(), text("n"));
    grammar.insert("kw".to_string(), text("t"));
    let order = names(&["scratch", "prim", "cast_expr", "ct", "lit", "kw"]);

    let mut annotations = Annotations::default();
    annotations.branch_return_annotations.insert(
        "prim".to_string(),
        vec![
            annotation(object(vec![("kind", literal("lit")), ("body", positional(1))])),
            annotation(object(vec![("kind", literal("cast")), ("body", positional(1))])),
        ],
    );
    annotations.branch_return_annotations.insert(
        "cast_expr".to_string(),
        vec![annotation(object(vec![("type", positional(1)), ("body", positional(4))]))],
    );
    annotations.branch_return_annotations.insert(
        "ct".to_string(),
        vec![
            annotation(object(vec![("kind", literal("kw")), ("body", positional(1))])),
            annotation(object(vec![("kind", literal("prim")), ("body", positional(1))])),
        ],
    );
    (grammar, order, annotations)
}

fn knot_a_annotated_with_surviving_holder() -> (StrMap<ASTNode>, Vec<String>, Annotations) {
    let (mut grammar, mut order, annotations) = knot_a_annotated();
    grammar.insert("scratch".to_string(), ASTNode::Or { alternatives: vec![rule("outer_cast"), rule("prim")] });
    grammar.insert(
        "outer_cast".to_string(),
        ASTNode::Sequence { elements: vec![rule("ct"), text("'"), text("("), rule("lit"), text(")")] },
    );
    order.insert(1, "outer_cast".to_string());
    (grammar, order, annotations)
}

fn alternatives(grammar: &StrMap<ASTNode>, name: &str) -> Vec<String> {
    let body = grammar.get(name).expect("rule exists");
    (0..alt_count(body)).map(|i| render_elements(std::slice::from_ref(alt_at(body, i)))).collect()
}

fn grammar_names(grammar: &StrMap<ASTNode>) -> Vec<String> {
    (0..grammar.len()).map(|i| grammar.key_at(i).clone()).collect()
}

fn return_template<'a>(annotations: &'a Annotations, rule: &str) -> Option<&'a UnifiedReturnAST> {
    annotations
        .branch_return_annotations
        .get(rule)
        .and_then(|branches| branches.first())
        .and_then(|branch| branch.as_ref())
        .and_then(|branch| branch.parsed_ast.as_ref())
}

#[test]
fn the_shipped_admission_synthesizes_no_guard_on_the_same_starved_knot() {
    let (mut grammar, mut order, mut annotations) = knot_a_annotated_with_surviving_holder();
    let shipped = eliminate_indirect_left_recursion(&mut grammar, &mut order, Some(&mut annotations));
    assert!(shipped.synthesized_guards.is_empty());
    assert!(!grammar_names(&grammar).iter().any(|name| name.contains("_lr_guard")));
}

#[test]
fn the_rewrite_reproduces_the_hand_written_p3_shape() {
    let (mut grammar, mut order, mut annotations) = knot_a_annotated();
    let outcome = eliminate_indirect_left_recursion(&mut grammar, &mut order, Some(&mut annotations));

    assert_eq!(outcome.eliminated_base_rules, vec!["prim"]);
    assert!(outcome.refusals.is_empty());
    assert_eq!(outcome.synthesized_clone_rules, vec!["prim_lr_seed_ct", "prim_lr_seed_cast_expr"]);

    assert_eq!(
        render_elements(std::slice::from_ref(grammar.get("prim").expect("prim survives"))),
        "prim_lr_base prim_lr_suffix*"
    );
    assert_eq!(alternatives(&grammar, "prim_lr_base"), vec!["lit", "prim_lr_seed_cast_expr"]);
    assert_eq!(alternatives(&grammar, "prim_lr_suffix"), vec!["prim_lr_suffix_r0"]);
    assert_eq!(alternatives(&grammar, "prim_lr_suffix_r0"), vec!["\"'\" \"(\" lit \")\""]);
    assert_eq!(alternatives(&grammar, "prim_lr_seed_cast_expr"), vec!["prim_lr_seed_ct \"'\" \"(\" lit \")\""]);
    assert_eq!(alternatives(&grammar, "prim_lr_seed_ct"), vec!["kw"]);

    assert!(grammar.contains_key("ct") && grammar.contains_key("cast_expr"));
    let index = |name: &str| order.iter().position(|rule| rule == name).expect(name);
    assert!(index("prim_lr_seed_ct") < index("prim"));
    assert!(index("prim_lr_base") < index("prim"));
    assert!(index("prim_lr_suffix") < index("prim"));
}

#[test]
fn the_composed_template_is_the_hand_derived_nesting() {
    let (mut grammar, mut order, mut annotations) = knot_a_annotated();
    eliminate_indirect_left_recursion(&mut grammar, &mut order, Some(&mut annotations));

    let chain = return_template(&annotations, "prim").expect("the base rule carries the synthetic chain annotation");
    let UnifiedReturnAST::LrChainFold { initial, suffixes, specs } = chain else {
        panic!("the base rule's annotation must be the chain fold, got {chain:?}");
    };
    assert_eq!(**initial, positional(1));
    assert_eq!(**suffixes, positional(2));
    assert_eq!(specs.len(), 1);
    assert_eq!(specs[0].alt_index, 0);
    assert_eq!(specs[0].original_body_length, 5);

    let expected = object(vec![
        ("kind", literal("cast")),
        (
            "body",
            object(vec![
                ("type", object(vec![("kind", literal("prim")), ("body", positional(1))])),
                ("body", positional(4)),
            ]),
        ),
    ]);
    assert_eq!(specs[0].annotation_template, expected);

    let route_record = return_template(&annotations, "prim_lr_suffix_r0").expect("the route rule carries the chain-alt record");
    assert_eq!(
        *route_record,
        object(vec![
            ("type", literal(&chain_alt_type_marker())),
            ("alt_index", UnifiedReturnAST::NumberLiteral { value: 0 }),
            ("captures", UnifiedReturnAST::Array { elements: (1..=4).map(positional).collect() }),
        ])
    );
    assert_eq!(return_template(&annotations, "prim_lr_suffix"), Some(&positional(1)));
}

#[test]
fn an_unannotated_hop_with_a_residual_is_refused_not_guessed() {
    let (mut grammar, mut order, _) = knot_a_annotated();
    let mut annotations = Annotations::default();
    let outcome = eliminate_indirect_left_recursion(&mut grammar, &mut order, Some(&mut annotations));

    assert_eq!(outcome.eliminated_base_rules, Vec::<String>::new());
    let refusal = outcome
        .refusals
        .iter()
        .find(|refusal| refusal.base_rule == "prim")
        .expect("the refusal is DATA, reported to the caller");
    assert!(
        refusal.reason.contains("cast_expr") && refusal.reason.contains("no return annotation"),
        "the refusal must name the hop and the cause: {}",
        refusal.reason
    );
    assert!(!grammar.contains_key("prim_lr_base"));
    assert_eq!(alternatives(&grammar, "prim"), vec!["lit", "cast_expr"], "a refusal must not half-apply");
}

#[test]
fn a_mutually_recursive_set_is_eliminated_at_its_dominator() {
    let mut grammar = StrMap::new();
    grammar.insert("scratch".to_string(), rule("prim"));
    grammar.insert("prim".to_string(), ASTNode::Or { alternatives: vec![rule("prim_a"), rule("prim_b")] });
    for (twin, seed) in [("prim_a", "lit_a"), ("prim_b", "lit_b")] {
        grammar.insert(twin.to_string(), ASTNode::Or { alternatives: vec![rule(seed), rule("cast_expr")] });
    }
    grammar.insert(
        "cast_expr".to_string(),
        ASTNode::Sequence { elements: vec![rule("ct"), text("'"), text("("), rule("lit_a"), text(")")] },
    );
    grammar.insert("ct".to_string(), rule("prim"));
    grammar.insert("lit_a".to_string(), text("n"));
    grammar.insert("lit_b".to_string(), text("m"));
    let mut order = names(&["scratch", "prim", "prim_a", "prim_b", "cast_expr", "ct", "lit_a", "lit_b"]);

    let mut annotations = Annotations::default();
    annotations.branch_return_annotations.insert(
        "cast_expr".to_string(),
        vec![annotation(object(vec![("type", positional(1)), ("body", positional(4))]))],
    );

    let outcome = eliminate_indirect_left_recursion(&mut grammar, &mut order, Some(&mut annotations));

    assert_eq!(outcome.eliminated_base_rules, vec!["prim"], "the DOMINATOR absorbs the chain, never one of the twins");
    assert_eq!(alternatives(&grammar, "prim_lr_base"), vec!["prim_lr_seed_prim_a", "prim_lr_seed_prim_b"]);
    assert!(
        detect_left_recursion(&grammar, &order).is_empty(),
        "the rewritten grammar must carry no left recursion at all"
    );
}

#[test]
fn a_degenerate_route_blocks_the_plan_rather_than_half_shearing_it() {
    let mut grammar = StrMap::new();
    grammar.insert(
        "a".to_string(),
        ASTNode::Or {
            alternatives: vec![text("s"), rule("b"), ASTNode::Sequence { elements: vec![rule("c"), text("x")] }],
        },
    );
    grammar.insert("b".to_string(), rule("a"));
    grammar.insert("c".to_string(), rule("a"));
    let mut order = names(&["a", "b", "c"]);
    let mut annotations = Annotations::default();

    let outcome = eliminate_indirect_left_recursion(&mut grammar, &mut order, Some(&mut annotations));
    assert_eq!(outcome.eliminated_base_rules, Vec::<String>::new());
    assert!(
        outcome.refusals.iter().any(|refusal| refusal.reason.contains("empty suffix")),
        "the degenerate route must be named as the reason: {:?}",
        outcome.refusals
    );
}

#[test]
fn without_annotations_the_suffix_is_an_inline_choice() {
    let (mut grammar, mut order, _) = knot_a_annotated();
    let outcome = eliminate_indirect_left_recursion(&mut grammar, &mut order, None);
    assert_eq!(outcome.eliminated_base_rules, vec!["prim"]);
    assert_eq!(
        render_elements(std::slice::from_ref(grammar.get("prim").expect("prim survives"))),
        "prim_lr_base \"'\" \"(\" lit \")\"*"
    );
    assert!(!grammar.contains_key("prim_lr_suffix"));
    assert!(detect_left_recursion(&grammar, &order).is_empty());
}

#[test]
fn nothing_eliminated_leaves_the_grammar_as_it_was() {
    let mut grammar = StrMap::new();
    grammar.insert("a".to_string(), ASTNode::Sequence { elements: vec![text("k"), rule("b")] });
    grammar.insert("b".to_string(), text("m"));
    let mut order = names(&["a", "b"]);
    let outcome = eliminate_indirect_left_recursion(&mut grammar, &mut order, None);
    assert!(outcome.eliminated_base_rules.is_empty());
    assert!(outcome.refusals.is_empty());
    assert_eq!(order, names(&["a", "b"]));
    assert_eq!(grammar_names(&grammar), names(&["a", "b"]));
}

#[test]
fn a_hop_using_matched_text_is_refused() {
    let (mut grammar, mut order, mut annotations) = knot_a_annotated();
    annotations.branch_return_annotations.insert(
        "cast_expr".to_string(),
        vec![annotation(object(vec![("type", positional(1)), ("text", UnifiedReturnAST::MatchedText)]))],
    );
    let outcome = eliminate_indirect_left_recursion(&mut grammar, &mut order, Some(&mut annotations));
    assert!(outcome.eliminated_base_rules.is_empty());
    let refusal = outcome.refusals.iter().find(|r| r.base_rule == "prim").expect("prim is refused");
    assert_eq!(refusal.reason, "hop 'cast_expr' uses $text, which the chain fold cannot express");
    assert!(!grammar.contains_key("prim_lr_base"));
}

#[test]
fn the_rows_go_down_by_at_least_the_eliminations() {
    let (mut grammar, mut order, mut annotations) = knot_a_annotated();
    let before = detect_left_recursion(&grammar, &order).len();
    let outcome = eliminate_indirect_left_recursion(&mut grammar, &mut order, Some(&mut annotations));
    let after = detect_left_recursion(&grammar, &order).len();
    assert_eq!(before, 3);
    assert!(after + outcome.eliminated_base_rules.len() <= before);
    assert_eq!(after, 0);
}

#[test]
fn allocation_appends_a_counter_on_collision() {
    let mut taken = NameSet::new();
    taken.insert("x".to_string());
    taken.insert("x_1".to_string());
    assert_eq!(allocate("y".to_string(), &mut taken), "y");
    assert_eq!(allocate("x".to_string(), &mut taken), "x_2");
    assert_eq!(allocate("x".to_string(), &mut taken), "x_3");
    assert!(taken.contains("x_3"));
}

#[test]
fn insertion_goes_before_the_anchor_once() {
    let mut order = names(&["a", "b", "c"]);
    insert_before(&mut order, "b", "n");
    assert_eq!(order, names(&["a", "n", "b", "c"]));
    insert_before(&mut order, "c", "n");
    assert_eq!(order, names(&["a", "n", "b", "c"]));
    insert_before(&mut order, "zz", "m");
    assert_eq!(order, names(&["a", "n", "b", "c", "m"]));
}

#[test]
fn the_left_corner_is_replaced_in_place() {
    let alt = ASTNode::Sequence { elements: vec![rule("ct"), text("'")] };
    let r = replace_left_corner(&alt, "seed");
    assert_eq!(render_elements(std::slice::from_ref(&r)), "seed \"'\"");
    let bare = replace_left_corner(&rule("ct"), "seed");
    assert_eq!(render_elements(std::slice::from_ref(&bare)), "seed");
}

#[test]
fn a_profile_gated_base_passes_its_profiles_to_the_helpers() {
    let (mut grammar, mut order, mut annotations) = knot_a_annotated();
    annotations
        .semantic_annotations
        .insert("prim".to_string(), vec![SemanticAnnotation::Profiles(vec!["sv_2017".to_string()])]);
    let outcome = eliminate_indirect_left_recursion(&mut grammar, &mut order, Some(&mut annotations));
    assert_eq!(outcome.eliminated_base_rules, vec!["prim"]);
    let gate = |rule: &str| match annotations.semantic_annotations.get(rule).and_then(|v| v.first()) {
        Some(SemanticAnnotation::Profiles(list)) => list.clone(),
        _ => Vec::new(),
    };
    assert_eq!(gate("prim_lr_base"), names(&["sv_2017"]));
    assert_eq!(gate("prim_lr_suffix"), names(&["sv_2017"]));
}
