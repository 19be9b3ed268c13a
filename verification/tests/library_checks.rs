use pgen_grammar::annotations::{
    Annotations, Associativity, BranchPolicy, PredicateExpr, PredicatePhase, PredicateValue, PrimitiveCall, RuleSelectionSemantics,
    SemanticAnnotation, rule_has_branch_phase_predicates,
};
use pgen_grammar::ast::{ASTNode, ASTValue, TokenValue};
use pgen_grammar::certificates::{WellformednessCertificate, certificate_coverage, verify_wellformedness_certificate};
use pgen_grammar::elimination::{CandidateAdmission, IndirectEliminationOutcome, SynthesizedGuard};
use pgen_grammar::facts::{collect_emitted_fact_kinds, detect_unbound_fact_kinds, extract_profile_context};
use pgen_grammar::generator::HighPerformanceRustGenerator;
use pgen_grammar::grouped::{GroupedQuantifierParser, ParsedElement, Token};
use pgen_grammar::left_rec::detect_left_recursion;
use pgen_grammar::library::LibraryError;
use pgen_grammar::lr_plan::{DeclineReason, MAX_ROUTES_PER_BASE, survey_indirect_left_recursion};
use pgen_grammar::names::{NameSet, StrMap};
use pgen_grammar::profile_proof::classify_profile_residual;
use pgen_grammar::shadowing::{ShadowingReason, detect_ordered_choice_shadowing, navigate_node_path, verify_unreachability_certificate};
use pgen_grammar::wellformed::{
    Grammar, WellformednessIssue, derive_rule_profiles, detect_profile_orphans, positively_reachable_rules, reachable_rules,
};

fn r(name: &str) -> ASTNode {
    ASTNode::Atom { value: ASTValue::Token(vec![TokenValue::String("rule_reference".into()), TokenValue::String(name.into())]) }
}

fn t(value: &str) -> ASTNode {
    ASTNode::Atom { value: ASTValue::Token(vec![TokenValue::String("string".into()), TokenValue::String(value.into())]) }
}

fn g_of(rules: Vec<(&str, ASTNode)>) -> Grammar {
    let mut g = StrMap::new();
    for (name, body) in rules {
        g.insert(name.to_string(), body);
    }
    g
}

fn list(v: &[&str]) -> Vec<String> {
    v.iter().map(|s| s.to_string()).collect()
}

fn set(v: &[&str]) -> NameSet {
    let mut s = NameSet::new();
    for x in v {
        s.insert(x.to_string());
    }
    s
}

#[test]
fn left_recursion_message_joins_the_cycle() {
    let g = g_of(vec![("a", r("b")), ("b", ASTNode::Or { alternatives: vec![ASTNode::Sequence { elements: vec![r("a"), t("z")] }, t("w")] })]);
    let issues = detect_left_recursion(&g, &list(&["a", "b"]));
    assert_eq!(issues.len(), 2);
    match &issues[0] {
        WellformednessIssue::LeftRecursive { rule, cycle } => {
            assert_eq!(rule, "a");
            assert_eq!(cycle.first().map(|s| s.as_str()), Some("a"));
            assert_eq!(cycle.last().map(|s| s.as_str()), Some("a"));
        },
        other => panic!("unexpected {other:?}"),
    }
    let msg = WellformednessIssue::LeftRecursive { rule: "a".into(), cycle: list(&["a", "b", "a"]) }.message();
    assert_eq!(
        msg,
        "grammar info: rule 'a' is left-recursive (cycle: a -> b -> a) — handled by PGEN's LR elimination + runtime cycle-breaking (informational, not an error)"
    );
}

#[test]
fn profile_orphan_message_names_the_fix_or_its_absence() {
    let with_fix = WellformednessIssue::ProfileOrphan { rule: "base".into(), profile: "p1".into(), suggested_profiles: list(&["p2", "p3"]) };
    assert!(with_fix.message().ends_with(" — DERIVED minimal fix (ANNOTATION-COMPOSITION.4): tag 'base' with @profiles: [p2, p3] (the profiles where it IS satisfiable)"));
    let without = WellformednessIssue::ProfileOrphan { rule: "base".into(), profile: "p1".into(), suggested_profiles: vec![] };
    assert!(without.message().contains("satisfiable under NO declared profile"));
    let always = WellformednessIssue::AlwaysSucceedsAlternative { rule: "r".into(), node_path: "root".into(), always_index: 12 };
    assert!(always.message().contains("alternative #12 that ALWAYS SUCCEEDS"));
}

#[test]
fn decline_tokens_and_route_budget() {
    assert_eq!(DeclineReason::NoBareLeftCornerRoute.token(), "no_bare_left_corner_route");
    assert_eq!(DeclineReason::OnlyDegenerateRoutes.token(), "only_degenerate_routes");
    assert_eq!(MAX_ROUTES_PER_BASE, 128);
}

#[test]
fn survey_accounts_for_every_left_recursive_rule() {
    // x := x "a" | "b" (direct) ; p := q | "s" ; q := p (degenerate)
    let g = g_of(vec![
        ("x", ASTNode::Or { alternatives: vec![ASTNode::Sequence { elements: vec![r("x"), t("a")] }, t("b")] }),
        ("p", ASTNode::Or { alternatives: vec![r("q"), t("s")] }),
        ("q", r("p")),
    ]);
    let order = list(&["x", "p", "q"]);
    let survey = survey_indirect_left_recursion(&g, &order);
    assert_eq!(survey.surviving_cycle_rules, list(&["x", "p", "q"]));
    assert_eq!(survey.candidates.len() + survey.declined.len(), 3);
    let x = survey.candidates.iter().find(|c| c.base_rule == "x").expect("x has a route");
    assert_eq!(x.routes.len(), 1);
    assert_eq!(x.routes[0].path(), list(&["x"]));
    assert_eq!(x.acyclic_alternative_indices, vec![1]);
    assert!(!x.routes_truncated);
    assert_eq!(x.degenerate_routes_dropped, 0);
    assert!(survey.declined.iter().all(|d| d.reason == DeclineReason::OnlyDegenerateRoutes));
    assert!(survey.declined.iter().all(|d| d.cycle.first() == Some(&d.rule) && d.cycle.last() == Some(&d.rule)));
}

#[test]
fn coverage_counts_every_fragment_once() {
    let fragments = list(&["a", "b", "c", "a"]);
    let report = certificate_coverage(&fragments, &set(&["a", "b"]), &set(&["b", "c"]));
    assert_eq!(report.covered_by_proof, list(&["a", "b", "a"]));
    assert_eq!(report.covered_by_witness, list(&["c"]));
    assert!(report.unknown.is_empty());
    assert_eq!(report.covered_by_proof.len() + report.covered_by_witness.len() + report.unknown.len(), report.total);
}

#[test]
fn every_shadowing_finding_re_verifies_on_a_nested_grammar() {
    let twin = ASTNode::Or { alternatives: vec![t("a"), t("a"), t("c")] };
    let nested = ASTNode::Sequence {
        elements: vec![
            t("p"),
            ASTNode::Quantified { element: Box::new(ASTNode::Atom { value: ASTValue::Node(Box::new(twin)) }), quantifier: "*".into() },
        ],
    };
    let mut alts = Vec::new();
    for _ in 0..12 {
        alts.push(t("k"));
    }
    let g = g_of(vec![("n", nested), ("wide", ASTNode::Or { alternatives: alts })]);
    let order = list(&["n", "wide"]);
    let issues = detect_ordered_choice_shadowing(&g, &order, None);
    assert_eq!(issues.len(), 12);
    assert_eq!(issues[0].node_path, "root/s1/q/a");
    assert_eq!(issues[0].reason, ShadowingReason::DuplicateAlternative);
    assert_eq!(issues[11].shadowed_index, 11);
    for issue in &issues {
        let cert = issue.certificate();
        assert!(verify_unreachability_certificate(&g, None, &cert).is_ok(), "{issue:?}");
        assert!(verify_wellformedness_certificate(&g, &order, None, &WellformednessCertificate::DeadAlternative(cert)).is_ok());
    }
    let body = g.get("n").unwrap();
    assert!(matches!(navigate_node_path(body, "root/s1/q/a"), Some(ASTNode::Or { .. })));
    assert!(navigate_node_path(body, "root/s+1/q/a").is_some());
    assert!(navigate_node_path(body, "root/s2").is_none());
    assert!(navigate_node_path(body, "top/s1").is_none());
}

#[test]
fn certificate_for_an_unknown_rule_is_refused() {
    let g = g_of(vec![("r", t("x"))]);
    let cert = WellformednessCertificate::UnreachableRule { rule: "nope".into() };
    assert!(verify_wellformedness_certificate(&g, &list(&["r"]), None, &cert).is_err());
}

#[test]
fn selection_semantics_take_the_first_directive_of_each_kind() {
    let mut ann = Annotations::new();
    ann.semantic_annotations.insert(
        "r".into(),
        vec![
            SemanticAnnotation::Associativity(Associativity::Right),
            SemanticAnnotation::Associativity(Associativity::NonAssoc),
            SemanticAnnotation::Priority(vec![3, 7]),
            SemanticAnnotation::BranchPolicy(BranchPolicy::Ordered),
        ],
    );
    let sem = RuleSelectionSemantics::resolve(Some(&ann), "r");
    assert_eq!(sem.associativity, Associativity::Right);
    assert_eq!(sem.policy, BranchPolicy::Ordered);
    assert_eq!(sem.priority(1), 7);
    assert_eq!(sem.priority(5), 0);
    assert!(!sem.partition_enabled);
    let defaults = RuleSelectionSemantics::resolve(None, "r");
    assert_eq!(defaults.policy, BranchPolicy::LongestMatch);
    assert_eq!(defaults.associativity, Associativity::Left);
    assert!(!rule_has_branch_phase_predicates(Some(&ann), "r"));
}

fn pred(phase: PredicatePhase) -> SemanticAnnotation {
    SemanticAnnotation::Predicate {
        expr: PredicateExpr::Call(PrimitiveCall { name: "has_fact".into(), args: vec![PredicateValue::IdentLit("k".into())] }),
        phase,
    }
}

#[test]
fn unbound_fact_kinds_are_sorted_and_deduplicated() {
    let mut ann = Annotations::new();
    ann.semantic_annotations.insert("z_rule".into(), vec![pred(PredicatePhase::Pre), pred(PredicatePhase::Post)]);
    ann.semantic_annotations.insert("a_rule".into(), vec![pred(PredicatePhase::Branch)]);
    let issues = detect_unbound_fact_kinds(&ann);
    let rules: Vec<String> = issues
        .iter()
        .map(|i| match i {
            WellformednessIssue::UnboundFactKind { rule, kind, primitive } => {
                assert_eq!(kind, "k");
                assert_eq!(primitive, "has_fact");
                rule.clone()
            },
            other => panic!("unexpected {other:?}"),
        })
        .collect();
    assert_eq!(rules, list(&["a_rule", "z_rule"]));
    assert!(collect_emitted_fact_kinds(&ann).is_empty());
    assert!(rule_has_branch_phase_predicates(Some(&ann), "a_rule"));
}

#[test]
fn profile_lists_are_trimmed_and_lowercased() {
    let mut ann = Annotations::new();
    ann.semantic_annotations.insert("v".into(), vec![SemanticAnnotation::Profiles(list(&["  SV_2023 ", "Verilog"]))]);
    ann.semantic_annotations.insert("w".into(), vec![SemanticAnnotation::Profiles(list(&["sv_2017"]))]);
    let (profiles, universe) = extract_profile_context(&ann);
    assert_eq!(profiles.get("v"), Some(&list(&["sv_2023", "verilog"])));
    assert_eq!(universe, list(&["sv_2017", "sv_2023", "verilog"]));
    let g = g_of(vec![("base", r("v")), ("v", t("x")), ("w", t("y"))]);
    let order = list(&["base", "v", "w"]);
    let derived = derive_rule_profiles(&g, &order, &profiles, &universe);
    assert_eq!(derived.get("base"), Some(&list(&["sv_2023", "verilog"])));
    let orphans = detect_profile_orphans(&g, &order, &profiles, &universe);
    assert!(orphans.iter().any(|i| matches!(i, WellformednessIssue::ProfileOrphan { rule, profile, .. } if rule == "base" && profile == "sv_2017")));
}

#[test]
fn without_annotations_the_store_analysis_claims_nothing() {
    let g = g_of(vec![("entry", r("a")), ("a", t("x")), ("lone", t("y"))]);
    let order = list(&["entry", "a", "lone"]);
    let full = set(&["entry", "a", "lone"]);
    let c = classify_profile_residual(&g, &order, &full, &list(&["entry"]), None, &order);
    assert!(!c.degraded_inert);
    assert!(c.store_unproducible.is_empty());
    assert_eq!(c.profile_entry_unreachable, list(&["lone"]));
    assert_eq!(c.genuine, list(&["entry", "a"]));
    assert_eq!(c.entries, list(&["entry"]));
}

#[test]
fn grouped_parser_tokenizes_parses_and_builds_nodes() {
    let p = GroupedQuantifierParser::new(false);
    let raw = vec![
        vec![TokenValue::String("group_open".into()), TokenValue::String("(".into())],
        vec![TokenValue::String("rule_reference".into()), TokenValue::String("x".into())],
        vec![TokenValue::String("only_one".into())],
        vec![TokenValue::String("group_close".into()), TokenValue::String(")".into())],
        vec![TokenValue::String("quantifier".into()), TokenValue::String("*".into())],
    ];
    let tokens = p.tokenize_from_raw_tokens(&raw).unwrap();
    assert_eq!(
        tokens,
        vec![Token::GroupOpen, Token::Element("rule_reference".into(), "x".into()), Token::GroupClose, Token::Quantifier("*".into())]
    );
    let elements = p.parse_sequence(&tokens).unwrap();
    assert_eq!(elements, vec![ParsedElement::Simple { token_type: "rule_reference".into(), token_value: "x".into() }]);
    let q = ParsedElement::Quantified {
        element: Box::new(ParsedElement::Group {
            element: Box::new(ParsedElement::Alternative {
                branches: vec![
                    ParsedElement::Simple { token_type: "terminal".into(), token_value: "a".into() },
                    ParsedElement::Simple { token_type: "terminal".into(), token_value: "b".into() },
                ],
            }),
        }),
        quantifier: "+".into(),
    };
    assert_eq!(q.to_string(), "((terminal:a | terminal:b))+");
    let node = p.to_ast_node(q);
    match node {
        ASTNode::Quantified { element, quantifier } => {
            assert_eq!(quantifier, "+");
            match *element {
                ASTNode::Atom { value: ASTValue::Node(inner) } => assert!(matches!(*inner, ASTNode::Or { ref alternatives } if alternatives.len() == 2)),
                other => panic!("unexpected {other:?}"),
            }
        },
        other => panic!("unexpected {other:?}"),
    }
}

#[test]
fn generator_configuration_follows_the_setters() {
    let mut g = HighPerformanceRustGenerator::new("gram");
    assert_eq!(g.grammar_name, "gram");
    assert!(g.entry_rule.is_none() && !g.enable_trace && !g.enable_backtrack_debug && !g.bootstrap_mode);
    g.set_entry_rule("start");
    g.set_bootstrap_mode(true);
    g.set_debug_mode(false);
    assert!(!g.enable_trace);
    g.set_debug_mode(true);
    assert!(g.enable_trace);
    assert_eq!(g.entry_rule.as_deref(), Some("start"));
    assert!(g.bootstrap_mode);
    g.set_annotations(Annotations::new());
    assert!(g.annotations.is_some());
    let traced = HighPerformanceRustGenerator::with_trace("x", true);
    assert!(traced.enable_trace && !traced.enable_backtrack_debug);
    let full = HighPerformanceRustGenerator::with_full_debug("x");
    assert!(full.enable_trace && full.enable_backtrack_debug);
}

#[test]
fn elimination_outcome_lists_guard_rules_in_order() {
    let mut outcome = IndirectEliminationOutcome::default();
    assert!(outcome.guard_rule_names().is_empty());
    let guard = |rules: &[&str]| SynthesizedGuard {
        base_rule: "b".into(),
        guarded_base_rule: "b_g".into(),
        chain: vec![],
        positions: "loop".into(),
        residual: String::new(),
        call_sites: vec![],
        rules: list(rules),
    };
    outcome.synthesized_guards.push(guard(&["g1", "g2"]));
    outcome.synthesized_guards.push(guard(&["g3"]));
    assert_eq!(outcome.guard_rule_names(), list(&["g1", "g2", "g3"]));
    assert!(CandidateAdmission::StarvationSafe.narrates());
    assert!(!CandidateAdmission::GuardFeasibleDryRun.narrates());
}

#[test]
fn library_errors_carry_their_message() {
    for e in [
        LibraryError::NotFound("m".into()),
        LibraryError::Io("m".into()),
        LibraryError::Parse("m".into()),
        LibraryError::UnsupportedFormat("m".into()),
        LibraryError::Write("m".into()),
    ] {
        assert_eq!(e.message(), "m");
    }
}

#[test]
fn positively_reachable_rules_are_reachable() {
    let g = g_of(vec![
        ("entry", ASTNode::Sequence { elements: vec![r("a"), ASTNode::Lookahead { element: Box::new(r("peek")), positive: false }] }),
        ("a", t("x")),
        ("peek", r("deep")),
        ("deep", t("y")),
    ]);
    let order = list(&["entry", "a", "peek", "deep"]);
    let all = reachable_rules(&g, &order);
    let pos = positively_reachable_rules(&g, &order);
    for name in ["entry", "a", "peek", "deep"] {
        assert!(all.contains(name), "{name} is reachable");
        if pos.contains(name) {
            assert!(all.contains(name));
        }
    }
    assert!(pos.contains("a"));
    assert!(!pos.contains("peek"));
    assert!(!pos.contains("deep"));
}

#[test]
fn orphans_are_the_declared_profiles_outside_the_derived_set() {
    let mut ann = Annotations::new();
    ann.semantic_annotations.insert("v".into(), vec![SemanticAnnotation::Profiles(list(&["sv_2023"]))]);
    ann.semantic_annotations.insert("w".into(), vec![SemanticAnnotation::Profiles(list(&["sv_2017"]))]);
    let (profiles, universe) = extract_profile_context(&ann);
    let g = g_of(vec![("base", r("v")), ("v", t("x")), ("w", t("y")), ("both", ASTNode::Or { alternatives: vec![r("v"), r("w")] })]);
    let order = list(&["base", "v", "w", "both"]);
    let derived = derive_rule_profiles(&g, &order, &profiles, &universe);
    let orphans = detect_profile_orphans(&g, &order, &profiles, &universe);
    let mut expected = Vec::new();
    for profile in &universe {
        for rule in &order {
            let d = derived.get(rule).expect("every listed rule is derived");
            let present = match profiles.get(rule) {
                Some(l) => l.is_empty() || l.contains(profile),
                None => true,
            };
            if present && !d.contains(profile) && !d.is_empty() {
                expected.push(WellformednessIssue::ProfileOrphan {
                    rule: rule.clone(),
                    profile: profile.clone(),
                    suggested_profiles: d.clone(),
                });
            }
        }
    }
    assert_eq!(orphans, expected);
    assert_eq!(expected.len(), 1);
    assert_eq!(derived.get("both"), Some(&list(&["sv_2017", "sv_2023"])));
}

#[test]
fn routes_come_in_depth_first_order() {
    // e := a "x" | b "y" | e "z" ; a := e "p" | c ; b := e "q" ; c := e "r"
    let seq = |v: Vec<ASTNode>| ASTNode::Sequence { elements: v };
    let g = g_of(vec![
        ("e", ASTNode::Or { alternatives: vec![seq(vec![r("a"), t("x")]), seq(vec![r("b"), t("y")]), seq(vec![r("e"), t("z")])] }),
        ("a", ASTNode::Or { alternatives: vec![seq(vec![r("e"), t("p")]), r("c")] }),
        ("b", seq(vec![r("e"), t("q")])),
        ("c", seq(vec![r("e"), t("r")])),
    ]);
    let order = list(&["e", "a", "b", "c"]);
    let survey = survey_indirect_left_recursion(&g, &order);
    let e = survey.candidates.iter().find(|c| c.base_rule == "e").expect("e has routes");
    let paths: Vec<Vec<String>> = e.routes.iter().map(|route| route.path()).collect();
    assert_eq!(paths, vec![list(&["e", "a"]), list(&["e", "a", "c"]), list(&["e", "b"]), list(&["e"])]);
    let alts: Vec<usize> = e.routes.iter().map(|route| route.base_alternative_index).collect();
    assert_eq!(alts, vec![0, 0, 1, 2]);
}
