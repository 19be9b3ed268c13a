use pgen_grammar::annotations::{
    Annotations, Associativity, BranchPolicy, MidSequenceAnnotation, PredicateExpr, PredicatePhase, PredicateValue,
    PrimitiveCall, SemanticAnnotation,
};
use pgen_grammar::ast::{ASTNode, ASTValue, TokenValue};
use pgen_grammar::certificates::{
    CertificateCoverageReport, ParseContent, ParseNode, ReachabilityWitness, WellformednessCertificate, certificate_coverage,
    gather_verified_proof_covered_rules, gather_verified_witness_covered, parse_node_covered_rules, verify_reachability_witness,
    verify_wellformedness_certificate,
};
use pgen_grammar::facts::{collect_emitted_fact_kinds, detect_unbound_fact_kinds, extract_profile_context};
use pgen_grammar::left_rec::detect_left_recursion;
use pgen_grammar::names::{NameSet, StrMap};
use pgen_grammar::profile_proof::{
    classify_profile_residual, gather_verified_profile_proof_covered_rules, profile_entry_positively_live,
    verify_profile_certificate,
};
use pgen_grammar::shadowing::{
    ShadowingReason, UnreachabilityCertificate, UnreachabilityReason, detect_ordered_choice_shadowing, navigate_node_path, verify_unreachability_certificate,
};
use pgen_grammar::wellformed::{
    Grammar, WellformednessIssue, derive_rule_profiles, detect_always_succeeds_alternatives, detect_lookahead_only_rules,
    detect_nonterminating_rules, detect_nullable_repetition, detect_profile_orphans, detect_undefined_references,
    detect_unreachable_rules, native_unresolved_reference_builtins, positively_reachable_rules, reachable_rules,
};

fn rule_ref(name: &str) -> ASTNode {
    ASTNode::Atom {
        value: ASTValue::Token(vec![TokenValue::String("rule_reference".into()), TokenValue::String(name.into())]),
    }
}

fn token(kind: &str, value: &str) -> ASTNode {
    ASTNode::Atom { value: ASTValue::Token(vec![TokenValue::String(kind.into()), TokenValue::String(value.into())]) }
}

fn seq(elems: Vec<ASTNode>) -> ASTNode {
    ASTNode::Sequence { elements: elems }
}

fn or(alts: Vec<ASTNode>) -> ASTNode {
    ASTNode::Or { alternatives: alts }
}

fn quant(element: ASTNode, q: &str) -> ASTNode {
    ASTNode::Quantified { element: Box::new(element), quantifier: q.to_string() }
}

fn look(element: ASTNode, positive: bool) -> ASTNode {
    ASTNode::Lookahead { element: Box::new(element), positive }
}

fn grammar(rules: Vec<(&str, ASTNode)>) -> Grammar {
    let mut g = StrMap::new();
    for (name, body) in rules {
        g.insert(name.to_string(), body);
    }
    g
}

fn names(v: &[&str]) -> Vec<String> {
    v.iter().map(|s| s.to_string()).collect()
}

fn emit_fact_ann(kind: &str) -> SemanticAnnotation {
    SemanticAnnotation::EmitFact { kind: kind.to_string() }
}

fn ident(s: &str) -> PredicateValue {
    PredicateValue::IdentLit(s.to_string())
}

fn arg(s: &str) -> PredicateValue {
    PredicateValue::ArgRef(s.to_string())
}

fn call(name: &str, args: Vec<PredicateValue>) -> PredicateExpr {
    PredicateExpr::Call(PrimitiveCall { name: name.to_string(), args })
}

fn predicate_ann(expr: PredicateExpr) -> SemanticAnnotation {
    SemanticAnnotation::Predicate { expr, phase: PredicatePhase::Pre }
}

fn profiles_ann(list: &[&str]) -> SemanticAnnotation {
    SemanticAnnotation::Profiles(names(list))
}

fn set_of(s: &NameSet) -> Vec<String> {
    let mut v = s.to_vec();
    v.sort();
    v
}

#[test]
fn profile_orphan_certificate_verifies_and_rejects() {
    let g = grammar(vec![("base", rule_ref("variant")), ("variant", token("string", "==")), ("dummy", token("string", "d"))]);
    let order = names(&["base", "variant", "dummy"]);
    let mut ann = Annotations::new();
    ann.semantic_annotations.insert("variant".into(), vec![profiles_ann(&["sv_2023"])]);
    ann.semantic_annotations.insert("dummy".into(), vec![profiles_ann(&["sv_2017"])]);
    let cert = WellformednessCertificate::ProfileOrphan { rule: "base".into(), profile: "sv_2017".into() };
    assert!(
        verify_wellformedness_certificate(&g, &order, Some(&ann), &cert).is_ok(),
        "valid profile-orphan certificate must verify: {:?}",
        verify_wellformedness_certificate(&g, &order, Some(&ann), &cert)
    );
    let bogus = WellformednessCertificate::ProfileOrphan { rule: "base".into(), profile: "sv_2023".into() };
    assert!(verify_wellformedness_certificate(&g, &order, Some(&ann), &bogus).is_err());
}

#[test]
fn lookahead_only_rule_is_proof_covered_and_checker_rejects_bogus() {
    let g = grammar(vec![
        ("list", seq(vec![rule_ref("item"), quant(seq(vec![rule_ref("sep"), look(rule_ref("stop"), false), rule_ref("item")]), "*")])),
        ("item", token("string", "id")),
        ("sep", token("string", ",")),
        ("stop", token("string", "X")),
    ]);
    let order = names(&["list", "item", "sep", "stop"]);
    assert!(reachable_rules(&g, &order).contains("stop"));
    assert!(!positively_reachable_rules(&g, &order).contains("stop"));
    for r in ["list", "item", "sep"] {
        assert!(positively_reachable_rules(&g, &order).contains(r), "{r} is used positively and must be positively reachable");
    }
    assert_eq!(detect_lookahead_only_rules(&g, &order), vec!["stop".to_string()]);
    let (proof, fails) = gather_verified_proof_covered_rules(&g, &order);
    assert!(fails.is_empty(), "no proof should fail re-verify: {fails:?}");
    assert!(proof.contains("stop"));
    assert!(!proof.contains("item"));
    let cert = WellformednessCertificate::LookaheadOnlyRule { rule: "stop".into() };
    assert!(verify_wellformedness_certificate(&g, &order, None, &cert).is_ok());
    let bogus = WellformednessCertificate::LookaheadOnlyRule { rule: "item".into() };
    assert!(verify_wellformedness_certificate(&g, &order, None, &bogus).is_err());
}

#[test]
fn rule_used_both_positively_and_in_lookahead_is_not_lookahead_only() {
    let g = grammar(vec![
        ("r", seq(vec![rule_ref("dir"), quant(seq(vec![rule_ref("sep"), look(rule_ref("dir"), false), rule_ref("item")]), "*")])),
        ("dir", token("string", "in")),
        ("sep", token("string", ",")),
        ("item", token("string", "id")),
    ]);
    let order = names(&["r", "dir", "sep", "item"]);
    assert!(positively_reachable_rules(&g, &order).contains("dir"));
    assert!(detect_lookahead_only_rules(&g, &order).is_empty());
    let (proof, _) = gather_verified_proof_covered_rules(&g, &order);
    assert!(!proof.contains("dir"));
}

#[test]
fn detects_unbound_fact_kind_but_not_bound_one() {
    let mut ann = Annotations::new();
    ann.semantic_annotations.insert("producer".into(), vec![emit_fact_ann("type_name")]);
    ann.semantic_annotations.insert("good".into(), vec![predicate_ann(call("has_fact", vec![ident("type_name"), ident("head")]))]);
    ann.semantic_annotations.insert("bad".into(), vec![predicate_ann(call("has_fact", vec![ident("nonexistent_kind"), ident("head")]))]);
    let issues = detect_unbound_fact_kinds(&ann);
    assert!(
        issues.iter().any(|i| matches!(i,
            WellformednessIssue::UnboundFactKind { rule, kind, .. }
            if rule == "bad" && kind == "nonexistent_kind")),
        "must flag the consulted-but-never-emitted fact-kind: {issues:?}"
    );
    assert!(!issues.iter().any(|i| matches!(i, WellformednessIssue::UnboundFactKind { kind, .. } if kind == "type_name")));
}

#[test]
fn unbound_fact_kind_skips_dynamic_kinds_and_finds_branch_emitters() {
    let mut ann = Annotations::new();
    ann.branch_semantic_annotations.insert("producer".into(), vec![vec![emit_fact_ann("class_name")]]);
    ann.semantic_annotations.insert(
        "consumer".into(),
        vec![
            predicate_ann(call("has_fact", vec![ident("class_name"), ident("head")])),
            predicate_ann(call("has_fact", vec![arg("$k"), ident("head")])),
        ],
    );
    let issues = detect_unbound_fact_kinds(&ann);
    assert!(issues.is_empty(), "branch-level emitter must satisfy the consult; dynamic kind must be skipped: {issues:?}");
}

#[test]
fn detects_profile_orphan_dangling_under_profile() {
    let g = grammar(vec![("base", rule_ref("variant")), ("variant", token("string", "=="))]);
    let order = names(&["base", "variant"]);
    let mut profiles: StrMap<Vec<String>> = StrMap::new();
    profiles.insert("variant".into(), vec!["sv_2023".into()]);
    let all = names(&["sv_2017", "sv_2023"]);
    let issues = detect_profile_orphans(&g, &order, &profiles, &all);
    assert!(
        issues.iter().any(|i| matches!(i, WellformednessIssue::ProfileOrphan { rule, profile, suggested_profiles }
            if rule == "base" && profile == "sv_2017" && suggested_profiles == &vec!["sv_2023".to_string()])),
        "{issues:?}"
    );
    assert!(!issues.iter().any(|i| matches!(i, WellformednessIssue::ProfileOrphan { profile, .. } if profile == "sv_2023")));
}

#[test]
fn derive_rule_profiles_computes_satisfiable_set_per_rule() {
    let g = grammar(vec![("base", rule_ref("variant")), ("variant", token("string", "==")), ("universal", token("string", "x"))]);
    let order = names(&["base", "variant", "universal"]);
    let mut profiles: StrMap<Vec<String>> = StrMap::new();
    profiles.insert("variant".into(), vec!["sv_2023".into()]);
    let all = names(&["sv_2017", "sv_2023"]);
    let derived = derive_rule_profiles(&g, &order, &profiles, &all);
    assert_eq!(derived.get("variant"), Some(&vec!["sv_2023".to_string()]));
    assert_eq!(derived.get("base"), Some(&vec!["sv_2023".to_string()]));
    assert_eq!(derived.get("universal"), Some(&vec!["sv_2017".to_string(), "sv_2023".to_string()]));
}

#[test]
fn detects_unreachable_rule_but_respects_multi_entry_roots() {
    let g = grammar(vec![
        ("entry", rule_ref("main_body")),
        ("main_body", token("string", "x")),
        ("multi_entry", rule_ref("alt_entry")),
        ("alt_entry", token("string", "y")),
        ("dead_a", rule_ref("dead_b")),
        ("dead_b", rule_ref("dead_a")),
    ]);
    let order = names(&["entry", "main_body", "multi_entry", "alt_entry", "dead_a", "dead_b"]);
    let issues = detect_unreachable_rules(&g, &order);
    for dead in ["dead_a", "dead_b"] {
        assert!(
            issues.iter().any(|i| matches!(i, WellformednessIssue::UnreachableRule { rule } if rule == dead)),
            "{dead} must be flagged unreachable (dead island): {issues:?}"
        );
    }
    for keep in ["entry", "main_body", "multi_entry", "alt_entry"] {
        assert!(
            !issues.iter().any(|i| matches!(i, WellformednessIssue::UnreachableRule { rule } if rule == keep)),
            "{keep} must NOT be flagged (reachable or a root): {issues:?}"
        );
    }
}

#[test]
fn detects_undefined_reference_fires_on_missing_rule() {
    let g = grammar(vec![
        ("program", quant(rule_ref("item"), "+")),
        ("item", seq(vec![token("string", "("), rule_ref("word"), token("string", ")")])),
    ]);
    let order = names(&["program", "item"]);
    let issues = detect_undefined_references(&g, &order);
    assert_eq!(issues.len(), 1, "exactly the one undefined ref: {issues:?}");
    assert!(issues.iter().any(|i| matches!(
        i,
        WellformednessIssue::UndefinedReference { rule, referenced }
            if rule == "item" && referenced == "word"
    )));
}

#[test]
fn detects_undefined_reference_silent_when_all_defined() {
    let g = grammar(vec![("program", rule_ref("item")), ("item", token("string", "x"))]);
    let order = names(&["program", "item"]);
    let issues = detect_undefined_references(&g, &order);
    assert!(issues.is_empty(), "no undefined refs → no issues: {issues:?}");
}

#[test]
fn detects_undefined_reference_silent_on_native_builtins() {
    let natives = native_unresolved_reference_builtins();
    let mut elements: Vec<ASTNode> = natives.iter().map(|n| rule_ref(n)).collect();
    elements.push(token("string", "x"));
    let g = grammar(vec![("program", seq(elements))]);
    let order = names(&["program"]);
    let issues = detect_undefined_references(&g, &order);
    assert!(issues.is_empty(), "native builtins must never be flagged: {issues:?}");
}

#[test]
fn star_guarded_profile_reference_is_not_an_orphan() {
    let g = grammar(vec![
        ("base", seq(vec![token("string", "x"), quant(rule_ref("variant"), "*")])),
        ("variant", token("string", "==")),
    ]);
    let order = names(&["base", "variant"]);
    let mut profiles: StrMap<Vec<String>> = StrMap::new();
    profiles.insert("variant".into(), vec!["sv_2023".into()]);
    let all = names(&["sv_2017", "sv_2023"]);
    let issues = detect_profile_orphans(&g, &order, &profiles, &all);
    assert!(!issues.iter().any(|i| matches!(i, WellformednessIssue::ProfileOrphan { rule, .. } if rule == "base")));
}

#[test]
fn detects_direct_left_recursion() {
    let g = grammar(vec![
        ("expr", or(vec![seq(vec![rule_ref("expr"), token("op", "+"), rule_ref("term")]), rule_ref("term")])),
        ("term", token("string", "n")),
    ]);
    let order = names(&["expr", "term"]);
    let issues = detect_left_recursion(&g, &order);
    assert!(issues.iter().any(|i| matches!(i, WellformednessIssue::LeftRecursive { rule, .. } if rule == "expr")));
    assert!(!issues.iter().any(|i| matches!(i, WellformednessIssue::LeftRecursive { rule, .. } if rule == "term")));
}

#[test]
fn detects_indirect_left_recursion() {
    let g = grammar(vec![
        ("a", rule_ref("b")),
        ("b", or(vec![seq(vec![rule_ref("a"), token("string", "z")]), token("string", "w")])),
    ]);
    let order = names(&["a", "b"]);
    let issues = detect_left_recursion(&g, &order);
    assert!(!issues.is_empty(), "indirect a->b->a left recursion must be detected: {issues:?}");
}

#[test]
fn detects_left_recursion_through_nullable_prefix() {
    let g = grammar(vec![
        ("a", or(vec![seq(vec![rule_ref("opt"), rule_ref("a")]), token("string", "x")])),
        ("opt", quant(token("string", "p"), "?")),
    ]);
    let order = names(&["a", "opt"]);
    let issues = detect_left_recursion(&g, &order);
    assert!(issues.iter().any(|i| matches!(i, WellformednessIssue::LeftRecursive { rule, .. } if rule == "a")));
}

#[test]
fn no_false_positive_on_well_formed_grammar() {
    let g = grammar(vec![
        ("expr", seq(vec![rule_ref("term"), quant(seq(vec![rule_ref("op"), rule_ref("term")]), "*")])),
        ("term", token("string", "n")),
        ("op", token("op", "+")),
    ]);
    let order = names(&["expr", "term", "op"]);
    let issues = detect_left_recursion(&g, &order);
    assert!(issues.is_empty(), "the iterative idiom must NOT be flagged: {issues:?}");
}

#[test]
fn non_left_recursive_chain_is_clean() {
    let g = grammar(vec![
        ("a", seq(vec![token("string", "k"), rule_ref("b")])),
        ("b", seq(vec![token("string", "m"), rule_ref("a")])),
    ]);
    let order = names(&["a", "b"]);
    let issues = detect_left_recursion(&g, &order);
    assert!(issues.is_empty(), "a consuming prefix breaks left recursion: {issues:?}");
}

#[test]
fn detects_nonterminating_rule_but_not_left_recursion_with_base() {
    let g = grammar(vec![
        ("bad", seq(vec![rule_ref("bad"), token("string", "z")])),
        ("lr", or(vec![seq(vec![rule_ref("lr"), token("op", "+"), rule_ref("t")]), rule_ref("t")])),
        ("t", token("string", "n")),
    ]);
    let order = names(&["bad", "lr", "t"]);
    let nonterm = detect_nonterminating_rules(&g, &order);
    assert!(nonterm.iter().any(|i| matches!(i, WellformednessIssue::NonTerminating { rule } if rule == "bad")));
    assert!(!nonterm.iter().any(|i| matches!(i, WellformednessIssue::NonTerminating { rule } if rule == "lr" || rule == "t")));
}

#[test]
fn reference_to_undefined_include_rule_is_not_nonterminating() {
    let g = grammar(vec![("annotation_list", quant(rule_ref("semantic_annotation"), "+"))]);
    let order = names(&["annotation_list"]);
    let nonterm = detect_nonterminating_rules(&g, &order);
    assert!(nonterm.is_empty(), "{nonterm:?}");
}

#[test]
fn detects_duplicate_alternative() {
    let g = grammar(vec![("r", or(vec![token("string", "a"), token("string", "a")]))]);
    let order = names(&["r"]);
    let issues = detect_ordered_choice_shadowing(&g, &order, None);
    assert_eq!(issues.len(), 1, "exactly one shadowed alt: {issues:?}");
    assert_eq!(issues[0].shadowed_index, 1);
    assert_eq!(issues[0].by_index, 0);
    assert_eq!(issues[0].reason, ShadowingReason::DuplicateAlternative);
}

fn ann_with(rule: &str, directives: Vec<SemanticAnnotation>) -> Annotations {
    let mut ann = Annotations::new();
    ann.semantic_annotations.insert(rule.to_string(), directives);
    ann
}

fn policy_annotations(rule: &str, policy: BranchPolicy) -> Annotations {
    ann_with(rule, vec![SemanticAnnotation::BranchPolicy(policy)])
}

fn branch_phase_predicate_ann() -> SemanticAnnotation {
    SemanticAnnotation::Predicate { expr: call("has_fact", vec![ident("some_kind"), arg("$1")]), phase: PredicatePhase::Branch }
}

fn fixed_prefix_grammar() -> (Grammar, Vec<String>) {
    (grammar(vec![("r", or(vec![token("string", "a"), seq(vec![token("string", "a"), token("string", "b")])]))]), names(&["r"]))
}

fn duplicate_twin_grammar() -> (Grammar, Vec<String>) {
    (grammar(vec![("r", or(vec![token("string", "a"), token("string", "a")]))]), names(&["r"]))
}

#[test]
fn fixed_terminal_prefix_is_not_a_verdict_under_default_longest_match() {
    let (g, order) = fixed_prefix_grammar();
    let issues = detect_ordered_choice_shadowing(&g, &order, None);
    assert!(issues.is_empty(), "{:?}", issues);
    for policy in [BranchPolicy::LongestMatch, BranchPolicy::PriorityFirst] {
        let ann = policy_annotations("r", policy);
        let issues = detect_ordered_choice_shadowing(&g, &order, Some(&ann));
        assert!(issues.is_empty(), "{:?}", issues);
    }
}

#[test]
fn detects_fixed_terminal_prefix_shadowing_under_ordered_policy() {
    let (g, order) = fixed_prefix_grammar();
    let ann = policy_annotations("r", BranchPolicy::Ordered);
    let issues = detect_ordered_choice_shadowing(&g, &order, Some(&ann));
    assert_eq!(issues.len(), 1, "ordered-policy a|ab must flag `ab`: {issues:?}");
    assert_eq!(issues[0].shadowed_index, 1);
    assert_eq!(issues[0].reason, ShadowingReason::FixedTerminalPrefix);
    let m = issues[0].message();
    assert!(m.contains("@branch_policy is 'ordered'") && !m.contains("PEG commits"), "{m}");
}

#[test]
fn fixed_terminal_prefix_is_suppressed_by_branch_phase_predicates() {
    let (g, order) = fixed_prefix_grammar();
    let ann = ann_with("r", vec![SemanticAnnotation::BranchPolicy(BranchPolicy::Ordered), branch_phase_predicate_ann()]);
    let issues = detect_ordered_choice_shadowing(&g, &order, Some(&ann));
    assert!(issues.is_empty(), "{:?}", issues);
    let mut ann2 = policy_annotations("r", BranchPolicy::Ordered);
    ann2.branch_semantic_annotations.insert("r".into(), vec![vec![branch_phase_predicate_ann()], vec![]]);
    let issues2 = detect_ordered_choice_shadowing(&g, &order, Some(&ann2));
    assert!(issues2.is_empty(), "{:?}", issues2);
    let ann3 = ann_with(
        "r",
        vec![
            SemanticAnnotation::BranchPolicy(BranchPolicy::Ordered),
            predicate_ann(call("has_fact", vec![ident("some_kind"), ident("head")])),
        ],
    );
    let issues3 = detect_ordered_choice_shadowing(&g, &order, Some(&ann3));
    assert_eq!(issues3.len(), 1, "{:?}", issues3);
}

#[test]
fn duplicate_verdict_is_selection_semantics_aware() {
    let (g, order) = duplicate_twin_grammar();
    let right = ann_with("r", vec![SemanticAnnotation::Associativity(Associativity::Right)]);
    let issues = detect_ordered_choice_shadowing(&g, &order, Some(&right));
    assert!(issues.is_empty(), "{:?}", issues);
    let later_p = ann_with("r", vec![SemanticAnnotation::Priority(vec![0, 5])]);
    let issues = detect_ordered_choice_shadowing(&g, &order, Some(&later_p));
    assert!(issues.is_empty(), "{:?}", issues);
    let pf_later = ann_with(
        "r",
        vec![SemanticAnnotation::BranchPolicy(BranchPolicy::PriorityFirst), SemanticAnnotation::Priority(vec![0, 5])],
    );
    let issues = detect_ordered_choice_shadowing(&g, &order, Some(&pf_later));
    assert!(issues.is_empty(), "{:?}", issues);
    let partition = ann_with("r", vec![SemanticAnnotation::DeterministicGroup(true)]);
    let issues = detect_ordered_choice_shadowing(&g, &order, Some(&partition));
    assert!(issues.is_empty(), "{:?}", issues);
    for extra in [
        vec![SemanticAnnotation::Priority(vec![5, 0])],
        vec![SemanticAnnotation::Associativity(Associativity::Right), SemanticAnnotation::Priority(vec![5, 0])],
    ] {
        let label = format!("{extra:?}");
        let ann = ann_with("r", extra);
        let issues = detect_ordered_choice_shadowing(&g, &order, Some(&ann));
        assert_eq!(issues.len(), 1, "{:?}", issues);
        assert_eq!(issues[0].reason, ShadowingReason::DuplicateAlternative);
        assert_eq!(issues[0].shadowed_index, 1);
    }
    let ordered = ann_with(
        "r",
        vec![SemanticAnnotation::BranchPolicy(BranchPolicy::Ordered), SemanticAnnotation::Associativity(Associativity::Right)],
    );
    let issues = detect_ordered_choice_shadowing(&g, &order, Some(&ordered));
    assert_eq!(issues.len(), 1, "{:?}", issues);
    let pred = ann_with("r", vec![branch_phase_predicate_ann()]);
    let issues = detect_ordered_choice_shadowing(&g, &order, Some(&pred));
    assert!(issues.is_empty(), "{:?}", issues);
}

#[test]
fn duplicate_nonassoc_tie_is_its_own_truthful_verdict() {
    let (g, order) = duplicate_twin_grammar();
    let nonassoc = ann_with("r", vec![SemanticAnnotation::Associativity(Associativity::NonAssoc)]);
    let issues = detect_ordered_choice_shadowing(&g, &order, Some(&nonassoc));
    assert_eq!(issues.len(), 1, "{:?}", issues);
    assert_eq!(issues[0].reason, ShadowingReason::DuplicateAlternativeNonassocTie);
    let m = issues[0].message();
    assert!(m.contains("nonassoc") && m.contains("CHANGE acceptance"), "{m}");
    let later_p = ann_with(
        "r",
        vec![SemanticAnnotation::Associativity(Associativity::NonAssoc), SemanticAnnotation::Priority(vec![0, 5])],
    );
    let issues = detect_ordered_choice_shadowing(&g, &order, Some(&later_p));
    assert!(issues.is_empty(), "nonassoc + later-higher priority selects the later twin: {issues:?}");
    let earlier_p = ann_with(
        "r",
        vec![SemanticAnnotation::Associativity(Associativity::NonAssoc), SemanticAnnotation::Priority(vec![5, 0])],
    );
    let issues = detect_ordered_choice_shadowing(&g, &order, Some(&earlier_p));
    assert_eq!(issues.len(), 1, "{:?}", issues);
    assert_eq!(issues[0].reason, ShadowingReason::DuplicateAlternative);
}

#[test]
fn duplicate_certificates_are_selection_semantics_conditional() {
    let (g, _order) = duplicate_twin_grammar();
    let cert = UnreachabilityCertificate {
        rule: "r".into(),
        node_path: "root".into(),
        dead_index: 1,
        reason: UnreachabilityReason::DuplicateOf { by: 0 },
    };
    assert!(verify_unreachability_certificate(&g, None, &cert).is_ok());
    for (label, ann) in [
        ("right associativity", ann_with("r", vec![SemanticAnnotation::Associativity(Associativity::Right)])),
        ("later-higher priority", ann_with("r", vec![SemanticAnnotation::Priority(vec![0, 5])])),
        ("partition rotation", ann_with("r", vec![SemanticAnnotation::DeterministicGroup(true)])),
        ("branch-phase predicate", ann_with("r", vec![branch_phase_predicate_ann()])),
    ] {
        assert!(verify_unreachability_certificate(&g, Some(&ann), &cert).is_err(), "a duplicate certificate under {label} must be rejected");
    }
    for (label, ann) in [
        ("nonassoc tie", ann_with("r", vec![SemanticAnnotation::Associativity(Associativity::NonAssoc)])),
        (
            "ordered commit",
            ann_with(
                "r",
                vec![SemanticAnnotation::BranchPolicy(BranchPolicy::Ordered), SemanticAnnotation::Associativity(Associativity::Right)],
            ),
        ),
    ] {
        assert!(verify_unreachability_certificate(&g, Some(&ann), &cert).is_ok(), "a duplicate certificate under {label} genuinely holds");
    }
    let (pg, _porder) = fixed_prefix_grammar();
    let prefix_cert = UnreachabilityCertificate {
        rule: "r".into(),
        node_path: "root".into(),
        dead_index: 1,
        reason: UnreachabilityReason::FixedTerminalPrefixBy { by: 0 },
    };
    let ordered = policy_annotations("r", BranchPolicy::Ordered);
    assert!(verify_unreachability_certificate(&pg, Some(&ordered), &prefix_cert).is_ok());
    let rotated = ann_with("r", vec![SemanticAnnotation::BranchPolicy(BranchPolicy::Ordered), SemanticAnnotation::DeterministicGroup(true)]);
    assert!(verify_unreachability_certificate(&pg, Some(&rotated), &prefix_cert).is_err());
}

fn name_set(v: &[&str]) -> NameSet {
    let mut s = NameSet::new();
    for x in v {
        s.insert(x.to_string());
    }
    s
}

#[test]
fn g4_2_gatherers_compose_into_full_certification() {
    let g = grammar(vec![
        ("entry", rule_ref("keep")),
        ("keep", token("string", "k")),
        ("island", rule_ref("other")),
        ("other", rule_ref("island")),
    ]);
    let order = names(&["entry", "keep", "island", "other"]);
    let (proof_covered, pf) = gather_verified_proof_covered_rules(&g, &order);
    assert!(pf.is_empty(), "no proof should fail re-verify: {pf:?}");
    assert!(proof_covered.contains("island") && proof_covered.contains("other"));
    let witnesses = vec![
        ReachabilityWitness { fragment: "entry".into(), input: "k".into() },
        ReachabilityWitness { fragment: "keep".into(), input: "k".into() },
        ReachabilityWitness { fragment: "keep".into(), input: "BAD".into() },
    ];
    let parse_and_cover = |input: &str| -> (bool, NameSet) {
        if input == "k" {
            (true, name_set(&["entry", "keep"]))
        } else {
            (false, NameSet::new())
        }
    };
    let (witness_covered, wf) = gather_verified_witness_covered(&witnesses, &parse_and_cover);
    assert!(witness_covered.contains("entry") && witness_covered.contains("keep"));
    assert_eq!(wf.len(), 1, "the non-parsing witness must be a recorded failure: {wf:?}");
    let report = certificate_coverage(&order, &proof_covered, &witness_covered);
    assert!(report.is_fully_certified(), "all 4 rules proof- or witness-covered: {report:?}");
}

#[test]
fn certificate_coverage_classifies_proof_witness_unknown() {
    let fragments = names(&["a", "b", "c", "d"]);
    let proof = name_set(&["a"]);
    let witness = name_set(&["b", "c"]);
    let report = certificate_coverage(&fragments, &proof, &witness);
    assert_eq!(report.total, 4);
    assert_eq!(report.covered_by_proof, vec!["a".to_string()]);
    assert_eq!(report.covered_by_witness, vec!["b".to_string(), "c".to_string()]);
    assert_eq!(report.unknown, vec!["d".to_string()]);
    assert!(!report.is_fully_certified(), "an UNKNOWN fragment means NOT fully certified");
    let witness2 = name_set(&["b", "c", "d"]);
    let report2 = certificate_coverage(&fragments, &proof, &witness2);
    assert!(report2.unknown.is_empty() && report2.is_fully_certified());
}

#[test]
fn certificate_coverage_union_is_over_positively_covered_sets() {
    let canonical_fragments = names(&["base_rule", "profile_rule", "entry_only_rule"]);
    let canonical_witness = name_set(&["base_rule"]);
    let canonical_proof = NameSet::new();
    let canonical = certificate_coverage(&canonical_fragments, &canonical_proof, &canonical_witness);
    assert_eq!(canonical.unknown, vec!["profile_rule".to_string(), "entry_only_rule".to_string()]);
    let alt_witness = name_set(&["base_rule", "profile_rule"]);
    let witness_union = name_set(&["base_rule", "profile_rule"]);
    let proof_union = NameSet::new();
    let union = certificate_coverage(&canonical_fragments, &proof_union, &witness_union);
    assert_eq!(union.covered_by_witness, vec!["base_rule".to_string(), "profile_rule".to_string()]);
    assert_eq!(union.unknown, vec!["entry_only_rule".to_string()]);
    assert!(!union.is_fully_certified());
    let alt_fragments = names(&["base_rule", "profile_rule"]);
    let alt = certificate_coverage(&alt_fragments, &NameSet::new(), &alt_witness);
    assert!(alt.unknown.is_empty());
    assert!(!witness_union.contains("entry_only_rule") && !proof_union.contains("entry_only_rule"));
}

#[test]
fn parse_node_covered_rules_walks_the_ast() {
    let leaf = ParseNode { rule_name: "leaf".into(), content: ParseContent::Terminal("x".into()) };
    let inner = ParseNode { rule_name: "inner".into(), content: ParseContent::Sequence(vec![leaf]) };
    let root = ParseNode { rule_name: "root".into(), content: ParseContent::Alternative(Box::new(inner)) };
    let covered = parse_node_covered_rules(&root);
    assert!(covered.contains("root") && covered.contains("inner") && covered.contains("leaf"));
    let parse_and_cover = |_input: &str| (true, parse_node_covered_rules(&root));
    let w = ReachabilityWitness { fragment: "inner".into(), input: "x".into() };
    assert!(verify_reachability_witness(&parse_and_cover, &w).is_ok());
    let miss = ReachabilityWitness { fragment: "absent".into(), input: "x".into() };
    assert!(verify_reachability_witness(&parse_and_cover, &miss).is_err());
}

#[test]
fn reachability_witness_verifies_parses_and_covers_else_rejects() {
    let parse_and_cover = |input: &str| -> (bool, NameSet) {
        if input == "ab" {
            (true, name_set(&["entry", "branch_a"]))
        } else {
            (false, NameSet::new())
        }
    };
    let good = ReachabilityWitness { fragment: "branch_a".into(), input: "ab".into() };
    assert!(verify_reachability_witness(&parse_and_cover, &good).is_ok());
    let no_parse = ReachabilityWitness { fragment: "branch_a".into(), input: "zz".into() };
    assert!(verify_reachability_witness(&parse_and_cover, &no_parse).is_err());
    let wrong_fragment = ReachabilityWitness { fragment: "branch_b".into(), input: "ab".into() };
    assert!(verify_reachability_witness(&parse_and_cover, &wrong_fragment).is_err());
}

#[test]
fn unreachable_rule_certificate_verifies_and_rejects() {
    let g = grammar(vec![
        ("entry", rule_ref("keep")),
        ("keep", token("string", "k")),
        ("island", rule_ref("other")),
        ("other", rule_ref("island")),
    ]);
    let order = names(&["entry", "keep", "island", "other"]);
    let issues = detect_unreachable_rules(&g, &order);
    assert!(issues.iter().any(|i| matches!(i, WellformednessIssue::UnreachableRule { rule } if rule == "island")));
    let cert = WellformednessCertificate::UnreachableRule { rule: "island".into() };
    assert!(verify_wellformedness_certificate(&g, &order, None, &cert).is_ok());
    let bogus = WellformednessCertificate::UnreachableRule { rule: "keep".into() };
    assert!(verify_wellformedness_certificate(&g, &order, None, &bogus).is_err());
    let g2 = grammar(vec![("o", or(vec![token("string", "a"), token("string", "a")]))]);
    let order2 = names(&["o"]);
    let sh = detect_ordered_choice_shadowing(&g2, &order2, None);
    let wrapped = WellformednessCertificate::DeadAlternative(sh[0].certificate());
    assert!(verify_wellformedness_certificate(&g2, &order2, None, &wrapped).is_ok());
}

#[test]
fn unbound_fact_kind_certificate_verifies_and_rejects() {
    let mut ann = Annotations::new();
    ann.semantic_annotations.insert("producer".into(), vec![emit_fact_ann("type_name")]);
    ann.semantic_annotations.insert("bad".into(), vec![predicate_ann(call("has_fact", vec![ident("nonexistent_kind"), ident("head")]))]);
    let order: Vec<String> = vec![];
    let g: Grammar = StrMap::new();
    let cert = WellformednessCertificate::UnboundFactKind { rule: "bad".into(), kind: "nonexistent_kind".into() };
    assert!(verify_wellformedness_certificate(&g, &order, Some(&ann), &cert).is_ok());
    let bogus = WellformednessCertificate::UnboundFactKind { rule: "x".into(), kind: "type_name".into() };
    assert!(verify_wellformedness_certificate(&g, &order, Some(&ann), &bogus).is_err());
    assert!(verify_wellformedness_certificate(&g, &order, None, &cert).is_err());
}

#[test]
fn unreachability_certificates_verify_and_reject_tampering() {
    let g = grammar(vec![
        ("r", or(vec![token("string", "a"), token("string", "a")])),
        ("p", or(vec![token("string", "a"), seq(vec![token("string", "a"), token("string", "b")])])),
    ]);
    let order = names(&["r", "p"]);
    let ann = policy_annotations("p", BranchPolicy::Ordered);
    let issues = detect_ordered_choice_shadowing(&g, &order, Some(&ann));
    assert_eq!(issues.len(), 2, "expected the duplicate + the ordered fixed-prefix findings");
    for iss in &issues {
        let cert = iss.certificate();
        assert!(
            verify_unreachability_certificate(&g, Some(&ann), &cert).is_ok(),
            "valid certificate must verify: {cert:?} -> {:?}",
            verify_unreachability_certificate(&g, Some(&ann), &cert)
        );
    }
    let mut tampered = issues.iter().find(|i| i.rule == "r").unwrap().certificate();
    tampered.dead_index = 0;
    assert!(verify_unreachability_certificate(&g, Some(&ann), &tampered).is_err());
    let bogus = UnreachabilityCertificate {
        rule: "p".into(),
        node_path: "root".into(),
        dead_index: 1,
        reason: UnreachabilityReason::DuplicateOf { by: 0 },
    };
    assert!(verify_unreachability_certificate(&g, Some(&ann), &bogus).is_err());
    let bad_path = UnreachabilityCertificate {
        rule: "p".into(),
        node_path: "root/s9".into(),
        dead_index: 1,
        reason: UnreachabilityReason::FixedTerminalPrefixBy { by: 0 },
    };
    assert!(verify_unreachability_certificate(&g, Some(&ann), &bad_path).is_err());
    let stale = UnreachabilityCertificate {
        rule: "p".into(),
        node_path: "root".into(),
        dead_index: 1,
        reason: UnreachabilityReason::FixedTerminalPrefixBy { by: 0 },
    };
    assert!(verify_unreachability_certificate(&g, None, &stale).is_err());
    let lm = policy_annotations("p", BranchPolicy::LongestMatch);
    assert!(verify_unreachability_certificate(&g, Some(&lm), &stale).is_err());
    let blocked = ann_with("p", vec![SemanticAnnotation::BranchPolicy(BranchPolicy::Ordered), branch_phase_predicate_ann()]);
    assert!(verify_unreachability_certificate(&g, Some(&blocked), &stale).is_err());
}

#[test]
fn always_succeeds_is_a_non_verdict_note_not_a_shadowing_finding() {
    let g = grammar(vec![
        ("opt", or(vec![quant(token("string", "x"), "?"), token("string", "y")])),
        ("star", or(vec![quant(token("string", "z"), "*"), token("string", "w")])),
        ("allopt", or(vec![seq(vec![quant(token("string", "a"), "?"), quant(token("string", "b"), "?")]), token("string", "c")])),
        ("nref", or(vec![rule_ref("nullable_rule"), token("string", "d")])),
        ("nullable_rule", quant(token("string", "n"), "?")),
    ]);
    let order = names(&["opt", "star", "allopt", "nref", "nullable_rule"]);
    let shadow = detect_ordered_choice_shadowing(&g, &order, None);
    assert!(shadow.is_empty(), "{shadow:?}");
    let notes = detect_always_succeeds_alternatives(&g, &order);
    for rule in ["opt", "star", "allopt", "nref"] {
        assert!(
            notes.iter().any(|n| matches!(n,
                WellformednessIssue::AlwaysSucceedsAlternative { rule: r, always_index, .. }
                if r == rule && *always_index == 0)),
            "rule '{rule}' must carry an AlwaysSucceedsAlternative note on alt #0: {notes:?}"
        );
    }
    for n in &notes {
        let m = n.message();
        assert!(!m.contains("is unreachable") && !m.contains("PEG commits to"), "{:?}", m);
    }
}

#[test]
fn lookahead_earlier_branch_does_not_shadow() {
    let g = grammar(vec![
        ("pos", or(vec![look(token("string", "a"), true), token("string", "b")])),
        ("neg", or(vec![look(token("string", "a"), false), token("string", "a")])),
    ]);
    let order = names(&["pos", "neg"]);
    let issues = detect_ordered_choice_shadowing(&g, &order, None);
    assert!(issues.is_empty(), "{issues:?}");
    let notes = detect_always_succeeds_alternatives(&g, &order);
    assert!(notes.is_empty(), "{notes:?}");
}

#[test]
fn no_false_positive_distinct_or_longer_first() {
    let g = grammar(vec![
        ("distinct", or(vec![token("string", "a"), token("string", "b")])),
        ("longer_first", or(vec![seq(vec![token("string", "a"), token("string", "b")]), token("string", "a")])),
        ("rule_alts", or(vec![rule_ref("x"), rule_ref("y")])),
        ("x", token("string", "x")),
        ("y", token("string", "y")),
    ]);
    let order = names(&["distinct", "longer_first", "rule_alts", "x", "y"]);
    let issues = detect_ordered_choice_shadowing(&g, &order, None);
    assert!(issues.is_empty(), "{issues:?}");
    for rule in ["distinct", "longer_first", "rule_alts"] {
        let ann = policy_annotations(rule, BranchPolicy::Ordered);
        let issues = detect_ordered_choice_shadowing(&g, &order, Some(&ann));
        assert!(issues.is_empty(), "no ordered-policy false positives on '{rule}': {issues:?}");
    }
}

#[test]
fn detects_nullable_repetition() {
    let g = grammar(vec![("r", quant(rule_ref("nullable_body"), "*")), ("nullable_body", quant(token("string", "x"), "?"))]);
    let order = names(&["r", "nullable_body"]);
    let issues = detect_nullable_repetition(&g, &order);
    assert_eq!(issues.len(), 1, "{:?}", issues);
    assert!(matches!(&issues[0], WellformednessIssue::NullableRepetition { rule, .. } if rule == "r"), "{:?}", issues[0]);
}

#[test]
fn no_false_positive_nonnullable_or_bounded_repetition() {
    let g = grammar(vec![("r", quant(rule_ref("a"), "*")), ("s", quant(rule_ref("a"), "?")), ("a", token("string", "x"))]);
    let order = names(&["r", "s", "a"]);
    let issues = detect_nullable_repetition(&g, &order);
    assert!(issues.is_empty(), "{:?}", issues);
}

#[test]
fn shadowing_reports_nested_or_node_path() {
    let g = grammar(vec![("r", seq(vec![token("string", "p"), or(vec![token("string", "a"), token("string", "a")])]))]);
    let order = names(&["r"]);
    let issues = detect_ordered_choice_shadowing(&g, &order, None);
    assert_eq!(issues.len(), 1);
    assert_eq!(issues[0].node_path, "root/s1", "path must locate the nested Or");
}

fn full_with(active: &Grammar, pruned: &[&str]) -> NameSet {
    let mut full = NameSet::new();
    for i in 0..active.len() {
        full.insert(active.key_at(i).clone());
    }
    for p in pruned {
        full.insert(p.to_string());
    }
    full
}

#[test]
fn p1_stranded_rule_is_not_live_and_second_entry_rescues_its_cohort() {
    let g = grammar(vec![
        ("entry", rule_ref("a")),
        ("a", token("string", "x")),
        ("stranded", token("string", "y")),
        ("lib_root", rule_ref("lib_item")),
        ("lib_item", token("string", "z")),
    ]);
    let order = names(&["entry", "a", "stranded", "lib_root", "lib_item"]);
    let full = full_with(&g, &["host"]);
    let no_dead = NameSet::new();
    let live = profile_entry_positively_live(&g, &order, &full, &names(&["entry"]), &no_dead);
    assert!(live.contains("entry") && live.contains("a"));
    assert!(!live.contains("stranded"), "an unreferenced stranded rule must NOT self-root");
    assert!(!live.contains("lib_item"), "another entry's cohort is not live under one entry");
    let live2 = profile_entry_positively_live(&g, &order, &full, &names(&["entry", "lib_root"]), &no_dead);
    assert!(live2.contains("lib_root") && live2.contains("lib_item"));
    assert!(!live2.contains("stranded"));
}

#[test]
fn p1_edges_are_satisfiability_honest_and_lookaheads_emit_none() {
    let g = grammar(vec![
        ("entry", or(vec![seq(vec![rule_ref("pruned"), rule_ref("target")]), rule_ref("b")])),
        ("target", token("string", "t")),
        ("b", seq(vec![look(rule_ref("target"), false), token("string", "b")])),
    ]);
    let order = names(&["entry", "target", "b"]);
    let full = full_with(&g, &["pruned"]);
    let live = profile_entry_positively_live(&g, &order, &full, &names(&["entry"]), &NameSet::new());
    assert!(live.contains("b"), "the satisfiable alternative stays live");
    assert!(!live.contains("target"), "no positive edge through an unsatisfiable alternative or a lookahead");
}

#[test]
fn p2_unproducible_gate_and_cascade_are_classified_and_escapes_stay_genuine() {
    let g = grammar(vec![
        (
            "entry",
            or(vec![rule_ref("use_site"), rule_ref("cascade"), rule_ref("escape"), rule_ref("negative"), rule_ref("plain")]),
        ),
        ("producer", token("string", "decl")),
        ("use_site", token("string", "id")),
        ("cascade", seq(vec![rule_ref("use_site"), token("string", "!")])),
        ("escape", or(vec![rule_ref("use_site"), token("string", "ok")])),
        ("negative", token("string", "id2")),
        ("plain", token("string", "p")),
    ]);
    let order = names(&["entry", "producer", "use_site", "cascade", "escape", "negative", "plain"]);
    let full = full_with(&g, &["pruned_host"]);
    let mut ann = Annotations::new();
    ann.semantic_annotations.insert("producer".into(), vec![emit_fact_ann("type_name")]);
    ann.semantic_annotations.insert("use_site".into(), vec![predicate_ann(call("has_fact", vec![ident("type_name"), ident("x")]))]);
    ann.semantic_annotations.insert("negative".into(), vec![predicate_ann(call("lacks_fact", vec![ident("type_name"), ident("x")]))]);
    let unknown = names(&["producer", "use_site", "cascade", "escape", "negative", "plain"]);
    let c = classify_profile_residual(&g, &order, &full, &names(&["entry"]), Some(&ann), &unknown);
    assert!(!c.degraded_inert);
    assert_eq!(c.profile_entry_unreachable, vec!["producer".to_string()]);
    assert_eq!(
        c.store_unproducible,
        vec![
            ("use_site".to_string(), "gate kind 'type_name' unproducible".to_string()),
            ("cascade".to_string(), "mandatory descent forces 'use_site'".to_string()),
        ]
    );
    assert_eq!(c.genuine, vec!["escape".to_string(), "negative".to_string(), "plain".to_string()]);
}

#[test]
fn profile_proof_gathering_covers_p1_and_p2_and_checker_rejects_live_and_genuine_rules() {
    let g = grammar(vec![
        ("entry", or(vec![rule_ref("use_site"), rule_ref("escape"), rule_ref("plain")])),
        ("producer", token("string", "decl")),
        ("use_site", token("string", "id")),
        ("escape", or(vec![rule_ref("use_site"), token("string", "ok")])),
        ("plain", token("string", "p")),
    ]);
    let order = names(&["entry", "producer", "use_site", "escape", "plain"]);
    let full = full_with(&g, &["pruned_host"]);
    let mut ann = Annotations::new();
    ann.semantic_annotations.insert("producer".into(), vec![emit_fact_ann("type_name")]);
    ann.semantic_annotations.insert("use_site".into(), vec![predicate_ann(call("has_fact", vec![ident("type_name"), ident("x")]))]);
    let entries = vec!["entry".to_string()];
    let (covered, failures) = gather_verified_profile_proof_covered_rules(&g, &order, &full, &entries, Some(&ann), "test_profile");
    assert!(failures.is_empty(), "every proposed per-profile proof must re-verify: {failures:?}");
    assert!(covered.contains("producer"));
    assert!(covered.contains("use_site"));
    assert!(!covered.contains("escape") && !covered.contains("plain") && !covered.contains("entry"));
    let good_p1 = WellformednessCertificate::ProfileEntryUnreachable {
        rule: "producer".into(),
        profile: "test_profile".into(),
        entries: entries.clone(),
    };
    assert!(verify_profile_certificate(&g, &order, &full, &entries, Some(&ann), &good_p1).is_ok());
    let bad_p1 = WellformednessCertificate::ProfileEntryUnreachable {
        rule: "plain".into(),
        profile: "test_profile".into(),
        entries: entries.clone(),
    };
    assert!(verify_profile_certificate(&g, &order, &full, &entries, Some(&ann), &bad_p1).is_err());
    let mismatched = WellformednessCertificate::ProfileEntryUnreachable {
        rule: "producer".into(),
        profile: "test_profile".into(),
        entries: names(&["entry", "other"]),
    };
    assert!(verify_profile_certificate(&g, &order, &full, &entries, Some(&ann), &mismatched).is_err());
    let good_p2 = WellformednessCertificate::ProfileUnproducibleGate {
        rule: "use_site".into(),
        profile: "test_profile".into(),
        reason: "gate kind 'type_name' unproducible".into(),
    };
    assert!(verify_profile_certificate(&g, &order, &full, &entries, Some(&ann), &good_p2).is_ok());
    let bad_p2 = WellformednessCertificate::ProfileUnproducibleGate {
        rule: "plain".into(),
        profile: "test_profile".into(),
        reason: "irrelevant".into(),
    };
    assert!(verify_profile_certificate(&g, &order, &full, &entries, Some(&ann), &bad_p2).is_err());
    assert!(verify_wellformedness_certificate(&g, &order, Some(&ann), &good_p1).is_err());
}

fn live_emitter_grammar(entry: ASTNode) -> Grammar {
    grammar(vec![
        ("entry", entry),
        ("producer", token("string", "decl")),
        ("use_site", token("string", "id")),
        ("stranded", token("string", "s")),
    ])
}

#[test]
fn p2_live_emitter_keeps_gate_satisfiable_and_import_degrades_inert() {
    let g = live_emitter_grammar(or(vec![rule_ref("producer"), rule_ref("use_site")]));
    let order = names(&["entry", "producer", "use_site", "stranded"]);
    let full = full_with(&g, &["pruned_host"]);
    let mut ann = Annotations::new();
    ann.semantic_annotations.insert("producer".into(), vec![emit_fact_ann("type_name")]);
    ann.semantic_annotations.insert("use_site".into(), vec![predicate_ann(call("has_fact", vec![ident("type_name"), ident("x")]))]);
    let unknown = names(&["use_site", "stranded"]);
    let c = classify_profile_residual(&g, &order, &full, &names(&["entry"]), Some(&ann), &unknown);
    assert!(!c.degraded_inert);
    assert!(c.store_unproducible.is_empty(), "{:?}", c);
    assert_eq!(c.genuine, vec!["use_site".to_string()]);
    assert_eq!(c.profile_entry_unreachable, vec!["stranded".to_string()]);
    let g2 = live_emitter_grammar(rule_ref("use_site"));
    let mut ann2 = Annotations::new();
    ann2.semantic_annotations.insert("producer".into(), vec![emit_fact_ann("type_name")]);
    ann2.semantic_annotations.insert(
        "use_site".into(),
        vec![
            predicate_ann(call("has_fact", vec![ident("type_name"), ident("x")])),
            SemanticAnnotation::ImportFromLibrary { kind: "package".into(), package: String::new(), name_from: "$1".into() },
        ],
    );
    let unknown2 = names(&["use_site"]);
    let c2 = classify_profile_residual(&g2, &order, &full, &names(&["entry"]), Some(&ann2), &unknown2);
    assert!(c2.degraded_inert, "a live @import_from_library must degrade P2 to inert");
    assert!(c2.store_unproducible.is_empty(), "no store claim under degradation: {c2:?}");
    assert_eq!(c2.genuine, vec!["use_site".to_string()]);
}

#[test]
fn p2_or_required_kinds_intersect_and_count_gate_needs_literal_min_one() {
    let g = grammar(vec![
        ("entry", or(vec![rule_ref("either"), rule_ref("counted"), rule_ref("emit_b")])),
        ("either", token("string", "e")),
        ("counted", token("string", "c")),
        ("emit_b", token("string", "b")),
    ]);
    let order = names(&["entry", "either", "counted", "emit_b"]);
    let full = full_with(&g, &[]);
    let mut ann = Annotations::new();
    ann.semantic_annotations.insert("emit_b".into(), vec![emit_fact_ann("b")]);
    ann.semantic_annotations.insert(
        "either".into(),
        vec![predicate_ann(PredicateExpr::Or(
            Box::new(call("has_fact", vec![ident("a"), ident("x")])),
            Box::new(call("has_fact", vec![ident("b"), ident("x")])),
        ))],
    );
    ann.semantic_annotations.insert("counted".into(), vec![predicate_ann(call("fact_count_at_least", vec![ident("a"), arg("$n")]))]);
    let unknown = names(&["either", "counted"]);
    let c = classify_profile_residual(&g, &order, &full, &names(&["entry"]), Some(&ann), &unknown);
    assert!(c.store_unproducible.is_empty(), "an Or-escape kind and a dynamic count must claim nothing: {c:?}");
    assert_eq!(c.genuine, vec!["either".to_string(), "counted".to_string()]);
    let mut ann2 = Annotations::new();
    ann2.semantic_annotations.insert("emit_b".into(), vec![emit_fact_ann("b")]);
    ann2.semantic_annotations.insert(
        "either".into(),
        vec![predicate_ann(PredicateExpr::And(
            Box::new(call("has_fact", vec![ident("a"), ident("x")])),
            Box::new(call("has_fact", vec![ident("b"), ident("x")])),
        ))],
    );
    let unknown2 = names(&["either"]);
    let c2 = classify_profile_residual(&g, &order, &full, &names(&["entry"]), Some(&ann2), &unknown2);
    assert_eq!(c2.store_unproducible, vec![("either".to_string(), "gate kind 'a' unproducible".to_string())]);
}

#[test]
fn p2_stranding_through_a_store_dead_rule_is_reported() {
    let g = grammar(vec![("entry", rule_ref("use_site")), ("use_site", rule_ref("inner")), ("inner", token("string", "i"))]);
    let order = names(&["entry", "use_site", "inner"]);
    let full = full_with(&g, &[]);
    let mut ann = Annotations::new();
    ann.semantic_annotations.insert("use_site".into(), vec![predicate_ann(call("has_fact", vec![ident("type_name"), ident("x")]))]);
    let unknown = names(&["use_site", "inner"]);
    let c = classify_profile_residual(&g, &order, &full, &names(&["entry"]), Some(&ann), &unknown);
    assert_eq!(
        c.store_unproducible,
        vec![
            ("use_site".to_string(), "gate kind 'type_name' unproducible".to_string()),
            ("inner".to_string(), "stranded by the store fixpoint".to_string()),
        ]
    );
    assert!(c.genuine.is_empty());
}

#[test]
fn left_recursion_cycles_follow_the_sorted_depth_first_search() {
    let g = grammar(vec![
        ("c", seq(vec![rule_ref("a"), token("string", "y")])),
        ("b", or(vec![rule_ref("c"), seq(vec![rule_ref("a"), token("string", "x")])])),
        ("a", or(vec![rule_ref("c"), rule_ref("b")])),
    ]);
    let order = names(&["a", "b", "c"]);
    let issues = detect_left_recursion(&g, &order);
    let cycles: Vec<(String, Vec<String>)> = issues
        .iter()
        .filter_map(|i| match i {
            WellformednessIssue::LeftRecursive { rule, cycle } => Some((rule.clone(), cycle.clone())),
            _ => None,
        })
        .collect();
    assert_eq!(
        cycles,
        vec![
            ("a".to_string(), names(&["a", "b", "a"])),
            ("b".to_string(), names(&["b", "a", "b"])),
            ("c".to_string(), names(&["c", "a", "b", "c"])),
        ]
    );
}
