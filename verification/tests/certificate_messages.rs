use pgen_grammar::annotations::{Annotations, SemanticAnnotation};
use pgen_grammar::ast::{ASTNode, ASTValue, TokenValue};
use pgen_grammar::certificates::{
    ReachabilityWitness, WellformednessCertificate, gather_verified_witness_covered, judge_witness,
    verify_wellformedness_certificate,
};
use pgen_grammar::names::{NameSet, StrMap};
use pgen_grammar::profile_proof::{gather_verified_profile_proof_covered_rules, verify_profile_certificate};
use pgen_grammar::shadowing::{UnreachabilityCertificate, UnreachabilityReason, verify_unreachability_certificate};
use pgen_grammar::wellformed::Grammar;

fn rref(name: &str) -> ASTNode {
    ASTNode::Atom { value: ASTValue::Token(vec![TokenValue::String("rule_reference".into()), TokenValue::String(name.into())]) }
}

fn lit(value: &str) -> ASTNode {
    ASTNode::Atom { value: ASTValue::Token(vec![TokenValue::String("string".into()), TokenValue::String(value.into())]) }
}

fn grammar(rules: Vec<(&str, ASTNode)>) -> Grammar {
    let mut g = StrMap::new();
    for (name, body) in rules {
        g.insert(name.to_string(), body);
    }
    g
}

fn names(v: &[&str]) -> Vec<String> {
    v.iter().map(|s| s.to_string()).collect()
}

fn name_set(v: &[&str]) -> NameSet {
    let mut s = NameSet::new();
    for x in v {
        s.insert(x.to_string());
    }
    s
}

fn cert(rule: &str, path: &str, dead: usize, reason: UnreachabilityReason) -> UnreachabilityCertificate {
    UnreachabilityCertificate { rule: rule.into(), node_path: path.into(), dead_index: dead, reason }
}

fn choice() -> Grammar {
    grammar(vec![("r", ASTNode::Or { alternatives: vec![lit("a"), lit("b")] }), ("s", lit("x"))])
}

fn refusal(g: &Grammar, c: &UnreachabilityCertificate) -> String {
    verify_unreachability_certificate(g, None, c).expect_err("refused")
}

#[test]
fn shadowing_certificate_refusals_name_the_failed_check() {
    let g = choice();
    let dup = |by| UnreachabilityReason::DuplicateOf { by };
    assert_eq!(refusal(&g, &cert("nope", "root", 1, dup(0))), "certificate cites unknown rule 'nope'");
    assert_eq!(refusal(&g, &cert("r", "root/o7", 1, dup(0))), "certificate path 'root/o7' does not resolve in rule 'r'");
    assert_eq!(refusal(&g, &cert("s", "root", 1, dup(0))), "certificate path 'root' is not an ordered choice");
    assert_eq!(
        refusal(&g, &cert("r", "root", 1, dup(1))),
        "certificate shadower #1 is not earlier than the dead alternative #1"
    );
    assert_eq!(refusal(&g, &cert("r", "root", 9, dup(4))), "certificate shadower index #4 out of range");
    assert_eq!(refusal(&g, &cert("r", "root", 9, dup(0))), "certificate dead index #9 out of range");
    assert_eq!(
        refusal(&g, &cert("r", "root", 1, dup(0))),
        "certificate for rule 'r' at 'root' does NOT hold: alternative #0 does not shadow #1 (DuplicateOf { by: 0 })"
    );
    assert_eq!(
        refusal(&g, &cert("r", "root", 1, UnreachabilityReason::FixedTerminalPrefixBy { by: 0 })),
        "certificate for rule 'r' at 'root' does NOT hold: alternative #0 does not shadow #1 (FixedTerminalPrefixBy { by: 0 })"
    );
}

#[test]
fn generic_certificate_refusals_report_what_was_re_derived() {
    let g = grammar(vec![
        ("entry", ASTNode::Sequence { elements: vec![rref("a"), ASTNode::Lookahead { element: Box::new(rref("peek")), positive: true }] }),
        ("a", lit("x")),
        ("peek", lit("y")),
    ]);
    let order = names(&["entry", "a", "peek"]);
    let check = |c: WellformednessCertificate, ann: Option<&Annotations>| {
        verify_wellformedness_certificate(&g, &order, ann, &c).expect_err("refused")
    };
    assert_eq!(
        check(WellformednessCertificate::UnreachableRule { rule: "a".into() }, None),
        "certificate claims rule 'a' UNREACHABLE, but it IS reachable from a root"
    );
    assert_eq!(
        check(WellformednessCertificate::UnboundFactKind { rule: "a".into(), kind: "k".into() }, None),
        "unbound-fact certificate for rule 'a' kind 'k' needs the annotations to re-check"
    );
    assert_eq!(
        check(WellformednessCertificate::ProfileOrphan { rule: "a".into(), profile: "p".into() }, None),
        "profile-orphan certificate for rule 'a' under 'p' needs the annotations to re-check"
    );
    assert_eq!(
        check(WellformednessCertificate::LookaheadOnlyRule { rule: "a".into() }, None),
        "certificate claims rule 'a' is LOOKAHEAD-ONLY (positively-unreachable), but reachable=true positively_reachable=true (not a lookahead-only rule)"
    );
    assert!(verify_wellformedness_certificate(&g, &order, None, &WellformednessCertificate::LookaheadOnlyRule { rule: "peek".into() }).is_ok());
    assert_eq!(
        check(WellformednessCertificate::ProfileEntryUnreachable { rule: "a".into(), profile: "p".into(), entries: vec![] }, None),
        "profile certificate for rule 'a' must be re-verified through `verify_profile_certificate` (it needs the pre-filter rule set + the declared entry universe, which this generic verifier does not carry)"
    );
    let mut ann = Annotations::new();
    ann.semantic_annotations.insert("a".into(), vec![SemanticAnnotation::Profiles(names(&["p"]))]);
    assert_eq!(
        check(WellformednessCertificate::ProfileOrphan { rule: "a".into(), profile: "p".into() }, Some(&ann)),
        "certificate claims 'a' is a @profiles orphan under 'p', but present=true sat_here=true sat_elsewhere=false (not a profile orphan)"
    );
    assert_eq!(
        check(WellformednessCertificate::ProfileOrphan { rule: "a".into(), profile: "q".into() }, Some(&ann)),
        "certificate claims 'a' is a @profiles orphan under 'q', but present=false sat_here=false sat_elsewhere=true (not a profile orphan)"
    );
}

#[test]
fn profile_certificate_refusals_quote_the_entry_universes() {
    let g = grammar(vec![("entry", rref("a")), ("a", lit("x"))]);
    let order = names(&["entry", "a"]);
    let full = name_set(&["entry", "a"]);
    let entries = names(&["entry"]);
    let check = |c: WellformednessCertificate| verify_profile_certificate(&g, &order, &full, &entries, None, &c).expect_err("refused");
    assert_eq!(
        check(WellformednessCertificate::ProfileEntryUnreachable { rule: "gone".into(), profile: "p".into(), entries: entries.clone() }),
        "profile-entry-unreachable certificate cites rule 'gone' absent from the active (profile-filtered) tree"
    );
    assert_eq!(
        check(WellformednessCertificate::ProfileEntryUnreachable { rule: "a".into(), profile: "p".into(), entries: names(&["x\"y", "z"]) }),
        "profile-entry-unreachable certificate for 'a' carries entry universe [\"x\\\"y\", \"z\"] but the run's universe is [\"entry\"]"
    );
    assert_eq!(
        check(WellformednessCertificate::ProfileEntryUnreachable { rule: "a".into(), profile: "p".into(), entries: entries.clone() }),
        "certificate claims 'a' is PROFILE-ENTRY-UNREACHABLE, but it IS positively reachable from the declared entry universe"
    );
    assert_eq!(
        check(WellformednessCertificate::ProfileUnproducibleGate { rule: "a".into(), profile: "p".into(), reason: "r".into() }),
        "certificate claims 'a' is STORE-UNPRODUCIBLE under the profile, but the re-derived classification does not place it there (degraded_inert=false)"
    );
    let (covered, failures) = gather_verified_profile_proof_covered_rules(&g, &names(&["entry", "a", "ghost"]), &full, &entries, None, "p");
    assert!(covered.is_empty());
    assert_eq!(
        failures,
        names(&["profile-entry-unreachable proof for 'ghost' failed re-verify: profile-entry-unreachable certificate cites rule 'ghost' absent from the active (profile-filtered) tree"])
    );
}

#[test]
fn witness_failures_carry_their_rejection() {
    let w = ReachabilityWitness { fragment: "f".into(), input: "i".into() };
    assert_eq!(judge_witness(false, &NameSet::new(), &w), Err("reachability witness for 'f' does NOT parse — not a valid witness".to_string()));
    assert_eq!(
        judge_witness(true, &name_set(&["g"]), &w),
        Err("reachability witness for 'f' parses but does NOT exercise that fragment".to_string())
    );
    assert_eq!(judge_witness(true, &name_set(&["f"]), &w), Ok(()));
    let witnesses = vec![
        ReachabilityWitness { fragment: "a".into(), input: "ok".into() },
        ReachabilityWitness { fragment: "b".into(), input: "bad".into() },
        ReachabilityWitness { fragment: "c".into(), input: "ok".into() },
    ];
    let parse_and_cover = |input: &str| -> (bool, NameSet) {
        if input == "ok" { (true, name_set(&["a"])) } else { (false, NameSet::new()) }
    };
    let (covered, failures) = gather_verified_witness_covered(&witnesses, &parse_and_cover);
    assert!(covered.contains("a") && !covered.contains("b") && !covered.contains("c"));
    assert_eq!(
        failures,
        names(&[
            "reachability witness for 'b' does NOT parse — not a valid witness",
            "reachability witness for 'c' parses but does NOT exercise that fragment",
        ])
    );
}
