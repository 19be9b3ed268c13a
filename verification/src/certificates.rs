//! The certifying linter: a certificate for every decidable unreachability judged, an
//! independent checker that re-derives each claim from the grammar, reachability witnesses, and
//! the coverage report that joins proofs and witnesses.
use vstd::prelude::*;
use crate::annotations::{Annotations, ann_opt, rule_level};
use crate::ast::ASTNode;
use crate::facts::{collect_emitted_fact_kinds, emitted_kinds, extract_profile_context, last_profiles, profile_universe};
use crate::fixpoint::{ProfileMap, pview};
use crate::names::{NameSet, StrMap, str_eq, strs_view};
use crate::shadowing::{
    UnreachabilityCertificate, cert_path_ok, text3, unreachability_holds, unreachability_refusal, verify_unreachability_certificate,
};
use crate::wellformed::{
    Grammar, IssueView, WellformednessIssue, detect_lookahead_only_rules, detect_unreachable_rules, issues_view,
    positively_reachable_rules, positively_reachable_spec, present_under, reachable_rules, reachable_spec,
    rule_present_under_profile, sat_rules, sat_under_profile,
};

verus! {

/// A certificate for a decidable unreachability judged; each variant carries what the checker
/// needs to re-derive the claim from the grammar.
#[derive(Debug, Clone, PartialEq, Eq)]
pub enum WellformednessCertificate {
    /// An ordered-choice alternative is dead.
    DeadAlternative(UnreachabilityCertificate),
    /// A rule is unreachable from every root.
    UnreachableRule { rule: String },
    /// A predicate of `rule` consults a fact `kind` that no `@emit_fact` establishes.
    UnboundFactKind { rule: String, kind: String },
    /// `rule` is present under `profile` but not satisfiable there.
    ProfileOrphan { rule: String, profile: String },
    /// `rule` is reachable, but only through lookaheads: it is never positively entered.
    LookaheadOnlyRule { rule: String },
    /// Under `profile`, `rule` survives the profile filter but is not positively reachable from
    /// any entry of `entries` (checked by `verify_profile_certificate`).
    ProfileEntryUnreachable { rule: String, profile: String, entries: Vec<String> },
    /// Under `profile`, `rule` is dead by the unproducible-store-gate fixpoint (checked by
    /// `verify_profile_certificate`).
    ProfileUnproducibleGate { rule: String, profile: String, reason: String },
}

/// The `@profiles` map the annotations declare: each rule's last non-empty rule-level list.
pub open spec fn profile_map_of(a: Annotations) -> ProfileMap {
    Map::new(
        |r: Seq<char>| a.semantic_annotations@.dom().contains(r) && last_profiles(rule_level(a, r)) is Some,
        |r: Seq<char>| last_profiles(rule_level(a, r))->0,
    )
}

/// Whether `rule` counts as satisfiable under `profile` for the orphan check: only the profiles of
/// the universe are analysed, so a profile outside it counts as not satisfiable.
pub open spec fn sat_in_universe(
    g: Map<Seq<char>, ASTNode>,
    ord: Seq<Seq<char>>,
    rp: ProfileMap,
    universe: Set<Seq<char>>,
    rule: Seq<char>,
    profile: Seq<char>,
) -> bool {
    universe.contains(profile) && sat_rules(g, ord, rp, profile).contains(rule)
}

/// `rule` is satisfiable under some profile of the universe other than `profile`.
pub open spec fn sat_elsewhere(
    g: Map<Seq<char>, ASTNode>,
    ord: Seq<Seq<char>>,
    rp: ProfileMap,
    universe: Set<Seq<char>>,
    rule: Seq<char>,
    profile: Seq<char>,
) -> bool {
    exists|q: Seq<char>| universe.contains(q) && q != profile && #[trigger] sat_rules(g, ord, rp, q).contains(rule)
}

/// `rule` is present under `profile`, not satisfiable there, but satisfiable under another
/// profile of the universe.
pub open spec fn orphan_holds(
    g: Map<Seq<char>, ASTNode>,
    ord: Seq<Seq<char>>,
    rp: ProfileMap,
    universe: Set<Seq<char>>,
    rule: Seq<char>,
    profile: Seq<char>,
) -> bool {
    &&& present_under(rp, profile, rule)
    &&& !sat_in_universe(g, ord, rp, universe, rule, profile)
    &&& sat_elsewhere(g, ord, rp, universe, rule, profile)
}

/// The claim of a certificate, re-derived from the grammar (and the annotations where the claim
/// is about them). The per-profile variants are not decided here.
pub open spec fn certificate_holds(
    g: Map<Seq<char>, ASTNode>,
    ord: Seq<Seq<char>>,
    a: Option<Annotations>,
    c: WellformednessCertificate,
) -> bool {
    match c {
        WellformednessCertificate::DeadAlternative(u) => unreachability_holds(g, a, u),
        WellformednessCertificate::UnreachableRule { rule } => g.dom().contains(rule@) && !reachable_spec(g, ord).contains(rule@),
        WellformednessCertificate::UnboundFactKind { kind, .. } => match a {
            Some(ann) => !emitted_kinds(ann).contains(kind@),
            None => false,
        },
        WellformednessCertificate::ProfileOrphan { rule, profile } => match a {
            Some(ann) => g.dom().contains(rule@) && orphan_holds(
                g,
                ord,
                profile_map_of(ann),
                profile_universe(ann),
                rule@,
                profile@,
            ),
            None => false,
        },
        WellformednessCertificate::LookaheadOnlyRule { rule } => g.dom().contains(rule@) && reachable_spec(g, ord).contains(rule@)
            && !positively_reachable_spec(g, ord).contains(rule@),
        _ => false,
    }
}

/// The certificate can be checked without faulting.
pub open spec fn certificate_checkable(g: Map<Seq<char>, ASTNode>, c: WellformednessCertificate) -> bool {
    match c {
        WellformednessCertificate::DeadAlternative(u) => cert_path_ok(g, u),
        _ => true,
    }
}

/// `true` or `false`, as a report prints a flag.
pub open spec fn bool_text(b: bool) -> Seq<char> {
    if b {
        "true"@
    } else {
        "false"@
    }
}

pub(crate) fn push_bool(m: &mut String, b: bool)
    ensures
        final(m)@ == old(m)@ + bool_text(b),
{
    if b {
        m.append("true");
    } else {
        m.append("false");
    }
}

/// `certificate cites unknown rule '<rule>'`.
pub open spec fn unknown_rule_text(rule: Seq<char>) -> Seq<char> {
    "certificate cites unknown rule '"@ + rule + "'"@
}

/// Why the checker refuses a certificate whose claim does not hold: the first check it fails.
pub open spec fn certificate_refusal(
    g: Map<Seq<char>, ASTNode>,
    ord: Seq<Seq<char>>,
    a: Option<Annotations>,
    c: WellformednessCertificate,
) -> Seq<char> {
    match c {
        WellformednessCertificate::DeadAlternative(u) => unreachability_refusal(g, u),
        WellformednessCertificate::UnreachableRule { rule } => if !g.dom().contains(rule@) {
            unknown_rule_text(rule@)
        } else {
            "certificate claims rule '"@ + rule@ + "' UNREACHABLE, but it IS reachable from a root"@
        },
        WellformednessCertificate::UnboundFactKind { rule, kind } => match a {
            None => "unbound-fact certificate for rule '"@ + rule@ + "' kind '"@ + kind@ + "' needs the annotations to re-check"@,
            Some(_) => "certificate claims fact-kind '"@ + kind@ + "' (consulted in '"@ + rule@
                + "') is unemitted, but an @emit_fact DOES emit it"@,
        },
        WellformednessCertificate::ProfileOrphan { rule, profile } => match a {
            None => "profile-orphan certificate for rule '"@ + rule@ + "' under '"@ + profile@ + "' needs the annotations to re-check"@,
            Some(ann) => if !g.dom().contains(rule@) {
                unknown_rule_text(rule@)
            } else {
                let rp = profile_map_of(ann);
                let u = profile_universe(ann);
                "certificate claims '"@ + rule@ + "' is a @profiles orphan under '"@ + profile@ + "', but present="@ + bool_text(
                    present_under(rp, profile@, rule@),
                ) + " sat_here="@ + bool_text(sat_in_universe(g, ord, rp, u, rule@, profile@)) + " sat_elsewhere="@ + bool_text(
                    sat_elsewhere(g, ord, rp, u, rule@, profile@),
                ) + " (not a profile orphan)"@
            },
        },
        WellformednessCertificate::LookaheadOnlyRule { rule } => if !g.dom().contains(rule@) {
            unknown_rule_text(rule@)
        } else {
            "certificate claims rule '"@ + rule@ + "' is LOOKAHEAD-ONLY (positively-unreachable), but reachable="@ + bool_text(
                reachable_spec(g, ord).contains(rule@),
            ) + " positively_reachable="@ + bool_text(positively_reachable_spec(g, ord).contains(rule@))
                + " (not a lookahead-only rule)"@
        },
        WellformednessCertificate::ProfileEntryUnreachable { rule, .. } => profile_only_text(rule@),
        WellformednessCertificate::ProfileUnproducibleGate { rule, .. } => profile_only_text(rule@),
    }
}

/// The refusal of a per-profile certificate by the generic checker.
pub open spec fn profile_only_text(rule: Seq<char>) -> Seq<char> {
    "profile certificate for rule '"@ + rule
        + "' must be re-verified through `verify_profile_certificate` (it needs the pre-filter rule set + the declared entry universe, which this generic verifier does not carry)"@
}

/// How the generic checker dispatches: a dead-alternative certificate is judged, and refused,
/// exactly as the shadowing checker judges it; the per-profile certificates never hold here; the
/// claims about annotations never hold without them.
pub proof fn lemma_certificate_dispatch(
    g: Map<Seq<char>, ASTNode>,
    ord: Seq<Seq<char>>,
    a: Option<Annotations>,
    c: WellformednessCertificate,
)
    ensures
        c matches WellformednessCertificate::DeadAlternative(u) ==> certificate_holds(g, ord, a, c) == unreachability_holds(g, a, u)
            && certificate_refusal(g, ord, a, c) == unreachability_refusal(g, u),
        c is ProfileEntryUnreachable || c is ProfileUnproducibleGate ==> !certificate_holds(g, ord, a, c),
        (c is UnboundFactKind || c is ProfileOrphan) && a is None ==> !certificate_holds(g, ord, a, c),
{
}

/// Re-check any certificate against the grammar, independently of the detectors. `annotations`
/// is needed for the claims about annotations (unbound fact kinds, profile orphans). The
/// per-profile variants are refused here: they need the pre-filter rule set and the entry
/// universe, which `verify_profile_certificate` takes.
pub fn verify_wellformedness_certificate(
    grammar: &Grammar,
    rule_order: &[String],
    annotations: Option<&Annotations>,
    cert: &WellformednessCertificate,
) -> (r: Result<(), String>)
    requires
        certificate_checkable(grammar@, *cert),
    ensures
        match r {
            Ok(_) => certificate_holds(grammar@, strs_view(rule_order@), ann_opt(annotations), *cert),
            Err(m) => !certificate_holds(grammar@, strs_view(rule_order@), ann_opt(annotations), *cert) && m@ == certificate_refusal(
                grammar@,
                strs_view(rule_order@),
                ann_opt(annotations),
                *cert,
            ),
        },
{
    match cert {
        WellformednessCertificate::DeadAlternative(c) => verify_unreachability_certificate(grammar, annotations, c),
        WellformednessCertificate::UnreachableRule { rule } => {
            if !grammar.contains_key(rule.as_str()) {
                return Err(text3("certificate cites unknown rule '", rule.as_str(), "'"));
            }
            if reachable_rules(grammar, rule_order).contains(rule.as_str()) {
                Err(text3("certificate claims rule '", rule.as_str(), "' UNREACHABLE, but it IS reachable from a root"))
            } else {
                Ok(())
            }
        },
        WellformednessCertificate::UnboundFactKind { rule, kind } => {
            let ann = match annotations {
                Some(a) => a,
                None => {
                    let mut m = text3("unbound-fact certificate for rule '", rule.as_str(), "' kind '");
                    m.append(kind.as_str());
                    m.append("' needs the annotations to re-check");
                    return Err(m);
                },
            };
            if collect_emitted_fact_kinds(ann).contains(kind.as_str()) {
                let mut m = text3("certificate claims fact-kind '", kind.as_str(), "' (consulted in '");
                m.append(rule.as_str());
                m.append("') is unemitted, but an @emit_fact DOES emit it");
                Err(m)
            } else {
                Ok(())
            }
        },
        WellformednessCertificate::ProfileOrphan { rule, profile } => {
            let ann = match annotations {
                Some(a) => a,
                None => {
                    let mut m = text3("profile-orphan certificate for rule '", rule.as_str(), "' under '");
                    m.append(profile.as_str());
                    m.append("' needs the annotations to re-check");
                    return Err(m);
                },
            };
            if !grammar.contains_key(rule.as_str()) {
                return Err(text3("certificate cites unknown rule '", rule.as_str(), "'"));
            }
            let (rule_profiles, all_profiles) = extract_profile_context(ann);
            proof {
                assert(pview(rule_profiles@) =~= profile_map_of(*ann));
            }
            let ghost g = grammar@;
            let ghost ord = strs_view(rule_order@);
            let ghost rp = profile_map_of(*ann);
            let ghost aps = strs_view(all_profiles@);
            let ghost u = profile_universe(*ann);
            proof {
                assert(aps.to_set() == u);
            }
            let present = rule_present_under_profile(rule.as_str(), &rule_profiles, profile.as_str());
            let mut elsewhere = false;
            let mut sat_here = false;
            let mut i: usize = 0;
            while i < all_profiles.len()
                invariant
                    g == grammar@,
                    ord == strs_view(rule_order@),
                    rp == pview(rule_profiles@),
                    aps == strs_view(all_profiles@),
                    i <= all_profiles@.len(),
                    elsewhere == exists|j: int| 0 <= j < i && aps[j] != profile@ && #[trigger] sat_rules(g, ord, rp, aps[j]).contains(rule@),
                    sat_here == exists|j: int| 0 <= j < i && aps[j] == profile@ && #[trigger] sat_rules(g, ord, rp, aps[j]).contains(rule@),
                decreases all_profiles@.len() - i,
            {
                let q = &all_profiles[i];
                proof {
                    assert(aps[i as int] == q@);
                }
                let sat_q = sat_under_profile(grammar, rule_order, &rule_profiles, q.as_str()).contains(rule.as_str());
                if str_eq(q.as_str(), profile.as_str()) {
                    if sat_q {
                        sat_here = true;
                    }
                } else if sat_q {
                    elsewhere = true;
                }
                i = i + 1;
            }
            proof {
                if elsewhere {
                    let j = choose|j: int| 0 <= j < all_profiles@.len() && aps[j] != profile@ && #[trigger] sat_rules(g, ord, rp, aps[j]).contains(rule@);
                    assert(aps.to_set().contains(aps[j]));
                }
                if sat_elsewhere(g, ord, rp, u, rule@, profile@) {
                    let q = choose|q: Seq<char>| u.contains(q) && q != profile@ && #[trigger] sat_rules(g, ord, rp, q).contains(rule@);
                    assert(aps.to_set().contains(q));
                    let j = choose|j: int| 0 <= j < aps.len() && aps[j] == q;
                    assert(sat_rules(g, ord, rp, aps[j]).contains(rule@));
                }
                if sat_here {
                    let j = choose|j: int| 0 <= j < all_profiles@.len() && aps[j] == profile@ && #[trigger] sat_rules(g, ord, rp, aps[j]).contains(rule@);
                    assert(aps.to_set().contains(aps[j]));
                }
                if sat_in_universe(g, ord, rp, u, rule@, profile@) {
                    assert(aps.to_set().contains(profile@));
                    let j = choose|j: int| 0 <= j < aps.len() && aps[j] == profile@;
                    assert(sat_rules(g, ord, rp, aps[j]).contains(rule@));
                }
                assert(sat_here == sat_in_universe(g, ord, rp, u, rule@, profile@));
                assert(elsewhere == sat_elsewhere(g, ord, rp, u, rule@, profile@));
            }
            if present && !sat_here && elsewhere {
                Ok(())
            } else {
                let mut m = text3("certificate claims '", rule.as_str(), "' is a @profiles orphan under '");
                m.append(profile.as_str());
                m.append("', but present=");
                push_bool(&mut m, present);
                m.append(" sat_here=");
                push_bool(&mut m, sat_here);
                m.append(" sat_elsewhere=");
                push_bool(&mut m, elsewhere);
                m.append(" (not a profile orphan)");
                Err(m)
            }
        },
        WellformednessCertificate::LookaheadOnlyRule { rule } => {
            if !grammar.contains_key(rule.as_str()) {
                return Err(text3("certificate cites unknown rule '", rule.as_str(), "'"));
            }
            let reachable = reachable_rules(grammar, rule_order).contains(rule.as_str());
            let positively = positively_reachable_rules(grammar, rule_order).contains(rule.as_str());
            if reachable && !positively {
                Ok(())
            } else {
                let mut m = text3("certificate claims rule '", rule.as_str(), "' is LOOKAHEAD-ONLY (positively-unreachable), but reachable=");
                push_bool(&mut m, reachable);
                m.append(" positively_reachable=");
                push_bool(&mut m, positively);
                m.append(" (not a lookahead-only rule)");
                Err(m)
            }
        },
        WellformednessCertificate::ProfileEntryUnreachable { rule, .. } | WellformednessCertificate::ProfileUnproducibleGate {
            rule,
            ..
        } => Err(
            text3(
                "profile certificate for rule '",
                rule.as_str(),
                "' must be re-verified through `verify_profile_certificate` (it needs the pre-filter rule set + the declared entry universe, which this generic verifier does not carry)",
            ),
        ),
    }
}

// ---------------------------------------------------------------------------------------------
// Reachability witnesses
// ---------------------------------------------------------------------------------------------

/// A reachability witness: an input that, parsed, exercises `fragment` (a rule, or a branch such
/// as `rule#2`).
#[derive(Debug, Clone, PartialEq, Eq)]
pub struct ReachabilityWitness {
    pub fragment: String,
    pub input: String,
}

/// The judgement of a replayed witness: `None` when the input parsed and the parse exercised the
/// fragment, otherwise the message that rejects it.
pub open spec fn witness_judgement(parsed: bool, covered: Set<Seq<char>>, fragment: Seq<char>) -> Option<Seq<char>> {
    if !parsed {
        Some("reachability witness for '"@ + fragment + "' does NOT parse — not a valid witness"@)
    } else if !covered.contains(fragment) {
        Some("reachability witness for '"@ + fragment + "' parses but does NOT exercise that fragment"@)
    } else {
        None
    }
}

/// The outcome `r` as a judgement: `None` for `Ok`, the message for `Err`.
pub open spec fn judgement_of(r: Result<(), String>) -> Option<Seq<char>> {
    match r {
        Ok(_) => None,
        Err(m) => Some(m@),
    }
}

/// Judge a replayed witness: it holds when the input parsed and the parse exercised the fragment.
pub fn judge_witness(parsed: bool, covered: &NameSet, witness: &ReachabilityWitness) -> (r: Result<(), String>)
    ensures
        judgement_of(r) == witness_judgement(parsed, covered@, witness.fragment@),
{
    if !parsed {
        return Err(text3("reachability witness for '", witness.fragment.as_str(), "' does NOT parse — not a valid witness"));
    }
    if !covered.contains(witness.fragment.as_str()) {
        return Err(text3("reachability witness for '", witness.fragment.as_str(), "' parses but does NOT exercise that fragment"));
    }
    Ok(())
}

/// The replay of `w` through `f` could have returned an outcome that `w` is judged by as `v`.
pub open spec fn replay_judged<F: Fn(&str) -> (bool, NameSet)>(f: F, w: ReachabilityWitness, v: Option<Seq<char>>) -> bool {
    exists|s: &str, out: (bool, NameSet)| #[trigger] f.ensures((s,), out) && s@ == w.input@ && v == witness_judgement(
        out.0,
        out.1@,
        w.fragment@,
    )
}

/// Re-check a reachability witness by replaying its input through `parse_and_cover` (the
/// grammar's real parser, which reports whether the input parsed and which fragments it
/// exercised). The outcome is decided by what the replay returned.
pub fn verify_reachability_witness<F>(parse_and_cover: &F, witness: &ReachabilityWitness) -> (r: Result<(), String>) where
    F: Fn(&str) -> (bool, NameSet),

    requires
        forall|s: &str| #[trigger] parse_and_cover.requires((s,)),
    ensures
        replay_judged(*parse_and_cover, *witness, judgement_of(r)),
{
    let input = witness.input.as_str();
    let out = parse_and_cover(input);
    let r = judge_witness(out.0, &out.1, witness);
    proof {
        assert(parse_and_cover.ensures((input,), out));
    }
    r
}

/// The outcome of gathering: `v[i]` is the judgement of witness `i`, the covered fragments are
/// those of the witnesses judged good, and the failures are the messages of the others, in order.
pub open spec fn gathered<F: Fn(&str) -> (bool, NameSet)>(
    f: F,
    ws: Seq<ReachabilityWitness>,
    covered: Set<Seq<char>>,
    failures: Seq<Seq<char>>,
    v: Seq<Option<Seq<char>>>,
) -> bool {
    &&& v.len() == ws.len()
    &&& forall|i: int| 0 <= i < v.len() ==> replay_judged(f, ws[i], #[trigger] v[i])
    &&& forall|x: Seq<char>| #[trigger] covered.contains(x) <==> exists|i: int| 0 <= i < v.len() && v[i] is None && ws[i].fragment@ == x
    &&& failures == v.filter(|o: Option<Seq<char>>| o is Some).map_values(|o: Option<Seq<char>>| o->0)
}

/// The fragments covered by a verified witness (each replayed through `parse_and_cover` and
/// confirmed); each witness that fails its replay adds its rejection message to the failures and
/// is not counted.
pub fn gather_verified_witness_covered<F>(witnesses: &[ReachabilityWitness], parse_and_cover: &F) -> (r: (NameSet, Vec<String>)) where
    F: Fn(&str) -> (bool, NameSet),

    requires
        forall|s: &str| #[trigger] parse_and_cover.requires((s,)),
    ensures
        exists|v: Seq<Option<Seq<char>>>| #[trigger] gathered(*parse_and_cover, witnesses@, r.0@, strs_view(r.1@), v),
{
    let mut covered = NameSet::new();
    let mut failures: Vec<String> = Vec::new();
    let ghost mut v: Seq<Option<Seq<char>>> = Seq::empty();
    let ghost bad = |o: Option<Seq<char>>| o is Some;
    let ghost msg = |o: Option<Seq<char>>| o->0;
    let mut i: usize = 0;
    while i < witnesses.len()
        invariant
            forall|s: &str| #[trigger] parse_and_cover.requires((s,)),
            bad == (|o: Option<Seq<char>>| o is Some),
            msg == (|o: Option<Seq<char>>| o->0),
            i <= witnesses@.len(),
            v.len() == i,
            forall|j: int| 0 <= j < i ==> replay_judged(*parse_and_cover, witnesses@[j], #[trigger] v[j]),
            forall|x: Seq<char>| #[trigger] covered@.contains(x) <==> exists|j: int| 0 <= j < i && v[j] is None && witnesses@[j].fragment@ == x,
            strs_view(failures@) == v.filter(bad).map_values(msg),
        decreases witnesses@.len() - i,
    {
        let w = &witnesses[i];
        let res = verify_reachability_witness(parse_and_cover, w);
        let ghost judged = judgement_of(res);
        let ghost old_v = v;
        let ghost cov_before = covered@;
        let ghost fail_before = failures@;
        proof {
            v.lemma_filter_push(judged, bad);
            v = v.push(judged);
            assert(replay_judged(*parse_and_cover, witnesses@[i as int], v[i as int]));
        }
        match res {
            Ok(()) => {
                covered.insert(w.fragment.clone());
            },
            Err(e) => {
                failures.push(e);
                proof {
                    assert(strs_view(failures@) =~= strs_view(fail_before).push(e@));
                    assert(old_v.filter(bad).push(judged).map_values(msg) =~= old_v.filter(bad).map_values(msg).push(e@));
                }
            },
        }
        proof {
            assert(covered@ == if judged is None { cov_before.insert(w.fragment@) } else { cov_before });
            assert forall|x: Seq<char>| #[trigger] covered@.contains(x) <==> exists|j: int| 0 <= j < i + 1 && v[j] is None && witnesses@[j].fragment@ == x by {
                if exists|j: int| 0 <= j < i + 1 && v[j] is None && witnesses@[j].fragment@ == x {
                    let j = choose|j: int| 0 <= j < i + 1 && v[j] is None && witnesses@[j].fragment@ == x;
                    if j < i {
                        assert(old_v[j] == v[j]);
                        assert(cov_before.contains(x));
                    }
                }
                if cov_before.contains(x) {
                    let j = choose|j: int| 0 <= j < i && old_v[j] is None && witnesses@[j].fragment@ == x;
                    assert(v[j] == old_v[j]);
                }
                if judged is None && x == w.fragment@ {
                    assert(v[i as int] is None);
                }
            }
            assert forall|j: int| 0 <= j < i + 1 implies replay_judged(*parse_and_cover, witnesses@[j], #[trigger] v[j]) by {
                if j < i {
                    assert(v[j] == old_v[j]);
                }
            }
        }
        i = i + 1;
    }
    proof {
        assert(bad =~= (|o: Option<Seq<char>>| o is Some));
        assert(msg =~= (|o: Option<Seq<char>>| o->0));
        assert(gathered(*parse_and_cover, witnesses@, covered@, strs_view(failures@), v));
    }
    let r = (covered, failures);
    proof {
        assert(gathered(*parse_and_cover, witnesses@, r.0@, strs_view(r.1@), v));
    }
    r
}

// ---------------------------------------------------------------------------------------------
// Coverage
// ---------------------------------------------------------------------------------------------

/// For every fragment: covered by a verified proof, by a verified witness, or neither (unknown).
#[derive(Debug, Clone, PartialEq, Eq)]
pub struct CertificateCoverageReport {
    pub total: usize,
    pub covered_by_proof: Vec<String>,
    pub covered_by_witness: Vec<String>,
    /// Fragments with no verified proof and no verified witness.
    pub unknown: Vec<String>,
}

impl CertificateCoverageReport {
    /// Fully certified: no fragment is unknown.
    pub fn is_fully_certified(&self) -> (r: bool)
        ensures
            r == (self.unknown@.len() == 0),
    {
        self.unknown.len() == 0
    }
}

/// Covered by a verified proof.
pub open spec fn by_proof(proof: Set<Seq<char>>) -> spec_fn(Seq<char>) -> bool {
    |f: Seq<char>| proof.contains(f)
}

/// Not covered by a proof, covered by a verified witness.
pub open spec fn by_witness(proof: Set<Seq<char>>, witness: Set<Seq<char>>) -> spec_fn(Seq<char>) -> bool {
    |f: Seq<char>| !proof.contains(f) && witness.contains(f)
}

/// Covered by neither.
pub open spec fn not_covered(proof: Set<Seq<char>>, witness: Set<Seq<char>>) -> spec_fn(Seq<char>) -> bool {
    |f: Seq<char>| !proof.contains(f) && !witness.contains(f)
}

/// Every fragment is counted once: covered by a proof, by a witness, or unknown.
pub proof fn lemma_coverage_partitions(fr: Seq<Seq<char>>, proof: Set<Seq<char>>, witness: Set<Seq<char>>)
    ensures
        fr.filter(by_proof(proof)).len() + fr.filter(by_witness(proof, witness)).len() + fr.filter(not_covered(proof, witness)).len()
            == fr.len(),
    decreases fr.len(),
{
    if fr.len() > 0 {
        let s = fr.drop_last();
        lemma_coverage_partitions(s, proof, witness);
        assert(s.push(fr.last()) =~= fr);
        s.lemma_filter_push(fr.last(), by_proof(proof));
        s.lemma_filter_push(fr.last(), by_witness(proof, witness));
        s.lemma_filter_push(fr.last(), not_covered(proof, witness));
    }
}

/// Classify each fragment of `all_fragments`, in order: proof first, then witness, else unknown.
pub fn certificate_coverage(all_fragments: &[String], proof_covered: &NameSet, witness_covered: &NameSet) -> (r: CertificateCoverageReport)
    ensures
        r.total == all_fragments@.len(),
        strs_view(r.covered_by_proof@) == strs_view(all_fragments@).filter(by_proof(proof_covered@)),
        strs_view(r.covered_by_witness@) == strs_view(all_fragments@).filter(by_witness(proof_covered@, witness_covered@)),
        strs_view(r.unknown@) == strs_view(all_fragments@).filter(not_covered(proof_covered@, witness_covered@)),
{
    let ghost fr = strs_view(all_fragments@);
    let ghost p1 = by_proof(proof_covered@);
    let ghost p2 = by_witness(proof_covered@, witness_covered@);
    let ghost p3 = not_covered(proof_covered@, witness_covered@);
    let mut proof_list: Vec<String> = Vec::new();
    let mut witness_list: Vec<String> = Vec::new();
    let mut unknown: Vec<String> = Vec::new();
    let mut i: usize = 0;
    while i < all_fragments.len()
        invariant
            fr == strs_view(all_fragments@),
            p1 == by_proof(proof_covered@),
            p2 == by_witness(proof_covered@, witness_covered@),
            p3 == not_covered(proof_covered@, witness_covered@),
            i <= all_fragments@.len(),
            strs_view(proof_list@) == fr.take(i as int).filter(p1),
            strs_view(witness_list@) == fr.take(i as int).filter(p2),
            strs_view(unknown@) == fr.take(i as int).filter(p3),
        decreases all_fragments@.len() - i,
    {
        let f = &all_fragments[i];
        proof {
            assert(fr.take(i + 1) =~= fr.take(i as int).push(f@));
            fr.take(i as int).lemma_filter_push(f@, p1);
            fr.take(i as int).lemma_filter_push(f@, p2);
            fr.take(i as int).lemma_filter_push(f@, p3);
        }
        if proof_covered.contains(f.as_str()) {
            let ghost before = proof_list@;
            proof_list.push(f.clone());
            proof {
                assert(strs_view(proof_list@) =~= strs_view(before).push(f@));
            }
        } else if witness_covered.contains(f.as_str()) {
            let ghost before = witness_list@;
            witness_list.push(f.clone());
            proof {
                assert(strs_view(witness_list@) =~= strs_view(before).push(f@));
            }
        } else {
            let ghost before = unknown@;
            unknown.push(f.clone());
            proof {
                assert(strs_view(unknown@) =~= strs_view(before).push(f@));
            }
        }
        i = i + 1;
    }
    proof {
        assert(fr.take(fr.len() as int) =~= fr);
    }
    CertificateCoverageReport {
        total: all_fragments.len(),
        covered_by_proof: proof_list,
        covered_by_witness: witness_list,
        unknown,
    }
}

/// The rules a whole-rule proof covers: the structurally unreachable ones and the lookahead-only
/// ones.
pub open spec fn proof_covered_spec(g: Map<Seq<char>, ASTNode>, ord: Seq<Seq<char>>) -> Set<Seq<char>> {
    Set::new(
        |x: Seq<char>|
            ord.contains(x) && g.dom().contains(x) && (!reachable_spec(g, ord).contains(x) || !positively_reachable_spec(
                g,
                ord,
            ).contains(x)),
    )
}

/// The rules covered by a verified whole-rule proof: each flagged by a detector (unreachable or
/// lookahead-only) and re-confirmed by `verify_wellformedness_certificate`. Every such proof
/// re-verifies, so the failure list is empty.
pub fn gather_verified_proof_covered_rules(grammar: &Grammar, rule_order: &[String]) -> (r: (NameSet, Vec<String>))
    ensures
        r.0@ == proof_covered_spec(grammar@, strs_view(rule_order@)),
        r.1@.len() == 0,
{
    let ghost g = grammar@;
    let ghost ord = strs_view(rule_order@);
    let mut covered = NameSet::new();
    let mut failures: Vec<String> = Vec::new();
    let unreachable = detect_unreachable_rules(grammar, rule_order);
    let ghost up = |x: Seq<char>| g.dom().contains(x) && !reachable_spec(g, ord).contains(x);
    let ghost uf = ord.filter(up);
    proof {
        assert(issues_view(unreachable@) == uf.map_values(|r: Seq<char>| IssueView::UnreachableRule(r)));
        assert(issues_view(unreachable@).len() == unreachable@.len());
    }
    let mut i: usize = 0;
    while i < unreachable.len()
        invariant
            g == grammar@,
            ord == strs_view(rule_order@),
            uf == ord.filter(up),
            up == (|x: Seq<char>| g.dom().contains(x) && !reachable_spec(g, ord).contains(x)),
            issues_view(unreachable@) == uf.map_values(|r: Seq<char>| IssueView::UnreachableRule(r)),
            i <= unreachable@.len(),
            failures@.len() == 0,
            covered@ == uf.take(i as int).to_set(),
        decreases unreachable@.len() - i,
    {
        proof {
            let f = |r: Seq<char>| IssueView::UnreachableRule(r);
            assert(issues_view(unreachable@)[i as int] == unreachable@[i as int]@);
            assert(uf.map_values(f).len() == uf.len());
            assert(uf.map_values(f)[i as int] == f(uf[i as int]));
            assert(unreachable@[i as int]@ == IssueView::UnreachableRule(uf[i as int]));
        }
        match &unreachable[i] {
            WellformednessIssue::UnreachableRule { rule } => {
                proof {
                    assert(uf[i as int] == rule@);
                    ord.lemma_filter_pred(up, i as int);
                    assert(up(uf[i as int]));
                }
                let cert = WellformednessCertificate::UnreachableRule { rule: rule.clone() };
                match verify_wellformedness_certificate(grammar, rule_order, None, &cert) {
                    Ok(()) => {
                        covered.insert(rule.clone());
                        proof {
                            assert(uf.take(i + 1) =~= uf.take(i as int).push(rule@));
                            crate::names::lemma_push_to_set_pub(uf.take(i as int), rule@);
                        }
                    },
                    Err(e) => {
                        proof {
                            assert(false);
                        }
                        failures.push(e);
                    },
                }
            },
            _ => {
                proof {
                    assert(false);
                }
            },
        }
        i = i + 1;
    }
    proof {
        assert(uf.take(uf.len() as int) =~= uf);
        assert(unreachable@.len() == uf.len());
    }
    let lookahead_only = detect_lookahead_only_rules(grammar, rule_order);
    let ghost lp = |x: Seq<char>| g.dom().contains(x) && reachable_spec(g, ord).contains(x) && !positively_reachable_spec(g, ord).contains(x);
    let ghost lf = ord.filter(lp);
    let ghost base = covered@;
    let mut k: usize = 0;
    while k < lookahead_only.len()
        invariant
            g == grammar@,
            ord == strs_view(rule_order@),
            lf == ord.filter(lp),
            lp == (|x: Seq<char>| g.dom().contains(x) && reachable_spec(g, ord).contains(x) && !positively_reachable_spec(g, ord).contains(x)),
            strs_view(lookahead_only@) == lf,
            k <= lookahead_only@.len(),
            failures@.len() == 0,
            covered@ == base + lf.take(k as int).to_set(),
        decreases lookahead_only@.len() - k,
    {
        let rule = &lookahead_only[k];
        proof {
            assert(lf[k as int] == rule@);
            ord.lemma_filter_pred(lp, k as int);
            assert(lp(lf[k as int]));
        }
        let cert = WellformednessCertificate::LookaheadOnlyRule { rule: rule.clone() };
        match verify_wellformedness_certificate(grammar, rule_order, None, &cert) {
            Ok(()) => {
                covered.insert(rule.clone());
                proof {
                    assert(lf.take(k + 1) =~= lf.take(k as int).push(rule@));
                    crate::names::lemma_push_to_set_pub(lf.take(k as int), rule@);
                    assert(covered@ =~= base + lf.take(k + 1).to_set());
                }
            },
            Err(e) => {
                proof {
                    assert(false);
                }
                failures.push(e);
            },
        }
        k = k + 1;
    }
    proof {
        assert(lf.take(lf.len() as int) =~= lf);
        assert forall|x: Seq<char>| #[trigger] covered@.contains(x) <==> proof_covered_spec(g, ord).contains(x) by {
            if uf.to_set().contains(x) {
                let j = choose|j: int| 0 <= j < uf.len() && uf[j] == x;
                ord.lemma_filter_pred(up, j);
                ord.lemma_filter_contains_rev(up, x);
                assert(ord.contains(x));
            }
            if lf.to_set().contains(x) {
                let j = choose|j: int| 0 <= j < lf.len() && lf[j] == x;
                ord.lemma_filter_pred(lp, j);
                ord.lemma_filter_contains_rev(lp, x);
                assert(ord.contains(x));
            }
            if proof_covered_spec(g, ord).contains(x) {
                let j = choose|j: int| 0 <= j < ord.len() && ord[j] == x;
                if !reachable_spec(g, ord).contains(x) {
                    assert(up(x));
                    ord.lemma_filter_contains(up, j);
                    assert(uf.contains(x));
                    assert(uf.to_set().contains(x));
                } else {
                    assert(lp(x));
                    ord.lemma_filter_contains(lp, j);
                    assert(lf.contains(x));
                    assert(lf.to_set().contains(x));
                }
            }
        }
        assert(covered@ =~= proof_covered_spec(g, ord));
    }
    (covered, failures)
}

// ---------------------------------------------------------------------------------------------
// Parse trees
// ---------------------------------------------------------------------------------------------

/// What a parse-tree node holds.
#[derive(Debug, PartialEq, Eq)]
pub enum ParseContent {
    Sequence(Vec<ParseNode>),
    Quantified(Vec<ParseNode>),
    Alternative(Box<ParseNode>),
    Terminal(String),
    TransformedTerminal(String),
    /// A subtree folded into a typed value by a return annotation; it has no child nodes.
    Shaped(String),
}

/// A node of a parse tree: the rule that produced it and what it holds.
#[derive(Debug, PartialEq, Eq)]
pub struct ParseNode {
    pub rule_name: String,
    pub content: ParseContent,
}

/// The rule names present in a parse tree.
pub open spec fn tree_rules(n: ParseNode) -> Set<Seq<char>>
    decreases n,
{
    set![n.rule_name@] + match n.content {
        ParseContent::Sequence(cs) => tree_rules_seq(cs@),
        ParseContent::Quantified(cs) => tree_rules_seq(cs@),
        ParseContent::Alternative(c) => tree_rules(*c),
        _ => Set::empty(),
    }
}

pub open spec fn tree_rules_seq(s: Seq<ParseNode>) -> Set<Seq<char>>
    decreases s,
{
    if s.len() == 0 {
        Set::empty()
    } else {
        tree_rules_seq(s.drop_last()) + tree_rules(s.last())
    }
}

#[verifier::loop_isolation(false)]
fn collect_covered_rules(node: &ParseNode, out: &mut NameSet)
    ensures
        final(out)@ == old(out)@ + tree_rules(*node),
    decreases node,
{
    out.insert(node.rule_name.clone());
    match &node.content {
        ParseContent::Sequence(cs) | ParseContent::Quantified(cs) => {
            let ghost base = out@;
            let mut i: usize = 0;
            while i < cs.len()
                invariant
                    i <= cs@.len(),
                    out@ == base + tree_rules_seq(cs@.take(i as int)),
                decreases cs@.len() - i,
            {
                proof {
                    assert(cs@.take(i + 1).drop_last() =~= cs@.take(i as int));
                    assert(cs@.take(i + 1).last() == cs@[i as int]);
                }
                collect_covered_rules(&cs[i], out);
                i = i + 1;
                proof {
                    assert(out@ =~= base + tree_rules_seq(cs@.take(i as int)));
                }
            }
            proof {
                assert(cs@.take(cs@.len() as int) =~= cs@);
                assert(out@ =~= old(out)@ + tree_rules(*node));
            }
        },
        ParseContent::Alternative(c) => {
            collect_covered_rules(c, out);
            proof {
                assert(out@ =~= old(out)@ + tree_rules(*node));
            }
        },
        _ => {
            proof {
                assert(out@ =~= old(out)@ + tree_rules(*node));
            }
        },
    }
}

/// The rule names present in a parse tree (exact for trees without folded subtrees; a folded
/// subtree contributes only its own rule).
pub fn parse_node_covered_rules(node: &ParseNode) -> (r: NameSet)
    ensures
        r@ == tree_rules(*node),
{
    let mut out = NameSet::new();
    collect_covered_rules(node, &mut out);
    proof {
        assert(out@ =~= tree_rules(*node));
    }
    out
}

} // verus!
