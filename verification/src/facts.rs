//! Facts and profiles declared by annotations: the fact kinds `@emit_fact` establishes, the
//! kinds predicates consult, and the `@profiles` context of a grammar.
use vstd::prelude::*;
use crate::annotations::{
    Annotations, MidSequenceAnnotation, PredicateExpr, PredicateValue, PrimitiveCall, SemanticAnnotation, all_of_rule,
    branch_level, mid_annotations, mid_level, rule_level,
};
use crate::names::{NameSet, StrMap, str_eq, strs_view};
use crate::walk::{concat_map, lemma_concat_map_push};
use crate::order::{Triple, triples_sorted, triples_view};

verus! {

broadcast use vstd::std_specs::vec::axiom_vec_index_decreases;

// ---------------------------------------------------------------------------------------------
// The directives of each annotated rule
// ---------------------------------------------------------------------------------------------

/// Every rule that carries a directive on some surface.
pub open spec fn annotated(a: Annotations) -> Set<Seq<char>> {
    a.semantic_annotations@.dom() + a.branch_semantic_annotations@.dom() + a.branch_mid_sequence_semantic_annotations@.dom()
}

pub open spec fn derefs(s: Seq<&SemanticAnnotation>) -> Seq<SemanticAnnotation> {
    s.map_values(|x: &SemanticAnnotation| *x)
}

fn insert_keys<V>(m: &StrMap<V>, out: &mut NameSet)
    ensures
        final(out)@ == old(out)@ + m@.dom(),
{
    let n = m.len();
    let mut i: usize = 0;
    while i < n
        invariant
            n == m.key_seq().len(),
            m@.dom() == m.key_seq().to_set(),
            i <= n,
            out@ == old(out)@ + m.key_seq().take(i as int).to_set(),
        decreases n - i,
    {
        let k = m.key_at(i);
        proof {
            assert(m.key_seq().take(i + 1) =~= m.key_seq().take(i as int).push(k@));
            crate::names::lemma_push_to_set_pub(m.key_seq().take(i as int), k@);
        }
        out.insert(k.clone());
        proof {
            assert(out@ =~= old(out)@ + m.key_seq().take(i + 1).to_set());
        }
        i = i + 1;
    }
    proof {
        assert(m.key_seq().take(n as int) =~= m.key_seq());
    }
}

/// Every rule that carries a directive on some surface.
pub fn annotated_rules(a: &Annotations) -> (r: NameSet)
    ensures
        r@ == annotated(*a),
{
    let mut out = NameSet::new();
    insert_keys(&a.semantic_annotations, &mut out);
    insert_keys(&a.branch_semantic_annotations, &mut out);
    insert_keys(&a.branch_mid_sequence_semantic_annotations, &mut out);
    proof {
        assert(out@ =~= annotated(*a));
    }
    out
}

fn push_refs<'a>(v: &'a Vec<SemanticAnnotation>, out: &mut Vec<&'a SemanticAnnotation>)
    ensures
        derefs(final(out)@) == derefs(old(out)@) + v@,
{
    let mut i: usize = 0;
    while i < v.len()
        invariant
            i <= v@.len(),
            derefs(out@) == derefs(old(out)@) + v@.take(i as int),
        decreases v@.len() - i,
    {
        let ghost before = out@;
        out.push(&v[i]);
        proof {
            assert(derefs(out@) =~= derefs(before).push(v@[i as int]));
            assert(v@.take(i + 1) =~= v@.take(i as int).push(v@[i as int]));
        }
        i = i + 1;
    }
    proof {
        assert(v@.take(v@.len() as int) =~= v@);
    }
}

/// Every directive of `rule` on every surface: rule-level, then per branch, then mid-sequence.
pub fn rule_annotations<'a>(a: &'a Annotations, rule: &str) -> (r: Vec<&'a SemanticAnnotation>)
    ensures
        derefs(r@) == all_of_rule(*a, rule@),
{
    let mut out: Vec<&'a SemanticAnnotation> = Vec::new();
    let ghost rv = rule@;
    match a.semantic_annotations.get(rule) {
        Some(v) => {
            push_refs(v, &mut out);
        },
        None => {},
    }
    proof {
        assert(derefs(out@) =~= rule_level(*a, rv));
    }
    let ghost bf = |b: Vec<SemanticAnnotation>| b@;
    match a.branch_semantic_annotations.get(rule) {
        Some(bs) => {
            let ghost base = derefs(out@);
            let mut i: usize = 0;
            while i < bs.len()
                invariant
                    i <= bs@.len(),
                    bf == (|b: Vec<SemanticAnnotation>| b@),
                    derefs(out@) == base + concat_map(bs@.take(i as int), bf),
                decreases bs@.len() - i,
            {
                proof {
                    assert(bs@.take(i + 1) =~= bs@.take(i as int).push(bs@[i as int]));
                    lemma_concat_map_push(bs@.take(i as int), bs@[i as int], bf);
                }
                push_refs(&bs[i], &mut out);
                i = i + 1;
                proof {
                    assert(derefs(out@) =~= base + concat_map(bs@.take(i as int), bf));
                }
            }
            proof {
                assert(bs@.take(bs@.len() as int) =~= bs@);
                assert(bf =~= (|b: Vec<SemanticAnnotation>| b@));
                assert(derefs(out@) == rule_level(*a, rv) + branch_level(*a, rv));
            }
        },
        None => {
            proof {
                assert(derefs(out@) =~= rule_level(*a, rv) + branch_level(*a, rv));
            }
        },
    }
    let ghost mf = |b: Vec<MidSequenceAnnotation>| mid_annotations(b@);
    match a.branch_mid_sequence_semantic_annotations.get(rule) {
        Some(bs) => {
            let ghost base = derefs(out@);
            let mut i: usize = 0;
            while i < bs.len()
                invariant
                    i <= bs@.len(),
                    mf == (|b: Vec<MidSequenceAnnotation>| mid_annotations(b@)),
                    derefs(out@) == base + concat_map(bs@.take(i as int), mf),
                decreases bs@.len() - i,
            {
                proof {
                    assert(bs@.take(i + 1) =~= bs@.take(i as int).push(bs@[i as int]));
                    lemma_concat_map_push(bs@.take(i as int), bs@[i as int], mf);
                }
                let row = &bs[i];
                let ghost rbase = derefs(out@);
                let mut j: usize = 0;
                while j < row.len()
                    invariant
                        j <= row@.len(),
                        derefs(out@) == rbase + mid_annotations(row@).take(j as int),
                    decreases row@.len() - j,
                {
                    let ghost before = out@;
                    out.push(&row[j].annotation);
                    proof {
                        assert(derefs(out@) =~= derefs(before).push(row@[j as int].annotation));
                        assert(mid_annotations(row@).take(j + 1) =~= mid_annotations(row@).take(j as int).push(
                            row@[j as int].annotation,
                        ));
                    }
                    j = j + 1;
                }
                proof {
                    assert(mid_annotations(row@).take(row@.len() as int) =~= mid_annotations(row@));
                }
                i = i + 1;
                proof {
                    assert(derefs(out@) =~= base + concat_map(bs@.take(i as int), mf));
                }
            }
            proof {
                assert(bs@.take(bs@.len() as int) =~= bs@);
                assert(mf =~= (|b: Vec<MidSequenceAnnotation>| mid_annotations(b@)));
                assert(derefs(out@) == rule_level(*a, rv) + branch_level(*a, rv) + mid_level(*a, rv));
            }
        },
        None => {
            proof {
                assert(derefs(out@) =~= rule_level(*a, rv) + branch_level(*a, rv) + mid_level(*a, rv));
            }
        },
    }
    out
}

// ---------------------------------------------------------------------------------------------
// Emitted fact kinds
// ---------------------------------------------------------------------------------------------

/// Does one of `s` emit a fact of kind `k`?
pub open spec fn seq_emits(s: Seq<SemanticAnnotation>, k: Seq<char>) -> bool {
    exists|i: int| 0 <= i < s.len() && (#[trigger] s[i] matches SemanticAnnotation::EmitFact { kind } && kind@ == k)
}

/// Every fact kind some `@emit_fact` establishes, on any surface of any rule.
pub open spec fn emitted_kinds(a: Annotations) -> Set<Seq<char>> {
    Set::new(|k: Seq<char>| exists|r: Seq<char>| annotated(a).contains(r) && #[trigger] seq_emits(all_of_rule(a, r), k))
}

/// Every fact kind emitted by an `@emit_fact` on any surface (rule-level, per branch,
/// mid-sequence) of any rule.
pub fn collect_emitted_fact_kinds(annotations: &Annotations) -> (r: NameSet)
    ensures
        r@ == emitted_kinds(*annotations),
{
    let rules = annotated_rules(annotations);
    let n = rules.len();
    let mut kinds = NameSet::new();
    let mut i: usize = 0;
    while i < n
        invariant
            n == rules.elems().len(),
            rules@ == annotated(*annotations),
            rules@ == rules.elems().to_set(),
            i <= n,
            forall|k: Seq<char>| #[trigger] kinds@.contains(k) <==> exists|j: int| 0 <= j < i && seq_emits(all_of_rule(*annotations, #[trigger] rules.elems()[j]), k),
        decreases n - i,
    {
        let rule = rules.get(i);
        let anns = rule_annotations(annotations, rule.as_str());
        let ghost s = all_of_rule(*annotations, rule@);
        let ghost before = kinds@;
        let mut k: usize = 0;
        while k < anns.len()
            invariant
                derefs(anns@) == s,
                k <= anns@.len(),
                forall|x: Seq<char>| #[trigger] kinds@.contains(x) <==> (before.contains(x) || seq_emits(s.take(k as int), x)),
            decreases anns@.len() - k,
        {
            proof {
                assert(s[k as int] == *anns@[k as int]);
            }
            match anns[k] {
                SemanticAnnotation::EmitFact { kind } => {
                    kinds.insert(kind.clone());
                },
                _ => {},
            }
            proof {
                assert forall|x: Seq<char>| #[trigger] kinds@.contains(x) <==> (before.contains(x) || seq_emits(s.take(k + 1), x)) by {
                    if seq_emits(s.take(k + 1), x) && !seq_emits(s.take(k as int), x) {
                        let j = choose|j: int| 0 <= j < s.take(k + 1).len() && (#[trigger] s.take(k + 1)[j] matches SemanticAnnotation::EmitFact { kind } && kind@ == x);
                        if j < k {
                            assert(s.take(k as int)[j] == s.take(k + 1)[j]);
                        }
                    }
                    if seq_emits(s.take(k as int), x) {
                        let j = choose|j: int| 0 <= j < s.take(k as int).len() && (#[trigger] s.take(k as int)[j] matches SemanticAnnotation::EmitFact { kind } && kind@ == x);
                        assert(s.take(k + 1)[j] == s.take(k as int)[j]);
                    }
                    if s[k as int] matches SemanticAnnotation::EmitFact { kind } && kind@ == x {
                        assert(s.take(k + 1)[k as int] == s[k as int]);
                    }
                }
            }
            k = k + 1;
        }
        proof {
            assert(s.take(anns@.len() as int) =~= s);
            assert forall|x: Seq<char>| #[trigger] kinds@.contains(x) <==> exists|j: int| 0 <= j < i + 1 && seq_emits(all_of_rule(*annotations, #[trigger] rules.elems()[j]), x) by {
                if seq_emits(s, x) {
                    assert(rules.elems()[i as int] == rule@);
                }
                if exists|j: int| 0 <= j < i + 1 && seq_emits(all_of_rule(*annotations, #[trigger] rules.elems()[j]), x) {
                    let j = choose|j: int| 0 <= j < i + 1 && seq_emits(all_of_rule(*annotations, #[trigger] rules.elems()[j]), x);
                    if j == i {
                        assert(rules.elems()[j] == rule@);
                    }
                }
            }
        }
        i = i + 1;
    }
    proof {
        assert forall|x: Seq<char>| #[trigger] kinds@.contains(x) <==> emitted_kinds(*annotations).contains(x) by {
            if kinds@.contains(x) {
                let j = choose|j: int| 0 <= j < n && seq_emits(all_of_rule(*annotations, #[trigger] rules.elems()[j]), x);
                assert(rules.elems().to_set().contains(rules.elems()[j]));
            }
            if emitted_kinds(*annotations).contains(x) {
                let r = choose|r: Seq<char>| annotated(*annotations).contains(r) && #[trigger] seq_emits(all_of_rule(*annotations, r), x);
                assert(rules.elems().contains(r));
                let j = choose|j: int| 0 <= j < rules.elems().len() && rules.elems()[j] == r;
                assert(seq_emits(all_of_rule(*annotations, rules.elems()[j]), x));
            }
        }
        assert(kinds@ =~= emitted_kinds(*annotations));
    }
    kinds
}

// ---------------------------------------------------------------------------------------------
// Consulted fact kinds
// ---------------------------------------------------------------------------------------------

pub type KindUse = (Seq<char>, Seq<char>);

/// The primitives whose first argument is a fact kind read from the store `@emit_fact` fills.
pub open spec fn is_fact_query(name: Seq<char>) -> bool {
    name == "has_fact"@ || name == "lacks_fact"@ || name == "fact_attribute_equals"@ || name == "fact_count_at_least"@
}

/// A statically known fact kind; a dynamic value (an argument reference) is `None`.
pub open spec fn literal_kind(v: PredicateValue) -> Option<Seq<char>> {
    match v {
        PredicateValue::StringLit(s) => Some(s@),
        PredicateValue::IdentLit(s) => Some(s@),
        _ => None,
    }
}

/// The `(kind, primitive)` a call consults: a fact query with a literal first argument.
pub open spec fn call_consults(c: PrimitiveCall) -> Set<KindUse> {
    if is_fact_query(c.name@) && c.args@.len() > 0 && literal_kind(c.args@[0]) is Some {
        set![(literal_kind(c.args@[0])->0, c.name@)]
    } else {
        Set::empty()
    }
}

pub open spec fn value_consults(v: PredicateValue) -> Set<KindUse> {
    match v {
        PredicateValue::AttributeOf { call, .. } => call_consults(*call),
        _ => Set::empty(),
    }
}

/// Every `(kind, primitive)` consulted anywhere in a predicate expression.
pub open spec fn expr_consults(e: PredicateExpr) -> Set<KindUse>
    decreases e,
{
    match e {
        PredicateExpr::Call(c) => call_consults(c),
        PredicateExpr::Not(x) => expr_consults(*x),
        PredicateExpr::And(x, y) => expr_consults(*x) + expr_consults(*y),
        PredicateExpr::Or(x, y) => expr_consults(*x) + expr_consults(*y),
        PredicateExpr::Compare { lhs, rhs, .. } => value_consults(lhs) + value_consults(rhs),
        PredicateExpr::In { lhs, set } => value_consults(lhs) + Set::new(
            |t: KindUse| exists|i: int| 0 <= i < set@.len() && #[trigger] value_consults(set@[i]).contains(t),
        ),
    }
}

pub open spec fn ann_consults(x: SemanticAnnotation) -> Set<KindUse> {
    match x {
        SemanticAnnotation::Predicate { expr, .. } => expr_consults(expr),
        _ => Set::empty(),
    }
}

/// Every `(kind, primitive)` consulted by the predicates among `s`.
pub open spec fn seq_consults(s: Seq<SemanticAnnotation>) -> Set<KindUse> {
    Set::new(|t: KindUse| exists|i: int| 0 <= i < s.len() && #[trigger] ann_consults(s[i]).contains(t))
}

pub open spec fn pair_view(t: (String, String)) -> KindUse {
    (t.0@, t.1@)
}

pub open spec fn pairs_view(v: Seq<(String, String)>) -> Seq<KindUse> {
    v.map_values(|t: (String, String)| pair_view(t))
}

fn is_fact_query_name(name: &str) -> (r: bool)
    ensures
        r == is_fact_query(name@),
{
    str_eq(name, "has_fact") || str_eq(name, "lacks_fact") || str_eq(name, "fact_attribute_equals") || str_eq(
        name,
        "fact_count_at_least",
    )
}

fn push_pair(out: &mut Vec<(String, String)>, k: &String, p: &String)
    ensures
        pairs_view(final(out)@).to_set() == pairs_view(old(out)@).to_set().insert((k@, p@)),
{
    let ghost before = out@;
    out.push((k.clone(), p.clone()));
    proof {
        assert(pairs_view(out@) =~= pairs_view(before).push((k@, p@)));
        crate::facts::lemma_push_to_set_pairs(pairs_view(before), (k@, p@));
    }
}

pub proof fn lemma_push_to_set_pairs(s: Seq<KindUse>, x: KindUse)
    ensures
        s.push(x).to_set() == s.to_set().insert(x),
{
    assert forall|y: KindUse| #[trigger] s.push(x).to_set().contains(y) == s.to_set().insert(x).contains(y) by {
        if s.push(x).contains(y) && y != x {
            let j = choose|j: int| 0 <= j < s.push(x).len() && s.push(x)[j] == y;
            assert(s[j] == y);
        }
        if s.contains(y) {
            let j = choose|j: int| 0 <= j < s.len() && s[j] == y;
            assert(s.push(x)[j] == y);
        }
        if y == x {
            assert(s.push(x)[s.len() as int] == x);
        }
    }
    assert(s.push(x).to_set() =~= s.to_set().insert(x));
}

fn call_consulted(c: &PrimitiveCall, out: &mut Vec<(String, String)>)
    ensures
        pairs_view(final(out)@).to_set() == pairs_view(old(out)@).to_set() + call_consults(*c),
{
    if is_fact_query_name(c.name.as_str()) && c.args.len() > 0 {
        match &c.args[0] {
            PredicateValue::StringLit(k) | PredicateValue::IdentLit(k) => {
                push_pair(out, k, &c.name);
                proof {
                    assert(pairs_view(out@).to_set() =~= pairs_view(old(out)@).to_set() + call_consults(*c));
                }
                return;
            },
            _ => {},
        }
    }
    proof {
        assert(pairs_view(out@).to_set() =~= pairs_view(old(out)@).to_set() + call_consults(*c));
    }
}

fn value_consulted(v: &PredicateValue, out: &mut Vec<(String, String)>)
    ensures
        pairs_view(final(out)@).to_set() == pairs_view(old(out)@).to_set() + value_consults(*v),
{
    match v {
        PredicateValue::AttributeOf { call, .. } => call_consulted(call, out),
        _ => {
            proof {
                assert(pairs_view(out@).to_set() =~= pairs_view(old(out)@).to_set() + value_consults(*v));
            }
        },
    }
}

#[verifier::loop_isolation(false)]
fn expr_consulted(e: &PredicateExpr, out: &mut Vec<(String, String)>)
    ensures
        pairs_view(final(out)@).to_set() == pairs_view(old(out)@).to_set() + expr_consults(*e),
    decreases e,
{
    match e {
        PredicateExpr::Call(c) => call_consulted(c, out),
        PredicateExpr::Not(x) => expr_consulted(x, out),
        PredicateExpr::And(x, y) | PredicateExpr::Or(x, y) => {
            expr_consulted(x, out);
            expr_consulted(y, out);
            proof {
                assert(pairs_view(out@).to_set() =~= pairs_view(old(out)@).to_set() + expr_consults(*e));
            }
        },
        PredicateExpr::Compare { lhs, rhs, .. } => {
            value_consulted(lhs, out);
            value_consulted(rhs, out);
            proof {
                assert(pairs_view(out@).to_set() =~= pairs_view(old(out)@).to_set() + expr_consults(*e));
            }
        },
        PredicateExpr::In { lhs, set } => {
            value_consulted(lhs, out);
            let ghost mid = pairs_view(out@).to_set();
            let mut i: usize = 0;
            while i < set.len()
                invariant
                    i <= set@.len(),
                    pairs_view(out@).to_set() == mid + Set::new(
                        |t: KindUse| exists|j: int| 0 <= j < i && #[trigger] value_consults(set@[j]).contains(t),
                    ),
                decreases set@.len() - i,
            {
                let ghost before = pairs_view(out@).to_set();
                value_consulted(&set[i], out);
                proof {
                    assert(pairs_view(out@).to_set() =~= mid + Set::new(
                        |t: KindUse| exists|j: int| 0 <= j < i + 1 && #[trigger] value_consults(set@[j]).contains(t),
                    )) by {
                        assert forall|t: KindUse| (exists|j: int| 0 <= j < i + 1 && #[trigger] value_consults(set@[j]).contains(t))
                            == ((exists|j: int| 0 <= j < i && #[trigger] value_consults(set@[j]).contains(t)) || value_consults(set@[i as int]).contains(t)) by {}
                    }
                }
                i = i + 1;
            }
            proof {
                assert(pairs_view(out@).to_set() =~= pairs_view(old(out)@).to_set() + expr_consults(*e));
            }
        },
    }
}

/// The consulted-but-never-emitted triples `(rule, kind, primitive)`.
pub open spec fn unbound_triples(a: Annotations) -> Set<crate::order::Triple> {
    Set::new(
        |t: crate::order::Triple|
            annotated(a).contains(t.0) && seq_consults(all_of_rule(a, t.0)).contains((t.1, t.2)) && !emitted_kinds(
                a,
            ).contains(t.1),
    )
}

/// The strictly sorted list of a set of triples.
pub open spec fn sorted_triples(s: Set<crate::order::Triple>) -> Seq<crate::order::Triple> {
    choose|q: Seq<crate::order::Triple>| crate::order::triples_sorted(q) && q.to_set() == s
}

pub open spec fn unbound_issue(t: crate::order::Triple) -> crate::wellformed::IssueView {
    crate::wellformed::IssueView::UnboundFactKind(t.0, t.1, t.2)
}

/// The unbound-fact findings: one per consulted-but-never-emitted triple, sorted.
pub open spec fn unbound_fact_issues(a: Annotations) -> Seq<crate::wellformed::IssueView> {
    sorted_triples(unbound_triples(a)).map_values(|t: crate::order::Triple| unbound_issue(t))
}

/// Binding before use: every `(rule, kind, primitive)` where a predicate of `rule` (on any
/// surface) consults a literal fact `kind` through a fact-query `primitive` that no `@emit_fact`
/// anywhere emits. Sorted by `(rule, kind, primitive)`, without repetition.
pub fn detect_unbound_fact_kinds(annotations: &Annotations) -> (issues: Vec<crate::wellformed::WellformednessIssue>)
    ensures
        crate::wellformed::issues_view(issues@) == unbound_fact_issues(*annotations),
{
    let emitted = collect_emitted_fact_kinds(annotations);
    let rules = annotated_rules(annotations);
    let n = rules.len();
    let ghost a = *annotations;
    let mut sorted: Vec<(String, String, String)> = Vec::new();
    let mut i: usize = 0;
    proof {
        assert(triples_view(sorted@).to_set() =~= Set::<Triple>::empty());
    }
    while i < n
        invariant
            a == *annotations,
            emitted@ == emitted_kinds(a),
            n == rules.elems().len(),
            rules@ == annotated(a),
            rules@ == rules.elems().to_set(),
            i <= n,
            triples_sorted(triples_view(sorted@)),
            triples_view(sorted@).to_set() == Set::new(
                |t: Triple|
                    (exists|j: int| 0 <= j < i && #[trigger] rules.elems()[j] == t.0) && seq_consults(all_of_rule(a, t.0)).contains((t.1, t.2))
                        && !emitted_kinds(a).contains(t.1),
            ),
        decreases n - i,
    {
        let rule = rules.get(i);
        let anns = rule_annotations(annotations, rule.as_str());
        let ghost s = all_of_rule(a, rule@);
        let mut pairs: Vec<(String, String)> = Vec::new();
        let mut k: usize = 0;
        proof {
            assert(pairs_view(pairs@).to_set() =~= seq_consults(s.take(0)));
        }
        while k < anns.len()
            invariant
                derefs(anns@) == s,
                k <= anns@.len(),
                pairs_view(pairs@).to_set() == seq_consults(s.take(k as int)),
            decreases anns@.len() - k,
        {
            proof {
                assert(s[k as int] == *anns@[k as int]);
            }
            let ghost before = pairs_view(pairs@).to_set();
            match anns[k] {
                SemanticAnnotation::Predicate { expr, .. } => {
                    expr_consulted(expr, &mut pairs);
                },
                _ => {},
            }
            proof {
                assert(pairs_view(pairs@).to_set() == before + ann_consults(s[k as int]));
                assert forall|t: KindUse| #[trigger] seq_consults(s.take(k + 1)).contains(t) == (seq_consults(s.take(k as int)).contains(t) || ann_consults(s[k as int]).contains(t)) by {
                    if seq_consults(s.take(k + 1)).contains(t) {
                        let m = choose|m: int| 0 <= m < s.take(k + 1).len() && #[trigger] ann_consults(s.take(k + 1)[m]).contains(t);
                        if m < k {
                            assert(s.take(k as int)[m] == s.take(k + 1)[m]);
                        }
                    }
                    if seq_consults(s.take(k as int)).contains(t) {
                        let m = choose|m: int| 0 <= m < s.take(k as int).len() && #[trigger] ann_consults(s.take(k as int)[m]).contains(t);
                        assert(s.take(k + 1)[m] == s.take(k as int)[m]);
                    }
                    if ann_consults(s[k as int]).contains(t) {
                        assert(s.take(k + 1)[k as int] == s[k as int]);
                    }
                }
                assert(pairs_view(pairs@).to_set() =~= seq_consults(s.take(k + 1)));
            }
            k = k + 1;
        }
        proof {
            assert(s.take(anns@.len() as int) =~= s);
        }
        let ghost base = triples_view(sorted@).to_set();
        let mut q: usize = 0;
        while q < pairs.len()
            invariant
                a == *annotations,
                emitted@ == emitted_kinds(a),
                q <= pairs@.len(),
                triples_sorted(triples_view(sorted@)),
                triples_view(sorted@).to_set() == base + Set::new(
                    |t: Triple| t.0 == rule@ && (exists|m: int| 0 <= m < q && #[trigger] pairs_view(pairs@)[m] == (t.1, t.2)) && !emitted_kinds(a).contains(t.1),
                ),
            decreases pairs@.len() - q,
        {
            let (kind, prim) = &pairs[q];
            proof {
                assert(pairs_view(pairs@)[q as int] == (kind@, prim@));
            }
            if !emitted.contains(kind.as_str()) {
                insert_sorted_triple_wrapper(&mut sorted, rule, kind, prim);
            }
            proof {
                assert(triples_view(sorted@).to_set() =~= base + Set::new(
                    |t: Triple| t.0 == rule@ && (exists|m: int| 0 <= m < q + 1 && #[trigger] pairs_view(pairs@)[m] == (t.1, t.2)) && !emitted_kinds(a).contains(t.1),
                )) by {
                    assert forall|t: Triple| (exists|m: int| 0 <= m < q + 1 && #[trigger] pairs_view(pairs@)[m] == (t.1, t.2)) == (
                        (exists|m: int| 0 <= m < q && #[trigger] pairs_view(pairs@)[m] == (t.1, t.2)) || pairs_view(pairs@)[q as int] == (t.1, t.2)) by {}
                }
            }
            q = q + 1;
        }
        proof {
            assert forall|t: Triple| #![trigger t.0, t.1, t.2] (exists|m: int| 0 <= m < pairs@.len() && #[trigger] pairs_view(pairs@)[m] == (t.1, t.2)) == seq_consults(s).contains((t.1, t.2)) by {
                if exists|m: int| 0 <= m < pairs@.len() && #[trigger] pairs_view(pairs@)[m] == (t.1, t.2) {
                    let m = choose|m: int| 0 <= m < pairs@.len() && #[trigger] pairs_view(pairs@)[m] == (t.1, t.2);
                    assert(pairs_view(pairs@).to_set().contains(pairs_view(pairs@)[m]));
                }
                if seq_consults(s).contains((t.1, t.2)) {
                    assert(pairs_view(pairs@).to_set().contains((t.1, t.2)));
                    let m = choose|m: int| 0 <= m < pairs_view(pairs@).len() && pairs_view(pairs@)[m] == (t.1, t.2);
                }
            }
            assert(triples_view(sorted@).to_set() =~= Set::new(
                |t: Triple|
                    (exists|j: int| 0 <= j < i + 1 && #[trigger] rules.elems()[j] == t.0) && seq_consults(all_of_rule(a, t.0)).contains((t.1, t.2))
                        && !emitted_kinds(a).contains(t.1),
            )) by {
                assert forall|t: Triple| (exists|j: int| 0 <= j < i + 1 && #[trigger] rules.elems()[j] == t.0) == (
                    (exists|j: int| 0 <= j < i && #[trigger] rules.elems()[j] == t.0) || rules.elems()[i as int] == t.0) by {}
            }
        }
        i = i + 1;
    }
    proof {
        assert(triples_view(sorted@).to_set() =~= unbound_triples(a)) by {
            assert forall|t: Triple| (exists|j: int| 0 <= j < n && #[trigger] rules.elems()[j] == t.0) == annotated(a).contains(t.0) by {
                if annotated(a).contains(t.0) {
                    assert(rules.elems().contains(t.0));
                }
            }
        }
        let q = sorted_triples(unbound_triples(a));
        assert(triples_sorted(q) && q.to_set() == unbound_triples(a));
        crate::order::lemma_triples_sorted_unique(q, triples_view(sorted@));
    }
    let mut out: Vec<crate::wellformed::WellformednessIssue> = Vec::new();
    let mut j: usize = 0;
    while j < sorted.len()
        invariant
            j <= sorted@.len(),
            crate::wellformed::issues_view(out@) == triples_view(sorted@).take(j as int).map_values(
                |t: Triple| unbound_issue(t),
            ),
        decreases sorted@.len() - j,
    {
        let (r, k, p) = &sorted[j];
        let ghost before = out@;
        out.push(crate::wellformed::WellformednessIssue::UnboundFactKind { rule: r.clone(), kind: k.clone(), primitive: p.clone() });
        proof {
            assert(triples_view(sorted@)[j as int] == (r@, k@, p@));
            assert(crate::wellformed::issues_view(out@) =~= crate::wellformed::issues_view(before).push(unbound_issue((r@, k@, p@))));
            assert(triples_view(sorted@).take(j + 1) =~= triples_view(sorted@).take(j as int).push((r@, k@, p@)));
            assert(crate::wellformed::issues_view(out@) =~= triples_view(sorted@).take(j + 1).map_values(
                |t: Triple| unbound_issue(t),
            ));
        }
        j = j + 1;
    }
    proof {
        assert(triples_view(sorted@).take(sorted@.len() as int) =~= triples_view(sorted@));
    }
    out
}

fn insert_sorted_triple_wrapper(sorted: &mut Vec<(String, String, String)>, r: &String, k: &String, p: &String)
    requires
        crate::order::triples_sorted(crate::order::triples_view(old(sorted)@)),
    ensures
        crate::order::triples_sorted(crate::order::triples_view(final(sorted)@)),
        crate::order::triples_view(final(sorted)@).to_set() == crate::order::triples_view(old(sorted)@).to_set().insert(
            (r@, k@, p@),
        ),
{
    crate::order::insert_sorted_triple(sorted, (r.clone(), k.clone(), p.clone()));
}

// ---------------------------------------------------------------------------------------------
// The `@profiles` context
// ---------------------------------------------------------------------------------------------

/// A character with the Unicode `White_Space` property, the whitespace `str::trim` removes.
pub open spec fn is_white_space(c: char) -> bool {
    ||| ('\u{9}' <= c && c <= '\u{d}')
    ||| c == ' '
    ||| c == '\u{85}'
    ||| c == '\u{a0}'
    ||| c == '\u{1680}'
    ||| ('\u{2000}' <= c && c <= '\u{200a}')
    ||| c == '\u{2028}'
    ||| c == '\u{2029}'
    ||| c == '\u{202f}'
    ||| c == '\u{205f}'
    ||| c == '\u{3000}'
}

/// `s` without its leading whitespace.
pub open spec fn trimmed_start(s: Seq<char>) -> Seq<char>
    decreases s.len(),
{
    if s.len() > 0 && is_white_space(s[0]) {
        trimmed_start(s.drop_first())
    } else {
        s
    }
}

/// `s` without its trailing whitespace.
pub open spec fn trimmed_end(s: Seq<char>) -> Seq<char>
    decreases s.len(),
{
    if s.len() > 0 && is_white_space(s.last()) {
        trimmed_end(s.drop_last())
    } else {
        s
    }
}

/// `s` without leading and trailing whitespace.
pub open spec fn trimmed(s: Seq<char>) -> Seq<char> {
    trimmed_end(trimmed_start(s))
}

/// `str::trim`: the slice without leading and trailing characters of the Unicode `White_Space`
/// property, as its documentation says.
#[verifier::external_body]
fn str_trim(s: &str) -> (r: &str)
    ensures
        r@ == trimmed(s@),
{
    s.trim()
}

pub open spec fn ascii_lower(c: char) -> char {
    if 'A' <= c && c <= 'Z' {
        ((c as u32) + 32) as char
    } else {
        c
    }
}

/// `str::to_ascii_lowercase`: ASCII capitals mapped to small letters, every other character kept.
#[verifier::external_body]
pub(crate) fn str_ascii_lowercase(s: &str) -> (r: String)
    ensures
        r@ == s@.map_values(|c: char| ascii_lower(c)),
{
    s.to_ascii_lowercase()
}

/// A profile name as the profile filter compares it: trimmed, ASCII-lowercased.
pub open spec fn norm_profile(x: Seq<char>) -> Seq<char> {
    trimmed(x).map_values(|c: char| ascii_lower(c))
}

/// A `@profiles` list, normalized, empty names dropped.
pub open spec fn norm_list(l: Seq<Seq<char>>) -> Seq<Seq<char>> {
    l.map_values(|x: Seq<char>| norm_profile(x)).filter(|x: Seq<char>| x.len() > 0)
}

/// The last `@profiles` directive among `s` with a non-empty normalized list.
pub open spec fn last_profiles(s: Seq<SemanticAnnotation>) -> Option<Seq<Seq<char>>>
    decreases s.len(),
{
    if s.len() == 0 {
        None
    } else {
        match s.last() {
            SemanticAnnotation::Profiles(l) => if norm_list(strs_view(l@)).len() > 0 {
                Some(norm_list(strs_view(l@)))
            } else {
                last_profiles(s.drop_last())
            },
            _ => last_profiles(s.drop_last()),
        }
    }
}

/// Every normalized, non-empty profile name declared among `s`.
pub open spec fn declared_profiles(s: Seq<SemanticAnnotation>) -> Set<Seq<char>> {
    Set::new(
        |x: Seq<char>|
            exists|i: int| 0 <= i < s.len() && (#[trigger] s[i] matches SemanticAnnotation::Profiles(l) && norm_list(strs_view(l@)).contains(x)),
    )
}

/// The profile universe: every profile any rule-level `@profiles` declares.
pub open spec fn profile_universe(a: Annotations) -> Set<Seq<char>> {
    Set::new(
        |x: Seq<char>|
            exists|r: Seq<char>| a.semantic_annotations@.dom().contains(r) && #[trigger] declared_profiles(rule_level(a, r)).contains(x),
    )
}

pub(crate) fn normalized_list(l: &Vec<String>) -> (r: Vec<String>)
    ensures
        strs_view(r@) == norm_list(strs_view(l@)),
{
    let ghost f = |x: Seq<char>| norm_profile(x);
    let ghost pred = |x: Seq<char>| x.len() > 0;
    let mut out: Vec<String> = Vec::new();
    let mut i: usize = 0;
    while i < l.len()
        invariant
            i <= l@.len(),
            f == (|x: Seq<char>| norm_profile(x)),
            pred == (|x: Seq<char>| x.len() > 0),
            strs_view(out@) == strs_view(l@).take(i as int).map_values(f).filter(pred),
        decreases l@.len() - i,
    {
        let t = str_trim(l[i].as_str());
        let v = str_ascii_lowercase(t);
        proof {
            let m = strs_view(l@).take(i as int).map_values(f);
            assert(strs_view(l@).take(i + 1).map_values(f) =~= m.push(norm_profile(l@[i as int]@)));
            m.lemma_filter_push(norm_profile(l@[i as int]@), pred);
            assert(v@ == norm_profile(l@[i as int]@));
        }
        if v.unicode_len() > 0 {
            let ghost before = out@;
            out.push(v);
            proof {
                assert(strs_view(out@) =~= strs_view(before).push(norm_profile(l@[i as int]@)));
            }
        }
        i = i + 1;
    }
    proof {
        assert(strs_view(l@).take(l@.len() as int) =~= strs_view(l@));
    }
    out
}

/// Each rule's `@profiles` set (the last non-empty rule-level directive, normalized) and the
/// sorted profile universe. A rule absent from the map is present under every profile.
pub fn extract_profile_context(annotations: &Annotations) -> (r: (StrMap<Vec<String>>, Vec<String>))
    ensures
        forall|x: Seq<char>| #[trigger] r.0@.dom().contains(x) <==> annotations.semantic_annotations@.dom().contains(x)
            && last_profiles(rule_level(*annotations, x)) is Some,
        forall|x: Seq<char>| #[trigger] r.0@.dom().contains(x) ==> Some(strs_view(r.0@[x]@)) == last_profiles(
            rule_level(*annotations, x),
        ),
        crate::order::strictly_sorted(strs_view(r.1@)),
        strs_view(r.1@).to_set() == profile_universe(*annotations),
{
    let ghost a = *annotations;
    let m = &annotations.semantic_annotations;
    let n = m.len();
    let mut rule_profiles: StrMap<Vec<String>> = StrMap::new();
    let mut universe = NameSet::new();
    let mut i: usize = 0;
    while i < n
        invariant
            a == *annotations,
            m == &annotations.semantic_annotations,
            n == m.key_seq().len(),
            m.key_seq().no_duplicates(),
            m@.dom() == m.key_seq().to_set(),
            forall|j: int| 0 <= j < n ==> #[trigger] m@[m.key_seq()[j]] == m.val_seq()[j],
            i <= n,
            forall|x: Seq<char>| #[trigger] rule_profiles@.dom().contains(x) <==> m.key_seq().take(i as int).contains(x)
                && last_profiles(rule_level(a, x)) is Some,
            forall|x: Seq<char>| #[trigger] rule_profiles@.dom().contains(x) ==> Some(strs_view(rule_profiles@[x]@))
                == last_profiles(rule_level(a, x)),
            forall|x: Seq<char>| #[trigger] universe@.contains(x) <==> exists|j: int| 0 <= j < i && #[trigger] declared_profiles(rule_level(a, m.key_seq()[j])).contains(x),
        decreases n - i,
    {
        let rule = m.key_at(i);
        let anns = m.value_at(i);
        let ghost s = anns@;
        proof {
            assert(m.key_seq().contains(rule@));
            assert(rule_level(a, rule@) == s);
        }
        let ghost ubase = universe@;
        let mut current: Option<Vec<String>> = None;
        let mut k: usize = 0;
        while k < anns.len()
            invariant
                s == anns@,
                k <= anns@.len(),
                match current {
                    Some(v) => last_profiles(s.take(k as int)) == Some(strs_view(v@)),
                    None => last_profiles(s.take(k as int)) is None,
                },
                forall|x: Seq<char>| #[trigger] universe@.contains(x) <==> (ubase.contains(x) || declared_profiles(s.take(k as int)).contains(x)),
            decreases anns@.len() - k,
        {
            proof {
                assert(s.take(k + 1).drop_last() =~= s.take(k as int));
                assert(s.take(k + 1).last() == s[k as int]);
            }
            let ghost ubefore = universe@;
            match &anns[k] {
                SemanticAnnotation::Profiles(list) => {
                    let profs = normalized_list(list);
                    let mut q: usize = 0;
                    while q < profs.len()
                        invariant
                            q <= profs@.len(),
                            forall|x: Seq<char>| #[trigger] universe@.contains(x) <==> (ubefore.contains(x) || strs_view(profs@).take(q as int).contains(x)),
                        decreases profs@.len() - q,
                    {
                        proof {
                            assert(strs_view(profs@).take(q + 1) =~= strs_view(profs@).take(q as int).push(profs@[q as int]@));
                            crate::names::lemma_push_to_set_pub(strs_view(profs@).take(q as int), profs@[q as int]@);
                            assert(strs_view(profs@).take(q as int).to_set().contains(profs@[q as int]@) == false
                                || strs_view(profs@).take(q as int).to_set().contains(profs@[q as int]@));
                        }
                        universe.insert(profs[q].clone());
                        proof {
                            assert forall|x: Seq<char>| #[trigger] universe@.contains(x) <==> (ubefore.contains(x) || strs_view(profs@).take(q + 1).contains(x)) by {
                                assert(strs_view(profs@).take(q + 1).to_set().contains(x) == strs_view(profs@).take(q + 1).contains(x));
                                assert(strs_view(profs@).take(q as int).to_set().contains(x) == strs_view(profs@).take(q as int).contains(x));
                            }
                        }
                        q = q + 1;
                    }
                    proof {
                        assert(strs_view(profs@).take(profs@.len() as int) =~= strs_view(profs@));
                    }
                    if profs.len() > 0 {
                        current = Some(profs);
                    }
                },
                _ => {},
            }
            proof {
                assert forall|x: Seq<char>| #[trigger] declared_profiles(s.take(k + 1)).contains(x) == (declared_profiles(s.take(k as int)).contains(x) || (s[k as int] matches SemanticAnnotation::Profiles(l) && norm_list(strs_view(l@)).contains(x))) by {
                    let t1 = s.take(k + 1);
                    let t0 = s.take(k as int);
                    if declared_profiles(t1).contains(x) {
                        let j = choose|j: int| 0 <= j < t1.len() && (#[trigger] t1[j] matches SemanticAnnotation::Profiles(l) && norm_list(strs_view(l@)).contains(x));
                        if j < k {
                            assert(t0[j] == t1[j]);
                        }
                    }
                    if declared_profiles(t0).contains(x) {
                        let j = choose|j: int| 0 <= j < t0.len() && (#[trigger] t0[j] matches SemanticAnnotation::Profiles(l) && norm_list(strs_view(l@)).contains(x));
                        assert(t1[j] == t0[j]);
                    }
                    if s[k as int] matches SemanticAnnotation::Profiles(l) && norm_list(strs_view(l@)).contains(x) {
                        assert(t1[k as int] == s[k as int]);
                    }
                }
            }
            k = k + 1;
        }
        proof {
            assert(s.take(anns@.len() as int) =~= s);
        }
        let ghost rbefore = rule_profiles@;
        match current {
            Some(v) => {
                rule_profiles.insert(rule.clone(), v);
            },
            None => {},
        }
        proof {
            assert(m.key_seq().take(i + 1) =~= m.key_seq().take(i as int).push(rule@));
            assert forall|x: Seq<char>| #[trigger] m.key_seq().take(i + 1).contains(x) == (m.key_seq().take(i as int).contains(x) || x == rule@) by {
                if m.key_seq().take(i + 1).contains(x) {
                    let j = choose|j: int| 0 <= j < m.key_seq().take(i + 1).len() && #[trigger] m.key_seq().take(i + 1)[j] == x;
                    if j < i {
                        assert(m.key_seq().take(i as int)[j] == x);
                    }
                }
                if m.key_seq().take(i as int).contains(x) {
                    let j = choose|j: int| 0 <= j < m.key_seq().take(i as int).len() && #[trigger] m.key_seq().take(i as int)[j] == x;
                    assert(m.key_seq().take(i + 1)[j] == x);
                }
                if x == rule@ {
                    assert(m.key_seq().take(i + 1)[i as int] == x);
                }
            }
            assert forall|x: Seq<char>| #[trigger] universe@.contains(x) <==> exists|j: int| 0 <= j < i + 1 && #[trigger] declared_profiles(rule_level(a, m.key_seq()[j])).contains(x) by {
                if exists|j: int| 0 <= j < i + 1 && #[trigger] declared_profiles(rule_level(a, m.key_seq()[j])).contains(x) {
                    let j = choose|j: int| 0 <= j < i + 1 && #[trigger] declared_profiles(rule_level(a, m.key_seq()[j])).contains(x);
                    if j == i {
                        assert(m.key_seq()[j] == rule@);
                    }
                }
                if declared_profiles(s).contains(x) {
                    assert(m.key_seq()[i as int] == rule@);
                    assert(declared_profiles(rule_level(a, m.key_seq()[i as int])).contains(x));
                }
            }
        }
        i = i + 1;
    }
    proof {
        assert(m.key_seq().take(n as int) =~= m.key_seq());
        assert forall|x: Seq<char>| #[trigger] universe@.contains(x) <==> profile_universe(a).contains(x) by {
            if universe@.contains(x) {
                let j = choose|j: int| 0 <= j < n && #[trigger] declared_profiles(rule_level(a, m.key_seq()[j])).contains(x);
                assert(m.key_seq().to_set().contains(m.key_seq()[j]));
            }
            if profile_universe(a).contains(x) {
                let r = choose|r: Seq<char>| a.semantic_annotations@.dom().contains(r) && #[trigger] declared_profiles(rule_level(a, r)).contains(x);
                assert(m.key_seq().to_set().contains(r));
                let j = choose|j: int| 0 <= j < m.key_seq().len() && m.key_seq()[j] == r;
                assert(declared_profiles(rule_level(a, m.key_seq()[j])).contains(x));
            }
        }
        assert forall|x: Seq<char>| #[trigger] m.key_seq().contains(x) == m@.dom().contains(x) by {
            assert(m.key_seq().to_set().contains(x) == m.key_seq().contains(x));
        }
    }
    let sorted = crate::order::sorted_names(&universe);
    proof {
        assert(strs_view(sorted@).to_set() =~= profile_universe(a));
    }
    (rule_profiles, sorted)
}

} // verus!
