//! Per-profile proofs of deadness over a profile-filtered ("active") grammar.
//!
//! Entry liveness: the rules positively reachable from the declared entries along references that
//! sit in a satisfiable context of their rule. Store gating: a live rule whose rule-level
//! predicate requires a fact kind no live rule emits can never complete; its death can strand
//! others, so the two are iterated to a fixpoint. Both analyses are re-derived by the certificate
//! checker from scratch.
use vstd::prelude::*;
use vstd::string::*;
use crate::ast::{ASTNode, ASTValue, SpecNode, lemma_nodes_view, node_view, nodes_view, quant_min, quantifier_min, ref_of_parts, referenced_rule};
use crate::fixpoint::{
    Blocked, EvalPolicy, SpecPolicy, eval, eval_all, eval_any, eval_node, lemma_eval_any_all, lemma_eval_any_push, least_fixpoint,
    lfp, ref_value,
};
use crate::graph::{adj_edge, adj_rel, lemma_closed_contains_reach, reach_closure, reach_n, reach_set};
use crate::certificates::{
    WellformednessCertificate, bool_text, certificate_checkable, certificate_holds, certificate_refusal, push_bool,
    verify_wellformedness_certificate,
};
use crate::shadowing::text3;
use crate::names::{NameSet, StrMap, str_eq, strs_view};
use crate::annotations::{Annotations, PredicateExpr, PredicateValue, PrimitiveCall, SemanticAnnotation, all_of_rule, ann_opt, rule_level};
use crate::facts::{derefs, literal_kind, pair_view, pairs_view, rule_annotations, seq_emits};
use crate::order::{lemma_lt_asymmetric, seq_lt, sorted_names, strictly_sorted};

verus! {

broadcast use vstd::std_specs::vec::axiom_vec_index_decreases;

/// Satisfiability over an active tree: a reference to a rule pruned from the active tree fails, a
/// reference to a rule no tree defines holds (an external rule), a dead rule fails.
pub open spec fn active_policy(active: Set<Seq<char>>, full: Set<Seq<char>>, dead: Set<Seq<char>>) -> SpecPolicy {
    SpecPolicy { look: true, term: true, defined: active, undef_true: true, undef_false: full, blocked: dead }
}

/// The rules of `ord` satisfiable over the active tree.
pub open spec fn active_sat(active: Map<Seq<char>, ASTNode>, ord: Seq<Seq<char>>, full: Set<Seq<char>>, dead: Set<Seq<char>>) -> Set<Seq<char>> {
    lfp(active, ord, active_policy(active.dom(), full, dead))
}

/// The references of `n` a derivation can positively render: only inside satisfiable contexts,
/// never inside a lookahead, and only to active, satisfiable, living rules.
pub open spec fn pos_edges(n: SpecNode, est: Set<Seq<char>>, p: SpecPolicy) -> Set<Seq<char>>
    decreases n,
{
    match n {
        SpecNode::Or(alts) => pos_edges_any(alts, est, p),
        SpecNode::Sequence(elems) => if eval_all(elems, est, p) {
            pos_edges_all(elems, est, p)
        } else {
            Set::empty()
        },
        SpecNode::Quant(inner, _) => if eval(*inner, est, p) {
            pos_edges(*inner, est, p)
        } else {
            Set::empty()
        },
        SpecNode::Look(_, _) => Set::empty(),
        SpecNode::Group(inner) => pos_edges(*inner, est, p),
        SpecNode::Token(parts) => match ref_of_parts(parts) {
            Some(r) => if p.defined.contains(r) && ref_value(r, est, p) {
                set![r]
            } else {
                Set::empty()
            },
            None => Set::empty(),
        },
    }
}

/// The edges of the satisfiable alternatives.
pub open spec fn pos_edges_any(s: Seq<SpecNode>, est: Set<Seq<char>>, p: SpecPolicy) -> Set<Seq<char>>
    decreases s,
{
    if s.len() == 0 {
        Set::empty()
    } else {
        pos_edges_any(s.drop_last(), est, p).union(if eval(s.last(), est, p) {
            pos_edges(s.last(), est, p)
        } else {
            Set::empty()
        })
    }
}

/// The edges of every element.
pub open spec fn pos_edges_all(s: Seq<SpecNode>, est: Set<Seq<char>>, p: SpecPolicy) -> Set<Seq<char>>
    decreases s,
{
    if s.len() == 0 {
        Set::empty()
    } else {
        pos_edges_all(s.drop_last(), est, p).union(pos_edges(s.last(), est, p))
    }
}

/// Add the positive, satisfiable-context edges of `node` to `out`.
#[verifier::loop_isolation(false)]
fn collect_pos_edges(node: &ASTNode, est: &NameSet, p: &EvalPolicy, out: &mut NameSet)
    ensures
        final(out)@ == old(out)@.union(pos_edges(node@, est@, p.spec())),
    decreases node,
{
    match node {
        ASTNode::Or { alternatives: v } => {
            let mut i: usize = 0;
            while i < v.len()
                invariant
                    i <= v@.len(),
                    out@ == old(out)@.union(pos_edges_any(nodes_view(v@).take(i as int), est@, p.spec())),
                decreases v@.len() - i,
            {
                proof {
                    lemma_nodes_view(v@);
                    assert(nodes_view(v@).take(i + 1) =~= nodes_view(v@).take(i as int).push(node_view(v@[i as int])));
                    assert(nodes_view(v@).take(i + 1).drop_last() =~= nodes_view(v@).take(i as int));
                }
                if eval_node(&v[i], est, p) {
                    collect_pos_edges(&v[i], est, p, out);
                }
                proof {
                    assert(out@ =~= old(out)@.union(pos_edges_any(nodes_view(v@).take(i + 1), est@, p.spec())));
                }
                i = i + 1;
            }
            proof {
                lemma_nodes_view(v@);
                assert(nodes_view(v@).take(i as int) =~= nodes_view(v@));
            }
        },
        ASTNode::Sequence { elements: v } => {
            if eval_node(node, est, p) {
                let mut i: usize = 0;
                while i < v.len()
                    invariant
                        i <= v@.len(),
                        out@ == old(out)@.union(pos_edges_all(nodes_view(v@).take(i as int), est@, p.spec())),
                    decreases v@.len() - i,
                {
                    proof {
                        lemma_nodes_view(v@);
                        assert(nodes_view(v@).take(i + 1) =~= nodes_view(v@).take(i as int).push(node_view(v@[i as int])));
                        assert(nodes_view(v@).take(i + 1).drop_last() =~= nodes_view(v@).take(i as int));
                    }
                    collect_pos_edges(&v[i], est, p, out);
                    proof {
                        assert(out@ =~= old(out)@.union(pos_edges_all(nodes_view(v@).take(i + 1), est@, p.spec())));
                    }
                    i = i + 1;
                }
                proof {
                    lemma_nodes_view(v@);
                    assert(nodes_view(v@).take(i as int) =~= nodes_view(v@));
                }
            } else {
                proof {
                    assert(out@ =~= old(out)@.union(pos_edges(node@, est@, p.spec())));
                }
            }
        },
        ASTNode::Quantified { element, .. } => {
            if eval_node(element, est, p) {
                collect_pos_edges(element, est, p, out);
            } else {
                proof {
                    assert(out@ =~= old(out)@.union(pos_edges(node@, est@, p.spec())));
                }
            }
        },
        ASTNode::Lookahead { .. } => {
            proof {
                assert(out@ =~= old(out)@.union(pos_edges(node@, est@, p.spec())));
            }
        },
        ASTNode::Atom { value } => match value {
            ASTValue::Node(inner) => collect_pos_edges(inner, est, p, out),
            ASTValue::Token(parts) => {
                match referenced_rule(parts) {
                    Some(r) => {
                        if p.defined.contains_key(r.as_str()) && p.ref_holds(r.as_str(), est) {
                            out.insert(r.clone());
                        }
                    },
                    None => {},
                }
                proof {
                    assert(out@ =~= old(out)@.union(pos_edges(node@, est@, p.spec())));
                }
            },
        },
    }
}

/// A prefix grows by one element.
pub proof fn lemma_take_push_contains(s: Seq<Seq<char>>, i: int)
    requires
        0 <= i < s.len(),
    ensures
        forall|a: Seq<char>| #[trigger] s.take(i + 1).contains(a) <==> (s.take(i).contains(a) || a == s[i]),
{
    assert forall|a: Seq<char>| #[trigger] s.take(i + 1).contains(a) <==> (s.take(i).contains(a) || a == s[i]) by {
        if s.take(i + 1).contains(a) {
            let q = choose|q: int| 0 <= q < i + 1 && #[trigger] s.take(i + 1)[q] == a;
            if q < i {
                assert(s.take(i)[q] == a);
            }
        }
        if s.take(i).contains(a) {
            let q = choose|q: int| 0 <= q < i && #[trigger] s.take(i)[q] == a;
            assert(s.take(i + 1)[q] == a);
        }
        if a == s[i] {
            assert(s.take(i + 1)[i] == a);
        }
    }
}

/// The live-edge relation: `a` (active) positively renders `b`.
pub open spec fn live_edge(active: Map<Seq<char>, ASTNode>, p: SpecPolicy, sat: Set<Seq<char>>) -> spec_fn(Seq<char>, Seq<char>) -> bool {
    |a: Seq<char>, b: Seq<char>| active.dom().contains(a) && pos_edges(active[a]@, sat, p).contains(b)
}

/// The entries that can start a parse: active, living and satisfiable.
pub open spec fn live_seeds(entries: Seq<Seq<char>>, p: SpecPolicy, sat: Set<Seq<char>>) -> Set<Seq<char>> {
    Set::new(|e: Seq<char>| entries.contains(e) && p.defined.contains(e) && ref_value(e, sat, p))
}

/// The rules positively reachable from the declared entries over the active tree, `dead` rules
/// treated as removed.
pub open spec fn entry_live(
    active: Map<Seq<char>, ASTNode>,
    ord: Seq<Seq<char>>,
    full: Set<Seq<char>>,
    entries: Seq<Seq<char>>,
    dead: Set<Seq<char>>,
) -> Set<Seq<char>> {
    let p = active_policy(active.dom(), full, dead);
    let sat = active_sat(active, ord, full, dead);
    reach_set(live_edge(active, p, sat), live_seeds(entries, p, sat))
}

/// The rules positively reachable from the declared entry universe over the active
/// (profile-filtered) tree, along references in satisfiable contexts only, with `dead` rules
/// treated as removed.
pub fn profile_entry_positively_live(
    active: &StrMap<ASTNode>,
    rule_order: &[String],
    full_defined: &NameSet,
    entries: &[String],
    dead: &NameSet,
) -> (r: NameSet)
    ensures
        r@ == entry_live(active@, strs_view(rule_order@), full_defined@, strs_view(entries@), dead@),
{
    let p = EvalPolicy {
        look: true,
        term: true,
        defined: active,
        undef_true: true,
        undef_false: Some(full_defined),
        blocked: Blocked::Listed(dead),
    };
    let ghost sp = p.spec();
    proof {
        assert(sp == active_policy(active@.dom(), full_defined@, dead@));
    }
    let sat = least_fixpoint(rule_order, &p);
    let ghost g = active@;
    // Every active rule's live edges.
    let mut adj: StrMap<NameSet> = StrMap::new();
    let n = active.len();
    let mut i: usize = 0;
    while i < n
        invariant
            n == active.key_seq().len(),
            active.key_seq().no_duplicates(),
            g.dom() == active.key_seq().to_set(),
            forall|j: int| 0 <= j < n ==> #[trigger] g[active.key_seq()[j]] == active.val_seq()[j],
            sp == p.spec(),
            g == active@,
            i <= n,
            forall|a: Seq<char>| #[trigger] adj@.dom().contains(a) <==> active.key_seq().take(i as int).contains(a),
            forall|a: Seq<char>| #[trigger] adj@.dom().contains(a) ==> adj@[a]@ == pos_edges(g[a]@, sat@, sp),
        decreases n - i,
    {
        let k = active.key_at(i);
        let body = active.value_at(i);
        let mut edges = NameSet::new();
        collect_pos_edges(body, &sat, &p, &mut edges);
        proof {
            assert(edges@ =~= pos_edges(g[k@]@, sat@, sp));
            assert(active.key_seq().take(i + 1) =~= active.key_seq().take(i as int).push(k@));
        }
        adj.insert(k.clone(), edges);
        proof {
            lemma_take_push_contains(active.key_seq(), i as int);
        }
        i = i + 1;
    }
    proof {
        assert(active.key_seq().take(n as int) =~= active.key_seq());
    }
    // The entries that can start a parse.
    let mut seeds = NameSet::new();
    let mut j: usize = 0;
    while j < entries.len()
        invariant
            sp == p.spec(),
            sp.defined == active@.dom(),
            j <= entries@.len(),
            forall|e: Seq<char>| #[trigger] seeds@.contains(e) <==> strs_view(entries@).take(j as int).contains(e) && sp.defined.contains(e)
                && ref_value(e, sat@, sp),
        decreases entries@.len() - j,
    {
        let e = &entries[j];
        proof {
            assert(strs_view(entries@).take(j + 1) =~= strs_view(entries@).take(j as int).push(e@));
        }
        if active.contains_key(e.as_str()) && p.ref_holds(e.as_str(), &sat) {
            seeds.insert(e.clone());
        }
        proof {
            lemma_take_push_contains(strs_view(entries@), j as int);
            assert(strs_view(entries@)[j as int] == e@);
            assert forall|x: Seq<char>| #[trigger] seeds@.contains(x) <==> strs_view(entries@).take(j + 1).contains(x) && sp.defined.contains(x)
                && ref_value(x, sat@, sp) by {
                assert(strs_view(entries@).take(j + 1).contains(x) == (strs_view(entries@).take(j as int).contains(x) || x == e@));
            }
        }
        j = j + 1;
    }
    proof {
        assert(strs_view(entries@).take(j as int) =~= strs_view(entries@));
        assert(seeds@ =~= live_seeds(strs_view(entries@), sp, sat@));
        assert(adj_rel(adj@) =~= live_edge(g, sp, sat@)) by {
            assert forall|a: Seq<char>, b: Seq<char>| #[trigger] adj_rel(adj@)(a, b) == live_edge(g, sp, sat@)(a, b) by {
                assert(adj_edge(adj@, a, b) == live_edge(g, sp, sat@)(a, b));
            }
        }
    }
    reach_closure(&adj, &seeds)
}


// ---------------------------------------------------------------------------------------------
// Fact-store gates
// ---------------------------------------------------------------------------------------------

/// The fact kind a primitive call requires present for the call to hold: `has_fact` and
/// `fact_attribute_equals` always, `fact_count_at_least` only with a literal count of at least one.
pub open spec fn positive_kind(c: PrimitiveCall) -> Option<Seq<char>> {
    if c.args@.len() == 0 {
        None
    } else if c.name@ == "has_fact"@ || c.name@ == "fact_attribute_equals"@ {
        literal_kind(c.args@[0])
    } else if c.name@ == "fact_count_at_least"@ && c.args@.len() > 1 && (c.args@[1] matches PredicateValue::IntLit(n) && n >= 1) {
        literal_kind(c.args@[0])
    } else {
        None
    }
}

/// The fact kinds a predicate requires present for the whole expression to hold: a conjunction
/// requires what either side requires, a disjunction what both sides require; a negation, a
/// comparison or a membership test requires nothing.
pub open spec fn required_kinds(e: PredicateExpr) -> Set<Seq<char>>
    decreases e,
{
    match e {
        PredicateExpr::Call(c) => match positive_kind(c) {
            Some(k) => set![k],
            None => Set::empty(),
        },
        PredicateExpr::And(a, b) => required_kinds(*a).union(required_kinds(*b)),
        PredicateExpr::Or(a, b) => required_kinds(*a).intersect(required_kinds(*b)),
        _ => Set::empty(),
    }
}

pub open spec fn ann_required(x: SemanticAnnotation) -> Set<Seq<char>> {
    match x {
        SemanticAnnotation::Predicate { expr, .. } => required_kinds(expr),
        _ => Set::empty(),
    }
}

/// The fact kinds the rule-level predicates of `r` require (branch-level ones only gate their
/// branch).
pub open spec fn gate_kinds(a: Annotations, r: Seq<char>) -> Set<Seq<char>> {
    Set::new(|k: Seq<char>| exists|i: int| 0 <= i < rule_level(a, r).len() && #[trigger] ann_required(rule_level(a, r)[i]).contains(k))
}

/// Does some rule carry a rule-level gate?
pub open spec fn gates_any(a: Annotations) -> bool {
    exists|r: Seq<char>| #[trigger] gate_kinds(a, r) != Set::<Seq<char>>::empty()
}

/// The kinds `r` emits, on any surface.
pub open spec fn emitted_by(a: Annotations, r: Seq<char>) -> Set<Seq<char>> {
    Set::new(|k: Seq<char>| seq_emits(all_of_rule(a, r), k))
}

/// The kinds some rule of `live` emits.
pub open spec fn producible(a: Annotations, live: Set<Seq<char>>) -> Set<Seq<char>> {
    Set::new(|k: Seq<char>| exists|r: Seq<char>| live.contains(r) && #[trigger] emitted_by(a, r).contains(k))
}

/// Does `r` import from a library, on any surface?
pub open spec fn imports_library(a: Annotations, r: Seq<char>) -> bool {
    exists|i: int| 0 <= i < all_of_rule(a, r).len() && (#[trigger] all_of_rule(a, r)[i] matches SemanticAnnotation::ImportFromLibrary { .. })
}

fn literal_kind_of(v: &PredicateValue) -> (r: Option<&String>)
    ensures
        match r {
            Some(k) => literal_kind(*v) == Some(k@),
            None => literal_kind(*v) is None,
        },
{
    match v {
        PredicateValue::StringLit(s) => Some(s),
        PredicateValue::IdentLit(s) => Some(s),
        _ => None,
    }
}

fn positive_kind_of(c: &PrimitiveCall) -> (r: Option<&String>)
    ensures
        match r {
            Some(k) => positive_kind(*c) == Some(k@),
            None => positive_kind(*c) is None,
        },
{
    if c.args.len() == 0 {
        return None;
    }
    if str_eq(c.name.as_str(), "has_fact") || str_eq(c.name.as_str(), "fact_attribute_equals") {
        literal_kind_of(&c.args[0])
    } else if str_eq(c.name.as_str(), "fact_count_at_least") && c.args.len() > 1 && match c.args[1] {
        PredicateValue::IntLit(n) => n >= 1,
        _ => false,
    } {
        literal_kind_of(&c.args[0])
    } else {
        None
    }
}

/// Add every name of `b` to `out`.
fn union_into(out: &mut NameSet, b: &NameSet)
    ensures
        final(out)@ == old(out)@.union(b@),
{
    let n = b.len();
    let mut i: usize = 0;
    while i < n
        invariant
            n == b.elems().len(),
            i <= n,
            out@ == old(out)@.union(b.elems().take(i as int).to_set()),
        decreases n - i,
    {
        let x = b.get(i);
        proof {
            assert(b.elems().take(i + 1) =~= b.elems().take(i as int).push(x@));
            crate::names::lemma_push_to_set_pub(b.elems().take(i as int), x@);
        }
        out.insert(x.clone());
        proof {
            assert(out@ =~= old(out)@.union(b.elems().take(i + 1).to_set()));
        }
        i = i + 1;
    }
    proof {
        assert(b.elems().take(n as int) =~= b.elems());
    }
}

/// The names in both sets.
fn intersect(a: &NameSet, b: &NameSet) -> (r: NameSet)
    ensures
        r@ == a@.intersect(b@),
{
    let mut out = NameSet::new();
    let n = a.len();
    let mut i: usize = 0;
    while i < n
        invariant
            n == a.elems().len(),
            i <= n,
            out@ == a.elems().take(i as int).to_set().intersect(b@),
        decreases n - i,
    {
        let x = a.get(i);
        proof {
            assert(a.elems().take(i + 1) =~= a.elems().take(i as int).push(x@));
            crate::names::lemma_push_to_set_pub(a.elems().take(i as int), x@);
        }
        if b.contains(x.as_str()) {
            out.insert(x.clone());
        }
        proof {
            assert(out@ =~= a.elems().take(i + 1).to_set().intersect(b@));
        }
        i = i + 1;
    }
    proof {
        assert(a.elems().take(n as int) =~= a.elems());
    }
    out
}

/// The fact kinds `e` requires present.
fn required_kinds_of(e: &PredicateExpr) -> (r: NameSet)
    ensures
        r@ == required_kinds(*e),
    decreases e,
{
    match e {
        PredicateExpr::Call(c) => {
            let mut out = NameSet::new();
            match positive_kind_of(c) {
                Some(k) => {
                    out.insert(k.clone());
                    proof {
                        assert(out@ =~= set![k@]);
                    }
                },
                None => {},
            }
            out
        },
        PredicateExpr::And(a, b) => {
            let mut out = required_kinds_of(a);
            let rb = required_kinds_of(b);
            union_into(&mut out, &rb);
            out
        },
        PredicateExpr::Or(a, b) => {
            let ra = required_kinds_of(a);
            let rb = required_kinds_of(b);
            intersect(&ra, &rb)
        },
        _ => {
            let out = NameSet::new();
            proof {
                assert(out@ =~= required_kinds(*e));
            }
            out
        },
    }
}

/// The fact kinds the rule-level predicates of `rule` require.
fn gate_kinds_of(a: &Annotations, rule: &str) -> (r: NameSet)
    ensures
        r@ == gate_kinds(*a, rule@),
{
    let mut out = NameSet::new();
    match a.semantic_annotations.get(rule) {
        Some(v) => {
            let mut i: usize = 0;
            while i < v.len()
                invariant
                    v@ == rule_level(*a, rule@),
                    i <= v@.len(),
                    forall|k: Seq<char>| #[trigger] out@.contains(k) <==> exists|j: int| 0 <= j < i && #[trigger] ann_required(v@[j]).contains(k),
                decreases v@.len() - i,
            {
                let ghost before = out@;
                match &v[i] {
                    SemanticAnnotation::Predicate { expr, .. } => {
                        let req = required_kinds_of(expr);
                        union_into(&mut out, &req);
                    },
                    _ => {},
                }
                proof {
                    assert(out@ =~= before.union(ann_required(v@[i as int])));
                    assert forall|k: Seq<char>| #[trigger] out@.contains(k) <==> exists|j: int| 0 <= j < i + 1 && #[trigger] ann_required(v@[j]).contains(k) by {
                        if ann_required(v@[i as int]).contains(k) {
                        }
                    }
                }
                i = i + 1;
            }
            proof {
                assert(out@ =~= gate_kinds(*a, rule@));
            }
        },
        None => {
            proof {
                assert(out@ =~= gate_kinds(*a, rule@));
            }
        },
    }
    out
}

/// Add the kinds `rule` emits to `out`.
fn add_emitted(a: &Annotations, rule: &str, out: &mut NameSet)
    ensures
        final(out)@ == old(out)@.union(emitted_by(*a, rule@)),
{
    let anns = rule_annotations(a, rule);
    let ghost s = all_of_rule(*a, rule@);
    let mut k: usize = 0;
    while k < anns.len()
        invariant
            derefs(anns@) == s,
            k <= anns@.len(),
            forall|x: Seq<char>| #[trigger] out@.contains(x) <==> (old(out)@.contains(x) || seq_emits(s.take(k as int), x)),
        decreases anns@.len() - k,
    {
        proof {
            assert(s[k as int] == *anns@[k as int]);
        }
        match anns[k] {
            SemanticAnnotation::EmitFact { kind } => {
                out.insert(kind.clone());
            },
            _ => {},
        }
        proof {
            assert forall|x: Seq<char>| #[trigger] out@.contains(x) <==> (old(out)@.contains(x) || seq_emits(s.take(k + 1), x)) by {
                if seq_emits(s.take(k + 1), x) && !seq_emits(s.take(k as int), x) {
                    let j = choose|j: int| 0 <= j < s.take(k + 1).len() && (#[trigger] s.take(k + 1)[j] matches SemanticAnnotation::EmitFact { kind } && kind@ == x);
                    if j < k {
                        assert(s.take(k as int)[j] == s.take(k + 1)[j]);
                    }
                }
                if seq_emits(s.take(k as int), x) {
                    let j = choose|j: int| 0 <= j < s.take(k as int).len() && (#[trigger] s.take(k as int)[j] matches SemanticAnnotation::EmitFact { kind } && kind@ == x);
                    assert(s.take(k + 1)[j] == s.take(k as int)[j]);
                }
                if s[k as int] matches SemanticAnnotation::EmitFact { kind } && kind@ == x {
                    assert(s.take(k + 1)[k as int] == s[k as int]);
                }
            }
        }
        k = k + 1;
    }
    proof {
        assert(s.take(anns@.len() as int) =~= s);
        assert(final(out)@ =~= old(out)@.union(emitted_by(*a, rule@)));
    }
}

/// Does `rule` import from a library, on any surface?
fn rule_imports_library(a: &Annotations, rule: &str) -> (r: bool)
    ensures
        r == imports_library(*a, rule@),
{
    let anns = rule_annotations(a, rule);
    let ghost s = all_of_rule(*a, rule@);
    let mut k: usize = 0;
    while k < anns.len()
        invariant
            derefs(anns@) == s,
            k <= anns@.len(),
            s == all_of_rule(*a, rule@),
            forall|j: int| 0 <= j < k ==> !(#[trigger] s[j] matches SemanticAnnotation::ImportFromLibrary { .. }),
        decreases anns@.len() - k,
    {
        proof {
            assert(s[k as int] == *anns@[k as int]);
        }
        match anns[k] {
            SemanticAnnotation::ImportFromLibrary { .. } => {
                proof {
                    assert(all_of_rule(*a, rule@)[k as int] matches SemanticAnnotation::ImportFromLibrary { .. });
                }
                return true;
            },
            _ => {},
        }
        k = k + 1;
    }
    false
}

/// The kinds some rule of `live` emits.
fn producible_kinds(a: &Annotations, live: &NameSet) -> (r: NameSet)
    ensures
        r@ == producible(*a, live@),
{
    let mut out = NameSet::new();
    let n = live.len();
    let mut i: usize = 0;
    while i < n
        invariant
            n == live.elems().len(),
            live@ == live.elems().to_set(),
            i <= n,
            forall|k: Seq<char>| #[trigger] out@.contains(k) <==> exists|j: int| 0 <= j < i && #[trigger] emitted_by(*a, live.elems()[j]).contains(k),
        decreases n - i,
    {
        let r = live.get(i);
        let ghost before = out@;
        add_emitted(a, r.as_str(), &mut out);
        proof {
            assert forall|k: Seq<char>| #[trigger] out@.contains(k) <==> exists|j: int| 0 <= j < i + 1 && #[trigger] emitted_by(*a, live.elems()[j]).contains(k) by {
                if emitted_by(*a, r@).contains(k) {
                    assert(emitted_by(*a, live.elems()[i as int]).contains(k));
                }
                if exists|j: int| 0 <= j < i + 1 && #[trigger] emitted_by(*a, live.elems()[j]).contains(k) {
                    let j = choose|j: int| 0 <= j < i + 1 && #[trigger] emitted_by(*a, live.elems()[j]).contains(k);
                    if j == i {
                        assert(live.elems()[j] == r@);
                    }
                }
            }
        }
        i = i + 1;
    }
    proof {
        assert forall|k: Seq<char>| #[trigger] out@.contains(k) <==> producible(*a, live@).contains(k) by {
            if out@.contains(k) {
                let j = choose|j: int| 0 <= j < n && #[trigger] emitted_by(*a, live.elems()[j]).contains(k);
                assert(live.elems().to_set().contains(live.elems()[j]));
            }
            if producible(*a, live@).contains(k) {
                let r = choose|r: Seq<char>| live@.contains(r) && #[trigger] emitted_by(*a, r).contains(k);
                assert(live.elems().contains(r));
                let j = choose|j: int| 0 <= j < live.elems().len() && live.elems()[j] == r;
                assert(emitted_by(*a, live.elems()[j]).contains(k));
            }
        }
        assert(out@ =~= producible(*a, live@));
    }
    out
}


// ---------------------------------------------------------------------------------------------
// The store fixpoint
// ---------------------------------------------------------------------------------------------

/// The least (by name order) gate kind outside `prod`.
pub open spec fn least_unproducible(gates: Set<Seq<char>>, prod: Set<Seq<char>>) -> Seq<char> {
    choose|k: Seq<char>| is_least_unproducible(gates, prod, k)
}

pub open spec fn is_least_unproducible(gates: Set<Seq<char>>, prod: Set<Seq<char>>, k: Seq<char>) -> bool {
    &&& gates.contains(k)
    &&& !prod.contains(k)
    &&& forall|k2: Seq<char>| #[trigger] gates.contains(k2) && !prod.contains(k2) ==> k2 == k || seq_lt(k, k2)
}

proof fn lemma_least_unique(gates: Set<Seq<char>>, prod: Set<Seq<char>>, k: Seq<char>)
    requires
        is_least_unproducible(gates, prod, k),
    ensures
        least_unproducible(gates, prod) == k,
{
    let c = least_unproducible(gates, prod);
    assert(is_least_unproducible(gates, prod, c));
    lemma_lt_asymmetric(c, k);
}

/// The rules that die at this round: listed, live, not yet dead, and gated on a kind no live rule
/// emits.
pub open spec fn newly_dead(
    active: Map<Seq<char>, ASTNode>,
    ord: Seq<Seq<char>>,
    full: Set<Seq<char>>,
    entries: Seq<Seq<char>>,
    a: Annotations,
    dead: Map<Seq<char>, Seq<char>>,
) -> Set<Seq<char>> {
    let live = entry_live(active, ord, full, entries, dead.dom());
    let prod = producible(a, live);
    Set::new(|r: Seq<char>| ord.contains(r) && live.contains(r) && !dead.dom().contains(r) && !gate_kinds(a, r).subset_of(prod))
}

/// One round: the dead rules so far, each with its unproducible gate kind, plus this round's.
pub open spec fn store_step(
    active: Map<Seq<char>, ASTNode>,
    ord: Seq<Seq<char>>,
    full: Set<Seq<char>>,
    entries: Seq<Seq<char>>,
    a: Annotations,
    dead: Map<Seq<char>, Seq<char>>,
) -> Map<Seq<char>, Seq<char>> {
    let prod = producible(a, entry_live(active, ord, full, entries, dead.dom()));
    let newly = newly_dead(active, ord, full, entries, a, dead);
    Map::new(
        |r: Seq<char>| dead.dom().contains(r) || newly.contains(r),
        |r: Seq<char>| if dead.dom().contains(r) {
            dead[r]
        } else {
            least_unproducible(gate_kinds(a, r), prod)
        },
    )
}

pub open spec fn store_iter(
    active: Map<Seq<char>, ASTNode>,
    ord: Seq<Seq<char>>,
    full: Set<Seq<char>>,
    entries: Seq<Seq<char>>,
    a: Annotations,
    n: nat,
) -> Map<Seq<char>, Seq<char>>
    decreases n,
{
    if n == 0 {
        Map::empty()
    } else {
        store_step(active, ord, full, entries, a, store_iter(active, ord, full, entries, a, (n - 1) as nat))
    }
}

/// `d` is where the rounds stop changing.
pub open spec fn is_store_fix(
    active: Map<Seq<char>, ASTNode>,
    ord: Seq<Seq<char>>,
    full: Set<Seq<char>>,
    entries: Seq<Seq<char>>,
    a: Annotations,
    d: Map<Seq<char>, Seq<char>>,
) -> bool {
    &&& exists|n: nat| #[trigger] store_iter(active, ord, full, entries, a, n) == d
    &&& store_step(active, ord, full, entries, a, d) == d
}

/// The rules dead by the store fixpoint, each with its unproducible gate kind.
pub open spec fn store_dead(
    active: Map<Seq<char>, ASTNode>,
    ord: Seq<Seq<char>>,
    full: Set<Seq<char>>,
    entries: Seq<Seq<char>>,
    a: Annotations,
) -> Map<Seq<char>, Seq<char>> {
    choose|d: Map<Seq<char>, Seq<char>>| is_store_fix(active, ord, full, entries, a, d)
}

proof fn lemma_iter_stable(
    active: Map<Seq<char>, ASTNode>,
    ord: Seq<Seq<char>>,
    full: Set<Seq<char>>,
    entries: Seq<Seq<char>>,
    a: Annotations,
    n: nat,
    m: nat,
)
    requires
        store_step(active, ord, full, entries, a, store_iter(active, ord, full, entries, a, n)) == store_iter(active, ord, full, entries, a, n),
    ensures
        store_iter(active, ord, full, entries, a, n + m) == store_iter(active, ord, full, entries, a, n),
    decreases m,
{
    if m > 0 {
        lemma_iter_stable(active, ord, full, entries, a, n, (m - 1) as nat);
        assert(store_iter(active, ord, full, entries, a, n + m) == store_step(active, ord, full, entries, a, store_iter(active, ord, full, entries, a, (n + m - 1) as nat)));
    }
}

/// The rounds stop at one place only.
proof fn lemma_store_fix_unique(
    active: Map<Seq<char>, ASTNode>,
    ord: Seq<Seq<char>>,
    full: Set<Seq<char>>,
    entries: Seq<Seq<char>>,
    a: Annotations,
    d: Map<Seq<char>, Seq<char>>,
)
    requires
        is_store_fix(active, ord, full, entries, a, d),
    ensures
        store_dead(active, ord, full, entries, a) == d,
{
    let c = store_dead(active, ord, full, entries, a);
    assert(is_store_fix(active, ord, full, entries, a, c));
    let n1 = choose|n: nat| #[trigger] store_iter(active, ord, full, entries, a, n) == d;
    let n2 = choose|n: nat| #[trigger] store_iter(active, ord, full, entries, a, n) == c;
    if n1 <= n2 {
        lemma_iter_stable(active, ord, full, entries, a, n1, (n2 - n1) as nat);
        assert(n1 + (n2 - n1) as nat == n2);
    } else {
        lemma_iter_stable(active, ord, full, entries, a, n2, (n1 - n2) as nat);
        assert(n2 + (n1 - n2) as nat == n1);
    }
}

/// The least gate kind outside `prod`, if any.
fn first_unproducible(gates: &NameSet, prod: &NameSet) -> (r: Option<String>)
    ensures
        match r {
            Some(k) => !gates@.subset_of(prod@) && k@ == least_unproducible(gates@, prod@),
            None => gates@.subset_of(prod@),
        },
{
    let sorted = sorted_names(gates);
    let ghost sv = strs_view(sorted@);
    let mut q: usize = 0;
    while q < sorted.len()
        invariant
            sv == strs_view(sorted@),
            strictly_sorted(sv),
            sv.to_set() == gates@,
            q <= sv.len(),
            forall|j: int| 0 <= j < q ==> prod@.contains(#[trigger] sv[j]),
        decreases sv.len() - q,
    {
        if !prod.contains(sorted[q].as_str()) {
            let k = sorted[q].clone();
            proof {
                assert(sv[q as int] == k@);
                assert(gates@.contains(k@));
                assert forall|k2: Seq<char>| #[trigger] gates@.contains(k2) && !prod@.contains(k2) implies k2 == k@ || seq_lt(k@, k2) by {
                    assert(sv.contains(k2));
                    let j = choose|j: int| 0 <= j < sv.len() && sv[j] == k2;
                    if j < q {
                        assert(prod@.contains(sv[j]));
                    } else if j > q {
                        assert(seq_lt(sv[q as int], sv[j]));
                    }
                }
                lemma_least_unique(gates@, prod@, k@);
            }
            return Some(k);
        }
        q = q + 1;
    }
    proof {
        assert forall|x: Seq<char>| gates@.contains(x) implies prod@.contains(x) by {
            assert(sv.contains(x));
            let j = choose|j: int| 0 <= j < sv.len() && sv[j] == x;
            assert(prod@.contains(sv[j]));
        }
    }
    None
}

pub open spec fn kinds_view(m: Map<Seq<char>, String>) -> Map<Seq<char>, Seq<char>> {
    m.map_values(|s: String| s@)
}

/// A list without repetition whose names all occur in `ord` is no longer than `ord`.
proof fn lemma_distinct_within(keys: Seq<Seq<char>>, ord: Seq<Seq<char>>)
    requires
        keys.no_duplicates(),
        forall|i: int| 0 <= i < keys.len() ==> ord.contains(#[trigger] keys[i]),
    ensures
        keys.len() <= ord.len(),
{
    keys.unique_seq_to_set();
    ord.lemma_cardinality_of_set();
    assert(keys.to_set().subset_of(ord.to_set())) by {
        assert forall|x: Seq<char>| keys.to_set().contains(x) implies ord.to_set().contains(x) by {
            let i = choose|i: int| 0 <= i < keys.len() && keys[i] == x;
        }
    }
    vstd::set_lib::lemma_len_subset(keys.to_set(), ord.to_set());
}

/// Run the store rounds to their fixpoint: the dead rules, each with its unproducible gate kind.
fn store_fixpoint(active: &StrMap<ASTNode>, rule_order: &[String], full_defined: &NameSet, entries: &[String], a: &Annotations) -> (r: StrMap<String>)
    ensures
        is_store_fix(active@, strs_view(rule_order@), full_defined@, strs_view(entries@), *a, kinds_view(r@)),
{
    let ghost ord = strs_view(rule_order@);
    let ghost g = active@;
    let ghost fd = full_defined@;
    let ghost en = strs_view(entries@);
    let mut dead_reason: StrMap<String> = StrMap::new();
    let mut dead_set = NameSet::new();
    let ghost mut n: nat = 0;
    let mut done = false;
    proof {
        assert(kinds_view(dead_reason@) =~= Map::<Seq<char>, Seq<char>>::empty());
    }
    while !done
        invariant
            ord == strs_view(rule_order@),
            g == active@,
            fd == full_defined@,
            en == strs_view(entries@),
            kinds_view(dead_reason@) == store_iter(g, ord, fd, en, *a, n),
            dead_set@ == dead_reason@.dom(),
            forall|x: Seq<char>| #[trigger] dead_reason@.dom().contains(x) ==> ord.contains(x),
            dead_reason.key_seq().len() <= ord.len(),
            done ==> store_step(g, ord, fd, en, *a, kinds_view(dead_reason@)) == kinds_view(dead_reason@),
        decreases ord.len() - dead_reason.key_seq().len() + (if done { 0int } else { 1int }),
    {
        let live_now = profile_entry_positively_live(active, rule_order, full_defined, entries, &dead_set);
        let prod = producible_kinds(a, &live_now);
        let ghost d0 = kinds_view(dead_reason@);
        let ghost next = store_step(g, ord, fd, en, *a, d0);
        let ghost newly = newly_dead(g, ord, fd, en, *a, d0);
        let ghost k0 = dead_reason.key_seq().len();
        proof {
            assert(d0.dom() == dead_set@);
            assert(live_now@ == entry_live(g, ord, fd, en, d0.dom()));
        }
        let mut changed = false;
        let mut i: usize = 0;
        while i < rule_order.len()
            invariant
                ord == strs_view(rule_order@),
                g == active@,
                fd == full_defined@,
                en == strs_view(entries@),
                d0 == store_iter(g, ord, fd, en, *a, n),
                next == store_step(g, ord, fd, en, *a, d0),
                newly == newly_dead(g, ord, fd, en, *a, d0),
                live_now@ == entry_live(g, ord, fd, en, d0.dom()),
                prod@ == producible(*a, live_now@),
                i <= rule_order@.len(),
                kinds_view(dead_reason@) == Map::new(
                    |r: Seq<char>| d0.dom().contains(r) || (newly.contains(r) && ord.take(i as int).contains(r)),
                    |r: Seq<char>| next[r],
                ),
                dead_set@ == dead_reason@.dom(),
                dead_reason.key_seq().len() >= k0,
                changed ==> dead_reason.key_seq().len() > k0,
                !changed ==> forall|r: Seq<char>| !(#[trigger] newly.contains(r) && ord.take(i as int).contains(r)),
            decreases rule_order@.len() - i,
        {
            let rule = &rule_order[i];
            let _len = dead_reason.len();
            proof {
                lemma_take_push_contains(ord, i as int);
                assert(ord[i as int] == rule@);
            }
            let is_live = live_now.contains(rule.as_str());
            let known = dead_reason.contains_key(rule.as_str());
            let ghost was_changed = changed;
            proof {
                assert(kinds_view(dead_reason@).dom().contains(rule@) == known);
            }
            if is_live && !known {
                let gates = gate_kinds_of(a, rule.as_str());
                match first_unproducible(&gates, &prod) {
                    Some(k) => {
                        let ghost before = kinds_view(dead_reason@);
                        let ghost raw = dead_reason@;
                        proof {
                            assert(before.dom().contains(rule@) == raw.dom().contains(rule@));
                            assert(!d0.dom().contains(rule@));
                            assert(ord.contains(rule@)) by {
                                assert(ord[i as int] == rule@);
                            }
                            assert(newly.contains(rule@));
                            assert(next[rule@] == k@);
                        }
                        dead_reason.insert(rule.clone(), k);
                        dead_set.insert(rule.clone());
                        changed = true;
                        let _len2 = dead_reason.len();
                        proof {
                            assert(dead_reason@ == raw.insert(rule@, k));
                            assert(kinds_view(dead_reason@) =~= before.insert(rule@, k@));
                            assert(kinds_view(dead_reason@) =~= Map::new(
                                |r: Seq<char>| d0.dom().contains(r) || (newly.contains(r) && ord.take(i + 1).contains(r)),
                                |r: Seq<char>| next[r],
                            ));
                        }
                    },
                    None => {
                        proof {
                            assert(!newly.contains(rule@));
                            assert(kinds_view(dead_reason@) =~= Map::new(
                                |r: Seq<char>| d0.dom().contains(r) || (newly.contains(r) && ord.take(i + 1).contains(r)),
                                |r: Seq<char>| next[r],
                            ));
                        }
                    },
                }
            } else {
                proof {
                    assert(kinds_view(dead_reason@) =~= Map::new(
                        |r: Seq<char>| d0.dom().contains(r) || (newly.contains(r) && ord.take(i + 1).contains(r)),
                        |r: Seq<char>| next[r],
                    ));
                }
            }
            proof {
                if !changed {
                    assert(!was_changed);
                    assert forall|r: Seq<char>| !(#[trigger] newly.contains(r) && ord.take(i + 1).contains(r)) by {
                        if newly.contains(r) && ord.take(i + 1).contains(r) {
                            assert(r == rule@);
                            if known {
                                assert(d0.dom().contains(r));
                            }
                        }
                    }
                }
            }
            i = i + 1;
        }
        let _len3 = dead_reason.len();
        proof {
            assert(ord.take(i as int) =~= ord);
            assert(kinds_view(dead_reason@) =~= next);
            assert forall|x: Seq<char>| #[trigger] dead_reason@.dom().contains(x) implies ord.contains(x) by {
                assert(kinds_view(dead_reason@).dom().contains(x));
            }
            assert forall|j: int| 0 <= j < dead_reason.key_seq().len() implies ord.contains(#[trigger] dead_reason.key_seq()[j]) by {
                assert(dead_reason.key_seq().to_set().contains(dead_reason.key_seq()[j]));
            }
            lemma_distinct_within(dead_reason.key_seq(), ord);
            n = n + 1;
            assert(store_iter(g, ord, fd, en, *a, n) == next);
        }
        if !changed {
            proof {
                assert(newly =~= Set::<Seq<char>>::empty());
                assert(next =~= d0);
            }
            done = true;
        }
    }
    dead_reason
}


// ---------------------------------------------------------------------------------------------
// Forcing rules
// ---------------------------------------------------------------------------------------------

/// The first rule outside `live` (but defined somewhere) that every derivation of `n` must
/// enter, if there is one: an ordered choice forces only when every alternative does (naming the
/// first alternative's), a sequence when any element does, a repetition only with a minimum of at
/// least one, a lookahead never.
pub open spec fn forced(n: SpecNode, live: Set<Seq<char>>, full: Set<Seq<char>>) -> Option<Seq<char>>
    decreases n,
{
    match n {
        SpecNode::Or(alts) => forced_or(alts, live, full),
        SpecNode::Sequence(elems) => forced_seq(elems, live, full),
        SpecNode::Quant(inner, q) => if quant_min(q) >= 1 {
            forced(*inner, live, full)
        } else {
            None
        },
        SpecNode::Look(_, _) => None,
        SpecNode::Group(inner) => forced(*inner, live, full),
        SpecNode::Token(parts) => match ref_of_parts(parts) {
            Some(r) => if full.contains(r) && !live.contains(r) {
                Some(r)
            } else {
                None
            },
            None => None,
        },
    }
}

pub open spec fn forced_or(s: Seq<SpecNode>, live: Set<Seq<char>>, full: Set<Seq<char>>) -> Option<Seq<char>>
    decreases s,
{
    if s.len() == 0 {
        None
    } else if s.len() == 1 {
        forced(s[0], live, full)
    } else {
        match forced(s.last(), live, full) {
            None => None,
            Some(_) => forced_or(s.drop_last(), live, full),
        }
    }
}

pub open spec fn forced_seq(s: Seq<SpecNode>, live: Set<Seq<char>>, full: Set<Seq<char>>) -> Option<Seq<char>>
    decreases s,
{
    if s.len() == 0 {
        None
    } else {
        match forced_seq(s.drop_last(), live, full) {
            Some(x) => Some(x),
            None => forced(s.last(), live, full),
        }
    }
}

pub open spec fn opt_view(o: Option<String>) -> Option<Seq<char>> {
    match o {
        Some(s) => Some(s@),
        None => None,
    }
}

/// The first rule outside `live` that a mandatory descent of `node` must enter.
#[verifier::loop_isolation(false)]
fn mandatory_forces_non_live(node: &ASTNode, live: &NameSet, full: &NameSet) -> (r: Option<String>)
    ensures
        opt_view(r) == forced(node@, live@, full@),
    decreases node,
{
    match node {
        ASTNode::Or { alternatives: v } => {
            let mut first: Option<String> = None;
            let mut i: usize = 0;
            while i < v.len()
                invariant
                    i <= v@.len(),
                    i == 0 ==> first is None,
                    i > 0 ==> first is Some && opt_view(first) == forced_or(nodes_view(v@).take(i as int), live@, full@),
                decreases v@.len() - i,
            {
                proof {
                    lemma_nodes_view(v@);
                    assert(nodes_view(v@).take(i + 1).drop_last() =~= nodes_view(v@).take(i as int));
                    assert(nodes_view(v@).take(i + 1).last() == node_view(v@[i as int]));
                    if i == 0 {
                        assert(nodes_view(v@).take(1)[0] == node_view(v@[0]));
                    }
                }
                match mandatory_forces_non_live(&v[i], live, full) {
                    Some(x) => {
                        if first.is_none() {
                            first = Some(x);
                        }
                    },
                    None => {
                        proof {
                            lemma_nodes_view(v@);
                            assert(forced_or(nodes_view(v@).take(i + 1), live@, full@) is None);
                            lemma_forced_or_none(nodes_view(v@), live@, full@, i as int);
                        }
                        return None;
                    },
                }
                i = i + 1;
            }
            proof {
                lemma_nodes_view(v@);
                assert(nodes_view(v@).take(i as int) =~= nodes_view(v@));
            }
            first
        },
        ASTNode::Sequence { elements: v } => {
            let mut i: usize = 0;
            while i < v.len()
                invariant
                    i <= v@.len(),
                    forced_seq(nodes_view(v@).take(i as int), live@, full@) is None,
                decreases v@.len() - i,
            {
                proof {
                    lemma_nodes_view(v@);
                    assert(nodes_view(v@).take(i + 1).drop_last() =~= nodes_view(v@).take(i as int));
                    assert(nodes_view(v@).take(i + 1).last() == node_view(v@[i as int]));
                }
                match mandatory_forces_non_live(&v[i], live, full) {
                    Some(x) => {
                        proof {
                            lemma_forced_seq_some(nodes_view(v@), live@, full@, i + 1);
                        }
                        return Some(x);
                    },
                    None => {},
                }
                i = i + 1;
            }
            proof {
                lemma_nodes_view(v@);
                assert(nodes_view(v@).take(i as int) =~= nodes_view(v@));
            }
            None
        },
        ASTNode::Quantified { element, quantifier } => {
            if quantifier_min(quantifier.as_str()) >= 1 {
                mandatory_forces_non_live(element, live, full)
            } else {
                None
            }
        },
        ASTNode::Lookahead { .. } => None,
        ASTNode::Atom { value } => match value {
            ASTValue::Node(inner) => mandatory_forces_non_live(inner, live, full),
            ASTValue::Token(parts) => match referenced_rule(parts) {
                Some(r) => {
                    if full.contains(r.as_str()) && !live.contains(r.as_str()) {
                        Some(r.clone())
                    } else {
                        None
                    }
                },
                None => None,
            },
        },
    }
}

/// Once a prefix of the alternatives has one that forces nothing, so has the whole.
proof fn lemma_forced_or_none(s: Seq<SpecNode>, live: Set<Seq<char>>, full: Set<Seq<char>>, i: int)
    requires
        0 <= i < s.len(),
        forced_or(s.take(i + 1), live, full) is None,
    ensures
        forced_or(s, live, full) is None,
    decreases s.len() - i,
{
    if i + 1 < s.len() {
        let t = s.take(i + 2);
        assert(t.drop_last() =~= s.take(i + 1));
        assert(forced_or(t, live, full) is None);
        lemma_forced_or_none(s, live, full, i + 1);
    } else {
        assert(s.take(i + 1) =~= s);
    }
}

/// Once a prefix of the elements forces a rule, the whole sequence forces that rule.
proof fn lemma_forced_seq_some(s: Seq<SpecNode>, live: Set<Seq<char>>, full: Set<Seq<char>>, i: int)
    requires
        0 <= i <= s.len(),
        forced_seq(s.take(i), live, full) is Some,
    ensures
        forced_seq(s, live, full) == forced_seq(s.take(i), live, full),
    decreases s.len() - i,
{
    if i < s.len() {
        let t = s.take(i + 1);
        assert(t.drop_last() =~= s.take(i));
        lemma_forced_seq_some(s, live, full, i + 1);
    } else {
        assert(s.take(i) =~= s);
    }
}


// ---------------------------------------------------------------------------------------------
// Classifying a residual
// ---------------------------------------------------------------------------------------------

/// The read-only classification of a profile run's residual rules.
#[derive(Debug, Clone, PartialEq, Eq)]
pub struct ProfileResidualClassification {
    /// The declared entry universe the analysis quantified over.
    pub entries: Vec<String>,
    /// Some entry-live rule imports from a library: the store analysis then makes no claim.
    pub degraded_inert: bool,
    /// Residual rules not positively reachable from any declared entry.
    pub profile_entry_unreachable: Vec<String>,
    /// Residual rules entry-live but dead by the store fixpoint, with the reason.
    pub store_unproducible: Vec<(String, String)>,
    /// Residual rules the analysis cannot prove dead.
    pub genuine: Vec<String>,
}

/// The rules positively reachable from the entries with nothing dead.
pub open spec fn live0(active: Map<Seq<char>, ASTNode>, ord: Seq<Seq<char>>, full: Set<Seq<char>>, entries: Seq<Seq<char>>) -> Set<Seq<char>> {
    entry_live(active, ord, full, entries, Set::empty())
}

/// Some entry-live rule imports from a library (facts may then come from outside the parse).
pub open spec fn degraded(a: Option<Annotations>, live: Set<Seq<char>>) -> bool {
    match a {
        Some(x) => imports_any(x, live),
        None => false,
    }
}

/// Some rule of `live` imports from a library.
pub open spec fn imports_any(a: Annotations, live: Set<Seq<char>>) -> bool {
    exists|r: Seq<char>| live.contains(r) && #[trigger] imports_library(a, r)
}

/// The store-dead rules with their gate kinds: the fixpoint, unless there are no annotations, no
/// gates, or the analysis is degraded.
pub open spec fn final_dead(
    active: Map<Seq<char>, ASTNode>,
    ord: Seq<Seq<char>>,
    full: Set<Seq<char>>,
    entries: Seq<Seq<char>>,
    a: Option<Annotations>,
) -> Map<Seq<char>, Seq<char>> {
    match a {
        Some(x) => if !degraded(a, live0(active, ord, full, entries)) && gates_any(x) {
            store_dead(active, ord, full, entries, x)
        } else {
            Map::empty()
        },
        None => Map::empty(),
    }
}

/// The rules still entry-live once the store-dead rules are removed.
pub open spec fn final_live(
    active: Map<Seq<char>, ASTNode>,
    ord: Seq<Seq<char>>,
    full: Set<Seq<char>>,
    entries: Seq<Seq<char>>,
    a: Option<Annotations>,
) -> Set<Seq<char>> {
    entry_live(active, ord, full, entries, final_dead(active, ord, full, entries, a).dom())
}

/// Why an entry-live rule is dead: its own gate, a mandatory reference to a dead rule, or the
/// loss of every path to it.
pub open spec fn store_reason(
    active: Map<Seq<char>, ASTNode>,
    full: Set<Seq<char>>,
    d: Map<Seq<char>, Seq<char>>,
    lf: Set<Seq<char>>,
    u: Seq<char>,
) -> Seq<char> {
    if d.dom().contains(u) {
        "gate kind '"@ + d[u] + "' unproducible"@
    } else {
        match if active.dom().contains(u) {
            forced(active[u]@, lf, full)
        } else {
            None
        } {
            Some(v) => "mandatory descent forces '"@ + v + "'"@,
            None => "stranded by the store fixpoint"@,
        }
    }
}

pub open spec fn is_unreachable_in(l0: Set<Seq<char>>) -> spec_fn(Seq<char>) -> bool {
    |u: Seq<char>| !l0.contains(u)
}

pub open spec fn is_store_dead_in(l0: Set<Seq<char>>, d: Map<Seq<char>, Seq<char>>, lf: Set<Seq<char>>) -> spec_fn(Seq<char>) -> bool {
    |u: Seq<char>| l0.contains(u) && (d.dom().contains(u) || !lf.contains(u))
}

pub open spec fn is_genuine_in(l0: Set<Seq<char>>, d: Map<Seq<char>, Seq<char>>, lf: Set<Seq<char>>) -> spec_fn(Seq<char>) -> bool {
    |u: Seq<char>| l0.contains(u) && !d.dom().contains(u) && lf.contains(u)
}

/// The names of the map's keys.
fn key_set(m: &StrMap<String>) -> (r: NameSet)
    ensures
        r@ == m@.dom(),
{
    let mut out = NameSet::new();
    let n = m.len();
    let mut i: usize = 0;
    while i < n
        invariant
            n == m.key_seq().len(),
            m@.dom() == m.key_seq().to_set(),
            i <= n,
            out@ == m.key_seq().take(i as int).to_set(),
        decreases n - i,
    {
        let k = m.key_at(i);
        proof {
            assert(m.key_seq().take(i + 1) =~= m.key_seq().take(i as int).push(k@));
            crate::names::lemma_push_to_set_pub(m.key_seq().take(i as int), k@);
        }
        out.insert(k.clone());
        i = i + 1;
    }
    proof {
        assert(m.key_seq().take(n as int) =~= m.key_seq());
    }
    out
}

/// Does some rule carry a rule-level gate?
fn has_gates(a: &Annotations) -> (r: bool)
    ensures
        r == gates_any(*a),
{
    let m = &a.semantic_annotations;
    let n = m.len();
    let mut i: usize = 0;
    while i < n
        invariant
            n == m.key_seq().len(),
            m@.dom() == m.key_seq().to_set(),
            m == &a.semantic_annotations,
            i <= n,
            forall|j: int| 0 <= j < i ==> #[trigger] gate_kinds(*a, m.key_seq()[j]) == Set::<Seq<char>>::empty(),
        decreases n - i,
    {
        let k = m.key_at(i);
        let gk = gate_kinds_of(a, k.as_str());
        if !gk.is_empty() {
            proof {
                assert(gk@.len() != 0);
                assert(gate_kinds(*a, k@) != Set::<Seq<char>>::empty());
            }
            return true;
        }
        proof {
            assert(gk@ =~= Set::<Seq<char>>::empty());
        }
        i = i + 1;
    }
    proof {
        assert forall|r: Seq<char>| #[trigger] gate_kinds(*a, r) == Set::<Seq<char>>::empty() by {
            if m@.dom().contains(r) {
                assert(m.key_seq().contains(r));
                let j = choose|j: int| 0 <= j < n && m.key_seq()[j] == r;
                assert(gate_kinds(*a, m.key_seq()[j]) == Set::<Seq<char>>::empty());
            } else {
                assert(rule_level(*a, r) =~= Seq::<SemanticAnnotation>::empty());
                assert(gate_kinds(*a, r) =~= Set::<Seq<char>>::empty());
            }
        }
    }
    false
}

/// Does some rule of `live` import from a library?
fn any_live_import(a: &Annotations, live: &NameSet) -> (r: bool)
    ensures
        r == degraded(Some(*a), live@),
{
    let n = live.len();
    let mut i: usize = 0;
    while i < n
        invariant
            n == live.elems().len(),
            live@ == live.elems().to_set(),
            i <= n,
            forall|j: int| 0 <= j < i ==> !imports_library(*a, #[trigger] live.elems()[j]),
        decreases n - i,
    {
        let r = live.get(i);
        if rule_imports_library(a, r.as_str()) {
            proof {
                assert(live.elems()[i as int] == r@);
                assert(live.elems().contains(r@));
                assert(live@.contains(r@));
                assert(imports_library(*a, r@));
                assert(imports_any(*a, live@));
            }
            return true;
        }
        i = i + 1;
    }
    proof {
        assert forall|r: Seq<char>| live@.contains(r) implies !#[trigger] imports_library(*a, r) by {
            assert(live.elems().contains(r));
            let j = choose|j: int| 0 <= j < n && live.elems()[j] == r;
            assert(!imports_library(*a, live.elems()[j]));
        }
    }
    false
}

/// The store-dead rules with their reasons (empty when the analysis does not run).
fn final_dead_of(
    active: &StrMap<ASTNode>,
    rule_order: &[String],
    full_defined: &NameSet,
    entries: &[String],
    annotations: Option<&Annotations>,
    degraded_inert: bool,
) -> (r: StrMap<String>)
    requires
        degraded_inert == degraded(ann_opt(annotations), live0(active@, strs_view(rule_order@), full_defined@, strs_view(entries@))),
    ensures
        kinds_view(r@) == final_dead(active@, strs_view(rule_order@), full_defined@, strs_view(entries@), ann_opt(annotations)),
{
    let empty: StrMap<String> = StrMap::new();
    proof {
        assert(kinds_view(empty@) =~= Map::<Seq<char>, Seq<char>>::empty());
    }
    if degraded_inert {
        return empty;
    }
    match annotations {
        Some(a) => {
            if has_gates(a) {
                let d = store_fixpoint(active, rule_order, full_defined, entries, a);
                proof {
                    lemma_store_fix_unique(active@, strs_view(rule_order@), full_defined@, strs_view(entries@), *a, kinds_view(d@));
                }
                d
            } else {
                empty
            }
        },
        None => empty,
    }
}

/// Classify the residual rules `unknown` of a profile run (in their order): not positively
/// reachable from any declared entry; dead by the unproducible-store-gate fixpoint (with the
/// reason); or genuinely unknown. `active` and `rule_order` are the profile-filtered grammar,
/// `full_defined` the rules before filtering (a reference to a pruned rule fails, one to a rule
/// no tree defines is external and holds), `entries` the declared entry universe.
pub fn classify_profile_residual(
    active: &StrMap<ASTNode>,
    rule_order: &[String],
    full_defined: &NameSet,
    entries: &[String],
    annotations: Option<&Annotations>,
    unknown: &[String],
) -> (r: ProfileResidualClassification)
    ensures
        ({
            let g = active@;
            let ord = strs_view(rule_order@);
            let en = strs_view(entries@);
            let a = ann_opt(annotations);
            let l0 = live0(g, ord, full_defined@, en);
            let d = final_dead(g, ord, full_defined@, en, a);
            let lf = final_live(g, ord, full_defined@, en, a);
            let un = strs_view(unknown@);
            &&& strs_view(r.entries@) == en
            &&& r.degraded_inert == degraded(a, l0)
            &&& strs_view(r.profile_entry_unreachable@) == un.filter(is_unreachable_in(l0))
            &&& pairs_view(r.store_unproducible@) == un.filter(is_store_dead_in(l0, d, lf)).map_values(
                |u: Seq<char>| (u, store_reason(g, full_defined@, d, lf, u)),
            )
            &&& strs_view(r.genuine@) == un.filter(is_genuine_in(l0, d, lf))
        }),
{
    let ghost g = active@;
    let ghost ord = strs_view(rule_order@);
    let ghost en = strs_view(entries@);
    let ghost fd = full_defined@;
    let no_dead = NameSet::new();
    let live_0 = profile_entry_positively_live(active, rule_order, full_defined, entries, &no_dead);
    proof {
        assert(no_dead@ =~= Set::<Seq<char>>::empty());
    }
    let degraded_inert = match annotations {
        Some(a) => any_live_import(a, &live_0),
        None => false,
    };
    let dead = final_dead_of(active, rule_order, full_defined, entries, annotations, degraded_inert);
    let dead_set = key_set(&dead);
    let live_final = profile_entry_positively_live(active, rule_order, full_defined, entries, &dead_set);
    let ghost l0 = live_0@;
    let ghost d = kinds_view(dead@);
    let ghost lf = live_final@;
    proof {
        assert(dead_set@ == d.dom());
    }
    let ghost un = strs_view(unknown@);
    let ghost fu = |u: Seq<char>| (u, store_reason(g, fd, d, lf, u));
    let mut unreachable: Vec<String> = Vec::new();
    let mut store: Vec<(String, String)> = Vec::new();
    let mut genuine: Vec<String> = Vec::new();
    let mut i: usize = 0;
    while i < unknown.len()
        invariant
            un == strs_view(unknown@),
            g == active@,
            fd == full_defined@,
            l0 == live_0@,
            lf == live_final@,
            d == kinds_view(dead@),
            fu == (|u: Seq<char>| (u, store_reason(g, fd, d, lf, u))),
            i <= unknown@.len(),
            strs_view(unreachable@) == un.take(i as int).filter(is_unreachable_in(l0)),
            pairs_view(store@) == un.take(i as int).filter(is_store_dead_in(l0, d, lf)).map_values(fu),
            strs_view(genuine@) == un.take(i as int).filter(is_genuine_in(l0, d, lf)),
        decreases unknown@.len() - i,
    {
        let u = &unknown[i];
        proof {
            assert(un.take(i + 1) =~= un.take(i as int).push(u@));
            un.take(i as int).lemma_filter_push(u@, is_unreachable_in(l0));
            un.take(i as int).lemma_filter_push(u@, is_store_dead_in(l0, d, lf));
            un.take(i as int).lemma_filter_push(u@, is_genuine_in(l0, d, lf));
        }
        let ghost s0 = store@;
        if !live_0.contains(u.as_str()) {
            unreachable.push(u.clone());
            proof {
                assert(strs_view(unreachable@) =~= un.take(i + 1).filter(is_unreachable_in(l0)));
                assert(pairs_view(store@) =~= un.take(i + 1).filter(is_store_dead_in(l0, d, lf)).map_values(fu));
            }
        } else {
            match dead.get(u.as_str()) {
                Some(kind) => {
                    let mut reason = String::from_str("gate kind '");
                    reason.append(kind.as_str());
                    reason.append("' unproducible");
                    proof {
                        assert(d.dom().contains(u@));
                        assert(reason@ =~= store_reason(g, fd, d, lf, u@));
                    }
                    let uc = u.clone();
                    let ghost rv = reason@;
                    store.push((uc, reason));
                    proof {
                        let f = un.take(i as int).filter(is_store_dead_in(l0, d, lf));
                        assert(un.take(i + 1).filter(is_store_dead_in(l0, d, lf)) == f.push(u@));
                        assert(pair_view(store@[s0.len() as int]) == fu(u@));
                        assert(pairs_view(store@) =~= pairs_view(s0).push(fu(u@)));
                        assert(f.push(u@).map_values(fu) =~= f.map_values(fu).push(fu(u@)));
                    }
                },
                None => {
                    if !live_final.contains(u.as_str()) {
                        let via = match active.get(u.as_str()) {
                            Some(body) => mandatory_forces_non_live(body, &live_final, full_defined),
                            None => None,
                        };
                        let reason = match via {
                            Some(v) => {
                                let mut m = String::from_str("mandatory descent forces '");
                                m.append(v.as_str());
                                m.append("'");
                                m
                            },
                            None => String::from_str("stranded by the store fixpoint"),
                        };
                        proof {
                            assert(reason@ =~= store_reason(g, fd, d, lf, u@));
                        }
                        let uc = u.clone();
                        store.push((uc, reason));
                        proof {
                            let f = un.take(i as int).filter(is_store_dead_in(l0, d, lf));
                            assert(un.take(i + 1).filter(is_store_dead_in(l0, d, lf)) == f.push(u@));
                            assert(pair_view(store@[s0.len() as int]) == fu(u@));
                            assert(pairs_view(store@) =~= pairs_view(s0).push(fu(u@)));
                            assert(f.push(u@).map_values(fu) =~= f.map_values(fu).push(fu(u@)));
                        }
                    } else {
                        genuine.push(u.clone());
                        proof {
                            assert(strs_view(genuine@) =~= un.take(i + 1).filter(is_genuine_in(l0, d, lf)));
                            assert(pairs_view(store@) =~= un.take(i + 1).filter(is_store_dead_in(l0, d, lf)).map_values(fu));
                        }
                    }
                },
            }
        }
        i = i + 1;
    }
    proof {
        assert(un.take(i as int) =~= un);
    }
    let mut entries_copy: Vec<String> = Vec::new();
    let mut j: usize = 0;
    while j < entries.len()
        invariant
            j <= entries@.len(),
            strs_view(entries_copy@) == strs_view(entries@).take(j as int),
        decreases entries@.len() - j,
    {
        let e = entries[j].clone();
        let ghost before = entries_copy@;
        proof {
            assert(e@ == strs_view(entries@)[j as int]);
        }
        entries_copy.push(e);
        proof {
            assert(strs_view(entries_copy@) =~= strs_view(before).push(e@));
            assert(strs_view(entries@).take(j + 1) =~= strs_view(entries@).take(j as int).push(strs_view(entries@)[j as int]));
            assert(strs_view(entries_copy@) =~= strs_view(entries@).take(j + 1));
        }
        j = j + 1;
    }
    proof {
        assert(strs_view(entries@).take(j as int) =~= strs_view(entries@));
    }
    ProfileResidualClassification {
        entries: entries_copy,
        degraded_inert,
        profile_entry_unreachable: unreachable,
        store_unproducible: store,
        genuine,
    }
}


// ---------------------------------------------------------------------------------------------
// Certificates
// ---------------------------------------------------------------------------------------------

proof fn lemma_pos_edges_defined(n: SpecNode, est: Set<Seq<char>>, p: SpecPolicy)
    ensures
        pos_edges(n, est, p).subset_of(p.defined),
    decreases n,
{
    match n {
        SpecNode::Or(alts) => lemma_pos_edges_seq_defined(alts, est, p),
        SpecNode::Sequence(elems) => lemma_pos_edges_seq_defined(elems, est, p),
        SpecNode::Quant(inner, _) => lemma_pos_edges_defined(*inner, est, p),
        SpecNode::Group(inner) => lemma_pos_edges_defined(*inner, est, p),
        _ => {},
    }
}

proof fn lemma_pos_edges_seq_defined(s: Seq<SpecNode>, est: Set<Seq<char>>, p: SpecPolicy)
    ensures
        pos_edges_any(s, est, p).subset_of(p.defined),
        pos_edges_all(s, est, p).subset_of(p.defined),
    decreases s,
{
    if s.len() > 0 {
        lemma_pos_edges_seq_defined(s.drop_last(), est, p);
        lemma_pos_edges_defined(s.last(), est, p);
    }
}

/// Every entry-live rule is a rule of the active tree.
pub proof fn lemma_live_in_active(
    active: Map<Seq<char>, ASTNode>,
    ord: Seq<Seq<char>>,
    full: Set<Seq<char>>,
    entries: Seq<Seq<char>>,
    dead: Set<Seq<char>>,
)
    ensures
        entry_live(active, ord, full, entries, dead).subset_of(active.dom()),
{
    let p = active_policy(active.dom(), full, dead);
    let sat = active_sat(active, ord, full, dead);
    let e = live_edge(active, p, sat);
    let seeds = live_seeds(entries, p, sat);
    assert forall|a: Seq<char>, b: Seq<char>| active.dom().contains(a) && #[trigger] e(a, b) implies active.dom().contains(b) by {
        lemma_pos_edges_defined(active[a]@, sat, p);
    }
    assert forall|x: Seq<char>| reach_set(e, seeds).contains(x) implies active.dom().contains(x) by {
        let n = choose|n: nat| #[trigger] reach_n(e, seeds, n).contains(x);
        lemma_closed_contains_reach(e, seeds, active.dom(), n);
    }
}

/// The claim of a certificate over a profile run, re-derived from the active tree, the rules
/// before filtering and the entry universe; the other variants as in
/// `verify_wellformedness_certificate`.
pub open spec fn profile_cert_holds(
    active: Map<Seq<char>, ASTNode>,
    ord: Seq<Seq<char>>,
    full: Set<Seq<char>>,
    entries: Seq<Seq<char>>,
    a: Option<Annotations>,
    c: WellformednessCertificate,
) -> bool {
    let l0 = live0(active, ord, full, entries);
    match c {
        WellformednessCertificate::ProfileEntryUnreachable { rule, entries: ce, .. } => active.dom().contains(rule@) && strs_view(ce@)
            == entries && !l0.contains(rule@),
        WellformednessCertificate::ProfileUnproducibleGate { rule, .. } => active.dom().contains(rule@) && is_store_dead_in(
            l0,
            final_dead(active, ord, full, entries, a),
            final_live(active, ord, full, entries, a),
        )(rule@),
        _ => certificate_holds(active, ord, a, c),
    }
}

fn same_names(a: &[String], b: &[String]) -> (r: bool)
    ensures
        r == (strs_view(a@) == strs_view(b@)),
{
    if a.len() != b.len() {
        proof {
            assert(strs_view(a@).len() != strs_view(b@).len());
        }
        return false;
    }
    let mut i: usize = 0;
    while i < a.len()
        invariant
            a@.len() == b@.len(),
            i <= a@.len(),
            forall|j: int| 0 <= j < i ==> strs_view(a@)[j] == strs_view(b@)[j],
        decreases a@.len() - i,
    {
        if !str_eq(a[i].as_str(), b[i].as_str()) {
            proof {
                assert(strs_view(a@)[i as int] != strs_view(b@)[i as int]);
            }
            return false;
        }
        i = i + 1;
    }
    proof {
        assert(strs_view(a@) =~= strs_view(b@));
    }
    true
}

/// The text `format!("{:?}", v)` gives for a list of names: `[` and `]` around the names, each
/// quoted and escaped as `Debug` escapes a string, separated by `, `.
pub uninterp spec fn debug_names(v: Seq<Seq<char>>) -> Seq<char>;

/// `format!("{:?}", v)` (std's `Debug` for a slice of strings) on a list of names. The contract
/// claims only that the text is the same for the same names; what the text is, is not stated.
#[verifier::external_body]
fn names_debug(v: &[String]) -> (r: String)
    ensures
        r@ == debug_names(strs_view(v@)),
{
    format!("{:?}", v)
}

/// Why the per-profile checker refuses a certificate whose claim does not hold: the first check
/// it fails.
pub open spec fn profile_cert_refusal(
    active: Map<Seq<char>, ASTNode>,
    ord: Seq<Seq<char>>,
    full: Set<Seq<char>>,
    entries: Seq<Seq<char>>,
    a: Option<Annotations>,
    c: WellformednessCertificate,
) -> Seq<char> {
    match c {
        WellformednessCertificate::ProfileEntryUnreachable { rule, entries: ce, .. } => if !active.dom().contains(rule@) {
            "profile-entry-unreachable certificate cites rule '"@ + rule@ + "' absent from the active (profile-filtered) tree"@
        } else if strs_view(ce@) != entries {
            "profile-entry-unreachable certificate for '"@ + rule@ + "' carries entry universe "@ + debug_names(strs_view(ce@))
                + " but the run's universe is "@ + debug_names(entries)
        } else {
            "certificate claims '"@ + rule@
                + "' is PROFILE-ENTRY-UNREACHABLE, but it IS positively reachable from the declared entry universe"@
        },
        WellformednessCertificate::ProfileUnproducibleGate { rule, .. } => if !active.dom().contains(rule@) {
            "profile-unproducible-gate certificate cites rule '"@ + rule@ + "' absent from the active (profile-filtered) tree"@
        } else {
            "certificate claims '"@ + rule@
                + "' is STORE-UNPRODUCIBLE under the profile, but the re-derived classification does not place it there (degraded_inert="@
                + bool_text(degraded(a, live0(active, ord, full, entries))) + ")"@
        },
        _ => certificate_refusal(active, ord, a, c),
    }
}

/// Re-check a per-profile certificate from scratch: `ProfileEntryUnreachable` holds when the rule
/// is in the active tree, the certificate names the run's entry universe, and the rule is not
/// positively reachable from it; `ProfileUnproducibleGate` when the re-derived classification
/// puts the rule among the store-dead. Other certificates are checked as by
/// `verify_wellformedness_certificate` against the active tree.
pub fn verify_profile_certificate(
    active: &StrMap<ASTNode>,
    rule_order: &[String],
    full_defined: &NameSet,
    entries: &[String],
    annotations: Option<&Annotations>,
    cert: &WellformednessCertificate,
) -> (r: Result<(), String>)
    requires
        certificate_checkable(active@, *cert),
    ensures
        match r {
            Ok(_) => profile_cert_holds(active@, strs_view(rule_order@), full_defined@, strs_view(entries@), ann_opt(annotations), *cert),
            Err(m) => !profile_cert_holds(active@, strs_view(rule_order@), full_defined@, strs_view(entries@), ann_opt(annotations), *cert)
                && m@ == profile_cert_refusal(active@, strs_view(rule_order@), full_defined@, strs_view(entries@), ann_opt(annotations), *cert),
        },
{
    match cert {
        WellformednessCertificate::ProfileEntryUnreachable { rule, profile: _, entries: cert_entries } => {
            if !active.contains_key(rule.as_str()) {
                return Err(text3(
                    "profile-entry-unreachable certificate cites rule '",
                    rule.as_str(),
                    "' absent from the active (profile-filtered) tree",
                ));
            }
            if !same_names(cert_entries.as_slice(), entries) {
                let mut m = text3("profile-entry-unreachable certificate for '", rule.as_str(), "' carries entry universe ");
                m.append(names_debug(cert_entries.as_slice()).as_str());
                m.append(" but the run's universe is ");
                m.append(names_debug(entries).as_str());
                return Err(m);
            }
            let no_dead = NameSet::new();
            proof {
                assert(no_dead@ =~= Set::<Seq<char>>::empty());
            }
            let live_0 = profile_entry_positively_live(active, rule_order, full_defined, entries, &no_dead);
            if live_0.contains(rule.as_str()) {
                Err(text3(
                    "certificate claims '",
                    rule.as_str(),
                    "' is PROFILE-ENTRY-UNREACHABLE, but it IS positively reachable from the declared entry universe",
                ))
            } else {
                Ok(())
            }
        },
        WellformednessCertificate::ProfileUnproducibleGate { rule, profile: _, reason: _ } => {
            if !active.contains_key(rule.as_str()) {
                return Err(text3(
                    "profile-unproducible-gate certificate cites rule '",
                    rule.as_str(),
                    "' absent from the active (profile-filtered) tree",
                ));
            }
            let mut one: Vec<String> = Vec::new();
            one.push(rule.clone());
            let c = classify_profile_residual(active, rule_order, full_defined, entries, annotations, one.as_slice());
            let ghost l0 = live0(active@, strs_view(rule_order@), full_defined@, strs_view(entries@));
            let ghost d = final_dead(active@, strs_view(rule_order@), full_defined@, strs_view(entries@), ann_opt(annotations));
            let ghost lf = final_live(active@, strs_view(rule_order@), full_defined@, strs_view(entries@), ann_opt(annotations));
            proof {
                let un = strs_view(one@);
                assert(un =~= seq![rule@]);
                assert(un =~= Seq::<Seq<char>>::empty().push(rule@));
                Seq::<Seq<char>>::empty().lemma_filter_push(rule@, is_store_dead_in(l0, d, lf));
                assert(Seq::<Seq<char>>::empty().filter(is_store_dead_in(l0, d, lf)) =~= Seq::<Seq<char>>::empty());
            }
            proof {
                let un = strs_view(one@);
                let f = un.filter(is_store_dead_in(l0, d, lf));
                assert(pairs_view(c.store_unproducible@).len() == c.store_unproducible@.len());
                assert(f.map_values(|u: Seq<char>| (u, store_reason(active@, full_defined@, d, lf, u))).len() == f.len());
                assert(f.len() > 0 <==> is_store_dead_in(l0, d, lf)(rule@));
            }
            if c.store_unproducible.len() > 0 {
                Ok(())
            } else {
                let mut m = text3(
                    "certificate claims '",
                    rule.as_str(),
                    "' is STORE-UNPRODUCIBLE under the profile, but the re-derived classification does not place it there (degraded_inert=",
                );
                push_bool(&mut m, c.degraded_inert);
                m.append(")");
                Err(m)
            }
        },
        _ => verify_wellformedness_certificate(active, rule_order, annotations, cert),
    }
}

pub open spec fn not_active(active: Map<Seq<char>, ASTNode>) -> spec_fn(Seq<char>) -> bool {
    |x: Seq<char>| !active.dom().contains(x)
}

/// The failure reported for a proposed entry-unreachable rule that is missing from the active tree.
pub open spec fn entry_failure_text(r: Seq<char>) -> Seq<char> {
    "profile-entry-unreachable proof for '"@ + r + "' failed re-verify: "@ + ("profile-entry-unreachable certificate cites rule '"@
        + r + "' absent from the active (profile-filtered) tree"@)
}

/// The rules of a profile run covered by a re-verified per-profile proof: each rule of
/// `rule_order` the classification finds entry-unreachable or store-dead, confirmed by
/// `verify_profile_certificate`; a proposed rule whose certificate does not re-verify is reported
/// as a failure (only a listed rule missing from the active tree).
pub fn gather_verified_profile_proof_covered_rules(
    active: &StrMap<ASTNode>,
    rule_order: &[String],
    full_defined: &NameSet,
    entries: &[String],
    annotations: Option<&Annotations>,
    profile: &str,
) -> (r: (NameSet, Vec<String>))
    ensures
        ({
            let g = active@;
            let ord = strs_view(rule_order@);
            let en = strs_view(entries@);
            let a = ann_opt(annotations);
            let l0 = live0(g, ord, full_defined@, en);
            let d = final_dead(g, ord, full_defined@, en, a);
            let lf = final_live(g, ord, full_defined@, en, a);
            &&& r.0@ == Set::new(
                |x: Seq<char>| ord.contains(x) && g.dom().contains(x) && (!l0.contains(x) || is_store_dead_in(l0, d, lf)(x)),
            )
            &&& strs_view(r.1@) == ord.filter(is_unreachable_in(l0)).filter(not_active(g)).map_values(
                |x: Seq<char>| entry_failure_text(x),
            )
        }),
{
    let ghost g = active@;
    let ghost ord = strs_view(rule_order@);
    let ghost en = strs_view(entries@);
    let ghost a = ann_opt(annotations);
    let ghost l0 = live0(g, ord, full_defined@, en);
    let ghost d = final_dead(g, ord, full_defined@, en, a);
    let ghost lf = final_live(g, ord, full_defined@, en, a);
    let c = classify_profile_residual(active, rule_order, full_defined, entries, annotations, rule_order);
    let ghost ur = ord.filter(is_unreachable_in(l0));
    let ghost sd = ord.filter(is_store_dead_in(l0, d, lf));
    let mut covered = NameSet::new();
    let mut failures: Vec<String> = Vec::new();
    let mut i: usize = 0;
    while i < c.profile_entry_unreachable.len()
        invariant
            g == active@,
            strs_view(c.profile_entry_unreachable@) == ur,
            ur == ord.filter(is_unreachable_in(l0)),
            l0 == live0(g, ord, full_defined@, en),
            ord == strs_view(rule_order@),
            en == strs_view(entries@),
            i <= ur.len(),
            covered@ == Set::new(|x: Seq<char>| ur.take(i as int).contains(x) && g.dom().contains(x)),
            strs_view(failures@) == ur.take(i as int).filter(not_active(g)).map_values(|x: Seq<char>| entry_failure_text(x)),
        decreases ur.len() - i,
    {
        let rule = &c.profile_entry_unreachable[i];
        proof {
            assert(ur[i as int] == rule@);
            ord.lemma_filter_pred(is_unreachable_in(l0), i as int);
            assert(ur.take(i + 1) =~= ur.take(i as int).push(rule@));
            ur.take(i as int).lemma_filter_push(rule@, not_active(g));
            lemma_take_push_contains(ur, i as int);
        }
        let mut ce: Vec<String> = Vec::new();
        let mut j: usize = 0;
        while j < entries.len()
            invariant
                j <= entries@.len(),
                strs_view(ce@) == strs_view(entries@).take(j as int),
            decreases entries@.len() - j,
        {
            let e = entries[j].clone();
            let ghost before = ce@;
            ce.push(e);
            proof {
                assert(strs_view(ce@) =~= strs_view(before).push(e@));
                assert(strs_view(entries@).take(j + 1) =~= strs_view(entries@).take(j as int).push(strs_view(entries@)[j as int]));
            }
            j = j + 1;
        }
        proof {
            assert(strs_view(entries@).take(j as int) =~= strs_view(entries@));
        }
        let cert = WellformednessCertificate::ProfileEntryUnreachable {
            rule: rule.clone(),
            profile: crate::names::str_to_string(profile),
            entries: ce,
        };
        match verify_profile_certificate(active, rule_order, full_defined, entries, annotations, &cert) {
            Ok(()) => {
                covered.insert(rule.clone());
                proof {
                    assert(covered@ =~= Set::new(|x: Seq<char>| ur.take(i + 1).contains(x) && g.dom().contains(x)));
                }
            },
            Err(e) => {
                proof {
                    assert(cert->ProfileEntryUnreachable_rule@ == rule@);
                    assert(!active@.dom().contains(rule@));
                    assert(e@ == "profile-entry-unreachable certificate cites rule '"@ + rule@
                        + "' absent from the active (profile-filtered) tree"@);
                }
                let mut m = text3("profile-entry-unreachable proof for '", rule.as_str(), "' failed re-verify: ");
                m.append(e.as_str());
                let ghost before = failures@;
                failures.push(m);
                proof {
                    assert(!g.dom().contains(rule@));
                    assert(m@ =~= entry_failure_text(rule@));
                    assert(strs_view(failures@) =~= strs_view(before).push(entry_failure_text(rule@)));
                    assert(covered@ =~= Set::new(|x: Seq<char>| ur.take(i + 1).contains(x) && g.dom().contains(x)));
                }
            },
        }
        i = i + 1;
    }
    proof {
        assert(ur.take(i as int) =~= ur);
    }
    let ghost after_ur = covered@;
    let ghost fr = |u: Seq<char>| (u, store_reason(g, full_defined@, d, lf, u));
    proof {
        assert(pairs_view(c.store_unproducible@).len() == c.store_unproducible@.len());
        assert(sd.map_values(fr).len() == sd.len());
        assert(pairs_view(c.store_unproducible@) == sd.map_values(fr));
    }
    let mut k: usize = 0;
    while k < c.store_unproducible.len()
        invariant
            g == active@,
            fr == (|u: Seq<char>| (u, store_reason(g, full_defined@, d, lf, u))),
            pairs_view(c.store_unproducible@) == sd.map_values(fr),
            c.store_unproducible@.len() == sd.len(),
            sd == ord.filter(is_store_dead_in(l0, d, lf)),
            l0 == live0(g, ord, full_defined@, en),
            d == final_dead(g, ord, full_defined@, en, a),
            lf == final_live(g, ord, full_defined@, en, a),
            a == ann_opt(annotations),
            ord == strs_view(rule_order@),
            en == strs_view(entries@),
            k <= sd.len(),
            strs_view(failures@) == ur.filter(not_active(g)).map_values(|x: Seq<char>| entry_failure_text(x)),
            covered@ == after_ur + sd.take(k as int).to_set(),
        decreases sd.len() - k,
    {
        let rule = &c.store_unproducible[k].0;
        proof {
            assert(pair_view(c.store_unproducible@[k as int]) == pairs_view(c.store_unproducible@)[k as int]);
            assert(sd.map_values(fr)[k as int] == fr(sd[k as int]));
            assert(sd[k as int] == rule@);
            ord.lemma_filter_pred(is_store_dead_in(l0, d, lf), k as int);
            lemma_live_in_active(g, ord, full_defined@, en, Set::empty());
            assert(g.dom().contains(rule@));
            assert(sd.take(k + 1) =~= sd.take(k as int).push(rule@));
            crate::names::lemma_push_to_set_pub(sd.take(k as int), rule@);
        }
        let cert = WellformednessCertificate::ProfileUnproducibleGate {
            rule: rule.clone(),
            profile: crate::names::str_to_string(profile),
            reason: c.store_unproducible[k].1.clone(),
        };
        match verify_profile_certificate(active, rule_order, full_defined, entries, annotations, &cert) {
            Ok(()) => {
                covered.insert(rule.clone());
            },
            Err(_) => {
                proof {
                    assert(false);
                }
            },
        }
        k = k + 1;
    }
    proof {
        assert(sd.take(k as int) =~= sd);
        assert forall|x: Seq<char>| #[trigger] covered@.contains(x) == (ord.contains(x) && g.dom().contains(x) && (!l0.contains(x)
            || is_store_dead_in(l0, d, lf)(x))) by {
            if ur.contains(x) {
                ord.lemma_filter_contains_rev(is_unreachable_in(l0), x);
                let q = choose|q: int| 0 <= q < ur.len() && ur[q] == x;
                ord.lemma_filter_pred(is_unreachable_in(l0), q);
            }
            if sd.contains(x) {
                ord.lemma_filter_contains_rev(is_store_dead_in(l0, d, lf), x);
                let q = choose|q: int| 0 <= q < sd.len() && sd[q] == x;
                ord.lemma_filter_pred(is_store_dead_in(l0, d, lf), q);
                lemma_live_in_active(g, ord, full_defined@, en, Set::empty());
            }
            if ord.contains(x) && g.dom().contains(x) && !l0.contains(x) {
                let q = choose|q: int| 0 <= q < ord.len() && ord[q] == x;
                ord.lemma_filter_contains(is_unreachable_in(l0), q);
            }
            if ord.contains(x) && is_store_dead_in(l0, d, lf)(x) {
                let q = choose|q: int| 0 <= q < ord.len() && ord[q] == x;
                ord.lemma_filter_contains(is_store_dead_in(l0, d, lf), q);
            }
        }
        assert(covered@ =~= Set::new(
            |x: Seq<char>| ord.contains(x) && g.dom().contains(x) && (!l0.contains(x) || is_store_dead_in(l0, d, lf)(x)),
        ));
    }
    (covered, failures)
}

/// When every listed rule is in the active tree, every proposed per-profile proof re-verifies.
pub proof fn lemma_profile_proofs_all_verify(
    active: Map<Seq<char>, ASTNode>,
    ord: Seq<Seq<char>>,
    full: Set<Seq<char>>,
    entries: Seq<Seq<char>>,
)
    requires
        forall|i: int| 0 <= i < ord.len() ==> active.dom().contains(#[trigger] ord[i]),
    ensures
        ord.filter(is_unreachable_in(live0(active, ord, full, entries))).filter(not_active(active)).len() == 0,
{
    let ur = ord.filter(is_unreachable_in(live0(active, ord, full, entries)));
    assert forall|i: int| 0 <= i < ur.len() implies !not_active(active)(#[trigger] ur[i]) by {
        assert(ur.contains(ur[i]));
        ord.lemma_filter_contains_rev(is_unreachable_in(live0(active, ord, full, entries)), ur[i]);
    }
    ur.lemma_all_neg_filter_empty(not_active(active));
}


/// Every residual rule lands in exactly one class: entry-unreachable, store-dead, or genuine.
pub proof fn lemma_classification_partitions(
    l0: Set<Seq<char>>,
    d: Map<Seq<char>, Seq<char>>,
    lf: Set<Seq<char>>,
    un: Seq<Seq<char>>,
)
    ensures
        un.filter(is_unreachable_in(l0)).len() + un.filter(is_store_dead_in(l0, d, lf)).len() + un.filter(is_genuine_in(l0, d, lf)).len()
            == un.len(),
    decreases un.len(),
{
    if un.len() > 0 {
        let s = un.drop_last();
        lemma_classification_partitions(l0, d, lf, s);
        assert(s.push(un.last()) =~= un);
        s.lemma_filter_push(un.last(), is_unreachable_in(l0));
        s.lemma_filter_push(un.last(), is_store_dead_in(l0, d, lf));
        s.lemma_filter_push(un.last(), is_genuine_in(l0, d, lf));
    }
}

/// Without annotations, or when an entry-live rule imports from a library, the store analysis
/// claims nothing: no residual rule is store-dead.
pub proof fn lemma_inert_store_claims_nothing(
    active: Map<Seq<char>, ASTNode>,
    ord: Seq<Seq<char>>,
    full: Set<Seq<char>>,
    entries: Seq<Seq<char>>,
    a: Option<Annotations>,
    un: Seq<Seq<char>>,
)
    requires
        a is None || degraded(a, live0(active, ord, full, entries)),
    ensures
        un.filter(is_store_dead_in(
            live0(active, ord, full, entries),
            final_dead(active, ord, full, entries, a),
            final_live(active, ord, full, entries, a),
        )).len() == 0,
{
    let l0 = live0(active, ord, full, entries);
    let d = final_dead(active, ord, full, entries, a);
    let lf = final_live(active, ord, full, entries, a);
    assert(d == Map::<Seq<char>, Seq<char>>::empty());
    assert(d.dom() =~= Set::<Seq<char>>::empty());
    assert(lf == l0);
    assert(un.all(|x: Seq<char>| !is_store_dead_in(l0, d, lf)(x)));
    un.lemma_all_neg_filter_empty(is_store_dead_in(l0, d, lf));
}

} // verus!
