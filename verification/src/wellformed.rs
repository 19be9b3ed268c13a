//! Static grammar well-formedness: reachability, termination, nullability, left recursion,
//! `@profiles` consistency, ordered-choice smells, and the certificates that re-check verdicts.
//!
//! A grammar is a map from rule name to rule body; `rule_order` lists the rules in the order the
//! grammar declares them and makes every report deterministic. A reference to a rule the grammar
//! does not define is an external (included) reference.
use vstd::prelude::*;
use crate::ast::{
    ASTNode, ASTValue, SpecNode, lemma_nodes_view, lemma_seq_refs_push, node_pos_refs, node_refs,
    node_view, nodes_view, referenced_rule, seq_pos_refs, seq_refs,
};
use crate::fixpoint::{Blocked, EvalPolicy, SpecPolicy, eval, least_fixpoint, lfp, lemma_lfp_exists, lemma_eval_any_all, is_candidate, body_view};
use crate::graph::{adj_edge, adj_rel, lemma_closed_contains_reach, lemma_reach_step, lemma_seed_reachable, reach_closure, reach_n, reach_set};
use crate::names::{NameSet, StrMap, clone_strings, str_eq, strs_view};
use crate::text::{child_path, decimal, extend_path, joined, push_decimal, push_joined, root_path, root_path_string};
use crate::walk::{concat_map, lemma_concat_map_contains, lemma_concat_map_push, lemma_per_rule_push, lemma_walk_seq_push, per_rule, walk, walk_seq};
use crate::fixpoint::{ProfileMap, profile_blocked, pview};
use crate::names::strings_contain;
use crate::ast::{quant_unbounded, quantifier_unbounded};
use crate::ast::ref_of_parts;
use crate::fixpoint::eval_node;
use crate::order::{lemma_sorted_unique, sorted_names, strictly_sorted};

verus! {

broadcast use vstd::std_specs::vec::axiom_vec_index_decreases;

/// A grammar: rule name to rule body.
pub type Grammar = StrMap<ASTNode>;

/// A detected grammar well-formedness issue.
#[derive(Debug, Clone, PartialEq, Eq)]
pub enum WellformednessIssue {
    /// Informational: `rule` is directly or indirectly left-recursive; `cycle` is one recursion path.
    LeftRecursive { rule: String, cycle: Vec<String> },
    /// Error: `rule` has no finite terminal derivation.
    NonTerminating { rule: String },
    /// Warning: an unbounded repetition at `node_path` in `rule` has a nullable body.
    NullableRepetition { rule: String, node_path: String },
    /// Note: in the ordered choice at `node_path`, alternative `always_index` always succeeds and a
    /// later alternative exists.
    AlwaysSucceedsAlternative { rule: String, node_path: String, always_index: usize },
    /// Error: `rule` is present under `profile` but not satisfiable there; `suggested_profiles`
    /// are the profiles under which it is satisfiable.
    ProfileOrphan { rule: String, profile: String, suggested_profiles: Vec<String> },
    /// Error: `rule` is defined but unreachable from every root.
    UnreachableRule { rule: String },
    /// Error: `rule` references `referenced`, which is neither defined nor a native builtin.
    UndefinedReference { rule: String, referenced: String },
    /// Error: `rule`'s predicate consults fact `kind` (via `primitive`) that nothing emits.
    UnboundFactKind { rule: String, kind: String, primitive: String },
}

/// The model of a `WellformednessIssue`: its fields as character sequences.
pub enum IssueView {
    LeftRecursive(Seq<char>, Seq<Seq<char>>),
    NonTerminating(Seq<char>),
    NullableRepetition(Seq<char>, Seq<char>),
    AlwaysSucceedsAlternative(Seq<char>, Seq<char>, nat),
    ProfileOrphan(Seq<char>, Seq<char>, Seq<Seq<char>>),
    UnreachableRule(Seq<char>),
    UndefinedReference(Seq<char>, Seq<char>),
    UnboundFactKind(Seq<char>, Seq<char>, Seq<char>),
}

impl View for WellformednessIssue {
    type V = IssueView;

    open spec fn view(&self) -> IssueView {
        match self {
            WellformednessIssue::LeftRecursive { rule, cycle } => IssueView::LeftRecursive(rule@, strs_view(cycle@)),
            WellformednessIssue::NonTerminating { rule } => IssueView::NonTerminating(rule@),
            WellformednessIssue::NullableRepetition { rule, node_path } => IssueView::NullableRepetition(rule@, node_path@),
            WellformednessIssue::AlwaysSucceedsAlternative { rule, node_path, always_index } => IssueView::AlwaysSucceedsAlternative(
                rule@,
                node_path@,
                *always_index as nat,
            ),
            WellformednessIssue::ProfileOrphan { rule, profile, suggested_profiles } => IssueView::ProfileOrphan(
                rule@,
                profile@,
                strs_view(suggested_profiles@),
            ),
            WellformednessIssue::UnreachableRule { rule } => IssueView::UnreachableRule(rule@),
            WellformednessIssue::UndefinedReference { rule, referenced } => IssueView::UndefinedReference(rule@, referenced@),
            WellformednessIssue::UnboundFactKind { rule, kind, primitive } => IssueView::UnboundFactKind(rule@, kind@, primitive@),
        }
    }
}

pub open spec fn issues_view(v: Seq<WellformednessIssue>) -> Seq<IssueView> {
    v.map_values(|i: WellformednessIssue| i@)
}

// ---------------------------------------------------------------------------------------------
// Rule references
// ---------------------------------------------------------------------------------------------

/// Collect every rule referenced anywhere in `node` (lookaheads included) into `out`.
#[verifier::loop_isolation(false)]
pub fn collect_node_rule_refs(node: &ASTNode, out: &mut NameSet)
    ensures
        final(out)@ == old(out)@.union(node_refs(node@)),
    decreases node,
{
    match node {
        ASTNode::Or { alternatives: v } | ASTNode::Sequence { elements: v } => {
            let mut i: usize = 0;
            while i < v.len()
                invariant
                    i <= v@.len(),
                    out@ == old(out)@.union(seq_refs(nodes_view(v@).take(i as int))),
                decreases v@.len() - i,
            {
                proof {
                    lemma_nodes_view(v@);
                    assert(nodes_view(v@).take(i + 1) =~= nodes_view(v@).take(i as int).push(node_view(v@[i as int])));
                    lemma_seq_refs_push(nodes_view(v@).take(i as int), node_view(v@[i as int]));
                }
                collect_node_rule_refs(&v[i], out);
                i = i + 1;
                proof {
                    assert(out@ =~= old(out)@.union(seq_refs(nodes_view(v@).take(i as int))));
                }
            }
            proof {
                lemma_nodes_view(v@);
                assert(nodes_view(v@).take(i as int) =~= nodes_view(v@));
                assert(out@ =~= old(out)@.union(node_refs(node@)));
            }
        },
        ASTNode::Quantified { element, .. } => collect_node_rule_refs(element, out),
        ASTNode::Lookahead { element, .. } => collect_node_rule_refs(element, out),
        ASTNode::Atom { value } => match value {
            ASTValue::Node(inner) => collect_node_rule_refs(inner, out),
            ASTValue::Token(parts) => {
                match referenced_rule(parts) {
                    Some(r) => {
                        out.insert(r.clone());
                        proof {
                            assert(out@ =~= old(out)@.union(node_refs(node@)));
                        }
                    },
                    None => {
                        proof {
                            assert(out@ =~= old(out)@.union(node_refs(node@)));
                        }
                    },
                }
            },
        },
    }
}

/// Like `collect_node_rule_refs`, but only positively entered references: nothing inside a
/// lookahead is collected.
#[verifier::loop_isolation(false)]
fn collect_node_positive_rule_refs(node: &ASTNode, out: &mut NameSet)
    ensures
        final(out)@ == old(out)@.union(node_pos_refs(node@)),
    decreases node,
{
    match node {
        ASTNode::Or { alternatives: v } | ASTNode::Sequence { elements: v } => {
            let mut i: usize = 0;
            while i < v.len()
                invariant
                    i <= v@.len(),
                    out@ == old(out)@.union(seq_pos_refs(nodes_view(v@).take(i as int))),
                decreases v@.len() - i,
            {
                proof {
                    lemma_nodes_view(v@);
                    assert(nodes_view(v@).take(i + 1) =~= nodes_view(v@).take(i as int).push(node_view(v@[i as int])));
                    lemma_seq_refs_push(nodes_view(v@).take(i as int), node_view(v@[i as int]));
                }
                collect_node_positive_rule_refs(&v[i], out);
                i = i + 1;
                proof {
                    assert(out@ =~= old(out)@.union(seq_pos_refs(nodes_view(v@).take(i as int))));
                }
            }
            proof {
                lemma_nodes_view(v@);
                assert(nodes_view(v@).take(i as int) =~= nodes_view(v@));
                assert(out@ =~= old(out)@.union(node_pos_refs(node@)));
            }
        },
        ASTNode::Quantified { element, .. } => collect_node_positive_rule_refs(element, out),
        ASTNode::Lookahead { .. } => {
            proof {
                assert(out@ =~= old(out)@.union(node_pos_refs(node@)));
            }
        },
        ASTNode::Atom { value } => match value {
            ASTValue::Node(inner) => collect_node_positive_rule_refs(inner, out),
            ASTValue::Token(parts) => {
                match referenced_rule(parts) {
                    Some(r) => {
                        out.insert(r.clone());
                        proof {
                            assert(out@ =~= old(out)@.union(node_pos_refs(node@)));
                        }
                    },
                    None => {
                        proof {
                            assert(out@ =~= old(out)@.union(node_pos_refs(node@)));
                        }
                    },
                }
            },
        },
    }
}


// ---------------------------------------------------------------------------------------------
// Reachability
// ---------------------------------------------------------------------------------------------

/// `a` references the defined rule `b` (anywhere in its body).
pub open spec fn ref_edge(g: Map<Seq<char>, ASTNode>) -> spec_fn(Seq<char>, Seq<char>) -> bool {
    |a: Seq<char>, b: Seq<char>| g.dom().contains(a) && g.dom().contains(b) && node_refs(g[a]@).contains(b)
}

/// `a` positively references the defined rule `b` (outside lookaheads).
pub open spec fn pos_edge(g: Map<Seq<char>, ASTNode>) -> spec_fn(Seq<char>, Seq<char>) -> bool {
    |a: Seq<char>, b: Seq<char>| g.dom().contains(a) && g.dom().contains(b) && node_pos_refs(g[a]@).contains(b)
}

/// Defined rules that some defined rule references.
pub open spec fn referenced_rules(g: Map<Seq<char>, ASTNode>) -> Set<Seq<char>> {
    Set::new(|x: Seq<char>| g.dom().contains(x) && exists|a: Seq<char>| #[trigger] ref_edge(g)(a, x))
}

/// The roots: the canonical entry `order[0]` and every listed rule nothing references.
pub open spec fn root_rules(g: Map<Seq<char>, ASTNode>, ord: Seq<Seq<char>>) -> Set<Seq<char>> {
    Set::new(|x: Seq<char>| g.dom().contains(x) && ((ord.len() > 0 && x == ord[0]) || (ord.contains(x) && !referenced_rules(g).contains(x))))
}

/// Rules reachable from the roots by transitive reference.
pub open spec fn reachable_spec(g: Map<Seq<char>, ASTNode>, ord: Seq<Seq<char>>) -> Set<Seq<char>> {
    reach_set(ref_edge(g), root_rules(g, ord))
}

/// Rules reachable from the roots by positively entered references only.
pub open spec fn positively_reachable_spec(g: Map<Seq<char>, ASTNode>, ord: Seq<Seq<char>>) -> Set<Seq<char>> {
    reach_set(pos_edge(g), root_rules(g, ord))
}

proof fn lemma_pos_refs_within(n: SpecNode)
    ensures
        node_pos_refs(n).subset_of(node_refs(n)),
    decreases n,
{
    match n {
        SpecNode::Or(alts) => lemma_seq_pos_refs_within(alts),
        SpecNode::Sequence(elems) => lemma_seq_pos_refs_within(elems),
        SpecNode::Quant(inner, _) => lemma_pos_refs_within(*inner),
        SpecNode::Look(_, _) => {},
        SpecNode::Group(inner) => lemma_pos_refs_within(*inner),
        SpecNode::Token(_) => {},
    }
}

proof fn lemma_seq_pos_refs_within(s: Seq<SpecNode>)
    ensures
        seq_pos_refs(s).subset_of(seq_refs(s)),
    decreases s,
{
    if s.len() > 0 {
        lemma_seq_pos_refs_within(s.drop_last());
        lemma_pos_refs_within(s.last());
    }
}

/// Every positively reachable rule is reachable: following only the references outside
/// lookaheads, from the same roots, can only reach fewer rules.
pub proof fn lemma_positively_reachable_within_reachable(g: Map<Seq<char>, ASTNode>, ord: Seq<Seq<char>>)
    ensures
        positively_reachable_spec(g, ord).subset_of(reachable_spec(g, ord)),
{
    let roots = root_rules(g, ord);
    let all = reachable_spec(g, ord);
    assert forall|x: Seq<char>| roots.contains(x) implies all.contains(x) by {
        lemma_seed_reachable(ref_edge(g), roots, x);
    }
    assert forall|a: Seq<char>, b: Seq<char>| all.contains(a) && #[trigger] pos_edge(g)(a, b) implies all.contains(b) by {
        lemma_pos_refs_within(g[a]@);
        assert(ref_edge(g)(a, b));
        lemma_reach_step(ref_edge(g), roots, a, b);
    }
    assert forall|x: Seq<char>| positively_reachable_spec(g, ord).contains(x) implies all.contains(x) by {
        let n = choose|n: nat| #[trigger] reach_n(pos_edge(g), roots, n).contains(x);
        lemma_closed_contains_reach(pos_edge(g), roots, all, n);
    }
}

/// The names of `all` that `g` defines.
pub(crate) fn defined_only(all: &NameSet, g: &Grammar) -> (r: NameSet)
    ensures
        r@ == all@.intersect(g@.dom()),
{
    let mut r = NameSet::new();
    let n = all.len();
    let mut i: usize = 0;
    while i < n
        invariant
            n == all.elems().len(),
            i <= n,
            r@ == all.elems().take(i as int).to_set().intersect(g@.dom()),
        decreases n - i,
    {
        let name = all.get(i);
        proof {
            assert(all.elems().take(i + 1) =~= all.elems().take(i as int).push(name@));
            crate::names::lemma_push_to_set_pub(all.elems().take(i as int), name@);
        }
        if g.contains_key(name.as_str()) {
            r.insert(name.clone());
        }
        i = i + 1;
        proof {
            assert(r@ =~= all.elems().take(i as int).to_set().intersect(g@.dom()));
        }
    }
    proof {
        assert(all.elems().take(n as int) =~= all.elems());
    }
    r
}

/// The reference graph of `g` (all references, or only positive ones), restricted to defined
/// rules, and the set of defined rules referenced anywhere by a defined rule.
fn build_ref_graph(g: &Grammar, positive: bool) -> (r: (StrMap<NameSet>, NameSet))
    ensures
        adj_rel(r.0@) == (if positive { pos_edge(g@) } else { ref_edge(g@) }),
        r.1@ == referenced_rules(g@),
{
    let ghost gm = g@;
    let ghost e = if positive { pos_edge(gm) } else { ref_edge(gm) };
    let mut adj: StrMap<NameSet> = StrMap::new();
    let mut referenced = NameSet::new();
    let n = g.len();
    let mut i: usize = 0;
    while i < n
        invariant
            gm == g@,
            e == (if positive { pos_edge(gm) } else { ref_edge(gm) }),
            n == g.key_seq().len(),
            i <= n,
            g.key_seq().no_duplicates(),
            gm.dom() == g.key_seq().to_set(),
            adj@.dom() == g.key_seq().take(i as int).to_set(),
            forall|a: Seq<char>, b: Seq<char>| adj@.dom().contains(a) ==> (adj@[a]@.contains(b) <==> #[trigger] e(a, b)),
            forall|x: Seq<char>| #[trigger] referenced@.contains(x) <==> (gm.dom().contains(x) && exists|j: int| 0 <= j < i && #[trigger] ref_edge(gm)(g.key_seq()[j], x)),
        decreases n - i,
    {
        let name = g.key_at(i);
        let body = g.value_at(i);
        let mut all = NameSet::new();
        collect_node_rule_refs(body, &mut all);
        let all_defined = defined_only(&all, g);
        let targets = if positive {
            let mut pos = NameSet::new();
            collect_node_positive_rule_refs(body, &mut pos);
            defined_only(&pos, g)
        } else {
            defined_only(&all, g)
        };
        proof {
            assert(g.key_seq().to_set().contains(name@)) by {
                assert(g.key_seq()[i as int] == name@);
            }
            assert(!g.key_seq().take(i as int).contains(name@)) by {
                if g.key_seq().take(i as int).contains(name@) {
                    let j = choose|j: int| 0 <= j < i && g.key_seq().take(i as int)[j] == name@;
                    assert(g.key_seq()[j] == g.key_seq()[i as int]);
                }
            }
            assert(g.key_seq().take(i + 1) =~= g.key_seq().take(i as int).push(name@));
            crate::names::lemma_push_to_set_pub(g.key_seq().take(i as int), name@);
        }
        let ghost adj_before = adj@;
        adj.insert(name.clone(), targets);
        // referenced: the defined targets of every reference of this body
        let m = all_defined.len();
        let mut k: usize = 0;
        let ghost ref_before = referenced@;
        while k < m
            invariant
                m == all_defined.elems().len(),
                k <= m,
                all_defined@ == all@.intersect(gm.dom()),
                gm == g@,
                all@ == Set::<Seq<char>>::empty().union(node_refs(body@)),
                *body == gm[name@],
                gm.dom().contains(name@),
                referenced@ == ref_before.union(all_defined.elems().take(k as int).to_set()),
            decreases m - k,
        {
            let x = all_defined.get(k);
            proof {
                assert(all_defined.elems().take(k + 1) =~= all_defined.elems().take(k as int).push(x@));
                crate::names::lemma_push_to_set_pub(all_defined.elems().take(k as int), x@);
            }
            referenced.insert(x.clone());
            k = k + 1;
            proof {
                assert(referenced@ =~= ref_before.union(all_defined.elems().take(k as int).to_set()));
            }
        }
        proof {
            assert(all_defined.elems().take(m as int) =~= all_defined.elems());
            assert(adj@.dom() =~= g.key_seq().take(i + 1).to_set());
            assert forall|a: Seq<char>, b: Seq<char>| adj@.dom().contains(a) implies (adj@[a]@.contains(b) <==> #[trigger] e(a, b)) by {
                if a == name@ {
                    assert(adj@[a] == targets);
                } else {
                    assert(adj_before.dom().contains(a));
                    assert(adj@[a] == adj_before[a]);
                }
            }
            assert forall|x: Seq<char>| #[trigger] referenced@.contains(x) <==> (gm.dom().contains(x) && exists|j: int| 0 <= j < i + 1 && #[trigger] ref_edge(gm)(g.key_seq()[j], x)) by {
                if referenced@.contains(x) && !ref_before.contains(x) {
                    assert(all_defined.elems().to_set().contains(x));
                    assert(ref_edge(gm)(g.key_seq()[i as int], x));
                }
                if gm.dom().contains(x) && exists|j: int| 0 <= j < i + 1 && #[trigger] ref_edge(gm)(g.key_seq()[j], x) {
                    let j = choose|j: int| 0 <= j < i + 1 && #[trigger] ref_edge(gm)(g.key_seq()[j], x);
                    if j == i {
                        assert(all_defined@.contains(x));
                        assert(all_defined.elems().to_set().contains(x));
                    } else {
                        assert(ref_before.contains(x));
                    }
                }
            }
        }
        i = i + 1;
    }
    proof {
        assert(g.key_seq().take(n as int) =~= g.key_seq());
        assert forall|a: Seq<char>, b: Seq<char>| #[trigger] adj_rel(adj@)(a, b) == e(a, b) by {
            if !adj@.dom().contains(a) {
                assert(!gm.dom().contains(a));
            }
        }
        assert(adj_rel(adj@) =~= e);
        assert forall|x: Seq<char>| #[trigger] referenced@.contains(x) == referenced_rules(gm).contains(x) by {
            if gm.dom().contains(x) && exists|a: Seq<char>| #[trigger] ref_edge(gm)(a, x) {
                let a = choose|a: Seq<char>| #[trigger] ref_edge(gm)(a, x);
                assert(g.key_seq().to_set().contains(a));
                let j = choose|j: int| 0 <= j < n && g.key_seq()[j] == a;
                assert(ref_edge(gm)(g.key_seq()[j], x));
            }
        }
        assert(referenced@ =~= referenced_rules(gm));
    }
    (adj, referenced)
}

/// The roots of reachability: `rule_order[0]` (if defined) and every defined, listed rule that
/// nothing references.
fn root_set(g: &Grammar, rule_order: &[String], referenced: &NameSet) -> (r: NameSet)
    requires
        referenced@ == referenced_rules(g@),
    ensures
        r@ == root_rules(g@, strs_view(rule_order@)),
{
    let ghost ord = strs_view(rule_order@);
    let mut roots = NameSet::new();
    if rule_order.len() > 0 && g.contains_key(rule_order[0].as_str()) {
        roots.insert(rule_order[0].clone());
    }
    let mut i: usize = 0;
    while i < rule_order.len()
        invariant
            ord == strs_view(rule_order@),
            i <= rule_order@.len(),
            referenced@ == referenced_rules(g@),
            forall|x: Seq<char>| #[trigger] roots@.contains(x) <==> (g@.dom().contains(x) && ((ord.len() > 0 && x == ord[0]) || (ord.take(i as int).contains(x) && !referenced_rules(g@).contains(x)))),
        decreases rule_order@.len() - i,
    {
        let rule = &rule_order[i];
        proof {
            assert(ord.take(i + 1) =~= ord.take(i as int).push(rule@));
        }
        if g.contains_key(rule.as_str()) && !referenced.contains(rule.as_str()) {
            roots.insert(rule.clone());
        }
        i = i + 1;
        proof {
            assert forall|x: Seq<char>| #[trigger] roots@.contains(x) <==> (g@.dom().contains(x) && ((ord.len() > 0 && x == ord[0]) || (ord.take(i as int).contains(x) && !referenced_rules(g@).contains(x)))) by {
                if ord.take(i as int).contains(x) && x != rule@ {
                    let j = choose|j: int| 0 <= j < i && ord.take(i as int)[j] == x;
                    assert(ord.take(i - 1)[j] == x);
                }
                if ord.take(i - 1).contains(x) {
                    let j = choose|j: int| 0 <= j < i - 1 && #[trigger] ord.take(i - 1)[j] == x;
                    assert(ord.take(i as int)[j] == x);
                }
                if x == rule@ {
                    assert(ord.take(i as int)[i - 1] == x);
                }
            }
        }
    }
    proof {
        assert(ord.take(ord.len() as int) =~= ord);
        assert(roots@ =~= root_rules(g@, ord));
    }
    roots
}

/// The set of rules reachable from the roots (`rule_order[0]` plus every rule nothing
/// references) by transitive reference. References to undefined rules are ignored.
pub fn reachable_rules(grammar: &Grammar, rule_order: &[String]) -> (r: NameSet)
    ensures
        r@ == reachable_spec(grammar@, strs_view(rule_order@)),
{
    let (adj, referenced) = build_ref_graph(grammar, false);
    let roots = root_set(grammar, rule_order, &referenced);
    reach_closure(&adj, &roots)
}

/// The set of rules positively reachable from the roots: the closure follows only references
/// outside lookaheads, while the roots are computed from references anywhere.
pub fn positively_reachable_rules(grammar: &Grammar, rule_order: &[String]) -> (r: NameSet)
    ensures
        r@ == positively_reachable_spec(grammar@, strs_view(rule_order@)),
{
    let (adj, referenced) = build_ref_graph(grammar, true);
    let roots = root_set(grammar, rule_order, &referenced);
    reach_closure(&adj, &roots)
}

/// Membership in an optional set (`None` admits everything).
pub open spec fn opt_has(s: Option<Set<Seq<char>>>, x: Seq<char>) -> bool {
    match s {
        Some(s) => s.contains(x),
        None => true,
    }
}

pub open spec fn opt_view(s: Option<&NameSet>) -> Option<Set<Seq<char>>> {
    match s {
        Some(n) => Some(n@),
        None => None,
    }
}

/// The selection predicate of `select_rules`.
pub open spec fn select_pred(
    g: Map<Seq<char>, ASTNode>,
    keep: Option<Set<Seq<char>>>,
    drop: Set<Seq<char>>,
) -> spec_fn(Seq<char>) -> bool {
    |x: Seq<char>| g.dom().contains(x) && opt_has(keep, x) && !drop.contains(x)
}

/// The rules of `rule_order`, in order (repetitions kept), that are defined, in `keep` (when
/// given) and not in `drop`.
fn select_rules(grammar: &Grammar, rule_order: &[String], keep: Option<&NameSet>, drop: &NameSet) -> (r: Vec<String>)
    ensures
        strs_view(r@) == strs_view(rule_order@).filter(select_pred(grammar@, opt_view(keep), drop@)),
{
    let ghost ord = strs_view(rule_order@);
    let ghost pred = select_pred(grammar@, opt_view(keep), drop@);
    let mut out: Vec<String> = Vec::new();
    let mut i: usize = 0;
    while i < rule_order.len()
        invariant
            ord == strs_view(rule_order@),
            pred == select_pred(grammar@, opt_view(keep), drop@),
            i <= rule_order@.len(),
            strs_view(out@) == ord.take(i as int).filter(pred),
        decreases rule_order@.len() - i,
    {
        let rule = &rule_order[i];
        let keep_ok = match keep {
            Some(k) => k.contains(rule.as_str()),
            None => true,
        };
        proof {
            assert(ord.take(i + 1) =~= ord.take(i as int).push(rule@));
            ord.take(i as int).lemma_filter_push(rule@, pred);
        }
        if grammar.contains_key(rule.as_str()) && keep_ok && !drop.contains(rule.as_str()) {
            let ghost before = out@;
            out.push(rule.clone());
            proof {
                assert(strs_view(out@) =~= strs_view(before).push(rule@));
            }
        }
        i = i + 1;
    }
    proof {
        assert(ord.take(ord.len() as int) =~= ord);
    }
    out
}

/// Wrap names as single-rule issues of the kind `kind` (0 = unreachable, 1 = non-terminating).
fn rule_issues(names: &Vec<String>, kind: u8) -> (issues: Vec<WellformednessIssue>)
    requires
        kind <= 1,
    ensures
        issues_view(issues@) == strs_view(names@).map_values(|r: Seq<char>| if kind == 0 {
            IssueView::UnreachableRule(r)
        } else {
            IssueView::NonTerminating(r)
        }),
{
    let ghost f = |r: Seq<char>| if kind == 0 {
        IssueView::UnreachableRule(r)
    } else {
        IssueView::NonTerminating(r)
    };
    let mut issues: Vec<WellformednessIssue> = Vec::new();
    let mut k: usize = 0;
    while k < names.len()
        invariant
            kind <= 1,
            f == (|r: Seq<char>| if kind == 0 {
                IssueView::UnreachableRule(r)
            } else {
                IssueView::NonTerminating(r)
            }),
            k <= names@.len(),
            issues_view(issues@) == strs_view(names@).take(k as int).map_values(f),
        decreases names@.len() - k,
    {
        let ghost before = issues@;
        let rule = names[k].clone();
        let ghost rv = rule@;
        assert(rv == strs_view(names@)[k as int]);
        let issue = if kind == 0 {
            WellformednessIssue::UnreachableRule { rule }
        } else {
            WellformednessIssue::NonTerminating { rule }
        };
        assert(issue@ == f(rv));
        issues.push(issue);
        k = k + 1;
        proof {
            assert(issues_view(issues@) =~= issues_view(before).push(issue@));
            assert(strs_view(names@).take(k as int) =~= strs_view(names@).take(k - 1).push(rv));
            assert(strs_view(names@).take(k as int).map_values(f) =~= strs_view(names@).take(k - 1).map_values(f).push(f(rv)));
        }
    }
    proof {
        assert(strs_view(names@).take(names@.len() as int) =~= strs_view(names@));
    }
    issues
}

/// Defined rules unreachable from every root, as `UnreachableRule` issues in `rule_order` order.
pub fn detect_unreachable_rules(grammar: &Grammar, rule_order: &[String]) -> (issues: Vec<WellformednessIssue>)
    ensures
        issues_view(issues@) == strs_view(rule_order@).filter(
            |x: Seq<char>| grammar@.dom().contains(x) && !reachable_spec(grammar@, strs_view(rule_order@)).contains(x),
        ).map_values(|r: Seq<char>| IssueView::UnreachableRule(r)),
{
    let reachable = reachable_rules(grammar, rule_order);
    let names = select_rules(grammar, rule_order, None, &reachable);
    proof {
        assert(select_pred(grammar@, None, reachable@) =~= (|x: Seq<char>| grammar@.dom().contains(x) && !reachable_spec(grammar@, strs_view(rule_order@)).contains(x)));
    }
    let issues = rule_issues(&names, 0);
    proof {
        let f = |r: Seq<char>| if 0u8 == 0 {
            IssueView::UnreachableRule(r)
        } else {
            IssueView::NonTerminating(r)
        };
        assert(f =~= (|r: Seq<char>| IssueView::UnreachableRule(r)));
    }
    issues
}

/// Rules structurally reachable but not positively reachable (reachable only through
/// lookaheads), in `rule_order` order.
pub fn detect_lookahead_only_rules(grammar: &Grammar, rule_order: &[String]) -> (r: Vec<String>)
    ensures
        strs_view(r@) == strs_view(rule_order@).filter(
            |x: Seq<char>| grammar@.dom().contains(x)
                && reachable_spec(grammar@, strs_view(rule_order@)).contains(x)
                && !positively_reachable_spec(grammar@, strs_view(rule_order@)).contains(x),
        ),
{
    let reachable = reachable_rules(grammar, rule_order);
    let positively = positively_reachable_rules(grammar, rule_order);
    let r = select_rules(grammar, rule_order, Some(&reachable), &positively);
    proof {
        assert(select_pred(grammar@, Some(reachable@), positively@) =~= (|x: Seq<char>| grammar@.dom().contains(x)
                && reachable_spec(grammar@, strs_view(rule_order@)).contains(x)
                && !positively_reachable_spec(grammar@, strs_view(rule_order@)).contains(x)));
    }
    r
}


// ---------------------------------------------------------------------------------------------
// Nullability, always-succeeds, finite derivability
// ---------------------------------------------------------------------------------------------

/// Can match the empty string: lookaheads consume nothing, terminals always consume.
pub open spec fn nullable_policy(g: Map<Seq<char>, ASTNode>) -> SpecPolicy {
    SpecPolicy { look: true, term: false, defined: g.dom(), undef_true: false, undef_false: Set::empty(), blocked: Set::empty() }
}

/// Succeeds on every input: a lookahead can fail, a terminal can fail.
pub open spec fn always_policy(g: Map<Seq<char>, ASTNode>) -> SpecPolicy {
    SpecPolicy { look: false, term: false, defined: g.dom(), undef_true: false, undef_false: Set::empty(), blocked: Set::empty() }
}

/// Has a finite terminal derivation: terminals, lookaheads and references to undefined
/// (external) rules all terminate.
pub open spec fn productive_policy(g: Map<Seq<char>, ASTNode>) -> SpecPolicy {
    SpecPolicy { look: true, term: true, defined: g.dom(), undef_true: true, undef_false: Set::empty(), blocked: Set::empty() }
}

pub open spec fn nullable_rules(g: Map<Seq<char>, ASTNode>, ord: Seq<Seq<char>>) -> Set<Seq<char>> {
    lfp(g, ord, nullable_policy(g))
}

pub open spec fn always_rules(g: Map<Seq<char>, ASTNode>, ord: Seq<Seq<char>>) -> Set<Seq<char>> {
    lfp(g, ord, always_policy(g))
}

pub open spec fn productive_rules(g: Map<Seq<char>, ASTNode>, ord: Seq<Seq<char>>) -> Set<Seq<char>> {
    lfp(g, ord, productive_policy(g))
}

fn simple_policy<'a>(g: &'a Grammar, look: bool, term: bool, undef_true: bool) -> (p: EvalPolicy<'a>)
    ensures
        p.spec() == (SpecPolicy { look, term, defined: g@.dom(), undef_true, undef_false: Set::empty(), blocked: Set::empty() }),
        p.defined@ == g@,
{
    EvalPolicy { look, term, defined: g, undef_true, undef_false: None, blocked: Blocked::Nothing }
}

/// Fixpoint over the grammar: which rules are nullable.
pub(crate) fn compute_nullable(grammar: &Grammar, rule_order: &[String]) -> (r: NameSet)
    ensures
        r@ == nullable_rules(grammar@, strs_view(rule_order@)),
{
    let p = simple_policy(grammar, true, false, false);
    least_fixpoint(rule_order, &p)
}

/// Fixpoint over the grammar: which rules always succeed.
fn compute_always_succeeds(grammar: &Grammar, rule_order: &[String]) -> (r: NameSet)
    ensures
        r@ == always_rules(grammar@, strs_view(rule_order@)),
{
    let p = simple_policy(grammar, false, false, false);
    least_fixpoint(rule_order, &p)
}

/// Rules with no finite terminal derivation, as `NonTerminating` issues in `rule_order` order.
/// A reference to an undefined (included) rule counts as a terminating atom.
pub fn detect_nonterminating_rules(grammar: &Grammar, rule_order: &[String]) -> (issues: Vec<WellformednessIssue>)
    ensures
        issues_view(issues@) == strs_view(rule_order@).filter(
            |x: Seq<char>| grammar@.dom().contains(x) && !productive_rules(grammar@, strs_view(rule_order@)).contains(x),
        ).map_values(|r: Seq<char>| IssueView::NonTerminating(r)),
{
    let p = simple_policy(grammar, true, true, true);
    let productive = least_fixpoint(rule_order, &p);
    let names = select_rules(grammar, rule_order, None, &productive);
    proof {
        assert(select_pred(grammar@, None, productive@) =~= (|x: Seq<char>| grammar@.dom().contains(x) && !productive_rules(grammar@, strs_view(rule_order@)).contains(x)));
    }
    let issues = rule_issues(&names, 1);
    proof {
        let f = |r: Seq<char>| if 1u8 == 0 {
            IssueView::UnreachableRule(r)
        } else {
            IssueView::NonTerminating(r)
        };
        assert(f =~= (|r: Seq<char>| IssueView::NonTerminating(r)));
    }
    issues
}


// ---------------------------------------------------------------------------------------------
// Unbounded repetition over a nullable body
// ---------------------------------------------------------------------------------------------

/// The sites an unbounded quantifier (`*`, `+`, `{n,}`) has a nullable body.
pub open spec fn nr_emit(rule: Seq<char>, nullable: Set<Seq<char>>, p: SpecPolicy) -> spec_fn(SpecNode, Seq<char>) -> Seq<IssueView> {
    |n: SpecNode, path: Seq<char>|
        match n {
            SpecNode::Quant(inner, q) => if quant_unbounded(q) && eval(*inner, nullable, p) {
                seq![IssueView::NullableRepetition(rule, path)]
            } else {
                Seq::empty()
            },
            _ => Seq::empty(),
        }
}

#[verifier::loop_isolation(false)]
fn collect_nullable_repetition(
    rule: &String,
    node: &ASTNode,
    path: &String,
    nullable: &NameSet,
    p: &EvalPolicy,
    out: &mut Vec<WellformednessIssue>,
)
    ensures
        issues_view(final(out)@) == issues_view(old(out)@) + walk(node@, path@, nr_emit(rule@, nullable@, p.spec())),
    decreases node,
{
    let ghost emit = nr_emit(rule@, nullable@, p.spec());
    match node {
        ASTNode::Or { alternatives: v } | ASTNode::Sequence { elements: v } => {
            let tag = match node {
                ASTNode::Or { .. } => 'o',
                _ => 's',
            };
            proof {
                assert(emit(node@, path@) =~= Seq::<IssueView>::empty());
                assert(walk(node@, path@, emit) =~= walk_seq(nodes_view(v@), path@, tag, emit));
                lemma_nodes_view(v@);
            }
            let mut i: usize = 0;
            while i < v.len()
                invariant
                    i <= v@.len(),
                    issues_view(out@) == issues_view(old(out)@) + walk_seq(nodes_view(v@).take(i as int), path@, tag, emit),
                decreases v@.len() - i,
            {
                let child_path_s = extend_path(path, tag, Some(i));
                let ghost before = issues_view(out@);
                collect_nullable_repetition(rule, &v[i], &child_path_s, nullable, p, out);
                proof {
                    assert(nodes_view(v@).take(i + 1) =~= nodes_view(v@).take(i as int).push(node_view(v@[i as int])));
                    lemma_walk_seq_push(nodes_view(v@).take(i as int), node_view(v@[i as int]), path@, tag, emit);
                }
                i = i + 1;
                proof {
                    assert(issues_view(out@) =~= issues_view(old(out)@) + walk_seq(nodes_view(v@).take(i as int), path@, tag, emit));
                }
            }
            proof {
                assert(nodes_view(v@).take(i as int) =~= nodes_view(v@));
            }
        },
        ASTNode::Quantified { element, quantifier } => {
            let ghost before = issues_view(out@);
            if quantifier_unbounded(quantifier.as_str()) && eval_node(element, nullable, p) {
                out.push(WellformednessIssue::NullableRepetition { rule: rule.clone(), node_path: path.clone() });
            }
            proof {
                assert(issues_view(out@) =~= before + emit(node@, path@));
            }
            let child = extend_path(path, 'q', None);
            collect_nullable_repetition(rule, element, &child, nullable, p, out);
            proof {
                assert(issues_view(final(out)@) =~= issues_view(old(out)@) + walk(node@, path@, emit));
            }
        },
        ASTNode::Lookahead { element, .. } => {
            let child = extend_path(path, 'l', None);
            collect_nullable_repetition(rule, element, &child, nullable, p, out);
            proof {
                assert(emit(node@, path@) =~= Seq::<IssueView>::empty());
                assert(issues_view(final(out)@) =~= issues_view(old(out)@) + walk(node@, path@, emit));
            }
        },
        ASTNode::Atom { value } => match value {
            ASTValue::Node(inner) => {
                let child = extend_path(path, 'a', None);
                collect_nullable_repetition(rule, inner, &child, nullable, p, out);
                proof {
                    assert(emit(node@, path@) =~= Seq::<IssueView>::empty());
                    assert(issues_view(final(out)@) =~= issues_view(old(out)@) + walk(node@, path@, emit));
                }
            },
            ASTValue::Token(_) => {
                proof {
                    assert(emit(node@, path@) =~= Seq::<IssueView>::empty());
                    assert(issues_view(final(out)@) =~= issues_view(old(out)@) + walk(node@, path@, emit));
                }
            },
        },
    }
}

/// Every unbounded repetition over a nullable body, per rule in `rule_order`, in pre-order.
pub open spec fn nullable_rep_issues(g: Map<Seq<char>, ASTNode>, ord: Seq<Seq<char>>) -> Seq<IssueView> {
    per_rule(g, ord, |r: Seq<char>| walk(g[r]@, root_path(), nr_emit(r, nullable_rules(g, ord), nullable_policy(g))))
}

/// Unbounded repetitions (`*`, `+`, `{n,}`) over a nullable body, as `NullableRepetition`
/// issues: per rule in `rule_order`, in pre-order of the body.
pub fn detect_nullable_repetition(grammar: &Grammar, rule_order: &[String]) -> (issues: Vec<WellformednessIssue>)
    ensures
        issues_view(issues@) == nullable_rep_issues(grammar@, strs_view(rule_order@)),
{
    let ghost g = grammar@;
    let ghost ord = strs_view(rule_order@);
    let nullable = compute_nullable(grammar, rule_order);
    let p = simple_policy(grammar, true, false, false);
    let ghost f = |r: Seq<char>| walk(g[r]@, root_path(), nr_emit(r, nullable_rules(g, ord), nullable_policy(g)));
    let mut out: Vec<WellformednessIssue> = Vec::new();
    let mut i: usize = 0;
    while i < rule_order.len()
        invariant
            g == grammar@,
            ord == strs_view(rule_order@),
            nullable@ == nullable_rules(g, ord),
            p.spec() == nullable_policy(g),
            f == (|r: Seq<char>| walk(g[r]@, root_path(), nr_emit(r, nullable_rules(g, ord), nullable_policy(g)))),
            i <= rule_order@.len(),
            issues_view(out@) == per_rule(g, ord.take(i as int), f),
        decreases rule_order@.len() - i,
    {
        let rule = &rule_order[i];
        proof {
            assert(ord.take(i + 1) =~= ord.take(i as int).push(rule@));
            lemma_per_rule_push(g, ord.take(i as int), rule@, f);
        }
        match grammar.get(rule.as_str()) {
            Some(body) => {
                let root = root_path_string();
                collect_nullable_repetition(rule, body, &root, &nullable, &p, &mut out);
            },
            None => {
                proof {
                    assert(issues_view(out@) =~= per_rule(g, ord.take(i as int), f) + Seq::<IssueView>::empty());
                }
            },
        }
        i = i + 1;
    }
    proof {
        assert(ord.take(ord.len() as int) =~= ord);
    }
    out
}


// ---------------------------------------------------------------------------------------------
// Always-succeeding earlier alternatives (a note, never a verdict)
// ---------------------------------------------------------------------------------------------

/// Notes for the alternatives `alts[0..upto]` that always succeed.
pub open spec fn own_always(rule: Seq<char>, alts: Seq<SpecNode>, path: Seq<char>, always: Set<Seq<char>>, p: SpecPolicy, upto: nat) -> Seq<IssueView>
    decreases upto,
{
    if upto == 0 {
        Seq::empty()
    } else {
        own_always(rule, alts, path, always, p, (upto - 1) as nat) + if eval(alts[upto - 1], always, p) {
            seq![IssueView::AlwaysSucceedsAlternative(rule, path, (upto - 1) as nat)]
        } else {
            Seq::empty()
        }
    }
}

/// At an ordered choice: every alternative except the last that always succeeds.
pub open spec fn as_emit(rule: Seq<char>, always: Set<Seq<char>>, p: SpecPolicy) -> spec_fn(SpecNode, Seq<char>) -> Seq<IssueView> {
    |n: SpecNode, path: Seq<char>|
        match n {
            SpecNode::Or(alts) => own_always(rule, alts, path, always, p, if alts.len() > 0 { (alts.len() - 1) as nat } else { 0 }),
            _ => Seq::empty(),
        }
}

#[verifier::loop_isolation(false)]
fn collect_always_succeeds_alternatives(
    rule: &String,
    node: &ASTNode,
    path: &String,
    always: &NameSet,
    p: &EvalPolicy,
    out: &mut Vec<WellformednessIssue>,
)
    ensures
        issues_view(final(out)@) == issues_view(old(out)@) + walk(node@, path@, as_emit(rule@, always@, p.spec())),
    decreases node,
{
    let ghost emit = as_emit(rule@, always@, p.spec());
    match node {
        ASTNode::Or { alternatives: v } | ASTNode::Sequence { elements: v } => {
            let is_or = match node {
                ASTNode::Or { .. } => true,
                _ => false,
            };
            let tag = if is_or { 'o' } else { 's' };
            proof {
                lemma_nodes_view(v@);
            }
            let ghost base = issues_view(out@);
            if is_or {
                let last = if v.len() > 0 { v.len() - 1 } else { 0 };
                let mut i: usize = 0;
                while i < last
                    invariant
                        last <= v@.len(),
                        last == (if v@.len() > 0 { v@.len() - 1 } else { 0 }),
                        i <= last,
                        issues_view(out@) == base + own_always(rule@, nodes_view(v@), path@, always@, p.spec(), i as nat),
                    decreases last - i,
                {
                    let ghost before = out@;
                    if eval_node(&v[i], always, p) {
                        out.push(WellformednessIssue::AlwaysSucceedsAlternative {
                            rule: rule.clone(),
                            node_path: path.clone(),
                            always_index: i,
                        });
                        proof {
                            assert(issues_view(out@) =~= issues_view(before).push(IssueView::AlwaysSucceedsAlternative(rule@, path@, i as nat)));
                        }
                    }
                    i = i + 1;
                    proof {
                        assert(issues_view(out@) =~= base + own_always(rule@, nodes_view(v@), path@, always@, p.spec(), i as nat));
                    }
                }
                proof {
                    assert(emit(node@, path@) == own_always(rule@, nodes_view(v@), path@, always@, p.spec(), last as nat));
                }
            } else {
                proof {
                    assert(emit(node@, path@) =~= Seq::<IssueView>::empty());
                    assert(issues_view(out@) =~= base + emit(node@, path@));
                }
            }
            let ghost mid = issues_view(out@);
            proof {
                assert(mid == base + emit(node@, path@));
                assert(walk(node@, path@, emit) =~= emit(node@, path@) + walk_seq(nodes_view(v@), path@, tag, emit));
            }
            let mut i: usize = 0;
            while i < v.len()
                invariant
                    i <= v@.len(),
                    issues_view(out@) == mid + walk_seq(nodes_view(v@).take(i as int), path@, tag, emit),
                decreases v@.len() - i,
            {
                let child_path_s = extend_path(path, tag, Some(i));
                collect_always_succeeds_alternatives(rule, &v[i], &child_path_s, always, p, out);
                proof {
                    assert(nodes_view(v@).take(i + 1) =~= nodes_view(v@).take(i as int).push(node_view(v@[i as int])));
                    lemma_walk_seq_push(nodes_view(v@).take(i as int), node_view(v@[i as int]), path@, tag, emit);
                }
                i = i + 1;
                proof {
                    assert(issues_view(out@) =~= mid + walk_seq(nodes_view(v@).take(i as int), path@, tag, emit));
                }
            }
            proof {
                assert(nodes_view(v@).take(i as int) =~= nodes_view(v@));
                assert(issues_view(out@) =~= issues_view(old(out)@) + walk(node@, path@, emit));
            }
        },
        ASTNode::Quantified { element, .. } => {
            let child = extend_path(path, 'q', None);
            collect_always_succeeds_alternatives(rule, element, &child, always, p, out);
            proof {
                assert(emit(node@, path@) =~= Seq::<IssueView>::empty());
                assert(issues_view(final(out)@) =~= issues_view(old(out)@) + walk(node@, path@, emit));
            }
        },
        ASTNode::Lookahead { element, .. } => {
            let child = extend_path(path, 'l', None);
            collect_always_succeeds_alternatives(rule, element, &child, always, p, out);
            proof {
                assert(emit(node@, path@) =~= Seq::<IssueView>::empty());
                assert(issues_view(final(out)@) =~= issues_view(old(out)@) + walk(node@, path@, emit));
            }
        },
        ASTNode::Atom { value } => match value {
            ASTValue::Node(inner) => {
                let child = extend_path(path, 'a', None);
                collect_always_succeeds_alternatives(rule, inner, &child, always, p, out);
                proof {
                    assert(emit(node@, path@) =~= Seq::<IssueView>::empty());
                    assert(issues_view(final(out)@) =~= issues_view(old(out)@) + walk(node@, path@, emit));
                }
            },
            ASTValue::Token(_) => {
                proof {
                    assert(emit(node@, path@) =~= Seq::<IssueView>::empty());
                    assert(issues_view(final(out)@) =~= issues_view(old(out)@) + walk(node@, path@, emit));
                }
            },
        },
    }
}

/// Every always-succeeding earlier alternative, per rule in `rule_order`, in pre-order.
pub open spec fn always_succeeds_issues(g: Map<Seq<char>, ASTNode>, ord: Seq<Seq<char>>) -> Seq<IssueView> {
    per_rule(g, ord, |r: Seq<char>| walk(g[r]@, root_path(), as_emit(r, always_rules(g, ord), always_policy(g))))
}

/// In every ordered choice, each alternative other than the last that always succeeds
/// (nullable/total, no lookahead), as `AlwaysSucceedsAlternative` notes. Makes no
/// reachability claim about later alternatives.
pub fn detect_always_succeeds_alternatives(grammar: &Grammar, rule_order: &[String]) -> (issues: Vec<WellformednessIssue>)
    ensures
        issues_view(issues@) == always_succeeds_issues(grammar@, strs_view(rule_order@)),
{
    let ghost g = grammar@;
    let ghost ord = strs_view(rule_order@);
    let always = compute_always_succeeds(grammar, rule_order);
    let p = simple_policy(grammar, false, false, false);
    let ghost f = |r: Seq<char>| walk(g[r]@, root_path(), as_emit(r, always_rules(g, ord), always_policy(g)));
    let mut out: Vec<WellformednessIssue> = Vec::new();
    let mut i: usize = 0;
    while i < rule_order.len()
        invariant
            g == grammar@,
            ord == strs_view(rule_order@),
            always@ == always_rules(g, ord),
            p.spec() == always_policy(g),
            f == (|r: Seq<char>| walk(g[r]@, root_path(), as_emit(r, always_rules(g, ord), always_policy(g)))),
            i <= rule_order@.len(),
            issues_view(out@) == per_rule(g, ord.take(i as int), f),
        decreases rule_order@.len() - i,
    {
        let rule = &rule_order[i];
        proof {
            assert(ord.take(i + 1) =~= ord.take(i as int).push(rule@));
            lemma_per_rule_push(g, ord.take(i as int), rule@, f);
        }
        match grammar.get(rule.as_str()) {
            Some(body) => {
                let root = root_path_string();
                collect_always_succeeds_alternatives(rule, body, &root, &always, &p, &mut out);
            },
            None => {
                proof {
                    assert(issues_view(out@) =~= per_rule(g, ord.take(i as int), f) + Seq::<IssueView>::empty());
                }
            },
        }
        i = i + 1;
    }
    proof {
        assert(ord.take(ord.len() as int) =~= ord);
    }
    out
}


// ---------------------------------------------------------------------------------------------
// Undefined references
// ---------------------------------------------------------------------------------------------

/// The builtins codegen resolves natively; a reference to one is never undefined.
pub open spec fn is_native_builtin(x: Seq<char>) -> bool {
    x == "builtin_any_char"@ || x == "builtin_ascii_char"@
}

pub fn native_builtin(x: &str) -> (r: bool)
    ensures
        r == is_native_builtin(x@),
{
    str_eq(x, "builtin_any_char") || str_eq(x, "builtin_ascii_char")
}

/// The natively resolved builtin names.
pub fn native_unresolved_reference_builtins() -> (r: Vec<String>)
    ensures
        strs_view(r@) == seq!["builtin_any_char"@, "builtin_ascii_char"@],
{
    let mut r: Vec<String> = Vec::new();
    r.push(crate::names::str_to_string("builtin_any_char"));
    r.push(crate::names::str_to_string("builtin_ascii_char"));
    proof {
        assert(strs_view(r@) =~= seq!["builtin_any_char"@, "builtin_ascii_char"@]);
    }
    r
}

/// The names of `s`, strictly sorted.
pub open spec fn sorted_seq(s: Set<Seq<char>>) -> Seq<Seq<char>> {
    choose|q: Seq<Seq<char>>| strictly_sorted(q) && q.to_set() == s
}

/// The undefined, non-builtin references of rule `r`.
pub open spec fn undefined_refs_of(g: Map<Seq<char>, ASTNode>, r: Seq<char>) -> Set<Seq<char>> {
    node_refs(g[r]@).filter(|x: Seq<char>| !g.dom().contains(x) && !is_native_builtin(x))
}

pub open spec fn undefined_reference_issues(g: Map<Seq<char>, ASTNode>, ord: Seq<Seq<char>>) -> Seq<IssueView> {
    per_rule(g, ord, |r: Seq<char>| sorted_seq(undefined_refs_of(g, r)).map_values(|x: Seq<char>| IssueView::UndefinedReference(r, x)))
}

/// References to rules neither defined nor native builtins, one `UndefinedReference` per
/// distinct `(rule, referenced)` pair: rules in `rule_order` order, references sorted.
pub fn detect_undefined_references(grammar: &Grammar, rule_order: &[String]) -> (issues: Vec<WellformednessIssue>)
    ensures
        issues_view(issues@) == undefined_reference_issues(grammar@, strs_view(rule_order@)),
{
    let ghost g = grammar@;
    let ghost ord = strs_view(rule_order@);
    let ghost f = |r: Seq<char>| sorted_seq(undefined_refs_of(g, r)).map_values(|x: Seq<char>| IssueView::UndefinedReference(r, x));
    let mut out: Vec<WellformednessIssue> = Vec::new();
    let mut i: usize = 0;
    while i < rule_order.len()
        invariant
            g == grammar@,
            ord == strs_view(rule_order@),
            f == (|r: Seq<char>| sorted_seq(undefined_refs_of(g, r)).map_values(|x: Seq<char>| IssueView::UndefinedReference(r, x))),
            i <= rule_order@.len(),
            issues_view(out@) == per_rule(g, ord.take(i as int), f),
        decreases rule_order@.len() - i,
    {
        let rule = &rule_order[i];
        proof {
            assert(ord.take(i + 1) =~= ord.take(i as int).push(rule@));
            lemma_per_rule_push(g, ord.take(i as int), rule@, f);
        }
        match grammar.get(rule.as_str()) {
            Some(body) => {
                let mut refs = NameSet::new();
                collect_node_rule_refs(body, &mut refs);
                let mut undefined = NameSet::new();
                let n = refs.len();
                let mut k: usize = 0;
                while k < n
                    invariant
                        g == grammar@,
                        n == refs.elems().len(),
                        k <= n,
                        undefined@ == refs.elems().take(k as int).to_set().filter(|x: Seq<char>| !g.dom().contains(x) && !is_native_builtin(x)),
                    decreases n - k,
                {
                    let x = refs.get(k);
                    proof {
                        assert(refs.elems().take(k + 1) =~= refs.elems().take(k as int).push(x@));
                        crate::names::lemma_push_to_set_pub(refs.elems().take(k as int), x@);
                    }
                    if !grammar.contains_key(x.as_str()) && !native_builtin(x.as_str()) {
                        undefined.insert(x.clone());
                    }
                    k = k + 1;
                    proof {
                        assert(undefined@ =~= refs.elems().take(k as int).to_set().filter(|x: Seq<char>| !g.dom().contains(x) && !is_native_builtin(x)));
                    }
                }
                proof {
                    assert(refs.elems().take(n as int) =~= refs.elems());
                    assert(refs@ =~= node_refs(body@));
                    assert(undefined@ =~= undefined_refs_of(g, rule@));
                }
                let sorted = sorted_names(&undefined);
                proof {
                    let q = sorted_seq(undefined_refs_of(g, rule@));
                    assert(strictly_sorted(q) && q.to_set() == undefined_refs_of(g, rule@));
                    lemma_sorted_unique(strs_view(sorted@), q);
                }
                let ghost base = issues_view(out@);
                let mut j: usize = 0;
                while j < sorted.len()
                    invariant
                        j <= sorted@.len(),
                        issues_view(out@) == base + strs_view(sorted@).take(j as int).map_values(|x: Seq<char>| IssueView::UndefinedReference(rule@, x)),
                    decreases sorted@.len() - j,
                {
                    let ghost before = issues_view(out@);
                    out.push(WellformednessIssue::UndefinedReference { rule: rule.clone(), referenced: sorted[j].clone() });
                    proof {
                        assert(issues_view(out@) =~= before.push(IssueView::UndefinedReference(rule@, strs_view(sorted@)[j as int])));
                        assert(strs_view(sorted@).take(j + 1) =~= strs_view(sorted@).take(j as int).push(strs_view(sorted@)[j as int]));
                    }
                    j = j + 1;
                    proof {
                        assert(issues_view(out@) =~= base + strs_view(sorted@).take(j as int).map_values(|x: Seq<char>| IssueView::UndefinedReference(rule@, x)));
                    }
                }
                proof {
                    assert(strs_view(sorted@).take(j as int) =~= strs_view(sorted@));
                }
            },
            None => {
                proof {
                    assert(issues_view(out@) =~= per_rule(g, ord.take(i as int), f) + Seq::<IssueView>::empty());
                }
            },
        }
        i = i + 1;
    }
    proof {
        assert(ord.take(ord.len() as int) =~= ord);
    }
    out
}


// ---------------------------------------------------------------------------------------------
// @profiles consistency
// ---------------------------------------------------------------------------------------------

/// `rule` is present under `profile`: its `@profiles` list is absent, empty, or names `profile`.
pub open spec fn present_under(rp: ProfileMap, profile: Seq<char>, r: Seq<char>) -> bool {
    !profile_blocked(rp, profile, r)
}

/// Satisfiability under a profile: terminals, lookaheads and undefined (external) references
/// are satisfiable; a reference to a defined rule needs the rule present and satisfiable.
pub open spec fn profile_policy(g: Map<Seq<char>, ASTNode>, rp: ProfileMap, profile: Seq<char>) -> SpecPolicy {
    SpecPolicy {
        look: true,
        term: true,
        defined: g.dom(),
        undef_true: true,
        undef_false: Set::empty(),
        blocked: Set::new(|r: Seq<char>| profile_blocked(rp, profile, r)),
    }
}

/// The rules (of the rule order, present under `profile`) satisfiable under `profile`.
pub open spec fn sat_rules(g: Map<Seq<char>, ASTNode>, ord: Seq<Seq<char>>, rp: ProfileMap, profile: Seq<char>) -> Set<Seq<char>> {
    lfp(g, ord, profile_policy(g, rp, profile))
}

pub fn rule_present_under_profile(rule: &str, rule_profiles: &StrMap<Vec<String>>, profile: &str) -> (r: bool)
    ensures
        r == present_under(pview(rule_profiles@), profile@, rule@),
{
    match rule_profiles.get(rule) {
        None => true,
        Some(profiles) => profiles.len() == 0 || strings_contain(profiles.as_slice(), profile),
    }
}

/// The per-profile satisfiability fixpoint.
pub(crate) fn sat_under_profile(grammar: &Grammar, rule_order: &[String], rule_profiles: &StrMap<Vec<String>>, profile: &str) -> (r: NameSet)
    ensures
        r@ == sat_rules(grammar@, strs_view(rule_order@), pview(rule_profiles@), profile@),
{
    let p = EvalPolicy {
        look: true,
        term: true,
        defined: grammar,
        undef_true: true,
        undef_false: None,
        blocked: Blocked::Profile { rule_profiles, profile },
    };
    proof {
        assert(p.spec().undef_false =~= Set::<Seq<char>>::empty());
        assert(p.spec() == profile_policy(grammar@, pview(rule_profiles@), profile@));
    }
    least_fixpoint(rule_order, &p)
}

/// The satisfiable set of every profile, aligned with `all_profiles`.
fn sat_by_profile(grammar: &Grammar, rule_order: &[String], rule_profiles: &StrMap<Vec<String>>, all_profiles: &[String]) -> (r: Vec<NameSet>)
    ensures
        r@.len() == all_profiles@.len(),
        forall|i: int| 0 <= i < r@.len() ==> (#[trigger] r@[i])@ == sat_rules(grammar@, strs_view(rule_order@), pview(rule_profiles@), all_profiles@[i]@),
{
    let mut out: Vec<NameSet> = Vec::new();
    let mut i: usize = 0;
    while i < all_profiles.len()
        invariant
            i <= all_profiles@.len(),
            out@.len() == i,
            forall|j: int| 0 <= j < i ==> (#[trigger] out@[j])@ == sat_rules(grammar@, strs_view(rule_order@), pview(rule_profiles@), all_profiles@[j]@),
        decreases all_profiles@.len() - i,
    {
        out.push(sat_under_profile(grammar, rule_order, rule_profiles, all_profiles[i].as_str()));
        i = i + 1;
    }
    out
}

/// The profiles of `aps` under which `r` is satisfiable, in `aps` order.
pub open spec fn satisfiable_profiles(g: Map<Seq<char>, ASTNode>, ord: Seq<Seq<char>>, rp: ProfileMap, aps: Seq<Seq<char>>, r: Seq<char>) -> Seq<Seq<char>> {
    aps.filter(|q: Seq<char>| sat_rules(g, ord, rp, q).contains(r))
}

pub open spec fn skip_ok(skip: Option<Seq<char>>, q: Seq<char>) -> bool {
    match skip {
        Some(s) => q != s,
        None => true,
    }
}

/// The profiles (of `all_profiles`, in order, other than `skip`) under which `rule` is
/// satisfiable.
fn profiles_where_satisfiable(
    all_profiles: &[String],
    sats: &Vec<NameSet>,
    rule: &str,
    skip: Option<&str>,
    Ghost(g): Ghost<Map<Seq<char>, ASTNode>>,
    Ghost(ord): Ghost<Seq<Seq<char>>>,
    Ghost(rp): Ghost<ProfileMap>,
) -> (r: Vec<String>)
    requires
        sats@.len() == all_profiles@.len(),
        forall|j: int| 0 <= j < sats@.len() ==> (#[trigger] sats@[j])@ == sat_rules(g, ord, rp, all_profiles@[j]@),
    ensures
        strs_view(r@) == strs_view(all_profiles@).filter(|q: Seq<char>| sat_rules(g, ord, rp, q).contains(rule@) && skip_ok(match skip {
            Some(s) => Some(s@),
            None => None,
        }, q)),
{
    let ghost aps = strs_view(all_profiles@);
    let ghost sk = match skip {
        Some(s) => Some(s@),
        None => None,
    };
    let ghost pred = |q: Seq<char>| sat_rules(g, ord, rp, q).contains(rule@) && skip_ok(sk, q);
    let mut out: Vec<String> = Vec::new();
    let mut i: usize = 0;
    while i < all_profiles.len()
        invariant
            aps == strs_view(all_profiles@),
            sk == (match skip {
                Some(s) => Some(s@),
                None => None,
            }),
            pred == (|q: Seq<char>| sat_rules(g, ord, rp, q).contains(rule@) && skip_ok(sk, q)),
            sats@.len() == all_profiles@.len(),
            forall|j: int| 0 <= j < sats@.len() ==> (#[trigger] sats@[j])@ == sat_rules(g, ord, rp, all_profiles@[j]@),
            i <= all_profiles@.len(),
            strs_view(out@) == aps.take(i as int).filter(pred),
        decreases all_profiles@.len() - i,
    {
        let q = &all_profiles[i];
        proof {
            assert(aps.take(i + 1) =~= aps.take(i as int).push(q@));
            aps.take(i as int).lemma_filter_push(q@, pred);
            assert(sats@[i as int]@ == sat_rules(g, ord, rp, q@));
        }
        let not_skipped = match skip {
            Some(s) => !str_eq(q.as_str(), s),
            None => true,
        };
        if not_skipped && sats[i].contains(rule) {
            let ghost before = out@;
            out.push(q.clone());
            proof {
                assert(strs_view(out@) =~= strs_view(before).push(q@));
            }
        }
        i = i + 1;
    }
    proof {
        assert(aps.take(aps.len() as int) =~= aps);
        assert(pred =~= (|q: Seq<char>| sat_rules(g, ord, rp, q).contains(rule@) && skip_ok(match skip {
            Some(s) => Some(s@),
            None => None,
        }, q)));
    }
    out
}

/// The derived `@profiles` set of each rule of `rule_order`: the profiles of `all_profiles`
/// (in order) under which the rule is satisfiable.
pub fn derive_rule_profiles(
    grammar: &Grammar,
    rule_order: &[String],
    rule_profiles: &StrMap<Vec<String>>,
    all_profiles: &[String],
) -> (derived: StrMap<Vec<String>>)
    ensures
        forall|r: Seq<char>| #[trigger] derived@.dom().contains(r) <==> strs_view(rule_order@).contains(r) && grammar@.dom().contains(r),
        forall|r: Seq<char>| #[trigger] derived@.dom().contains(r) ==> strs_view(derived@[r]@) == satisfiable_profiles(
            grammar@,
            strs_view(rule_order@),
            pview(rule_profiles@),
            strs_view(all_profiles@),
            r,
        ),
{
    let ghost g = grammar@;
    let ghost ord = strs_view(rule_order@);
    let ghost aps = strs_view(all_profiles@);
    let sats = sat_by_profile(grammar, rule_order, rule_profiles, all_profiles);
    let mut derived: StrMap<Vec<String>> = StrMap::new();
    let mut i: usize = 0;
    while i < rule_order.len()
        invariant
            g == grammar@,
            ord == strs_view(rule_order@),
            aps == strs_view(all_profiles@),
            sats@.len() == all_profiles@.len(),
            forall|j: int| 0 <= j < sats@.len() ==> (#[trigger] sats@[j])@ == sat_rules(g, ord, pview(rule_profiles@), all_profiles@[j]@),
            i <= rule_order@.len(),
            forall|r: Seq<char>| #[trigger] derived@.dom().contains(r) <==> ord.take(i as int).contains(r) && g.dom().contains(r),
            forall|r: Seq<char>| #[trigger] derived@.dom().contains(r) ==> strs_view(derived@[r]@) == satisfiable_profiles(g, ord, pview(rule_profiles@), aps, r),
        decreases rule_order@.len() - i,
    {
        let rule = &rule_order[i];
        if grammar.contains_key(rule.as_str()) {
            let profiles = profiles_where_satisfiable(all_profiles, &sats, rule.as_str(), None, Ghost(g), Ghost(ord), Ghost(pview(rule_profiles@)));
            proof {
                let none: Option<&str> = None;
                let f1 = |q: Seq<char>| sat_rules(g, ord, pview(rule_profiles@), q).contains(rule@) && skip_ok(match none {
                    Some(s) => Some(s@),
                    None => None,
                }, q);
                let f2 = |q: Seq<char>| sat_rules(g, ord, pview(rule_profiles@), q).contains(rule@);
                assert(f1 =~= f2);
                assert(strs_view(profiles@) == aps.filter(f1));
                assert(aps.filter(f1) == aps.filter(f2));
            }
            let ghost before = derived@;
            let ghost pv = strs_view(profiles@);
            derived.insert(rule.clone(), profiles);
            proof {
                assert(pv == satisfiable_profiles(g, ord, pview(rule_profiles@), aps, rule@));
                assert forall|r: Seq<char>| #[trigger] derived@.dom().contains(r) implies strs_view(derived@[r]@) == satisfiable_profiles(g, ord, pview(rule_profiles@), aps, r) by {
                    if r != rule@ {
                        assert(derived@[r] == before[r]);
                    }
                }
            }
        }
        i = i + 1;
        proof {
            assert forall|r: Seq<char>| #[trigger] derived@.dom().contains(r) <==> ord.take(i as int).contains(r) && g.dom().contains(r) by {
                if ord.take(i as int).contains(r) && r != rule@ {
                    let j = choose|j: int| 0 <= j < i && #[trigger] ord.take(i as int)[j] == r;
                    assert(ord.take(i - 1)[j] == r);
                }
                if ord.take(i - 1).contains(r) {
                    let j = choose|j: int| 0 <= j < i - 1 && #[trigger] ord.take(i - 1)[j] == r;
                    assert(ord.take(i as int)[j] == r);
                }
                if r == rule@ {
                    assert(ord.take(i as int)[i - 1] == r);
                }
            }
        }
    }
    proof {
        assert(ord.take(ord.len() as int) =~= ord);
    }
    derived
}


/// `r` is satisfiable under some profile of `aps` other than `profile`.
pub open spec fn satisfiable_elsewhere(g: Map<Seq<char>, ASTNode>, ord: Seq<Seq<char>>, rp: ProfileMap, aps: Seq<Seq<char>>, profile: Seq<char>, r: Seq<char>) -> bool {
    exists|q: Seq<char>| aps.contains(q) && q != profile && #[trigger] sat_rules(g, ord, rp, q).contains(r)
}

/// The orphan report for `rule` under `profile`: present there, not satisfiable there, but
/// satisfiable under another profile.
pub open spec fn orphan_for(g: Map<Seq<char>, ASTNode>, ord: Seq<Seq<char>>, rp: ProfileMap, aps: Seq<Seq<char>>, profile: Seq<char>, r: Seq<char>) -> Seq<IssueView> {
    if g.dom().contains(r) && present_under(rp, profile, r) && !sat_rules(g, ord, rp, profile).contains(r)
        && satisfiable_elsewhere(g, ord, rp, aps, profile, r) {
        seq![IssueView::ProfileOrphan(r, profile, satisfiable_profiles(g, ord, rp, aps, r))]
    } else {
        Seq::empty()
    }
}

pub open spec fn profile_orphan_issues(g: Map<Seq<char>, ASTNode>, ord: Seq<Seq<char>>, rp: ProfileMap, aps: Seq<Seq<char>>) -> Seq<IssueView> {
    concat_map(aps, |profile: Seq<char>| concat_map(ord, |r: Seq<char>| orphan_for(g, ord, rp, aps, profile, r)))
}

/// `@profiles` orphans: for each profile of `all_profiles`, each rule of `rule_order` that is
/// present under the profile, not satisfiable there, yet satisfiable under another profile;
/// the suggestion is every profile under which the rule is satisfiable.
pub fn detect_profile_orphans(
    grammar: &Grammar,
    rule_order: &[String],
    rule_profiles: &StrMap<Vec<String>>,
    all_profiles: &[String],
) -> (issues: Vec<WellformednessIssue>)
    ensures
        issues_view(issues@) == profile_orphan_issues(grammar@, strs_view(rule_order@), pview(rule_profiles@), strs_view(all_profiles@)),
{
    let ghost g = grammar@;
    let ghost ord = strs_view(rule_order@);
    let ghost rp = pview(rule_profiles@);
    let ghost aps = strs_view(all_profiles@);
    let sats = sat_by_profile(grammar, rule_order, rule_profiles, all_profiles);
    let ghost outer = |profile: Seq<char>| concat_map(ord, |r: Seq<char>| orphan_for(g, ord, rp, aps, profile, r));
    let mut out: Vec<WellformednessIssue> = Vec::new();
    let mut pi: usize = 0;
    while pi < all_profiles.len()
        invariant
            g == grammar@,
            ord == strs_view(rule_order@),
            rp == pview(rule_profiles@),
            aps == strs_view(all_profiles@),
            outer == (|profile: Seq<char>| concat_map(ord, |r: Seq<char>| orphan_for(g, ord, rp, aps, profile, r))),
            sats@.len() == all_profiles@.len(),
            forall|j: int| 0 <= j < sats@.len() ==> (#[trigger] sats@[j])@ == sat_rules(g, ord, rp, all_profiles@[j]@),
            pi <= all_profiles@.len(),
            issues_view(out@) == concat_map(aps.take(pi as int), outer),
        decreases all_profiles@.len() - pi,
    {
        let profile = &all_profiles[pi];
        let ghost pv = profile@;
        let ghost inner = |r: Seq<char>| orphan_for(g, ord, rp, aps, pv, r);
        proof {
            assert(aps.take(pi + 1) =~= aps.take(pi as int).push(pv));
            lemma_concat_map_push(aps.take(pi as int), pv, outer);
            assert(sats@[pi as int]@ == sat_rules(g, ord, rp, pv));
        }
        let ghost base = issues_view(out@);
        let mut i: usize = 0;
        while i < rule_order.len()
            invariant
                g == grammar@,
                ord == strs_view(rule_order@),
                rp == pview(rule_profiles@),
                aps == strs_view(all_profiles@),
                pv == profile@,
                inner == (|r: Seq<char>| orphan_for(g, ord, rp, aps, pv, r)),
                sats@.len() == all_profiles@.len(),
                forall|j: int| 0 <= j < sats@.len() ==> (#[trigger] sats@[j])@ == sat_rules(g, ord, rp, all_profiles@[j]@),
                sats@[pi as int]@ == sat_rules(g, ord, rp, pv),
                pi < all_profiles@.len(),
                i <= rule_order@.len(),
                issues_view(out@) == base + concat_map(ord.take(i as int), inner),
            decreases rule_order@.len() - i,
        {
            let rule = &rule_order[i];
            proof {
                assert(ord.take(i + 1) =~= ord.take(i as int).push(rule@));
                lemma_concat_map_push(ord.take(i as int), rule@, inner);
            }
            let ghost before = issues_view(out@);
            if grammar.contains_key(rule.as_str()) && rule_present_under_profile(rule.as_str(), rule_profiles, profile.as_str())
                && !sats[pi].contains(rule.as_str()) {
                let some_p: Option<&str> = Some(profile.as_str());
                let elsewhere = profiles_where_satisfiable(all_profiles, &sats, rule.as_str(), some_p, Ghost(g), Ghost(ord), Ghost(rp));
                let ghost epred = |q: Seq<char>| sat_rules(g, ord, rp, q).contains(rule@) && skip_ok(Some(pv), q);
                proof {
                    assert((|q: Seq<char>| sat_rules(g, ord, rp, q).contains(rule@) && skip_ok(match some_p {
                        Some(s) => Some(s@),
                        None => None,
                    }, q)) =~= epred);
                    assert(strs_view(elsewhere@) == aps.filter(epred));
                    if satisfiable_elsewhere(g, ord, rp, aps, pv, rule@) {
                        let q = choose|q: Seq<char>| aps.contains(q) && q != pv && #[trigger] sat_rules(g, ord, rp, q).contains(rule@);
                        let j = choose|j: int| 0 <= j < aps.len() && aps[j] == q;
                        aps.lemma_filter_contains(epred, j);
                    }
                    if aps.filter(epred).len() > 0 {
                        aps.lemma_filter_pred(epred, 0);
                        aps.lemma_filter_contains_rev(epred, aps.filter(epred)[0]);
                    }
                }
                if elsewhere.len() > 0 {
                    let suggested = profiles_where_satisfiable(all_profiles, &sats, rule.as_str(), None, Ghost(g), Ghost(ord), Ghost(rp));
                    proof {
                        let none: Option<&str> = None;
                        let f1 = |q: Seq<char>| sat_rules(g, ord, rp, q).contains(rule@) && skip_ok(match none {
                            Some(s) => Some(s@),
                            None => None,
                        }, q);
                        let f2 = |q: Seq<char>| sat_rules(g, ord, rp, q).contains(rule@);
                        assert(f1 =~= f2);
                        assert(strs_view(suggested@) == satisfiable_profiles(g, ord, rp, aps, rule@));
                    }
                    out.push(WellformednessIssue::ProfileOrphan { rule: rule.clone(), profile: profile.clone(), suggested_profiles: suggested });
                    proof {
                        assert(issues_view(out@) =~= before + orphan_for(g, ord, rp, aps, pv, rule@));
                    }
                } else {
                    proof {
                        assert(issues_view(out@) =~= before + orphan_for(g, ord, rp, aps, pv, rule@));
                    }
                }
            } else {
                proof {
                    assert(issues_view(out@) =~= before + orphan_for(g, ord, rp, aps, pv, rule@));
                }
            }
            i = i + 1;
            proof {
                assert(issues_view(out@) =~= base + concat_map(ord.take(i as int), inner));
            }
        }
        proof {
            assert(ord.take(ord.len() as int) =~= ord);
            assert(inner == (|r: Seq<char>| orphan_for(g, ord, rp, aps, pv, r)));
            assert(outer(pv) == concat_map(ord, inner));
        }
        pi = pi + 1;
    }
    proof {
        assert(aps.take(aps.len() as int) =~= aps);
    }
    out
}

/// The orphan report and the derived profiles agree: `r` is reported as an orphan under
/// `profile` exactly when it is a listed, defined rule present under `profile`, `profile` is
/// not among its derived profiles, and its derived profiles are not empty; the suggestion is
/// then exactly the derived set.
pub proof fn lemma_orphans_match_derived_profiles(
    g: Map<Seq<char>, ASTNode>,
    ord: Seq<Seq<char>>,
    rp: ProfileMap,
    aps: Seq<Seq<char>>,
    r: Seq<char>,
    profile: Seq<char>,
    suggestion: Seq<Seq<char>>,
)
    ensures
        profile_orphan_issues(g, ord, rp, aps).contains(IssueView::ProfileOrphan(r, profile, suggestion)) <==> (
            aps.contains(profile) && ord.contains(r) && g.dom().contains(r) && present_under(rp, profile, r)
                && !satisfiable_profiles(g, ord, rp, aps, r).contains(profile)
                && satisfiable_profiles(g, ord, rp, aps, r).len() > 0
                && suggestion == satisfiable_profiles(g, ord, rp, aps, r)),
{
    let x = IssueView::ProfileOrphan(r, profile, suggestion);
    let derived = satisfiable_profiles(g, ord, rp, aps, r);
    let spred = |q: Seq<char>| sat_rules(g, ord, rp, q).contains(r);
    let inner = |p: Seq<char>| concat_map(ord, |r2: Seq<char>| orphan_for(g, ord, rp, aps, p, r2));
    assert(profile_orphan_issues(g, ord, rp, aps) == concat_map(aps, inner));
    lemma_concat_map_contains(aps, inner, x);
    assert forall|i: int| 0 <= i < aps.len() implies (#[trigger] inner(aps[i]).contains(x) <==> (aps[i] == profile
        && ord.contains(r) && orphan_for(g, ord, rp, aps, profile, r).contains(x))) by {
        let f = |r2: Seq<char>| orphan_for(g, ord, rp, aps, aps[i], r2);
        lemma_concat_map_contains(ord, f, x);
        if inner(aps[i]).contains(x) {
            let j = choose|j: int| 0 <= j < ord.len() && #[trigger] f(ord[j]).contains(x);
            assert(f(ord[j]).len() > 0);
            assert(f(ord[j])[0] == x) by {
                let k = choose|k: int| 0 <= k < f(ord[j]).len() && #[trigger] f(ord[j])[k] == x;
            }
            assert(ord[j] == r && aps[i] == profile);
        }
        if aps[i] == profile && ord.contains(r) && orphan_for(g, ord, rp, aps, profile, r).contains(x) {
            let j = choose|j: int| 0 <= j < ord.len() && ord[j] == r;
            assert(f(ord[j]).contains(x));
        }
    }
    assert(derived == aps.filter(spred));
    aps.filter_lemma(spred);
    let lhs = profile_orphan_issues(g, ord, rp, aps).contains(x);
    let rhs = aps.contains(profile) && ord.contains(r) && g.dom().contains(r) && present_under(rp, profile, r)
        && !derived.contains(profile) && derived.len() > 0 && suggestion == derived;
    if lhs {
        let i = choose|i: int| 0 <= i < aps.len() && #[trigger] inner(aps[i]).contains(x);
        assert(aps[i] == profile && ord.contains(r) && orphan_for(g, ord, rp, aps, profile, r).contains(x));
        assert(aps.contains(profile));
        let o = orphan_for(g, ord, rp, aps, profile, r);
        assert(o.len() > 0);
        assert(o[0] == x) by {
            let k = choose|k: int| 0 <= k < o.len() && #[trigger] o[k] == x;
        }
        assert(g.dom().contains(r) && present_under(rp, profile, r) && !sat_rules(g, ord, rp, profile).contains(r));
        assert(satisfiable_elsewhere(g, ord, rp, aps, profile, r));
        assert(suggestion == derived);
        if derived.contains(profile) {
            let k = choose|k: int| 0 <= k < derived.len() && derived[k] == profile;
            assert(spred(derived[k]));
        }
        let q = choose|q: Seq<char>| aps.contains(q) && q != profile && #[trigger] sat_rules(g, ord, rp, q).contains(r);
        aps.lemma_filter_contains_rev(spred, q);
        assert(derived.contains(q));
        assert(rhs);
    }
    if rhs {
        assert(!sat_rules(g, ord, rp, profile).contains(r)) by {
            if sat_rules(g, ord, rp, profile).contains(r) {
                aps.lemma_filter_contains_rev(spred, profile);
            }
        }
        assert(spred(derived[0]));
        assert(derived.contains(derived[0]));
        aps.lemma_filter_contains_rev(spred, derived[0]);
        assert(aps.contains(derived[0]));
        assert(derived[0] != profile);
        assert(satisfiable_elsewhere(g, ord, rp, aps, profile, r));
        assert(orphan_for(g, ord, rp, aps, profile, r) == seq![x]);
        assert(orphan_for(g, ord, rp, aps, profile, r)[0] == x);
        let i = choose|i: int| 0 <= i < aps.len() && aps[i] == profile;
        assert(inner(aps[i]).contains(x));
        assert(lhs);
    }
}



// ---------------------------------------------------------------------------------------------
// Messages
// ---------------------------------------------------------------------------------------------

/// The report line of an issue.
pub open spec fn issue_message(x: IssueView) -> Seq<char> {
    match x {
        IssueView::LeftRecursive(rule, cycle) => "grammar info: rule '"@ + rule + "' is left-recursive (cycle: "@ + joined(cycle, " -> "@)
            + ") — handled by PGEN's LR elimination + runtime cycle-breaking (informational, not an error)"@,
        IssueView::NonTerminating(rule) => "grammar well-formedness ERROR: rule '"@ + rule
            + "' has no finite terminal derivation (it can never produce a complete string) — it is ill-formed; add a terminating alternative"@,
        IssueView::NullableRepetition(rule, path) => "grammar well-formedness WARNING: rule '"@ + rule + "' has an unbounded repetition at '"@ + path
            + "' over a NULLABLE body (can loop without consuming input — Ford PEG well-formedness POPL 2004 §3.6); the runtime is zero-length-guarded but the grammar is ill-formed (likely a bug — the body should consume, or use a bounded quantifier)"@,
        IssueView::AlwaysSucceedsAlternative(rule, path, idx) => "grammar NOTE (not a deadness verdict): rule '"@ + rule + "' (ordered choice at '"@ + path
            + "') has an earlier alternative #"@ + decimal(idx)
            + " that ALWAYS SUCCEEDS (nullable/total — e.g. `e?`/`e*`/all-optional); later alternatives are reachable ONLY when the engine's non-PEG-commit branch policy (backtracking / longest-match) rejects #"@
            + decimal(idx)
            + " — confirm the ordering is intended (a nullable earlier alternative is often a dropped-delimiter extraction artifact, e.g. a lost `[ ]`/`{ }`). This is informational only; it makes NO unreachability claim and never gates."@,
        IssueView::ProfileOrphan(rule, profile, suggested) => "grammar well-formedness ERROR: rule '"@ + rule + "' is present under profile '"@ + profile
            + "' but is NOT satisfiable there — every production references a rule absent under '"@ + profile + "' (a @profiles ORPHAN)"@
            + if suggested.len() == 0 {
            " — but it is satisfiable under NO declared profile, so the real fix is a production valid under some profile (or remove the rule; it may be globally dead)"@
        } else {
            " — DERIVED minimal fix (ANNOTATION-COMPOSITION.4): tag '"@ + rule + "' with @profiles: ["@ + joined(suggested, ", "@)
                + "] (the profiles where it IS satisfiable)"@
        },
        IssueView::UnreachableRule(rule) => "grammar well-formedness ERROR: rule '"@ + rule
            + "' is DEFINED but UNREACHABLE from any entry/root by transitive reference — a dead rule (a well-formed grammar has no useless symbols). Remove it, or reference it from a reachable rule, or make it a top-level entry."@,
        IssueView::UndefinedReference(rule, referenced) => "grammar well-formedness ERROR: rule '"@ + rule + "' references UNDEFINED rule '"@ + referenced
            + "' — codegen emits a never-matching stub for it, so every path through the reference ALWAYS fails (the referencing production is dead). Define '"@
            + referenced
            + "', or fix the reference (likely a typo), or — if a native primitive was intended — use one of codegen's builtins."@,
        IssueView::UnboundFactKind(rule, kind, primitive) => "grammar well-formedness ERROR: rule '"@ + rule + "' consults fact-kind '"@ + kind + "' via "@
            + primitive + "(...), but NO @emit_fact in the grammar emits kind '"@ + kind
            + "' — the fact can never be established (binding-before-use, Jim et al. POPL 2010). The predicate is degenerate (has_fact always-false / lacks_fact always-true). Fix: emit '"@
            + kind + "' somewhere with @emit_fact, or correct the consulted kind (likely a typo)."@,
    }
}

impl WellformednessIssue {
    /// The report line of this issue.
    pub fn message(&self) -> (m: String)
        ensures
            m@ == issue_message(self@),
    {
        let mut m = String::new();
        match self {
            WellformednessIssue::LeftRecursive { rule, cycle } => {
                m.append("grammar info: rule '");
                m.append(rule.as_str());
                m.append("' is left-recursive (cycle: ");
                push_joined(&mut m, cycle, " -> ");
                m.append(") — handled by PGEN's LR elimination + runtime cycle-breaking (informational, not an error)");
            },
            WellformednessIssue::NonTerminating { rule } => {
                m.append("grammar well-formedness ERROR: rule '");
                m.append(rule.as_str());
                m.append(
                    "' has no finite terminal derivation (it can never produce a complete string) — it is ill-formed; add a terminating alternative",
                );
            },
            WellformednessIssue::NullableRepetition { rule, node_path } => {
                m.append("grammar well-formedness WARNING: rule '");
                m.append(rule.as_str());
                m.append("' has an unbounded repetition at '");
                m.append(node_path.as_str());
                m.append(
                    "' over a NULLABLE body (can loop without consuming input — Ford PEG well-formedness POPL 2004 §3.6); the runtime is zero-length-guarded but the grammar is ill-formed (likely a bug — the body should consume, or use a bounded quantifier)",
                );
            },
            WellformednessIssue::AlwaysSucceedsAlternative { rule, node_path, always_index } => {
                m.append("grammar NOTE (not a deadness verdict): rule '");
                m.append(rule.as_str());
                m.append("' (ordered choice at '");
                m.append(node_path.as_str());
                m.append("') has an earlier alternative #");
                push_decimal(&mut m, *always_index);
                m.append(
                    " that ALWAYS SUCCEEDS (nullable/total — e.g. `e?`/`e*`/all-optional); later alternatives are reachable ONLY when the engine's non-PEG-commit branch policy (backtracking / longest-match) rejects #",
                );
                push_decimal(&mut m, *always_index);
                m.append(
                    " — confirm the ordering is intended (a nullable earlier alternative is often a dropped-delimiter extraction artifact, e.g. a lost `[ ]`/`{ }`). This is informational only; it makes NO unreachability claim and never gates.",
                );
            },
            WellformednessIssue::ProfileOrphan { rule, profile, suggested_profiles } => {
                m.append("grammar well-formedness ERROR: rule '");
                m.append(rule.as_str());
                m.append("' is present under profile '");
                m.append(profile.as_str());
                m.append("' but is NOT satisfiable there — every production references a rule absent under '");
                m.append(profile.as_str());
                m.append("' (a @profiles ORPHAN)");
                if suggested_profiles.len() == 0 {
                    m.append(
                        " — but it is satisfiable under NO declared profile, so the real fix is a production valid under some profile (or remove the rule; it may be globally dead)",
                    );
                } else {
                    m.append(" — DERIVED minimal fix (ANNOTATION-COMPOSITION.4): tag '");
                    m.append(rule.as_str());
                    m.append("' with @profiles: [");
                    push_joined(&mut m, suggested_profiles, ", ");
                    m.append("] (the profiles where it IS satisfiable)");
                }
            },
            WellformednessIssue::UnreachableRule { rule } => {
                m.append("grammar well-formedness ERROR: rule '");
                m.append(rule.as_str());
                m.append(
                    "' is DEFINED but UNREACHABLE from any entry/root by transitive reference — a dead rule (a well-formed grammar has no useless symbols). Remove it, or reference it from a reachable rule, or make it a top-level entry.",
                );
            },
            WellformednessIssue::UndefinedReference { rule, referenced } => {
                m.append("grammar well-formedness ERROR: rule '");
                m.append(rule.as_str());
                m.append("' references UNDEFINED rule '");
                m.append(referenced.as_str());
                m.append(
                    "' — codegen emits a never-matching stub for it, so every path through the reference ALWAYS fails (the referencing production is dead). Define '",
                );
                m.append(referenced.as_str());
                m.append("', or fix the reference (likely a typo), or — if a native primitive was intended — use one of codegen's builtins.");
            },
            WellformednessIssue::UnboundFactKind { rule, kind, primitive } => {
                m.append("grammar well-formedness ERROR: rule '");
                m.append(rule.as_str());
                m.append("' consults fact-kind '");
                m.append(kind.as_str());
                m.append("' via ");
                m.append(primitive.as_str());
                m.append("(...), but NO @emit_fact in the grammar emits kind '");
                m.append(kind.as_str());
                m.append(
                    "' — the fact can never be established (binding-before-use, Jim et al. POPL 2010). The predicate is degenerate (has_fact always-false / lacks_fact always-true). Fix: emit '",
                );
                m.append(kind.as_str());
                m.append("' somewhere with @emit_fact, or correct the consulted kind (likely a typo).");
            },
        }
        proof {
            assert(m@ =~= issue_message(self@));
        }
        m
    }
}


/// A node made only of lookaheads and non-reference terminals: a lookahead, a terminal, or a
/// sequence each of whose elements is one of those.
pub open spec fn lookaheads_and_terminals(n: SpecNode) -> bool {
    let atom = |x: SpecNode| (x is Look) || (x matches SpecNode::Token(parts) && ref_of_parts(parts) is None);
    atom(n) || (n matches SpecNode::Sequence(e) && forall|i: int| 0 <= i < e.len() ==> atom(#[trigger] e[i]))
}

proof fn lemma_lookaheads_and_terminals_hold(n: SpecNode, est: Set<Seq<char>>, p: SpecPolicy)
    requires
        lookaheads_and_terminals(n),
        p.look,
        p.term,
    ensures
        eval(n, est, p),
{
    match n {
        SpecNode::Sequence(e) => {
            lemma_eval_any_all(e, est, p);
            assert forall|i: int| 0 <= i < e.len() implies eval(#[trigger] e[i], est, p) by {
                let x = e[i];
                if x is Look {
                } else {
                    assert(x matches SpecNode::Token(parts) && ref_of_parts(parts) is None);
                }
            }
        },
        _ => {},
    }
}

/// A rule whose body is made of lookaheads and terminals has a finite terminal derivation: a
/// lookahead consumes nothing and terminates, so such a rule is never reported non-terminating.
pub proof fn lemma_lookaheads_and_terminals_productive(g: Map<Seq<char>, ASTNode>, ord: Seq<Seq<char>>, r: Seq<char>)
    requires
        ord.contains(r),
        g.dom().contains(r),
        lookaheads_and_terminals(g[r]@),
    ensures
        productive_rules(g, ord).contains(r),
{
    let p = productive_policy(g);
    lemma_lfp_exists(g, ord, p);
    lemma_lookaheads_and_terminals_hold(g[r]@, productive_rules(g, ord), p);
    assert(is_candidate(ord, r, p));
    assert(eval(body_view(g, r), productive_rules(g, ord), p));
}

/// A rule with no `@profiles` restriction whose body is made of lookaheads and terminals is
/// satisfiable under every profile, so its derived profiles are all the profiles.
pub proof fn lemma_lookaheads_and_terminals_satisfiable(
    g: Map<Seq<char>, ASTNode>,
    ord: Seq<Seq<char>>,
    rp: ProfileMap,
    aps: Seq<Seq<char>>,
    r: Seq<char>,
)
    requires
        ord.contains(r),
        g.dom().contains(r),
        !rp.dom().contains(r) || rp[r].len() == 0,
        lookaheads_and_terminals(g[r]@),
    ensures
        forall|q: Seq<char>| #[trigger] sat_rules(g, ord, rp, q).contains(r),
        satisfiable_profiles(g, ord, rp, aps, r) == aps,
{
    assert forall|q: Seq<char>| #[trigger] sat_rules(g, ord, rp, q).contains(r) by {
        let p = profile_policy(g, rp, q);
        lemma_lfp_exists(g, ord, p);
        lemma_lookaheads_and_terminals_hold(g[r]@, sat_rules(g, ord, rp, q), p);
        assert(!p.blocked.contains(r));
        assert(is_candidate(ord, r, p));
        assert(eval(body_view(g, r), sat_rules(g, ord, rp, q), p));
    }
    lemma_filter_all_true(aps, |q: Seq<char>| sat_rules(g, ord, rp, q).contains(r));
}

proof fn lemma_filter_all_true(s: Seq<Seq<char>>, f: spec_fn(Seq<char>) -> bool)
    requires
        forall|x: Seq<char>| #[trigger] f(x),
    ensures
        s.filter(f) == s,
    decreases s.len(),
{
    if s.len() > 0 {
        lemma_filter_all_true(s.drop_last(), f);
        s.drop_last().lemma_filter_push(s.last(), f);
        assert(s.drop_last().push(s.last()) =~= s);
    } else {
        assert(s.filter(f) =~= s);
    }
}

} // verus!
