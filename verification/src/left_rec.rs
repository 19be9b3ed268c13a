//! Left-recursion detection: the left-edge call graph and a cycle search over it.
use vstd::prelude::*;
use crate::ast::{
    ASTNode, ASTValue, SpecNode, lemma_nodes_view, node_view, nodes_view, ref_of_parts,
    referenced_rule,
};
use crate::fixpoint::{EvalPolicy, SpecPolicy, eval, eval_node};
use crate::graph::{adj_edge, adj_rel, lemma_closed_contains_reach, reach_n, reach_set, reachable_from, lemma_reach_step, lemma_seed_reachable};
use crate::names::{NameSet, StrMap, strs_view};
use crate::order::{lemma_sorted_unique, sorted_names, strictly_sorted};
use crate::graph::graph_universe;
use crate::names::str_eq;
use crate::wellformed::{Grammar, IssueView, WellformednessIssue, compute_nullable, defined_only, issues_view, nullable_policy, nullable_rules};
use crate::fixpoint::Blocked;

verus! {

broadcast use vstd::std_specs::vec::axiom_vec_index_decreases;

/// Rules referenced at the left edge of a node: reachable before input is necessarily consumed.
/// A sequence exposes its elements up to and including the first non-nullable one.
pub open spec fn left_refs(n: SpecNode, nullable: Set<Seq<char>>, p: SpecPolicy) -> Set<Seq<char>>
    decreases n,
{
    match n {
        SpecNode::Or(alts) => left_refs_any(alts, nullable, p),
        SpecNode::Sequence(elems) => left_refs_prefix(elems, nullable, p),
        SpecNode::Quant(inner, _) => left_refs(*inner, nullable, p),
        SpecNode::Look(inner, _) => left_refs(*inner, nullable, p),
        SpecNode::Group(inner) => left_refs(*inner, nullable, p),
        SpecNode::Token(parts) => match ref_of_parts(parts) {
            Some(r) => set![r],
            None => Set::empty(),
        },
    }
}

pub open spec fn left_refs_any(s: Seq<SpecNode>, nullable: Set<Seq<char>>, p: SpecPolicy) -> Set<Seq<char>>
    decreases s,
{
    if s.len() == 0 {
        Set::empty()
    } else {
        left_refs_any(s.drop_last(), nullable, p).union(left_refs(s.last(), nullable, p))
    }
}

pub open spec fn left_refs_prefix(s: Seq<SpecNode>, nullable: Set<Seq<char>>, p: SpecPolicy) -> Set<Seq<char>>
    decreases s,
{
    if s.len() == 0 {
        Set::empty()
    } else {
        left_refs(s[0], nullable, p).union(if eval(s[0], nullable, p) {
            left_refs_prefix(s.drop_first(), nullable, p)
        } else {
            Set::empty()
        })
    }
}

/// Collect the left-edge references of `node` into `out`.
#[verifier::loop_isolation(false)]
pub fn leftmost_refs(node: &ASTNode, nullable: &NameSet, p: &EvalPolicy, out: &mut NameSet)
    ensures
        final(out)@ == old(out)@.union(left_refs(node@, nullable@, p.spec())),
    decreases node,
{
    match node {
        ASTNode::Or { alternatives: v } => {
            let mut i: usize = 0;
            while i < v.len()
                invariant
                    i <= v@.len(),
                    out@ == old(out)@.union(left_refs_any(nodes_view(v@).take(i as int), nullable@, p.spec())),
                decreases v@.len() - i,
            {
                proof {
                    lemma_nodes_view(v@);
                    assert(nodes_view(v@).take(i + 1) =~= nodes_view(v@).take(i as int).push(node_view(v@[i as int])));
                    assert(nodes_view(v@).take(i + 1).drop_last() =~= nodes_view(v@).take(i as int));
                }
                leftmost_refs(&v[i], nullable, p, out);
                i = i + 1;
                proof {
                    assert(out@ =~= old(out)@.union(left_refs_any(nodes_view(v@).take(i as int), nullable@, p.spec())));
                }
            }
            proof {
                lemma_nodes_view(v@);
                assert(nodes_view(v@).take(i as int) =~= nodes_view(v@));
            }
        },
        ASTNode::Sequence { elements: v } => {
            let ghost s = nodes_view(v@);
            proof {
                lemma_nodes_view(v@);
                assert(s.skip(0) =~= s);
            }
            let mut i: usize = 0;
            let mut go = true;
            while go && i < v.len()
                invariant
                    s == nodes_view(v@),
                    s.len() == v@.len(),
                    i <= v@.len(),
                    go ==> old(out)@.union(left_refs_prefix(s, nullable@, p.spec())) == out@.union(left_refs_prefix(s.skip(i as int), nullable@, p.spec())),
                    !go ==> old(out)@.union(left_refs_prefix(s, nullable@, p.spec())) == out@,
                decreases v@.len() - i,
            {
                proof {
                    lemma_nodes_view(v@);
                    assert(s.skip(i as int)[0] == node_view(v@[i as int]));
                    assert(s.skip(i as int).drop_first() =~= s.skip(i + 1));
                }
                leftmost_refs(&v[i], nullable, p, out);
                let nullable_here = eval_node(&v[i], nullable, p);
                i = i + 1;
                if !nullable_here {
                    go = false;
                    proof {
                        assert(old(out)@.union(left_refs_prefix(s, nullable@, p.spec())) =~= out@);
                    }
                } else {
                    proof {
                        assert(old(out)@.union(left_refs_prefix(s, nullable@, p.spec())) =~= out@.union(left_refs_prefix(s.skip(i as int), nullable@, p.spec())));
                    }
                }
            }
            proof {
                if go {
                    assert(s.skip(i as int).len() == 0);
                }
                assert(out@ =~= old(out)@.union(left_refs(node@, nullable@, p.spec())));
            }
        },
        ASTNode::Quantified { element, .. } => leftmost_refs(element, nullable, p, out),
        ASTNode::Lookahead { element, .. } => leftmost_refs(element, nullable, p, out),
        ASTNode::Atom { value } => match value {
            ASTValue::Node(inner) => leftmost_refs(inner, nullable, p, out),
            ASTValue::Token(parts) => match referenced_rule(parts) {
                Some(r) => {
                    out.insert(r.clone());
                    proof {
                        assert(out@ =~= old(out)@.union(left_refs(node@, nullable@, p.spec())));
                    }
                },
                None => {
                    proof {
                        assert(out@ =~= old(out)@.union(left_refs(node@, nullable@, p.spec())));
                    }
                },
            },
        },
    }
}


/// Consecutive names of `s` are related by `rel`.
pub open spec fn valid_path(rel: spec_fn(Seq<char>, Seq<char>) -> bool, s: Seq<Seq<char>>) -> bool {
    forall|i: int| 0 <= i < s.len() - 1 ==> #[trigger] rel(s[i], s[i + 1])
}

/// `c` is a simple cycle through `r`: `r -> ... -> r`, with distinct intermediates other than `r`.
pub open spec fn valid_cycle(rel: spec_fn(Seq<char>, Seq<char>) -> bool, r: Seq<char>, c: Seq<Seq<char>>) -> bool {
    &&& c.len() >= 2
    &&& c[0] == r
    &&& c[c.len() - 1] == r
    &&& valid_path(rel, c)
    &&& forall|i: int| 0 < i < c.len() - 1 ==> c[i] != r
    &&& c.drop_last().no_duplicates()
}

/// The visited names not exempt are closed: their successors are visited and not `start`.
pub open spec fn closed_inv(rel: spec_fn(Seq<char>, Seq<char>) -> bool, visited: Set<Seq<char>>, exempt: Set<Seq<char>>, start: Seq<char>) -> bool {
    forall|v: Seq<char>, w: Seq<char>| visited.contains(v) && !exempt.contains(v) && #[trigger] rel(v, w) ==> visited.contains(w) && w != start
}

/// The successors of `r`.
pub open spec fn successors(rel: spec_fn(Seq<char>, Seq<char>) -> bool, r: Seq<char>) -> Set<Seq<char>> {
    Set::new(|b: Seq<char>| rel(r, b))
}

/// `r` lies on a cycle of `rel`.
pub open spec fn on_cycle(rel: spec_fn(Seq<char>, Seq<char>) -> bool, r: Seq<char>) -> bool {
    reach_set(rel, successors(rel, r)).contains(r)
}

/// The depth-first search for a left-edge cycle, from `current` with the rules `visited` so far
/// (`u` bounds every rule the search can enter): the rules it goes on to push, ending with `start`,
/// if it closes the cycle, and the rules visited by then. Neighbours are tried in sorted order, and
/// `visited` is shared across the whole search, so a rule entered once is never entered again.
pub open spec fn dfs_node(
    adj: Map<Seq<char>, Set<Seq<char>>>,
    u: Set<Seq<char>>,
    start: Seq<char>,
    current: Seq<char>,
    visited: Set<Seq<char>>,
) -> (Option<Seq<Seq<char>>>, Set<Seq<char>>)
    decreases u.len() - visited.len(), 1nat, 0nat when u.finite() && visited.subset_of(u)
{
    proof {
        vstd::set_lib::lemma_len_subset(visited, u);
    }
    if adj.dom().contains(current) {
        dfs_list(adj, u, start, crate::wellformed::sorted_seq(adj[current]), 0, visited)
    } else {
        (None, visited)
    }
}

/// The search over the neighbours `nbrs[i..]` of one rule.
pub open spec fn dfs_list(
    adj: Map<Seq<char>, Set<Seq<char>>>,
    u: Set<Seq<char>>,
    start: Seq<char>,
    nbrs: Seq<Seq<char>>,
    i: nat,
    visited: Set<Seq<char>>,
) -> (Option<Seq<Seq<char>>>, Set<Seq<char>>)
    decreases u.len() - visited.len(), 0nat, nbrs.len() - i when u.finite() && visited.subset_of(u)
{
    proof {
        vstd::set_lib::lemma_len_subset(visited, u);
    }
    if i >= nbrs.len() {
        (None, visited)
    } else if nbrs[i as int] == start {
        (Some(seq![start]), visited)
    } else if visited.contains(nbrs[i as int]) || !u.contains(nbrs[i as int]) {
        dfs_list(adj, u, start, nbrs, i + 1, visited)
    } else {
        let next = nbrs[i as int];
        proof {
            vstd::set_lib::lemma_set_subset_finite(u, visited);
            vstd::set_lib::lemma_len_subset(visited.insert(next), u);
        }
        let r = dfs_node(adj, u, start, next, visited.insert(next));
        match r.0 {
            Some(p) => (Some(seq![next] + p), r.1),
            None => {
                let v2 = visited.union(r.1).intersect(u);
                proof {
                    vstd::set_lib::lemma_set_subset_finite(u, v2);
                    vstd::set_lib::lemma_len_subset(visited, v2);
                    vstd::set_lib::lemma_len_subset(v2, u);
                }
                dfs_list(adj, u, start, nbrs, i + 1, v2)
            },
        }
    }
}

/// Depth-first search from `current` back to `start`, neighbours in sorted order, `visited`
/// shared across the whole search. On success `stack` holds the path `start -> ... -> start`.
#[verifier::loop_isolation(false)]
fn dfs(
    start: &String,
    current: &String,
    left_edge: &StrMap<NameSet>,
    stack: &mut Vec<String>,
    visited: &mut NameSet,
    Ghost(universe): Ghost<Set<Seq<char>>>,
) -> (found: bool)
    requires
        universe.finite(),
        old(visited)@.subset_of(universe),
        forall|a: Seq<char>, b: Seq<char>| #[trigger] adj_edge(left_edge@, a, b) ==> universe.contains(b),
        !old(visited)@.contains(start@),
        old(stack)@.len() >= 1,
        strs_view(old(stack)@)[0] == start@,
        strs_view(old(stack)@)[old(stack)@.len() - 1] == current@,
        valid_path(adj_rel(left_edge@), strs_view(old(stack)@)),
        strs_view(old(stack)@).no_duplicates(),
        forall|i: int| 1 <= i < old(stack)@.len() ==> old(visited)@.contains(#[trigger] strs_view(old(stack)@)[i]),
        closed_inv(adj_rel(left_edge@), old(visited)@, strs_view(old(stack)@).to_set(), start@),
    ensures
        final(visited)@.subset_of(universe),
        old(visited)@.subset_of(final(visited)@),
        !final(visited)@.contains(start@),
        found ==> {
            &&& valid_path(adj_rel(left_edge@), strs_view(final(stack)@))
            &&& final(stack)@.len() > old(stack)@.len()
            &&& strs_view(final(stack)@).take(old(stack)@.len() as int) == strs_view(old(stack)@)
            &&& strs_view(final(stack)@)[final(stack)@.len() - 1] == start@
            &&& forall|i: int| 1 <= i < final(stack)@.len() - 1 ==> final(visited)@.contains(#[trigger] strs_view(final(stack)@)[i])
            &&& strs_view(final(stack)@).drop_last().no_duplicates()
        },
        !found ==> {
            &&& final(stack)@ == old(stack)@
            &&& closed_inv(adj_rel(left_edge@), final(visited)@, strs_view(old(stack)@).drop_last().to_set(), start@)
            &&& forall|w: Seq<char>| #[trigger] adj_rel(left_edge@)(current@, w) ==> final(visited)@.contains(w) && w != start@
        },
        (if found {
            Some(strs_view(final(stack)@).skip(old(stack)@.len() as int))
        } else {
            None::<Seq<Seq<char>>>
        }, final(visited)@) == dfs_node(edge_sets(left_edge@), universe, start@, current@, old(visited)@),
    decreases universe.len() - old(visited)@.len(),
{
    let ghost rel = adj_rel(left_edge@);
    let ghost old_stack = strs_view(stack@);
    let _ = visited.len();
    proof {
        vstd::set_lib::lemma_len_subset(visited@, universe);
    }
    match left_edge.get(current.as_str()) {
        None => {
            proof {
                assert forall|v: Seq<char>, w: Seq<char>| visited@.contains(v) && !old_stack.drop_last().to_set().contains(v) && #[trigger] rel(v, w) implies visited@.contains(w) && w != start@ by {
                    if v != current@ {
                        assert(!old_stack.to_set().contains(v)) by {
                            if old_stack.contains(v) {
                                let j = choose|j: int| 0 <= j < old_stack.len() && old_stack[j] == v;
                                assert(j != old_stack.len() - 1);
                                assert(old_stack.drop_last()[j] == v);
                            }
                        }
                    }
                }
            }
            false
        },
        Some(nset) => {
            let nbrs = sorted_names(nset);
            proof {
                let q = crate::wellformed::sorted_seq(left_edge@[current@]@);
                assert(strictly_sorted(q) && q.to_set() == left_edge@[current@]@);
                lemma_sorted_unique(strs_view(nbrs@), q);
            }
            let mut idx: usize = 0;
            while idx < nbrs.len()
                invariant
                    dfs_node(edge_sets(left_edge@), universe, start@, current@, old(visited)@) == dfs_list(
                        edge_sets(left_edge@),
                        universe,
                        start@,
                        strs_view(nbrs@),
                        idx as nat,
                        visited@,
                    ),
                    rel == adj_rel(left_edge@),
                    old_stack == strs_view(old(stack)@),
                    nset@ == left_edge@[current@]@,
                    left_edge@.dom().contains(current@),
                    strs_view(nbrs@).to_set() == nset@,
                    idx <= nbrs@.len(),
                    stack@ == old(stack)@,
                    visited@.subset_of(universe),
                    old(visited)@.subset_of(visited@),
                    !visited@.contains(start@),
                    forall|i: int| 1 <= i < stack@.len() ==> visited@.contains(#[trigger] strs_view(stack@)[i]),
                    closed_inv(rel, visited@, old_stack.to_set(), start@),
                    forall|j: int| 0 <= j < idx ==> visited@.contains(#[trigger] strs_view(nbrs@)[j]) && strs_view(nbrs@)[j] != start@,
                decreases nbrs@.len() - idx,
            {
                let next = &nbrs[idx];
                assert(next@ == strs_view(nbrs@)[idx as int]);
                proof {
                    assert(strs_view(nbrs@).to_set().contains(next@));
                    assert(rel(current@, next@));
                }
                if str_eq(next.as_str(), start.as_str()) {
                    stack.push(start.clone());
                    proof {
                        let fs = strs_view(stack@);
                        assert(fs =~= old_stack.push(start@));
                        assert(fs.take(old_stack.len() as int) =~= old_stack);
                        assert(fs.drop_last() =~= old_stack);
                        assert forall|i: int| 0 <= i < fs.len() - 1 implies #[trigger] rel(fs[i], fs[i + 1]) by {
                            if i < old_stack.len() - 1 {
                                assert(rel(old_stack[i], old_stack[i + 1]));
                            }
                        }
                    }
                    return true;
                }
                let ghost vb = visited@;
                let _ = visited.len();
                if visited.insert(next.clone()) {
                    let ghost sb = strs_view(stack@);
                    stack.push(next.clone());
                    proof {
                        let ns = strs_view(stack@);
                        assert(ns =~= sb.push(next@));
                        assert(universe.contains(next@)) by {
                            assert(adj_edge(left_edge@, current@, next@));
                        }
                        assert(!sb.contains(next@)) by {
                            if sb.contains(next@) {
                                let j = choose|j: int| 0 <= j < sb.len() && sb[j] == next@;
                                if j == 0 {
                                } else {
                                    assert(vb.contains(sb[j]));
                                }
                            }
                        }
                        assert forall|a: int, b: int| 0 <= a < ns.len() && 0 <= b < ns.len() && a != b implies ns[a] != ns[b] by {
                            if a < sb.len() && b < sb.len() {
                            } else if a < sb.len() {
                                assert(ns[a] == sb[a]);
                            } else {
                                assert(ns[b] == sb[b]);
                            }
                        }
                        assert forall|i: int| 0 <= i < ns.len() - 1 implies #[trigger] rel(ns[i], ns[i + 1]) by {
                            if i < sb.len() - 1 {
                                assert(rel(sb[i], sb[i + 1]));
                                assert(ns[i] == sb[i] && ns[i + 1] == sb[i + 1]);
                            } else {
                                assert(ns[i] == current@ && ns[i + 1] == next@);
                            }
                        }
                        assert forall|i: int| 1 <= i < ns.len() implies visited@.contains(#[trigger] ns[i]) by {
                            if i < sb.len() {
                                assert(ns[i] == sb[i]);
                            }
                        }
                        crate::names::lemma_push_to_set_pub(sb, next@);
                        assert(closed_inv(rel, visited@, ns.to_set(), start@)) by {
                            assert forall|v: Seq<char>, w: Seq<char>| visited@.contains(v) && !ns.to_set().contains(v) && #[trigger] rel(v, w) implies visited@.contains(w) && w != start@ by {
                                assert(v != next@);
                                assert(vb.contains(v));
                                assert(!old_stack.to_set().contains(v));
                            }
                        }
                    }
                    proof {
                        vstd::set_lib::lemma_len_subset(old(visited)@, vb);
                        vstd::set_lib::lemma_len_subset(visited@, universe);
                        assert(visited@.len() == vb.len() + 1);
                    }
                    let ghost vin = visited@;
                    proof {
                        assert(vin == vb.insert(next@));
                        assert(!vb.contains(next@) && universe.contains(next@));
                        assert(strs_view(nbrs@)[idx as int] == next@);
                    }
                    let found = dfs(start, next, left_edge, stack, visited, Ghost(universe));
                    if found {
                        proof {
                            let fs = strs_view(stack@);
                            assert(fs.take(old_stack.len() as int) =~= fs.take(old_stack.len() as int + 1).take(old_stack.len() as int));
                            assert(sb.push(next@).take(old_stack.len() as int) =~= old_stack);
                            let p = fs.skip(old_stack.len() as int + 1);
                            assert(fs[old_stack.len() as int] == sb.push(next@)[old_stack.len() as int]);
                            assert(fs.skip(old_stack.len() as int) =~= seq![next@] + p);
                        }
                        return true;
                    }
                    let ghost sn = strs_view(stack@);
                    stack.pop();
                    proof {
                        assert(stack@ =~= old(stack)@);
                        assert(sn.drop_last() =~= old_stack);
                        assert(closed_inv(rel, visited@, old_stack.to_set(), start@));
                        assert(vb.union(visited@).intersect(universe) =~= visited@);
                    }
                }
                idx = idx + 1;
            }
            proof {
                assert forall|w: Seq<char>| #[trigger] rel(current@, w) implies visited@.contains(w) && w != start@ by {
                    assert(nset@.contains(w));
                    let j = choose|j: int| 0 <= j < strs_view(nbrs@).len() && strs_view(nbrs@)[j] == w;
                    assert(visited@.contains(strs_view(nbrs@)[j]));
                }
                assert forall|v: Seq<char>, w: Seq<char>| visited@.contains(v) && !old_stack.drop_last().to_set().contains(v) && #[trigger] rel(v, w) implies visited@.contains(w) && w != start@ by {
                    if v != current@ {
                        assert(!old_stack.to_set().contains(v)) by {
                            if old_stack.contains(v) {
                                let j = choose|j: int| 0 <= j < old_stack.len() && old_stack[j] == v;
                                assert(j != old_stack.len() - 1);
                                assert(old_stack.drop_last()[j] == v);
                            }
                        }
                    }
                }
            }
            false
        },
    }
}

proof fn lemma_path_reachable(rel: spec_fn(Seq<char>, Seq<char>) -> bool, c: Seq<Seq<char>>, k: int)
    requires
        c.len() >= 2,
        valid_path(rel, c),
        1 <= k < c.len(),
    ensures
        reachable_from(rel, successors(rel, c[0]), c[k]),
    decreases k,
{
    let i = k - 1;
    assert(rel(c[i], c[i + 1]));
    if k == 1 {
        lemma_seed_reachable(rel, successors(rel, c[0]), c[1]);
    } else {
        lemma_path_reachable(rel, c, k - 1);
        lemma_reach_step(rel, successors(rel, c[0]), c[k - 1], c[k]);
    }
}

/// Every rule some left edge leads to.
pub open spec fn edge_targets(adj: Map<Seq<char>, Set<Seq<char>>>) -> Set<Seq<char>> {
    Set::new(|b: Seq<char>| exists|a: Seq<char>| adj.dom().contains(a) && #[trigger] adj[a].contains(b))
}

/// An adjacency map with each rule's neighbours taken as a set.
pub open spec fn edge_sets(adj: Map<Seq<char>, NameSet>) -> Map<Seq<char>, Set<Seq<char>>> {
    adj.map_values(|s: NameSet| s@)
}

/// The cycle the depth-first search from `start` finds: `start` followed by the rules it pushes,
/// the last being `start` again.
pub open spec fn left_cycle_of(adj: Map<Seq<char>, Set<Seq<char>>>, start: Seq<char>) -> Option<Seq<Seq<char>>> {
    match dfs_node(adj, edge_targets(adj), start, start, Set::empty()).0 {
        Some(p) => Some(seq![start] + p),
        None => None,
    }
}

/// A left-edge cycle `start -> ... -> start`, if `start` is left-recursive.
fn find_left_cycle(start: &String, left_edge: &StrMap<NameSet>) -> (r: Option<Vec<String>>)
    ensures
        r is Some <==> on_cycle(adj_rel(left_edge@), start@),
        r matches Some(c) ==> valid_cycle(adj_rel(left_edge@), start@, strs_view(c@)),
        match r {
            Some(c) => left_cycle_of(edge_sets(left_edge@), start@) == Some(strs_view(c@)),
            None => left_cycle_of(edge_sets(left_edge@), start@) is None,
        },
{
    let ghost rel = adj_rel(left_edge@);
    let empty = NameSet::new();
    let universe = graph_universe(left_edge, &empty);
    let _ = universe.len();
    let mut stack: Vec<String> = Vec::new();
    stack.push(start.clone());
    let mut visited = NameSet::new();
    proof {
        assert(strs_view(stack@) =~= seq![start@]);
        crate::names::lemma_push_to_set_pub(Seq::<Seq<char>>::empty(), start@);
        assert(Seq::<Seq<char>>::empty().push(start@) =~= strs_view(stack@));
        assert(Seq::<Seq<char>>::empty().to_set() =~= Set::<Seq<char>>::empty());
    }
    proof {
        let es = edge_sets(left_edge@);
        assert forall|x: Seq<char>| universe@.contains(x) <==> edge_targets(es).contains(x) by {
            if universe@.contains(x) {
                let a = choose|a: Seq<char>| #[trigger] adj_edge(left_edge@, a, x);
                assert(es.dom().contains(a) && es[a].contains(x));
            }
            if edge_targets(es).contains(x) {
                let a = choose|a: Seq<char>| es.dom().contains(a) && #[trigger] es[a].contains(x);
                assert(adj_edge(left_edge@, a, x));
            }
        }
        assert(universe@ =~= edge_targets(es));
        assert(visited@ =~= Set::<Seq<char>>::empty());
    }
    let found = dfs(start, start, left_edge, &mut stack, &mut visited, Ghost(universe@));
    proof {
        if found {
            let c = strs_view(stack@);
            assert(c.take(1)[0] == c[0]);
            assert(c =~= seq![start@] + c.skip(1));
        }
    }
    if found {
        proof {
            let c = strs_view(stack@);
            assert(c[0] == start@) by {
                assert(c.take(1)[0] == c[0]);
            }
            assert forall|i: int| 0 < i < c.len() - 1 implies c[i] != start@ by {
                assert(visited@.contains(c[i]));
            }
            lemma_path_reachable(rel, c, c.len() - 1);
        }
        Some(stack)
    } else {
        proof {
            assert(strs_view(stack@).drop_last() =~= Seq::<Seq<char>>::empty());
            assert(strs_view(stack@).drop_last().to_set() =~= Set::<Seq<char>>::empty());
            assert(successors(rel, start@).subset_of(visited@));
            assert forall|a: Seq<char>, b: Seq<char>| visited@.contains(a) && #[trigger] rel(a, b) implies visited@.contains(b) by {}
            if on_cycle(rel, start@) {
                let n = choose|n: nat| #[trigger] reach_n(rel, successors(rel, start@), n).contains(start@);
                lemma_closed_contains_reach(rel, successors(rel, start@), visited@, n);
            }
        }
        None
    }
}

/// The left-edge relation of the grammar: `a` (listed and defined) can reach the defined rule
/// `b` at its left edge.
pub open spec fn left_rel(g: Map<Seq<char>, ASTNode>, ord: Seq<Seq<char>>) -> spec_fn(Seq<char>, Seq<char>) -> bool {
    |a: Seq<char>, b: Seq<char>|
        ord.contains(a) && g.dom().contains(a) && g.dom().contains(b)
            && left_refs(g[a]@, nullable_rules(g, ord), nullable_policy(g)).contains(b)
}

/// The left edges as an adjacency map: each rule of the order that the grammar defines, with the
/// defined rules that can begin it.
pub open spec fn left_edges(g: Map<Seq<char>, ASTNode>, ord: Seq<Seq<char>>) -> Map<Seq<char>, Set<Seq<char>>> {
    Map::new(
        |a: Seq<char>| ord.contains(a) && g.dom().contains(a),
        |a: Seq<char>| left_refs(g[a]@, nullable_rules(g, ord), nullable_policy(g)).intersect(g.dom()),
    )
}

/// `r` is left-recursive: it reaches itself through left edges.
pub open spec fn is_left_recursive(g: Map<Seq<char>, ASTNode>, ord: Seq<Seq<char>>, r: Seq<char>) -> bool {
    on_cycle(left_rel(g, ord), r)
}

/// Every left-recursive rule (direct or indirect), one `LeftRecursive` issue per rule in
/// `rule_order` order, each carrying a left-edge cycle through the rule. Nullable prefixes are
/// looked through; terminals never count as nullable. The cycle is the one the depth-first search
/// from the rule finds, neighbours taken in sorted order.
pub fn detect_left_recursion(grammar: &Grammar, rule_order: &[String]) -> (issues: Vec<WellformednessIssue>)
    ensures
        ({
            let g = grammar@;
            let ord = strs_view(rule_order@);
            let expected = ord.filter(|r: Seq<char>| g.dom().contains(r) && is_left_recursive(g, ord, r));
            &&& issues@.len() == expected.len()
            &&& forall|k: int| 0 <= k < expected.len() ==> ((#[trigger] issues@[k])@ matches IssueView::LeftRecursive(rule, cycle)
                && rule == expected[k] && valid_cycle(left_rel(g, ord), rule, cycle)
                && left_cycle_of(left_edges(g, ord), rule) == Some(cycle))
        }),
{
    let ghost g = grammar@;
    let ghost ord = strs_view(rule_order@);
    let nullable = compute_nullable(grammar, rule_order);
    let p = EvalPolicy { look: true, term: false, defined: grammar, undef_true: false, undef_false: None, blocked: Blocked::Nothing };
    assert(p.spec() == nullable_policy(g));
    let mut left_edge: StrMap<NameSet> = StrMap::new();
    let mut i: usize = 0;
    while i < rule_order.len()
        invariant
            g == grammar@,
            ord == strs_view(rule_order@),
            nullable@ == nullable_rules(g, ord),
            p.spec() == nullable_policy(g),
            i <= rule_order@.len(),
            forall|a: Seq<char>| #[trigger] left_edge@.dom().contains(a) <==> ord.take(i as int).contains(a) && g.dom().contains(a),
            forall|a: Seq<char>| #[trigger] left_edge@.dom().contains(a) ==> left_edge@[a]@ == left_refs(g[a]@, nullable@, p.spec()).intersect(g.dom()),
        decreases rule_order@.len() - i,
    {
        let rule = &rule_order[i];
        proof {
            assert(ord.take(i + 1) =~= ord.take(i as int).push(rule@));
        }
        match grammar.get(rule.as_str()) {
            Some(body) => {
                let mut refs = NameSet::new();
                leftmost_refs(body, &nullable, &p, &mut refs);
                let kept = defined_only(&refs, grammar);
                proof {
                    assert(refs@ =~= left_refs(g[rule@]@, nullable@, p.spec()));
                }
                left_edge.insert(rule.clone(), kept);
            },
            None => {},
        }
        i = i + 1;
        proof {
            assert forall|a: Seq<char>| #[trigger] left_edge@.dom().contains(a) <==> ord.take(i as int).contains(a) && g.dom().contains(a) by {
                if ord.take(i as int).contains(a) && a != rule@ {
                    let j = choose|j: int| 0 <= j < i && #[trigger] ord.take(i as int)[j] == a;
                    assert(ord.take(i - 1)[j] == a);
                }
                if ord.take(i - 1).contains(a) {
                    let j = choose|j: int| 0 <= j < i - 1 && #[trigger] ord.take(i - 1)[j] == a;
                    assert(ord.take(i as int)[j] == a);
                }
                if a == rule@ {
                    assert(ord.take(i as int)[i - 1] == a);
                }
            }
        }
    }
    proof {
        assert(ord.take(ord.len() as int) =~= ord);
        assert forall|a: Seq<char>, b: Seq<char>| #[trigger] adj_rel(left_edge@)(a, b) == left_rel(g, ord)(a, b) by {
            assert(left_edge@.dom().contains(a) <==> ord.take(i as int).contains(a) && g.dom().contains(a));
            if left_edge@.dom().contains(a) {
                assert(left_edge@[a]@ == left_refs(g[a]@, nullable@, p.spec()).intersect(g.dom()));
            }
        }
        assert(adj_rel(left_edge@) =~= left_rel(g, ord));
        assert(edge_sets(left_edge@) =~= left_edges(g, ord));
    }
    let ghost rel = left_rel(g, ord);
    let ghost pred = |r: Seq<char>| g.dom().contains(r) && is_left_recursive(g, ord, r);
    let mut issues: Vec<WellformednessIssue> = Vec::new();
    let mut k: usize = 0;
    while k < rule_order.len()
        invariant
            g == grammar@,
            ord == strs_view(rule_order@),
            rel == left_rel(g, ord),
            adj_rel(left_edge@) == rel,
            edge_sets(left_edge@) == left_edges(g, ord),
            pred == (|r: Seq<char>| g.dom().contains(r) && is_left_recursive(g, ord, r)),
            k <= rule_order@.len(),
            issues@.len() == ord.take(k as int).filter(pred).len(),
            forall|j: int| 0 <= j < issues@.len() ==> ((#[trigger] issues@[j])@ matches IssueView::LeftRecursive(rule, cycle)
                && rule == ord.take(k as int).filter(pred)[j] && valid_cycle(rel, rule, cycle)
                && left_cycle_of(left_edges(g, ord), rule) == Some(cycle)),
        decreases rule_order@.len() - k,
    {
        let start = &rule_order[k];
        proof {
            assert(ord.take(k + 1) =~= ord.take(k as int).push(start@));
            ord.take(k as int).lemma_filter_push(start@, pred);
        }
        if grammar.contains_key(start.as_str()) {
            match find_left_cycle(start, &left_edge) {
                Some(cycle) => {
                    let ghost before = issues@;
                    issues.push(WellformednessIssue::LeftRecursive { rule: start.clone(), cycle });
                    proof {
                        assert(pred(start@));
                        assert forall|j: int| 0 <= j < issues@.len() implies ((#[trigger] issues@[j])@ matches IssueView::LeftRecursive(rule, cycle)
                            && rule == ord.take(k + 1).filter(pred)[j] && valid_cycle(rel, rule, cycle)
                            && left_cycle_of(left_edges(g, ord), rule) == Some(cycle)) by {
                            if j < before.len() {
                                assert(issues@[j] == before[j]);
                            }
                        }
                    }
                },
                None => {
                    proof {
                        assert(!pred(start@));
                    }
                },
            }
        } else {
            proof {
                assert(!pred(start@));
            }
        }
        k = k + 1;
    }
    proof {
        assert(ord.take(ord.len() as int) =~= ord);
    }
    issues
}


/// A parenthesised group exposes at its left edge exactly the rules its content does: grouping a
/// node never changes what a rule can begin with.
pub proof fn lemma_group_left_refs(n: SpecNode, nullable: Set<Seq<char>>, p: SpecPolicy)
    ensures
        left_refs(SpecNode::Group(Box::new(n)), nullable, p) == left_refs(n, nullable, p),
{
}

/// A rule whose left edge is a group starting with a reference to the rule itself is
/// left-recursive.
pub proof fn lemma_group_self_reference_left_recursive(g: Map<Seq<char>, ASTNode>, ord: Seq<Seq<char>>, r: Seq<char>, n: SpecNode)
    requires
        ord.contains(r),
        g.dom().contains(r),
        left_refs(n, nullable_rules(g, ord), nullable_policy(g)).contains(r),
        left_refs(g[r]@, nullable_rules(g, ord), nullable_policy(g)) == left_refs(
            SpecNode::Group(Box::new(n)),
            nullable_rules(g, ord),
            nullable_policy(g),
        ),
    ensures
        is_left_recursive(g, ord, r),
{
    let rel = left_rel(g, ord);
    assert(rel(r, r));
    assert(successors(rel, r).contains(r));
    lemma_seed_reachable(rel, successors(rel, r), r);
}

} // verus!
