//! Pre-order walks over a rule body with node paths, and per-rule concatenation over the rule
//! order: the shape of every per-site report.
//!
//! A node path is `root` followed by one segment per step down: `/o{i}` (alternative `i`),
//! `/s{i}` (sequence element `i`), `/q` (quantified element), `/l` (lookahead element),
//! `/a` (grouped node).
use vstd::prelude::*;
use crate::ast::{ASTNode, SpecNode};
use crate::text::child_path;

verus! {

/// Everything `emit` reports at `n` and, in pre-order, below it.
pub open spec fn walk<T>(n: SpecNode, path: Seq<char>, emit: spec_fn(SpecNode, Seq<char>) -> Seq<T>) -> Seq<T>
    decreases n,
{
    emit(n, path) + match n {
        SpecNode::Or(alts) => walk_seq(alts, path, 'o', emit),
        SpecNode::Sequence(elems) => walk_seq(elems, path, 's', emit),
        SpecNode::Quant(inner, _) => walk(*inner, child_path(path, 'q', None), emit),
        SpecNode::Look(inner, _) => walk(*inner, child_path(path, 'l', None), emit),
        SpecNode::Group(inner) => walk(*inner, child_path(path, 'a', None), emit),
        SpecNode::Token(_) => Seq::empty(),
    }
}

/// The walks of the indexed children `s` of the node at `path`.
pub open spec fn walk_seq<T>(s: Seq<SpecNode>, path: Seq<char>, tag: char, emit: spec_fn(SpecNode, Seq<char>) -> Seq<T>) -> Seq<T>
    decreases s,
{
    if s.len() == 0 {
        Seq::empty()
    } else {
        walk_seq(s.drop_last(), path, tag, emit) + walk(s.last(), child_path(path, tag, Some((s.len() - 1) as nat)), emit)
    }
}

pub proof fn lemma_walk_seq_push<T>(s: Seq<SpecNode>, x: SpecNode, path: Seq<char>, tag: char, emit: spec_fn(SpecNode, Seq<char>) -> Seq<T>)
    ensures
        walk_seq(s.push(x), path, tag, emit) == walk_seq(s, path, tag, emit) + walk(x, child_path(path, tag, Some(s.len())), emit),
{
    assert(s.push(x).drop_last() =~= s);
}

/// `f(r)` for each defined rule `r` of `ord`, concatenated in order.
pub open spec fn per_rule<T>(g: Map<Seq<char>, ASTNode>, ord: Seq<Seq<char>>, f: spec_fn(Seq<char>) -> Seq<T>) -> Seq<T>
    decreases ord.len(),
{
    if ord.len() == 0 {
        Seq::empty()
    } else {
        per_rule(g, ord.drop_last(), f) + if g.dom().contains(ord.last()) {
            f(ord.last())
        } else {
            Seq::empty()
        }
    }
}

pub proof fn lemma_per_rule_push<T>(g: Map<Seq<char>, ASTNode>, ord: Seq<Seq<char>>, r: Seq<char>, f: spec_fn(Seq<char>) -> Seq<T>)
    ensures
        per_rule(g, ord.push(r), f) == per_rule(g, ord, f) + if g.dom().contains(r) {
            f(r)
        } else {
            Seq::empty()
        },
{
    assert(ord.push(r).drop_last() =~= ord);
}


/// `f(x)` for each element of `s`, concatenated in order.
pub open spec fn concat_map<A, T>(s: Seq<A>, f: spec_fn(A) -> Seq<T>) -> Seq<T>
    decreases s.len(),
{
    if s.len() == 0 {
        Seq::empty()
    } else {
        concat_map(s.drop_last(), f) + f(s.last())
    }
}

pub proof fn lemma_concat_map_push<A, T>(s: Seq<A>, x: A, f: spec_fn(A) -> Seq<T>)
    ensures
        concat_map(s.push(x), f) == concat_map(s, f) + f(x),
{
    assert(s.push(x).drop_last() =~= s);
}

/// An element of a concatenation comes from one of the parts, and every part's elements are in it.
pub proof fn lemma_concat_map_contains<A, T>(s: Seq<A>, f: spec_fn(A) -> Seq<T>, x: T)
    ensures
        concat_map(s, f).contains(x) <==> exists|i: int| 0 <= i < s.len() && #[trigger] f(s[i]).contains(x),
    decreases s.len(),
{
    if s.len() > 0 {
        lemma_concat_map_contains(s.drop_last(), f, x);
        let a = concat_map(s.drop_last(), f);
        let b = f(s.last());
        if concat_map(s, f).contains(x) {
            let k = choose|k: int| 0 <= k < (a + b).len() && (a + b)[k] == x;
            if k < a.len() {
                assert(a[k] == x);
                assert(a.contains(x));
                let i = choose|i: int| 0 <= i < s.drop_last().len() && #[trigger] f(s.drop_last()[i]).contains(x);
                assert(s.drop_last()[i] == s[i]);
            } else {
                assert(b[k - a.len()] == x);
                assert(f(s[s.len() - 1]).contains(x));
            }
        }
        if exists|i: int| 0 <= i < s.len() && #[trigger] f(s[i]).contains(x) {
            let i = choose|i: int| 0 <= i < s.len() && #[trigger] f(s[i]).contains(x);
            if i < s.len() - 1 {
                assert(s.drop_last()[i] == s[i]);
                assert(a.contains(x));
                let k = choose|k: int| 0 <= k < a.len() && a[k] == x;
                assert((a + b)[k] == x);
            } else {
                let k = choose|k: int| 0 <= k < b.len() && b[k] == x;
                assert((a + b)[a.len() + k] == x);
            }
        }
    }
}

} // verus!
