//! Transitive closure over a graph of names.
use vstd::prelude::*;
use crate::names::{NameSet, StrMap, strs_view};

verus! {

/// `a -> b` is an edge of the adjacency map.
pub open spec fn adj_edge(adj: Map<Seq<char>, NameSet>, a: Seq<char>, b: Seq<char>) -> bool {
    adj.dom().contains(a) && adj[a]@.contains(b)
}

/// The edge relation of an adjacency map.
pub open spec fn adj_rel(adj: Map<Seq<char>, NameSet>) -> spec_fn(Seq<char>, Seq<char>) -> bool {
    |a: Seq<char>, b: Seq<char>| adj_edge(adj, a, b)
}

/// The names reachable from `seeds` in at most `n` steps of the relation `e`.
pub open spec fn reach_n(e: spec_fn(Seq<char>, Seq<char>) -> bool, seeds: Set<Seq<char>>, n: nat) -> Set<Seq<char>>
    decreases n,
{
    if n == 0 {
        seeds
    } else {
        let prev = reach_n(e, seeds, (n - 1) as nat);
        prev.union(Set::new(|b: Seq<char>| exists|a: Seq<char>| prev.contains(a) && #[trigger] e(a, b)))
    }
}

pub open spec fn reachable_from(e: spec_fn(Seq<char>, Seq<char>) -> bool, seeds: Set<Seq<char>>, r: Seq<char>) -> bool {
    exists|n: nat| #[trigger] reach_n(e, seeds, n).contains(r)
}

/// Everything reachable from `seeds` (seeds included) along `e`.
pub open spec fn reach_set(e: spec_fn(Seq<char>, Seq<char>) -> bool, seeds: Set<Seq<char>>) -> Set<Seq<char>> {
    Set::new(|r: Seq<char>| reachable_from(e, seeds, r))
}

/// A set containing the seeds and closed under edges contains everything reachable.
pub proof fn lemma_closed_contains_reach(e: spec_fn(Seq<char>, Seq<char>) -> bool, seeds: Set<Seq<char>>, s: Set<Seq<char>>, n: nat)
    requires
        seeds.subset_of(s),
        forall|a: Seq<char>, b: Seq<char>| s.contains(a) && #[trigger] e(a, b) ==> s.contains(b),
    ensures
        reach_n(e, seeds, n).subset_of(s),
    decreases n,
{
    if n > 0 {
        lemma_closed_contains_reach(e, seeds, s, (n - 1) as nat);
        let prev = reach_n(e, seeds, (n - 1) as nat);
        assert forall|b: Seq<char>| reach_n(e, seeds, n).contains(b) implies s.contains(b) by {
            if !prev.contains(b) {
                let a = choose|a: Seq<char>| prev.contains(a) && #[trigger] e(a, b);
                assert(s.contains(a));
            }
        }
    }
}

/// One more edge from a reachable node stays reachable.
pub proof fn lemma_reach_step(e: spec_fn(Seq<char>, Seq<char>) -> bool, seeds: Set<Seq<char>>, a: Seq<char>, b: Seq<char>)
    requires
        reachable_from(e, seeds, a),
        e(a, b),
    ensures
        reachable_from(e, seeds, b),
{
    let n = choose|n: nat| #[trigger] reach_n(e, seeds, n).contains(a);
    assert(reach_n(e, seeds, n + 1).contains(b));
}

pub proof fn lemma_seed_reachable(e: spec_fn(Seq<char>, Seq<char>) -> bool, seeds: Set<Seq<char>>, a: Seq<char>)
    requires
        seeds.contains(a),
    ensures
        reachable_from(e, seeds, a),
{
    assert(reach_n(e, seeds, 0).contains(a));
}

/// The reachable set is the least set containing the seeds and closed under edges.
pub proof fn lemma_reach_set_eq(e: spec_fn(Seq<char>, Seq<char>) -> bool, seeds: Set<Seq<char>>, s: Set<Seq<char>>)
    requires
        seeds.subset_of(s),
        forall|a: Seq<char>, b: Seq<char>| s.contains(a) && #[trigger] e(a, b) ==> s.contains(b),
        forall|x: Seq<char>| #[trigger] s.contains(x) ==> reachable_from(e, seeds, x),
    ensures
        s == reach_set(e, seeds),
{
    assert forall|x: Seq<char>| reach_set(e, seeds).contains(x) implies s.contains(x) by {
        let n = choose|n: nat| #[trigger] reach_n(e, seeds, n).contains(x);
        lemma_closed_contains_reach(e, seeds, s, n);
    }
    assert(s =~= reach_set(e, seeds));
}

/// Every name appearing as a seed or as an edge target.
pub fn graph_universe(adj: &StrMap<NameSet>, seeds: &NameSet) -> (u: NameSet)
    ensures
        seeds@.subset_of(u@),
        forall|a: Seq<char>, b: Seq<char>| #[trigger] adj_edge(adj@, a, b) ==> u@.contains(b),
        forall|x: Seq<char>| #[trigger] u@.contains(x) ==> seeds@.contains(x) || exists|a: Seq<char>| #[trigger] adj_edge(adj@, a, x),
{
    let mut u = NameSet::new();
    let ns = seeds.len();
    let mut i: usize = 0;
    while i < ns
        invariant
            ns == seeds.elems().len(),
            i <= ns,
            forall|j: int| 0 <= j < i ==> u@.contains(#[trigger] seeds.elems()[j]),
            forall|x: Seq<char>| #[trigger] u@.contains(x) ==> seeds@.contains(x) || exists|a: Seq<char>| #[trigger] adj_edge(adj@, a, x),
        decreases ns - i,
    {
        u.insert(seeds.get(i).clone());
        i = i + 1;
    }
    let n = adj.len();
    let mut k: usize = 0;
    while k < n
        invariant
            n == adj.key_seq().len(),
            k <= n,
            forall|j: int| 0 <= j < seeds.elems().len() ==> u@.contains(#[trigger] seeds.elems()[j]),
            forall|j: int, b: Seq<char>| 0 <= j < k && #[trigger] adj@[adj.key_seq()[j]]@.contains(b) ==> u@.contains(b),
            forall|j: int| 0 <= j < n ==> #[trigger] adj@[adj.key_seq()[j]] == adj.val_seq()[j],
            adj@.dom() == adj.key_seq().to_set(),
            forall|x: Seq<char>| #[trigger] u@.contains(x) ==> seeds@.contains(x) || exists|a: Seq<char>| #[trigger] adj_edge(adj@, a, x),
        decreases n - k,
    {
        let targets = adj.value_at(k);
        let m = targets.len();
        let mut t: usize = 0;
        while t < m
            invariant
                m == targets.elems().len(),
                t <= m,
                *targets == adj@[adj.key_seq()[k as int]],
                forall|j: int| 0 <= j < seeds.elems().len() ==> u@.contains(#[trigger] seeds.elems()[j]),
                forall|j: int, b: Seq<char>| 0 <= j < k && #[trigger] adj@[adj.key_seq()[j]]@.contains(b) ==> u@.contains(b),
                forall|j: int| 0 <= j < t ==> u@.contains(#[trigger] targets.elems()[j]),
                adj@.dom() == adj.key_seq().to_set(),
                k < n,
                n == adj.key_seq().len(),
                forall|x: Seq<char>| #[trigger] u@.contains(x) ==> seeds@.contains(x) || exists|a: Seq<char>| #[trigger] adj_edge(adj@, a, x),
            decreases m - t,
        {
            proof {
                let key = adj.key_seq()[k as int];
                assert(adj.key_seq().to_set().contains(key));
                assert(targets@.contains(targets.elems()[t as int]));
                assert(adj_edge(adj@, key, targets.elems()[t as int]));
            }
            u.insert(targets.get(t).clone());
            t = t + 1;
        }
        proof {
            assert forall|j: int, b: Seq<char>| 0 <= j < k + 1 && #[trigger] adj@[adj.key_seq()[j]]@.contains(b) implies u@.contains(b) by {
                if j == k {
                    let w = choose|w: int| 0 <= w < targets.elems().len() && targets.elems()[w] == b;
                    assert(u@.contains(targets.elems()[w]));
                }
            }
        }
        k = k + 1;
    }
    proof {
        assert forall|x: Seq<char>| seeds@.contains(x) implies u@.contains(x) by {
            let j = choose|j: int| 0 <= j < seeds.elems().len() && seeds.elems()[j] == x;
            assert(u@.contains(seeds.elems()[j]));
        }
        assert forall|a: Seq<char>, b: Seq<char>| #[trigger] adj_edge(adj@, a, b) implies u@.contains(b) by {
            assert(adj.key_seq().to_set().contains(a));
            let j = choose|j: int| 0 <= j < adj.key_seq().len() && adj.key_seq()[j] == a;
            assert(adj@[adj.key_seq()[j]]@.contains(b));
        }
    }
    u
}

/// The set of names reachable from `seeds` along the edges of `adj` (seeds included).
pub fn reach_closure(adj: &StrMap<NameSet>, seeds: &NameSet) -> (res: NameSet)
    ensures
        res@ == reach_set(adj_rel(adj@), seeds@),
{
    let ghost g = adj@;
    let ghost e = adj_rel(adj@);
    let ghost sd = seeds@;
    let universe = graph_universe(adj, seeds);
    let bound = universe.len();
    let mut res = NameSet::new();
    let mut stack: Vec<String> = Vec::new();
    let ns = seeds.len();
    let mut i: usize = 0;
    while i < ns
        invariant
            ns == seeds.elems().len(),
            i <= ns,
            sd == seeds@,
            g == adj@,
            forall|j: int| 0 <= j < i ==> res@.contains(#[trigger] seeds.elems()[j]),
            forall|x: Seq<char>| #[trigger] res@.contains(x) ==> sd.contains(x),
            strs_view(stack@).to_set() == res@,
            strs_view(stack@).no_duplicates(),
        decreases ns - i,
    {
        let name = seeds.get(i);
        if res.insert(name.clone()) {
            let ghost before = stack@;
            stack.push(name.clone());
            proof {
                assert(strs_view(stack@) =~= strs_view(before).push(name@));
                crate::names::lemma_push_to_set_pub(strs_view(before), name@);
                assert(!strs_view(before).contains(name@));
            }
        }
        i = i + 1;
    }
    proof {
        assert forall|x: Seq<char>| sd.contains(x) implies res@.contains(x) by {
            let j = choose|j: int| 0 <= j < seeds.elems().len() && seeds.elems()[j] == x;
            assert(res@.contains(seeds.elems()[j]));
        }
        assert forall|x: Seq<char>| #[trigger] res@.contains(x) implies reachable_from(e, sd, x) by {
            lemma_seed_reachable(e, sd, x);
        }
    }
    loop
        invariant
            g == adj@,
            e == adj_rel(g),
            sd == seeds@,
            bound == universe@.len(),
            universe@.finite(),
            sd.subset_of(universe@),
            forall|a: Seq<char>, b: Seq<char>| #[trigger] adj_edge(g, a, b) ==> universe@.contains(b),
            res@.subset_of(universe@),
            sd.subset_of(res@),
            forall|x: Seq<char>| #[trigger] res@.contains(x) ==> reachable_from(e, sd, x),
            strs_view(stack@).to_set().subset_of(res@),
            strs_view(stack@).no_duplicates(),
            forall|a: Seq<char>, b: Seq<char>|
                res@.contains(a) && !strs_view(stack@).contains(a) && #[trigger] adj_edge(g, a, b) ==> res@.contains(b),
        ensures
            sd.subset_of(res@),
            forall|x: Seq<char>| #[trigger] res@.contains(x) ==> reachable_from(e, sd, x),
            forall|a: Seq<char>, b: Seq<char>| res@.contains(a) && #[trigger] e(a, b) ==> res@.contains(b),
        decreases bound - res@.len(), stack@.len(),
    {
        let _ = res.len();
        proof {
            vstd::set_lib::lemma_len_subset(res@, universe@);
        }
        let ghost pre = stack@;
        let ghost res_pre = res@;
        match stack.pop() {
            None => {
                proof {
                    assert(strs_view(stack@) =~= Seq::<Seq<char>>::empty());
                }
                break;
            },
            Some(x) => {
                proof {
                    assert(stack@ == pre.drop_last());
                    assert(strs_view(pre)[pre.len() - 1] == x@);
                    assert(strs_view(pre).to_set().contains(x@));
                    assert(strs_view(stack@) =~= strs_view(pre).drop_last());
                    assert forall|a: Seq<char>| #[trigger] strs_view(stack@).contains(a) implies strs_view(pre).contains(a) && a != x@ by {
                        let j = choose|j: int| 0 <= j < strs_view(stack@).len() && strs_view(stack@)[j] == a;
                        assert(strs_view(pre)[j] == a);
                    }
                }
                proof {
                    assert forall|a: Seq<char>| strs_view(pre).contains(a) && a != x@ implies #[trigger] strs_view(stack@).contains(a) by {
                        let j = choose|j: int| 0 <= j < strs_view(pre).len() && strs_view(pre)[j] == a;
                        assert(j != pre.len() - 1);
                        assert(strs_view(stack@)[j] == a);
                    }
                }
                match adj.get(x.as_str()) {
                    None => {
                        proof {
                            assert forall|a: Seq<char>, b: Seq<char>|
                                res@.contains(a) && !strs_view(stack@).contains(a) && #[trigger] adj_edge(g, a, b) implies res@.contains(b) by {
                                if a == x@ {
                                    assert(!g.dom().contains(a));
                                } else {
                                    assert(!strs_view(pre).contains(a)) by {
                                        if strs_view(pre).contains(a) {
                                            let j = choose|j: int| 0 <= j < strs_view(pre).len() && strs_view(pre)[j] == a;
                                            assert(j != pre.len() - 1);
                                            assert(strs_view(stack@)[j] == a);
                                        }
                                    }
                                }
                            }
                        }
                    },
                    Some(targets) => {
                        let m = targets.len();
                        let mut t: usize = 0;
                        while t < m
                            invariant
                                g == adj@,
                                e == adj_rel(g),
                                sd == seeds@,
                                bound == universe@.len(),
                                universe@.finite(),
                                forall|a: Seq<char>, b: Seq<char>| #[trigger] adj_edge(g, a, b) ==> universe@.contains(b),
                                m == targets.elems().len(),
                                t <= m,
                                g.dom().contains(x@),
                                *targets == g[x@],
                                res_pre.contains(x@),
                                res_pre.subset_of(res@),
                                res@.subset_of(universe@),
                                sd.subset_of(res@),
                                forall|y: Seq<char>| #[trigger] res@.contains(y) ==> reachable_from(e, sd, y),
                                strs_view(stack@).to_set().subset_of(res@),
                                strs_view(stack@).no_duplicates(),
                                forall|a: Seq<char>| #[trigger] strs_view(stack@).contains(a) ==> (strs_view(pre).contains(a) && a != x@) || !res_pre.contains(a),
                                forall|a: Seq<char>| strs_view(pre).contains(a) && a != x@ ==> #[trigger] strs_view(stack@).contains(a),
                                forall|a: Seq<char>| #[trigger] res@.contains(a) && !res_pre.contains(a) ==> strs_view(stack@).contains(a),
                                forall|a: Seq<char>, b: Seq<char>|
                                    res_pre.contains(a) && !strs_view(pre).contains(a) && #[trigger] adj_edge(g, a, b) ==> res@.contains(b),
                                forall|j: int| 0 <= j < t ==> res@.contains(#[trigger] targets.elems()[j]),
                                res@.len() >= res_pre.len(),
                                res@.finite(),
                                stack@.len() + 1 >= pre.len(),
                                res@.len() == res_pre.len() ==> stack@.len() + 1 == pre.len(),
                            decreases m - t,
                        {
                            let y = targets.get(t);
                            proof {
                                assert(adj_edge(g, x@, y@)) by {
                                    assert(targets.elems().to_set().contains(y@)) by {
                                        assert(targets.elems()[t as int] == y@);
                                    }
                                }
                                lemma_reach_step(e, sd, x@, y@);
                            }
                            let ghost rb = res@;
                            if res.insert(y.clone()) {
                                let ghost sb = stack@;
                                stack.push(y.clone());
                                proof {
                                    assert(strs_view(stack@) =~= strs_view(sb).push(y@));
                                    crate::names::lemma_push_to_set_pub(strs_view(sb), y@);
                                    assert(!strs_view(sb).contains(y@)) by {
                                        if strs_view(sb).contains(y@) {
                                            assert(strs_view(sb).to_set().contains(y@));
                                        }
                                    }
                                    assert forall|a: Seq<char>| #[trigger] strs_view(stack@).contains(a) implies (strs_view(pre).contains(a) && a != x@) || !res_pre.contains(a) by {
                                        if a != y@ {
                                            let j = choose|j: int| 0 <= j < strs_view(stack@).len() && strs_view(stack@)[j] == a;
                                            assert(strs_view(sb)[j] == a);
                                            assert(strs_view(sb).contains(a));
                                        } else {
                                            assert(!rb.contains(y@));
                                        }
                                    }
                                    assert forall|a: Seq<char>| strs_view(pre).contains(a) && a != x@ implies #[trigger] strs_view(stack@).contains(a) by {
                                        assert(strs_view(sb).contains(a));
                                        let j = choose|j: int| 0 <= j < strs_view(sb).len() && strs_view(sb)[j] == a;
                                        assert(strs_view(stack@)[j] == a);
                                    }
                                    assert forall|a: Seq<char>| #[trigger] res@.contains(a) && !res_pre.contains(a) implies strs_view(stack@).contains(a) by {
                                        if a != y@ {
                                            assert(strs_view(sb).contains(a));
                                            let j = choose|j: int| 0 <= j < strs_view(sb).len() && strs_view(sb)[j] == a;
                                            assert(strs_view(stack@)[j] == a);
                                        } else {
                                            assert(strs_view(stack@)[strs_view(sb).len() as int] == y@);
                                        }
                                    }
                                    assert(strs_view(stack@).to_set().subset_of(res@));
                                }
                            }
                            t = t + 1;
                        }
                        proof {
                            assert forall|a: Seq<char>, b: Seq<char>|
                                res@.contains(a) && !strs_view(stack@).contains(a) && #[trigger] adj_edge(g, a, b) implies res@.contains(b) by {
                                if a == x@ {
                                    assert(targets.elems().to_set().contains(b));
                                    let j = choose|j: int| 0 <= j < targets.elems().len() && targets.elems()[j] == b;
                                    assert(res@.contains(targets.elems()[j]));
                                } else if res_pre.contains(a) {
                                    assert(!strs_view(pre).contains(a));
                                } else {
                                    assert(strs_view(stack@).contains(a));
                                }
                            }
                        }
                    },
                }
                proof {
                    vstd::set_lib::lemma_len_subset(res@, universe@);
                }
            },
        }
    }
    proof {
        assert forall|a: Seq<char>, b: Seq<char>| res@.contains(a) && #[trigger] e(a, b) implies res@.contains(b) by {
            assert(adj_edge(g, a, b));
        }
        lemma_reach_set_eq(e, sd, res@);
    }
    res
}

} // verus!
