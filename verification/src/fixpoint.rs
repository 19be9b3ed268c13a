//! Least fixpoints of monotone per-rule properties (nullable, always-succeeds, satisfiable,
//! finitely derivable), and transitive closure over a name graph.
//!
//! A property is decided for each rule from its body, reading the current per-rule estimates at
//! rule references. All such properties here are monotone in the estimates, so iterating from the
//! empty estimate reaches the least fixpoint.
use vstd::prelude::*;
use crate::ast::{
    ASTNode, ASTValue, SpecNode, lemma_nodes_view, node_view, nodes_view, quant_min, quantifier_min,
    ref_of_parts, referenced_rule,
};
use crate::names::{NameSet, StrMap, strings_contain, strs_view};

verus! {

broadcast use vstd::std_specs::vec::axiom_vec_index_decreases;

/// How a node is evaluated: the value of a lookahead, of a terminal token, and of a reference.
pub struct SpecPolicy {
    pub look: bool,
    pub term: bool,
    /// Rules defined in the grammar at hand.
    pub defined: Set<Seq<char>>,
    /// The value of a reference to a rule outside `defined`, unless listed in `undef_false`.
    pub undef_true: bool,
    pub undef_false: Set<Seq<char>>,
    /// Defined rules whose references are false whatever the estimate.
    pub blocked: Set<Seq<char>>,
}

pub open spec fn ref_value(r: Seq<char>, est: Set<Seq<char>>, p: SpecPolicy) -> bool {
    if !p.defined.contains(r) {
        p.undef_true && !p.undef_false.contains(r)
    } else {
        !p.blocked.contains(r) && est.contains(r)
    }
}

/// The value of a node under per-rule estimates `est` (the rules currently known to hold).
pub open spec fn eval(n: SpecNode, est: Set<Seq<char>>, p: SpecPolicy) -> bool
    decreases n,
{
    match n {
        SpecNode::Or(alts) => eval_any(alts, est, p),
        SpecNode::Sequence(elems) => eval_all(elems, est, p),
        SpecNode::Quant(inner, q) => quant_min(q) == 0 || eval(*inner, est, p),
        SpecNode::Look(_, _) => p.look,
        SpecNode::Group(inner) => eval(*inner, est, p),
        SpecNode::Token(parts) => match ref_of_parts(parts) {
            Some(r) => ref_value(r, est, p),
            None => p.term,
        },
    }
}

pub open spec fn eval_any(s: Seq<SpecNode>, est: Set<Seq<char>>, p: SpecPolicy) -> bool
    decreases s,
{
    if s.len() == 0 {
        false
    } else {
        eval_any(s.drop_last(), est, p) || eval(s.last(), est, p)
    }
}

pub open spec fn eval_all(s: Seq<SpecNode>, est: Set<Seq<char>>, p: SpecPolicy) -> bool
    decreases s,
{
    if s.len() == 0 {
        true
    } else {
        eval_all(s.drop_last(), est, p) && eval(s.last(), est, p)
    }
}

pub proof fn lemma_eval_any_push(s: Seq<SpecNode>, n: SpecNode, est: Set<Seq<char>>, p: SpecPolicy)
    ensures
        eval_any(s.push(n), est, p) == (eval_any(s, est, p) || eval(n, est, p)),
        eval_all(s.push(n), est, p) == (eval_all(s, est, p) && eval(n, est, p)),
{
    assert(s.push(n).drop_last() =~= s);
}

/// `eval_any` is "some element holds"; `eval_all` is "every element holds".
pub proof fn lemma_eval_any_all(s: Seq<SpecNode>, est: Set<Seq<char>>, p: SpecPolicy)
    ensures
        eval_any(s, est, p) == (exists|i: int| 0 <= i < s.len() && eval(#[trigger] s[i], est, p)),
        eval_all(s, est, p) == (forall|i: int| 0 <= i < s.len() ==> eval(#[trigger] s[i], est, p)),
    decreases s.len(),
{
    if s.len() > 0 {
        lemma_eval_any_all(s.drop_last(), est, p);
        if eval(s.last(), est, p) {
            assert(eval(s[s.len() - 1], est, p));
        }
        if eval_any(s.drop_last(), est, p) {
            let i = choose|i: int| 0 <= i < s.drop_last().len() && eval(#[trigger] s.drop_last()[i], est, p);
            assert(s[i] == s.drop_last()[i]);
        }
        if exists|i: int| 0 <= i < s.len() && eval(#[trigger] s[i], est, p) {
            let i = choose|i: int| 0 <= i < s.len() && eval(#[trigger] s[i], est, p);
            if i < s.len() - 1 {
                assert(s.drop_last()[i] == s[i]);
            }
        }
        if forall|i: int| 0 <= i < s.len() ==> eval(#[trigger] s[i], est, p) {
            assert forall|i: int| 0 <= i < s.drop_last().len() implies eval(#[trigger] s.drop_last()[i], est, p) by {
                assert(s.drop_last()[i] == s[i]);
            }
            assert(eval(s[s.len() - 1], est, p));
        }
        if eval_all(s, est, p) {
            assert forall|i: int| 0 <= i < s.len() implies eval(#[trigger] s[i], est, p) by {
                if i < s.len() - 1 {
                    assert(s.drop_last()[i] == s[i]);
                }
            }
        }
    }
}

/// Evaluation is monotone in the estimates.
pub proof fn lemma_eval_monotone(n: SpecNode, a: Set<Seq<char>>, b: Set<Seq<char>>, p: SpecPolicy)
    requires
        a.subset_of(b),
        eval(n, a, p),
    ensures
        eval(n, b, p),
    decreases n,
{
    match n {
        SpecNode::Or(alts) => lemma_eval_seq_monotone(alts, a, b, p),
        SpecNode::Sequence(elems) => lemma_eval_seq_monotone(elems, a, b, p),
        SpecNode::Quant(inner, q) => {
            if quant_min(q) != 0 {
                lemma_eval_monotone(*inner, a, b, p);
            }
        },
        SpecNode::Look(_, _) => {},
        SpecNode::Group(inner) => lemma_eval_monotone(*inner, a, b, p),
        SpecNode::Token(_) => {},
    }
}

pub proof fn lemma_eval_seq_monotone(s: Seq<SpecNode>, a: Set<Seq<char>>, b: Set<Seq<char>>, p: SpecPolicy)
    requires
        a.subset_of(b),
    ensures
        eval_any(s, a, p) ==> eval_any(s, b, p),
        eval_all(s, a, p) ==> eval_all(s, b, p),
    decreases s,
{
    if s.len() > 0 {
        lemma_eval_seq_monotone(s.drop_last(), a, b, p);
        if eval(s.last(), a, p) {
            lemma_eval_monotone(s.last(), a, b, p);
        }
    }
}

/// The rules whose property is decided by the fixpoint: listed in `order`, defined, not blocked.
pub open spec fn is_candidate(order: Seq<Seq<char>>, r: Seq<char>, p: SpecPolicy) -> bool {
    order.contains(r) && p.defined.contains(r) && !p.blocked.contains(r)
}

pub open spec fn body_view(g: Map<Seq<char>, ASTNode>, r: Seq<char>) -> SpecNode {
    g[r]@
}

/// `s` is closed under the rules: every candidate whose body holds under `s` is in `s`.
pub open spec fn prefixed(g: Map<Seq<char>, ASTNode>, order: Seq<Seq<char>>, p: SpecPolicy, s: Set<Seq<char>>) -> bool {
    forall|r: Seq<char>| is_candidate(order, r, p) && #[trigger] eval(body_view(g, r), s, p) ==> s.contains(r)
}

/// `res` is the least fixpoint of the property over the candidates.
pub open spec fn is_lfp(g: Map<Seq<char>, ASTNode>, order: Seq<Seq<char>>, p: SpecPolicy, res: Set<Seq<char>>) -> bool {
    &&& forall|r: Seq<char>| #[trigger] res.contains(r) ==> is_candidate(order, r, p)
    &&& forall|r: Seq<char>| is_candidate(order, r, p) ==> (#[trigger] res.contains(r) <==> eval(body_view(g, r), res, p))
    &&& forall|s: Set<Seq<char>>| prefixed(g, order, p, s) ==> #[trigger] res.subset_of(s)
}

/// The least fixpoint (the set of rules for which the property holds).
pub open spec fn lfp(g: Map<Seq<char>, ASTNode>, order: Seq<Seq<char>>, p: SpecPolicy) -> Set<Seq<char>> {
    choose|res: Set<Seq<char>>| is_lfp(g, order, p, res)
}

pub proof fn lemma_lfp_unique(g: Map<Seq<char>, ASTNode>, order: Seq<Seq<char>>, p: SpecPolicy, res: Set<Seq<char>>)
    requires
        is_lfp(g, order, p, res),
    ensures
        lfp(g, order, p) == res,
{
    let other = lfp(g, order, p);
    assert(is_lfp(g, order, p, other));
    // each is a fixpoint, hence prefixed, hence contains the other
    assert(prefixed(g, order, p, res));
    assert(prefixed(g, order, p, other));
    assert(other.subset_of(res));
    assert(res.subset_of(other));
    assert(other =~= res);
}

/// The executable counterpart of `ref_value`'s blocking test.
pub enum Blocked<'a> {
    Nothing,
    /// Rules whose `@profiles` list is non-empty and lacks `profile`.
    Profile { rule_profiles: &'a StrMap<Vec<String>>, profile: &'a str },
    Listed(&'a NameSet),
}

/// Each rule's `@profiles` list, as names.
pub type ProfileMap = Map<Seq<char>, Seq<Seq<char>>>;

pub open spec fn pview(m: Map<Seq<char>, Vec<String>>) -> ProfileMap {
    m.map_values(|v: Vec<String>| strs_view(v@))
}

pub open spec fn profile_blocked(rp: ProfileMap, profile: Seq<char>, r: Seq<char>) -> bool {
    rp.dom().contains(r) && rp[r].len() > 0 && !rp[r].contains(profile)
}

impl<'a> Blocked<'a> {
    pub open spec fn spec_set(&self) -> Set<Seq<char>> {
        match *self {
            Blocked::Nothing => Set::empty(),
            Blocked::Profile { rule_profiles, profile } => Set::new(|r: Seq<char>| profile_blocked(pview(rule_profiles@), profile@, r)),
            Blocked::Listed(s) => s@,
        }
    }

    pub fn is_blocked(&self, r: &str) -> (b: bool)
        ensures
            b == self.spec_set().contains(r@),
    {
        match self {
            Blocked::Nothing => false,
            Blocked::Profile { rule_profiles, profile } => match rule_profiles.get(r) {
                None => false,
                Some(list) => list.len() > 0 && !strings_contain(list.as_slice(), profile),
            },
            Blocked::Listed(s) => s.contains(r),
        }
    }
}

/// An evaluation policy over a concrete grammar.
pub struct EvalPolicy<'a> {
    pub look: bool,
    pub term: bool,
    pub defined: &'a StrMap<ASTNode>,
    pub undef_true: bool,
    pub undef_false: Option<&'a NameSet>,
    pub blocked: Blocked<'a>,
}

impl<'a> EvalPolicy<'a> {
    pub open spec fn spec(&self) -> SpecPolicy {
        SpecPolicy {
            look: self.look,
            term: self.term,
            defined: self.defined@.dom(),
            undef_true: self.undef_true,
            undef_false: match self.undef_false {
                Some(s) => s@,
                None => Set::empty(),
            },
            blocked: self.blocked.spec_set(),
        }
    }

    pub fn ref_holds(&self, r: &str, est: &NameSet) -> (b: bool)
        ensures
            b == ref_value(r@, est@, self.spec()),
    {
        if !self.defined.contains_key(r) {
            self.undef_true && match self.undef_false {
                Some(s) => !s.contains(r),
                None => true,
            }
        } else {
            !self.blocked.is_blocked(r) && est.contains(r)
        }
    }
}

/// Evaluate a node under the estimates `est`.
#[verifier::loop_isolation(false)]
pub fn eval_node(n: &ASTNode, est: &NameSet, p: &EvalPolicy) -> (b: bool)
    ensures
        b == eval(n@, est@, p.spec()),
    decreases n,
{
    match n {
        ASTNode::Or { alternatives } => {
            let mut i: usize = 0;
            while i < alternatives.len()
                invariant
                    i <= alternatives@.len(),
                    !eval_any(nodes_view(alternatives@).take(i as int), est@, p.spec()),
                decreases alternatives@.len() - i,
            {
                proof {
                    lemma_nodes_view(alternatives@);
                    assert(nodes_view(alternatives@).take(i + 1) =~= nodes_view(alternatives@).take(i as int).push(
                        node_view(alternatives@[i as int])));
                    lemma_eval_any_push(nodes_view(alternatives@).take(i as int), node_view(alternatives@[i as int]), est@, p.spec());
                }
                if eval_node(&alternatives[i], est, p) {
                    proof {
                        lemma_eval_any_all(nodes_view(alternatives@), est@, p.spec());
                        assert(eval(nodes_view(alternatives@)[i as int], est@, p.spec()));
                    }
                    return true;
                }
                i = i + 1;
            }
            proof {
                lemma_nodes_view(alternatives@);
                assert(nodes_view(alternatives@).take(i as int) =~= nodes_view(alternatives@));
            }
            false
        },
        ASTNode::Sequence { elements } => {
            let mut i: usize = 0;
            while i < elements.len()
                invariant
                    i <= elements@.len(),
                    eval_all(nodes_view(elements@).take(i as int), est@, p.spec()),
                decreases elements@.len() - i,
            {
                proof {
                    lemma_nodes_view(elements@);
                    assert(nodes_view(elements@).take(i + 1) =~= nodes_view(elements@).take(i as int).push(
                        node_view(elements@[i as int])));
                    lemma_eval_any_push(nodes_view(elements@).take(i as int), node_view(elements@[i as int]), est@, p.spec());
                }
                if !eval_node(&elements[i], est, p) {
                    proof {
                        lemma_eval_any_all(nodes_view(elements@), est@, p.spec());
                        assert(!eval(nodes_view(elements@)[i as int], est@, p.spec()));
                    }
                    return false;
                }
                i = i + 1;
            }
            proof {
                lemma_nodes_view(elements@);
                assert(nodes_view(elements@).take(i as int) =~= nodes_view(elements@));
            }
            true
        },
        ASTNode::Quantified { element, quantifier } => {
            quantifier_min(quantifier.as_str()) == 0 || eval_node(element, est, p)
        },
        ASTNode::Lookahead { .. } => p.look,
        ASTNode::Atom { value } => match value {
            ASTValue::Node(inner) => eval_node(inner, est, p),
            ASTValue::Token(parts) => match referenced_rule(parts) {
                Some(r) => p.ref_holds(r.as_str(), est),
                None => p.term,
            },
        },
    }
}


proof fn lemma_add_member(
    g: Map<Seq<char>, ASTNode>,
    ord: Seq<Seq<char>>,
    p: SpecPolicy,
    est: Set<Seq<char>>,
    r: Seq<char>,
)
    requires
        forall|x: Seq<char>| #[trigger] est.contains(x) ==> eval(body_view(g, x), est, p),
        forall|s: Set<Seq<char>>| prefixed(g, ord, p, s) ==> #[trigger] est.subset_of(s),
        is_candidate(ord, r, p),
        eval(body_view(g, r), est, p),
    ensures
        forall|x: Seq<char>| #[trigger] est.insert(r).contains(x) ==> eval(body_view(g, x), est.insert(r), p),
        forall|s: Set<Seq<char>>| prefixed(g, ord, p, s) ==> #[trigger] est.insert(r).subset_of(s),
{
    let n = est.insert(r);
    assert(est.subset_of(n));
    assert forall|x: Seq<char>| #[trigger] n.contains(x) implies eval(body_view(g, x), n, p) by {
        if x == r {
            lemma_eval_monotone(body_view(g, r), est, n, p);
        } else {
            lemma_eval_monotone(body_view(g, x), est, n, p);
        }
    }
    assert forall|s: Set<Seq<char>>| prefixed(g, ord, p, s) implies #[trigger] n.subset_of(s) by {
        assert(est.subset_of(s));
        lemma_eval_monotone(body_view(g, r), est, s, p);
        assert(s.contains(r));
    }
}

/// The least fixpoint of the property `p` over the rules of `order` defined in `p.defined`.
pub fn least_fixpoint(order: &[String], p: &EvalPolicy) -> (res: NameSet)
    ensures
        is_lfp(p.defined@, strs_view(order@), p.spec(), res@),
        res@ == lfp(p.defined@, strs_view(order@), p.spec()),
{
    let ghost g = p.defined@;
    let ghost ord = strs_view(order@);
    let ghost sp = p.spec();
    let mut est = NameSet::new();
    proof {
        assert forall|s: Set<Seq<char>>| prefixed(g, ord, sp, s) implies #[trigger] est@.subset_of(s) by {}
    }
    loop
        invariant
            g == p.defined@,
            ord == strs_view(order@),
            sp == p.spec(),
            forall|x: Seq<char>| #[trigger] est@.contains(x) ==> is_candidate(ord, x, sp),
            forall|x: Seq<char>| #[trigger] est@.contains(x) ==> eval(body_view(g, x), est@, sp),
            forall|s: Set<Seq<char>>| prefixed(g, ord, sp, s) ==> #[trigger] est@.subset_of(s),
        ensures
            forall|x: Seq<char>| #[trigger] est@.contains(x) ==> is_candidate(ord, x, sp),
            forall|x: Seq<char>| #[trigger] est@.contains(x) ==> eval(body_view(g, x), est@, sp),
            forall|s: Set<Seq<char>>| prefixed(g, ord, sp, s) ==> #[trigger] est@.subset_of(s),
            forall|x: Seq<char>| is_candidate(ord, x, sp) && eval(body_view(g, x), est@, sp) ==> #[trigger] est@.contains(x),
        decreases order@.len() - est@.len(),
    {
        let ghost start = est@;
        let start_len = est.len();
        proof {
            assert(est@.subset_of(ord.to_set()));
            ord.lemma_cardinality_of_set();
            vstd::set_lib::lemma_len_subset(est@, ord.to_set());
            assert(ord.len() == order@.len());
        }
        let mut changed = false;
        let mut i: usize = 0;
        while i < order.len()
            invariant
                g == p.defined@,
                ord == strs_view(order@),
                sp == p.spec(),
                i <= order@.len(),
                start_len == start.len(),
                start.finite(),
                forall|x: Seq<char>| #[trigger] est@.contains(x) ==> is_candidate(ord, x, sp),
                forall|x: Seq<char>| #[trigger] est@.contains(x) ==> eval(body_view(g, x), est@, sp),
                forall|s: Set<Seq<char>>| prefixed(g, ord, sp, s) ==> #[trigger] est@.subset_of(s),
                est@.finite(),
                changed ==> est@.len() > start.len(),
                !changed ==> est@ == start,
                !changed ==> forall|j: int|
                    0 <= j < i && is_candidate(ord, #[trigger] ord[j], sp) ==> est@.contains(ord[j]) || !eval(
                        body_view(g, ord[j]),
                        est@,
                        sp,
                    ),
            decreases order@.len() - i,
        {
            let rule = &order[i];
            assert(rule@ == ord[i as int]);
            if !p.blocked.is_blocked(rule.as_str()) {
                match p.defined.get(rule.as_str()) {
                    Some(body) => {
                        if !est.contains(rule.as_str()) && eval_node(body, &est, p) {
                            proof {
                                assert(ord.contains(rule@)) by {
                                    assert(ord[i as int] == rule@);
                                }
                                lemma_add_member(g, ord, sp, est@, rule@);
                            }
                            let ghost before = est@;
                            est.insert(rule.clone());
                            proof {
                                assert(est@ == before.insert(rule@));
                                assert(est@.len() == before.len() + 1);
                            }
                            changed = true;
                        }
                    },
                    None => {},
                }
            }
            i = i + 1;
        }
        if !changed {
            proof {
                assert forall|x: Seq<char>| is_candidate(ord, x, sp) && eval(body_view(g, x), est@, sp) implies #[trigger] est@.contains(x) by {
                    let j = choose|j: int| 0 <= j < ord.len() && ord[j] == x;
                    assert(is_candidate(ord, ord[j], sp));
                }
            }
            break;
        }
        proof {
            assert(est@.subset_of(ord.to_set()));
            ord.lemma_cardinality_of_set();
            vstd::set_lib::lemma_len_subset(est@, ord.to_set());
        }
    }
    proof {
        assert(is_lfp(g, ord, sp, est@));
        lemma_lfp_unique(g, ord, sp, est@);
    }
    est
}


/// The least fixpoint exists: the candidates lying in every set closed under the rules.
pub proof fn lemma_lfp_exists(g: Map<Seq<char>, ASTNode>, order: Seq<Seq<char>>, p: SpecPolicy)
    ensures
        is_lfp(g, order, p, lfp(g, order, p)),
{
    let l = Set::new(|r: Seq<char>| is_candidate(order, r, p) && forall|s: Set<Seq<char>>| #[trigger] prefixed(g, order, p, s) ==> s.contains(r));
    assert forall|s: Set<Seq<char>>| prefixed(g, order, p, s) implies #[trigger] l.subset_of(s) by {}
    assert(prefixed(g, order, p, l)) by {
        assert forall|r: Seq<char>| is_candidate(order, r, p) && #[trigger] eval(body_view(g, r), l, p) implies l.contains(r) by {
            assert forall|s: Set<Seq<char>>| #[trigger] prefixed(g, order, p, s) implies s.contains(r) by {
                assert(l.subset_of(s));
                lemma_eval_monotone(body_view(g, r), l, s, p);
            }
        }
    }
    let fl = Set::new(|r: Seq<char>| is_candidate(order, r, p) && eval(body_view(g, r), l, p));
    assert(fl.subset_of(l));
    assert(prefixed(g, order, p, fl)) by {
        assert forall|r: Seq<char>| is_candidate(order, r, p) && #[trigger] eval(body_view(g, r), fl, p) implies fl.contains(r) by {
            lemma_eval_monotone(body_view(g, r), fl, l, p);
        }
    }
    assert(l.subset_of(fl));
    assert(is_lfp(g, order, p, l));
    lemma_lfp_unique(g, order, p, l);
}

} // verus!
