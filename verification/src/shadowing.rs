//! Ordered-choice shadowing: alternatives that the rule's selection semantics provably never
//! select, with the certificates that re-check each verdict.
//!
//! Two verdicts exist. An exact structural duplicate of an earlier alternative is dead when the
//! selection semantics guarantee that the earlier twin wins; an earlier alternative that is a
//! fixed-terminal prefix of a later one kills it only under the `ordered` (first-success) policy
//! with no branch-phase predicate and no partition rotation.
use vstd::prelude::*;
use crate::annotations::{
    Annotations, Associativity, BranchPolicy, RuleSelectionSemantics, SelectionView, ann_opt, priority_at,
    selection_of,
};
use crate::ast::{
    ASTNode, ASTValue, SpecNode, TokenValue, lemma_nodes_view, lemma_nodes_view_ext, node_view, nodes_view,
    ref_of_parts, referenced_rule, token_parts_view,
};
use crate::names::{str_eq, strs_view};
use crate::text::{child_path, decimal, extend_path, push_decimal, root_path, root_path_string};
use crate::ast::{all_digits, digit_value, digits_value};
use crate::text::digit_char;
use crate::walk::{lemma_per_rule_push, lemma_walk_seq_push, per_rule, walk, walk_seq};
use crate::wellformed::Grammar;

verus! {

broadcast use vstd::std_specs::vec::axiom_vec_index_decreases;

// ---------------------------------------------------------------------------------------------
// Structural equality
// ---------------------------------------------------------------------------------------------

fn parts_eq(a: &Vec<TokenValue>, b: &Vec<TokenValue>) -> (r: bool)
    ensures
        r == (token_parts_view(a@) == token_parts_view(b@)),
{
    if a.len() != b.len() {
        proof {
            assert(token_parts_view(a@).len() != token_parts_view(b@).len());
        }
        return false;
    }
    let mut i: usize = 0;
    while i < a.len()
        invariant
            a@.len() == b@.len(),
            i <= a@.len(),
            forall|k: int| 0 <= k < i ==> token_parts_view(a@)[k] == token_parts_view(b@)[k],
        decreases a@.len() - i,
    {
        let x = match &a[i] {
            TokenValue::String(s) => s,
        };
        let y = match &b[i] {
            TokenValue::String(s) => s,
        };
        if !str_eq(x.as_str(), y.as_str()) {
            proof {
                assert(token_parts_view(a@)[i as int] != token_parts_view(b@)[i as int]);
            }
            return false;
        }
        i = i + 1;
    }
    proof {
        assert(token_parts_view(a@) =~= token_parts_view(b@));
    }
    true
}

/// Structural equality of two nodes: equal models.
#[verifier::loop_isolation(false)]
pub fn node_eq(a: &ASTNode, b: &ASTNode) -> (r: bool)
    ensures
        r == (a@ == b@),
    decreases a,
{
    match a {
        ASTNode::Or { alternatives: x } => match b {
            ASTNode::Or { alternatives: y } => nodes_eq(x, y),
            _ => false,
        },
        ASTNode::Sequence { elements: x } => match b {
            ASTNode::Sequence { elements: y } => nodes_eq(x, y),
            _ => false,
        },
        ASTNode::Quantified { element: x, quantifier: qx } => match b {
            ASTNode::Quantified { element: y, quantifier: qy } => str_eq(qx.as_str(), qy.as_str()) && node_eq(x, y),
            _ => false,
        },
        ASTNode::Lookahead { element: x, positive: px } => match b {
            ASTNode::Lookahead { element: y, positive: py } => *px == *py && node_eq(x, y),
            _ => false,
        },
        ASTNode::Atom { value: ASTValue::Node(x) } => match b {
            ASTNode::Atom { value: ASTValue::Node(y) } => node_eq(x, y),
            _ => false,
        },
        ASTNode::Atom { value: ASTValue::Token(x) } => match b {
            ASTNode::Atom { value: ASTValue::Token(y) } => parts_eq(x, y),
            _ => false,
        },
    }
}

/// Element-wise structural equality of two node lists.
#[verifier::loop_isolation(false)]
pub fn nodes_eq(x: &Vec<ASTNode>, y: &Vec<ASTNode>) -> (r: bool)
    ensures
        r == (nodes_view(x@) == nodes_view(y@)),
    decreases x,
{
    proof {
        lemma_nodes_view(x@);
        lemma_nodes_view(y@);
    }
    if x.len() != y.len() {
        return false;
    }
    let mut i: usize = 0;
    while i < x.len()
        invariant
            i <= x@.len(),
            x@.len() == y@.len(),
            forall|k: int| 0 <= k < i ==> node_view(#[trigger] x@[k]) == node_view(y@[k]),
        decreases x@.len() - i,
    {
        proof {
            assert(decreases_to!(x => x@[i as int]));
        }
        if !node_eq(&x[i], &y[i]) {
            proof {
                assert(nodes_view(x@)[i as int] != nodes_view(y@)[i as int]);
            }
            return false;
        }
        i = i + 1;
    }
    proof {
        lemma_nodes_view_ext(x@, y@);
    }
    true
}

// ---------------------------------------------------------------------------------------------
// Fixed terminals
// ---------------------------------------------------------------------------------------------

/// The lexemes of a node made entirely of fixed terminals (a terminal atom, a group of one, or a
/// sequence of such); `None` for anything that can fail or vary (a rule reference, a choice, a
/// quantifier, a lookahead).
pub open spec fn fixed_seq(n: SpecNode) -> Option<Seq<Seq<char>>>
    decreases n,
{
    match n {
        SpecNode::Token(parts) => if ref_of_parts(parts) is Some {
            None
        } else if parts.len() >= 2 {
            Some(seq![parts[1]])
        } else {
            None
        },
        SpecNode::Group(inner) => fixed_seq(*inner),
        SpecNode::Sequence(elems) => if lead(elems).1 {
            Some(lead(elems).0)
        } else {
            None
        },
        _ => None,
    }
}

/// The lexemes of the longest all-fixed prefix of `s`, and whether that prefix is all of `s`.
pub open spec fn lead(s: Seq<SpecNode>) -> (Seq<Seq<char>>, bool)
    decreases s,
{
    if s.len() == 0 {
        (Seq::empty(), true)
    } else {
        let prev = lead(s.drop_last());
        if !prev.1 {
            prev
        } else {
            match fixed_seq(s.last()) {
                Some(b) => (prev.0 + b, true),
                None => (prev.0, false),
            }
        }
    }
}

/// The leading fixed-terminal lexemes of a node (possibly none).
pub open spec fn leading_fixed(n: SpecNode) -> Seq<Seq<char>> {
    match n {
        SpecNode::Sequence(elems) => lead(elems).0,
        _ => match fixed_seq(n) {
            Some(v) => v,
            None => Seq::empty(),
        },
    }
}

/// `a` is a non-empty fixed-terminal sequence that prefixes the leading fixed terminals of `b`.
pub open spec fn prefix_shadows(a: SpecNode, b: SpecNode) -> bool {
    match fixed_seq(a) {
        Some(prefix) => prefix.len() > 0 && leading_fixed(b).len() >= prefix.len() && leading_fixed(b).take(
            prefix.len() as int,
        ) == prefix,
        None => false,
    }
}

fn append_strings(acc: &mut Vec<String>, more: Vec<String>)
    ensures
        strs_view(final(acc)@) == strs_view(old(acc)@) + strs_view(more@),
{
    let mut i: usize = 0;
    let ghost base = strs_view(acc@);
    while i < more.len()
        invariant
            i <= more@.len(),
            strs_view(acc@) == base + strs_view(more@).take(i as int),
        decreases more@.len() - i,
    {
        let ghost before = acc@;
        acc.push(more[i].clone());
        proof {
            assert(strs_view(acc@) =~= strs_view(before).push(more@[i as int]@));
            assert(strs_view(more@).take(i + 1) =~= strs_view(more@).take(i as int).push(more@[i as int]@));
        }
        i = i + 1;
    }
    proof {
        assert(strs_view(more@).take(more@.len() as int) =~= strs_view(more@));
    }
}

/// The lexemes of a node made entirely of fixed terminals.
#[verifier::loop_isolation(false)]
pub fn fixed_terminal_seq(node: &ASTNode) -> (r: Option<Vec<String>>)
    ensures
        match r {
            Some(v) => fixed_seq(node@) == Some(strs_view(v@)),
            None => fixed_seq(node@) is None,
        },
    decreases node,
{
    match node {
        ASTNode::Atom { value: ASTValue::Token(parts) } => {
            if referenced_rule(parts).is_some() {
                None
            } else if parts.len() >= 2 {
                let v = match &parts[1] {
                    TokenValue::String(s) => s.clone(),
                };
                let mut out: Vec<String> = Vec::new();
                out.push(v);
                proof {
                    assert(token_parts_view(parts@)[1] == v@);
                    assert(strs_view(out@) =~= seq![token_parts_view(parts@)[1]]);
                }
                Some(out)
            } else {
                None
            }
        },
        ASTNode::Atom { value: ASTValue::Node(inner) } => fixed_terminal_seq(inner),
        ASTNode::Sequence { elements } => {
            let (acc, ok) = lead_terminals(elements);
            if ok {
                Some(acc)
            } else {
                None
            }
        },
        _ => None,
    }
}

/// The lexemes of the longest all-fixed prefix of `elements`, and whether it is all of them.
#[verifier::loop_isolation(false)]
pub fn lead_terminals(elements: &Vec<ASTNode>) -> (r: (Vec<String>, bool))
    ensures
        (strs_view(r.0@), r.1) == lead(nodes_view(elements@)),
    decreases elements,
{
    proof {
        lemma_nodes_view(elements@);
    }
    let ghost s = nodes_view(elements@);
    let mut acc: Vec<String> = Vec::new();
    let mut ok = true;
    let mut i: usize = 0;
    while i < elements.len()
        invariant
            s == nodes_view(elements@),
            s.len() == elements@.len(),
            i <= elements@.len(),
            (strs_view(acc@), ok) == lead(s.take(i as int)),
        decreases elements@.len() - i,
    {
        proof {
            assert(s.take(i + 1).drop_last() =~= s.take(i as int));
            assert(s.take(i + 1).last() == node_view(elements@[i as int]));
            assert(decreases_to!(elements => elements@[i as int]));
        }
        if ok {
            match fixed_terminal_seq(&elements[i]) {
                Some(part) => {
                    append_strings(&mut acc, part);
                },
                None => {
                    ok = false;
                },
            }
        }
        i = i + 1;
    }
    proof {
        assert(s.take(s.len() as int) =~= s);
    }
    (acc, ok)
}

/// The leading fixed-terminal lexemes of a node.
pub fn leading_fixed_terminals(node: &ASTNode) -> (r: Vec<String>)
    ensures
        strs_view(r@) == leading_fixed(node@),
{
    match node {
        ASTNode::Sequence { elements } => lead_terminals(elements).0,
        _ => match fixed_terminal_seq(node) {
            Some(v) => v,
            None => {
                let v: Vec<String> = Vec::new();
                proof {
                    assert(strs_view(v@) =~= Seq::<Seq<char>>::empty());
                }
                v
            },
        },
    }
}

/// Is `a` a non-empty fixed-terminal sequence prefixing the leading fixed terminals of `b`?
pub fn fixed_prefix_of(a: &ASTNode, b: &ASTNode) -> (r: bool)
    ensures
        r == prefix_shadows(a@, b@),
{
    let prefix = match fixed_terminal_seq(a) {
        Some(p) => p,
        None => return false,
    };
    let later = leading_fixed_terminals(b);
    if prefix.len() == 0 || later.len() < prefix.len() {
        return false;
    }
    let ghost pv = strs_view(prefix@);
    let ghost lv = strs_view(later@);
    let mut i: usize = 0;
    while i < prefix.len()
        invariant
            i <= prefix@.len() <= later@.len(),
            pv == strs_view(prefix@),
            lv == strs_view(later@),
            forall|k: int| 0 <= k < i ==> lv[k] == pv[k],
            fixed_seq(a@) == Some(pv),
            leading_fixed(b@) == lv,
        decreases prefix@.len() - i,
    {
        if !str_eq(later[i].as_str(), prefix[i].as_str()) {
            proof {
                assert(lv[i as int] == later@[i as int]@);
                assert(pv[i as int] == prefix@[i as int]@);
                assert(lv.take(pv.len() as int)[i as int] == lv[i as int]);
                assert(lv.take(pv.len() as int) != pv);
            }
            return false;
        }
        i = i + 1;
    }
    proof {
        assert(lv.take(pv.len() as int) =~= pv);
    }
    true
}

// ---------------------------------------------------------------------------------------------
// Verdicts
// ---------------------------------------------------------------------------------------------

/// Why an ordered-choice alternative is unreachable.
#[derive(Debug, Clone, Copy, PartialEq, Eq, Structural)]
pub enum ShadowingReason {
    /// An exact duplicate of an earlier alternative, and the selection semantics let the earlier
    /// twin win: `ordered`, or an earlier twin with higher priority, or a tie broken its way.
    DuplicateAlternative,
    /// An exact duplicate under `nonassoc` with equal priorities: the twins always tie, the tie
    /// fails the whole choice, and neither is ever selected.
    DuplicateAlternativeNonassocTie,
    /// An earlier alternative is a fixed-terminal prefix of this one under `ordered`, with no
    /// branch-phase predicate and no partition rotation.
    FixedTerminalPrefix,
}

/// An ordered-choice alternative shadowed (made unreachable) by an earlier one.
#[derive(Debug, Clone, PartialEq, Eq)]
pub struct ShadowingIssue {
    pub rule: String,
    pub node_path: String,
    /// Index of the unreachable alternative.
    pub shadowed_index: usize,
    /// Index of the earlier alternative that shadows it.
    pub by_index: usize,
    pub reason: ShadowingReason,
}

/// The model of a `ShadowingIssue`.
pub struct ShadowView {
    pub rule: Seq<char>,
    pub path: Seq<char>,
    pub shadowed: nat,
    pub by: nat,
    pub reason: ShadowingReason,
}

impl View for ShadowingIssue {
    type V = ShadowView;

    open spec fn view(&self) -> ShadowView {
        ShadowView {
            rule: self.rule@,
            path: self.node_path@,
            shadowed: self.shadowed_index as nat,
            by: self.by_index as nat,
            reason: self.reason,
        }
    }
}

pub open spec fn shadows_view(v: Seq<ShadowingIssue>) -> Seq<ShadowView> {
    v.map_values(|i: ShadowingIssue| i@)
}

/// The duplicate verdict for exact twins `by < dead`, or `None` where the engine can select the
/// later twin (a branch-phase predicate or partition rotation, `right` ties, a later twin with
/// higher priority).
pub open spec fn duplicate_verdict(sem: SelectionView, by: int, dead: int) -> Option<ShadowingReason> {
    if sem.branch_predicates || sem.partition {
        None
    } else if sem.policy == BranchPolicy::Ordered {
        Some(ShadowingReason::DuplicateAlternative)
    } else {
        let pb = priority_at(sem, by);
        let pd = priority_at(sem, dead);
        match sem.assoc {
            Associativity::Left => if pb >= pd {
                Some(ShadowingReason::DuplicateAlternative)
            } else {
                None
            },
            Associativity::Right => if pb > pd {
                Some(ShadowingReason::DuplicateAlternative)
            } else {
                None
            },
            Associativity::NonAssoc => if pb > pd {
                Some(ShadowingReason::DuplicateAlternative)
            } else if pb == pd {
                Some(ShadowingReason::DuplicateAlternativeNonassocTie)
            } else {
                None
            },
        }
    }
}

/// The fixed-prefix argument holds only under first-success commit with nothing able to block or
/// reorder the earlier alternative.
pub open spec fn fixed_prefix_applies(sem: SelectionView) -> bool {
    sem.policy == BranchPolicy::Ordered && !sem.branch_predicates && !sem.partition
}

/// The verdict that alternative `i` passes on the later alternative `j`, if any.
pub open spec fn pair_reason(sem: SelectionView, alts: Seq<SpecNode>, i: int, j: int) -> Option<ShadowingReason> {
    if alts[i] == alts[j] {
        duplicate_verdict(sem, i, j)
    } else if fixed_prefix_applies(sem) && prefix_shadows(alts[i], alts[j]) {
        Some(ShadowingReason::FixedTerminalPrefix)
    } else {
        None
    }
}

/// The first alternative among `0..upto` that passes a verdict on alternative `j`.
pub open spec fn first_shadower(sem: SelectionView, alts: Seq<SpecNode>, j: int, upto: nat) -> Option<(nat, ShadowingReason)>
    decreases upto,
{
    if upto == 0 {
        None
    } else {
        match first_shadower(sem, alts, j, (upto - 1) as nat) {
            Some(x) => Some(x),
            None => match pair_reason(sem, alts, upto - 1, j) {
                Some(r) => Some(((upto - 1) as nat, r)),
                None => None,
            },
        }
    }
}

/// The findings for alternatives `0..upto` of one ordered choice.
pub open spec fn own_shadow(rule: Seq<char>, alts: Seq<SpecNode>, path: Seq<char>, sem: SelectionView, upto: nat) -> Seq<ShadowView>
    decreases upto,
{
    if upto == 0 {
        Seq::empty()
    } else {
        own_shadow(rule, alts, path, sem, (upto - 1) as nat) + match first_shadower(sem, alts, upto - 1, (upto - 1) as nat) {
            Some((i, r)) => seq![ShadowView { rule, path, shadowed: (upto - 1) as nat, by: i, reason: r }],
            None => Seq::empty(),
        }
    }
}

pub open spec fn shadow_emit(rule: Seq<char>, sem: SelectionView) -> spec_fn(SpecNode, Seq<char>) -> Seq<ShadowView> {
    |n: SpecNode, path: Seq<char>|
        match n {
            SpecNode::Or(alts) => own_shadow(rule, alts, path, sem, alts.len()),
            _ => Seq::empty(),
        }
}

/// Every shadowing finding, per rule of `ord` (defined ones), in pre-order of the ordered choices.
pub open spec fn shadowing_issues(g: Map<Seq<char>, ASTNode>, ord: Seq<Seq<char>>, a: Option<Annotations>) -> Seq<ShadowView> {
    per_rule(g, ord, |r: Seq<char>| walk(g[r]@, root_path(), shadow_emit(r, selection_of(a, r))))
}

impl RuleSelectionSemantics {
    /// The duplicate verdict for exact twins `by < dead`.
    pub fn duplicate_verdict(&self, by: usize, dead: usize) -> (r: Option<ShadowingReason>)
        ensures
            r == duplicate_verdict(self.view(), by as int, dead as int),
    {
        if self.has_branch_phase_predicates || self.partition_enabled {
            return None;
        }
        if self.policy == BranchPolicy::Ordered {
            return Some(ShadowingReason::DuplicateAlternative);
        }
        let pb = self.priority(by);
        let pd = self.priority(dead);
        match self.associativity {
            Associativity::Left => if pb >= pd {
                Some(ShadowingReason::DuplicateAlternative)
            } else {
                None
            },
            Associativity::Right => if pb > pd {
                Some(ShadowingReason::DuplicateAlternative)
            } else {
                None
            },
            Associativity::NonAssoc => if pb > pd {
                Some(ShadowingReason::DuplicateAlternative)
            } else if pb == pd {
                Some(ShadowingReason::DuplicateAlternativeNonassocTie)
            } else {
                None
            },
        }
    }

    /// Does the fixed-prefix argument hold for this rule?
    pub fn fixed_prefix_verdict_applies(&self) -> (r: bool)
        ensures
            r == fixed_prefix_applies(self.view()),
    {
        self.policy == BranchPolicy::Ordered && !self.has_branch_phase_predicates && !self.partition_enabled
    }
}

fn pair_verdict(sem: &RuleSelectionSemantics, alts: &Vec<ASTNode>, i: usize, j: usize) -> (r: Option<ShadowingReason>)
    requires
        i < alts@.len(),
        j < alts@.len(),
    ensures
        r == pair_reason(sem.view(), nodes_view(alts@), i as int, j as int),
{
    proof {
        lemma_nodes_view(alts@);
    }
    if node_eq(&alts[i], &alts[j]) {
        sem.duplicate_verdict(i, j)
    } else if sem.fixed_prefix_verdict_applies() && fixed_prefix_of(&alts[i], &alts[j]) {
        Some(ShadowingReason::FixedTerminalPrefix)
    } else {
        None
    }
}

#[verifier::loop_isolation(false)]
fn collect_shadowing(
    rule: &String,
    node: &ASTNode,
    path: &String,
    sem: &RuleSelectionSemantics,
    out: &mut Vec<ShadowingIssue>,
)
    ensures
        shadows_view(final(out)@) == shadows_view(old(out)@) + walk(node@, path@, shadow_emit(rule@, sem.view())),
    decreases node,
{
    let ghost emit = shadow_emit(rule@, sem.view());
    match node {
        ASTNode::Or { alternatives: v } | ASTNode::Sequence { elements: v } => {
            let is_or = match node {
                ASTNode::Or { .. } => true,
                _ => false,
            };
            let tag = if is_or { 'o' } else { 's' };
            proof {
                lemma_nodes_view(v@);
            }
            let ghost alts = nodes_view(v@);
            let ghost base = shadows_view(out@);
            if is_or {
                let mut j: usize = 0;
                while j < v.len()
                    invariant
                        alts == nodes_view(v@),
                        j <= v@.len(),
                        shadows_view(out@) == base + own_shadow(rule@, alts, path@, sem.view(), j as nat),
                    decreases v@.len() - j,
                {
                    let mut found: Option<(usize, ShadowingReason)> = None;
                    let mut i: usize = 0;
                    while i < j
                        invariant
                            alts == nodes_view(v@),
                            j < v@.len(),
                            i <= j,
                            match found {
                                Some((k, r)) => first_shadower(sem.view(), alts, j as int, i as nat) == Some((k as nat, r)),
                                None => first_shadower(sem.view(), alts, j as int, i as nat) is None,
                            },
                        decreases j - i,
                    {
                        if found.is_none() {
                            match pair_verdict(sem, v, i, j) {
                                Some(r) => {
                                    found = Some((i, r));
                                },
                                None => {},
                            }
                        }
                        i = i + 1;
                    }
                    let ghost before = out@;
                    match found {
                        Some((k, r)) => {
                            out.push(ShadowingIssue {
                                rule: rule.clone(),
                                node_path: path.clone(),
                                shadowed_index: j,
                                by_index: k,
                                reason: r,
                            });
                            proof {
                                assert(shadows_view(out@) =~= shadows_view(before).push(
                                    ShadowView { rule: rule@, path: path@, shadowed: j as nat, by: k as nat, reason: r },
                                ));
                            }
                        },
                        None => {},
                    }
                    j = j + 1;
                    proof {
                        assert(shadows_view(out@) =~= base + own_shadow(rule@, alts, path@, sem.view(), j as nat));
                    }
                }
                proof {
                    assert(emit(node@, path@) == own_shadow(rule@, alts, path@, sem.view(), v@.len() as nat));
                }
            } else {
                proof {
                    assert(emit(node@, path@) =~= Seq::<ShadowView>::empty());
                    assert(shadows_view(out@) =~= base + emit(node@, path@));
                }
            }
            let ghost mid = shadows_view(out@);
            proof {
                assert(mid == base + emit(node@, path@));
                assert(walk(node@, path@, emit) =~= emit(node@, path@) + walk_seq(nodes_view(v@), path@, tag, emit));
            }
            let mut i: usize = 0;
            while i < v.len()
                invariant
                    i <= v@.len(),
                    shadows_view(out@) == mid + walk_seq(nodes_view(v@).take(i as int), path@, tag, emit),
                decreases v@.len() - i,
            {
                let child_path_s = extend_path(path, tag, Some(i));
                collect_shadowing(rule, &v[i], &child_path_s, sem, out);
                proof {
                    assert(nodes_view(v@).take(i + 1) =~= nodes_view(v@).take(i as int).push(node_view(v@[i as int])));
                    lemma_walk_seq_push(nodes_view(v@).take(i as int), node_view(v@[i as int]), path@, tag, emit);
                }
                i = i + 1;
                proof {
                    assert(shadows_view(out@) =~= mid + walk_seq(nodes_view(v@).take(i as int), path@, tag, emit));
                }
            }
            proof {
                assert(nodes_view(v@).take(i as int) =~= nodes_view(v@));
                assert(shadows_view(out@) =~= shadows_view(old(out)@) + walk(node@, path@, emit));
            }
        },
        ASTNode::Quantified { element, .. } => {
            let child = extend_path(path, 'q', None);
            collect_shadowing(rule, element, &child, sem, out);
            proof {
                assert(emit(node@, path@) =~= Seq::<ShadowView>::empty());
                assert(shadows_view(final(out)@) =~= shadows_view(old(out)@) + walk(node@, path@, emit));
            }
        },
        ASTNode::Lookahead { element, .. } => {
            let child = extend_path(path, 'l', None);
            collect_shadowing(rule, element, &child, sem, out);
            proof {
                assert(emit(node@, path@) =~= Seq::<ShadowView>::empty());
                assert(shadows_view(final(out)@) =~= shadows_view(old(out)@) + walk(node@, path@, emit));
            }
        },
        ASTNode::Atom { value } => match value {
            ASTValue::Node(inner) => {
                let child = extend_path(path, 'a', None);
                collect_shadowing(rule, inner, &child, sem, out);
                proof {
                    assert(emit(node@, path@) =~= Seq::<ShadowView>::empty());
                    assert(shadows_view(final(out)@) =~= shadows_view(old(out)@) + walk(node@, path@, emit));
                }
            },
            ASTValue::Token(_) => {
                proof {
                    assert(emit(node@, path@) =~= Seq::<ShadowView>::empty());
                    assert(shadows_view(final(out)@) =~= shadows_view(old(out)@) + walk(node@, path@, emit));
                }
            },
        },
    }
}

/// Shadowed (unreachable) alternatives in every ordered choice of every rule of `rule_order`,
/// each conditioned on the rule's selection semantics (`None`: every rule at the defaults, where
/// duplicate verdicts fire and fixed-prefix verdicts do not). Rules in order, ordered choices in
/// pre-order, alternatives in order; one shadower (the first) per alternative.
pub fn detect_ordered_choice_shadowing(
    grammar: &Grammar,
    rule_order: &[String],
    annotations: Option<&Annotations>,
) -> (issues: Vec<ShadowingIssue>)
    ensures
        shadows_view(issues@) == shadowing_issues(grammar@, strs_view(rule_order@), ann_opt(annotations)),
{
    let ghost g = grammar@;
    let ghost ord = strs_view(rule_order@);
    let ghost a = ann_opt(annotations);
    let ghost f = |r: Seq<char>| walk(g[r]@, root_path(), shadow_emit(r, selection_of(a, r)));
    let mut out: Vec<ShadowingIssue> = Vec::new();
    let mut i: usize = 0;
    while i < rule_order.len()
        invariant
            g == grammar@,
            ord == strs_view(rule_order@),
            a == ann_opt(annotations),
            f == (|r: Seq<char>| walk(g[r]@, root_path(), shadow_emit(r, selection_of(a, r)))),
            i <= rule_order@.len(),
            shadows_view(out@) == per_rule(g, ord.take(i as int), f),
        decreases rule_order@.len() - i,
    {
        let rule = &rule_order[i];
        proof {
            assert(ord.take(i + 1) =~= ord.take(i as int).push(rule@));
            lemma_per_rule_push(g, ord.take(i as int), rule@, f);
        }
        match grammar.get(rule.as_str()) {
            Some(body) => {
                let sem = RuleSelectionSemantics::resolve(annotations, rule.as_str());
                let root = root_path_string();
                collect_shadowing(rule, body, &root, &sem, &mut out);
            },
            None => {
                proof {
                    assert(shadows_view(out@) =~= per_rule(g, ord.take(i as int), f) + Seq::<ShadowView>::empty());
                }
            },
        }
        i = i + 1;
    }
    proof {
        assert(ord.take(ord.len() as int) =~= ord);
    }
    out
}

// ---------------------------------------------------------------------------------------------
// Node paths
// ---------------------------------------------------------------------------------------------

/// The `/`-separated segments of a path.
pub open spec fn split_slash(p: Seq<char>) -> Seq<Seq<char>>
    decreases p.len(),
{
    if p.len() == 0 {
        seq![Seq::empty()]
    } else {
        let s = split_slash(p.drop_last());
        if p.last() == '/' {
            s.push(Seq::empty())
        } else {
            s.update(s.len() - 1, s.last().push(p.last()))
        }
    }
}

pub proof fn lemma_split_slash_len(p: Seq<char>)
    ensures
        split_slash(p).len() >= 1,
    decreases p.len(),
{
    if p.len() > 0 {
        lemma_split_slash_len(p.drop_last());
    }
}

/// An index segment's number as `usize` parsing reads it: an optional `+`, then decimal digits.
pub open spec fn index_of_text(t: Seq<char>) -> Option<nat> {
    if t.len() > 0 && t[0] == '+' {
        crate::ast::number_of(t.drop_first())
    } else {
        crate::ast::number_of(t)
    }
}

/// Where following a path leads: to a node, nowhere, or to a segment whose tag is not a single
/// ASCII character (which the path syntax cannot split).
pub enum NavOutcome {
    Found(SpecNode),
    Missing,
    Fault,
}

/// One step down from `n` along the non-empty segment `seg` (`o{i}`, `s{i}`, `q`, `l`, `a`).
pub open spec fn nav_step(n: SpecNode, seg: Seq<char>) -> NavOutcome {
    let tag = seg[0];
    let idx = seg.drop_first();
    if tag as u32 >= 128 {
        NavOutcome::Fault
    } else {
        match n {
            SpecNode::Or(alts) => if tag == 'o' {
                match index_of_text(idx) {
                    Some(i) => if i < alts.len() {
                        NavOutcome::Found(alts[i as int])
                    } else {
                        NavOutcome::Missing
                    },
                    None => NavOutcome::Missing,
                }
            } else {
                NavOutcome::Missing
            },
            SpecNode::Sequence(elems) => if tag == 's' {
                match index_of_text(idx) {
                    Some(i) => if i < elems.len() {
                        NavOutcome::Found(elems[i as int])
                    } else {
                        NavOutcome::Missing
                    },
                    None => NavOutcome::Missing,
                }
            } else {
                NavOutcome::Missing
            },
            SpecNode::Quant(inner, _) => if tag == 'q' {
                NavOutcome::Found(*inner)
            } else {
                NavOutcome::Missing
            },
            SpecNode::Look(inner, _) => if tag == 'l' {
                NavOutcome::Found(*inner)
            } else {
                NavOutcome::Missing
            },
            SpecNode::Group(inner) => if tag == 'a' {
                NavOutcome::Found(*inner)
            } else {
                NavOutcome::Missing
            },
            SpecNode::Token(_) => NavOutcome::Missing,
        }
    }
}

/// Following the segments `segs` from `n` (empty segments are skipped).
pub open spec fn nav(n: SpecNode, segs: Seq<Seq<char>>) -> NavOutcome
    decreases segs.len(),
{
    if segs.len() == 0 {
        NavOutcome::Found(n)
    } else {
        match nav(n, segs.drop_last()) {
            NavOutcome::Found(m) => if segs.last().len() == 0 {
                NavOutcome::Found(m)
            } else {
                nav_step(m, segs.last())
            },
            other => other,
        }
    }
}

/// The node a path (`root`, then segments) designates in a rule body.
pub open spec fn resolve_path(body: SpecNode, path: Seq<char>) -> NavOutcome {
    let segs = split_slash(path);
    if segs[0] != root_path() {
        NavOutcome::Missing
    } else {
        nav(body, segs.drop_first())
    }
}

fn nav_step_exec<'a>(cur: &'a ASTNode, path: &str, from: usize, to: usize) -> (r: Option<&'a ASTNode>)
    requires
        from < to <= path@.len(),
        !(nav_step(cur@, path@.subrange(from as int, to as int)) is Fault),
    ensures
        match r {
            Some(c) => nav_step(cur@, path@.subrange(from as int, to as int)) == NavOutcome::Found(c@),
            None => nav_step(cur@, path@.subrange(from as int, to as int)) == NavOutcome::Missing,
        },
{
    let ghost seg = path@.subrange(from as int, to as int);
    let tag = path.get_char(from);
    assert(tag == seg[0]);
    let ghost idx = seg.drop_first();
    let indexed = tag == 'o' || tag == 's';
    let mut index: Option<usize> = None;
    if indexed {
        if from + 1 < to && path.get_char(from + 1) == '+' {
            index = crate::ast::parse_number(path, from + 2, to);
            proof {
                assert(idx.drop_first() =~= path@.subrange(from + 2, to as int));
            }
        } else {
            index = crate::ast::parse_number(path, from + 1, to);
            proof {
                assert(idx =~= path@.subrange(from + 1, to as int));
                if from + 1 < to {
                    assert(idx[0] == path@[from + 1]);
                }
            }
        }
        proof {
            match index {
                Some(k) => assert(index_of_text(idx) == Some(k as nat)),
                None => assert(index_of_text(idx) is None),
            }
        }
    }
    match cur {
        ASTNode::Or { alternatives: v } | ASTNode::Sequence { elements: v } => {
            let is_or = match cur {
                ASTNode::Or { .. } => true,
                _ => false,
            };
            proof {
                lemma_nodes_view(v@);
            }
            if (is_or && tag == 'o') || (!is_or && tag == 's') {
                match index {
                    Some(k) => if k < v.len() {
                        Some(&v[k])
                    } else {
                        None
                    },
                    None => None,
                }
            } else {
                None
            }
        },
        ASTNode::Quantified { element, .. } => if tag == 'q' {
            Some(&**element)
        } else {
            None
        },
        ASTNode::Lookahead { element, .. } => if tag == 'l' {
            Some(&**element)
        } else {
            None
        },
        ASTNode::Atom { value: ASTValue::Node(inner) } => if tag == 'a' {
            Some(&**inner)
        } else {
            None
        },
        ASTNode::Atom { value: ASTValue::Token(_) } => None,
    }
}

proof fn lemma_split_step(p: Seq<char>, j: int)
    requires
        0 <= j < p.len(),
    ensures
        split_slash(p.take(j + 1)) == (if p[j] == '/' {
            split_slash(p.take(j)).push(Seq::empty())
        } else {
            split_slash(p.take(j)).update(split_slash(p.take(j)).len() - 1, split_slash(p.take(j)).last().push(p[j]))
        }),
{
    assert(p.take(j + 1).drop_last() =~= p.take(j));
    assert(p.take(j + 1).last() == p[j]);
}

proof fn lemma_split_extends(p: Seq<char>, i: int, j: int)
    requires
        0 <= i < p.len(),
        p[i] == '/',
        i < j <= p.len(),
    ensures
        split_slash(p.take(j)).len() > split_slash(p.take(i)).len(),
        split_slash(p.take(j)).take(split_slash(p.take(i)).len() as int) == split_slash(p.take(i)),
    decreases j - i,
{
    lemma_split_slash_len(p.take(i));
    if j == i + 1 {
        lemma_split_step(p, i);
        assert(split_slash(p.take(j)).take(split_slash(p.take(i)).len() as int) =~= split_slash(p.take(i)));
    } else {
        lemma_split_extends(p, i, j - 1);
        lemma_split_step(p, j - 1);
        lemma_split_slash_len(p.take(j - 1));
        let k = split_slash(p.take(i)).len() as int;
        assert(split_slash(p.take(j)).take(k) =~= split_slash(p.take(j - 1)).take(k));
    }
}

/// At a segment boundary (a `/` or the end), the segments so far are a prefix of all segments.
proof fn lemma_split_boundary(p: Seq<char>, i: int)
    requires
        0 <= i <= p.len(),
        i == p.len() || p[i] == '/',
    ensures
        split_slash(p).len() >= split_slash(p.take(i)).len(),
        split_slash(p).take(split_slash(p.take(i)).len() as int) == split_slash(p.take(i)),
{
    if i == p.len() {
        assert(p.take(i) =~= p);
        assert(split_slash(p).take(split_slash(p).len() as int) =~= split_slash(p));
    } else {
        lemma_split_extends(p, i, p.len() as int);
        assert(p.take(p.len() as int) =~= p);
    }
}

proof fn lemma_nav_concat(n: SpecNode, a: Seq<Seq<char>>, b: Seq<Seq<char>>)
    ensures
        nav(n, a + b) == match nav(n, a) {
            NavOutcome::Found(m) => nav(m, b),
            other => other,
        },
    decreases b.len(),
{
    if b.len() == 0 {
        assert(a + b =~= a);
    } else {
        lemma_nav_concat(n, a, b.drop_last());
        assert((a + b).drop_last() =~= a + b.drop_last());
        assert((a + b).last() == b.last());
    }
}

/// The node that `node_path` designates in `body` (`None` if the path does not resolve).
pub fn navigate_node_path<'a>(body: &'a ASTNode, node_path: &str) -> (r: Option<&'a ASTNode>)
    requires
        !(resolve_path(body@, node_path@) is Fault),
    ensures
        match r {
            Some(n) => resolve_path(body@, node_path@) == NavOutcome::Found(n@),
            None => resolve_path(body@, node_path@) == NavOutcome::Missing,
        },
{
    proof {
        reveal_strlit("root");
        assert("root"@ =~= root_path());
    }
    let ghost p = node_path@;
    let n = node_path.unicode_len();
    let mut cur: &ASTNode = body;
    let mut first = true;
    let mut seg_start: usize = 0;
    let mut i: usize = 0;
    proof {
        assert(p.take(0) =~= Seq::<char>::empty());
        assert(p.subrange(0, 0) =~= Seq::<char>::empty());
    }
    while i <= n
        invariant
            n == p.len(),
            p == node_path@,
            i <= n,
            first ==> seg_start == 0 && cur@ == body@,
            seg_start <= i,
            split_slash(p.take(i as int)).len() >= 1,
            split_slash(p.take(i as int)).last() == p.subrange(seg_start as int, i as int),
            first == (split_slash(p.take(i as int)).len() == 1),
            !first ==> split_slash(p.take(i as int))[0] == root_path(),
            !first ==> nav(body@, split_slash(p.take(i as int)).drop_last().drop_first()) == NavOutcome::Found(cur@),
            !(resolve_path(body@, p) is Fault),
        decreases n + 1 - i,
    {
        let ghost segs = split_slash(p.take(i as int));
        let at_end = i == n;
        let slash = !at_end && node_path.get_char(i) == '/';
        if at_end || slash {
            let ghost seg = p.subrange(seg_start as int, i as int);
            proof {
                lemma_split_boundary(p, i as int);
                lemma_split_slash_len(p);
            }
            let ghost full = split_slash(p).drop_first();
            let ghost a = segs.drop_first();
            proof {
                assert(full =~= a + full.skip(a.len() as int));
                lemma_nav_concat(body@, a, full.skip(a.len() as int));
            }
            if first {
                let text = node_path.substring_char(seg_start, i);
                proof {
                    assert(segs[0] == segs.last());
                    assert(text@ == seg);
                }
                proof {
                    reveal_strlit("root");
                    assert("root"@ =~= root_path());
                }
                let is_root = str_eq(text, "root");
                if !is_root {
                    proof {
                        assert(split_slash(p)[0] == segs[0]);
                        assert(text@ != root_path());
                        assert(resolve_path(body@, p) == NavOutcome::Missing);
                    }
                    return None;
                }
                first = false;
                proof {
                    assert(segs[0] == root_path());
                }
                proof {
                    assert(a =~= Seq::<Seq<char>>::empty());
                    assert(nav(body@, a) == NavOutcome::Found(cur@));
                }
            } else {
                proof {
                    assert(a.drop_last() =~= segs.drop_last().drop_first());
                    assert(a.last() == seg);
                }
                if i > seg_start {
                    match nav_step_exec(cur, node_path, seg_start, i) {
                        Some(c) => {
                            cur = c;
                        },
                        None => {
                            return None;
                        },
                    }
                }
                proof {
                    assert(nav(body@, a) == NavOutcome::Found(cur@));
                }
            }
            if at_end {
                proof {
                    assert(p.take(i as int) =~= p);
                    assert(full == a);
                }
                return Some(cur);
            }
            proof {
                lemma_split_step(p, i as int);
                assert(split_slash(p.take(i + 1)).drop_last() =~= segs);
                assert(p.subrange(i + 1, i + 1) =~= Seq::<char>::empty());
            }
            seg_start = i + 1;
        } else {
            proof {
                let c = p[i as int];
                lemma_split_step(p, i as int);
                assert(p.subrange(seg_start as int, i + 1) =~= p.subrange(seg_start as int, i as int).push(c));
                assert(split_slash(p.take(i + 1)).drop_last() =~= segs.drop_last());
                if !first {
                    assert(split_slash(p.take(i + 1))[0] == segs[0]);
                }
            }
        }
        i = i + 1;
    }
    None
}

// ---------------------------------------------------------------------------------------------
// Unreachability certificates
// ---------------------------------------------------------------------------------------------

/// The checkable reason an ordered-choice alternative is unreachable.
#[derive(Debug, Clone, Copy, PartialEq, Eq, Structural)]
pub enum UnreachabilityReason {
    /// Alternative `by` is an exact structural duplicate of the dead one.
    DuplicateOf { by: usize },
    /// Alternative `by` is a fixed-terminal prefix of the dead one under first-success commit.
    FixedTerminalPrefixBy { by: usize },
}

/// A certificate that one ordered-choice alternative is unreachable: `rule` and `node_path`
/// locate the choice, `dead_index` the dead alternative, `reason` the earlier one that kills it.
#[derive(Debug, Clone, PartialEq, Eq)]
pub struct UnreachabilityCertificate {
    pub rule: String,
    pub node_path: String,
    pub dead_index: usize,
    pub reason: UnreachabilityReason,
}

pub open spec fn reason_by(r: UnreachabilityReason) -> nat {
    match r {
        UnreachabilityReason::DuplicateOf { by } => by as nat,
        UnreachabilityReason::FixedTerminalPrefixBy { by } => by as nat,
    }
}

/// The certificate names a rule whose path does not fault.
pub open spec fn cert_path_ok(g: Map<Seq<char>, ASTNode>, c: UnreachabilityCertificate) -> bool {
    g.dom().contains(c.rule@) ==> !(resolve_path(g[c.rule@]@, c.node_path@) is Fault)
}

/// The certificate's claim holds: its path leads to an ordered choice in which the shadower
/// comes before the dead alternative and passes the claimed verdict on it under the rule's
/// selection semantics.
pub open spec fn unreachability_holds(g: Map<Seq<char>, ASTNode>, a: Option<Annotations>, c: UnreachabilityCertificate) -> bool {
    &&& g.dom().contains(c.rule@)
    &&& match resolve_path(g[c.rule@]@, c.node_path@) {
        NavOutcome::Found(SpecNode::Or(alts)) => {
            let by = reason_by(c.reason);
            let dead = c.dead_index as nat;
            let sem = selection_of(a, c.rule@);
            &&& by < dead
            &&& dead < alts.len()
            &&& match c.reason {
                UnreachabilityReason::DuplicateOf { .. } => alts[by as int] == alts[dead as int] && duplicate_verdict(
                    sem,
                    by as int,
                    dead as int,
                ) is Some,
                UnreachabilityReason::FixedTerminalPrefixBy { .. } => fixed_prefix_applies(sem) && prefix_shadows(
                    alts[by as int],
                    alts[dead as int],
                ),
            }
        },
        _ => false,
    }
}

/// The certificate of a finding.
pub open spec fn certificate_of(x: ShadowingIssue) -> UnreachabilityCertificate {
    UnreachabilityCertificate {
        rule: x.rule,
        node_path: x.node_path,
        dead_index: x.shadowed_index,
        reason: match x.reason {
            ShadowingReason::FixedTerminalPrefix => UnreachabilityReason::FixedTerminalPrefixBy { by: x.by_index },
            _ => UnreachabilityReason::DuplicateOf { by: x.by_index },
        },
    }
}

impl ShadowingIssue {
    /// The unreachability certificate of this finding: both duplicate flavours certify that the
    /// later twin is never selected.
    pub fn certificate(&self) -> (c: UnreachabilityCertificate)
        ensures
            c.rule@ == self.rule@,
            c.node_path@ == self.node_path@,
            c.dead_index == self.shadowed_index,
            c.reason == certificate_of(*self).reason,
    {
        let reason = match self.reason {
            ShadowingReason::FixedTerminalPrefix => UnreachabilityReason::FixedTerminalPrefixBy { by: self.by_index },
            _ => UnreachabilityReason::DuplicateOf { by: self.by_index },
        };
        UnreachabilityCertificate {
            rule: self.rule.clone(),
            node_path: self.node_path.clone(),
            dead_index: self.shadowed_index,
            reason,
        }
    }
}

/// `a` followed by `b` followed by `c`.
pub fn text3(a: &str, b: &str, c: &str) -> (r: String)
    ensures
        r@ == a@ + b@ + c@,
{
    let mut r = String::from_str(a);
    r.append(b);
    r.append(c);
    r
}

/// How a certificate's reason reads in a report (`DuplicateOf { by: 1 }`).
pub open spec fn reason_text(r: UnreachabilityReason) -> Seq<char> {
    match r {
        UnreachabilityReason::DuplicateOf { by } => "DuplicateOf { by: "@ + decimal(by as nat) + " }"@,
        UnreachabilityReason::FixedTerminalPrefixBy { by } => "FixedTerminalPrefixBy { by: "@ + decimal(by as nat) + " }"@,
    }
}

/// Why the checker refuses a certificate whose claim does not hold: the first check it fails,
/// in the order the checker makes them.
pub open spec fn unreachability_refusal(g: Map<Seq<char>, ASTNode>, c: UnreachabilityCertificate) -> Seq<char> {
    let by = reason_by(c.reason);
    let dead = c.dead_index as nat;
    if !g.dom().contains(c.rule@) {
        "certificate cites unknown rule '"@ + c.rule@ + "'"@
    } else {
        match resolve_path(g[c.rule@]@, c.node_path@) {
            NavOutcome::Found(SpecNode::Or(alts)) => if by >= dead {
                "certificate shadower #"@ + decimal(by) + " is not earlier than the dead alternative #"@ + decimal(dead)
            } else if by >= alts.len() {
                "certificate shadower index #"@ + decimal(by) + " out of range"@
            } else if dead >= alts.len() {
                "certificate dead index #"@ + decimal(dead) + " out of range"@
            } else {
                "certificate for rule '"@ + c.rule@ + "' at '"@ + c.node_path@ + "' does NOT hold: alternative #"@ + decimal(by)
                    + " does not shadow #"@ + decimal(dead) + " ("@ + reason_text(c.reason) + ")"@
            },
            NavOutcome::Found(_) => "certificate path '"@ + c.node_path@ + "' is not an ordered choice"@,
            _ => "certificate path '"@ + c.node_path@ + "' does not resolve in rule '"@ + c.rule@ + "'"@,
        }
    }
}

fn push_reason_text(m: &mut String, r: &UnreachabilityReason)
    ensures
        final(m)@ == old(m)@ + reason_text(*r),
{
    match r {
        UnreachabilityReason::DuplicateOf { by } => {
            m.append("DuplicateOf { by: ");
            push_decimal(m, *by);
        },
        UnreachabilityReason::FixedTerminalPrefixBy { by } => {
            m.append("FixedTerminalPrefixBy { by: ");
            push_decimal(m, *by);
        },
    }
    m.append(" }");
}

/// Re-check an unreachability certificate against the grammar, independently of the detector:
/// navigate to the cited choice and re-derive the structural relation and the selection-semantics
/// condition (`None` annotations: every default). `Ok` exactly when the claim holds; otherwise the
/// message names the first check that failed.
pub fn verify_unreachability_certificate(
    grammar: &Grammar,
    annotations: Option<&Annotations>,
    cert: &UnreachabilityCertificate,
) -> (r: Result<(), String>)
    requires
        cert_path_ok(grammar@, *cert),
    ensures
        match r {
            Ok(_) => unreachability_holds(grammar@, ann_opt(annotations), *cert),
            Err(m) => !unreachability_holds(grammar@, ann_opt(annotations), *cert) && m@ == unreachability_refusal(grammar@, *cert),
        },
{
    let body = match grammar.get(cert.rule.as_str()) {
        Some(b) => b,
        None => {
            return Err(text3("certificate cites unknown rule '", cert.rule.as_str(), "'"));
        },
    };
    let node = match navigate_node_path(body, cert.node_path.as_str()) {
        Some(n) => n,
        None => {
            let mut m = text3("certificate path '", cert.node_path.as_str(), "' does not resolve in rule '");
            m.append(cert.rule.as_str());
            m.append("'");
            return Err(m);
        },
    };
    let alternatives = match node {
        ASTNode::Or { alternatives } => alternatives,
        _ => {
            return Err(text3("certificate path '", cert.node_path.as_str(), "' is not an ordered choice"));
        },
    };
    proof {
        lemma_nodes_view(alternatives@);
    }
    let by = match cert.reason {
        UnreachabilityReason::DuplicateOf { by } => by,
        UnreachabilityReason::FixedTerminalPrefixBy { by } => by,
    };
    if by >= cert.dead_index {
        let mut m = String::from_str("certificate shadower #");
        push_decimal(&mut m, by);
        m.append(" is not earlier than the dead alternative #");
        push_decimal(&mut m, cert.dead_index);
        return Err(m);
    }
    if by >= alternatives.len() {
        let mut m = String::from_str("certificate shadower index #");
        push_decimal(&mut m, by);
        m.append(" out of range");
        return Err(m);
    }
    if cert.dead_index >= alternatives.len() {
        let mut m = String::from_str("certificate dead index #");
        push_decimal(&mut m, cert.dead_index);
        m.append(" out of range");
        return Err(m);
    }
    let sem = RuleSelectionSemantics::resolve(annotations, cert.rule.as_str());
    let holds = match cert.reason {
        UnreachabilityReason::DuplicateOf { .. } => node_eq(&alternatives[by], &alternatives[cert.dead_index])
            && sem.duplicate_verdict(by, cert.dead_index).is_some(),
        UnreachabilityReason::FixedTerminalPrefixBy { .. } => sem.fixed_prefix_verdict_applies() && fixed_prefix_of(
            &alternatives[by],
            &alternatives[cert.dead_index],
        ),
    };
    if holds {
        Ok(())
    } else {
        let mut m = text3("certificate for rule '", cert.rule.as_str(), "' at '");
        m.append(cert.node_path.as_str());
        m.append("' does NOT hold: alternative #");
        push_decimal(&mut m, by);
        m.append(" does not shadow #");
        push_decimal(&mut m, cert.dead_index);
        m.append(" (");
        push_reason_text(&mut m, &cert.reason);
        m.append(")");
        Err(m)
    }
}

// ---------------------------------------------------------------------------------------------
// Messages
// ---------------------------------------------------------------------------------------------

/// The report line of a shadowing finding; each reason states its own selection-semantics premise.
pub open spec fn shadow_message(x: ShadowView) -> Seq<char> {
    match x.reason {
        ShadowingReason::DuplicateAlternative => "grammar shadowing: in rule '"@ + x.rule + "' (ordered choice at "@ + x.path
            + "), alternative #"@ + decimal(x.shadowed) + " is unreachable — it is an exact structural duplicate of alternative #"@
            + decimal(x.by) + "; merge or remove the duplicate"@,
        ShadowingReason::DuplicateAlternativeNonassocTie => "grammar shadowing: in rule '"@ + x.rule + "' (ordered choice at "@
            + x.path + "), alternatives #"@ + decimal(x.by) + " and #"@ + decimal(x.shadowed)
            + " are exact structural duplicates under @associativity: nonassoc — they always tie, the tie fails the whole choice, and NEITHER can ever be selected; note that removing just one duplicate would CHANGE acceptance (the survivor then wins the choice), so restructure the alternatives deliberately"@,
        ShadowingReason::FixedTerminalPrefix => "grammar shadowing: in rule '"@ + x.rule + "' (ordered choice at "@ + x.path
            + "), alternative #"@ + decimal(x.shadowed) + " is unreachable — alternative #"@ + decimal(x.by)
            + " is a fixed-terminal prefix of it and the rule's effective @branch_policy is 'ordered' (the choice commits to the first successful alternative, and whenever #"@
            + decimal(x.shadowed) + " could match, #"@ + decimal(x.by) + " succeeds first); reorder (specific before general) or merge"@,
    }
}

impl ShadowingIssue {
    /// The report line of this finding.
    pub fn message(&self) -> (m: String)
        ensures
            m@ == shadow_message(self@),
    {
        let mut m = String::from_str("grammar shadowing: in rule '");
        m.append(self.rule.as_str());
        m.append("' (ordered choice at ");
        m.append(self.node_path.as_str());
        match self.reason {
            ShadowingReason::DuplicateAlternative => {
                m.append("), alternative #");
                push_decimal(&mut m, self.shadowed_index);
                m.append(" is unreachable — it is an exact structural duplicate of alternative #");
                push_decimal(&mut m, self.by_index);
                m.append("; merge or remove the duplicate");
            },
            ShadowingReason::DuplicateAlternativeNonassocTie => {
                m.append("), alternatives #");
                push_decimal(&mut m, self.by_index);
                m.append(" and #");
                push_decimal(&mut m, self.shadowed_index);
                m.append(
                    " are exact structural duplicates under @associativity: nonassoc — they always tie, the tie fails the whole choice, and NEITHER can ever be selected; note that removing just one duplicate would CHANGE acceptance (the survivor then wins the choice), so restructure the alternatives deliberately",
                );
            },
            ShadowingReason::FixedTerminalPrefix => {
                m.append("), alternative #");
                push_decimal(&mut m, self.shadowed_index);
                m.append(" is unreachable — alternative #");
                push_decimal(&mut m, self.by_index);
                m.append(
                    " is a fixed-terminal prefix of it and the rule's effective @branch_policy is 'ordered' (the choice commits to the first successful alternative, and whenever #",
                );
                push_decimal(&mut m, self.shadowed_index);
                m.append(" could match, #");
                push_decimal(&mut m, self.by_index);
                m.append(" succeeds first); reorder (specific before general) or merge");
            },
        }
        m
    }
}


// ---------------------------------------------------------------------------------------------
// Every finding re-verifies
// ---------------------------------------------------------------------------------------------

/// No `/` in `w`.
pub open spec fn no_slash(w: Seq<char>) -> bool {
    forall|i: int| 0 <= i < w.len() ==> #[trigger] w[i] != '/'
}

proof fn lemma_split_no_slash(w: Seq<char>)
    requires
        no_slash(w),
    ensures
        split_slash(w) == seq![w],
    decreases w.len(),
{
    if w.len() > 0 {
        lemma_split_no_slash(w.drop_last());
        assert(w.drop_last().push(w.last()) =~= w);
    } else {
        assert(w =~= Seq::<char>::empty());
    }
}

/// Appending `/` and a segment without `/` appends the segment.
proof fn lemma_split_append(p: Seq<char>, w: Seq<char>)
    requires
        no_slash(w),
    ensures
        split_slash(p + seq!['/'] + w) == split_slash(p).push(w),
    decreases w.len(),
{
    if w.len() == 0 {
        assert(p + seq!['/'] + w =~= p.push('/'));
        assert((p.push('/')).drop_last() =~= p);
        assert(w =~= Seq::<char>::empty());
    } else {
        let w0 = w.drop_last();
        lemma_split_append(p, w0);
        assert((p + seq!['/'] + w).drop_last() =~= p + seq!['/'] + w0);
        assert((p + seq!['/'] + w).last() == w.last());
        assert(w0.push(w.last()) =~= w);
        assert(split_slash(p).push(w0).update(split_slash(p).len() as int, w0.push(w.last())) =~= split_slash(p).push(w));
    }
}

proof fn lemma_decimal_digits(n: nat)
    ensures
        all_digits(decimal(n)),
        digits_value(decimal(n)) == n,
        decimal(n)[0] != '+',
        no_slash(decimal(n)),
    decreases n,
{
    if n >= 10 {
        lemma_decimal_digits(n / 10);
        let d = decimal(n / 10);
        assert(decimal(n) == d.push(digit_char(n % 10)));
        assert(decimal(n).drop_last() =~= d);
        assert(decimal(n).last() == digit_char(n % 10));
        assert(digit_value(digit_char(n % 10)) == n % 10);
        assert(digits_value(decimal(n)) == digits_value(d) * 10 + n % 10);
        assert((n / 10) * 10 + n % 10 == n) by (nonlinear_arith);
        assert(forall|i: int| 0 <= i < d.len() ==> #[trigger] decimal(n)[i] == d[i]);
    } else {
        assert(decimal(n).drop_last() =~= Seq::<char>::empty());
        assert(digit_value(digit_char(n)) == n);
        assert(digits_value(decimal(n)) == digits_value(Seq::<char>::empty()) * 10 + digit_value(digit_char(n)));
    }
}

/// The segment of an indexed child reads back as the index.
proof fn lemma_index_of_decimal(i: nat)
    requires
        i <= usize::MAX,
    ensures
        index_of_text(decimal(i)) == Some(i),
{
    lemma_decimal_digits(i);
}

/// The segment a child path adds.
pub open spec fn child_segment(tag: char, idx: Option<nat>) -> Seq<char> {
    match idx {
        Some(i) => seq![tag] + decimal(i),
        None => seq![tag],
    }
}

/// The node path of a child, as segments: the parent's, then the child's segment.
proof fn lemma_child_segments(path: Seq<char>, tag: char, idx: Option<nat>)
    requires
        tag != '/',
    ensures
        split_slash(child_path(path, tag, idx)) == split_slash(path).push(child_segment(tag, idx)),
        child_segment(tag, idx).len() > 0,
        child_segment(tag, idx)[0] == tag,
{
    let w = child_segment(tag, idx);
    match idx {
        Some(i) => {
            lemma_decimal_digits(i);
            assert(no_slash(w)) by {
                assert forall|k: int| 0 <= k < w.len() implies #[trigger] w[k] != '/' by {
                    if k > 0 {
                        assert(w[k] == decimal(i)[k - 1]);
                    }
                }
            }
            assert(child_path(path, tag, idx) =~= path + seq!['/'] + w);
        },
        None => {
            assert(no_slash(w));
            assert(child_path(path, tag, idx) =~= path + seq!['/'] + w);
        },
    }
    lemma_split_append(path, w);
}

/// Every list of children fits a `usize` (true of every model of an executable node).
pub open spec fn bounded(n: SpecNode) -> bool
    decreases n,
{
    match n {
        SpecNode::Or(s) => s.len() <= usize::MAX && forall|i: int| 0 <= i < s.len() ==> bounded(#[trigger] s[i]),
        SpecNode::Sequence(s) => s.len() <= usize::MAX && forall|i: int| 0 <= i < s.len() ==> bounded(#[trigger] s[i]),
        SpecNode::Quant(inner, _) => bounded(*inner),
        SpecNode::Look(inner, _) => bounded(*inner),
        SpecNode::Group(inner) => bounded(*inner),
        SpecNode::Token(_) => true,
    }
}

pub proof fn lemma_bounded(x: ASTNode)
    ensures
        bounded(node_view(x)),
    decreases x,
{
    match x {
        ASTNode::Or { alternatives: v } | ASTNode::Sequence { elements: v } => {
            vstd::std_specs::vec::axiom_spec_len(&v);
            lemma_nodes_view(v@);
            assert forall|i: int| 0 <= i < v@.len() implies bounded(#[trigger] nodes_view(v@)[i]) by {
                assert(decreases_to!(v => v@[i]));
                lemma_bounded(v@[i]);
            }
        },
        ASTNode::Quantified { element, .. } => lemma_bounded(*element),
        ASTNode::Lookahead { element, .. } => lemma_bounded(*element),
        ASTNode::Atom { value } => match value {
            ASTValue::Node(inner) => lemma_bounded(*inner),
            ASTValue::Token(_) => {},
        },
    }
}

/// A finding is backed by its choice: the shadower comes first and passes the verdict.
pub open spec fn finding_ok(alts: Seq<SpecNode>, sem: SelectionView, y: ShadowView) -> bool {
    &&& y.by < y.shadowed
    &&& y.shadowed < alts.len()
    &&& pair_reason(sem, alts, y.by as int, y.shadowed as int) == Some(y.reason)
}

proof fn lemma_first_shadower(sem: SelectionView, alts: Seq<SpecNode>, j: int, upto: nat)
    ensures
        first_shadower(sem, alts, j, upto) matches Some((i, r)) ==> i < upto && pair_reason(sem, alts, i as int, j) == Some(r),
    decreases upto,
{
    if upto > 0 {
        lemma_first_shadower(sem, alts, j, (upto - 1) as nat);
    }
}

proof fn lemma_own_shadow(rule: Seq<char>, alts: Seq<SpecNode>, path: Seq<char>, sem: SelectionView, upto: nat, k: int)
    requires
        upto <= alts.len(),
        0 <= k < own_shadow(rule, alts, path, sem, upto).len(),
    ensures
        own_shadow(rule, alts, path, sem, upto)[k].rule == rule,
        own_shadow(rule, alts, path, sem, upto)[k].path == path,
        finding_ok(alts, sem, own_shadow(rule, alts, path, sem, upto)[k]),
    decreases upto,
{
    let prev = own_shadow(rule, alts, path, sem, (upto - 1) as nat);
    if k < prev.len() {
        lemma_own_shadow(rule, alts, path, sem, (upto - 1) as nat, k);
    } else {
        lemma_first_shadower(sem, alts, upto - 1, (upto - 1) as nat);
    }
}

/// Stepping into an indexed child by its segment.
proof fn lemma_nav_child(n: SpecNode, s: Seq<SpecNode>, tag: char, i: int, extra: Seq<Seq<char>>)
    requires
        (tag == 'o' && n == SpecNode::Or(s)) || (tag == 's' && n == SpecNode::Sequence(s)),
        0 <= i < s.len(),
        s.len() <= usize::MAX,
    ensures
        nav(n, seq![child_segment(tag, Some(i as nat))] + extra) == nav(s[i], extra),
{
    let seg = child_segment(tag, Some(i as nat));
    lemma_index_of_decimal(i as nat);
    assert(seg.drop_first() =~= decimal(i as nat));
    lemma_nav_concat(n, seq![seg], extra);
    assert(seq![seg].drop_last() =~= Seq::<Seq<char>>::empty());
    assert(nav(n, Seq::<Seq<char>>::empty()) == NavOutcome::Found(n));
    assert(seq![seg].last() == seg);
    assert(seg.len() > 0);
    assert(nav(n, seq![seg]) == nav_step(n, seg));
}

/// Stepping into the only child by its segment.
proof fn lemma_nav_only_child(n: SpecNode, inner: SpecNode, tag: char, extra: Seq<Seq<char>>)
    requires
        nav_step(n, child_segment(tag, None)) == NavOutcome::Found(inner),
    ensures
        nav(n, seq![child_segment(tag, None)] + extra) == nav(inner, extra),
{
    let seg = child_segment(tag, None);
    lemma_nav_concat(n, seq![seg], extra);
    assert(seq![seg].drop_last() =~= Seq::<Seq<char>>::empty());
    assert(nav(n, Seq::<Seq<char>>::empty()) == NavOutcome::Found(n));
    assert(seq![seg].last() == seg);
    assert(seg.len() > 0);
    assert(nav(n, seq![seg]) == nav_step(n, seg));
}

/// Every finding of a walk sits at an ordered choice its path leads to.
proof fn lemma_walk_finding(n: SpecNode, path: Seq<char>, rule: Seq<char>, sem: SelectionView, k: int) -> (extra: Seq<Seq<char>>)
    requires
        bounded(n),
        0 <= k < walk(n, path, shadow_emit(rule, sem)).len(),
    ensures
        walk(n, path, shadow_emit(rule, sem))[k].rule == rule,
        split_slash(walk(n, path, shadow_emit(rule, sem))[k].path) == split_slash(path) + extra,
        nav(n, extra) matches NavOutcome::Found(SpecNode::Or(alts)) && finding_ok(alts, sem, walk(n, path, shadow_emit(rule, sem))[k]),
    decreases n, 1nat,
{
    let emit = shadow_emit(rule, sem);
    let own = emit(n, path);
    let w = walk(n, path, emit);
    if k < own.len() {
        match n {
            SpecNode::Or(alts) => {
                lemma_own_shadow(rule, alts, path, sem, alts.len(), k);
                assert(w[k] == own[k]);
                assert(split_slash(path) + Seq::<Seq<char>>::empty() =~= split_slash(path));
                Seq::empty()
            },
            _ => {
                assert(own =~= Seq::<ShadowView>::empty());
                Seq::empty()
            },
        }
    } else {
        let kk = k - own.len();
        match n {
            SpecNode::Or(alts) => {
                assert(w[k] == walk_seq(alts, path, 'o', emit)[kk]);
                let (i, ex) = lemma_walk_seq_finding(alts, path, 'o', rule, sem, kk);
                lemma_nav_child(n, alts, 'o', i, ex);
                let extra = seq![child_segment('o', Some(i as nat))] + ex;
                assert(split_slash(path) + extra =~= split_slash(path).push(child_segment('o', Some(i as nat))) + ex);
                extra
            },
            SpecNode::Sequence(elems) => {
                assert(w[k] == walk_seq(elems, path, 's', emit)[kk]);
                let (i, ex) = lemma_walk_seq_finding(elems, path, 's', rule, sem, kk);
                lemma_nav_child(n, elems, 's', i, ex);
                let extra = seq![child_segment('s', Some(i as nat))] + ex;
                assert(split_slash(path) + extra =~= split_slash(path).push(child_segment('s', Some(i as nat))) + ex);
                extra
            },
            SpecNode::Quant(inner, _) => {
                let cp = child_path(path, 'q', None);
                assert(w[k] == walk(*inner, cp, emit)[kk]);
                let ex = lemma_walk_finding(*inner, cp, rule, sem, kk);
                lemma_child_segments(path, 'q', None);
                assert(child_segment('q', None).drop_first() =~= Seq::<char>::empty());
                lemma_nav_only_child(n, *inner, 'q', ex);
                let extra = seq![child_segment('q', None)] + ex;
                assert(split_slash(path) + extra =~= split_slash(path).push(child_segment('q', None)) + ex);
                extra
            },
            SpecNode::Look(inner, _) => {
                let cp = child_path(path, 'l', None);
                assert(w[k] == walk(*inner, cp, emit)[kk]);
                let ex = lemma_walk_finding(*inner, cp, rule, sem, kk);
                lemma_child_segments(path, 'l', None);
                assert(child_segment('l', None).drop_first() =~= Seq::<char>::empty());
                lemma_nav_only_child(n, *inner, 'l', ex);
                let extra = seq![child_segment('l', None)] + ex;
                assert(split_slash(path) + extra =~= split_slash(path).push(child_segment('l', None)) + ex);
                extra
            },
            SpecNode::Group(inner) => {
                let cp = child_path(path, 'a', None);
                assert(w[k] == walk(*inner, cp, emit)[kk]);
                let ex = lemma_walk_finding(*inner, cp, rule, sem, kk);
                lemma_child_segments(path, 'a', None);
                assert(child_segment('a', None).drop_first() =~= Seq::<char>::empty());
                lemma_nav_only_child(n, *inner, 'a', ex);
                let extra = seq![child_segment('a', None)] + ex;
                assert(split_slash(path) + extra =~= split_slash(path).push(child_segment('a', None)) + ex);
                extra
            },
            SpecNode::Token(_) => {
                assert(w =~= own);
                Seq::empty()
            },
        }
    }
}

/// Every finding of the walks of indexed children sits under one of the children.
proof fn lemma_walk_seq_finding(s: Seq<SpecNode>, path: Seq<char>, tag: char, rule: Seq<char>, sem: SelectionView, k: int) -> (res: (
    int,
    Seq<Seq<char>>,
))
    requires
        tag == 'o' || tag == 's',
        s.len() <= usize::MAX,
        forall|i: int| 0 <= i < s.len() ==> bounded(#[trigger] s[i]),
        0 <= k < walk_seq(s, path, tag, shadow_emit(rule, sem)).len(),
    ensures
        0 <= res.0 < s.len(),
        walk_seq(s, path, tag, shadow_emit(rule, sem))[k].rule == rule,
        split_slash(walk_seq(s, path, tag, shadow_emit(rule, sem))[k].path) == split_slash(path).push(child_segment(tag, Some(res.0 as nat)))
            + res.1,
        nav(s[res.0], res.1) matches NavOutcome::Found(SpecNode::Or(alts)) && finding_ok(alts, sem, walk_seq(s, path, tag, shadow_emit(rule, sem))[k]),
    decreases s, 0nat,
{
    let emit = shadow_emit(rule, sem);
    let prev = walk_seq(s.drop_last(), path, tag, emit);
    let last = (s.len() - 1) as nat;
    let cp = child_path(path, tag, Some(last));
    if k < prev.len() {
        assert(forall|i: int| 0 <= i < s.drop_last().len() ==> #[trigger] s.drop_last()[i] == s[i]);
        let (i, ex) = lemma_walk_seq_finding(s.drop_last(), path, tag, rule, sem, k);
        assert(s.drop_last()[i] == s[i]);
        (i, ex)
    } else {
        let kk = k - prev.len();
        assert(bounded(s[last as int]));
        let ex = lemma_walk_finding(s.last(), cp, rule, sem, kk);
        lemma_child_segments(path, tag, Some(last));
        (last as int, ex)
    }
}

/// An element of the per-rule concatenation comes from a defined rule of the order.
proof fn lemma_per_rule_member<T>(g: Map<Seq<char>, ASTNode>, ord: Seq<Seq<char>>, f: spec_fn(Seq<char>) -> Seq<T>, k: int) -> (res: (
    Seq<char>,
    int,
))
    requires
        0 <= k < per_rule(g, ord, f).len(),
    ensures
        ord.contains(res.0),
        g.dom().contains(res.0),
        0 <= res.1 < f(res.0).len(),
        f(res.0)[res.1] == per_rule(g, ord, f)[k],
    decreases ord.len(),
{
    let prev = per_rule(g, ord.drop_last(), f);
    if k < prev.len() {
        let (r, j) = lemma_per_rule_member(g, ord.drop_last(), f, k);
        assert(ord.drop_last().contains(r));
        let q = choose|q: int| 0 <= q < ord.drop_last().len() && ord.drop_last()[q] == r;
        assert(ord[q] == r);
        (r, j)
    } else {
        assert(ord[ord.len() - 1] == ord.last());
        (ord.last(), k - prev.len())
    }
}

/// Every ordered-choice shadowing finding carries a certificate that the independent checker
/// accepts: its path resolves (without fault) to an ordered choice of the rule, and the earlier
/// alternative passes the claimed verdict on the later one under the rule's selection semantics.
pub proof fn lemma_findings_certify(g: Map<Seq<char>, ASTNode>, ord: Seq<Seq<char>>, a: Option<Annotations>, issue: ShadowingIssue)
    requires
        shadowing_issues(g, ord, a).contains(issue@),
    ensures
        cert_path_ok(g, certificate_of(issue)),
        unreachability_holds(g, a, certificate_of(issue)),
{
    let f = |r: Seq<char>| walk(g[r]@, root_path(), shadow_emit(r, selection_of(a, r)));
    let all = shadowing_issues(g, ord, a);
    let k = choose|k: int| 0 <= k < all.len() && all[k] == issue@;
    assert(all == per_rule(g, ord, f));
    let (r, j) = lemma_per_rule_member(g, ord, f, k);
    let sem = selection_of(a, r);
    lemma_bounded(g[r]);
    let extra = lemma_walk_finding(g[r]@, root_path(), r, sem, j);
    let y = walk(g[r]@, root_path(), shadow_emit(r, sem))[j];
    assert(y == issue@);
    assert(no_slash(root_path()));
    lemma_split_no_slash(root_path());
    let segs = split_slash(issue.node_path@);
    assert(segs == seq![root_path()] + extra);
    assert(segs.drop_first() =~= extra);
    let c = certificate_of(issue);
    assert(c.rule@ == r);
    match nav(g[r]@, extra) {
        NavOutcome::Found(SpecNode::Or(alts)) => {
            assert(resolve_path(g[r]@, issue.node_path@) == NavOutcome::Found(SpecNode::Or(alts)));
            assert(finding_ok(alts, sem, y));
            match issue.reason {
                ShadowingReason::FixedTerminalPrefix => {
                    assert(alts[y.by as int] != alts[y.shadowed as int]);
                },
                _ => {},
            }
        },
        _ => {},
    }
}


/// Under first-success commit (nothing blocks or reorders the earlier alternative), an earlier
/// alternative that is a non-empty fixed-terminal sequence equal to the first leading fixed
/// terminals of a different later alternative (as many or more of them) passes the
/// fixed-terminal-prefix verdict on it, and the later alternative is reported.
pub proof fn lemma_fixed_prefix_reported(sem: SelectionView, alts: Seq<SpecNode>, i: int, j: int, prefix: Seq<Seq<char>>)
    requires
        fixed_prefix_applies(sem),
        0 <= i < j < alts.len(),
        alts[i] != alts[j],
        fixed_seq(alts[i]) == Some(prefix),
        prefix.len() > 0,
        leading_fixed(alts[j]).len() >= prefix.len(),
        leading_fixed(alts[j]).take(prefix.len() as int) == prefix,
    ensures
        pair_reason(sem, alts, i, j) == Some(ShadowingReason::FixedTerminalPrefix),
        first_shadower(sem, alts, j, j as nat) is Some,
{
    lemma_first_shadower_found(sem, alts, i, j, j as nat);
}

proof fn lemma_first_shadower_found(sem: SelectionView, alts: Seq<SpecNode>, i: int, j: int, upto: nat)
    requires
        0 <= i < upto,
        pair_reason(sem, alts, i, j) is Some,
    ensures
        first_shadower(sem, alts, j, upto) is Some,
    decreases upto,
{
    if i < upto - 1 {
        lemma_first_shadower_found(sem, alts, i, j, (upto - 1) as nat);
    }
}

} // verus!
