//! Semantic annotations: the directives attached to rules (rule-level, per-branch, and
//! mid-sequence) that the analyses consult, and the selection semantics they resolve to.
use vstd::prelude::*;
use crate::names::{StrMap, str_eq};
use crate::walk::{concat_map, lemma_concat_map_push};
use crate::return_ast::BranchAnnotation;

verus! {

broadcast use vstd::std_specs::vec::axiom_vec_index_decreases;

/// How a rule's ordered choice selects among matching alternatives.
#[derive(Debug, Clone, Copy, PartialEq, Eq, Structural)]
pub enum BranchPolicy {
    /// Every alternative is tried; the longest match wins (the default).
    LongestMatch,
    /// Every alternative is tried; the highest priority wins.
    PriorityFirst,
    /// The first alternative that succeeds is taken.
    Ordered,
}

/// How ties between equally good alternatives are broken.
#[derive(Debug, Clone, Copy, PartialEq, Eq, Structural)]
pub enum Associativity {
    /// The earlier alternative wins a tie (the default).
    Left,
    /// The later alternative wins a tie.
    Right,
    /// A tie fails the whole choice.
    NonAssoc,
}

/// When a predicate is evaluated.
#[derive(Debug, Clone, Copy, PartialEq, Eq, Structural)]
pub enum PredicatePhase {
    /// Before the rule is entered (the default).
    Pre,
    /// After an alternative matched, deciding whether it is taken.
    Branch,
    /// After the rule matched.
    Post,
}

/// A value inside a predicate expression.
#[derive(Debug, PartialEq, Eq)]
pub enum PredicateValue {
    StringLit(String),
    IdentLit(String),
    /// A reference to a matched element or a bound argument (`$1`, `$k`, ...).
    ArgRef(String),
    IntLit(i64),
    /// An attribute of the fact a primitive call finds.
    AttributeOf { call: Box<PrimitiveCall>, attribute: String },
}

/// A call of a predicate primitive such as `has_fact(kind, name)`.
#[derive(Debug, PartialEq, Eq)]
pub struct PrimitiveCall {
    pub name: String,
    pub args: Vec<PredicateValue>,
}

/// A predicate expression.
#[derive(Debug, PartialEq, Eq)]
pub enum PredicateExpr {
    Call(PrimitiveCall),
    Not(Box<PredicateExpr>),
    And(Box<PredicateExpr>, Box<PredicateExpr>),
    Or(Box<PredicateExpr>, Box<PredicateExpr>),
    Compare { lhs: PredicateValue, op: String, rhs: PredicateValue },
    In { lhs: PredicateValue, set: Vec<PredicateValue> },
}

/// One semantic directive.
#[derive(Debug, PartialEq, Eq)]
pub enum SemanticAnnotation {
    /// `@profiles: [..]`: the grammar profiles under which the rule is present.
    Profiles(Vec<String>),
    /// `@branch_policy`.
    BranchPolicy(BranchPolicy),
    /// `@associativity`.
    Associativity(Associativity),
    /// `@priority: [..]`: one priority per alternative, in order.
    Priority(Vec<i64>),
    /// `@deterministic_group`: whether partition rotation is enabled.
    DeterministicGroup(bool),
    /// `@emit_fact` of a fact of kind `kind`.
    EmitFact { kind: String },
    /// `@predicate`.
    Predicate { expr: PredicateExpr, phase: PredicatePhase },
    /// `@import_from_library`.
    ImportFromLibrary { kind: String, package: String, name_from: String },
    /// Any other directive, by name.
    Other { name: String },
}

/// A directive placed between two elements of a branch.
#[derive(Debug, PartialEq, Eq)]
pub struct MidSequenceAnnotation {
    pub position: usize,
    pub annotation: SemanticAnnotation,
}

/// A copy of a predicate value.
pub(crate) fn copy_value(v: &PredicateValue) -> (r: PredicateValue)
    decreases v, 1nat,
{
    match v {
        PredicateValue::StringLit(s) => PredicateValue::StringLit(s.clone()),
        PredicateValue::IdentLit(s) => PredicateValue::IdentLit(s.clone()),
        PredicateValue::ArgRef(s) => PredicateValue::ArgRef(s.clone()),
        PredicateValue::IntLit(n) => PredicateValue::IntLit(*n),
        PredicateValue::AttributeOf { call, attribute } => PredicateValue::AttributeOf {
            call: Box::new(copy_call(call)),
            attribute: attribute.clone(),
        },
    }
}

/// A copy of a list of predicate values.
pub(crate) fn copy_values(v: &Vec<PredicateValue>) -> (r: Vec<PredicateValue>)
    decreases v, 0nat,
{
    let mut out: Vec<PredicateValue> = Vec::new();
    let mut i: usize = 0;
    while i < v.len()
        invariant
            i <= v@.len(),
        decreases v@.len() - i,
    {
        assert(decreases_to!(v => v@[i as int]));
        out.push(copy_value(&v[i]));
        i = i + 1;
    }
    out
}

/// A copy of a primitive call.
pub(crate) fn copy_call(c: &PrimitiveCall) -> (r: PrimitiveCall)
    decreases c, 2nat,
{
    PrimitiveCall { name: c.name.clone(), args: copy_values(&c.args) }
}

/// A copy of a predicate expression.
pub(crate) fn copy_expr(e: &PredicateExpr) -> (r: PredicateExpr)
    decreases e,
{
    match e {
        PredicateExpr::Call(c) => PredicateExpr::Call(copy_call(c)),
        PredicateExpr::Not(a) => PredicateExpr::Not(Box::new(copy_expr(a))),
        PredicateExpr::And(a, b) => PredicateExpr::And(Box::new(copy_expr(a)), Box::new(copy_expr(b))),
        PredicateExpr::Or(a, b) => PredicateExpr::Or(Box::new(copy_expr(a)), Box::new(copy_expr(b))),
        PredicateExpr::Compare { lhs, op, rhs } => PredicateExpr::Compare {
            lhs: copy_value(lhs),
            op: op.clone(),
            rhs: copy_value(rhs),
        },
        PredicateExpr::In { lhs, set } => PredicateExpr::In { lhs: copy_value(lhs), set: copy_values(set) },
    }
}

/// A copy of a semantic directive.
pub(crate) fn copy_annotation(a: &SemanticAnnotation) -> (r: SemanticAnnotation)
{
    match a {
        SemanticAnnotation::Profiles(list) => SemanticAnnotation::Profiles(crate::names::clone_strings(list)),
        SemanticAnnotation::BranchPolicy(p) => SemanticAnnotation::BranchPolicy(*p),
        SemanticAnnotation::Associativity(x) => SemanticAnnotation::Associativity(*x),
        SemanticAnnotation::Priority(v) => SemanticAnnotation::Priority(v.clone()),
        SemanticAnnotation::DeterministicGroup(b) => SemanticAnnotation::DeterministicGroup(*b),
        SemanticAnnotation::EmitFact { kind } => SemanticAnnotation::EmitFact { kind: kind.clone() },
        SemanticAnnotation::Predicate { expr, phase } => SemanticAnnotation::Predicate {
            expr: copy_expr(expr),
            phase: *phase,
        },
        SemanticAnnotation::ImportFromLibrary { kind, package, name_from } => SemanticAnnotation::ImportFromLibrary {
            kind: kind.clone(),
            package: package.clone(),
            name_from: name_from.clone(),
        },
        SemanticAnnotation::Other { name } => SemanticAnnotation::Other { name: name.clone() },
    }
}

/// A copy of a list of semantic directives.
pub(crate) fn copy_annotations(v: &Vec<SemanticAnnotation>) -> (r: Vec<SemanticAnnotation>)
    ensures
        r@.len() == v@.len(),
{
    let mut out: Vec<SemanticAnnotation> = Vec::new();
    let mut i: usize = 0;
    while i < v.len()
        invariant
            i <= v@.len(),
            out@.len() == i,
        decreases v@.len() - i,
    {
        out.push(copy_annotation(&v[i]));
        i = i + 1;
    }
    out
}

/// A copy of a list of mid-sequence directives.
pub(crate) fn copy_mid_annotations(v: &Vec<MidSequenceAnnotation>) -> (r: Vec<MidSequenceAnnotation>)
    ensures
        r@.len() == v@.len(),
{
    let mut out: Vec<MidSequenceAnnotation> = Vec::new();
    let mut i: usize = 0;
    while i < v.len()
        invariant
            i <= v@.len(),
            out@.len() == i,
        decreases v@.len() - i,
    {
        out.push(MidSequenceAnnotation { position: v[i].position, annotation: copy_annotation(&v[i].annotation) });
        i = i + 1;
    }
    out
}

/// The directives of a grammar, keyed by rule name: rule-level, per branch, and per branch
/// between elements.
pub struct Annotations {
    pub semantic_annotations: StrMap<Vec<SemanticAnnotation>>,
    pub branch_semantic_annotations: StrMap<Vec<Vec<SemanticAnnotation>>>,
    pub branch_mid_sequence_semantic_annotations: StrMap<Vec<Vec<MidSequenceAnnotation>>>,
    /// Per branch, the return annotation the branch declares, if any.
    pub branch_return_annotations: StrMap<Vec<Option<BranchAnnotation>>>,
}

impl Annotations {
    /// No directives at all.
    pub fn new() -> (r: Annotations)
        ensures
            r.semantic_annotations@ == Map::<Seq<char>, Vec<SemanticAnnotation>>::empty(),
            r.branch_semantic_annotations@ == Map::<Seq<char>, Vec<Vec<SemanticAnnotation>>>::empty(),
            r.branch_mid_sequence_semantic_annotations@ == Map::<Seq<char>, Vec<Vec<MidSequenceAnnotation>>>::empty(),
            r.branch_return_annotations@ == Map::<Seq<char>, Vec<Option<BranchAnnotation>>>::empty(),
    {
        Annotations {
            semantic_annotations: StrMap::new(),
            branch_semantic_annotations: StrMap::new(),
            branch_mid_sequence_semantic_annotations: StrMap::new(),
            branch_return_annotations: StrMap::new(),
        }
    }
}

impl Default for Annotations {
    fn default() -> (r: Annotations)
        ensures
            r.semantic_annotations@ == Map::<Seq<char>, Vec<SemanticAnnotation>>::empty(),
            r.branch_semantic_annotations@ == Map::<Seq<char>, Vec<Vec<SemanticAnnotation>>>::empty(),
            r.branch_mid_sequence_semantic_annotations@ == Map::<Seq<char>, Vec<Vec<MidSequenceAnnotation>>>::empty(),
            r.branch_return_annotations@ == Map::<Seq<char>, Vec<Option<BranchAnnotation>>>::empty(),
    {
        Annotations::new()
    }
}

/// The annotations behind an optional reference.
pub open spec fn ann_opt(a: Option<&Annotations>) -> Option<Annotations> {
    match a {
        Some(x) => Some(*x),
        None => None,
    }
}

// ---------------------------------------------------------------------------------------------
// The directives of one rule
// ---------------------------------------------------------------------------------------------

/// The rule-level directives of `r`.
pub open spec fn rule_level(a: Annotations, r: Seq<char>) -> Seq<SemanticAnnotation> {
    if a.semantic_annotations@.dom().contains(r) {
        a.semantic_annotations@[r]@
    } else {
        Seq::empty()
    }
}

/// The per-branch directives of `r`, branch after branch.
pub open spec fn branch_level(a: Annotations, r: Seq<char>) -> Seq<SemanticAnnotation> {
    if a.branch_semantic_annotations@.dom().contains(r) {
        concat_map(a.branch_semantic_annotations@[r]@, |b: Vec<SemanticAnnotation>| b@)
    } else {
        Seq::empty()
    }
}

pub open spec fn mid_annotations(b: Seq<MidSequenceAnnotation>) -> Seq<SemanticAnnotation> {
    b.map_values(|m: MidSequenceAnnotation| m.annotation)
}

/// The mid-sequence directives of `r`, branch after branch.
pub open spec fn mid_level(a: Annotations, r: Seq<char>) -> Seq<SemanticAnnotation> {
    if a.branch_mid_sequence_semantic_annotations@.dom().contains(r) {
        concat_map(a.branch_mid_sequence_semantic_annotations@[r]@, |b: Vec<MidSequenceAnnotation>| mid_annotations(b@))
    } else {
        Seq::empty()
    }
}

/// Every directive of `r`, on every surface.
pub open spec fn all_of_rule(a: Annotations, r: Seq<char>) -> Seq<SemanticAnnotation> {
    rule_level(a, r) + branch_level(a, r) + mid_level(a, r)
}

pub open spec fn is_branch_predicate(x: SemanticAnnotation) -> bool {
    x matches SemanticAnnotation::Predicate { phase: PredicatePhase::Branch, .. }
}

/// Is one of `s` a branch-phase predicate?
pub open spec fn any_branch_pred(s: Seq<SemanticAnnotation>) -> bool {
    exists|i: int| 0 <= i < s.len() && is_branch_predicate(#[trigger] s[i])
}

/// Does `r` carry a branch-phase predicate on any surface?
pub open spec fn has_branch_predicates(a: Option<Annotations>, r: Seq<char>) -> bool {
    match a {
        Some(a) => any_branch_pred(all_of_rule(a, r)),
        None => false,
    }
}

fn any_branch_predicate(v: &Vec<SemanticAnnotation>) -> (r: bool)
    ensures
        r == any_branch_pred(v@),
{
    let mut i: usize = 0;
    while i < v.len()
        invariant
            i <= v@.len(),
            forall|j: int| 0 <= j < i ==> !is_branch_predicate(#[trigger] v@[j]),
        decreases v@.len() - i,
    {
        if let SemanticAnnotation::Predicate { phase: PredicatePhase::Branch, .. } = &v[i] {
            return true;
        }
        i = i + 1;
    }
    false
}

proof fn lemma_exists_concat(a: Seq<SemanticAnnotation>, b: Seq<SemanticAnnotation>)
    ensures
        any_branch_pred(a + b) == (any_branch_pred(a) || any_branch_pred(b)),
{
    if exists|i: int| 0 <= i < (a + b).len() && is_branch_predicate(#[trigger] (a + b)[i]) {
        let i = choose|i: int| 0 <= i < (a + b).len() && is_branch_predicate(#[trigger] (a + b)[i]);
        if i < a.len() {
            assert(is_branch_predicate(a[i]));
        } else {
            assert(is_branch_predicate(b[i - a.len()]));
        }
    }
    if exists|i: int| 0 <= i < a.len() && is_branch_predicate(#[trigger] a[i]) {
        let i = choose|i: int| 0 <= i < a.len() && is_branch_predicate(#[trigger] a[i]);
        assert((a + b)[i] == a[i]);
    }
    if exists|i: int| 0 <= i < b.len() && is_branch_predicate(#[trigger] b[i]) {
        let i = choose|i: int| 0 <= i < b.len() && is_branch_predicate(#[trigger] b[i]);
        assert((a + b)[i + a.len()] == b[i]);
    }
}

/// Does `r` carry a branch-phase predicate on any surface? Such a predicate can block an
/// alternative after it matched, so it voids every inter-alternative deadness argument.
pub fn rule_has_branch_phase_predicates(annotations: Option<&Annotations>, rule: &str) -> (r: bool)
    ensures
        r == has_branch_predicates(ann_opt(annotations), rule@),
{
    let a = match annotations {
        Some(a) => a,
        None => return false,
    };
    let ghost rv = rule@;
    let r1 = match a.semantic_annotations.get(rule) {
        Some(v) => {
            let b = any_branch_predicate(v);
            proof {
                assert(rule_level(*a, rv) == v@);
            }
            b
        },
        None => {
            proof {
                assert(rule_level(*a, rv) =~= Seq::<SemanticAnnotation>::empty());
            }
            false
        },
    };
    assert(r1 == any_branch_pred(rule_level(*a, rv)));
    let ghost bf = |b: Vec<SemanticAnnotation>| b@;
    let mut r2 = false;
    match a.branch_semantic_annotations.get(rule) {
        Some(bs) => {
            let mut i: usize = 0;
            while i < bs.len()
                invariant
                    i <= bs@.len(),
                    bf == (|b: Vec<SemanticAnnotation>| b@),
                    r2 == any_branch_pred(concat_map(bs@.take(i as int), bf)),
                decreases bs@.len() - i,
            {
                proof {
                    assert(bs@.take(i + 1) =~= bs@.take(i as int).push(bs@[i as int]));
                    lemma_concat_map_push(bs@.take(i as int), bs@[i as int], bf);
                    lemma_exists_concat(concat_map(bs@.take(i as int), bf), bs@[i as int]@);
                }
                let here = any_branch_predicate(&bs[i]);
                r2 = r2 || here;
                i = i + 1;
            }
            proof {
                assert(bs@.take(bs@.len() as int) =~= bs@);
                assert(bf =~= (|b: Vec<SemanticAnnotation>| b@));
                assert(branch_level(*a, rv) == concat_map(bs@, bf));
            }
        },
        None => {
            proof {
                assert(branch_level(*a, rv) =~= Seq::<SemanticAnnotation>::empty());
            }
        },
    }
    assert(r2 == any_branch_pred(branch_level(*a, rv)));
    let ghost mf = |b: Vec<MidSequenceAnnotation>| mid_annotations(b@);
    let mut r3 = false;
    match a.branch_mid_sequence_semantic_annotations.get(rule) {
        Some(bs) => {
            let mut i: usize = 0;
            while i < bs.len()
                invariant
                    i <= bs@.len(),
                    mf == (|b: Vec<MidSequenceAnnotation>| mid_annotations(b@)),
                    r3 == any_branch_pred(concat_map(bs@.take(i as int), mf)),
                decreases bs@.len() - i,
            {
                proof {
                    assert(bs@.take(i + 1) =~= bs@.take(i as int).push(bs@[i as int]));
                    lemma_concat_map_push(bs@.take(i as int), bs@[i as int], mf);
                    lemma_exists_concat(concat_map(bs@.take(i as int), mf), mid_annotations(bs@[i as int]@));
                }
                let row = &bs[i];
                let mut j: usize = 0;
                let mut here = false;
                while j < row.len()
                    invariant
                        j <= row@.len(),
                        here == exists|k: int| 0 <= k < j && is_branch_predicate(#[trigger] mid_annotations(row@)[k]),
                    decreases row@.len() - j,
                {
                    if let SemanticAnnotation::Predicate { phase: PredicatePhase::Branch, .. } = &row[j].annotation {
                        here = true;
                    }
                    proof {
                        assert(mid_annotations(row@)[j as int] == row@[j as int].annotation);
                    }
                    j = j + 1;
                }
                proof {
                    assert(here == any_branch_pred(mid_annotations(row@)));
                }
                r3 = r3 || here;
                i = i + 1;
            }
            proof {
                assert(bs@.take(bs@.len() as int) =~= bs@);
                assert(mf =~= (|b: Vec<MidSequenceAnnotation>| mid_annotations(b@)));
                assert(mid_level(*a, rv) == concat_map(bs@, mf));
            }
        },
        None => {
            proof {
                assert(mid_level(*a, rv) =~= Seq::<SemanticAnnotation>::empty());
            }
        },
    }
    assert(r3 == any_branch_pred(mid_level(*a, rv)));
    proof {
        let a0 = *a;
        lemma_exists_concat(rule_level(a0, rv) + branch_level(a0, rv), mid_level(a0, rv));
        lemma_exists_concat(rule_level(a0, rv), branch_level(a0, rv));
        assert(all_of_rule(a0, rv) == rule_level(a0, rv) + branch_level(a0, rv) + mid_level(a0, rv));
        assert(has_branch_predicates(Some(a0), rv) == (r1 || r2 || r3));
        assert(annotations == Some(a));
    }
    r1 || r2 || r3
}

// ---------------------------------------------------------------------------------------------
// Selection semantics
// ---------------------------------------------------------------------------------------------

/// The first `@branch_policy` among `s`.
pub open spec fn find_policy(s: Seq<SemanticAnnotation>) -> Option<BranchPolicy>
    decreases s.len(),
{
    if s.len() == 0 {
        None
    } else {
        match find_policy(s.drop_last()) {
            Some(p) => Some(p),
            None => match s.last() {
                SemanticAnnotation::BranchPolicy(p) => Some(p),
                _ => None,
            },
        }
    }
}

/// The first `@associativity` among `s`.
pub open spec fn find_assoc(s: Seq<SemanticAnnotation>) -> Option<Associativity>
    decreases s.len(),
{
    if s.len() == 0 {
        None
    } else {
        match find_assoc(s.drop_last()) {
            Some(p) => Some(p),
            None => match s.last() {
                SemanticAnnotation::Associativity(p) => Some(p),
                _ => None,
            },
        }
    }
}

/// The first `@priority` list among `s`.
pub open spec fn find_priority(s: Seq<SemanticAnnotation>) -> Option<Seq<i64>>
    decreases s.len(),
{
    if s.len() == 0 {
        None
    } else {
        match find_priority(s.drop_last()) {
            Some(p) => Some(p),
            None => match s.last() {
                SemanticAnnotation::Priority(p) => Some(p@),
                _ => None,
            },
        }
    }
}

/// The first `@deterministic_group` setting among `s`.
pub open spec fn find_group(s: Seq<SemanticAnnotation>) -> Option<bool>
    decreases s.len(),
{
    if s.len() == 0 {
        None
    } else {
        match find_group(s.drop_last()) {
            Some(p) => Some(p),
            None => match s.last() {
                SemanticAnnotation::DeterministicGroup(p) => Some(p),
                _ => None,
            },
        }
    }
}

/// The selection semantics of one rule, as the analyses see them.
pub struct SelectionView {
    pub policy: BranchPolicy,
    pub assoc: Associativity,
    pub partition: bool,
    pub branch_predicates: bool,
    pub priorities: Seq<i64>,
}

/// The effective selection semantics of `r`: the first rule-level directive of each kind, with
/// the defaults `longest_match`, `left`, no partition rotation and no priorities.
pub open spec fn selection_of(a: Option<Annotations>, r: Seq<char>) -> SelectionView {
    match a {
        Some(ann) => {
            let s = rule_level(ann, r);
            SelectionView {
                policy: match find_policy(s) {
                    Some(p) => p,
                    None => BranchPolicy::LongestMatch,
                },
                assoc: match find_assoc(s) {
                    Some(p) => p,
                    None => Associativity::Left,
                },
                partition: find_group(s) == Some(true),
                branch_predicates: has_branch_predicates(a, r),
                priorities: match find_priority(s) {
                    Some(p) => p,
                    None => Seq::empty(),
                },
            }
        },
        None => SelectionView {
            policy: BranchPolicy::LongestMatch,
            assoc: Associativity::Left,
            partition: false,
            branch_predicates: false,
            priorities: Seq::empty(),
        },
    }
}

/// The priority of alternative `i`: its entry in the `@priority` list, else 0.
pub open spec fn priority_at(sem: SelectionView, i: int) -> int {
    if 0 <= i < sem.priorities.len() {
        sem.priorities[i] as int
    } else {
        0
    }
}

/// The resolved selection semantics of one rule.
pub struct RuleSelectionSemantics {
    pub policy: BranchPolicy,
    pub associativity: Associativity,
    pub partition_enabled: bool,
    pub has_branch_phase_predicates: bool,
    pub priorities: Vec<i64>,
}

impl RuleSelectionSemantics {
    pub open spec fn view(&self) -> SelectionView {
        SelectionView {
            policy: self.policy,
            assoc: self.associativity,
            partition: self.partition_enabled,
            branch_predicates: self.has_branch_phase_predicates,
            priorities: self.priorities@,
        }
    }

    /// Resolve the selection semantics of `rule` from `annotations` (`None`: every default).
    pub fn resolve(annotations: Option<&Annotations>, rule: &str) -> (r: RuleSelectionSemantics)
        ensures
            r.view() == selection_of(ann_opt(annotations), rule@),
    {
        let bp = rule_has_branch_phase_predicates(annotations, rule);
        let mut policy: Option<BranchPolicy> = None;
        let mut assoc: Option<Associativity> = None;
        let mut group: Option<bool> = None;
        let mut prios: Option<&Vec<i64>> = None;
        let ann = match annotations {
            Some(a) => a,
            None => {
                return RuleSelectionSemantics {
                    policy: BranchPolicy::LongestMatch,
                    associativity: Associativity::Left,
                    partition_enabled: false,
                    has_branch_phase_predicates: false,
                    priorities: Vec::new(),
                };
            },
        };
        let ghost s = rule_level(*ann, rule@);
        match ann.semantic_annotations.get(rule) {
            Some(v) => {
                let mut i: usize = 0;
                while i < v.len()
                    invariant
                        s == v@,
                        i <= v@.len(),
                        policy == find_policy(s.take(i as int)),
                        assoc == find_assoc(s.take(i as int)),
                        group == find_group(s.take(i as int)),
                        match prios {
                            Some(p) => find_priority(s.take(i as int)) == Some(p@),
                            None => find_priority(s.take(i as int)) is None,
                        },
                    decreases v@.len() - i,
                {
                    proof {
                        assert(s.take(i + 1).drop_last() =~= s.take(i as int));
                        assert(s.take(i + 1).last() == s[i as int]);
                    }
                    match &v[i] {
                        SemanticAnnotation::BranchPolicy(p) => {
                            if policy.is_none() {
                                policy = Some(*p);
                            }
                        },
                        SemanticAnnotation::Associativity(p) => {
                            if assoc.is_none() {
                                assoc = Some(*p);
                            }
                        },
                        SemanticAnnotation::DeterministicGroup(p) => {
                            if group.is_none() {
                                group = Some(*p);
                            }
                        },
                        SemanticAnnotation::Priority(p) => {
                            if prios.is_none() {
                                prios = Some(p);
                            }
                        },
                        _ => {},
                    }
                    i = i + 1;
                }
                proof {
                    assert(s.take(v@.len() as int) =~= s);
                }
            },
            None => {
                proof {
                    assert(s.take(0) =~= s);
                }
            },
        }
        let priorities = match prios {
            Some(p) => {
                let mut out: Vec<i64> = Vec::new();
                let mut k: usize = 0;
                while k < p.len()
                    invariant
                        k <= p@.len(),
                        out@ == p@.take(k as int),
                    decreases p@.len() - k,
                {
                    out.push(p[k]);
                    k = k + 1;
                    proof {
                        assert(out@ =~= p@.take(k as int));
                    }
                }
                proof {
                    assert(p@.take(p@.len() as int) =~= p@);
                }
                out
            },
            None => Vec::new(),
        };
        RuleSelectionSemantics {
            policy: match policy {
                Some(p) => p,
                None => BranchPolicy::LongestMatch,
            },
            associativity: match assoc {
                Some(p) => p,
                None => Associativity::Left,
            },
            partition_enabled: match group {
                Some(g) => g,
                None => false,
            },
            has_branch_phase_predicates: bp,
            priorities,
        }
    }

    /// The priority of alternative `i`.
    pub fn priority(&self, i: usize) -> (r: i64)
        ensures
            r as int == priority_at(self.view(), i as int),
    {
        if i < self.priorities.len() {
            self.priorities[i]
        } else {
            0
        }
    }
}

} // verus!
