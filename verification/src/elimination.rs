//! Indirect left-recursion elimination: the rewrite of a starvation-safe cycle into
//! `X := X_lr_base ( X_lr_suffix )*` with sheared clones, and what the pass reports.
use vstd::prelude::*;
use crate::annotations::{Annotations, MidSequenceAnnotation, SemanticAnnotation, copy_annotation, copy_annotations, copy_mid_annotations};
use crate::names::StrMap;
use crate::return_ast::{BranchAnnotation, copy_branch_option};
use crate::ast::{ASTNode, ASTValue, TokenValue};
use crate::lr_plan::{
    ChainRoute, IndirectChainCandidate, MAX_ROUTES_PER_BASE, alt_at, alt_count, candidate_safe, left_recursive_rules,
    render_elements, survey_indirect_left_recursion,
};
use crate::left_rec::detect_left_recursion;
use crate::wellformed::{IssueView, WellformednessIssue};
use crate::names::strings_contain;
use crate::return_ast::{LrChainWrapperSpec, UnifiedReturnAST, copy_template};
use crate::names::{NameSet, strs_view};
use crate::text::{decimal, digit_char, push_decimal};
use crate::walk::{concat_map, lemma_concat_map_push};

verus! {

/// A candidate the driver considered and declined, with the reason.
#[derive(Debug, Clone, PartialEq, Eq)]
pub struct PlanRefusal {
    pub base_rule: String,
    pub reason: String,
}

/// Which candidates the driver may consider.
#[derive(Debug, Clone, Copy, PartialEq, Eq, Structural)]
pub enum CandidateAdmission {
    /// A candidate is considered when no rule outliving the rewrite can starve it.
    StarvationSafe,
    /// Also the candidates a call-site guard would make safe, admitted without the guard: an
    /// instrument for plan-stage refusals only.
    GuardFeasibleDryRun,
}

impl CandidateAdmission {
    /// Does this admission mode narrate what it does? Only the shipped one.
    pub fn narrates(self) -> (r: bool)
        ensures
            r == (self == CandidateAdmission::StarvationSafe),
    {
        match self {
            CandidateAdmission::StarvationSafe => true,
            CandidateAdmission::GuardFeasibleDryRun => false,
        }
    }
}

/// One emitted guarded clone chain.
#[derive(Debug, Clone, PartialEq, Eq)]
pub struct SynthesizedGuard {
    /// The base rule whose chain this guards.
    pub base_rule: String,
    /// The guarded stand-in for `base_rule`.
    pub guarded_base_rule: String,
    /// The transparent rules cloned, deepest first, `base_rule` last.
    pub chain: Vec<String>,
    /// `loop+trailing`, `loop` or `trailing`: which positions carry the lookahead.
    pub positions: String,
    /// The follow restriction both lookaheads test, rendered.
    pub residual: String,
    /// The holder call sites repointed, as `rule alt#N`.
    pub call_sites: Vec<String>,
    /// Every rule name this chain synthesized, in emission order.
    pub rules: Vec<String>,
}

/// What the elimination did.
#[derive(Debug, Clone, PartialEq, Eq)]
pub struct IndirectEliminationOutcome {
    /// Base rules rewritten, in application order.
    pub eliminated_base_rules: Vec<String>,
    /// Clone rules synthesized, in creation order.
    pub synthesized_clone_rules: Vec<String>,
    /// The call-site guard chains synthesized, in creation order.
    pub synthesized_guards: Vec<SynthesizedGuard>,
    /// Candidates that could not be planned, with the reason.
    pub refusals: Vec<PlanRefusal>,
}

/// The rules of each guard, guard after guard.
pub open spec fn guard_rules(v: Seq<SynthesizedGuard>) -> Seq<Seq<char>> {
    concat_map(v, |g: SynthesizedGuard| strs_view(g.rules@))
}

impl IndirectEliminationOutcome {
    /// Nothing eliminated, synthesized or refused.
    pub fn new() -> (r: IndirectEliminationOutcome)
        ensures
            r.eliminated_base_rules@.len() == 0,
            r.synthesized_clone_rules@.len() == 0,
            r.synthesized_guards@.len() == 0,
            r.refusals@.len() == 0,
    {
        IndirectEliminationOutcome {
            eliminated_base_rules: Vec::new(),
            synthesized_clone_rules: Vec::new(),
            synthesized_guards: Vec::new(),
            refusals: Vec::new(),
        }
    }

    /// Every guard rule name, in emission order.
    pub fn guard_rule_names(&self) -> (r: Vec<String>)
        ensures
            strs_view(r@) == guard_rules(self.synthesized_guards@),
    {
        let ghost f = |g: SynthesizedGuard| strs_view(g.rules@);
        let mut out: Vec<String> = Vec::new();
        let mut i: usize = 0;
        while i < self.synthesized_guards.len()
            invariant
                f == (|g: SynthesizedGuard| strs_view(g.rules@)),
                i <= self.synthesized_guards@.len(),
                strs_view(out@) == concat_map(self.synthesized_guards@.take(i as int), f),
            decreases self.synthesized_guards@.len() - i,
        {
            let guard = &self.synthesized_guards[i];
            let ghost base = strs_view(out@);
            let mut k: usize = 0;
            while k < guard.rules.len()
                invariant
                    k <= guard.rules@.len(),
                    strs_view(out@) == base + strs_view(guard.rules@).take(k as int),
                decreases guard.rules@.len() - k,
            {
                let ghost before = out@;
                out.push(guard.rules[k].clone());
                proof {
                    assert(strs_view(out@) =~= strs_view(before).push(guard.rules@[k as int]@));
                    assert(strs_view(guard.rules@).take(k + 1) =~= strs_view(guard.rules@).take(k as int).push(
                        strs_view(guard.rules@)[k as int],
                    ));
                    assert(strs_view(out@) =~= base + strs_view(guard.rules@).take(k + 1));
                }
                k = k + 1;
            }
            proof {
                assert(strs_view(guard.rules@).take(k as int) =~= strs_view(guard.rules@));
                assert(self.synthesized_guards@.take(i + 1) =~= self.synthesized_guards@.take(i as int).push(*guard));
                lemma_concat_map_push(self.synthesized_guards@.take(i as int), *guard, f);
            }
            i = i + 1;
        }
        proof {
            assert(self.synthesized_guards@.take(i as int) =~= self.synthesized_guards@);
        }
        out
    }
}

impl Default for IndirectEliminationOutcome {
    fn default() -> (r: IndirectEliminationOutcome)
        ensures
            r.eliminated_base_rules@.len() == 0,
            r.synthesized_clone_rules@.len() == 0,
            r.synthesized_guards@.len() == 0,
            r.refusals@.len() == 0,
    {
        IndirectEliminationOutcome::new()
    }
}

/// What a dry run found: the outcome, and the left-recursive rule rows before and after.
#[derive(Debug, Clone, PartialEq, Eq)]
pub struct GuardDryRun {
    pub outcome: IndirectEliminationOutcome,
    pub cycle_rows_before: usize,
    pub cycle_rows_after: usize,
}

/// A reference to the rule `name`.
pub fn rule_reference_node(name: &str) -> (r: ASTNode)
    ensures
        r@ == ref_node(name@),
{
    let mut parts: Vec<TokenValue> = Vec::new();
    parts.push(TokenValue::String(String::from_str("rule_reference")));
    parts.push(TokenValue::String(name.to_string()));
    proof {
        reveal_strlit("rule_reference");
        assert(crate::ast::token_parts_view(parts@) =~= seq!["rule_reference"@, name@]);
    }
    ASTNode::Atom { value: ASTValue::Token(parts) }
}

/// A reference to the rule `name`, as a model.
pub open spec fn ref_node(name: Seq<char>) -> crate::ast::SpecNode {
    crate::ast::SpecNode::Token(seq!["rule_reference"@, name])
}

/// `body` is `helper ( ... )*`: a reference to `helper` followed by a `*` repetition.
pub open spec fn chain_shape(body: crate::ast::SpecNode, helper: Seq<char>) -> bool {
    &&& body matches crate::ast::SpecNode::Sequence(e)
    &&& body->Sequence_0.len() == 2
    &&& body->Sequence_0[0] == ref_node(helper)
    &&& body->Sequence_0[1] matches crate::ast::SpecNode::Quant(_, q)
    &&& body->Sequence_0[1]->Quant_1 == "*"@
}

/// The ordered choice over `alternatives`; a single alternative stands for itself.
pub fn build_or_node(alternatives: Vec<ASTNode>) -> (r: ASTNode)
    ensures
        r@ == (if alternatives@.len() == 1 {
            alternatives@[0]@
        } else {
            crate::ast::SpecNode::Or(crate::ast::nodes_view(alternatives@))
        }),
{
    let mut alternatives = alternatives;
    if alternatives.len() == 1 {
        alternatives.pop().unwrap()
    } else {
        ASTNode::Or { alternatives }
    }
}

/// The sequence of `elements`; a single element stands for itself.
pub fn build_sequence_node(elements: Vec<ASTNode>) -> (r: ASTNode)
    ensures
        r@ == (if elements@.len() == 1 {
            elements@[0]@
        } else {
            crate::ast::SpecNode::Sequence(crate::ast::nodes_view(elements@))
        }),
{
    let mut elements = elements;
    if elements.len() == 1 {
        elements.pop().unwrap()
    } else {
        ASTNode::Sequence { elements }
    }
}

/// An alternative with its leading element replaced by a reference to `replacement`; a bare
/// reference alternative is its own left corner.
pub fn replace_left_corner(alternative: &ASTNode, replacement: &str) -> (r: ASTNode)
    ensures
        r@ == (match alternative@ {
            crate::ast::SpecNode::Sequence(e) => if e.len() > 0 {
                crate::ast::SpecNode::Sequence(e.update(0, ref_node(replacement@)))
            } else {
                ref_node(replacement@)
            },
            _ => ref_node(replacement@),
        }),
{
    let reference = rule_reference_node(replacement);
    match alternative {
        ASTNode::Sequence { elements } => {
            proof {
                crate::ast::lemma_nodes_view(elements@);
            }
            if elements.len() == 0 {
                reference
            } else {
                let mut rewritten = crate::ast::clone_nodes(elements);
                let ghost cloned = rewritten@;
                proof {
                    crate::ast::lemma_nodes_view(cloned);
                }
                rewritten.set(0, reference);
                proof {
                    crate::ast::lemma_nodes_view(rewritten@);
                    assert forall|i: int| 0 <= i < rewritten@.len() implies #[trigger] crate::ast::nodes_view(rewritten@)[i]
                        == crate::ast::nodes_view(elements@).update(0, ref_node(replacement@))[i] by {
                        if i != 0 {
                            assert(rewritten@[i] == cloned[i]);
                            assert(crate::ast::nodes_view(cloned)[i] == crate::ast::nodes_view(elements@)[i]);
                        }
                    }
                    assert(crate::ast::nodes_view(rewritten@) =~= crate::ast::nodes_view(elements@).update(0, ref_node(replacement@)));
                }
                ASTNode::Sequence { elements: rewritten }
            }
        },
        _ => reference,
    }
}

/// Insert `name` just before `anchor` in the rule order, or append it when `anchor` is absent;
/// a name already present is left where it is.
pub fn insert_before(rule_order: &mut Vec<String>, anchor: &str, name: &str)
    ensures
        strs_view(final(rule_order)@).to_set() == strs_view(old(rule_order)@).to_set().insert(name@),
{
    let ghost o = strs_view(rule_order@);
    if crate::names::strings_contain(rule_order.as_slice(), name) {
        proof {
            assert(o.to_set().insert(name@) =~= o.to_set());
        }
        return;
    }
    let mut position: usize = 0;
    while position < rule_order.len()
        invariant
            position <= rule_order@.len(),
            strs_view(rule_order@) == o,
        decreases rule_order@.len() - position,
    {
        if crate::names::str_eq(rule_order[position].as_str(), anchor) {
            break;
        }
        position = position + 1;
    }
    rule_order.insert(position, name.to_string());
    proof {
        let n = strs_view(rule_order@);
        assert(n =~= o.insert(position as int, name@));
        assert forall|x: Seq<char>| n.to_set().contains(x) == o.to_set().insert(name@).contains(x) by {
            if n.contains(x) {
                let j = choose|j: int| 0 <= j < n.len() && n[j] == x;
                if j < position {
                    assert(o[j] == x);
                } else if j > position {
                    assert(o[j - 1] == x);
                }
            }
            if o.contains(x) {
                let j = choose|j: int| 0 <= j < o.len() && o[j] == x;
                if j < position {
                    assert(n[j] == x);
                } else {
                    assert(n[j + 1] == x);
                }
            }
            if x == name@ {
                assert(n[position as int] == x);
            }
        }
        assert(n.to_set() =~= o.to_set().insert(name@));
    }
}

/// The `index`-th fallback for a taken name: `preferred_index`.
pub open spec fn suffixed(preferred: Seq<char>, index: nat) -> Seq<char> {
    preferred + "_"@ + decimal(index)
}

proof fn lemma_decimal_len(n: nat)
    ensures
        decimal(n).len() >= 1,
        n >= 10 ==> decimal(n).len() >= 2,
    decreases n,
{
    if n >= 10 {
        lemma_decimal_len(n / 10);
    }
}

/// Different numbers have different decimal forms.
proof fn lemma_decimal_injective(a: nat, b: nat)
    requires
        decimal(a) == decimal(b),
    ensures
        a == b,
    decreases a,
{
    lemma_decimal_len(a);
    lemma_decimal_len(b);
    if a < 10 {
        if b >= 10 {
            assert(false);
        }
        assert(decimal(a)[0] == digit_char(a));
        assert(decimal(b)[0] == digit_char(b));
        assert(digit_char(a) as int == '0' as int + a);
        assert(digit_char(b) as int == '0' as int + b);
    } else {
        if b < 10 {
            assert(false);
        }
        let da = decimal(a / 10);
        let db = decimal(b / 10);
        assert(decimal(a) == da.push(digit_char(a % 10)));
        assert(decimal(b) == db.push(digit_char(b % 10)));
        assert(da =~= decimal(a).drop_last());
        assert(db =~= decimal(b).drop_last());
        lemma_decimal_injective(a / 10, b / 10);
        assert(digit_char(a % 10) as int == '0' as int + a % 10);
        assert(digit_char(b % 10) as int == '0' as int + b % 10);
        assert(decimal(a).last() == digit_char(a % 10));
        assert(decimal(b).last() == digit_char(b % 10));
    }
}

proof fn lemma_suffixed_injective(p: Seq<char>, a: nat, b: nat)
    requires
        suffixed(p, a) == suffixed(p, b),
    ensures
        a == b,
{
    reveal_strlit("_");
    let k: int = (p.len() + 1) as int;
    assert(decimal(a) =~= suffixed(p, a).skip(k));
    assert(decimal(b) =~= suffixed(p, b).skip(k));
    lemma_decimal_injective(a, b);
}

/// If the preferred name and every fallback `1..=k` are taken, there are more than `k` taken
/// names.
proof fn lemma_fallbacks_bounded(p: Seq<char>, taken: Set<Seq<char>>, k: nat)
    requires
        taken.finite(),
        taken.contains(p),
        forall|j: nat| 1 <= j <= k ==> taken.contains(#[trigger] suffixed(p, j)),
    ensures
        k < taken.len(),
{
    let f = |i: int| suffixed(p, i as nat);
    let x = vstd::set_lib::set_int_range(1, (k + 1) as int);
    vstd::set_lib::lemma_int_range(1, (k + 1) as int);
    let y = x.map(f);
    assert(vstd::relations::injective_on(f, x)) by {
        assert forall|a: int, b: int| x.contains(a) && x.contains(b) && #[trigger] f(a) == #[trigger] f(b) implies a == b by {
            lemma_suffixed_injective(p, a as nat, b as nat);
        }
    }
    vstd::set_lib::lemma_map_size(x, y, f);
    assert(y.insert(p).subset_of(taken)) by {
        assert forall|s: Seq<char>| y.insert(p).contains(s) implies taken.contains(s) by {
            if s != p {
                let i = choose|i: int| x.contains(i) && f(i) == s;
                assert(taken.contains(suffixed(p, i as nat)));
            }
        }
    }
    assert(!y.contains(p)) by {
        if y.contains(p) {
            let i = choose|i: int| x.contains(i) && f(i) == p;
            assert(f(i).len() > p.len());
        }
    }
    vstd::set_lib::lemma_len_subset(y.insert(p), taken);
}

/// Claim a rule name: `preferred` when it is free, else `preferred_1`, `preferred_2`, ... The
/// claim is recorded, so the same name is never handed out twice.
pub fn allocate(preferred: String, taken: &mut NameSet) -> (r: String)
    ensures
        !old(taken)@.contains(r@),
        final(taken)@ == old(taken)@.insert(r@),
        r@ == preferred@ || exists|j: nat| 1 <= j && r@ == suffixed(preferred@, j),
{
    if taken.insert(preferred.clone()) {
        return preferred;
    }
    let ghost t0 = taken@;
    assert(t0 =~= old(taken)@);
    let n0 = taken.len();
    let mut index: usize = 1;
    loop
        invariant
            taken@ == t0,
            t0 == old(taken)@,
            t0.contains(preferred@),
            t0.finite(),
            t0.len() == n0,
            1 <= index <= n0 + 1,
            forall|j: nat| 1 <= j < index ==> t0.contains(#[trigger] suffixed(preferred@, j)),
        decreases n0 + 1 - index,
    {
        let mut candidate = preferred.clone();
        candidate.append("_");
        push_decimal(&mut candidate, index);
        proof {
            reveal_strlit("_");
            assert(candidate@ =~= suffixed(preferred@, index as nat));
        }
        if taken.insert(candidate.clone()) {
            return candidate;
        }
        proof {
            assert forall|j: nat| 1 <= j <= index implies t0.contains(#[trigger] suffixed(preferred@, j)) by {
                if j == index {
                }
            }
            lemma_fallbacks_bounded(preferred@, t0, index as nat);
        }
        index = index + 1;
    }
}

/// `hop '<rule>'` followed by `tail`.
fn hop_message(rule: &str, tail: &str) -> (r: String) {
    let mut m = String::from_str("hop '");
    m.append(rule);
    m.append("'");
    m.append(tail);
    m
}

/// One hop's template with `$1` bound to `inner` and every other `$m` moved to `$(offset + m)`,
/// its place among the flattened suffix's captures. `$0`, `$text`, `$N::target` and a nested
/// chain fold cannot be folded and are refused, naming the hop.
#[verifier::loop_isolation(false)]
fn substitute_hop(
    template: &UnifiedReturnAST,
    inner: &UnifiedReturnAST,
    offset: usize,
    rule: &str,
) -> (r: Result<UnifiedReturnAST, String>)
    decreases template,
{
    match template {
        UnifiedReturnAST::PositionalRef { index } => {
            if *index == 0 {
                Err(hop_message(rule, " references $0 / $text, which the chain fold cannot express"))
            } else if *index == 1 {
                Ok(copy_template(inner))
            } else {
                match offset.checked_add(*index) {
                    Some(moved) => Ok(UnifiedReturnAST::PositionalRef { index: moved }),
                    None => Err(hop_message(rule, " references a capture beyond the addressable range")),
                }
            }
        },
        UnifiedReturnAST::Passthrough => Ok(copy_template(inner)),
        UnifiedReturnAST::StringLiteral { .. } | UnifiedReturnAST::NumberLiteral { .. }
        | UnifiedReturnAST::BooleanLiteral { .. } | UnifiedReturnAST::NullLiteral
        | UnifiedReturnAST::Identifier { .. } => Ok(copy_template(template)),
        UnifiedReturnAST::Object { properties } => {
            let mut rewritten: Vec<(String, Box<UnifiedReturnAST>)> = Vec::new();
            let mut i: usize = 0;
            while i < properties.len()
                invariant
                    i <= properties@.len(),
                decreases properties@.len() - i,
            {
                assert(decreases_to!(template => properties));
                assert(decreases_to!(properties => properties@[i as int]));
                assert(decreases_to!(properties@[i as int] => properties@[i as int].1));
                let (key, value) = &properties[i];
                match substitute_hop(value, inner, offset, rule) {
                    Ok(v) => rewritten.push((key.clone(), Box::new(v))),
                    Err(e) => return Err(e),
                }
                i = i + 1;
            }
            Ok(UnifiedReturnAST::Object { properties: rewritten })
        },
        UnifiedReturnAST::Array { elements } => {
            let mut rewritten: Vec<UnifiedReturnAST> = Vec::new();
            let mut i: usize = 0;
            while i < elements.len()
                invariant
                    i <= elements@.len(),
                decreases elements@.len() - i,
            {
                assert(decreases_to!(template => elements));
                assert(decreases_to!(elements => elements@[i as int]));
                match substitute_hop(&elements[i], inner, offset, rule) {
                    Ok(v) => rewritten.push(v),
                    Err(e) => return Err(e),
                }
                i = i + 1;
            }
            Ok(UnifiedReturnAST::Array { elements: rewritten })
        },
        UnifiedReturnAST::Spread { base } => match substitute_hop(base, inner, offset, rule) {
            Ok(b) => Ok(UnifiedReturnAST::Spread { base: Box::new(b) }),
            Err(e) => Err(e),
        },
        UnifiedReturnAST::FlattenSpread { base } => match substitute_hop(base, inner, offset, rule) {
            Ok(b) => Ok(UnifiedReturnAST::FlattenSpread { base: Box::new(b) }),
            Err(e) => Err(e),
        },
        UnifiedReturnAST::PropertyAccess { base, property } => match substitute_hop(base, inner, offset, rule) {
            Ok(b) => Ok(UnifiedReturnAST::PropertyAccess { base: Box::new(b), property: property.clone() }),
            Err(e) => Err(e),
        },
        UnifiedReturnAST::ArrayAccess { base, index } => match substitute_hop(base, inner, offset, rule) {
            Ok(b) => match substitute_hop(index, inner, offset, rule) {
                Ok(x) => Ok(UnifiedReturnAST::ArrayAccess { base: Box::new(b), index: Box::new(x) }),
                Err(e) => Err(e),
            },
            Err(e) => Err(e),
        },
        UnifiedReturnAST::MatchedText => Err(hop_message(rule, " uses $text, which the chain fold cannot express")),
        UnifiedReturnAST::QuantifiedExtraction { .. } => Err(hop_message(
            rule,
            " uses $N::target (quantified extraction), which the chain fold cannot express",
        )),
        UnifiedReturnAST::LrChainFold { .. } => Err(hop_message(
            rule,
            " already carries a left-recursion chain; nesting two chains is refused",
        )),
    }
}

/// The per-hop offsets into the flattened suffix: the total residual length of every hop deeper
/// than this one (the suffix is laid out innermost first).
fn suffix_offsets(route: &ChainRoute) -> (r: Option<Vec<usize>>)
    ensures
        r matches Some(v) ==> v@.len() == route.steps@.len(),
{
    let n = route.steps.len();
    let mut offsets: Vec<usize> = Vec::new();
    let mut k: usize = 0;
    while k < n
        invariant
            k <= n,
            n == route.steps@.len(),
            offsets@.len() == k,
        decreases n - k,
    {
        offsets.push(0);
        k = k + 1;
    }
    let mut running: usize = 0;
    let mut index: usize = n;
    while index > 0
        invariant
            index <= n,
            n == route.steps@.len(),
            offsets@.len() == n,
        decreases index,
    {
        index = index - 1;
        offsets.set(index, running);
        match running.checked_add(route.steps[index].residual.len()) {
            Some(x) => running = x,
            None => return None,
        }
    }
    Some(offsets)
}

/// The route's hop annotations composed into the one template the chain fold applies per suffix
/// iteration: the hops nest outermost first, and the innermost hop's `$1` is the running value.
/// Without annotations the grammar declares no ASTs and the template is `$1`. A hop that declares
/// nothing is composable only when it is a bare reference (its value is the referenced rule's);
/// with a residual it is refused.
fn compose_route_template(route: &ChainRoute, annotations: Option<&Annotations>) -> (r: Result<
    UnifiedReturnAST,
    String,
>) {
    let annotations = match annotations {
        None => return Ok(UnifiedReturnAST::PositionalRef { index: 1 }),
        Some(a) => a,
    };
    let offsets = match suffix_offsets(route) {
        Some(o) => o,
        None => return Err(String::from_str("the route's suffix is beyond the addressable range")),
    };
    let mut composed = UnifiedReturnAST::PositionalRef { index: 1 };
    let mut index: usize = route.steps.len();
    while index > 0
        invariant
            index <= route.steps@.len(),
            offsets@.len() == route.steps@.len(),
        decreases index,
    {
        index = index - 1;
        let step = &route.steps[index];
        let mut declared: Option<UnifiedReturnAST> = None;
        match annotations.branch_return_annotations.get(step.rule.as_str()) {
            Some(branches) => {
                if step.alternative_index < branches.len() {
                    match &branches[step.alternative_index] {
                        Some(annotation) => match &annotation.parsed_ast {
                            Some(t) => {
                                declared = Some(copy_template(t));
                            },
                            None => {},
                        },
                        None => {},
                    }
                }
            },
            None => {},
        }
        let template = match declared {
            Some(t) => t,
            None => {
                if step.residual.len() == 0 {
                    UnifiedReturnAST::PositionalRef { index: 1 }
                } else {
                    let mut m = hop_message(step.rule.as_str(), " alternative ");
                    push_decimal(&mut m, step.alternative_index);
                    m.append(" declares no return annotation and its residual is '");
                    let rendered = render_elements(step.residual.as_slice());
                    m.append(rendered.as_str());
                    m.append("', so the chain's AST cannot be composed faithfully \u{2014} annotate it");
                    return Err(m);
                }
            },
        };
        match substitute_hop(&template, &composed, offsets[index], step.rule.as_str()) {
            Ok(c) => {
                composed = c;
            },
            Err(e) => return Err(e),
        }
    }
    Ok(composed)
}

/// What the `@profiles` of a route's rules say about the route.
enum RouteGate {
    /// No rule on the route declares `@profiles`: the route is universal.
    Unconstrained,
    /// The route derives only under `profiles`, gated by `annotation`, copied from the rule on the
    /// route that declares exactly that list.
    Gated { annotation: SemanticAnnotation, profiles: Vec<String> },
    /// The route's rules have disjoint profile lists: no profile derives it. Its edges are still
    /// sheared; it contributes no suffix branch.
    Underivable,
}

/// `list` as a set.
fn name_set_of(list: &Vec<String>) -> (r: NameSet)
    ensures
        r@ == strs_view(list@).to_set(),
{
    let mut out = NameSet::new();
    let mut i: usize = 0;
    while i < list.len()
        invariant
            i <= list@.len(),
            out@ == strs_view(list@).take(i as int).to_set(),
        decreases list@.len() - i,
    {
        proof {
            assert(strs_view(list@).take(i + 1) =~= strs_view(list@).take(i as int).push(list@[i as int]@));
            crate::names::lemma_push_to_set_pub(strs_view(list@).take(i as int), list@[i as int]@);
        }
        out.insert(list[i].clone());
        i = i + 1;
    }
    proof {
        assert(strs_view(list@).take(i as int) =~= strs_view(list@));
    }
    out
}

/// Whether two name sets hold the same names.
fn same_names(a: &NameSet, b: &NameSet) -> (r: bool)
    ensures
        r == (a@ == b@),
{
    if a.len() != b.len() {
        proof {
            if a@ == b@ {
                assert(a@.len() == b@.len());
            }
        }
        return false;
    }
    let mut i: usize = 0;
    while i < a.len()
        invariant
            i <= a.elems().len(),
            a.elems().len() == b.elems().len(),
            a@ == a.elems().to_set(),
            forall|j: int| 0 <= j < i ==> b@.contains(#[trigger] a.elems()[j]),
        decreases a.elems().len() - i,
    {
        if !b.contains(a.get(i).as_str()) {
            proof {
                assert(a@.contains(a.elems()[i as int]));
            }
            return false;
        }
        i = i + 1;
    }
    proof {
        assert(a@.subset_of(b@)) by {
            assert forall|x: Seq<char>| a@.contains(x) implies b@.contains(x) by {
                let j = choose|j: int| 0 <= j < a.elems().len() && a.elems()[j] == x;
            }
        }
        vstd::set_lib::lemma_subset_equality(a@, b@);
    }
    true
}

/// The `@profiles` gate a route inherits: the intersection of the lists its rules declare
/// (normalized: trimmed, lower-cased, empty names dropped), taken unchanged from the rule whose
/// list is that intersection. An empty intersection is a route no profile derives; an
/// intersection that no rule declares is refused.
fn route_profile_gate(route: &ChainRoute, annotations: Option<&Annotations>) -> (r: Result<RouteGate, String>) {
    let annotations = match annotations {
        None => return Ok(RouteGate::Unconstrained),
        Some(a) => a,
    };
    let mut declared_lists: Vec<Vec<String>> = Vec::new();
    let mut declared_entries: Vec<SemanticAnnotation> = Vec::new();
    let mut k: usize = 0;
    while k < route.steps.len()
        invariant
            k <= route.steps@.len(),
            declared_lists@.len() == declared_entries@.len(),
        decreases route.steps@.len() - k,
    {
        match annotations.semantic_annotations.get(route.steps[k].rule.as_str()) {
            Some(entries) => {
                let mut e: usize = 0;
                while e < entries.len()
                    invariant
                        e <= entries@.len(),
                        declared_lists@.len() == declared_entries@.len(),
                    decreases entries@.len() - e,
                {
                    match &entries[e] {
                        SemanticAnnotation::Profiles(list) => {
                            let profiles = crate::facts::normalized_list(list);
                            if profiles.len() > 0 {
                                declared_lists.push(profiles);
                                declared_entries.push(copy_annotation(&entries[e]));
                            }
                        },
                        _ => {},
                    }
                    e = e + 1;
                }
            },
            None => {},
        }
        k = k + 1;
    }
    if declared_lists.len() == 0 {
        return Ok(RouteGate::Unconstrained);
    }
    let mut intersection = name_set_of(&declared_lists[0]);
    let mut d: usize = 1;
    while d < declared_lists.len()
        invariant
            1 <= d <= declared_lists@.len(),
        decreases declared_lists@.len() - d,
    {
        let other = name_set_of(&declared_lists[d]);
        let mut next = NameSet::new();
        let mut q: usize = 0;
        while q < intersection.len()
            invariant
                q <= intersection.elems().len(),
            decreases intersection.elems().len() - q,
        {
            if other.contains(intersection.get(q).as_str()) {
                next.insert(intersection.get(q).clone());
            }
            q = q + 1;
        }
        intersection = next;
        d = d + 1;
    }
    if intersection.len() == 0 {
        return Ok(RouteGate::Underivable);
    }
    let mut c: usize = 0;
    while c < declared_lists.len()
        invariant
            c <= declared_lists@.len(),
            declared_lists@.len() == declared_entries@.len(),
        decreases declared_lists@.len() - c,
    {
        let set = name_set_of(&declared_lists[c]);
        if same_names(&set, &intersection) {
            return Ok(RouteGate::Gated {
                annotation: copy_annotation(&declared_entries[c]),
                profiles: crate::names::clone_strings(&declared_lists[c]),
            });
        }
        c = c + 1;
    }
    let mut m = String::from_str("the route's @profiles intersection is [");
    let names = intersection.to_vec();
    let mut i: usize = 0;
    while i < names.len()
        invariant
            i <= names@.len(),
        decreases names@.len() - i,
    {
        if i > 0 {
            m.append(", ");
        }
        m.append("\"");
        m.append(names[i].as_str());
        m.append("\"");
        i = i + 1;
    }
    m.append("], which no single rule on the route declares, so no rule's own gate can be reused");
    Err(m)
}

/// A rule's per-branch annotations (return, semantic, mid-sequence), padded to
/// `alternative_count` so that index arithmetic never depends on whether the last branch was
/// annotated.
struct BranchAnnotationTriple {
    pub branch_return: Vec<Option<BranchAnnotation>>,
    pub branch_semantic: Vec<Vec<SemanticAnnotation>>,
    pub branch_mid_sequence: Vec<Vec<MidSequenceAnnotation>>,
}

/// The three per-branch annotation lists of `rule`, each of length `alternative_count`.
fn branch_annotations_of(rule: &str, alternative_count: usize, annotations: Option<&Annotations>) -> (r:
    BranchAnnotationTriple)
    ensures
        r.branch_return@.len() == alternative_count,
        r.branch_semantic@.len() == alternative_count,
        r.branch_mid_sequence@.len() == alternative_count,
{
    let mut branch_return: Vec<Option<BranchAnnotation>> = Vec::new();
    let mut branch_semantic: Vec<Vec<SemanticAnnotation>> = Vec::new();
    let mut branch_mid: Vec<Vec<MidSequenceAnnotation>> = Vec::new();
    let mut i: usize = 0;
    while i < alternative_count
        invariant
            i <= alternative_count,
            branch_return@.len() == i,
            branch_semantic@.len() == i,
            branch_mid@.len() == i,
        decreases alternative_count - i,
    {
        let mut ret: Option<BranchAnnotation> = None;
        let mut sem: Vec<SemanticAnnotation> = Vec::new();
        let mut mid: Vec<MidSequenceAnnotation> = Vec::new();
        match annotations {
            Some(a) => {
                match a.branch_return_annotations.get(rule) {
                    Some(v) => if i < v.len() {
                        ret = copy_branch_option(&v[i]);
                    },
                    None => {},
                }
                match a.branch_semantic_annotations.get(rule) {
                    Some(v) => if i < v.len() {
                        sem = copy_annotations(&v[i]);
                    },
                    None => {},
                }
                match a.branch_mid_sequence_semantic_annotations.get(rule) {
                    Some(v) => if i < v.len() {
                        mid = copy_mid_annotations(&v[i]);
                    },
                    None => {},
                }
            },
            None => {},
        }
        branch_return.push(ret);
        branch_semantic.push(sem);
        branch_mid.push(mid);
        i = i + 1;
    }
    BranchAnnotationTriple { branch_return, branch_semantic, branch_mid_sequence: branch_mid }
}

/// What the rewrite does to one alternative of a rule on a route.
enum Shear {
    /// The alternative's leading reference is the base rule: the clone drops the alternative,
    /// since the iterated suffix now carries that derivation.
    Drop,
    /// The alternative's leading reference continues the route: the clone redirects it to the
    /// clone of `next_rule`.
    Redirect { next_rule: String },
}

/// The action recorded last for alternative `index`, if any.
fn shear_at(actions: &Vec<(usize, Shear)>, index: usize) -> (r: Option<&Shear>) {
    let mut found: Option<&Shear> = None;
    let mut i: usize = 0;
    while i < actions.len()
        invariant
            i <= actions@.len(),
        decreases actions@.len() - i,
    {
        if actions[i].0 == index {
            found = Some(&actions[i].1);
        }
        i = i + 1;
    }
    found
}

/// One clone rule: an intermediate of a route with the cycle-closing edge sheared off, with the
/// annotations of the alternatives it keeps and the rule-level directives of the rule it stands
/// in for.
struct CloneRule {
    pub name: String,
    pub body: ASTNode,
    pub branch_return: Vec<Option<BranchAnnotation>>,
    pub branch_semantic: Vec<Vec<SemanticAnnotation>>,
    pub branch_mid_sequence: Vec<Vec<MidSequenceAnnotation>>,
    pub rule_semantic: Vec<SemanticAnnotation>,
}

/// `<what> '<name>'` followed by `tail`.
fn named_message(what: &str, name: &str, tail: &str) -> (r: String) {
    let mut m = String::from_str(what);
    m.append(" '");
    m.append(name);
    m.append("'");
    m.append(tail);
    m
}

/// Build (once) the sheared clone of `rule` and return its name, or `None` when shearing leaves
/// the rule no alternative (the alternative that referred to it then vanishes too). A route is a
/// simple path, so construction never re-enters a rule it is building; if it does, it refuses.
fn clone_rule(
    rule: &String,
    base_rule: &String,
    shear: &StrMap<Vec<(usize, Shear)>>,
    grammar: &StrMap<ASTNode>,
    annotations: Option<&Annotations>,
    taken: &mut NameSet,
    clones: &mut Vec<CloneRule>,
    clone_names: &mut StrMap<Option<String>>,
    in_progress: &mut Vec<String>,
) -> (r: Result<Option<String>, String>)
    requires
        strs_view(old(in_progress)@).no_duplicates(),
        strs_view(old(in_progress)@).to_set().subset_of(grammar@.dom()),
        grammar@.dom().subset_of(old(taken)@),
        forall|i: int| 0 <= i < old(clones)@.len() ==> !grammar@.dom().contains(#[trigger] old(clones)@[i].name@),
    ensures
        r is Ok ==> final(in_progress)@ == old(in_progress)@,
        old(taken)@.subset_of(final(taken)@),
        forall|i: int| 0 <= i < final(clones)@.len() ==> !grammar@.dom().contains(#[trigger] final(clones)@[i].name@),
    decreases grammar@.dom().len() - old(in_progress)@.len(),
{
    match clone_names.get(rule.as_str()) {
        Some(existing) => {
            return Ok(match existing {
                Some(n) => Some(n.clone()),
                None => None,
            });
        },
        None => {},
    }
    if strings_contain(in_progress.as_slice(), rule.as_str()) {
        return Err(named_message(
            "clone construction re-entered",
            rule.as_str(),
            "; the route set is not a simple-path set",
        ));
    }
    let body = match grammar.get(rule.as_str()) {
        Some(b) => b,
        None => return Err(named_message("route names rule", rule.as_str(), ", which is not in the grammar")),
    };
    let rule_shear = match shear.get(rule.as_str()) {
        Some(a) => a,
        None => return Err(named_message("rule", rule.as_str(), " is on a route but carries no shear action")),
    };
    let ghost before = in_progress@;
    in_progress.push(rule.clone());
    let _ = grammar.len();
    proof {
        let p = strs_view(in_progress@);
        assert(p =~= strs_view(before).push(rule@));
        assert(p.no_duplicates()) by {
            assert forall|a: int, b: int| 0 <= a < p.len() && 0 <= b < p.len() && a != b implies p[a] != p[b] by {
                if a < before.len() && b < before.len() {
                    assert(p[a] == strs_view(before)[a] && p[b] == strs_view(before)[b]);
                } else if a < before.len() {
                    assert(p[a] == strs_view(before)[a]);
                    assert(strs_view(before).contains(p[a]));
                } else {
                    assert(p[b] == strs_view(before)[b]);
                    assert(strs_view(before).contains(p[b]));
                }
            }
        }
        crate::names::lemma_push_to_set_pub(strs_view(before), rule@);
        p.unique_seq_to_set();
        vstd::set_lib::lemma_len_subset(p.to_set(), grammar@.dom());
    }
    let count = alt_count(body);
    let mut kept: Vec<ASTNode> = Vec::new();
    let mut kept_indices: Vec<usize> = Vec::new();
    let mut index: usize = 0;
    while index < count
        invariant
            index <= count,
            count == crate::lr_plan::alts_of(body@).len(),
            strs_view(in_progress@) == strs_view(before).push(rule@),
            in_progress@ == before.push(*rule),
            strs_view(in_progress@).no_duplicates(),
            strs_view(in_progress@).to_set().subset_of(grammar@.dom()),
            in_progress@.len() <= grammar@.dom().len(),
            before == old(in_progress)@,
            forall|j: int| 0 <= j < kept_indices@.len() ==> #[trigger] kept_indices@[j] < count,
            old(taken)@.subset_of(taken@),
            grammar@.dom().subset_of(taken@),
            forall|i: int| 0 <= i < clones@.len() ==> !grammar@.dom().contains(#[trigger] clones@[i].name@),
        decreases count - index,
    {
        let alternative = alt_at(body, index);
        match shear_at(rule_shear, index) {
            None => {
                kept.push(alternative.deep_clone());
                kept_indices.push(index);
            },
            Some(Shear::Drop) => {},
            Some(Shear::Redirect { next_rule }) => {
                let nested = clone_rule(
                    next_rule,
                    base_rule,
                    shear,
                    grammar,
                    annotations,
                    taken,
                    clones,
                    clone_names,
                    in_progress,
                );
                match nested {
                    Ok(Some(nested_name)) => {
                        kept.push(replace_left_corner(alternative, nested_name.as_str()));
                        kept_indices.push(index);
                    },
                    Ok(None) => {},
                    Err(e) => return Err(e),
                }
            },
        }
        index = index + 1;
    }
    in_progress.pop();
    proof {
        assert(in_progress@ =~= before);
    }
    if kept.len() == 0 {
        clone_names.insert(rule.clone(), None);
        return Ok(None);
    }
    let mut preferred = base_rule.clone();
    preferred.append("_lr_seed_");
    preferred.append(rule.as_str());
    let name = allocate(preferred, taken);
    assert(!grammar@.dom().contains(name@));
    let triple = branch_annotations_of(rule.as_str(), count, annotations);
    let mut branch_return: Vec<Option<BranchAnnotation>> = Vec::new();
    let mut branch_semantic: Vec<Vec<SemanticAnnotation>> = Vec::new();
    let mut branch_mid: Vec<Vec<MidSequenceAnnotation>> = Vec::new();
    let mut q: usize = 0;
    while q < kept_indices.len()
        invariant
            q <= kept_indices@.len(),
            triple.branch_return@.len() == count,
            triple.branch_semantic@.len() == count,
            triple.branch_mid_sequence@.len() == count,
            forall|j: int| 0 <= j < kept_indices@.len() ==> #[trigger] kept_indices@[j] < count,
            old(taken)@.subset_of(taken@),
            forall|i: int| 0 <= i < clones@.len() ==> !grammar@.dom().contains(#[trigger] clones@[i].name@),
            !grammar@.dom().contains(name@),
        decreases kept_indices@.len() - q,
    {
        let i = kept_indices[q];
        branch_return.push(copy_branch_option(&triple.branch_return[i]));
        branch_semantic.push(copy_annotations(&triple.branch_semantic[i]));
        branch_mid.push(copy_mid_annotations(&triple.branch_mid_sequence[i]));
        q = q + 1;
    }
    let rule_semantic = match annotations {
        Some(a) => match a.semantic_annotations.get(rule.as_str()) {
            Some(v) => copy_annotations(v),
            None => Vec::new(),
        },
        None => Vec::new(),
    };
    clones.push(CloneRule {
        name: name.clone(),
        body: build_or_node(kept),
        branch_return,
        branch_semantic,
        branch_mid_sequence: branch_mid,
        rule_semantic,
    });
    clone_names.insert(rule.clone(), Some(name.clone()));
    Ok(Some(name))
}

/// Whether two templates are the same.
#[verifier::loop_isolation(false)]
fn same_template(a: &UnifiedReturnAST, b: &UnifiedReturnAST) -> (r: bool)
    decreases a,
{
    match (a, b) {
        (UnifiedReturnAST::PositionalRef { index: x }, UnifiedReturnAST::PositionalRef { index: y }) => *x == *y,
        (UnifiedReturnAST::Passthrough, UnifiedReturnAST::Passthrough) => true,
        (UnifiedReturnAST::StringLiteral { value: x }, UnifiedReturnAST::StringLiteral { value: y }) => crate::names::str_eq(x.as_str(), y.as_str()),
        (UnifiedReturnAST::NumberLiteral { value: x }, UnifiedReturnAST::NumberLiteral { value: y }) => *x == *y,
        (UnifiedReturnAST::BooleanLiteral { value: x }, UnifiedReturnAST::BooleanLiteral { value: y }) => *x == *y,
        (UnifiedReturnAST::NullLiteral, UnifiedReturnAST::NullLiteral) => true,
        (UnifiedReturnAST::Identifier { name: x }, UnifiedReturnAST::Identifier { name: y }) => crate::names::str_eq(x.as_str(), y.as_str()),
        (UnifiedReturnAST::Object { properties: x }, UnifiedReturnAST::Object { properties: y }) => {
            if x.len() != y.len() {
                return false;
            }
            let mut i: usize = 0;
            while i < x.len()
                invariant
                    i <= x@.len(),
                    x@.len() == y@.len(),
                decreases x@.len() - i,
            {
                assert(decreases_to!(a => x));
                assert(decreases_to!(x => x@[i as int]));
                assert(decreases_to!(x@[i as int] => x@[i as int].1));
                if !crate::names::str_eq(x[i].0.as_str(), y[i].0.as_str()) || !same_template(&x[i].1, &y[i].1) {
                    return false;
                }
                i = i + 1;
            }
            true
        },
        (UnifiedReturnAST::Array { elements: x }, UnifiedReturnAST::Array { elements: y }) => {
            if x.len() != y.len() {
                return false;
            }
            let mut i: usize = 0;
            while i < x.len()
                invariant
                    i <= x@.len(),
                    x@.len() == y@.len(),
                decreases x@.len() - i,
            {
                assert(decreases_to!(a => x));
                assert(decreases_to!(x => x@[i as int]));
                if !same_template(&x[i], &y[i]) {
                    return false;
                }
                i = i + 1;
            }
            true
        },
        (UnifiedReturnAST::Spread { base: x }, UnifiedReturnAST::Spread { base: y }) => same_template(x, y),
        (UnifiedReturnAST::FlattenSpread { base: x }, UnifiedReturnAST::FlattenSpread { base: y }) => same_template(x, y),
        (UnifiedReturnAST::PropertyAccess { base: x, property: p }, UnifiedReturnAST::PropertyAccess { base: y, property: q }) =>
            crate::names::str_eq(p.as_str(), q.as_str()) && same_template(x, y),
        (UnifiedReturnAST::ArrayAccess { base: x, index: i }, UnifiedReturnAST::ArrayAccess { base: y, index: j }) =>
            same_template(x, y) && same_template(i, j),
        (UnifiedReturnAST::MatchedText, UnifiedReturnAST::MatchedText) => true,
        (UnifiedReturnAST::QuantifiedExtraction { index: i, target: p }, UnifiedReturnAST::QuantifiedExtraction { index: j, target: q }) =>
            *i == *j && crate::names::str_eq(p.as_str(), q.as_str()),
        (UnifiedReturnAST::LrChainFold { initial: x1, suffixes: x2, specs: xs }, UnifiedReturnAST::LrChainFold { initial: y1, suffixes: y2, specs: ys }) => {
            if !same_template(x1, y1) || !same_template(x2, y2) || xs.len() != ys.len() {
                return false;
            }
            let mut i: usize = 0;
            while i < xs.len()
                invariant
                    i <= xs@.len(),
                    xs@.len() == ys@.len(),
                decreases xs@.len() - i,
            {
                assert(decreases_to!(a => xs));
                assert(decreases_to!(xs => xs@[i as int]));
                assert(decreases_to!(xs@[i as int] => xs@[i as int].annotation_template));
                if xs[i].alt_index != ys[i].alt_index || xs[i].original_body_length != ys[i].original_body_length
                    || !same_template(&xs[i].annotation_template, &ys[i].annotation_template) {
                    return false;
                }
                i = i + 1;
            }
            true
        },
        _ => false,
    }
}

/// Whether two profile keys are the same.
fn same_key(a: &Option<Vec<String>>, b: &Option<Vec<String>>) -> (r: bool) {
    match (a, b) {
        (None, None) => true,
        (Some(x), Some(y)) => {
            if x.len() != y.len() {
                return false;
            }
            let mut i: usize = 0;
            while i < x.len()
                invariant
                    i <= x@.len(),
                    x@.len() == y@.len(),
                decreases x@.len() - i,
            {
                if !crate::names::str_eq(x[i].as_str(), y[i].as_str()) {
                    return false;
                }
                i = i + 1;
            }
            true
        },
        _ => false,
    }
}

/// A profile key as text: `None`, or `Some(["a", "b"])`.
fn key_text(k: &Option<Vec<String>>) -> (r: String) {
    match k {
        None => String::from_str("None"),
        Some(list) => {
            let mut m = String::from_str("Some([");
            let mut i: usize = 0;
            while i < list.len()
                invariant
                    i <= list@.len(),
                decreases list@.len() - i,
            {
                if i > 0 {
                    m.append(", ");
                }
                m.append("\"");
                m.append(list[i].as_str());
                m.append("\"");
                i = i + 1;
            }
            m.append("])");
            m
        },
    }
}

/// One branch of the iterated suffix: the rule it lives in, the flattened residual, the template
/// that folds it back into the declared AST, and the profile gate its route inherits.
struct SuffixBranch {
    pub rule_name: String,
    pub elements: Vec<ASTNode>,
    pub template: UnifiedReturnAST,
    pub profiles: Option<SemanticAnnotation>,
    pub profile_key: Option<Vec<String>>,
}

/// An applicable plan: everything the rewrite writes, computed without changing anything.
struct EliminationPlan {
    pub base_rule: String,
    pub helper_base_rule: String,
    pub helper_suffix_rule: String,
    pub clones: Vec<CloneRule>,
    /// The base rule's alternatives, in the author's order, cyclic ones replaced by clones.
    pub base_alternatives: Vec<ASTNode>,
    pub base_branch_return: Vec<Option<BranchAnnotation>>,
    pub base_branch_semantic: Vec<Vec<SemanticAnnotation>>,
    pub base_branch_mid_sequence: Vec<Vec<MidSequenceAnnotation>>,
    pub suffix_branches: Vec<SuffixBranch>,
}

/// Every rule a plan adds is new to the grammar: its clones, its suffix route rules and its two
/// helpers.
spec fn plan_fresh(p: EliminationPlan, dom: Set<Seq<char>>) -> bool {
    &&& !dom.contains(p.helper_base_rule@)
    &&& !dom.contains(p.helper_suffix_rule@)
    &&& forall|i: int| 0 <= i < p.clones@.len() ==> !dom.contains(#[trigger] p.clones@[i].name@)
    &&& forall|i: int| 0 <= i < p.suffix_branches@.len() ==> !dom.contains(#[trigger] p.suffix_branches@[i].rule_name@)
}

/// Record `action` for alternative `index` of `rule` in the shear map.
fn record_shear(shear: &mut StrMap<Vec<(usize, Shear)>>, rule: &String, index: usize, action: Shear) {
    let mut actions: Vec<(usize, Shear)> = Vec::new();
    match shear.get(rule.as_str()) {
        Some(existing) => {
            let mut i: usize = 0;
            while i < existing.len()
                invariant
                    i <= existing@.len(),
                decreases existing@.len() - i,
            {
                let copied = match &existing[i].1 {
                    Shear::Drop => Shear::Drop,
                    Shear::Redirect { next_rule } => Shear::Redirect { next_rule: next_rule.clone() },
                };
                actions.push((existing[i].0, copied));
                i = i + 1;
            }
        },
        None => {},
    }
    actions.push((index, action));
    shear.insert(rule.clone(), actions);
}

/// `alternative <index> of '<rule>'` followed by `tail`.
fn alternative_message(index: usize, rule: &str, tail: &str) -> (r: String) {
    let mut m = String::from_str("alternative ");
    push_decimal(&mut m, index);
    m.append(" of '");
    m.append(rule);
    m.append("'");
    m.append(tail);
    m
}

/// Turn a starvation-safe survey candidate into an applicable plan, or say why not: a route set
/// the survey truncated or that dropped degenerate routes, a directly left-recursive alternative,
/// a base rule sheared of every alternative, routes no profile derives, an unfoldable hop, or two
/// routes with the same suffix and gate but different ASTs are refused.
fn plan_elimination(
    candidate: &IndirectChainCandidate,
    grammar: &StrMap<ASTNode>,
    annotations: Option<&Annotations>,
) -> (r: Result<EliminationPlan, String>)
    ensures
        r matches Ok(p) ==> plan_fresh(p, grammar@.dom()) && p.base_rule@ == candidate.base_rule@
            && grammar@.dom().contains(p.base_rule@),
{
    if candidate.routes_truncated {
        let mut m = String::from_str("route enumeration hit the ");
        push_decimal(&mut m, MAX_ROUTES_PER_BASE);
        m.append("-route budget, so the plan would shear only a prefix of the cycle edges");
        return Err(m);
    }
    if candidate.degenerate_routes_dropped > 0 {
        let mut m = String::new();
        push_decimal(&mut m, candidate.degenerate_routes_dropped);
        m.append(" route(s) iterate an empty suffix; their cycle edges would survive unsheared inside the clones (the linter's non-terminating class owns them)");
        return Err(m);
    }
    let base_rule = &candidate.base_rule;
    let base_body = match grammar.get(base_rule.as_str()) {
        Some(b) => b,
        None => return Err(named_message("rule", base_rule.as_str(), " is not in the grammar")),
    };
    // The shear map: for every (rule, alternative) on a route, what the clone must do.
    let mut shear: StrMap<Vec<(usize, Shear)>> = StrMap::new();
    let mut ri: usize = 0;
    while ri < candidate.routes.len()
        invariant
            ri <= candidate.routes@.len(),
        decreases candidate.routes@.len() - ri,
    {
        let route = &candidate.routes[ri];
        let mut si: usize = 0;
        while si < route.steps.len()
            invariant
                si <= route.steps@.len(),
            decreases route.steps@.len() - si,
        {
            let step = &route.steps[si];
            let action = if crate::names::str_eq(step.next_rule.as_str(), base_rule.as_str()) {
                Shear::Drop
            } else {
                Shear::Redirect { next_rule: step.next_rule.clone() }
            };
            record_shear(&mut shear, &step.rule, step.alternative_index, action);
            si = si + 1;
        }
        ri = ri + 1;
    }
    // Names already in use: the grammar's, and this plan's own as it allocates them.
    let mut taken = NameSet::new();
    let mut gi: usize = 0;
    let gn = grammar.len();
    while gi < gn
        invariant
            gi <= gn,
            gn == grammar.key_seq().len(),
            taken@ == grammar.key_seq().take(gi as int).to_set(),
        decreases gn - gi,
    {
        proof {
            assert(grammar.key_seq().take(gi + 1) =~= grammar.key_seq().take(gi as int).push(grammar.key_seq()[gi as int]));
            crate::names::lemma_push_to_set_pub(grammar.key_seq().take(gi as int), grammar.key_seq()[gi as int]);
        }
        taken.insert(grammar.key_at(gi).clone());
        gi = gi + 1;
    }
    proof {
        assert(grammar.key_seq().take(gn as int) =~= grammar.key_seq());
        assert(grammar@.dom().subset_of(taken@));
    }
    let mut clones: Vec<CloneRule> = Vec::new();
    let mut clone_names: StrMap<Option<String>> = StrMap::new();
    let base_shear = match shear.get(base_rule.as_str()) {
        Some(a) => a,
        None => return Err(named_message("rule", base_rule.as_str(), " has no route step of its own")),
    };
    let count = alt_count(base_body);
    let mut rewritten: Vec<Option<ASTNode>> = Vec::new();
    let mut ai: usize = 0;
    while ai < count
        invariant
            ai <= count,
            rewritten@.len() == ai,
            count == crate::lr_plan::alts_of(base_body@).len(),
        decreases count - ai,
    {
        rewritten.push(Some(alt_at(base_body, ai).deep_clone()));
        ai = ai + 1;
    }
    let mut index: usize = 0;
    while index < count
        invariant
            index <= count,
            rewritten@.len() == count,
            count == crate::lr_plan::alts_of(base_body@).len(),
            grammar@.dom().subset_of(taken@),
            forall|i: int| 0 <= i < clones@.len() ==> !grammar@.dom().contains(#[trigger] clones@[i].name@),
        decreases count - index,
    {
        match shear_at(base_shear, index) {
            None => {},
            Some(Shear::Drop) => {
                return Err(alternative_message(
                    index,
                    base_rule.as_str(),
                    " is directly left-recursive; the direct normalization pass should have consumed it before this one ran",
                ));
            },
            Some(Shear::Redirect { next_rule }) => {
                let alternative = alt_at(base_body, index);
                let mut in_progress: Vec<String> = Vec::new();
                proof {
                    assert(strs_view(in_progress@) =~= Seq::<Seq<char>>::empty());
                    assert(strs_view(in_progress@).to_set() =~= Set::<Seq<char>>::empty());
                }
                let cloned = clone_rule(
                    next_rule,
                    base_rule,
                    &shear,
                    grammar,
                    annotations,
                    &mut taken,
                    &mut clones,
                    &mut clone_names,
                    &mut in_progress,
                );
                match cloned {
                    Ok(Some(name)) => {
                        rewritten.set(index, Some(replace_left_corner(alternative, name.as_str())));
                    },
                    Ok(None) => {
                        rewritten.set(index, None);
                    },
                    Err(e) => return Err(e),
                }
            },
        }
        index = index + 1;
    }
    // A route naming an alternative the base rule does not have.
    let mut smallest_missing: Option<usize> = None;
    let mut bi: usize = 0;
    while bi < base_shear.len()
        invariant
            bi <= base_shear@.len(),
        decreases base_shear@.len() - bi,
    {
        let i = base_shear[bi].0;
        if i >= count {
            smallest_missing = match smallest_missing {
                Some(m) => if i < m { Some(i) } else { Some(m) },
                None => Some(i),
            };
        }
        bi = bi + 1;
    }
    match smallest_missing {
        Some(i) => {
            let mut m = String::from_str("route names alternative ");
            push_decimal(&mut m, i);
            m.append(" of '");
            m.append(base_rule.as_str());
            m.append("', which does not exist");
            return Err(m);
        },
        None => {},
    }
    let triple = branch_annotations_of(base_rule.as_str(), count, annotations);
    let mut kept_alternatives: Vec<ASTNode> = Vec::new();
    let mut kept_return: Vec<Option<BranchAnnotation>> = Vec::new();
    let mut kept_semantic: Vec<Vec<SemanticAnnotation>> = Vec::new();
    let mut kept_mid: Vec<Vec<MidSequenceAnnotation>> = Vec::new();
    let mut ki: usize = 0;
    while ki < count
        invariant
            ki <= count,
            rewritten@.len() == count,
            triple.branch_return@.len() == count,
            triple.branch_semantic@.len() == count,
            triple.branch_mid_sequence@.len() == count,
        decreases count - ki,
    {
        match &rewritten[ki] {
            Some(alternative) => {
                kept_alternatives.push(alternative.deep_clone());
                kept_return.push(copy_branch_option(&triple.branch_return[ki]));
                kept_semantic.push(copy_annotations(&triple.branch_semantic[ki]));
                kept_mid.push(copy_mid_annotations(&triple.branch_mid_sequence[ki]));
            },
            None => {},
        }
        ki = ki + 1;
    }
    if kept_alternatives.len() == 0 {
        return Err(named_message(
            "every alternative of",
            base_rule.as_str(),
            " vanished under shearing, leaving no seed",
        ));
    }
    // The suffix branches, one per route, each with its composed template and profile gate.
    let mut suffix_branches: Vec<SuffixBranch> = Vec::new();
    let mut ri: usize = 0;
    while ri < candidate.routes.len()
        invariant
            ri <= candidate.routes@.len(),
            grammar@.dom().subset_of(taken@),
            forall|i: int| 0 <= i < suffix_branches@.len() ==> !grammar@.dom().contains(#[trigger] suffix_branches@[i].rule_name@),
        decreases candidate.routes@.len() - ri,
    {
        let route = &candidate.routes[ri];
        let gate = match route_profile_gate(route, annotations) {
            Ok(g) => g,
            Err(e) => return Err(e),
        };
        let (profiles, profile_key) = match gate {
            RouteGate::Unconstrained => (None, None),
            RouteGate::Gated { annotation, profiles } => (Some(annotation), Some(profiles)),
            RouteGate::Underivable => {
                ri = ri + 1;
                continue;
            },
        };
        let mut preferred = base_rule.clone();
        preferred.append("_lr_suffix_r");
        push_decimal(&mut preferred, ri);
        let rule_name = allocate(preferred, &mut taken);
        let elements = route.suffix_elements();
        let template = match compose_route_template(route, annotations) {
            Ok(t) => t,
            Err(e) => return Err(e),
        };
        suffix_branches.push(SuffixBranch { rule_name, elements, template, profiles, profile_key });
        ri = ri + 1;
    }
    if suffix_branches.len() == 0 {
        return Err(named_message(
            "every route out of",
            base_rule.as_str(),
            " crosses disjoint @profiles, so the chain would iterate nothing",
        ));
    }
    // Two routes indistinguishable at parse time (same suffix, same gate) with different ASTs.
    let mut li: usize = 0;
    while li < suffix_branches.len()
        invariant
            li <= suffix_branches@.len(),
        decreases suffix_branches@.len() - li,
    {
        let mut rj: usize = li + 1;
        while rj < suffix_branches.len()
            invariant
                li < suffix_branches@.len(),
                li + 1 <= rj <= suffix_branches@.len(),
            decreases suffix_branches@.len() - rj,
        {
            let left = &suffix_branches[li];
            let right = &suffix_branches[rj];
            if same_key(&left.profile_key, &right.profile_key) {
                let lr = render_elements(left.elements.as_slice());
                let rr = render_elements(right.elements.as_slice());
                if crate::names::str_eq(lr.as_str(), rr.as_str()) && !same_template(&left.template, &right.template) {
                    let mut m = String::from_str("two routes iterate the identical suffix '");
                    m.append(lr.as_str());
                    m.append("' under the identical profile gate ");
                    let k = key_text(&left.profile_key);
                    m.append(k.as_str());
                    m.append(" but declare different ASTs, so the ordered choice would pick one arbitrarily");
                    return Err(m);
                }
            }
            rj = rj + 1;
        }
        li = li + 1;
    }
    let mut hb = base_rule.clone();
    hb.append("_lr_base");
    let helper_base_rule = allocate(hb, &mut taken);
    let mut hs = base_rule.clone();
    hs.append("_lr_suffix");
    let helper_suffix_rule = allocate(hs, &mut taken);
    Ok(EliminationPlan {
        base_rule: base_rule.clone(),
        helper_base_rule,
        helper_suffix_rule,
        clones,
        base_alternatives: kept_alternatives,
        base_branch_return: kept_return,
        base_branch_semantic: kept_semantic,
        base_branch_mid_sequence: kept_mid,
        suffix_branches,
    })
}

/// The type marker of the record each suffix route emits for the chain fold.
pub fn chain_alt_type_marker() -> (r: String)
    ensures
        r@ == "_pgen_lr_chain_alt"@,
{
    String::from_str("_pgen_lr_chain_alt")
}

/// A synthetic branch annotation holding `template`.
fn synthetic_annotation(template: UnifiedReturnAST) -> (r: BranchAnnotation) {
    BranchAnnotation {
        annotation_type: String::from_str("_pgen_lr_chain_synthetic"),
        annotation_content: String::new(),
        parsed_ast: Some(template),
    }
}

/// A copy of every annotation table.
fn copy_all_annotations(a: &Annotations) -> (r: Annotations) {
    let mut out = Annotations::new();
    let n = a.semantic_annotations.len();
    let mut i: usize = 0;
    while i < n
        invariant
            i <= n,
            n == a.semantic_annotations.key_seq().len(),
        decreases n - i,
    {
        out.semantic_annotations.insert(a.semantic_annotations.key_at(i).clone(), copy_annotations(a.semantic_annotations.value_at(i)));
        i = i + 1;
    }
    let n = a.branch_semantic_annotations.len();
    let mut i: usize = 0;
    while i < n
        invariant
            i <= n,
            n == a.branch_semantic_annotations.key_seq().len(),
        decreases n - i,
    {
        let v = a.branch_semantic_annotations.value_at(i);
        let mut c: Vec<Vec<SemanticAnnotation>> = Vec::new();
        let mut j: usize = 0;
        while j < v.len()
            invariant
                j <= v@.len(),
            decreases v@.len() - j,
        {
            c.push(copy_annotations(&v[j]));
            j = j + 1;
        }
        out.branch_semantic_annotations.insert(a.branch_semantic_annotations.key_at(i).clone(), c);
        i = i + 1;
    }
    let n = a.branch_mid_sequence_semantic_annotations.len();
    let mut i: usize = 0;
    while i < n
        invariant
            i <= n,
            n == a.branch_mid_sequence_semantic_annotations.key_seq().len(),
        decreases n - i,
    {
        let v = a.branch_mid_sequence_semantic_annotations.value_at(i);
        let mut c: Vec<Vec<MidSequenceAnnotation>> = Vec::new();
        let mut j: usize = 0;
        while j < v.len()
            invariant
                j <= v@.len(),
            decreases v@.len() - j,
        {
            c.push(copy_mid_annotations(&v[j]));
            j = j + 1;
        }
        out.branch_mid_sequence_semantic_annotations.insert(a.branch_mid_sequence_semantic_annotations.key_at(i).clone(), c);
        i = i + 1;
    }
    let n = a.branch_return_annotations.len();
    let mut i: usize = 0;
    while i < n
        invariant
            i <= n,
            n == a.branch_return_annotations.key_seq().len(),
        decreases n - i,
    {
        let v = a.branch_return_annotations.value_at(i);
        let mut c: Vec<Option<BranchAnnotation>> = Vec::new();
        let mut j: usize = 0;
        while j < v.len()
            invariant
                j <= v@.len(),
            decreases v@.len() - j,
        {
            c.push(copy_branch_option(&v[j]));
            j = j + 1;
        }
        out.branch_return_annotations.insert(a.branch_return_annotations.key_at(i).clone(), c);
        i = i + 1;
    }
    out
}

/// A copy of a grammar.
pub fn copy_grammar(g: &StrMap<ASTNode>) -> (r: StrMap<ASTNode>)
    ensures
        r@.dom() == g@.dom(),
        forall|k: Seq<char>| #[trigger] r@.dom().contains(k) ==> r@[k]@ == g@[k]@,
{
    let mut out: StrMap<ASTNode> = StrMap::new();
    let n = g.len();
    let mut i: usize = 0;
    while i < n
        invariant
            i <= n,
            n == g.key_seq().len(),
            g.key_seq().no_duplicates(),
            g@.dom() == g.key_seq().to_set(),
            forall|j: int| 0 <= j < n ==> #[trigger] g@[g.key_seq()[j]] == g.val_seq()[j],
            out@.dom() == g.key_seq().take(i as int).to_set(),
            forall|k: Seq<char>| #[trigger] out@.dom().contains(k) ==> out@[k]@ == g@[k]@,
        decreases n - i,
    {
        let k = g.key_at(i).clone();
        let v = g.value_at(i).deep_clone();
        proof {
            assert(g.key_seq().take(i + 1) =~= g.key_seq().take(i as int).push(g.key_seq()[i as int]));
            crate::names::lemma_push_to_set_pub(g.key_seq().take(i as int), g.key_seq()[i as int]);
        }
        out.insert(k, v);
        i = i + 1;
    }
    proof {
        assert(g.key_seq().take(n as int) =~= g.key_seq());
    }
    out
}

/// Record a rule's per-branch annotations, each kind only when one of its branches has one.
fn install_branch_annotations(
    annotations: &mut Annotations,
    rule: &String,
    branch_return: &Vec<Option<BranchAnnotation>>,
    branch_semantic: &Vec<Vec<SemanticAnnotation>>,
    branch_mid_sequence: &Vec<Vec<MidSequenceAnnotation>>,
) {
    let mut any = false;
    let mut c: Vec<Option<BranchAnnotation>> = Vec::new();
    let mut i: usize = 0;
    while i < branch_return.len()
        invariant
            i <= branch_return@.len(),
        decreases branch_return@.len() - i,
    {
        if branch_return[i].is_some() {
            any = true;
        }
        c.push(copy_branch_option(&branch_return[i]));
        i = i + 1;
    }
    if any {
        annotations.branch_return_annotations.insert(rule.clone(), c);
    }
    let mut any = false;
    let mut c: Vec<Vec<SemanticAnnotation>> = Vec::new();
    let mut i: usize = 0;
    while i < branch_semantic.len()
        invariant
            i <= branch_semantic@.len(),
        decreases branch_semantic@.len() - i,
    {
        if branch_semantic[i].len() > 0 {
            any = true;
        }
        c.push(copy_annotations(&branch_semantic[i]));
        i = i + 1;
    }
    if any {
        annotations.branch_semantic_annotations.insert(rule.clone(), c);
    }
    let mut any = false;
    let mut c: Vec<Vec<MidSequenceAnnotation>> = Vec::new();
    let mut i: usize = 0;
    while i < branch_mid_sequence.len()
        invariant
            i <= branch_mid_sequence@.len(),
        decreases branch_mid_sequence@.len() - i,
    {
        if branch_mid_sequence[i].len() > 0 {
            any = true;
        }
        c.push(copy_mid_annotations(&branch_mid_sequence[i]));
        i = i + 1;
    }
    if any {
        annotations.branch_mid_sequence_semantic_annotations.insert(rule.clone(), c);
    }
}

/// Write the plan into the grammar: the clones, `X_lr_base`, the suffix (one rule per route and
/// `X_lr_suffix` over them when annotations are in scope, else an inline choice), and
/// `X := X_lr_base ( X_lr_suffix )*`; every new rule goes just before `X` in the order. With
/// annotations, the clones and `X_lr_base` take the branch annotations of what they copy, the
/// helpers take the base rule's `@profiles`, `X` carries the chain fold, each route rule emits
/// the record the fold consumes, and `X_lr_suffix` passes it through.
fn apply_plan(
    plan: &EliminationPlan,
    grammar: &mut StrMap<ASTNode>,
    rule_order: &mut Vec<String>,
    annotations: &mut Annotations,
    with_annotations: bool,
)
    requires
        plan_fresh(*plan, old(grammar)@.dom()),
    ensures
        strs_view(old(rule_order)@).to_set().subset_of(strs_view(final(rule_order)@).to_set()),
        final(grammar)@.dom().contains(plan.base_rule@),
        chain_shape(final(grammar)@[plan.base_rule@]@, plan.helper_base_rule@),
        forall|k: Seq<char>| #[trigger] old(grammar)@.dom().contains(k) && k != plan.base_rule@
            ==> final(grammar)@.dom().contains(k) && final(grammar)@[k] == old(grammar)@[k],
{
    let ghost o0 = strs_view(rule_order@).to_set();
    let ghost g0 = grammar@;
    let mut ci: usize = 0;
    while ci < plan.clones.len()
        invariant
            ci <= plan.clones@.len(),
            o0.subset_of(strs_view(rule_order@).to_set()),
            g0 == old(grammar)@,
            plan_fresh(*plan, g0.dom()),
            forall|k: Seq<char>| #[trigger] g0.dom().contains(k) && k != plan.base_rule@ ==> grammar@.dom().contains(k) && grammar@[k] == g0[k],
        decreases plan.clones@.len() - ci,
    {
        let clone = &plan.clones[ci];
        grammar.insert(clone.name.clone(), clone.body.deep_clone());
        insert_before(rule_order, plan.base_rule.as_str(), clone.name.as_str());
        ci = ci + 1;
    }
    grammar.insert(plan.helper_base_rule.clone(), build_or_node(crate::ast::clone_nodes(&plan.base_alternatives)));
    insert_before(rule_order, plan.base_rule.as_str(), plan.helper_base_rule.as_str());
    let suffix_element = if with_annotations {
        let mut refs: Vec<ASTNode> = Vec::new();
        let mut bi: usize = 0;
        while bi < plan.suffix_branches.len()
            invariant
                bi <= plan.suffix_branches@.len(),
                o0.subset_of(strs_view(rule_order@).to_set()),
                plan_fresh(*plan, g0.dom()),
                forall|k: Seq<char>| #[trigger] g0.dom().contains(k) && k != plan.base_rule@ ==> grammar@.dom().contains(k) && grammar@[k] == g0[k],
            decreases plan.suffix_branches@.len() - bi,
        {
            let branch = &plan.suffix_branches[bi];
            grammar.insert(branch.rule_name.clone(), build_sequence_node(crate::ast::clone_nodes(&branch.elements)));
            insert_before(rule_order, plan.base_rule.as_str(), branch.rule_name.as_str());
            refs.push(rule_reference_node(branch.rule_name.as_str()));
            bi = bi + 1;
        }
        grammar.insert(plan.helper_suffix_rule.clone(), build_or_node(refs));
        insert_before(rule_order, plan.base_rule.as_str(), plan.helper_suffix_rule.as_str());
        rule_reference_node(plan.helper_suffix_rule.as_str())
    } else {
        let mut seqs: Vec<ASTNode> = Vec::new();
        let mut bi: usize = 0;
        while bi < plan.suffix_branches.len()
            invariant
                bi <= plan.suffix_branches@.len(),
            decreases plan.suffix_branches@.len() - bi,
        {
            seqs.push(build_sequence_node(crate::ast::clone_nodes(&plan.suffix_branches[bi].elements)));
            bi = bi + 1;
        }
        build_or_node(seqs)
    };
    let mut elements: Vec<ASTNode> = Vec::new();
    elements.push(rule_reference_node(plan.helper_base_rule.as_str()));
    let star = String::from_str("*");
    elements.push(ASTNode::Quantified { element: Box::new(suffix_element), quantifier: star });
    proof {
        crate::ast::lemma_nodes_view(elements@);
        assert(elements@[1]@ matches crate::ast::SpecNode::Quant(_, q) && q == "*"@);
    }
    grammar.insert(plan.base_rule.clone(), ASTNode::Sequence { elements });
    if !with_annotations {
        return;
    }
    let mut ci: usize = 0;
    while ci < plan.clones.len()
        invariant
            ci <= plan.clones@.len(),
        decreases plan.clones@.len() - ci,
    {
        let clone = &plan.clones[ci];
        install_branch_annotations(annotations, &clone.name, &clone.branch_return, &clone.branch_semantic, &clone.branch_mid_sequence);
        if clone.rule_semantic.len() > 0 {
            annotations.semantic_annotations.insert(clone.name.clone(), copy_annotations(&clone.rule_semantic));
        }
        ci = ci + 1;
    }
    install_branch_annotations(
        annotations,
        &plan.helper_base_rule,
        &plan.base_branch_return,
        &plan.base_branch_semantic,
        &plan.base_branch_mid_sequence,
    );
    // The helpers inherit the base rule's `@profiles` (and only those).
    let mut base_profiles: Vec<SemanticAnnotation> = Vec::new();
    match annotations.semantic_annotations.get(plan.base_rule.as_str()) {
        Some(entries) => {
            let mut e: usize = 0;
            while e < entries.len()
                invariant
                    e <= entries@.len(),
                decreases entries@.len() - e,
            {
                match &entries[e] {
                    SemanticAnnotation::Profiles(_) => base_profiles.push(copy_annotation(&entries[e])),
                    _ => {},
                }
                e = e + 1;
            }
        },
        None => {},
    }
    if base_profiles.len() > 0 {
        annotations.semantic_annotations.insert(plan.helper_base_rule.clone(), copy_annotations(&base_profiles));
        annotations.semantic_annotations.insert(plan.helper_suffix_rule.clone(), copy_annotations(&base_profiles));
    }
    annotations.branch_return_annotations.remove(plan.base_rule.as_str());
    annotations.branch_semantic_annotations.remove(plan.base_rule.as_str());
    annotations.branch_mid_sequence_semantic_annotations.remove(plan.base_rule.as_str());
    // The base rule carries the chain fold; each route rule emits the record the fold consumes.
    let mut specs: Vec<LrChainWrapperSpec> = Vec::new();
    let mut bi: usize = 0;
    while bi < plan.suffix_branches.len()
        invariant
            bi <= plan.suffix_branches@.len(),
        decreases plan.suffix_branches@.len() - bi,
    {
        let branch = &plan.suffix_branches[bi];
        let n = branch.elements.len();
        let body_length = if n < usize::MAX { n + 1 } else { n };
        specs.push(LrChainWrapperSpec {
            alt_index: bi,
            original_body_length: body_length,
            annotation_template: copy_template(&branch.template),
        });
        bi = bi + 1;
    }
    let mut fold: Vec<Option<BranchAnnotation>> = Vec::new();
    fold.push(Some(synthetic_annotation(UnifiedReturnAST::LrChainFold {
        initial: Box::new(UnifiedReturnAST::PositionalRef { index: 1 }),
        suffixes: Box::new(UnifiedReturnAST::PositionalRef { index: 2 }),
        specs,
    })));
    annotations.branch_return_annotations.insert(plan.base_rule.clone(), fold);
    let mut bi: usize = 0;
    while bi < plan.suffix_branches.len()
        invariant
            bi <= plan.suffix_branches@.len(),
        decreases plan.suffix_branches@.len() - bi,
    {
        let branch = &plan.suffix_branches[bi];
        let mut captures: Vec<UnifiedReturnAST> = Vec::new();
        let mut c: usize = 0;
        while c < branch.elements.len()
            invariant
                c <= branch.elements@.len(),
            decreases branch.elements@.len() - c,
        {
            c = c + 1;
            captures.push(UnifiedReturnAST::PositionalRef { index: c });
        }
        let mut properties: Vec<(String, Box<UnifiedReturnAST>)> = Vec::new();
        properties.push((String::from_str("type"), Box::new(UnifiedReturnAST::StringLiteral { value: chain_alt_type_marker() })));
        properties.push((String::from_str("alt_index"), Box::new(UnifiedReturnAST::NumberLiteral { value: bi as u64 })));
        properties.push((String::from_str("captures"), Box::new(UnifiedReturnAST::Array { elements: captures })));
        let mut record: Vec<Option<BranchAnnotation>> = Vec::new();
        record.push(Some(synthetic_annotation(UnifiedReturnAST::Object { properties })));
        annotations.branch_return_annotations.insert(branch.rule_name.clone(), record);
        match &branch.profiles {
            Some(p) => {
                let mut gate: Vec<SemanticAnnotation> = Vec::new();
                gate.push(copy_annotation(p));
                annotations.semantic_annotations.insert(branch.rule_name.clone(), gate);
            },
            None => {},
        }
        bi = bi + 1;
    }
    let mut pass: Vec<Option<BranchAnnotation>> = Vec::new();
    let mut bi: usize = 0;
    while bi < plan.suffix_branches.len()
        invariant
            bi <= plan.suffix_branches@.len(),
        decreases plan.suffix_branches@.len() - bi,
    {
        pass.push(Some(synthetic_annotation(UnifiedReturnAST::PositionalRef { index: 1 })));
        bi = bi + 1;
    }
    annotations.branch_return_annotations.insert(plan.helper_suffix_rule.clone(), pass);
}

/// The number of left-recursive rule rows of a grammar.
pub open spec fn lr_rows(g: Map<Seq<char>, ASTNode>, ord: Seq<Seq<char>>) -> nat {
    left_recursive_rules(g, ord).len()
}

/// Whether `rule` is one of the left-recursive rule rows of a grammar.
pub open spec fn lr_row(g: Map<Seq<char>, ASTNode>, ord: Seq<Seq<char>>, rule: Seq<char>) -> bool {
    left_recursive_rules(g, ord).contains(rule)
}

/// `rule` is in the grammar and reads `X_lr_base ( X_lr_suffix )*` for some helper `X_lr_base`.
pub open spec fn eliminated_shape(g: Map<Seq<char>, ASTNode>, rule: Seq<char>) -> bool {
    g.dom().contains(rule) && exists|h: Seq<char>| chain_shape(g[rule]@, h)
}

/// The base rules of a list of refusals.
pub open spec fn refused_rules(v: Seq<PlanRefusal>) -> Seq<Seq<char>> {
    v.map_values(|r: PlanRefusal| r.base_rule@)
}

/// Where `rule` stands in the order (the order's length when it is absent).
fn position_of(rule_order: &Vec<String>, rule: &String) -> (r: usize) {
    let mut i: usize = 0;
    while i < rule_order.len()
        invariant
            i <= rule_order@.len(),
        decreases rule_order@.len() - i,
    {
        if crate::names::str_eq(rule_order[i].as_str(), rule.as_str()) {
            return i;
        }
        i = i + 1;
    }
    usize::MAX
}

/// The candidate's ranking key: the rules it covers, its acyclic alternatives, its clones, its
/// place in the order.
fn rank_key(c: &IndirectChainCandidate, rule_order: &Vec<String>) -> (r: (usize, usize, usize, usize)) {
    (c.covered_rules().len(), c.acyclic_alternative_indices.len(), c.clone_cost().len(), position_of(rule_order, &c.base_rule))
}

/// Does key `a` rank before key `b`: widest coverage first, then most seeds, then fewest clones,
/// then earliest in the order?
fn ranks_before(a: (usize, usize, usize, usize), b: (usize, usize, usize, usize)) -> (r: bool) {
    if a.0 != b.0 {
        a.0 > b.0
    } else if a.1 != b.1 {
        a.1 > b.1
    } else if a.2 != b.2 {
        a.2 < b.2
    } else {
        a.3 < b.3
    }
}

/// The driver. Each round surveys the grammar, takes the best-ranked starvation-safe candidate not
/// yet refused, plans its rewrite, applies the plan to a copy, and re-runs the left-recursion
/// lint on the copy: the rewrite is kept only when the base rule is no longer left-recursive and
/// the left-recursive rows went down; otherwise the candidate is refused with the reason, for the
/// rest of the pass. The pass ends when no candidate is left.
fn eliminate_with_annotations(
    grammar: &mut StrMap<ASTNode>,
    rule_order: &mut Vec<String>,
    annotations: &mut Annotations,
    with_annotations: bool,
) -> (out: IndirectEliminationOutcome)
    ensures
        out.synthesized_guards@.len() == 0,
        out.eliminated_base_rules@.len() == 0 ==> *final(grammar) == *old(grammar) && *final(rule_order) == *old(rule_order)
            && *final(annotations) == *old(annotations),
        lr_rows(final(grammar)@, strs_view(final(rule_order)@)) + out.eliminated_base_rules@.len() <= lr_rows(
            old(grammar)@,
            strs_view(old(rule_order)@),
        ),
        out.eliminated_base_rules@.len() > 0 ==> !lr_row(
            final(grammar)@,
            strs_view(final(rule_order)@),
            out.eliminated_base_rules@.last()@,
        ),
        forall|i: int| 0 <= i < out.eliminated_base_rules@.len() ==> eliminated_shape(
            final(grammar)@,
            #[trigger] out.eliminated_base_rules@[i]@,
        ),
        old(grammar)@.dom().subset_of(final(grammar)@.dom()),
        forall|k: Seq<char>| #[trigger] old(grammar)@.dom().contains(k) && !strs_view(out.eliminated_base_rules@).contains(k)
            ==> final(grammar)@[k]@ == old(grammar)@[k]@,
        strs_view(old(rule_order)@).to_set().subset_of(strs_view(final(rule_order)@).to_set()),
        refused_rules(out.refusals@).no_duplicates(),
{
    let mut outcome = IndirectEliminationOutcome::new();
    let mut refused = NameSet::new();
    let ghost g0 = *grammar;
    let ghost o0 = *rule_order;
    let ghost a0 = *annotations;
    loop
        invariant
            outcome.synthesized_guards@.len() == 0,
            outcome.eliminated_base_rules@.len() == 0 ==> *grammar == g0 && *rule_order == o0 && *annotations == a0,
            g0 == *old(grammar),
            o0 == *old(rule_order),
            a0 == *old(annotations),
            lr_rows(grammar@, strs_view(rule_order@)) + outcome.eliminated_base_rules@.len() <= lr_rows(
                g0@,
                strs_view(o0@),
            ),
            outcome.eliminated_base_rules@.len() > 0 ==> !lr_row(
                grammar@,
                strs_view(rule_order@),
                outcome.eliminated_base_rules@.last()@,
            ),
            refused_rules(outcome.refusals@).no_duplicates(),
            forall|i: int| 0 <= i < outcome.eliminated_base_rules@.len() ==> eliminated_shape(
                grammar@,
                #[trigger] outcome.eliminated_base_rules@[i]@,
            ),
            g0@.dom().subset_of(grammar@.dom()),
            forall|k: Seq<char>| #[trigger] g0@.dom().contains(k) && !strs_view(outcome.eliminated_base_rules@).contains(k)
                ==> grammar@[k]@ == g0@[k]@,
            strs_view(o0@).to_set().subset_of(strs_view(rule_order@).to_set()),
            forall|i: int| 0 <= i < outcome.refusals@.len() ==> refused@.contains(#[trigger] refused_rules(outcome.refusals@)[i]),
            refused@.subset_of(strs_view(rule_order@).to_set()),
            refused@.finite(),
        decreases lr_rows(grammar@, strs_view(rule_order@)), rule_order@.len() - refused@.len(),
    {
        let survey = survey_indirect_left_recursion(grammar, rule_order);
        let admitted = survey.safe_candidates();
        let mut best: Option<usize> = None;
        let mut best_key: (usize, usize, usize, usize) = (0, 0, 0, 0);
        let mut i: usize = 0;
        while i < admitted.len()
            invariant
                i <= admitted@.len(),
                best matches Some(b) ==> b < admitted@.len() && !refused@.contains(admitted@[b as int].base_rule@)
                    && strs_view(rule_order@).contains(admitted@[b as int].base_rule@),
            decreases admitted@.len() - i,
        {
            let c = admitted[i];
            if !refused.contains(c.base_rule.as_str()) && strings_contain(rule_order.as_slice(), c.base_rule.as_str()) {
                let key = rank_key(c, rule_order);
                let take = match best {
                    None => true,
                    Some(_) => ranks_before(key, best_key),
                };
                if take {
                    best = Some(i);
                    best_key = key;
                }
            }
            i = i + 1;
        }
        let b = match best {
            None => break,
            Some(b) => b,
        };
        let candidate = admitted[b];
        let base_rule = candidate.base_rule.clone();
        let before_rows = survey.surviving_cycle_rules.len();
        proof {
            assert(before_rows == lr_rows(grammar@, strs_view(rule_order@)));
        }
        let planned = if with_annotations {
            plan_elimination(candidate, grammar, Some(&*annotations))
        } else {
            plan_elimination(candidate, grammar, None)
        };
        let attempt: Result<(EliminationPlan, StrMap<ASTNode>, Vec<String>, Annotations), String> = match planned {
            Err(e) => Err(e),
            Ok(plan) => {
                let mut trial_grammar = copy_grammar(grammar);
                let mut trial_order = crate::names::clone_strings(rule_order);
                let mut trial_annotations = copy_all_annotations(annotations);
                apply_plan(&plan, &mut trial_grammar, &mut trial_order, &mut trial_annotations, with_annotations);
                let issues = detect_left_recursion(&trial_grammar, trial_order.as_slice());
                let mut still: Option<usize> = None;
                let mut k: usize = 0;
                while k < issues.len()
                    invariant
                        k <= issues@.len(),
                        still matches Some(j) ==> j < issues@.len(),
                        still is None ==> forall|j: int| 0 <= j < k ==> ((#[trigger] issues@[j])@ matches IssueView::LeftRecursive(rule, _) && rule != base_rule@),
                        forall|j: int| 0 <= j < issues@.len() ==> ((#[trigger] issues@[j])@ matches IssueView::LeftRecursive(_, _)),
                    decreases issues@.len() - k,
                {
                    match &issues[k] {
                        WellformednessIssue::LeftRecursive { rule, .. } => {
                            if still.is_none() && crate::names::str_eq(rule.as_str(), base_rule.as_str()) {
                                still = Some(k);
                            }
                        },
                        _ => {},
                    }
                    k = k + 1;
                }
                match still {
                    Some(j) => {
                        let mut m = named_message("the rewrite left", base_rule.as_str(), " left-recursive \u{2014} the plan sheared only part of the cycle, which still closes through ");
                        match &issues[j] {
                            WellformednessIssue::LeftRecursive { cycle, .. } => {
                                crate::text::push_joined(&mut m, cycle, " -> ");
                            },
                            _ => {},
                        }
                        Err(m)
                    },
                    None => {
                        if issues.len() >= before_rows {
                            let mut m = String::from_str("the rewrite did not reduce the left-recursive rule rows (");
                            push_decimal(&mut m, before_rows);
                            m.append(" before, ");
                            push_decimal(&mut m, issues.len());
                            m.append(" after), so it would trade one cycle for another");
                            Err(m)
                        } else {
                            proof {
                                assert(issues@.len() == lr_rows(trial_grammar@, strs_view(trial_order@)));
                                assert(!lr_row(trial_grammar@, strs_view(trial_order@), base_rule@)) by {
                                    let lr = left_recursive_rules(trial_grammar@, strs_view(trial_order@));
                                    if lr.contains(base_rule@) {
                                        let j = choose|j: int| 0 <= j < lr.len() && lr[j] == base_rule@;
                                        assert(issues@[j]@ matches IssueView::LeftRecursive(rule, _) && rule == lr[j]);
                                        assert(false);
                                    }
                                }
                            }
                            Ok((plan, trial_grammar, trial_order, trial_annotations))
                        }
                    },
                }
            },
        };
        match attempt {
            Ok((plan, trial_grammar, trial_order, trial_annotations)) => {
                let ghost elim0 = outcome.eliminated_base_rules@;
                outcome.eliminated_base_rules.push(base_rule.clone());
                let ghost elim = outcome.eliminated_base_rules@;
                let ghost refs = outcome.refusals@;
                let mut ci: usize = 0;
                while ci < plan.clones.len()
                    invariant
                        ci <= plan.clones@.len(),
                        outcome.synthesized_guards@.len() == 0,
                        outcome.eliminated_base_rules@ == elim,
                        outcome.refusals@ == refs,
                    decreases plan.clones@.len() - ci,
                {
                    outcome.synthesized_clone_rules.push(plan.clones[ci].name.clone());
                    ci = ci + 1;
                }
                proof {
                    assert forall|i: int| 0 <= i < outcome.eliminated_base_rules@.len() implies eliminated_shape(
                        trial_grammar@,
                        #[trigger] outcome.eliminated_base_rules@[i]@,
                    ) by {
                        let x = outcome.eliminated_base_rules@[i]@;
                        if x == base_rule@ {
                            assert(chain_shape(trial_grammar@[x]@, plan.helper_base_rule@));
                        } else {
                            assert(eliminated_shape(grammar@, x));
                            let h = choose|h: Seq<char>| chain_shape(grammar@[x]@, h);
                            assert(chain_shape(trial_grammar@[x]@, h));
                        }
                    }
                }
                proof {
                    let el = strs_view(outcome.eliminated_base_rules@);
                    assert(el =~= strs_view(elim));
                    assert forall|k: Seq<char>| #[trigger] g0@.dom().contains(k) && !el.contains(k)
                        implies trial_grammar@[k]@ == g0@[k]@ by {
                        assert(el.last() == base_rule@);
                        assert(k != base_rule@);
                        assert(elim.drop_last() =~= elim0);
                        assert(!strs_view(elim0).contains(k)) by {
                            if strs_view(elim0).contains(k) {
                                let j = choose|j: int| 0 <= j < elim0.len() && strs_view(elim0)[j] == k;
                                assert(el[j] == k);
                            }
                        }
                        assert(grammar@[k]@ == g0@[k]@);
                        assert(grammar@.dom().contains(k));
                    }
                }
                *grammar = trial_grammar;
                *rule_order = trial_order;
                *annotations = trial_annotations;
            },
            Err(reason) => {
                let ghost before_refusals = outcome.refusals@;
                refused.insert(base_rule.clone());
                outcome.refusals.push(PlanRefusal { base_rule: base_rule.clone(), reason });
                proof {
                    let rr = refused_rules(outcome.refusals@);
                    assert(rr =~= refused_rules(before_refusals).push(base_rule@));
                    assert forall|a: int, b: int| 0 <= a < rr.len() && 0 <= b < rr.len() && a != b implies rr[a] != rr[b] by {
                        if a < before_refusals.len() && b < before_refusals.len() {
                            assert(rr[a] == refused_rules(before_refusals)[a]);
                            assert(rr[b] == refused_rules(before_refusals)[b]);
                        } else if a < before_refusals.len() {
                            assert(rr[a] == refused_rules(before_refusals)[a]);
                        } else {
                            assert(rr[b] == refused_rules(before_refusals)[b]);
                        }
                    }
                    strs_view(rule_order@).lemma_cardinality_of_set();
                    vstd::set_lib::lemma_len_subset(refused@, strs_view(rule_order@).to_set());
                }
            },
        }
    }
    outcome
}

/// Eliminate every indirect left-recursive cycle the survey reports as starvation-safe, to a
/// fixpoint: each eliminated rule `X` becomes `X := X_lr_base ( X_lr_suffix )*`, with one sheared
/// clone per intermediate on its routes. Candidates that cannot be planned, or whose trial rewrite
/// leaves `X` left-recursive or does not reduce the left-recursive rows, are refused with the
/// reason and the grammar is left as it was for them. Only starvation-safe candidates are
/// admitted, so no call-site guard is ever synthesized. Rules are only added, and every rule
/// other than the eliminated ones keeps its body; the order only gains names. When nothing is
/// eliminated, the grammar, the order and the annotations are unchanged.
pub fn eliminate_indirect_left_recursion(
    grammar: &mut StrMap<ASTNode>,
    rule_order: &mut Vec<String>,
    annotations: Option<&mut Annotations>,
) -> (out: IndirectEliminationOutcome)
    ensures
        out.synthesized_guards@.len() == 0,
        out.eliminated_base_rules@.len() == 0 ==> *final(grammar) == *old(grammar) && *final(rule_order) == *old(rule_order),
        lr_rows(final(grammar)@, strs_view(final(rule_order)@)) + out.eliminated_base_rules@.len() <= lr_rows(
            old(grammar)@,
            strs_view(old(rule_order)@),
        ),
        out.eliminated_base_rules@.len() > 0 ==> !lr_row(
            final(grammar)@,
            strs_view(final(rule_order)@),
            out.eliminated_base_rules@.last()@,
        ),
        forall|i: int| 0 <= i < out.eliminated_base_rules@.len() ==> eliminated_shape(
            final(grammar)@,
            #[trigger] out.eliminated_base_rules@[i]@,
        ),
        old(grammar)@.dom().subset_of(final(grammar)@.dom()),
        forall|k: Seq<char>| #[trigger] old(grammar)@.dom().contains(k) && !strs_view(out.eliminated_base_rules@).contains(k)
            ==> final(grammar)@[k]@ == old(grammar)@[k]@,
        strs_view(old(rule_order)@).to_set().subset_of(strs_view(final(rule_order)@).to_set()),
        refused_rules(out.refusals@).no_duplicates(),
{
    match annotations {
        Some(a) => eliminate_with_annotations(grammar, rule_order, a, true),
        None => {
            let mut none = Annotations::new();
            eliminate_with_annotations(grammar, rule_order, &mut none, false)
        },
    }
}

} // verus!
