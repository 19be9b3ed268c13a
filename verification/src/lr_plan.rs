//! The indirect left-recursion survey: per surviving left-recursive cycle, where the chain can
//! be absorbed (the candidate base rules), what the absorbed suffix is (the routes' residuals),
//! what it costs (the rules to clone), and which candidates a greedy suffix would starve.
//!
//! A route only follows bare leading rule references; a cycle closing through a nullable prefix,
//! a quantifier, a group or a lookahead is declined with its reason, never guessed.
use vstd::prelude::*;
use crate::ast::{
    ASTNode, ASTValue, SpecNode, TokenValue, clone_nodes, clone_nodes_from, lemma_nodes_view, node_refs, node_view, nodes_view,
    ref_of_parts, token_parts_view,
};
use crate::names::{NameSet, StrMap, clone_strings, str_eq, strs_view};
use crate::left_rec::{detect_left_recursion, is_left_recursive, left_cycle_of, left_edges, left_rel, valid_cycle};
use crate::wellformed::{IssueView, WellformednessIssue};
use crate::graph::{adj_edge, adj_rel, reach_closure, reach_set};
use crate::walk::{concat_map, lemma_concat_map_push};

verus! {

broadcast use vstd::std_specs::vec::axiom_vec_index_decreases;

/// The most simple left-corner routes enumerated per candidate base rule; hitting it marks the
/// candidate's numbers as lower bounds.
pub const MAX_ROUTES_PER_BASE: usize = 128;

/// One step on a left-corner route: inside `rule`, alternative `alternative_index` begins with a
/// reference to `next_rule`, and `residual` is everything after that reference.
#[derive(Debug)]
pub struct ChainStep {
    pub rule: String,
    pub alternative_index: usize,
    pub next_rule: String,
    pub residual: Vec<ASTNode>,
}

/// The model of a step.
pub struct StepView {
    pub rule: Seq<char>,
    pub alt: nat,
    pub next: Seq<char>,
    pub residual: Seq<SpecNode>,
}

impl View for ChainStep {
    type V = StepView;

    open spec fn view(&self) -> StepView {
        StepView {
            rule: self.rule@,
            alt: self.alternative_index as nat,
            next: self.next_rule@,
            residual: nodes_view(self.residual@),
        }
    }
}

pub open spec fn steps_view(s: Seq<ChainStep>) -> Seq<StepView> {
    s.map_values(|x: ChainStep| x@)
}

impl ChainStep {
    /// A copy with the same model.
    pub fn deep_clone(&self) -> (r: ChainStep)
        ensures
            r@ == self@,
    {
        ChainStep {
            rule: self.rule.clone(),
            alternative_index: self.alternative_index,
            next_rule: self.next_rule.clone(),
            residual: clone_nodes(&self.residual),
        }
    }
}

// ---------------------------------------------------------------------------------------------
// Left-corner steps
// ---------------------------------------------------------------------------------------------

/// The alternatives of a rule body: those of a top-level choice, else the body itself.
pub open spec fn alts_of(n: SpecNode) -> Seq<SpecNode> {
    match n {
        SpecNode::Or(a) => a,
        _ => seq![n],
    }
}

/// The elements of an alternative: those of a sequence, else the alternative itself.
pub open spec fn elements_of(n: SpecNode) -> Seq<SpecNode> {
    match n {
        SpecNode::Sequence(e) => e,
        _ => seq![n],
    }
}

/// The rule a node is a bare reference to (through single-element sequences).
pub open spec fn ref_name(n: SpecNode) -> Option<Seq<char>>
    decreases n,
{
    match n {
        SpecNode::Token(p) => ref_of_parts(p),
        SpecNode::Sequence(e) => if e.len() == 1 {
            ref_name(e[0])
        } else {
            None
        },
        _ => None,
    }
}

/// The step an alternative exposes, when its first element is a bare rule reference.
pub open spec fn corner_step(rule: Seq<char>, idx: nat, alt: SpecNode) -> Option<StepView> {
    let e = elements_of(alt);
    if e.len() == 0 {
        None
    } else {
        match ref_name(e[0]) {
            Some(nx) => Some(StepView { rule, alt: idx, next: nx, residual: e.drop_first() }),
            None => None,
        }
    }
}

/// The steps of the first `n` alternatives, in order.
pub open spec fn steps_upto(rule: Seq<char>, alts: Seq<SpecNode>, n: nat) -> Seq<StepView>
    decreases n,
{
    if n == 0 {
        Seq::empty()
    } else {
        steps_upto(rule, alts, (n - 1) as nat) + match corner_step(rule, (n - 1) as nat, alts[n - 1]) {
            Some(s) => seq![s],
            None => Seq::empty(),
        }
    }
}

/// The left-corner steps of a rule.
pub open spec fn steps_of(rule: Seq<char>, body: SpecNode) -> Seq<StepView> {
    steps_upto(rule, alts_of(body), alts_of(body).len())
}

pub type StepTable = Map<Seq<char>, Seq<StepView>>;

/// The step table: the left-corner steps of every defined rule of the rule order.
pub open spec fn step_table(g: Map<Seq<char>, ASTNode>, ord: Seq<Seq<char>>) -> StepTable {
    Map::new(|r: Seq<char>| ord.contains(r) && g.dom().contains(r), |r: Seq<char>| steps_of(r, g[r]@))
}

pub open spec fn table_view(m: Map<Seq<char>, Vec<ChainStep>>) -> StepTable {
    m.map_values(|v: Vec<ChainStep>| steps_view(v@))
}

/// The rule a node is a bare reference to.
pub fn rule_reference_name(node: &ASTNode) -> (r: Option<String>)
    ensures
        match r {
            Some(s) => ref_name(node@) == Some(s@),
            None => ref_name(node@) is None,
        },
    decreases node,
{
    match node {
        ASTNode::Atom { value: ASTValue::Token(parts) } => match crate::ast::referenced_rule(parts) {
            Some(name) => Some(name.clone()),
            None => None,
        },
        ASTNode::Sequence { elements } => {
            if elements.len() == 1 {
                proof {
                    lemma_nodes_view(elements@);
                }
                rule_reference_name(&elements[0])
            } else {
                proof {
                    lemma_nodes_view(elements@);
                }
                None
            }
        },
        _ => None,
    }
}

/// The number of alternatives of a rule body.
pub fn alt_count(body: &ASTNode) -> (n: usize)
    ensures
        n == alts_of(body@).len(),
{
    match body {
        ASTNode::Or { alternatives } => {
            proof {
                lemma_nodes_view(alternatives@);
            }
            alternatives.len()
        },
        _ => 1,
    }
}

/// Alternative `i` of a rule body.
pub fn alt_at(body: &ASTNode, i: usize) -> (r: &ASTNode)
    requires
        i < alts_of(body@).len(),
    ensures
        r@ == alts_of(body@)[i as int],
{
    match body {
        ASTNode::Or { alternatives } => {
            proof {
                lemma_nodes_view(alternatives@);
            }
            &alternatives[i]
        },
        _ => body,
    }
}

/// The left-corner step of an alternative, when it starts with a bare rule reference.
pub fn left_corner_step(rule: &String, alternative_index: usize, alternative: &ASTNode) -> (r: Option<ChainStep>)
    ensures
        match r {
            Some(s) => corner_step(rule@, alternative_index as nat, alternative@) == Some(s@),
            None => corner_step(rule@, alternative_index as nat, alternative@) is None,
        },
{
    match alternative {
        ASTNode::Sequence { elements } => {
            proof {
                lemma_nodes_view(elements@);
            }
            if elements.len() == 0 {
                return None;
            }
            match rule_reference_name(&elements[0]) {
                Some(next_rule) => {
                    let residual = clone_nodes_from(elements, 1);
                    proof {
                        assert(nodes_view(elements@.subrange(1, elements@.len() as int)) =~= nodes_view(elements@).drop_first()) by {
                            lemma_nodes_view(elements@.subrange(1, elements@.len() as int));
                        }
                    }
                    Some(ChainStep { rule: rule.clone(), alternative_index, next_rule, residual })
                },
                None => None,
            }
        },
        _ => match rule_reference_name(alternative) {
            Some(next_rule) => {
                let residual: Vec<ASTNode> = Vec::new();
                proof {
                    assert(nodes_view(residual@) =~= seq![alternative@].drop_first());
                }
                Some(ChainStep { rule: rule.clone(), alternative_index, next_rule, residual })
            },
            None => None,
        },
    }
}

/// The left-corner steps of one rule, in alternative order.
pub fn steps_of_rule(rule: &String, body: &ASTNode) -> (r: Vec<ChainStep>)
    ensures
        steps_view(r@) == steps_of(rule@, body@),
{
    let n = alt_count(body);
    let ghost alts = alts_of(body@);
    let mut out: Vec<ChainStep> = Vec::new();
    let mut i: usize = 0;
    while i < n
        invariant
            n == alts.len(),
            alts == alts_of(body@),
            i <= n,
            steps_view(out@) == steps_upto(rule@, alts, i as nat),
        decreases n - i,
    {
        let alt = alt_at(body, i);
        let ghost before = out@;
        match left_corner_step(rule, i, alt) {
            Some(s) => {
                out.push(s);
                proof {
                    assert(steps_view(out@) =~= steps_upto(rule@, alts, (i + 1) as nat));
                }
            },
            None => {
                proof {
                    assert(steps_view(out@) =~= steps_upto(rule@, alts, (i + 1) as nat));
                }
            },
        }
        i = i + 1;
    }
    out
}

/// The step table of the defined rules of `rule_order`.
pub fn build_step_table(grammar: &StrMap<ASTNode>, rule_order: &[String]) -> (t: StrMap<Vec<ChainStep>>)
    ensures
        table_view(t@) == step_table(grammar@, strs_view(rule_order@)),
{
    let ghost g = grammar@;
    let ghost ord = strs_view(rule_order@);
    let mut t: StrMap<Vec<ChainStep>> = StrMap::new();
    let mut i: usize = 0;
    while i < rule_order.len()
        invariant
            g == grammar@,
            ord == strs_view(rule_order@),
            i <= rule_order@.len(),
            forall|r: Seq<char>| #[trigger] t@.dom().contains(r) <==> ord.take(i as int).contains(r) && g.dom().contains(r),
            forall|r: Seq<char>| #[trigger] t@.dom().contains(r) ==> steps_view(t@[r]@) == steps_of(r, g[r]@),
        decreases rule_order@.len() - i,
    {
        let rule = &rule_order[i];
        proof {
            assert(ord.take(i + 1) =~= ord.take(i as int).push(rule@));
            assert forall|r: Seq<char>| #[trigger] ord.take(i + 1).contains(r) == (ord.take(i as int).contains(r) || r == rule@) by {
                if ord.take(i + 1).contains(r) {
                    let j = choose|j: int| 0 <= j < ord.take(i + 1).len() && #[trigger] ord.take(i + 1)[j] == r;
                    if j < i {
                        assert(ord.take(i as int)[j] == r);
                    }
                }
                if ord.take(i as int).contains(r) {
                    let j = choose|j: int| 0 <= j < ord.take(i as int).len() && #[trigger] ord.take(i as int)[j] == r;
                    assert(ord.take(i + 1)[j] == r);
                }
                if r == rule@ {
                    assert(ord.take(i + 1)[i as int] == r);
                }
            }
        }
        match grammar.get(rule.as_str()) {
            Some(body) => {
                let steps = steps_of_rule(rule, body);
                let ghost before = t@;
                t.insert(rule.clone(), steps);
                proof {
                    assert forall|r: Seq<char>| #[trigger] t@.dom().contains(r) implies steps_view(t@[r]@) == steps_of(r, g[r]@) by {
                        if r != rule@ {
                            assert(t@[r] == before[r]);
                        }
                    }
                }
            },
            None => {},
        }
        i = i + 1;
    }
    proof {
        assert(ord.take(ord.len() as int) =~= ord);
        assert(table_view(t@) =~= step_table(g, ord));
    }
    t
}

// ---------------------------------------------------------------------------------------------
// Rendering
// ---------------------------------------------------------------------------------------------

/// A node as compact EBNF-like text (for reports only).
pub open spec fn render(n: SpecNode) -> Seq<char>
    decreases n,
{
    match n {
        SpecNode::Or(alts) => "( "@ + render_join(alts, " | "@) + " )"@,
        SpecNode::Sequence(e) => render_join(e, " "@),
        SpecNode::Quant(inner, q) => render(*inner) + q,
        SpecNode::Look(inner, pos) => (if pos {
            "&"@
        } else {
            "!"@
        }) + render(*inner),
        SpecNode::Group(inner) => render(*inner),
        SpecNode::Token(parts) => if parts.len() >= 2 {
            if parts[0] == "quoted_string"@ {
                "\""@ + parts[1] + "\""@
            } else {
                parts[1]
            }
        } else {
            "<atom>"@
        },
    }
}

/// The renderings of `s` joined by `sep`.
pub open spec fn render_join(s: Seq<SpecNode>, sep: Seq<char>) -> Seq<char>
    decreases s,
{
    if s.len() == 0 {
        Seq::empty()
    } else if s.len() == 1 {
        render(s[0])
    } else {
        render_join(s.drop_last(), sep) + sep + render(s.last())
    }
}

proof fn lemma_render_join_push(s: Seq<SpecNode>, x: SpecNode, sep: Seq<char>)
    ensures
        render_join(s.push(x), sep) == if s.len() == 0 {
            render(x)
        } else {
            render_join(s, sep) + sep + render(x)
        },
{
    assert(s.push(x).drop_last() =~= s);
    if s.len() == 0 {
        assert(s.push(x)[0] == x);
    }
}

#[verifier::loop_isolation(false)]
fn render_into(v: &[ASTNode], sep: &str, out: &mut String)
    ensures
        final(out)@ == old(out)@ + render_join(nodes_view(v@), sep@),
    decreases v@,
{
    proof {
        lemma_nodes_view(v@);
    }
    let ghost base = out@;
    let mut i: usize = 0;
    while i < v.len()
        invariant
            i <= v@.len(),
            out@ == base + render_join(nodes_view(v@).take(i as int), sep@),
        decreases v@.len() - i,
    {
        proof {
            assert(nodes_view(v@).take(i + 1) =~= nodes_view(v@).take(i as int).push(node_view(v@[i as int])));
            lemma_render_join_push(nodes_view(v@).take(i as int), node_view(v@[i as int]), sep@);
            assert(decreases_to!(v@ => v@[i as int]));
        }
        if i > 0 {
            out.append(sep);
        }
        let piece = render_node(&v[i]);
        out.append(piece.as_str());
        i = i + 1;
        proof {
            assert(out@ =~= base + render_join(nodes_view(v@).take(i as int), sep@));
        }
    }
    proof {
        assert(nodes_view(v@).take(v@.len() as int) =~= nodes_view(v@));
    }
}

/// A node as compact EBNF-like text (for reports only).
#[verifier::loop_isolation(false)]
pub fn render_node(node: &ASTNode) -> (r: String)
    ensures
        r@ == render(node@),
    decreases node,
{
    match node {
        ASTNode::Or { alternatives } => {
            let mut s = String::from_str("( ");
            render_into(alternatives.as_slice(), " | ", &mut s);
            s.append(" )");
            s
        },
        ASTNode::Sequence { elements } => {
            let mut s = String::new();
            render_into(elements.as_slice(), " ", &mut s);
            proof {
                assert(s@ =~= render(node@));
            }
            s
        },
        ASTNode::Quantified { element, quantifier } => {
            let mut s = render_node(element);
            s.append(quantifier.as_str());
            s
        },
        ASTNode::Lookahead { element, positive } => {
            let mut s = if *positive {
                String::from_str("&")
            } else {
                String::from_str("!")
            };
            let inner = render_node(element);
            s.append(inner.as_str());
            s
        },
        ASTNode::Atom { value: ASTValue::Node(inner) } => render_node(inner),
        ASTNode::Atom { value: ASTValue::Token(parts) } => {
            match crate::ast::token_type_value(parts) {
                Some((t, v)) => {
                    if str_eq(t.as_str(), "quoted_string") {
                        let mut s = String::from_str("\"");
                        s.append(v.as_str());
                        s.append("\"");
                        s
                    } else {
                        v.clone()
                    }
                },
                None => String::from_str("<atom>"),
            }
        },
    }
}

/// Nodes rendered and joined by single spaces (for reports only).
pub fn render_elements(elements: &[ASTNode]) -> (r: String)
    ensures
        r@ == render_join(nodes_view(elements@), " "@),
{
    let mut s = String::new();
    render_into(elements, " ", &mut s);
    proof {
        assert(s@ =~= render_join(nodes_view(elements@), " "@));
    }
    s
}

// ---------------------------------------------------------------------------------------------
// Left-corner graphs
// ---------------------------------------------------------------------------------------------

/// `a -> b`: some left-corner step of `a` leads to `b`.
pub open spec fn corner_rel(t: StepTable) -> spec_fn(Seq<char>, Seq<char>) -> bool {
    |a: Seq<char>, b: Seq<char>| t.dom().contains(a) && exists|i: int| 0 <= i < t[a].len() && (#[trigger] t[a][i]).next == b
}

/// `a -> b`: some bare left-corner step of `a` (empty residual) leads to `b`.
pub open spec fn bare_rel(t: StepTable) -> spec_fn(Seq<char>, Seq<char>) -> bool {
    |a: Seq<char>, b: Seq<char>|
        t.dom().contains(a) && exists|i: int| 0 <= i < t[a].len() && (#[trigger] t[a][i]).next == b && t[a][i].residual.len() == 0
}

/// The reversed relation.
pub open spec fn rev(e: spec_fn(Seq<char>, Seq<char>) -> bool) -> spec_fn(Seq<char>, Seq<char>) -> bool {
    |a: Seq<char>, b: Seq<char>| e(b, a)
}

/// Every rule from which `target` is reachable through one or more left-corner steps.
pub open spec fn reaching(t: StepTable, target: Seq<char>) -> Set<Seq<char>> {
    reach_set(rev(corner_rel(t)), Set::new(|p: Seq<char>| corner_rel(t)(p, target)))
}

/// The base rule and every rule with a bare step to a transparent rule.
pub open spec fn transparent(t: StepTable, base: Seq<char>) -> Set<Seq<char>> {
    reach_set(rev(bare_rel(t)), set![base])
}

fn copy_names(s: &NameSet) -> (r: NameSet)
    ensures
        r@ == s@,
{
    let mut out = NameSet::new();
    let n = s.len();
    let mut i: usize = 0;
    while i < n
        invariant
            n == s.elems().len(),
            i <= n,
            out@ == s.elems().take(i as int).to_set(),
        decreases n - i,
    {
        let x = s.get(i);
        proof {
            assert(s.elems().take(i + 1) =~= s.elems().take(i as int).push(x@));
            crate::names::lemma_push_to_set_pub(s.elems().take(i as int), x@);
        }
        out.insert(x.clone());
        i = i + 1;
    }
    proof {
        assert(s.elems().take(n as int) =~= s.elems());
    }
    out
}

/// Add the edge `a -> b`.
fn add_edge(adj: &mut StrMap<NameSet>, a: &String, b: &String)
    ensures
        forall|x: Seq<char>, y: Seq<char>| #[trigger] adj_edge(final(adj)@, x, y) == (adj_edge(old(adj)@, x, y) || (x == a@ && y == b@)),
{
    let mut s = match adj.get(a.as_str()) {
        Some(x) => copy_names(x),
        None => NameSet::new(),
    };
    s.insert(b.clone());
    adj.insert(a.clone(), s);
}

/// The left-corner graph reversed (`bare`: only steps with an empty residual).
fn reverse_graph(table: &StrMap<Vec<ChainStep>>, bare: bool) -> (adj: StrMap<NameSet>)
    ensures
        forall|x: Seq<char>, y: Seq<char>| #[trigger] adj_edge(adj@, x, y) == if bare {
            bare_rel(table_view(table@))(y, x)
        } else {
            corner_rel(table_view(table@))(y, x)
        },
{
    let ghost t = table_view(table@);
    let mut adj: StrMap<NameSet> = StrMap::new();
    let n = table.len();
    let mut k: usize = 0;
    while k < n
        invariant
            t == table_view(table@),
            n == table.key_seq().len(),
            table@.dom() == table.key_seq().to_set(),
            table.key_seq().no_duplicates(),
            forall|j: int| 0 <= j < n ==> #[trigger] table@[table.key_seq()[j]] == table.val_seq()[j],
            k <= n,
            forall|x: Seq<char>, y: Seq<char>| #[trigger] adj_edge(adj@, x, y) == exists|j: int| 0 <= j < k && table.key_seq()[j] == y
                && exists|i: int| 0 <= i < t[y].len() && (#[trigger] t[y][i]).next == x && (!bare || t[y][i].residual.len() == 0),
        decreases n - k,
    {
        let rule = table.key_at(k);
        let steps = table.value_at(k);
        proof {
            assert(table.key_seq().contains(rule@));
            assert(t[rule@] == steps_view(steps@));
        }
        let ghost before = adj@;
        let mut i: usize = 0;
        while i < steps.len()
            invariant
                t == table_view(table@),
                t[rule@] == steps_view(steps@),
                i <= steps@.len(),
                forall|x: Seq<char>, y: Seq<char>| #[trigger] adj_edge(adj@, x, y) == (adj_edge(before, x, y) || (y == rule@
                    && exists|m: int| 0 <= m < i && (#[trigger] t[y][m]).next == x && (!bare || t[y][m].residual.len() == 0))),
            decreases steps@.len() - i,
        {
            let st = &steps[i];
            proof {
                assert(t[rule@][i as int] == st@);
            }
            if !bare || st.residual.len() == 0 {
                proof {
                    lemma_nodes_view(st.residual@);
                }
                add_edge(&mut adj, &st.next_rule, rule);
            } else {
                proof {
                    lemma_nodes_view(st.residual@);
                }
            }
            i = i + 1;
        }
        proof {
            assert forall|x: Seq<char>, y: Seq<char>| #[trigger] adj_edge(adj@, x, y) == exists|j: int| 0 <= j < k + 1 && table.key_seq()[j] == y
                && exists|i: int| 0 <= i < t[y].len() && (#[trigger] t[y][i]).next == x && (!bare || t[y][i].residual.len() == 0) by {
                if y == rule@ {
                    assert(table.key_seq()[k as int] == y);
                }
                if exists|j: int| 0 <= j < k + 1 && table.key_seq()[j] == y {
                    let j = choose|j: int| 0 <= j < k + 1 && table.key_seq()[j] == y;
                    if j == k {
                        assert(y == rule@);
                    }
                }
            }
        }
        k = k + 1;
    }
    proof {
        assert forall|x: Seq<char>, y: Seq<char>| #[trigger] adj_edge(adj@, x, y) == if bare {
            bare_rel(t)(y, x)
        } else {
            corner_rel(t)(y, x)
        } by {
            if t.dom().contains(y) {
                assert(table.key_seq().to_set().contains(y));
                assert(table.key_seq().contains(y));
            }
            if exists|j: int| 0 <= j < n && table.key_seq()[j] == y {
                let j = choose|j: int| 0 <= j < n && table.key_seq()[j] == y;
                assert(table.key_seq().to_set().contains(y));
            }
        }
    }
    adj
}

/// Every rule from which `target` is reachable through left-corner steps.
pub fn rules_reaching(target: &str, table: &StrMap<Vec<ChainStep>>) -> (r: NameSet)
    ensures
        r@ == reaching(table_view(table@), target@),
{
    let ghost t = table_view(table@);
    let adj = reverse_graph(table, false);
    let seeds = match adj.get(target) {
        Some(s) => copy_names(s),
        None => NameSet::new(),
    };
    proof {
        assert(seeds@ =~= Set::new(|p: Seq<char>| corner_rel(t)(p, target@))) by {
            assert forall|p: Seq<char>| #[trigger] seeds@.contains(p) == corner_rel(t)(p, target@) by {
                assert(adj_edge(adj@, target@, p) == corner_rel(t)(p, target@));
            }
        }
        assert(adj_rel(adj@) =~= rev(corner_rel(t))) by {
            assert forall|a: Seq<char>, b: Seq<char>| #[trigger] adj_rel(adj@)(a, b) == rev(corner_rel(t))(a, b) by {
                assert(adj_edge(adj@, a, b) == corner_rel(t)(b, a));
            }
        }
    }
    reach_closure(&adj, &seeds)
}

/// The rules transparent to `base`: the base itself, and every rule with an alternative that is a
/// bare reference to a transparent rule.
pub fn rules_transparent_to(base: &String, table: &StrMap<Vec<ChainStep>>) -> (r: NameSet)
    ensures
        r@ == transparent(table_view(table@), base@),
{
    let ghost t = table_view(table@);
    let adj = reverse_graph(table, true);
    let mut seeds = NameSet::new();
    seeds.insert(base.clone());
    proof {
        assert(seeds@ =~= set![base@]);
        assert(adj_rel(adj@) =~= rev(bare_rel(t))) by {
            assert forall|a: Seq<char>, b: Seq<char>| #[trigger] adj_rel(adj@)(a, b) == rev(bare_rel(t))(a, b) by {
                assert(adj_edge(adj@, a, b) == bare_rel(t)(b, a));
            }
        }
    }
    reach_closure(&adj, &seeds)
}

// ---------------------------------------------------------------------------------------------
// Routes
// ---------------------------------------------------------------------------------------------

/// Every step of the table sits under its own rule, with strictly increasing alternative indices.
pub open spec fn table_ok(t: StepTable) -> bool {
    forall|r: Seq<char>| #[trigger] t.dom().contains(r) ==> {
        &&& forall|i: int| 0 <= i < t[r].len() ==> (#[trigger] t[r][i]).rule == r
        &&& forall|i: int, j: int| 0 <= i < j < t[r].len() ==> #[trigger] t[r][i].alt < #[trigger] t[r][j].alt
    }
}

proof fn lemma_steps_upto_ok(rule: Seq<char>, alts: Seq<SpecNode>, n: nat)
    requires
        n <= alts.len(),
    ensures
        forall|i: int| 0 <= i < steps_upto(rule, alts, n).len() ==> (#[trigger] steps_upto(rule, alts, n)[i]).rule == rule
            && steps_upto(rule, alts, n)[i].alt < n,
        forall|i: int, j: int| 0 <= i < j < steps_upto(rule, alts, n).len() ==> #[trigger] steps_upto(rule, alts, n)[i].alt
            < #[trigger] steps_upto(rule, alts, n)[j].alt,
    decreases n,
{
    if n > 0 {
        lemma_steps_upto_ok(rule, alts, (n - 1) as nat);
        let prev = steps_upto(rule, alts, (n - 1) as nat);
        let cur = steps_upto(rule, alts, n);
        match corner_step(rule, (n - 1) as nat, alts[n - 1]) {
            Some(st) => {
                assert(cur == prev + seq![st]);
                assert(st.rule == rule && st.alt == n - 1);
                assert forall|i: int| 0 <= i < cur.len() implies (#[trigger] cur[i]).rule == rule && cur[i].alt < n by {
                    if i < prev.len() {
                        assert(cur[i] == prev[i]);
                    }
                }
                assert forall|i: int, j: int| 0 <= i < j < cur.len() implies #[trigger] cur[i].alt < #[trigger] cur[j].alt by {
                    assert(cur[i] == prev[i]);
                    if j < prev.len() {
                        assert(cur[j] == prev[j]);
                    }
                }
            },
            None => {
                assert(cur =~= prev);
            },
        }
    }
}

pub proof fn lemma_step_table_ok(g: Map<Seq<char>, ASTNode>, ord: Seq<Seq<char>>)
    ensures
        table_ok(step_table(g, ord)),
{
    let t = step_table(g, ord);
    assert forall|r: Seq<char>| #[trigger] t.dom().contains(r) implies {
        &&& forall|i: int| 0 <= i < t[r].len() ==> (#[trigger] t[r][i]).rule == r
        &&& forall|i: int, j: int| 0 <= i < j < t[r].len() ==> #[trigger] t[r][i].alt < #[trigger] t[r][j].alt
    } by {
        lemma_steps_upto_ok(r, alts_of(g[r]@), alts_of(g[r]@).len());
    }
}

/// Consecutive steps link: each step leads to the rule of the next.
pub open spec fn chained(s: Seq<StepView>) -> bool {
    forall|k: int| 0 <= k < s.len() - 1 ==> #[trigger] s[k].next == s[k + 1].rule
}

pub open spec fn in_table(t: StepTable, x: StepView) -> bool {
    t.dom().contains(x.rule) && t[x.rule].contains(x)
}

/// `s` continues from `head` back to `base` through table steps whose rules are new (not in
/// `visited`) and pairwise distinct.
pub open spec fn is_tail(t: StepTable, base: Seq<char>, visited: Seq<Seq<char>>, head: StepView, s: Seq<StepView>) -> bool {
    &&& s.len() >= 1
    &&& s[0] == head
    &&& chained(s)
    &&& s.last().next == base
    &&& forall|k: int| 1 <= k < s.len() ==> in_table(t, #[trigger] s[k]) && !visited.contains(s[k].rule)
    &&& forall|k1: int, k2: int| 1 <= k1 < k2 < s.len() ==> #[trigger] s[k1].rule != #[trigger] s[k2].rule
}

/// A simple left-corner route of `base`: a first step of `base` continued back to `base`.
pub open spec fn is_route(t: StepTable, base: Seq<char>, s: Seq<StepView>) -> bool {
    s.len() >= 1 && in_table(t, s[0]) && s[0].rule == base && is_tail(t, base, seq![base], s[0], s)
}

pub open spec fn refs_view(v: Seq<&ChainStep>) -> Seq<StepView> {
    v.map_values(|x: &ChainStep| x@)
}

pub open spec fn routes_view(v: Seq<Vec<&ChainStep>>) -> Seq<Seq<StepView>> {
    v.map_values(|x: Vec<&ChainStep>| refs_view(x@))
}

proof fn lemma_tail_in_reaching(t: StepTable, base: Seq<char>, visited: Seq<Seq<char>>, head: StepView, s: Seq<StepView>, k: int)
    requires
        is_tail(t, base, visited, head, s),
        1 <= k < s.len(),
    ensures
        reaching(t, base).contains(s[k].rule),
    decreases s.len() - k,
{
    let x = s[k];
    assert(in_table(t, x));
    let i = choose|i: int| 0 <= i < t[x.rule].len() && t[x.rule][i] == x;
    if k == s.len() - 1 {
        assert(corner_rel(t)(x.rule, base));
        crate::graph::lemma_seed_reachable(rev(corner_rel(t)), Set::new(|p: Seq<char>| corner_rel(t)(p, base)), x.rule);
    } else {
        lemma_tail_in_reaching(t, base, visited, head, s, k + 1);
        assert(s[k].next == s[k + 1].rule);
        assert(corner_rel(t)(x.rule, s[k + 1].rule));
        crate::graph::lemma_reach_step(rev(corner_rel(t)), Set::new(|p: Seq<char>| corner_rel(t)(p, base)), s[k + 1].rule, x.rule);
    }
}

proof fn lemma_tail_split(t: StepTable, base: Seq<char>, visited: Seq<Seq<char>>, head: StepView, s: Seq<StepView>)
    requires
        is_tail(t, base, visited, head, s),
        s.len() >= 2,
    ensures
        is_tail(t, base, visited.push(head.next), s[1], s.drop_first()),
{
    let s2 = s.drop_first();
    assert(head.next == s[1].rule);
    assert forall|k: int| 0 <= k < s2.len() - 1 implies #[trigger] s2[k].next == s2[k + 1].rule by {
        assert(s[k + 1].next == s[k + 2].rule);
    }
    assert forall|k: int| 1 <= k < s2.len() implies in_table(t, #[trigger] s2[k]) && !visited.push(head.next).contains(s2[k].rule) by {
        assert(s2[k] == s[k + 1]);
        assert(s[1].rule != s[k + 1].rule);
        if visited.push(head.next).contains(s2[k].rule) {
            let j = choose|j: int| 0 <= j < visited.push(head.next).len() && visited.push(head.next)[j] == s2[k].rule;
            if j < visited.len() {
                assert(visited.contains(s[k + 1].rule));
            }
        }
    }
    assert forall|k1: int, k2: int| 1 <= k1 < k2 < s2.len() implies #[trigger] s2[k1].rule != #[trigger] s2[k2].rule by {
        assert(s2[k1] == s[k1 + 1] && s2[k2] == s[k2 + 1]);
    }
}

proof fn lemma_tail_join(t: StepTable, base: Seq<char>, visited: Seq<Seq<char>>, head: StepView, nx: StepView, s2: Seq<StepView>)
    requires
        is_tail(t, base, visited.push(head.next), nx, s2),
        in_table(t, nx),
        nx.rule == head.next,
        !visited.contains(head.next),
    ensures
        is_tail(t, base, visited, head, seq![head] + s2),
{
    let s = seq![head] + s2;
    let v2 = visited.push(head.next);
    assert(v2[visited.len() as int] == head.next);
    assert(v2.contains(head.next));
    assert forall|k: int| 0 <= k < s.len() - 1 implies #[trigger] s[k].next == s[k + 1].rule by {
        if k > 0 {
            assert(s2[k - 1].next == s2[k].rule);
        }
    }
    assert forall|k: int| 1 <= k < s.len() implies in_table(t, #[trigger] s[k]) && !visited.contains(s[k].rule) by {
        assert(s[k] == s2[k - 1]);
        if k >= 2 {
            assert(!v2.contains(s2[k - 1].rule));
            if visited.contains(s2[k - 1].rule) {
                let j = choose|j: int| 0 <= j < visited.len() && visited[j] == s2[k - 1].rule;
                assert(v2[j] == visited[j]);
            }
        }
    }
    assert forall|k1: int, k2: int| 1 <= k1 < k2 < s.len() implies #[trigger] s[k1].rule != #[trigger] s[k2].rule by {
        assert(s[k1] == s2[k1 - 1] && s[k2] == s2[k2 - 1]);
        if k1 == 1 {
            assert(!v2.contains(s2[k2 - 1].rule));
        }
    }
    assert(s.last() == s2.last());
}

proof fn lemma_visited_bound(keys: Seq<Seq<char>>, visited: Seq<Seq<char>>)
    requires
        keys.no_duplicates(),
        visited.no_duplicates(),
        forall|i: int| 0 <= i < visited.len() ==> keys.contains(#[trigger] visited[i]),
    ensures
        visited.len() <= keys.len(),
{
    keys.unique_seq_to_set();
    visited.unique_seq_to_set();
    assert(visited.to_set().subset_of(keys.to_set())) by {
        assert forall|x: Seq<char>| visited.to_set().contains(x) implies keys.to_set().contains(x) by {
            let i = choose|i: int| 0 <= i < visited.len() && visited[i] == x;
        }
    }
    vstd::set_lib::lemma_len_subset(visited.to_set(), keys.to_set());
}

/// `a` comes before `b` in depth-first order: at the first position where they differ, `a`
/// takes the earlier alternative.
pub open spec fn dfs_before(a: Seq<StepView>, b: Seq<StepView>) -> bool {
    exists|k: int| 0 <= k < a.len() && k < b.len() && #[trigger] a.take(k) == b.take(k) && a[k].alt < b[k].alt
}

proof fn lemma_before_prepend(h: StepView, a: Seq<StepView>, b: Seq<StepView>)
    requires
        dfs_before(a, b),
    ensures
        dfs_before(seq![h] + a, seq![h] + b),
{
    let k = choose|k: int| 0 <= k < a.len() && k < b.len() && #[trigger] a.take(k) == b.take(k) && a[k].alt < b[k].alt;
    let a2 = seq![h] + a;
    let b2 = seq![h] + b;
    assert(a2.take(k + 1) =~= seq![h] + a.take(k));
    assert(b2.take(k + 1) =~= seq![h] + b.take(k));
    assert(a2[k + 1] == a[k] && b2[k + 1] == b[k]);
    assert(a2.take(k + 1) == b2.take(k + 1));
}

proof fn lemma_before_at(a: Seq<StepView>, b: Seq<StepView>, k: int)
    requires
        0 <= k < a.len(),
        k < b.len(),
        forall|q: int| 0 <= q < k ==> a[q] == b[q],
        a[k].alt < b[k].alt,
    ensures
        dfs_before(a, b),
{
    assert(a.take(k) =~= b.take(k));
}

/// Depth-first enumeration of the tails from `head` back to `base` (steps limited to rules that
/// can reach `base`), at most `budget` of them, in depth-first order. Returns the tails, and
/// whether the enumeration finished: when it did, every tail was found; when it did not, the
/// budget was used up and every tail not found comes after all those found.
#[verifier::loop_isolation(false)]
#[verifier::rlimit(60)]
fn collect_routes<'a>(
    base: &String,
    head: &'a ChainStep,
    table: &'a StrMap<Vec<ChainStep>>,
    closers: &NameSet,
    visited: &mut Vec<String>,
    budget: usize,
) -> (r: (Vec<Vec<&'a ChainStep>>, bool))
    requires
        table_ok(table_view(table@)),
        closers@ == reaching(table_view(table@), base@),
        strs_view(old(visited)@).no_duplicates(),
        strs_view(old(visited)@).contains(base@),
        forall|i: int| 0 <= i < old(visited)@.len() ==> table.key_seq().contains(#[trigger] strs_view(old(visited)@)[i]),
    ensures
        strs_view(final(visited)@) == strs_view(old(visited)@),
        r.0@.len() <= budget,
        forall|j: int| 0 <= j < r.0@.len() ==> is_tail(table_view(table@), base@, strs_view(old(visited)@), head@, #[trigger] routes_view(r.0@)[j]),
        forall|j1: int, j2: int| 0 <= j1 < j2 < r.0@.len() ==> #[trigger] routes_view(r.0@)[j1] != #[trigger] routes_view(r.0@)[j2],
        r.1 ==> forall|s: Seq<StepView>| #[trigger] is_tail(table_view(table@), base@, strs_view(old(visited)@), head@, s) ==> routes_view(r.0@).contains(s),
        !r.1 ==> r.0@.len() >= budget,
        forall|j1: int, j2: int| 0 <= j1 < j2 < r.0@.len() ==> dfs_before(#[trigger] routes_view(r.0@)[j1], #[trigger] routes_view(r.0@)[j2]),
        forall|s: Seq<StepView>| #[trigger] is_tail(table_view(table@), base@, strs_view(old(visited)@), head@, s) && !routes_view(r.0@).contains(s)
            ==> forall|j: int| 0 <= j < r.0@.len() ==> dfs_before(#[trigger] routes_view(r.0@)[j], s),
    decreases table.key_seq().len() - old(visited)@.len(),
{
    let ghost t = table_view(table@);
    let ghost vis = strs_view(visited@);
    let mut out: Vec<Vec<&'a ChainStep>> = Vec::new();
    if budget == 0 {
        return (out, false);
    }
    if str_eq(head.next_rule.as_str(), base.as_str()) {
        let mut route: Vec<&'a ChainStep> = Vec::new();
        route.push(head);
        out.push(route);
        proof {
            assert(refs_view(route@) =~= seq![head@]);
            assert(routes_view(out@)[0] == seq![head@]);
            assert(is_tail(t, base@, vis, head@, seq![head@]));
            assert forall|s: Seq<StepView>| #[trigger] is_tail(t, base@, vis, head@, s) implies routes_view(out@).contains(s) by {
                if s.len() >= 2 {
                    assert(s[0].next == s[1].rule);
                    assert(vis.contains(base@));
                    assert(in_table(t, s[1]));
                }
                assert(s =~= seq![head@]);
                assert(routes_view(out@)[0] == s);
            }
        }
        return (out, true);
    }
    if crate::names::strings_contain(visited.as_slice(), head.next_rule.as_str()) {
        proof {
            assert forall|s: Seq<StepView>| #[trigger] is_tail(t, base@, vis, head@, s) implies routes_view(out@).contains(s) by {
                if s.len() >= 2 {
                    assert(s[0].next == s[1].rule);
                    assert(in_table(t, s[1]) && !vis.contains(s[1].rule));
                }
            }
        }
        return (out, true);
    }
    let steps = match table.get(head.next_rule.as_str()) {
        Some(st) => st,
        None => {
            proof {
                assert forall|s: Seq<StepView>| #[trigger] is_tail(t, base@, vis, head@, s) implies routes_view(out@).contains(s) by {
                    if s.len() >= 2 {
                        assert(s[0].next == s[1].rule);
                        assert(in_table(t, s[1]));
                    }
                }
            }
            return (out, true);
        },
    };
    let ghost h = head.next_rule@;
    let _tn = table.len();
    proof {
        assert(t.dom().contains(h));
        assert(t[h] == steps_view(steps@));
        assert(table.key_seq().to_set().contains(h));
        assert(table.key_seq().contains(h));
        assert forall|i: int| 0 <= i < vis.push(h).len() implies table.key_seq().contains(#[trigger] vis.push(h)[i]) by {
            if i < vis.len() {
                assert(vis.push(h)[i] == vis[i]);
            }
        }
        assert(vis.push(h).no_duplicates()) by {
            assert forall|a: int, b: int| 0 <= a < b < vis.push(h).len() implies vis.push(h)[a] != vis.push(h)[b] by {
                if b == vis.len() {
                    assert(vis.push(h)[a] == vis[a]);
                }
            }
        }
        lemma_visited_bound(table.key_seq(), vis.push(h));
    }
    visited.push(head.next_rule.clone());
    proof {
        assert(strs_view(visited@) =~= vis.push(h));
    }
    let mut complete = true;
    let mut stop = false;
    let mut i: usize = 0;
    while i < steps.len() && !stop
        invariant
            t == table_view(table@),
            table_ok(t),
            closers@ == reaching(t, base@),
            t[h] == steps_view(steps@),
            t.dom().contains(h),
            h == head@.next,
            h != base@,
            !vis.contains(h),
            vis.contains(base@),
            strs_view(visited@) == vis.push(h),
            strs_view(visited@).no_duplicates(),
            forall|k: int| 0 <= k < visited@.len() ==> table.key_seq().contains(#[trigger] strs_view(visited@)[k]),
            vis.len() + 1 <= table.key_seq().len(),
            i <= steps@.len(),
            out@.len() <= budget,
            stop ==> !complete,
            forall|j: int| 0 <= j < out@.len() ==> is_tail(t, base@, vis, head@, #[trigger] routes_view(out@)[j]),
            forall|j: int| 0 <= j < out@.len() ==> routes_view(out@)[j].len() >= 2 && exists|m: int| 0 <= m < i && #[trigger] steps_view(steps@)[m] == routes_view(out@)[j][1],
            forall|j1: int, j2: int| 0 <= j1 < j2 < out@.len() ==> #[trigger] routes_view(out@)[j1] != #[trigger] routes_view(out@)[j2],
            complete ==> forall|s: Seq<StepView>| #[trigger] is_tail(t, base@, vis, head@, s) && s.len() >= 2 && steps_view(steps@).take(i as int).contains(s[1]) ==> routes_view(out@).contains(s),
            !complete ==> out@.len() >= budget,
            forall|j1: int, j2: int| 0 <= j1 < j2 < out@.len() ==> dfs_before(#[trigger] routes_view(out@)[j1], #[trigger] routes_view(out@)[j2]),
            forall|s: Seq<StepView>| #[trigger] is_tail(t, base@, vis, head@, s) && s.len() >= 2 && steps_view(steps@).take(i as int).contains(s[1])
                && !routes_view(out@).contains(s) ==> forall|j: int| 0 <= j < out@.len() ==> dfs_before(#[trigger] routes_view(out@)[j], s),
        decreases steps@.len() - i + (if stop { 0int } else { 1int }),
    {
        let nx = &steps[i];
        proof {
            assert(steps_view(steps@)[i as int] == nx@);
            assert(t[h][i as int].rule == h);
        }
        let viable = str_eq(nx.next_rule.as_str(), base.as_str()) || closers.contains(nx.next_rule.as_str());
        if !viable {
            proof {
                assert forall|s: Seq<StepView>| #[trigger] is_tail(t, base@, vis, head@, s) && s.len() >= 2 && steps_view(steps@).take(i + 1).contains(s[1])
                    && !routes_view(out@).contains(s) implies forall|j: int| 0 <= j < out@.len() ==> dfs_before(#[trigger] routes_view(out@)[j], s) by {
                    let m = choose|m: int| 0 <= m < i + 1 && #[trigger] steps_view(steps@).take(i + 1)[m] == s[1];
                    assert(steps_view(steps@).take(i + 1)[m] == steps_view(steps@)[m]);
                    if m == i {
                        assert(s[1] == nx@);
                        if s.len() == 2 {
                            assert(s[1].next == base@);
                        } else {
                            assert(s[1].next == s[2].rule);
                            lemma_tail_in_reaching(t, base@, vis, head@, s, 2);
                        }
                    } else {
                        assert(steps_view(steps@).take(i as int)[m] == s[1]);
                    }
                }
                if complete {
                assert forall|s: Seq<StepView>| #[trigger] is_tail(t, base@, vis, head@, s) && s.len() >= 2 && steps_view(steps@).take(i + 1).contains(s[1]) implies routes_view(out@).contains(s) by {
                    let m = choose|m: int| 0 <= m < i + 1 && #[trigger] steps_view(steps@).take(i + 1)[m] == s[1];
                    assert(steps_view(steps@).take(i + 1)[m] == steps_view(steps@)[m]);
                    if m == i {
                        assert(s[1] == nx@);
                        if s.len() == 2 {
                            assert(s[1].next == base@);
                        } else {
                            assert(s[1].next == s[2].rule);
                            lemma_tail_in_reaching(t, base@, vis, head@, s, 2);
                        }
                    } else {
                        assert(steps_view(steps@).take(i as int)[m] == s[1]);
                    }
                }
                }
            }
            i = i + 1;
        } else {
            let remaining = budget - out.len();
            if remaining == 0 {
                complete = false;
                stop = true;
            } else {
                proof {
                    let j = choose|j: int| 0 <= j < vis.len() && vis[j] == base@;
                    assert(strs_view(visited@)[j] == base@);
                }
                let (tails, c) = collect_routes(base, nx, table, closers, visited, remaining);
                let ghost vis2 = strs_view(visited@);
                let ghost base_out = out@;
                let mut k: usize = 0;
                while k < tails.len()
                    invariant
                        t == table_view(table@),
                        vis2 == vis.push(h),
                        k <= tails@.len(),
                        out@.len() == base_out.len() + k,
                        forall|j: int| 0 <= j < base_out.len() ==> out@[j] == base_out[j],
                        forall|j: int| 0 <= j < k ==> #[trigger] routes_view(out@)[base_out.len() + j] == seq![head@] + routes_view(tails@)[j],
                    decreases tails@.len() - k,
                {
                    let mut route: Vec<&'a ChainStep> = Vec::new();
                    route.push(head);
                    let tail = &tails[k];
                    let mut q: usize = 0;
                    while q < tail.len()
                        invariant
                            q <= tail@.len(),
                            refs_view(route@) == seq![head@] + refs_view(tail@).take(q as int),
                        decreases tail@.len() - q,
                    {
                        let ghost before = route@;
                        route.push(tail[q]);
                        proof {
                            assert(refs_view(route@) =~= refs_view(before).push(tail@[q as int]@));
                            assert(refs_view(tail@).take(q + 1) =~= refs_view(tail@).take(q as int).push(tail@[q as int]@));
                            assert(refs_view(route@) =~= seq![head@] + refs_view(tail@).take(q + 1));
                        }
                        q = q + 1;
                    }
                    proof {
                        assert(refs_view(tail@).take(tail@.len() as int) =~= refs_view(tail@));
                        assert(routes_view(tails@)[k as int] == refs_view(tail@));
                    }
                    let ghost before_out = out@;
                    let ghost rv = refs_view(route@);
                    proof {
                        assert(forall|j: int| 0 <= j < k ==> #[trigger] routes_view(before_out)[base_out.len() + j] == seq![head@] + routes_view(tails@)[j]);
                    }
                    out.push(route);
                    proof {
                        assert(routes_view(out@)[base_out.len() + k] == rv);
                        assert forall|j: int| 0 <= j < k + 1 implies #[trigger] routes_view(out@)[base_out.len() + j] == seq![head@] + routes_view(tails@)[j] by {
                            if j < k {
                                assert(out@[base_out.len() + j] == before_out[base_out.len() + j]);
                                assert(routes_view(before_out)[base_out.len() + j] == seq![head@] + routes_view(tails@)[j]);
                            } else {
                                assert(j == k);
                                assert(rv == seq![head@] + refs_view(tail@));
                            }
                        }
                    }
                    k = k + 1;
                }
                proof {
                    let n0 = base_out.len();
                    // soundness and the second-step bookkeeping of the new routes
                    assert forall|j: int| 0 <= j < out@.len() implies is_tail(t, base@, vis, head@, #[trigger] routes_view(out@)[j]) by {
                        if j >= n0 {
                            let jj = j - n0;
                            let tl = routes_view(tails@)[jj];
                            assert(routes_view(out@)[n0 + jj] == seq![head@] + tl);
                            lemma_tail_join(t, base@, vis, head@, nx@, tl);
                        } else {
                            assert(routes_view(out@)[j] == routes_view(base_out)[j]);
                        }
                    }
                    assert forall|j: int| 0 <= j < out@.len() implies routes_view(out@)[j].len() >= 2 && exists|m: int| 0 <= m < i + 1 && #[trigger] steps_view(steps@)[m] == routes_view(out@)[j][1] by {
                        if j >= n0 {
                            let jj = j - n0;
                            let tl = routes_view(tails@)[jj];
                            assert(routes_view(out@)[n0 + jj] == seq![head@] + tl);
                            assert((seq![head@] + tl)[1] == tl[0]);
                            assert(steps_view(steps@)[i as int] == nx@);
                        } else {
                            assert(routes_view(out@)[j] == routes_view(base_out)[j]);
                            let m = choose|m: int| 0 <= m < i && #[trigger] steps_view(steps@)[m] == routes_view(base_out)[j][1];
                            assert(steps_view(steps@)[m] == routes_view(out@)[j][1]);
                        }
                    }
                    assert forall|j1: int, j2: int| 0 <= j1 < j2 < out@.len() implies #[trigger] routes_view(out@)[j1] != #[trigger] routes_view(out@)[j2] by {
                        if j2 >= n0 {
                            let jj2 = j2 - n0;
                            let t2 = routes_view(tails@)[jj2];
                            assert(routes_view(out@)[n0 + jj2] == seq![head@] + t2);
                            assert((seq![head@] + t2)[1] == nx@);
                            if j1 >= n0 {
                                let jj1 = j1 - n0;
                                let t1 = routes_view(tails@)[jj1];
                                assert(routes_view(out@)[n0 + jj1] == seq![head@] + t1);
                                if seq![head@] + t1 == seq![head@] + t2 {
                                    assert(t1 =~= (seq![head@] + t1).drop_first());
                                    assert(t2 =~= (seq![head@] + t2).drop_first());
                                }
                            } else {
                                assert(routes_view(out@)[j1] == routes_view(base_out)[j1]);
                                let m = choose|m: int| 0 <= m < i && #[trigger] steps_view(steps@)[m] == routes_view(base_out)[j1][1];
                                assert(t[h][m].alt < t[h][i as int].alt);
                            }
                        } else {
                            assert(routes_view(out@)[j1] == routes_view(base_out)[j1]);
                            assert(routes_view(out@)[j2] == routes_view(base_out)[j2]);
                        }
                    }
                    // depth-first order: earlier second steps first, then the child's own order
                    assert forall|j1: int, j2: int| 0 <= j1 < j2 < out@.len() implies dfs_before(#[trigger] routes_view(out@)[j1], #[trigger] routes_view(out@)[j2]) by {
                        if j2 >= n0 {
                            let jj2 = j2 - n0;
                            let t2 = routes_view(tails@)[jj2];
                            assert(routes_view(out@)[n0 + jj2] == seq![head@] + t2);
                            if j1 >= n0 {
                                let jj1 = j1 - n0;
                                let t1 = routes_view(tails@)[jj1];
                                assert(routes_view(out@)[n0 + jj1] == seq![head@] + t1);
                                assert(dfs_before(routes_view(tails@)[jj1], routes_view(tails@)[jj2]));
                                lemma_before_prepend(head@, t1, t2);
                            } else {
                                let a = routes_view(out@)[j1];
                                assert(a == routes_view(base_out)[j1]);
                                let m = choose|m: int| 0 <= m < i && #[trigger] steps_view(steps@)[m] == routes_view(base_out)[j1][1];
                                assert(t[h][m].alt < t[h][i as int].alt);
                                let b = routes_view(out@)[j2];
                                assert(b[1] == nx@);
                                assert(a[0] == head@ && b[0] == head@);
                                lemma_before_at(a, b, 1);
                            }
                        } else {
                            assert(routes_view(out@)[j1] == routes_view(base_out)[j1]);
                            assert(routes_view(out@)[j2] == routes_view(base_out)[j2]);
                        }
                    }
                    assert forall|s: Seq<StepView>| #[trigger] is_tail(t, base@, vis, head@, s) && s.len() >= 2 && steps_view(steps@).take(i + 1).contains(s[1])
                        && !routes_view(out@).contains(s) implies forall|j: int| 0 <= j < out@.len() ==> dfs_before(#[trigger] routes_view(out@)[j], s) by {
                        let m = choose|m: int| 0 <= m < i + 1 && #[trigger] steps_view(steps@).take(i + 1)[m] == s[1];
                        if m == i {
                            lemma_tail_split(t, base@, vis, head@, s);
                            assert(s =~= seq![head@] + s.drop_first());
                            if routes_view(tails@).contains(s.drop_first()) {
                                let q = choose|q: int| 0 <= q < routes_view(tails@).len() && routes_view(tails@)[q] == s.drop_first();
                                assert(routes_view(out@)[n0 + q] == s);
                            }
                            assert forall|j: int| 0 <= j < out@.len() implies dfs_before(#[trigger] routes_view(out@)[j], s) by {
                                if j >= n0 {
                                    let jj = j - n0;
                                    let tj = routes_view(tails@)[jj];
                                    assert(routes_view(out@)[n0 + jj] == seq![head@] + tj);
                                    assert(dfs_before(tj, s.drop_first()));
                                    lemma_before_prepend(head@, tj, s.drop_first());
                                } else {
                                    let a = routes_view(out@)[j];
                                    assert(a == routes_view(base_out)[j]);
                                    let m2 = choose|m2: int| 0 <= m2 < i && #[trigger] steps_view(steps@)[m2] == routes_view(base_out)[j][1];
                                    assert(t[h][m2].alt < t[h][i as int].alt);
                                    assert(s[1] == steps_view(steps@)[i as int]);
                                    assert(a[0] == head@ && s[0] == head@);
                                    lemma_before_at(a, s, 1);
                                }
                            }
                        } else {
                            assert(steps_view(steps@).take(i as int)[m] == s[1]);
                            assert(steps_view(steps@).take(i as int).contains(s[1]));
                            // the enumeration was complete before this step, so `s` was found
                            assert(routes_view(base_out).contains(s));
                            let q = choose|q: int| 0 <= q < routes_view(base_out).len() && routes_view(base_out)[q] == s;
                            assert(routes_view(out@)[q] == s);
                        }
                    }
                    if complete && c {
                        assert forall|s: Seq<StepView>| #[trigger] is_tail(t, base@, vis, head@, s) && s.len() >= 2 && steps_view(steps@).take(i + 1).contains(s[1]) implies routes_view(out@).contains(s) by {
                            let m = choose|m: int| 0 <= m < i + 1 && #[trigger] steps_view(steps@).take(i + 1)[m] == s[1];
                            if m == i {
                                lemma_tail_split(t, base@, vis, head@, s);
                                assert(routes_view(tails@).contains(s.drop_first()));
                                let q = choose|q: int| 0 <= q < routes_view(tails@).len() && routes_view(tails@)[q] == s.drop_first();
                                assert(s =~= seq![head@] + s.drop_first());
                                assert(routes_view(out@)[n0 + q] == s);
                            } else {
                                assert(steps_view(steps@).take(i as int)[m] == s[1]);
                                assert(routes_view(base_out).contains(s));
                                let q = choose|q: int| 0 <= q < routes_view(base_out).len() && routes_view(base_out)[q] == s;
                                assert(routes_view(out@)[q] == s);
                            }
                        }
                    }
                }
                complete = complete && c;
                i = i + 1;
            }
        }
    }
    let ghost vb = visited@;
    visited.pop();
    proof {
        assert(strs_view(vb) == vis.push(h));
        assert(visited@ =~= vb.drop_last());
        assert forall|q: int| 0 <= q < vis.len() implies strs_view(visited@)[q] == vis[q] by {
            assert(strs_view(visited@)[q] == visited@[q]@);
            assert(visited@[q] == vb[q]);
            assert(strs_view(vb)[q] == vb[q]@);
            assert(vis.push(h)[q] == vis[q]);
        }
        assert(strs_view(visited@) =~= vis);
        assert forall|s: Seq<StepView>| #[trigger] is_tail(t, base@, vis, head@, s) && !routes_view(out@).contains(s)
            implies forall|j: int| 0 <= j < out@.len() ==> dfs_before(#[trigger] routes_view(out@)[j], s) by {
            if s.len() == 1 {
                assert(s.last() == head@);
            } else {
                assert(s[0].next == s[1].rule);
                assert(in_table(t, s[1]));
                let m = choose|m: int| 0 <= m < t[h].len() && t[h][m] == s[1];
                if m < i {
                    assert(steps_view(steps@).take(i as int)[m] == s[1]);
                } else {
                    assert forall|j: int| 0 <= j < out@.len() implies dfs_before(#[trigger] routes_view(out@)[j], s) by {
                        let a = routes_view(out@)[j];
                        let m2 = choose|m2: int| 0 <= m2 < i && #[trigger] steps_view(steps@)[m2] == routes_view(out@)[j][1];
                        assert(t[h][m2].alt < t[h][m].alt);
                        assert(a[0] == head@ && s[0] == head@);
                        lemma_before_at(a, s, 1);
                    }
                }
            }
        }
        if complete {
            assert(i == steps@.len());
            assert forall|s: Seq<StepView>| #[trigger] is_tail(t, base@, vis, head@, s) implies routes_view(out@).contains(s) by {
                if s.len() == 1 {
                    assert(s.last() == head@);
                } else {
                    assert(s[0].next == s[1].rule);
                    assert(in_table(t, s[1]));
                    assert(steps_view(steps@).take(i as int) =~= steps_view(steps@));
                }
            }
        }
    }
    (out, complete)
}

// ---------------------------------------------------------------------------------------------
// Routes, candidates, and the survey
// ---------------------------------------------------------------------------------------------

/// One simple left-corner route from a base rule back to itself: `steps[0].rule` is the base
/// rule and the last step leads back to it.
#[derive(Debug)]
pub struct ChainRoute {
    /// The alternative of the base rule the route leaves through.
    pub base_alternative_index: usize,
    /// Steps, outermost first.
    pub steps: Vec<ChainStep>,
}

/// The suffix a route iterates: the residuals, innermost step first.
pub open spec fn suffix_of(s: Seq<StepView>) -> Seq<SpecNode>
    decreases s.len(),
{
    if s.len() == 0 {
        Seq::empty()
    } else {
        s.last().residual + suffix_of(s.drop_last())
    }
}

/// All but the first (nothing for an empty sequence).
pub open spec fn after_first<A>(s: Seq<A>) -> Seq<A> {
    if s.len() == 0 {
        s
    } else {
        s.drop_first()
    }
}

pub open spec fn rules_of(s: Seq<StepView>) -> Seq<Seq<char>> {
    s.map_values(|x: StepView| x.rule)
}

proof fn lemma_suffix_empty(s: Seq<StepView>)
    ensures
        (suffix_of(s).len() == 0) == (forall|k: int| 0 <= k < s.len() ==> (#[trigger] s[k]).residual.len() == 0),
    decreases s.len(),
{
    if s.len() > 0 {
        lemma_suffix_empty(s.drop_last());
        assert forall|k: int| 0 <= k < s.len() - 1 implies s.drop_last()[k] == #[trigger] s[k] by {}
    }
}

impl ChainRoute {
    /// The suffix the eliminated base rule iterates: the steps' residuals, innermost first (a
    /// derivation returns through the steps and consumes the deepest residual first).
    pub fn suffix_elements(&self) -> (r: Vec<ASTNode>)
        ensures
            nodes_view(r@) == suffix_of(steps_view(self.steps@)),
    {
        let ghost sv = steps_view(self.steps@);
        let mut out: Vec<ASTNode> = Vec::new();
        let mut i: usize = self.steps.len();
        proof {
            assert(sv.take(sv.len() as int) =~= sv);
            assert(nodes_view(out@) =~= Seq::<SpecNode>::empty());
        }
        while i > 0
            invariant
                sv == steps_view(self.steps@),
                i <= self.steps@.len(),
                nodes_view(out@) + suffix_of(sv.take(i as int)) == suffix_of(sv),
            decreases i,
        {
            let st = &self.steps[i - 1];
            proof {
                assert(sv[i - 1] == st@);
                assert(sv.take(i as int).drop_last() =~= sv.take(i - 1));
                assert(sv.take(i as int).last() == st@);
            }
            let ghost before = out@;
            let mut k: usize = 0;
            while k < st.residual.len()
                invariant
                    k <= st.residual@.len(),
                    nodes_view(out@) == nodes_view(before) + nodes_view(st.residual@).take(k as int),
                decreases st.residual@.len() - k,
            {
                let ghost b2 = out@;
                let c = st.residual[k].deep_clone();
                out.push(c);
                proof {
                    lemma_nodes_view(st.residual@);
                    lemma_nodes_view(b2);
                    lemma_nodes_view(out@);
                    assert(nodes_view(out@) =~= nodes_view(b2).push(node_view(st.residual@[k as int])));
                    assert(nodes_view(st.residual@).take(k + 1) =~= nodes_view(st.residual@).take(k as int).push(node_view(st.residual@[k as int])));
                }
                k = k + 1;
            }
            proof {
                lemma_nodes_view(st.residual@);
                assert(nodes_view(st.residual@).take(st.residual@.len() as int) =~= nodes_view(st.residual@));
                assert(nodes_view(out@) + suffix_of(sv.take(i - 1)) =~= nodes_view(before) + suffix_of(sv.take(i as int)));
            }
            i = i - 1;
        }
        proof {
            assert(sv.take(0) =~= Seq::<StepView>::empty());
            assert(nodes_view(out@) =~= suffix_of(sv));
        }
        out
    }

    /// The rules on the route, outermost first, starting with the base rule.
    pub fn path(&self) -> (r: Vec<String>)
        ensures
            strs_view(r@) == rules_of(steps_view(self.steps@)),
    {
        let mut out: Vec<String> = Vec::new();
        let mut i: usize = 0;
        while i < self.steps.len()
            invariant
                i <= self.steps@.len(),
                strs_view(out@) == rules_of(steps_view(self.steps@)).take(i as int),
            decreases self.steps@.len() - i,
        {
            let ghost before = out@;
            out.push(self.steps[i].rule.clone());
            proof {
                assert(strs_view(out@) =~= strs_view(before).push(self.steps@[i as int].rule@));
                assert(rules_of(steps_view(self.steps@)).take(i + 1) =~= rules_of(steps_view(self.steps@)).take(i as int).push(
                    self.steps@[i as int].rule@,
                ));
            }
            i = i + 1;
        }
        proof {
            assert(rules_of(steps_view(self.steps@)).take(i as int) =~= rules_of(steps_view(self.steps@)));
        }
        out
    }

    /// The rules after the base rule (the cycle-closing one included): the rules a rewrite must
    /// clone with the cycle edge sheared off.
    pub fn intermediate_rules(&self) -> (r: Vec<String>)
        ensures
            strs_view(r@) == after_first(rules_of(steps_view(self.steps@))),
    {
        let mut out: Vec<String> = Vec::new();
        if self.steps.len() == 0 {
            proof {
                assert(strs_view(out@) =~= after_first(rules_of(steps_view(self.steps@))));
            }
            return out;
        }
        let ghost rs = rules_of(steps_view(self.steps@));
        let mut i: usize = 1;
        while i < self.steps.len()
            invariant
                rs == rules_of(steps_view(self.steps@)),
                1 <= i <= self.steps@.len(),
                strs_view(out@) == rs.subrange(1, i as int),
            decreases self.steps@.len() - i,
        {
            let ghost before = out@;
            out.push(self.steps[i].rule.clone());
            proof {
                assert(strs_view(out@) =~= strs_view(before).push(self.steps@[i as int].rule@));
                assert(rs.subrange(1, i + 1) =~= rs.subrange(1, i as int).push(rs[i as int]));
            }
            i = i + 1;
        }
        proof {
            assert(rs.subrange(1, i as int) =~= after_first(rs));
        }
        out
    }

    /// A route whose suffix is empty: iterating it would consume nothing.
    pub fn is_degenerate(&self) -> (r: bool)
        ensures
            r == (suffix_of(steps_view(self.steps@)).len() == 0),
    {
        proof {
            lemma_suffix_empty(steps_view(self.steps@));
        }
        let mut i: usize = 0;
        while i < self.steps.len()
            invariant
                i <= self.steps@.len(),
                forall|k: int| 0 <= k < i ==> (#[trigger] steps_view(self.steps@)[k]).residual.len() == 0,
            decreases self.steps@.len() - i,
        {
            proof {
                lemma_nodes_view(self.steps@[i as int].residual@);
            }
            if self.steps[i].residual.len() > 0 {
                proof {
                    assert(steps_view(self.steps@)[i as int].residual.len() > 0);
                    lemma_suffix_empty(steps_view(self.steps@));
                }
                return false;
            }
            i = i + 1;
        }
        true
    }

    /// A copy with the same model.
    pub fn deep_clone(&self) -> (r: ChainRoute)
        ensures
            r.base_alternative_index == self.base_alternative_index,
            steps_view(r.steps@) == steps_view(self.steps@),
    {
        let mut steps: Vec<ChainStep> = Vec::new();
        let mut i: usize = 0;
        while i < self.steps.len()
            invariant
                i <= self.steps@.len(),
                steps_view(steps@) == steps_view(self.steps@).take(i as int),
            decreases self.steps@.len() - i,
        {
            let ghost before = steps@;
            steps.push(self.steps[i].deep_clone());
            proof {
                assert(steps_view(steps@) =~= steps_view(before).push(self.steps@[i as int]@));
                assert(steps_view(self.steps@).take(i + 1) =~= steps_view(self.steps@).take(i as int).push(self.steps@[i as int]@));
            }
            i = i + 1;
        }
        proof {
            assert(steps_view(self.steps@).take(i as int) =~= steps_view(self.steps@));
        }
        ChainRoute { base_alternative_index: self.base_alternative_index, steps }
    }
}

/// Why a surviving cycle produced no route.
#[derive(Debug, Clone, Copy, PartialEq, Eq, Structural)]
pub enum DeclineReason {
    /// No rule on the cycle exposes a bare leading rule reference toward it.
    NoBareLeftCornerRoute,
    /// Every route iterates an empty suffix.
    OnlyDegenerateRoutes,
}

impl DeclineReason {
    /// A short, stable token for reports.
    pub fn token(&self) -> (r: &'static str)
        ensures
            r@ == (match *self {
                DeclineReason::NoBareLeftCornerRoute => "no_bare_left_corner_route"@,
                DeclineReason::OnlyDegenerateRoutes => "only_degenerate_routes"@,
            }),
    {
        match self {
            DeclineReason::NoBareLeftCornerRoute => "no_bare_left_corner_route",
            DeclineReason::OnlyDegenerateRoutes => "only_degenerate_routes",
        }
    }
}

/// A surviving cycle the survey could not turn into a plan, with the reason.
#[derive(Debug, Clone, PartialEq, Eq)]
pub struct DeclinedCycle {
    /// The rule the cycle was reported from.
    pub rule: String,
    /// The cycle the left-recursion detector reported.
    pub cycle: Vec<String>,
    pub reason: DeclineReason,
}

/// A site a greedy suffix could starve if the candidate absorbed the chain: a rule holding the
/// candidate, or a rule transparent to it, at a left corner with a non-empty residual.
#[derive(Debug, Clone, PartialEq, Eq)]
pub struct StarvationSite {
    pub rule: String,
    pub alternative_index: usize,
    /// The residual a greedy suffix could steal, rendered.
    pub residual: String,
    /// The holder is an intermediate of one of the candidate's own routes (context only).
    pub on_route: bool,
    /// The holder is still reachable after the rewrite, so it can still be starved.
    pub survives_rewrite: bool,
}

/// Everything the survey knows about one candidate base rule.
#[derive(Debug)]
pub struct IndirectChainCandidate {
    pub base_rule: String,
    /// Simple, non-degenerate left-corner routes from `base_rule` back to itself.
    pub routes: Vec<ChainRoute>,
    /// Route enumeration hit `MAX_ROUTES_PER_BASE`; the numbers are lower bounds.
    pub routes_truncated: bool,
    /// Alternatives of the base rule that no route leaves through.
    pub acyclic_alternative_indices: Vec<usize>,
    /// Sites exposed to the greedy-suffix starvation, in rule order.
    pub starvation_sites: Vec<StarvationSite>,
    /// Routes found and dropped for iterating an empty suffix.
    pub degenerate_routes_dropped: usize,
}

pub open spec fn routes_steps(v: Seq<ChainRoute>) -> Seq<Seq<StepView>> {
    v.map_values(|r: ChainRoute| steps_view(r.steps@))
}

/// The rules some route passes through after the base rule.
pub open spec fn intermediates(v: Seq<ChainRoute>) -> Set<Seq<char>> {
    Set::new(|x: Seq<char>| exists|i: int, k: int| 0 <= i < v.len() && 1 <= k < v[i].steps@.len() && (#[trigger] v[i].steps@[k]).rule@ == x)
}

/// The base rule and every rule a route's steps name (as step rule or as target).
pub open spec fn covered_set(base: Seq<char>, v: Seq<ChainRoute>) -> Set<Seq<char>> {
    Set::new(
        |x: Seq<char>|
            x == base || exists|i: int, k: int| 0 <= i < v.len() && 0 <= k < v[i].steps@.len() && ((#[trigger] v[i].steps@[k]).rule@ == x
                || v[i].steps@[k].next_rule@ == x),
    )
}

/// A name set built in sorted order.
fn sorted_set(s: &NameSet) -> (r: NameSet)
    ensures
        r@ == s@,
        crate::order::strictly_sorted(r.elems()),
{
    let v = crate::order::sorted_names(s);
    let mut out = NameSet::new();
    let mut i: usize = 0;
    proof {
        crate::order::lemma_sorted_no_duplicates(strs_view(v@));
    }
    while i < v.len()
        invariant
            i <= v@.len(),
            strs_view(v@).no_duplicates(),
            out.elems() == strs_view(v@).take(i as int),
        decreases v@.len() - i,
    {
        proof {
            assert(!strs_view(v@).take(i as int).contains(v@[i as int]@)) by {
                if strs_view(v@).take(i as int).contains(v@[i as int]@) {
                    let j = choose|j: int| 0 <= j < i && strs_view(v@).take(i as int)[j] == v@[i as int]@;
                    assert(strs_view(v@)[j] == strs_view(v@)[i as int]);
                }
            }
            assert(out@ == out.elems().to_set());
            assert(out.elems().to_set().contains(v@[i as int]@) == out.elems().contains(v@[i as int]@));
        }
        out.insert(v[i].clone());
        proof {
            assert(strs_view(v@).take(i + 1) =~= strs_view(v@).take(i as int).push(v@[i as int]@));
        }
        i = i + 1;
    }
    proof {
        assert(strs_view(v@).take(i as int) =~= strs_view(v@));
    }
    out
}

/// The rules some route passes through after the base rule.
fn intermediate_set(routes: &Vec<ChainRoute>) -> (r: NameSet)
    ensures
        r@ == intermediates(routes@),
{
    let mut acc = NameSet::new();
    let mut i: usize = 0;
    while i < routes.len()
        invariant
            i <= routes@.len(),
            acc@ == Set::new(|x: Seq<char>| exists|a: int, k: int| 0 <= a < i && 1 <= k < routes@[a].steps@.len() && (#[trigger] routes@[a].steps@[k]).rule@ == x),
        decreases routes@.len() - i,
    {
        let route = &routes[i];
        let ghost before = acc@;
        let mut k: usize = 1;
        while k < route.steps.len()
            invariant
                1 <= k <= route.steps@.len() || route.steps@.len() == 0,
                acc@ == before + Set::new(|x: Seq<char>| exists|q: int| 1 <= q < k && q < route.steps@.len() && (#[trigger] route.steps@[q]).rule@ == x),
            decreases route.steps@.len() - k,
        {
            acc.insert(route.steps[k].rule.clone());
            proof {
                assert(acc@ =~= before + Set::new(|x: Seq<char>| exists|q: int| 1 <= q < k + 1 && q < route.steps@.len() && (#[trigger] route.steps@[q]).rule@ == x));
            }
            k = k + 1;
        }
        proof {
            assert(acc@ =~= Set::new(|x: Seq<char>| exists|a: int, q: int| 0 <= a < i + 1 && 1 <= q < routes@[a].steps@.len() && (#[trigger] routes@[a].steps@[q]).rule@ == x)) by {
                assert forall|x: Seq<char>| #[trigger] acc@.contains(x) == exists|a: int, q: int| 0 <= a < i + 1 && 1 <= q < routes@[a].steps@.len() && (#[trigger] routes@[a].steps@[q]).rule@ == x by {
                    if exists|a: int, q: int| 0 <= a < i + 1 && 1 <= q < routes@[a].steps@.len() && (#[trigger] routes@[a].steps@[q]).rule@ == x {
                        let (a, q) = choose|a: int, q: int| 0 <= a < i + 1 && 1 <= q < routes@[a].steps@.len() && (#[trigger] routes@[a].steps@[q]).rule@ == x;
                        if a == i {
                            assert(route.steps@[q].rule@ == x);
                        }
                    }
                }
            }
        }
        i = i + 1;
    }
    proof {
        assert(acc@ =~= intermediates(routes@));
    }
    acc
}


impl IndirectChainCandidate {
    /// Distinct intermediates across all routes: one clone each.
    pub fn clone_cost(&self) -> (r: NameSet)
        ensures
            r@ == intermediates(self.routes@),
            crate::order::strictly_sorted(r.elems()),
    {
        let acc = intermediate_set(&self.routes);
        sorted_set(&acc)
    }

    /// Every rule this candidate's routes pass through, itself included.
    pub fn covered_rules(&self) -> (r: NameSet)
        ensures
            r@ == covered_set(self.base_rule@, self.routes@),
            crate::order::strictly_sorted(r.elems()),
    {
        let mut acc = NameSet::new();
        acc.insert(self.base_rule.clone());
        let mut i: usize = 0;
        while i < self.routes.len()
            invariant
                i <= self.routes@.len(),
                acc@ == Set::new(|x: Seq<char>| x == self.base_rule@ || exists|a: int, k: int| 0 <= a < i && 0 <= k < self.routes@[a].steps@.len() && ((#[trigger] self.routes@[a].steps@[k]).rule@ == x || self.routes@[a].steps@[k].next_rule@ == x)),
            decreases self.routes@.len() - i,
        {
            let route = &self.routes[i];
            let ghost before = acc@;
            let mut k: usize = 0;
            while k < route.steps.len()
                invariant
                    k <= route.steps@.len(),
                    acc@ == before + Set::new(|x: Seq<char>| exists|q: int| 0 <= q < k && ((#[trigger] route.steps@[q]).rule@ == x || route.steps@[q].next_rule@ == x)),
                decreases route.steps@.len() - k,
            {
                acc.insert(route.steps[k].rule.clone());
                acc.insert(route.steps[k].next_rule.clone());
                proof {
                    assert(acc@ =~= before + Set::new(|x: Seq<char>| exists|q: int| 0 <= q < k + 1 && ((#[trigger] route.steps@[q]).rule@ == x || route.steps@[q].next_rule@ == x)));
                }
                k = k + 1;
            }
            proof {
                assert forall|x: Seq<char>| #[trigger] acc@.contains(x) == (x == self.base_rule@ || exists|a: int, q: int| 0 <= a < i + 1 && 0 <= q < self.routes@[a].steps@.len() && ((#[trigger] self.routes@[a].steps@[q]).rule@ == x || self.routes@[a].steps@[q].next_rule@ == x)) by {
                    if exists|a: int, q: int| 0 <= a < i + 1 && 0 <= q < self.routes@[a].steps@.len() && ((#[trigger] self.routes@[a].steps@[q]).rule@ == x || self.routes@[a].steps@[q].next_rule@ == x) {
                        let (a, q) = choose|a: int, q: int| 0 <= a < i + 1 && 0 <= q < self.routes@[a].steps@.len() && ((#[trigger] self.routes@[a].steps@[q]).rule@ == x || self.routes@[a].steps@[q].next_rule@ == x);
                        if a == i {
                            assert(route.steps@[q] == self.routes@[a].steps@[q]);
                        }
                    }
                }
                assert(acc@ =~= Set::new(|x: Seq<char>| x == self.base_rule@ || exists|a: int, k: int| 0 <= a < i + 1 && 0 <= k < self.routes@[a].steps@.len() && ((#[trigger] self.routes@[a].steps@[k]).rule@ == x || self.routes@[a].steps@[k].next_rule@ == x)));
            }
            i = i + 1;
        }
        proof {
            assert(acc@ =~= covered_set(self.base_rule@, self.routes@));
        }
        sorted_set(&acc)
    }

    /// The starvation sites still reachable after the rewrite: the real hazard.
    pub fn surviving_starvation_sites(&self) -> (r: Vec<&StarvationSite>)
        ensures
            r@.map_values(|x: &StarvationSite| *x) == self.starvation_sites@.filter(|x: StarvationSite| x.survives_rewrite),
    {
        let ghost pred = |x: StarvationSite| x.survives_rewrite;
        let mut out: Vec<&StarvationSite> = Vec::new();
        let mut i: usize = 0;
        while i < self.starvation_sites.len()
            invariant
                pred == (|x: StarvationSite| x.survives_rewrite),
                i <= self.starvation_sites@.len(),
                out@.map_values(|x: &StarvationSite| *x) == self.starvation_sites@.take(i as int).filter(pred),
            decreases self.starvation_sites@.len() - i,
        {
            let site = &self.starvation_sites[i];
            proof {
                assert(self.starvation_sites@.take(i + 1) =~= self.starvation_sites@.take(i as int).push(*site));
                self.starvation_sites@.take(i as int).lemma_filter_push(*site, pred);
            }
            if site.survives_rewrite {
                let ghost before = out@;
                out.push(site);
                proof {
                    assert(out@.map_values(|x: &StarvationSite| *x) =~= before.map_values(|x: &StarvationSite| *x).push(*site));
                }
            }
            i = i + 1;
        }
        proof {
            assert(self.starvation_sites@.take(i as int) =~= self.starvation_sites@);
        }
        out
    }

    /// May this rule absorb the chain? Only when no site that outlives the rewrite holds it.
    pub fn is_starvation_safe(&self) -> (r: bool)
        ensures
            r == forall|i: int| 0 <= i < self.starvation_sites@.len() ==> !(#[trigger] self.starvation_sites@[i]).survives_rewrite,
    {
        let mut i: usize = 0;
        while i < self.starvation_sites.len()
            invariant
                i <= self.starvation_sites@.len(),
                forall|j: int| 0 <= j < i ==> !(#[trigger] self.starvation_sites@[j]).survives_rewrite,
            decreases self.starvation_sites@.len() - i,
        {
            if self.starvation_sites[i].survives_rewrite {
                return false;
            }
            i = i + 1;
        }
        true
    }
}

pub open spec fn candidate_safe(c: IndirectChainCandidate) -> bool {
    forall|i: int| 0 <= i < c.starvation_sites@.len() ==> !(#[trigger] c.starvation_sites@[i]).survives_rewrite
}

/// The survey's whole result.
#[derive(Debug)]
pub struct IndirectChainSurvey {
    /// One entry per left-recursive rule with at least one non-degenerate route, in rule order.
    pub candidates: Vec<IndirectChainCandidate>,
    /// Left-recursive rules the survey declined, with reasons.
    pub declined: Vec<DeclinedCycle>,
    /// Every left-recursive rule, in rule order: the survey's denominator.
    pub surviving_cycle_rules: Vec<String>,
}

impl IndirectChainSurvey {
    /// The starvation-safe candidates: the rules a rewrite may target.
    pub fn safe_candidates(&self) -> (r: Vec<&IndirectChainCandidate>)
        ensures
            r@.map_values(|x: &IndirectChainCandidate| x.base_rule@) == self.candidates@.filter(
                |c: IndirectChainCandidate| candidate_safe(c),
            ).map_values(|c: IndirectChainCandidate| c.base_rule@),
            forall|i: int| 0 <= i < r@.len() ==> candidate_safe(*(#[trigger] r@[i])),
    {
        let ghost pred = |c: IndirectChainCandidate| candidate_safe(c);
        let ghost nm = |c: IndirectChainCandidate| c.base_rule@;
        let mut out: Vec<&IndirectChainCandidate> = Vec::new();
        let mut i: usize = 0;
        while i < self.candidates.len()
            invariant
                pred == (|c: IndirectChainCandidate| candidate_safe(c)),
                nm == (|c: IndirectChainCandidate| c.base_rule@),
                i <= self.candidates@.len(),
                out@.map_values(|x: &IndirectChainCandidate| x.base_rule@) == self.candidates@.take(i as int).filter(pred).map_values(nm),
                forall|j: int| 0 <= j < out@.len() ==> candidate_safe(*(#[trigger] out@[j])),
            decreases self.candidates@.len() - i,
        {
            let c = &self.candidates[i];
            proof {
                assert(self.candidates@.take(i + 1) =~= self.candidates@.take(i as int).push(*c));
                self.candidates@.take(i as int).lemma_filter_push(*c, pred);
            }
            if c.is_starvation_safe() {
                let ghost before = out@;
                out.push(c);
                proof {
                    assert(out@.map_values(|x: &IndirectChainCandidate| x.base_rule@) =~= before.map_values(|x: &IndirectChainCandidate| x.base_rule@).push(c.base_rule@));
                    assert(self.candidates@.take(i + 1).filter(pred).map_values(nm) =~= self.candidates@.take(i as int).filter(pred).map_values(nm).push(c.base_rule@));
                }
            } else {
                proof {
                    assert(self.candidates@.take(i + 1).filter(pred) == self.candidates@.take(i as int).filter(pred));
                }
            }
            i = i + 1;
        }
        proof {
            assert(self.candidates@.take(i as int) =~= self.candidates@);
        }
        out
    }

    /// Cycle rules covered by at least one candidate (its base or a rule of its routes).
    pub fn covered_cycle_rules(&self) -> (r: NameSet)
        ensures
            crate::order::strictly_sorted(r.elems()),
            forall|x: Seq<char>| #[trigger] r@.contains(x) <==> strs_view(self.surviving_cycle_rules@).contains(x) && exists|i: int|
                0 <= i < self.candidates@.len() && (self.candidates@[i].base_rule@ == x || exists|a: int, k: int| 0 <= a < self.candidates@[i].routes@.len()
                    && 0 <= k < self.candidates@[i].routes@[a].steps@.len() && (#[trigger] self.candidates@[i].routes@[a].steps@[k]).rule@ == x),
    {
        let mut acc = NameSet::new();
        let mut i: usize = 0;
        while i < self.candidates.len()
            invariant
                i <= self.candidates@.len(),
                forall|x: Seq<char>| #[trigger] acc@.contains(x) <==> strs_view(self.surviving_cycle_rules@).contains(x) && exists|j: int|
                    0 <= j < i && (self.candidates@[j].base_rule@ == x || exists|a: int, k: int| 0 <= a < self.candidates@[j].routes@.len()
                        && 0 <= k < self.candidates@[j].routes@[a].steps@.len() && (#[trigger] self.candidates@[j].routes@[a].steps@[k]).rule@ == x),
            decreases self.candidates@.len() - i,
        {
            let c = &self.candidates[i];
            let ghost before = acc@;
            if crate::names::strings_contain(self.surviving_cycle_rules.as_slice(), c.base_rule.as_str()) {
                acc.insert(c.base_rule.clone());
            }
            let mut a: usize = 0;
            while a < c.routes.len()
                invariant
                    a <= c.routes@.len(),
                    forall|x: Seq<char>| #[trigger] acc@.contains(x) <==> before.contains(x) || (strs_view(self.surviving_cycle_rules@).contains(x) && (c.base_rule@ == x
                        || exists|a2: int, k: int| 0 <= a2 < a && 0 <= k < c.routes@[a2].steps@.len() && (#[trigger] c.routes@[a2].steps@[k]).rule@ == x)),
                decreases c.routes@.len() - a,
            {
                let route = &c.routes[a];
                let ghost b2 = acc@;
                let mut k: usize = 0;
                while k < route.steps.len()
                    invariant
                        k <= route.steps@.len(),
                        forall|x: Seq<char>| #[trigger] acc@.contains(x) <==> b2.contains(x) || (strs_view(self.surviving_cycle_rules@).contains(x)
                            && exists|q: int| 0 <= q < k && (#[trigger] route.steps@[q]).rule@ == x),
                    decreases route.steps@.len() - k,
                {
                    if crate::names::strings_contain(self.surviving_cycle_rules.as_slice(), route.steps[k].rule.as_str()) {
                        acc.insert(route.steps[k].rule.clone());
                    }
                    proof {
                        assert forall|x: Seq<char>| #[trigger] acc@.contains(x) <==> b2.contains(x) || (strs_view(self.surviving_cycle_rules@).contains(x)
                            && exists|q: int| 0 <= q < k + 1 && (#[trigger] route.steps@[q]).rule@ == x) by {
                            if exists|q: int| 0 <= q < k + 1 && (#[trigger] route.steps@[q]).rule@ == x {
                                let q = choose|q: int| 0 <= q < k + 1 && (#[trigger] route.steps@[q]).rule@ == x;
                            }
                        }
                    }
                    k = k + 1;
                }
                proof {
                    assert forall|x: Seq<char>| #[trigger] acc@.contains(x) <==> before.contains(x) || (strs_view(self.surviving_cycle_rules@).contains(x) && (c.base_rule@ == x
                        || exists|a2: int, k2: int| 0 <= a2 < a + 1 && 0 <= k2 < c.routes@[a2].steps@.len() && (#[trigger] c.routes@[a2].steps@[k2]).rule@ == x)) by {
                        if exists|a2: int, k2: int| 0 <= a2 < a + 1 && 0 <= k2 < c.routes@[a2].steps@.len() && (#[trigger] c.routes@[a2].steps@[k2]).rule@ == x {
                            let (a2, k2) = choose|a2: int, k2: int| 0 <= a2 < a + 1 && 0 <= k2 < c.routes@[a2].steps@.len() && (#[trigger] c.routes@[a2].steps@[k2]).rule@ == x;
                            if a2 == a {
                                assert(route.steps@[k2].rule@ == x);
                            }
                        }
                        if exists|q: int| 0 <= q < route.steps@.len() && (#[trigger] route.steps@[q]).rule@ == x {
                            let q = choose|q: int| 0 <= q < route.steps@.len() && (#[trigger] route.steps@[q]).rule@ == x;
                            assert(c.routes@[a as int].steps@[q].rule@ == x);
                        }
                    }
                }
                a = a + 1;
            }
            proof {
                assert forall|x: Seq<char>| #[trigger] acc@.contains(x) <==> strs_view(self.surviving_cycle_rules@).contains(x) && exists|j: int|
                    0 <= j < i + 1 && (self.candidates@[j].base_rule@ == x || exists|a2: int, k: int| 0 <= a2 < self.candidates@[j].routes@.len()
                        && 0 <= k < self.candidates@[j].routes@[a2].steps@.len() && (#[trigger] self.candidates@[j].routes@[a2].steps@[k]).rule@ == x) by {
                    if strs_view(self.surviving_cycle_rules@).contains(x) && exists|j: int|
                    0 <= j < i + 1 && (self.candidates@[j].base_rule@ == x || exists|a2: int, k: int| 0 <= a2 < self.candidates@[j].routes@.len()
                        && 0 <= k < self.candidates@[j].routes@[a2].steps@.len() && (#[trigger] self.candidates@[j].routes@[a2].steps@[k]).rule@ == x) {
                        let j = choose|j: int| 0 <= j < i + 1 && (self.candidates@[j].base_rule@ == x || exists|a2: int, k: int| 0 <= a2 < self.candidates@[j].routes@.len()
                            && 0 <= k < self.candidates@[j].routes@[a2].steps@.len() && (#[trigger] self.candidates@[j].routes@[a2].steps@[k]).rule@ == x);
                        if j == i {
                            assert(self.candidates@[j] == *c);
                        }
                    }
                }
            }
            i = i + 1;
        }
        sorted_set(&acc)
    }
}

// ---------------------------------------------------------------------------------------------
// Survivors and starvation sites
// ---------------------------------------------------------------------------------------------

/// Among the plan's rules, `a -> b`: `a` (not the base, defined) names `b` in its body.
pub open spec fn survive_edge(g: Map<Seq<char>, ASTNode>, plan: Set<Seq<char>>, base: Seq<char>) -> spec_fn(Seq<char>, Seq<char>) -> bool {
    |a: Seq<char>, b: Seq<char>| plan.contains(a) && a != base && g.dom().contains(a) && plan.contains(b) && node_refs(g[a]@).contains(b)
}

/// The plan's rules that stay named after the rewrite: from a rule of the order outside the plan,
/// from an acyclic alternative of the base (kept verbatim), or from a route's suffix.
pub open spec fn survive_seeds(
    g: Map<Seq<char>, ASTNode>,
    ord: Seq<Seq<char>>,
    base: Seq<char>,
    plan: Set<Seq<char>>,
    acyclic: Seq<usize>,
    routes: Seq<Seq<StepView>>,
) -> Set<Seq<char>> {
    Set::new(
        |x: Seq<char>|
            plan.contains(x) && ((exists|r: Seq<char>| ord.contains(r) && !plan.contains(r) && g.dom().contains(r) && #[trigger] node_refs(g[r]@).contains(x))
                || (g.dom().contains(base) && exists|i: int| 0 <= i < acyclic.len() && acyclic[i] < alts_of(g[base]@).len()
                    && #[trigger] node_refs(alts_of(g[base]@)[acyclic[i] as int]).contains(x))
                || (exists|a: int, k: int| 0 <= a < routes.len() && 0 <= k < suffix_of(routes[a]).len() && #[trigger] node_refs(suffix_of(routes[a])[k]).contains(x))),
    )
}

/// The plan's rules still reachable once the base absorbs the chain (the base included).
pub open spec fn survivors_spec(
    g: Map<Seq<char>, ASTNode>,
    ord: Seq<Seq<char>>,
    base: Seq<char>,
    on_route: Set<Seq<char>>,
    acyclic: Seq<usize>,
    routes: Seq<Seq<StepView>>,
) -> Set<Seq<char>> {
    reach_set(survive_edge(g, on_route.insert(base), base), survive_seeds(g, ord, base, on_route.insert(base), acyclic, routes)).insert(base)
}

/// Add to `out` the rules of `plan` that `node` names.
fn refs_in_plan(node: &ASTNode, plan: &NameSet, out: &mut NameSet)
    ensures
        final(out)@ == old(out)@ + node_refs(node@).intersect(plan@),
{
    let mut all = NameSet::new();
    crate::wellformed::collect_node_rule_refs(node, &mut all);
    let n = all.len();
    let ghost base = out@;
    let mut i: usize = 0;
    while i < n
        invariant
            n == all.elems().len(),
            all@ == all.elems().to_set(),
            all@ == node_refs(node@),
            i <= n,
            out@ == base + all.elems().take(i as int).to_set().intersect(plan@),
        decreases n - i,
    {
        let x = all.get(i);
        proof {
            assert(all.elems().take(i + 1) =~= all.elems().take(i as int).push(x@));
            crate::names::lemma_push_to_set_pub(all.elems().take(i as int), x@);
        }
        if plan.contains(x.as_str()) {
            out.insert(x.clone());
        }
        proof {
            assert(out@ =~= base + all.elems().take(i + 1).to_set().intersect(plan@));
        }
        i = i + 1;
    }
    proof {
        assert(all.elems().take(n as int) =~= all.elems());
        assert(out@ =~= base + node_refs(node@).intersect(plan@));
    }
}

/// Which of the plan's rules stay reachable after the base rule absorbs the chain: the least set
/// named from outside the plan, from the base's acyclic alternatives or the routes' suffixes, and
/// closed under what a surviving rule's (unchanged) body names; the base itself always stays.
pub fn rules_surviving_rewrite(
    base_rule: &String,
    routes: &[ChainRoute],
    on_route_rules: &NameSet,
    acyclic_alternative_indices: &[usize],
    grammar: &StrMap<ASTNode>,
    rule_order: &[String],
) -> (r: NameSet)
    ensures
        r@ == survivors_spec(grammar@, strs_view(rule_order@), base_rule@, on_route_rules@, acyclic_alternative_indices@,
            routes_steps(routes@)),
{
    let ghost g = grammar@;
    let ghost ord = strs_view(rule_order@);
    let ghost b = base_rule@;
    let mut plan = copy_names(on_route_rules);
    plan.insert(base_rule.clone());
    let ghost pl = plan@;
    let ghost rs = routes_steps(routes@);
    // Seeds from outside the plan.
    let mut seeds = NameSet::new();
    let mut i: usize = 0;
    while i < rule_order.len()
        invariant
            g == grammar@,
            ord == strs_view(rule_order@),
            pl == plan@,
            i <= rule_order@.len(),
            seeds@ == Set::new(|x: Seq<char>| pl.contains(x) && exists|r: Seq<char>| ord.take(i as int).contains(r) && !pl.contains(r) && g.dom().contains(r) && #[trigger] node_refs(g[r]@).contains(x)),
        decreases rule_order@.len() - i,
    {
        let rule = &rule_order[i];
        let ghost before = seeds@;
        if !plan.contains(rule.as_str()) {
            match grammar.get(rule.as_str()) {
                Some(body) => refs_in_plan(body, &plan, &mut seeds),
                None => {},
            }
        }
        proof {
            assert(ord.take(i + 1) =~= ord.take(i as int).push(rule@));
            assert forall|r: Seq<char>| #[trigger] ord.take(i + 1).contains(r) == (ord.take(i as int).contains(r) || r == rule@) by {
                if ord.take(i + 1).contains(r) {
                    let j = choose|j: int| 0 <= j < ord.take(i + 1).len() && #[trigger] ord.take(i + 1)[j] == r;
                    if j < i {
                        assert(ord.take(i as int)[j] == r);
                    }
                }
                if ord.take(i as int).contains(r) {
                    let j = choose|j: int| 0 <= j < ord.take(i as int).len() && #[trigger] ord.take(i as int)[j] == r;
                    assert(ord.take(i + 1)[j] == r);
                }
                if r == rule@ {
                    assert(ord.take(i + 1)[i as int] == r);
                }
            }
            assert(seeds@ =~= Set::new(|x: Seq<char>| pl.contains(x) && exists|r: Seq<char>| ord.take(i + 1).contains(r) && !pl.contains(r) && g.dom().contains(r) && #[trigger] node_refs(g[r]@).contains(x)));
        }
        i = i + 1;
    }
    proof {
        assert(ord.take(ord.len() as int) =~= ord);
    }
    let ghost s1 = seeds@;
    // Seeds from the base's acyclic alternatives.
    match grammar.get(base_rule.as_str()) {
        Some(body) => {
            let n = alt_count(body);
            let mut k: usize = 0;
            while k < acyclic_alternative_indices.len()
                invariant
                    pl == plan@,
                    g.dom().contains(b),
                    g[b] == *body,
                    n == alts_of(g[b]@).len(),
                    k <= acyclic_alternative_indices@.len(),
                    seeds@ == s1 + Set::new(|x: Seq<char>| pl.contains(x) && exists|q: int| 0 <= q < k && acyclic_alternative_indices@[q] < n
                        && #[trigger] node_refs(alts_of(g[b]@)[acyclic_alternative_indices@[q] as int]).contains(x)),
                decreases acyclic_alternative_indices@.len() - k,
            {
                let idx = acyclic_alternative_indices[k];
                if idx < n {
                    refs_in_plan(alt_at(body, idx), &plan, &mut seeds);
                }
                proof {
                    let tgt = s1 + Set::new(|x: Seq<char>| pl.contains(x) && exists|q: int| 0 <= q < k + 1 && acyclic_alternative_indices@[q] < n
                        && #[trigger] node_refs(alts_of(g[b]@)[acyclic_alternative_indices@[q] as int]).contains(x));
                    assert forall|x: Seq<char>| #[trigger] seeds@.contains(x) == tgt.contains(x) by {
                        if idx < n && node_refs(alts_of(g[b]@)[idx as int]).contains(x) {
                            assert(acyclic_alternative_indices@[k as int] == idx);
                        }
                        if exists|q: int| 0 <= q < k + 1 && acyclic_alternative_indices@[q] < n
                            && #[trigger] node_refs(alts_of(g[b]@)[acyclic_alternative_indices@[q] as int]).contains(x) {
                            let q = choose|q: int| 0 <= q < k + 1 && acyclic_alternative_indices@[q] < n
                                && #[trigger] node_refs(alts_of(g[b]@)[acyclic_alternative_indices@[q] as int]).contains(x);
                        }
                    }
                    assert(seeds@ =~= tgt);
                }
                k = k + 1;
            }
        },
        None => {
            proof {
                assert(seeds@ =~= s1 + Set::new(|x: Seq<char>| pl.contains(x) && (g.dom().contains(b) && exists|q: int| 0 <= q < acyclic_alternative_indices@.len()
                    && acyclic_alternative_indices@[q] < alts_of(g[b]@).len() && #[trigger] node_refs(alts_of(g[b]@)[acyclic_alternative_indices@[q] as int]).contains(x))));
            }
        },
    }
    let ghost s2 = seeds@;
    proof {
        assert(s2 == s1 + Set::new(|x: Seq<char>| pl.contains(x) && (g.dom().contains(b) && exists|q: int| 0 <= q < acyclic_alternative_indices@.len()
            && acyclic_alternative_indices@[q] < alts_of(g[b]@).len() && #[trigger] node_refs(alts_of(g[b]@)[acyclic_alternative_indices@[q] as int]).contains(x))));
    }
    // Seeds from the routes' suffixes.
    let mut a: usize = 0;
    while a < routes.len()
        invariant
            pl == plan@,
            rs == routes_steps(routes@),
            a <= routes@.len(),
            seeds@ == s2 + Set::new(|x: Seq<char>| pl.contains(x) && exists|a2: int, k: int| 0 <= a2 < a && 0 <= k < suffix_of(rs[a2]).len() && #[trigger] node_refs(suffix_of(rs[a2])[k]).contains(x)),
        decreases routes@.len() - a,
    {
        let suffix = routes[a].suffix_elements();
        proof {
            lemma_nodes_view(suffix@);
            assert(rs[a as int] == steps_view(routes@[a as int].steps@));
        }
        let ghost before = seeds@;
        let mut k: usize = 0;
        while k < suffix.len()
            invariant
                pl == plan@,
                k <= suffix@.len(),
                nodes_view(suffix@) == suffix_of(rs[a as int]),
                nodes_view(suffix@).len() == suffix@.len(),
                seeds@ == before + Set::new(|x: Seq<char>| pl.contains(x) && exists|q: int| 0 <= q < k && #[trigger] node_refs(nodes_view(suffix@)[q]).contains(x)),
            decreases suffix@.len() - k,
        {
            refs_in_plan(&suffix[k], &plan, &mut seeds);
            proof {
                lemma_nodes_view(suffix@);
                let tgt = before + Set::new(|x: Seq<char>| pl.contains(x) && exists|q: int| 0 <= q < k + 1 && #[trigger] node_refs(nodes_view(suffix@)[q]).contains(x));
                assert forall|x: Seq<char>| #[trigger] seeds@.contains(x) == tgt.contains(x) by {
                    assert(nodes_view(suffix@)[k as int] == node_view(suffix@[k as int]));
                    if exists|q: int| 0 <= q < k + 1 && #[trigger] node_refs(nodes_view(suffix@)[q]).contains(x) {
                        let q = choose|q: int| 0 <= q < k + 1 && #[trigger] node_refs(nodes_view(suffix@)[q]).contains(x);
                    }
                }
                assert(seeds@ =~= tgt);
            }
            k = k + 1;
        }
        proof {
            let tgt = s2 + Set::new(|x: Seq<char>| pl.contains(x) && exists|a2: int, k2: int| 0 <= a2 < a + 1 && 0 <= k2 < suffix_of(rs[a2]).len() && #[trigger] node_refs(suffix_of(rs[a2])[k2]).contains(x));
            assert forall|x: Seq<char>| #[trigger] seeds@.contains(x) == tgt.contains(x) by {
                if exists|a2: int, k2: int| 0 <= a2 < a + 1 && 0 <= k2 < suffix_of(rs[a2]).len() && #[trigger] node_refs(suffix_of(rs[a2])[k2]).contains(x) {
                    let (a2, k2) = choose|a2: int, k2: int| 0 <= a2 < a + 1 && 0 <= k2 < suffix_of(rs[a2]).len() && #[trigger] node_refs(suffix_of(rs[a2])[k2]).contains(x);
                    if a2 == a {
                        assert(node_refs(nodes_view(suffix@)[k2]).contains(x));
                    }
                }
                if exists|q: int| 0 <= q < suffix@.len() && #[trigger] node_refs(nodes_view(suffix@)[q]).contains(x) {
                    let q = choose|q: int| 0 <= q < suffix@.len() && #[trigger] node_refs(nodes_view(suffix@)[q]).contains(x);
                    assert(node_refs(suffix_of(rs[a as int])[q]).contains(x));
                }
            }
            assert(seeds@ =~= tgt);
        }
        a = a + 1;
    }
    proof {
        assert(plan@ == on_route_rules@.insert(b));
        assert(seeds@ =~= survive_seeds(g, ord, b, pl, acyclic_alternative_indices@, rs));
    }
    // The edges among the plan's rules.
    let mut adj: StrMap<NameSet> = StrMap::new();
    let np = plan.len();
    let mut q: usize = 0;
    while q < np
        invariant
            g == grammar@,
            b == base_rule@,
            pl == plan@,
            np == plan.elems().len(),
            plan@ == plan.elems().to_set(),
            q <= np,
            forall|x: Seq<char>, y: Seq<char>| #[trigger] adj_edge(adj@, x, y) == (plan.elems().take(q as int).contains(x) && survive_edge(g, pl, b)(x, y)),
        decreases np - q,
    {
        let p = plan.get(q);
        let ghost before = adj@;
        if !str_eq(p.as_str(), base_rule.as_str()) {
            match grammar.get(p.as_str()) {
                Some(body) => {
                    let mut targets = NameSet::new();
                    refs_in_plan(body, &plan, &mut targets);
                    proof {
                        assert(targets@ =~= node_refs(g[p@]@).intersect(pl));
                    }
                    let nt = targets.len();
                    let mut j: usize = 0;
                    while j < nt
                        invariant
                            nt == targets.elems().len(),
                            targets@ == targets.elems().to_set(),
                            g.dom().contains(p@),
                            targets@ == node_refs(g[p@]@).intersect(pl),
                            j <= nt,
                            forall|x: Seq<char>, y: Seq<char>| #[trigger] adj_edge(adj@, x, y) == (adj_edge(before, x, y) || (x == p@ && targets.elems().take(j as int).contains(y))),
                        decreases nt - j,
                    {
                        let tgt = targets.get(j);
                        add_edge(&mut adj, p, tgt);
                        proof {
                            assert forall|x: Seq<char>, y: Seq<char>| #[trigger] adj_edge(adj@, x, y) == (adj_edge(before, x, y) || (x == p@ && targets.elems().take(j + 1).contains(y))) by {
                                if targets.elems().take(j + 1).contains(y) {
                                    let m = choose|m: int| 0 <= m < j + 1 && #[trigger] targets.elems().take(j + 1)[m] == y;
                                    if m < j {
                                        assert(targets.elems().take(j as int)[m] == y);
                                    }
                                }
                                if targets.elems().take(j as int).contains(y) {
                                    let m = choose|m: int| 0 <= m < j && #[trigger] targets.elems().take(j as int)[m] == y;
                                    assert(targets.elems().take(j + 1)[m] == y);
                                }
                                if y == tgt@ {
                                    assert(targets.elems().take(j + 1)[j as int] == y);
                                }
                            }
                        }
                        j = j + 1;
                    }
                    proof {
                        assert(targets.elems().take(nt as int) =~= targets.elems());
                        assert forall|y: Seq<char>| #[trigger] targets.elems().contains(y) == (node_refs(g[p@]@).contains(y) && pl.contains(y)) by {
                            assert(targets.elems().to_set().contains(y) == targets.elems().contains(y));
                        }
                        assert(plan.elems().to_set().contains(p@)) by {
                            assert(plan.elems()[q as int] == p@);
                        }
                        assert forall|x: Seq<char>, y: Seq<char>| #[trigger] adj_edge(adj@, x, y) == (adj_edge(before, x, y) || (x == p@ && survive_edge(g, pl, b)(x, y))) by {
                            if x == p@ {
                                assert(targets.elems().contains(y) == (node_refs(g[p@]@).contains(y) && pl.contains(y)));
                            }
                        }
                    }
                },
                None => {
                    proof {
                        assert forall|x: Seq<char>, y: Seq<char>| #[trigger] adj_edge(adj@, x, y) == (adj_edge(before, x, y) || (x == p@ && survive_edge(g, pl, b)(x, y))) by {}
                    }
                },
            }
        } else {
            proof {
                assert forall|x: Seq<char>, y: Seq<char>| #[trigger] adj_edge(adj@, x, y) == (adj_edge(before, x, y) || (x == p@ && survive_edge(g, pl, b)(x, y))) by {}
            }
        }
        proof {
            assert forall|x: Seq<char>, y: Seq<char>| #[trigger] adj_edge(adj@, x, y) == (plan.elems().take(q + 1).contains(x) && survive_edge(g, pl, b)(x, y)) by {
                assert(plan.elems().take(q + 1) =~= plan.elems().take(q as int).push(p@));
                if plan.elems().take(q + 1).contains(x) {
                    let m = choose|m: int| 0 <= m < q + 1 && #[trigger] plan.elems().take(q + 1)[m] == x;
                    if m < q {
                        assert(plan.elems().take(q as int)[m] == x);
                    }
                }
                if plan.elems().take(q as int).contains(x) {
                    let m = choose|m: int| 0 <= m < q && #[trigger] plan.elems().take(q as int)[m] == x;
                    assert(plan.elems().take(q + 1)[m] == x);
                }
                if x == p@ {
                    assert(plan.elems().take(q + 1)[q as int] == x);
                    assert(plan.elems().to_set().contains(x));
                    if plan.elems().take(q as int).contains(x) {
                        let m = choose|m: int| 0 <= m < q && #[trigger] plan.elems().take(q as int)[m] == x;
                        assert(plan.elems()[m] == plan.elems()[q as int]);
                    }
                }
            }
        }
        q = q + 1;
    }
    proof {
        assert(plan.elems().take(np as int) =~= plan.elems());
        assert(adj_rel(adj@) =~= survive_edge(g, pl, b)) by {
            assert forall|x: Seq<char>, y: Seq<char>| #[trigger] adj_rel(adj@)(x, y) == survive_edge(g, pl, b)(x, y) by {
                if survive_edge(g, pl, b)(x, y) {
                    assert(plan.elems().to_set().contains(x));
                }
            }
        }
    }
    let mut live = reach_closure(&adj, &seeds);
    live.insert(base_rule.clone());
    live
}

/// The model of a starvation site.
pub struct SiteView {
    pub rule: Seq<char>,
    pub alt: nat,
    pub residual: Seq<char>,
    pub on_route: bool,
    pub survives: bool,
}

pub open spec fn site_view(x: StarvationSite) -> SiteView {
    SiteView {
        rule: x.rule@,
        alt: x.alternative_index as nat,
        residual: x.residual@,
        on_route: x.on_route,
        survives: x.survives_rewrite,
    }
}

pub open spec fn sites_view(v: Seq<StarvationSite>) -> Seq<SiteView> {
    v.map_values(|x: StarvationSite| site_view(x))
}

/// A step holding a transparent rule at its left corner with a non-empty residual.
pub open spec fn holds_transparent(x: StepView, tr: Set<Seq<char>>) -> bool {
    tr.contains(x.next) && x.residual.len() > 0
}

/// The site a holding step makes: a holder on a route survives only if the rewrite keeps it.
pub open spec fn site_of(r: Seq<char>, x: StepView, on_route: Set<Seq<char>>, surv: Set<Seq<char>>) -> SiteView {
    SiteView {
        rule: r,
        alt: x.alt,
        residual: render_join(x.residual, " "@),
        on_route: on_route.contains(r),
        survives: !on_route.contains(r) || surv.contains(r),
    }
}

/// The sites of rule `r` whose steps are `steps`.
pub open spec fn sites_of_rule(r: Seq<char>, steps: Seq<StepView>, tr: Set<Seq<char>>, on_route: Set<Seq<char>>, surv: Set<Seq<char>>) -> Seq<SiteView> {
    steps.filter(|x: StepView| holds_transparent(x, tr)).map_values(|x: StepView| site_of(r, x, on_route, surv))
}

/// Every site, rule by rule in the order (the base and undefined rules skipped), steps in order.
pub open spec fn sites_spec(t: StepTable, ord: Seq<Seq<char>>, base: Seq<char>, on_route: Set<Seq<char>>, surv: Set<Seq<char>>) -> Seq<SiteView> {
    concat_map(
        ord,
        |r: Seq<char>| if r != base && t.dom().contains(r) {
            sites_of_rule(r, t[r], transparent(t, base), on_route, surv)
        } else {
            Seq::empty()
        },
    )
}

/// Every site holding a rule transparent to `base_rule` at a left corner with a non-empty
/// residual, in rule order.
pub fn collect_starvation_sites(
    base_rule: &String,
    table: &StrMap<Vec<ChainStep>>,
    rule_order: &[String],
    on_route_rules: &NameSet,
    survivors: &NameSet,
) -> (r: Vec<StarvationSite>)
    ensures
        sites_view(r@) == sites_spec(table_view(table@), strs_view(rule_order@), base_rule@, on_route_rules@, survivors@),
{
    let ghost t = table_view(table@);
    let ghost ord = strs_view(rule_order@);
    let ghost onr = on_route_rules@;
    let ghost sv = survivors@;
    let tr = rules_transparent_to(base_rule, table);
    let ghost f = |r: Seq<char>| if r != base_rule@ && t.dom().contains(r) {
        sites_of_rule(r, t[r], transparent(t, base_rule@), onr, sv)
    } else {
        Seq::empty()
    };
    let mut out: Vec<StarvationSite> = Vec::new();
    let mut i: usize = 0;
    while i < rule_order.len()
        invariant
            t == table_view(table@),
            ord == strs_view(rule_order@),
            onr == on_route_rules@,
            sv == survivors@,
            tr@ == transparent(t, base_rule@),
            f == (|r: Seq<char>| if r != base_rule@ && t.dom().contains(r) {
                sites_of_rule(r, t[r], transparent(t, base_rule@), onr, sv)
            } else {
                Seq::empty()
            }),
            i <= rule_order@.len(),
            sites_view(out@) == concat_map(ord.take(i as int), f),
        decreases rule_order@.len() - i,
    {
        let rule = &rule_order[i];
        proof {
            assert(ord.take(i + 1) =~= ord.take(i as int).push(rule@));
            lemma_concat_map_push(ord.take(i as int), rule@, f);
        }
        let ghost base_out = sites_view(out@);
        if !str_eq(rule.as_str(), base_rule.as_str()) {
            match table.get(rule.as_str()) {
                Some(steps) => {
                    let ghost st = steps_view(steps@);
                    let ghost pred = |x: StepView| holds_transparent(x, tr@);
                    let ghost mk = |x: StepView| site_of(rule@, x, onr, sv);
                    let mut k: usize = 0;
                    while k < steps.len()
                        invariant
                            st == steps_view(steps@),
                            tr@ == transparent(t, base_rule@),
                            pred == (|x: StepView| holds_transparent(x, tr@)),
                            mk == (|x: StepView| site_of(rule@, x, onr, sv)),
                            onr == on_route_rules@,
                            sv == survivors@,
                            k <= steps@.len(),
                            sites_view(out@) == base_out + st.take(k as int).filter(pred).map_values(mk),
                        decreases steps@.len() - k,
                    {
                        let step = &steps[k];
                        proof {
                            assert(st[k as int] == step@);
                            assert(st.take(k + 1) =~= st.take(k as int).push(step@));
                            st.take(k as int).lemma_filter_push(step@, pred);
                            lemma_nodes_view(step.residual@);
                        }
                        if tr.contains(step.next_rule.as_str()) && step.residual.len() > 0 {
                            let on_route = on_route_rules.contains(rule.as_str());
                            let survives = !on_route || survivors.contains(rule.as_str());
                            let residual = render_elements(step.residual.as_slice());
                            let ghost before = out@;
                            out.push(StarvationSite {
                                rule: rule.clone(),
                                alternative_index: step.alternative_index,
                                residual,
                                on_route,
                                survives_rewrite: survives,
                            });
                            proof {
                                assert(sites_view(out@) =~= sites_view(before).push(mk(step@)));
                                assert(st.take(k + 1).filter(pred).map_values(mk) =~= st.take(k as int).filter(pred).map_values(mk).push(mk(step@)));
                            }
                        } else {
                            proof {
                                assert(st.take(k + 1).filter(pred) == st.take(k as int).filter(pred));
                            }
                        }
                        k = k + 1;
                    }
                    proof {
                        assert(st.take(k as int) =~= st);
                        assert(t[rule@] == st);
                        assert(pred =~= (|x: StepView| holds_transparent(x, transparent(t, base_rule@))));
                    }
                },
                None => {
                    proof {
                        assert(sites_view(out@) =~= base_out + Seq::<SiteView>::empty());
                    }
                },
            }
        } else {
            proof {
                assert(sites_view(out@) =~= base_out + Seq::<SiteView>::empty());
            }
        }
        i = i + 1;
    }
    proof {
        assert(ord.take(ord.len() as int) =~= ord);
    }
    out
}

// ---------------------------------------------------------------------------------------------
// One candidate base rule
// ---------------------------------------------------------------------------------------------

/// The alternatives among the first `n` that no route leaves through.
pub open spec fn acyclic_upto(n: nat, cyc: Set<nat>) -> Seq<nat>
    decreases n,
{
    if n == 0 {
        Seq::empty()
    } else {
        acyclic_upto((n - 1) as nat, cyc) + if cyc.contains((n - 1) as nat) {
            Seq::empty()
        } else {
            seq![(n - 1) as nat]
        }
    }
}

/// The alternatives some route leaves through.
pub open spec fn cyclic_alts(v: Seq<ChainRoute>) -> Set<nat> {
    Set::new(|i: nat| exists|j: int| 0 <= j < v.len() && (#[trigger] v[j]).base_alternative_index as nat == i)
}

pub open spec fn nats(v: Seq<usize>) -> Seq<nat> {
    v.map_values(|x: usize| x as nat)
}

/// The routes of `base` whose suffix is empty.
pub open spec fn degenerate_routes(t: StepTable, base: Seq<char>) -> Set<Seq<StepView>> {
    Set::new(|s: Seq<StepView>| is_route(t, base, s) && suffix_of(s).len() == 0)
}

/// What a candidate holds: its own non-degenerate simple routes in depth-first order (without
/// repetition; all of them unless truncated, and when truncated, every route left out comes after
/// all those kept), the number of degenerate routes dropped (all of them unless truncated), the
/// alternatives no route uses, and exactly the starvation sites of its transparent rules.
pub open spec fn candidate_ok(g: Map<Seq<char>, ASTNode>, ord: Seq<Seq<char>>, c: IndirectChainCandidate) -> bool {
    let t = step_table(g, ord);
    let base = c.base_rule@;
    let rs = routes_steps(c.routes@);
    &&& g.dom().contains(base)
    &&& rs.len() > 0
    &&& forall|i: int| 0 <= i < rs.len() ==> is_route(t, base, #[trigger] rs[i]) && c.routes@[i].base_alternative_index == rs[i][0].alt
        && suffix_of(rs[i]).len() > 0
    &&& forall|i: int, j: int| 0 <= i < j < rs.len() ==> #[trigger] rs[i] != #[trigger] rs[j]
    &&& forall|i: int, j: int| 0 <= i < j < rs.len() ==> dfs_before(#[trigger] rs[i], #[trigger] rs[j])
    &&& forall|s: Seq<StepView>| #[trigger] is_route(t, base, s) && suffix_of(s).len() > 0 && !rs.contains(s)
        ==> forall|i: int| 0 <= i < rs.len() ==> dfs_before(#[trigger] rs[i], s)
    &&& !c.routes_truncated ==> forall|s: Seq<StepView>| #[trigger] is_route(t, base, s) && suffix_of(s).len() > 0 ==> rs.contains(s)
    &&& !c.routes_truncated ==> c.degenerate_routes_dropped == degenerate_routes(t, base).len()
    &&& c.routes_truncated ==> c.degenerate_routes_dropped + rs.len() == MAX_ROUTES_PER_BASE
    &&& !c.routes_truncated ==> c.degenerate_routes_dropped + rs.len() < MAX_ROUTES_PER_BASE
    &&& exists|d: Seq<Seq<StepView>>| #[trigger] d.len() == c.degenerate_routes_dropped && d.no_duplicates() && forall|k: int|
        0 <= k < d.len() ==> is_route(t, base, #[trigger] d[k]) && suffix_of(d[k]).len() == 0
    &&& nats(c.acyclic_alternative_indices@) == acyclic_upto(alts_of(g[base]@).len(), cyclic_alts(c.routes@))
    &&& sites_view(c.starvation_sites@) == sites_spec(t, ord, base, intermediates(c.routes@), survivors_spec(
        g,
        ord,
        base,
        intermediates(c.routes@),
        c.acyclic_alternative_indices@,
        rs,
    ))
}

/// Why a rule was declined: no route at all, or only routes with an empty suffix.
pub open spec fn decline_ok(t: StepTable, base: Seq<char>, reason: DeclineReason) -> bool {
    match reason {
        DeclineReason::NoBareLeftCornerRoute => forall|s: Seq<StepView>| !#[trigger] is_route(t, base, s),
        DeclineReason::OnlyDegenerateRoutes => {
            &&& exists|s: Seq<StepView>| #[trigger] is_route(t, base, s) && suffix_of(s).len() == 0
            &&& forall|s: Seq<StepView>| #[trigger] is_route(t, base, s) && suffix_of(s).len() > 0 ==> exists|d: Seq<Seq<StepView>>|
                #[trigger] d.len() == MAX_ROUTES_PER_BASE && d.no_duplicates() && forall|i: int| 0 <= i < d.len() ==> is_route(
                    t,
                    base,
                    #[trigger] d[i],
                ) && suffix_of(d[i]).len() == 0 && dfs_before(d[i], s)
        },
    }
}

fn materialize(v: &Vec<&ChainStep>) -> (r: Vec<ChainStep>)
    ensures
        steps_view(r@) == refs_view(v@),
{
    let mut out: Vec<ChainStep> = Vec::new();
    let mut i: usize = 0;
    while i < v.len()
        invariant
            i <= v@.len(),
            steps_view(out@) == refs_view(v@).take(i as int),
        decreases v@.len() - i,
    {
        let ghost before = out@;
        out.push(v[i].deep_clone());
        proof {
            assert(steps_view(out@) =~= steps_view(before).push(v@[i as int]@));
            assert(refs_view(v@).take(i + 1) =~= refs_view(v@).take(i as int).push(v@[i as int]@));
        }
        i = i + 1;
    }
    proof {
        assert(refs_view(v@).take(i as int) =~= refs_view(v@));
    }
    out
}

/// Plan the absorption of `base`'s left recursion: enumerate its simple routes (at most
/// `MAX_ROUTES_PER_BASE`), drop the degenerate ones, and price the rest; or decline.
fn plan_for(base: &String, table: &StrMap<Vec<ChainStep>>, grammar: &StrMap<ASTNode>, rule_order: &[String]) -> (r: Result<IndirectChainCandidate, DeclineReason>)
    requires
        table_view(table@) == step_table(grammar@, strs_view(rule_order@)),
        table@.dom().contains(base@),
    ensures
        match r {
            Ok(c) => c.base_rule@ == base@ && candidate_ok(grammar@, strs_view(rule_order@), c),
            Err(reason) => decline_ok(table_view(table@), base@, reason),
        },
{
    let ghost g = grammar@;
    let ghost ord = strs_view(rule_order@);
    let ghost t = table_view(table@);
    proof {
        lemma_step_table_ok(g, ord);
    }
    let own_steps = match table.get(base.as_str()) {
        Some(st) => st,
        None => {
            proof {
                assert(false);
            }
            return Err(DeclineReason::NoBareLeftCornerRoute);
        },
    };
    let _tn = table.len();
    proof {
        assert(t[base@] == steps_view(own_steps@));
        assert(table.key_seq().to_set().contains(base@));
    }
    let closers = rules_reaching(base.as_str(), table);
    let mut routes: Vec<ChainRoute> = Vec::new();
    let mut truncated = false;
    let mut stop = false;
    let mut i: usize = 0;
    while i < own_steps.len() && !stop
        invariant
            t == table_view(table@),
            t == step_table(g, ord),
            table_ok(t),
            t.dom().contains(base@),
            t[base@] == steps_view(own_steps@),
            table.key_seq().contains(base@),
            closers@ == reaching(t, base@),
            i <= own_steps@.len(),
            routes@.len() <= MAX_ROUTES_PER_BASE,
            !stop ==> routes@.len() < MAX_ROUTES_PER_BASE,
            stop ==> truncated,
            truncated ==> routes@.len() > 0,
            truncated ==> routes@.len() >= MAX_ROUTES_PER_BASE,
            forall|j: int| 0 <= j < routes@.len() ==> is_route(t, base@, #[trigger] routes_steps(routes@)[j])
                && routes@[j].base_alternative_index == routes_steps(routes@)[j][0].alt,
            forall|j: int| 0 <= j < routes@.len() ==> steps_view(own_steps@).take(i as int).contains(#[trigger] routes_steps(routes@)[j][0]),
            forall|j1: int, j2: int| 0 <= j1 < j2 < routes@.len() ==> #[trigger] routes_steps(routes@)[j1] != #[trigger] routes_steps(routes@)[j2],
            !truncated ==> forall|s: Seq<StepView>| #[trigger] is_route(t, base@, s) && steps_view(own_steps@).take(i as int).contains(s[0]) ==> routes_steps(routes@).contains(s),
            truncated ==> stop,
            forall|j1: int, j2: int| 0 <= j1 < j2 < routes@.len() ==> dfs_before(#[trigger] routes_steps(routes@)[j1], #[trigger] routes_steps(routes@)[j2]),
            forall|s: Seq<StepView>| #[trigger] is_route(t, base@, s) && steps_view(own_steps@).take(i as int).contains(s[0])
                && !routes_steps(routes@).contains(s) ==> forall|j: int| 0 <= j < routes@.len() ==> dfs_before(#[trigger] routes_steps(routes@)[j], s),
        decreases own_steps@.len() - i + (if stop { 0int } else { 1int }),
    {
        let step = &own_steps[i];
        let ghost routes0 = routes@;
        proof {
            assert(steps_view(own_steps@)[i as int] == step@);
            assert(t[base@][i as int].rule == base@);
            assert(!truncated);
            assert(forall|s: Seq<StepView>| #[trigger] is_route(t, base@, s) && steps_view(own_steps@).take(i as int).contains(s[0]) ==> routes_steps(routes0).contains(s));
        }
        if str_eq(step.next_rule.as_str(), base.as_str()) || closers.contains(step.next_rule.as_str()) {
            let mut visited: Vec<String> = Vec::new();
            visited.push(base.clone());
            proof {
                assert(strs_view(visited@) =~= seq![base@]);
                assert(strs_view(visited@)[0] == base@);
            }
            let budget = MAX_ROUTES_PER_BASE - routes.len();
            let (found, complete) = collect_routes(base, step, table, &closers, &mut visited, budget);
            if !complete {
                truncated = true;
            }
            let ghost base_routes = routes@;
            let ghost fv = routes_view(found@);
            let n0 = routes.len();
            let mut k: usize = 0;
            while k < found.len()
                invariant
                    k <= found@.len(),
                    fv == routes_view(found@),
                    routes@.len() == n0 + k,
                    n0 == base_routes.len(),
                    forall|j: int| 0 <= j < n0 ==> #[trigger] routes@[j] == base_routes[j],
                    forall|j: int| n0 <= j < n0 + k ==> steps_view((#[trigger] routes@[j]).steps@) == fv[j - n0]
                        && routes@[j].base_alternative_index == step.alternative_index,
                decreases found@.len() - k,
            {
                let steps = materialize(&found[k]);
                let ghost sv = steps_view(steps@);
                proof {
                    assert(fv[k as int] == refs_view(found@[k as int]@));
                }
                routes.push(ChainRoute { base_alternative_index: step.alternative_index, steps });
                proof {
                    assert(steps_view(routes@[n0 + k].steps@) == sv);
                }
                k = k + 1;
            }
            proof {
                let vis = seq![base@];
                assert(strs_view(visited@) == vis);
                assert(t[base@].contains(step@)) by {
                    assert(t[base@][i as int] == step@);
                }
                assert forall|j: int| n0 <= j < routes@.len() implies #[trigger] routes_steps(routes@)[j] == fv[j - n0]
                    && is_tail(t, base@, vis, step@, fv[j - n0]) by {
                    assert(routes_steps(routes@)[j] == steps_view(routes@[j].steps@));
                    let jj = j - n0;
                    assert(is_tail(t, base@, vis, step@, routes_view(found@)[jj]));
                }
                assert forall|j: int| 0 <= j < n0 implies #[trigger] routes_steps(routes@)[j] == routes_steps(base_routes)[j] by {
                    assert(routes@[j] == base_routes[j]);
                }
                assert forall|j: int| 0 <= j < routes@.len() implies is_route(t, base@, #[trigger] routes_steps(routes@)[j])
                    && routes@[j].base_alternative_index == routes_steps(routes@)[j][0].alt by {
                    if j >= n0 {
                        assert(routes_steps(routes@)[j] == fv[j - n0]);
                        assert(routes@[j].base_alternative_index == step.alternative_index);
                    } else {
                        assert(routes@[j] == base_routes[j]);
                        assert(routes_steps(routes@)[j] == routes_steps(base_routes)[j]);
                    }
                }
                assert forall|j: int| 0 <= j < routes@.len() implies steps_view(own_steps@).take(i + 1).contains(#[trigger] routes_steps(routes@)[j][0]) by {
                    if j >= n0 {
                        assert(routes_steps(routes@)[j] == fv[j - n0]);
                        assert(steps_view(own_steps@).take(i + 1)[i as int] == routes_steps(routes@)[j][0]);
                    } else {
                        assert(routes_steps(routes@)[j] == routes_steps(base_routes)[j]);
                        let m = choose|m: int| 0 <= m < i && #[trigger] steps_view(own_steps@).take(i as int)[m] == routes_steps(base_routes)[j][0];
                        assert(steps_view(own_steps@).take(i + 1)[m] == routes_steps(routes@)[j][0]);
                    }
                }
                assert forall|j1: int, j2: int| 0 <= j1 < j2 < routes@.len() implies #[trigger] routes_steps(routes@)[j1] != #[trigger] routes_steps(routes@)[j2] by {
                    if j2 >= n0 {
                        assert(routes_steps(routes@)[j2] == fv[j2 - n0]);
                        if j1 >= n0 {
                            assert(routes_steps(routes@)[j1] == fv[j1 - n0]);
                            assert(routes_view(found@)[j1 - n0] != routes_view(found@)[j2 - n0]);
                        } else {
                            assert(routes_steps(routes@)[j1] == routes_steps(base_routes)[j1]);
                            let m = choose|m: int| 0 <= m < i && #[trigger] steps_view(own_steps@).take(i as int)[m] == routes_steps(base_routes)[j1][0];
                            assert(steps_view(own_steps@)[m] == routes_steps(routes@)[j1][0]);
                            assert(t[base@][m].alt < t[base@][i as int].alt);
                            assert(routes_steps(routes@)[j2][0] == step@);
                        }
                    } else {
                        assert(routes_steps(routes@)[j1] == routes_steps(base_routes)[j1]);
                        assert(routes_steps(routes@)[j2] == routes_steps(base_routes)[j2]);
                    }
                }
                assert(base_routes == routes0);
                assert forall|j1: int, j2: int| 0 <= j1 < j2 < routes@.len() implies dfs_before(#[trigger] routes_steps(routes@)[j1], #[trigger] routes_steps(routes@)[j2]) by {
                    if j2 >= n0 {
                        assert(routes_steps(routes@)[j2] == fv[j2 - n0]);
                        if j1 >= n0 {
                            assert(routes_steps(routes@)[j1] == fv[j1 - n0]);
                            assert(dfs_before(routes_view(found@)[j1 - n0], routes_view(found@)[j2 - n0]));
                        } else {
                            assert(routes_steps(routes@)[j1] == routes_steps(base_routes)[j1]);
                            let m = choose|m: int| 0 <= m < i && #[trigger] steps_view(own_steps@).take(i as int)[m] == routes_steps(base_routes)[j1][0];
                            assert(steps_view(own_steps@)[m] == routes_steps(routes@)[j1][0]);
                            assert(t[base@][m].alt < t[base@][i as int].alt);
                            assert(routes_steps(routes@)[j2][0] == step@);
                            lemma_before_at(routes_steps(routes@)[j1], routes_steps(routes@)[j2], 0);
                        }
                    } else {
                        assert(routes_steps(routes@)[j1] == routes_steps(base_routes)[j1]);
                        assert(routes_steps(routes@)[j2] == routes_steps(base_routes)[j2]);
                    }
                }
                assert forall|s: Seq<StepView>| #[trigger] is_route(t, base@, s) && steps_view(own_steps@).take(i + 1).contains(s[0])
                    && !routes_steps(routes@).contains(s) implies forall|j: int| 0 <= j < routes@.len() ==> dfs_before(#[trigger] routes_steps(routes@)[j], s) by {
                    let m = choose|m: int| 0 <= m < i + 1 && #[trigger] steps_view(own_steps@).take(i + 1)[m] == s[0];
                    assert(steps_view(own_steps@).take(i + 1)[m] == steps_view(own_steps@)[m]);
                    if m == i {
                        assert(is_tail(t, base@, vis, step@, s));
                        if routes_view(found@).contains(s) {
                            let q = choose|q: int| 0 <= q < routes_view(found@).len() && routes_view(found@)[q] == s;
                            assert(routes_steps(routes@)[n0 + q] == s);
                        }
                        assert forall|j: int| 0 <= j < routes@.len() implies dfs_before(#[trigger] routes_steps(routes@)[j], s) by {
                            if j >= n0 {
                                assert(routes_steps(routes@)[j] == fv[j - n0]);
                            } else {
                                assert(routes_steps(routes@)[j] == routes_steps(base_routes)[j]);
                                let m2 = choose|m2: int| 0 <= m2 < i && #[trigger] steps_view(own_steps@).take(i as int)[m2] == routes_steps(base_routes)[j][0];
                                assert(steps_view(own_steps@)[m2] == routes_steps(routes@)[j][0]);
                                assert(t[base@][m2].alt < t[base@][i as int].alt);
                                lemma_before_at(routes_steps(routes@)[j], s, 0);
                            }
                        }
                    } else {
                        assert(steps_view(own_steps@).take(i as int)[m] == s[0]);
                        assert(routes_steps(base_routes).contains(s));
                        let q = choose|q: int| 0 <= q < routes_steps(base_routes).len() && routes_steps(base_routes)[q] == s;
                        assert(routes_steps(routes@)[q] == s);
                    }
                }
                if !truncated {
                    assert forall|s: Seq<StepView>| #[trigger] is_route(t, base@, s) && steps_view(own_steps@).take(i + 1).contains(s[0]) implies routes_steps(routes@).contains(s) by {
                        let m = choose|m: int| 0 <= m < i + 1 && #[trigger] steps_view(own_steps@).take(i + 1)[m] == s[0];
                        assert(steps_view(own_steps@).take(i + 1)[m] == steps_view(own_steps@)[m]);
                        if m == i {
                            assert(is_tail(t, base@, vis, step@, s));
                            assert(routes_view(found@).contains(s));
                            let q = choose|q: int| 0 <= q < routes_view(found@).len() && routes_view(found@)[q] == s;
                            assert(routes_steps(routes@)[n0 + q] == s);
                        } else {
                            assert(steps_view(own_steps@).take(i as int)[m] == s[0]);
                            assert(routes_steps(base_routes).contains(s));
                            let q = choose|q: int| 0 <= q < routes_steps(base_routes).len() && routes_steps(base_routes)[q] == s;
                            assert(routes_steps(routes@)[q] == s);
                        }
                    }
                }
            }
            if routes.len() >= MAX_ROUTES_PER_BASE {
                truncated = true;
                stop = true;
            }
        } else {
            proof {
                assert forall|s: Seq<StepView>| #[trigger] is_route(t, base@, s) && steps_view(own_steps@).take(i + 1).contains(s[0])
                    && !routes_steps(routes@).contains(s) implies forall|j: int| 0 <= j < routes@.len() ==> dfs_before(#[trigger] routes_steps(routes@)[j], s) by {
                    let m = choose|m: int| 0 <= m < i + 1 && #[trigger] steps_view(own_steps@).take(i + 1)[m] == s[0];
                    assert(steps_view(own_steps@).take(i + 1)[m] == steps_view(own_steps@)[m]);
                    if m == i {
                        assert(s[0] == step@);
                        if s.len() == 1 {
                            assert(s.last().next == base@);
                        } else {
                            assert(s[0].next == s[1].rule);
                            lemma_tail_in_reaching(t, base@, seq![base@], s[0], s, 1);
                        }
                    } else {
                        assert(steps_view(own_steps@).take(i as int)[m] == s[0]);
                    }
                }
                if !truncated {
                    assert forall|s: Seq<StepView>| #[trigger] is_route(t, base@, s) && steps_view(own_steps@).take(i + 1).contains(s[0]) implies routes_steps(routes@).contains(s) by {
                        let m = choose|m: int| 0 <= m < i + 1 && #[trigger] steps_view(own_steps@).take(i + 1)[m] == s[0];
                        assert(steps_view(own_steps@).take(i + 1)[m] == steps_view(own_steps@)[m]);
                        if m == i {
                            assert(s[0] == step@);
                            if s.len() == 1 {
                                assert(s.last().next == base@);
                            } else {
                                assert(s[0].next == s[1].rule);
                                lemma_tail_in_reaching(t, base@, seq![base@], s[0], s, 1);
                            }
                        } else {
                            assert(steps_view(own_steps@).take(i as int)[m] == s[0]);
                        }
                    }
                }
            }
        }
        i = i + 1;
    }
    proof {
        assert forall|s: Seq<StepView>| #[trigger] is_route(t, base@, s) && !routes_steps(routes@).contains(s)
            implies forall|j: int| 0 <= j < routes@.len() ==> dfs_before(#[trigger] routes_steps(routes@)[j], s) by {
            assert(in_table(t, s[0]));
            let m = choose|m: int| 0 <= m < t[base@].len() && t[base@][m] == s[0];
            if m < i {
                assert(steps_view(own_steps@).take(i as int)[m] == s[0]);
            } else {
                assert forall|j: int| 0 <= j < routes@.len() implies dfs_before(#[trigger] routes_steps(routes@)[j], s) by {
                    let m2 = choose|m2: int| 0 <= m2 < i && #[trigger] steps_view(own_steps@).take(i as int)[m2] == routes_steps(routes@)[j][0];
                    assert(steps_view(own_steps@)[m2] == routes_steps(routes@)[j][0]);
                    assert(t[base@][m2].alt < t[base@][m].alt);
                    lemma_before_at(routes_steps(routes@)[j], s, 0);
                }
            }
        }
        if !truncated {
            assert(i == own_steps@.len());
            assert forall|s: Seq<StepView>| #[trigger] is_route(t, base@, s) implies routes_steps(routes@).contains(s) by {
                assert(in_table(t, s[0]));
                assert(steps_view(own_steps@).take(i as int) =~= steps_view(own_steps@));
            }
        }
    }
    if routes.len() == 0 {
        proof {
            assert forall|s: Seq<StepView>| !#[trigger] is_route(t, base@, s) by {
                if is_route(t, base@, s) {
                    assert(routes_steps(routes@).contains(s));
                }
            }
        }
        return Err(DeclineReason::NoBareLeftCornerRoute);
    }
    // A route iterating an empty suffix never consumes: drop it, and count the drop.
    let mut kept: Vec<ChainRoute> = Vec::new();
    let mut dropped: usize = 0;
    let ghost mut idx: Seq<int> = Seq::empty();
    let ghost mut dv: Seq<Seq<StepView>> = Seq::empty();
    let ghost mut di: Seq<int> = Seq::empty();
    let mut q: usize = 0;
    while q < routes.len()
        invariant
            q <= routes@.len(),
            dropped <= q,
            dv.len() == dropped,
            idx.len() + dv.len() == q,
            di.len() == dv.len(),
            forall|b: int| 0 <= b < dv.len() ==> 0 <= #[trigger] di[b] < q && dv[b] == routes_steps(routes@)[di[b]],
            forall|b: int| 0 <= b < dv.len() ==> suffix_of(#[trigger] dv[b]).len() == 0,
            dv.no_duplicates(),
            forall|j: int| 0 <= j < q && suffix_of(#[trigger] routes_steps(routes@)[j]).len() == 0 ==> dv.contains(routes_steps(routes@)[j]),
            forall|j1: int, j2: int| 0 <= j1 < j2 < routes@.len() ==> #[trigger] routes_steps(routes@)[j1] != #[trigger] routes_steps(routes@)[j2],
            idx.len() == kept@.len(),
            forall|a: int| 0 <= a < idx.len() ==> 0 <= #[trigger] idx[a] < q,
            forall|a: int, b: int| 0 <= a < b < idx.len() ==> #[trigger] idx[a] < #[trigger] idx[b],
            forall|a: int| 0 <= a < kept@.len() ==> #[trigger] routes_steps(kept@)[a] == routes_steps(routes@)[idx[a]]
                && kept@[a].base_alternative_index == routes@[idx[a]].base_alternative_index
                && suffix_of(routes_steps(kept@)[a]).len() > 0,
            forall|j: int| 0 <= j < q && suffix_of(#[trigger] routes_steps(routes@)[j]).len() > 0 ==> exists|a: int| 0 <= a < idx.len() && idx[a] == j,
            forall|j1: int, j2: int| 0 <= j1 < j2 < routes@.len() ==> dfs_before(#[trigger] routes_steps(routes@)[j1], #[trigger] routes_steps(routes@)[j2]),
            forall|s: Seq<StepView>| #[trigger] is_route(t, base@, s) && !routes_steps(routes@).contains(s)
                ==> forall|j: int| 0 <= j < routes@.len() ==> dfs_before(#[trigger] routes_steps(routes@)[j], s),
        decreases routes@.len() - q,
    {
        let ghost before = kept@;
        let ghost idx0 = idx;
        let ghost sq = routes_steps(routes@)[q as int];
        let ghost dv0 = dv;
        let ghost di0 = di;
        if routes[q].is_degenerate() {
            dropped = dropped + 1;
            proof {
                assert(!dv0.contains(sq)) by {
                    if dv0.contains(sq) {
                        let b = choose|b: int| 0 <= b < dv0.len() && dv0[b] == sq;
                        assert(routes_steps(routes@)[di0[b]] != routes_steps(routes@)[q as int]);
                    }
                }
                dv = dv0.push(sq);
                di = di0.push(q as int);
                assert forall|b: int| 0 <= b < dv.len() implies 0 <= #[trigger] di[b] < q + 1 && dv[b] == routes_steps(routes@)[di[b]] by {
                    if b < dv0.len() {
                        assert(di[b] == di0[b]);
                    }
                }
                assert forall|b: int| 0 <= b < dv.len() implies suffix_of(#[trigger] dv[b]).len() == 0 by {
                    if b < dv0.len() {
                        assert(dv[b] == dv0[b]);
                    }
                }
                assert(dv.no_duplicates()) by {
                    assert forall|b1: int, b2: int| 0 <= b1 < dv.len() && 0 <= b2 < dv.len() && b1 != b2 implies dv[b1] != dv[b2] by {
                        if b1 < dv0.len() && b2 < dv0.len() {
                        } else if b1 < dv0.len() {
                            assert(dv0.contains(dv[b1]));
                        } else {
                            assert(dv0.contains(dv[b2]));
                        }
                    }
                }
            }
        } else {
            kept.push(routes[q].deep_clone());
            proof {
                idx = idx.push(q as int);
                assert(routes_steps(kept@)[kept@.len() - 1] == sq);
                assert forall|a: int| 0 <= a < kept@.len() implies #[trigger] routes_steps(kept@)[a] == routes_steps(routes@)[idx[a]]
                    && kept@[a].base_alternative_index == routes@[idx[a]].base_alternative_index
                    && suffix_of(routes_steps(kept@)[a]).len() > 0 by {
                    if a < before.len() {
                        assert(kept@[a] == before[a]);
                        assert(routes_steps(before)[a] == routes_steps(routes@)[idx[a]]);
                    }
                }
                assert(idx[idx.len() - 1] == q);
            }
        }
        proof {
            assert forall|j: int| 0 <= j < q + 1 && suffix_of(#[trigger] routes_steps(routes@)[j]).len() == 0 implies dv.contains(routes_steps(routes@)[j]) by {
                if j == q {
                    assert(dv[dv.len() - 1] == sq);
                } else {
                    assert(dv0.contains(routes_steps(routes@)[j]));
                    let b = choose|b: int| 0 <= b < dv0.len() && dv0[b] == routes_steps(routes@)[j];
                    assert(dv[b] == dv0[b]);
                }
            }
            assert forall|j: int| 0 <= j < q + 1 && suffix_of(#[trigger] routes_steps(routes@)[j]).len() > 0 implies exists|a: int| 0 <= a < idx.len() && idx[a] == j by {
                if j == q {
                    assert(idx[idx.len() - 1] == j);
                } else {
                    let a = choose|a: int| 0 <= a < idx0.len() && idx0[a] == j;
                    assert(idx[a] == j);
                }
            }
        }
        q = q + 1;
    }
    if kept.len() == 0 {
        proof {
            let s0 = routes_steps(routes@)[0];
            assert(is_route(t, base@, s0));
            assert(suffix_of(s0).len() == 0);
            let d = routes_steps(routes@);
            assert forall|j: int| 0 <= j < d.len() implies suffix_of(#[trigger] d[j]).len() == 0 by {
                if suffix_of(d[j]).len() > 0 {
                    let a = choose|a: int| 0 <= a < idx.len() && idx[a] == j;
                }
            }
            assert forall|s: Seq<StepView>| #[trigger] is_route(t, base@, s) && suffix_of(s).len() > 0 implies exists|d2: Seq<Seq<StepView>>|
                #[trigger] d2.len() == MAX_ROUTES_PER_BASE && d2.no_duplicates() && forall|i: int| 0 <= i < d2.len() ==> is_route(
                    t,
                    base@,
                    #[trigger] d2[i],
                ) && suffix_of(d2[i]).len() == 0 && dfs_before(d2[i], s) by {
                if d.contains(s) {
                    let j = choose|j: int| 0 <= j < d.len() && d[j] == s;
                }
                assert(truncated);
                assert(d.len() == MAX_ROUTES_PER_BASE);
                assert(d.no_duplicates()) by {
                    assert forall|a: int, b: int| 0 <= a < d.len() && 0 <= b < d.len() && a != b implies d[a] != d[b] by {
                        if a < b {
                            assert(routes_steps(routes@)[a] != routes_steps(routes@)[b]);
                        } else {
                            assert(routes_steps(routes@)[b] != routes_steps(routes@)[a]);
                        }
                    }
                }
                assert forall|i: int| 0 <= i < d.len() implies is_route(t, base@, #[trigger] d[i]) && suffix_of(d[i]).len() == 0 && dfs_before(d[i], s) by {
                    assert(is_route(t, base@, routes_steps(routes@)[i]));
                }
            }
        }
        return Err(DeclineReason::OnlyDegenerateRoutes);
    }
    // Alternatives no surviving route leaves through stay verbatim.
    let body = match grammar.get(base.as_str()) {
        Some(b) => b,
        None => {
            proof {
                assert(false);
            }
            return Err(DeclineReason::NoBareLeftCornerRoute);
        },
    };
    let n_alts = alt_count(body);
    let mut acyclic: Vec<usize> = Vec::new();
    let mut a: usize = 0;
    while a < n_alts
        invariant
            a <= n_alts,
            nats(acyclic@) == acyclic_upto(a as nat, cyclic_alts(kept@)),
        decreases n_alts - a,
    {
        let mut used = false;
        let mut b: usize = 0;
        while b < kept.len()
            invariant
                b <= kept@.len(),
                used == exists|c: int| 0 <= c < b && (#[trigger] kept@[c]).base_alternative_index == a,
            decreases kept@.len() - b,
        {
            if kept[b].base_alternative_index == a {
                used = true;
            }
            b = b + 1;
        }
        proof {
            assert(used == cyclic_alts(kept@).contains(a as nat));
        }
        let ghost before = acyclic@;
        if !used {
            acyclic.push(a);
        }
        proof {
            assert(((a + 1) as nat - 1) as nat == a as nat);
            assert(nats(acyclic@) =~= acyclic_upto((a + 1) as nat, cyclic_alts(kept@)));
        }
        a = a + 1;
    }
    let on_route = intermediate_set(&kept);
    let survivors = rules_surviving_rewrite(base, kept.as_slice(), &on_route, acyclic.as_slice(), grammar, rule_order);
    let sites = collect_starvation_sites(base, table, rule_order, &on_route, &survivors);
    proof {
        let rs = routes_steps(kept@);
        assert(t.dom().contains(base@));
        assert forall|x: int| 0 <= x < rs.len() implies is_route(t, base@, #[trigger] rs[x]) && kept@[x].base_alternative_index == rs[x][0].alt
            && suffix_of(rs[x]).len() > 0 by {
            assert(rs[x] == routes_steps(routes@)[idx[x]]);
        }
        assert forall|x: int, y: int| 0 <= x < y < rs.len() implies #[trigger] rs[x] != #[trigger] rs[y] by {
            assert(rs[x] == routes_steps(routes@)[idx[x]]);
            assert(rs[y] == routes_steps(routes@)[idx[y]]);
        }
        assert forall|x: int, y: int| 0 <= x < y < rs.len() implies dfs_before(#[trigger] rs[x], #[trigger] rs[y]) by {
            assert(rs[x] == routes_steps(routes@)[idx[x]]);
            assert(rs[y] == routes_steps(routes@)[idx[y]]);
            assert(idx[x] < idx[y]);
        }
        assert forall|s: Seq<StepView>| #[trigger] is_route(t, base@, s) && suffix_of(s).len() > 0 && !rs.contains(s)
            implies forall|x: int| 0 <= x < rs.len() ==> dfs_before(#[trigger] rs[x], s) by {
            if routes_steps(routes@).contains(s) {
                let j = choose|j: int| 0 <= j < routes_steps(routes@).len() && routes_steps(routes@)[j] == s;
                let a = choose|a: int| 0 <= a < idx.len() && idx[a] == j;
                assert(rs[a] == s);
            }
            assert forall|x: int| 0 <= x < rs.len() implies dfs_before(#[trigger] rs[x], s) by {
                assert(rs[x] == routes_steps(routes@)[idx[x]]);
            }
        }
        assert(!truncated ==> routes@.len() < MAX_ROUTES_PER_BASE);
        assert(kept@.len() + dropped == routes@.len());
        assert forall|k: int| 0 <= k < dv.len() implies is_route(t, base@, #[trigger] dv[k]) && suffix_of(dv[k]).len() == 0 by {
            assert(is_route(t, base@, routes_steps(routes@)[di[k]]));
        }
        assert(dv.len() == dropped);
        if !truncated {
            assert(dv.to_set() =~= degenerate_routes(t, base@)) by {
                assert forall|x: Seq<StepView>| dv.to_set().contains(x) implies degenerate_routes(t, base@).contains(x) by {
                    let b = choose|b: int| 0 <= b < dv.len() && dv[b] == x;
                    assert(suffix_of(dv[b]).len() == 0);
                    assert(is_route(t, base@, routes_steps(routes@)[di[b]]));
                }
                assert forall|x: Seq<StepView>| degenerate_routes(t, base@).contains(x) implies dv.to_set().contains(x) by {
                    assert(routes_steps(routes@).contains(x));
                    let j = choose|j: int| 0 <= j < routes_steps(routes@).len() && routes_steps(routes@)[j] == x;
                    assert(dv.contains(routes_steps(routes@)[j]));
                }
            }
            dv.unique_seq_to_set();
            assert forall|s: Seq<StepView>| #[trigger] is_route(t, base@, s) && suffix_of(s).len() > 0 implies rs.contains(s) by {
                assert(routes_steps(routes@).contains(s));
                let j = choose|j: int| 0 <= j < routes_steps(routes@).len() && routes_steps(routes@)[j] == s;
                let x = choose|x: int| 0 <= x < idx.len() && idx[x] == j;
                assert(rs[x] == s);
            }
        }
    }
    Ok(IndirectChainCandidate {
        base_rule: base.clone(),
        routes: kept,
        routes_truncated: truncated,
        acyclic_alternative_indices: acyclic,
        starvation_sites: sites,
        degenerate_routes_dropped: dropped,
    })
}

// ---------------------------------------------------------------------------------------------
// The survey
// ---------------------------------------------------------------------------------------------

/// `whole` is `a` and `b` merged, each kept in its own order.
pub open spec fn interleaves(a: Seq<Seq<char>>, b: Seq<Seq<char>>, whole: Seq<Seq<char>>) -> bool
    decreases whole.len(),
{
    if whole.len() == 0 {
        a.len() == 0 && b.len() == 0
    } else {
        ||| (a.len() > 0 && a.last() == whole.last() && interleaves(a.drop_last(), b, whole.drop_last()))
        ||| (b.len() > 0 && b.last() == whole.last() && interleaves(a, b.drop_last(), whole.drop_last()))
    }
}

pub open spec fn candidate_rules(v: Seq<IndirectChainCandidate>) -> Seq<Seq<char>> {
    v.map_values(|c: IndirectChainCandidate| c.base_rule@)
}

pub open spec fn declined_rules(v: Seq<DeclinedCycle>) -> Seq<Seq<char>> {
    v.map_values(|d: DeclinedCycle| d.rule@)
}

/// The left-recursive rules of `rule_order` (defined ones, each occurrence).
pub open spec fn left_recursive_rules(g: Map<Seq<char>, ASTNode>, ord: Seq<Seq<char>>) -> Seq<Seq<char>> {
    ord.filter(|x: Seq<char>| g.dom().contains(x) && is_left_recursive(g, ord, x))
}

/// What the survey of `g` under `ord` returns: every left-recursive rule, in order, becomes a
/// candidate or a declined entry (interleaved in rule order); each candidate meets
/// [`candidate_ok`]; each declined entry carries the detector's cycle and a valid reason.
pub open spec fn survey_ok(g: Map<Seq<char>, ASTNode>, ord: Seq<Seq<char>>, r: IndirectChainSurvey) -> bool {
    let lr = left_recursive_rules(g, ord);
    &&& strs_view(r.surviving_cycle_rules@) == lr
    &&& interleaves(candidate_rules(r.candidates@), declined_rules(r.declined@), lr)
    &&& forall|i: int| 0 <= i < r.candidates@.len() ==> candidate_ok(g, ord, #[trigger] r.candidates@[i])
    &&& forall|i: int| 0 <= i < r.declined@.len() ==> valid_cycle(left_rel(g, ord), (#[trigger] r.declined@[i]).rule@, strs_view(r.declined@[i].cycle@))
        && left_cycle_of(left_edges(g, ord), r.declined@[i].rule@) == Some(strs_view(r.declined@[i].cycle@))
        && decline_ok(step_table(g, ord), r.declined@[i].rule@, r.declined@[i].reason)
}

/// Survey the grammar's surviving left recursion: every left-recursive rule, in rule order, either
/// becomes a candidate (with its routes, their cost and their starvation exposure) or is declined
/// with the reason and the cycle the detector reported.
pub fn survey_indirect_left_recursion(grammar: &StrMap<ASTNode>, rule_order: &[String]) -> (r: IndirectChainSurvey)
    ensures
        survey_ok(grammar@, strs_view(rule_order@), r),
{
    let ghost g = grammar@;
    let ghost ord = strs_view(rule_order@);
    let ghost lr = left_recursive_rules(g, ord);
    let issues = detect_left_recursion(grammar, rule_order);
    let table = build_step_table(grammar, rule_order);
    let mut surviving: Vec<String> = Vec::new();
    let mut candidates: Vec<IndirectChainCandidate> = Vec::new();
    let mut declined: Vec<DeclinedCycle> = Vec::new();
    let mut k: usize = 0;
    proof {
        assert(lr == ord.filter(|x: Seq<char>| g.dom().contains(x) && is_left_recursive(g, ord, x)));
    }
    while k < issues.len()
        invariant
            g == grammar@,
            ord == strs_view(rule_order@),
            lr == left_recursive_rules(g, ord),
            issues@.len() == lr.len(),
            forall|j: int| 0 <= j < lr.len() ==> ((#[trigger] issues@[j])@ matches IssueView::LeftRecursive(rule, cycle)
                && rule == lr[j] && valid_cycle(left_rel(g, ord), rule, cycle)
                && left_cycle_of(left_edges(g, ord), rule) == Some(cycle)),
            table_view(table@) == step_table(g, ord),
            k <= issues@.len(),
            strs_view(surviving@) == lr.take(k as int),
            interleaves(candidate_rules(candidates@), declined_rules(declined@), lr.take(k as int)),
            forall|i: int| 0 <= i < candidates@.len() ==> candidate_ok(g, ord, #[trigger] candidates@[i]),
            forall|i: int| 0 <= i < declined@.len() ==> valid_cycle(left_rel(g, ord), (#[trigger] declined@[i]).rule@, strs_view(declined@[i].cycle@))
                && left_cycle_of(left_edges(g, ord), declined@[i].rule@) == Some(strs_view(declined@[i].cycle@))
                && decline_ok(step_table(g, ord), declined@[i].rule@, declined@[i].reason),
        decreases issues@.len() - k,
    {
        proof {
            assert(issues@[k as int]@ matches IssueView::LeftRecursive(rule, cycle) && rule == lr[k as int]);
            ord.lemma_filter_pred(|x: Seq<char>| g.dom().contains(x) && is_left_recursive(g, ord, x), k as int);
            ord.lemma_filter_contains_rev(|x: Seq<char>| g.dom().contains(x) && is_left_recursive(g, ord, x), lr[k as int]);
            assert(lr.take(k + 1).drop_last() =~= lr.take(k as int));
            assert(lr.take(k + 1).last() == lr[k as int]);
        }
        match &issues[k] {
            WellformednessIssue::LeftRecursive { rule, cycle } => {
                let ghost s0 = surviving@;
                surviving.push(rule.clone());
                proof {
                    assert(strs_view(surviving@) =~= strs_view(s0).push(rule@));
                    assert(step_table(g, ord).dom().contains(rule@));
                }
                let ghost c0 = candidates@;
                let ghost d0 = declined@;
                match plan_for(rule, &table, grammar, rule_order) {
                    Ok(c) => {
                        candidates.push(c);
                        proof {
                            assert(candidate_rules(candidates@).drop_last() =~= candidate_rules(c0));
                            assert(candidate_rules(candidates@).last() == rule@);
                            assert(declined@ == d0);
                        }
                    },
                    Err(reason) => {
                        let cyc = clone_strings(cycle);
                        declined.push(DeclinedCycle { rule: rule.clone(), cycle: cyc, reason });
                        proof {
                            assert(declined_rules(declined@).drop_last() =~= declined_rules(d0));
                            assert(declined_rules(declined@).last() == rule@);
                            assert(candidates@ == c0);
                            assert forall|i: int| 0 <= i < declined@.len() implies valid_cycle(left_rel(g, ord), (#[trigger] declined@[i]).rule@, strs_view(declined@[i].cycle@))
                                && left_cycle_of(left_edges(g, ord), declined@[i].rule@) == Some(strs_view(declined@[i].cycle@))
                                && decline_ok(step_table(g, ord), declined@[i].rule@, declined@[i].reason) by {
                                if i < d0.len() {
                                    assert(declined@[i] == d0[i]);
                                }
                            }
                        }
                    },
                }
            },
            _ => {
                proof {
                    assert(false);
                }
            },
        }
        k = k + 1;
    }
    proof {
        assert(lr.take(k as int) =~= lr);
    }
    IndirectChainSurvey { candidates, declined, surviving_cycle_rules: surviving }
}

proof fn lemma_filter_no_duplicates(s: Seq<Seq<char>>, p: spec_fn(Seq<char>) -> bool)
    requires
        s.no_duplicates(),
    ensures
        s.filter(p).no_duplicates(),
    decreases s.len(),
{
    if s.len() > 0 {
        let s2 = s.drop_last();
        let z = s.last();
        assert(s =~= s2.push(z));
        assert(s2.no_duplicates()) by {
            assert forall|i: int, j: int| 0 <= i < s2.len() && 0 <= j < s2.len() && i != j implies s2[i] != s2[j] by {
                assert(s[i] == s2[i] && s[j] == s2[j]);
            }
        }
        lemma_filter_no_duplicates(s2, p);
        s2.lemma_filter_push(z, p);
        if p(z) {
            let f = s2.filter(p);
            assert(!f.contains(z)) by {
                if f.contains(z) {
                    s2.lemma_filter_contains_rev(p, z);
                    let j = choose|j: int| 0 <= j < s2.len() && s2[j] == z;
                    assert(s[j] == s[s.len() - 1]);
                }
            }
            assert(f.push(z).no_duplicates()) by {
                assert forall|i: int, j: int| 0 <= i < f.len() + 1 && 0 <= j < f.len() + 1 && i != j implies f.push(z)[i] != f.push(z)[j] by {
                    if i < f.len() && j < f.len() {
                    } else if i < f.len() {
                        assert(f.contains(f[i]));
                    } else {
                        assert(f.contains(f[j]));
                    }
                }
            }
        }
    }
}

proof fn lemma_interleaves(a: Seq<Seq<char>>, b: Seq<Seq<char>>, w: Seq<Seq<char>>)
    requires
        interleaves(a, b, w),
    ensures
        forall|x: Seq<char>| w.contains(x) <==> (a.contains(x) || b.contains(x)),
        w.no_duplicates() ==> a.no_duplicates() && b.no_duplicates() && forall|x: Seq<char>| !(#[trigger] a.contains(x) && b.contains(x)),
    decreases w.len(),
{
    if w.len() == 0 {
        return;
    }
    let z = w.last();
    let w2 = w.drop_last();
    assert(w =~= w2.push(z));
    if a.len() > 0 && a.last() == z && interleaves(a.drop_last(), b, w2) {
        let a2 = a.drop_last();
        assert(a =~= a2.push(z));
        lemma_interleaves(a2, b, w2);
        assert forall|x: Seq<char>| w.contains(x) <==> (a.contains(x) || b.contains(x)) by {
            if w.contains(x) {
                let i = choose|i: int| 0 <= i < w.len() && w[i] == x;
                if i < w2.len() {
                    assert(w2[i] == x);
                }
            }
            if a.contains(x) {
                let i = choose|i: int| 0 <= i < a.len() && a[i] == x;
                if i < a2.len() {
                    assert(a2[i] == x);
                    assert(a2.contains(x));
                    assert(w2.contains(x));
                    let j = choose|j: int| 0 <= j < w2.len() && w2[j] == x;
                    assert(w[j] == x);
                } else {
                    assert(w[w.len() - 1] == x);
                }
            }
            if b.contains(x) {
                let j = choose|j: int| 0 <= j < w2.len() && w2[j] == x;
                assert(w[j] == x);
            }
            if a2.contains(x) {
                let i = choose|i: int| 0 <= i < a2.len() && a2[i] == x;
                assert(a[i] == x);
            }
        }
        if w.no_duplicates() {
            assert(w2.no_duplicates()) by {
                assert forall|i: int, j: int| 0 <= i < w2.len() && 0 <= j < w2.len() && i != j implies w2[i] != w2[j] by {
                    assert(w[i] == w2[i] && w[j] == w2[j]);
                }
            }
            assert(!w2.contains(z)) by {
                if w2.contains(z) {
                    let j = choose|j: int| 0 <= j < w2.len() && w2[j] == z;
                    assert(w[j] == w[w.len() - 1]);
                }
            }
            assert(!a2.contains(z));
            assert(!b.contains(z));
            assert(a.no_duplicates()) by {
                assert forall|i: int, j: int| 0 <= i < a.len() && 0 <= j < a.len() && i != j implies a[i] != a[j] by {
                    if i < a2.len() && j < a2.len() {
                        assert(a[i] == a2[i] && a[j] == a2[j]);
                    } else if i < a2.len() {
                        assert(a[i] == a2[i]);
                        assert(a2.contains(a[i]));
                    } else {
                        assert(a[j] == a2[j]);
                        assert(a2.contains(a[j]));
                    }
                }
            }
            assert forall|x: Seq<char>| !(#[trigger] a.contains(x) && b.contains(x)) by {
                if a.contains(x) && b.contains(x) {
                    let i = choose|i: int| 0 <= i < a.len() && a[i] == x;
                    if i < a2.len() {
                        assert(a2[i] == x);
                        assert(a2.contains(x));
                    } else {
                        assert(x == z);
                    }
                }
            }
        }
    } else {
        let b2 = b.drop_last();
        assert(b.len() > 0 && b.last() == z && interleaves(a, b2, w2));
        assert(b =~= b2.push(z));
        lemma_interleaves(a, b2, w2);
        assert forall|x: Seq<char>| w.contains(x) <==> (a.contains(x) || b.contains(x)) by {
            if w.contains(x) {
                let i = choose|i: int| 0 <= i < w.len() && w[i] == x;
                if i < w2.len() {
                    assert(w2[i] == x);
                }
            }
            if b.contains(x) {
                let i = choose|i: int| 0 <= i < b.len() && b[i] == x;
                if i < b2.len() {
                    assert(b2[i] == x);
                    assert(b2.contains(x));
                    assert(w2.contains(x));
                    let j = choose|j: int| 0 <= j < w2.len() && w2[j] == x;
                    assert(w[j] == x);
                } else {
                    assert(w[w.len() - 1] == x);
                }
            }
            if a.contains(x) {
                let j = choose|j: int| 0 <= j < w2.len() && w2[j] == x;
                assert(w[j] == x);
            }
            if b2.contains(x) {
                let i = choose|i: int| 0 <= i < b2.len() && b2[i] == x;
                assert(b[i] == x);
            }
        }
        if w.no_duplicates() {
            assert(w2.no_duplicates()) by {
                assert forall|i: int, j: int| 0 <= i < w2.len() && 0 <= j < w2.len() && i != j implies w2[i] != w2[j] by {
                    assert(w[i] == w2[i] && w[j] == w2[j]);
                }
            }
            assert(!w2.contains(z)) by {
                if w2.contains(z) {
                    let j = choose|j: int| 0 <= j < w2.len() && w2[j] == z;
                    assert(w[j] == w[w.len() - 1]);
                }
            }
            assert(!b2.contains(z));
            assert(!a.contains(z));
            assert(b.no_duplicates()) by {
                assert forall|i: int, j: int| 0 <= i < b.len() && 0 <= j < b.len() && i != j implies b[i] != b[j] by {
                    if i < b2.len() && j < b2.len() {
                        assert(b[i] == b2[i] && b[j] == b2[j]);
                    } else if i < b2.len() {
                        assert(b[i] == b2[i]);
                        assert(b2.contains(b[i]));
                    } else {
                        assert(b[j] == b2[j]);
                        assert(b2.contains(b[j]));
                    }
                }
            }
            assert forall|x: Seq<char>| !(#[trigger] a.contains(x) && b.contains(x)) by {
                if a.contains(x) && b.contains(x) {
                    let i = choose|i: int| 0 <= i < b.len() && b[i] == x;
                    if i < b2.len() {
                        assert(b2[i] == x);
                        assert(b2.contains(x));
                    } else {
                        assert(x == z);
                    }
                }
            }
        }
    }
}

/// The survey accounts for the left recursion: its surviving rules are the left-recursive rules in
/// rule order; each of them is a candidate or declined, and (when the order names each rule once)
/// never both and never twice; every candidate's routes are routes of the base rule, start at it,
/// iterate a non-empty suffix, and number at most `MAX_ROUTES_PER_BASE`.
pub proof fn lemma_survey_accounts(g: Map<Seq<char>, ASTNode>, ord: Seq<Seq<char>>, r: IndirectChainSurvey)
    requires
        survey_ok(g, ord, r),
    ensures
        strs_view(r.surviving_cycle_rules@) == left_recursive_rules(g, ord),
        forall|x: Seq<char>| #[trigger] left_recursive_rules(g, ord).contains(x) <==> (candidate_rules(r.candidates@).contains(x)
            || declined_rules(r.declined@).contains(x)),
        ord.no_duplicates() ==> candidate_rules(r.candidates@).no_duplicates() && declined_rules(r.declined@).no_duplicates()
            && forall|x: Seq<char>| !(#[trigger] candidate_rules(r.candidates@).contains(x) && declined_rules(r.declined@).contains(x)),
        forall|i: int| 0 <= i < r.candidates@.len() ==> (#[trigger] r.candidates@[i]).routes@.len() <= MAX_ROUTES_PER_BASE,
        forall|i: int, k: int| 0 <= i < r.candidates@.len() && 0 <= k < r.candidates@[i].routes@.len() ==> {
            &&& is_route(step_table(g, ord), r.candidates@[i].base_rule@, #[trigger] routes_steps(r.candidates@[i].routes@)[k])
            &&& routes_steps(r.candidates@[i].routes@)[k][0].rule == r.candidates@[i].base_rule@
            &&& suffix_of(routes_steps(r.candidates@[i].routes@)[k]).len() > 0
        },
{
    let lr = left_recursive_rules(g, ord);
    lemma_interleaves(candidate_rules(r.candidates@), declined_rules(r.declined@), lr);
    if ord.no_duplicates() {
        lemma_filter_no_duplicates(ord, |x: Seq<char>| g.dom().contains(x) && is_left_recursive(g, ord, x));
    }
    assert forall|i: int| 0 <= i < r.candidates@.len() implies (#[trigger] r.candidates@[i]).routes@.len() <= MAX_ROUTES_PER_BASE by {
        let c = r.candidates@[i];
        assert(candidate_ok(g, ord, c));
        assert(routes_steps(c.routes@).len() == c.routes@.len());
    }
    assert forall|i: int, k: int| 0 <= i < r.candidates@.len() && 0 <= k < r.candidates@[i].routes@.len() implies {
        &&& is_route(step_table(g, ord), r.candidates@[i].base_rule@, #[trigger] routes_steps(r.candidates@[i].routes@)[k])
        &&& routes_steps(r.candidates@[i].routes@)[k][0].rule == r.candidates@[i].base_rule@
        &&& suffix_of(routes_steps(r.candidates@[i].routes@)[k]).len() > 0
    } by {
        let c = r.candidates@[i];
        assert(candidate_ok(g, ord, c));
        assert(routes_steps(c.routes@).len() == c.routes@.len());
    }
}


/// A route's suffix lists the residuals innermost step first: the outermost (first) step's
/// residual comes last, after the suffix of the deeper steps.
pub proof fn lemma_suffix_outermost_last(x: StepView, s: Seq<StepView>)
    ensures
        suffix_of(seq![x] + s) == suffix_of(s) + x.residual,
    decreases s.len(),
{
    if s.len() == 0 {
        assert((seq![x] + s).drop_last() =~= Seq::<StepView>::empty());
        assert((seq![x] + s).last() == x);
        assert(suffix_of(Seq::<StepView>::empty()) =~= Seq::<SpecNode>::empty());
        assert(suffix_of(seq![x] + s) =~= x.residual);
        assert(suffix_of(s) + x.residual =~= x.residual);
    } else {
        let t = seq![x] + s;
        assert(t.drop_last() =~= seq![x] + s.drop_last());
        assert(t.last() == s.last());
        lemma_suffix_outermost_last(x, s.drop_last());
        assert(suffix_of(t) =~= s.last().residual + (suffix_of(s.drop_last()) + x.residual));
        assert(suffix_of(s) =~= s.last().residual + suffix_of(s.drop_last()));
    }
}

/// For a two-step route the suffix is the inner step's residual followed by the outer one's.
pub proof fn lemma_suffix_two_steps(s: Seq<StepView>)
    requires
        s.len() == 2,
    ensures
        suffix_of(s) == s[1].residual + s[0].residual,
{
    assert(s.drop_last().drop_last() =~= Seq::<StepView>::empty());
    assert(s.drop_last().last() == s[0]);
    assert(suffix_of(s.drop_last().drop_last()) =~= Seq::<SpecNode>::empty());
    assert(suffix_of(s.drop_last()) =~= s[0].residual);
}

} // verus!
