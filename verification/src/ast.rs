//! The grammar IR: the expression tree of one rule body, and its mathematical model.
use vstd::prelude::*;
use crate::names::{str_eq, strs_view};
use vstd::string::*;

verus! {

broadcast use vstd::std_specs::vec::axiom_vec_index_decreases;

/// One part of a token atom. Token atoms carry `[token_type, token_value]`.
#[derive(Debug, PartialEq, Eq)]
pub enum TokenValue {
    String(String),
}

/// The payload of an `Atom` node: a nested node or a token.
#[derive(Debug, PartialEq, Eq)]
pub enum ASTValue {
    Node(Box<ASTNode>),
    Token(Vec<TokenValue>),
}

/// A grammar expression node.
#[derive(Debug, PartialEq, Eq)]
pub enum ASTNode {
    Or { alternatives: Vec<ASTNode> },
    Sequence { elements: Vec<ASTNode> },
    Quantified { element: Box<ASTNode>, quantifier: String },
    Lookahead { element: Box<ASTNode>, positive: bool },
    Atom { value: ASTValue },
}

/// The mathematical model of a grammar expression.
pub enum SpecNode {
    Or(Seq<SpecNode>),
    Sequence(Seq<SpecNode>),
    Quant(Box<SpecNode>, Seq<char>),
    Look(Box<SpecNode>, bool),
    Group(Box<SpecNode>),
    Token(Seq<Seq<char>>),
}

pub open spec fn token_parts_view(parts: Seq<TokenValue>) -> Seq<Seq<char>> {
    parts.map_values(|t: TokenValue| match t { TokenValue::String(s) => s@ })
}

pub open spec fn node_view(n: ASTNode) -> SpecNode
    decreases n,
{
    match n {
        ASTNode::Or { alternatives } => SpecNode::Or(nodes_view(alternatives@)),
        ASTNode::Sequence { elements } => SpecNode::Sequence(nodes_view(elements@)),
        ASTNode::Quantified { element, quantifier } => SpecNode::Quant(Box::new(node_view(*element)), quantifier@),
        ASTNode::Lookahead { element, positive } => SpecNode::Look(Box::new(node_view(*element)), positive),
        ASTNode::Atom { value } => match value {
            ASTValue::Node(inner) => SpecNode::Group(Box::new(node_view(*inner))),
            ASTValue::Token(parts) => SpecNode::Token(token_parts_view(parts@)),
        },
    }
}

pub open spec fn nodes_view(s: Seq<ASTNode>) -> Seq<SpecNode>
    decreases s,
{
    if s.len() == 0 {
        Seq::empty()
    } else {
        nodes_view(s.drop_last()).push(node_view(s.last()))
    }
}

impl View for ASTNode {
    type V = SpecNode;

    open spec fn view(&self) -> SpecNode {
        node_view(*self)
    }
}

/// The rule a token atom references: its first part is `rule_reference`, its second the name.
pub open spec fn ref_of_parts(parts: Seq<Seq<char>>) -> Option<Seq<char>> {
    if parts.len() >= 2 && parts[0] == "rule_reference"@ {
        Some(parts[1])
    } else {
        None
    }
}

/// Every rule referenced anywhere in a node, lookaheads included.
pub open spec fn node_refs(n: SpecNode) -> Set<Seq<char>>
    decreases n,
{
    match n {
        SpecNode::Or(alts) => seq_refs(alts),
        SpecNode::Sequence(elems) => seq_refs(elems),
        SpecNode::Quant(inner, _) => node_refs(*inner),
        SpecNode::Look(inner, _) => node_refs(*inner),
        SpecNode::Group(inner) => node_refs(*inner),
        SpecNode::Token(parts) => match ref_of_parts(parts) {
            Some(r) => set![r],
            None => Set::empty(),
        },
    }
}

pub open spec fn seq_refs(s: Seq<SpecNode>) -> Set<Seq<char>>
    decreases s,
{
    if s.len() == 0 {
        Set::empty()
    } else {
        seq_refs(s.drop_last()).union(node_refs(s.last()))
    }
}

/// Every rule referenced in a node outside lookaheads (positively entered references).
pub open spec fn node_pos_refs(n: SpecNode) -> Set<Seq<char>>
    decreases n,
{
    match n {
        SpecNode::Or(alts) => seq_pos_refs(alts),
        SpecNode::Sequence(elems) => seq_pos_refs(elems),
        SpecNode::Quant(inner, _) => node_pos_refs(*inner),
        SpecNode::Look(_, _) => Set::empty(),
        SpecNode::Group(inner) => node_pos_refs(*inner),
        SpecNode::Token(parts) => match ref_of_parts(parts) {
            Some(r) => set![r],
            None => Set::empty(),
        },
    }
}

pub open spec fn seq_pos_refs(s: Seq<SpecNode>) -> Set<Seq<char>>
    decreases s,
{
    if s.len() == 0 {
        Set::empty()
    } else {
        seq_pos_refs(s.drop_last()).union(node_pos_refs(s.last()))
    }
}

pub proof fn lemma_nodes_view_len(s: Seq<ASTNode>)
    ensures
        nodes_view(s).len() == s.len(),
    decreases s.len(),
{
    if s.len() > 0 {
        lemma_nodes_view_len(s.drop_last());
    }
}

pub proof fn lemma_nodes_view_index(s: Seq<ASTNode>, i: int)
    requires
        0 <= i < s.len(),
    ensures
        nodes_view(s)[i] == node_view(s[i]),
        nodes_view(s).len() == s.len(),
    decreases s.len(),
{
    lemma_nodes_view_len(s);
    if i < s.len() - 1 {
        lemma_nodes_view_index(s.drop_last(), i);
    }
}

/// `nodes_view` is the element-wise view.
pub proof fn lemma_nodes_view(s: Seq<ASTNode>)
    ensures
        nodes_view(s).len() == s.len(),
        forall|i: int| 0 <= i < s.len() ==> #[trigger] nodes_view(s)[i] == node_view(s[i]),
{
    lemma_nodes_view_len(s);
    assert forall|i: int| 0 <= i < s.len() implies #[trigger] nodes_view(s)[i] == node_view(s[i]) by {
        lemma_nodes_view_index(s, i);
    }
}

/// Element-wise equal views give equal sequence views.
pub proof fn lemma_nodes_view_ext(a: Seq<ASTNode>, b: Seq<ASTNode>)
    requires
        a.len() == b.len(),
        forall|i: int| 0 <= i < a.len() ==> node_view(#[trigger] a[i]) == node_view(b[i]),
    ensures
        nodes_view(a) == nodes_view(b),
{
    lemma_nodes_view(a);
    lemma_nodes_view(b);
    assert(nodes_view(a) =~= nodes_view(b));
}

/// The union of a property over a sequence, by prefix.
pub proof fn lemma_seq_refs_push(s: Seq<SpecNode>, n: SpecNode)
    ensures
        seq_refs(s.push(n)) == seq_refs(s).union(node_refs(n)),
        seq_pos_refs(s.push(n)) == seq_pos_refs(s).union(node_pos_refs(n)),
{
    assert(s.push(n).drop_last() =~= s);
}

/// The first two parts of a token, as `(token_type, token_value)`.
pub fn token_type_value(parts: &Vec<TokenValue>) -> (r: Option<(&String, &String)>)
    ensures
        match r {
            Some((t, v)) => parts@.len() >= 2 && t@ == token_parts_view(parts@)[0] && v@ == token_parts_view(parts@)[1],
            None => parts@.len() < 2,
        },
{
    if parts.len() < 2 {
        return None;
    }
    let t = match &parts[0] {
        TokenValue::String(s) => s,
    };
    let v = match &parts[1] {
        TokenValue::String(s) => s,
    };
    Some((t, v))
}

/// The rule name referenced by a token atom (`[rule_reference, name]`), if it is one.
pub fn referenced_rule(parts: &Vec<TokenValue>) -> (r: Option<&String>)
    ensures
        match r {
            Some(name) => ref_of_parts(token_parts_view(parts@)) == Some(name@),
            None => ref_of_parts(token_parts_view(parts@)) is None,
        },
{
    match token_type_value(parts) {
        Some((t, v)) => {
            if str_eq(t.as_str(), "rule_reference") {
                Some(v)
            } else {
                None
            }
        },
        None => None,
    }
}

impl TokenValue {
    pub fn deep_clone(&self) -> (r: TokenValue)
        ensures
            r == *self,
    {
        match self {
            TokenValue::String(s) => TokenValue::String(s.clone()),
        }
    }
}

pub fn clone_token_parts(parts: &Vec<TokenValue>) -> (r: Vec<TokenValue>)
    ensures
        r@ == parts@,
{
    let mut out: Vec<TokenValue> = Vec::new();
    let mut i: usize = 0;
    while i < parts.len()
        invariant
            i <= parts.len(),
            out@ == parts@.take(i as int),
        decreases parts.len() - i,
    {
        out.push(parts[i].deep_clone());
        i = i + 1;
        assert(out@ =~= parts@.take(i as int));
    }
    assert(parts@.take(parts@.len() as int) =~= parts@);
    out
}

impl ASTNode {
    /// A copy of the node with the same model.
    #[verifier::loop_isolation(false)]
    pub fn deep_clone(&self) -> (r: ASTNode)
        ensures
            r@ == self@,
        decreases self,
    {
        match self {
            ASTNode::Or { alternatives } => ASTNode::Or { alternatives: clone_nodes(alternatives) },
            ASTNode::Sequence { elements } => ASTNode::Sequence { elements: clone_nodes(elements) },
            ASTNode::Quantified { element, quantifier } => ASTNode::Quantified {
                element: Box::new((**element).deep_clone()),
                quantifier: quantifier.clone(),
            },
            ASTNode::Lookahead { element, positive } => ASTNode::Lookahead {
                element: Box::new((**element).deep_clone()),
                positive: *positive,
            },
            ASTNode::Atom { value } => match value {
                ASTValue::Node(inner) => ASTNode::Atom {
                    value: ASTValue::Node(Box::new((**inner).deep_clone())),
                },
                ASTValue::Token(parts) => ASTNode::Atom { value: ASTValue::Token(clone_token_parts(parts)) },
            },
        }
    }
}

/// A copy of a vector of nodes with the same model.
#[verifier::loop_isolation(false)]
pub fn clone_nodes(v: &Vec<ASTNode>) -> (r: Vec<ASTNode>)
    ensures
        nodes_view(r@) == nodes_view(v@),
        r@.len() == v@.len(),
    decreases v,
{
    let mut out: Vec<ASTNode> = Vec::new();
    let mut i: usize = 0;
    while i < v.len()
        invariant
            i <= v.len(),
            out@.len() == i,
            forall|j: int| 0 <= j < i ==> node_view(#[trigger] out@[j]) == node_view(v@[j]),
        decreases v.len() - i,
    {
        proof {
            assert(decreases_to!(v => v@[i as int]));
        }
        let c = v[i].deep_clone();
        out.push(c);
        i = i + 1;
    }
    proof {
        lemma_nodes_view_ext(out@, v@);
    }
    out
}

/// A copy of a slice of nodes (`elements[from..]`) with the same model.
pub fn clone_nodes_from(v: &Vec<ASTNode>, from: usize) -> (r: Vec<ASTNode>)
    requires
        from <= v@.len(),
    ensures
        nodes_view(r@) == nodes_view(v@.subrange(from as int, v@.len() as int)),
        r@.len() == v@.len() - from,
{
    let mut out: Vec<ASTNode> = Vec::new();
    let mut i: usize = from;
    while i < v.len()
        invariant
            from <= i <= v.len(),
            out@.len() == i - from,
            forall|j: int| 0 <= j < i - from ==> node_view(#[trigger] out@[j]) == node_view(v@[j + from]),
        decreases v.len() - i,
    {
        let c = v[i].deep_clone();
        out.push(c);
        i = i + 1;
    }
    proof {
        let sub = v@.subrange(from as int, v@.len() as int);
        assert forall|j: int| 0 <= j < out@.len() implies node_view(#[trigger] out@[j]) == node_view(sub[j]) by {
            assert(sub[j] == v@[j + from]);
        }
        lemma_nodes_view_ext(out@, sub);
    }
    out
}


// ---- quantifier bounds: `?`, `*`, `+`, `{n}`, `{n,}`, `{n,m}` ----

pub open spec fn is_digit(c: char) -> bool {
    '0' <= c && c <= '9'
}

pub open spec fn digit_value(c: char) -> nat {
    (c as nat - '0' as nat) as nat
}

pub open spec fn digits_value(s: Seq<char>) -> nat
    decreases s.len(),
{
    if s.len() == 0 {
        0
    } else {
        digits_value(s.drop_last()) * 10 + digit_value(s.last())
    }
}

pub open spec fn all_digits(s: Seq<char>) -> bool {
    s.len() > 0 && forall|i: int| 0 <= i < s.len() ==> is_digit(#[trigger] s[i])
}

/// A decimal number that fits a `usize`.
pub open spec fn number_of(s: Seq<char>) -> Option<nat> {
    if all_digits(s) && digits_value(s) <= usize::MAX {
        Some(digits_value(s))
    } else {
        None
    }
}

/// Index of the first occurrence of `ch` in `s`, or -1.
pub open spec fn find_char(s: Seq<char>, ch: char) -> int
    decreases s.len(),
{
    if s.len() == 0 {
        -1
    } else if find_char(s.drop_last(), ch) >= 0 {
        find_char(s.drop_last(), ch)
    } else if s.last() == ch {
        s.len() - 1
    } else {
        -1
    }
}

/// The `(min, max)` repetition bounds a quantifier denotes (`max` absent = unbounded).
pub open spec fn quant_bounds(q: Seq<char>) -> Option<(nat, Option<nat>)> {
    if q.len() == 1 && q[0] == '?' {
        Some((0, Some(1)))
    } else if q.len() == 1 && q[0] == '*' {
        Some((0, None))
    } else if q.len() == 1 && q[0] == '+' {
        Some((1, None))
    } else if q.len() >= 2 && q[0] == '{' && q[q.len() - 1] == '}' {
        let inner = q.subrange(1, q.len() - 1);
        let c = find_char(inner, ',');
        if c < 0 {
            match number_of(inner) {
                Some(n) => Some((n, Some(n))),
                None => None,
            }
        } else {
            let lo = inner.subrange(0, c);
            let hi = inner.subrange(c + 1, inner.len() as int);
            match number_of(lo) {
                Some(a) => if hi.len() == 0 {
                    Some((a, None))
                } else {
                    match number_of(hi) {
                        Some(b) => Some((a, Some(b))),
                        None => None,
                    }
                },
                None => None,
            }
        }
    } else {
        None
    }
}

/// The minimum repetition count; an unparseable quantifier counts as optional.
pub open spec fn quant_min(q: Seq<char>) -> nat {
    match quant_bounds(q) {
        Some((a, _)) => a,
        None => 0,
    }
}

/// Whether the repetition is unbounded; an unparseable quantifier counts as unbounded.
pub open spec fn quant_unbounded(q: Seq<char>) -> bool {
    match quant_bounds(q) {
        Some((_, b)) => b is None,
        None => true,
    }
}

/// Whether the quantifier parses and requires at least one repetition.
pub open spec fn quant_mandatory(q: Seq<char>) -> bool {
    match quant_bounds(q) {
        Some((a, _)) => a >= 1,
        None => false,
    }
}

proof fn lemma_digits_value_prefix(s: Seq<char>, i: int)
    requires
        0 <= i <= s.len(),
    ensures
        digits_value(s.take(i)) <= digits_value(s),
    decreases s.len(),
{
    if i < s.len() {
        assert(s.drop_last().take(i) =~= s.take(i));
        lemma_digits_value_prefix(s.drop_last(), i);
    } else {
        assert(s.take(i) =~= s);
    }
}

/// Parse the decimal number `s[from..to]` (chars), `None` unless all digits and fitting a `usize`.
pub fn parse_number(s: &str, from: usize, to: usize) -> (r: Option<usize>)
    requires
        from <= to <= s@.len(),
    ensures
        match r {
            Some(n) => number_of(s@.subrange(from as int, to as int)) == Some(n as nat),
            None => number_of(s@.subrange(from as int, to as int)) is None,
        },
{
    let ghost sub = s@.subrange(from as int, to as int);
    if from == to {
        return None;
    }
    let mut acc: usize = 0;
    let mut i: usize = from;
    while i < to
        invariant
            from <= i <= to <= s@.len(),
            sub == s@.subrange(from as int, to as int),
            acc as nat == digits_value(sub.take(i - from)),
            forall|j: int| 0 <= j < i - from ==> is_digit(#[trigger] sub[j]),
        decreases to - i,
    {
        let c = s.get_char(i);
        assert(c == sub[i - from]);
        if !('0' <= c && c <= '9') {
            return None;
        }
        let d: usize = (c as u32 - '0' as u32) as usize;
        proof {
            assert(sub.take(i - from + 1).drop_last() =~= sub.take(i - from));
            assert(sub.take(i - from + 1).last() == c);
        }
        if acc > (usize::MAX - d) / 10 {
            proof {
                assert(digits_value(sub.take(i - from + 1)) > usize::MAX) by (nonlinear_arith)
                    requires
                        digits_value(sub.take(i - from + 1)) == acc * 10 + d,
                        acc > (usize::MAX - d) / 10,
                        d <= 9,
                ;
                lemma_digits_value_prefix(sub, i - from + 1);
            }
            return None;
        }
        proof {
            assert(acc * 10 + d <= usize::MAX) by (nonlinear_arith)
                requires
                    acc <= (usize::MAX - d) / 10,
                    d <= 9,
            ;
        }
        acc = acc * 10 + d;
        i = i + 1;
    }
    proof {
        assert(sub.take(i - from) =~= sub);
    }
    Some(acc)
}

proof fn lemma_find_char_spec(s: Seq<char>, ch: char)
    ensures
        find_char(s, ch) < s.len(),
        find_char(s, ch) >= 0 ==> s[find_char(s, ch)] == ch && forall|j: int|
            0 <= j < find_char(s, ch) ==> s[j] != ch,
        find_char(s, ch) < 0 ==> find_char(s, ch) == -1 && forall|j: int| 0 <= j < s.len() ==> s[j] != ch,
    decreases s.len(),
{
    if s.len() > 0 {
        lemma_find_char_spec(s.drop_last(), ch);
        assert forall|j: int| 0 <= j < s.len() - 1 implies s[j] == s.drop_last()[j] by {}
    }
}

/// Parse quantifier bounds.
pub fn parse_quantifier_bounds(q: &str) -> (r: Option<(usize, Option<usize>)>)
    ensures
        match r {
            Some((a, b)) => quant_bounds(q@) == Some((a as nat, match b {
                Some(m) => Some(m as nat),
                None => None,
            })),
            None => quant_bounds(q@) is None,
        },
{
    let n = q.unicode_len();
    if n == 1 {
        let c = q.get_char(0);
        if c == '?' {
            return Some((0, Some(1)));
        } else if c == '*' {
            return Some((0, None));
        } else if c == '+' {
            return Some((1, None));
        }
        return None;
    }
    if n < 2 || q.get_char(0) != '{' || q.get_char(n - 1) != '}' {
        return None;
    }
    let ghost inner = q@.subrange(1, n - 1);
    // find the first comma inside the braces
    let mut c: usize = 1;
    while c < n - 1
        invariant
            1 <= c <= n - 1,
            n == q@.len(),
            inner == q@.subrange(1, n - 1),
            forall|j: int| 1 <= j < c ==> q@[j] != ',',
        ensures
            1 <= c <= n - 1,
            c < n - 1 ==> q@[c as int] == ',',
            forall|j: int| 1 <= j < c ==> q@[j] != ',',
        decreases n - 1 - c,
    {
        if q.get_char(c) == ',' {
            break;
        }
        c = c + 1;
    }
    proof {
        lemma_find_char_spec(inner, ',');
    }
    if c == n - 1 {
        proof {
            assert forall|j: int| 0 <= j < inner.len() implies inner[j] != ',' by {
                assert(inner[j] == q@[j + 1]);
            }
            assert(find_char(inner, ',') == -1);
        }
        match parse_number(q, 1, n - 1) {
            Some(v) => Some((v, Some(v))),
            None => None,
        }
    } else {
        proof {
            assert(q@[c as int] == ',');
            assert(inner[c - 1] == ',');
            assert forall|j: int| 0 <= j < c - 1 implies inner[j] != ',' by {
                assert(inner[j] == q@[j + 1]);
            }
            assert(find_char(inner, ',') == c - 1);
            assert(inner.subrange(0, c - 1) =~= q@.subrange(1, c as int));
            assert(inner.subrange(c as int, inner.len() as int) =~= q@.subrange(c + 1, n - 1));
        }
        match parse_number(q, 1, c) {
            None => None,
            Some(a) => {
                if c + 1 == n - 1 {
                    Some((a, None))
                } else {
                    match parse_number(q, c + 1, n - 1) {
                        Some(b) => Some((a, Some(b))),
                        None => None,
                    }
                }
            },
        }
    }
}

pub fn quantifier_min(q: &str) -> (r: usize)
    ensures
        r as nat == quant_min(q@),
{
    match parse_quantifier_bounds(q) {
        Some((a, _)) => a,
        None => 0,
    }
}

pub fn quantifier_unbounded(q: &str) -> (r: bool)
    ensures
        r == quant_unbounded(q@),
{
    match parse_quantifier_bounds(q) {
        Some((_, b)) => b.is_none(),
        None => true,
    }
}

pub fn quantifier_mandatory(q: &str) -> (r: bool)
    ensures
        r == quant_mandatory(q@),
{
    match parse_quantifier_bounds(q) {
        Some((a, _)) => a >= 1,
        None => false,
    }
}

} // verus!
