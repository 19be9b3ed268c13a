//! Grouped and quantified elements: raw `[type, value]` tokens to a token stream, elements to the
//! grammar IR, and the display form of an element.
use vstd::prelude::*;
use vstd::string::*;
use crate::ast::{ASTNode, ASTValue, SpecNode, TokenValue, node_view, nodes_view, token_parts_view};
use crate::names::str_eq;

verus! {

broadcast use vstd::std_specs::vec::axiom_vec_index_decreases;

/// A token of the grouped-element stream.
#[derive(Debug, Clone, PartialEq)]
pub enum Token {
    /// `(`
    GroupOpen,
    /// `)`
    GroupClose,
    /// `?`, `*`, `+`, ...
    Quantifier(String),
    /// Actual content: `(type, value)`.
    Element(String, String),
}

/// The model of a token.
pub enum TokenView {
    GroupOpen,
    GroupClose,
    Quantifier(Seq<char>),
    Element(Seq<char>, Seq<char>),
}

impl View for Token {
    type V = TokenView;

    open spec fn view(&self) -> TokenView {
        match self {
            Token::GroupOpen => TokenView::GroupOpen,
            Token::GroupClose => TokenView::GroupClose,
            Token::Quantifier(q) => TokenView::Quantifier(q@),
            Token::Element(t, v) => TokenView::Element(t@, v@),
        }
    }
}

pub open spec fn tokens_view(s: Seq<Token>) -> Seq<TokenView> {
    s.map_values(|t: Token| t@)
}

/// A parsed element.
#[derive(Debug, PartialEq)]
pub enum ParsedElement {
    /// A simple element (terminal or rule reference).
    Simple { token_type: String, token_value: String },
    /// A sequence of elements.
    Sequence { elements: Vec<ParsedElement> },
    /// An alternative (a | b | c).
    Alternative { branches: Vec<ParsedElement> },
    /// A quantified element with ?, *, or +.
    Quantified { element: Box<ParsedElement>, quantifier: String },
    /// A grouped element without quantifier.
    Group { element: Box<ParsedElement> },
}

/// The token a raw `[type, value]` token stands for; shorter raw tokens stand for nothing.
pub open spec fn raw_token(parts: Seq<Seq<char>>) -> Option<TokenView> {
    if parts.len() < 2 {
        None
    } else if parts[0] == "group_open"@ {
        Some(TokenView::GroupOpen)
    } else if parts[0] == "group_close"@ {
        Some(TokenView::GroupClose)
    } else if parts[0] == "quantifier"@ {
        Some(TokenView::Quantifier(parts[1]))
    } else {
        Some(TokenView::Element(parts[0], parts[1]))
    }
}

/// The tokens of a raw token list, in order.
pub open spec fn tokenized(raw: Seq<Vec<TokenValue>>) -> Seq<TokenView>
    decreases raw.len(),
{
    if raw.len() == 0 {
        Seq::empty()
    } else {
        tokenized(raw.drop_last()) + match raw_token(token_parts_view(raw.last()@)) {
            Some(t) => seq![t],
            None => Seq::empty(),
        }
    }
}

/// The `(type, value)` of each element token, in order.
pub open spec fn element_pairs(s: Seq<TokenView>) -> Seq<(Seq<char>, Seq<char>)>
    decreases s.len(),
{
    if s.len() == 0 {
        Seq::empty()
    } else {
        element_pairs(s.drop_last()) + match s.last() {
            TokenView::Element(t, v) => seq![(t, v)],
            _ => Seq::empty(),
        }
    }
}

/// The `(type, value)` of a simple element.
pub open spec fn simple_pair(e: ParsedElement) -> Option<(Seq<char>, Seq<char>)> {
    match e {
        ParsedElement::Simple { token_type, token_value } => Some((token_type@, token_value@)),
        _ => None,
    }
}

/// The grammar node an element stands for.
pub open spec fn element_node(e: ParsedElement) -> SpecNode
    decreases e,
{
    match e {
        ParsedElement::Simple { token_type, token_value } => SpecNode::Token(seq![token_type@, token_value@]),
        ParsedElement::Sequence { elements } => SpecNode::Sequence(element_nodes(elements@)),
        ParsedElement::Alternative { branches } => SpecNode::Or(element_nodes(branches@)),
        ParsedElement::Quantified { element, quantifier } => SpecNode::Quant(Box::new(element_node(*element)), quantifier@),
        ParsedElement::Group { element } => SpecNode::Group(Box::new(element_node(*element))),
    }
}

pub open spec fn element_nodes(s: Seq<ParsedElement>) -> Seq<SpecNode>
    decreases s,
{
    if s.len() == 0 {
        Seq::empty()
    } else {
        element_nodes(s.drop_last()).push(element_node(s.last()))
    }
}

/// The display form of an element.
pub open spec fn rendered(e: ParsedElement) -> Seq<char>
    decreases e,
{
    match e {
        ParsedElement::Simple { token_type, token_value } => token_type@ + ":"@ + token_value@,
        ParsedElement::Sequence { elements } => "("@ + rendered_join(elements@, " "@) + ")"@,
        ParsedElement::Alternative { branches } => "("@ + rendered_join(branches@, " | "@) + ")"@,
        ParsedElement::Quantified { element, quantifier } => rendered(*element) + quantifier@,
        ParsedElement::Group { element } => "("@ + rendered(*element) + ")"@,
    }
}

pub open spec fn rendered_join(s: Seq<ParsedElement>, sep: Seq<char>) -> Seq<char>
    decreases s,
{
    if s.len() == 0 {
        Seq::empty()
    } else if s.len() == 1 {
        rendered(s[0])
    } else {
        rendered_join(s.drop_last(), sep) + sep + rendered(s.last())
    }
}

impl ParsedElement {
    /// The display form: `type:value`; `(a b)` for a sequence; `(a | b)` for an alternative;
    /// the element followed by its quantifier; `(e)` for a group.
    #[verifier::loop_isolation(false)]
    pub fn to_string(&self) -> (r: String)
        ensures
            r@ == rendered(*self),
        decreases self,
    {
        match self {
            ParsedElement::Simple { token_type, token_value } => {
                let mut s = token_type.clone();
                s.append(":");
                s.append(token_value.as_str());
                s
            },
            ParsedElement::Sequence { elements: v } | ParsedElement::Alternative { branches: v } => {
                let sep = match self {
                    ParsedElement::Sequence { .. } => " ",
                    _ => " | ",
                };
                let mut s = String::from_str("(");
                let mut i: usize = 0;
                while i < v.len()
                    invariant
                        i <= v@.len(),
                        s@ == "("@ + rendered_join(v@.take(i as int), sep@),
                    decreases v@.len() - i,
                {
                    proof {
                        assert(v@.take(i + 1).drop_last() =~= v@.take(i as int));
                        assert(v@.take(i + 1).last() == v@[i as int]);
                        if i == 0 {
                            assert(v@.take(1)[0] == v@[0]);
                        }
                    }
                    if i > 0 {
                        s.append(sep);
                    }
                    let part = v[i].to_string();
                    s.append(part.as_str());
                    proof {
                        assert(s@ =~= "("@ + rendered_join(v@.take(i + 1), sep@));
                    }
                    i = i + 1;
                }
                s.append(")");
                proof {
                    assert(v@.take(i as int) =~= v@);
                    assert(s@ =~= rendered(*self));
                }
                s
            },
            ParsedElement::Quantified { element, quantifier } => {
                let mut s = element.to_string();
                s.append(quantifier.as_str());
                s
            },
            ParsedElement::Group { element } => {
                let mut s = String::from_str("(");
                let inner = element.to_string();
                s.append(inner.as_str());
                s.append(")");
                s
            },
        }
    }
}

/// Parses grouped and quantified elements.
#[derive(Debug)]
pub struct GroupedQuantifierParser {
    pub debug_mode: bool,
}

impl GroupedQuantifierParser {
    pub fn new(debug_mode: bool) -> (r: Self)
        ensures
            r.debug_mode == debug_mode,
    {
        GroupedQuantifierParser { debug_mode }
    }

    /// The token stream of raw `[type, value]` tokens: `group_open`, `group_close` and
    /// `quantifier` are structural, anything else is content; raw tokens with fewer than two parts
    /// are skipped. Never fails.
    pub fn tokenize_from_raw_tokens(&self, tokens: &[Vec<TokenValue>]) -> (r: Result<Vec<Token>, String>)
        ensures
            match r {
                Ok(v) => tokens_view(v@) == tokenized(tokens@),
                Err(_) => false,
            },
    {
        let mut result: Vec<Token> = Vec::new();
        let mut i: usize = 0;
        while i < tokens.len()
            invariant
                i <= tokens@.len(),
                tokens_view(result@) == tokenized(tokens@.take(i as int)),
            decreases tokens@.len() - i,
        {
            let token = &tokens[i];
            let ghost before = result@;
            proof {
                assert(tokens@.take(i + 1).drop_last() =~= tokens@.take(i as int));
                assert(tokens@.take(i + 1).last() == *token);
            }
            if token.len() >= 2 {
                let token_type = match &token[0] {
                    TokenValue::String(s) => s.as_str(),
                };
                let token_value = match &token[1] {
                    TokenValue::String(s) => s.as_str(),
                };
                proof {
                    assert(token_parts_view(token@)[0] == token_type@);
                    assert(token_parts_view(token@)[1] == token_value@);
                }
                let t = if str_eq(token_type, "group_open") {
                    Token::GroupOpen
                } else if str_eq(token_type, "group_close") {
                    Token::GroupClose
                } else if str_eq(token_type, "quantifier") {
                    Token::Quantifier(token_value.to_string())
                } else {
                    Token::Element(token_type.to_string(), token_value.to_string())
                };
                result.push(t);
                proof {
                    assert(tokens_view(result@) =~= tokens_view(before).push(t@));
                    assert(tokens_view(result@) =~= tokenized(tokens@.take(i + 1)));
                }
            } else {
                proof {
                    assert(tokens_view(result@) =~= tokenized(tokens@.take(i + 1)));
                }
            }
            i = i + 1;
        }
        proof {
            assert(tokens@.take(i as int) =~= tokens@);
        }
        Ok(result)
    }

    /// The content tokens, in order, as simple elements; structural tokens are skipped. Never
    /// fails.
    pub fn parse_sequence(&self, tokens: &[Token]) -> (r: Result<Vec<ParsedElement>, String>)
        ensures
            match r {
                Ok(v) => v@.len() == element_pairs(tokens_view(tokens@)).len() && forall|i: int|
                    0 <= i < v@.len() ==> simple_pair(#[trigger] v@[i]) == Some(element_pairs(tokens_view(tokens@))[i]),
                Err(_) => false,
            },
    {
        let mut result: Vec<ParsedElement> = Vec::new();
        let mut i: usize = 0;
        while i < tokens.len()
            invariant
                i <= tokens@.len(),
                result@.len() == element_pairs(tokens_view(tokens@.take(i as int))).len(),
                forall|j: int| 0 <= j < result@.len() ==> simple_pair(#[trigger] result@[j]) == Some(
                    element_pairs(tokens_view(tokens@.take(i as int)))[j],
                ),
            decreases tokens@.len() - i,
        {
            let ghost prev = element_pairs(tokens_view(tokens@.take(i as int)));
            proof {
                assert(tokens_view(tokens@.take(i + 1)).drop_last() =~= tokens_view(tokens@.take(i as int)));
                assert(tokens_view(tokens@.take(i + 1)).last() == tokens@[i as int]@);
            }
            let ghost before = result@;
            match &tokens[i] {
                Token::Element(token_type, token_value) => {
                    result.push(ParsedElement::Simple { token_type: token_type.clone(), token_value: token_value.clone() });
                    proof {
                        let now = element_pairs(tokens_view(tokens@.take(i + 1)));
                        assert(now =~= prev + seq![(token_type@, token_value@)]);
                        assert forall|j: int| 0 <= j < result@.len() implies simple_pair(#[trigger] result@[j]) == Some(now[j]) by {
                            if j < before.len() {
                                assert(result@[j] == before[j]);
                            }
                        }
                    }
                },
                _ => {
                    proof {
                        assert(element_pairs(tokens_view(tokens@.take(i + 1))) =~= prev);
                    }
                },
            }
            i = i + 1;
        }
        proof {
            assert(tokens@.take(i as int) =~= tokens@);
        }
        Ok(result)
    }

    /// The grammar node of an element: a simple element is a token atom, a sequence a sequence,
    /// an alternative an ordered choice, a quantified element a repetition, a group a nested atom.
    pub fn to_ast_node(&self, element: ParsedElement) -> (r: ASTNode)
        ensures
            r@ == element_node(element),
    {
        element_to_node(&element)
    }
}

#[verifier::loop_isolation(false)]
fn element_to_node(e: &ParsedElement) -> (r: ASTNode)
    ensures
        r@ == element_node(*e),
    decreases e,
{
    match e {
        ParsedElement::Simple { token_type, token_value } => {
            let mut parts: Vec<TokenValue> = Vec::new();
            parts.push(TokenValue::String(token_type.clone()));
            parts.push(TokenValue::String(token_value.clone()));
            let r = ASTNode::Atom { value: ASTValue::Token(parts) };
            proof {
                assert(token_parts_view(parts@) =~= seq![token_type@, token_value@]);
            }
            r
        },
        ParsedElement::Sequence { elements: v } | ParsedElement::Alternative { branches: v } => {
            let mut out: Vec<ASTNode> = Vec::new();
            let mut i: usize = 0;
            while i < v.len()
                invariant
                    i <= v@.len(),
                    nodes_view(out@) == element_nodes(v@.take(i as int)),
                decreases v@.len() - i,
            {
                let ghost before = out@;
                let n = element_to_node(&v[i]);
                out.push(n);
                proof {
                    assert(out@.drop_last() =~= before);
                    assert(v@.take(i + 1).drop_last() =~= v@.take(i as int));
                    assert(nodes_view(out@) =~= element_nodes(v@.take(i + 1)));
                }
                i = i + 1;
            }
            proof {
                assert(v@.take(i as int) =~= v@);
            }
            match e {
                ParsedElement::Sequence { .. } => ASTNode::Sequence { elements: out },
                _ => ASTNode::Or { alternatives: out },
            }
        },
        ParsedElement::Quantified { element, quantifier } => ASTNode::Quantified {
            element: Box::new(element_to_node(element)),
            quantifier: quantifier.clone(),
        },
        ParsedElement::Group { element } => ASTNode::Atom { value: ASTValue::Node(Box::new(element_to_node(element))) },
    }
}

} // verus!
