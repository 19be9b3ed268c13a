//! Return annotations: the AST template a branch declares for its value, as the elimination pass
//! reads, composes and writes them.
use vstd::prelude::*;

verus! {

/// A return-annotation template: what a branch builds from its captures (`$1`, `$2`, ...).
#[derive(Debug, PartialEq, Eq)]
pub enum UnifiedReturnAST {
    /// `$index`; `$0` stands for the matched text.
    PositionalRef { index: usize },
    /// The captured value, unchanged.
    Passthrough,
    StringLiteral { value: String },
    /// A number literal; the templates this library builds and composes hold unsigned integers.
    NumberLiteral { value: u64 },
    BooleanLiteral { value: bool },
    NullLiteral,
    Identifier { name: String },
    /// An object, its properties in declaration order.
    Object { properties: Vec<(String, Box<UnifiedReturnAST>)> },
    Array { elements: Vec<UnifiedReturnAST> },
    Spread { base: Box<UnifiedReturnAST> },
    FlattenSpread { base: Box<UnifiedReturnAST> },
    PropertyAccess { base: Box<UnifiedReturnAST>, property: String },
    ArrayAccess { base: Box<UnifiedReturnAST>, index: Box<UnifiedReturnAST> },
    /// `$text`.
    MatchedText,
    /// `$N::target`.
    QuantifiedExtraction { index: usize, target: String },
    /// A left-recursion chain fold: the seed, the iterated suffixes, and one spec per suffix
    /// alternative.
    LrChainFold {
        initial: Box<UnifiedReturnAST>,
        suffixes: Box<UnifiedReturnAST>,
        specs: Vec<LrChainWrapperSpec>,
    },
}

/// One suffix alternative of a chain fold: its index, the length of the body it wraps (`$1` plus
/// the suffix elements), and the template applied per iteration.
#[derive(Debug, PartialEq, Eq)]
pub struct LrChainWrapperSpec {
    pub alt_index: usize,
    pub original_body_length: usize,
    pub annotation_template: UnifiedReturnAST,
}

/// A branch's return annotation: its kind, its source text, and the parsed template.
#[derive(Debug, PartialEq, Eq)]
pub struct BranchAnnotation {
    pub annotation_type: String,
    pub annotation_content: String,
    pub parsed_ast: Option<UnifiedReturnAST>,
}

/// A copy of a template.
pub(crate) fn copy_template(t: &UnifiedReturnAST) -> (r: UnifiedReturnAST)
    decreases t, 2nat,
{
    match t {
        UnifiedReturnAST::PositionalRef { index } => UnifiedReturnAST::PositionalRef { index: *index },
        UnifiedReturnAST::Passthrough => UnifiedReturnAST::Passthrough,
        UnifiedReturnAST::StringLiteral { value } => UnifiedReturnAST::StringLiteral { value: value.clone() },
        UnifiedReturnAST::NumberLiteral { value } => UnifiedReturnAST::NumberLiteral { value: *value },
        UnifiedReturnAST::BooleanLiteral { value } => UnifiedReturnAST::BooleanLiteral { value: *value },
        UnifiedReturnAST::NullLiteral => UnifiedReturnAST::NullLiteral,
        UnifiedReturnAST::Identifier { name } => UnifiedReturnAST::Identifier { name: name.clone() },
        UnifiedReturnAST::Object { properties } => UnifiedReturnAST::Object { properties: copy_properties(properties) },
        UnifiedReturnAST::Array { elements } => UnifiedReturnAST::Array { elements: copy_templates(elements) },
        UnifiedReturnAST::Spread { base } => UnifiedReturnAST::Spread { base: Box::new(copy_template(base)) },
        UnifiedReturnAST::FlattenSpread { base } => UnifiedReturnAST::FlattenSpread { base: Box::new(copy_template(base)) },
        UnifiedReturnAST::PropertyAccess { base, property } => UnifiedReturnAST::PropertyAccess {
            base: Box::new(copy_template(base)),
            property: property.clone(),
        },
        UnifiedReturnAST::ArrayAccess { base, index } => UnifiedReturnAST::ArrayAccess {
            base: Box::new(copy_template(base)),
            index: Box::new(copy_template(index)),
        },
        UnifiedReturnAST::MatchedText => UnifiedReturnAST::MatchedText,
        UnifiedReturnAST::QuantifiedExtraction { index, target } => UnifiedReturnAST::QuantifiedExtraction {
            index: *index,
            target: target.clone(),
        },
        UnifiedReturnAST::LrChainFold { initial, suffixes, specs } => UnifiedReturnAST::LrChainFold {
            initial: Box::new(copy_template(initial)),
            suffixes: Box::new(copy_template(suffixes)),
            specs: copy_specs(specs),
        },
    }
}

/// A copy of a list of templates.
pub(crate) fn copy_templates(v: &Vec<UnifiedReturnAST>) -> (r: Vec<UnifiedReturnAST>)
    decreases v, 1nat,
{
    let mut out: Vec<UnifiedReturnAST> = Vec::new();
    let mut i: usize = 0;
    while i < v.len()
        invariant
            i <= v@.len(),
        decreases v@.len() - i,
    {
        assert(decreases_to!(v => v@[i as int]));
        out.push(copy_template(&v[i]));
        i = i + 1;
    }
    out
}

/// A copy of an object's properties.
pub(crate) fn copy_properties(v: &Vec<(String, Box<UnifiedReturnAST>)>) -> (r: Vec<(String, Box<UnifiedReturnAST>)>)
    decreases v, 1nat,
{
    let mut out: Vec<(String, Box<UnifiedReturnAST>)> = Vec::new();
    let mut i: usize = 0;
    while i < v.len()
        invariant
            i <= v@.len(),
        decreases v@.len() - i,
    {
        assert(decreases_to!(v => v@[i as int]));
        assert(decreases_to!(v@[i as int] => v@[i as int].1));
        let (k, t) = &v[i];
        out.push((k.clone(), Box::new(copy_template(t))));
        i = i + 1;
    }
    out
}

/// A copy of a chain fold's specs.
pub(crate) fn copy_specs(v: &Vec<LrChainWrapperSpec>) -> (r: Vec<LrChainWrapperSpec>)
    decreases v, 1nat,
{
    let mut out: Vec<LrChainWrapperSpec> = Vec::new();
    let mut i: usize = 0;
    while i < v.len()
        invariant
            i <= v@.len(),
        decreases v@.len() - i,
    {
        assert(decreases_to!(v => v@[i as int]));
        let s = &v[i];
        out.push(LrChainWrapperSpec {
            alt_index: s.alt_index,
            original_body_length: s.original_body_length,
            annotation_template: copy_template(&s.annotation_template),
        });
        i = i + 1;
    }
    out
}

/// A copy of a branch annotation.
pub(crate) fn copy_branch_annotation(b: &BranchAnnotation) -> (r: BranchAnnotation)
{
    BranchAnnotation {
        annotation_type: b.annotation_type.clone(),
        annotation_content: b.annotation_content.clone(),
        parsed_ast: match &b.parsed_ast {
            Some(t) => Some(copy_template(t)),
            None => None,
        },
    }
}

/// A copy of an optional branch annotation.
pub(crate) fn copy_branch_option(b: &Option<BranchAnnotation>) -> (r: Option<BranchAnnotation>)
    ensures
        r is Some <==> b is Some,
{
    match b {
        Some(x) => Some(copy_branch_annotation(x)),
        None => None,
    }
}

} // verus!
