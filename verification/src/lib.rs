use vstd::prelude::*;

pub mod ast;
pub mod names;
pub mod fixpoint;
pub mod graph;
pub mod order;
pub mod text;
pub mod walk;
pub mod left_rec;
pub mod wellformed;
pub mod annotations;
pub mod shadowing;
pub mod facts;
pub mod certificates;
pub mod lr_plan;
pub mod profile_proof;
pub mod grouped;
pub mod return_ast;
pub mod elimination;
pub mod generator;
pub mod library;
pub mod artifact_text;

verus! {
} // verus!
