//! Verified core of the Open Design Engine: design tokens, asset storage,
//! document validation, container detection and editing decisions.
use vstd::prelude::*;

pub mod add;
pub mod seqs;
pub mod style;
pub mod asset;
pub mod commands;
pub mod container;
pub mod document;
pub mod errors;
pub mod inspect;
pub mod meta;
pub mod node;
pub mod output;
pub mod svg;
pub mod text;
pub mod tokens;
pub mod typography;
pub mod validate;
pub mod wire;

verus! {

} // verus!
