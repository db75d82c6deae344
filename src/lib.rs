//! rumblebars: a Handlebars-compatible template engine.
//!
//! A template is parsed once into a tree of entries and then evaluated
//! against a data tree; the evaluator walks the tree with an explicit work
//! stack, resolves paths against a stack of contexts and escapes output for
//! HTML unless told otherwise.
use vstd::prelude::*;

pub mod context;
pub mod data;
pub mod eval;
pub mod expression;
pub mod keypath;
pub mod lexer;
pub mod parse;
pub mod safe;
pub mod text;

pub use crate::context::{EvalContext, Helper};
pub use crate::data::{HBData, HBNodeType};
pub use crate::eval::{eval, EvalError};
pub use crate::parse::{parse, parse_hb_expression, HBEntry, HBExpression, HBValHolder, ParseError, RenderOptions, Template};
pub use crate::safe::{HTMLSafeWriter, SafeWriting};

verus! {
} // verus!
