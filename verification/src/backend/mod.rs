//! Code-generation backends.

use vstd::prelude::*;
use crate::error::SemanticError;
use crate::lexer::{Chip, Program};

pub mod js;

pub use js::JsBackend;

verus! {

/// A backend renders a chip, and every chip of the registry that it may
/// use, as one module of source text in its target language.
pub trait Backend {
    fn compile(chip: Chip, program: Program) -> Result<String, SemanticError>;
}

} // verus!
