//! A compiler that lowers a tab-indented, macro-capable command dialect into
//! flat command files whose only control transfer is a direct `function` call.
//!
//! The pipeline transforms `Scope` values (named units of text owned by a
//! `Namespace`) through a chain of stages: comment stripping, macro
//! expansion, indentation lowering, token substitution and continuation
//! joining.
use vstd::prelude::*;

pub mod back_compiler;
pub mod comment_remover;
pub mod datapack;
pub mod laws;
pub mod macro_compiler;
pub mod namespace;
pub mod pipeline;
pub mod scope;
pub mod scopes_compiler;
pub mod substitutions_compiler;
pub mod util;

verus! {

/// The errors a compilation run can end with.
#[derive(Debug)]
pub enum CompileError {
    /// A name holds a character outside the accepted set.
    InvalidName,
    /// A `call` named a macro that no `generate function` block ever defined.
    /// Carries the macro's name.
    MissingMacro(String),
    /// Macro expansion did not settle within the given work budget.
    ExpansionLimitReached,
    /// The 32-bit anonymous-identifier space ran out.
    IdSpaceExhausted,
}

} // verus!
