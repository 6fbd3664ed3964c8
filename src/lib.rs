//! Conversion of a markdown syntax tree into a minimad text: lines of styled
//! runs, ready to be rendered on a terminal.
pub mod ast;
mod emitter;
pub mod error;
pub mod laws;
pub mod options;
pub mod segment;
pub mod semantics;
pub mod text;

use vstd::prelude::*;
pub use crate::ast::Node;
pub use crate::error::ToMinimadError;
pub use crate::options::{Options, Styling};
pub use crate::text::{Alignment, Composite, CompositeStyle, Compound, Line, TableRow, TableRule, Text};
use crate::emitter::Emitter;
use crate::options::default_options;
use crate::semantics::{Style, convert};

verus! {

/// Converts the tree to a text, with the given options.
pub fn to_minimad_with_options<'a>(ast: &Node<'a>, options: Options) -> (r: Result<
    Text<'a>,
    ToMinimadError,
>)
    ensures
        match convert(options, *ast) {
            Ok(lines) => r matches Ok(text) && text@ == lines,
            Err(e) => r == Err::<Text<'a>, ToMinimadError>(e),
        },
{
    let mut emitter = Emitter::new(options);
    match emitter.node(ast, Style { bold: false, italic: false, strikeout: false }) {
        Ok(()) => Ok(emitter.finish()),
        Err(e) => Err(e),
    }
}

/// Converts the tree to a text, with the default options.
pub fn to_minimad<'a>(ast: &Node<'a>) -> (r: Result<Text<'a>, ToMinimadError>)
    ensures
        match convert(default_options(), *ast) {
            Ok(lines) => r matches Ok(text) && text@ == lines,
            Err(e) => r == Err::<Text<'a>, ToMinimadError>(e),
        },
{
    to_minimad_with_options(ast, Options::default())
}

} // verus!
