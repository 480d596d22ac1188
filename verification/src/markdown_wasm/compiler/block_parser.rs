//! Assembling classified lines into blocks.
use vstd::prelude::*;

use super::common::{Ast, LineType};

verus! {

/// Assembles classified lines into a document; no line kind is assembled
/// yet, so the document has no blocks.
pub fn parse_block(lines: Vec<LineType>) -> (ast: Ast)
    ensures
        ast.children@.len() == 0,
{
    let ast = Ast { children: Vec::new() };
    ast
}

} // verus!
