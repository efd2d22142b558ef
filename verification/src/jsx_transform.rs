//! A lighter entry point to the markup lowering: the compiled template is
//! pushed as a return statement rather than wrapped in an exported render
//! function, for callers that assemble the output module themselves.
use vstd::prelude::*;

use crate::ast::JSXElement;
use crate::transform::{lower_root, spec_lower_root, Slot};

verus! {

/// A synthesized `return` of a compiled template array.
#[derive(Debug)]
pub struct ReturnStmt {
    pub arg: Vec<Slot>,
}

/// Collects one return statement per markup root handed to it.
#[derive(Debug)]
pub struct JSXTransform {
    pub stmts: Vec<ReturnStmt>,
}

impl Default for JSXTransform {
    fn default() -> (r: JSXTransform)
        ensures
            r.stmts@ == Seq::<ReturnStmt>::empty(),
    {
        JSXTransform { stmts: Vec::new() }
    }
}

impl JSXTransform {
    /// Lowers one markup root and records the return of its template.
    pub fn transform_jsx(&mut self, jsx: JSXElement)
        ensures
            final(self).stmts@.len() == old(self).stmts@.len() + 1,
            final(self).stmts@.take(old(self).stmts@.len() as int) == old(self).stmts@,
            spec_lower_root(jsx, final(self).stmts@.last().arg@),
    {
        let arg = lower_root(jsx);
        self.stmts.push(ReturnStmt { arg });
        proof {
            assert(final(self).stmts@.take(old(self).stmts@.len() as int) =~= old(self).stmts@);
        }
    }
}

} // verus!
