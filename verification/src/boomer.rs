//! Strict top-level validation: classifies every top-level statement as the
//! server block, the client block, or the markup root, and rejects anything
//! else at the first offence. A forerunner of the collecting parser, kept
//! for callers that want validation alone.
use vstd::prelude::*;

use crate::ast::{ExprKind, ModuleItem, Stmt, StmtKind};
use crate::parser::Error;

verus! {

/// The three top-level statement roles the language admits.
#[derive(Clone, Copy, Debug, PartialEq, Eq, Structural)]
pub enum TopLevelStmt {
    Server,
    Client,
    JSX,
}

/// The classification of one top-level statement: a `server` or `client`
/// label, a markup-root expression statement, or an error naming what stood
/// there instead.
pub open spec fn spec_classify(s: Stmt) -> Result<TopLevelStmt, Error> {
    match s.kind {
        StmtKind::Labeled(l) => {
            if l.label@ == "server"@ {
                Ok(TopLevelStmt::Server)
            } else if l.label@ == "client"@ {
                Ok(TopLevelStmt::Client)
            } else {
                Err(Error::UnexpectedLabeledStatement(l.label))
            }
        },
        StmtKind::Expr(e) => match (*e).kind {
            ExprKind::Element(_) => Ok(TopLevelStmt::JSX),
            _ => Err(Error::UnexpectedTopLevelStatement),
        },
        _ => Err(Error::UnexpectedTopLevelStatement),
    }
}

/// The first classification error among the items, if any: declarations
/// pass, statements must classify.
pub open spec fn spec_check_items(items: Seq<ModuleItem>) -> Result<(), Error>
    decreases items,
{
    if items.len() == 0 {
        Ok(())
    } else {
        match items.first() {
            ModuleItem::Stmt(s) => match spec_classify(s) {
                Ok(_) => spec_check_items(items.drop_first()),
                Err(e) => Err(e),
            },
            _ => spec_check_items(items.drop_first()),
        }
    }
}

/// The strict validator.
pub struct Boomer;

impl Boomer {
    pub fn new() -> (r: Boomer) {
        Boomer {  }
    }

    /// Classifies one top-level statement, or says why it is not allowed.
    pub fn visit_mut_top_level_stmt(&mut self, stmt: &Stmt) -> (r: Result<TopLevelStmt, Error>)
        ensures
            r == spec_classify(*stmt),
    {
        match &stmt.kind {
            StmtKind::Labeled(l) => {
                if crate::ast::str_is(&l.label, "server") {
                    Ok(TopLevelStmt::Server)
                } else if crate::ast::str_is(&l.label, "client") {
                    Ok(TopLevelStmt::Client)
                } else {
                    Err(Error::UnexpectedLabeledStatement(l.label.clone()))
                }
            },
            StmtKind::Expr(e) => match &e.kind {
                ExprKind::Element(_) => Ok(TopLevelStmt::JSX),
                _ => Err(Error::UnexpectedTopLevelStatement),
            },
            _ => Err(Error::UnexpectedTopLevelStatement),
        }
    }

    /// Walks the top-level items and stops at the first statement that does
    /// not classify.
    pub fn visit_mut_module_items(&mut self, items: &Vec<ModuleItem>) -> (r: Result<(), Error>)
        ensures
            r == spec_check_items(items@),
    {
        let ghost all = items@;
        let mut i: usize = 0;
        proof {
            assert(all.skip(0) =~= all);
        }
        while i < items.len()
            invariant
                0 <= i <= all.len(),
                all == items@,
                spec_check_items(all) == spec_check_items(all.skip(i as int)),
            decreases all.len() - i,
        {
            proof {
                assert(all.skip(i as int).first() == all[i as int]);
                assert(all.skip(i as int).drop_first() =~= all.skip(i + 1));
            }
            match &items[i] {
                ModuleItem::Stmt(s) => {
                    match self.visit_mut_top_level_stmt(s) {
                        Ok(_) => {},
                        Err(e) => {
                            return Err(e);
                        },
                    }
                },
                _ => {},
            }
            i = i + 1;
        }
        proof {
            assert(all.skip(all.len() as int) =~= Seq::<ModuleItem>::empty());
        }
        Ok(())
    }
}

} // verus!
