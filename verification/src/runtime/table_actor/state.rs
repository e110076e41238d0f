//! The value a table actor holds.
use vstd::prelude::*;

use crate::ast::Expr;

verus! {

/// The value of a table.
#[derive(Debug)]
pub enum TableValueState {
    Val(Expr),
}

impl TableValueState {
    /// A table holding `val`.
    pub fn new(val: Expr) -> (r: TableValueState)
        ensures
            r matches TableValueState::Val(v) && v == val,
    {
        TableValueState::Val(val)
    }

    /// The value the table holds.
    pub fn into_expr(self) -> (r: Expr)
        ensures
            self matches TableValueState::Val(v) && r == v,
    {
        match self {
            TableValueState::Val(val) => val,
        }
    }
}

} // verus!
