//! Containers that a later compilation stage consumes: the raw tokens of one
//! function, and the collection of all functions of a program.

use crate::lexer::Token;
use vstd::prelude::*;

verus! {

/// The tokens that make up one function, exactly as supplied, in order.
#[derive(Debug, Clone)]
pub struct Function {
    pub tokens: Vec<Token>,
}

impl From<Vec<Token>> for Function {
    fn from(other: Vec<Token>) -> (f: Function) {
        Function { tokens: other }
    }
}

impl vstd::std_specs::convert::FromSpecImpl<Vec<Token>> for Function {
    open spec fn obeys_from_spec() -> bool {
        true
    }

    open spec fn from_spec(other: Vec<Token>) -> Function {
        Function { tokens: other }
    }
}

/// All functions of one compilation unit, exactly as supplied, in order.
#[derive(Debug, Clone)]
pub struct Program {
    pub functions: Vec<Function>,
}

impl From<Vec<Function>> for Program {
    fn from(other: Vec<Function>) -> (p: Program) {
        Program { functions: other }
    }
}

impl vstd::std_specs::convert::FromSpecImpl<Vec<Function>> for Program {
    open spec fn obeys_from_spec() -> bool {
        true
    }

    open spec fn from_spec(other: Vec<Function>) -> Program {
        Program { functions: other }
    }
}

} // verus!
