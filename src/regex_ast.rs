//! Syntax tree of a regular expression.
use vstd::prelude::*;

verus! {

/// A regular expression.
#[derive(Debug)]
pub enum Expr {
    Empty,
    Literal(Box<Literal>),
    Repetition(Box<KleeneStar>),
    Alternation(Box<Alternation>),
    Concatenation(Box<Concatenation>),
    Group(Box<Group>),
    Escape(Box<Escape>),
}

/// One character matched as itself.
#[derive(Debug)]
pub struct Literal {
    pub literal: char,
}

impl Literal {
    pub fn new(literal: char) -> (r: Literal)
        ensures
            r.literal == literal,
    {
        Literal { literal }
    }
}

/// Zero or more repetitions of `expr`.
#[derive(Debug)]
pub struct KleeneStar {
    pub expr: Expr,
}

impl KleeneStar {
    pub fn new(expr: Expr) -> (r: KleeneStar)
        ensures
            r.expr == expr,
    {
        KleeneStar { expr }
    }
}

/// Either `left_expr` or `right_expr`.
#[derive(Debug)]
pub struct Alternation {
    pub left_expr: Expr,
    pub right_expr: Expr,
}

impl Alternation {
    pub fn new(left: Expr, right: Expr) -> (r: Alternation)
        ensures
            r.left_expr == left,
            r.right_expr == right,
    {
        Alternation { left_expr: left, right_expr: right }
    }
}

/// `left_expr` followed by `right_expr`.
#[derive(Debug)]
pub struct Concatenation {
    pub left_expr: Expr,
    pub right_expr: Expr,
}

impl Concatenation {
    pub fn new(left: Expr, right: Expr) -> (r: Concatenation)
        ensures
            r.left_expr == left,
            r.right_expr == right,
    {
        Concatenation { left_expr: left, right_expr: right }
    }
}

/// A parenthesised subexpression.
#[derive(Debug)]
pub struct Group {
    pub expr: Expr,
}

impl Group {
    pub fn new(expr: Expr) -> (r: Group)
        ensures
            r.expr == expr,
    {
        Group { expr }
    }
}

/// A metacharacter escaped with a backslash.
#[derive(Debug)]
pub struct Escape {
    pub expr: Expr,
}

impl Escape {
    pub fn new(expr: Expr) -> (r: Escape)
        ensures
            r.expr == expr,
    {
        Escape { expr }
    }
}

} // verus!
