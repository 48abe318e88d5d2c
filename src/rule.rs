use vstd::prelude::*;
use crate::symbol::Symbol;

verus! {

/// Dense identity of a rule: its position in the grammar's rule list.
#[derive(Debug, Clone, Copy, PartialEq, Eq, Structural, Hash, PartialOrd, Ord)]
pub struct RuleId {
    pub id: usize,
}

impl RuleId {
    pub fn new(id: usize) -> (r: RuleId)
        ensures
            r.id == id,
    {
        RuleId { id }
    }

    pub fn id(&self) -> (r: usize)
        ensures
            r == self.id,
    {
        self.id
    }
}

impl From<usize> for RuleId {
    fn from(id: usize) -> (r: RuleId)
        ensures
            r.id == id,
    {
        RuleId { id }
    }
}

impl vstd::std_specs::convert::FromSpecImpl<usize> for RuleId {
    open spec fn obeys_from_spec() -> bool {
        true
    }

    open spec fn from_spec(id: usize) -> RuleId {
        RuleId { id }
    }
}

/// A production `head -> body`; an empty body is an epsilon production.
#[derive(Debug, Clone)]
pub struct Rule {
    pub head: Symbol,
    pub body: Vec<Symbol>,
}

impl Rule {
    pub fn new(head: Symbol, body: Vec<Symbol>) -> (r: Rule)
        ensures
            r.head == head,
            r.body@ == body@,
    {
        Rule { head, body }
    }

    pub fn head(&self) -> (r: Symbol)
        ensures
            r == self.head,
    {
        self.head
    }

    pub fn body(&self) -> (r: &[Symbol])
        ensures
            r@ == self.body@,
    {
        self.body.as_slice()
    }
}

} // verus!
