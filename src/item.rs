use vstd::prelude::*;
use crate::grammar::Grammar;
use crate::rule::RuleId;
use crate::symbol::Symbol;

verus! {

/// An LR(1) item `[head -> body[..placeholder] . body[placeholder..], lookahead]`.
#[derive(Debug, Clone, Copy, PartialEq, Eq, Structural, Hash, PartialOrd, Ord)]
pub struct Item {
    pub rule_id: RuleId,
    pub placeholder: usize,
    pub lookahead: Symbol,
}

/// A lookahead is a declared terminal or the end-of-input marker.
pub open spec fn lookahead_ok(tc: nat, s: Symbol) -> bool {
    (s is Terminal && s->Terminal_0 < tc) || s == Symbol::EndOfInput
}

/// The body of the item's rule.
pub open spec fn item_body(g: &Grammar, it: Item) -> Seq<Symbol> {
    g.rule_list()[it.rule_id.id as int].body@
}

pub open spec fn valid_item(g: &Grammar, it: Item) -> bool {
    &&& it.rule_id.id < g.rule_list().len()
    &&& it.placeholder <= item_body(g, it).len()
    &&& lookahead_ok(g.num_terminals(), it.lookahead)
}

/// The symbol right after the dot, if any.
pub open spec fn symbol_after_dot(g: &Grammar, it: Item) -> Option<Symbol> {
    if it.placeholder < item_body(g, it).len() {
        Some(item_body(g, it)[it.placeholder as int])
    } else {
        None
    }
}

/// The item with the dot one position to the right.
pub open spec fn advanced(it: Item) -> Item {
    Item { placeholder: (it.placeholder + 1) as usize, ..it }
}

/// What follows the symbol after the dot, then the lookahead: the sequence
/// whose FIRST set gives the lookaheads of the items that expand it.
pub open spec fn remainder(g: &Grammar, it: Item) -> Seq<Symbol> {
    item_body(g, it).subrange(it.placeholder + 1, item_body(g, it).len() as int).push(it.lookahead)
}

impl Item {
    /// The item for rule `rule_id` with the dot at the start.
    pub fn new(rule_id: usize, lookahead: Symbol) -> (r: Item)
        ensures
            r == (Item { rule_id: RuleId { id: rule_id }, placeholder: 0, lookahead }),
    {
        Item { rule_id: RuleId::new(rule_id), placeholder: 0, lookahead }
    }

    pub fn symbol_at_placeholder(&self, g: &Grammar) -> (r: Option<Symbol>)
        requires
            valid_item(g, *self),
        ensures
            r == symbol_after_dot(g, *self),
    {
        let body = g.rule(self.rule_id.id).body();
        if self.placeholder < body.len() {
            Some(body[self.placeholder])
        } else {
            None
        }
    }

    /// The symbol after the dot when it is a nonterminal.
    pub fn nonterminal_at_placeholder(&self, g: &Grammar) -> (r: Option<Symbol>)
        requires
            valid_item(g, *self),
        ensures
            r == (match symbol_after_dot(g, *self) {
                Some(s) => if s.spec_is_nonterminal() { Some(s) } else { None },
                None => None,
            }),
    {
        match self.symbol_at_placeholder(g) {
            Some(s) => if s.is_nonterminal() {
                Some(s)
            } else {
                None
            },
            None => None,
        }
    }

    pub fn lookahead(&self) -> (r: Symbol)
        ensures
            r == self.lookahead,
    {
        self.lookahead
    }

    pub fn rule_id(&self) -> (r: RuleId)
        ensures
            r == self.rule_id,
    {
        self.rule_id
    }

    /// The item with the dot moved one symbol right; `None` when the dot is
    /// already at the end.
    pub fn advance_placeholder(&self, g: &Grammar) -> (r: Option<Item>)
        requires
            valid_item(g, *self),
        ensures
            r == (if self.placeholder < item_body(g, *self).len() {
                Some(advanced(*self))
            } else {
                None
            }),
    {
        let body = g.rule(self.rule_id.id).body();
        if self.placeholder < body.len() {
            Some(Item { rule_id: self.rule_id, placeholder: self.placeholder + 1, lookahead: self.lookahead })
        } else {
            None
        }
    }
}

} // verus!
