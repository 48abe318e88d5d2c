use vstd::prelude::*;
use crate::bounds::lemma_push_contains;
use crate::first::{compute_first, declared, first_of_symbols, first_pair_ok, first_seq, is_first_relation, rule_declared, rules_declared};
use crate::rule::Rule;
use crate::symbol::Symbol;

verus! {

/// Why a set of rule declarations does not make a grammar.
#[derive(Debug, Clone, Copy, PartialEq, Eq, Structural)]
pub enum GrammarError {
    /// The rule at this index has a head that is not a declared nonterminal
    /// or `Goal`, or a body symbol that is not a declared terminal or nonterminal.
    UndeclaredSymbol { rule: usize },
    /// No rule is headed by `Goal`.
    MissingGoalRule,
    /// More than one rule is headed by `Goal`.
    MalformedAugmentation,
}

/// Exactly one rule, at index `goal`, is headed by `Goal`.
pub open spec fn single_goal_rule(rules: Seq<Rule>, goal: nat) -> bool {
    &&& goal < rules.len()
    &&& rules[goal as int].head == Symbol::Goal
    &&& forall|r: int| 0 <= r < rules.len() && r != goal ==> #[trigger] rules[r].head != Symbol::Goal
}

pub open spec fn has_goal_rule(rules: Seq<Rule>) -> bool {
    exists|r: int| 0 <= r < rules.len() && #[trigger] rules[r].head == Symbol::Goal
}

pub open spec fn has_two_goal_rules(rules: Seq<Rule>) -> bool {
    exists|r: int, q: int|
        0 <= r < q < rules.len() && #[trigger] rules[r].head == Symbol::Goal && #[trigger] rules[q].head
            == Symbol::Goal
}

/// A validated grammar over `Terminal(0..num_terminals)` and
/// `NonTerminal(0..num_nonterminals)`, with its FIRST relation computed
/// once at construction.
pub struct Grammar {
    num_terminals: usize,
    num_nonterminals: usize,
    rules: Vec<Rule>,
    goal_rule: usize,
    first: Vec<(Symbol, Symbol)>,
}

impl Grammar {
    pub closed spec fn num_terminals(&self) -> nat {
        self.num_terminals as nat
    }

    pub closed spec fn num_nonterminals(&self) -> nat {
        self.num_nonterminals as nat
    }

    pub closed spec fn rule_list(&self) -> Seq<Rule> {
        self.rules@
    }

    pub closed spec fn goal_rule_id(&self) -> nat {
        self.goal_rule as nat
    }

    /// Pairs `(X, y)`: `y` (a terminal, or `Epsilon`) is in FIRST(`X`).
    pub closed spec fn first_relation(&self) -> Set<(Symbol, Symbol)> {
        self.first@.to_set()
    }

    pub open spec fn wf(&self) -> bool {
        &&& rules_declared(self.num_terminals(), self.num_nonterminals(), self.rule_list())
        &&& single_goal_rule(self.rule_list(), self.goal_rule_id())
        &&& is_first_relation(self.rule_list(), self.first_relation())
        &&& forall|p: (Symbol, Symbol)| #[trigger] self.first_relation().contains(p)
            ==> first_pair_ok(self.num_terminals(), self.num_nonterminals(), p)
    }

    /// Validates the rules against the declared vocabulary and the
    /// augmentation, then computes the FIRST relation.
    pub fn new(num_terminals: usize, num_nonterminals: usize, rules: Vec<Rule>) -> (r: Result<Grammar, GrammarError>)
        ensures
            match r {
                Ok(g) => {
                    &&& g.wf()
                    &&& g.num_terminals() == num_terminals
                    &&& g.num_nonterminals() == num_nonterminals
                    &&& g.rule_list() == rules@
                },
                Err(GrammarError::UndeclaredSymbol { rule }) => {
                    &&& rule < rules@.len()
                    &&& !rule_declared(num_terminals as nat, num_nonterminals as nat, rules@[rule as int])
                    &&& forall|q: int| 0 <= q < rule ==> rule_declared(num_terminals as nat, num_nonterminals as nat, #[trigger] rules@[q])
                },
                Err(GrammarError::MissingGoalRule) => {
                    rules_declared(num_terminals as nat, num_nonterminals as nat, rules@) && !has_goal_rule(rules@)
                },
                Err(GrammarError::MalformedAugmentation) => {
                    rules_declared(num_terminals as nat, num_nonterminals as nat, rules@) && has_two_goal_rules(rules@)
                },
            },
            r is Ok <==> (rules_declared(num_terminals as nat, num_nonterminals as nat, rules@)
                && has_goal_rule(rules@) && !has_two_goal_rules(rules@)),
    {
        let mut i: usize = 0;
        while i < rules.len()
            invariant
                0 <= i <= rules.len(),
                forall|q: int| 0 <= q < i ==> rule_declared(num_terminals as nat, num_nonterminals as nat, #[trigger] rules@[q]),
            decreases rules.len() - i,
        {
            if !check_rule(num_terminals, num_nonterminals, &rules[i]) {
                return Err(GrammarError::UndeclaredSymbol { rule: i });
            }
            i = i + 1;
        }
        let mut goal: Option<usize> = None;
        let mut i: usize = 0;
        while i < rules.len()
            invariant
                0 <= i <= rules.len(),
                rules_declared(num_terminals as nat, num_nonterminals as nat, rules@),
                match goal {
                    None => forall|q: int| 0 <= q < i ==> #[trigger] rules@[q].head != Symbol::Goal,
                    Some(g) => g < i && rules@[g as int].head == Symbol::Goal
                        && forall|q: int| 0 <= q < i && q != g ==> #[trigger] rules@[q].head != Symbol::Goal,
                },
            decreases rules.len() - i,
        {
            if rules[i].head == Symbol::Goal {
                match goal {
                    None => {
                        goal = Some(i);
                    },
                    Some(g) => {
                        assert(rules@[g as int].head == Symbol::Goal && rules@[i as int].head == Symbol::Goal);
                        return Err(GrammarError::MalformedAugmentation);
                    },
                }
            }
            i = i + 1;
        }
        match goal {
            None => {
                assert(!has_goal_rule(rules@));
                Err(GrammarError::MissingGoalRule)
            },
            Some(g) => {
                let first = compute_first(num_terminals, num_nonterminals, &rules);
                proof {
                    assert forall|p: (Symbol, Symbol)| #[trigger] first@.to_set().contains(p) implies first_pair_ok(
                        num_terminals as nat, num_nonterminals as nat, p) by {
                        let k = choose|k: int| 0 <= k < first@.len() && first@[k] == p;
                    }
                }
                Ok(Grammar { num_terminals, num_nonterminals, rules, goal_rule: g, first })
            },
        }
    }

    pub fn terminal_count(&self) -> (r: usize)
        ensures
            r == self.num_terminals(),
    {
        self.num_terminals
    }

    pub fn nonterminal_count(&self) -> (r: usize)
        ensures
            r == self.num_nonterminals(),
    {
        self.num_nonterminals
    }

    pub fn rule_count(&self) -> (r: usize)
        ensures
            r == self.rule_list().len(),
    {
        self.rules.len()
    }

    pub fn rule(&self, id: usize) -> (r: &Rule)
        requires
            id < self.rule_list().len(),
        ensures
            *r == self.rule_list()[id as int],
    {
        &self.rules[id]
    }

    /// Index of the one rule headed by `Goal`.
    pub fn goal_rule(&self) -> (r: usize)
        ensures
            r == self.goal_rule_id(),
    {
        self.goal_rule
    }

    /// The declared terminals, in index order.
    pub fn terminals(&self) -> (r: Vec<Symbol>)
        ensures
            r@.len() == self.num_terminals(),
            forall|i: int| 0 <= i < r@.len() ==> #[trigger] r@[i] == Symbol::Terminal(i as usize),
    {
        let mut v: Vec<Symbol> = Vec::new();
        let mut i: usize = 0;
        while i < self.num_terminals
            invariant
                0 <= i <= self.num_terminals,
                v@.len() == i,
                forall|j: int| 0 <= j < i ==> #[trigger] v@[j] == Symbol::Terminal(j as usize),
            decreases self.num_terminals - i,
        {
            v.push(Symbol::Terminal(i));
            i = i + 1;
        }
        v
    }

    /// The declared nonterminals, in index order (`Goal` is not among them).
    pub fn nonterminals(&self) -> (r: Vec<Symbol>)
        ensures
            r@.len() == self.num_nonterminals(),
            forall|i: int| 0 <= i < r@.len() ==> #[trigger] r@[i] == Symbol::NonTerminal(i as usize),
    {
        let mut v: Vec<Symbol> = Vec::new();
        let mut i: usize = 0;
        while i < self.num_nonterminals
            invariant
                0 <= i <= self.num_nonterminals,
                v@.len() == i,
                forall|j: int| 0 <= j < i ==> #[trigger] v@[j] == Symbol::NonTerminal(j as usize),
            decreases self.num_nonterminals - i,
        {
            v.push(Symbol::NonTerminal(i));
            i = i + 1;
        }
        v
    }

    /// The ids of the rules headed by `head`, in increasing order.
    pub fn rules_headed_by(&self, head: Symbol) -> (r: Vec<usize>)
        ensures
            forall|i: int, j: int| 0 <= i < j < r@.len() ==> r@[i] < r@[j],
            forall|id: usize| #[trigger] r@.contains(id) <==> (id < self.rule_list().len() && self.rule_list()[id as int].head == head),
    {
        broadcast use lemma_push_contains;
        let mut v: Vec<usize> = Vec::new();
        let mut i: usize = 0;
        while i < self.rules.len()
            invariant
                0 <= i <= self.rules.len(),
                forall|a: int, b: int| 0 <= a < b < v@.len() ==> v@[a] < v@[b],
                forall|k: int| 0 <= k < v@.len() ==> v@[k] < i,
                forall|id: usize| #[trigger] v@.contains(id) <==> (id < i && self.rules@[id as int].head == head),
            decreases self.rules.len() - i,
        {
            if self.rules[i].head == head {
                let ghost before = v@;
                v.push(i);
                assert forall|id: usize| #[trigger] v@.contains(id) <==> (before.contains(id) || id == i) by {
                    lemma_push_contains(before, i, id);
                }
            }
            i = i + 1;
        }
        v
    }

    /// FIRST of the symbol sequence `w`: the terminals that can begin a
    /// derivation of `w`, with `Epsilon` when all of `w` can derive the
    /// empty string. A terminal or `EndOfInput` in `w` stands for itself.
    pub fn first(&self, w: &[Symbol]) -> (r: Vec<Symbol>)
        ensures
            r@.no_duplicates(),
            r@.to_set() == first_seq(self.first_relation(), w@),
    {
        first_of_symbols(&self.first, w)
    }
}

/// Whether the rule's head and body use only declared symbols.
fn check_rule(tc: usize, nc: usize, rule: &Rule) -> (r: bool)
    ensures
        r == rule_declared(tc as nat, nc as nat, *rule),
{
    let ok_head = match rule.head {
        Symbol::Goal => true,
        Symbol::NonTerminal(n) => n < nc,
        _ => false,
    };
    if !ok_head {
        return false;
    }
    let mut j: usize = 0;
    while j < rule.body.len()
        invariant
            0 <= j <= rule.body.len(),
            forall|k: int| 0 <= k < j ==> declared(tc as nat, nc as nat, #[trigger] rule.body@[k]),
        decreases rule.body.len() - j,
    {
        let ok = match rule.body[j] {
            Symbol::Terminal(t) => t < tc,
            Symbol::NonTerminal(n) => n < nc,
            _ => false,
        };
        if !ok {
            return false;
        }
        j = j + 1;
    }
    true
}

} // verus!
