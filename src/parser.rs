//! The shift-reduce driver over ACTION and GOTO tables.
use vstd::prelude::*;
use crate::grammar::Grammar;
use crate::item::lookahead_ok;
use crate::symbol::Symbol;
use crate::table::Table;
use crate::tables::{Action, action_column, action_entry};

verus! {

/// The lookahead at position `pos`: the token there, or `EndOfInput` past
/// the last one.
pub open spec fn word_at(tokens: Seq<Symbol>, pos: nat) -> Symbol {
    if pos < tokens.len() {
        tokens[pos as int]
    } else {
        Symbol::EndOfInput
    }
}

/// The GOTO column of a nonterminal; `-1` for any other symbol.
pub open spec fn goto_column(s: Symbol) -> int {
    match s {
        Symbol::NonTerminal(m) => m as int,
        _ => -1,
    }
}

/// The stack after one move on lookahead `word`, with `true` when the move
/// is a shift (it consumes `word`) and `false` for a reduce; `None` when the
/// table asks for no such move (accept, or a syntax error).
pub open spec fn next_move(
    g: &Grammar,
    action: &Table<Action>,
    goto: &Table<usize>,
    stack: Seq<(Symbol, usize)>,
    word: Symbol,
) -> Option<(Seq<(Symbol, usize)>, bool)> {
    if stack.len() == 0 {
        None
    } else {
        match action_entry(action, g.num_terminals(), stack.last().1, word) {
            Some(Action::Shift(s)) => Some((stack.push((word, s)), true)),
            Some(Action::Reduce(r)) => {
                if r.id < g.rule_list().len() && g.rule_list()[r.id as int].body@.len() < stack.len() {
                    let rule = g.rule_list()[r.id as int];
                    let rest = stack.subrange(0, stack.len() - rule.body@.len());
                    match goto.get(rest.last().1 as int, goto_column(rule.head)) {
                        Some(t) => Some((rest.push((rule.head, t)), false)),
                        None => None,
                    }
                } else {
                    None
                }
            },
            _ => None,
        }
    }
}

/// The table accepts on lookahead `word` with this stack.
pub open spec fn accepts_on(g: &Grammar, action: &Table<Action>, stack: Seq<(Symbol, usize)>, word: Symbol) -> bool {
    &&& stack.len() > 0
    &&& word == Symbol::EndOfInput
    &&& action_entry(action, g.num_terminals(), stack.last().1, Symbol::EndOfInput) == Some(Action::Accept)
}

/// One shift or reduce move from the configuration `(stack, pos)` over
/// `tokens`, or `None` when the table asks for no such move.
pub open spec fn next_config(
    g: &Grammar,
    action: &Table<Action>,
    goto: &Table<usize>,
    tokens: Seq<Symbol>,
    stack: Seq<(Symbol, usize)>,
    pos: nat,
) -> Option<(Seq<(Symbol, usize)>, nat)> {
    match next_move(g, action, goto, stack, word_at(tokens, pos)) {
        Some((next, shifted)) => Some((next, if shifted { pos + 1 } else { pos })),
        None => None,
    }
}

/// The table accepts in configuration `(stack, pos)`.
pub open spec fn accepts(g: &Grammar, action: &Table<Action>, tokens: Seq<Symbol>, stack: Seq<(Symbol, usize)>, pos: nat) -> bool {
    accepts_on(g, action, stack, word_at(tokens, pos))
}

/// The starting configuration: `Goal` in state 0, at the first token.
pub open spec fn initial_stack() -> Seq<(Symbol, usize)> {
    seq![(Symbol::Goal, 0usize)]
}

/// The configuration after `n` shift or reduce moves, if the driver makes
/// that many.
pub open spec fn run(g: &Grammar, action: &Table<Action>, goto: &Table<usize>, tokens: Seq<Symbol>, n: nat) -> Option<(Seq<(Symbol, usize)>, nat)>
    decreases n,
{
    if n == 0 {
        Some((initial_stack(), 0))
    } else {
        match run(g, action, goto, tokens, (n - 1) as nat) {
            Some((stack, pos)) => next_config(g, action, goto, tokens, stack, pos),
            None => None,
        }
    }
}

/// The driver makes `n` moves and then accepts.
pub open spec fn accepted_after(g: &Grammar, action: &Table<Action>, goto: &Table<usize>, tokens: Seq<Symbol>, n: nat) -> bool {
    match run(g, action, goto, tokens, n) {
        Some(c) => accepts(g, action, tokens, c.0, c.1),
        None => false,
    }
}

/// The driver makes `n` moves and then finds no entry to act on.
pub open spec fn rejected_after(g: &Grammar, action: &Table<Action>, goto: &Table<usize>, tokens: Seq<Symbol>, n: nat) -> bool {
    match run(g, action, goto, tokens, n) {
        Some(c) => !accepts(g, action, tokens, c.0, c.1) && next_config(g, action, goto, tokens, c.0, c.1) is None,
        None => false,
    }
}

/// The terminals (and `EndOfInput`) with an ACTION entry in state `s`.
pub open spec fn expected_set(action: &Table<Action>, tc: nat, s: usize) -> Set<Symbol> {
    Set::new(|x: Symbol| lookahead_ok(tc, x) && action_entry(action, tc, s, x) is Some)
}

/// How a parse ended.
#[derive(Debug, Clone, PartialEq, Eq)]
pub enum ParseResult {
    Accepted,
    /// No table entry for the current state and lookahead.
    SyntaxError { at_state: usize, position: usize, offending_symbol: Symbol, expected: Vec<Symbol> },
    /// The driver made `usize::MAX` moves without stopping.
    StepLimitReached,
}

/// What one move of the driver did.
#[derive(Debug, Clone, Copy, PartialEq, Eq, Structural)]
pub enum Step {
    /// Pushed the lookahead: the token source moves to the next token.
    Shifted,
    /// Replaced a rule body on the stack by its head; the lookahead stays.
    Reduced,
    Accepted,
    /// No table entry for the current state and lookahead.
    Rejected,
}

/// The shift-reduce automaton's stack of `(symbol, state)` pairs, fed one
/// lookahead at a time by a token source.
pub struct Driver {
    stack: Vec<(Symbol, usize)>,
}

impl Driver {
    pub closed spec fn stack(&self) -> Seq<(Symbol, usize)> {
        self.stack@
    }

    /// The stack `[(Goal, 0)]`.
    pub fn new() -> (r: Driver)
        ensures
            r.stack() == initial_stack(),
    {
        let mut stack: Vec<(Symbol, usize)> = Vec::new();
        stack.push((Symbol::Goal, 0));
        assert(stack@ =~= initial_stack());
        Driver { stack }
    }

    /// The state on top of the stack.
    pub fn state(&self) -> (r: usize)
        requires
            self.stack().len() > 0,
        ensures
            r == self.stack().last().1,
    {
        self.stack[self.stack.len() - 1].1
    }

    /// The number of `(symbol, state)` pairs on the stack.
    pub fn depth(&self) -> (r: usize)
        ensures
            r == self.stack().len(),
    {
        self.stack.len()
    }

    /// Makes the move that ACTION gives for the top state and `word`.
    pub fn step(&mut self, g: &Grammar, action: &Table<Action>, goto: &Table<usize>, word: Symbol) -> (r: Step)
        requires
            g.wf(),
            action.wf(),
            goto.wf(),
            old(self).stack().len() > 0,
        ensures
            final(self).stack().len() > 0,
            match r {
                Step::Shifted => next_move(g, action, goto, old(self).stack(), word) == Some((final(self).stack(), true)),
                Step::Reduced => next_move(g, action, goto, old(self).stack(), word) == Some((final(self).stack(), false)),
                Step::Accepted => accepts_on(g, action, old(self).stack(), word) && final(self).stack() == old(self).stack(),
                Step::Rejected => {
                    &&& next_move(g, action, goto, old(self).stack(), word) is None
                    &&& !accepts_on(g, action, old(self).stack(), word)
                    &&& final(self).stack() == old(self).stack()
                },
            },
    {
        let tc = g.terminal_count();
        let state = self.stack[self.stack.len() - 1].1;
        let ok = match word {
            Symbol::Terminal(t) => t < tc,
            Symbol::EndOfInput => true,
            _ => false,
        };
        let entry = if ok {
            action.lookup(state, action_column_exec(tc, word))
        } else {
            None
        };
        assert(entry == action_entry(action, tc as nat, state, word));
        match entry {
            Some(Action::Accept) => {
                if word == Symbol::EndOfInput {
                    return Step::Accepted;
                }
            },
            Some(Action::Shift(s)) => {
                self.stack.push((word, s));
                return Step::Shifted;
            },
            Some(Action::Reduce(rid)) => {
                if rid.id < g.rule_count() {
                    let rule = g.rule(rid.id);
                    let k = rule.body.len();
                    let n = self.stack.len();
                    if k < n {
                        let head = rule.head;
                        let below = self.stack[n - 1 - k].1;
                        let target = match head {
                            Symbol::NonTerminal(m) => goto.lookup(below, m),
                            _ => {
                                proof {
                                    goto.lemma_get_outside(below as int, -1);
                                }
                                None
                            },
                        };
                        match target {
                            Some(t) => {
                                let ghost before = self.stack@;
                                self.stack.truncate(n - k);
                                assert(self.stack@ == before.subrange(0, n - k));
                                self.stack.push((head, t));
                                return Step::Reduced;
                            },
                            None => {},
                        }
                    }
                }
            },
            None => {},
        }
        Step::Rejected
    }
}

/// The terminals and `EndOfInput` for which state `s` has an ACTION entry.
fn expected_symbols(action: &Table<Action>, tc: usize, s: usize) -> (r: Vec<Symbol>)
    requires
        action.wf(),
    ensures
        r@.to_set() == expected_set(action, tc as nat, s),
{
    let mut v: Vec<Symbol> = Vec::new();
    let mut t: usize = 0;
    while t < tc
        invariant
            action.wf(),
            0 <= t <= tc,
            forall|x: Symbol| #[trigger] v@.contains(x) <==> (x is Terminal && x->Terminal_0 < t && lookahead_ok(tc as nat, x)
                && action_entry(action, tc as nat, s, x) is Some),
        decreases tc - t,
    {
        let ghost before = v@;
        if action.lookup(s, t).is_some() {
            v.push(Symbol::Terminal(t));
        }
        assert forall|x: Symbol| #[trigger] v@.contains(x) <==> (x is Terminal && x->Terminal_0 < t + 1 && lookahead_ok(tc as nat, x)
            && action_entry(action, tc as nat, s, x) is Some) by {
            crate::bounds::lemma_push_contains(before, Symbol::Terminal(t), x);
        }
        t = t + 1;
    }
    let ghost before = v@;
    if action.lookup(s, tc).is_some() {
        v.push(Symbol::EndOfInput);
    }
    assert forall|x: Symbol| #[trigger] v@.to_set().contains(x) <==> expected_set(action, tc as nat, s).contains(x) by {
        crate::bounds::lemma_push_contains(before, Symbol::EndOfInput, x);
    }
    assert(v@.to_set() =~= expected_set(action, tc as nat, s));
    v
}

/// Runs the shift-reduce driver on `tokens` followed by end of input.
pub fn parse(g: &Grammar, action: &Table<Action>, goto: &Table<usize>, tokens: &[Symbol]) -> (r: ParseResult)
    requires
        g.wf(),
        action.wf(),
        goto.wf(),
    ensures
        r == ParseResult::Accepted ==> exists|n: nat| #[trigger] accepted_after(g, action, goto, tokens@, n),
        r is SyntaxError ==> exists|n: nat| #[trigger] rejected_after(g, action, goto, tokens@, n)
            && r->at_state == run(g, action, goto, tokens@, n)->Some_0.0.last().1
            && r->position == run(g, action, goto, tokens@, n)->Some_0.1
            && r->offending_symbol == word_at(tokens@, run(g, action, goto, tokens@, n)->Some_0.1)
            && r->expected@.to_set() == expected_set(action, g.num_terminals(), run(g, action, goto, tokens@, n)->Some_0.0.last().1),
        r == ParseResult::StepLimitReached ==> run(g, action, goto, tokens@, usize::MAX as nat) is Some,
{
    let mut driver = Driver::new();
    let mut pos: usize = 0;
    let mut steps: usize = 0;
    while steps < usize::MAX
        invariant
            g.wf(),
            action.wf(),
            goto.wf(),
            driver.stack().len() > 0,
            pos <= steps,
            run(g, action, goto, tokens@, steps as nat) == Some((driver.stack(), pos as nat)),
        decreases usize::MAX - steps,
    {
        let word = if pos < tokens.len() {
            tokens[pos]
        } else {
            Symbol::EndOfInput
        };
        let ghost here = (driver.stack(), pos as nat);
        let state = driver.state();
        match driver.step(g, action, goto, word) {
            Step::Shifted => {
                pos = pos + 1;
            },
            Step::Reduced => {},
            Step::Accepted => {
                assert(accepted_after(g, action, goto, tokens@, steps as nat));
                return ParseResult::Accepted;
            },
            Step::Rejected => {
                assert(rejected_after(g, action, goto, tokens@, steps as nat));
                let expected = expected_symbols(action, g.terminal_count(), state);
                return ParseResult::SyntaxError { at_state: state, position: pos, offending_symbol: word, expected };
            },
        }
        assert(run(g, action, goto, tokens@, (steps + 1) as nat) == next_config(g, action, goto, tokens@, here.0, here.1));
        steps = steps + 1;
    }
    ParseResult::StepLimitReached
}

fn action_column_exec(tc: usize, c: Symbol) -> (r: usize)
    requires
        lookahead_ok(tc as nat, c),
    ensures
        r == action_column(tc as nat, c),
{
    match c {
        Symbol::Terminal(t) => t,
        _ => tc,
    }
}

} // verus!
