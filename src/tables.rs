//! ACTION and GOTO tables of the LR(1) automaton, with conflict detection.
use vstd::prelude::*;
use crate::canonical_collections::{canonical_collections, is_lr1_automaton};
use crate::grammar::Grammar;
use crate::item::{Item, lookahead_ok, symbol_after_dot, valid_item};
use crate::item_set::valid_items;
use crate::rule::RuleId;
use crate::symbol::Symbol;
use crate::table::Table;
use crate::utils::DFA;

verus! {

/// An ACTION table entry.
#[derive(Debug, Clone, Copy, PartialEq, Eq, Structural)]
pub enum Action {
    Accept,
    Shift(usize),
    Reduce(RuleId),
}

/// Why no tables were built.
#[derive(Debug, Clone, Copy, PartialEq, Eq, Structural)]
pub enum TableError {
    /// Two different actions for one ACTION cell: a shift/reduce or
    /// reduce/reduce conflict.
    Conflict { state: usize, symbol: Symbol, first: Action, second: Action },
    /// The tables would have more cells than a `usize` can count.
    TooLarge,
}

/// The ACTION column of a lookahead: `Terminal(t)` is column `t`,
/// `EndOfInput` the last column; `-1` for any other symbol.
pub open spec fn action_column(tc: nat, c: Symbol) -> int {
    match c {
        Symbol::Terminal(t) => if t < tc { t as int } else { -1 },
        Symbol::EndOfInput => tc as int,
        _ => -1,
    }
}

/// The ACTION entry for state `s` and lookahead `c`.
pub open spec fn action_entry(action: &Table<Action>, tc: nat, s: usize, c: Symbol) -> Option<Action> {
    if lookahead_ok(tc, c) {
        action.get(s as int, action_column(tc, c))
    } else {
        None
    }
}

/// Item `it` of state `i` asks for action `a` on lookahead `c`: a shift on
/// the terminal after the dot to the target of the transition on it; at
/// the end of the goal rule with lookahead `EndOfInput`, accept; at the end
/// of any other item, a reduce by its rule on its lookahead.
pub open spec fn action_demand(g: &Grammar, dfa: &DFA, i: usize, it: Item, c: Symbol, a: Action) -> bool {
    match symbol_after_dot(g, it) {
        Some(x) => {
            &&& x is Terminal
            &&& c == x
            &&& exists|t: usize| dfa.transition_set().contains((i, x, t)) && a == Action::Shift(t)
        },
        None => if it.lookahead == Symbol::EndOfInput && it.rule_id.id == g.goal_rule_id() {
            c == Symbol::EndOfInput && a == Action::Accept
        } else {
            c == it.lookahead && a == Action::Reduce(it.rule_id)
        },
    }
}

/// Some item of state `i` asks for action `a` on lookahead `c`.
pub open spec fn demanded(g: &Grammar, dfa: &DFA, i: usize, c: Symbol, a: Action) -> bool {
    exists|it: Item| #[trigger] dfa.state_sets()[i as int].contains(it) && action_demand(g, dfa, i, it, c, a)
}

/// Two items of one state ask for different actions on one lookahead.
pub open spec fn has_conflict(g: &Grammar, dfa: &DFA) -> bool {
    exists|i: usize, c: Symbol, a1: Action, a2: Action|
        i < dfa.state_sets().len() && a1 != a2 && #[trigger] demanded(g, dfa, i, c, a1) && #[trigger] demanded(g, dfa, i, c, a2)
}

/// ACTION and GOTO tables of `dfa`: each ACTION cell holds the one action
/// its state's items ask for on that lookahead, and is empty when they ask
/// for none; GOTO holds the transitions on nonterminals.
pub open spec fn tables_of(g: &Grammar, dfa: &DFA, action: &Table<Action>, goto: &Table<usize>) -> bool {
    &&& action.wf()
    &&& goto.wf()
    &&& action.num_rows() == dfa.state_sets().len()
    &&& action.num_columns() == g.num_terminals() + 1
    &&& goto.num_rows() == dfa.state_sets().len()
    &&& goto.num_columns() == g.num_nonterminals()
    &&& forall|s: usize, c: Symbol, a: Action| s < dfa.state_sets().len() && #[trigger] demanded(g, dfa, s, c, a)
        ==> action_entry(action, g.num_terminals(), s, c) == Some(a)
    &&& forall|s: usize, c: Symbol| #[trigger] action_entry(action, g.num_terminals(), s, c) is Some
        ==> s < dfa.state_sets().len() && demanded(g, dfa, s, c, action_entry(action, g.num_terminals(), s, c)->Some_0)
    &&& forall|s: usize, m: usize, t: usize| #[trigger] dfa.transition_set().contains((s, Symbol::NonTerminal(m), t))
        ==> goto.get(s as int, m as int) == Some(t)
    &&& forall|s: usize, m: usize| #[trigger] goto.get(s as int, m as int) is Some
        ==> dfa.transition_set().contains((s, Symbol::NonTerminal(m), goto.get(s as int, m as int)->Some_0))
}

/// ACTION is partial: a cell that no item of its state asks for is empty,
/// never a default action.
pub proof fn lemma_action_absent(g: &Grammar, dfa: &DFA, action: &Table<Action>, goto: &Table<usize>, s: usize, c: Symbol)
    requires
        tables_of(g, dfa, action, goto),
        forall|a: Action| !demanded(g, dfa, s, c, a),
    ensures
        action_entry(action, g.num_terminals(), s, c) is None,
{
    if action_entry(action, g.num_terminals(), s, c) is Some {
        assert(demanded(g, dfa, s, c, action_entry(action, g.num_terminals(), s, c)->Some_0));
    }
}

spec fn processed_demand(g: &Grammar, dfa: &DFA, items: Seq<Item>, i: usize, j: int, s: usize, c: Symbol, a: Action) -> bool {
    (s < i && demanded(g, dfa, s, c, a)) || (s == i && exists|k: int| 0 <= k < j && action_demand(g, dfa, i, #[trigger] items[k], c, a))
}

fn action_column_of(tc: usize, c: Symbol) -> (r: usize)
    requires
        lookahead_ok(tc as nat, c),
    ensures
        r == action_column(tc as nat, c),
{
    match c {
        Symbol::Terminal(t) => t,
        _ => tc,
    }
}

proof fn lemma_demand_lookahead(g: &Grammar, dfa: &DFA, i: usize, it: Item, c: Symbol, a: Action)
    requires
        g.wf(),
        valid_item(g, it),
        action_demand(g, dfa, i, it, c, a),
    ensures
        lookahead_ok(g.num_terminals(), c),
{
    if it.placeholder < crate::item::item_body(g, it).len() {
        assert(crate::first::rule_declared(g.num_terminals(), g.num_nonterminals(), g.rule_list()[it.rule_id.id as int]));
        assert(crate::first::declared(g.num_terminals(), g.num_nonterminals(), crate::item::item_body(g, it)[it.placeholder as int]));
    }
}

proof fn lemma_column_injective(tc: nat, c1: Symbol, c2: Symbol)
    requires
        lookahead_ok(tc, c1),
        lookahead_ok(tc, c2),
        action_column(tc, c1) == action_column(tc, c2),
    ensures
        c1 == c2,
{
}

/// Builds the ACTION and GOTO tables of `dfa`, or reports the first cell
/// for which two different actions are asked.
pub fn fill_tables(g: &Grammar, dfa: &DFA) -> (r: Result<(Table<Action>, Table<usize>), TableError>)
    requires
        g.wf(),
        is_lr1_automaton(g, dfa),
    ensures
        match r {
            Ok((action, goto)) => tables_of(g, dfa, &action, &goto),
            Err(TableError::Conflict { state, symbol, first, second }) => {
                &&& state < dfa.state_sets().len()
                &&& first != second
                &&& demanded(g, dfa, state, symbol, first)
                &&& demanded(g, dfa, state, symbol, second)
            },
            Err(TableError::TooLarge) => dfa.state_sets().len() * (g.num_terminals() + 1) > usize::MAX
                || dfa.state_sets().len() * g.num_nonterminals() > usize::MAX,
        },
        has_conflict(g, dfa) ==> r is Err,
{
    let n = dfa.number_of_states();
    let tc = g.terminal_count();
    let nc = g.nonterminal_count();
    if tc == usize::MAX {
        proof {
            assert(n * (tc + 1) > usize::MAX) by (nonlinear_arith)
                requires
                    n >= 1,
                    tc == usize::MAX,
            ;
        }
        return Err(TableError::TooLarge);
    }
    let cols = tc + 1;
    let action_cells = n.checked_mul(cols);
    let goto_cells = n.checked_mul(nc);
    if action_cells.is_none() || goto_cells.is_none() {
        return Err(TableError::TooLarge);
    }
    let mut action: Table<Action> = Table::new(n, cols);
    let mut goto: Table<usize> = Table::new(n, nc);
    let states = dfa.enumerate_states();
    let mut i: usize = 0;
    while i < n
        invariant
            g.wf(),
            is_lr1_automaton(g, dfa),
            n == dfa.state_sets().len(),
            tc == g.num_terminals(),
            nc == g.num_nonterminals(),
            cols == tc + 1,
            states@.len() == n,
            forall|k: int| 0 <= k < n ==> (#[trigger] states@[k]).wf() && states@[k]@ == dfa.state_sets()[k],
            0 <= i <= n,
            action.wf(),
            goto.wf(),
            action.num_rows() == n,
            action.num_columns() == cols,
            goto.num_rows() == n,
            goto.num_columns() == nc,
            forall|s: usize, c: Symbol, a: Action| s < i && #[trigger] demanded(g, dfa, s, c, a)
                ==> action_entry(&action, tc as nat, s, c) == Some(a),
            forall|s: usize, c: Symbol| #[trigger] action_entry(&action, tc as nat, s, c) is Some
                ==> s < i && demanded(g, dfa, s, c, action_entry(&action, tc as nat, s, c)->Some_0),
            forall|s: usize, m: usize, t: usize| s < i && #[trigger] dfa.transition_set().contains((s, Symbol::NonTerminal(m), t))
                ==> goto.get(s as int, m as int) == Some(t),
            forall|s: usize, m: usize| #[trigger] goto.get(s as int, m as int) is Some
                ==> s < i && dfa.transition_set().contains((s, Symbol::NonTerminal(m), goto.get(s as int, m as int)->Some_0)),
        decreases n - i,
    {
        let items = states[i].iter();
        proof {
            states@[i as int].lemma_item_seq();
            assert(valid_items(g, dfa.state_sets()[i as int]));
        }
        let ghost iset = dfa.state_sets()[i as int];
        let mut j: usize = 0;
        while j < items.len()
            invariant
                g.wf(),
                is_lr1_automaton(g, dfa),
                n == dfa.state_sets().len(),
                tc == g.num_terminals(),
                cols == tc + 1,
                0 <= i < n,
                iset == dfa.state_sets()[i as int],
                items@.to_set() == iset,
                valid_items(g, iset),
                0 <= j <= items@.len(),
                action.wf(),
                action.num_rows() == n,
                action.num_columns() == cols,
                forall|s: usize, c: Symbol, a: Action| #[trigger] processed_demand(g, dfa, items@, i, j as int, s, c, a)
                    ==> action_entry(&action, tc as nat, s, c) == Some(a),
                forall|s: usize, c: Symbol| #[trigger] action_entry(&action, tc as nat, s, c) is Some
                    ==> processed_demand(g, dfa, items@, i, j as int, s, c, action_entry(&action, tc as nat, s, c)->Some_0),
            decreases items.len() - j,
        {
            let it = items[j];
            proof {
                assert(items@.to_set().contains(it));
            }
            let mut demand: Option<(Symbol, Action)> = None;
            match it.symbol_at_placeholder(g) {
                Some(x) => {
                    if let Symbol::Terminal(_) = x {
                        match dfa.transition_from_on(i, x) {
                            Some(t) => {
                                demand = Some((x, Action::Shift(t)));
                            },
                            None => {},
                        }
                    }
                },
                None => {
                    if it.lookahead == Symbol::EndOfInput && it.rule_id.id == g.goal_rule() {
                        demand = Some((Symbol::EndOfInput, Action::Accept));
                    } else {
                        demand = Some((it.lookahead, Action::Reduce(it.rule_id)));
                    }
                },
            }
            proof {
                assert forall|c: Symbol, a: Action| action_demand(g, dfa, i, it, c, a) <==> demand == Some((c, a)) by {
                    if action_demand(g, dfa, i, it, c, a) && symbol_after_dot(g, it) is Some {
                        let t2 = choose|t2: usize| dfa.transition_set().contains((i, c, t2)) && a == Action::Shift(t2);
                    }
                }
                assert forall|s: usize, c: Symbol, a: Action| #[trigger] processed_demand(g, dfa, items@, i, j + 1, s, c, a)
                    <==> (processed_demand(g, dfa, items@, i, j as int, s, c, a) || (s == i && demand == Some((c, a)))) by {
                    if processed_demand(g, dfa, items@, i, j + 1, s, c, a) && s == i {
                        let k = choose|k: int| 0 <= k < j + 1 && action_demand(g, dfa, i, #[trigger] items@[k], c, a);
                        if k < j {
                            assert(processed_demand(g, dfa, items@, i, j as int, s, c, a));
                        }
                    }
                    if processed_demand(g, dfa, items@, i, j as int, s, c, a) && s == i {
                        let k = choose|k: int| 0 <= k < j && action_demand(g, dfa, i, #[trigger] items@[k], c, a);
                        assert(0 <= k < j + 1);
                    }
                    if s == i && demand == Some((c, a)) {
                        assert(action_demand(g, dfa, i, items@[j as int], c, a));
                    }
                }
            }
            match demand {
                None => {},
                Some((c0, a0)) => {
                    proof {
                        lemma_demand_lookahead(g, dfa, i, it, c0, a0);
                    }
                    let col = action_column_of(tc, c0);
                    match action.lookup(i, col) {
                        Some(b) => {
                            assert(action_entry(&action, tc as nat, i, c0) == Some(b));
                            if b != a0 {
                                proof {
                                    assert(processed_demand(g, dfa, items@, i, j as int, i, c0, b));
                                    let k = choose|k: int| 0 <= k < j && action_demand(g, dfa, i, #[trigger] items@[k], c0, b);
                                    assert(items@.to_set().contains(items@[k]));
                                    assert(demanded(g, dfa, i, c0, b));
                                    assert(demanded(g, dfa, i, c0, a0));
                                }
                                return Err(TableError::Conflict { state: i, symbol: c0, first: b, second: a0 });
                            }
                        },
                        None => {
                            let ghost old_action = action;
                            action.insert(i, col, a0);
                            proof {
                                assert forall|s: usize, c: Symbol| #[trigger] action_entry(&action, tc as nat, s, c)
                                    == if s == i && c == c0 { Some(a0) } else { action_entry(&old_action, tc as nat, s, c) } by {
                                    if lookahead_ok(tc as nat, c) && s == i && action_column(tc as nat, c) == col {
                                        lemma_column_injective(tc as nat, c, c0);
                                    }
                                }
                                assert forall|s: usize, c: Symbol, a: Action| #[trigger] processed_demand(g, dfa, items@, i, j as int, s, c, a)
                                    implies !(s == i && c == c0) by {
                                    if s == i && c == c0 {
                                        assert(action_entry(&old_action, tc as nat, s, c) == Some(a));
                                    }
                                }
                            }
                        },
                    }
                },
            }
            j = j + 1;
        }
        proof {
            assert forall|s: usize, c: Symbol, a: Action|
                #[trigger] processed_demand(g, dfa, items@, i, j as int, s, c, a) <==> (s < i + 1 && demanded(g, dfa, s, c, a)) by {
                if s == i {
                    if demanded(g, dfa, s, c, a) {
                        let it = choose|it: Item| #[trigger] dfa.state_sets()[i as int].contains(it) && action_demand(g, dfa, i, it, c, a);
                        assert(items@.to_set().contains(it));
                        let k = choose|k: int| 0 <= k < items@.len() && items@[k] == it;
                        assert(action_demand(g, dfa, i, items@[k], c, a));
                    }
                    if processed_demand(g, dfa, items@, i, j as int, s, c, a) {
                        let k = choose|k: int| 0 <= k < j && action_demand(g, dfa, i, #[trigger] items@[k], c, a);
                        assert(items@.to_set().contains(items@[k]));
                    }
                }
            }
            assert forall|s: usize, c: Symbol, a: Action| s < i + 1 && #[trigger] demanded(g, dfa, s, c, a)
                implies action_entry(&action, tc as nat, s, c) == Some(a) by {
                assert(processed_demand(g, dfa, items@, i, j as int, s, c, a));
            }
            assert forall|s: usize, c: Symbol| #[trigger] action_entry(&action, tc as nat, s, c) is Some
                implies s < i + 1 && demanded(g, dfa, s, c, action_entry(&action, tc as nat, s, c)->Some_0) by {
                assert(processed_demand(g, dfa, items@, i, j as int, s, c, action_entry(&action, tc as nat, s, c)->Some_0));
            }
        }
        let mut m: usize = 0;
        while m < nc
            invariant
                g.wf(),
                is_lr1_automaton(g, dfa),
                n == dfa.state_sets().len(),
                nc == g.num_nonterminals(),
                0 <= i < n,
                0 <= m <= nc,
                goto.wf(),
                goto.num_rows() == n,
                goto.num_columns() == nc,
                forall|s: usize, mm: usize, t: usize| (s < i || (s == i && mm < m))
                    && #[trigger] dfa.transition_set().contains((s, Symbol::NonTerminal(mm), t))
                    ==> goto.get(s as int, mm as int) == Some(t),
                forall|s: usize, mm: usize| #[trigger] goto.get(s as int, mm as int) is Some
                    ==> (s < i || (s == i && mm < m)) && dfa.transition_set().contains(
                        (s, Symbol::NonTerminal(mm), goto.get(s as int, mm as int)->Some_0)),
            decreases nc - m,
        {
            match dfa.transition_from_on(i, Symbol::NonTerminal(m)) {
                Some(t) => {
                    goto.insert(i, m, t);
                },
                None => {},
            }
            m = m + 1;
        }
        proof {
            assert forall|s: usize, mm: usize, t: usize| s < i + 1 && #[trigger] dfa.transition_set().contains((s, Symbol::NonTerminal(mm), t))
                implies goto.get(s as int, mm as int) == Some(t) by {
                if s == i {
                    assert(crate::first::declared(g.num_terminals(), g.num_nonterminals(), Symbol::NonTerminal(mm)));
                }
            }
        }
        i = i + 1;
    }
    proof {
        assert(!has_conflict(g, dfa)) by {
            if has_conflict(g, dfa) {
                let (s, c, a1, a2) = choose|s: usize, c: Symbol, a1: Action, a2: Action|
                    s < dfa.state_sets().len() && a1 != a2 && #[trigger] demanded(g, dfa, s, c, a1) && #[trigger] demanded(g, dfa, s, c, a2);
                assert(action_entry(&action, tc as nat, s, c) == Some(a1));
                assert(action_entry(&action, tc as nat, s, c) == Some(a2));
            }
        }
    }
    Ok((action, goto))
}

/// Builds the LR(1) automaton of `g` and its tables.
pub fn build_tables(g: &Grammar) -> (r: Result<(Table<Action>, Table<usize>), TableError>)
    requires
        g.wf(),
    ensures
        exists|dfa: DFA| #[trigger] is_lr1_automaton(g, &dfa)
            && (has_conflict(g, &dfa) ==> r is Err)
            && match r {
                Ok((action, goto)) => tables_of(g, &dfa, &action, &goto),
                Err(TableError::Conflict { state, symbol, first, second }) => {
                    &&& state < dfa.state_sets().len()
                    &&& first != second
                    &&& demanded(g, &dfa, state, symbol, first)
                    &&& demanded(g, &dfa, state, symbol, second)
                },
                Err(TableError::TooLarge) => dfa.state_sets().len() * (g.num_terminals() + 1) > usize::MAX
                    || dfa.state_sets().len() * g.num_nonterminals() > usize::MAX,
            },
{
    let dfa = canonical_collections(g);
    fill_tables(g, &dfa)
}

} // verus!
