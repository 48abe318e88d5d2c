//! Construction of the canonical collection of LR(1) item sets.
use vstd::prelude::*;
use crate::bounds::{exp2, lemma_exp2_positive, lemma_subset_family};
use crate::first::declared;
use crate::grammar::Grammar;
use crate::item::{Item, valid_item};
use crate::item_set::{CanonicalCollection, closure, goto, goto_kernel, is_closure_of, item_universe, lemma_closure_empty, lemma_item_universe, valid_items};
use crate::rule::RuleId;
use crate::symbol::Symbol;
use crate::utils::DFA;

verus! {

/// The kernel of the start state: the goal rule with the dot at the start
/// and end of input as lookahead.
pub open spec fn start_kernel(g: &Grammar) -> Set<Item> {
    set![Item { rule_id: RuleId { id: g.goal_rule_id() as usize }, placeholder: 0, lookahead: Symbol::EndOfInput }]
}

/// A transition from an earlier state leads to state `t`.
pub open spec fn has_incoming(dfa: &DFA, t: usize) -> bool {
    exists|f: usize, x: Symbol| f < t && #[trigger] dfa.transition_set().contains((f, x, t))
}

/// `dfa` is the LR(1) automaton of `g`: state 0 is the closure of the start
/// kernel; every state is a non-empty item set; from each state, on each
/// declared symbol, there is a transition exactly when goto is not empty,
/// and it leads to the state holding the goto set; every other state is the
/// target of a transition from a state numbered before it.
pub open spec fn is_lr1_automaton(g: &Grammar, dfa: &DFA) -> bool {
    &&& dfa.wf()
    &&& dfa.state_sets().len() > 0
    &&& is_closure_of(g, start_kernel(g), dfa.state_sets()[0])
    &&& forall|i: int| 0 <= i < dfa.state_sets().len() ==> valid_items(g, #[trigger] dfa.state_sets()[i])
    &&& forall|i: int| 0 <= i < dfa.state_sets().len() ==> #[trigger] dfa.state_sets()[i] != Set::<Item>::empty()
    &&& forall|f: usize, x: Symbol, t: usize| #[trigger] dfa.transition_set().contains((f, x, t))
        ==> declared(g.num_terminals(), g.num_nonterminals(), x)
            && goto_kernel(g, dfa.state_sets()[f as int], x) != Set::<Item>::empty()
            && is_closure_of(g, goto_kernel(g, dfa.state_sets()[f as int], x), dfa.state_sets()[t as int])
    &&& forall|f: usize, x: Symbol|
        f < dfa.state_sets().len() && declared(g.num_terminals(), g.num_nonterminals(), x)
            && #[trigger] goto_kernel(g, dfa.state_sets()[f as int], x) != Set::<Item>::empty()
            ==> exists|t: usize| #[trigger] dfa.transition_set().contains((f, x, t))
    &&& forall|t: usize| 0 < t < dfa.state_sets().len() ==> #[trigger] has_incoming(dfa, t)
}

/// The automaton is canonical: no two of its states hold the same items.
pub proof fn lemma_automaton_canonical(g: &Grammar, dfa: &DFA, i: int, j: int)
    requires
        is_lr1_automaton(g, dfa),
        0 <= i < dfa.state_sets().len(),
        0 <= j < dfa.state_sets().len(),
        i != j,
    ensures
        dfa.state_sets()[i] != dfa.state_sets()[j],
{
    if j < i {
        assert(dfa.state_sets()[j] != dfa.state_sets()[i]);
    }
}

/// The declared terminals, then the declared nonterminals.
fn vocabulary(g: &Grammar) -> (r: Vec<Symbol>)
    ensures
        r@.len() == g.num_terminals() + g.num_nonterminals(),
        forall|j: int| 0 <= j < r@.len() ==> #[trigger] r@[j] == if j < g.num_terminals() {
            Symbol::Terminal(j as usize)
        } else {
            Symbol::NonTerminal((j - g.num_terminals()) as usize)
        },
{
    let mut r = g.terminals();
    let nts = g.nonterminals();
    let mut k: usize = 0;
    while k < nts.len()
        invariant
            0 <= k <= nts.len(),
            nts@.len() == g.num_nonterminals(),
            forall|i: int| 0 <= i < nts@.len() ==> #[trigger] nts@[i] == Symbol::NonTerminal(i as usize),
            r@.len() == g.num_terminals() + k,
            forall|j: int| 0 <= j < r@.len() ==> #[trigger] r@[j] == if j < g.num_terminals() {
                Symbol::Terminal(j as usize)
            } else {
                Symbol::NonTerminal((j - g.num_terminals()) as usize)
            },
        decreases nts.len() - k,
    {
        r.push(nts[k]);
        k = k + 1;
    }
    r
}

/// Builds the canonical collection of LR(1) item sets of `g` and the goto
/// transitions between them.
pub fn canonical_collections(g: &Grammar) -> (dfa: DFA)
    requires
        g.wf(),
    ensures
        is_lr1_automaton(g, &dfa),
{
    let ghost tc = g.num_terminals();
    let ghost nc = g.num_nonterminals();
    let mut start = CanonicalCollection::new();
    start.insert(Item::new(g.goal_rule(), Symbol::EndOfInput));
    proof {
        assert(start@ =~= start_kernel(g));
        assert(valid_item(g, Item { rule_id: RuleId { id: g.goal_rule_id() as usize }, placeholder: 0, lookahead: Symbol::EndOfInput }));
    }
    let s0 = closure(g, start);
    proof {
        lemma_closure_empty(g, start_kernel(g), s0@);
        assert(start_kernel(g).contains(Item { rule_id: RuleId { id: g.goal_rule_id() as usize }, placeholder: 0, lookahead: Symbol::EndOfInput }));
    }
    let mut dfa = DFA::new();
    dfa.add_state(s0);
    let symbols = vocabulary(g);
    proof {
        lemma_item_universe(g);
        lemma_exp2_positive(item_universe(g).len());
    }
    let mut i: usize = 0;
    while i < dfa.number_of_states()
        invariant
            g.wf(),
            symbols@.len() == tc + nc,
            forall|j: int| 0 <= j < symbols@.len() ==> #[trigger] symbols@[j] == if j < tc {
                Symbol::Terminal(j as usize)
            } else {
                Symbol::NonTerminal((j - tc) as usize)
            },
            item_universe(g).finite(),
            forall|it: Item| valid_item(g, it) ==> #[trigger] item_universe(g).contains(it),
            dfa.wf(),
            dfa.state_sets().len() > 0,
            0 <= i <= dfa.state_sets().len(),
            dfa.state_sets().len() <= exp2(item_universe(g).len()),
            is_closure_of(g, start_kernel(g), dfa.state_sets()[0]),
            forall|k: int| 0 <= k < dfa.state_sets().len() ==> valid_items(g, #[trigger] dfa.state_sets()[k]),
            forall|k: int| 0 <= k < dfa.state_sets().len() ==> #[trigger] dfa.state_sets()[k] != Set::<Item>::empty(),
            forall|f: usize, x: Symbol, t: usize| #[trigger] dfa.transition_set().contains((f, x, t))
                ==> f < i && declared(tc, nc, x) && goto_kernel(g, dfa.state_sets()[f as int], x) != Set::<Item>::empty()
                    && is_closure_of(g, goto_kernel(g, dfa.state_sets()[f as int], x), dfa.state_sets()[t as int]),
            forall|f: usize, x: Symbol|
                f < i && declared(tc, nc, x) && #[trigger] goto_kernel(g, dfa.state_sets()[f as int], x) != Set::<Item>::empty()
                    ==> exists|t: usize| #[trigger] dfa.transition_set().contains((f, x, t)),
            forall|t: usize| 0 < t < dfa.state_sets().len() ==> #[trigger] has_incoming(&dfa, t),
        decreases exp2(item_universe(g).len()) - i,
    {
        let mut k: usize = 0;
        while k < symbols.len()
            invariant
                g.wf(),
                symbols@.len() == tc + nc,
                forall|j: int| 0 <= j < symbols@.len() ==> #[trigger] symbols@[j] == if j < tc {
                    Symbol::Terminal(j as usize)
                } else {
                    Symbol::NonTerminal((j - tc) as usize)
                },
                item_universe(g).finite(),
                forall|it: Item| valid_item(g, it) ==> #[trigger] item_universe(g).contains(it),
                dfa.wf(),
                dfa.state_sets().len() > 0,
                0 <= i < dfa.state_sets().len(),
                0 <= k <= symbols@.len(),
                is_closure_of(g, start_kernel(g), dfa.state_sets()[0]),
                forall|m: int| 0 <= m < dfa.state_sets().len() ==> valid_items(g, #[trigger] dfa.state_sets()[m]),
                forall|m: int| 0 <= m < dfa.state_sets().len() ==> #[trigger] dfa.state_sets()[m] != Set::<Item>::empty(),
                forall|f: usize, x: Symbol, t: usize| #[trigger] dfa.transition_set().contains((f, x, t))
                    ==> (f < i || (f == i && exists|kk: int| 0 <= kk < k && symbols@[kk] == x)) && declared(tc, nc, x)
                        && goto_kernel(g, dfa.state_sets()[f as int], x) != Set::<Item>::empty()
                        && is_closure_of(g, goto_kernel(g, dfa.state_sets()[f as int], x), dfa.state_sets()[t as int]),
                forall|f: usize, x: Symbol|
                    f < i && declared(tc, nc, x) && #[trigger] goto_kernel(g, dfa.state_sets()[f as int], x) != Set::<Item>::empty()
                        ==> exists|t: usize| #[trigger] dfa.transition_set().contains((f, x, t)),
                forall|kk: int| 0 <= kk < k && goto_kernel(g, dfa.state_sets()[i as int], #[trigger] symbols@[kk]) != Set::<Item>::empty()
                    ==> exists|t: usize| #[trigger] dfa.transition_set().contains((i, symbols@[kk], t)),
                forall|t: usize| 0 < t < dfa.state_sets().len() ==> #[trigger] has_incoming(&dfa, t),
            decreases symbols.len() - k,
        {
            let x = symbols[k];
            let gs = goto(g, dfa.state(i), x);
            let ghost src = dfa.state_sets()[i as int];
            proof {
                lemma_closure_empty(g, goto_kernel(g, src, x), gs@);
                assert(declared(tc, nc, x));
            }
            if gs.len() > 0 {
                proof {
                    if gs@ == Set::<Item>::empty() {
                        assert(gs@.len() == 0);
                    }
                }
                let ghost old_dfa_sets = dfa.state_sets();
                let ghost old_trans = dfa.transition_set();
                let ghost old_dfa = dfa;
                proof {
                    assert forall|t: usize| !dfa.transition_set().contains((i, x, t)) by {
                        if dfa.transition_set().contains((i, x, t)) {
                            let kk = choose|kk: int| 0 <= kk < k && symbols@[kk] == x;
                            assert(symbols@[kk] == symbols@[k as int]);
                        }
                    }
                }
                let t = dfa.add_state(gs);
                dfa.add_transition(i, t, x);
                proof {
                    assert(dfa.transition_set().contains((i, x, t)));
                    assert forall|m: int| 0 <= m < dfa.state_sets().len() implies valid_items(g, #[trigger] dfa.state_sets()[m]) by {
                        if m < old_dfa_sets.len() {
                            assert(dfa.state_sets()[m] == old_dfa_sets[m]);
                        }
                    }
                    assert forall|m: int| 0 <= m < dfa.state_sets().len() implies #[trigger] dfa.state_sets()[m] != Set::<Item>::empty() by {
                        if m < old_dfa_sets.len() {
                            assert(dfa.state_sets()[m] == old_dfa_sets[m]);
                        } else {
                            assert(dfa.state_sets()[m] == gs@);
                            assert(gs@.contains(gs@.choose()));
                        }
                    }
                    assert forall|tt: usize| 0 < tt < dfa.state_sets().len() implies #[trigger] has_incoming(&dfa, tt) by {
                        if tt < old_dfa_sets.len() {
                            assert(has_incoming(&old_dfa, tt));
                            let (f, y) = choose|f: usize, y: Symbol| f < tt && #[trigger] old_trans.contains((f, y, tt));
                            assert(dfa.transition_set().contains((f, y, tt)));
                        } else {
                            assert(tt == t);
                            assert(dfa.transition_set().contains((i, x, t)));
                        }
                    }
                    assert forall|f: usize, y: Symbol, tt: usize| #[trigger] dfa.transition_set().contains((f, y, tt))
                        implies (f < i || (f == i && exists|kk: int| 0 <= kk < k + 1 && symbols@[kk] == y)) && declared(tc, nc, y)
                            && is_closure_of(g, goto_kernel(g, dfa.state_sets()[f as int], y), dfa.state_sets()[tt as int]) by {
                        if (f, y, tt) != (i, x, t) {
                            assert(old_trans.contains((f, y, tt)));
                            assert(dfa.state_sets()[f as int] == old_dfa_sets[f as int]);
                            assert(dfa.state_sets()[tt as int] == old_dfa_sets[tt as int]);
                            if f == i {
                                let kk = choose|kk: int| 0 <= kk < k && symbols@[kk] == y;
                                assert(0 <= kk < k + 1 && symbols@[kk] == y);
                            }
                        } else {
                            assert(symbols@[k as int] == y);
                        }
                    }
                    assert forall|f: usize, y: Symbol|
                        f < i && declared(tc, nc, y) && #[trigger] goto_kernel(g, dfa.state_sets()[f as int], y) != Set::<Item>::empty()
                            implies exists|tt: usize| #[trigger] dfa.transition_set().contains((f, y, tt)) by {
                        assert(dfa.state_sets()[f as int] == old_dfa_sets[f as int]);
                        let tt = choose|tt: usize| #[trigger] old_trans.contains((f, y, tt));
                        assert(dfa.transition_set().contains((f, y, tt)));
                    }
                    assert forall|kk: int| 0 <= kk < k + 1 && goto_kernel(g, dfa.state_sets()[i as int], #[trigger] symbols@[kk]) != Set::<Item>::empty()
                        implies exists|tt: usize| #[trigger] dfa.transition_set().contains((i, symbols@[kk], tt)) by {
                        assert(dfa.state_sets()[i as int] == old_dfa_sets[i as int]);
                        if kk < k {
                            let tt = choose|tt: usize| #[trigger] old_trans.contains((i, symbols@[kk], tt));
                            assert(dfa.transition_set().contains((i, symbols@[kk], tt)));
                        }
                    }
                }
            } else {
                proof {
                    gs@.lemma_len0_is_empty();
                }
            }
            k = k + 1;
        }
        proof {
            let fam = dfa.state_sets().to_set();
            assert(dfa.state_sets().no_duplicates());
            dfa.state_sets().unique_seq_to_set();
            assert forall|s: Set<Item>| #[trigger] fam.contains(s) implies s.subset_of(item_universe(g)) by {
                let m = choose|m: int| 0 <= m < dfa.state_sets().len() && dfa.state_sets()[m] == s;
                assert(valid_items(g, dfa.state_sets()[m]));
            }
            lemma_subset_family(fam, item_universe(g));
            assert forall|y: Symbol| declared(tc, nc, y) implies exists|kk: int| 0 <= kk < symbols@.len() && #[trigger] symbols@[kk] == y by {
                match y {
                    Symbol::Terminal(a) => {
                        assert(symbols@[a as int] == y);
                    },
                    Symbol::NonTerminal(b) => {
                        assert(symbols@[tc + b] == y);
                    },
                    _ => {},
                }
            }
        }
        i = i + 1;
    }
    dfa
}

} // verus!
