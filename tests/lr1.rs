use front_end::{
    build_tables, canonical_collections, closure, goto, parse, Action, CanonicalCollection, Driver, Grammar,
    GrammarError, Item, ParseResult, Rule, RuleId, Step, Symbol, Table, TableError, DFA,
};

const A: Symbol = Symbol::Terminal(0);
const S: Symbol = Symbol::NonTerminal(0);

const OPEN: Symbol = Symbol::Terminal(0);
const CLOSE: Symbol = Symbol::Terminal(1);

/// Goal -> S, S -> ( S ) | epsilon
fn parens() -> Grammar {
    let rules = vec![
        Rule::new(Symbol::Goal, vec![S]),
        Rule::new(S, vec![OPEN, S, CLOSE]),
        Rule::new(S, vec![]),
    ];
    Grammar::new(2, 1, rules).unwrap()
}

fn sorted(mut v: Vec<Symbol>) -> Vec<Symbol> {
    v.sort();
    v
}

#[test]
fn first_resolves_epsilon_to_trailing_lookahead() {
    let rules = vec![
        Rule::new(Symbol::Goal, vec![S]),
        Rule::new(S, vec![A]),
        Rule::new(S, vec![]),
    ];
    let g = Grammar::new(1, 1, rules).unwrap();
    let f = g.first(&[S, Symbol::EndOfInput]);
    assert_eq!(sorted(f), vec![A, Symbol::EndOfInput]);
    let f = g.first(&[S]);
    assert_eq!(sorted(f), vec![A, Symbol::Epsilon]);
    let f = g.first(&[]);
    assert_eq!(f, vec![Symbol::Epsilon]);
    let f = g.first(&[A, S]);
    assert_eq!(f, vec![A]);
}

#[test]
fn first_follows_nullable_chain() {
    // Goal -> X, X -> Y b, Y -> a | epsilon
    let x = Symbol::NonTerminal(0);
    let y = Symbol::NonTerminal(1);
    let a = Symbol::Terminal(0);
    let b = Symbol::Terminal(1);
    let rules = vec![
        Rule::new(Symbol::Goal, vec![x]),
        Rule::new(x, vec![y, b]),
        Rule::new(y, vec![a]),
        Rule::new(y, vec![]),
    ];
    let g = Grammar::new(2, 2, rules).unwrap();
    assert_eq!(sorted(g.first(&[x])), vec![a, b]);
    assert_eq!(sorted(g.first(&[Symbol::Goal])), vec![a, b]);
    assert_eq!(sorted(g.first(&[y])), vec![a, Symbol::Epsilon]);
}

#[test]
fn grammar_rejects_undeclared_symbol() {
    let rules = vec![
        Rule::new(Symbol::Goal, vec![S]),
        Rule::new(S, vec![Symbol::Terminal(5)]),
    ];
    assert_eq!(Grammar::new(1, 1, rules).err(), Some(GrammarError::UndeclaredSymbol { rule: 1 }));
    let rules = vec![Rule::new(Symbol::Terminal(0), vec![])];
    assert_eq!(Grammar::new(1, 1, rules).err(), Some(GrammarError::UndeclaredSymbol { rule: 0 }));
    let rules = vec![Rule::new(Symbol::Goal, vec![Symbol::EndOfInput])];
    assert_eq!(Grammar::new(1, 1, rules).err(), Some(GrammarError::UndeclaredSymbol { rule: 0 }));
}

#[test]
fn grammar_rejects_missing_goal_rule() {
    let rules = vec![Rule::new(S, vec![A])];
    assert_eq!(Grammar::new(1, 1, rules).err(), Some(GrammarError::MissingGoalRule));
}

#[test]
fn grammar_rejects_two_goal_rules() {
    let rules = vec![
        Rule::new(Symbol::Goal, vec![S]),
        Rule::new(Symbol::Goal, vec![A]),
        Rule::new(S, vec![A]),
    ];
    assert_eq!(Grammar::new(1, 1, rules).err(), Some(GrammarError::MalformedAugmentation));
}

#[test]
fn grammar_queries() {
    let g = parens();
    assert_eq!(g.terminals(), vec![OPEN, CLOSE]);
    assert_eq!(g.nonterminals(), vec![S]);
    assert_eq!(g.rules_headed_by(S), vec![1, 2]);
    assert_eq!(g.rules_headed_by(Symbol::Goal), vec![0]);
    assert_eq!(g.rules_headed_by(OPEN), Vec::<usize>::new());
    assert_eq!(g.goal_rule(), 0);
    assert_eq!(g.rule_count(), 3);
    assert_eq!(g.rule(1).body(), &[OPEN, S, CLOSE]);
}

#[test]
fn item_operations() {
    let g = parens();
    let it = Item::new(1, Symbol::EndOfInput);
    assert_eq!(it.symbol_at_placeholder(&g), Some(OPEN));
    assert_eq!(it.nonterminal_at_placeholder(&g), None);
    let it2 = it.advance_placeholder(&g).unwrap();
    assert_eq!(it2.placeholder, 1);
    assert_eq!(it2.nonterminal_at_placeholder(&g), Some(S));
    let end = it2.advance_placeholder(&g).unwrap().advance_placeholder(&g).unwrap();
    assert_eq!(end.symbol_at_placeholder(&g), None);
    assert_eq!(end.advance_placeholder(&g), None);
    assert_eq!(end.lookahead(), Symbol::EndOfInput);
    assert_eq!(end.rule_id(), RuleId::new(1));
}

fn start_state(g: &Grammar) -> CanonicalCollection {
    let mut start = CanonicalCollection::new();
    start.insert(Item::new(g.goal_rule(), Symbol::EndOfInput));
    closure(g, start)
}

#[test]
fn closure_of_start_state() {
    let g = parens();
    let s0 = start_state(&g);
    assert_eq!(s0.len(), 3);
    assert!(s0.contains(Item::new(0, Symbol::EndOfInput)));
    assert!(s0.contains(Item::new(1, Symbol::EndOfInput)));
    assert!(s0.contains(Item::new(2, Symbol::EndOfInput)));
    assert!(!s0.contains(Item::new(1, CLOSE)));
}

#[test]
fn closure_is_idempotent() {
    let g = parens();
    let s0 = start_state(&g);
    let mut copy = CanonicalCollection::new();
    for it in s0.iter() {
        copy.insert(*it);
    }
    let again = closure(&g, copy);
    assert!(again.same_items(&s0));
    assert_eq!(again.len(), s0.len());
}

#[test]
fn goto_is_deterministic() {
    let g = parens();
    let s0 = start_state(&g);
    let a = goto(&g, &s0, OPEN);
    let b = goto(&g, &s0, OPEN);
    assert!(a.same_items(&b));
    // [S -> ( . S ), $] closes over S with lookahead ')'.
    let mut advanced = Item::new(1, Symbol::EndOfInput);
    advanced.placeholder = 1;
    assert!(a.contains(advanced));
    assert!(a.contains(Item::new(1, CLOSE)));
    assert!(a.contains(Item::new(2, CLOSE)));
    assert_eq!(a.len(), 3);
    assert_eq!(goto(&g, &s0, CLOSE).len(), 0);
}

#[test]
fn automaton_states_are_distinct() {
    let g = parens();
    let dfa = canonical_collections(&g);
    let states = dfa.enumerate_states();
    // Canonical LR(1) collection of this grammar.
    assert_eq!(dfa.number_of_states(), 8);
    for i in 0..states.len() {
        for j in 0..states.len() {
            assert_eq!(states[i].same_items(&states[j]), i == j);
        }
    }
    assert_eq!(dfa.lookup_state_id(&start_state(&g)), Some(0));
    let one = dfa.transition_from_on(0, OPEN).unwrap();
    assert!(dfa.state(one).same_items(&goto(&g, &start_state(&g), OPEN)));
    assert_eq!(dfa.transition_from_on(0, CLOSE), None);
    for i in 0..states.len() {
        assert!(states[i].len() > 0);
    }
}

#[test]
fn parens_accepts_balanced_input() {
    let g = parens();
    let (action, goto_table) = build_tables(&g).unwrap();
    let r = parse(&g, &action, &goto_table, &[OPEN, OPEN, CLOSE, CLOSE]);
    assert_eq!(r, ParseResult::Accepted);
    assert_eq!(parse(&g, &action, &goto_table, &[]), ParseResult::Accepted);
}

#[test]
fn parens_rejects_unmatched_open() {
    let g = parens();
    let (action, goto_table) = build_tables(&g).unwrap();
    match parse(&g, &action, &goto_table, &[OPEN, OPEN, CLOSE]) {
        ParseResult::SyntaxError { position, offending_symbol, expected, .. } => {
            assert_eq!(position, 3);
            assert_eq!(offending_symbol, Symbol::EndOfInput);
            assert_eq!(expected, vec![CLOSE]);
        },
        other => panic!("unexpected {:?}", other),
    }
    match parse(&g, &action, &goto_table, &[CLOSE]) {
        ParseResult::SyntaxError { position, offending_symbol, at_state, expected } => {
            assert_eq!(position, 0);
            assert_eq!(offending_symbol, CLOSE);
            assert_eq!(at_state, 0);
            assert_eq!(sorted(expected), vec![OPEN, Symbol::EndOfInput]);
        },
        other => panic!("unexpected {:?}", other),
    }
}

#[test]
fn action_table_is_partial() {
    let g = parens();
    let (action, goto_table) = build_tables(&g).unwrap();
    // Column 0 is '(', 1 is ')', 2 is end of input.
    assert_eq!(action.lookup(0, 1), None);
    assert!(matches!(action.lookup(0, 0), Some(Action::Shift(_))));
    assert_eq!(action.lookup(0, 2), Some(Action::Reduce(RuleId::new(2))));
    assert_eq!(action.lookup(99, 0), None);
    let s = goto_table.lookup(0, 0).unwrap();
    assert_eq!(action.lookup(s, 2), Some(Action::Accept));
    assert_eq!(action.columns(), 3);
    assert_eq!(goto_table.columns(), 1);
}

#[test]
fn concatenation_grammar_is_ambiguous() {
    // Goal -> E, E -> E E | a: "a a a" has two derivations, so the
    // builder reports a conflict instead of picking one.
    let e = Symbol::NonTerminal(0);
    let rules = vec![
        Rule::new(Symbol::Goal, vec![e]),
        Rule::new(e, vec![e, e]),
        Rule::new(e, vec![A]),
    ];
    let g = Grammar::new(1, 1, rules).unwrap();
    match build_tables(&g) {
        Err(TableError::Conflict { first, second, symbol, .. }) => {
            assert_ne!(first, second);
            assert_eq!(symbol, A);
        },
        other => panic!("expected a conflict, got {:?}", other.is_ok()),
    }
}

#[test]
fn dangling_else_is_a_conflict() {
    let stmt = Symbol::NonTerminal(0);
    let cond = Symbol::NonTerminal(1);
    let if_ = Symbol::Terminal(0);
    let then = Symbol::Terminal(1);
    let else_ = Symbol::Terminal(2);
    let other = Symbol::Terminal(3);
    let expr = Symbol::Terminal(4);
    let rules = vec![
        Rule::new(Symbol::Goal, vec![stmt]),
        Rule::new(stmt, vec![if_, cond, then, stmt]),
        Rule::new(stmt, vec![if_, cond, then, stmt, else_, stmt]),
        Rule::new(stmt, vec![other]),
        Rule::new(cond, vec![expr]),
    ];
    let g = Grammar::new(5, 2, rules).unwrap();
    match build_tables(&g) {
        Err(TableError::Conflict { symbol, first, second, .. }) => {
            assert_eq!(symbol, else_);
            let kinds = [first, second];
            assert!(kinds.iter().any(|a| matches!(a, Action::Shift(_))));
            assert!(kinds.contains(&Action::Reduce(RuleId::new(1))));
        },
        other => panic!("expected a conflict, got {:?}", other.is_ok()),
    }
}

#[test]
fn expression_grammar_parses() {
    // Goal -> E, E -> E + T | T, T -> id
    let e = Symbol::NonTerminal(0);
    let t = Symbol::NonTerminal(1);
    let plus = Symbol::Terminal(0);
    let id = Symbol::Terminal(1);
    let rules = vec![
        Rule::new(Symbol::Goal, vec![e]),
        Rule::new(e, vec![e, plus, t]),
        Rule::new(e, vec![t]),
        Rule::new(t, vec![id]),
    ];
    let g = Grammar::new(2, 2, rules).unwrap();
    let (action, goto_table) = build_tables(&g).unwrap();
    assert_eq!(parse(&g, &action, &goto_table, &[id, plus, id, plus, id]), ParseResult::Accepted);
    assert!(matches!(parse(&g, &action, &goto_table, &[id, id]), ParseResult::SyntaxError { position: 1, .. }));
    assert!(matches!(parse(&g, &action, &goto_table, &[id, plus]), ParseResult::SyntaxError { position: 2, .. }));
    // A symbol that is not a terminal is never a valid lookahead.
    assert!(matches!(parse(&g, &action, &goto_table, &[e]), ParseResult::SyntaxError { position: 0, .. }));
}

#[test]
fn table_insert_and_lookup() {
    let mut t: Table<usize> = Table::new(2, 3);
    assert_eq!(t.lookup(1, 2), None);
    t.insert(1, 2, 7);
    assert_eq!(t.lookup(1, 2), Some(7));
    assert_eq!(t.lookup(2, 1), None);
    t.insert(1, 2, 8);
    assert_eq!(t.lookup(1, 2), Some(8));
    assert_eq!(t.lookup(0, 2), None);
    assert_eq!(t.rows(), 2);
}

#[test]
fn dfa_deduplicates_states() {
    let g = parens();
    let mut dfa = DFA::new();
    assert_eq!(dfa.number_of_states(), 0);
    let a = dfa.add_state(start_state(&g));
    let b = dfa.add_state(start_state(&g));
    assert_eq!(a, b);
    assert_eq!(dfa.number_of_states(), 1);
    let c = dfa.add_state(goto(&g, &start_state(&g), OPEN));
    assert_eq!(c, 1);
    dfa.add_transition(0, 1, OPEN);
    assert_eq!(dfa.transition_from_on(0, OPEN), Some(1));
    assert_eq!(dfa.transition_from_on(1, OPEN), None);
    // A later target on the same (state, symbol) replaces the earlier one.
    dfa.add_transition(0, 0, OPEN);
    assert_eq!(dfa.transition_from_on(0, OPEN), Some(0));
    dfa.add_transition(1, 1, CLOSE);
    assert_eq!(dfa.transition_from_on(0, OPEN), Some(0));
    assert_eq!(dfa.transition_from_on(1, CLOSE), Some(1));
}

#[test]
fn rule_id_from_usize() {
    let r: RuleId = RuleId::from(4);
    assert_eq!(r.id(), 4);
    let r2: RuleId = 4usize.into();
    assert_eq!(r, r2);
}

/// A pull-based token source: peek the current terminal, advance past it.
struct Tokens {
    words: Vec<Symbol>,
    pos: usize,
}

impl Tokens {
    fn peek(&self) -> Symbol {
        self.words.get(self.pos).copied().unwrap_or(Symbol::EndOfInput)
    }

    fn advance(&mut self) {
        self.pos += 1;
    }
}

fn drive(g: &Grammar, action: &Table<Action>, goto_table: &Table<usize>, words: Vec<Symbol>) -> (Step, usize, Vec<usize>) {
    let mut source = Tokens { words, pos: 0 };
    let mut driver = Driver::new();
    let mut depths = Vec::new();
    loop {
        depths.push(driver.depth());
        match driver.step(g, action, goto_table, source.peek()) {
            Step::Shifted => source.advance(),
            Step::Reduced => {},
            other => return (other, source.pos, depths),
        }
    }
}

#[test]
fn driver_with_token_source() {
    let g = parens();
    let (action, goto_table) = build_tables(&g).unwrap();
    let (end, pos, depths) = drive(&g, &action, &goto_table, vec![OPEN, CLOSE]);
    assert_eq!(end, Step::Accepted);
    assert_eq!(pos, 2);
    // ( shift, epsilon reduce, ) shift, reduce S -> ( S ), then accept.
    assert_eq!(depths, vec![1, 2, 3, 4, 2]);
    let (end, pos, _) = drive(&g, &action, &goto_table, vec![OPEN, OPEN, CLOSE]);
    assert_eq!(end, Step::Rejected);
    assert_eq!(pos, 3);
}
