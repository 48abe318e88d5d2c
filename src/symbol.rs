use vstd::prelude::*;

verus! {

/// A grammar symbol. Terminals and nonterminals are named by dense indices:
/// a grammar with `t` terminals and `n` nonterminals uses
/// `Terminal(0..t)` and `NonTerminal(0..n)`.
#[derive(Debug, Clone, Copy, PartialEq, Eq, Structural, Hash, PartialOrd, Ord)]
pub enum Symbol {
    Goal,
    Terminal(usize),
    NonTerminal(usize),
    EndOfInput,
    Epsilon,
}

impl Symbol {
    pub open spec fn spec_is_nonterminal(&self) -> bool {
        self is Goal || self is NonTerminal
    }

    pub open spec fn spec_is_terminal(&self) -> bool {
        self is Terminal || self is EndOfInput
    }

    /// `Goal` and the named nonterminals are the symbols that head rules.
    #[verifier::when_used_as_spec(spec_is_nonterminal)]
    pub fn is_nonterminal(&self) -> (r: bool)
        ensures
            r == self.spec_is_nonterminal(),
    {
        match self {
            Symbol::Goal => true,
            Symbol::NonTerminal(_) => true,
            _ => false,
        }
    }

    /// Terminals and the end-of-input marker are what a token source produces.
    #[verifier::when_used_as_spec(spec_is_terminal)]
    pub fn is_terminal(&self) -> (r: bool)
        ensures
            r == self.spec_is_terminal(),
    {
        match self {
            Symbol::Terminal(_) => true,
            Symbol::EndOfInput => true,
            _ => false,
        }
    }
}

} // verus!
