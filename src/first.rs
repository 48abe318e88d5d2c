//! FIRST sets: the relation between nonterminals and the terminals (or
//! `Epsilon`) that can begin one of their derivations.
use vstd::prelude::*;
use crate::rule::Rule;
use crate::symbol::Symbol;
use crate::bounds::{lemma_distinct_within, lemma_push_contains, lemma_range_image};
use vstd::set_lib::set_int_range;
use vstd::arithmetic::div_mod::lemma_fundamental_div_mod_converse;

verus! {

/// The FIRST set of nonterminal `x` according to the relation `rel`.
pub open spec fn first_of_nonterminal(rel: Set<(Symbol, Symbol)>, x: Symbol) -> Set<Symbol> {
    Set::new(|y: Symbol| rel.contains((x, y)))
}

/// FIRST of a symbol sequence given the FIRST sets of the nonterminals:
/// the first symbol's set, continuing to the next symbol only while every
/// symbol so far can derive the empty string; `Epsilon` when the whole
/// sequence can.
pub open spec fn first_seq(rel: Set<(Symbol, Symbol)>, w: Seq<Symbol>) -> Set<Symbol>
    decreases w.len(),
{
    if w.len() == 0 {
        set![Symbol::Epsilon]
    } else if w[0].spec_is_nonterminal() {
        let f = first_of_nonterminal(rel, w[0]);
        if f.contains(Symbol::Epsilon) {
            f.remove(Symbol::Epsilon).union(first_seq(rel, w.drop_first()))
        } else {
            f
        }
    } else {
        set![w[0]]
    }
}

/// Every rule's body contributes its FIRST set to its head.
pub open spec fn first_closed(rules: Seq<Rule>, rel: Set<(Symbol, Symbol)>) -> bool {
    forall|r: int, y: Symbol|
        0 <= r < rules.len() && #[trigger] first_seq(rel, rules[r].body@).contains(y)
            ==> rel.contains((rules[r].head, y))
}

/// `rel` is the FIRST relation of `rules`: the least relation closed under
/// the rules.
pub open spec fn is_first_relation(rules: Seq<Rule>, rel: Set<(Symbol, Symbol)>) -> bool {
    &&& first_closed(rules, rel)
    &&& forall|t: Set<(Symbol, Symbol)>| #[trigger] first_closed(rules, t) ==> rel.subset_of(t)
}

/// A larger relation gives a larger FIRST set of every sequence.
pub proof fn lemma_first_seq_monotone(a: Set<(Symbol, Symbol)>, b: Set<(Symbol, Symbol)>, w: Seq<Symbol>)
    requires
        a.subset_of(b),
    ensures
        first_seq(a, w).subset_of(first_seq(b, w)),
    decreases w.len(),
{
    if w.len() > 0 {
        lemma_first_seq_monotone(a, b, w.drop_first());
        if w[0].spec_is_nonterminal() {
            let fa = first_of_nonterminal(a, w[0]);
            let fb = first_of_nonterminal(b, w[0]);
            assert(fa.subset_of(fb));
        }
    }
}

/// Whether `v` holds `s`.
pub fn contains_symbol(v: &Vec<Symbol>, s: Symbol) -> (r: bool)
    ensures
        r == v@.contains(s),
{
    let mut i: usize = 0;
    while i < v.len()
        invariant
            0 <= i <= v.len(),
            forall|j: int| 0 <= j < i ==> v@[j] != s,
        decreases v.len() - i,
    {
        if v[i] == s {
            return true;
        }
        i = i + 1;
    }
    false
}

/// Whether `v` holds the pair `p`.
pub fn contains_pair(v: &Vec<(Symbol, Symbol)>, p: (Symbol, Symbol)) -> (r: bool)
    ensures
        r == v@.contains(p),
{
    let mut i: usize = 0;
    while i < v.len()
        invariant
            0 <= i <= v.len(),
            forall|j: int| 0 <= j < i ==> v@[j] != p,
        decreases v.len() - i,
    {
        if v[i].0 == p.0 && v[i].1 == p.1 {
            return true;
        }
        i = i + 1;
    }
    false
}

/// Adds to `out` every non-`Epsilon` member of the FIRST set of `x`, and
/// tells whether `x` can derive the empty string.
fn add_first_of_nonterminal(rel: &Vec<(Symbol, Symbol)>, x: Symbol, out: &mut Vec<Symbol>) -> (nullable: bool)
    requires
        old(out)@.no_duplicates(),
    ensures
        final(out)@.no_duplicates(),
        final(out)@.to_set() == old(out)@.to_set().union(
            first_of_nonterminal(rel@.to_set(), x).remove(Symbol::Epsilon),
        ),
        nullable == first_of_nonterminal(rel@.to_set(), x).contains(Symbol::Epsilon),
{
    broadcast use lemma_push_contains;
    let ghost f = first_of_nonterminal(rel@.to_set(), x);
    let mut nullable = false;
    let mut i: usize = 0;
    while i < rel.len()
        invariant
            0 <= i <= rel.len(),
            out@.no_duplicates(),
            forall|z: Symbol| #[trigger] out@.contains(z) <==> (old(out)@.contains(z) || (z
                != Symbol::Epsilon && exists|j: int| 0 <= j < i && rel@[j] == (x, z))),
            nullable == exists|j: int| 0 <= j < i && rel@[j] == (x, Symbol::Epsilon),
        decreases rel.len() - i,
    {
        let (h, y) = rel[i];
        let ghost before = out@;
        if h == x {
            if y == Symbol::Epsilon {
                nullable = true;
            } else if !contains_symbol(out, y) {
                out.push(y);
                assert forall|z: Symbol| #[trigger] out@.contains(z) <==> (before.contains(z) || z == y) by {
                    lemma_push_contains(before, y, z);
                }
            }
        }
        assert(rel@[i as int] == (h, y));
        assert forall|z: Symbol| #[trigger] out@.contains(z) <==> (before.contains(z) || (h == x && y
            != Symbol::Epsilon && z == y)) by {}
        assert forall|z: Symbol| #[trigger] out@.contains(z) <==> (old(out)@.contains(z) || (z
            != Symbol::Epsilon && exists|j: int| 0 <= j < i + 1 && rel@[j] == (x, z))) by {
            if before.contains(z) && !old(out)@.contains(z) {
                let j = choose|j: int| 0 <= j < i && rel@[j] == (x, z);
                assert(0 <= j < i + 1 && rel@[j] == (x, z));
            }
            if z != Symbol::Epsilon && exists|j: int| 0 <= j < i + 1 && rel@[j] == (x, z) {
                let j = choose|j: int| 0 <= j < i + 1 && rel@[j] == (x, z);
                if j < i {
                    assert(before.contains(z));
                } else {
                    assert(rel@[j] == (h, y));
                }
            }
        }
        i = i + 1;
    }
    proof {
        assert forall|z: Symbol| #[trigger] rel@.to_set().contains((x, z)) <==> exists|j: int|
            0 <= j < rel.len() && rel@[j] == (x, z) by {
            if rel@.contains((x, z)) {
                let j = choose|j: int| 0 <= j < rel@.len() && rel@[j] == (x, z);
            }
        }
        assert(out@.to_set() =~= old(out)@.to_set().union(f.remove(Symbol::Epsilon)));
    }
    nullable
}

/// FIRST of the sequence `w` under the relation `rel`.
pub fn first_of_symbols(rel: &Vec<(Symbol, Symbol)>, w: &[Symbol]) -> (r: Vec<Symbol>)
    ensures
        r@.no_duplicates(),
        r@.to_set() == first_seq(rel@.to_set(), w@),
{
    broadcast use lemma_push_contains;
    let mut out: Vec<Symbol> = Vec::new();
    let mut i: usize = 0;
    assert(w@.subrange(0, w@.len() as int) =~= w@);
    assert(out@.to_set() =~= Set::empty());
    assert(first_seq(rel@.to_set(), w@) =~= out@.to_set().union(first_seq(rel@.to_set(), w@)));
    while i < w.len()
        invariant
            0 <= i <= w.len(),
            out@.no_duplicates(),
            !out@.contains(Symbol::Epsilon),
            first_seq(rel@.to_set(), w@) == out@.to_set().union(first_seq(rel@.to_set(), w@.subrange(i as int, w@.len() as int))),
        decreases w.len() - i,
    {
        let x = w[i];
        let ghost rest = w@.subrange(i as int, w@.len() as int);
        assert(rest.drop_first() =~= w@.subrange(i + 1, w@.len() as int));
        assert(rest[0] == x);
        if x.is_nonterminal() {
            let ghost f = first_of_nonterminal(rel@.to_set(), x);
            assert(first_seq(rel@.to_set(), rest) == if f.contains(Symbol::Epsilon) {
                f.remove(Symbol::Epsilon).union(first_seq(rel@.to_set(), rest.drop_first()))
            } else {
                f
            });
            let ghost before = out@.to_set();
            assert(first_seq(rel@.to_set(), w@) == before.union(first_seq(rel@.to_set(), rest)));
            let nullable = add_first_of_nonterminal(rel, x, &mut out);
            assert(out@.to_set() == before.union(f.remove(Symbol::Epsilon)));
            assert(!out@.to_set().contains(Symbol::Epsilon));
            if !nullable {
                assert(f.remove(Symbol::Epsilon) =~= f);
                assert(out@.to_set() =~= first_seq(rel@.to_set(), w@));
                return out;
            }
            assert(first_seq(rel@.to_set(), w@) =~= out@.to_set().union(first_seq(rel@.to_set(), w@.subrange(i + 1, w@.len() as int))));
        } else {
            assert(first_seq(rel@.to_set(), rest) == set![x]);
            let ghost before = out@;
            if !contains_symbol(&out, x) {
                out.push(x);
                assert forall|z: Symbol| #[trigger] out@.contains(z) <==> (before.contains(z) || z == x) by {
                    lemma_push_contains(before, x, z);
                }
            }
            assert(out@.to_set() =~= before.to_set().insert(x));
            assert(out@.to_set() =~= first_seq(rel@.to_set(), w@));
            return out;
        }
        i = i + 1;
    }
    assert(w@.subrange(i as int, w@.len() as int).len() == 0);
    let ghost before = out@;
    out.push(Symbol::Epsilon);
    assert forall|z: Symbol| #[trigger] out@.contains(z) <==> (before.contains(z) || z == Symbol::Epsilon) by {
        lemma_push_contains(before, Symbol::Epsilon, z);
    }
    assert(out@.to_set() =~= first_seq(rel@.to_set(), w@));
    out
}

/// Heads of rules: `Goal` and the declared nonterminals.
pub open spec fn valid_head(nc: nat, s: Symbol) -> bool {
    match s {
        Symbol::Goal => true,
        Symbol::NonTerminal(n) => n < nc,
        _ => false,
    }
}

/// Symbols that may stand in a rule body: the declared terminals and nonterminals.
pub open spec fn declared(tc: nat, nc: nat, s: Symbol) -> bool {
    match s {
        Symbol::Terminal(t) => t < tc,
        Symbol::NonTerminal(n) => n < nc,
        _ => false,
    }
}

/// A rule whose head and body use only declared symbols.
pub open spec fn rule_declared(tc: nat, nc: nat, r: Rule) -> bool {
    &&& valid_head(nc, r.head)
    &&& forall|j: int| 0 <= j < r.body@.len() ==> declared(tc, nc, #[trigger] r.body@[j])
}

pub open spec fn rules_declared(tc: nat, nc: nat, rules: Seq<Rule>) -> bool {
    forall|r: int| 0 <= r < rules.len() ==> rule_declared(tc, nc, #[trigger] rules[r])
}

/// What a FIRST set may hold besides `Epsilon`: a declared terminal.
pub open spec fn first_member_ok(tc: nat, y: Symbol) -> bool {
    y == Symbol::Epsilon || (y is Terminal && y->Terminal_0 < tc)
}

pub open spec fn first_pair_ok(tc: nat, nc: nat, p: (Symbol, Symbol)) -> bool {
    valid_head(nc, p.0) && first_member_ok(tc, p.1)
}

spec fn head_index(nc: nat, s: Symbol) -> int {
    match s {
        Symbol::NonTerminal(n) => n as int,
        _ => nc as int,
    }
}

spec fn member_index(tc: nat, s: Symbol) -> int {
    match s {
        Symbol::Terminal(t) => t as int,
        _ => tc as int,
    }
}

spec fn decode_pair(tc: nat, nc: nat, c: int) -> (Symbol, Symbol) {
    let h = c / (tc + 1) as int;
    let m = c % (tc + 1) as int;
    (
        if h < nc { Symbol::NonTerminal(h as usize) } else { Symbol::Goal },
        if m < tc { Symbol::Terminal(m as usize) } else { Symbol::Epsilon },
    )
}

/// A duplicate-free list of well-formed FIRST pairs has at most
/// `(nc + 1) * (tc + 1)` entries.
proof fn lemma_first_pairs_bound(tc: nat, nc: nat, s: Seq<(Symbol, Symbol)>)
    requires
        s.no_duplicates(),
        forall|i: int| 0 <= i < s.len() ==> first_pair_ok(tc, nc, #[trigger] s[i]),
    ensures
        s.len() <= (nc + 1) * (tc + 1),
{
    let d: int = ((nc + 1) * (tc + 1)) as int;
    let f = |c: int| decode_pair(tc, nc, c);
    assert(d >= 0) by (nonlinear_arith)
        requires
            d == (nc + 1) * (tc + 1),
    ;
    lemma_range_image(d, f);
    let u = set_int_range(0, d).map(f);
    assert forall|i: int| 0 <= i < s.len() implies u.contains(#[trigger] s[i]) by {
        let p = s[i];
        let h = head_index(nc, p.0);
        let m = member_index(tc, p.1);
        let c = h * (tc + 1) + m;
        lemma_fundamental_div_mod_converse(c, (tc + 1) as int, h, m);
        assert(0 <= c < d) by (nonlinear_arith)
            requires
                0 <= h <= nc as int,
                0 <= m <= tc as int,
                c == h * (tc + 1) + m,
                d == (nc + 1) * (tc + 1),
        ;
        assert(f(c) == p);
        assert(set_int_range(0, d).contains(c));
    }
    lemma_distinct_within(s, u);
}

/// Under a relation of well-formed pairs, every member of a FIRST set of a
/// sequence is `Epsilon`, a declared terminal, or a non-nonterminal of the
/// sequence itself.
pub proof fn lemma_first_seq_members(tc: nat, rel: Set<(Symbol, Symbol)>, w: Seq<Symbol>, y: Symbol)
    requires
        forall|p: (Symbol, Symbol)| #[trigger] rel.contains(p) ==> first_member_ok(tc, p.1),
        first_seq(rel, w).contains(y),
    ensures
        first_member_ok(tc, y) || (w.contains(y) && !y.spec_is_nonterminal()),
    decreases w.len(),
{
    if w.len() > 0 {
        if w[0].spec_is_nonterminal() {
            let f = first_of_nonterminal(rel, w[0]);
            if !f.contains(y) {
                lemma_first_seq_members(tc, rel, w.drop_first(), y);
                if w.drop_first().contains(y) && !y.spec_is_nonterminal() {
                    let k = choose|k: int| 0 <= k < w.drop_first().len() && w.drop_first()[k] == y;
                    assert(w[k + 1] == y);
                }
            } else {
                assert(rel.contains((w[0], y)));
            }
        } else {
            assert(w[0] == y);
        }
    }
}

/// The FIRST relation of `rules`, computed as a fixed point.
pub fn compute_first(tc: usize, nc: usize, rules: &Vec<Rule>) -> (rel: Vec<(Symbol, Symbol)>)
    requires
        rules_declared(tc as nat, nc as nat, rules@),
    ensures
        rel@.no_duplicates(),
        is_first_relation(rules@, rel@.to_set()),
        forall|i: int| 0 <= i < rel@.len() ==> first_pair_ok(tc as nat, nc as nat, #[trigger] rel@[i]),
{
    broadcast use lemma_push_contains;
    let ghost d = (nc + 1) * (tc + 1);
    let mut rel: Vec<(Symbol, Symbol)> = Vec::new();
    loop
        invariant
            rules_declared(tc as nat, nc as nat, rules@),
            d == (nc + 1) * (tc + 1),
            rel@.no_duplicates(),
            forall|i: int| 0 <= i < rel@.len() ==> first_pair_ok(tc as nat, nc as nat, #[trigger] rel@[i]),
            forall|t: Set<(Symbol, Symbol)>| #[trigger] first_closed(rules@, t) ==> rel@.to_set().subset_of(t),
        ensures
            first_closed(rules@, rel@.to_set()),
        decreases d - rel@.len(),
    {
        proof {
            lemma_first_pairs_bound(tc as nat, nc as nat, rel@);
        }
        let ghost start = rel@;
        let mut changed = false;
        let mut r: usize = 0;
        while r < rules.len()
            invariant
                rules_declared(tc as nat, nc as nat, rules@),
                0 <= r <= rules.len(),
                rel@.no_duplicates(),
                forall|i: int| 0 <= i < rel@.len() ==> first_pair_ok(tc as nat, nc as nat, #[trigger] rel@[i]),
                forall|t: Set<(Symbol, Symbol)>| #[trigger] first_closed(rules@, t) ==> rel@.to_set().subset_of(t),
                rel@.len() >= start.len(),
                changed ==> rel@.len() > start.len(),
                !changed ==> rel@ == start,
                !changed ==> forall|q: int, y: Symbol| 0 <= q < r && #[trigger] first_seq(rel@.to_set(), rules@[q].body@).contains(y)
                    ==> rel@.to_set().contains((rules@[q].head, y)),
            decreases rules.len() - r,
        {
            let head = rules[r].head;
            let fs = first_of_symbols(&rel, rules[r].body.as_slice());
            let ghost snap = rel@;
            let ghost changed_before = changed;
            proof {
                assert(rule_declared(tc as nat, nc as nat, rules@[r as int]));
                assert forall|p: (Symbol, Symbol)| #[trigger] snap.to_set().contains(p) implies first_member_ok(tc as nat, p.1) by {
                    let i = choose|i: int| 0 <= i < snap.len() && snap[i] == p;
                }
                assert forall|y: Symbol| #[trigger] fs@.contains(y) implies first_member_ok(tc as nat, y) by {
                    assert(fs@.to_set().contains(y));
                    lemma_first_seq_members(tc as nat, snap.to_set(), rules@[r as int].body@, y);
                    if rules@[r as int].body@.contains(y) {
                        let k = choose|k: int| 0 <= k < rules@[r as int].body@.len() && rules@[r as int].body@[k] == y;
                        assert(declared(tc as nat, nc as nat, rules@[r as int].body@[k]));
                    }
                }
            }
            let mut k: usize = 0;
            while k < fs.len()
                invariant
                    rules_declared(tc as nat, nc as nat, rules@),
                    0 <= r < rules.len(),
                    head == rules@[r as int].head,
                    valid_head(nc as nat, head),
                    fs@.to_set() == first_seq(snap.to_set(), rules@[r as int].body@),
                    forall|y: Symbol| #[trigger] fs@.contains(y) ==> first_member_ok(tc as nat, y),
                    forall|t: Set<(Symbol, Symbol)>| #[trigger] first_closed(rules@, t) ==> snap.to_set().subset_of(t),
                    0 <= k <= fs.len(),
                    rel@.no_duplicates(),
                    forall|i: int| 0 <= i < rel@.len() ==> first_pair_ok(tc as nat, nc as nat, #[trigger] rel@[i]),
                    forall|t: Set<(Symbol, Symbol)>| #[trigger] first_closed(rules@, t) ==> rel@.to_set().subset_of(t),
                    rel@.len() >= snap.len(),
                    snap.len() >= start.len(),
                    changed == (changed_before || rel@.len() > snap.len()),
                    !changed ==> rel@ == start,
                    rel@.len() == snap.len() ==> rel@ == snap,
                    forall|p: (Symbol, Symbol)| snap.contains(p) ==> #[trigger] rel@.contains(p),
                    forall|j: int| 0 <= j < k ==> rel@.contains((head, #[trigger] fs@[j])),
                decreases fs.len() - k,
            {
                let p = (head, fs[k]);
                if !contains_pair(&rel, p) {
                    let ghost before = rel@;
                    proof {
                        assert(fs@.contains(fs@[k as int]));
                        assert forall|t: Set<(Symbol, Symbol)>| #[trigger] first_closed(rules@, t) implies before.push(p).to_set().subset_of(t) by {
                            assert(fs@.to_set().contains(fs@[k as int]));
                            lemma_first_seq_monotone(snap.to_set(), t, rules@[r as int].body@);
                            assert(first_seq(t, rules@[r as int].body@).contains(fs@[k as int]));
                            assert forall|x: (Symbol, Symbol)| before.push(p).to_set().contains(x) implies t.contains(x) by {
                                lemma_push_contains(before, p, x);
                                if x != p {
                                    assert(before.to_set().contains(x));
                                }
                            }
                        }
                    }
                    rel.push(p);
                    changed = true;
                    proof {
                        assert forall|q: (Symbol, Symbol)| before.contains(q) implies #[trigger] rel@.contains(q) by {
                            lemma_push_contains(before, p, q);
                        }
                        assert(rel@.contains(p)) by {
                            lemma_push_contains(before, p, p);
                        }
                    }
                }
                k = k + 1;
            }
            proof {
                if !changed {
                    assert forall|q: int, y: Symbol| 0 <= q < r + 1 && #[trigger] first_seq(rel@.to_set(), rules@[q].body@).contains(y)
                        implies rel@.to_set().contains((rules@[q].head, y)) by {
                        if q == r {
                            assert(fs@.to_set().contains(y));
                            let j = choose|j: int| 0 <= j < fs@.len() && fs@[j] == y;
                            assert(rel@.contains((head, fs@[j])));
                        }
                    }
                }
            }
            r = r + 1;
        }
        if !changed {
            proof {
                assert(first_closed(rules@, rel@.to_set()));
            }
            break;
        }
        proof {
            lemma_first_pairs_bound(tc as nat, nc as nat, rel@);
        }
    }
    rel
}

} // verus!
