//! Sets of LR(1) items, and the closure and goto operations on them.
use vstd::prelude::*;
use vstd::set_lib::set_int_range;
use vstd::arithmetic::div_mod::lemma_fundamental_div_mod_converse;
use crate::bounds::{lemma_distinct_within, lemma_push_contains, lemma_range_image};
use crate::first::{first_seq, first_member_ok, lemma_first_seq_members, rule_declared, declared};
use crate::grammar::Grammar;
use crate::item::{Item, advanced, item_body, remainder, symbol_after_dot, valid_item};
use crate::rule::{Rule, RuleId};
use crate::symbol::Symbol;

verus! {

/// `new` is one of the items that closure adds because of `it`:
/// `it = [A -> a . B b, x]`, `new = [B -> . c, y]` for a rule `B -> c` and a
/// terminal `y` in FIRST(`b x`).
pub open spec fn expands_to(g: &Grammar, it: Item, new: Item) -> bool {
    match symbol_after_dot(g, it) {
        Some(b) => {
            &&& b.spec_is_nonterminal()
            &&& new.placeholder == 0
            &&& new.rule_id.id < g.rule_list().len()
            &&& g.rule_list()[new.rule_id.id as int].head == b
            &&& new.lookahead.spec_is_terminal()
            &&& first_seq(g.first_relation(), remainder(g, it)).contains(new.lookahead)
        },
        None => false,
    }
}

/// No item can be added to `s` by closure.
pub open spec fn closed_items(g: &Grammar, s: Set<Item>) -> bool {
    forall|it: Item, new: Item| s.contains(it) && #[trigger] expands_to(g, it, new) ==> s.contains(new)
}

/// `s` is the closure of `s0`: the least closed set of items containing `s0`.
pub open spec fn is_closure_of(g: &Grammar, s0: Set<Item>, s: Set<Item>) -> bool {
    &&& s0.subset_of(s)
    &&& closed_items(g, s)
    &&& forall|t: Set<Item>| #[trigger] closed_items(g, t) && s0.subset_of(t) ==> s.subset_of(t)
}

/// The items of `s` with `x` after the dot, advanced over `x`.
pub open spec fn goto_kernel(g: &Grammar, s: Set<Item>, x: Symbol) -> Set<Item> {
    Set::new(|n: Item| exists|it: Item| #[trigger] s.contains(it) && symbol_after_dot(g, it) == Some(x) && n == advanced(it))
}

pub open spec fn valid_items(g: &Grammar, s: Set<Item>) -> bool {
    forall|it: Item| #[trigger] s.contains(it) ==> valid_item(g, it)
}

/// The longest rule body.
pub open spec fn max_body_len(rules: Seq<Rule>) -> nat
    decreases rules.len(),
{
    if rules.len() == 0 {
        0
    } else {
        let m = max_body_len(rules.drop_last());
        let l = rules.last().body@.len();
        if l > m { l } else { m }
    }
}

proof fn lemma_max_body_len(rules: Seq<Rule>, r: int)
    requires
        0 <= r < rules.len(),
    ensures
        rules[r].body@.len() <= max_body_len(rules),
    decreases rules.len(),
{
    if r < rules.len() - 1 {
        lemma_max_body_len(rules.drop_last(), r);
        assert(rules.drop_last()[r] == rules[r]);
    }
}

/// Number of codes used to bound the item domain.
pub open spec fn item_code_count(g: &Grammar) -> int {
    (g.rule_list().len() * (max_body_len(g.rule_list()) + 1) * (g.num_terminals() + 1)) as int
}

pub open spec fn decode_item(g: &Grammar, c: int) -> Item {
    let w: int = (max_body_len(g.rule_list()) + 1) as int;
    let t: int = (g.num_terminals() + 1) as int;
    let q = c / t;
    let la = c % t;
    Item {
        rule_id: RuleId { id: (q / w) as usize },
        placeholder: (q % w) as usize,
        lookahead: if la < g.num_terminals() as int { Symbol::Terminal(la as usize) } else { Symbol::EndOfInput },
    }
}

/// A finite set that holds every valid item of the grammar.
pub open spec fn item_universe(g: &Grammar) -> Set<Item> {
    set_int_range(0, item_code_count(g)).map(|c: int| decode_item(g, c))
}

pub proof fn lemma_item_universe(g: &Grammar)
    ensures
        item_universe(g).finite(),
        forall|it: Item| valid_item(g, it) ==> #[trigger] item_universe(g).contains(it),
{
    let w: int = (max_body_len(g.rule_list()) + 1) as int;
    let t: int = (g.num_terminals() + 1) as int;
    let n: int = g.rule_list().len() as int;
    let d = item_code_count(g);
    assert(d == n * w * t);
    assert(d >= 0) by (nonlinear_arith)
        requires
            d == n * w * t,
            n >= 0,
            w >= 1,
            t >= 1,
    ;
    lemma_range_image(d, |c: int| decode_item(g, c));
    assert forall|it: Item| valid_item(g, it) implies #[trigger] item_universe(g).contains(it) by {
        let r = it.rule_id.id as int;
        let p = it.placeholder as int;
        let la: int = match it.lookahead {
            Symbol::Terminal(x) => x as int,
            _ => g.num_terminals() as int,
        };
        lemma_max_body_len(g.rule_list(), r);
        let q = r * w + p;
        let c = q * t + la;
        lemma_fundamental_div_mod_converse(c, t, q, la);
        lemma_fundamental_div_mod_converse(q, w, r, p);
        assert(0 <= c < d) by (nonlinear_arith)
            requires
                0 <= r < n,
                0 <= p < w,
                0 <= la < t,
                q == r * w + p,
                c == q * t + la,
                d == n * w * t,
        ;
        assert(decode_item(g, c) == it);
        assert(set_int_range(0, d).contains(c));
    }
}

/// A duplicate-free list of valid items is no longer than the item universe.
pub proof fn lemma_valid_items_bound(g: &Grammar, s: Seq<Item>)
    requires
        s.no_duplicates(),
        forall|k: int| 0 <= k < s.len() ==> valid_item(g, #[trigger] s[k]),
    ensures
        item_universe(g).finite(),
        s.len() <= item_universe(g).len(),
{
    lemma_item_universe(g);
    assert forall|k: int| 0 <= k < s.len() implies item_universe(g).contains(#[trigger] s[k]) by {
        assert(valid_item(g, s[k]));
    }
    lemma_distinct_within(s, item_universe(g));
}

/// A set of LR(1) items: a state of the LR(1) automaton once closed.
pub struct CanonicalCollection {
    items: Vec<Item>,
}

impl View for CanonicalCollection {
    type V = Set<Item>;

    closed spec fn view(&self) -> Set<Item> {
        self.items@.to_set()
    }
}

impl CanonicalCollection {
    pub closed spec fn wf(&self) -> bool {
        self.items@.no_duplicates()
    }

    /// The items in the order they were added.
    pub closed spec fn item_seq(&self) -> Seq<Item> {
        self.items@
    }

    pub proof fn lemma_item_seq(&self)
        requires
            self.wf(),
        ensures
            self.item_seq().no_duplicates(),
            self.item_seq().to_set() == self@,
    {
    }

    pub fn new() -> (r: CanonicalCollection)
        ensures
            r.wf(),
            r@ == Set::<Item>::empty(),
    {
        let r = CanonicalCollection { items: Vec::new() };
        assert(r@ =~= Set::<Item>::empty());
        r
    }

    pub fn contains(&self, item: Item) -> (r: bool)
        ensures
            r == self@.contains(item),
    {
        contains_item(&self.items, item)
    }

    pub fn insert(&mut self, item: Item)
        requires
            old(self).wf(),
        ensures
            final(self).wf(),
            final(self)@ == old(self)@.insert(item),
    {
        if !contains_item(&self.items, item) {
            let ghost before = self.items@;
            self.items.push(item);
            assert forall|x: Item| #[trigger] self.items@.contains(x) <==> (before.contains(x) || x == item) by {
                lemma_push_contains(before, item, x);
            }
        }
        assert(self@ =~= old(self)@.insert(item));
    }

    /// The items, in the order they were added.
    pub fn iter(&self) -> (r: &Vec<Item>)
        ensures
            r@ == self.item_seq(),
    {
        &self.items
    }

    pub fn len(&self) -> (r: usize)
        requires
            self.wf(),
        ensures
            r == self@.len(),
            self@.finite(),
    {
        proof {
            self.items@.unique_seq_to_set();
        }
        self.items.len()
    }

    /// Set equality: the basis of state deduplication.
    pub fn same_items(&self, other: &CanonicalCollection) -> (r: bool)
        requires
            self.wf(),
            other.wf(),
        ensures
            r == (self@ == other@),
    {
        proof {
            self.items@.unique_seq_to_set();
            other.items@.unique_seq_to_set();
        }
        if self.items.len() != other.items.len() {
            return false;
        }
        let mut i: usize = 0;
        while i < self.items.len()
            invariant
                0 <= i <= self.items.len(),
                forall|k: int| 0 <= k < i ==> other.items@.contains(#[trigger] self.items@[k]),
            decreases self.items.len() - i,
        {
            if !contains_item(&other.items, self.items[i]) {
                assert(self@.contains(self.items@[i as int]));
                return false;
            }
            i = i + 1;
        }
        assert(self@.subset_of(other@)) by {
            assert forall|x: Item| self@.contains(x) implies other@.contains(x) by {
                let k = choose|k: int| 0 <= k < self.items@.len() && self.items@[k] == x;
            }
        }
        proof {
            vstd::set_lib::lemma_subset_equality(self@, other@);
        }
        true
    }
}

/// Whether `v` holds `it`.
fn contains_item(v: &Vec<Item>, it: Item) -> (r: bool)
    ensures
        r == v@.contains(it),
{
    let mut i: usize = 0;
    while i < v.len()
        invariant
            0 <= i <= v.len(),
            forall|j: int| 0 <= j < i ==> v@[j] != it,
        decreases v.len() - i,
    {
        if v[i] == it {
            return true;
        }
        i = i + 1;
    }
    false
}

/// The symbols after the one after the dot, then the lookahead.
fn remainder_vec(g: &Grammar, it: Item) -> (r: Vec<Symbol>)
    requires
        valid_item(g, it),
        it.placeholder < item_body(g, it).len(),
    ensures
        r@ == remainder(g, it),
{
    let body = g.rule(it.rule_id.id).body();
    assert(body@ == item_body(g, it));
    let n = body.len();
    assert(it.placeholder < n);
    let mut v: Vec<Symbol> = Vec::new();
    let mut k: usize = it.placeholder + 1;
    while k < body.len()
        invariant
            it.placeholder + 1 <= k <= body.len(),
            body@ == item_body(g, it),
            v@ == body@.subrange(it.placeholder + 1, k as int),
        decreases body.len() - k,
    {
        v.push(body[k]);
        k = k + 1;
        assert(v@ =~= body@.subrange(it.placeholder + 1, k as int));
    }
    v.push(it.lookahead);
    v
}

/// The lookaheads produced by closure are valid lookaheads.
proof fn lemma_expansion_valid(g: &Grammar, it: Item, new: Item)
    requires
        g.wf(),
        valid_item(g, it),
        expands_to(g, it, new),
    ensures
        valid_item(g, new),
{
    let w = remainder(g, it);
    let body = item_body(g, it);
    assert(rule_declared(g.num_terminals(), g.num_nonterminals(), g.rule_list()[it.rule_id.id as int]));
    lemma_first_seq_members(g.num_terminals(), g.first_relation(), w, new.lookahead);
    if !first_member_ok(g.num_terminals(), new.lookahead) {
        let k = choose|k: int| 0 <= k < w.len() && w[k] == new.lookahead;
        if k < w.len() - 1 {
            assert(w[k] == body[it.placeholder + 1 + k]);
            assert(declared(g.num_terminals(), g.num_nonterminals(), body[it.placeholder + 1 + k]));
        }
    }
}

/// Pushes onto `items` every item that `items[i]` expands to and that is
/// not there yet.
fn add_expansions(g: &Grammar, items: &mut Vec<Item>, i: usize)
    requires
        g.wf(),
        i < old(items)@.len(),
        old(items)@.no_duplicates(),
        forall|k: int| 0 <= k < old(items)@.len() ==> valid_item(g, #[trigger] old(items)@[k]),
    ensures
        final(items)@.no_duplicates(),
        forall|k: int| 0 <= k < final(items)@.len() ==> valid_item(g, #[trigger] final(items)@[k]),
        final(items)@.len() >= old(items)@.len(),
        forall|k: int| 0 <= k < old(items)@.len() ==> final(items)@[k] == old(items)@[k],
        forall|x: Item| #[trigger] final(items)@.contains(x) ==> old(items)@.contains(x) || expands_to(g, old(items)@[i as int], x),
        forall|x: Item| #[trigger] expands_to(g, old(items)@[i as int], x) ==> final(items)@.contains(x),
{
    let it = items[i];
    match it.nonterminal_at_placeholder(g) {
        None => {},
        Some(b) => {
            let w = remainder_vec(g, it);
            let fs = g.first(w.as_slice());
            let heads = g.rules_headed_by(b);
            let mut h: usize = 0;
            while h < heads.len()
                invariant
                    g.wf(),
                    it == old(items)@[i as int],
                    valid_item(g, it),
                    symbol_after_dot(g, it) == Some(b),
                    b.spec_is_nonterminal(),
                    fs@.to_set() == first_seq(g.first_relation(), remainder(g, it)),
                    forall|id: usize| #[trigger] heads@.contains(id) <==> (id < g.rule_list().len() && g.rule_list()[id as int].head == b),
                    0 <= h <= heads.len(),
                    items@.no_duplicates(),
                    forall|k: int| 0 <= k < items@.len() ==> valid_item(g, #[trigger] items@[k]),
                    items@.len() >= old(items)@.len(),
                    forall|k: int| 0 <= k < old(items)@.len() ==> items@[k] == old(items)@[k],
                    forall|x: Item| #[trigger] items@.contains(x) ==> old(items)@.contains(x) || expands_to(g, it, x),
                    forall|hh: int, k: int| 0 <= hh < h && 0 <= k < fs@.len() && fs@[k].spec_is_terminal()
                        ==> items@.contains(Item { rule_id: RuleId { id: #[trigger] heads@[hh] }, placeholder: 0, lookahead: #[trigger] fs@[k] }),
                decreases heads.len() - h,
            {
                let mut k: usize = 0;
                while k < fs.len()
                    invariant
                        g.wf(),
                        it == old(items)@[i as int],
                        valid_item(g, it),
                        symbol_after_dot(g, it) == Some(b),
                        b.spec_is_nonterminal(),
                        fs@.to_set() == first_seq(g.first_relation(), remainder(g, it)),
                        forall|id: usize| #[trigger] heads@.contains(id) <==> (id < g.rule_list().len() && g.rule_list()[id as int].head == b),
                        0 <= h < heads.len(),
                        0 <= k <= fs.len(),
                        items@.no_duplicates(),
                        forall|k: int| 0 <= k < items@.len() ==> valid_item(g, #[trigger] items@[k]),
                        items@.len() >= old(items)@.len(),
                        forall|k: int| 0 <= k < old(items)@.len() ==> items@[k] == old(items)@[k],
                        forall|x: Item| #[trigger] items@.contains(x) ==> old(items)@.contains(x) || expands_to(g, it, x),
                        forall|hh: int, k: int| 0 <= hh < h && 0 <= k < fs@.len() && fs@[k].spec_is_terminal()
                            ==> items@.contains(Item { rule_id: RuleId { id: #[trigger] heads@[hh] }, placeholder: 0, lookahead: #[trigger] fs@[k] }),
                        forall|kk: int| 0 <= kk < k && fs@[kk].spec_is_terminal()
                            ==> items@.contains(Item { rule_id: RuleId { id: heads@[h as int] }, placeholder: 0, lookahead: #[trigger] fs@[kk] }),
                    decreases fs.len() - k,
                {
                    let la = fs[k];
                    if la.is_terminal() {
                        let new = Item::new(heads[h], la);
                        proof {
                            assert(heads@.contains(heads@[h as int]));
                            assert(fs@.to_set().contains(la));
                            assert(expands_to(g, it, new));
                        }
                        if !contains_item(items, new) {
                            let ghost before = items@;
                            proof {
                                lemma_expansion_valid(g, it, new);
                            }
                            items.push(new);
                            assert forall|x: Item| #[trigger] items@.contains(x) <==> (before.contains(x) || x == new) by {
                                lemma_push_contains(before, new, x);
                            }
                        }
                    }
                    k = k + 1;
                }
                h = h + 1;
            }
            proof {
                assert forall|x: Item| #[trigger] expands_to(g, it, x) implies items@.contains(x) by {
                    assert(heads@.contains(x.rule_id.id));
                    let hh = choose|hh: int| 0 <= hh < heads@.len() && heads@[hh] == x.rule_id.id;
                    assert(fs@.to_set().contains(x.lookahead));
                    let kk = choose|kk: int| 0 <= kk < fs@.len() && fs@[kk] == x.lookahead;
                    assert(items@.contains(Item { rule_id: RuleId { id: heads@[hh] }, placeholder: 0, lookahead: fs@[kk] }));
                }
            }
        },
    }
}

/// Closure of an item set: the least set containing it to which closure
/// adds nothing.
pub fn closure(g: &Grammar, s0: CanonicalCollection) -> (r: CanonicalCollection)
    requires
        g.wf(),
        s0.wf(),
        valid_items(g, s0@),
    ensures
        r.wf(),
        valid_items(g, r@),
        is_closure_of(g, s0@, r@),
{
    let mut items = s0.items;
    let mut i: usize = 0;
    proof {
        assert(items@.to_set() == s0@);
        assert forall|k: int| 0 <= k < items@.len() implies valid_item(g, #[trigger] items@[k]) by {
            assert(s0@.contains(items@[k]));
        }
        lemma_valid_items_bound(g, items@);
    }
    while i < items.len()
        invariant
            g.wf(),
            items@.no_duplicates(),
            forall|k: int| 0 <= k < items@.len() ==> valid_item(g, #[trigger] items@[k]),
            s0@.subset_of(items@.to_set()),
            forall|t: Set<Item>| #[trigger] closed_items(g, t) && s0@.subset_of(t) ==> items@.to_set().subset_of(t),
            forall|j: int, x: Item| 0 <= j < i && #[trigger] expands_to(g, items@[j], x) ==> items@.contains(x),
            0 <= i <= items@.len(),
            item_universe(g).finite(),
            items@.len() <= item_universe(g).len(),
        decreases item_universe(g).len() - i,
    {
        let ghost before = items@;
        add_expansions(g, &mut items, i);
        proof {
            lemma_valid_items_bound(g, items@);
            assert forall|t: Set<Item>| #[trigger] closed_items(g, t) && s0@.subset_of(t) implies items@.to_set().subset_of(t) by {
                assert(before.to_set().contains(before[i as int]));
                assert forall|x: Item| items@.to_set().contains(x) implies t.contains(x) by {
                    if !before.contains(x) {
                        assert(expands_to(g, before[i as int], x));
                    }
                }
            }
            assert forall|j: int, x: Item| 0 <= j < i + 1 && #[trigger] expands_to(g, items@[j], x) implies items@.contains(x) by {
                assert(items@[j] == before[j]);
                if j < i {
                    assert(before.contains(x));
                    let m = choose|m: int| 0 <= m < before.len() && before[m] == x;
                    assert(items@[m] == x);
                }
            }
            assert forall|x: Item| s0@.contains(x) implies items@.to_set().contains(x) by {
                assert(before.to_set().contains(x));
                let m = choose|m: int| 0 <= m < before.len() && before[m] == x;
                assert(items@[m] == x);
            }
        }
        i = i + 1;
    }
    proof {
        assert forall|it: Item, x: Item| items@.to_set().contains(it) && #[trigger] expands_to(g, it, x) implies items@.to_set().contains(x) by {
            let j = choose|j: int| 0 <= j < items@.len() && items@[j] == it;
        }
        assert forall|it: Item| #[trigger] items@.to_set().contains(it) implies valid_item(g, it) by {
            let j = choose|j: int| 0 <= j < items@.len() && items@[j] == it;
        }
    }
    CanonicalCollection { items }
}

/// Goto: the closure of the items of `s` with `x` after the dot, advanced
/// over `x`. Empty when no item of `s` has `x` after the dot.
pub fn goto(g: &Grammar, s: &CanonicalCollection, x: Symbol) -> (r: CanonicalCollection)
    requires
        g.wf(),
        s.wf(),
        valid_items(g, s@),
    ensures
        r.wf(),
        valid_items(g, r@),
        is_closure_of(g, goto_kernel(g, s@, x), r@),
{
    let mut kernel = CanonicalCollection::new();
    let mut i: usize = 0;
    while i < s.items.len()
        invariant
            g.wf(),
            valid_items(g, s@),
            kernel.wf(),
            0 <= i <= s.items@.len(),
            kernel@ == Set::new(|n: Item| exists|j: int| 0 <= j < i && symbol_after_dot(g, s.items@[j]) == Some(x) && n == advanced(#[trigger] s.items@[j])),
        decreases s.items.len() - i,
    {
        let it = s.items[i];
        proof {
            assert(s@.contains(it));
        }
        let ghost before = kernel@;
        match it.symbol_at_placeholder(g) {
            Some(y) => {
                if y == x {
                    match it.advance_placeholder(g) {
                        Some(next) => {
                            kernel.insert(next);
                        },
                        None => {},
                    }
                }
            },
            None => {},
        }
        assert(kernel@ =~= Set::new(|n: Item| exists|j: int| 0 <= j < i + 1 && symbol_after_dot(g, s.items@[j]) == Some(x) && n == advanced(#[trigger] s.items@[j]))) by {
            assert forall|n: Item| #[trigger] kernel@.contains(n) == (exists|j: int| 0 <= j < i + 1 && symbol_after_dot(g, s.items@[j]) == Some(x) && n == advanced(#[trigger] s.items@[j])) by {
                if exists|j: int| 0 <= j < i + 1 && symbol_after_dot(g, s.items@[j]) == Some(x) && n == advanced(#[trigger] s.items@[j]) {
                    let j = choose|j: int| 0 <= j < i + 1 && symbol_after_dot(g, s.items@[j]) == Some(x) && n == advanced(#[trigger] s.items@[j]);
                    if j < i {
                        assert(before.contains(n));
                    }
                }
                if before.contains(n) {
                    let j = choose|j: int| 0 <= j < i && symbol_after_dot(g, s.items@[j]) == Some(x) && n == advanced(#[trigger] s.items@[j]);
                    assert(0 <= j < i + 1);
                }
            }
        }
        i = i + 1;
    }
    proof {
        assert(kernel@ =~= goto_kernel(g, s@, x)) by {
            assert forall|n: Item| #[trigger] kernel@.contains(n) == goto_kernel(g, s@, x).contains(n) by {
                if goto_kernel(g, s@, x).contains(n) {
                    let it = choose|it: Item| #[trigger] s@.contains(it) && symbol_after_dot(g, it) == Some(x) && n == advanced(it);
                    let j = choose|j: int| 0 <= j < s.items@.len() && s.items@[j] == it;
                }
                if kernel@.contains(n) {
                    let j = choose|j: int| 0 <= j < s.items@.len() && symbol_after_dot(g, s.items@[j]) == Some(x) && n == advanced(#[trigger] s.items@[j]);
                    assert(s@.contains(s.items@[j]));
                }
            }
        }
        assert forall|n: Item| #[trigger] kernel@.contains(n) implies valid_item(g, n) by {
            let it = choose|it: Item| #[trigger] s@.contains(it) && symbol_after_dot(g, it) == Some(x) && n == advanced(it);
        }
    }
    closure(g, kernel)
}

/// Closure is idempotent: closing a set that is already closed gives the
/// same set back, so closing the closure of any set changes nothing.
pub proof fn lemma_closure_idempotent(g: &Grammar, s0: Set<Item>, s: Set<Item>, s2: Set<Item>)
    requires
        is_closure_of(g, s0, s),
        is_closure_of(g, s, s2),
    ensures
        s2 == s,
{
    assert(closed_items(g, s) && s.subset_of(s));
    assert(s2.subset_of(s));
    assert(s2 =~= s);
}

/// The closure of a set that closure cannot grow is the set itself.
pub proof fn lemma_closure_of_closed(g: &Grammar, s: Set<Item>, r: Set<Item>)
    requires
        closed_items(g, s),
        is_closure_of(g, s, r),
    ensures
        r == s,
{
    assert(closed_items(g, s) && s.subset_of(s));
    assert(r.subset_of(s));
    assert(r =~= s);
}

/// Goto is deterministic: two results of goto on the same state and
/// symbol are the same set.
pub proof fn lemma_goto_deterministic(g: &Grammar, s: Set<Item>, x: Symbol, r1: Set<Item>, r2: Set<Item>)
    requires
        is_closure_of(g, goto_kernel(g, s, x), r1),
        is_closure_of(g, goto_kernel(g, s, x), r2),
    ensures
        r1 == r2,
{
    assert(closed_items(g, r2) && goto_kernel(g, s, x).subset_of(r2));
    assert(closed_items(g, r1) && goto_kernel(g, s, x).subset_of(r1));
    assert(r1.subset_of(r2));
    assert(r2.subset_of(r1));
    assert(r1 =~= r2);
}

/// The closure of a set is empty exactly when the set is.
pub proof fn lemma_closure_empty(g: &Grammar, s0: Set<Item>, s: Set<Item>)
    requires
        is_closure_of(g, s0, s),
    ensures
        (s == Set::<Item>::empty()) == (s0 == Set::<Item>::empty()),
{
    if s0 == Set::<Item>::empty() {
        assert(closed_items(g, Set::<Item>::empty()));
        assert(s0.subset_of(Set::<Item>::empty()));
        assert(s =~= Set::<Item>::empty());
    }
    if s == Set::<Item>::empty() {
        assert(s0 =~= Set::<Item>::empty());
    }
}

} // verus!
