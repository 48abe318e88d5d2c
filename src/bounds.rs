//! Counting facts that bound the fixed-point loops of the construction.
use vstd::prelude::*;
use vstd::set_lib::{lemma_int_range, lemma_len_subset, lemma_map_size, lemma_map_size_bound, set_int_range};

verus! {

/// `2^n`.
pub open spec fn exp2(n: nat) -> nat
    decreases n,
{
    if n == 0 {
        1
    } else {
        2 * exp2((n - 1) as nat)
    }
}

pub proof fn lemma_exp2_positive(n: nat)
    ensures
        exp2(n) >= 1,
    decreases n,
{
    if n > 0 {
        lemma_exp2_positive((n - 1) as nat);
    }
}

/// A duplicate-free sequence whose elements all lie in a finite set is no
/// longer than that set.
pub proof fn lemma_distinct_within<A>(s: Seq<A>, u: Set<A>)
    requires
        s.no_duplicates(),
        u.finite(),
        forall|i: int| 0 <= i < s.len() ==> u.contains(#[trigger] s[i]),
    ensures
        s.len() <= u.len(),
{
    s.unique_seq_to_set();
    assert(s.to_set().subset_of(u));
    lemma_len_subset(s.to_set(), u);
}

/// The image of `0..d` under any function is finite and has at most `d` elements.
pub proof fn lemma_range_image<A>(d: int, f: spec_fn(int) -> A)
    requires
        d >= 0,
    ensures
        set_int_range(0, d).map(f).finite(),
        set_int_range(0, d).map(f).len() <= d,
{
    lemma_int_range(0, d);
    lemma_map_size_bound(set_int_range(0, d), set_int_range(0, d).map(f), f);
}

/// A finite family of subsets of a finite set `u` has at most `2^|u|` members.
pub proof fn lemma_subset_family<A>(fam: Set<Set<A>>, u: Set<A>)
    requires
        fam.finite(),
        u.finite(),
        forall|s: Set<A>| #[trigger] fam.contains(s) ==> s.subset_of(u),
    ensures
        fam.len() <= exp2(u.len()),
    decreases u.len(),
{
    broadcast use vstd::set::group_set_axioms, vstd::set_lib::group_set_properties;
    
    if u.len() == 0 {
        assert(u =~= Set::empty());
        assert(fam.subset_of(set![Set::<A>::empty()])) by {
            assert forall|s: Set<A>| fam.contains(s) implies s == Set::<A>::empty() by {
                assert(s =~= Set::<A>::empty());
            }
        }
        lemma_len_subset(fam, set![Set::<A>::empty()]);
        assert(set![Set::<A>::empty()].len() == 1);
        assert(exp2(0) == 1);
    } else {
        let a = u.choose();
        let rest = u.remove(a);
        let without = fam.filter(|s: Set<A>| !s.contains(a));
        let with = fam.filter(|s: Set<A>| s.contains(a));
        let drop_a = |s: Set<A>| s.remove(a);
        let shrunk = with.map(drop_a);
        assert forall|s: Set<A>| #[trigger] without.contains(s) implies s.subset_of(rest) by {}
        lemma_subset_family(without, rest);
        assert(vstd::relations::injective_on(drop_a, with)) by {
            assert forall|x: Set<A>, y: Set<A>|
                with.contains(x) && with.contains(y) && #[trigger] drop_a(x) == #[trigger] drop_a(y)
                implies x == y by {
                assert(x =~= drop_a(x).insert(a));
                assert(y =~= drop_a(y).insert(a));
            }
        }
        lemma_map_size(with, shrunk, drop_a);
        assert forall|s: Set<A>| #[trigger] shrunk.contains(s) implies s.subset_of(rest) by {
            let w = choose|w: Set<A>| with.contains(w) && drop_a(w) == s;
        }
        lemma_subset_family(shrunk, rest);
        assert(fam =~= without.union(with));
        assert(without.disjoint(with));
        vstd::set_lib::lemma_set_disjoint_lens(without, with);
        assert(rest.len() == u.len() - 1);
        assert(exp2(u.len()) == 2 * exp2(rest.len()));
        assert(fam.len() == without.len() + with.len());
    }
}

/// What a sequence holds after a push.
pub broadcast proof fn lemma_push_contains<A>(s: Seq<A>, y: A, z: A)
    ensures
        #[trigger] s.push(y).contains(z) == (s.contains(z) || z == y),
{
    if s.contains(z) {
        let k = choose|k: int| 0 <= k < s.len() && s[k] == z;
        assert(s.push(y)[k] == z);
    }
    if z == y {
        assert(s.push(y)[s.len() as int] == y);
    }
    if s.push(y).contains(z) {
        let k = choose|k: int| 0 <= k < s.len() + 1 && s.push(y)[k] == z;
        if k < s.len() {
            assert(s[k] == z);
        }
    }
}

} // verus!
