use vstd::arithmetic::power2::{lemma_pow2_unfold, pow2};
use vstd::prelude::*;
use vstd::relations::injective_on;
use vstd::set_lib::{lemma_len_subset, lemma_map_size, lemma_set_disjoint_lens};

verus! {

/// Whether `x` occurs in `v`.
pub fn contains_state(v: &Vec<usize>, x: usize) -> (r: bool)
    ensures
        r == v@.contains(x),
{
    let mut i: usize = 0;
    while i < v.len()
        invariant
            i <= v.len(),
            forall|k: int| 0 <= k < i ==> v@[k] != x,
        decreases v.len() - i,
    {
        if v[i] == x {
            return true;
        }
        i += 1;
    }
    false
}

/// Appends `x` to `v` unless it is already there; says whether it was appended.
pub fn insert_state(v: &mut Vec<usize>, x: usize) -> (r: bool)
    ensures
        r == !old(v)@.contains(x),
        final(v)@ == (if r {
            old(v)@.push(x)
        } else {
            old(v)@
        }),
        old(v)@.no_duplicates() ==> final(v)@.no_duplicates(),
{
    if contains_state(v, x) {
        false
    } else {
        v.push(x);
        true
    }
}

/// Appends to `r` each state of `c` that it lacks.
pub fn extend_states(r: &mut Vec<usize>, c: &Vec<usize>)
    requires
        old(r)@.no_duplicates(),
    ensures
        final(r)@.no_duplicates(),
        forall|t: usize| #[trigger] final(r)@.contains(t) <==> old(r)@.contains(t) || c@.contains(t),
{
    let mut i: usize = 0;
    while i < c.len()
        invariant
            i <= c@.len(),
            r@.no_duplicates(),
            forall|t: usize| #[trigger]
                r@.contains(t) <==> old(r)@.contains(t) || exists|k: int| 0 <= k < i && c@[k] == t,
        decreases c@.len() - i,
    {
        let ghost before = r@;
        let x = c[i];
        insert_state(r, x);
        proof {
            if r@.len() > before.len() {
                assert(r@[before.len() as int] == x);
            }
            assert forall|t: usize| #[trigger]
                r@.contains(t) <==> old(r)@.contains(t) || exists|k: int| 0 <= k < i + 1 && c@[k] == t by {
                if r@.contains(t) && !before.contains(t) {
                    assert(c@[i as int] == t);
                }
                if before.contains(t) {
                    let j = choose|j: int| 0 <= j < before.len() && before[j] == t;
                    assert(r@[j] == t);
                }
                if exists|k: int| 0 <= k < i + 1 && c@[k] == t {
                    let k = choose|k: int| 0 <= k < i + 1 && c@[k] == t;
                    if k < i {
                        assert(before.contains(t));
                    }
                }
            }
        }
        i += 1;
    }
}

/// Whether `a` and `b` hold the same states, in any order.
pub fn same_states(a: &Vec<usize>, b: &Vec<usize>) -> (r: bool)
    ensures
        r == (a@.to_set() == b@.to_set()),
{
    let mut i: usize = 0;
    while i < a.len()
        invariant
            i <= a@.len(),
            forall|k: int| 0 <= k < i ==> b@.contains(#[trigger] a@[k]),
        decreases a@.len() - i,
    {
        if !contains_state(b, a[i]) {
            proof {
                assert(a@.to_set().contains(a@[i as int]));
            }
            return false;
        }
        i += 1;
    }
    let mut j: usize = 0;
    while j < b.len()
        invariant
            j <= b@.len(),
            forall|k: int| 0 <= k < a@.len() ==> b@.contains(#[trigger] a@[k]),
            forall|k: int| 0 <= k < j ==> a@.contains(#[trigger] b@[k]),
        decreases b@.len() - j,
    {
        if !contains_state(a, b[j]) {
            proof {
                assert(b@.to_set().contains(b@[j as int]));
            }
            return false;
        }
        j += 1;
    }
    proof {
        assert forall|x: usize| a@.to_set().contains(x) == b@.to_set().contains(x) by {
            if a@.contains(x) {
                let k = choose|k: int| 0 <= k < a@.len() && a@[k] == x;
                assert(b@.contains(a@[k]));
            }
            if b@.contains(x) {
                let k = choose|k: int| 0 <= k < b@.len() && b@[k] == x;
                assert(a@.contains(b@[k]));
            }
        }
        assert(a@.to_set() =~= b@.to_set());
    }
    true
}

/// A family of distinct subsets of a finite set `u` has at most 2^|u| members.
pub proof fn lemma_family_bound(u: Set<usize>, c: Set<Set<usize>>)
    requires
        u.finite(),
        c.finite(),
        forall|s: Set<usize>| #[trigger] c.contains(s) ==> s.subset_of(u),
    ensures
        c.len() <= pow2(u.len()),
    decreases u.len(),
{
    if u.len() == 0 {
        assert(u =~= Set::<usize>::empty());
        let single = set![Set::<usize>::empty()];
        assert forall|s: Set<usize>| #[trigger] c.contains(s) implies single.contains(s) by {
            assert(s =~= Set::<usize>::empty());
        }
        lemma_len_subset(c, single);
        assert(pow2(0) == 1) by {
            vstd::arithmetic::power2::lemma2_to64();
        }
    } else {
        let x = u.choose();
        let u2 = u.remove(x);
        let c0 = c.filter(|s: Set<usize>| !s.contains(x));
        let c1 = c.filter(|s: Set<usize>| s.contains(x));
        let f = |s: Set<usize>| s.remove(x);
        let c1m = c1.map(f);
        assert forall|s: Set<usize>| #[trigger] c0.contains(s) implies s.subset_of(u2) by {
            assert(c.contains(s));
        }
        lemma_family_bound(u2, c0);
        assert forall|a1: Set<usize>, a2: Set<usize>|
            c1.contains(a1) && c1.contains(a2) && #[trigger] f(a1) == #[trigger] f(a2) implies a1 == a2 by {
            assert forall|e: usize| a1.contains(e) == a2.contains(e) by {
                if e != x {
                    assert(f(a1).contains(e) == a1.contains(e));
                    assert(f(a2).contains(e) == a2.contains(e));
                }
            }
            assert(a1 =~= a2);
        }
        assert(injective_on(f, c1));
        lemma_map_size(c1, c1m, f);
        assert forall|s: Set<usize>| #[trigger] c1m.contains(s) implies s.subset_of(u2) by {
            let t = choose|t: Set<usize>| c1.contains(t) && f(t) == s;
            assert(c.contains(t));
        }
        lemma_family_bound(u2, c1m);
        assert(c =~= c0 + c1);
        assert(c0.disjoint(c1));
        lemma_set_disjoint_lens(c0, c1);
        lemma_pow2_unfold(u.len());
    }
}

} // verus!
