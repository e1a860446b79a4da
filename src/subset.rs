use crate::action::Action;
use crate::action::action_eq;
use crate::dfa::{deterministic, lookup, DEdge, Dfa};
use crate::nfa::Nfa;
use crate::sets::{extend_states, lemma_family_bound, same_states};
use crate::state_machine::StateMachine;
use vstd::arithmetic::power2::pow2;
use vstd::prelude::*;

verus! {

/// The states reached from some state of `s` by one or more epsilon moves.
pub open spec fn set_closure(nfa: Nfa, s: Set<usize>) -> Set<usize> {
    Set::new(|t: usize| exists|u: usize| s.contains(u) && nfa.eps_reaches(u, t))
}

/// The states reached from some state of `s` by one edge labelled exactly `a`.
pub open spec fn set_move(nfa: Nfa, s: Set<usize>, a: Action) -> Set<usize> {
    Set::new(|t: usize| exists|u: usize| s.contains(u) && nfa.edge(u, Some(a), t))
}

/// `s` together with its epsilon closure.
pub open spec fn eclose(nfa: Nfa, s: Set<usize>) -> Set<usize> {
    s + set_closure(nfa, s)
}

/// The state-set that follows `s` on `a`: its epsilon closure, with what that
/// closure reaches on `a`.
pub open spec fn successor(nfa: Nfa, s: Set<usize>, a: Action) -> Set<usize> {
    eclose(nfa, s) + set_move(nfa, eclose(nfa, s), a)
}

/// The states that any state-set can hold: the start and every edge target.
pub open spec fn universe(nfa: Nfa) -> Set<usize> {
    set![nfa.start()] + nfa.targets().to_set()
}

pub open spec fn views(sets: Seq<Vec<usize>>) -> Seq<Set<usize>> {
    sets.map_values(|v: Vec<usize>| v@.to_set())
}

/// The edge `e` joins two of `sets`, on a label of the alphabet, to the set that
/// follows its source on that label.
pub open spec fn edge_follows(nfa: Nfa, sets: Seq<Set<usize>>, e: DEdge) -> bool {
    &&& e.0 < sets.len()
    &&& e.2 < sets.len()
    &&& nfa.alphabet().contains(e.1)
    &&& sets[e.2 as int] == successor(nfa, sets[e.0 as int], e.1)
}

/// `sets[j]` is the set that follows some earlier one on some label.
pub open spec fn follows_earlier(nfa: Nfa, sets: Seq<Set<usize>>, j: int) -> bool {
    exists|i: int, k: int|
        0 <= i < j && 0 <= k < nfa.alphabet().len() && sets[j] == #[trigger] successor(nfa, sets[i], nfa.alphabet()[k])
}

/// Some edge of `edges` leaves `i` on the label `a`.
pub open spec fn has_edge(edges: Seq<DEdge>, i: int, a: Action) -> bool {
    exists|q: int| 0 <= q < edges.len() && (#[trigger] edges[q]).0 == i && edges[q].1 == a
}

/// `dfa` is the subset construction of `nfa`, state `i` standing for the
/// state-set `sets[i]`: state 0 is the start with its epsilon closure; every other set
/// follows an earlier one on a label; each state has one edge per label of the
/// alphabet, to the state of the set that follows; a state accepts exactly when
/// its set holds an accepting state of `nfa`.
pub open spec fn subset_construction(nfa: Nfa, dfa: Dfa, sets: Seq<Set<usize>>) -> bool {
    let a = nfa.alphabet();
    &&& sets.len() >= 1
    &&& sets[0] == eclose(nfa, set![nfa.start()])
    &&& forall|i: int, j: int| 0 <= i < j < sets.len() ==> sets[i] != sets[j]
    &&& forall|j: int| 0 < j < sets.len() ==> #[trigger] follows_earlier(nfa, sets, j)
    &&& dfa.start() == 0
    &&& forall|q: int| 0 <= q < dfa.edges().len() ==> edge_follows(nfa, sets, #[trigger] dfa.edges()[q])
    &&& forall|i: int, k: int|
        0 <= i < sets.len() && 0 <= k < a.len() ==> #[trigger] has_edge(dfa.edges(), i, a[k])
    &&& forall|x: usize|
        #[trigger] dfa.ends().contains(x) <==> x < sets.len() && exists|t: usize|
            sets[x as int].contains(t) && nfa.ends().contains(t)
    &&& dfa.states() == Seq::new(sets.len(), |i: int| i as usize)
    &&& forall|i: int| 0 <= i < sets.len() ==> (#[trigger] sets[i]).subset_of(universe(nfa))
}

/// The states reached from any state of `set` by one or more epsilon moves.
fn closure(nfa: &Nfa, set: &Vec<usize>) -> (r: Vec<usize>)
    requires
        nfa.wf(),
    ensures
        r@.no_duplicates(),
        r@.to_set() == set_closure(*nfa, set@.to_set()),
        forall|t: usize| #[trigger] r@.contains(t) ==> nfa.targets().contains(t),
{
    let mut result: Vec<usize> = Vec::new();
    let mut i: usize = 0;
    while i < set.len()
        invariant
            nfa.wf(),
            i <= set@.len(),
            result@.no_duplicates(),
            forall|t: usize| #[trigger] result@.contains(t) ==> nfa.targets().contains(t),
            forall|t: usize| #[trigger]
                result@.contains(t) <==> exists|k: int| 0 <= k < i && nfa.eps_reaches(set@[k], t),
        decreases set@.len() - i,
    {
        let c = nfa.closure(&set[i]);
        extend_states(&mut result, &c);
        proof {
            assert forall|t: usize| #[trigger]
                result@.contains(t) <==> exists|k: int| 0 <= k < i + 1 && nfa.eps_reaches(set@[k], t) by {
                if exists|k: int| 0 <= k < i + 1 && nfa.eps_reaches(set@[k], t) {
                    let k = choose|k: int| 0 <= k < i + 1 && nfa.eps_reaches(set@[k], t);
                    if k == i {
                        assert(c@.contains(t));
                    }
                }
            }
        }
        i += 1;
    }
    proof {
        assert forall|t: usize| result@.to_set().contains(t) == set_closure(*nfa, set@.to_set()).contains(t) by {
            if set_closure(*nfa, set@.to_set()).contains(t) {
                let u = choose|u: usize| set@.to_set().contains(u) && nfa.eps_reaches(u, t);
                let k = choose|k: int| 0 <= k < set@.len() && set@[k] == u;
                assert(nfa.eps_reaches(set@[k], t));
            }
            if result@.contains(t) {
                let k = choose|k: int| 0 <= k < set@.len() && nfa.eps_reaches(set@[k], t);
                assert(set@.to_set().contains(set@[k]));
            }
        }
        assert(result@.to_set() =~= set_closure(*nfa, set@.to_set()));
    }
    result
}

/// The states reached from any state of `set` by one edge labelled exactly `path`.
fn move_t(nfa: &Nfa, set: &Vec<usize>, path: &Action) -> (r: Vec<usize>)
    requires
        nfa.wf(),
    ensures
        r@.no_duplicates(),
        r@.to_set() == set_move(*nfa, set@.to_set(), *path),
        forall|t: usize| #[trigger] r@.contains(t) ==> nfa.targets().contains(t),
{
    let mut result: Vec<usize> = Vec::new();
    let mut i: usize = 0;
    while i < set.len()
        invariant
            nfa.wf(),
            i <= set@.len(),
            result@.no_duplicates(),
            forall|t: usize| #[trigger] result@.contains(t) ==> nfa.targets().contains(t),
            forall|t: usize| #[trigger]
                result@.contains(t) <==> exists|k: int| 0 <= k < i && nfa.edge(set@[k], Some(*path), t),
        decreases set@.len() - i,
    {
        let c = nfa.move_t(&set[i], path);
        proof {
            assert forall|t: usize| #[trigger] c@.contains(t) implies nfa.targets().contains(t) by {
                nfa.lemma_edge_target(set@[i as int], Some(*path), t);
            }
        }
        extend_states(&mut result, &c);
        proof {
            assert forall|t: usize| #[trigger]
                result@.contains(t) <==> exists|k: int| 0 <= k < i + 1 && nfa.edge(set@[k], Some(*path), t) by {
                if exists|k: int| 0 <= k < i + 1 && nfa.edge(set@[k], Some(*path), t) {
                    let k = choose|k: int| 0 <= k < i + 1 && nfa.edge(set@[k], Some(*path), t);
                    if k == i {
                        assert(c@.contains(t));
                    }
                }
            }
        }
        i += 1;
    }
    proof {
        assert forall|t: usize| result@.to_set().contains(t) == set_move(*nfa, set@.to_set(), *path).contains(t) by {
            if set_move(*nfa, set@.to_set(), *path).contains(t) {
                let u = choose|u: usize| set@.to_set().contains(u) && nfa.edge(u, Some(*path), t);
                let k = choose|k: int| 0 <= k < set@.len() && set@[k] == u;
                assert(nfa.edge(set@[k], Some(*path), t));
            }
            if result@.contains(t) {
                let k = choose|k: int| 0 <= k < set@.len() && nfa.edge(set@[k], Some(*path), t);
                assert(set@.to_set().contains(set@[k]));
            }
        }
        assert(result@.to_set() =~= set_move(*nfa, set@.to_set(), *path));
    }
    result
}

/// `s` with its epsilon closure.
fn eclose_exec(nfa: &Nfa, s: &Vec<usize>) -> (r: Vec<usize>)
    requires
        nfa.wf(),
    ensures
        r@.no_duplicates(),
        r@.to_set() == eclose(*nfa, s@.to_set()),
        forall|t: usize| #[trigger] r@.contains(t) ==> s@.contains(t) || nfa.targets().contains(t),
{
    let c = closure(nfa, s);
    let mut r: Vec<usize> = Vec::new();
    extend_states(&mut r, s);
    extend_states(&mut r, &c);
    proof {
        assert forall|t: usize| r@.to_set().contains(t) == eclose(*nfa, s@.to_set()).contains(t) by {
            assert(c@.contains(t) == c@.to_set().contains(t));
        }
        assert(r@.to_set() =~= eclose(*nfa, s@.to_set()));
    }
    r
}

/// The index of the state-set of `sets` that holds the same states as `c`.
fn find_set(sets: &Vec<Vec<usize>>, c: &Vec<usize>) -> (r: Option<usize>)
    ensures
        r is Some ==> r->Some_0 < sets@.len() && views(sets@)[r->Some_0 as int] == c@.to_set(),
        r is None ==> forall|j: int| 0 <= j < sets@.len() ==> views(sets@)[j] != c@.to_set(),
{
    let mut j: usize = 0;
    while j < sets.len()
        invariant
            j <= sets@.len(),
            forall|k: int| 0 <= k < j ==> views(sets@)[k] != c@.to_set(),
        decreases sets@.len() - j,
    {
        if same_states(&sets[j], c) {
            return Some(j);
        }
        j += 1;
    }
    None
}

/// Whether `set` holds an accepting state of `nfa`.
fn any_end(nfa: &Nfa, set: &Vec<usize>) -> (r: bool)
    requires
        nfa.wf(),
    ensures
        r == exists|t: usize| set@.to_set().contains(t) && nfa.ends().contains(t),
{
    let mut i: usize = 0;
    while i < set.len()
        invariant
            nfa.wf(),
            i <= set@.len(),
            forall|k: int| 0 <= k < i ==> !nfa.ends().contains(#[trigger] set@[k]),
        decreases set@.len() - i,
    {
        if nfa.is_end(&set[i]) {
            proof {
                assert(set@.to_set().contains(set@[i as int]));
            }
            return true;
        }
        i += 1;
    }
    proof {
        assert forall|t: usize| !(set@.to_set().contains(t) && nfa.ends().contains(t)) by {
            if set@.to_set().contains(t) {
                let k = choose|k: int| 0 <= k < set@.len() && set@[k] == t;
                assert(!nfa.ends().contains(set@[k]));
            }
        }
    }
    false
}

/// What holds of the work done so far, with states before `top` expanded and,
/// of state `top`, the labels before `k`.
spec fn progress(
    nfa: Nfa,
    sets: Seq<Vec<usize>>,
    trans: Seq<DEdge>,
    kidx: Seq<int>,
    top: int,
    k: int,
) -> bool {
    &&& found_sets(nfa, sets)
    &&& recorded(nfa, sets, trans, kidx, top, k)
    &&& covered(nfa, trans, top, k)
}

/// The state-sets found so far are distinct, within the universe, and each but
/// the first follows an earlier one.
spec fn found_sets(nfa: Nfa, sets: Seq<Vec<usize>>) -> bool {
    let v = views(sets);
    let a = nfa.alphabet();
    &&& v.len() >= 1
    &&& v[0] == eclose(nfa, set![nfa.start()])
    &&& forall|i: int, j: int| 0 <= i < j < v.len() ==> v[i] != v[j]
    &&& forall|i: int| 0 <= i < v.len() ==> (#[trigger] v[i]).subset_of(universe(nfa))
    &&& forall|j: int| 0 < j < v.len() ==> #[trigger] follows_earlier(nfa, v, j)
}

/// Each recorded transition leads to the set that follows its source on its
/// label, and they are recorded in order of source, then of label.
spec fn recorded(
    nfa: Nfa,
    sets: Seq<Vec<usize>>,
    trans: Seq<DEdge>,
    kidx: Seq<int>,
    top: int,
    k: int,
) -> bool {
    let v = views(sets);
    let a = nfa.alphabet();
    &&& trans.len() == kidx.len()
    &&& forall|q: int| 0 <= q < trans.len() ==> good_edge(nfa, v, #[trigger] trans[q], kidx[q], top, k)
    &&& forall|q1: int, q2: int|
        0 <= q1 < q2 < trans.len() ==> (#[trigger] trans[q1]).0 < (#[trigger] trans[q2]).0 || (
        trans[q1].0 == trans[q2].0 && kidx[q1] < kidx[q2])
}

/// A recorded transition `e` on the `kq`-th label.
spec fn good_edge(nfa: Nfa, v: Seq<Set<usize>>, e: DEdge, kq: int, top: int, k: int) -> bool {
    let a = nfa.alphabet();
    &&& 0 <= kq < a.len()
    &&& e.1 == a[kq]
    &&& e.0 <= top
    &&& e.2 < v.len()
    &&& v[e.2 as int] == successor(nfa, v[e.0 as int], e.1)
    &&& (e.0 == top ==> kq < k)
}

/// Every expanded state has a transition on every label.
spec fn covered(nfa: Nfa, trans: Seq<DEdge>, top: int, k: int) -> bool {
    let a = nfa.alphabet();
    &&& forall|i: int, kk: int| 0 <= i < top && 0 <= kk < a.len() ==> #[trigger] has_edge(trans, i, a[kk])
    &&& forall|kk: int| 0 <= kk < k ==> #[trigger] has_edge(trans, top, a[kk])
}

proof fn lemma_views_push(sets: Seq<Vec<usize>>, x: Vec<usize>)
    ensures
        views(sets.push(x)) == views(sets).push(x@.to_set()),
{
    assert(views(sets.push(x)) =~= views(sets).push(x@.to_set()));
}

proof fn lemma_has_edge_push(trans: Seq<DEdge>, e: DEdge, i: int, a: Action)
    requires
        has_edge(trans, i, a),
    ensures
        has_edge(trans.push(e), i, a),
{
    let q = choose|q: int| 0 <= q < trans.len() && (#[trigger] trans[q]).0 == i && trans[q].1 == a;
    assert(trans.push(e)[q] == trans[q]);
}

/// Distinct state-sets within the universe are at most 2^|universe| in number.
proof fn lemma_sets_bound(nfa: Nfa, v: Seq<Set<usize>>)
    requires
        forall|i: int, j: int| 0 <= i < j < v.len() ==> v[i] != v[j],
        forall|i: int| 0 <= i < v.len() ==> (#[trigger] v[i]).subset_of(universe(nfa)),
    ensures
        v.len() <= pow2(universe(nfa).len()),
{
    broadcast use vstd::seq_lib::seq_to_set_is_finite;

    assert(v.no_duplicates());
    v.unique_seq_to_set();
    assert forall|s: Set<usize>| #[trigger] v.to_set().contains(s) implies s.subset_of(universe(nfa)) by {
        let i = choose|i: int| 0 <= i < v.len() && v[i] == s;
        assert(v[i].subset_of(universe(nfa)));
    }
    lemma_family_bound(universe(nfa), v.to_set());
}

/// The states that `nfa` holds after consuming the labels `w` one by one, each
/// matched exactly: epsilon moves are taken before each label, none after the last.
pub open spec fn nfa_run(nfa: Nfa, w: Seq<Action>) -> Set<usize>
    decreases w.len(),
{
    if w.len() == 0 {
        eclose(nfa, set![nfa.start()])
    } else {
        set_move(nfa, eclose(nfa, nfa_run(nfa, w.drop_last())), w.last())
    }
}

/// The state that `dfa` reaches on `w`, if every step has a transition.
pub open spec fn dfa_run(dfa: Dfa, w: Seq<Action>) -> Option<usize>
    decreases w.len(),
{
    if w.len() == 0 {
        Some(dfa.start())
    } else {
        match dfa_run(dfa, w.drop_last()) {
            Some(d) => dfa.step(d, w.last()),
            None => None,
        }
    }
}

/// The indices of the state-sets of `sets` that hold an accepting state of `nfa`.
fn accepting_ids(nfa: &Nfa, sets: &Vec<Vec<usize>>) -> (r: Vec<usize>)
    requires
        nfa.wf(),
    ensures
        r@.no_duplicates(),
        forall|x: usize| #[trigger]
            r@.contains(x) <==> x < sets@.len() && exists|t: usize|
                views(sets@)[x as int].contains(t) && nfa.ends().contains(t),
{
    let ghost v = views(sets@);
    let mut ends: Vec<usize> = Vec::new();
    let mut i: usize = 0;
    while i < sets.len()
        invariant
            nfa.wf(),
            v == views(sets@),
            i <= sets@.len(),
            ends@.no_duplicates(),
            forall|x: usize| #[trigger]
                ends@.contains(x) <==> x < i && exists|t: usize|
                    v[x as int].contains(t) && nfa.ends().contains(t),
        decreases sets@.len() - i,
    {
        let ghost before = ends@;
        let hit = any_end(nfa, &sets[i]);
        proof {
            assert(v[i as int] == sets@[i as int]@.to_set());
        }
        if hit {
            proof {
                assert(!before.contains(i));
            }
            ends.push(i);
        }
        proof {
            assert forall|x: usize| #[trigger]
                ends@.contains(x) <==> x < i + 1 && exists|t: usize|
                    v[x as int].contains(t) && nfa.ends().contains(t) by {
                if ends@.contains(x) {
                    let j = choose|j: int| 0 <= j < ends@.len() && ends@[j] == x;
                    if j < before.len() {
                        assert(before[j] == x);
                        assert(before.contains(x));
                    } else {
                        assert(x == i);
                    }
                }
                if x < i && before.contains(x) {
                    let j = choose|j: int| 0 <= j < before.len() && before[j] == x;
                    assert(ends@[j] == x);
                }
                if x == i && hit {
                    assert(ends@[before.len() as int] == x);
                }
            }
        }
        i += 1;
    }
    ends
}

/// The list `0, 1, ..., n - 1`.
fn id_list(n: usize) -> (r: Vec<usize>)
    ensures
        r@ == Seq::new(n as nat, |j: int| j as usize),
{
    let mut all: Vec<usize> = Vec::new();
    let mut i: usize = 0;
    while i < n
        invariant
            i <= n,
            all@ == Seq::new(i as nat, |j: int| j as usize),
        decreases n - i,
    {
        all.push(i);
        proof {
            assert(all@ =~= Seq::new((i + 1) as nat, |j: int| j as usize));
        }
        i += 1;
    }
    all
}

/// In a deterministic table, a probe with an edge's own label finds that edge.
proof fn lemma_lookup_exact(edges: Seq<DEdge>, q: int)
    requires
        deterministic(edges),
        0 <= q < edges.len(),
    ensures
        lookup(edges, edges[q].0, edges[q].1) == Some(edges[q].2),
    decreases edges.len(),
{
    if q > 0 {
        if edges[0].0 == edges[q].0 {
            assert(!action_eq(edges[0].1, edges[q].1));
        }
        let rest = edges.drop_first();
        assert forall|i: int| 0 <= i < rest.len() implies (#[trigger] rest[i]).1.well_formed() by {
            assert(rest[i] == edges[i + 1]);
        }
        assert forall|i: int, j: int|
            0 <= i < j < rest.len() && (#[trigger] rest[i]).0 == (#[trigger] rest[j]).0 implies !action_eq(rest[i].1, rest[j].1) by {
            assert(rest[i] == edges[i + 1]);
            assert(rest[j] == edges[j + 1]);
        }
        assert(rest[q - 1] == edges[q]);
        lemma_lookup_exact(rest, q - 1);
    }
}

proof fn lemma_eclose_mono(nfa: Nfa, a: Set<usize>, b: Set<usize>)
    requires
        a.subset_of(b),
    ensures
        eclose(nfa, a).subset_of(eclose(nfa, b)),
{
    assert forall|t: usize| eclose(nfa, a).contains(t) implies eclose(nfa, b).contains(t) by {
        if !a.contains(t) {
            let u = choose|u: usize| a.contains(u) && nfa.eps_reaches(u, t);
            assert(b.contains(u));
            assert(set_closure(nfa, b).contains(t));
        }
    }
}

/// Every state that `nfa` holds after `w` is in the state-set of the state that
/// the subset construction reaches on `w`, for `w` made of labels of the alphabet.
pub proof fn lemma_run_covered(nfa: Nfa, dfa: Dfa, sets: Seq<Set<usize>>, w: Seq<Action>)
    requires
        nfa.wf(),
        dfa.wf(),
        subset_construction(nfa, dfa, sets),
        forall|i: int| 0 <= i < w.len() ==> nfa.alphabet().contains(#[trigger] w[i]),
    ensures
        dfa_run(dfa, w) is Some,
        dfa_run(dfa, w)->Some_0 < sets.len(),
        nfa_run(nfa, w).subset_of(sets[dfa_run(dfa, w)->Some_0 as int]),
    decreases w.len(),
{
    if w.len() > 0 {
        let w0 = w.drop_last();
        let a = w.last();
        assert forall|i: int| 0 <= i < w0.len() implies nfa.alphabet().contains(#[trigger] w0[i]) by {
            assert(w0[i] == w[i]);
        }
        lemma_run_covered(nfa, dfa, sets, w0);
        let d = dfa_run(dfa, w0)->Some_0;
        assert(nfa.alphabet().contains(w[w.len() - 1]));
        let k = choose|k: int| 0 <= k < nfa.alphabet().len() && nfa.alphabet()[k] == a;
        assert(has_edge(dfa.edges(), d as int, nfa.alphabet()[k]));
        let q = choose|q: int| 0 <= q < dfa.edges().len() && (#[trigger] dfa.edges()[q]).0 == d && dfa.edges()[q].1 == a;
        lemma_lookup_exact(dfa.edges(), q);
        let t = dfa.edges()[q].2;
        assert(edge_follows(nfa, sets, dfa.edges()[q]));
        assert(dfa_run(dfa, w) == Some(t));
        lemma_eclose_mono(nfa, nfa_run(nfa, w0), sets[d as int]);
        assert forall|x: usize| nfa_run(nfa, w).contains(x) implies sets[t as int].contains(x) by {
            let u = choose|u: usize| eclose(nfa, nfa_run(nfa, w0)).contains(u) && nfa.edge(u, Some(a), x);
            assert(eclose(nfa, sets[d as int]).contains(u));
            assert(set_move(nfa, eclose(nfa, sets[d as int]), a).contains(x));
        }
    }
}

/// Where `nfa` reaches an accepting state by consuming exactly the alphabet
/// labels `w`, the last of them on an edge (or `w` is empty), the determinized
/// automaton accepts `w`.
pub proof fn lemma_nfa_accepts_implies_dfa_accepts(
    nfa: Nfa,
    dfa: Dfa,
    sets: Seq<Set<usize>>,
    w: Seq<Action>,
    t: usize,
)
    requires
        nfa.wf(),
        dfa.wf(),
        subset_construction(nfa, dfa, sets),
        forall|i: int| 0 <= i < w.len() ==> nfa.alphabet().contains(#[trigger] w[i]),
        nfa_run(nfa, w).contains(t),
        nfa.ends().contains(t),
    ensures
        dfa_run(dfa, w) is Some,
        dfa.ends().contains(dfa_run(dfa, w)->Some_0),
{
    lemma_run_covered(nfa, dfa, sets, w);
    let d = dfa_run(dfa, w)->Some_0;
    assert(sets[d as int].contains(t));
}

impl Dfa {
    /// Builds the deterministic automaton of `nfa` by the subset construction.
    /// State-sets get ids in the order they are found, and every found set is
    /// expanded on every label of the alphabet. The loop ends because found sets
    /// are distinct subsets of the finitely many states that edges mention, so
    /// there are at most 2^n of them for n such states.
    ///
    /// Only labels of the alphabet are followed, each matched exactly. A label
    /// that never joined the alphabet, being equal under containment to one
    /// added before it (`Range('a', 'c')` after `Single('b')`), is never
    /// followed; overlapping labels are not split into disjoint ones.
    pub fn from_nfa(nfa: &Nfa) -> (r: Dfa)
        requires
            nfa.wf(),
        ensures
            r.wf(),
            exists|sets: Seq<Set<usize>>| subset_construction(*nfa, r, sets),
            r.states().len() <= pow2(universe(*nfa).len()),
    {
        broadcast use vstd::seq_lib::seq_to_set_is_finite;

        let m = nfa.path_len();
        let start = nfa.start_of();
        let mut first: Vec<usize> = Vec::new();
        first.push(start);
        let init = eclose_exec(nfa, &first);
        let ghost u = universe(*nfa);
        let ghost bound = pow2(u.len());
        proof {
            assert forall|t: usize| first@.to_set().contains(t) == set![start].contains(t) by {
                if t == start {
                    assert(first@[0] == start);
                }
            }
            assert(first@.to_set() =~= set![start]);
            assert(init@.to_set().subset_of(u)) by {
                assert forall|t: usize| init@.to_set().contains(t) implies u.contains(t) by {
                    assert(init@.contains(t));
                    if first@.contains(t) {
                        assert(t == start);
                    }
                }
            }
        }
        let mut sets: Vec<Vec<usize>> = Vec::new();
        sets.push(init);
        let mut trans: Vec<DEdge> = Vec::new();
        let ghost mut kidx: Seq<int> = Seq::empty();
        proof {
            assert(views(sets@) =~= seq![init@.to_set()]);
            lemma_sets_bound(*nfa, views(sets@));
        }
        let mut top: usize = 0;
        while top < sets.len()
            invariant
                nfa.wf(),
                m == nfa.alphabet().len(),
                u == universe(*nfa),
                bound == pow2(u.len()),
                top <= sets@.len() <= bound,
                progress(*nfa, sets@, trans@, kidx, top as int, 0),
            decreases bound - top,
        {
            let ecl = eclose_exec(nfa, &sets[top]);
            let ghost cur = views(sets@)[top as int];
            proof {
                assert(sets@[top as int]@.to_set() == cur);
                assert forall|t: usize| #[trigger] ecl@.contains(t) implies u.contains(t) by {
                    if sets@[top as int]@.contains(t) {
                        assert(cur.contains(t));
                    }
                }
            }
            let mut k: usize = 0;
            while k < m
                invariant
                    nfa.wf(),
                    m == nfa.alphabet().len(),
                    u == universe(*nfa),
                    bound == pow2(u.len()),
                    top < sets@.len() <= bound,
                    k <= m,
                    cur == views(sets@)[top as int],
                    ecl@.to_set() == eclose(*nfa, cur),
                    forall|t: usize| #[trigger] ecl@.contains(t) ==> u.contains(t),
                    progress(*nfa, sets@, trans@, kidx, top as int, k as int),
                decreases m - k,
            {
                let a = nfa.path_at(k);
                let mv = move_t(nfa, &ecl, &a);
                let mut nxt: Vec<usize> = Vec::new();
                extend_states(&mut nxt, &ecl);
                extend_states(&mut nxt, &mv);
                proof {
                    assert forall|t: usize| nxt@.to_set().contains(t) == successor(*nfa, cur, a).contains(t) by {
                        assert(ecl@.contains(t) == ecl@.to_set().contains(t));
                        assert(mv@.contains(t) == mv@.to_set().contains(t));
                    }
                    assert(nxt@.to_set() =~= successor(*nfa, cur, a));
                }
                let ghost old_sets = sets@;
                let ghost old_trans = trans@;
                let found = find_set(&sets, &nxt);
                let idx = match found {
                    Some(j) => j,
                    None => {
                        proof {
                            assert forall|t: usize| nxt@.to_set().contains(t) implies u.contains(t) by {
                                assert(nxt@.contains(t));
                                if mv@.contains(t) {
                                    assert(nfa.targets().contains(t));
                                }
                            }
                            lemma_views_push(sets@, nxt);
                            let v2 = views(sets@.push(nxt));
                            assert forall|i: int| 0 <= i < v2.len() implies (#[trigger] v2[i]).subset_of(u) by {
                                if i < views(sets@).len() {
                                    assert(v2[i] == views(sets@)[i]);
                                }
                            }
                            lemma_sets_bound(*nfa, v2);
                        }
                        sets.push(nxt);
                        sets.len() - 1
                    },
                };
                trans.push((top, a, idx));
                proof {
                    let ghost old_kidx = kidx;
                    kidx = kidx.push(k as int);
                    let v0 = views(old_sets);
                    let v = views(sets@);
                    let al = nfa.alphabet();
                    if found is None {
                        lemma_views_push(old_sets, nxt);
                    } else {
                        assert(sets@ == old_sets);
                    }
                    assert(forall|i: int| 0 <= i < v0.len() ==> v[i] == v0[i]);
                    assert(v[idx as int] == successor(*nfa, cur, a));
                    assert(v[0] == v0[0]);
                    assert forall|i: int, j: int| 0 <= i < j < v.len() implies v[i] != v[j] by {
                        if j >= v0.len() {
                            assert(v[j] == nxt@.to_set());
                            assert(v0[i] != nxt@.to_set());
                        }
                    }
                    assert(al[k as int] == a);
                    // distinctness and discovery
                    assert forall|j: int| 0 < j < v.len() implies #[trigger] follows_earlier(*nfa, v, j) by {
                        if j < v0.len() {
                            assert(follows_earlier(*nfa, v0, j));
                            let (i, kk) = choose|i: int, kk: int|
                                0 <= i < j && 0 <= kk < al.len() && v0[j] == #[trigger] successor(*nfa, v0[i], al[kk]);
                            assert(v[j] == successor(*nfa, v[i], al[kk]));
                        } else {
                            assert(v[j] == successor(*nfa, v[top as int], al[k as int]));
                        }
                    }
                    assert forall|i: int| 0 <= i < v.len() implies (#[trigger] v[i]).subset_of(universe(*nfa)) by {
                        if i < v0.len() {
                            assert(v0[i].subset_of(universe(*nfa)));
                        } else {
                            assert forall|t: usize| v[i].contains(t) implies u.contains(t) by {
                                assert(nxt@.contains(t));
                                if mv@.contains(t) {
                                    assert(nfa.targets().contains(t));
                                }
                            }
                        }
                    }
                    let tr = trans@;
                    assert(tr == old_trans.push((top, a, idx)));
                    assert forall|q: int| 0 <= q < tr.len() implies good_edge(*nfa, v, #[trigger] tr[q], kidx[q], top as int, k + 1) by {
                        if q < old_trans.len() {
                            assert(tr[q] == old_trans[q]);
                            assert(kidx[q] == old_kidx[q]);
                            let e = old_trans[q];
                            assert(good_edge(*nfa, v0, old_trans[q], old_kidx[q], top as int, k as int));
                            assert(v[e.2 as int] == v0[e.2 as int]);
                            assert(v[e.0 as int] == v0[e.0 as int]);
                        } else {
                            assert(tr[q] == (top, a, idx));
                            assert(kidx[q] == k);
                        }
                    }
                    assert forall|q1: int, q2: int|
                        0 <= q1 < q2 < tr.len() implies (#[trigger] tr[q1]).0 < (#[trigger] tr[q2]).0 || (
                        tr[q1].0 == tr[q2].0 && kidx[q1] < kidx[q2]) by {
                        assert(tr[q1] == old_trans[q1]);
                        assert(kidx[q1] == old_kidx[q1]);
                        if q2 < old_trans.len() {
                            assert(tr[q2] == old_trans[q2]);
                            assert(kidx[q2] == old_kidx[q2]);
                        }
                    }
                    assert forall|i: int, kk: int| 0 <= i < top && 0 <= kk < al.len() implies #[trigger] has_edge(tr, i, al[kk]) by {
                        lemma_has_edge_push(old_trans, (top, a, idx), i, al[kk]);
                    }
                    assert forall|kk: int| 0 <= kk < k + 1 implies #[trigger] has_edge(tr, top as int, al[kk]) by {
                        if kk < k {
                            lemma_has_edge_push(old_trans, (top, a, idx), top as int, al[kk]);
                        } else {
                            assert(tr[old_trans.len() as int] == (top, a, idx));
                        }
                    }
                    assert(found_sets(*nfa, sets@));
                    assert(trans@.len() == kidx.len());
                    assert(recorded(*nfa, sets@, trans@, kidx, top as int, k + 1));
                    assert(covered(*nfa, trans@, top as int, k + 1));
                    assert(progress(*nfa, sets@, trans@, kidx, top as int, k + 1));
                }
                k += 1;
            }
            top += 1;
            proof {
                let tr = trans@;
                let al = nfa.alphabet();
                assert forall|q: int| 0 <= q < tr.len() implies good_edge(*nfa, views(sets@), #[trigger] tr[q], kidx[q], top as int, 0) by {
                    assert(good_edge(*nfa, views(sets@), tr[q], kidx[q], top - 1, m as int));
                }
                assert forall|i: int, kk: int| 0 <= i < top && 0 <= kk < al.len() implies #[trigger] has_edge(tr, i, al[kk]) by {
                    if i == top - 1 {
                        assert(has_edge(tr, (top - 1) as int, al[kk]));
                    }
                }
            }
        }
        let ghost v = views(sets@);
        proof {
            assert(progress(*nfa, sets@, trans@, kidx, top as int, 0));
        }
        let ends = accepting_ids(nfa, &sets);
        let all = id_list(sets.len());
        let r = Dfa::from_parts(0, ends, all, trans);
        proof {
            let al = nfa.alphabet();
            let tr = trans@;
            assert(r.states().no_duplicates());
            assert forall|q: int| 0 <= q < tr.len() implies (#[trigger] tr[q]).1.well_formed() by {
                assert(good_edge(*nfa, v, tr[q], kidx[q], top as int, 0));
                assert(al[kidx[q]].well_formed());
            }
            assert forall|q1: int, q2: int|
                0 <= q1 < q2 < tr.len() && (#[trigger] tr[q1]).0 == (#[trigger] tr[q2]).0 implies !crate::action::action_eq(tr[q1].1, tr[q2].1) by {
                assert(good_edge(*nfa, v, tr[q1], kidx[q1], top as int, 0));
                assert(good_edge(*nfa, v, tr[q2], kidx[q2], top as int, 0));
                assert(!crate::action::action_eq(al[kidx[q1]], al[kidx[q2]]));
            }
            assert(deterministic(tr));
            assert forall|q: int| 0 <= q < r.edges().len() implies edge_follows(*nfa, v, #[trigger] r.edges()[q]) by {
                assert(tr[q] == r.edges()[q]);
                assert(good_edge(*nfa, v, tr[q], kidx[q], top as int, 0));
                assert(al[kidx[q]] == tr[q].1);
            }
            assert(covered(*nfa, trans@, top as int, 0));
            assert(top == v.len());
            assert(subset_construction(*nfa, r, v));
        }
        r
    }
}

} // verus!
