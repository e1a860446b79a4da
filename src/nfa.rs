use crate::action::{action_eq, Action};
use crate::sets::{contains_state, insert_state};
use crate::state_machine::StateMachine;
use vstd::prelude::*;

verus! {

/// One transition: source state, label (`None` for an epsilon move), target state.
pub type Edge = (usize, Option<Action>, usize);

/// Whether a stored label answers a requested one: epsilon answers epsilon, and a
/// label answers another that is equal to it under containment.
pub open spec fn label_matches(stored: Option<Action>, asked: Option<Action>) -> bool {
    match (stored, asked) {
        (None, None) => true,
        (Some(a), Some(b)) => action_eq(a, b),
        _ => false,
    }
}

/// A nondeterministic automaton with epsilon moves, built by adding edges.
#[derive(Debug)]
pub struct Nfa {
    pub start_state: usize,
    end_state: Vec<usize>,
    pub all_state: Vec<usize>,
    pub all_path: Vec<Action>,
    maps: Vec<Edge>,
}

impl Nfa {
    /// Every edge added so far, in order of addition.
    pub closed spec fn edges(&self) -> Seq<Edge> {
        self.maps@
    }

    pub closed spec fn ends(&self) -> Seq<usize> {
        self.end_state@
    }

    pub closed spec fn start(&self) -> usize {
        self.start_state
    }

    pub closed spec fn states(&self) -> Seq<usize> {
        self.all_state@
    }

    /// The labels met so far, pairwise unequal under containment.
    pub closed spec fn alphabet(&self) -> Seq<Action> {
        self.all_path@
    }

    pub open spec fn edge(&self, u: usize, l: Option<Action>, v: usize) -> bool {
        self.edges().contains((u, l, v))
    }

    pub open spec fn eps_edge(&self, u: usize, v: usize) -> bool {
        self.edge(u, None, v)
    }

    /// A walk of one or more epsilon moves.
    pub open spec fn eps_path(&self, p: Seq<usize>) -> bool {
        &&& p.len() >= 2
        &&& forall|i: int| 0 <= i < p.len() - 1 ==> #[trigger] self.eps_edge(p[i], p[i + 1])
    }

    /// `t` can be reached from `s` by one or more epsilon moves.
    pub open spec fn eps_reaches(&self, s: usize, t: usize) -> bool {
        exists|p: Seq<usize>| #[trigger] self.eps_path(p) && p[0] == s && p.last() == t
    }

    /// `t` is a target of an edge from `from` whose label answers `path`.
    pub open spec fn leads(&self, from: usize, path: Option<Action>, t: usize) -> bool {
        exists|i: int|
            0 <= i < self.edges().len() && (#[trigger] self.edges()[i]).0 == from && label_matches(
                self.edges()[i].1,
                path,
            ) && self.edges()[i].2 == t
    }

    pub open spec fn targets(&self) -> Seq<usize> {
        self.edges().map_values(|e: Edge| e.2)
    }

    pub open spec fn wf(&self) -> bool {
        &&& self.ends().no_duplicates()
        &&& self.states().no_duplicates()
        &&& forall|i: int| 0 <= i < self.alphabet().len() ==> #[trigger] self.alphabet()[i].well_formed()
        &&& forall|i: int, j: int|
            0 <= i < j < self.alphabet().len() ==> !action_eq(
                #[trigger] self.alphabet()[i],
                #[trigger] self.alphabet()[j],
            )
        &&& forall|i: int|
            0 <= i < self.edges().len() && (#[trigger] self.edges()[i]).1 is Some
                ==> self.edges()[i].1->Some_0.well_formed()
    }

    pub fn new(start_state: usize) -> (r: Self)
        ensures
            r.wf(),
            r.start() == start_state,
            r.ends() == Seq::<usize>::empty(),
            r.states() == Seq::<usize>::empty(),
            r.alphabet() == Seq::<Action>::empty(),
            r.edges() == Seq::<Edge>::empty(),
    {
        Nfa {
            start_state,
            end_state: Vec::new(),
            all_state: Vec::new(),
            all_path: Vec::new(),
            maps: Vec::new(),
        }
    }

    /// An empty automaton whose state lists reserve room in advance.
    pub fn with_capacity(start_state: usize, end_state_amount: usize, all_state_amount: usize) -> (r:
        Self)
        ensures
            r.wf(),
            r.start() == start_state,
            r.ends() == Seq::<usize>::empty(),
            r.states() == Seq::<usize>::empty(),
            r.alphabet() == Seq::<Action>::empty(),
            r.edges() == Seq::<Edge>::empty(),
    {
        Nfa {
            start_state,
            end_state: Vec::with_capacity(end_state_amount),
            all_state: Vec::with_capacity(all_state_amount),
            all_path: Vec::new(),
            maps: Vec::new(),
        }
    }

    /// Adds `to` as a destination of `from` on `v` (`None`: an epsilon move). A
    /// label joins the alphabet unless one equal to it under containment is
    /// already there: `Range('a', 'c')` after `Single('b')` does not join, and
    /// determinization, which follows alphabet labels exactly, then never
    /// follows the edges that carry it.
    pub fn add_edges(&mut self, from: usize, v: Option<Action>, to: usize)
        requires
            old(self).wf(),
            v is Some ==> v->Some_0.well_formed(),
        ensures
            final(self).wf(),
            final(self).edges() == old(self).edges().push((from, v, to)),
            final(self).start() == old(self).start(),
            final(self).ends() == old(self).ends(),
            final(self).states() == old(self).states(),
            v is None ==> final(self).alphabet() == old(self).alphabet(),
            v is Some ==> final(self).alphabet() == (if exists|i: int|
                0 <= i < old(self).alphabet().len() && action_eq(
                    #[trigger] old(self).alphabet()[i],
                    v->Some_0,
                ) {
                old(self).alphabet()
            } else {
                old(self).alphabet().push(v->Some_0)
            }),
    {
        if let Some(a) = v {
            let mut found = false;
            let mut i: usize = 0;
            while i < self.all_path.len()
                invariant
                    i <= self.alphabet().len(),
                    found == exists|k: int| 0 <= k < i && action_eq(#[trigger] self.alphabet()[k], a),
                decreases self.alphabet().len() - i,
            {
                if self.all_path[i].matches_action(&a) {
                    found = true;
                }
                i += 1;
            }
            if !found {
                self.all_path.push(a);
            }
        }
        self.maps.push((from, v, to));
        proof {
            let m = self.maps@;
            assert forall|i: int| 0 <= i < m.len() && (#[trigger] m[i]).1 is Some implies m[i].1->Some_0.well_formed() by {
                if i < m.len() - 1 {
                    assert(m[i] == old(self).maps@[i]);
                }
            }
        }
    }

    /// Records a state; says whether it is new.
    pub fn add_states(&mut self, state: usize) -> (r: bool)
        requires
            old(self).wf(),
        ensures
            final(self).wf(),
            r == !old(self).states().contains(state),
            final(self).states() == (if r {
                old(self).states().push(state)
            } else {
                old(self).states()
            }),
            final(self).start() == old(self).start(),
            final(self).ends() == old(self).ends(),
            final(self).alphabet() == old(self).alphabet(),
            final(self).edges() == old(self).edges(),
    {
        let r = insert_state(&mut self.all_state, state);
        proof {
            assert(self.alphabet() == old(self).alphabet());
            assert(self.edges() == old(self).edges());
        }
        r
    }

    /// The number of labels in the alphabet.
    pub fn path_len(&self) -> (r: usize)
        ensures
            r == self.alphabet().len(),
    {
        self.all_path.len()
    }

    /// The start state.
    pub fn start_of(&self) -> (r: usize)
        ensures
            r == self.start(),
    {
        self.start_state
    }

    /// The `k`-th label of the alphabet.
    pub fn path_at(&self, k: usize) -> (r: Action)
        requires
            k < self.alphabet().len(),
        ensures
            r == self.alphabet()[k as int],
    {
        self.all_path[k]
    }

    /// Marks a state as accepting; says whether it was not already.
    pub fn add_end_state(&mut self, node: usize) -> (r: bool)
        requires
            old(self).wf(),
        ensures
            final(self).wf(),
            r == !old(self).ends().contains(node),
            final(self).ends() == (if r {
                old(self).ends().push(node)
            } else {
                old(self).ends()
            }),
            final(self).start() == old(self).start(),
            final(self).states() == old(self).states(),
            final(self).alphabet() == old(self).alphabet(),
            final(self).edges() == old(self).edges(),
    {
        let r = insert_state(&mut self.end_state, node);
        proof {
            assert(self.alphabet() == old(self).alphabet());
            assert(self.edges() == old(self).edges());
        }
        r
    }

    /// A state reached by an edge is the target of some edge.
    pub proof fn lemma_edge_target(&self, u: usize, l: Option<Action>, t: usize)
        requires
            self.edge(u, l, t),
        ensures
            self.targets().contains(t),
    {
        let i = choose|i: int| 0 <= i < self.edges().len() && self.edges()[i] == (u, l, t);
        assert(self.targets()[i] == t);
    }

    proof fn lemma_reach_step(&self, s: usize, u: usize, t: usize)
        requires
            u == s || self.eps_reaches(s, u),
            self.eps_edge(u, t),
        ensures
            self.eps_reaches(s, t),
    {
        if u == s {
            let p = seq![s, t];
            assert(self.eps_path(p));
        } else {
            let p = choose|p: Seq<usize>| #[trigger] self.eps_path(p) && p[0] == s && p.last() == u;
            let q = p.push(t);
            assert forall|i: int| 0 <= i < q.len() - 1 implies #[trigger] self.eps_edge(q[i], q[i + 1]) by {
                if i < p.len() - 1 {
                    assert(self.eps_edge(p[i], p[i + 1]));
                }
            }
            assert(self.eps_path(q));
        }
    }

    proof fn lemma_bound(&self, r: Seq<usize>)
        requires
            r.no_duplicates(),
            forall|t: usize| r.contains(t) ==> self.targets().contains(t),
        ensures
            r.len() <= self.maps@.len(),
    {
        r.unique_seq_to_set();
        self.targets().lemma_cardinality_of_set();
        vstd::set_lib::lemma_len_subset(r.to_set(), self.targets().to_set());
    }

    /// Appends to `result` every epsilon successor of `u` that is not there yet.
    fn push_successors(&self, u: usize, result: &mut Vec<usize>, Ghost(s): Ghost<usize>)
        requires
            self.wf(),
            u == s || self.eps_reaches(s, u),
            old(result)@.no_duplicates(),
            forall|t: usize| #[trigger]
                old(result)@.contains(t) ==> self.eps_reaches(s, t) && self.targets().contains(t),
        ensures
            final(result)@.no_duplicates(),
            final(result)@.len() <= self.maps@.len(),
            old(result)@.len() <= final(result)@.len(),
            final(result)@.subrange(0, old(result)@.len() as int) == old(result)@,
            forall|t: usize| #[trigger]
                final(result)@.contains(t) ==> self.eps_reaches(s, t) && self.targets().contains(t),
            forall|t: usize| self.eps_edge(u, t) ==> #[trigger] final(result)@.contains(t),
    {
        let ghost r0 = result@;
        let mut j: usize = 0;
        while j < self.maps.len()
            invariant
                self.wf(),
                u == s || self.eps_reaches(s, u),
                j <= self.maps@.len(),
                result@.no_duplicates(),
                result@.subrange(0, r0.len() as int) == r0,
                r0.len() <= result@.len(),
                forall|t: usize| #[trigger]
                    result@.contains(t) ==> self.eps_reaches(s, t) && self.targets().contains(t),
                forall|k: int|
                    0 <= k < j && (#[trigger] self.maps@[k]).0 == u && self.maps@[k].1 is None
                        ==> result@.contains(self.maps@[k].2),
            decreases self.maps@.len() - j,
        {
            let e = self.maps[j];
            if e.0 == u && e.1.is_none() && !contains_state(result, e.2) {
                proof {
                    assert(self.maps@.contains(e));
                    assert(self.eps_edge(u, e.2));
                    self.lemma_reach_step(s, u, e.2);
                    assert(self.targets()[j as int] == e.2);
                }
                let ghost before = result@;
                result.push(e.2);
                proof {
                    assert(result@[before.len() as int] == e.2);
                    assert(self.targets().contains(e.2));
                    assert forall|t: usize| #[trigger]
                        result@.contains(t) implies self.eps_reaches(s, t) && self.targets().contains(t) by {
                        if t != e.2 {
                            let k = choose|k: int| 0 <= k < result@.len() && result@[k] == t;
                            assert(before[k] == t);
                            assert(before.contains(t));
                        }
                    }
                    assert forall|k: int|
                        0 <= k < j && (#[trigger] self.maps@[k]).0 == u && self.maps@[k].1 is None
                            implies result@.contains(self.maps@[k].2) by {
                        let x = self.maps@[k].2;
                        let i = choose|i: int| 0 <= i < before.len() && before[i] == x;
                        assert(result@[i] == x);
                    }
                    assert(result@.subrange(0, r0.len() as int) =~= before.subrange(0, r0.len() as int));
                }
            }
            j += 1;
        }
        proof {
            self.lemma_bound(result@);
            assert forall|t: usize| self.eps_edge(u, t) implies #[trigger] result@.contains(t) by {
                let k = choose|k: int| 0 <= k < self.maps@.len() && self.maps@[k] == (u, None::<Action>, t);
                assert(self.maps@[k].0 == u);
            }
        }
    }

    proof fn lemma_path_in(&self, r: Seq<usize>, s: usize, p: Seq<usize>, k: int)
        requires
            self.eps_path(p),
            p[0] == s,
            1 <= k < p.len(),
            forall|t: usize| self.eps_edge(s, t) ==> #[trigger] r.contains(t),
            forall|t: usize, u: usize| r.contains(t) && #[trigger] self.eps_edge(t, u) ==> r.contains(u),
        ensures
            r.contains(p[k]),
        decreases k,
    {
        let i = k - 1;
        assert(self.eps_edge(p[i], p[i + 1]));
        if k > 1 {
            self.lemma_path_in(r, s, p, k - 1);
        }
    }

    /// The states reachable from `state` by one or more epsilon moves. The state
    /// itself is there only where an epsilon cycle leads back to it.
    pub fn closure(&self, state: &usize) -> (r: Vec<usize>)
        requires
            self.wf(),
        ensures
            r@.no_duplicates(),
            forall|t: usize| #[trigger] r@.contains(t) <==> self.eps_reaches(*state, t),
            forall|t: usize| #[trigger] r@.contains(t) ==> self.targets().contains(t),
            forall|t: usize, u: usize| #[trigger]
                r@.contains(t) && #[trigger] self.eps_edge(t, u) ==> r@.contains(u),
    {
        let s = *state;
        let mut result: Vec<usize> = Vec::new();
        self.push_successors(s, &mut result, Ghost(s));
        let mut next: usize = 0;
        while next < result.len()
            invariant
                self.wf(),
                next <= result@.len() <= self.maps@.len(),
                result@.no_duplicates(),
                forall|t: usize| #[trigger]
                    result@.contains(t) ==> self.eps_reaches(s, t) && self.targets().contains(t),
                forall|t: usize| self.eps_edge(s, t) ==> #[trigger] result@.contains(t),
                forall|k: int, t: usize|
                    0 <= k < next && #[trigger] self.eps_edge(result@[k], t) ==> result@.contains(t),
            decreases self.maps@.len() - next,
        {
            let u = result[next];
            let ghost before = result@;
            proof {
                assert(result@.contains(u));
            }
            self.push_successors(u, &mut result, Ghost(s));
            proof {
                lemma_prefix(before, result@);
                assert forall|k: int, t: usize|
                    0 <= k < next + 1 && #[trigger] self.eps_edge(result@[k], t) implies result@.contains(t) by {
                    assert(result@[k] == before[k]);
                    if k < next {
                        assert(before.contains(t));
                    }
                }
                assert forall|t: usize| self.eps_edge(s, t) implies #[trigger] result@.contains(t) by {
                    assert(before.contains(t));
                }
            }
            next += 1;
        }
        proof {
            assert forall|t: usize, u: usize| #[trigger]
                result@.contains(t) && #[trigger] self.eps_edge(t, u) implies result@.contains(u) by {
                let k = choose|k: int| 0 <= k < result@.len() && result@[k] == t;
                assert(self.eps_edge(result@[k], u));
            }
            assert forall|t: usize| self.eps_reaches(s, t) implies #[trigger] result@.contains(t) by {
                let p = choose|p: Seq<usize>| #[trigger] self.eps_path(p) && p[0] == s && p.last() == t;
                self.lemma_path_in(result@, s, p, p.len() - 1);
            }
        }
        result
    }

    /// The states reached from `state` by one edge labelled exactly `path`.
    pub fn move_t(&self, state: &usize, path: &Action) -> (r: Vec<usize>)
        requires
            self.wf(),
        ensures
            r@.no_duplicates(),
            forall|t: usize| #[trigger] r@.contains(t) <==> self.edge(*state, Some(*path), t),
    {
        let mut result: Vec<usize> = Vec::new();
        let mut j: usize = 0;
        while j < self.maps.len()
            invariant
                j <= self.maps@.len(),
                result@.no_duplicates(),
                forall|t: usize| #[trigger]
                    result@.contains(t) <==> exists|k: int|
                        0 <= k < j && #[trigger] self.maps@[k] == (*state, Some(*path), t),
            decreases self.maps@.len() - j,
        {
            let e = self.maps[j];
            let hit = match e.1 {
                Some(a) => e.0 == *state && a.identical(path),
                None => false,
            };
            let ghost before = result@;
            if hit {
                insert_state(&mut result, e.2);
                proof {
                    if result@.len() > before.len() {
                        assert(result@[before.len() as int] == e.2);
                    }
                    assert(result@.contains(e.2));
                }
            }
            proof {
                assert forall|t: usize| #[trigger]
                    result@.contains(t) <==> exists|k: int|
                        0 <= k < j + 1 && #[trigger] self.maps@[k] == (*state, Some(*path), t) by {
                    if result@.contains(t) {
                        if before.contains(t) {
                            let k = choose|k: int| 0 <= k < j && #[trigger] self.maps@[k] == (*state, Some(*path), t);
                            assert(0 <= k < j + 1 && self.maps@[k] == (*state, Some(*path), t));
                        } else {
                            assert(hit);
                            assert(t == e.2);
                            assert(self.maps@[j as int] == (*state, Some(*path), t));
                        }
                    }
                    if exists|k: int| 0 <= k < j + 1 && #[trigger] self.maps@[k] == (*state, Some(*path), t) {
                        let k = choose|k: int| 0 <= k < j + 1 && #[trigger] self.maps@[k] == (*state, Some(*path), t);
                        if k == j {
                            assert(result@.contains(t));
                        } else {
                            assert(before.contains(t));
                            let i = choose|i: int| 0 <= i < before.len() && before[i] == t;
                            assert(result@[i] == t);
                        }
                    }
                }
            }
            j += 1;
        }
        result
    }
}

impl StateMachine for Nfa {
    type State = usize;
    type V = Option<Action>;
    type NextState = Vec<usize>;

    open spec fn accepting(&self, state: usize) -> bool {
        self.ends().contains(state)
    }

    open spec fn next_spec(&self, from: usize, path: Option<Action>, r: Option<Vec<usize>>) -> bool {
        match r {
            None => forall|t: usize| !self.leads(from, path, t),
            Some(v) => {
                &&& v@.no_duplicates()
                &&& v@.len() > 0
                &&& forall|t: usize| #[trigger] v@.contains(t) <==> self.leads(from, path, t)
            },
        }
    }

    open spec fn valid(&self) -> bool {
        self.wf()
    }

    fn is_end(&self, state: &usize) -> (r: bool) {
        contains_state(&self.end_state, *state)
    }

    fn next_state(&self, from: &usize, path: &Option<Action>) -> (r: Option<Vec<usize>>) {
        let mut result: Vec<usize> = Vec::new();
        let mut j: usize = 0;
        while j < self.maps.len()
            invariant
                j <= self.maps@.len(),
                result@.no_duplicates(),
                forall|t: usize| #[trigger]
                    result@.contains(t) <==> exists|k: int|
                        0 <= k < j && (#[trigger] self.maps@[k]).0 == *from && label_matches(
                            self.maps@[k].1,
                            *path,
                        ) && self.maps@[k].2 == t,
            decreases self.maps@.len() - j,
        {
            let e = self.maps[j];
            let hit = e.0 == *from && match (&e.1, path) {
                (None, None) => true,
                (Some(a), Some(b)) => a.matches_action(b),
                _ => false,
            };
            let ghost before = result@;
            if hit {
                insert_state(&mut result, e.2);
                proof {
                    if result@.len() > before.len() {
                        assert(result@[before.len() as int] == e.2);
                    }
                }
            }
            proof {
                assert forall|t: usize| #[trigger]
                    result@.contains(t) <==> exists|k: int|
                        0 <= k < j + 1 && (#[trigger] self.maps@[k]).0 == *from && label_matches(
                            self.maps@[k].1,
                            *path,
                        ) && self.maps@[k].2 == t by {
                    if result@.contains(t) && !before.contains(t) {
                        assert(self.maps@[j as int].2 == t);
                    }
                    if exists|k: int|
                        0 <= k < j + 1 && (#[trigger] self.maps@[k]).0 == *from && label_matches(
                            self.maps@[k].1,
                            *path,
                        ) && self.maps@[k].2 == t {
                        let k = choose|k: int|
                            0 <= k < j + 1 && (#[trigger] self.maps@[k]).0 == *from && label_matches(
                                self.maps@[k].1,
                                *path,
                            ) && self.maps@[k].2 == t;
                        if k < j {
                            assert(before.contains(t));
                            let i = choose|i: int| 0 <= i < before.len() && before[i] == t;
                            assert(result@[i] == t);
                        }
                    }
                }
            }
            j += 1;
        }
        if result.len() == 0 {
            proof {
                assert forall|t: usize| !self.leads(*from, *path, t) by {
                    if self.leads(*from, *path, t) {
                        let k = choose|k: int|
                            0 <= k < self.maps@.len() && (#[trigger] self.maps@[k]).0 == *from && label_matches(
                                self.maps@[k].1,
                                *path,
                            ) && self.maps@[k].2 == t;
                        assert(result@.contains(t));
                    }
                }
            }
            None
        } else {
            Some(result)
        }
    }
}

/// What is in a prefix of a sequence is in the sequence.
proof fn lemma_prefix(a: Seq<usize>, b: Seq<usize>)
    requires
        a.len() <= b.len(),
        b.subrange(0, a.len() as int) == a,
    ensures
        forall|k: int| 0 <= k < a.len() ==> b[k] == #[trigger] a[k],
        forall|t: usize| #[trigger] a.contains(t) ==> b.contains(t),
{
    assert forall|k: int| 0 <= k < a.len() implies b[k] == #[trigger] a[k] by {
        assert(b.subrange(0, a.len() as int)[k] == b[k]);
    }
    assert forall|t: usize| #[trigger] a.contains(t) implies b.contains(t) by {
        let k = choose|k: int| 0 <= k < a.len() && a[k] == t;
        assert(b[k] == a[k]);
    }
}

} // verus!
