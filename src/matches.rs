use crate::action::Action;
use vstd::prelude::*;

verus! {

/// A forward-only position over a sequence of symbols.
pub struct Cursor {
    items: Vec<Action>,
    pos: usize,
}

impl Cursor {
    pub closed spec fn items(&self) -> Seq<Action> {
        self.items@
    }

    pub closed spec fn pos(&self) -> nat {
        self.pos as nat
    }

    pub open spec fn wf(&self) -> bool {
        self.pos() <= self.items().len()
    }

    /// The symbols not consumed yet.
    pub open spec fn rest(&self) -> Seq<Action> {
        self.items().subrange(self.pos() as int, self.items().len() as int)
    }

    pub fn new(items: Vec<Action>) -> (r: Cursor)
        ensures
            r.wf(),
            r.items() == items@,
            r.pos() == 0,
            r.rest() == items@,
    {
        let r = Cursor { items, pos: 0 };
        proof {
            assert(r.rest() =~= items@);
        }
        r
    }

    /// The number of symbols not consumed yet.
    pub fn remaining(&self) -> (r: usize)
        requires
            self.wf(),
        ensures
            r == self.rest().len(),
    {
        self.items.len() - self.pos
    }

    /// Consumes and returns the next symbol, if any.
    pub fn next_item(&mut self) -> (r: Option<Action>)
        requires
            old(self).wf(),
        ensures
            final(self).wf(),
            final(self).items() == old(self).items(),
            old(self).rest().len() == 0 ==> r is None && final(self).pos() == old(self).pos(),
            old(self).rest().len() > 0 ==> r == Some(old(self).rest()[0]) && final(self).pos()
                == old(self).pos() + 1 && final(self).rest() == old(self).rest().drop_first(),
    {
        if self.pos < self.items.len() {
            let a = self.items[self.pos];
            self.pos = self.pos + 1;
            proof {
                assert(self.rest() =~= old(self).rest().drop_first());
            }
            Some(a)
        } else {
            None
        }
    }
}

/// One scan over a cursor for a run that the matcher accepts.
pub trait Matcher {
    spec fn ready(&self) -> bool;

    /// The run that one scan over `input` yields, and how many symbols it consumes.
    spec fn scan_spec(&self, input: Seq<Action>) -> (Option<Seq<Action>>, nat);

    fn match_next(&self, iter: &mut Cursor) -> (r: Option<Vec<Action>>)
        requires
            self.ready(),
            old(iter).wf(),
        ensures
            final(iter).wf(),
            final(iter).items() == old(iter).items(),
            final(iter).pos() == old(iter).pos() + self.scan_spec(old(iter).rest()).1,
            old(iter).rest().len() > 0 ==> final(iter).pos() > old(iter).pos(),
            r is Some <==> self.scan_spec(old(iter).rest()).0 is Some,
            r is Some ==> r->Some_0@ == self.scan_spec(old(iter).rest()).0->Some_0,
    ;

    /// Whether one scan yields a run.
    fn check(&self, iter: &mut Cursor) -> (r: bool)
        requires
            self.ready(),
            old(iter).wf(),
        ensures
            final(iter).wf(),
            final(iter).items() == old(iter).items(),
            final(iter).pos() == old(iter).pos() + self.scan_spec(old(iter).rest()).1,
            r == self.scan_spec(old(iter).rest()).0 is Some,
    ;
}

/// The runs that repeated scans find over `rest`, in order, until it is used up.
pub open spec fn runs<M: Matcher>(m: &M, rest: Seq<Action>) -> Seq<Seq<Action>>
    decreases rest.len(),
{
    if rest.len() == 0 {
        Seq::empty()
    } else {
        let s = m.scan_spec(rest);
        if s.1 == 0 || s.1 > rest.len() {
            Seq::empty()
        } else {
            let tail = runs(m, rest.subrange(s.1 as int, rest.len() as int));
            match s.0 {
                Some(r) => seq![r] + tail,
                None => tail,
            }
        }
    }
}

/// The runs found by repeated scans over one cursor, left to right.
pub struct Matches<'a, M: Matcher> {
    matcher: &'a M,
    iter: Cursor,
}

impl<'a, M: Matcher> Matches<'a, M> {
    pub closed spec fn matcher(&self) -> &'a M {
        self.matcher
    }

    pub closed spec fn cursor(&self) -> Cursor {
        self.iter
    }

    pub open spec fn wf(&self) -> bool {
        self.matcher().ready() && self.cursor().wf()
    }

    pub fn new(matcher: &'a M, iter: Cursor) -> (r: Self)
        ensures
            r.matcher() == matcher,
            r.cursor() == iter,
    {
        Matches { matcher, iter }
    }

    /// The next run: none once the input is used up, else the result of one scan.
    pub fn next(&mut self) -> (r: Option<Vec<Action>>)
        requires
            old(self).wf(),
        ensures
            final(self).wf(),
            final(self).matcher() == old(self).matcher(),
            final(self).cursor().items() == old(self).cursor().items(),
            old(self).cursor().rest().len() == 0 ==> r is None && final(self).cursor()
                == old(self).cursor(),
            old(self).cursor().rest().len() > 0 ==> {
                let s = old(self).matcher().scan_spec(old(self).cursor().rest());
                &&& final(self).cursor().pos() == old(self).cursor().pos() + s.1
                &&& final(self).cursor().pos() > old(self).cursor().pos()
                &&& (r is Some <==> s.0 is Some)
                &&& (r is Some ==> r->Some_0@ == s.0->Some_0)
            },
    {
        if self.iter.remaining() > 0 {
            self.matcher.match_next(&mut self.iter)
        } else {
            None
        }
    }

    /// Every remaining run, in order, until the input is used up.
    pub fn collect_all(&mut self) -> (r: Vec<Vec<Action>>)
        requires
            old(self).wf(),
        ensures
            final(self).wf(),
            final(self).cursor().rest().len() == 0,
            r@.map_values(|v: Vec<Action>| v@) == runs(old(self).matcher(), old(self).cursor().rest()),
    {
        let mut out: Vec<Vec<Action>> = Vec::new();
        let ghost goal = runs(old(self).matcher(), old(self).cursor().rest());
        proof {
            assert(out@.map_values(|v: Vec<Action>| v@) + goal =~= goal);
        }
        while self.iter.remaining() > 0
            invariant
                self.wf(),
                self.matcher() == old(self).matcher(),
                goal == runs(old(self).matcher(), old(self).cursor().rest()),
                out@.map_values(|v: Vec<Action>| v@) + runs(self.matcher(), self.cursor().rest()) == goal,
            decreases self.cursor().rest().len(),
        {
            let ghost rest = self.cursor().rest();
            let ghost p = self.cursor().pos();
            let ghost before = out@;
            let r = self.next();
            proof {
                let s = self.matcher().scan_spec(rest);
                let n = self.cursor().pos() - p;
                assert(n == s.1);
                assert(self.cursor().rest() =~= rest.subrange(s.1 as int, rest.len() as int));
            }
            if let Some(v) = r {
                out.push(v);
                proof {
                    let f = |v: Vec<Action>| v@;
                    assert(out@.map_values(f) =~= before.map_values(f).push(v@));
                    let s = self.matcher().scan_spec(rest);
                    assert(before.map_values(f).push(v@) + runs(self.matcher(), self.cursor().rest())
                        =~= before.map_values(f) + (seq![s.0->Some_0] + runs(self.matcher(), self.cursor().rest())));
                }
            }
        }
        proof {
            assert(out@.map_values(|v: Vec<Action>| v@) + runs(self.matcher(), self.cursor().rest())
                =~= out@.map_values(|v: Vec<Action>| v@));
        }
        out
    }

    /// Gives the cursor back, where the scans left it.
    pub fn into_cursor(self) -> (r: Cursor)
        ensures
            r == self.cursor(),
    {
        self.iter
    }
}

} // verus!
