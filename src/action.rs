use std::cmp::Ordering;
use vstd::prelude::*;

verus! {

/// An edge label: one exact symbol, or an inclusive interval of symbols.
#[derive(Debug, Clone, Copy)]
pub enum Action {
    Range(char, char),
    Single(char),
}

/// Containment equality between two labels: ranges are equal when their bounds are,
/// a range equals a single symbol that it contains, and two symbols are equal when
/// they are the same symbol.
pub open spec fn action_eq(a: Action, b: Action) -> bool {
    match (a, b) {
        (Action::Range(l1, h1), Action::Range(l2, h2)) => l1 == l2 && h1 == h2,
        (Action::Single(x), Action::Single(y)) => x == y,
        (Action::Range(_, _), Action::Single(c)) => a.contains(c),
        (Action::Single(c), Action::Range(_, _)) => b.contains(c),
    }
}

/// The order of one symbol against another.
pub open spec fn char_order(x: char, y: char) -> Ordering {
    if (x as u32) < (y as u32) {
        Ordering::Less
    } else if x == y {
        Ordering::Equal
    } else {
        Ordering::Greater
    }
}

/// An order read from the other operand's side.
pub open spec fn reversed(o: Ordering) -> Ordering {
    match o {
        Ordering::Less => Ordering::Greater,
        Ordering::Equal => Ordering::Equal,
        Ordering::Greater => Ordering::Less,
    }
}

/// The order between two labels. Two ranges are equal when their bounds are, and
/// otherwise the one with the larger upper bound is greater. A range against a
/// single symbol orders as against the bare symbol: equal when it contains it,
/// less when the symbol lies above it, greater when it lies below. A single
/// symbol against a range gets the reverse.
pub open spec fn action_order(a: Action, b: Action) -> Ordering {
    match (a, b) {
        (Action::Range(l1, h1), Action::Range(l2, h2)) => if l1 == l2 && h1 == h2 {
            Ordering::Equal
        } else if (h1 as u32) > (h2 as u32) {
            Ordering::Greater
        } else {
            Ordering::Less
        },
        (Action::Single(x), Action::Single(y)) => char_order(x, y),
        (Action::Range(_, _), Action::Single(c)) => value_order(a, c),
        (Action::Single(c), Action::Range(_, _)) => reversed(value_order(b, c)),
    }
}

/// The order of a label against a bare symbol, used to probe for the label that
/// holds the symbol: a range is equal to a symbol that it contains, less than one
/// above it and greater than one below it.
pub open spec fn value_order(a: Action, c: char) -> Ordering {
    match a {
        Action::Range(_, hi) => if a.contains(c) {
            Ordering::Equal
        } else if (c as u32) > (hi as u32) {
            Ordering::Less
        } else {
            Ordering::Greater
        },
        Action::Single(x) => char_order(x, c),
    }
}

impl Action {
    /// A range is well formed when its upper bound lies strictly above its lower bound.
    pub open spec fn well_formed(self) -> bool {
        match self {
            Action::Range(lo, hi) => (lo as u32) < (hi as u32),
            Action::Single(_) => true,
        }
    }

    /// Whether the label matches the bare symbol `c`.
    pub open spec fn contains(self, c: char) -> bool {
        match self {
            Action::Range(lo, hi) => (lo as u32) <= (c as u32) && (c as u32) <= (hi as u32),
            Action::Single(x) => x == c,
        }
    }

    /// Containment test against a bare symbol.
    pub fn eq_value(&self, c: &char) -> (r: bool)
        ensures
            r == self.contains(*c),
    {
        match self {
            Action::Range(lo, hi) => *lo <= *c && *c <= *hi,
            Action::Single(x) => *x == *c,
        }
    }

    /// Exact equality: the same variant with the same symbols.
    pub fn identical(&self, other: &Action) -> (r: bool)
        ensures
            r == (*self == *other),
    {
        match (self, other) {
            (Action::Range(l1, h1), Action::Range(l2, h2)) => *l1 == *l2 && *h1 == *h2,
            (Action::Single(x), Action::Single(y)) => *x == *y,
            _ => false,
        }
    }

    /// The order between two labels; two ranges must both be well formed.
    pub fn cmp(&self, other: &Action) -> (r: Ordering)
        requires
            (self is Range && other is Range) ==> self.well_formed() && other.well_formed(),
        ensures
            r == action_order(*self, *other),
    {
        match (self, other) {
            (Action::Range(l1, h1), Action::Range(l2, h2)) => {
                if *l1 == *l2 && *h1 == *h2 {
                    Ordering::Equal
                } else if *h1 > *h2 {
                    Ordering::Greater
                } else {
                    Ordering::Less
                }
            },
            (Action::Single(x), Action::Single(y)) => compare_chars(*x, *y),
            (Action::Range(_, _), Action::Single(c)) => self.cmp_value(c),
            (Action::Single(c), Action::Range(_, _)) => reverse_order(other.cmp_value(c)),
        }
    }

    /// The order of this label against a bare symbol.
    pub fn cmp_value(&self, c: &char) -> (r: Ordering)
        ensures
            r == value_order(*self, *c),
    {
        match self {
            Action::Range(lo, hi) => {
                if *lo <= *c && *c <= *hi {
                    Ordering::Equal
                } else if *c > *hi {
                    Ordering::Less
                } else {
                    Ordering::Greater
                }
            },
            Action::Single(x) => compare_chars(*x, *c),
        }
    }

    /// Containment equality against another label.
    pub fn matches_action(&self, other: &Action) -> (r: bool)
        ensures
            r == action_eq(*self, *other),
    {
        match (self, other) {
            (Action::Range(l1, h1), Action::Range(l2, h2)) => *l1 == *l2 && *h1 == *h2,
            (Action::Single(x), Action::Single(y)) => *x == *y,
            (Action::Range(lo, hi), Action::Single(c)) | (Action::Single(c), Action::Range(lo, hi)) => {
                *lo <= *c && *c <= *hi
            },
        }
    }
}

fn reverse_order(o: Ordering) -> (r: Ordering)
    ensures
        r == reversed(o),
{
    match o {
        Ordering::Less => Ordering::Greater,
        Ordering::Equal => Ordering::Equal,
        Ordering::Greater => Ordering::Less,
    }
}

fn compare_chars(x: char, y: char) -> (r: Ordering)
    ensures
        r == char_order(x, y),
{
    if x < y {
        Ordering::Less
    } else if x == y {
        Ordering::Equal
    } else {
        Ordering::Greater
    }
}

impl PartialEq for Action {
    fn eq(&self, other: &Action) -> (r: bool) {
        self.matches_action(other)
    }
}

impl vstd::std_specs::cmp::PartialEqSpecImpl for Action {
    open spec fn obeys_eq_spec() -> bool {
        true
    }

    open spec fn eq_spec(&self, other: &Action) -> bool {
        action_eq(*self, *other)
    }
}

/// Equal labels under the order are exactly the labels equal under containment,
/// for well formed ranges.
pub proof fn lemma_order_equal_iff_eq(a: Action, b: Action)
    requires
        a.well_formed(),
        b.well_formed(),
    ensures
        (action_order(a, b) == Ordering::Equal) == action_eq(a, b),
{
}

/// Swapping the operands reverses the order, between two single symbols and
/// between a range and a single symbol.
pub proof fn lemma_order_swap(a: Action, b: Action)
    requires
        !(a is Range && b is Range),
    ensures
        action_order(b, a) == reversed(action_order(a, b)),
{
}

/// A range equals a bare symbol exactly when it contains it, and a single symbol
/// equals a bare symbol exactly when they are the same.
pub proof fn lemma_containment(a: Action, v: char)
    ensures
        (a is Range ==> (a.contains(v) <==> (a->Range_0 as u32) <= (v as u32) && (v as u32) <= (
        a->Range_1 as u32))),
        (a is Single ==> (a.contains(v) <==> a->Single_0 == v)),
        (value_order(a, v) == Ordering::Equal) == a.contains(v),
        action_eq(a, Action::Single(v)) == a.contains(v),
{
}

} // verus!
