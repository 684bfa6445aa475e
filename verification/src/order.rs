//! The total order on tuples that the engine sorts and searches by.

use vstd::prelude::*;

verus! {

/// Outcome of a three-way comparison of two tuples.
pub enum Cmp {
    Less,
    Equal,
    Greater,
}

/// Strict part of the order: `a` comes strictly before `b`.
pub open spec fn lt<T: TupleOrd>(a: T, b: T) -> bool {
    a.leq(b) && a != b
}

/// A totally ordered tuple type.
///
/// The engine needs nothing of a tuple but a total order together with an
/// executable comparison that agrees with it. `leq` is the order; the four
/// lemmas are the order's laws; `compare` decides it at run time.
pub trait TupleOrd: Sized {
    /// The order relation itself.
    spec fn leq(self, other: Self) -> bool;

    /// Every tuple is below itself.
    proof fn lemma_reflexive(a: Self)
        ensures
            a.leq(a),
    ;

    /// The order composes.
    proof fn lemma_transitive(a: Self, b: Self, c: Self)
        requires
            a.leq(b),
            b.leq(c),
        ensures
            a.leq(c),
    ;

    /// Tuples below each other are equal.
    proof fn lemma_antisymmetric(a: Self, b: Self)
        requires
            a.leq(b),
            b.leq(a),
        ensures
            a == b,
    ;

    /// Any two tuples are comparable.
    proof fn lemma_total(a: Self, b: Self)
        ensures
            a.leq(b) || b.leq(a),
    ;

    /// Decides the order.
    fn compare(&self, other: &Self) -> (c: Cmp)
        ensures
            match c {
                Cmp::Less => self.leq(*other) && *self != *other,
                Cmp::Equal => *self == *other,
                Cmp::Greater => other.leq(*self) && *self != *other,
            },
    ;
}

/// Strict comparison at run time.
pub fn lt_exec<T: TupleOrd>(a: &T, b: &T) -> (r: bool)
    ensures
        r == lt(*a, *b),
{
    match a.compare(b) {
        Cmp::Less => true,
        Cmp::Equal => false,
        Cmp::Greater => {
            proof {
                if a.leq(*b) {
                    T::lemma_antisymmetric(*a, *b);
                }
            }
            false
        },
    }
}

/// Equality at run time, decided through the order's comparison.
pub fn eq_exec<T: TupleOrd>(a: &T, b: &T) -> (r: bool)
    ensures
        r == (*a == *b),
{
    match a.compare(b) {
        Cmp::Less => false,
        Cmp::Equal => true,
        Cmp::Greater => false,
    }
}

/// Strictness composes with the order on the right.
pub proof fn lemma_lt_leq<T: TupleOrd>(a: T, b: T, c: T)
    requires
        lt(a, b),
        b.leq(c),
    ensures
        lt(a, c),
{
    T::lemma_transitive(a, b, c);
    if a == c {
        T::lemma_antisymmetric(a, b);
    }
}

/// Strictness composes with the order on the left.
pub proof fn lemma_leq_lt<T: TupleOrd>(a: T, b: T, c: T)
    requires
        a.leq(b),
        lt(b, c),
    ensures
        lt(a, c),
{
    T::lemma_transitive(a, b, c);
    if a == c {
        T::lemma_antisymmetric(b, c);
    }
}

/// Strictness composes.
pub proof fn lemma_lt_lt<T: TupleOrd>(a: T, b: T, c: T)
    requires
        lt(a, b),
        lt(b, c),
    ensures
        lt(a, c),
{
    lemma_lt_leq(a, b, c);
}

/// Not being strictly below means being at or above.
pub proof fn lemma_connex<T: TupleOrd>(a: T, b: T)
    ensures
        !lt(a, b) <==> b.leq(a),
{
    T::lemma_total(a, b);
    if a.leq(b) && b.leq(a) {
        T::lemma_antisymmetric(a, b);
    }
    if a == b {
        T::lemma_reflexive(a);
    }
}

impl TupleOrd for u64 {
    open spec fn leq(self, other: Self) -> bool {
        self <= other
    }

    proof fn lemma_reflexive(a: Self) {
    }

    proof fn lemma_transitive(a: Self, b: Self, c: Self) {
    }

    proof fn lemma_antisymmetric(a: Self, b: Self) {
    }

    proof fn lemma_total(a: Self, b: Self) {
    }

    fn compare(&self, other: &Self) -> (c: Cmp) {
        if *self < *other {
            Cmp::Less
        } else if *self == *other {
            Cmp::Equal
        } else {
            Cmp::Greater
        }
    }
}

impl<A: TupleOrd, B: TupleOrd> TupleOrd for (A, B) {
    open spec fn leq(self, other: Self) -> bool {
        lt(self.0, other.0) || (self.0 == other.0 && self.1.leq(other.1))
    }

    proof fn lemma_reflexive(a: Self) {
        B::lemma_reflexive(a.1);
    }

    proof fn lemma_transitive(a: Self, b: Self, c: Self) {
        if a.0 == b.0 && b.0 == c.0 {
            B::lemma_transitive(a.1, b.1, c.1);
        } else if a.0 == b.0 {
            // b.0 strictly below c.0, so a.0 is too.
        } else if b.0 == c.0 {
        } else {
            lemma_lt_lt(a.0, b.0, c.0);
        }
    }

    proof fn lemma_antisymmetric(a: Self, b: Self) {
        if a.0 == b.0 {
            B::lemma_antisymmetric(a.1, b.1);
            assert(a =~= b);
        } else {
            A::lemma_antisymmetric(a.0, b.0);
        }
    }

    proof fn lemma_total(a: Self, b: Self) {
        A::lemma_total(a.0, b.0);
        if a.0 == b.0 {
            B::lemma_total(a.1, b.1);
        } else if a.0.leq(b.0) && b.0.leq(a.0) {
            A::lemma_antisymmetric(a.0, b.0);
        }
    }

    fn compare(&self, other: &Self) -> (c: Cmp) {
        match self.0.compare(&other.0) {
            Cmp::Less => Cmp::Less,
            Cmp::Greater => Cmp::Greater,
            Cmp::Equal => {
                let c = self.1.compare(&other.1);
                proof {
                    if self.1 == other.1 {
                        assert(*self =~= *other);
                    }
                }
                c
            },
        }
    }
}

} // verus!
