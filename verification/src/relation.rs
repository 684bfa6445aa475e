//! Sorted, duplicate-free lists of tuples.

use vstd::prelude::*;
use crate::order::{TupleOrd, lt, lt_exec, eq_exec, lemma_lt_lt, lemma_connex};

verus! {

/// Strictly ascending: every element comes strictly before the next.
pub open spec fn sorted_strict<T: TupleOrd>(s: Seq<T>) -> bool {
    forall|i: int, j: int| 0 <= i < j < s.len() ==> lt(#[trigger] s[i], #[trigger] s[j])
}

/// Membership in the insertion of an element into a sequence.
pub proof fn lemma_insert_contains<T>(s: Seq<T>, pos: int, x: T)
    requires
        0 <= pos <= s.len(),
    ensures
        forall|t: T| #[trigger] s.insert(pos, x).contains(t) <==> (s.contains(t) || t == x),
{
    let s2 = s.insert(pos, x);
    s.insert_ensures(pos, x);
    assert forall|t: T| #[trigger] s2.contains(t) implies (s.contains(t) || t == x) by {
        let k = choose|k: int| 0 <= k < s2.len() && s2[k] == t;
        if k < pos {
            assert(s[k] == t);
        } else if k > pos {
            assert(s[k - 1] == t);
        }
    };
    assert forall|t: T| (s.contains(t) || t == x) implies #[trigger] s2.contains(t) by {
        if t == x {
            assert(s2[pos] == t);
        } else {
            let k = choose|k: int| 0 <= k < s.len() && s[k] == t;
            if k < pos {
                assert(s2[k] == t);
            } else {
                assert(s2[k + 1] == t);
            }
        }
    };
}

/// Membership in a sequence with one element appended.
pub proof fn lemma_push_contains<T>(s: Seq<T>, x: T)
    ensures
        forall|t: T| #[trigger] s.push(x).contains(t) <==> (s.contains(t) || t == x),
{
    let s2 = s.push(x);
    assert forall|t: T| #[trigger] s2.contains(t) implies (s.contains(t) || t == x) by {
        let k = choose|k: int| 0 <= k < s2.len() && s2[k] == t;
        if k < s.len() {
            assert(s[k] == t);
        }
    };
    assert forall|t: T| (s.contains(t) || t == x) implies #[trigger] s2.contains(t) by {
        if t == x {
            assert(s2[s.len() as int] == t);
        } else {
            let k = choose|k: int| 0 <= k < s.len() && s[k] == t;
            assert(s2[k] == t);
        }
    };
}

/// Membership in a concatenation.
pub proof fn lemma_add_contains<T>(a: Seq<T>, b: Seq<T>)
    ensures
        forall|t: T| #[trigger] (a + b).contains(t) <==> (a.contains(t) || b.contains(t)),
{
    let s2 = a + b;
    assert forall|t: T| #[trigger] s2.contains(t) implies (a.contains(t) || b.contains(t)) by {
        let k = choose|k: int| 0 <= k < s2.len() && s2[k] == t;
        if k < a.len() {
            assert(a[k] == t);
        } else {
            assert(b[k - a.len()] == t);
        }
    };
    assert forall|t: T| (a.contains(t) || b.contains(t)) implies #[trigger] s2.contains(t) by {
        if a.contains(t) {
            let k = choose|k: int| 0 <= k < a.len() && a[k] == t;
            assert(s2[k] == t);
        } else {
            let k = choose|k: int| 0 <= k < b.len() && b[k] == t;
            assert(s2[k + a.len()] == t);
        }
    };
}

/// Two strictly ascending sequences with the same members are the same
/// sequence: a set of tuples has exactly one sorted, duplicate-free form.
pub proof fn lemma_sorted_unique<T: TupleOrd>(a: Seq<T>, b: Seq<T>)
    requires
        sorted_strict(a),
        sorted_strict(b),
        forall|t: T| #[trigger] a.contains(t) <==> #[trigger] b.contains(t),
    ensures
        a == b,
    decreases a.len(),
{
    if a.len() == 0 {
        if b.len() > 0 {
            assert(b.contains(b[0]));
            assert(a.contains(b[0]));
        }
        assert(a =~= b);
    } else {
        assert(a.contains(a[0]));
        assert(b.contains(a[0]));
        let i = choose|i: int| 0 <= i < b.len() && b[i] == a[0];
        assert(b.contains(b[0]));
        assert(a.contains(b[0]));
        let j = choose|j: int| 0 <= j < a.len() && a[j] == b[0];
        // The two heads are each other's lower bounds, so they are equal.
        if i > 0 {
            assert(lt(b[0], b[i]));
            if j > 0 {
                assert(lt(a[0], a[j]));
                lemma_lt_lt(a[0], b[0], a[0]);
            }
        }
        assert(a[0] == b[0]);
        let at = a.skip(1);
        let bt = b.skip(1);
        assert forall|t: T| #[trigger] at.contains(t) <==> #[trigger] bt.contains(t) by {
            lemma_skip_head_contains(a, t);
            lemma_skip_head_contains(b, t);
        };
        lemma_sorted_unique(at, bt);
        assert forall|k: int| 0 <= k < a.len() implies a[k] == b[k] by {
            if k > 0 {
                assert(at[k - 1] == bt[k - 1]);
            }
        };
        assert(a =~= b);
    }
}

/// In a strictly ascending sequence, the tail holds exactly the members
/// other than the head.
pub proof fn lemma_skip_head_contains<T: TupleOrd>(s: Seq<T>, t: T)
    requires
        sorted_strict(s),
        s.len() > 0,
    ensures
        s.skip(1).contains(t) <==> (s.contains(t) && t != s[0]),
{
    let st = s.skip(1);
    if st.contains(t) {
        let k = choose|k: int| 0 <= k < st.len() && st[k] == t;
        assert(s[k + 1] == t);
        assert(lt(s[0], s[k + 1]));
    }
    if s.contains(t) && t != s[0] {
        let k = choose|k: int| 0 <= k < s.len() && s[k] == t;
        assert(st[k - 1] == t);
    }
}

/// A static, ordered list of tuples.
///
/// A relation holds a fixed set of tuples, sorted strictly ascending. If the
/// `elements` field is filled in by hand it must be sorted and duplicate
/// free; every constructor here establishes that, and every operation that
/// reads a relation asks for it through `wf`.
pub struct Relation<T: TupleOrd + Copy> {
    /// The tuples, strictly ascending when the relation is well formed.
    pub elements: Vec<T>,
}

impl<T: TupleOrd + Copy> View for Relation<T> {
    type V = Seq<T>;

    open spec fn view(&self) -> Seq<T> {
        self.elements@
    }
}

impl<T: TupleOrd + Copy> Relation<T> {
    /// Well formed: the elements are strictly ascending (so also distinct).
    pub open spec fn wf(self) -> bool {
        sorted_strict(self@)
    }

    /// The empty relation.
    pub fn new() -> (r: Self)
        ensures
            r@ =~= Seq::<T>::empty(),
            r.wf(),
    {
        Relation { elements: Vec::new() }
    }

    /// Number of tuples.
    pub fn len(&self) -> (n: usize)
        ensures
            n == self@.len(),
    {
        self.elements.len()
    }

    /// Whether the relation holds no tuple.
    pub fn is_empty(&self) -> (b: bool)
        ensures
            b == (self@.len() == 0),
    {
        self.elements.len() == 0
    }

    /// The tuple at a position.
    pub fn get(&self, i: usize) -> (t: T)
        requires
            i < self@.len(),
        ensures
            t == self@[i as int],
    {
        self.elements[i]
    }

    /// Sorts and deduplicates a list of tuples into a relation.
    #[verifier::rlimit(80)]
    pub fn from_vec(v: Vec<T>) -> (r: Self)
        ensures
            r.wf(),
            forall|t: T| #[trigger] r@.contains(t) <==> v@.contains(t),
    {
        let ghost vs = v@;
        let n = v.len();
        let mut out: Vec<T> = Vec::new();
        let mut i: usize = 0;
        proof {
            assert(vs.take(0) =~= Seq::<T>::empty());
        }
        while i < n
            invariant
                i <= n,
                n == vs.len(),
                v@ == vs,
                sorted_strict(out@),
                forall|t: T| #[trigger] out@.contains(t) <==> vs.take(i as int).contains(t),
            decreases n - i,
        {
            let x = v[i];
            let mut pos: usize = 0;
            while pos < out.len() && lt_exec(&out[pos], &x)
                invariant
                    pos <= out@.len(),
                    forall|m: int| 0 <= m < pos ==> lt(#[trigger] out@[m], x),
                decreases out@.len() - pos,
            {
                pos += 1;
            }
            let ghost old_out = out@;
            if pos < out.len() && eq_exec(&out[pos], &x) {
                // Already present: drop the duplicate.
                proof {
                    assert(out@.contains(x)) by {
                        assert(out@[pos as int] == x);
                    }
                }
            } else {
                proof {
                    if pos < out@.len() {
                        lemma_connex(old_out[pos as int], x);
                    }
                    lemma_insert_contains(old_out, pos as int, x);
                }
                out.insert(pos, x);
                proof {
                    old_out.insert_ensures(pos as int, x);
                    let pi = pos as int;
                    if pi < old_out.len() {
                        assert(lt(x, old_out[pi]));
                    }
                    assert forall|p: int, q: int| 0 <= p < q < out@.len() implies lt(
                        #[trigger] out@[p],
                        #[trigger] out@[q],
                    ) by {
                        if p == pi && q > pi + 1 {
                            lemma_lt_lt(x, old_out[pi], old_out[q - 1]);
                        }
                    };
                }
            }
            proof {
                assert(vs.take(i + 1) =~= vs.take(i as int).push(vs[i as int]));
                lemma_push_contains(vs.take(i as int), vs[i as int]);
            }
            i += 1;
        }
        proof {
            assert(vs.take(n as int) =~= vs);
        }
        Relation { elements: out }
    }

    /// Merges two relations into their union.
    ///
    /// The union is total: the inputs need not be well formed, and the
    /// result is always sorted and duplicate free. Two well-formed inputs,
    /// the only kind this crate's constructors produce, are merged by one
    /// linear two-pointer pass; a hand-built unsorted input falls back to
    /// sorting.
    pub fn merge(self, other: Self) -> (r: Self)
        ensures
            r.wf(),
            forall|t: T| #[trigger] r@.contains(t) <==> (self@.contains(t) || other@.contains(
                t,
            )),
    {
        if is_sorted_vec(&self.elements) && is_sorted_vec(&other.elements) {
            Relation { elements: merge_sorted(self.elements, other.elements) }
        } else {
            let ghost s1 = self@;
            let ghost s2 = other@;
            let mut elements = self.elements;
            let mut elements2 = other.elements;
            elements.append(&mut elements2);
            proof {
                lemma_add_contains(s1, s2);
            }
            Relation::from_vec(elements)
        }
    }
}

/// A strict comparison holding between every adjacent pair holds between
/// every ordered pair.
proof fn lemma_lt_span<T: TupleOrd>(s: Seq<T>, p: int, q: int)
    requires
        forall|m: int| 0 < m < s.len() ==> lt(s[m - 1], #[trigger] s[m]),
        0 <= p < q < s.len(),
    ensures
        lt(s[p], s[q]),
    decreases q - p,
{
    if p + 1 < q {
        lemma_lt_span(s, p, q - 1);
        lemma_lt_lt(s[p], s[q - 1], s[q]);
    }
}

/// Decides whether a list is strictly ascending.
fn is_sorted_vec<T: TupleOrd + Copy>(v: &Vec<T>) -> (b: bool)
    ensures
        b == sorted_strict(v@),
{
    let n = v.len();
    let mut i: usize = 1;
    while i < n
        invariant
            1 <= i,
            i <= n || n == 0,
            n == v@.len(),
            forall|m: int| 0 < m < i ==> lt(v@[m - 1], #[trigger] v@[m]),
        decreases n - i,
    {
        if !lt_exec(&v[i - 1], &v[i]) {
            return false;
        }
        i += 1;
    }
    proof {
        assert forall|p: int, q: int| 0 <= p < q < v@.len() implies lt(
            #[trigger] v@[p],
            #[trigger] v@[q],
        ) by {
            lemma_lt_span(v@, p, q);
        };
    }
    true
}

/// Merges two strictly ascending lists into one strictly ascending list
/// holding the union of their elements, in one pass.
#[verifier::loop_isolation(false)]
fn merge_sorted<T: TupleOrd + Copy>(a: Vec<T>, b: Vec<T>) -> (out: Vec<T>)
    requires
        sorted_strict(a@),
        sorted_strict(b@),
    ensures
        sorted_strict(out@),
        forall|t: T| #[trigger] out@.contains(t) <==> (a@.contains(t) || b@.contains(t)),
{
    let ghost av = a@;
    let ghost bv = b@;
    let na = a.len();
    let nb = b.len();
    let mut out: Vec<T> = Vec::new();
    let mut i: usize = 0;
    let mut j: usize = 0;
    while i < na || j < nb
        invariant
            i <= na,
            j <= nb,
            sorted_strict(out@),
            out@.len() > 0 && i < na ==> lt(out@.last(), av[i as int]),
            out@.len() > 0 && j < nb ==> lt(out@.last(), bv[j as int]),
            forall|t: T|
                #[trigger] out@.contains(t) <==> (av.take(i as int).contains(t) || bv.take(
                    j as int,
                ).contains(t)),
        decreases na - i + nb - j,
    {
        let ghost old_out = out@;
        let take_a = if j >= nb {
            true
        } else if i >= na {
            false
        } else {
            !lt_exec(&b[j], &a[i])
        };
        if take_a {
            let x = a[i];
            proof {
                if i < na && j < nb && !lt(bv[j as int], av[i as int]) && !lt(
                    av[i as int],
                    bv[j as int],
                ) {
                    crate::order::lemma_connex(av[i as int], bv[j as int]);
                    crate::order::lemma_connex(bv[j as int], av[i as int]);
                    T::lemma_antisymmetric(av[i as int], bv[j as int]);
                }
            }
            let same = j < nb && eq_exec(&b[j], &x);
            out.push(x);
            proof {
                lemma_push_contains(old_out, x);
                assert forall|p: int, q: int| 0 <= p < q < out@.len() implies lt(
                    #[trigger] out@[p],
                    #[trigger] out@[q],
                ) by {
                    if q == out@.len() - 1 && p < q - 1 {
                        lemma_lt_lt(out@[p], old_out.last(), x);
                    }
                };
                assert(av.take(i + 1) =~= av.take(i as int).push(av[i as int]));
                lemma_push_contains(av.take(i as int), av[i as int]);
                if same {
                    assert(bv.take(j + 1) =~= bv.take(j as int).push(bv[j as int]));
                    lemma_push_contains(bv.take(j as int), bv[j as int]);
                }
            }
            i += 1;
            if same {
                j += 1;
            }
        } else {
            let x = b[j];
            out.push(x);
            proof {
                lemma_push_contains(old_out, x);
                assert forall|p: int, q: int| 0 <= p < q < out@.len() implies lt(
                    #[trigger] out@[p],
                    #[trigger] out@[q],
                ) by {
                    if q == out@.len() - 1 && p < q - 1 {
                        lemma_lt_lt(out@[p], old_out.last(), x);
                    }
                };
                assert(bv.take(j + 1) =~= bv.take(j as int).push(bv[j as int]));
                lemma_push_contains(bv.take(j as int), bv[j as int]);
            }
            j += 1;
        }
    }
    proof {
        assert(av.take(na as int) =~= av);
        assert(bv.take(nb as int) =~= bv);
    }
    out
}

/// What it means for a relation to be the union of two others, seen purely
/// through membership.
pub open spec fn is_merge_of<T: TupleOrd + Copy>(r: Relation<T>, a: Relation<T>, b: Relation<
    T,
>) -> bool {
    &&& r.wf()
    &&& forall|t: T| #[trigger] r@.contains(t) <==> (a@.contains(t) || b@.contains(t))
}

/// Merging is commutative: merging the same two relations in either order
/// gives the same sequence of tuples.
pub proof fn lemma_merge_commutative<T: TupleOrd + Copy>(
    a: Relation<T>,
    b: Relation<T>,
    r1: Relation<T>,
    r2: Relation<T>,
)
    requires
        is_merge_of(r1, a, b),
        is_merge_of(r2, b, a),
    ensures
        r1@ == r2@,
{
    lemma_sorted_unique(r1@, r2@);
}

/// Merging is associative: merging three relations in either grouping gives
/// the same sequence of tuples.
pub proof fn lemma_merge_associative<T: TupleOrd + Copy>(
    a: Relation<T>,
    b: Relation<T>,
    c: Relation<T>,
    ab: Relation<T>,
    bc: Relation<T>,
    ab_c: Relation<T>,
    a_bc: Relation<T>,
)
    requires
        is_merge_of(ab, a, b),
        is_merge_of(bc, b, c),
        is_merge_of(ab_c, ab, c),
        is_merge_of(a_bc, a, bc),
    ensures
        ab_c@ == a_bc@,
{
    lemma_sorted_unique(ab_c@, a_bc@);
}

} // verus!
