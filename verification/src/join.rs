//! Galloping search and the sorted-merge join, antijoin and map operators.

use vstd::prelude::*;
use crate::order::{TupleOrd, Cmp, lt, lt_exec, eq_exec, lemma_lt_lt, lemma_lt_leq, lemma_connex};
use crate::relation::{Relation, sorted_strict};

verus! {

/// Below a strictly ascending position, tuples stay strictly below a bound.
pub proof fn lemma_prefix_below<T: TupleOrd>(s: Seq<T>, bound: T, i: int, j: int)
    requires
        sorted_strict(s),
        0 <= i <= j < s.len(),
        lt(s[j], bound),
    ensures
        lt(s[i], bound),
{
    if i < j {
        lemma_lt_lt(s[i], s[j], bound);
    }
}

/// Beyond a position at or above a bound, tuples stay at or above it.
pub proof fn lemma_suffix_at_or_above<T: TupleOrd>(s: Seq<T>, bound: T, i: int, j: int)
    requires
        sorted_strict(s),
        0 <= i <= j < s.len(),
        !lt(s[i], bound),
    ensures
        !lt(s[j], bound),
{
    lemma_connex(s[i], bound);
    if i < j {
        T::lemma_transitive(bound, s[i], s[j]);
        lemma_connex(s[j], bound);
    }
}

/// Advances a sorted slice past the longest prefix strictly below `bound`,
/// by exponential probing followed by binary retreat. Returns the length of
/// that prefix: everything strictly before the returned position is below
/// the bound, and the tuple at the position (if any) is not.
pub fn gallop<T: TupleOrd + Copy>(slice: &[T], bound: &T) -> (r: usize)
    requires
        sorted_strict(slice@),
    ensures
        r <= slice@.len(),
        forall|j: int| 0 <= j < r ==> lt(#[trigger] slice@[j], *bound),
        r < slice@.len() ==> !lt(slice@[r as int], *bound),
{
    let n = slice.len();
    if n == 0 || !lt_exec(&slice[0], bound) {
        return 0;
    }
    let mut lo: usize = 0;
    let mut hi: usize = 1;
    while hi < n && lt_exec(&slice[hi], bound)
        invariant
            n == slice@.len(),
            sorted_strict(slice@),
            lo < hi <= n,
            lt(slice@[lo as int], *bound),
        decreases n - lo,
    {
        lo = hi;
        if hi < n / 2 {
            hi = 2 * hi;
        } else {
            hi = n;
        }
    }
    proof {
        if hi < n {
            assert forall|j: int| hi <= j < n implies !lt(#[trigger] slice@[j], *bound) by {
                lemma_suffix_at_or_above(slice@, *bound, hi as int, j);
            };
        }
    }
    while lo + 1 < hi
        invariant
            n == slice@.len(),
            sorted_strict(slice@),
            lo < hi <= n,
            lt(slice@[lo as int], *bound),
            forall|j: int| hi <= j < n ==> !lt(#[trigger] slice@[j], *bound),
        decreases hi - lo,
    {
        let mid = lo + (hi - lo) / 2;
        if lt_exec(&slice[mid], bound) {
            lo = mid;
        } else {
            proof {
                assert forall|j: int| mid <= j < n implies !lt(#[trigger] slice@[j], *bound) by {
                    lemma_suffix_at_or_above(slice@, *bound, mid as int, j);
                };
            }
            hi = mid;
        }
    }
    proof {
        assert forall|j: int| 0 <= j < lo + 1 implies lt(#[trigger] slice@[j], *bound) by {
            lemma_prefix_below(slice@, *bound, j, lo as int);
        };
    }
    lo + 1
}

/// In a strictly ascending sequence of pairs, the keys ascend weakly.
pub proof fn lemma_keys_ascend<K: TupleOrd, V: TupleOrd>(s: Seq<(K, V)>, i: int, j: int)
    requires
        sorted_strict(s),
        0 <= i <= j < s.len(),
    ensures
        s[i].0.leq(s[j].0),
{
    if i < j {
        assert(lt(s[i], s[j]));
        if s[i].0 == s[j].0 {
            K::lemma_reflexive(s[i].0);
        }
    } else {
        K::lemma_reflexive(s[i].0);
    }
}

/// Once a run of one key has ended, the key never comes back.
pub proof fn lemma_run_ends<K: TupleOrd, V: TupleOrd>(s: Seq<(K, V)>, k: K, start: int, endp: int, j: int)
    requires
        sorted_strict(s),
        0 <= start <= endp <= j < s.len(),
        s[start].0 == k,
        s[endp].0 != k,
    ensures
        s[j].0 != k,
{
    lemma_keys_ascend(s, start, endp);
    lemma_keys_ascend(s, endp, j);
    if s[j].0 == k {
        K::lemma_antisymmetric(s[start].0, s[endp].0);
    }
}

/// Advances a sorted slice of pairs past the longest prefix whose keys are
/// strictly below `bound`, galloping as `gallop` does.
pub fn gallop_keys<K: TupleOrd + Copy, V: TupleOrd + Copy>(slice: &[(K, V)], bound: &K) -> (r: usize)
    requires
        sorted_strict(slice@),
    ensures
        r <= slice@.len(),
        forall|j: int| 0 <= j < r ==> lt(#[trigger] slice@[j].0, *bound),
        r < slice@.len() ==> !lt(slice@[r as int].0, *bound),
{
    let n = slice.len();
    if n == 0 || !lt_exec(&slice[0].0, bound) {
        return 0;
    }
    let mut lo: usize = 0;
    let mut hi: usize = 1;
    while hi < n && lt_exec(&slice[hi].0, bound)
        invariant
            n == slice@.len(),
            sorted_strict(slice@),
            lo < hi <= n,
            lt(slice@[lo as int].0, *bound),
        decreases n - lo,
    {
        lo = hi;
        if hi < n / 2 {
            hi = 2 * hi;
        } else {
            hi = n;
        }
    }
    proof {
        if hi < n {
            assert forall|j: int| hi <= j < n implies !lt(#[trigger] slice@[j].0, *bound) by {
                lemma_key_suffix_at_or_above(slice@, *bound, hi as int, j);
            };
        }
    }
    while lo + 1 < hi
        invariant
            n == slice@.len(),
            sorted_strict(slice@),
            lo < hi <= n,
            lt(slice@[lo as int].0, *bound),
            forall|j: int| hi <= j < n ==> !lt(#[trigger] slice@[j].0, *bound),
        decreases hi - lo,
    {
        let mid = lo + (hi - lo) / 2;
        if lt_exec(&slice[mid].0, bound) {
            lo = mid;
        } else {
            proof {
                assert forall|j: int| mid <= j < n implies !lt(#[trigger] slice@[j].0, *bound) by {
                    lemma_key_suffix_at_or_above(slice@, *bound, mid as int, j);
                };
            }
            hi = mid;
        }
    }
    proof {
        assert forall|j: int| 0 <= j < lo + 1 implies lt(#[trigger] slice@[j].0, *bound) by {
            if j < lo {
                lemma_keys_ascend(slice@, j, lo as int);
                crate::order::lemma_leq_lt(slice@[j].0, slice@[lo as int].0, *bound);
            }
        };
    }
    lo + 1
}

/// After galloping past everything strictly below `x`, membership of `x`
/// is decided by the tuple at the returned position.
pub proof fn lemma_gallop_member<T: TupleOrd>(s: Seq<T>, x: T, pos: int)
    requires
        sorted_strict(s),
        0 <= pos <= s.len(),
        forall|j: int| 0 <= j < pos ==> lt(#[trigger] s[j], x),
        pos < s.len() ==> !lt(s[pos], x),
    ensures
        s.contains(x) <==> (pos < s.len() && s[pos] == x),
{
    if s.contains(x) {
        let k = choose|k: int| 0 <= k < s.len() && s[k] == x;
        if k < pos {
            assert(lt(s[k], x));
        }
        if k > pos {
            crate::order::lemma_connex(s[pos], x);
            crate::order::lemma_leq_lt(x, s[pos], s[k]);
        }
    }
}

/// Positions `i` and `j` carry the same key on the two sides.
pub open spec fn key_match<K, V1, V2>(s1: Seq<(K, V1)>, s2: Seq<(K, V2)>, i: int, j: int) -> bool {
    0 <= i < s1.len() && 0 <= j < s2.len() && s1[i].0 == s2[j].0
}

/// `r` is a possible output of `f` on the matching pair at `i` and `j`.
#[verifier::opaque]
pub open spec fn emits<K, V1, V2, R, F: Fn(K, V1, V2) -> R>(
    f: F,
    s1: Seq<(K, V1)>,
    s2: Seq<(K, V2)>,
    i: int,
    j: int,
    r: R,
) -> bool {
    call_ensures(f, (s1[i].0, s1[i].1, s2[j].1), r)
}

/// A subrange of a strictly ascending sequence is strictly ascending.
pub proof fn lemma_subrange_sorted<T: TupleOrd>(s: Seq<T>, a: int, b: int)
    requires
        sorted_strict(s),
        0 <= a <= b <= s.len(),
    ensures
        sorted_strict(s.subrange(a, b)),
{
    let sub = s.subrange(a, b);
    assert forall|p: int, q: int| 0 <= p < q < sub.len() implies lt(
        #[trigger] sub[p],
        #[trigger] sub[q],
    ) by {
        assert(sub[p] == s[a + p]);
        assert(sub[q] == s[a + q]);
    };
}

/// `r` is a possible output of `f` on some pair drawn from the two index
/// rectangles.
pub open spec fn emitted_rect<K, V1, V2, R, F: Fn(K, V1, V2) -> R>(
    f: F,
    s1: Seq<(K, V1)>,
    s2: Seq<(K, V2)>,
    lo1: int,
    hi1: int,
    lo2: int,
    hi2: int,
    r: R,
) -> bool {
    exists|i: int, j: int| lo1 <= i < hi1 && lo2 <= j < hi2 && emits(f, s1, s2, i, j, r)
}

/// `r` is a possible output of `f` on some pair that agrees on its key.
#[verifier::opaque]
pub open spec fn emitted_match<K, V1, V2, R, F: Fn(K, V1, V2) -> R>(
    f: F,
    s1: Seq<(K, V1)>,
    s2: Seq<(K, V2)>,
    r: R,
) -> bool {
    exists|i: int, j: int| key_match(s1, s2, i, j) && emits(f, s1, s2, i, j, r)
}

/// Some output of `f` on the pair at `i` and `j` stands in `rs` at or after
/// position `lo`.
pub open spec fn covered_from<K, V1, V2, R, F: Fn(K, V1, V2) -> R>(
    f: F,
    s1: Seq<(K, V1)>,
    s2: Seq<(K, V2)>,
    i: int,
    j: int,
    rs: Seq<R>,
    lo: int,
) -> bool {
    exists|idx: int| lo <= idx < rs.len() && emits(f, s1, s2, i, j, rs[idx])
}

/// Growing the output list preserves coverage.
pub proof fn lemma_covered_grow<K, V1, V2, R, F: Fn(K, V1, V2) -> R>(
    f: F,
    s1: Seq<(K, V1)>,
    s2: Seq<(K, V2)>,
    i: int,
    j: int,
    prev: Seq<R>,
    cur: Seq<R>,
    lo: int,
)
    requires
        0 <= lo,
        covered_from(f, s1, s2, i, j, prev, lo),
        prev.len() <= cur.len(),
        forall|x: int| #![trigger cur[x]] 0 <= x < prev.len() ==> cur[x] == prev[x],
    ensures
        covered_from(f, s1, s2, i, j, cur, lo),
{
    assert(exists|x: int| lo <= x < prev.len() && emits(f, s1, s2, i, j, prev[x]));
    let w = choose|x: int| lo <= x < prev.len() && emits(f, s1, s2, i, j, prev[x]);
    assert(lo <= w < prev.len() && emits(f, s1, s2, i, j, prev[w]));
    assert(cur[w] == prev[w]);
    assert(emits(f, s1, s2, i, j, cur[w]));
}

/// Coverage from a later start position covers from an earlier one too.
pub proof fn lemma_covered_widen<K, V1, V2, R, F: Fn(K, V1, V2) -> R>(
    f: F,
    s1: Seq<(K, V1)>,
    s2: Seq<(K, V2)>,
    i: int,
    j: int,
    rs: Seq<R>,
    lo1: int,
    lo2: int,
)
    requires
        covered_from(f, s1, s2, i, j, rs, lo2),
        lo1 <= lo2,
    ensures
        covered_from(f, s1, s2, i, j, rs, lo1),
{
    assert(exists|x: int| lo2 <= x < rs.len() && emits(f, s1, s2, i, j, rs[x]));
    let w = choose|x: int| lo2 <= x < rs.len() && emits(f, s1, s2, i, j, rs[x]);
    assert(lo1 <= w < rs.len() && emits(f, s1, s2, i, j, rs[w]));
}

/// Row-major order on index pairs: earlier left position first, then
/// earlier right position.
pub open spec fn pair_lex_lt(a: (int, int), b: (int, int)) -> bool {
    a.0 < b.0 || (a.0 == b.0 && a.1 < b.1)
}

/// `tr` enumerates the key-matching index pairs of the two slices exactly
/// once each, in row-major order, and `rs` extends its first `base`
/// elements with one output of `f` per enumerated pair, in that order.
/// Strict row-major ascent together with the last clause makes `tr` the
/// one sorted enumeration of all matches, so every match is emitted
/// exactly once.
pub open spec fn row_major_trace<K, V1, V2, R, F: Fn(K, V1, V2) -> R>(
    f: F,
    s1: Seq<(K, V1)>,
    s2: Seq<(K, V2)>,
    tr: Seq<(int, int)>,
    rs: Seq<R>,
    base: int,
) -> bool {
    &&& rs.len() == base + tr.len()
    &&& forall|m: int|
        0 <= m < tr.len() ==> key_match(s1, s2, (#[trigger] tr[m]).0, tr[m].1) && emits(
            f,
            s1,
            s2,
            tr[m].0,
            tr[m].1,
            rs[base + m],
        )
    &&& forall|m: int| 0 < m < tr.len() ==> pair_lex_lt(tr[m - 1], #[trigger] tr[m])
    &&& forall|i: int, j: int| #[trigger] key_match(s1, s2, i, j) ==> tr.contains((i, j))
}

/// Length of the run of equal keys that starts at `from`.
fn run_end<K: TupleOrd + Copy, V: TupleOrd + Copy>(slice: &[(K, V)], from: usize) -> (endr: usize)
    requires
        from < slice@.len(),
    ensures
        from < endr <= slice@.len(),
        forall|m: int| from <= m < endr ==> (#[trigger] slice@[m]).0 == slice@[from as int].0,
        endr < slice@.len() ==> slice@[endr as int].0 != slice@[from as int].0,
{
    let k = slice[from].0;
    let n = slice.len();
    let mut endr: usize = from + 1;
    while endr < n && eq_exec(&slice[endr].0, &k)
        invariant
            n == slice@.len(),
            from < endr <= n,
            k == slice@[from as int].0,
            forall|m: int| from <= m < endr ==> (#[trigger] slice@[m]).0 == k,
        decreases n - endr,
    {
        endr += 1;
    }
    endr
}

/// Emits the cross product of two runs: `logic` applied to every pair drawn
/// from `slice1[i1..end1]` and `slice2[i2..end2]`, appended to `results`.
#[verifier::loop_isolation(false)]
fn join_run<
    K: TupleOrd + Copy,
    V1: TupleOrd + Copy,
    V2: TupleOrd + Copy,
    R,
    F: Fn(K, V1, V2) -> R,
>(
    slice1: &[(K, V1)],
    slice2: &[(K, V2)],
    i1: usize,
    end1: usize,
    i2: usize,
    end2: usize,
    logic: &F,
    results: &mut Vec<R>,
) -> (g: Ghost<Seq<(int, int)>>)
    requires
        i1 <= end1 <= slice1@.len(),
        i2 <= end2 <= slice2@.len(),
        forall|k: K, v1: V1, v2: V2| #[trigger] call_requires(*logic, (k, v1, v2)),
    ensures
        final(results)@.len() >= old(results)@.len(),
        forall|idx: int|
            0 <= idx < old(results)@.len() ==> final(results)@[idx] == old(results)@[idx],
        forall|idx: int|
            old(results)@.len() <= idx < final(results)@.len() ==> emitted_rect(
                *logic,
                slice1@,
                slice2@,
                i1 as int,
                end1 as int,
                i2 as int,
                end2 as int,
                #[trigger] final(results)@[idx],
            ),
        forall|i: int, j: int|
            i1 <= i < end1 && i2 <= j < end2 ==> #[trigger] covered_from(
                *logic,
                slice1@,
                slice2@,
                i,
                j,
                final(results)@,
                old(results)@.len() as int,
            ),
        final(results)@.len() == old(results)@.len() + g@.len(),
        forall|m: int|
            0 <= m < g@.len() ==> i1 <= (#[trigger] g@[m]).0 < end1 && i2 <= g@[m].1 < end2
                && emits(
                *logic,
                slice1@,
                slice2@,
                g@[m].0,
                g@[m].1,
                final(results)@[old(results)@.len() + m],
            ),
        forall|m: int| 0 < m < g@.len() ==> pair_lex_lt(g@[m - 1], #[trigger] g@[m]),
        forall|i: int, j: int|
            i1 <= i < end1 && i2 <= j < end2 ==> #[trigger] g@.contains((i, j)),
{
    let ghost s1 = slice1@;
    let ghost s2 = slice2@;
    let ghost base = results@.len() as int;
    let ghost mut tr: Seq<(int, int)> = Seq::empty();
    let mut a: usize = i1;
    while a < end1
        invariant
            i1 <= a <= end1,
            results@.len() >= base,
            forall|idx: int| 0 <= idx < base ==> results@[idx] == old(results)@[idx],
            forall|idx: int|
                base <= idx < results@.len() ==> emitted_rect(
                    *logic,
                    s1,
                    s2,
                    i1 as int,
                    end1 as int,
                    i2 as int,
                    end2 as int,
                    #[trigger] results@[idx],
                ),
            forall|i: int, j: int|
                i1 <= i < a && i2 <= j < end2 ==> #[trigger] covered_from(
                    *logic,
                    s1,
                    s2,
                    i,
                    j,
                    results@,
                    base,
                ),
            results@.len() == base + tr.len(),
            forall|m: int|
                0 <= m < tr.len() ==> i1 <= (#[trigger] tr[m]).0 < a && i2 <= tr[m].1 < end2
                    && emits(*logic, s1, s2, tr[m].0, tr[m].1, results@[base + m]),
            forall|m: int| 0 < m < tr.len() ==> pair_lex_lt(tr[m - 1], #[trigger] tr[m]),
            forall|i: int, j: int|
                i1 <= i < a && i2 <= j < end2 ==> #[trigger] tr.contains((i, j)),
        decreases end1 - a,
    {
        let mut b: usize = i2;
        while b < end2
            invariant
                i1 <= a < end1,
                i2 <= b <= end2,
                results@.len() >= base,
                forall|idx: int| 0 <= idx < base ==> results@[idx] == old(results)@[idx],
                forall|idx: int|
                    base <= idx < results@.len() ==> emitted_rect(
                        *logic,
                        s1,
                        s2,
                        i1 as int,
                        end1 as int,
                        i2 as int,
                        end2 as int,
                        #[trigger] results@[idx],
                    ),
                forall|i: int, j: int|
                    i1 <= i < a && i2 <= j < end2 ==> #[trigger] covered_from(
                        *logic,
                        s1,
                        s2,
                        i,
                        j,
                        results@,
                        base,
                    ),
                forall|j: int|
                    i2 <= j < b ==> #[trigger] covered_from(
                        *logic,
                        s1,
                        s2,
                        a as int,
                        j,
                        results@,
                        base,
                    ),
                results@.len() == base + tr.len(),
                forall|m: int|
                    0 <= m < tr.len() ==> i1 <= (#[trigger] tr[m]).0 <= a as int && i2 <= tr[m].1
                        < end2 && emits(*logic, s1, s2, tr[m].0, tr[m].1, results@[base + m]),
                forall|m: int|
                    0 <= m < tr.len() ==> (#[trigger] tr[m]).0 < a as int || (tr[m].0 == a as int
                        && tr[m].1 < b),
                forall|m: int| 0 < m < tr.len() ==> pair_lex_lt(tr[m - 1], #[trigger] tr[m]),
                forall|i: int, j: int|
                    i1 <= i < a && i2 <= j < end2 ==> #[trigger] tr.contains((i, j)),
                forall|j: int| i2 <= j < b ==> #[trigger] tr.contains((a as int, j)),
            decreases end2 - b,
        {
            let x1 = slice1[a];
            let x2 = slice2[b];
            let r = logic(x1.0, x1.1, x2.1);
            let ghost prev = results@;
            let ghost trp = tr;
            results.push(r);
            proof {
                tr = trp.push((a as int, b as int));
                assert(results@ == prev.push(r));
                assert(emits(*logic, s1, s2, a as int, b as int, r)) by {
                    reveal(emits);
                }
                crate::relation::lemma_push_contains(trp, (a as int, b as int));
                assert(tr[tr.len() - 1] == (a as int, b as int));
                assert(results@[base + tr.len() - 1] == r);
                assert(results@[prev.len() as int] == r);
                assert forall|idx: int|
                    base <= idx < results@.len() implies emitted_rect(
                    *logic,
                    s1,
                    s2,
                    i1 as int,
                    end1 as int,
                    i2 as int,
                    end2 as int,
                    #[trigger] results@[idx],
                ) by {
                    if idx < prev.len() {
                        assert(results@[idx] == prev[idx]);
                        assert(emitted_rect(
                            *logic,
                            s1,
                            s2,
                            i1 as int,
                            end1 as int,
                            i2 as int,
                            end2 as int,
                            prev[idx],
                        ));
                    } else {
                        assert(results@[idx] == r);
                    }
                };
                assert forall|i: int, j: int|
                    i1 <= i < a && i2 <= j < end2 implies #[trigger] covered_from(
                    *logic,
                    s1,
                    s2,
                    i,
                    j,
                    results@,
                    base,
                ) by {
                    assert(covered_from(*logic, s1, s2, i, j, prev, base));
                    lemma_covered_grow(*logic, s1, s2, i, j, prev, results@, base);
                };
                assert forall|j: int|
                    i2 <= j <= b implies #[trigger] covered_from(
                    *logic,
                    s1,
                    s2,
                    a as int,
                    j,
                    results@,
                    base,
                ) by {
                    if j < b {
                        assert(covered_from(*logic, s1, s2, a as int, j, prev, base));
                        lemma_covered_grow(*logic, s1, s2, a as int, j, prev, results@, base);
                    } else {
                        assert(base <= prev.len() < results@.len() && emits(
                            *logic,
                            s1,
                            s2,
                            a as int,
                            j,
                            results@[prev.len() as int],
                        ));
                    }
                };
            }
            b += 1;
        }
        a += 1;
    }
    Ghost(tr)
}

/// The sorted-merge join kernel: emits `logic` applied to every pair of
/// tuples of the two sorted slices that agree on their key, appending the
/// outputs to `results`. Equal-keyed runs produce their full cross product;
/// unequal heads are skipped by galloping.
#[verifier::rlimit(100)]
#[verifier::loop_isolation(false)]
pub fn join_helper<
    K: TupleOrd + Copy,
    V1: TupleOrd + Copy,
    V2: TupleOrd + Copy,
    R,
    F: Fn(K, V1, V2) -> R,
>(
    slice1: &[(K, V1)],
    slice2: &[(K, V2)],
    logic: &F,
    results: &mut Vec<R>,
)
    requires
        sorted_strict(slice1@),
        sorted_strict(slice2@),
        forall|k: K, v1: V1, v2: V2| #[trigger] call_requires(*logic, (k, v1, v2)),
    ensures
        final(results)@.len() >= old(results)@.len(),
        forall|idx: int|
            0 <= idx < old(results)@.len() ==> final(results)@[idx] == old(results)@[idx],
        forall|idx: int|
            old(results)@.len() <= idx < final(results)@.len() ==> emitted_match(
                *logic,
                slice1@,
                slice2@,
                #[trigger] final(results)@[idx],
            ),
        forall|i: int, j: int|
            #[trigger] key_match(slice1@, slice2@, i, j) ==> covered_from(
                *logic,
                slice1@,
                slice2@,
                i,
                j,
                final(results)@,
                old(results)@.len() as int,
            ),
        exists|tr: Seq<(int, int)>|
            #[trigger] row_major_trace(
                *logic,
                slice1@,
                slice2@,
                tr,
                final(results)@,
                old(results)@.len() as int,
            ),
{
    let ghost s1 = slice1@;
    let ghost s2 = slice2@;
    let ghost base = results@.len() as int;
    let ghost mut tr: Seq<(int, int)> = Seq::empty();
    let n1 = slice1.len();
    let n2 = slice2.len();
    let mut i1: usize = 0;
    let mut i2: usize = 0;
    while i1 < n1 && i2 < n2
        invariant
            i1 <= n1,
            i2 <= n2,
            results@.len() >= base,
            forall|idx: int| 0 <= idx < base ==> results@[idx] == old(results)@[idx],
            forall|i: int, j: int|
                #[trigger] key_match(s1, s2, i, j) ==> ((i < i1 && j < i2) || (i >= i1 && j
                    >= i2)),
            forall|idx: int|
                base <= idx < results@.len() ==> emitted_match(
                    *logic,
                    s1,
                    s2,
                    #[trigger] results@[idx],
                ),
            forall|i: int, j: int|
                #[trigger] key_match(s1, s2, i, j) && i < i1 && j < i2 ==> covered_from(
                    *logic,
                    s1,
                    s2,
                    i,
                    j,
                    results@,
                    base,
                ),
            results@.len() == base + tr.len(),
            forall|m: int|
                0 <= m < tr.len() ==> key_match(s1, s2, (#[trigger] tr[m]).0, tr[m].1) && emits(
                    *logic,
                    s1,
                    s2,
                    tr[m].0,
                    tr[m].1,
                    results@[base + m],
                ),
            forall|m: int| 0 <= m < tr.len() ==> (#[trigger] tr[m]).0 < i1 && tr[m].1 < i2,
            forall|m: int| 0 < m < tr.len() ==> pair_lex_lt(tr[m - 1], #[trigger] tr[m]),
            forall|i: int, j: int|
                #[trigger] key_match(s1, s2, i, j) && i < i1 && j < i2 ==> tr.contains((i, j)),
        decreases n1 - i1 + n2 - i2,
    {
        let e1 = slice1[i1];
        let e2 = slice2[i2];
        match e1.0.compare(&e2.0) {
            Cmp::Less => {
                let sub = vstd::slice::slice_subrange(slice1, i1, n1);
                proof {
                    lemma_subrange_sorted(s1, i1 as int, n1 as int);
                }
                let d = gallop_keys(sub, &e2.0);
                proof {
                    assert(sub@[0] == s1[i1 as int]);
                    assert(d >= 1);
                    assert forall|i: int, j: int| #[trigger] key_match(s1, s2, i, j) implies (
                    (i < i1 + d && j < i2) || (i >= i1 + d && j >= i2)) by {
                        if i1 <= i < i1 + d && i2 <= j {
                            assert(sub@[i - i1] == s1[i]);
                            assert(lt(s1[i].0, e2.0));
                            lemma_keys_ascend(s2, i2 as int, j);
                            lemma_lt_leq(s1[i].0, e2.0, s2[j].0);
                        }
                    };
                }
                i1 = i1 + d;
            },
            Cmp::Greater => {
                let sub = vstd::slice::slice_subrange(slice2, i2, n2);
                proof {
                    lemma_subrange_sorted(s2, i2 as int, n2 as int);
                }
                let d = gallop_keys(sub, &e1.0);
                proof {
                    assert(sub@[0] == s2[i2 as int]);
                    assert(d >= 1);
                    assert forall|i: int, j: int| #[trigger] key_match(s1, s2, i, j) implies (
                    (i < i1 && j < i2 + d) || (i >= i1 && j >= i2 + d)) by {
                        if i2 <= j < i2 + d && i1 <= i {
                            assert(sub@[j - i2] == s2[j]);
                            assert(lt(s2[j].0, e1.0));
                            lemma_keys_ascend(s1, i1 as int, i);
                            lemma_lt_leq(s2[j].0, e1.0, s1[i].0);
                        }
                    };
                }
                i2 = i2 + d;
            },
            Cmp::Equal => {
                let ghost k = s1[i1 as int].0;
                let end1 = run_end(slice1, i1);
                let end2 = run_end(slice2, i2);
                let ghost prev = results@;
                let ghost trp = tr;
                let g = join_run(slice1, slice2, i1, end1, i2, end2, logic, results);
                proof {
                    tr = trp + g@;
                    crate::relation::lemma_add_contains(trp, g@);
                    assert forall|m: int|
                        0 <= m < tr.len() implies key_match(s1, s2, (#[trigger] tr[m]).0, tr[m].1)
                        && emits(*logic, s1, s2, tr[m].0, tr[m].1, results@[base + m]) && tr[m].0
                        < end1 && tr[m].1 < end2 by {
                        if m < trp.len() {
                            assert(tr[m] == trp[m]);
                            assert(results@[base + m] == prev[base + m]);
                        } else {
                            assert(tr[m] == g@[m - trp.len()]);
                            assert(s1[tr[m].0].0 == k && s2[tr[m].1].0 == k);
                            assert(results@[base + m] == results@[prev.len() + (m - trp.len())]);
                        }
                    };
                    assert forall|m: int| 0 < m < tr.len() implies pair_lex_lt(
                        tr[m - 1],
                        #[trigger] tr[m],
                    ) by {
                        if m < trp.len() {
                            assert(tr[m - 1] == trp[m - 1] && tr[m] == trp[m]);
                        } else if m == trp.len() {
                            assert(tr[m - 1] == trp[m - 1] && tr[m] == g@[0]);
                            assert(trp[m - 1].0 < i1 as int && i1 as int <= g@[0].0);
                        } else {
                            assert(tr[m - 1] == g@[m - trp.len() - 1] && tr[m] == g@[m - trp.len()]);
                        }
                    };
                    assert forall|i: int, j: int|
                        #[trigger] key_match(s1, s2, i, j) && i < end1 && j < end2 implies tr.contains(
                        (i, j),
                    ) by {
                        if i < i1 && j < i2 {
                            assert(trp.contains((i, j)));
                        } else {
                            assert(i1 <= i < end1 && i2 <= j < end2);
                            assert(g@.contains((i, j)));
                        }
                    };
                    assert forall|idx: int|
                        base <= idx < results@.len() implies emitted_match(
                        *logic,
                        s1,
                        s2,
                        #[trigger] results@[idx],
                    ) by {
                        if idx < prev.len() {
                            assert(results@[idx] == prev[idx]);
                            assert(emitted_match(*logic, s1, s2, prev[idx]));
                        } else {
                            let (i, j) = choose|i: int, j: int|
                                i1 <= i < end1 && i2 <= j < end2 && emits(
                                    *logic,
                                    s1,
                                    s2,
                                    i,
                                    j,
                                    results@[idx],
                                );
                            assert(s1[i].0 == k && s2[j].0 == k);
                            assert(key_match(s1, s2, i, j));
                            assert(emitted_match(*logic, s1, s2, results@[idx])) by {
                                reveal(emitted_match);
                            }
                        }
                    };
                    assert forall|i: int, j: int| #[trigger] key_match(s1, s2, i, j) implies (
                    (i < end1 && j < end2) || (i >= end1 && j >= end2)) by {
                        if i < end1 && j >= end2 {
                            if i >= i1 && end2 < n2 {
                                lemma_run_ends(s2, k, i2 as int, end2 as int, j);
                            }
                        } else if i >= end1 && j < end2 {
                            if j >= i2 && end1 < n1 {
                                lemma_run_ends(s1, k, i1 as int, end1 as int, i);
                            }
                        }
                    };
                    assert forall|i: int, j: int|
                        #[trigger] key_match(s1, s2, i, j) && i < end1 && j < end2 implies covered_from(
                        *logic,
                        s1,
                        s2,
                        i,
                        j,
                        results@,
                        base,
                    ) by {
                        if i < i1 && j < i2 {
                            assert(covered_from(*logic, s1, s2, i, j, prev, base));
                            lemma_covered_grow(*logic, s1, s2, i, j, prev, results@, base);
                        } else {
                            assert(i1 <= i < end1 && i2 <= j < end2);
                            assert(covered_from(*logic, s1, s2, i, j, results@, prev.len() as int));
                            lemma_covered_widen(
                                *logic,
                                s1,
                                s2,
                                i,
                                j,
                                results@,
                                base,
                                prev.len() as int,
                            );
                        }
                    };
                }
                i1 = end1;
                i2 = end2;
            },
        }
    }
    proof {
        assert forall|i: int, j: int| #[trigger] key_match(s1, s2, i, j) implies covered_from(
            *logic,
            s1,
            s2,
            i,
            j,
            results@,
            base,
        ) by {
            assert(i < i1 && j < i2);
        };
        assert forall|i: int, j: int| #[trigger] key_match(s1, s2, i, j) implies tr.contains(
            (i, j),
        ) by {
            assert(i < i1 && j < i2);
        };
        assert(row_major_trace(*logic, s1, s2, tr, results@, base));
    }
}

/// Beyond a pair whose key is at or above a bound, keys stay at or above it.
pub proof fn lemma_key_suffix_at_or_above<K: TupleOrd, V: TupleOrd>(s: Seq<(K, V)>, bound: K, i: int, j: int)
    requires
        sorted_strict(s),
        0 <= i <= j < s.len(),
        !lt(s[i].0, bound),
    ensures
        !lt(s[j].0, bound),
{
    lemma_connex(s[i].0, bound);
    lemma_helper(s, bound, i, j);
}

/// The order step behind `lemma_key_suffix_at_or_above`.
proof fn lemma_helper<K: TupleOrd, V: TupleOrd>(s: Seq<(K, V)>, bound: K, i: int, j: int)
    requires
        sorted_strict(s),
        0 <= i <= j < s.len(),
        bound.leq(s[i].0),
    ensures
        !lt(s[j].0, bound),
{
    lemma_keys_ascend(s, i, j);
    K::lemma_transitive(bound, s[i].0, s[j].0);
    lemma_connex(s[j].0, bound);
}

/// Joins two static relations in one pass: the result holds `logic` of
/// every pair of tuples that agree on their key, sorted and deduplicated.
/// For static inputs this one call is the whole join.
#[verifier::loop_isolation(false)]
#[verifier::rlimit(100)]
pub fn join_into_relation<
    K: TupleOrd + Copy,
    V1: TupleOrd + Copy,
    V2: TupleOrd + Copy,
    R: TupleOrd + Copy,
    F: Fn(K, V1, V2) -> R,
>(input1: &Relation<(K, V1)>, input2: &Relation<(K, V2)>, logic: F) -> (out: Relation<R>)
    requires
        input1.wf(),
        input2.wf(),
        forall|k: K, v1: V1, v2: V2| #[trigger] call_requires(logic, (k, v1, v2)),
    ensures
        out.wf(),
        forall|t: R| #[trigger] out@.contains(t) ==> emitted_match(logic, input1@, input2@, t),
        forall|i: int, j: int|
            #[trigger] key_match(input1@, input2@, i, j) ==> covered_from(
                logic,
                input1@,
                input2@,
                i,
                j,
                out@,
                0,
            ),
{
    let ghost s1 = input1@;
    let ghost s2 = input2@;
    let mut results: Vec<R> = Vec::new();
    join_helper(input1.elements.as_slice(), input2.elements.as_slice(), &logic, &mut results);
    let ghost outv = results@;
    let out = Relation::from_vec(results);
    proof {
        assert forall|t: R| #[trigger] out@.contains(t) implies emitted_match(
            logic,
            s1,
            s2,
            t,
        ) by {
            assert(outv.contains(t));
            let idx = choose|idx: int| 0 <= idx < outv.len() && outv[idx] == t;
            assert(emitted_match(logic, s1, s2, outv[idx]));
        };
        assert forall|i: int, j: int| #[trigger] key_match(s1, s2, i, j) implies covered_from(
            logic,
            s1,
            s2,
            i,
            j,
            out@,
            0,
        ) by {
            assert(covered_from(logic, s1, s2, i, j, outv, 0));
            let w = choose|x: int| 0 <= x < outv.len() && emits(logic, s1, s2, i, j, outv[x]);
            assert(outv.contains(outv[w]));
            assert(out@.contains(outv[w]));
            let k2 = choose|k2: int| 0 <= k2 < out@.len() && out@[k2] == outv[w];
            assert(emits(logic, s1, s2, i, j, out@[k2]));
        };
    }
    out
}

/// An input that a join can read: either a variable or a static relation.
///
/// A variable exposes its real recent and stable strata. A relation takes
/// part as a single always-stable batch with nothing recent, so a join
/// against it contributes pairs only when the other side has recent
/// tuples.
pub trait JoinInput<T: TupleOrd + Copy> {
    /// The tuples added in the previous round.
    spec fn recent_view(&self) -> Seq<T>;

    /// The batches of tuples from earlier rounds.
    spec fn stable_views(&self) -> Seq<Seq<T>>;

    /// The recent tuples as a sorted slice.
    fn recent(&self) -> (r: &[T])
        ensures
            r@ == self.recent_view(),
    ;

    /// How many stable batches there are.
    fn stable_count(&self) -> (n: usize)
        ensures
            n == self.stable_views().len(),
    ;

    /// One stable batch as a sorted slice.
    fn stable_at(&self, i: usize) -> (b: &[T])
        requires
            i < self.stable_views().len(),
        ensures
            b@ == self.stable_views()[i as int],
    ;
}

impl<T: TupleOrd + Copy> JoinInput<T> for Relation<T> {
    open spec fn recent_view(&self) -> Seq<T> {
        Seq::empty()
    }

    open spec fn stable_views(&self) -> Seq<Seq<T>> {
        seq![self@]
    }

    fn recent(&self) -> (r: &[T]) {
        vstd::slice::slice_subrange(self.elements.as_slice(), 0, 0)
    }

    fn stable_count(&self) -> (n: usize) {
        1
    }

    fn stable_at(&self, i: usize) -> (b: &[T]) {
        self.elements.as_slice()
    }
}

} // verus!
