//! Monotonically growing sets of tuples, stratified into stable, recent and
//! pending, together with the step that advances the strata.

use vstd::prelude::*;
use crate::order::{TupleOrd, lt, eq_exec};
use crate::relation::{Relation, sorted_strict};
use crate::join::{
    gallop, join_helper, lemma_gallop_member, emits, key_match, emitted_match, covered_from,
    lemma_covered_grow, lemma_covered_widen,
};

verus! {

/// Some relation among `bs` holds `t`.
pub open spec fn batches_contain<T: TupleOrd + Copy>(bs: Seq<Relation<T>>, t: T) -> bool {
    exists|bi: int| 0 <= bi < bs.len() && bs[bi]@.contains(t)
}

/// No batch strictly before `upto` holds `t`.
pub open spec fn absent_upto<T: TupleOrd + Copy>(bs: Seq<Relation<T>>, upto: int, t: T) -> bool {
    forall|bi: int| 0 <= bi < upto ==> !(#[trigger] bs[bi])@.contains(t)
}

/// Removing the last relation of a list splits its membership.
pub proof fn lemma_pop_contains<T: TupleOrd + Copy>(pre: Seq<Relation<T>>, t: T)
    requires
        pre.len() > 0,
    ensures
        batches_contain(pre, t) <==> (batches_contain(pre.drop_last(), t)
            || pre.last()@.contains(t)),
{
    if batches_contain(pre, t) {
        let bi = choose|bi: int| 0 <= bi < pre.len() && pre[bi]@.contains(t);
        if bi < pre.len() - 1 {
            assert(pre.drop_last()[bi]@.contains(t));
        }
    }
    if batches_contain(pre.drop_last(), t) {
        let bi = choose|bi: int|
            0 <= bi < pre.drop_last().len() && pre.drop_last()[bi]@.contains(t);
        assert(pre[bi]@.contains(t));
    }
    if pre.last()@.contains(t) {
        assert(pre[pre.len() - 1]@.contains(t));
    }
}

/// Appending a relation to a list extends its membership.
pub proof fn lemma_push_batches_contain<T: TupleOrd + Copy>(
    pre: Seq<Relation<T>>,
    r: Relation<T>,
    t: T,
)
    ensures
        batches_contain(pre.push(r), t) <==> (batches_contain(pre, t) || r@.contains(t)),
{
    let cur = pre.push(r);
    if batches_contain(cur, t) {
        let bi = choose|bi: int| 0 <= bi < cur.len() && cur[bi]@.contains(t);
        if bi < pre.len() {
            assert(pre[bi]@.contains(t));
        }
    }
    if batches_contain(pre, t) {
        let bi = choose|bi: int| 0 <= bi < pre.len() && pre[bi]@.contains(t);
        assert(cur[bi]@.contains(t));
    }
    if r@.contains(t) {
        assert(cur[pre.len() as int]@.contains(t));
    }
}

/// A batch list that fails `absent_upto` over its whole length holds `t`.
pub proof fn lemma_not_absent<T: TupleOrd + Copy>(bs: Seq<Relation<T>>, t: T)
    requires
        !absent_upto(bs, bs.len() as int, t),
    ensures
        batches_contain(bs, t),
{
    let bi = choose|bi: int| !(0 <= bi < bs.len() ==> !(#[trigger] bs[bi])@.contains(t));
    assert(bs[bi]@.contains(t));
}

/// Sorted, nonempty batches, geometrically sized from bottom to top, and
/// pairwise disjoint when `dd` is set. Each batch is more than twice as
/// long as the one stacked on it, so there are O(log n) batches.
pub open spec fn batches_wf<T: TupleOrd + Copy>(bs: Seq<Relation<T>>, dd: bool) -> bool {
    &&& forall|bi: int| 0 <= bi < bs.len() ==> (#[trigger] bs[bi]).wf() && bs[bi]@.len() > 0
    &&& forall|bi: int| 0 <= bi < bs.len() - 1 ==> (#[trigger] bs[bi])@.len() > 2 * bs[bi + 1]@.len()
    &&& dd ==> forall|bi: int, bj: int, t: T|
        #![trigger bs[bi]@.contains(t), bs[bj]@.contains(t)]
        0 <= bi < bj < bs.len() && bs[bi]@.contains(t) ==> !bs[bj]@.contains(t)
}

/// A monotonically increasing set of tuples.
///
/// The tuples are partitioned into three strata: `stable` batches hold the
/// tuples all operators have already seen; `recent` holds the tuples found
/// in the previous round, which operators read in this round; `pending`
/// holds contributions queued for the next round. `changed` advances the
/// strata. When `distinct` is set, a tuple reaching `recent` is never one
/// already present in a stable batch.
pub struct Variable<T: TupleOrd + Copy> {
    /// Whether tuples are deduplicated against stable before promotion.
    pub distinct: bool,
    /// A diagnostic label.
    pub name: String,
    /// Sorted batches of tuples from earlier rounds.
    pub stable: Vec<Relation<T>>,
    /// The tuples discovered in the previous round.
    pub recent: Relation<T>,
    /// Contributions awaiting the next round.
    pub pending: Vec<Relation<T>>,
}

impl<T: TupleOrd + Copy> Variable<T> {
    /// A stable batch holds `t`.
    pub open spec fn stable_contains(self, t: T) -> bool {
        batches_contain(self.stable@, t)
    }

    /// The recent stratum holds `t`.
    pub open spec fn recent_contains(self, t: T) -> bool {
        self.recent@.contains(t)
    }

    /// A pending contribution holds `t`.
    pub open spec fn pending_contains(self, t: T) -> bool {
        batches_contain(self.pending@, t)
    }

    /// Some stratum holds `t`.
    pub open spec fn contains_tuple(self, t: T) -> bool {
        self.stable_contains(t) || self.recent_contains(t) || self.pending_contains(t)
    }

    /// Well formed: every stratum is sorted and duplicate free, stable
    /// batches are not empty, and, for a distinct variable, no tuple sits
    /// in two stable batches nor in both recent and a stable batch.
    pub open spec fn wf(self) -> bool {
        &&& batches_wf(self.stable@, self.distinct)
        &&& self.recent.wf()
        &&& forall|pi: int| 0 <= pi < self.pending@.len() ==> (#[trigger] self.pending@[pi]).wf()
        &&& self.distinct ==> forall|t: T|
            #[trigger] self.recent@.contains(t) ==> !batches_contain(self.stable@, t)
    }

    /// A fresh, empty, distinct variable.
    pub fn new(name: String) -> (v: Self)
        ensures
            v.wf(),
            v.distinct,
            v.name == name,
            v.stable@.len() == 0,
            v.recent@.len() == 0,
            v.pending@.len() == 0,
    {
        Variable {
            distinct: true,
            name,
            stable: Vec::new(),
            recent: Relation::new(),
            pending: Vec::new(),
        }
    }

    /// Queues a relation for the next round.
    pub fn insert(&mut self, relation: Relation<T>)
        requires
            old(self).wf(),
            relation.wf(),
        ensures
            final(self).wf(),
            final(self).pending@ == old(self).pending@.push(relation),
            final(self).stable@ == old(self).stable@,
            final(self).recent == old(self).recent,
            final(self).distinct == old(self).distinct,
            final(self).name == old(self).name,
    {
        self.pending.push(relation);
    }

    /// Tells whether the top stable batch should be folded into `rec`.
    fn should_fold(stable: &Vec<Relation<T>>, rec: &Relation<T>) -> (c: bool)
        ensures
            c == (stable@.len() > 0 && stable@.last()@.len() <= 2 * rec@.len()),
    {
        let n = stable.len();
        if n == 0 {
            false
        } else {
            le_double(stable[n - 1].len(), rec.len())
        }
    }


    /// Folds the recent stratum into stable: pops batches while the top one
    /// is at most twice the growing merge, then pushes the merge as the new
    /// top, keeping the batches geometrically sized. Pending is untouched
    /// and recent is left empty; afterwards stable holds exactly what
    /// stable and recent held before.
    #[verifier::loop_isolation(false)]
    #[verifier::rlimit(100)]
    fn fold_recent(&mut self)
        requires
            old(self).wf(),
        ensures
            final(self).recent@.len() == 0,
            final(self).pending@ == old(self).pending@,
            final(self).distinct == old(self).distinct,
            final(self).name == old(self).name,
            batches_wf(final(self).stable@, final(self).distinct),
            forall|t: T|
                #[trigger] batches_contain(final(self).stable@, t) <==> (batches_contain(
                    old(self).stable@,
                    t,
                ) || old(self).recent@.contains(t)),
            old(self).recent@.len() == 0 ==> final(self).stable@ == old(self).stable@,
    {
        let ghost init_stable = self.stable@;
        let ghost init_recent = self.recent@;
        let ghost init_pending = self.pending@;
        let ghost dd = self.distinct;
        let mut rec = Relation::new();
        core::mem::swap(&mut rec, &mut self.recent);
        while Self::should_fold(&self.stable, &rec)
            invariant
                rec.wf(),
                self.recent@.len() == 0,
                self.pending@ == init_pending,
                self.distinct == dd,
                self.name == old(self).name,
                batches_wf(self.stable@, dd),
                forall|t: T|
                    (batches_contain(self.stable@, t) || rec@.contains(t)) <==> (batches_contain(
                        init_stable,
                        t,
                    ) || init_recent.contains(t)),
                dd ==> forall|t: T|
                    #[trigger] rec@.contains(t) ==> !batches_contain(self.stable@, t),
                init_recent.len() == 0 ==> self.stable@ == init_stable && rec@.len() == 0,
            decreases self.stable@.len(),
        {
            let ghost pre = self.stable@;
            let last = match self.stable.pop() {
                Some(l) => l,
                None => Relation::new(),
            };
            proof {
                assert(last == pre.last());
                assert(self.stable@ =~= pre.drop_last());
                assert forall|t: T|
                    (batches_contain(self.stable@, t) || last@.contains(t)) <==> batches_contain(
                    pre,
                    t,
                ) by {
                    lemma_pop_contains(pre, t);
                };
                if dd {
                    assert forall|t: T| #[trigger] last@.contains(t) implies !batches_contain(
                        self.stable@,
                        t,
                    ) by {
                        if batches_contain(self.stable@, t) {
                            let bi = choose|bi: int|
                                0 <= bi < self.stable@.len() && self.stable@[bi]@.contains(t);
                            assert(pre[bi]@.contains(t) && pre[pre.len() - 1]@.contains(t));
                        }
                    };
                }
            }
            rec = rec.merge(last);
        }
        if rec.len() > 0 {
            let ghost pre = self.stable@;
            let ghost recv = rec@;
            self.stable.push(rec);
            proof {
                assert(self.stable@ == pre.push(rec));
                assert forall|t: T|
                    batches_contain(self.stable@, t) <==> (batches_contain(pre, t)
                        || recv.contains(t)) by {
                    lemma_push_batches_contain(pre, rec, t);
                };
                assert(batches_wf(self.stable@, dd)) by {
                    if dd {
                        assert forall|bi: int, bj: int, t: T|
                            #![trigger self.stable@[bi]@.contains(t), self.stable@[bj]@.contains(t)]
                            0 <= bi < bj < self.stable@.len() && self.stable@[bi]@.contains(t)
                                implies !self.stable@[bj]@.contains(t) by {
                            if bj == pre.len() {
                                if self.stable@[bj]@.contains(t) {
                                    assert(pre[bi]@.contains(t));
                                    assert(batches_contain(pre, t));
                                }
                            } else {
                                assert(pre[bi]@.contains(t) ==> !pre[bj]@.contains(t));
                            }
                        };
                    }
                }
            }
        }
        proof {
            assert forall|t: T|
                #[trigger] batches_contain(self.stable@, t) <==> (batches_contain(
                    init_stable,
                    t,
                ) || init_recent.contains(t)) by {}
        }
    }

    /// Advances the strata by one round and reports whether new tuples
    /// became visible.
    ///
    /// The recent stratum is folded into stable, keeping batches
    /// geometrically sized; the pending contributions are consolidated
    /// into one relation, deduplicated against every stable batch when the
    /// variable is distinct, and become the new recent stratum. The set of
    /// tuples held by the variable does not change, and pending is left
    /// empty. A round on a settled variable (recent and pending empty)
    /// changes nothing and reports false.
    #[verifier::loop_isolation(false)]
    #[verifier::rlimit(100)]
    #[verifier::spinoff_prover]
    pub fn changed(&mut self) -> (b: bool)
        requires
            old(self).wf(),
        ensures
            final(self).wf(),
            final(self).pending@.len() == 0,
            b == (final(self).recent@.len() > 0),
            final(self).distinct == old(self).distinct,
            final(self).name == old(self).name,
            forall|t: T| final(self).contains_tuple(t) <==> old(self).contains_tuple(t),
            forall|t: T|
                #[trigger] batches_contain(final(self).stable@, t) <==> (batches_contain(
                    old(self).stable@,
                    t,
                ) || old(self).recent@.contains(t)),
            !old(self).distinct ==> forall|t: T|
                #[trigger] final(self).recent@.contains(t) <==> batches_contain(
                    old(self).pending@,
                    t,
                ),
            old(self).distinct ==> forall|t: T|
                #[trigger] final(self).recent@.contains(t) <==> (batches_contain(
                    old(self).pending@,
                    t,
                ) && !batches_contain(final(self).stable@, t)),
            old(self).recent@.len() == 0 && old(self).pending@.len() == 0 ==> !b
                && final(self).stable@ == old(self).stable@ && final(self).recent@.len() == 0,
    {
        let ghost init_stable = self.stable@;
        let ghost init_recent = self.recent@;
        let ghost init_pending = self.pending@;
        let ghost dd = self.distinct;
        // 1. Fold recent into stable, merging while the top batch is small.
        self.fold_recent();
        let ghost fs = self.stable@;
        // 2. Consolidate pending into the next recent stratum.
        let ghost pend0 = self.pending@;
        let first = self.pending.pop();
        match first {
            None => {
                false
            },
            Some(mut acc) => {
                proof {
                    assert(self.pending@ =~= pend0.drop_last());
                    assert forall|t: T|
                        (acc@.contains(t) || batches_contain(self.pending@, t))
                            <==> batches_contain(init_pending, t) by {
                        lemma_pop_contains(pend0, t);
                    };
                }
                while self.pending.len() > 0
                    invariant
                        acc.wf(),
                        self.recent@.len() == 0,
                        self.stable@ == fs,
                        self.distinct == dd,
                        self.name == old(self).name,
                        forall|pi: int|
                            0 <= pi < self.pending@.len() ==> (#[trigger] self.pending@[pi]).wf(),
                        forall|t: T|
                            (acc@.contains(t) || batches_contain(self.pending@, t))
                                <==> batches_contain(init_pending, t),
                    decreases self.pending@.len(),
                {
                    let ghost prep = self.pending@;
                    let ghost preacc = acc@;
                    let nxt = match self.pending.pop() {
                        Some(x) => x,
                        None => Relation::new(),
                    };
                    acc = acc.merge(nxt);
                    proof {
                        assert(self.pending@ =~= prep.drop_last());
                        assert(nxt == prep.last());
                        assert forall|t: T|
                            (acc@.contains(t) || batches_contain(self.pending@, t))
                                <==> batches_contain(init_pending, t) by {
                            lemma_pop_contains(prep, t);
                            assert(acc@.contains(t) <==> (preacc.contains(t) || nxt@.contains(
                                t,
                            )));
                        };
                    }
                }
                // 3. Deduplicate against stable when the variable is distinct.
                let ghost merged = acc@;
                if self.distinct {
                    let nb = self.stable.len();
                    let mut bi: usize = 0;
                    while bi < nb
                        invariant
                            bi <= nb,
                            nb == self.stable@.len(),
                            self.stable@ == fs,
                            self.recent@.len() == 0,
                            self.pending@.len() == 0,
                            self.distinct == dd,
                            self.name == old(self).name,
                            acc.wf(),
                            forall|t: T|
                                #[trigger] acc@.contains(t) <==> (merged.contains(t)
                                    && absent_upto(fs, bi as int, t)),
                        decreases nb - bi,
                    {
                        let ghost prea = acc@;
                        acc = filter_absent(acc, &self.stable[bi]);
                        proof {
                            assert forall|t: T|
                                #[trigger] acc@.contains(t) <==> (merged.contains(t)
                                    && absent_upto(fs, bi + 1, t)) by {
                                if acc@.contains(t) {
                                    assert(prea.contains(t) && !fs[bi as int]@.contains(t));
                                    assert forall|bj: int| 0 <= bj < bi + 1 implies !(
                                    #[trigger] fs[bj])@.contains(t) by {}
                                }
                                if merged.contains(t) && absent_upto(fs, bi + 1, t) {
                                    assert(!fs[bi as int]@.contains(t));
                                    assert(absent_upto(fs, bi as int, t));
                                    assert(prea.contains(t));
                                }
                            };
                        }
                        bi += 1;
                    }
                }
                self.recent = acc;
                let b = self.recent.len() > 0;
                proof {
                    if dd {
                        assert forall|t: T|
                            #[trigger] self.recent@.contains(t) implies !batches_contain(
                            self.stable@,
                            t,
                        ) by {
                            if batches_contain(self.stable@, t) {
                                let bj = choose|bj: int| 0 <= bj < fs.len() && fs[bj]@.contains(t);
                                assert(!fs[bj]@.contains(t));
                            }
                        };
                    }
                    assert forall|t: T|
                        final(self).contains_tuple(t) <==> old(self).contains_tuple(t) by {
                        if dd && merged.contains(t) && !self.recent@.contains(t) {
                            lemma_not_absent(fs, t);
                        }
                    };
                    if dd {
                        assert forall|t: T|
                            #[trigger] self.recent@.contains(t) <==> (batches_contain(
                            init_pending,
                            t,
                        ) && !batches_contain(fs, t)) by {
                            if merged.contains(t) && !absent_upto(fs, fs.len() as int, t) {
                                lemma_not_absent(fs, t);
                            }
                            if batches_contain(fs, t) {
                                let bj = choose|bj: int| 0 <= bj < fs.len() && fs[bj]@.contains(t);
                                assert(!absent_upto(fs, fs.len() as int, t));
                            }
                        };
                    }
                }
                b
            },
        }
    }

    /// Consumes the variable after the fixpoint and returns all its tuples
    /// as one relation. Recent and pending must already be empty.
    pub fn complete(self) -> (r: Relation<T>)
        requires
            self.wf(),
            self.recent@.len() == 0,
            self.pending@.len() == 0,
        ensures
            r.wf(),
            forall|t: T| #[trigger] r@.contains(t) <==> self.contains_tuple(t),
    {
        let ghost init_stable = self.stable@;
        let mut result = Relation::new();
        let mut stable = self.stable;
        while stable.len() > 0
            invariant
                result.wf(),
                forall|t: T|
                    (batches_contain(stable@, t) || result@.contains(t)) <==> batches_contain(
                        init_stable,
                        t,
                    ),
            decreases stable@.len(),
        {
            let ghost pre = stable@;
            let ghost prer = result@;
            let batch = match stable.pop() {
                Some(x) => x,
                None => Relation::new(),
            };
            let ghost bv = batch@;
            result = result.merge(batch);
            proof {
                assert(stable@ =~= pre.drop_last());
                assert forall|t: T|
                    (batches_contain(stable@, t) || result@.contains(t)) <==> batches_contain(
                    init_stable,
                    t,
                ) by {
                    lemma_pop_contains(pre, t);
                    assert(result@.contains(t) <==> (prer.contains(t) || bv.contains(t)));
                };
            }
        }
        result
    }
}

/// Keeps the tuples of `a` that appear nowhere in `batch`, locating each
/// candidate in `batch` by galloping.
#[verifier::loop_isolation(false)]
fn filter_absent<T: TupleOrd + Copy>(a: Relation<T>, batch: &Relation<T>) -> (r: Relation<T>)
    requires
        a.wf(),
        batch.wf(),
    ensures
        r.wf(),
        forall|t: T| #[trigger] r@.contains(t) <==> (a@.contains(t) && !batch@.contains(t)),
{
    let ghost av = a@;
    let ghost bv = batch@;
    let n = a.len();
    let mut out: Vec<T> = Vec::new();
    let mut i: usize = 0;
    while i < n
        invariant
            i <= n,
            sorted_strict(out@),
            out@.len() > 0 ==> exists|m: int| 0 <= m < i && av[m] == out@.last(),
            forall|t: T|
                #[trigger] out@.contains(t) <==> (av.take(i as int).contains(t) && !bv.contains(
                    t,
                )),
        decreases n - i,
    {
        let x = a.get(i);
        let pos = gallop(batch.elements.as_slice(), &x);
        let present = pos < batch.len() && eq_exec(&batch.elements[pos], &x);
        proof {
            lemma_gallop_member(bv, x, pos as int);
            assert(present == bv.contains(x));
            assert(av.take(i + 1) =~= av.take(i as int).push(av[i as int]));
            crate::relation::lemma_push_contains(av.take(i as int), av[i as int]);
        }
        if !present {
            let ghost old_out = out@;
            out.push(x);
            proof {
                assert(out@ == old_out.push(x));
                crate::relation::lemma_push_contains(old_out, x);
                assert forall|p: int, q: int| 0 <= p < q < out@.len() implies lt(
                    #[trigger] out@[p],
                    #[trigger] out@[q],
                ) by {
                    if q == out@.len() - 1 && old_out.len() > 0 {
                        let m = choose|m: int| 0 <= m < i && av[m] == old_out.last();
                        assert(lt(av[m], av[i as int]));
                        if p < q - 1 {
                            assert(lt(old_out[p], old_out[q - 1]));
                            crate::order::lemma_lt_lt(out@[p], old_out.last(), x);
                        }
                    }
                };
                assert(out@.last() == av[i as int]);
            }
        }
        i += 1;
    }
    proof {
        assert(av.take(n as int) =~= av);
    }
    Relation { elements: out }
}

/// `t` is a possible output of `f` on some tuple of `s`.
#[verifier::opaque]
pub open spec fn mapped_from<T2, T, F: Fn(T2) -> T>(f: F, s: Seq<T2>, t: T) -> bool {
    exists|i: int| 0 <= i < s.len() && call_ensures(f, (s[i],), t)
}

/// Some output of `f` on the tuple at `i` stands in `rs`.
pub open spec fn map_covered<T2, T, F: Fn(T2) -> T>(f: F, s: Seq<T2>, i: int, rs: Seq<T>) -> bool {
    exists|t: T| rs.contains(t) && call_ensures(f, (s[i],), t)
}

/// `t` is a possible output of `f` on some pair of `s` whose key is absent
/// from `ks`.
#[verifier::opaque]
pub open spec fn anti_emitted<K, V, T, F: Fn(K, V) -> T>(
    f: F,
    s: Seq<(K, V)>,
    ks: Seq<K>,
    t: T,
) -> bool {
    exists|i: int| 0 <= i < s.len() && !ks.contains(s[i].0) && call_ensures(f, (s[i].0, s[i].1), t)
}

/// Some output of `f` on the pair at `i` stands in `rs`.
pub open spec fn anti_covered<K, V, T, F: Fn(K, V) -> T>(
    f: F,
    s: Seq<(K, V)>,
    i: int,
    rs: Seq<T>,
) -> bool {
    exists|t: T| rs.contains(t) && call_ensures(f, (s[i].0, s[i].1), t)
}

impl<T: TupleOrd + Copy> Variable<T> {
    /// Adds the image of `input`'s recent tuples under `logic` as one
    /// pending contribution.
    #[verifier::loop_isolation(false)]
    pub fn from_map<T2: TupleOrd + Copy, F: Fn(T2) -> T>(
        &mut self,
        input: &Variable<T2>,
        logic: F,
    )
        requires
            old(self).wf(),
            input.wf(),
            forall|t2: T2| #[trigger] call_requires(logic, (t2,)),
        ensures
            final(self).wf(),
            final(self).pending@.len() == old(self).pending@.len() + 1,
            forall|pi: int|
                0 <= pi < old(self).pending@.len() ==> final(self).pending@[pi] == old(
                    self,
                ).pending@[pi],
            final(self).stable@ == old(self).stable@,
            final(self).recent == old(self).recent,
            final(self).distinct == old(self).distinct,
            final(self).name == old(self).name,
            forall|t: T|
                #[trigger] final(self).pending@.last()@.contains(t) ==> mapped_from(
                    logic,
                    input.recent@,
                    t,
                ),
            forall|i: int|
                0 <= i < input.recent@.len() ==> #[trigger] map_covered(
                    logic,
                    input.recent@,
                    i,
                    final(self).pending@.last()@,
                ),
    {
        let ghost sv = input.recent@;
        let n = input.recent.len();
        let mut out: Vec<T> = Vec::new();
        let mut i: usize = 0;
        while i < n
            invariant
                i <= n,
                forall|idx: int|
                    0 <= idx < out@.len() ==> mapped_from(logic, sv, #[trigger] out@[idx]),
                forall|m: int| 0 <= m < i ==> #[trigger] map_covered(logic, sv, m, out@),
            decreases n - i,
        {
            let x = input.recent.get(i);
            let t = logic(x);
            let ghost prev = out@;
            out.push(t);
            proof {
                assert(out@ == prev.push(t));
                crate::relation::lemma_push_contains(prev, t);
                assert(mapped_from(logic, sv, t)) by {
                    reveal(mapped_from);
                }
                assert forall|m: int| 0 <= m <= i implies #[trigger] map_covered(
                    logic,
                    sv,
                    m,
                    out@,
                ) by {
                    if m < i {
                        assert(map_covered(logic, sv, m, prev));
                        let w = choose|w: T| prev.contains(w) && call_ensures(logic, (sv[m],), w);
                        assert(out@.contains(w));
                    } else {
                        assert(out@.contains(t));
                    }
                };
            }
            i += 1;
        }
        let ghost outv = out@;
        let rel = Relation::from_vec(out);
        proof {
            assert forall|m: int| 0 <= m < sv.len() implies #[trigger] map_covered(
                logic,
                sv,
                m,
                rel@,
            ) by {
                assert(map_covered(logic, sv, m, outv));
                let w = choose|w: T| outv.contains(w) && call_ensures(logic, (sv[m],), w);
                assert(rel@.contains(w));
            };
            assert forall|t: T| #[trigger] rel@.contains(t) implies mapped_from(logic, sv, t) by {
                assert(outv.contains(t));
                let idx = choose|idx: int| 0 <= idx < outv.len() && outv[idx] == t;
                assert(mapped_from(logic, sv, outv[idx]));
            };
        }
        self.insert(rel);
    }

    /// Adds `logic` of every recent pair of `input1` whose key is absent
    /// from `input2`, as one pending contribution.
    #[verifier::loop_isolation(false)]
    pub fn from_antijoin<K: TupleOrd + Copy, V: TupleOrd + Copy, F: Fn(K, V) -> T>(
        &mut self,
        input1: &Variable<(K, V)>,
        input2: &Relation<K>,
        logic: F,
    )
        requires
            old(self).wf(),
            input1.wf(),
            input2.wf(),
            forall|k: K, v: V| #[trigger] call_requires(logic, (k, v)),
        ensures
            final(self).wf(),
            final(self).pending@.len() == old(self).pending@.len() + 1,
            forall|pi: int|
                0 <= pi < old(self).pending@.len() ==> final(self).pending@[pi] == old(
                    self,
                ).pending@[pi],
            final(self).stable@ == old(self).stable@,
            final(self).recent == old(self).recent,
            final(self).distinct == old(self).distinct,
            final(self).name == old(self).name,
            forall|t: T|
                #[trigger] final(self).pending@.last()@.contains(t) ==> anti_emitted(
                    logic,
                    input1.recent@,
                    input2@,
                    t,
                ),
            forall|i: int|
                0 <= i < input1.recent@.len() && !input2@.contains(input1.recent@[i].0)
                    ==> #[trigger] anti_covered(
                    logic,
                    input1.recent@,
                    i,
                    final(self).pending@.last()@,
                ),
    {
        let ghost sv = input1.recent@;
        let ghost kv = input2@;
        let n = input1.recent.len();
        let mut out: Vec<T> = Vec::new();
        let mut i: usize = 0;
        while i < n
            invariant
                i <= n,
                forall|idx: int|
                    0 <= idx < out@.len() ==> anti_emitted(logic, sv, kv, #[trigger] out@[idx]),
                forall|m: int|
                    0 <= m < i && !kv.contains(sv[m].0) ==> #[trigger] anti_covered(
                        logic,
                        sv,
                        m,
                        out@,
                    ),
            decreases n - i,
        {
            let x = input1.recent.get(i);
            let pos = gallop(input2.elements.as_slice(), &x.0);
            let present = pos < input2.len() && eq_exec(&input2.elements[pos], &x.0);
            proof {
                lemma_gallop_member(kv, x.0, pos as int);
                assert(present == kv.contains(x.0));
            }
            if !present {
                let t = logic(x.0, x.1);
                let ghost prev = out@;
                out.push(t);
                proof {
                    assert(out@ == prev.push(t));
                    crate::relation::lemma_push_contains(prev, t);
                    assert(anti_emitted(logic, sv, kv, t)) by {
                        reveal(anti_emitted);
                    }
                    assert forall|m: int|
                        0 <= m <= i && !kv.contains(sv[m].0) implies #[trigger] anti_covered(
                        logic,
                        sv,
                        m,
                        out@,
                    ) by {
                        if m < i {
                            assert(anti_covered(logic, sv, m, prev));
                            let w = choose|w: T|
                                prev.contains(w) && call_ensures(logic, (sv[m].0, sv[m].1), w);
                            assert(out@.contains(w));
                        } else {
                            assert(out@.contains(t));
                        }
                    };
                }
            }
            i += 1;
        }
        let ghost outv = out@;
        let rel = Relation::from_vec(out);
        proof {
            assert forall|m: int|
                0 <= m < sv.len() && !kv.contains(sv[m].0) implies #[trigger] anti_covered(
                logic,
                sv,
                m,
                rel@,
            ) by {
                assert(anti_covered(logic, sv, m, outv));
                let w = choose|w: T| outv.contains(w) && call_ensures(logic, (sv[m].0, sv[m].1), w);
                assert(rel@.contains(w));
            };
            assert forall|t: T| #[trigger] rel@.contains(t) implies anti_emitted(
                logic,
                sv,
                kv,
                t,
            ) by {
                assert(outv.contains(t));
                let idx = choose|idx: int| 0 <= idx < outv.len() && outv[idx] == t;
                assert(anti_emitted(logic, sv, kv, outv[idx]));
            };
        }
        self.insert(rel);
    }
}

/// `t` is a possible output of `f` on a matching pair drawn from the three
/// regions of a semi-naive join step: recent with recent, recent with a
/// stable batch of the other side, or a stable batch with recent.
#[verifier::opaque]
pub open spec fn join_emitted<
    K: TupleOrd + Copy,
    V1: TupleOrd + Copy,
    V2: TupleOrd + Copy,
    T,
    F: Fn(K, V1, V2) -> T,
>(
    f: F,
    r1: Seq<(K, V1)>,
    st1: Seq<Relation<(K, V1)>>,
    r2: Seq<(K, V2)>,
    st2: Seq<Relation<(K, V2)>>,
    t: T,
) -> bool {
    ||| emitted_match(f, r1, r2, t)
    ||| exists|bi: int| 0 <= bi < st2.len() && emitted_match(f, r1, st2[bi]@, t)
    ||| exists|bi: int| 0 <= bi < st1.len() && emitted_match(f, st1[bi]@, r2, t)
}

/// Coverage in a working list carries into any list that keeps its members.
proof fn lemma_covered_rel<
    K: TupleOrd + Copy,
    V1: TupleOrd + Copy,
    V2: TupleOrd + Copy,
    T: TupleOrd + Copy,
    F: Fn(K, V1, V2) -> T,
>(f: F, s1: Seq<(K, V1)>, s2: Seq<(K, V2)>, i: int, j: int, rs: Seq<T>, relv: Seq<T>)
    requires
        covered_from(f, s1, s2, i, j, rs, 0),
        forall|t: T| #[trigger] rs.contains(t) ==> relv.contains(t),
    ensures
        covered_from(f, s1, s2, i, j, relv, 0),
{
    let w = choose|x: int| 0 <= x < rs.len() && emits(f, s1, s2, i, j, rs[x]);
    assert(rs.contains(rs[w]));
    assert(relv.contains(rs[w]));
    let k2 = choose|k2: int| 0 <= k2 < relv.len() && relv[k2] == rs[w];
    assert(emits(f, s1, s2, i, j, relv[k2]));
}

impl<T: TupleOrd + Copy> Variable<T> {
    /// Adds one pending contribution holding `logic` of every pair of
    /// tuples of the two inputs that agree on their key, where at least one
    /// side of the pair is recent: recent with recent, recent with stable,
    /// and stable with recent. Pairs of two stable tuples met in an earlier
    /// round and are not re-derived.
    #[verifier::loop_isolation(false)]
    #[verifier::rlimit(100)]
    pub fn from_join<K: TupleOrd + Copy, V1: TupleOrd + Copy, V2: TupleOrd + Copy, F: Fn(
        K,
        V1,
        V2,
    ) -> T>(&mut self, input1: &Variable<(K, V1)>, input2: &Variable<(K, V2)>, logic: F)
        requires
            old(self).wf(),
            input1.wf(),
            input2.wf(),
            forall|k: K, v1: V1, v2: V2| #[trigger] call_requires(logic, (k, v1, v2)),
        ensures
            final(self).wf(),
            final(self).pending@.len() == old(self).pending@.len() + 1,
            forall|pi: int|
                0 <= pi < old(self).pending@.len() ==> final(self).pending@[pi] == old(
                    self,
                ).pending@[pi],
            final(self).stable@ == old(self).stable@,
            final(self).recent == old(self).recent,
            final(self).distinct == old(self).distinct,
            final(self).name == old(self).name,
            forall|t: T|
                #[trigger] final(self).pending@.last()@.contains(t) ==> join_emitted(
                    logic,
                    input1.recent@,
                    input1.stable@,
                    input2.recent@,
                    input2.stable@,
                    t,
                ),
            forall|i: int, j: int|
                #[trigger] key_match(input1.recent@, input2.recent@, i, j) ==> covered_from(
                    logic,
                    input1.recent@,
                    input2.recent@,
                    i,
                    j,
                    final(self).pending@.last()@,
                    0,
                ),
            forall|bi: int, i: int, j: int|
                0 <= bi < input2.stable@.len() && #[trigger] key_match(
                    input1.recent@,
                    input2.stable@[bi]@,
                    i,
                    j,
                ) ==> covered_from(
                    logic,
                    input1.recent@,
                    input2.stable@[bi]@,
                    i,
                    j,
                    final(self).pending@.last()@,
                    0,
                ),
            forall|bi: int, i: int, j: int|
                0 <= bi < input1.stable@.len() && #[trigger] key_match(
                    input1.stable@[bi]@,
                    input2.recent@,
                    i,
                    j,
                ) ==> covered_from(
                    logic,
                    input1.stable@[bi]@,
                    input2.recent@,
                    i,
                    j,
                    final(self).pending@.last()@,
                    0,
                ),
    {
        let ghost r1v = input1.recent@;
        let ghost st1v = input1.stable@;
        let ghost r2v = input2.recent@;
        let ghost st2v = input2.stable@;
        let mut results: Vec<T> = Vec::new();
        let n2 = input2.stable.len();
        let mut bi: usize = 0;
        while bi < n2
            invariant
                bi <= n2,
                forall|idx: int|
                    0 <= idx < results@.len() ==> join_emitted(
                        logic,
                        r1v,
                        st1v,
                        r2v,
                        st2v,
                        #[trigger] results@[idx],
                    ),
                forall|b2: int, i: int, j: int|
                    0 <= b2 < bi && #[trigger] key_match(r1v, st2v[b2]@, i, j) ==> covered_from(
                        logic,
                        r1v,
                        st2v[b2]@,
                        i,
                        j,
                        results@,
                        0,
                    ),
            decreases n2 - bi,
        {
            let ghost prev = results@;
            join_helper(
                input1.recent.elements.as_slice(),
                input2.stable[bi].elements.as_slice(),
                &logic,
                &mut results,
            );
            proof {
                assert forall|idx: int|
                    0 <= idx < results@.len() implies join_emitted(
                    logic,
                    r1v,
                    st1v,
                    r2v,
                    st2v,
                    #[trigger] results@[idx],
                ) by {
                    if idx < prev.len() {
                        assert(results@[idx] == prev[idx]);
                        assert(join_emitted(logic, r1v, st1v, r2v, st2v, prev[idx]));
                    } else {
                        assert(emitted_match(logic, r1v, st2v[bi as int]@, results@[idx]));
                        assert(join_emitted(logic, r1v, st1v, r2v, st2v, results@[idx])) by {
                            reveal(join_emitted);
                        }
                    }
                };
                assert forall|b2: int, i: int, j: int|
                    0 <= b2 < bi + 1 && #[trigger] key_match(r1v, st2v[b2]@, i, j) implies covered_from(
                    logic,
                    r1v,
                    st2v[b2]@,
                    i,
                    j,
                    results@,
                    0,
                ) by {
                    if b2 < bi {
                        assert(covered_from(logic, r1v, st2v[b2]@, i, j, prev, 0));
                        lemma_covered_grow(logic, r1v, st2v[b2]@, i, j, prev, results@, 0);
                    } else {
                        assert(covered_from(logic, r1v, st2v[b2]@, i, j, results@, prev.len() as int));
                        lemma_covered_widen(logic, r1v, st2v[b2]@, i, j, results@, 0, prev.len() as int);
                    }
                };
            }
            bi += 1;
        }
        let n1 = input1.stable.len();
        let mut b1: usize = 0;
        while b1 < n1
            invariant
                b1 <= n1,
                forall|idx: int|
                    0 <= idx < results@.len() ==> join_emitted(
                        logic,
                        r1v,
                        st1v,
                        r2v,
                        st2v,
                        #[trigger] results@[idx],
                    ),
                forall|b2: int, i: int, j: int|
                    0 <= b2 < st2v.len() && #[trigger] key_match(r1v, st2v[b2]@, i, j)
                        ==> covered_from(logic, r1v, st2v[b2]@, i, j, results@, 0),
                forall|b2: int, i: int, j: int|
                    0 <= b2 < b1 && #[trigger] key_match(st1v[b2]@, r2v, i, j) ==> covered_from(
                        logic,
                        st1v[b2]@,
                        r2v,
                        i,
                        j,
                        results@,
                        0,
                    ),
            decreases n1 - b1,
        {
            let ghost prev = results@;
            join_helper(
                input1.stable[b1].elements.as_slice(),
                input2.recent.elements.as_slice(),
                &logic,
                &mut results,
            );
            proof {
                assert forall|idx: int|
                    0 <= idx < results@.len() implies join_emitted(
                    logic,
                    r1v,
                    st1v,
                    r2v,
                    st2v,
                    #[trigger] results@[idx],
                ) by {
                    if idx < prev.len() {
                        assert(results@[idx] == prev[idx]);
                        assert(join_emitted(logic, r1v, st1v, r2v, st2v, prev[idx]));
                    } else {
                        assert(emitted_match(logic, st1v[b1 as int]@, r2v, results@[idx]));
                        assert(join_emitted(logic, r1v, st1v, r2v, st2v, results@[idx])) by {
                            reveal(join_emitted);
                        }
                    }
                };
                assert forall|b2: int, i: int, j: int|
                    0 <= b2 < st2v.len() && #[trigger] key_match(r1v, st2v[b2]@, i, j) implies covered_from(
                    logic,
                    r1v,
                    st2v[b2]@,
                    i,
                    j,
                    results@,
                    0,
                ) by {
                    assert(covered_from(logic, r1v, st2v[b2]@, i, j, prev, 0));
                    lemma_covered_grow(logic, r1v, st2v[b2]@, i, j, prev, results@, 0);
                };
                assert forall|b2: int, i: int, j: int|
                    0 <= b2 < b1 + 1 && #[trigger] key_match(st1v[b2]@, r2v, i, j) implies covered_from(
                    logic,
                    st1v[b2]@,
                    r2v,
                    i,
                    j,
                    results@,
                    0,
                ) by {
                    if b2 < b1 {
                        assert(covered_from(logic, st1v[b2]@, r2v, i, j, prev, 0));
                        lemma_covered_grow(logic, st1v[b2]@, r2v, i, j, prev, results@, 0);
                    } else {
                        assert(covered_from(logic, st1v[b2]@, r2v, i, j, results@, prev.len() as int));
                        lemma_covered_widen(logic, st1v[b2]@, r2v, i, j, results@, 0, prev.len() as int);
                    }
                };
            }
            b1 += 1;
        }
        let ghost prev = results@;
        join_helper(
            input1.recent.elements.as_slice(),
            input2.recent.elements.as_slice(),
            &logic,
            &mut results,
        );
        proof {
            assert forall|idx: int|
                0 <= idx < results@.len() implies join_emitted(
                logic,
                r1v,
                st1v,
                r2v,
                st2v,
                #[trigger] results@[idx],
            ) by {
                if idx < prev.len() {
                    assert(results@[idx] == prev[idx]);
                    assert(join_emitted(logic, r1v, st1v, r2v, st2v, prev[idx]));
                } else {
                    assert(emitted_match(logic, r1v, r2v, results@[idx]));
                    assert(join_emitted(logic, r1v, st1v, r2v, st2v, results@[idx])) by {
                        reveal(join_emitted);
                    }
                }
            };
            assert forall|b2: int, i: int, j: int|
                0 <= b2 < st2v.len() && #[trigger] key_match(r1v, st2v[b2]@, i, j) implies covered_from(
                logic,
                r1v,
                st2v[b2]@,
                i,
                j,
                results@,
                0,
            ) by {
                assert(covered_from(logic, r1v, st2v[b2]@, i, j, prev, 0));
                lemma_covered_grow(logic, r1v, st2v[b2]@, i, j, prev, results@, 0);
            };
            assert forall|b2: int, i: int, j: int|
                0 <= b2 < st1v.len() && #[trigger] key_match(st1v[b2]@, r2v, i, j) implies covered_from(
                logic,
                st1v[b2]@,
                r2v,
                i,
                j,
                results@,
                0,
            ) by {
                assert(covered_from(logic, st1v[b2]@, r2v, i, j, prev, 0));
                lemma_covered_grow(logic, st1v[b2]@, r2v, i, j, prev, results@, 0);
            };
            assert forall|i: int, j: int| #[trigger] key_match(r1v, r2v, i, j) implies covered_from(
                logic,
                r1v,
                r2v,
                i,
                j,
                results@,
                0,
            ) by {
                assert(covered_from(logic, r1v, r2v, i, j, results@, prev.len() as int));
                lemma_covered_widen(logic, r1v, r2v, i, j, results@, 0, prev.len() as int);
            };
        }
        let ghost outv = results@;
        let rel = Relation::from_vec(results);
        proof {
            assert forall|t: T| #[trigger] rel@.contains(t) implies join_emitted(
                logic,
                r1v,
                st1v,
                r2v,
                st2v,
                t,
            ) by {
                assert(outv.contains(t));
                let idx = choose|idx: int| 0 <= idx < outv.len() && outv[idx] == t;
                assert(join_emitted(logic, r1v, st1v, r2v, st2v, outv[idx]));
            };
            assert forall|i: int, j: int| #[trigger] key_match(r1v, r2v, i, j) implies covered_from(
                logic,
                r1v,
                r2v,
                i,
                j,
                rel@,
                0,
            ) by {
                lemma_covered_rel(logic, r1v, r2v, i, j, outv, rel@);
            };
            assert forall|b2: int, i: int, j: int|
                0 <= b2 < st2v.len() && #[trigger] key_match(r1v, st2v[b2]@, i, j) implies covered_from(
                logic,
                r1v,
                st2v[b2]@,
                i,
                j,
                rel@,
                0,
            ) by {
                lemma_covered_rel(logic, r1v, st2v[b2]@, i, j, outv, rel@);
            };
            assert forall|b2: int, i: int, j: int|
                0 <= b2 < st1v.len() && #[trigger] key_match(st1v[b2]@, r2v, i, j) implies covered_from(
                logic,
                st1v[b2]@,
                r2v,
                i,
                j,
                rel@,
                0,
            ) by {
                lemma_covered_rel(logic, st1v[b2]@, r2v, i, j, outv, rel@);
            };
        }
        self.insert(rel);
    }
}

impl<T: TupleOrd + Copy> crate::join::JoinInput<T> for Variable<T> {
    open spec fn recent_view(&self) -> Seq<T> {
        self.recent@
    }

    open spec fn stable_views(&self) -> Seq<Seq<T>> {
        self.stable@.map_values(|r: Relation<T>| r@)
    }

    fn recent(&self) -> (r: &[T]) {
        self.recent.elements.as_slice()
    }

    fn stable_count(&self) -> (n: usize) {
        self.stable.len()
    }

    fn stable_at(&self, i: usize) -> (b: &[T]) {
        self.stable[i].elements.as_slice()
    }
}

/// Some tuple held by `out`, in any stratum, is a possible output of `f`
/// on the triple.
pub open spec fn output_covers<
    K: TupleOrd + Copy,
    V1: TupleOrd + Copy,
    V2: TupleOrd + Copy,
    T: TupleOrd + Copy,
    F: Fn(K, V1, V2) -> T,
>(f: F, out: Variable<T>, k: K, v1: V1, v2: V2) -> bool {
    exists|t: T| #[trigger] out.contains_tuple(t) && call_ensures(f, (k, v1, v2), t)
}

/// Semi-naive completeness, one round at a time.
///
/// Consider one round of the host loop on a join rule: `out` takes the
/// delta of `a0` and `b0` through `from_join` (giving `out1`), then every
/// variable takes a step, folding its recent stratum into stable (giving
/// `a2`, `b2`, `out2`). The hypotheses restate what those calls ensure. If
/// every pair of stable tuples of `a0` and `b0` agreeing on a key already
/// had an output in `out0`, then every such pair of the new stable strata
/// has an output in `out2`. Starting from empty variables and applying
/// this round after round, every pair of facts that ever becomes stable
/// meets in the output exactly once across the run.
pub proof fn lemma_semi_naive_round<
    K: TupleOrd + Copy,
    V1: TupleOrd + Copy,
    V2: TupleOrd + Copy,
    T: TupleOrd + Copy,
    F: Fn(K, V1, V2) -> T,
>(
    f: F,
    a0: Variable<(K, V1)>,
    b0: Variable<(K, V2)>,
    out0: Variable<T>,
    out1: Variable<T>,
    a2: Variable<(K, V1)>,
    b2: Variable<(K, V2)>,
    out2: Variable<T>,
)
    requires
        out1.pending@.len() == out0.pending@.len() + 1,
        forall|pi: int|
            0 <= pi < out0.pending@.len() ==> out1.pending@[pi] == out0.pending@[pi],
        out1.stable@ == out0.stable@,
        out1.recent == out0.recent,
        forall|i: int, j: int|
            #[trigger] key_match(a0.recent@, b0.recent@, i, j) ==> covered_from(
                f,
                a0.recent@,
                b0.recent@,
                i,
                j,
                out1.pending@.last()@,
                0,
            ),
        forall|bi: int, i: int, j: int|
            0 <= bi < b0.stable@.len() && #[trigger] key_match(
                a0.recent@,
                b0.stable@[bi]@,
                i,
                j,
            ) ==> covered_from(f, a0.recent@, b0.stable@[bi]@, i, j, out1.pending@.last()@, 0),
        forall|bi: int, i: int, j: int|
            0 <= bi < a0.stable@.len() && #[trigger] key_match(
                a0.stable@[bi]@,
                b0.recent@,
                i,
                j,
            ) ==> covered_from(f, a0.stable@[bi]@, b0.recent@, i, j, out1.pending@.last()@, 0),
        forall|t: T| #[trigger] out2.contains_tuple(t) <==> out1.contains_tuple(t),
        forall|t: (K, V1)|
            #[trigger] batches_contain(a2.stable@, t) <==> (batches_contain(a0.stable@, t)
                || a0.recent@.contains(t)),
        forall|t: (K, V2)|
            #[trigger] batches_contain(b2.stable@, t) <==> (batches_contain(b0.stable@, t)
                || b0.recent@.contains(t)),
        forall|k: K, v1: V1, v2: V2|
            #![trigger batches_contain(a0.stable@, (k, v1)), batches_contain(b0.stable@, (k, v2))]
            batches_contain(a0.stable@, (k, v1)) && batches_contain(b0.stable@, (k, v2))
                ==> output_covers(f, out0, k, v1, v2),
    ensures
        forall|k: K, v1: V1, v2: V2|
            #![trigger batches_contain(a2.stable@, (k, v1)), batches_contain(b2.stable@, (k, v2))]
            batches_contain(a2.stable@, (k, v1)) && batches_contain(b2.stable@, (k, v2))
                ==> output_covers(f, out2, k, v1, v2),
{
    let ghost lrel = out1.pending@.last();
    assert forall|k: K, v1: V1, v2: V2|
        batches_contain(a2.stable@, (k, v1)) && batches_contain(
            b2.stable@,
            (k, v2),
        ) implies output_covers(f, out2, k, v1, v2) by {
        if batches_contain(a0.stable@, (k, v1)) && batches_contain(b0.stable@, (k, v2)) {
            // Both sides were stable already: the round before this one
            // produced the output, and steps only move tuples between
            // strata.
            assert(output_covers(f, out0, k, v1, v2));
            let t = choose|t: T| #[trigger] out0.contains_tuple(t) && call_ensures(
                f,
                (k, v1, v2),
                t,
            );
            if out0.pending_contains(t) {
                let pi = choose|pi: int|
                    0 <= pi < out0.pending@.len() && out0.pending@[pi]@.contains(t);
                assert(out1.pending@[pi]@.contains(t));
            }
            assert(out1.contains_tuple(t));
            assert(out2.contains_tuple(t));
        } else {
            // At least one side was recent: the pair lies in one of the
            // three delta regions the rule covered.
            let li = if a0.recent@.contains((k, v1)) {
                choose|i: int| 0 <= i < a0.recent@.len() && a0.recent@[i] == (k, v1)
            } else {
                0
            };
            let rj = if b0.recent@.contains((k, v2)) {
                choose|j: int| 0 <= j < b0.recent@.len() && b0.recent@[j] == (k, v2)
            } else {
                0
            };
            if a0.recent@.contains((k, v1)) && b0.recent@.contains((k, v2)) {
                assert(key_match(a0.recent@, b0.recent@, li, rj));
                assert(covered_from(f, a0.recent@, b0.recent@, li, rj, lrel@, 0));
                let idx = choose|idx: int|
                    0 <= idx < lrel@.len() && emits(f, a0.recent@, b0.recent@, li, rj, lrel@[idx]);
                assert(call_ensures(f, (k, v1, v2), lrel@[idx])) by {
                    reveal(emits);
                }
                assert(out1.pending@[out1.pending@.len() - 1]@.contains(lrel@[idx]));
                assert(out1.contains_tuple(lrel@[idx]));
                assert(out2.contains_tuple(lrel@[idx]));
            } else if a0.recent@.contains((k, v1)) {
                let bi = choose|bi: int|
                    0 <= bi < b0.stable@.len() && b0.stable@[bi]@.contains((k, v2));
                let j = choose|j: int|
                    0 <= j < b0.stable@[bi]@.len() && b0.stable@[bi]@[j] == (k, v2);
                assert(key_match(a0.recent@, b0.stable@[bi]@, li, j));
                assert(covered_from(f, a0.recent@, b0.stable@[bi]@, li, j, lrel@, 0));
                let idx = choose|idx: int|
                    0 <= idx < lrel@.len() && emits(
                        f,
                        a0.recent@,
                        b0.stable@[bi]@,
                        li,
                        j,
                        lrel@[idx],
                    );
                assert(call_ensures(f, (k, v1, v2), lrel@[idx])) by {
                    reveal(emits);
                }
                assert(out1.pending@[out1.pending@.len() - 1]@.contains(lrel@[idx]));
                assert(out1.contains_tuple(lrel@[idx]));
                assert(out2.contains_tuple(lrel@[idx]));
            } else {
                let bi = choose|bi: int|
                    0 <= bi < a0.stable@.len() && a0.stable@[bi]@.contains((k, v1));
                let i = choose|i: int|
                    0 <= i < a0.stable@[bi]@.len() && a0.stable@[bi]@[i] == (k, v1);
                assert(b0.recent@.contains((k, v2)));
                assert(key_match(a0.stable@[bi]@, b0.recent@, i, rj));
                assert(covered_from(f, a0.stable@[bi]@, b0.recent@, i, rj, lrel@, 0));
                let idx = choose|idx: int|
                    0 <= idx < lrel@.len() && emits(
                        f,
                        a0.stable@[bi]@,
                        b0.recent@,
                        i,
                        rj,
                        lrel@[idx],
                    );
                assert(call_ensures(f, (k, v1, v2), lrel@[idx])) by {
                    reveal(emits);
                }
                assert(out1.pending@[out1.pending@.len() - 1]@.contains(lrel@[idx]));
                assert(out1.contains_tuple(lrel@[idx]));
                assert(out2.contains_tuple(lrel@[idx]));
            }
        }
    };
}

/// `t` is a possible output of `f` on a key-sharing pair of tuples that
/// the two input variables hold, in any of their strata.
pub open spec fn joined_from<
    K: TupleOrd + Copy,
    V1: TupleOrd + Copy,
    V2: TupleOrd + Copy,
    T: TupleOrd + Copy,
    F: Fn(K, V1, V2) -> T,
>(f: F, a: Variable<(K, V1)>, b: Variable<(K, V2)>, t: T) -> bool {
    exists|k: K, v1: V1, v2: V2|
        #![trigger call_ensures(f, (k, v1, v2), t)]
        a.contains_tuple((k, v1)) && b.contains_tuple((k, v2)) && call_ensures(f, (k, v1, v2), t)
}

/// Semi-naive soundness, one round at a time.
///
/// The counterpart of `lemma_semi_naive_round`: if everything `out0` held
/// was an output of `f` on a key-sharing pair drawn from `a0` and `b0`,
/// then after the rule appends its delta and every variable takes a step,
/// the same holds of `out2` against `a2` and `b2` — nothing but join
/// outputs ever appears in the output variable.
pub proof fn lemma_semi_naive_round_sound<
    K: TupleOrd + Copy,
    V1: TupleOrd + Copy,
    V2: TupleOrd + Copy,
    T: TupleOrd + Copy,
    F: Fn(K, V1, V2) -> T,
>(
    f: F,
    a0: Variable<(K, V1)>,
    b0: Variable<(K, V2)>,
    out0: Variable<T>,
    out1: Variable<T>,
    a2: Variable<(K, V1)>,
    b2: Variable<(K, V2)>,
    out2: Variable<T>,
)
    requires
        out1.pending@.len() == out0.pending@.len() + 1,
        forall|pi: int|
            0 <= pi < out0.pending@.len() ==> out1.pending@[pi] == out0.pending@[pi],
        out1.stable@ == out0.stable@,
        out1.recent == out0.recent,
        forall|t: T|
            #[trigger] out1.pending@.last()@.contains(t) ==> join_emitted(
                f,
                a0.recent@,
                a0.stable@,
                b0.recent@,
                b0.stable@,
                t,
            ),
        forall|t: T| #[trigger] out2.contains_tuple(t) <==> out1.contains_tuple(t),
        forall|t: (K, V1)| #[trigger] a2.contains_tuple(t) <==> a0.contains_tuple(t),
        forall|t: (K, V2)| #[trigger] b2.contains_tuple(t) <==> b0.contains_tuple(t),
        forall|t: T| #[trigger] out0.contains_tuple(t) ==> joined_from(f, a0, b0, t),
    ensures
        forall|t: T| #[trigger] out2.contains_tuple(t) ==> joined_from(f, a2, b2, t),
{
    let ghost lrel = out1.pending@.last();
    assert forall|t: T| #[trigger] out2.contains_tuple(t) implies joined_from(f, a2, b2, t) by {
        assert(out1.contains_tuple(t));
        let from_delta: bool = !out0.contains_tuple(t);
        if !from_delta {
            assert(joined_from(f, a0, b0, t));
            let (k, v1, v2) = choose|k: K, v1: V1, v2: V2|
                a0.contains_tuple((k, v1)) && b0.contains_tuple((k, v2)) && #[trigger] call_ensures(
                    f,
                    (k, v1, v2),
                    t,
                );
            assert(a2.contains_tuple((k, v1)) && b2.contains_tuple((k, v2)));
        } else {
            // Not in out0, so it sits in the appended delta relation.
            assert(out1.pending_contains(t));
            let pi = choose|pi: int|
                0 <= pi < out1.pending@.len() && out1.pending@[pi]@.contains(t);
            if pi < out0.pending@.len() {
                assert(out0.pending@[pi]@.contains(t));
            }
            assert(lrel@.contains(t));
            assert(join_emitted(f, a0.recent@, a0.stable@, b0.recent@, b0.stable@, t));
            reveal(join_emitted);
            reveal(emitted_match);
            reveal(emits);
            if emitted_match(f, a0.recent@, b0.recent@, t) {
                let (i, j) = choose|i: int, j: int|
                    key_match(a0.recent@, b0.recent@, i, j) && emits(
                        f,
                        a0.recent@,
                        b0.recent@,
                        i,
                        j,
                        t,
                    );
                let p1 = a0.recent@[i];
                let p2 = b0.recent@[j];
                assert(p1 =~= (p1.0, p1.1));
                assert(p2 =~= (p2.0, p2.1));
                assert(a0.contains_tuple((p1.0, p1.1)) && b0.contains_tuple((p2.0, p2.1)));
                assert(call_ensures(f, (p1.0, p1.1, p2.1), t));
                assert(a2.contains_tuple((p1.0, p1.1)) && b2.contains_tuple((p2.0, p2.1)));
            } else if exists|bi: int|
                0 <= bi < b0.stable@.len() && emitted_match(f, a0.recent@, b0.stable@[bi]@, t) {
                let bi = choose|bi: int|
                    0 <= bi < b0.stable@.len() && emitted_match(f, a0.recent@, b0.stable@[bi]@, t);
                let (i, j) = choose|i: int, j: int|
                    key_match(a0.recent@, b0.stable@[bi]@, i, j) && emits(
                        f,
                        a0.recent@,
                        b0.stable@[bi]@,
                        i,
                        j,
                        t,
                    );
                let p1 = a0.recent@[i];
                let p2 = b0.stable@[bi]@[j];
                assert(p1 =~= (p1.0, p1.1));
                assert(p2 =~= (p2.0, p2.1));
                assert(b0.stable@[bi]@.contains(p2));
                assert(batches_contain(b0.stable@, (p2.0, p2.1)));
                assert(a0.contains_tuple((p1.0, p1.1)) && b0.contains_tuple((p2.0, p2.1)));
                assert(call_ensures(f, (p1.0, p1.1, p2.1), t));
                assert(a2.contains_tuple((p1.0, p1.1)) && b2.contains_tuple((p2.0, p2.1)));
            } else {
                let bi = choose|bi: int|
                    0 <= bi < a0.stable@.len() && emitted_match(f, a0.stable@[bi]@, b0.recent@, t);
                let (i, j) = choose|i: int, j: int|
                    key_match(a0.stable@[bi]@, b0.recent@, i, j) && emits(
                        f,
                        a0.stable@[bi]@,
                        b0.recent@,
                        i,
                        j,
                        t,
                    );
                let p1 = a0.stable@[bi]@[i];
                let p2 = b0.recent@[j];
                assert(p1 =~= (p1.0, p1.1));
                assert(p2 =~= (p2.0, p2.1));
                assert(a0.stable@[bi]@.contains(p1));
                assert(batches_contain(a0.stable@, (p1.0, p1.1)));
                assert(a0.contains_tuple((p1.0, p1.1)) && b0.contains_tuple((p2.0, p2.1)));
                assert(call_ensures(f, (p1.0, p1.1, p2.1), t));
                assert(a2.contains_tuple((p1.0, p1.1)) && b2.contains_tuple((p2.0, p2.1)));
            }
        }
    };
}

/// A type that can advance its strata by one round and report whether
/// anything changed.
pub trait VariableTrait {
    /// The well-formedness that a round preserves.
    spec fn round_wf(&self) -> bool;

    /// Whether the last round left new tuples visible to operators.
    spec fn has_recent(&self) -> bool;

    /// Advances by one round; reports whether new tuples became visible.
    fn round(&mut self) -> (b: bool)
        requires
            old(self).round_wf(),
        ensures
            final(self).round_wf(),
            b == final(self).has_recent(),
    ;
}

impl<T: TupleOrd + Copy> VariableTrait for Variable<T> {
    open spec fn round_wf(&self) -> bool {
        self.wf()
    }

    open spec fn has_recent(&self) -> bool {
        self.recent@.len() > 0
    }

    fn round(&mut self) -> (b: bool) {
        self.changed()
    }
}

/// Tells whether `a <= 2 * b` without overflowing.
fn le_double(a: usize, b: usize) -> (c: bool)
    ensures
        c == (a <= 2 * b),
{
    a <= b || a - b <= b
}

} // verus!
