//! The iterative context that drives registered variables to a fixed point.

use vstd::prelude::*;
use crate::order::TupleOrd;
use crate::variable::{Variable, batches_contain};

verus! {

/// Some variable among the first `upto` has a nonempty recent stratum.
pub open spec fn any_recent<T: TupleOrd + Copy>(vs: Seq<Variable<T>>, upto: int) -> bool {
    exists|i: int| 0 <= i < upto && vs[i].recent@.len() > 0
}

/// An iterative context for recursive evaluation over one tuple shape.
///
/// It registers variables and advances all of them in lockstep; the host
/// loops on `changed` and runs its rules between rounds, reading and
/// feeding the variables through `variables`.
pub struct Iteration<T: TupleOrd + Copy> {
    /// The registered variables, in registration order.
    pub variables: Vec<Variable<T>>,
}

impl<T: TupleOrd + Copy> Iteration<T> {
    /// Every registered variable is well formed.
    pub open spec fn wf(self) -> bool {
        forall|i: int| 0 <= i < self.variables@.len() ==> (#[trigger] self.variables@[i]).wf()
    }

    /// Creates a new iterative context with no variables.
    pub fn new() -> (it: Self)
        ensures
            it.wf(),
            it.variables@.len() == 0,
    {
        Iteration { variables: Vec::new() }
    }

    /// Registers a fresh distinct variable and returns its handle: its
    /// position among `variables`.
    pub fn variable(&mut self, name: String) -> (h: usize)
        requires
            old(self).wf(),
        ensures
            final(self).wf(),
            h == old(self).variables@.len(),
            final(self).variables@.len() == old(self).variables@.len() + 1,
            forall|i: int|
                0 <= i < h ==> final(self).variables@[i] == old(self).variables@[i],
            final(self).variables@[h as int].distinct,
            final(self).variables@[h as int].name == name,
            final(self).variables@[h as int].stable@.len() == 0,
            final(self).variables@[h as int].recent@.len() == 0,
            final(self).variables@[h as int].pending@.len() == 0,
    {
        let h = self.variables.len();
        self.variables.push(Variable::new(name));
        h
    }

    /// Registers a fresh variable that is not kept distinct: a tuple may
    /// show up in its recent stratum in more than one round.
    pub fn variable_indistinct(&mut self, name: String) -> (h: usize)
        requires
            old(self).wf(),
        ensures
            final(self).wf(),
            h == old(self).variables@.len(),
            final(self).variables@.len() == old(self).variables@.len() + 1,
            forall|i: int|
                0 <= i < h ==> final(self).variables@[i] == old(self).variables@[i],
            !final(self).variables@[h as int].distinct,
            final(self).variables@[h as int].name == name,
            final(self).variables@[h as int].stable@.len() == 0,
            final(self).variables@[h as int].recent@.len() == 0,
            final(self).variables@[h as int].pending@.len() == 0,
    {
        let h = self.variables.len();
        let mut v = Variable::new(name);
        v.distinct = false;
        self.variables.push(v);
        h
    }

    /// A borrow of the variable behind a handle.
    pub fn var(&self, h: usize) -> (v: &Variable<T>)
        requires
            h < self.variables@.len(),
        ensures
            *v == self.variables@[h as int],
    {
        &self.variables[h]
    }

    /// Advances every registered variable by one round and reports whether
    /// any of them gained new recent tuples. Afterwards every variable's
    /// pending list is empty.
    #[verifier::loop_isolation(false)]
    pub fn changed(&mut self) -> (b: bool)
        requires
            old(self).wf(),
        ensures
            final(self).wf(),
            final(self).variables@.len() == old(self).variables@.len(),
            b == any_recent(final(self).variables@, final(self).variables@.len() as int),
            forall|i: int|
                0 <= i < final(self).variables@.len() ==> {
                    let vnew = #[trigger] final(self).variables@[i];
                    let vold = old(self).variables@[i];
                    &&& vnew.pending@.len() == 0
                    &&& vnew.distinct == vold.distinct
                    &&& vnew.name == vold.name
                    &&& (forall|t: T| vnew.contains_tuple(t) <==> vold.contains_tuple(t))
                    &&& (forall|t: T|
                        batches_contain(vnew.stable@, t) <==> (batches_contain(vold.stable@, t)
                            || vold.recent@.contains(t)))
                    &&& (!vold.distinct ==> forall|t: T|
                        vnew.recent@.contains(t) <==> batches_contain(vold.pending@, t))
                    &&& (vold.distinct ==> forall|t: T|
                        vnew.recent@.contains(t) <==> (batches_contain(vold.pending@, t)
                            && !batches_contain(vnew.stable@, t)))
                    &&& (vold.recent@.len() == 0 && vold.pending@.len() == 0
                        ==> vnew.recent@.len() == 0 && vnew.stable@ == vold.stable@)
                },
    {
        let mut b = false;
        let n = self.variables.len();
        let mut i: usize = 0;
        while i < n
            invariant
                i <= n,
                n == self.variables@.len(),
                b == any_recent(self.variables@, i as int),
                forall|j: int| i <= j < n ==> self.variables@[j] == old(self).variables@[j],
                forall|j: int|
                    0 <= j < i ==> {
                        let vnew = #[trigger] self.variables@[j];
                        let vold = old(self).variables@[j];
                        &&& vnew.wf()
                        &&& vnew.pending@.len() == 0
                        &&& vnew.distinct == vold.distinct
                        &&& vnew.name == vold.name
                        &&& (forall|t: T| vnew.contains_tuple(t) <==> vold.contains_tuple(t))
                        &&& (forall|t: T|
                            batches_contain(vnew.stable@, t) <==> (batches_contain(
                                vold.stable@,
                                t,
                            ) || vold.recent@.contains(t)))
                        &&& (!vold.distinct ==> forall|t: T|
                            vnew.recent@.contains(t) <==> batches_contain(vold.pending@, t))
                        &&& (vold.distinct ==> forall|t: T|
                            vnew.recent@.contains(t) <==> (batches_contain(vold.pending@, t)
                                && !batches_contain(vnew.stable@, t)))
                        &&& (vold.recent@.len() == 0 && vold.pending@.len() == 0
                            ==> vnew.recent@.len() == 0 && vnew.stable@ == vold.stable@)
                    },
            decreases n - i,
        {
            let ghost pre = self.variables@;
            let ghost bpre = b;
            let c = self.variables[i].changed();
            if c {
                b = true;
            }
            proof {
                assert forall|j: int| i + 1 <= j < n implies self.variables@[j] == old(
                    self,
                ).variables@[j] by {
                    assert(self.variables@[j] == pre[j]);
                }
                assert(b == (bpre || c));
                assert(b == any_recent(self.variables@, i + 1)) by {
                    if b {
                        if c {
                            assert(self.variables@[i as int].recent@.len() > 0);
                        } else {
                            let w = choose|w: int| 0 <= w < i && pre[w].recent@.len() > 0;
                            assert(self.variables@[w].recent@.len() > 0);
                        }
                    } else {
                        if any_recent(self.variables@, i + 1) {
                            let w = choose|w: int|
                                0 <= w < i + 1 && self.variables@[w].recent@.len() > 0;
                            if w < i {
                                assert(pre[w].recent@.len() > 0);
                            }
                        }
                    }
                }
            }
            i += 1;
        }
        b
    }
}

} // verus!
