use datafrog::iteration::Iteration;
use datafrog::join::{join_helper, join_into_relation};
use datafrog::join::{gallop, gallop_keys};
use datafrog::order::{Cmp, TupleOrd};
use datafrog::relation::Relation;
use datafrog::variable::Variable;

fn rel_from(v: Vec<(u64, u64)>) -> Relation<(u64, u64)> {
    Relation::from_vec(v)
}

#[test]
fn from_vec_sorts_and_dedups() {
    let r = Relation::from_vec(vec![3u64, 1, 2, 3, 1]);
    assert_eq!(r.elements, vec![1, 2, 3]);
}

#[test]
fn relation_strictly_ascending() {
    let r = rel_from(vec![(2, 1), (1, 5), (2, 1), (1, 4)]);
    for w in r.elements.windows(2) {
        assert!(w[0] < w[1]);
    }
    assert_eq!(r.elements, vec![(1, 4), (1, 5), (2, 1)]);
}

#[test]
fn merge_unions_sorted() {
    let a = Relation::from_vec(vec![1u64, 3, 5]);
    let b = Relation::from_vec(vec![2u64, 3, 6]);
    let m = a.merge(b);
    assert_eq!(m.elements, vec![1, 2, 3, 5, 6]);
}

#[test]
fn merge_commutative_and_associative() {
    let mk = |v: Vec<u64>| Relation::from_vec(v);
    let ab = mk(vec![1, 4]).merge(mk(vec![2, 4]));
    let ba = mk(vec![2, 4]).merge(mk(vec![1, 4]));
    assert_eq!(ab.elements, ba.elements);
    let ab_c = mk(vec![1, 4]).merge(mk(vec![2, 4])).merge(mk(vec![3]));
    let a_bc = mk(vec![1, 4]).merge(mk(vec![2, 4]).merge(mk(vec![3])));
    assert_eq!(ab_c.elements, a_bc.elements);
}

#[test]
fn gallop_finds_first_not_below() {
    let s: Vec<u64> = vec![1, 3, 5, 7, 9, 11, 13];
    assert_eq!(gallop(&s, &0), 0);
    assert_eq!(gallop(&s, &1), 0);
    assert_eq!(gallop(&s, &2), 1);
    assert_eq!(gallop(&s, &8), 4);
    assert_eq!(gallop(&s, &14), 7);
    let e: Vec<u64> = vec![];
    assert_eq!(gallop(&e, &5), 0);
}

#[test]
fn gallop_keys_skips_by_key() {
    let s: Vec<(u64, u64)> = vec![(1, 0), (1, 1), (2, 0), (4, 0)];
    assert_eq!(gallop_keys(&s, &1), 0);
    assert_eq!(gallop_keys(&s, &2), 2);
    assert_eq!(gallop_keys(&s, &3), 3);
    assert_eq!(gallop_keys(&s, &9), 4);
}

#[test]
fn compare_agrees_with_order() {
    assert!(matches!(1u64.compare(&2), Cmp::Less));
    assert!(matches!(2u64.compare(&2), Cmp::Equal));
    assert!(matches!(3u64.compare(&2), Cmp::Greater));
    assert!(matches!((1u64, 9u64).compare(&(2, 0)), Cmp::Less));
    assert!(matches!((1u64, 9u64).compare(&(1, 8)), Cmp::Greater));
}

#[test]
fn transitive_symmetric_closure() {
    // Seed with (x, x+1) and (x+1, x); the rule joins the variable with
    // itself on the first column, so the fixpoint holds every pair over
    // the eleven reachable values.
    let mut v: Variable<(u64, u64)> = Variable::new(String::from("pairs"));
    v.insert(rel_from((0..10).map(|x| (x, x + 1)).collect()));
    v.insert(rel_from((0..10).map(|x| (x + 1, x)).collect()));
    while v.changed() {
        let mut tmp: Variable<(u64, u64)> = Variable::new(String::from("delta"));
        tmp.from_join(&v, &v, |_k: u64, v1: u64, v2: u64| (v1, v2));
        if let Some(r) = tmp.pending.pop() {
            v.insert(r);
        }
    }
    let result = v.complete();
    assert_eq!(result.len(), 121);
}

#[test]
fn antijoin_excludes_keys() {
    // Seed with (x, x+1); flip pairs whose key is not a multiple of three.
    let mut v: Variable<(u64, u64)> = Variable::new(String::from("pairs"));
    v.insert(rel_from((0..10).map(|x| (x, x + 1)).collect()));
    let relation: Relation<u64> = Relation::from_vec((0..10).filter(|x| x % 3 == 0).collect());
    while v.changed() {
        let mut tmp: Variable<(u64, u64)> = Variable::new(String::from("delta"));
        tmp.from_antijoin(&v, &relation, |k: u64, val: u64| (val, k));
        if let Some(r) = tmp.pending.pop() {
            v.insert(r);
        }
    }
    let result = v.complete();
    assert_eq!(result.len(), 16);
}

#[test]
fn collatz_reachability_via_map() {
    let mut v: Variable<(u64, u64)> = Variable::new(String::from("pairs"));
    v.insert(rel_from((0..10).map(|x| (x, x)).collect()));
    while v.changed() {
        let mut tmp: Variable<(u64, u64)> = Variable::new(String::from("delta"));
        tmp.from_map(&v, |(key, val): (u64, u64)| {
            if val % 2 == 0 {
                (key, val / 2)
            } else {
                (key, 3 * val + 1)
            }
        });
        if let Some(r) = tmp.pending.pop() {
            v.insert(r);
        }
    }
    let result = v.complete();
    assert_eq!(result.len(), 74);
}

#[test]
fn empty_variable_settles_at_once() {
    let mut v: Variable<(u64, u64)> = Variable::new(String::from("empty"));
    assert!(!v.changed());
    let result = v.complete();
    assert_eq!(result.len(), 0);
}

#[test]
fn step_after_false_changes_nothing() {
    let mut v: Variable<u64> = Variable::new(String::from("v"));
    v.insert(Relation::from_vec(vec![1u64, 2, 3]));
    assert!(v.changed());
    assert!(!v.changed());
    let stable_before: Vec<Vec<u64>> = v.stable.iter().map(|r| r.elements.clone()).collect();
    assert!(!v.changed());
    let stable_after: Vec<Vec<u64>> = v.stable.iter().map(|r| r.elements.clone()).collect();
    assert_eq!(stable_before, stable_after);
    assert!(v.pending.is_empty());
    assert_eq!(v.recent.len(), 0);
}

#[test]
fn distinct_suppresses_duplicates() {
    let mut v: Variable<u64> = Variable::new(String::from("v"));
    v.insert(Relation::from_vec(vec![1u64, 2]));
    assert!(v.changed());
    v.insert(Relation::from_vec(vec![1u64, 2]));
    // The tuples already sit in a stable batch, so nothing new appears.
    assert!(!v.changed());
    let result = v.complete();
    assert_eq!(result.elements, vec![1, 2]);
}

#[test]
fn indistinct_repeats_duplicates() {
    let mut v: Variable<u64> = Variable::new(String::from("v"));
    v.distinct = false;
    v.insert(Relation::from_vec(vec![1u64, 2]));
    assert!(v.changed());
    v.insert(Relation::from_vec(vec![1u64, 2]));
    // Without deduplication the same tuples come back as recent.
    assert!(v.changed());
    assert_eq!(v.recent.elements, vec![1, 2]);
    assert!(!v.changed());
}

#[test]
fn iteration_runs_all_variables() {
    let mut it: Iteration<(u64, u64)> = Iteration::new();
    let h = it.variable(String::from("pairs"));
    let q = it.variable(String::from("quiet"));
    it.variables[h].insert(rel_from((0..10).map(|x| (x, x + 1)).collect()));
    it.variables[h].insert(rel_from((0..10).map(|x| (x + 1, x)).collect()));
    while it.changed() {
        let mut tmp: Variable<(u64, u64)> = Variable::new(String::from("delta"));
        tmp.from_join(&it.variables[h], &it.variables[h], |_k: u64, v1: u64, v2: u64| (v1, v2));
        if let Some(r) = tmp.pending.pop() {
            it.variables[h].insert(r);
        }
    }
    assert_eq!(it.variables[q].recent.len(), 0);
    let result = it.variables.remove(h).complete();
    assert_eq!(result.len(), 121);
}

#[test]
fn iteration_indistinct_variable() {
    let mut it: Iteration<u64> = Iteration::new();
    let h = it.variable_indistinct(String::from("loose"));
    assert!(!it.variables[h].distinct);
    it.variables[h].insert(Relation::from_vec(vec![7u64]));
    assert!(it.changed());
    assert!(!it.changed());
}

#[test]
fn stratum_compaction_keeps_all_tuples() {
    // Many small inserts exercise the geometric fold of stable batches.
    let mut v: Variable<u64> = Variable::new(String::from("v"));
    for x in 0..50u64 {
        v.insert(Relation::from_vec(vec![x]));
        assert!(v.changed());
    }
    assert!(!v.changed());
    let result = v.complete();
    assert_eq!(result.len(), 50);
}

#[test]
fn static_join_of_two_relations() {
    // Person and parent facts: find child/parent pairs sharing a name.
    let names: Relation<(u64, u64)> =
        Relation::from_vec(vec![(1, 10), (2, 10), (3, 20), (4, 20), (5, 30)]);
    let parents: Relation<(u64, u64)> =
        Relation::from_vec(vec![(1, 2), (3, 4), (5, 2), (3, 2)]);
    // Key the parent fact by the child, carrying the child's name along.
    let by_parent = join_into_relation(&names, &parents, |child: u64, n: u64, p: u64| {
        (p, (child, n))
    });
    // Attach the parent's own name.
    let full = join_into_relation(&by_parent, &names, |p: u64, (a, n): (u64, u64), np: u64| {
        ((a, p), (n, np))
    });
    let matching = full
        .elements
        .iter()
        .filter(|((_a, _p), (n, np))| n == np)
        .count();
    assert_eq!(matching, 2);
}

#[test]
fn join_emits_cross_products_of_runs() {
    let s1: Vec<(u64, u64)> = vec![(1, 1), (1, 2), (2, 5), (4, 0)];
    let s2: Vec<(u64, u64)> = vec![(1, 7), (2, 8), (2, 9), (3, 1)];
    let mut results: Vec<(u64, u64)> = Vec::new();
    join_helper(&s1, &s2, &|_k: u64, a: u64, b: u64| (a, b), &mut results);
    assert_eq!(results, vec![(1, 7), (2, 7), (5, 8), (5, 9)]);
}
