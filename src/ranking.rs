use crate::unit::{scored_from, LazyUnit, Unit};
use vstd::prelude::*;

verus! {

/// The kept score of a scored unit.
pub open spec fn score<T>(u: LazyUnit<T>) -> int {
    u.fitness->0 as int
}

/// Every unit of `s` has a kept score.
pub open spec fn all_scored<T>(s: Seq<LazyUnit<T>>) -> bool {
    forall|i: int| 0 <= i < s.len() ==> (#[trigger] s[i]).fitness is Some
}

/// `after` is `before` with every unit scored in place.
pub open spec fn scored_all<T: Unit>(before: Seq<LazyUnit<T>>, after: Seq<LazyUnit<T>>) -> bool {
    &&& after.len() == before.len()
    &&& forall|i: int| 0 <= i < before.len() ==> scored_from(before[i], #[trigger] after[i])
}

/// The score that `u` keeps, or that scoring it will keep.
pub open spec fn due_score<T: Unit>(u: LazyUnit<T>) -> int {
    match u.fitness {
        Some(f) => f as int,
        None => u.unit.fitness_of() as int,
    }
}

/// Scoring a population keeps, for each unit, the score it already had or
/// else the unit's own fitness.
pub proof fn lemma_scores_are_due<T: Unit>(before: Seq<LazyUnit<T>>, after: Seq<LazyUnit<T>>)
    requires
        scored_all(before, after),
    ensures
        forall|i: int| 0 <= i < before.len() ==> score(#[trigger] after[i]) == due_score(before[i]),
{
}

/// Unit `u` taken from position `i` comes before unit `v` taken from position
/// `j`: it scores lower, or scores the same and stood earlier.
pub open spec fn ranks_below<T>(u: LazyUnit<T>, i: int, v: LazyUnit<T>, j: int) -> bool {
    score(u) < score(v) || (score(u) == score(v) && i < j)
}

/// `s` is `e` reordered through positions `p` (`s[t]` stood at `p[t]` in `e`)
/// into ascending score, units of equal score keeping their relative order.
pub open spec fn sorts_through<T>(s: Seq<LazyUnit<T>>, e: Seq<LazyUnit<T>>, p: Seq<int>) -> bool {
    &&& s.len() == e.len()
    &&& p.len() == s.len()
    &&& forall|t: int| 0 <= t < p.len() ==> 0 <= #[trigger] p[t] < e.len() && s[t] == e[p[t]]
    &&& forall|t: int, u: int| 0 <= t < u < p.len() ==> #[trigger] p[t] != #[trigger] p[u]
    &&& forall|t: int, u: int|
        0 <= t < u < p.len() ==> ranks_below(#[trigger] s[t], p[t], #[trigger] s[u], p[u])
}

/// `s` is the stable ascending sort of `e` by score.
pub open spec fn stably_sorted<T>(s: Seq<LazyUnit<T>>, e: Seq<LazyUnit<T>>) -> bool {
    exists|p: Seq<int>| sorts_through(s, e, p)
}

/// The kept score of a unit known to be scored.
fn kept_score<T>(u: &LazyUnit<T>) -> (r: i64)
    requires
        u.fitness is Some,
    ensures
        r == score(*u),
{
    match u.cached_fitness() {
        Some(f) => f,
        None => 0,
    }
}

/// Scores every unit that has no kept score yet, then sorts the units by
/// ascending score, stably. Returns the sorted units and, as a ghost, the
/// units in their first order once scored.
pub fn score_and_sort<T: Unit>(units: Vec<LazyUnit<T>>) -> (r: (
    Vec<LazyUnit<T>>,
    Ghost<Seq<LazyUnit<T>>>,
))
    ensures
        scored_all(units@, r.1@),
        all_scored(r.1@),
        stably_sorted(r.0@, r.1@),
{
    let ghost orig = units@;
    let ghost n = units@.len();
    let mut rest = units;
    let mut sorted: Vec<LazyUnit<T>> = Vec::new();
    let ghost mut e: Seq<LazyUnit<T>> = orig;
    let ghost mut p: Seq<int> = Seq::empty();
    while rest.len() > 0
        invariant
            e.len() == n,
            orig.len() == n,
            rest@ == orig.subrange(0, rest.len() as int),
            rest.len() + sorted.len() == n,
            forall|i: int| rest.len() <= i < n ==> scored_from(orig[i], #[trigger] e[i]),
            forall|i: int| rest.len() <= i < n ==> (#[trigger] e[i]).fitness is Some,
            p.len() == sorted.len(),
            forall|t: int|
                0 <= t < p.len() ==> rest.len() <= #[trigger] p[t] < n && sorted@[t] == e[p[t]],
            forall|t: int, u: int| 0 <= t < u < p.len() ==> #[trigger] p[t] != #[trigger] p[u],
            forall|t: int, u: int|
                0 <= t < u < p.len() ==> ranks_below(
                    #[trigger] sorted@[t],
                    p[t],
                    #[trigger] sorted@[u],
                    p[u],
                ),
        decreases rest.len(),
    {
        let ghost k = rest.len() - 1;
        let ghost rest_before = rest@;
        let mut x = rest.pop().unwrap();
        proof {
            assert(rest_before[k] == orig[k]);
            assert(rest@ =~= orig.subrange(0, rest.len() as int));
        }
        let ghost x_before = x;
        let key = x.fitness_lazy();
        proof {
            assert(x_before == orig[k]);
            e = e.update(k, x);
        }
        let mut j: usize = 0;
        while j < sorted.len() && kept_score(&sorted[j]) < key
            invariant
                0 <= j <= sorted.len(),
                p.len() == sorted.len(),
                forall|t: int| 0 <= t < p.len() ==> sorted@[t] == e[p[t]] && rest.len() <= p[t] < n,
                forall|i: int| rest.len() <= i < n ==> (#[trigger] e[i]).fitness is Some,
                forall|t: int| 0 <= t < j ==> score(#[trigger] sorted@[t]) < key,
            decreases sorted.len() - j,
        {
            j = j + 1;
        }
        proof {
            if j < sorted.len() {
                assert(sorted@[j as int] == e[p[j as int]]);
                assert(score(sorted@[j as int]) >= key);
            }
        }
        let ghost old_sorted = sorted@;
        let ghost old_p = p;
        sorted.insert(j, x);
        proof {
            p = p.insert(j as int, k);
            assert forall|t: int, u: int| 0 <= t < u < p.len() implies ranks_below(
                #[trigger] sorted@[t],
                p[t],
                #[trigger] sorted@[u],
                p[u],
            ) by {
                if t < j && u == j {
                    assert(score(old_sorted[t]) < key);
                } else if t == j && u > j {
                    assert(ranks_below(old_sorted[j as int], old_p[j as int], old_sorted[u - 1], old_p[u - 1]) || u - 1 == j);
                    assert(score(old_sorted[u - 1]) >= key);
                    assert(old_p[u - 1] > k);
                } else if t < j && u > j {
                    assert(ranks_below(old_sorted[t], old_p[t], old_sorted[u - 1], old_p[u - 1]));
                } else if t > j {
                    assert(ranks_below(old_sorted[t - 1], old_p[t - 1], old_sorted[u - 1], old_p[u - 1]));
                } else {
                    assert(ranks_below(old_sorted[t], old_p[t], old_sorted[u], old_p[u]));
                }
            }
            assert forall|t: int, u: int| 0 <= t < u < p.len() implies #[trigger] p[t] != #[trigger] p[u] by {
                if t < j && u > j {
                    assert(old_p[t] != old_p[u - 1]);
                } else if t > j {
                    assert(old_p[t - 1] != old_p[u - 1]);
                } else if u < j {
                    assert(old_p[t] != old_p[u]);
                }
            }
        }
    }
    proof {
        assert(sorts_through(sorted@, e, p));
    }
    (sorted, Ghost(e))
}

} // verus!
