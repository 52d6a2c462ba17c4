use vstd::prelude::*;

verus! {

/// A candidate solution: something that can be scored and crossed with
/// another candidate of the same kind.
pub trait Unit: Sized {
    /// Scores this unit; a higher score is fitter. The score is taken to stay
    /// the same for the whole life of the unit.
    fn fitness(&self) -> (r: i64)
        ensures
            r == self.fitness_of(),
    ;

    /// The score of this unit.
    spec fn fitness_of(self) -> i64;

    /// `self` is a child that `breed_with` may produce from parents `a` and `b`.
    spec fn bred_from(self, a: Self, b: Self) -> bool;

    /// Produces a child of `self` and `other`, leaving both parents as they are.
    fn breed_with(&self, other: &Self) -> (r: Self)
        ensures
            r.bred_from(*self, *other),
    ;
}

/// A unit together with its score, computed on first demand and kept.
pub struct LazyUnit<T> {
    pub unit: T,
    pub fitness: Option<i64>,
}

impl<T> LazyUnit<T> {
    /// Wraps a unit that has not been scored yet.
    pub fn new(unit: T) -> (r: LazyUnit<T>)
        ensures
            r.unit == unit,
            r.fitness is None,
    {
        LazyUnit { unit, fitness: None }
    }

    /// The kept score, without computing it.
    pub fn cached_fitness(&self) -> (r: Option<i64>)
        ensures
            r == self.fitness,
    {
        self.fitness
    }
}

/// `after` is `before` once scored: the unit is untouched; a unit that
/// already had a score is left exactly as it was, and one that had none now
/// keeps the unit's own score.
pub open spec fn scored_from<T: Unit>(before: LazyUnit<T>, after: LazyUnit<T>) -> bool {
    &&& after.unit == before.unit
    &&& after.fitness is Some
    &&& before.fitness is Some ==> after == before
    &&& before.fitness is None ==> after.fitness == Some(before.unit.fitness_of())
}

/// What one call of `fitness_lazy` does: it turns `before` into `after` and
/// returns the score that `after` keeps.
pub open spec fn lazily_scored<T: Unit>(before: LazyUnit<T>, after: LazyUnit<T>, r: i64) -> bool {
    scored_from(before, after) && after.fitness == Some(r)
}

impl<T: Unit> LazyUnit<T> {
    /// Returns the kept score, computing and keeping it first if there is none.
    pub fn fitness_lazy(&mut self) -> (r: i64)
        ensures
            lazily_scored(*old(self), *final(self), r),
    {
        match self.fitness {
            Some(f) => f,
            None => {
                let f = self.unit.fitness();
                self.fitness = Some(f);
                f
            },
        }
    }
}

/// Asking a lazy unit for its score a second time gives the same score and
/// leaves it as the first call left it, so the unit is scored at most once.
pub proof fn lemma_fitness_lazy_idempotent<T: Unit>(
    u0: LazyUnit<T>,
    u1: LazyUnit<T>,
    u2: LazyUnit<T>,
    r1: i64,
    r2: i64,
)
    requires
        lazily_scored(u0, u1, r1),
        lazily_scored(u1, u2, r2),
    ensures
        r2 == r1,
        u2 == u1,
{
}

} // verus!
