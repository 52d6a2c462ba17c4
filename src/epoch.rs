use crate::random::draw_below;
use crate::ranking::{ranks_below, score, score_and_sort, scored_all, sorts_through, stably_sorted};
use crate::unit::scored_from;
use crate::unit::{LazyUnit, Unit};
use rand::rngs::StdRng;
use vstd::prelude::*;

verus! {

/// Why a ratio cannot serve as a factor in `(0, 1]`.
#[derive(Debug, Clone, Copy, PartialEq, Eq, Structural)]
pub enum FactorError {
    /// The denominator is zero.
    ZeroDenominator,
    /// The ratio is zero.
    NotPositive,
    /// The ratio is above one.
    AboveOne,
}

/// A fraction `num / den` in `(0, 1]`.
#[derive(Debug, Clone, Copy)]
pub struct Factor {
    num: u32,
    den: u32,
}

impl Factor {
    #[verifier::type_invariant]
    spec fn well_formed(self) -> bool {
        0 < self.num <= self.den
    }

    /// The numerator.
    pub closed spec fn numer(self) -> nat {
        self.num as nat
    }

    /// The denominator.
    pub closed spec fn denom(self) -> nat {
        self.den as nat
    }

    /// The ratio lies in `(0, 1]`; every factor that exists satisfies this.
    pub open spec fn valid(self) -> bool {
        0 < self.numer() <= self.denom()
    }

    /// The ratio `num / den`, refused unless it lies in `(0, 1]`.
    pub fn new(num: u32, den: u32) -> (r: Result<Factor, FactorError>)
        ensures
            den == 0 ==> r == Err::<Factor, FactorError>(FactorError::ZeroDenominator),
            den != 0 && num == 0 ==> r == Err::<Factor, FactorError>(FactorError::NotPositive),
            den != 0 && num > den ==> r == Err::<Factor, FactorError>(FactorError::AboveOne),
            0 < num <= den ==> r is Ok && r->Ok_0.numer() == num && r->Ok_0.denom() == den
                && r->Ok_0.valid(),
    {
        if den == 0 {
            Err(FactorError::ZeroDenominator)
        } else if num == 0 {
            Err(FactorError::NotPositive)
        } else if num > den {
            Err(FactorError::AboveOne)
        } else {
            Ok(Factor { num, den })
        }
    }

    /// `floor(self × n)`.
    pub open spec fn floor_of(self, n: nat) -> nat {
        (self.numer() * n) / self.denom()
    }

    /// `ceil(self × n)`.
    pub open spec fn ceil_of(self, n: nat) -> nat {
        (self.numer() * n + self.denom() - 1) as nat / self.denom()
    }

    /// A factor in `(0, 1]` takes at most the whole of `n`, and a nonzero
    /// share of a nonzero `n` when rounding up.
    pub proof fn lemma_bounds(self, n: nat)
        requires
            self.valid(),
        ensures
            self.floor_of(n) <= n,
            self.ceil_of(n) <= n,
            n > 0 ==> self.ceil_of(n) >= 1,
            self.numer() == self.denom() ==> self.floor_of(n) == n,
    {
        let a = self.num as int;
        let d = self.den as int;
        let m = n as int;
        assert(a * m <= d * m) by (nonlinear_arith)
            requires 0 < a <= d, 0 <= m;
        assert((a * m) / d <= m) by (nonlinear_arith)
            requires a * m <= d * m, 0 < d, 0 <= m;
        assert((a * m + d - 1) / d <= m) by (nonlinear_arith)
            requires a * m <= d * m, 0 < d, 0 <= m;
        if m > 0 {
            assert(a * m >= 1) by (nonlinear_arith)
                requires 0 < a, 0 < m;
            assert((a * m + d - 1) / d >= 1) by (nonlinear_arith)
                requires a * m >= 1, 0 < d;
        }
        if a == d {
            assert((a * m) / d == m) by (nonlinear_arith)
                requires a == d, 0 < d;
        }
    }

    /// `floor(self × n)`, computed exactly.
    pub fn floor_times(self, n: usize) -> (r: usize)
        ensures
            r == self.floor_of(n as nat),
    {
        proof {
            use_type_invariant(self);
            self.lemma_bounds(n as nat);
            let a = self.num as int;
            let m = n as int;
            assert(a * m <= 0xffff_ffff * 0xffff_ffff_ffff_ffff) by (nonlinear_arith)
                requires 0 <= a <= 0xffff_ffff, 0 <= m <= 0xffff_ffff_ffff_ffff;
        }
        let p: u128 = self.num as u128 * n as u128;
        (p / self.den as u128) as usize
    }

    /// `ceil(self × n)`, computed exactly.
    pub fn ceil_times(self, n: usize) -> (r: usize)
        ensures
            r == self.ceil_of(n as nat),
    {
        proof {
            use_type_invariant(self);
            self.lemma_bounds(n as nat);
            let a = self.num as int;
            let m = n as int;
            assert(a * m <= 0xffff_ffff * 0xffff_ffff_ffff_ffff) by (nonlinear_arith)
                requires 0 <= a <= 0xffff_ffff, 0 <= m <= 0xffff_ffff_ffff_ffff;
        }
        let p: u128 = self.num as u128 * n as u128 + (self.den - 1) as u128;
        (p / self.den as u128) as usize
    }
}

/// How many units of a population of `n` breed: the top `floor(breed_factor × n)`,
/// or all of them where that share rounds down to none.
pub open spec fn breeder_count(breed_factor: Factor, n: nat) -> nat {
    if breed_factor.floor_of(n) == 0 {
        n
    } else {
        breed_factor.floor_of(n)
    }
}

/// How many of `breeders` breeders carry over unchanged: `ceil(survival_factor × breeders)`.
pub open spec fn survivor_count(survival_factor: Factor, breeders: nat) -> nat {
    survival_factor.ceil_of(breeders)
}

/// The breeders drawn from a population sorted by ascending score: the last
/// `count` units, strongest first.
pub open spec fn breeders_of<T>(sorted: Seq<LazyUnit<T>>, count: nat) -> Seq<LazyUnit<T>> {
    Seq::new(count, |t: int| sorted[sorted.len() - 1 - t])
}

/// The breeder that is first parent of offspring `i`, among `breeders` breeders:
/// they take turns in order.
pub open spec fn first_parent(i: nat, breeders: nat) -> nat {
    i % breeders
}

/// Draws the second parents of `count` offspring among `breeders` breeders:
/// each one drawn at random from all of them.
pub fn draw_partners(count: usize, breeders: usize, rng: &mut StdRng) -> (r: Vec<usize>)
    requires
        breeders > 0,
    ensures
        r@.len() == count,
        forall|i: int| 0 <= i < count ==> #[trigger] r@[i] < breeders,
{
    let mut partners: Vec<usize> = Vec::new();
    let mut i: usize = 0;
    while i < count
        invariant
            breeders > 0,
            i <= count,
            partners@.len() == i,
            forall|t: int| 0 <= t < i ==> #[trigger] partners@[t] < breeders,
        decreases count - i,
    {
        let other = draw_below(rng, breeders);
        partners.push(other);
        i = i + 1;
    }
    partners
}

/// `offspring` are fresh, unscored children of `breeders`: offspring `i` has
/// breeder `first_parent(i, ..)` as first parent and breeder `partners[i]` as
/// second parent.
pub open spec fn bred_by_turns<T: Unit>(
    offspring: Seq<LazyUnit<T>>,
    breeders: Seq<LazyUnit<T>>,
    partners: Seq<int>,
) -> bool {
    &&& partners.len() == offspring.len()
    &&& forall|i: int|
        0 <= i < offspring.len() ==> {
            &&& 0 <= #[trigger] partners[i] < breeders.len()
            &&& offspring[i].fitness is None
            &&& offspring[i].unit.bred_from(
                breeders[first_parent(i as nat, breeders.len()) as int].unit,
                breeders[partners[i]].unit,
            )
        }
}

/// When at least as many offspring are bred as there are breeders, every
/// breeder is first parent of at least one of them: breeder `j` leads
/// offspring `j`.
pub proof fn lemma_every_breeder_leads<T: Unit>(
    offspring: Seq<LazyUnit<T>>,
    breeders: Seq<LazyUnit<T>>,
    partners: Seq<int>,
)
    requires
        0 < breeders.len() <= offspring.len(),
        bred_by_turns(offspring, breeders, partners),
    ensures
        forall|j: int|
            0 <= j < breeders.len() ==> (#[trigger] offspring[j]).unit.bred_from(
                breeders[j].unit,
                breeders[partners[j]].unit,
            ),
{
    assert forall|j: int| 0 <= j < breeders.len() implies (#[trigger] offspring[j]).unit.bred_from(
        breeders[j].unit,
        breeders[partners[j]].unit,
    ) by {
        let k = breeders.len();
        assert(j % (k as int) == j) by (nonlinear_arith)
            requires 0 <= j < k;
        assert(0 <= partners[j]);
    }
}

/// `next` is the next generation of `current`, of `size` units, under the
/// given factors and with the given second parents: every unit of `current`
/// is scored; the scored units are sorted stably by ascending score; the
/// strongest `breeder_count` of them breed; the first `survivor_count`
/// breeders (strongest first) close the new generation unchanged; before
/// them come fresh offspring, bred by turns from the breeders.
pub open spec fn next_generation_with<T: Unit>(
    current: Seq<LazyUnit<T>>,
    next: Seq<LazyUnit<T>>,
    size: nat,
    breed_factor: Factor,
    survival_factor: Factor,
    partners: Seq<int>,
) -> bool {
    let breeders = breeder_count(breed_factor, current.len());
    let survivors = survivor_count(survival_factor, breeders);
    &&& next.len() == size
    &&& survivors <= size
    &&& exists|scored: Seq<LazyUnit<T>>, sorted: Seq<LazyUnit<T>>|
        {
            &&& scored_all(current, scored)
            &&& #[trigger] stably_sorted(sorted, scored)
            &&& next.subrange(size - survivors, size as int) == #[trigger] breeders_of(sorted, breeders).take(
                survivors as int,
            )
            &&& bred_by_turns(next.take(size - survivors), breeders_of(sorted, breeders), partners)
        }
}

/// `next` is a next generation of `current` for some choice of second parents.
pub open spec fn next_generation<T: Unit>(
    current: Seq<LazyUnit<T>>,
    next: Seq<LazyUnit<T>>,
    size: nat,
    breed_factor: Factor,
    survival_factor: Factor,
) -> bool {
    exists|partners: Seq<int>|
        #[trigger] next_generation_with(current, next, size, breed_factor, survival_factor, partners)
}

/// The breeders are the strongest units: where `floor(breed_factor × n)` is
/// at least one, that many units breed, each of them a scored unit of the
/// population, and none of them scores below a unit that does not breed.
pub proof fn lemma_breeders_are_top<T>(
    breed_factor: Factor,
    scored: Seq<LazyUnit<T>>,
    sorted: Seq<LazyUnit<T>>,
)
    requires
        breed_factor.valid(),
        breed_factor.floor_of(scored.len()) >= 1,
        stably_sorted(sorted, scored),
    ensures
        breeder_count(breed_factor, scored.len()) == breed_factor.floor_of(scored.len()),
        breeders_of(sorted, breed_factor.floor_of(scored.len())).len() == breed_factor.floor_of(scored.len()),
        forall|t: int|
            0 <= t < breed_factor.floor_of(scored.len()) ==> scored.contains(
                #[trigger] breeders_of(sorted, breed_factor.floor_of(scored.len()))[t],
            ),
        forall|t: int, u: int|
            0 <= t < breed_factor.floor_of(scored.len()) && 0 <= u < scored.len() - breed_factor.floor_of(scored.len())
                ==> score(#[trigger] sorted[u]) <= score(
                #[trigger] breeders_of(sorted, breed_factor.floor_of(scored.len()))[t],
            ),
{
    let n = scored.len();
    breed_factor.lemma_bounds(n);
    let b = breed_factor.floor_of(n);
    let breeders = breeders_of(sorted, b);
    let p = choose|p: Seq<int>| sorts_through(sorted, scored, p);
    assert forall|t: int| 0 <= t < b implies scored.contains(#[trigger] breeders_of(sorted, b)[t]) by {
        let k = n - 1 - t;
        assert(0 <= p[k] < n && sorted[k] == scored[p[k]]);
        assert(breeders_of(sorted, b)[t] == sorted[k]);
    }
    assert forall|t: int, u: int|
        0 <= t < b && 0 <= u < scored.len() - b implies score(#[trigger] sorted[u]) <= score(#[trigger] breeders[t]) by {
        let k = n - 1 - t;
        assert(ranks_below(sorted[u], p[u], sorted[k], p[k]));
    }
}

/// `x` is a unit of `current`, scored.
pub open spec fn scored_unit_of<T: Unit>(current: Seq<LazyUnit<T>>, x: LazyUnit<T>) -> bool {
    exists|i: int| 0 <= i < current.len() && scored_from(current[i], x)
}

/// The survivors of an epoch are units of the population before it, unchanged
/// but for a score kept on a unit that had none.
pub proof fn lemma_survivors_unchanged<T: Unit>(
    current: Seq<LazyUnit<T>>,
    next: Seq<LazyUnit<T>>,
    size: nat,
    breed_factor: Factor,
    survival_factor: Factor,
)
    requires
        breed_factor.valid(),
        survival_factor.valid(),
        current.len() > 0,
        next_generation(current, next, size, breed_factor, survival_factor),
    ensures
        forall|t: int|
            size - survivor_count(survival_factor, breeder_count(breed_factor, current.len())) <= t < size
                ==> scored_unit_of(current, #[trigger] next[t]),
{
    let n = current.len();
    breed_factor.lemma_bounds(n);
    let b = breeder_count(breed_factor, n);
    survival_factor.lemma_bounds(b);
    let survivors = survivor_count(survival_factor, b);
    let partners = choose|d: Seq<int>|
        #[trigger] next_generation_with(current, next, size, breed_factor, survival_factor, d);
    let (scored, sorted) = choose|x: Seq<LazyUnit<T>>, y: Seq<LazyUnit<T>>| {
        &&& scored_all(current, x)
        &&& #[trigger] stably_sorted(y, x)
        &&& next.subrange(size - survivors, size as int) == #[trigger] breeders_of(y, b).take(survivors as int)
        &&& bred_by_turns(next.take(size - survivors), breeders_of(y, b), partners)
    };
    let p = choose|p: Seq<int>| sorts_through(sorted, scored, p);
    assert forall|t: int| size - survivors <= t < size implies scored_unit_of(current, #[trigger] next[t]) by {
        let k = n - 1 - (t - (size - survivors));
        assert(next[t] == breeders_of(sorted, b).take(survivors as int)[t - (size - survivors)]);
        assert(next[t] == sorted[k]);
        assert(0 <= p[k] < n && sorted[k] == scored[p[k]]);
        assert(scored_from(current[p[k]], scored[p[k]]));
        assert(scored_from(current[p[k]], next[t]));
    }
}

/// A population of one unit breeds that unit alone, and keeps it.
pub proof fn lemma_single_unit_breeds_alone(breed_factor: Factor, survival_factor: Factor)
    requires
        breed_factor.valid(),
        survival_factor.valid(),
    ensures
        breeder_count(breed_factor, 1) == 1,
        survivor_count(survival_factor, 1) == 1,
{
    breed_factor.lemma_bounds(1);
    survival_factor.lemma_bounds(1);
}

/// One generational step that rewrites a population into the next one.
pub trait Epoch<T: Unit> {
    /// Replaces the units of `active_stack` by the next generation of `size`
    /// units, and tells whether it did so.
    fn epoch(&self, active_stack: &mut Vec<LazyUnit<T>>, size: usize, rng: &mut StdRng) -> bool
        requires
            old(active_stack)@.len() > 0,
    ;
}

/// An epoch that lets a share of the strongest units breed, and keeps a share
/// of those breeders unchanged.
///
/// It does not cull harshly: letting weaker units breed now and then lets a
/// generation escape a local peak.
#[derive(Debug)]
pub struct DefaultEpoch {
    breed_factor: Factor,
    survival_factor: Factor,
}

impl DefaultEpoch {
    pub closed spec fn breed_factor(&self) -> Factor {
        self.breed_factor
    }

    pub closed spec fn survival_factor(&self) -> Factor {
        self.survival_factor
    }

    /// An epoch in which the top `breed_factor` of the population breeds and
    /// the top `survival_factor` of the breeders survives.
    pub fn new(breed_factor: Factor, survival_factor: Factor) -> (r: DefaultEpoch)
        ensures
            r.breed_factor() == breed_factor,
            r.survival_factor() == survival_factor,
    {
        DefaultEpoch { breed_factor, survival_factor }
    }

    /// For a population of `n` units: how many breed, and how many of those
    /// survive.
    pub fn breeding_plan(&self, n: usize) -> (r: (usize, usize))
        ensures
            r.0 == breeder_count(self.breed_factor(), n as nat),
            r.1 == survivor_count(self.survival_factor(), r.0 as nat),
            r.0 <= n,
            r.1 <= r.0,
            n > 0 ==> r.1 >= 1,
            self.breed_factor().valid(),
            self.survival_factor().valid(),
    {
        proof {
            use_type_invariant(&self.breed_factor);
            use_type_invariant(&self.survival_factor);
        }
        let breed_up_to = self.breed_factor.floor_times(n);
        let breeders = if breed_up_to == 0 {
            n
        } else {
            breed_up_to
        };
        let survivors = self.survival_factor.ceil_times(breeders);
        proof {
            self.breed_factor.lemma_bounds(n as nat);
            self.survival_factor.lemma_bounds(breeders as nat);
        }
        (breeders, survivors)
    }

    /// Runs one epoch on `active_stack`, a nonempty population, leaving
    /// `size` units in it, with the second parents of the offspring given:
    /// offspring `i` has breeder `partners[i]` (counted from the strongest)
    /// as second parent.
    ///
    /// The units are sorted by score, lowest first (each unit is scored at
    /// most once); the strongest `floor(breed_factor × n)` become breeders
    /// (all of them, if that rounds down to none); the strongest
    /// `ceil(survival_factor × breeders)` breeders survive. Offspring fill the
    /// population up to `size`, breeder `i mod breeders` being the first
    /// parent of offspring `i`, and the survivors follow them. Where `size`
    /// is below the number of survivors, or `partners` does not hold one
    /// breeder for each offspring, nothing changes and `false` comes back.
    pub fn run_epoch_with_partners<T: Unit>(
        &self,
        active_stack: &mut Vec<LazyUnit<T>>,
        size: usize,
        partners: &Vec<usize>,
    ) -> (r: bool)
        requires
            old(active_stack)@.len() > 0,
        ensures
            ({
                let k = breeder_count(self.breed_factor(), old(active_stack)@.len());
                let sp = survivor_count(self.survival_factor(), k);
                r == (sp <= size && partners@.len() + sp == size && forall|i: int|
                    0 <= i < partners@.len() ==> #[trigger] partners@[i] < k)
            }),
            r ==> next_generation_with(
                old(active_stack)@,
                final(active_stack)@,
                size as nat,
                self.breed_factor(),
                self.survival_factor(),
                partners@.map_values(|d: usize| d as int),
            ),
            !r ==> final(active_stack)@ == old(active_stack)@,
    {
        let (breeders_len, surviving_parents) = self.breeding_plan(active_stack.len());
        if size < surviving_parents || partners.len() != size - surviving_parents {
            return false;
        }
        let mut c: usize = 0;
        while c < partners.len()
            invariant
                active_stack@ == old(active_stack)@,
                breeders_len == breeder_count(self.breed_factor(), old(active_stack)@.len()),
                surviving_parents == survivor_count(self.survival_factor(), breeders_len as nat),
                surviving_parents <= size,
                partners@.len() + surviving_parents == size,
                c <= partners@.len(),
                forall|t: int| 0 <= t < c ==> #[trigger] partners@[t] < breeders_len,
            decreases partners.len() - c,
        {
            if partners[c] >= breeders_len {
                proof {
                    assert(partners@[c as int] >= breeders_len);
                }
                return false;
            }
            c = c + 1;
        }
        let ghost current = active_stack@;
        let ghost n = current.len();
        let ghost seconds = partners@.map_values(|d: usize| d as int);
        let mut units: Vec<LazyUnit<T>> = Vec::new();
        std::mem::swap(&mut units, active_stack);
        let (mut units, Ghost(scored)) = score_and_sort(units);
        let ghost sorted = units@;

        // The strongest units are last: take them from the end.
        let mut breeders: Vec<LazyUnit<T>> = Vec::new();
        while breeders.len() < breeders_len
            invariant
                breeders_len <= n,
                breeders.len() <= breeders_len,
                sorted.len() == n,
                units@ == sorted.take(n - breeders.len()),
                breeders@ == breeders_of(sorted, breeders.len() as nat),
            decreases breeders_len - breeders.len(),
        {
            let unit = units.pop().unwrap();
            breeders.push(unit);
            proof {
                assert(units@ =~= sorted.take(n - breeders.len()));
                assert(breeders@ =~= breeders_of(sorted, breeders.len() as nat));
            }
        }

        let count = size - surviving_parents;
        let mut next: Vec<LazyUnit<T>> = Vec::new();
        let mut i: usize = 0;
        while i < count
            invariant
                breeders_len > 0,
                breeders@ == breeders_of(sorted, breeders_len as nat),
                partners@.len() == count,
                seconds == partners@.map_values(|d: usize| d as int),
                forall|t: int| 0 <= t < count ==> #[trigger] partners@[t] < breeders_len,
                i <= count,
                next@.len() == i,
                forall|t: int|
                    0 <= t < i ==> {
                        &&& (#[trigger] next@[t]).fitness is None
                        &&& next@[t].unit.bred_from(
                            breeders@[first_parent(t as nat, breeders_len as nat) as int].unit,
                            breeders@[seconds[t]].unit,
                        )
                    },
            decreases count - i,
        {
            let first = i % breeders_len;
            let child = breeders[first].unit.breed_with(&breeders[partners[i]].unit);
            next.push(LazyUnit::new(child));
            i = i + 1;
        }

        // The survivors follow the offspring, strongest first.
        breeders.truncate(surviving_parents);
        let ghost offspring = next@;
        next.append(&mut breeders);
        *active_stack = next;
        proof {
            let b = breeders_of(sorted, breeders_len as nat);
            assert(active_stack@.subrange(size - surviving_parents, size as int) =~= b.take(surviving_parents as int));
            assert(active_stack@.take(count as int) =~= offspring);
            assert(bred_by_turns(offspring, b, seconds));
            assert(exists|x: Seq<LazyUnit<T>>, y: Seq<LazyUnit<T>>| {
                &&& scored_all(current, x)
                &&& #[trigger] stably_sorted(y, x)
                &&& active_stack@.subrange(size - surviving_parents, size as int) == #[trigger] breeders_of(y, breeders_len as nat).take(surviving_parents as int)
                &&& bred_by_turns(active_stack@.take(count as int), breeders_of(y, breeders_len as nat), seconds)
            });
        }
        true
    }

    /// Runs one epoch on `active_stack`, a nonempty population, leaving
    /// `size` units in it, the second parents being drawn from `rng`: as
    /// `run_epoch_with_partners` does, with partners drawn uniformly among
    /// the breeders. Where `size` is below the number of survivors, nothing
    /// changes and `false` comes back.
    pub fn run_epoch<T: Unit>(&self, active_stack: &mut Vec<LazyUnit<T>>, size: usize, rng: &mut StdRng) -> (r: bool)
        requires
            old(active_stack)@.len() > 0,
        ensures
            r == (survivor_count(
                self.survival_factor(),
                breeder_count(self.breed_factor(), old(active_stack)@.len()),
            ) <= size),
            r ==> next_generation(
                old(active_stack)@,
                final(active_stack)@,
                size as nat,
                self.breed_factor(),
                self.survival_factor(),
            ),
            !r ==> final(active_stack)@ == old(active_stack)@,
    {
        let (breeders_len, surviving_parents) = self.breeding_plan(active_stack.len());
        if size < surviving_parents {
            return false;
        }
        let partners = draw_partners(size - surviving_parents, breeders_len, &mut *rng);
        let ghost before = active_stack@;
        let done = self.run_epoch_with_partners(active_stack, size, &partners);
        proof {
            let seconds = partners@.map_values(|d: usize| d as int);
            assert(done);
            assert(next_generation_with(before, active_stack@, size as nat, self.breed_factor(), self.survival_factor(), seconds));
        }
        done
    }
}

impl Default for DefaultEpoch {
    /// The top fifth of the population breeds and half of the breeders survive.
    fn default() -> (r: DefaultEpoch)
        ensures
            r.breed_factor().numer() == 1,
            r.breed_factor().denom() == 5,
            r.survival_factor().numer() == 1,
            r.survival_factor().denom() == 2,
    {
        DefaultEpoch::new(Factor { num: 1, den: 5 }, Factor { num: 1, den: 2 })
    }
}

impl<T: Unit> Epoch<T> for DefaultEpoch {
    fn epoch(&self, active_stack: &mut Vec<LazyUnit<T>>, size: usize, rng: &mut StdRng) -> (r: bool)
        ensures
            r == (survivor_count(
                self.survival_factor(),
                breeder_count(self.breed_factor(), old(active_stack)@.len()),
            ) <= size),
            r ==> next_generation(
                old(active_stack)@,
                final(active_stack)@,
                size as nat,
                self.breed_factor(),
                self.survival_factor(),
            ),
            !r ==> final(active_stack)@ == old(active_stack)@,
    {
        self.run_epoch(active_stack, size, rng)
    }
}

} // verus!
