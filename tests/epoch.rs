use evolution::epoch::{draw_partners, DefaultEpoch, Epoch, Factor, FactorError};
use evolution::ranking::score_and_sort;
use evolution::unit::{LazyUnit, Unit};
use rand::rngs::StdRng;
use rand::SeedableRng;

/// A unit that remembers where it came from.
#[derive(Debug, Clone, PartialEq)]
struct Tagged {
    id: u32,
    value: i64,
    parents: Option<(u32, u32)>,
}

impl Unit for Tagged {
    fn fitness(&self) -> i64 {
        self.value
    }

    fn fitness_of(self) -> i64 {
        self.value
    }

    fn bred_from(self, a: Self, b: Self) -> bool {
        self.parents == Some((a.id, b.id)) && self.value == (a.value + b.value) / 2
    }

    fn breed_with(&self, other: &Self) -> Self {
        Tagged { id: 1000, value: (self.value + other.value) / 2, parents: Some((self.id, other.id)) }
    }
}

fn tagged(values: &[i64]) -> Vec<LazyUnit<Tagged>> {
    values
        .iter()
        .enumerate()
        .map(|(i, v)| LazyUnit::new(Tagged { id: i as u32, value: *v, parents: None }))
        .collect()
}

fn factor(num: u32, den: u32) -> Factor {
    Factor::new(num, den).unwrap()
}

fn rng() -> StdRng {
    StdRng::seed_from_u64(7)
}

#[test]
fn factor_rejects_zero_denominator() {
    assert_eq!(Factor::new(1, 0).unwrap_err(), FactorError::ZeroDenominator);
}

#[test]
fn factor_rejects_zero() {
    assert_eq!(Factor::new(0, 3).unwrap_err(), FactorError::NotPositive);
}

#[test]
fn factor_rejects_above_one() {
    assert_eq!(Factor::new(4, 3).unwrap_err(), FactorError::AboveOne);
}

#[test]
fn factor_rounds_exactly() {
    let f = factor(7, 10);
    assert_eq!(f.floor_times(9), 6);
    assert_eq!(f.ceil_times(9), 7);
    assert_eq!(f.floor_times(10), 7);
    assert_eq!(f.ceil_times(10), 7);
    assert_eq!(f.floor_times(0), 0);
    assert_eq!(f.ceil_times(0), 0);
    let one = factor(3, 3);
    assert_eq!(one.floor_times(usize::MAX), usize::MAX);
    assert_eq!(one.ceil_times(usize::MAX), usize::MAX);
}

#[test]
fn sort_is_ascending_and_stable() {
    let (sorted, _) = score_and_sort(tagged(&[5, 1, 5, -2, 1, 9]));
    let ids: Vec<u32> = sorted.iter().map(|u| u.unit.id).collect();
    assert_eq!(ids, vec![3, 1, 4, 0, 2, 5]);
    assert!(sorted.iter().all(|u| u.cached_fitness() == Some(u.unit.value)));
}

#[test]
fn partners_are_drawn_among_breeders() {
    let mut r = rng();
    let partners = draw_partners(200, 3, &mut r);
    assert_eq!(partners.len(), 200);
    assert!(partners.iter().all(|p| *p < 3));
    assert!(partners.iter().any(|p| *p != partners[0]));
}

#[test]
fn breeding_plan_counts() {
    let epoch = DefaultEpoch::default();
    assert_eq!(epoch.breeding_plan(10), (2, 1));
    assert_eq!(epoch.breeding_plan(1), (1, 1));
    assert_eq!(epoch.breeding_plan(3), (3, 2));
    assert_eq!(epoch.breeding_plan(25), (5, 3));
}

#[test]
fn given_partners_fix_every_offspring() {
    let epoch = DefaultEpoch::new(factor(1, 5), factor(1, 2));
    let mut pop = tagged(&[4, 1, 10, 3, 9, 2, 8, 5, 7, 6]);
    let partners = vec![1, 0, 0, 1, 1, 0, 1, 0, 0];
    assert!(epoch.run_epoch_with_partners(&mut pop, 10, &partners));
    let strongest = [2u32, 4u32];
    for (i, u) in pop[..9].iter().enumerate() {
        assert_eq!(u.unit.parents, Some((strongest[i % 2], strongest[partners[i]])));
        assert_eq!(u.cached_fitness(), None);
    }
    assert_eq!(pop[9].unit.id, 2);
    assert_eq!(pop[9].cached_fitness(), Some(10));
    assert!(pop.iter().all(|u| u.unit.id == 2 || u.unit.parents.is_some()));
}

#[test]
fn partners_outside_the_breeders_are_refused() {
    let epoch = DefaultEpoch::new(factor(1, 5), factor(1, 2));
    let mut pop = tagged(&[1, 2, 3, 4, 5, 6, 7, 8, 9, 10]);
    let partners = vec![0, 1, 2, 0, 1, 0, 1, 0, 1];
    assert!(!epoch.run_epoch_with_partners(&mut pop, 10, &partners));
    let ids: Vec<u32> = pop.iter().map(|u| u.unit.id).collect();
    assert_eq!(ids, (0..10).collect::<Vec<u32>>());
    assert!(pop.iter().all(|u| u.cached_fitness().is_none()));
}

#[test]
fn partner_count_must_match_offspring_count() {
    let epoch = DefaultEpoch::new(factor(1, 5), factor(1, 2));
    let mut pop = tagged(&[1, 2, 3, 4, 5, 6, 7, 8, 9, 10]);
    assert!(!epoch.run_epoch_with_partners(&mut pop, 10, &vec![0, 1]));
    assert_eq!(pop.len(), 10);
    assert!(pop.iter().all(|u| u.unit.parents.is_none()));
}

#[test]
fn ten_units_keep_the_strongest() {
    let epoch = DefaultEpoch::new(factor(1, 5), factor(1, 2));
    let mut pop = tagged(&[1, 2, 3, 4, 5, 6, 7, 8, 9, 10]);
    assert!(epoch.run_epoch(&mut pop, 10, &mut rng()));
    assert_eq!(pop.len(), 10);
    let untouched: Vec<&LazyUnit<Tagged>> = pop.iter().filter(|u| u.unit.parents.is_none()).collect();
    assert_eq!(untouched.len(), 1);
    assert_eq!(untouched[0].unit.value, 10);
    assert_eq!(untouched[0].cached_fitness(), Some(10));
    assert_eq!(pop[9].unit.id, 9);
    for u in &pop[..9] {
        assert_eq!(u.cached_fitness(), None);
        let (a, b) = u.unit.parents.unwrap();
        assert!(a == 8 || a == 9);
        assert!(b == 8 || b == 9);
    }
    let firsts: Vec<u32> = pop[..9].iter().map(|u| u.unit.parents.unwrap().0).collect();
    assert_eq!(firsts, vec![9, 8, 9, 8, 9, 8, 9, 8, 9]);
}

#[test]
fn default_epoch_breeds_top_fifth() {
    let epoch = DefaultEpoch::default();
    let mut pop = tagged(&[10, 9, 8, 7, 6, 5, 4, 3, 2, 1]);
    assert!(epoch.run_epoch(&mut pop, 10, &mut rng()));
    assert_eq!(pop.len(), 10);
    assert_eq!(pop[9].unit.id, 0);
    assert_eq!(pop[9].unit.parents, None);
    for u in &pop[..9] {
        let (a, b) = u.unit.parents.unwrap();
        assert!(a <= 1 && b <= 1);
    }
}

#[test]
fn single_unit_breeds_with_itself() {
    let epoch = DefaultEpoch::default();
    let mut pop = tagged(&[42]);
    assert!(epoch.run_epoch(&mut pop, 4, &mut rng()));
    assert_eq!(pop.len(), 4);
    for u in &pop[..3] {
        assert_eq!(u.unit.parents, Some((0, 0)));
        assert_eq!(u.unit.value, 42);
    }
    assert_eq!(pop[3].unit.id, 0);
    assert_eq!(pop[3].cached_fitness(), Some(42));
}

#[test]
fn single_unit_alone_survives() {
    let epoch = DefaultEpoch::default();
    let mut pop = tagged(&[3]);
    assert!(epoch.run_epoch(&mut pop, 1, &mut rng()));
    assert_eq!(pop.len(), 1);
    assert_eq!(pop[0].unit.id, 0);
}

#[test]
fn population_grows_and_shrinks() {
    let epoch = DefaultEpoch::new(factor(1, 2), factor(1, 1));
    let mut pop = tagged(&[4, 8, 15, 16, 23, 42]);
    assert!(epoch.run_epoch(&mut pop, 20, &mut rng()));
    assert_eq!(pop.len(), 20);
    assert!(epoch.run_epoch(&mut pop, 11, &mut rng()));
    assert_eq!(pop.len(), 11);
    assert!(!epoch.run_epoch(&mut pop, 4, &mut rng()));
    assert_eq!(pop.len(), 11);
}

#[test]
fn survivors_follow_offspring_strongest_first() {
    let epoch = DefaultEpoch::new(factor(1, 2), factor(2, 3));
    let mut pop = tagged(&[30, 10, 60, 20, 50, 40]);
    assert!(epoch.run_epoch(&mut pop, 8, &mut rng()));
    assert_eq!(pop.len(), 8);
    let tail: Vec<u32> = pop[6..].iter().map(|u| u.unit.id).collect();
    assert_eq!(tail, vec![2, 4]);
    assert_eq!(pop[6].cached_fitness(), Some(60));
    assert_eq!(pop[7].cached_fitness(), Some(50));
}

#[test]
fn equal_scores_favour_the_later_unit() {
    let epoch = DefaultEpoch::new(factor(1, 4), factor(1, 1));
    let mut pop = tagged(&[7, 7, 7, 7]);
    assert!(epoch.run_epoch(&mut pop, 3, &mut rng()));
    assert_eq!(pop[2].unit.id, 3);
}

#[test]
fn every_breeder_leads_an_offspring() {
    let epoch = DefaultEpoch::new(factor(1, 2), factor(1, 4));
    let mut pop = tagged(&[1, 2, 3, 4, 5, 6, 7, 8]);
    assert!(epoch.run_epoch(&mut pop, 6, &mut rng()));
    let firsts: Vec<u32> = pop[..5].iter().map(|u| u.unit.parents.unwrap().0).collect();
    assert_eq!(firsts, vec![7, 6, 5, 4, 7]);
}

#[test]
fn small_population_breeds_whole() {
    let epoch = DefaultEpoch::default();
    let mut pop = tagged(&[2, 9, 5]);
    assert!(epoch.run_epoch(&mut pop, 3, &mut rng()));
    let tail: Vec<u32> = pop[1..].iter().map(|u| u.unit.id).collect();
    assert_eq!(tail, vec![1, 2]);
    assert_eq!(pop[0].unit.parents.unwrap().0, 1);
}

#[test]
fn size_below_survivors_changes_nothing() {
    let epoch = DefaultEpoch::new(factor(1, 1), factor(1, 1));
    let mut pop = tagged(&[3, 1, 2]);
    assert!(!epoch.run_epoch(&mut pop, 2, &mut rng()));
    let ids: Vec<u32> = pop.iter().map(|u| u.unit.id).collect();
    assert_eq!(ids, vec![0, 1, 2]);
    assert!(pop.iter().all(|u| u.cached_fitness().is_none()));
}

#[test]
fn epoch_trait_runs_the_default_epoch() {
    let epoch = DefaultEpoch::default();
    let mut pop = tagged(&[1, 2, 3, 4, 5, 6, 7, 8, 9, 10]);
    assert!(Epoch::epoch(&epoch, &mut pop, 12, &mut rng()));
    assert_eq!(pop.len(), 12);
    assert_eq!(pop[11].unit.id, 9);
}

#[test]
fn equal_fitness_keeps_first_order() {
    let epoch = DefaultEpoch::new(factor(1, 2), factor(1, 1));
    let mut pop = tagged(&[0, 0, 0, 0, 0, 0]);
    assert!(epoch.run_epoch(&mut pop, 3, &mut rng()));
    let tail: Vec<u32> = pop.iter().map(|u| u.unit.id).collect();
    assert_eq!(tail, vec![5, 4, 3]);
    assert!(pop.iter().all(|u| u.cached_fitness() == Some(0)));
}

#[test]
fn kept_scores_are_the_units_fitness() {
    let epoch = DefaultEpoch::new(factor(1, 2), factor(1, 1));
    let mut pop = tagged(&[-5, 12, 3, 40]);
    assert!(epoch.run_epoch(&mut pop, 2, &mut rng()));
    assert_eq!(pop[0].unit.id, 3);
    assert_eq!(pop[0].cached_fitness(), Some(40));
    assert_eq!(pop[1].unit.id, 1);
    assert_eq!(pop[1].cached_fitness(), Some(12));
}
