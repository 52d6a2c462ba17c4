//! One generational step of an evolutionary search: units are scored (each
//! score computed at most once), the strongest are chosen to breed, a share of
//! them carries over unchanged, and offspring fill the rest of the next
//! generation.

pub mod epoch;
pub mod random;
pub mod ranking;
pub mod unit;
