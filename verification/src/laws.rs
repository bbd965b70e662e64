//! Laws that relate several operations, over the values that the types stand for.

pub mod accounting;
pub mod announcing;
pub mod arrival;
pub mod committing;
pub mod convergence;
pub mod counting;
pub mod deciding;
pub mod dispatch;
pub mod engine;
pub mod filing;
pub mod folder;
pub mod index;
pub mod judging;
pub mod keeping;
pub mod letting;
pub mod noting;
pub mod outcomes;
pub mod peers;
pub mod quarantine;
pub mod receiving;
pub mod records;
pub mod reports;
pub mod scanning;
pub mod sourcing;
pub mod texts;
pub mod turns;
pub mod upkeep;
pub mod value;
pub mod want;
