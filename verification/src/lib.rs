//! Celebrity-clique search over a finite "knows" relation.
//!
//! A party is a finite set of persons, each acknowledging a set of other
//! persons' ids. A celebrity clique is a non-empty subset known by everyone
//! at the party whose members know only each other; it is unique when it
//! exists. The search enumerates the party's power set and tests each
//! candidate against the celebrity-clique predicate.

pub mod binomial;
pub mod clique;
pub mod export;
pub mod power;
pub mod person;

pub use clique::Clique;
pub use person::Member;
pub use person::Person;
pub use person::member_knows;
