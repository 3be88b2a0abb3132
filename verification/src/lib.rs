//! Seven-card poker holdings: a deck to deal them from and the ranking of the
//! best five-card hand that a holding contains.

pub mod deck;
pub mod dominance;
pub mod filtering;
pub mod hand;
pub mod patterns;
pub mod ranking;
pub mod rearranging;
