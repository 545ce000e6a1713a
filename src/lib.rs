use vstd::prelude::*;

pub mod resource;
pub mod hand;
pub mod item;
pub mod gcd;
pub mod card_tracker;
pub mod chat;
pub mod controller;
pub mod laws;
pub mod patterns;
pub mod cdp;

verus! {

} // verus!
