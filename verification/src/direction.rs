use vstd::prelude::*;

verus! {

/// The two sides of the book: an ask offers to sell, a bid offers to buy.
#[derive(Clone, Copy, Debug, PartialEq, Eq, Structural)]
pub enum Direction {
    Ask,
    Bid,
}

} // verus!
