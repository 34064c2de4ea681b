use crate::timestamp::Timestamp;
use vstd::prelude::*;

verus! {

/// A resting limit order.  Prices and volumes are integer counts of the
/// caller's smallest unit; a resting order always has positive volume.
#[derive(Clone, Copy, Debug, PartialEq, Eq, Structural)]
pub struct Order {
    pub price: u64,
    pub volume: u64,
    pub timestamp: Timestamp,
}

impl Order {
    /// A fresh order with the given price and volume, timestamped zero;
    /// the caller overwrites the timestamp when it has a real one.
    pub fn new(price: u64, volume: u64) -> (r: Order)
        ensures
            r == (Order { price, volume, timestamp: Timestamp(0) }),
    {
        Order { price, volume, timestamp: Timestamp(0) }
    }

    /// Notional value of the order: price times volume, widened so the
    /// product cannot overflow.
    pub fn cost(&self) -> (r: u128)
        ensures
            r == self.price * self.volume,
    {
        proof {
            assert((self.price as int) * (self.volume as int) <= (u64::MAX as int) * (
            u64::MAX as int)) by (nonlinear_arith)
                requires
                    self.price <= u64::MAX,
                    self.volume <= u64::MAX,
            ;
        }
        (self.price as u128) * (self.volume as u128)
    }
}

} // verus!
