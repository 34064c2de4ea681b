use crate::direction::Direction;
use crate::timestamp::Timestamp;
use vstd::prelude::*;

verus! {

/// An immutable record of a fill: the bid-side key that bought, the
/// ask-side key that sold, and the price, volume, timestamp and aggressor
/// determined by the matching rules.
#[derive(Debug, PartialEq)]
pub struct Trade {
    pub buy_key: String,
    pub sell_key: String,

    pub price: u64,
    pub volume: u64,
    pub timestamp: Timestamp,
    pub aggressor_side: Option<Direction>,
}

/// The mathematical value of a [`Trade`]: the same fields with the keys
/// as character sequences.
pub ghost struct TradeModel {
    pub buy_key: Seq<char>,
    pub sell_key: Seq<char>,
    pub price: u64,
    pub volume: u64,
    pub timestamp: Timestamp,
    pub aggressor_side: Option<Direction>,
}

impl View for Trade {
    type V = TradeModel;

    open spec fn view(&self) -> TradeModel {
        TradeModel {
            buy_key: self.buy_key@,
            sell_key: self.sell_key@,
            price: self.price,
            volume: self.volume,
            timestamp: self.timestamp,
            aggressor_side: self.aggressor_side,
        }
    }
}

impl Trade {
    /// Notional value of the fill: price times volume, widened so the
    /// product cannot overflow.
    pub fn cost(&self) -> (r: u128)
        ensures
            r == self.price * self.volume,
    {
        proof {
            assert((self.price as int) * (self.volume as int) <= (u64::MAX as int) * (
            u64::MAX as int)) by (nonlinear_arith)
                requires
                    self.price <= u64::MAX,
                    self.volume <= u64::MAX,
            ;
        }
        (self.price as u128) * (self.volume as u128)
    }
}

} // verus!
