//! A reconciled trade: units of the tracked asset bought or sold, and what was
//! given or received for them.
use vstd::prelude::*;

use crate::decimal::Decimal;
use crate::money::{Cash, Coupon, Money};

verus! {

#[derive(Clone, Copy, Debug, PartialEq, Eq, Structural)]
pub enum Direction {
    Buy,
    Sell,
}

/// `paid_amount` units of `paid_currency` were bought (positive) or sold
/// (negative) for `exchanged_amount` of `exchanged_currency`.
#[derive(Clone, Debug, PartialEq)]
pub struct Trade {
    pub direction: Direction,
    pub paid_currency: String,
    pub paid_amount: Decimal,
    pub exchanged_currency: String,
    pub exchanged_amount: Decimal,
    pub date: String,
    pub is_vault: bool,
}

/// A trade as plain values: direction, paid currency and amount, exchanged
/// currency and amount, date, vault flag.
pub type TradeView = (Direction, Seq<char>, int, Seq<char>, int, Seq<char>, bool);

impl View for Trade {
    type V = TradeView;

    open spec fn view(&self) -> TradeView {
        (
            self.direction,
            self.paid_currency@,
            self.paid_amount@,
            self.exchanged_currency@,
            self.exchanged_amount@,
            self.date@,
            self.is_vault,
        )
    }
}

/// The view of the trade that `Trade::new` makes.
pub open spec fn blank_trade() -> TradeView {
    (Direction::Buy, Seq::empty(), 0, Seq::empty(), 0, Seq::empty(), false)
}

impl Trade {
    /// What was exchanged, seen from a book kept in `base`: cash when it is in
    /// the base currency, else a coupon dated by this trade.
    pub open spec fn money_for(self, base: Seq<char>) -> Money {
        if self.exchanged_currency@ == base {
            Money::Cash(Cash { currency: self.exchanged_currency, amount: self.exchanged_amount })
        } else {
            Money::Coupon(
                Coupon {
                    currency: self.exchanged_currency,
                    amount: self.exchanged_amount,
                    date: self.date,
                },
            )
        }
    }

    /// An empty buy: no currencies, zero amounts, no date, not in the vault.
    pub fn new() -> (r: Trade)
        ensures
            r@ == blank_trade(),
    {
        Trade {
            direction: Direction::Buy,
            paid_currency: String::new(),
            paid_amount: Decimal::zero(),
            exchanged_currency: String::new(),
            exchanged_amount: Decimal::zero(),
            date: String::new(),
            is_vault: false,
        }
    }

    pub fn to_money(&self, base: &String) -> (r: Money)
        ensures
            r == self.money_for(base@),
    {
        if self.exchanged_currency == *base {
            Money::new_cash(self.exchanged_currency.clone(), self.exchanged_amount)
        } else {
            Money::new_coupon(self.exchanged_currency.clone(), self.exchanged_amount, self.date.clone())
        }
    }
}

} // verus!
