//! One cost lot: units of the tracked asset and the money given for them.
use vstd::prelude::*;

use crate::decimal::{in_range, rounded_difference, rounded_sum, share_of, Decimal};
use crate::money::Money;

verus! {

broadcast use Decimal::lemma_from_units;

/// Why a trade could not be booked.
#[derive(Clone, Copy, Debug, PartialEq, Eq, Structural)]
pub enum CostError {
    /// A sell asks for more units than the book holds.
    NotEnoughCost,
    /// A value left the range that a `Decimal` holds.
    Overflow,
}

/// `paid_amount` units of the tracked asset, acquired for `exchanged`. The
/// unit cost `exchanged / paid_amount` is derived, never stored.
#[derive(Clone, Debug, PartialEq)]
pub struct Cost {
    pub paid_amount: Decimal,
    pub exchanged: Money,
    pub is_vault: bool,
}

impl Cost {
    /// Redeeming `delta` (negative) units: `Some(None)` when the lot holds too
    /// few; `Some(Some((rest, slice)))` with what stays in the lot and what was
    /// taken, the value taken being the lot's unit cost times `-delta`; `None`
    /// when a value does not fit.
    pub open spec fn taken(self, delta: int) -> Option<Option<(Cost, Cost)>> {
        if self.paid_amount@ + delta < 0 {
            Some(None)
        } else if !in_range(self.paid_amount@ + delta) || !in_range(-delta) {
            None
        } else {
            match share_of(self.exchanged.value(), self.paid_amount@, -delta) {
                Some(s) => match rounded_difference(self.exchanged.value(), s) {
                    Some(left) => Some(
                        Some(
                            (
                                Cost {
                                    paid_amount: Decimal::from_units(self.paid_amount@ + delta),
                                    exchanged: self.exchanged.with_amount(left),
                                    is_vault: self.is_vault,
                                },
                                Cost {
                                    paid_amount: Decimal::from_units(-delta),
                                    exchanged: self.exchanged.with_amount(s),
                                    is_vault: self.is_vault,
                                },
                            ),
                        ),
                    ),
                    None => None,
                },
                None => None,
            }
        }
    }

    pub fn new(paid_amount: Decimal, exchanged: Money, is_vault: bool) -> (r: Cost)
        ensures
            r == (Cost { paid_amount, exchanged, is_vault }),
    {
        Cost { paid_amount, exchanged, is_vault }
    }

    /// Redeems `paid_amount` (negative) units from this lot at its unit cost
    /// and returns them as a lot of their own; `Ok(None)` when this lot holds
    /// too few. Nothing changes unless a lot is returned.
    pub fn maybe_deduct(&mut self, paid_amount: Decimal) -> (r: Result<Option<Cost>, CostError>)
        requires
            paid_amount@ < 0,
            old(self).paid_amount@ >= 0,
        ensures
            match old(self).taken(paid_amount@) {
                None => r == Err::<Option<Cost>, CostError>(CostError::Overflow) && *final(self)
                    == *old(self),
                Some(None) => r == Ok::<Option<Cost>, CostError>(None) && *final(self) == *old(self),
                Some(Some(p)) => r == Ok::<Option<Cost>, CostError>(Some(p.1)) && *final(self) == p.0,
            },
    {
        self.paid_amount.known();
        paid_amount.known();
        let left = match self.paid_amount.checked_add(&paid_amount) {
            Some(x) => x,
            None => return Err(CostError::Overflow),
        };
        if left.is_negative() {
            return Ok(None);
        }
        let taken = paid_amount.neg();
        let value = self.exchanged.amount();
        match Decimal::share(&value, &self.paid_amount, &taken) {
            None => Err(CostError::Overflow),
            Some(s) => match self.exchanged.deduct(s) {
                None => Err(CostError::Overflow),
                Some(slice) => {
                    self.paid_amount = left;
                    Ok(Some(Cost::new(taken, slice, self.is_vault)))
                },
            },
        }
    }

    /// Merges a cash buy into this lot by adding both quantities; the unit
    /// cost becomes the weighted average. A coupon lot is left as it is.
    pub fn add_cash(&mut self, paid_amount: Decimal, amount: Decimal) -> (r: Result<(), CostError>)
        ensures
            old(self).exchanged is Coupon ==> r is Ok && *final(self) == *old(self),
            old(self).exchanged is Cash ==> (r is Ok <==> in_range(old(self).paid_amount@ + paid_amount@)
                && rounded_sum(old(self).exchanged.value(), amount@) is Some),
            old(self).exchanged is Cash && r is Ok ==> *final(self) == (Cost {
                paid_amount: Decimal::from_units(old(self).paid_amount@ + paid_amount@),
                exchanged: old(self).exchanged.with_amount(
                    rounded_sum(old(self).exchanged.value(), amount@)->Some_0,
                ),
                is_vault: old(self).is_vault,
            }),
            r is Err ==> *final(self) == *old(self) && r == Err::<(), CostError>(CostError::Overflow),
    {
        if let Money::Cash(cash) = &mut self.exchanged {
            match (self.paid_amount.checked_add(&paid_amount), cash.amount.rounded_add(&amount)) {
                (Some(p), Some(a)) => {
                    cash.amount = a;
                    self.paid_amount = p;
                    Ok(())
                },
                _ => Err(CostError::Overflow),
            }
        } else {
            Ok(())
        }
    }
}

} // verus!
