//! Values given or received in a trade: base-currency cash, or an amount of
//! another asset whose base-currency value is still open.
use vstd::prelude::*;

use crate::decimal::{rounded_difference, rounded_sum, Decimal};

verus! {

broadcast use Decimal::lemma_from_units;

/// An amount of the base currency.
#[derive(Clone, Debug, PartialEq)]
pub struct Cash {
    pub currency: String,
    pub amount: Decimal,
}

/// An amount of another asset, with the date of the trade that created it.
#[derive(Clone, Debug, PartialEq)]
pub struct Coupon {
    pub currency: String,
    pub amount: Decimal,
    pub date: String,
}

/// A signed value: negative when paid out, positive when received.
#[derive(Clone, Debug, PartialEq)]
pub enum Money {
    Cash(Cash),
    Coupon(Coupon),
}

impl Money {
    pub open spec fn value(self) -> int {
        match self {
            Money::Cash(c) => c.amount@,
            Money::Coupon(c) => c.amount@,
        }
    }

    /// The same kind of money, in the same currency and of the same date,
    /// holding `amount` instead.
    pub open spec fn with_amount(self, amount: int) -> Money {
        match self {
            Money::Cash(c) => Money::Cash(Cash { currency: c.currency, amount: Decimal::from_units(amount) }),
            Money::Coupon(c) => Money::Coupon(
                Coupon { currency: c.currency, amount: Decimal::from_units(amount), date: c.date },
            ),
        }
    }

    pub fn new_cash(currency: String, amount: Decimal) -> (r: Money)
        ensures
            r == Money::Cash(Cash { currency, amount }),
    {
        Money::Cash(Cash { currency, amount })
    }

    pub fn new_coupon(currency: String, amount: Decimal, date: String) -> (r: Money)
        ensures
            r == Money::Coupon(Coupon { currency, amount, date }),
    {
        Money::Coupon(Coupon { currency, amount, date })
    }

    /// A copy of this money.
    pub fn duplicate(&self) -> (r: Money)
        ensures
            r == *self,
    {
        match self {
            Money::Cash(c) => Money::Cash(Cash { currency: c.currency.clone(), amount: c.amount }),
            Money::Coupon(c) => Money::Coupon(
                Coupon { currency: c.currency.clone(), amount: c.amount, date: c.date.clone() },
            ),
        }
    }

    pub fn is_cash(&self) -> (r: bool)
        ensures
            r == (*self is Cash),
    {
        match self {
            Money::Cash(_) => true,
            Money::Coupon(_) => false,
        }
    }

    pub fn amount(&self) -> (r: Decimal)
        ensures
            r@ == self.value(),
    {
        match self {
            Money::Cash(c) => c.amount,
            Money::Coupon(c) => c.amount,
        }
    }

    /// Takes `amount` out of this money, subtracting as rust_decimal does,
    /// and returns it as money of the same kind, currency and date; `None`,
    /// with nothing changed, when the difference overflows.
    pub fn deduct(&mut self, amount: Decimal) -> (r: Option<Money>)
        ensures
            r is Some <==> rounded_difference(old(self).value(), amount@) is Some,
            r is Some ==> r == Some(old(self).with_amount(amount@)) && *final(self)
                == old(self).with_amount(rounded_difference(old(self).value(), amount@)->Some_0),
            r is None ==> *final(self) == *old(self),
    {
        amount.known();
        match self {
            Money::Cash(c) => match c.amount.rounded_sub(&amount) {
                Some(left) => {
                    c.amount = left;
                    Some(Money::Cash(Cash { currency: c.currency.clone(), amount }))
                },
                None => None,
            },
            Money::Coupon(c) => match c.amount.rounded_sub(&amount) {
                Some(left) => {
                    c.amount = left;
                    Some(
                        Money::Coupon(
                            Coupon { currency: c.currency.clone(), amount, date: c.date.clone() },
                        ),
                    )
                },
                None => None,
            },
        }
    }

    /// The gain or loss in the base currency: the costs summed from zero,
    /// then added to this income, each addition as rust_decimal adds. `None`
    /// when this income or a cost is a coupon, or when an addition overflows.
    pub fn to_net_income(&self, costs: &Vec<Money>) -> (r: Option<Decimal>)
        ensures
            r is Some <==> *self is Cash && all_cash(costs@) && net_value(self.value(), costs@) is Some,
            r matches Some(n) ==> net_value(self.value(), costs@) == Some(n@),
    {
        match self {
            Money::Cash(c) => match cash_total(&Decimal::zero(), costs) {
                Some(sum) => c.amount.rounded_add(&sum),
                None => None,
            },
            Money::Coupon(_) => None,
        }
    }
}

pub open spec fn all_cash(s: Seq<Money>) -> bool {
    forall|i: int| 0 <= i < s.len() ==> (#[trigger] s[i]) is Cash
}

/// Whether every money in `s` is cash.
pub fn all_cash_exec(s: &Vec<Money>) -> (r: bool)
    ensures
        r == all_cash(s@),
{
    let mut i: usize = 0;
    while i < s.len()
        invariant
            i <= s.len(),
            forall|j: int| 0 <= j < i ==> (#[trigger] s@[j]) is Cash,
        decreases s.len() - i,
    {
        if !s[i].is_cash() {
            return false;
        }
        i = i + 1;
    }
    true
}

/// `start` plus the amounts of `s`, added one by one in order as rust_decimal
/// adds; `None` when an addition overflows.
pub open spec fn rounded_total(start: int, s: Seq<Money>) -> Option<int>
    decreases s.len(),
{
    if s.len() == 0 {
        Some(start)
    } else {
        match rounded_total(start, s.drop_last()) {
            Some(t) => rounded_sum(t, s.last().value()),
            None => None,
        }
    }
}

/// `income` plus the sum of `costs`, as `to_net_income` computes it.
pub open spec fn net_value(income: int, costs: Seq<Money>) -> Option<int> {
    match rounded_total(0, costs) {
        Some(t) => rounded_sum(income, t),
        None => None,
    }
}

proof fn lemma_total_none(start: int, s: Seq<Money>, n: int)
    requires
        0 <= n <= s.len(),
        rounded_total(start, s.take(n)) is None,
    ensures
        rounded_total(start, s) is None,
    decreases s.len() - n,
{
    if n < s.len() {
        assert(s.take(n + 1).drop_last() =~= s.take(n));
        lemma_total_none(start, s, n + 1);
    } else {
        assert(s.take(n) =~= s);
    }
}

/// `start` plus the amounts in `costs`, added as rust_decimal adds, when all
/// of them are cash and no addition overflows.
pub fn cash_total(start: &Decimal, costs: &Vec<Money>) -> (r: Option<Decimal>)
    ensures
        r is Some <==> all_cash(costs@) && rounded_total(start@, costs@) is Some,
        r matches Some(n) ==> rounded_total(start@, costs@) == Some(n@),
{
    let mut acc: Decimal = *start;
    let mut i: usize = 0;
    assert(costs@.take(0) =~= Seq::<Money>::empty());
    while i < costs.len()
        invariant
            i <= costs.len(),
            rounded_total(start@, costs@.take(i as int)) == Some(acc@),
            forall|j: int| 0 <= j < i ==> (#[trigger] costs@[j]) is Cash,
        decreases costs.len() - i,
    {
        assert(costs@.take(i + 1).drop_last() =~= costs@.take(i as int));
        match &costs[i] {
            Money::Cash(c) => match acc.rounded_add(&c.amount) {
                Some(next) => {
                    acc = next;
                },
                None => {
                    proof {
                        lemma_total_none(start@, costs@, i + 1);
                    }
                    return None;
                },
            },
            Money::Coupon(_) => {
                return None;
            },
        }
        i = i + 1;
    }
    assert(costs@.take(costs.len() as int) =~= costs@);
    Some(acc)
}

} // verus!
