//! The result of one sell: what was received, the costs matched against it,
//! and the gain or loss when it can be told in the base currency.
use vstd::prelude::*;

use crate::cost::{Cost, CostError};
use crate::cost_book::{replayed, reports, well_signed, CostBook};
use crate::decimal::{in_range, rounded_sum, Decimal};
use crate::money::{all_cash, cash_total, net_value, rounded_total, Cash, Money};
use crate::revolut_row_2022::{has_text, text_contains};
use crate::trade::Trade;

verus! {

broadcast use Decimal::lemma_from_units;

#[derive(Debug, PartialEq)]
pub struct TaxableTrade {
    pub date: Option<String>,
    pub currency: String,
    pub amount: Decimal,
    pub income: Money,
    pub costs: Vec<Money>,
    pub net_income: Option<Decimal>,
}

/// The money of each slice, in order.
pub open spec fn exchanged_of(slices: Seq<Cost>) -> Seq<Money> {
    slices.map_values(|c: Cost| c.exchanged)
}

/// What `to_net_income` gives for `income` against `costs`.
pub open spec fn net_of(income: Money, costs: Seq<Money>, net: Option<Decimal>) -> bool {
    &&& (net is Some <==> income is Cash && all_cash(costs) && net_value(income.value(), costs) is Some)
    &&& (net matches Some(n) ==> net_value(income.value(), costs) == Some(n@))
}

/// `tt` reports the sell `trade`, booked in `base`, matched against `slices`.
pub open spec fn describes_sale(tt: TaxableTrade, trade: Trade, base: Seq<char>, slices: Seq<Cost>) -> bool {
    &&& tt.date == Some(trade.date)
    &&& tt.currency == trade.paid_currency
    &&& tt.amount == trade.paid_amount
    &&& tt.income == trade.money_for(base)
    &&& tt.costs@ == exchanged_of(slices)
    &&& net_of(tt.income, tt.costs@, tt.net_income)
}

/// Why taxable trades could not be summed by currency.
#[derive(Clone, Copy, Debug, PartialEq, Eq, Structural)]
pub enum SumError {
    /// A trade has a cost that is not cash.
    NotAllCash,
    /// A sum left the range that a `Decimal` holds.
    Overflow,
}

/// The currencies of `tts`, each once, in the order they first appear.
pub open spec fn currencies_of(tts: Seq<TaxableTrade>) -> Seq<Seq<char>>
    decreases tts.len(),
{
    if tts.len() == 0 {
        Seq::empty()
    } else {
        let p = currencies_of(tts.drop_last());
        if p.contains(tts.last().currency@) {
            p
        } else {
            p.push(tts.last().currency@)
        }
    }
}

/// The income (`field` 1) or the summed cost (any other) of `t`.
pub open spec fn field_of(t: TaxableTrade, field: int) -> int {
    if field == 1 {
        t.income.value()
    } else {
        match rounded_total(0, t.costs@) {
            Some(c) => c,
            None => 0,
        }
    }
}

/// The sum of the amounts (units sold) of the trades of `tts` in `cur`.
pub open spec fn amount_for(tts: Seq<TaxableTrade>, cur: Seq<char>) -> int
    decreases tts.len(),
{
    if tts.len() == 0 {
        0
    } else {
        amount_for(tts.drop_last(), cur) + if tts.last().currency@ == cur {
            tts.last().amount@
        } else {
            0
        }
    }
}

/// The income (`field` 1) or cost of the trades of `tts` in `cur`, summed
/// from zero in order as rust_decimal adds; `None` when an addition
/// overflows.
pub open spec fn total_for(tts: Seq<TaxableTrade>, cur: Seq<char>, field: int) -> Option<int>
    decreases tts.len(),
{
    if tts.len() == 0 {
        Some(0)
    } else {
        match total_for(tts.drop_last(), cur, field) {
            Some(p) => if tts.last().currency@ == cur {
                rounded_sum(p, field_of(tts.last(), field))
            } else {
                Some(p)
            },
            None => None,
        }
    }
}

/// Every cost of every trade is cash.
pub open spec fn all_costs_cash(tts: Seq<TaxableTrade>) -> bool {
    forall|k: int| 0 <= k < tts.len() ==> all_cash((#[trigger] tts[k]).costs@)
}

/// No sum that summing `tts` by currency computes overflows.
pub open spec fn sums_by_currency_fit(tts: Seq<TaxableTrade>) -> bool {
    &&& forall|k: int| 0 <= k < tts.len() ==> rounded_total(0, (#[trigger] tts[k]).costs@) is Some
    &&& forall|i: int, k: int|
        0 <= i <= tts.len() && 0 <= k < tts.len() ==> in_range(
            amount_for(#[trigger] tts.take(i), (#[trigger] tts[k]).currency@),
        )
    &&& forall|k: int|
        0 <= k < tts.len() ==> {
            &&& total_for(tts, (#[trigger] tts[k]).currency@, 1) is Some
            &&& total_for(tts, tts[k].currency@, 2) is Some
            &&& rounded_sum(
                total_for(tts, tts[k].currency@, 1)->Some_0,
                total_for(tts, tts[k].currency@, 2)->Some_0,
            ) is Some
        }
}

/// `s` is the summary row of currency `cur` over `tts`.
pub open spec fn summarizes(s: TaxableTrade, tts: Seq<TaxableTrade>, cur: Seq<char>) -> bool {
    let income = total_for(tts, cur, 1)->Some_0;
    let cost = total_for(tts, cur, 2)->Some_0;
    &&& s.date is None
    &&& s.currency@ == cur
    &&& s.amount@ == amount_for(tts, cur)
    &&& s.income is Cash && s.income->Cash_0.currency@ == "UNKNOWN"@ && total_for(tts, cur, 1) == Some(
        s.income.value(),
    )
    &&& s.costs@.len() == 1 && s.costs@[0] is Cash && s.costs@[0]->Cash_0.currency@ == "UNKNOWN"@
        && total_for(tts, cur, 2) == Some(s.costs@[0].value())
    &&& s.net_income matches Some(n) && rounded_sum(income, cost) == Some(n@)
}

proof fn lemma_currencies(tts: Seq<TaxableTrade>)
    ensures
        forall|c: Seq<char>| #[trigger] currencies_of(tts).contains(c) <==> exists|k: int| 0 <= k < tts.len() && tts[k].currency@ == c,
        forall|a: int, b: int| 0 <= a < b < currencies_of(tts).len() ==> currencies_of(tts)[a] != currencies_of(tts)[b],
    decreases tts.len(),
{
    if tts.len() > 0 {
        let p = tts.drop_last();
        lemma_currencies(p);
        assert forall|c: Seq<char>| #[trigger] currencies_of(tts).contains(c) <==> exists|k: int| 0 <= k < tts.len() && tts[k].currency@ == c by {
            if exists|k: int| 0 <= k < tts.len() && tts[k].currency@ == c {
                let k = choose|k: int| 0 <= k < tts.len() && tts[k].currency@ == c;
                if k < p.len() {
                    assert(p[k] == tts[k]);
                    assert(currencies_of(p).contains(c));
                    if !currencies_of(p).contains(tts.last().currency@) {
                        assert(currencies_of(tts)[currencies_of(p).index_of(c)] == c);
                    }
                } else {
                    if !currencies_of(p).contains(tts.last().currency@) {
                        assert(currencies_of(tts)[currencies_of(p).len() as int] == c);
                    }
                }
            }
            if currencies_of(tts).contains(c) {
                let j = choose|j: int| 0 <= j < currencies_of(tts).len() && currencies_of(tts)[j] == c;
                if j < currencies_of(p).len() {
                    assert(currencies_of(p)[j] == c);
                    assert(currencies_of(p).contains(c));
                    let k = choose|k: int| 0 <= k < p.len() && p[k].currency@ == c;
                    assert(tts[k] == p[k]);
                } else {
                    assert(tts[tts.len() - 1].currency@ == c);
                }
            }
        }
    }
}

proof fn lemma_total_absent(tts: Seq<TaxableTrade>, cur: Seq<char>, field: int)
    requires
        forall|k: int| 0 <= k < tts.len() ==> (#[trigger] tts[k]).currency@ != cur,
    ensures
        total_for(tts, cur, field) == Some(0int),
        amount_for(tts, cur) == 0,
    decreases tts.len(),
{
    if tts.len() > 0 {
        let p = tts.drop_last();
        assert forall|k: int| 0 <= k < p.len() implies (#[trigger] p[k]).currency@ != cur by {
            assert(p[k] == tts[k]);
        }
        lemma_total_absent(p, cur, field);
    }
}

proof fn lemma_total_for_none(tts: Seq<TaxableTrade>, cur: Seq<char>, field: int, n: int)
    requires
        0 <= n <= tts.len(),
        total_for(tts.take(n), cur, field) is None,
    ensures
        total_for(tts, cur, field) is None,
    decreases tts.len() - n,
{
    if n < tts.len() {
        assert(tts.take(n + 1).drop_last() =~= tts.take(n));
        lemma_total_for_none(tts, cur, field, n + 1);
    } else {
        assert(tts.take(n) =~= tts);
    }
}

/// Trades `a` and `b` are of the same (asset, base currency) pair.
pub open spec fn same_pair(a: Trade, b: Trade) -> bool {
    a.paid_currency@ == b.paid_currency@ && a.exchanged_currency@ == b.exchanged_currency@
}

/// The first trade of each pair, in the order the pairs first appear.
pub open spec fn pair_firsts(trades: Seq<Trade>) -> Seq<Trade>
    decreases trades.len(),
{
    if trades.len() == 0 {
        Seq::empty()
    } else {
        let p = pair_firsts(trades.drop_last());
        if exists|k: int| 0 <= k < p.len() && same_pair(p[k], trades.last()) {
            p
        } else {
            p.push(trades.last())
        }
    }
}

/// The sells of every pair of `firsts` in turn, each with its slices and the
/// base currency of its book; or the first error.
pub open spec fn sales_by_pair(trades: Seq<Trade>, firsts: Seq<Trade>) -> Result<
    Seq<(Trade, Seq<Cost>, Seq<char>)>,
    CostError,
>
    decreases firsts.len(),
{
    if firsts.len() == 0 {
        Ok(Seq::empty())
    } else {
        match sales_by_pair(trades, firsts.drop_last()) {
            Err(e) => Err(e),
            Ok(prev) => {
                let f = firsts.last();
                match replayed(Seq::empty(), f.exchanged_currency, f.paid_currency@, trades) {
                    Ok(st) => Ok(prev + st.1.map_values(|x: (Trade, Seq<Cost>)| (x.0, x.1, f.exchanged_currency@))),
                    Err(e) => Err(e),
                }
            },
        }
    }
}

proof fn lemma_sales_err(trades: Seq<Trade>, firsts: Seq<Trade>, n: int, e: CostError)
    requires
        0 <= n <= firsts.len(),
        sales_by_pair(trades, firsts.take(n)) == Err::<Seq<(Trade, Seq<Cost>, Seq<char>)>, CostError>(e),
    ensures
        sales_by_pair(trades, firsts) == Err::<Seq<(Trade, Seq<Cost>, Seq<char>)>, CostError>(e),
    decreases firsts.len() - n,
{
    if n < firsts.len() {
        assert(firsts.take(n + 1).drop_last() =~= firsts.take(n));
        lemma_sales_err(trades, firsts, n + 1, e);
    } else {
        assert(firsts.take(n) =~= firsts);
    }
}

impl TaxableTrade {
    pub fn new(
        date: Option<String>,
        currency: String,
        amount: Decimal,
        income: Money,
        costs: Vec<Money>,
        net_income: Option<Decimal>,
    ) -> (r: TaxableTrade)
        ensures
            r == (TaxableTrade { date, currency, amount, income, costs, net_income }),
    {
        TaxableTrade { date, currency, amount, income, costs, net_income }
    }

    /// The sum of the costs, when every cost is cash (and every running sum
    /// fits); `None` when the costs must be listed one by one.
    pub fn sum_cash_amount(&self) -> (r: Option<Decimal>)
        ensures
            r is Some <==> all_cash(self.costs@) && rounded_total(0, self.costs@) is Some,
            r matches Some(n) ==> rounded_total(0, self.costs@) == Some(n@),
    {
        cash_total(&Decimal::zero(), &self.costs)
    }

    /// Replays `trades` on a new book of `currency` kept in `base_currency`
    /// and reports every sell of that pair.
    pub fn taxable_trades(trades: &Vec<Trade>, currency: &String, base_currency: &String) -> (r: Result<
        Vec<TaxableTrade>,
        CostError,
    >)
        requires
            well_signed(trades@),
        ensures
            match replayed(Seq::empty(), *base_currency, currency@, trades@) {
                Ok(st) => r matches Ok(tts) && reports(tts@, st.1, base_currency@),
                Err(e) => r == Err::<Vec<TaxableTrade>, CostError>(e),
            },
    {
        let mut book = CostBook::new(currency.clone(), base_currency.clone());
        assert(book.costs@ =~= Seq::<Cost>::empty());
        book.replay(trades)
    }

    /// One row per currency, in the order the currencies first appear,
    /// summing amount, income and cost (income and cost as rust_decimal adds);
    /// the net is income plus cost. Every cost must be cash.
    pub fn try_sum_cash_amount_by_currency(taxable_trades: &Vec<TaxableTrade>) -> (r: Result<
        Vec<TaxableTrade>,
        SumError,
    >)
        ensures
            r == Err::<Vec<TaxableTrade>, SumError>(SumError::NotAllCash) <==> !all_costs_cash(
                taxable_trades@,
            ),
            r is Ok <==> all_costs_cash(taxable_trades@) && sums_by_currency_fit(taxable_trades@),
            r matches Ok(v) ==> v@.len() == currencies_of(taxable_trades@).len() && forall|j: int|
                0 <= j < v@.len() ==> summarizes(
                    #[trigger] v@[j],
                    taxable_trades@,
                    currencies_of(taxable_trades@)[j],
                ),
    {
        let tts = taxable_trades;
        let mut k: usize = 0;
        while k < tts.len()
            invariant
                tts == taxable_trades,
                k <= tts.len(),
                forall|m: int| 0 <= m < k ==> all_cash((#[trigger] tts@[m]).costs@),
            decreases tts.len() - k,
        {
            if !crate::money::all_cash_exec(&tts[k].costs) {
                assert(!all_cash(tts@[k as int].costs@));
                return Err(SumError::NotAllCash);
            }
            k = k + 1;
        }
        let mut curs: Vec<String> = Vec::new();
        let mut amounts: Vec<Decimal> = Vec::new();
        let mut incomes: Vec<Decimal> = Vec::new();
        let mut costs: Vec<Decimal> = Vec::new();
        let mut i: usize = 0;
        assert(tts@.take(0) =~= Seq::<TaxableTrade>::empty());
        while i < tts.len()
            invariant
                tts == taxable_trades,
                i <= tts.len(),
                all_costs_cash(tts@),
                curs@.len() == amounts@.len() && curs@.len() == incomes@.len() && curs@.len()
                    == costs@.len(),
                curs@.len() == currencies_of(tts@.take(i as int)).len(),
                forall|j: int| 0 <= j < curs@.len() ==> (#[trigger] curs@[j])@ == currencies_of(tts@.take(i as int))[j],
                forall|j: int|
                    0 <= j < curs@.len() ==> {
                        &&& (#[trigger] amounts@[j])@ == amount_for(tts@.take(i as int), curs@[j]@)
                        &&& total_for(tts@.take(i as int), curs@[j]@, 1) == Some(incomes@[j]@)
                        &&& total_for(tts@.take(i as int), curs@[j]@, 2) == Some(costs@[j]@)
                    },
                forall|m: int| 0 <= m < i ==> rounded_total(0, (#[trigger] tts@[m]).costs@) is Some,
                forall|a: int, b: int|
                    0 <= a <= i && 0 <= b < tts.len() ==> in_range(
                        amount_for(#[trigger] tts@.take(a), (#[trigger] tts@[b]).currency@),
                    ),
            decreases tts.len() - i,
        {
            let t = &tts[i];
            let ghost pre = tts@.take(i as int);
            let ghost post = tts@.take(i + 1);
            assert(post.drop_last() =~= pre);
            assert(post.last() == tts@[i as int]);
            proof {
                lemma_currencies(pre);
            }
            let cost = match t.sum_cash_amount() {
                Some(c) => c,
                None => {
                    assert(rounded_total(0, tts@[i as int].costs@) is None);
                    return Err(SumError::Overflow);
                },
            };
            let mut j: usize = 0;
            while j < curs.len() && curs[j] != t.currency
                invariant
                    j <= curs@.len(),
                    forall|m: int| 0 <= m < j ==> (#[trigger] curs@[m])@ != t.currency@,
                decreases curs@.len() - j,
            {
                j = j + 1;
            }
            let ghost old_amounts = amounts@;
            let ghost old_incomes = incomes@;
            let ghost old_costs = costs@;
            let ghost old_curs = curs@;
            assert forall|m: int| 0 <= m < old_curs.len() implies {
                &&& (#[trigger] old_amounts[m])@ == amount_for(pre, old_curs[m]@)
                &&& total_for(pre, old_curs[m]@, 1) == Some(old_incomes[m]@)
                &&& total_for(pre, old_curs[m]@, 2) == Some(old_costs[m]@)
            } by {
                assert(amounts@[m]@ == amount_for(pre, curs@[m]@));
            }
            let found = j < curs.len();
            if !found {
                assert(!currencies_of(pre).contains(t.currency@)) by {
                    if currencies_of(pre).contains(t.currency@) {
                        let w = choose|w: int| 0 <= w < currencies_of(pre).len() && currencies_of(pre)[w] == t.currency@;
                        assert(curs@[w]@ == t.currency@);
                    }
                }
                proof {
                    assert forall|m: int| 0 <= m < pre.len() implies (#[trigger] pre[m]).currency@ != t.currency@ by {
                        if pre[m].currency@ == t.currency@ {
                            assert(currencies_of(pre).contains(t.currency@));
                        }
                    }
                    lemma_total_absent(pre, t.currency@, 1);
                    lemma_total_absent(pre, t.currency@, 2);
                }
                curs.push(t.currency.clone());
                amounts.push(Decimal::zero());
                incomes.push(Decimal::zero());
                costs.push(Decimal::zero());
            } else {
                assert(forall|m: int| j < m < curs@.len() ==> curs@[m]@ != t.currency@) by {
                    assert forall|m: int| j < m < curs@.len() implies curs@[m]@ != t.currency@ by {
                        assert(currencies_of(pre)[m] != currencies_of(pre)[j as int]);
                    }
                }
                assert(currencies_of(pre).contains(t.currency@));
            }
            assert(amount_for(post, t.currency@) == amount_for(pre, t.currency@) + t.amount@);
            assert(total_for(post, t.currency@, 1) == match total_for(pre, t.currency@, 1) {
                Some(p) => rounded_sum(p, field_of(tts@[i as int], 1)),
                None => None,
            });
            assert(total_for(post, t.currency@, 2) == match total_for(pre, t.currency@, 2) {
                Some(p) => rounded_sum(p, field_of(tts@[i as int], 2)),
                None => None,
            });
            let a = match amounts[j].checked_add(&t.amount) {
                Some(x) => x,
                None => {
                    assert(!in_range(amount_for(post, tts@[i as int].currency@)));
                    return Err(SumError::Overflow);
                },
            };
            let n = match incomes[j].rounded_add(&t.income.amount()) {
                Some(x) => x,
                None => {
                    proof {
                        lemma_total_for_none(tts@, t.currency@, 1, i + 1);
                    }
                    assert(!sums_by_currency_fit(tts@)) by {
                        assert(total_for(tts@, tts@[i as int].currency@, 1) is None);
                    }
                    return Err(SumError::Overflow);
                },
            };
            let c = match costs[j].rounded_add(&cost) {
                Some(x) => x,
                None => {
                    proof {
                        lemma_total_for_none(tts@, t.currency@, 2, i + 1);
                    }
                    assert(!sums_by_currency_fit(tts@)) by {
                        assert(total_for(tts@, tts@[i as int].currency@, 2) is None);
                    }
                    return Err(SumError::Overflow);
                },
            };
            amounts.set(j, a);
            incomes.set(j, n);
            costs.set(j, c);
            proof {
                assert forall|m: int| 0 <= m < curs@.len() implies {
                    &&& (#[trigger] amounts@[m])@ == amount_for(post, curs@[m]@)
                    &&& total_for(post, curs@[m]@, 1) == Some(incomes@[m]@)
                    &&& total_for(post, curs@[m]@, 2) == Some(costs@[m]@)
                } by {
                    if m != j {
                        assert(curs@[m]@ != tts@[i as int].currency@);
                        assert(curs@[m] == old_curs[m]);
                        assert(old_amounts[m]@ == amount_for(pre, old_curs[m]@));
                        assert(amount_for(post, curs@[m]@) == amount_for(pre, curs@[m]@));
                        assert(total_for(post, curs@[m]@, 1) == total_for(pre, curs@[m]@, 1));
                        assert(total_for(post, curs@[m]@, 2) == total_for(pre, curs@[m]@, 2));
                    }
                }
            }
            i = i + 1;
            assert forall|j2: int| 0 <= j2 < curs@.len() implies (#[trigger] curs@[j2])@ == currencies_of(tts@.take(i as int))[j2] by {}
        }
        assert(tts@.take(tts.len() as int) =~= tts@);
        assert forall|m: int| 0 <= m < curs@.len() implies {
            &&& (#[trigger] amounts@[m])@ == amount_for(tts@, curs@[m]@)
            &&& total_for(tts@, curs@[m]@, 1) == Some(incomes@[m]@)
            &&& total_for(tts@, curs@[m]@, 2) == Some(costs@[m]@)
        } by {
            assert(amounts@[m]@ == amount_for(tts@.take(i as int), curs@[m]@));
        }
        proof {
            lemma_currencies(tts@);
        }
        let mut out: Vec<TaxableTrade> = Vec::new();
        let mut j: usize = 0;
        while j < curs.len()
            invariant
                tts == taxable_trades,
                j <= curs@.len(),
                out@.len() == j,
                all_costs_cash(tts@),
                curs@.len() == amounts@.len() && curs@.len() == incomes@.len() && curs@.len()
                    == costs@.len(),
                curs@.len() == currencies_of(tts@).len(),
                forall|m: int| 0 <= m < curs@.len() ==> (#[trigger] curs@[m])@ == currencies_of(tts@)[m],
                forall|m: int|
                    0 <= m < curs@.len() ==> {
                        &&& (#[trigger] amounts@[m])@ == amount_for(tts@, curs@[m]@)
                        &&& total_for(tts@, curs@[m]@, 1) == Some(incomes@[m]@)
                        &&& total_for(tts@, curs@[m]@, 2) == Some(costs@[m]@)
                    },
                forall|m: int| 0 <= m < tts@.len() ==> rounded_total(0, (#[trigger] tts@[m]).costs@) is Some,
                forall|a: int, b: int|
                    0 <= a <= tts@.len() && 0 <= b < tts@.len() ==> in_range(
                        amount_for(#[trigger] tts@.take(a), (#[trigger] tts@[b]).currency@),
                    ),
                forall|m: int| 0 <= m < j ==> rounded_sum(incomes@[m]@, (#[trigger] costs@[m])@) is Some,
                forall|c: Seq<char>| #[trigger] currencies_of(tts@).contains(c) <==> exists|k: int| 0 <= k < tts@.len() && tts@[k].currency@ == c,
                forall|m: int| 0 <= m < j ==> summarizes(#[trigger] out@[m], tts@, currencies_of(tts@)[m]),
            decreases curs@.len() - j,
        {
            let net = match incomes[j].rounded_add(&costs[j]) {
                Some(x) => x,
                None => {
                    assert(currencies_of(tts@).contains(curs@[j as int]@));
                    let ghost k = choose|k: int| 0 <= k < tts@.len() && tts@[k].currency@ == curs@[j as int]@;
                    assert(amounts@[j as int]@ == amount_for(tts@, curs@[j as int]@));
                    assert(!sums_by_currency_fit(tts@)) by {
                        assert(total_for(tts@, tts@[k].currency@, 1) == Some(incomes@[j as int]@));
                        assert(total_for(tts@, tts@[k].currency@, 2) == Some(costs@[j as int]@));
                    }
                    return Err(SumError::Overflow);
                },
            };
            let row = TaxableTrade::new(
                None,
                curs[j].clone(),
                amounts[j],
                Money::new_cash(String::from_str("UNKNOWN"), incomes[j]),
                vec![Money::new_cash(String::from_str("UNKNOWN"), costs[j])],
                Some(net),
            );
            out.push(row);
            proof {
                reveal_strlit("UNKNOWN");
            }
            j = j + 1;
        }
        assert(sums_by_currency_fit(tts@)) by {
            assert forall|k: int| 0 <= k < tts@.len() implies {
                &&& total_for(tts@, (#[trigger] tts@[k]).currency@, 1) is Some
                &&& total_for(tts@, tts@[k].currency@, 2) is Some
                &&& rounded_sum(
                    total_for(tts@, tts@[k].currency@, 1)->Some_0,
                    total_for(tts@, tts@[k].currency@, 2)->Some_0,
                ) is Some
            } by {
                assert(currencies_of(tts@).contains(tts@[k].currency@));
                let m = choose|m: int| 0 <= m < currencies_of(tts@).len() && currencies_of(tts@)[m] == tts@[k].currency@;
                assert(curs@[m]@ == tts@[k].currency@);
                assert(amounts@[m]@ == amount_for(tts@, curs@[m]@));
                assert(rounded_sum(incomes@[m]@, costs@[m]@) is Some);
            }
        }
        Ok(out)
    }

    /// Keeps one book for each (asset, base currency) pair of `trades`, in
    /// the order the pairs first appear, and reports the sells of every book
    /// in turn. Units of different assets never meet.
    pub fn taxable_trades_all_currencies(trades: &Vec<Trade>) -> (r: Result<Vec<TaxableTrade>, CostError>)
        requires
            well_signed(trades@),
        ensures
            match sales_by_pair(trades@, pair_firsts(trades@)) {
                Ok(sales) => r matches Ok(tts) && tts@.len() == sales.len() && forall|k: int|
                    0 <= k < sales.len() ==> describes_sale(
                        #[trigger] tts@[k],
                        sales[k].0,
                        sales[k].2,
                        sales[k].1,
                    ),
                Err(e) => r == Err::<Vec<TaxableTrade>, CostError>(e),
            },
    {
        let mut firsts: Vec<usize> = Vec::new();
        let mut i: usize = 0;
        assert(trades@.take(0) =~= Seq::<Trade>::empty());
        while i < trades.len()
            invariant
                i <= trades.len(),
                firsts@.len() == pair_firsts(trades@.take(i as int)).len(),
                forall|j: int| 0 <= j < firsts@.len() ==> #[trigger] firsts@[j] < trades.len()
                    && trades@[firsts@[j] as int] == pair_firsts(trades@.take(i as int))[j],
            decreases trades.len() - i,
        {
            let ghost pre = trades@.take(i as int);
            assert(trades@.take(i + 1).drop_last() =~= pre);
            assert(trades@.take(i + 1).last() == trades@[i as int]);
            let mut j: usize = 0;
            while j < firsts.len() && !(trades[firsts[j]].paid_currency == trades[i].paid_currency
                && trades[firsts[j]].exchanged_currency == trades[i].exchanged_currency)
                invariant
                    j <= firsts@.len(),
                    i < trades.len(),
                    forall|m: int| 0 <= m < firsts@.len() ==> #[trigger] firsts@[m] < trades.len(),
                    forall|m: int| 0 <= m < j ==> !same_pair(trades@[#[trigger] firsts@[m] as int], trades@[i as int]),
                decreases firsts@.len() - j,
            {
                j = j + 1;
            }
            if j < firsts.len() {
                assert(same_pair(pair_firsts(pre)[j as int], trades@[i as int]));
            } else {
                assert(!exists|k: int| 0 <= k < pair_firsts(pre).len() && same_pair(pair_firsts(pre)[k], trades@[i as int])) by {
                    if exists|k: int| 0 <= k < pair_firsts(pre).len() && same_pair(pair_firsts(pre)[k], trades@[i as int]) {
                        let k = choose|k: int| 0 <= k < pair_firsts(pre).len() && same_pair(pair_firsts(pre)[k], trades@[i as int]);
                        assert(!same_pair(trades@[firsts@[k] as int], trades@[i as int]));
                    }
                }
                firsts.push(i);
            }
            i = i + 1;
        }
        assert(trades@.take(trades.len() as int) =~= trades@);
        let ghost reps = pair_firsts(trades@);
        let mut out: Vec<TaxableTrade> = Vec::new();
        let ghost mut sales: Seq<(Trade, Seq<Cost>, Seq<char>)> = Seq::empty();
        let mut j: usize = 0;
        while j < firsts.len()
            invariant
                j <= firsts@.len(),
                well_signed(trades@),
                firsts@.len() == reps.len(),
                reps == pair_firsts(trades@),
                forall|m: int| 0 <= m < firsts@.len() ==> #[trigger] firsts@[m] < trades.len()
                    && trades@[firsts@[m] as int] == reps[m],
                sales_by_pair(trades@, reps.take(j as int)) == Ok::<Seq<(Trade, Seq<Cost>, Seq<char>)>, CostError>(sales),
                out@.len() == sales.len(),
                forall|k: int|
                    0 <= k < sales.len() ==> describes_sale(#[trigger] out@[k], sales[k].0, sales[k].2, sales[k].1),
            decreases firsts@.len() - j,
        {
            let f = &trades[firsts[j]];
            let ghost rs = reps.take(j + 1);
            assert(rs.drop_last() =~= reps.take(j as int));
            assert(rs.last() == *f);
            match TaxableTrade::taxable_trades(trades, &f.paid_currency, &f.exchanged_currency) {
                Ok(mut tts) => {
                    let ghost st = replayed(Seq::empty(), f.exchanged_currency, f.paid_currency@, trades@)->Ok_0;
                    let ghost added = st.1.map_values(|x: (Trade, Seq<Cost>)| (x.0, x.1, f.exchanged_currency@));
                    let ghost out_before = out@;
                    let ghost tts_view = tts@;
                    out.append(&mut tts);
                    proof {
                        let news = sales + added;
                        assert forall|k: int| 0 <= k < news.len() implies describes_sale(
                            #[trigger] out@[k],
                            news[k].0,
                            news[k].2,
                            news[k].1,
                        ) by {
                            if k < sales.len() {
                                assert(out@[k] == out_before[k]);
                            } else {
                                assert(out@[k] == tts_view[k - sales.len()]);
                                assert(news[k] == added[k - sales.len()]);
                            }
                        }
                        sales = news;
                    }
                },
                Err(e) => {
                    proof {
                        lemma_sales_err(trades@, reps, j as int + 1, e);
                    }
                    return Err(e);
                },
            }
            j = j + 1;
        }
        assert(reps.take(firsts@.len() as int) =~= reps);
        Ok(out)
    }

    /// Whether this trade belongs to `year`: its date names it, or it has no
    /// date.
    pub fn traded_in(&self, year: &String) -> (r: bool)
        ensures
            r == match self.date {
                Some(d) => has_text(d@, year@),
                None => true,
            },
    {
        match &self.date {
            Some(d) => text_contains(d.as_str(), year.as_str()),
            None => true,
        }
    }

    /// Reports the sell `trade` with `income` received, matched against
    /// `slices`.
    pub fn from_sale(trade: &Trade, income: Money, slices: &Vec<Cost>) -> (r: TaxableTrade)
        ensures
            r.date == Some(trade.date),
            r.currency == trade.paid_currency,
            r.amount == trade.paid_amount,
            r.income == income,
            r.costs@ == exchanged_of(slices@),
            net_of(income, r.costs@, r.net_income),
    {
        let mut costs: Vec<Money> = Vec::new();
        let mut i: usize = 0;
        while i < slices.len()
            invariant
                i <= slices.len(),
                costs@ == exchanged_of(slices@.take(i as int)),
            decreases slices.len() - i,
        {
            costs.push(slices[i].exchanged.duplicate());
            i = i + 1;
            assert(costs@ =~= exchanged_of(slices@.take(i as int)));
        }
        assert(slices@.take(slices.len() as int) =~= slices@);
        let net_income = income.to_net_income(&costs);
        TaxableTrade::new(Some(trade.date.clone()), trade.paid_currency.clone(), trade.paid_amount, income, costs, net_income)
    }
}

} // verus!
