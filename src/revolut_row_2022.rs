//! Rows of the 2022 account statement, and how pairs of exchange rows and
//! single card-payment rows become trades of one asset.
use vstd::prelude::*;

use crate::decimal::{in_range, Decimal};
use crate::trade::{blank_trade, Direction, Trade, TradeView};

verus! {

#[derive(Clone, Copy, Debug, PartialEq, Eq, Structural)]
pub enum Type {
    Exchange,
    Transfer,
    Cashback,
    Topup,
    CardPayment,
}

#[derive(Clone, Copy, Debug, PartialEq, Eq, Structural)]
pub enum State {
    Completed,
    Declined,
}

/// One row of the statement. An exchange shows as two rows: one in the asset
/// given, one in the asset received.
#[derive(Debug)]
pub struct RevolutRow2022 {
    pub kind: Type,
    pub started_date: String,
    pub completed_date: Option<String>,
    pub description: String,
    pub amount: Decimal,
    pub fee: Decimal,
    pub currency: String,
    pub original_amount: Decimal,
    pub original_currency: String,
    pub settled_amount: Option<Decimal>,
    pub settled_currency: Option<String>,
    pub state: State,
    pub balance: Option<Decimal>,
}

/// `t` occurs in `s`.
pub open spec fn has_text(s: Seq<char>, t: Seq<char>) -> bool {
    exists|i: int| 0 <= i && i + t.len() <= s.len() && #[trigger] s.subrange(i, i + t.len()) == t
}

/// Whether `t` occurs in `s`.
pub fn text_contains(s: &str, t: &str) -> (r: bool)
    ensures
        r == has_text(s@, t@),
{
    let n = s.unicode_len();
    let m = t.unicode_len();
    if m > n {
        return false;
    }
    let mut i: usize = 0;
    while i <= n - m
        invariant
            n == s@.len(),
            m == t@.len(),
            m <= n,
            i <= n - m + 1,
            forall|k: int| 0 <= k < i ==> #[trigger] s@.subrange(k, k + m) != t@,
        decreases n - m + 1 - i,
    {
        let mut j: usize = 0;
        while j < m && s.get_char(i + j) == t.get_char(j)
            invariant
                n == s@.len(),
                m == t@.len(),
                i + m <= n,
                j <= m,
                forall|q: int| 0 <= q < j ==> s@[i + q] == t@[q],
            decreases m - j,
        {
            j = j + 1;
        }
        if j == m {
            assert(s@.subrange(i as int, i + m) =~= t@);
            return true;
        }
        assert(s@.subrange(i as int, i + m)[j as int] != t@[j as int]);
        i = i + 1;
    }
    false
}

/// `t` with the given direction, units, asset and date.
pub open spec fn with_paid(t: TradeView, d: Direction, amount: int, currency: Seq<char>, date: Seq<char>) -> TradeView {
    (d, currency, amount, t.3, t.4, date, t.6)
}

/// `t` with the given direction and what was exchanged.
pub open spec fn with_exchanged(t: TradeView, d: Direction, amount: int, currency: Seq<char>) -> TradeView {
    (d, t.1, t.2, currency, amount, t.5, t.6)
}

impl RevolutRow2022 {
    /// `t` as this exchange row completes it, with `total` its amount plus
    /// fee: the row in the asset itself gives the units bought (a
    /// non-negative amount) or sold; the row in another asset that names the
    /// tracked one gives what was received ("Exchanged from") or given
    /// ("Exchanged to") for them; a vault row marks a vault trade.
    pub open spec fn exchanged(&self, t: TradeView, currency: Seq<char>, total: int) -> TradeView {
        let own = self.currency@ == currency;
        let desc = self.description@;
        let t1 = if own && self.amount@ >= 0 {
            with_paid(t, Direction::Buy, total, currency, self.started_date@)
        } else {
            t
        };
        let t2 = if own && self.amount@ < 0 {
            with_paid(t1, Direction::Sell, total, currency, self.started_date@)
        } else {
            t1
        };
        let t3 = if has_text(desc, "Exchanged from"@) && has_text(desc, currency) {
            with_exchanged(t2, Direction::Sell, total, self.currency@)
        } else {
            t2
        };
        let t4 = if has_text(desc, "Exchanged to"@) && has_text(desc, currency) {
            with_exchanged(t3, Direction::Buy, total, self.currency@)
        } else {
            t3
        };
        if has_text(desc, "Vault"@) {
            (t4.0, t4.1, t4.2, t4.3, t4.4, t4.5, true)
        } else {
            t4
        }
    }

    /// The trade of this card-payment row, with `total` its amount plus fee:
    /// a sell of those units for the amount charged.
    pub open spec fn card_paid(&self, currency: Seq<char>, total: int) -> TradeView {
        (
            Direction::Sell,
            currency,
            total,
            self.original_currency@,
            -self.original_amount@,
            self.started_date@,
            false,
        )
    }

    /// What `to_trade` makes of `t`, or `None` when a sum does not fit.
    pub open spec fn completed(&self, t: TradeView, currency: Seq<char>) -> Option<TradeView> {
        let total = self.amount@ + self.fee@;
        match self.kind {
            Type::Exchange => if in_range(total) {
                Some(self.exchanged(t, currency, total))
            } else {
                None
            },
            Type::CardPayment => if in_range(total) {
                Some(self.card_paid(currency, total))
            } else {
                None
            },
            _ => Some(t),
        }
    }

    /// Whether this is a completed row of an exchange that involves
    /// `currency`, or of a card payment in it.
    pub fn is_exchange_in(&self, currency: &String) -> (r: bool)
        ensures
            r == ((self.kind == Type::Exchange || (self.kind == Type::CardPayment && self.currency@
                == currency@)) && self.state == State::Completed && (self.currency@ == currency@
                || has_text(self.description@, currency@))),
    {
        (self.kind == Type::Exchange || (self.kind == Type::CardPayment && self.currency == *currency))
            && self.state == State::Completed && (self.currency == *currency || text_contains(
            self.description.as_str(),
            currency.as_str(),
        ))
    }

    pub fn to_trade(&self, trade: Option<Trade>, currency: &String) -> (r: Option<Trade>)
        ensures
            opt_tview(r) == self.completed(
                match trade {
                    Some(t) => t@,
                    None => blank_trade(),
                },
                currency@,
            ),
    {
        let mut trade = match trade {
            Some(t) => t,
            None => Trade::new(),
        };
        match self.kind {
            Type::Exchange => match self.amount.checked_add(&self.fee) {
                Some(total) => {
                    self.exchange_to_trade(&mut trade, currency, total);
                    Some(trade)
                },
                None => None,
            },
            Type::CardPayment => match self.amount.checked_add(&self.fee) {
                Some(total) => {
                    self.card_payment_to_trade(&mut trade, currency, total);
                    Some(trade)
                },
                None => None,
            },
            _ => Some(trade),
        }
    }

    fn exchange_to_trade(&self, trade: &mut Trade, currency: &String, total: Decimal)
        ensures
            final(trade)@ == self.exchanged(old(trade)@, currency@, total@),
    {
        let own = self.currency == *currency;
        let desc = self.description.as_str();
        if own && !self.amount.is_negative() {
            trade.direction = Direction::Buy;
            trade.paid_amount = total;
            trade.paid_currency = currency.clone();
            trade.date = self.started_date.clone();
        }
        if own && self.amount.is_negative() {
            trade.direction = Direction::Sell;
            trade.paid_amount = total;
            trade.paid_currency = currency.clone();
            trade.date = self.started_date.clone();
        }
        let names_currency = text_contains(desc, currency.as_str());
        if text_contains(desc, "Exchanged from") && names_currency {
            trade.direction = Direction::Sell;
            trade.exchanged_amount = total;
            trade.exchanged_currency = self.currency.clone();
        }
        if text_contains(desc, "Exchanged to") && names_currency {
            trade.direction = Direction::Buy;
            trade.exchanged_amount = total;
            trade.exchanged_currency = self.currency.clone();
        }
        if text_contains(desc, "Vault") {
            trade.is_vault = true;
        }
    }

    fn card_payment_to_trade(&self, trade: &mut Trade, currency: &String, total: Decimal)
        ensures
            final(trade)@ == self.card_paid(currency@, total@),
    {
        trade.direction = Direction::Sell;
        trade.paid_amount = total;
        trade.paid_currency = currency.clone();
        trade.exchanged_amount = self.original_amount.neg();
        trade.exchanged_currency = self.original_currency.clone();
        trade.date = self.started_date.clone();
        trade.is_vault = false;
    }
}

pub open spec fn opt_tview(t: Option<Trade>) -> Option<TradeView> {
    match t {
        Some(x) => Some(x@),
        None => None,
    }
}

pub open spec fn trades_view(v: Seq<Trade>) -> Seq<TradeView> {
    v.map_values(|t: Trade| t@)
}

/// Pairs the rows from the last to the first, as `rows_to_trades` does: the
/// trades made from `rows[k..]`, and the exchange row still waiting for its
/// other half; `None` when a sum does not fit.
pub open spec fn paired(rows: Seq<RevolutRow2022>, currency: Seq<char>, k: int) -> Option<
    (Seq<TradeView>, Option<int>),
>
    decreases rows.len() - k,
{
    if k < 0 || k >= rows.len() {
        Some((Seq::empty(), None))
    } else {
        match paired(rows, currency, k + 1) {
            None => None,
            Some(st) => {
                let row = rows[k];
                match row.kind {
                    Type::Exchange => match st.1 {
                        None => Some((st.0, Some(k))),
                        Some(p) => match rows[p].completed(blank_trade(), currency) {
                            Some(t) => match row.completed(t, currency) {
                                Some(u) => Some((st.0.push(u), None)),
                                None => None,
                            },
                            None => None,
                        },
                    },
                    Type::CardPayment => match row.completed(blank_trade(), currency) {
                        Some(u) => Some((st.0.push(u), st.1)),
                        None => None,
                    },
                    _ => Some(st),
                }
            },
        }
    }
}

proof fn lemma_paired_none(rows: Seq<RevolutRow2022>, currency: Seq<char>, k: int)
    requires
        0 <= k <= rows.len(),
        paired(rows, currency, k) is None,
    ensures
        paired(rows, currency, 0) is None,
    decreases k,
{
    if k > 0 {
        lemma_paired_none(rows, currency, k - 1);
    }
}

impl RevolutRow2022 {
    /// The trades of `currency` in `rows`: two exchange rows in a row make
    /// one trade, a card payment makes one alone; other rows are skipped.
    /// The rows are taken from the last to the first.
    pub fn rows_to_trades(rows: &Vec<RevolutRow2022>, currency: &String) -> (r: Option<Vec<Trade>>)
        ensures
            match paired(rows@, currency@, 0) {
                Some(st) => r matches Some(v) && trades_view(v@) == st.0,
                None => r is None,
            },
    {
        let mut out: Vec<Trade> = Vec::new();
        let mut prev: Option<usize> = None;
        let mut i: usize = rows.len();
        assert(trades_view(out@) =~= Seq::<TradeView>::empty());
        while i > 0
            invariant
                i <= rows@.len(),
                prev matches Some(p) ==> i <= p < rows@.len(),
                paired(rows@, currency@, i as int) == Some(
                    (
                        trades_view(out@),
                        match prev {
                            Some(p) => Some(p as int),
                            None => None::<int>,
                        },
                    ),
                ),
            decreases i,
        {
            let k = i - 1;
            let row = &rows[k];
            match row.kind {
                Type::Exchange => match prev {
                    None => {
                        prev = Some(k);
                    },
                    Some(p) => {
                        let first = match rows[p].to_trade(None, currency) {
                            Some(t) => t,
                            None => {
                                proof {
                                    lemma_paired_none(rows@, currency@, k as int);
                                }
                                return None;
                            },
                        };
                        match row.to_trade(Some(first), currency) {
                            Some(t) => {
                                out.push(t);
                                assert(trades_view(out@) =~= trades_view(out@.drop_last()).push(t@));
                            },
                            None => {
                                proof {
                                    lemma_paired_none(rows@, currency@, k as int);
                                }
                                return None;
                            },
                        }
                        prev = None;
                    },
                },
                Type::CardPayment => match row.to_trade(None, currency) {
                    Some(t) => {
                        out.push(t);
                        assert(trades_view(out@) =~= trades_view(out@.drop_last()).push(t@));
                    },
                    None => {
                        proof {
                            lemma_paired_none(rows@, currency@, k as int);
                        }
                        return None;
                    },
                },
                _ => {},
            }
            i = k;
        }
        Some(out)
    }
}

} // verus!
