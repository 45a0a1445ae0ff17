//! Rows of the 2023 account statement, where each row is a whole trade.
use vstd::multiset::Multiset;
use vstd::prelude::*;

use crate::decimal::Decimal;
use crate::revolut_row_2022::trades_view;
use crate::trade::{Direction, Trade, TradeView};

verus! {

#[derive(Clone, Copy, Debug, PartialEq, Eq, Structural)]
pub enum Type {
    Exchange,
    Transfer,
    Cashback,
    Topup,
    CardPayment,
}

#[derive(Clone, Copy, Debug, PartialEq, Eq, Structural)]
pub enum State {
    Completed,
    Declined,
}

/// The account a row belongs to: savings rows are vault rows.
#[derive(Clone, Copy, Debug, PartialEq, Eq, Structural)]
pub enum Product {
    Current,
    Savings,
}

#[derive(Debug)]
pub struct RevolutRow2023 {
    pub kind: Type,
    pub product: Product,
    pub started_date: String,
    pub completed_date: Option<String>,
    pub description: String,
    pub amount: Decimal,
    pub currency: String,
    pub fiat_amount: Decimal,
    pub fiat_amount_inc_fees: Decimal,
    pub fee: Decimal,
    pub base_currency: String,
    pub state: State,
    pub balance: Option<Decimal>,
}

impl RevolutRow2023 {
    /// The trade of this row: units bought (a non-negative amount) or sold,
    /// for the base-currency amount with fees, paid out or received.
    pub open spec fn trade_of(&self) -> Option<TradeView> {
        Some(
            (
                if self.amount@ >= 0 {
                    Direction::Buy
                } else {
                    Direction::Sell
                },
                self.currency@,
                self.amount@,
                self.base_currency@,
                -self.fiat_amount_inc_fees@,
                self.started_date@,
                self.product == Product::Savings,
            ),
        )
    }

    pub fn to_trade(&self) -> (r: Option<Trade>)
        ensures
            match self.trade_of() {
                Some(t) => r matches Some(x) && x@ == t,
                None => r is None,
            },
    {
        let mut trade = Trade::new();
        trade.direction = if !self.amount.is_negative() {
            Direction::Buy
        } else {
            Direction::Sell
        };
        trade.date = self.started_date.clone();
        trade.paid_amount = self.amount;
        trade.paid_currency = self.currency.clone();
        trade.exchanged_amount = self.fiat_amount_inc_fees.neg();
        trade.exchanged_currency = self.base_currency.clone();
        if self.product == Product::Savings {
            trade.is_vault = true;
        }
        Some(trade)
    }
}

/// The trades of the exchange and card-payment rows of `rows`, in order.
pub open spec fn row_trades(rows: Seq<RevolutRow2023>) -> Option<Seq<TradeView>>
    decreases rows.len(),
{
    if rows.len() == 0 {
        Some(Seq::empty())
    } else {
        match row_trades(rows.drop_last()) {
            None => None,
            Some(p) => {
                let row = rows.last();
                if row.kind == Type::Exchange || row.kind == Type::CardPayment {
                    match row.trade_of() {
                        Some(t) => Some(p.push(t)),
                        None => None,
                    }
                } else {
                    Some(p)
                }
            },
        }
    }
}

impl RevolutRow2023 {
    pub fn rows_to_trades(rows: &Vec<RevolutRow2023>) -> (r: Option<Vec<Trade>>)
        ensures
            match row_trades(rows@) {
                Some(ts) => r matches Some(v) && trades_view(v@) == ts,
                None => r is None,
            },
    {
        let mut out: Vec<Trade> = Vec::new();
        let mut i: usize = 0;
        assert(rows@.take(0) =~= Seq::<RevolutRow2023>::empty());
        assert(trades_view(out@) =~= Seq::<TradeView>::empty());
        while i < rows.len()
            invariant
                i <= rows@.len(),
                row_trades(rows@.take(i as int)) == Some(trades_view(out@)),
            decreases rows@.len() - i,
        {
            let row = &rows[i];
            assert(rows@.take(i + 1).drop_last() =~= rows@.take(i as int));
            if row.kind == Type::Exchange || row.kind == Type::CardPayment {
                match row.to_trade() {
                    Some(t) => {
                        out.push(t);
                        assert(trades_view(out@) =~= trades_view(out@.drop_last()).push(t@));
                    },
                    None => {
                        proof {
                            lemma_row_trades_none(rows@, i as int + 1);
                        }
                        return None;
                    },
                }
            }
            i = i + 1;
        }
        assert(rows@.take(rows@.len() as int) =~= rows@);
        Some(out)
    }
}

proof fn lemma_row_trades_none(rows: Seq<RevolutRow2023>, n: int)
    requires
        0 <= n <= rows.len(),
        row_trades(rows.take(n)) is None,
    ensures
        row_trades(rows) is None,
    decreases rows.len() - n,
{
    if n < rows.len() {
        assert(rows.take(n + 1).drop_last() =~= rows.take(n));
        lemma_row_trades_none(rows, n + 1);
    } else {
        assert(rows.take(n) =~= rows);
    }
}

/// `a` comes no later than `b` in the order of `str`: character by
/// character, a prefix first.
pub open spec fn text_le(a: Seq<char>, b: Seq<char>) -> bool
    decreases a.len(),
{
    if a.len() == 0 {
        true
    } else if b.len() == 0 {
        false
    } else if (a[0] as u32) != (b[0] as u32) {
        (a[0] as u32) < (b[0] as u32)
    } else {
        text_le(a.drop_first(), b.drop_first())
    }
}

/// The order of completion dates: a row not completed first.
pub open spec fn date_le(a: Option<String>, b: Option<String>) -> bool {
    match (a, b) {
        (None, _) => true,
        (Some(_), None) => false,
        (Some(x), Some(y)) => text_le(x@, y@),
    }
}

pub open spec fn sorted_by_date(s: Seq<RevolutRow2023>) -> bool {
    forall|i: int, j: int|
        0 <= i < j < s.len() ==> date_le((#[trigger] s[i]).completed_date, (#[trigger] s[j]).completed_date)
}

proof fn lemma_text_total(a: Seq<char>, b: Seq<char>)
    ensures
        text_le(a, b) || text_le(b, a),
    decreases a.len(),
{
    if a.len() > 0 && b.len() > 0 && (a[0] as u32) == (b[0] as u32) {
        lemma_text_total(a.drop_first(), b.drop_first());
    }
}

proof fn lemma_text_trans(a: Seq<char>, b: Seq<char>, c: Seq<char>)
    requires
        text_le(a, b),
        text_le(b, c),
    ensures
        text_le(a, c),
    decreases a.len(),
{
    if a.len() > 0 && b.len() > 0 && c.len() > 0 && (a[0] as u32) == (b[0] as u32) && (b[0] as u32)
        == (c[0] as u32) {
        lemma_text_trans(a.drop_first(), b.drop_first(), c.drop_first());
    }
}

/// Whether `a` comes no later than `b` in the order of `str`.
pub fn text_le_exec(a: &str, b: &str) -> (r: bool)
    ensures
        r == text_le(a@, b@),
{
    let n = a.unicode_len();
    let m = b.unicode_len();
    let mut i: usize = 0;
    assert(a@.subrange(0, n as int) =~= a@);
    assert(b@.subrange(0, m as int) =~= b@);
    while i < n && i < m && (a.get_char(i) as u32) == (b.get_char(i) as u32)
        invariant
            n == a@.len(),
            m == b@.len(),
            i <= n && i <= m,
            text_le(a@, b@) == text_le(a@.subrange(i as int, n as int), b@.subrange(i as int, m as int)),
        decreases n - i,
    {
        assert(a@.subrange(i as int, n as int).drop_first() =~= a@.subrange(i + 1, n as int));
        assert(b@.subrange(i as int, m as int).drop_first() =~= b@.subrange(i + 1, m as int));
        i = i + 1;
    }
    if i == n {
        true
    } else if i == m {
        false
    } else {
        (a.get_char(i) as u32) < (b.get_char(i) as u32)
    }
}

fn date_le_exec(a: &Option<String>, b: &Option<String>) -> (r: bool)
    ensures
        r == date_le(*a, *b),
{
    match (a, b) {
        (None, _) => true,
        (Some(_), None) => false,
        (Some(x), Some(y)) => text_le_exec(x.as_str(), y.as_str()),
    }
}

impl RevolutRow2023 {
    /// The same rows, ordered by completion date.
    pub fn sort_by_completion(rows: Vec<RevolutRow2023>) -> (r: Vec<RevolutRow2023>)
        ensures
            r@.to_multiset() == rows@.to_multiset(),
            sorted_by_date(r@),
    {
        broadcast use vstd::multiset::group_multiset_axioms, vstd::multiset::lemma_multiset_empty_len, vstd::seq_lib::to_multiset_len;

        let ghost all = rows@;
        let mut rest = rows;
        let mut out: Vec<RevolutRow2023> = Vec::new();
        assert(out@.to_multiset().len() == 0);
        assert(out@.to_multiset() =~= Multiset::<RevolutRow2023>::empty());
        assert(rest@.to_multiset().add(out@.to_multiset()) =~= all.to_multiset());
        while rest.len() > 0
            invariant
                rest@.to_multiset().add(out@.to_multiset()) == all.to_multiset(),
                sorted_by_date(out@),
            decreases rest@.len(),
        {
            let ghost before = rest@;
            let x = rest.pop().unwrap();
            proof {
                assert(before == rest@.push(x));
                vstd::seq_lib::to_multiset_build(rest@, x);
            }
            let mut p: usize = 0;
            while p < out.len() && date_le_exec(&out[p].completed_date, &x.completed_date)
                invariant
                    p <= out@.len(),
                    forall|k: int| 0 <= k < p ==> date_le((#[trigger] out@[k]).completed_date, x.completed_date),
                decreases out@.len() - p,
            {
                p = p + 1;
            }
            let ghost old_out = out@;
            proof {
                vstd::seq_lib::to_multiset_insert(old_out, p as int, x);
            }
            out.insert(p, x);
            proof {
                assert(out@ == old_out.insert(p as int, x));
                assert forall|i: int, j: int| 0 <= i < j < out@.len() implies date_le(
                    (#[trigger] out@[i]).completed_date,
                    (#[trigger] out@[j]).completed_date,
                ) by {
                    lemma_date_order(old_out, p as int, x, i, j);
                }
                assert(rest@.to_multiset().add(out@.to_multiset()) =~= all.to_multiset());
            }
        }
        assert(rest@.to_multiset().len() == 0);
        assert(rest@.to_multiset() =~= Multiset::<RevolutRow2023>::empty());
        assert(out@.to_multiset() =~= all.to_multiset());
        out
    }
}

proof fn lemma_date_total(a: Option<String>, b: Option<String>)
    ensures
        date_le(a, b) || date_le(b, a),
{
    if let (Some(x), Some(y)) = (a, b) {
        lemma_text_total(x@, y@);
    }
}

proof fn lemma_date_trans(a: Option<String>, b: Option<String>, c: Option<String>)
    requires
        date_le(a, b),
        date_le(b, c),
    ensures
        date_le(a, c),
{
    if let (Some(x), Some(y), Some(z)) = (a, b, c) {
        lemma_text_trans(x@, y@, z@);
    }
}

/// Inserting `x` at `p` keeps `s` sorted when everything before `p` comes
/// no later than `x` and `s[p]` (if any) comes after it.
proof fn lemma_date_order(s: Seq<RevolutRow2023>, p: int, x: RevolutRow2023, i: int, j: int)
    requires
        0 <= p <= s.len(),
        sorted_by_date(s),
        forall|k: int| 0 <= k < p ==> date_le((#[trigger] s[k]).completed_date, x.completed_date),
        p < s.len() ==> !date_le(s[p].completed_date, x.completed_date),
        0 <= i < j < s.len() + 1,
    ensures
        date_le(s.insert(p, x)[i].completed_date, s.insert(p, x)[j].completed_date),
{
    let t = s.insert(p, x);
    if p < s.len() {
        lemma_date_total(s[p].completed_date, x.completed_date);
    }
    if i < p && j == p {
    } else if i < p && j > p {
        assert(t[j] == s[j - 1]);
    } else if i == p && j > p {
        assert(t[j] == s[j - 1]);
        if j - 1 > p {
            assert(date_le(s[p].completed_date, s[j - 1].completed_date));
            lemma_date_trans(x.completed_date, s[p].completed_date, s[j - 1].completed_date);
        }
    } else if i > p {
        assert(t[i] == s[i - 1]);
        assert(t[j] == s[j - 1]);
    } else {
        assert(t[i] == s[i]);
        assert(t[j] == s[j]);
    }
}

} // verus!
