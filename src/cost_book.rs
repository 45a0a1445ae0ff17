//! The cost lots of one (asset, base currency) pair, and the priority-ordered
//! matching of a sell against them.
use vstd::prelude::*;

use crate::cost::{Cost, CostError};
use crate::decimal::{in_range, rounded_sum, Decimal};
use crate::money::{Cash, Money};
use crate::taxable_trade::{describes_sale, TaxableTrade};
use crate::trade::{Direction, Trade};

verus! {

broadcast use Decimal::lemma_from_units;

/// The lots one pass draws from: cash or coupon, in the vault or not.
#[derive(Clone, Copy, Debug, PartialEq, Eq, Structural)]
pub struct Category {
    pub cash: bool,
    pub vault: bool,
}

pub open spec fn in_category(c: Cost, cat: Category) -> bool {
    (c.exchanged is Cash) == cat.cash && c.is_vault == cat.vault
}

/// Lots `a` and `b` are of the same kind of money and the same vault flag.
pub open spec fn same_kind(a: Cost, b: Cost) -> bool {
    (a.exchanged is Cash) == (b.exchanged is Cash) && a.is_vault == b.is_vault
}

/// The units held by all lots.
pub open spec fn lots_total(s: Seq<Cost>) -> int
    decreases s.len(),
{
    if s.len() == 0 {
        0
    } else {
        lots_total(s.drop_last()) + s.last().paid_amount@
    }
}

/// The units held by the lots of one category.
pub open spec fn held_in(s: Seq<Cost>, cat: Category) -> int
    decreases s.len(),
{
    if s.len() == 0 {
        0
    } else {
        held_in(s.drop_last(), cat) + if in_category(s.last(), cat) {
            s.last().paid_amount@
        } else {
            0
        }
    }
}

/// No lot holds a negative quantity.
pub open spec fn all_held(s: Seq<Cost>) -> bool {
    forall|i: int| 0 <= i < s.len() ==> (#[trigger] s[i]).paid_amount@ >= 0
}

/// At most one cash lot for each vault flag: cash lots are always merged.
pub open spec fn one_cash_lot_each(s: Seq<Cost>) -> bool {
    forall|i: int, j: int|
        0 <= i < s.len() && 0 <= j < s.len() && (#[trigger] s[i]).exchanged is Cash && (
        #[trigger] s[j]).exchanged is Cash && s[i].is_vault == s[j].is_vault ==> i == j
}

/// The invariant of a book's lots.
pub open spec fn lots_wf(s: Seq<Cost>) -> bool {
    all_held(s) && one_cash_lot_each(s)
}

pub open spec fn none_in(s: Seq<Cost>, cat: Category) -> bool {
    forall|i: int| 0 <= i < s.len() ==> !in_category(#[trigger] s[i], cat)
}

/// What is redeemed from a lot holding `paid` when `rem` is still to be
/// redeemed: never more than the lot holds.
pub open spec fn step_delta(rem: int, paid: int) -> int {
    if rem >= -paid {
        rem
    } else {
        -paid
    }
}

/// Draws `rem` (negative) units from the lots of `cat` among `lots[0..i]`,
/// most recent first. Gives the lots afterwards, the slices taken in order, and
/// what is left to draw; `None` when a value does not fit.
pub open spec fn sweep(lots: Seq<Cost>, i: int, cat: Category, rem: int) -> Option<
    (Seq<Cost>, Seq<Cost>, int),
>
    decreases i,
{
    if i <= 0 {
        Some((lots, Seq::empty(), rem))
    } else {
        let k = i - 1;
        let lot = lots[k];
        if in_category(lot, cat) && rem != 0 && lot.paid_amount@ > 0 {
            let d = step_delta(rem, lot.paid_amount@);
            match lot.taken(d) {
                None => None,
                Some(None) => sweep(lots, k, cat, rem),
                Some(Some(p)) => match sweep(lots.update(k, p.0), k, cat, rem - d) {
                    Some(t) => Some((t.0, seq![p.1] + t.1, t.2)),
                    None => None,
                },
            }
        } else {
            sweep(lots, k, cat, rem)
        }
    }
}

/// The lots that still hold units, in their order.
pub open spec fn compact(s: Seq<Cost>) -> Seq<Cost>
    decreases s.len(),
{
    if s.len() == 0 {
        s
    } else if s.last().paid_amount@ != 0 {
        compact(s.drop_last()).push(s.last())
    } else {
        compact(s.drop_last())
    }
}

/// One pass over one category: a sweep of all lots, then the emptied lots
/// are dropped. Nothing happens once nothing is left to draw.
pub open spec fn pass(lots: Seq<Cost>, cat: Category, rem: int) -> Option<(Seq<Cost>, Seq<Cost>, int)> {
    if rem == 0 {
        Some((lots, Seq::empty(), rem))
    } else {
        match sweep(lots, lots.len() as int, cat, rem) {
            Some(t) => Some((compact(t.0), t.1, t.2)),
            None => None,
        }
    }
}

/// The passes over `cats`, in order.
pub open spec fn passes(lots: Seq<Cost>, cats: Seq<Category>, rem: int) -> Option<
    (Seq<Cost>, Seq<Cost>, int),
>
    decreases cats.len(),
{
    if cats.len() == 0 {
        Some((lots, Seq::empty(), rem))
    } else {
        match pass(lots, cats[0], rem) {
            Some(t) => match passes(t.0, cats.drop_first(), t.2) {
                Some(u) => Some((u.0, t.1 + u.1, u.2)),
                None => None,
            },
            None => None,
        }
    }
}

/// The order of the passes: lots of the income's own kind first, and the
/// vault only after every other lot.
pub open spec fn order(cash_income: bool) -> Seq<Category> {
    if cash_income {
        seq![
            Category { cash: true, vault: false },
            Category { cash: false, vault: false },
            Category { cash: true, vault: true },
            Category { cash: false, vault: true },
        ]
    } else {
        seq![
            Category { cash: false, vault: false },
            Category { cash: true, vault: false },
            Category { cash: false, vault: true },
            Category { cash: true, vault: true },
        ]
    }
}

/// Selling `amount` (negative) units against `lots`: the lots afterwards and
/// the slices taken, or why it failed.
pub open spec fn sold(lots: Seq<Cost>, cash_income: bool, amount: int) -> Result<
    (Seq<Cost>, Seq<Cost>),
    CostError,
> {
    if lots_total(lots) + amount < 0 {
        Err(CostError::NotEnoughCost)
    } else {
        match passes(lots, order(cash_income), amount) {
            Some(t) => Ok((t.0, t.1)),
            None => Err(CostError::Overflow),
        }
    }
}

pub open spec fn cash_lot_of(c: Cost, vault: bool) -> bool {
    c.exchanged is Cash && c.is_vault == vault
}

pub open spec fn is_first_cash(s: Seq<Cost>, vault: bool, i: int) -> bool {
    0 <= i < s.len() && cash_lot_of(s[i], vault) && forall|j: int|
        0 <= j < i ==> !cash_lot_of(#[trigger] s[j], vault)
}

/// The first cash lot with the given vault flag, if any.
pub open spec fn cash_slot(s: Seq<Cost>, vault: bool) -> Option<int> {
    if exists|i: int| is_first_cash(s, vault, i) {
        Some(choose|i: int| is_first_cash(s, vault, i))
    } else {
        None
    }
}

/// Booking a buy: a cash buy merges into the cash lot of its vault flag (or
/// opens it), a coupon buy always opens a lot of its own.
pub open spec fn bought(costs: Seq<Cost>, base: String, trade: Trade) -> Result<Seq<Cost>, CostError> {
    let m = trade.money_for(base@);
    match m {
        Money::Coupon(_) => Ok(
            costs.push(Cost { paid_amount: trade.paid_amount, exchanged: m, is_vault: trade.is_vault }),
        ),
        Money::Cash(c) => match cash_slot(costs, trade.is_vault) {
            Some(i) => if in_range(costs[i].paid_amount@ + trade.paid_amount@) && rounded_sum(
                costs[i].exchanged.value(),
                c.amount@,
            ) is Some {
                Ok(
                    costs.update(
                        i,
                        Cost {
                            paid_amount: Decimal::from_units(costs[i].paid_amount@ + trade.paid_amount@),
                            exchanged: costs[i].exchanged.with_amount(
                                rounded_sum(costs[i].exchanged.value(), c.amount@)->Some_0,
                            ),
                            is_vault: costs[i].is_vault,
                        },
                    ),
                )
            } else {
                Err(CostError::Overflow)
            },
            None => Ok(
                costs.push(
                    Cost {
                        paid_amount: trade.paid_amount,
                        exchanged: Money::Cash(Cash { currency: base, amount: c.amount }),
                        is_vault: trade.is_vault,
                    },
                ),
            ),
        },
    }
}

/// `r` with `pre` put in front of its slices.
pub open spec fn after(pre: Seq<Cost>, r: Option<(Seq<Cost>, Seq<Cost>, int)>) -> Option<
    (Seq<Cost>, Seq<Cost>, int),
> {
    match r {
        Some(t) => Some((t.0, pre + t.1, t.2)),
        None => None,
    }
}

// ---------------------------------------------------------------- lemmas

proof fn lemma_total_update(s: Seq<Cost>, k: int, x: Cost, cat: Category)
    requires
        0 <= k < s.len(),
    ensures
        lots_total(s.update(k, x)) == lots_total(s) - s[k].paid_amount@ + x.paid_amount@,
        held_in(s.update(k, x), cat) == held_in(s, cat) - (if in_category(s[k], cat) {
            s[k].paid_amount@
        } else {
            0
        }) + (if in_category(x, cat) {
            x.paid_amount@
        } else {
            0
        }),
    decreases s.len(),
{
    let u = s.update(k, x);
    if k == s.len() - 1 {
        assert(u.drop_last() =~= s.drop_last());
    } else {
        lemma_total_update(s.drop_last(), k, x, cat);
        assert(u.drop_last() =~= s.drop_last().update(k, x));
    }
}

proof fn lemma_held_zero(s: Seq<Cost>, cat: Category)
    requires
        forall|j: int| 0 <= j < s.len() && in_category(#[trigger] s[j], cat) ==> s[j].paid_amount@ == 0,
    ensures
        held_in(s, cat) == 0,
    decreases s.len(),
{
    if s.len() > 0 {
        assert forall|j: int|
            0 <= j < s.drop_last().len() && in_category(#[trigger] s.drop_last()[j], cat) implies s.drop_last()[j].paid_amount@
            == 0 by {
            assert(s.drop_last()[j] == s[j]);
        }
        lemma_held_zero(s.drop_last(), cat);
    }
}

proof fn lemma_taken(lot: Cost, d: int)
    requires
        lot.paid_amount@ > 0,
        -lot.paid_amount@ <= d < 0,
    ensures
        lot.taken(d) matches Some(x) ==> x matches Some(p) && p.0.paid_amount@ == lot.paid_amount@ + d
            && same_kind(p.0, lot) && same_kind(p.1, lot) && p.1.paid_amount@ == -d,
{
}

proof fn lemma_sweep(lots: Seq<Cost>, i: int, cat: Category, rem: int, other: Category)
    requires
        0 <= i <= lots.len(),
        all_held(lots),
        rem <= 0,
    ensures
        sweep(lots, i, cat, rem) matches Some(t) ==> {
            &&& t.0.len() == lots.len()
            &&& all_held(t.0)
            &&& lots_total(t.0) + t.2 == lots_total(lots) + rem
            &&& held_in(t.0, cat) + t.2 == held_in(lots, cat) + rem
            &&& (other != cat ==> held_in(t.0, other) == held_in(lots, other))
            &&& rem <= t.2 <= 0
            &&& (rem == 0 ==> t.0 == lots && t.1.len() == 0)
            &&& forall|j: int| 0 <= j < lots.len() ==> same_kind(#[trigger] t.0[j], lots[j])
            &&& forall|j: int|
                0 <= j < lots.len() && (!in_category(lots[j], cat) || j >= i) ==> #[trigger] t.0[j]
                    == lots[j]
            &&& (t.2 != 0 ==> forall|j: int|
                0 <= j < i && in_category(#[trigger] t.0[j], cat) ==> t.0[j].paid_amount@ == 0)
            &&& forall|j: int| 0 <= j < t.1.len() ==> in_category(#[trigger] t.1[j], cat)
        },
    decreases i,
{
    if i > 0 {
        let k = i - 1;
        let lot = lots[k];
        if in_category(lot, cat) && rem != 0 && lot.paid_amount@ > 0 {
            let d = step_delta(rem, lot.paid_amount@);
            lemma_taken(lot, d);
            match lot.taken(d) {
                None => {},
                Some(None) => {},
                Some(Some(p)) => {
                    let l2 = lots.update(k, p.0);
                    lemma_total_update(lots, k, p.0, cat);
                    lemma_total_update(lots, k, p.0, other);
                    assert(all_held(l2));
                    lemma_sweep(l2, k, cat, rem - d, other);
                    match sweep(l2, k, cat, rem - d) {
                        Some(t) => {
                            let sl = seq![p.1] + t.1;
                            assert forall|j: int| 0 <= j < sl.len() implies in_category(
                                #[trigger] sl[j],
                                cat,
                            ) by {
                                if j > 0 {
                                    assert(sl[j] == t.1[j - 1]);
                                }
                            }
                            assert forall|j: int| 0 <= j < lots.len() implies same_kind(
                                #[trigger] t.0[j],
                                lots[j],
                            ) by {
                                assert(same_kind(t.0[j], l2[j]));
                            }
                            assert forall|j: int|
                                0 <= j < lots.len() && (!in_category(lots[j], cat) || j >= i)
                                    implies #[trigger] t.0[j] == lots[j] by {
                                assert(t.0[j] == l2[j]);
                            }
                            if t.2 != 0 {
                                assert(d != rem);
                                assert forall|j: int|
                                    0 <= j < i && in_category(#[trigger] t.0[j], cat) implies t.0[j].paid_amount@
                                    == 0 by {
                                    if j == k {
                                        assert(t.0[j] == l2[j]);
                                    }
                                }
                            }
                        },
                        None => {},
                    }
                },
            }
        } else {
            lemma_sweep(lots, k, cat, rem, other);
            match sweep(lots, k, cat, rem) {
                Some(t) => {
                    if t.2 != 0 {
                        assert forall|j: int|
                            0 <= j < i && in_category(#[trigger] t.0[j], cat) implies t.0[j].paid_amount@
                            == 0 by {
                            if j == k {
                                assert(t.0[j] == lots[j]);
                            }
                        }
                    }
                },
                None => {},
            }
        }
    }
}

proof fn lemma_compact(s: Seq<Cost>, cat: Category)
    requires
        all_held(s),
    ensures
        lots_total(compact(s)) == lots_total(s),
        held_in(compact(s), cat) == held_in(s, cat),
        all_held(compact(s)),
        forall|j: int|
            0 <= j < compact(s).len() ==> exists|k: int|
                0 <= k < s.len() && #[trigger] compact(s)[j] == s[k] && s[k].paid_amount@ != 0,
        forall|k: int| 0 <= k < s.len() && s[k].paid_amount@ != 0 ==> compact(s).contains(#[trigger] s[k]),
    decreases s.len(),
{
    if s.len() > 0 {
        let p = s.drop_last();
        assert(all_held(p)) by {
            assert forall|j: int| 0 <= j < p.len() implies (#[trigger] p[j]).paid_amount@ >= 0 by {
                assert(p[j] == s[j]);
            }
        }
        lemma_compact(p, cat);
        let c = compact(p);
        let last = s.last();
        if last.paid_amount@ != 0 {
            let cs = c.push(last);
            assert(cs.drop_last() =~= c);
            assert forall|j: int| 0 <= j < cs.len() implies exists|k: int|
                0 <= k < s.len() && #[trigger] cs[j] == s[k] && s[k].paid_amount@ != 0 by {
                if j < c.len() {
                    let k = choose|k: int| 0 <= k < p.len() && c[j] == p[k] && p[k].paid_amount@ != 0;
                    assert(cs[j] == s[k]);
                } else {
                    assert(cs[j] == s[s.len() - 1]);
                }
            }
            assert forall|k: int| 0 <= k < s.len() && s[k].paid_amount@ != 0 implies cs.contains(
                #[trigger] s[k],
            ) by {
                if k < p.len() {
                    assert(p[k] == s[k]);
                    assert(c.contains(p[k]));
                    let j = choose|j: int| 0 <= j < c.len() && c[j] == p[k];
                    assert(cs[j] == s[k]);
                } else {
                    assert(cs[c.len() as int] == s[k]);
                }
            }
        } else {
            assert forall|j: int| 0 <= j < c.len() implies exists|k: int|
                0 <= k < s.len() && #[trigger] c[j] == s[k] && s[k].paid_amount@ != 0 by {
                let k = choose|k: int| 0 <= k < p.len() && c[j] == p[k] && p[k].paid_amount@ != 0;
                assert(c[j] == s[k]);
            }
            assert forall|k: int| 0 <= k < s.len() && s[k].paid_amount@ != 0 implies c.contains(
                #[trigger] s[k],
            ) by {
                assert(p[k] == s[k]);
            }
        }
    }
}

proof fn lemma_compact_unique(s: Seq<Cost>)
    requires
        all_held(s),
        one_cash_lot_each(s),
    ensures
        one_cash_lot_each(compact(s)),
    decreases s.len(),
{
    if s.len() > 0 {
        let p = s.drop_last();
        assert(all_held(p)) by {
            assert forall|j: int| 0 <= j < p.len() implies (#[trigger] p[j]).paid_amount@ >= 0 by {
                assert(p[j] == s[j]);
            }
        }
        assert(one_cash_lot_each(p)) by {
            assert forall|i: int, j: int|
                0 <= i < p.len() && 0 <= j < p.len() && (#[trigger] p[i]).exchanged is Cash && (
                #[trigger] p[j]).exchanged is Cash && p[i].is_vault == p[j].is_vault implies i == j by {
                assert(p[i] == s[i]);
                assert(p[j] == s[j]);
            }
        }
        lemma_compact_unique(p);
        lemma_compact(p, Category { cash: true, vault: true });
        let c = compact(p);
        let last = s.last();
        if last.paid_amount@ != 0 {
            let cs = c.push(last);
            assert forall|i: int, j: int|
                0 <= i < cs.len() && 0 <= j < cs.len() && (#[trigger] cs[i]).exchanged is Cash && (
                #[trigger] cs[j]).exchanged is Cash && cs[i].is_vault == cs[j].is_vault implies i == j by {
                if i < c.len() && j == c.len() {
                    let k = choose|k: int| 0 <= k < p.len() && c[i] == p[k] && p[k].paid_amount@ != 0;
                    assert(s[k] == p[k]);
                    assert(cs[i] == s[k]);
                    assert(cs[j] == s[s.len() - 1]);
                }
                if j < c.len() && i == c.len() {
                    let k = choose|k: int| 0 <= k < p.len() && c[j] == p[k] && p[k].paid_amount@ != 0;
                    assert(s[k] == p[k]);
                    assert(cs[j] == s[k]);
                    assert(cs[i] == s[s.len() - 1]);
                }
                if i < c.len() && j < c.len() {
                    assert(cs[i] == c[i]);
                    assert(cs[j] == c[j]);
                }
            }
        }
    }
}

pub proof fn lemma_pass(lots: Seq<Cost>, cat: Category, rem: int, other: Category)
    requires
        all_held(lots),
        rem <= 0,
    ensures
        pass(lots, cat, rem) matches Some(t) ==> {
            &&& all_held(t.0)
            &&& lots_total(t.0) + t.2 == lots_total(lots) + rem
            &&& held_in(t.0, cat) + t.2 == held_in(lots, cat) + rem
            &&& (other != cat ==> held_in(t.0, other) == held_in(lots, other))
            &&& rem <= t.2 <= 0
            &&& (rem == 0 ==> t.0 == lots && t.1.len() == 0)
            &&& (t.2 != 0 ==> none_in(t.0, cat))
            &&& (one_cash_lot_each(lots) ==> one_cash_lot_each(t.0))
            &&& (held_in(lots, cat) + rem >= 0 ==> t.2 == 0)
            &&& forall|c: Category| none_in(lots, c) ==> none_in(t.0, c)
            &&& forall|j: int|
                0 <= j < lots.len() && !in_category(lots[j], cat) && lots[j].paid_amount@ != 0
                    ==> t.0.contains(#[trigger] lots[j])
            &&& forall|j: int| 0 <= j < t.1.len() ==> in_category(#[trigger] t.1[j], cat)
        },
{
    if rem != 0 {
        lemma_sweep(lots, lots.len() as int, cat, rem, other);
        match sweep(lots, lots.len() as int, cat, rem) {
            Some(t) => {
                lemma_compact(t.0, other);
                lemma_compact(t.0, cat);
                if one_cash_lot_each(lots) {
                    assert(one_cash_lot_each(t.0)) by {
                        assert forall|i: int, j: int|
                            0 <= i < t.0.len() && 0 <= j < t.0.len() && (#[trigger] t.0[i]).exchanged is Cash && (
                            #[trigger] t.0[j]).exchanged is Cash && t.0[i].is_vault == t.0[j].is_vault implies i == j by {
                            assert(same_kind(t.0[i], lots[i]));
                            assert(same_kind(t.0[j], lots[j]));
                        }
                    }
                    lemma_compact_unique(t.0);
                }
                let c = compact(t.0);
                if t.2 != 0 {
                    lemma_held_zero(t.0, cat);
                    assert forall|j: int| 0 <= j < c.len() implies !in_category(#[trigger] c[j], cat) by {
                        let k = choose|k: int| 0 <= k < t.0.len() && c[j] == t.0[k] && t.0[k].paid_amount@ != 0;
                    }
                }
                assert forall|cc: Category| none_in(lots, cc) implies none_in(c, cc) by {
                    assert forall|j: int| 0 <= j < c.len() implies !in_category(#[trigger] c[j], cc) by {
                        let k = choose|k: int| 0 <= k < t.0.len() && c[j] == t.0[k] && t.0[k].paid_amount@ != 0;
                        assert(same_kind(t.0[k], lots[k]));
                        assert(!in_category(lots[k], cc));
                    }
                }
                assert forall|j: int|
                    0 <= j < lots.len() && !in_category(lots[j], cat) && lots[j].paid_amount@ != 0
                        implies c.contains(#[trigger] lots[j]) by {
                    assert(t.0[j] == lots[j]);
                }
            },
            None => {},
        }
    }
}

proof fn lemma_passes(lots: Seq<Cost>, cats: Seq<Category>, rem: int)
    requires
        all_held(lots),
        rem <= 0,
    ensures
        passes(lots, cats, rem) matches Some(t) ==> {
            &&& all_held(t.0)
            &&& lots_total(t.0) + t.2 == lots_total(lots) + rem
            &&& rem <= t.2 <= 0
            &&& (t.2 != 0 ==> forall|j: int| 0 <= j < cats.len() ==> none_in(t.0, #[trigger] cats[j]))
        },
    decreases cats.len(),
{
    if cats.len() > 0 {
        lemma_pass(lots, cats[0], rem, cats[0]);
        match pass(lots, cats[0], rem) {
            Some(t) => {
                lemma_passes(t.0, cats.drop_first(), t.2);
                match passes(t.0, cats.drop_first(), t.2) {
                    Some(u) => {
                        if u.2 != 0 {
                            lemma_passes_keep_none(t.0, cats.drop_first(), t.2, cats[0]);
                            assert forall|j: int| 0 <= j < cats.len() implies none_in(
                                u.0,
                                #[trigger] cats[j],
                            ) by {
                                if j > 0 {
                                    assert(cats[j] == cats.drop_first()[j - 1]);
                                }
                            }
                        }
                    },
                    None => {},
                }
            },
            None => {},
        }
    }
}

proof fn lemma_passes_keep_none(lots: Seq<Cost>, cats: Seq<Category>, rem: int, c: Category)
    requires
        all_held(lots),
        rem <= 0,
        none_in(lots, c),
    ensures
        passes(lots, cats, rem) matches Some(t) ==> none_in(t.0, c),
    decreases cats.len(),
{
    if cats.len() > 0 {
        lemma_pass(lots, cats[0], rem, cats[0]);
        match pass(lots, cats[0], rem) {
            Some(t) => {
                lemma_passes_keep_none(t.0, cats.drop_first(), t.2, c);
            },
            None => {},
        }
    }
}

/// Once the passes of `order` are done, nothing is left to draw when the lots
/// held enough: every lot falls in one of the four categories.
proof fn lemma_drained(lots: Seq<Cost>, cash_income: bool, rem: int)
    requires
        all_held(lots),
        rem <= 0,
        lots_total(lots) + rem >= 0,
    ensures
        passes(lots, order(cash_income), rem) matches Some(t) ==> t.2 == 0 && lots_total(t.0) == lots_total(
            lots,
        ) + rem,
{
    let cats = order(cash_income);
    lemma_passes(lots, cats, rem);
    match passes(lots, cats, rem) {
        Some(t) => {
            if t.2 != 0 {
                if t.0.len() > 0 {
                    let x = t.0[0];
                    let cat = Category { cash: x.exchanged is Cash, vault: x.is_vault };
                    assert(exists|j: int| 0 <= j < cats.len() && cats[j] == cat) by {
                        if cash_income {
                            if cat.cash && !cat.vault {
                                assert(cats[0] == cat);
                            } else if !cat.cash && !cat.vault {
                                assert(cats[1] == cat);
                            } else if cat.cash {
                                assert(cats[2] == cat);
                            } else {
                                assert(cats[3] == cat);
                            }
                        } else {
                            if !cat.cash && !cat.vault {
                                assert(cats[0] == cat);
                            } else if cat.cash && !cat.vault {
                                assert(cats[1] == cat);
                            } else if !cat.cash {
                                assert(cats[2] == cat);
                            } else {
                                assert(cats[3] == cat);
                            }
                        }
                    }
                    let j = choose|j: int| 0 <= j < cats.len() && cats[j] == cat;
                    assert(none_in(t.0, cats[j]));
                    assert(!in_category(t.0[0], cat));
                }
                assert(t.0.len() == 0);
            }
        },
        None => {},
    }
}

/// The trades that a book of `currency` kept in `base` takes.
pub open spec fn takes(t: Trade, currency: Seq<char>, base: Seq<char>) -> bool {
    t.paid_currency@ == currency && t.exchanged_currency@ == base
}

/// Buys are of a non-negative quantity, sells of a non-positive one.
pub open spec fn well_signed(trades: Seq<Trade>) -> bool {
    forall|k: int|
        0 <= k < trades.len() ==> if (#[trigger] trades[k]).direction == Direction::Buy {
            trades[k].paid_amount@ >= 0
        } else {
            trades[k].paid_amount@ <= 0
        }
}

/// Replaying `trades`, in order, on a book of `currency` kept in `base` that
/// holds `costs`: the lots afterwards and every sell taken with its slices, or
/// the error of the first trade that failed.
pub open spec fn replayed(costs: Seq<Cost>, base: String, currency: Seq<char>, trades: Seq<Trade>) -> Result<
    (Seq<Cost>, Seq<(Trade, Seq<Cost>)>),
    CostError,
>
    decreases trades.len(),
{
    if trades.len() == 0 {
        Ok((costs, Seq::empty()))
    } else {
        match replayed(costs, base, currency, trades.drop_last()) {
            Err(e) => Err(e),
            Ok(st) => {
                let t = trades.last();
                if !takes(t, currency, base@) {
                    Ok(st)
                } else if t.direction == Direction::Buy {
                    match bought(st.0, base, t) {
                        Ok(s) => Ok((s, st.1)),
                        Err(e) => Err(e),
                    }
                } else {
                    match sold(st.0, t.money_for(base@) is Cash, t.paid_amount@) {
                        Ok(p) => Ok((p.0, st.1.push((t, p.1)))),
                        Err(e) => Err(e),
                    }
                }
            },
        }
    }
}

/// `tts` reports `sales`, one for one and in order.
pub open spec fn reports(tts: Seq<TaxableTrade>, sales: Seq<(Trade, Seq<Cost>)>, base: Seq<char>) -> bool {
    &&& tts.len() == sales.len()
    &&& forall|k: int|
        0 <= k < tts.len() ==> describes_sale(#[trigger] tts[k], sales[k].0, base, sales[k].1)
}

/// The units bought by the trades that a book of `currency` kept in `base` takes.
pub open spec fn units_bought(trades: Seq<Trade>, currency: Seq<char>, base: Seq<char>) -> int
    decreases trades.len(),
{
    if trades.len() == 0 {
        0
    } else {
        units_bought(trades.drop_last(), currency, base) + if takes(trades.last(), currency, base)
            && trades.last().direction == Direction::Buy {
            trades.last().paid_amount@
        } else {
            0
        }
    }
}

/// The units (negative) of the sells in `sales`.
pub open spec fn units_sold(sales: Seq<(Trade, Seq<Cost>)>) -> int
    decreases sales.len(),
{
    if sales.len() == 0 {
        0
    } else {
        units_sold(sales.drop_last()) + sales.last().0.paid_amount@
    }
}

proof fn lemma_replay_err(costs: Seq<Cost>, base: String, currency: Seq<char>, trades: Seq<Trade>, n: int, e: CostError)
    requires
        0 <= n <= trades.len(),
        replayed(costs, base, currency, trades.take(n)) == Err::<(Seq<Cost>, Seq<(Trade, Seq<Cost>)>), CostError>(e),
    ensures
        replayed(costs, base, currency, trades) == Err::<(Seq<Cost>, Seq<(Trade, Seq<Cost>)>), CostError>(e),
    decreases trades.len() - n,
{
    if n < trades.len() {
        assert(trades.take(n + 1).drop_last() =~= trades.take(n));
        lemma_replay_err(costs, base, currency, trades, n + 1, e);
    } else {
        assert(trades.take(n) =~= trades);
    }
}

proof fn lemma_bought(costs: Seq<Cost>, base: String, trade: Trade)
    requires
        all_held(costs),
        trade.paid_amount@ >= 0,
    ensures
        bought(costs, base, trade) matches Ok(s) ==> all_held(s) && lots_total(s) == lots_total(costs)
            + trade.paid_amount@,
{
    let m = trade.money_for(base@);
    match m {
        Money::Coupon(_) => {
            let s = costs.push(Cost { paid_amount: trade.paid_amount, exchanged: m, is_vault: trade.is_vault });
            assert(s.drop_last() =~= costs);
        },
        Money::Cash(c) => match cash_slot(costs, trade.is_vault) {
            Some(i) => {
                let w = choose|w: int| is_first_cash(costs, trade.is_vault, w);
                let x = Cost {
                    paid_amount: Decimal::from_units(costs[i].paid_amount@ + trade.paid_amount@),
                    exchanged: costs[i].exchanged.with_amount(rounded_sum(costs[i].exchanged.value(), c.amount@)->Some_0),
                    is_vault: costs[i].is_vault,
                };
                lemma_total_update(costs, i, x, Category { cash: true, vault: true });
            },
            None => {
                let s = costs.push(
                    Cost {
                        paid_amount: trade.paid_amount,
                        exchanged: Money::Cash(Cash { currency: base, amount: c.amount }),
                        is_vault: trade.is_vault,
                    },
                );
                assert(s.drop_last() =~= costs);
            },
        },
    }
}

/// Every lot holds its units while trades are replayed, and the units are
/// conserved: the lots hold what they held before, plus every unit bought,
/// plus every (negative) unit sold.
pub proof fn conservation(costs: Seq<Cost>, base: String, currency: Seq<char>, trades: Seq<Trade>)
    requires
        all_held(costs),
        well_signed(trades),
    ensures
        replayed(costs, base, currency, trades) matches Ok(st) ==> all_held(st.0) && lots_total(st.0)
            == lots_total(costs) + units_bought(trades, currency, base@) + units_sold(st.1),
    decreases trades.len(),
{
    if trades.len() > 0 {
        let p = trades.drop_last();
        assert(well_signed(p)) by {
            assert forall|k: int| 0 <= k < p.len() implies #[trigger] p[k] == trades[k] by {}
        }
        conservation(costs, base, currency, p);
        match replayed(costs, base, currency, p) {
            Ok(st) => {
                let t = trades.last();
                assert(t == trades[trades.len() - 1]);
                if takes(t, currency, base@) {
                    if t.direction == Direction::Buy {
                        lemma_bought(st.0, base, t);
                    } else {
                        if lots_total(st.0) + t.paid_amount@ >= 0 {
                            lemma_drained(st.0, t.money_for(base@) is Cash, t.paid_amount@);
                        }
                        lemma_passes(st.0, order(t.money_for(base@) is Cash), t.paid_amount@);
                        match sold(st.0, t.money_for(base@) is Cash, t.paid_amount@) {
                            Ok(q) => {
                                assert(st.1.push((t, q.1)).drop_last() =~= st.1);
                            },
                            Err(_) => {},
                        }
                    }
                }
            },
            Err(_) => {},
        }
    }
}

// ---------------------------------------------------------------- exec

/// The cost lots of `currency` bought with `base_currency`, oldest first.
#[derive(Debug)]
pub struct CostBook {
    pub base_currency: String,
    pub currency: String,
    pub costs: Vec<Cost>,
}

/// One sell in progress: what is left to draw, and the slices taken so far.
pub struct Deductor {
    pub remaining: Decimal,
    pub result: Vec<Cost>,
}

impl Deductor {
    pub fn new(paid_amount: Decimal) -> (r: Deductor)
        ensures
            r.remaining == paid_amount,
            r.result@.len() == 0,
    {
        Deductor { remaining: paid_amount, result: Vec::new() }
    }

    /// One pass of the sell over the lots of `cat`, most recent first, then
    /// the emptied lots are dropped. Does nothing once nothing is left.
    pub fn maybe_deduct(&mut self, costs: &mut Vec<Cost>, cat: Category) -> (r: Result<(), CostError>)
        requires
            all_held(old(costs)@),
            old(self).remaining@ <= 0,
        ensures
            all_held(final(costs)@),
            one_cash_lot_each(old(costs)@) ==> one_cash_lot_each(final(costs)@),
            match pass(old(costs)@, cat, old(self).remaining@) {
                Some(t) => r is Ok && final(costs)@ == t.0 && final(self).result@ == old(self).result@
                    + t.1 && final(self).remaining@ == t.2,
                None => r == Err::<(), CostError>(CostError::Overflow),
            },
    {
        if self.remaining.is_zero() {
            assert(self.result@ + Seq::<Cost>::empty() =~= self.result@);
            return Ok(());
        }
        let ghost c0 = costs@;
        let ghost rem0 = self.remaining@;
        let mut taken: Vec<Cost> = Vec::new();
        let mut i: usize = costs.len();
        assert(after(taken@, sweep(c0, i as int, cat, rem0)) == sweep(c0, i as int, cat, rem0)) by {
            match sweep(c0, i as int, cat, rem0) {
                Some(t) => {
                    assert(taken@ + t.1 =~= t.1);
                },
                None => {},
            }
        }
        while i > 0
            invariant
                i <= costs.len(),
                costs@.len() == c0.len(),
                all_held(costs@),
                rem0 <= self.remaining@ <= 0,
                rem0 != 0,
                rem0 == old(self).remaining@,
                c0 == old(costs)@,
                forall|j: int| 0 <= j < c0.len() ==> same_kind(#[trigger] costs@[j], c0[j]),
                sweep(c0, c0.len() as int, cat, rem0) == after(
                    taken@,
                    sweep(costs@, i as int, cat, self.remaining@),
                ),
                self.result@ == old(self).result@,
            decreases i,
        {
            let k = i - 1;
            let fits = costs[k].exchanged.is_cash() == cat.cash && costs[k].is_vault == cat.vault;
            if fits && !self.remaining.is_zero() && costs[k].paid_amount.is_positive() {
                let neg_paid = costs[k].paid_amount.neg();
                let d = self.remaining.max(&neg_paid);
                let ghost before = costs@;
                let ghost taken_before = taken@;
                proof {
                    lemma_taken(before[k as int], d@);
                }
                match costs[k].maybe_deduct(d) {
                    Err(e) => {
                        assert(costs@ =~= before);
                        return Err(e);
                    },
                    Ok(None) => {},
                    Ok(Some(slice)) => {
                        taken.push(slice);
                        self.remaining.known();
                        d.known();
                        self.remaining = match self.remaining.checked_sub(&d) {
                            Some(x) => x,
                            None => return Err(CostError::Overflow),
                        };
                        proof {
                            assert(costs@ == before.update(k as int, costs@[k as int]));
                            match sweep(costs@, k as int, cat, self.remaining@) {
                                Some(t) => {
                                    assert(taken@ + t.1 =~= taken_before + (seq![slice] + t.1));
                                },
                                None => {},
                            }
                        }
                    },
                }
            }
            i = k;
        }
        let ghost swept = costs@;
        proof {
            lemma_compact(swept, cat);
            if one_cash_lot_each(c0) {
                assert(one_cash_lot_each(swept)) by {
                    assert forall|i: int, j: int|
                        0 <= i < swept.len() && 0 <= j < swept.len() && (#[trigger] swept[i]).exchanged is Cash && (
                        #[trigger] swept[j]).exchanged is Cash && swept[i].is_vault == swept[j].is_vault implies i == j by {
                        assert(same_kind(swept[i], c0[i]));
                        assert(same_kind(swept[j], c0[j]));
                    }
                }
                lemma_compact_unique(swept);
            }
        }
        let mut kept: Vec<Cost> = Vec::new();
        assert(compact(swept) == compact(costs@) + kept@) by {
            assert(compact(swept) + kept@ =~= compact(swept));
        }
        while costs.len() > 0
            invariant
                compact(swept) == compact(costs@) + kept@,
                all_held(compact(swept)),
                one_cash_lot_each(c0) ==> one_cash_lot_each(compact(swept)),
            decreases costs.len(),
        {
            let ghost before = costs@;
            let c = costs.pop().unwrap();
            assert(before.drop_last() =~= costs@);
            let ghost kept_before = kept@;
            if !c.paid_amount.is_zero() {
                kept.insert(0, c);
                assert(compact(before) + kept_before =~= compact(costs@) + kept@);
            }
        }
        assert(compact(costs@) + kept@ =~= kept@);
        *costs = kept;
        self.result.append(&mut taken);
        Ok(())
    }

    pub fn collect(self) -> (r: Vec<Cost>)
        ensures
            r@ == self.result@,
    {
        self.result
    }
}

/// The `j`th category of `order(cash_income)`.
fn nth_category(cash_income: bool, j: usize) -> (r: Category)
    requires
        j < 4,
    ensures
        r == order(cash_income)[j as int],
{
    let cash_first = if j % 2 == 0 {
        cash_income
    } else {
        !cash_income
    };
    Category { cash: cash_first, vault: j >= 2 }
}

impl CostBook {
    pub fn new(currency: String, base_currency: String) -> (r: CostBook)
        ensures
            r.currency == currency,
            r.base_currency == base_currency,
            r.costs@.len() == 0,
    {
        CostBook { base_currency, currency, costs: Vec::new() }
    }

    /// Whether the lots hold at least `-paid_amount` units.
    fn has_enough(&self, paid_amount: Decimal) -> (r: bool)
        requires
            all_held(self.costs@),
            paid_amount@ <= 0,
        ensures
            r == (lots_total(self.costs@) + paid_amount@ >= 0),
    {
        let mut short: Decimal = paid_amount;
        let mut i: usize = 0;
        assert(self.costs@.take(0) =~= Seq::<Cost>::empty());
        while i < self.costs.len()
            invariant
                i <= self.costs.len(),
                all_held(self.costs@),
                short@ <= 0,
                short@ == if paid_amount@ + lots_total(self.costs@.take(i as int)) < 0 {
                    paid_amount@ + lots_total(self.costs@.take(i as int))
                } else {
                    0
                },
            decreases self.costs.len() - i,
        {
            assert(self.costs@.take(i + 1).drop_last() =~= self.costs@.take(i as int));
            assert(self.costs@[i as int].paid_amount@ >= 0);
            short.known();
            self.costs[i].paid_amount.known();
            let s = match short.checked_add(&self.costs[i].paid_amount) {
                Some(x) => x,
                None => short,
            };
            short = if s.is_positive() {
                Decimal::zero()
            } else {
                s
            };
            i = i + 1;
        }
        assert(self.costs@.take(self.costs.len() as int) =~= self.costs@);
        short.is_zero()
    }
}


impl CostBook {
    /// Books a buy: see `bought`. Lots never go negative while buys are of a
    /// non-negative quantity.
    pub fn add_buy(&mut self, trade: &Trade) -> (r: Result<(), CostError>)
        requires
            lots_wf(old(self).costs@),
            trade.paid_amount@ >= 0,
        ensures
            final(self).base_currency == old(self).base_currency,
            final(self).currency == old(self).currency,
            lots_wf(final(self).costs@),
            match bought(old(self).costs@, old(self).base_currency, *trade) {
                Ok(s) => r is Ok && final(self).costs@ == s,
                Err(e) => r == Err::<(), CostError>(e) && final(self).costs@ == old(self).costs@,
            },
            r is Ok ==> lots_total(final(self).costs@) == lots_total(old(self).costs@)
                + trade.paid_amount@,
    {
        let money = trade.to_money(&self.base_currency);
        match money {
            Money::Cash(cash) => self.find_and_add_cash(trade.is_vault, trade.paid_amount, cash.amount),
            Money::Coupon(_) => {
                proof {
                    let s = old(self).costs@.push(
                        Cost { paid_amount: trade.paid_amount, exchanged: money, is_vault: trade.is_vault },
                    );
                    assert(s.drop_last() =~= old(self).costs@);
                }
                self.costs.push(Cost::new(trade.paid_amount, money, trade.is_vault));
                Ok(())
            },
        }
    }

    /// Merges a cash buy into the first cash lot of the vault flag, or opens
    /// that lot.
    fn find_and_add_cash(&mut self, is_vault: bool, paid_amount: Decimal, amount: Decimal) -> (r: Result<
        (),
        CostError,
    >)
        requires
            lots_wf(old(self).costs@),
            paid_amount@ >= 0,
        ensures
            final(self).base_currency == old(self).base_currency,
            final(self).currency == old(self).currency,
            lots_wf(final(self).costs@),
            match cash_slot(old(self).costs@, is_vault) {
                Some(i) => if in_range(old(self).costs@[i].paid_amount@ + paid_amount@) && rounded_sum(
                    old(self).costs@[i].exchanged.value(),
                    amount@,
                ) is Some {
                    r is Ok && final(self).costs@ == old(self).costs@.update(
                        i,
                        Cost {
                            paid_amount: Decimal::from_units(old(self).costs@[i].paid_amount@ + paid_amount@),
                            exchanged: old(self).costs@[i].exchanged.with_amount(
                                rounded_sum(old(self).costs@[i].exchanged.value(), amount@)->Some_0,
                            ),
                            is_vault: old(self).costs@[i].is_vault,
                        },
                    )
                } else {
                    r == Err::<(), CostError>(CostError::Overflow) && final(self).costs@ == old(
                        self,
                    ).costs@
                },
                None => r is Ok && final(self).costs@ == old(self).costs@.push(
                    Cost {
                        paid_amount: paid_amount,
                        exchanged: Money::Cash(Cash { currency: old(self).base_currency, amount }),
                        is_vault,
                    },
                ),
            },
            r is Ok ==> lots_total(final(self).costs@) == lots_total(old(self).costs@) + paid_amount@,
    {
        let mut i: usize = 0;
        while i < self.costs.len() && !(self.costs[i].exchanged.is_cash() && self.costs[i].is_vault
            == is_vault)
            invariant
                i <= self.costs.len(),
                self.costs@ == old(self).costs@,
                forall|j: int| 0 <= j < i ==> !cash_lot_of(#[trigger] self.costs@[j], is_vault),
            decreases self.costs.len() - i,
        {
            i = i + 1;
        }
        let ghost c0 = self.costs@;
        if i < self.costs.len() {
            assert(is_first_cash(c0, is_vault, i as int));
            assert(cash_slot(c0, is_vault) == Some(i as int)) by {
                let w = choose|w: int| is_first_cash(c0, is_vault, w);
                if w < i {
                    assert(!cash_lot_of(c0[w], is_vault));
                }
                if w > i {
                    assert(!cash_lot_of(c0[i as int], is_vault));
                }
            }
            let r = self.costs[i].add_cash(paid_amount, amount);
            assert(self.costs@ == c0.update(i as int, self.costs@[i as int]));
            proof {
                lemma_total_update(c0, i as int, self.costs@[i as int], Category { cash: true, vault: is_vault });
                if r is Err {
                    assert(self.costs@ =~= c0);
                }
            }
            r
        } else {
            assert(cash_slot(c0, is_vault) is None) by {
                if exists|w: int| is_first_cash(c0, is_vault, w) {
                    let w = choose|w: int| is_first_cash(c0, is_vault, w);
                    assert(!cash_lot_of(c0[w], is_vault));
                }
            }
            let lot = Cost::new(paid_amount, Money::new_cash(self.base_currency.clone(), amount), is_vault);
            self.costs.push(lot);
            assert(self.costs@.drop_last() =~= c0);
            Ok(())
        }
    }

    /// Books `trades` in order, skipping those of other pairs, and reports
    /// every sell. Stops at the first trade that fails.
    pub fn replay(&mut self, trades: &Vec<Trade>) -> (r: Result<Vec<TaxableTrade>, CostError>)
        requires
            lots_wf(old(self).costs@),
            well_signed(trades@),
        ensures
            final(self).base_currency == old(self).base_currency,
            final(self).currency == old(self).currency,
            match replayed(old(self).costs@, old(self).base_currency, old(self).currency@, trades@) {
                Ok(st) => r matches Ok(tts) && final(self).costs@ == st.0 && reports(
                    tts@,
                    st.1,
                    old(self).base_currency@,
                ),
                Err(e) => r == Err::<Vec<TaxableTrade>, CostError>(e),
            },
    {
        let ghost c0 = self.costs@;
        let ghost mut sales: Seq<(Trade, Seq<Cost>)> = Seq::empty();
        let mut out: Vec<TaxableTrade> = Vec::new();
        let mut i: usize = 0;
        assert(trades@.take(0) =~= Seq::<Trade>::empty());
        while i < trades.len()
            invariant
                i <= trades.len(),
                well_signed(trades@),
                lots_wf(self.costs@),
                c0 == old(self).costs@,
                self.base_currency == old(self).base_currency,
                self.currency == old(self).currency,
                replayed(c0, self.base_currency, self.currency@, trades@.take(i as int)) == Ok::<
                    (Seq<Cost>, Seq<(Trade, Seq<Cost>)>),
                    CostError,
                >((self.costs@, sales)),
                reports(out@, sales, self.base_currency@),
            decreases trades.len() - i,
        {
            let t = &trades[i];
            let ghost before = self.costs@;
            assert(trades@.take(i + 1).drop_last() =~= trades@.take(i as int));
            assert(trades@.take(i + 1).last() == trades@[i as int]);
            assert(well_signed(trades@) ==> (t.direction == Direction::Buy ==> t.paid_amount@ >= 0));
            if t.paid_currency == self.currency && t.exchanged_currency == self.base_currency {
                match t.direction {
                    Direction::Buy => match self.add_buy(t) {
                        Ok(()) => {},
                        Err(e) => {
                            proof {
                                lemma_replay_err(c0, self.base_currency, self.currency@, trades@, i + 1, e);
                            }
                            return Err(e);
                        },
                    },
                    Direction::Sell => match self.add_sell(t) {
                        Ok(tt) => {
                            let ghost slices = sold(
                                before,
                                t.money_for(self.base_currency@) is Cash,
                                t.paid_amount@,
                            )->Ok_0.1;
                            out.push(tt);
                            proof {
                                sales = sales.push((*t, slices));
                                assert forall|k: int| 0 <= k < out@.len() implies describes_sale(
                                    #[trigger] out@[k],
                                    sales[k].0,
                                    self.base_currency@,
                                    sales[k].1,
                                ) by {
                                    if k < out@.len() - 1 {
                                        assert(out@[k] == out@.drop_last()[k]);
                                    }
                                }
                            }
                        },
                        Err(e) => {
                            proof {
                                lemma_replay_err(c0, self.base_currency, self.currency@, trades@, i + 1, e);
                            }
                            return Err(e);
                        },
                    },
                }
            }
            i = i + 1;
        }
        assert(trades@.take(trades.len() as int) =~= trades@);
        Ok(out)
    }

    /// Books a sell: the lots are matched as `sold` says, and the trade is
    /// reported with the money of every slice taken as its costs. When the
    /// lots hold too few units, the book is left as it was.
    pub fn add_sell(&mut self, trade: &Trade) -> (r: Result<TaxableTrade, CostError>)
        requires
            lots_wf(old(self).costs@),
            trade.paid_amount@ <= 0,
        ensures
            final(self).base_currency == old(self).base_currency,
            final(self).currency == old(self).currency,
            lots_wf(final(self).costs@),
            match sold(
                old(self).costs@,
                trade.money_for(old(self).base_currency@) is Cash,
                trade.paid_amount@,
            ) {
                Ok(p) => r matches Ok(tt) && final(self).costs@ == p.0 && describes_sale(
                    tt,
                    *trade,
                    old(self).base_currency@,
                    p.1,
                ),
                Err(e) => r == Err::<TaxableTrade, CostError>(e),
            },
            r is Ok ==> lots_total(final(self).costs@) == lots_total(old(self).costs@)
                + trade.paid_amount@,
            r == Err::<TaxableTrade, CostError>(CostError::NotEnoughCost) <==> lots_total(
                old(self).costs@,
            ) + trade.paid_amount@ < 0,
            r == Err::<TaxableTrade, CostError>(CostError::NotEnoughCost) ==> final(self).costs@
                == old(self).costs@,
    {
        let income = trade.to_money(&self.base_currency);
        match self.find_and_deduct_cost(&income, trade.paid_amount) {
            Ok(slices) => Ok(TaxableTrade::from_sale(trade, income, &slices)),
            Err(e) => Err(e),
        }
    }

    /// Matches a sell of `paid_amount` (negative) units against the lots, in
    /// the order that the kind of `income` sets. Returns the slices taken.
    fn find_and_deduct_cost(&mut self, income: &Money, paid_amount: Decimal) -> (r: Result<
        Vec<Cost>,
        CostError,
    >)
        requires
            lots_wf(old(self).costs@),
            paid_amount@ <= 0,
        ensures
            final(self).base_currency == old(self).base_currency,
            final(self).currency == old(self).currency,
            lots_wf(final(self).costs@),
            match sold(old(self).costs@, *income is Cash, paid_amount@) {
                Ok(p) => r matches Ok(v) && v@ == p.1 && final(self).costs@ == p.0,
                Err(e) => r == Err::<Vec<Cost>, CostError>(e),
            },
            r is Ok ==> lots_total(final(self).costs@) == lots_total(old(self).costs@) + paid_amount@,
            r == Err::<Vec<Cost>, CostError>(CostError::NotEnoughCost) ==> final(self).costs@ == old(
                self,
            ).costs@,
    {
        if !self.has_enough(paid_amount) {
            return Err(CostError::NotEnoughCost);
        }
        let cash_income = income.is_cash();
        let ghost c0 = self.costs@;
        let ghost cats = order(cash_income);
        proof {
            lemma_drained(c0, cash_income, paid_amount@);
        }
        let mut deductor = Deductor::new(paid_amount);
        assert(after(deductor.result@, passes(c0, cats.subrange(0, 4), paid_amount@)) == passes(
            c0,
            cats,
            paid_amount@,
        )) by {
            assert(cats.subrange(0, 4) =~= cats);
            match passes(c0, cats, paid_amount@) {
                Some(t) => {
                    assert(deductor.result@ + t.1 =~= t.1);
                },
                None => {},
            }
        }
        let mut j: usize = 0;
        while j < 4
            invariant
                j <= 4,
                cats == order(cash_income),
                lots_wf(self.costs@),
                paid_amount@ <= deductor.remaining@ <= 0,
                c0 == old(self).costs@,
                cash_income == (*income is Cash),
                lots_total(c0) + paid_amount@ >= 0,
                passes(c0, cats, paid_amount@) == after(
                    deductor.result@,
                    passes(self.costs@, cats.subrange(j as int, 4), deductor.remaining@),
                ),
                self.base_currency == old(self).base_currency,
                self.currency == old(self).currency,
            decreases 4 - j,
        {
            let cat = nth_category(cash_income, j);
            let ghost lots = self.costs@;
            let ghost rem = deductor.remaining@;
            let ghost res = deductor.result@;
            let ghost rest = cats.subrange(j as int, 4);
            assert(rest[0] == cat);
            assert(rest.drop_first() =~= cats.subrange(j + 1, 4));
            proof {
                lemma_pass(lots, cat, rem, cat);
            }
            match deductor.maybe_deduct(&mut self.costs, cat) {
                Err(e) => {
                    return Err(e);
                },
                Ok(()) => {
                    proof {
                        match passes(self.costs@, cats.subrange(j + 1, 4), deductor.remaining@) {
                            Some(u) => {
                                let t = pass(lots, cat, rem)->Some_0;
                                assert(deductor.result@ + u.1 =~= res + (t.1 + u.1));
                            },
                            None => {},
                        }
                    }
                },
            }
            j = j + 1;
        }
        assert(deductor.result@ + Seq::<Cost>::empty() =~= deductor.result@);
        Ok(deductor.collect())
    }
}

} // verus!
