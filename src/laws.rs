//! Properties of the matching of sells against lots.
use vstd::prelude::*;

use crate::cost::{Cost, CostError};
use crate::cost_book::{
    all_held, bought, cash_slot, compact, held_in, in_category, lemma_pass, lots_total, none_in,
    order, pass, passes, sold, sweep, step_delta, Category,
};
use crate::decimal::{rounded_sum, share_of, Decimal};
use crate::money::{Cash, Money};
use crate::trade::{Direction, Trade};

verus! {

broadcast use Decimal::lemma_from_units;

proof fn lemma_passes_zero(lots: Seq<Cost>, cats: Seq<Category>)
    ensures
        passes(lots, cats, 0) == Some((lots, Seq::<Cost>::empty(), 0int)),
    decreases cats.len(),
{
    if cats.len() > 0 {
        lemma_passes_zero(lots, cats.drop_first());
        assert(Seq::<Cost>::empty() + Seq::<Cost>::empty() =~= Seq::<Cost>::empty());
    }
}

proof fn lemma_held_le_total(s: Seq<Cost>, cat: Category)
    requires
        all_held(s),
    ensures
        held_in(s, cat) <= lots_total(s),
    decreases s.len(),
{
    if s.len() > 0 {
        assert(all_held(s.drop_last())) by {
            assert forall|j: int| 0 <= j < s.drop_last().len() implies (#[trigger] s.drop_last()[j]).paid_amount@
                >= 0 by {
                assert(s.drop_last()[j] == s[j]);
            }
        }
        lemma_held_le_total(s.drop_last(), cat);
    }
}

/// When the lots of the first category in the order hold enough, a sell
/// draws from them alone: every slice taken is of that category, and every
/// other lot that holds units is still in the book.
pub proof fn first_category_suffices(lots: Seq<Cost>, cash_income: bool, amount: int)
    requires
        all_held(lots),
        amount <= 0,
        held_in(lots, order(cash_income)[0]) + amount >= 0,
    ensures
        sold(lots, cash_income, amount) != Err::<(Seq<Cost>, Seq<Cost>), CostError>(
            CostError::NotEnoughCost,
        ),
        sold(lots, cash_income, amount) matches Ok(p) ==> {
            &&& forall|j: int| 0 <= j < p.1.len() ==> in_category(#[trigger] p.1[j], order(cash_income)[0])
            &&& forall|j: int|
                0 <= j < lots.len() && !in_category(lots[j], order(cash_income)[0])
                    && lots[j].paid_amount@ != 0 ==> p.0.contains(#[trigger] lots[j])
        },
{
    let cats = order(cash_income);
    lemma_held_le_total(lots, cats[0]);
    lemma_pass(lots, cats[0], amount, cats[0]);
    match pass(lots, cats[0], amount) {
        Some(t) => {
            lemma_passes_zero(t.0, cats.drop_first());
            assert(t.1 + Seq::<Cost>::empty() =~= t.1);
        },
        None => {},
    }
}

proof fn lemma_two_held_le_total(s: Seq<Cost>, a: Category, b: Category)
    requires
        all_held(s),
        a != b,
    ensures
        held_in(s, a) + held_in(s, b) <= lots_total(s),
    decreases s.len(),
{
    if s.len() > 0 {
        assert(all_held(s.drop_last())) by {
            assert forall|j: int| 0 <= j < s.drop_last().len() implies (#[trigger] s.drop_last()[j]).paid_amount@
                >= 0 by {
                assert(s.drop_last()[j] == s[j]);
            }
        }
        lemma_two_held_le_total(s.drop_last(), a, b);
    }
}

proof fn lemma_none_held(s: Seq<Cost>, cat: Category)
    requires
        none_in(s, cat),
    ensures
        held_in(s, cat) == 0,
    decreases s.len(),
{
    if s.len() > 0 {
        assert(none_in(s.drop_last(), cat)) by {
            assert forall|j: int| 0 <= j < s.drop_last().len() implies !in_category(#[trigger] s.drop_last()[j], cat) by {
                assert(s.drop_last()[j] == s[j]);
            }
        }
        lemma_none_held(s.drop_last(), cat);
    }
}

/// The vault is drawn from last: while the lots outside the vault hold
/// enough, a sell takes from them alone, and every vault lot that holds units
/// is still in the book, unchanged.
pub proof fn vault_last(lots: Seq<Cost>, cash_income: bool, amount: int)
    requires
        all_held(lots),
        amount <= 0,
        held_in(lots, Category { cash: true, vault: false }) + held_in(
            lots,
            Category { cash: false, vault: false },
        ) + amount >= 0,
    ensures
        sold(lots, cash_income, amount) != Err::<(Seq<Cost>, Seq<Cost>), CostError>(
            CostError::NotEnoughCost,
        ),
        sold(lots, cash_income, amount) matches Ok(p) ==> {
            &&& forall|j: int| 0 <= j < p.1.len() ==> !(#[trigger] p.1[j]).is_vault
            &&& forall|j: int|
                0 <= j < lots.len() && lots[j].is_vault && lots[j].paid_amount@ != 0 ==> p.0.contains(
                    #[trigger] lots[j],
                )
        },
{
    let cats = order(cash_income);
    let c0 = cats[0];
    let c1 = cats[1];
    assert(c0 != c1);
    assert(held_in(lots, c0) + held_in(lots, c1) + amount >= 0) by {
        if cash_income {
            assert(c0 == Category { cash: true, vault: false });
            assert(c1 == Category { cash: false, vault: false });
        } else {
            assert(c0 == Category { cash: false, vault: false });
            assert(c1 == Category { cash: true, vault: false });
        }
    }
    lemma_two_held_le_total(lots, c0, c1);
    lemma_pass(lots, c0, amount, c1);
    match pass(lots, c0, amount) {
        Some(t) => {
            if t.2 != 0 {
                lemma_none_held(t.0, c0);
            }
            let rest = cats.drop_first();
            assert(rest[0] == c1);
            lemma_pass(t.0, c1, t.2, c0);
            match pass(t.0, c1, t.2) {
                Some(u) => {
                    if t.2 != 0 {
                        assert(held_in(t.0, c1) + t.2 >= 0);
                    }
                    assert(u.2 == 0);
                    lemma_passes_zero(u.0, rest.drop_first());
                    assert(u.1 + Seq::<Cost>::empty() =~= u.1);
                    assert(passes(t.0, rest, t.2) == Some((u.0, u.1, 0int)));
                    assert(passes(lots, cats, amount) == Some((u.0, t.1 + u.1, 0int)));
                    let sl = t.1 + u.1;
                    assert forall|j: int| 0 <= j < sl.len() implies !(#[trigger] sl[j]).is_vault by {
                        if j < t.1.len() {
                            assert(sl[j] == t.1[j]);
                            assert(in_category(t.1[j], c0));
                        } else {
                            assert(sl[j] == u.1[j - t.1.len()]);
                            assert(in_category(u.1[j - t.1.len()], c1));
                        }
                    }
                    assert forall|j: int|
                        0 <= j < lots.len() && lots[j].is_vault && lots[j].paid_amount@ != 0 implies u.0.contains(
                            #[trigger] lots[j],
                        ) by {
                        assert(!in_category(lots[j], c0));
                        assert(t.0.contains(lots[j]));
                        let k = choose|k: int| 0 <= k < t.0.len() && t.0[k] == lots[j];
                        assert(!in_category(t.0[k], c1));
                    }
                },
                None => {},
            }
        },
        None => {},
    }
}

/// A sell of what one lot holds, or less, against a book of that lot alone:
/// the slice is what `taken` gives, and the lot keeps the rest if any.
proof fn lemma_one_lot(lot: Cost, cats: Seq<Category>, rem: int)
    requires
        lot.paid_amount@ > 0,
        -lot.paid_amount@ <= rem < 0,
        exists|j: int| 0 <= j < cats.len() && in_category(lot, #[trigger] cats[j]),
    ensures
        lot.taken(rem) matches Some(Some(p)) ==> passes(seq![lot], cats, rem) == Some(
            (compact(seq![p.0]), seq![p.1], 0int),
        ),
        lot.taken(rem) is None ==> passes(seq![lot], cats, rem) is None,
    decreases cats.len(),
{
    let l = seq![lot];
    assert(l.drop_last() =~= Seq::<Cost>::empty());
    assert(compact(l) == compact(Seq::<Cost>::empty()).push(lot));
    assert(compact(l) =~= l);
    let cat = cats[0];
    assert(step_delta(rem, lot.paid_amount@) == rem);
    if in_category(lot, cat) {
        match lot.taken(rem) {
            Some(Some(p)) => {
                assert(sweep(l.update(0, p.0), 0, cat, 0) == Some((l.update(0, p.0), Seq::<Cost>::empty(), 0int)));
                assert(l.update(0, p.0) =~= seq![p.0]);
                assert(seq![p.1] + Seq::<Cost>::empty() =~= seq![p.1]);
                assert(sweep(l, 1, cat, rem) == Some((seq![p.0], seq![p.1], 0int)));
                lemma_passes_zero(compact(seq![p.0]), cats.drop_first());
                assert(seq![p.1] + Seq::<Cost>::empty() =~= seq![p.1]);
            },
            _ => {},
        }
    } else {
        assert(sweep(l, 0, cat, rem) == Some((l, Seq::<Cost>::empty(), rem)));
        assert(sweep(l, 1, cat, rem) == Some((l, Seq::<Cost>::empty(), rem)));
        assert(pass(l, cat, rem) == Some((l, Seq::<Cost>::empty(), rem)));
        let j = choose|j: int| 0 <= j < cats.len() && in_category(lot, #[trigger] cats[j]);
        assert(j > 0);
        assert(in_category(lot, cats.drop_first()[j - 1]));
        lemma_one_lot(lot, cats.drop_first(), rem);
        match passes(l, cats.drop_first(), rem) {
            Some(u) => {
                assert(Seq::<Cost>::empty() + u.1 =~= u.1);
            },
            None => {},
        }
    }
}

proof fn lemma_in_order(lot: Cost, cash_income: bool)
    ensures
        exists|j: int| 0 <= j < order(cash_income).len() && in_category(lot, #[trigger] order(cash_income)[j]),
{
    let cats = order(cash_income);
    let cat = Category { cash: lot.exchanged is Cash, vault: lot.is_vault };
    if cash_income {
        if cat.cash && !cat.vault {
            assert(in_category(lot, cats[0]));
        } else if !cat.cash && !cat.vault {
            assert(in_category(lot, cats[1]));
        } else if cat.cash {
            assert(in_category(lot, cats[2]));
        } else {
            assert(in_category(lot, cats[3]));
        }
    } else {
        if !cat.cash && !cat.vault {
            assert(in_category(lot, cats[0]));
        } else if cat.cash && !cat.vault {
            assert(in_category(lot, cats[1]));
        } else if !cat.cash {
            assert(in_category(lot, cats[2]));
        } else {
            assert(in_category(lot, cats[3]));
        }
    }
}

proof fn lemma_sweep_zero(lots: Seq<Cost>, i: int, cat: Category)
    requires
        0 <= i <= lots.len(),
    ensures
        sweep(lots, i, cat, 0) == Some((lots, Seq::<Cost>::empty(), 0int)),
    decreases i,
{
    if i > 0 {
        lemma_sweep_zero(lots, i - 1, cat);
    }
}

proof fn lemma_compact_kept(s: Seq<Cost>)
    requires
        forall|j: int| 0 <= j < s.len() ==> (#[trigger] s[j]).paid_amount@ != 0,
    ensures
        compact(s) == s,
    decreases s.len(),
{
    if s.len() > 0 {
        let p = s.drop_last();
        assert forall|j: int| 0 <= j < p.len() implies (#[trigger] p[j]).paid_amount@ != 0 by {
            assert(p[j] == s[j]);
        }
        lemma_compact_kept(p);
        assert(p.push(s.last()) =~= s);
    }
}

proof fn lemma_total_nonneg(s: Seq<Cost>)
    requires
        all_held(s),
    ensures
        lots_total(s) >= 0,
    decreases s.len(),
{
    if s.len() > 0 {
        assert(all_held(s.drop_last())) by {
            assert forall|j: int| 0 <= j < s.drop_last().len() implies (#[trigger] s.drop_last()[j]).paid_amount@
                >= 0 by {
                assert(s.drop_last()[j] == s[j]);
            }
        }
        lemma_total_nonneg(s.drop_last());
    }
}

/// A buy outside the vault, followed at once by a sell of the same number of
/// units whose income is of the same kind as what the buy gave (and, for a
/// cash buy, with no cash lot outside the vault to merge into): the sell never
/// lacks cost, and when it goes through it takes the new lot whole, which is
/// used up and dropped, so the book is again what it was before the buy.
pub proof fn drain(lots: Seq<Cost>, base: String, buy: Trade, cash_income: bool)
    requires
        forall|j: int| 0 <= j < lots.len() ==> (#[trigger] lots[j]).paid_amount@ > 0,
        buy.paid_amount@ > 0,
        !buy.is_vault,
        (buy.money_for(base@) is Cash) == cash_income,
        cash_income ==> cash_slot(lots, false) is None,
    ensures
        bought(lots, base, buy) matches Ok(s) ==> {
            &&& s == lots.push(s.last())
            &&& s.last().paid_amount@ == buy.paid_amount@
            &&& sold(s, cash_income, -buy.paid_amount@) != Err::<(Seq<Cost>, Seq<Cost>), CostError>(
                CostError::NotEnoughCost,
            )
            &&& sold(s, cash_income, -buy.paid_amount@) matches Ok(p) ==> p.0 == lots && p.1.len() == 1
                && p.1[0].paid_amount@ == buy.paid_amount@
        },
{
    match bought(lots, base, buy) {
        Ok(s) => {
            let n = lots.len() as int;
            let lot = s.last();
            assert(s =~= lots.push(lot));
            assert(all_held(lots));
            lemma_total_nonneg(lots);
            assert(s.drop_last() =~= lots);
            let cats = order(cash_income);
            let cat = cats[0];
            assert(in_category(lot, cat));
            let rem = -buy.paid_amount@;
            assert(step_delta(rem, lot.paid_amount@) == rem);
            match lot.taken(rem) {
                Some(Some(q)) => {
                    let l2 = s.update(n, q.0);
                    lemma_sweep_zero(l2, n, cat);
                    assert(seq![q.1] + Seq::<Cost>::empty() =~= seq![q.1]);
                    assert(sweep(s, n + 1, cat, rem) == Some((l2, seq![q.1], 0int)));
                    assert(l2 =~= lots.push(q.0));
                    assert(l2.drop_last() =~= lots);
                    lemma_compact_kept(lots);
                    assert(compact(l2) == compact(lots));
                    lemma_passes_zero(lots, cats.drop_first());
                    assert(passes(s, cats, rem) == Some((lots, seq![q.1], 0int)));
                },
                _ => {},
            }
        },
        Err(_) => {},
    }
}

/// Two cash buys with the same vault flag merge into one lot holding the sum
/// of both quantities and the sum of both amounts (as rust_decimal adds
/// them), so its unit cost is the weighted average `(a1 + a2) / (q1 + q2)`.
/// Selling `q1` units afterwards, for cash, costs `q1` units at that unit
/// cost, as rust_decimal computes it.
pub proof fn weighted_average(base: String, first: Trade, second: Trade)
    requires
        first.exchanged_currency@ == base@,
        second.exchanged_currency@ == base@,
        first.is_vault == second.is_vault,
        first.paid_amount@ > 0,
        second.paid_amount@ >= 0,
    ensures
        bought(Seq::empty(), base, first) matches Ok(one) ==> (bought(one, base, second) matches Ok(two) ==> {
            let q = first.paid_amount@ + second.paid_amount@;
            let a = rounded_sum(first.exchanged_amount@, second.exchanged_amount@)->Some_0;
            &&& two == seq![
                Cost {
                    paid_amount: Decimal::from_units(q),
                    exchanged: Money::Cash(Cash { currency: base, amount: Decimal::from_units(a) }),
                    is_vault: first.is_vault,
                },
            ]
            &&& sold(two, true, -first.paid_amount@) != Err::<(Seq<Cost>, Seq<Cost>), CostError>(
                CostError::NotEnoughCost,
            )
            &&& sold(two, true, -first.paid_amount@) matches Ok(p) ==> p.1 == seq![
                Cost {
                    paid_amount: Decimal::from_units(first.paid_amount@),
                    exchanged: Money::Cash(
                        Cash {
                            currency: base,
                            amount: Decimal::from_units(share_of(a, q, first.paid_amount@)->Some_0),
                        },
                    ),
                    is_vault: first.is_vault,
                },
            ]
        }),
{
    let e = Seq::<Cost>::empty();
    match bought(e, base, first) {
        Ok(one) => {
            assert(crate::cost_book::cash_slot(e, first.is_vault) is None);
            let lot1 = one[0];
            assert(one =~= seq![lot1]);
            assert(crate::cost_book::is_first_cash(one, second.is_vault, 0));
            assert(crate::cost_book::cash_slot(one, second.is_vault) == Some(0int)) by {
                let w = choose|w: int| crate::cost_book::is_first_cash(one, second.is_vault, w);
                assert(w == 0);
            }
            match bought(one, base, second) {
                Ok(two) => {
                    let lot = two[0];
                    assert(two =~= seq![lot]);
                    assert(two.drop_last() =~= e);
                    let q = first.paid_amount@ + second.paid_amount@;
                    let a = rounded_sum(first.exchanged_amount@, second.exchanged_amount@)->Some_0;
                    assert(lot.paid_amount@ == q);
                    assert(lot.exchanged.value() == a);
                    assert(lots_total(e) == 0);
                    assert(lots_total(two) == lots_total(two.drop_last()) + two.last().paid_amount@);
                    assert(lots_total(two) == q);
                    lemma_in_order(lot, true);
                    lemma_one_lot(lot, order(true), -first.paid_amount@);
                    match lot.taken(-first.paid_amount@) {
                        Some(Some(p)) => {
                            assert(p.1.paid_amount == Decimal::from_units(first.paid_amount@));
                            assert(p.1.exchanged == Money::Cash(
                                Cash {
                                    currency: base,
                                    amount: Decimal::from_units(share_of(a, q, first.paid_amount@)->Some_0),
                                },
                            ));
                        },
                        _ => {},
                    }
                },
                Err(_) => {},
            }
        },
        Err(_) => {},
    }
}

} // verus!
