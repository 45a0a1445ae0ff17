use cryptotax::config::ConfigError;
use cryptotax::revolut_row_2023::{Product, State, Type};
use cryptotax::taxable_trade::SumError;
use cryptotax::{
    Cli, Cost, CostBook, CostError, Decimal, Direction, Money, RevolutRow2023, SruFile, TaxableTrade, Trade,
};

fn dec(mantissa: i128, scale: u32) -> Decimal {
    Decimal::from_parts(mantissa, scale).unwrap()
}

fn trade(direction: Direction, paid: Decimal, exchanged_currency: &str, exchanged: Decimal, date: &str, is_vault: bool) -> Trade {
    Trade {
        direction,
        paid_currency: "DOGE".to_string(),
        paid_amount: paid,
        exchanged_currency: exchanged_currency.to_string(),
        exchanged_amount: exchanged,
        date: date.to_string(),
        is_vault,
    }
}

fn total(values: impl Iterator<Item = Decimal>) -> Decimal {
    values.fold(dec(0, 0), |acc, d| acc.checked_add(&d).unwrap())
}

fn lots_total(book: &CostBook) -> Decimal {
    total(book.costs.iter().map(|c| c.paid_amount))
}

/// The book of the reference data: a vault cash lot, a cash lot and two
/// coupon lots of asset X.
fn reference_book() -> CostBook {
    let mut book = CostBook::new("DOGE".to_string(), "SEK".to_string());
    book.add_buy(&trade(Direction::Buy, dec(3994, 2), "SEK", dec(-20, 0), "d0", true)).unwrap();
    book.add_buy(&trade(Direction::Buy, dec(2000, 0), "SEK", dec(-508060, 2), "d0", false)).unwrap();
    book.add_buy(&trade(Direction::Buy, dec(200, 0), "X", dec(-500, 0), "d1", false)).unwrap();
    book.add_buy(&trade(Direction::Buy, dec(303, 1), "X", dec(-6235, 2), "d2", false)).unwrap();
    book
}

#[test]
fn decimal_parts_round_trip() {
    let d = dec(-508060, 2);
    assert_eq!(d, dec(-50806, 1));
    assert_eq!(d.repr(), Some((-50806, 1)));
    assert_eq!(Decimal::from_parts(1, 29), None);
    // beyond rust_decimal, but still a `Decimal`; it has no rust_decimal form
    assert_eq!(Decimal::from_parts(i128::MAX, 0).unwrap().repr(), None);
    assert_eq!(dec(0, 0).repr(), Some((0, 0)));
}

#[test]
fn share_is_quotient_times_quantity() {
    let s = Decimal::share(&dec(-16000, 0), &dec(7500, 0), &dec(500, 0)).unwrap();
    assert_eq!(s, dec(-10666666666666666666666666666, 25));
    let s = Decimal::share(&dec(-21000, 0), &dec(10000, 0), &dec(50, 0)).unwrap();
    assert_eq!(s, dec(-105, 0));
    assert_eq!(Decimal::share(&dec(1, 0), &dec(0, 0), &dec(1, 0)), None);
}

#[test]
fn replay_conserves_units() {
    let trades = vec![
        trade(Direction::Buy, dec(100, 0), "SEK", dec(-200, 0), "d1", false),
        trade(Direction::Buy, dec(50, 0), "SEK", dec(-150, 0), "d2", true),
        trade(Direction::Sell, dec(-30, 0), "SEK", dec(90, 0), "d3", false),
        trade(Direction::Buy, dec(5, 0), "EOS", dec(-1, 0), "d4", false),
        trade(Direction::Sell, dec(-100, 0), "SEK", dec(400, 0), "d5", false),
    ];
    let mut book = CostBook::new("DOGE".to_string(), "SEK".to_string());
    let tts = book.replay(&trades).unwrap();
    // only the trades against SEK belong to this book
    assert_eq!(tts.len(), 2);
    let bought = dec(150, 0);
    let sold = total(tts.iter().map(|t| t.amount));
    assert_eq!(lots_total(&book), bought.checked_add(&sold).unwrap());
    assert_eq!(lots_total(&book), dec(20, 0));
}

#[test]
fn merged_cash_lot_costs_its_weighted_average() {
    let mut book = CostBook::new("DOGE".to_string(), "SEK".to_string());
    book.add_buy(&trade(Direction::Buy, dec(10, 0), "SEK", dec(-100, 0), "d1", false)).unwrap();
    book.add_buy(&trade(Direction::Buy, dec(30, 0), "SEK", dec(-500, 0), "d2", false)).unwrap();
    assert_eq!(book.costs, vec![Cost::new(dec(40, 0), Money::new_cash("SEK".to_string(), dec(-600, 0)), false)]);
    let t = book.add_sell(&trade(Direction::Sell, dec(-10, 0), "SEK", dec(200, 0), "d3", false)).unwrap();
    // unit cost (10 * 10 + 30 * 16.666...) / 40 = 15
    assert_eq!(t.costs, vec![Money::new_cash("SEK".to_string(), dec(-150, 0))]);
    assert_eq!(t.net_income, Some(dec(50, 0)));
}

#[test]
fn vault_lot_is_left_while_others_suffice() {
    let mut book = CostBook::new("DOGE".to_string(), "SEK".to_string());
    book.add_buy(&trade(Direction::Buy, dec(100, 0), "SEK", dec(-300, 0), "d1", true)).unwrap();
    book.add_buy(&trade(Direction::Buy, dec(100, 0), "SEK", dec(-200, 0), "d2", false)).unwrap();
    let t = book.add_sell(&trade(Direction::Sell, dec(-50, 0), "SEK", dec(150, 0), "d3", false)).unwrap();
    assert_eq!(t.costs, vec![Money::new_cash("SEK".to_string(), dec(-100, 0))]);
    assert_eq!(book.costs[0], Cost::new(dec(100, 0), Money::new_cash("SEK".to_string(), dec(-300, 0)), true));
    assert_eq!(book.costs[1].paid_amount, dec(50, 0));
}

#[test]
fn cash_sell_prefers_cash_lots() {
    let mut book = CostBook::new("DOGE".to_string(), "SEK".to_string());
    book.add_buy(&trade(Direction::Buy, dec(100, 0), "SEK", dec(-200, 0), "d1", false)).unwrap();
    book.add_buy(&trade(Direction::Buy, dec(100, 0), "EOS", dec(-50, 0), "d2", false)).unwrap();
    let t = book.add_sell(&trade(Direction::Sell, dec(-50, 0), "SEK", dec(150, 0), "d3", false)).unwrap();
    assert_eq!(t.costs, vec![Money::new_cash("SEK".to_string(), dec(-100, 0))]);
    assert_eq!(t.net_income, Some(dec(50, 0)));
    assert_eq!(book.costs[1], Cost::new(dec(100, 0), Money::new_coupon("EOS".to_string(), dec(-50, 0), "d2".to_string()), false));
}

#[test]
fn shortfall_is_refused_and_book_kept() {
    let mut book = CostBook::new("DOGE".to_string(), "SEK".to_string());
    book.add_buy(&trade(Direction::Buy, dec(100, 0), "SEK", dec(-200, 0), "d1", false)).unwrap();
    book.add_buy(&trade(Direction::Buy, dec(20, 0), "EOS", dec(-5, 0), "d2", true)).unwrap();
    let r = book.add_sell(&trade(Direction::Sell, dec(-121, 0), "SEK", dec(150, 0), "d3", false));
    assert_eq!(r, Err(CostError::NotEnoughCost));
    assert_eq!(book.costs.len(), 2);
    assert_eq!(book.costs[0].paid_amount, dec(100, 0));
    assert_eq!(book.costs[1].paid_amount, dec(20, 0));
    // exactly what is held is enough
    let t = book.add_sell(&trade(Direction::Sell, dec(-120, 0), "SEK", dec(150, 0), "d3", false)).unwrap();
    assert_eq!(t.costs.len(), 2);
    assert!(book.costs.is_empty());
}

#[test]
fn reference_cash_sell() {
    let mut book = reference_book();
    let t = book.add_sell(&trade(Direction::Sell, dec(-50, 0), "SEK", dec(20063, 2), "d3", false)).unwrap();
    assert_eq!(t.income, Money::new_cash("SEK".to_string(), dec(20063, 2)));
    // 50 units of the non-vault cash lot: 5080.60 / 2000 * 50
    assert_eq!(t.costs, vec![Money::new_cash("SEK".to_string(), dec(-127015, 3))]);
    assert_eq!(t.net_income, Some(dec(73615, 3)));
}

#[test]
fn reference_coupon_sell() {
    let mut book = reference_book();
    let t = book.add_sell(&trade(Direction::Sell, dec(-50, 0), "Y", dec(201, 7), "d3", false)).unwrap();
    assert_eq!(t.income, Money::new_coupon("Y".to_string(), dec(201, 7), "d3".to_string()));
    // the coupon lots first, the latest first: all of d2, then 19.7 of d1;
    // 62.35 / 30.3 is rounded to 28 digits, so the whole lot costs a little more
    assert_eq!(
        t.costs,
        vec![
            Money::new_coupon("X".to_string(), dec(-62350000000000000000000000001, 27), "d2".to_string()),
            Money::new_coupon("X".to_string(), dec(-4925, 2), "d1".to_string()),
        ]
    );
    assert_eq!(t.net_income, None);
    assert_eq!(book.costs.len(), 3);
}

#[test]
fn buy_then_sell_of_same_quantity_empties_book() {
    let mut book = CostBook::new("DOGE".to_string(), "SEK".to_string());
    book.add_buy(&trade(Direction::Buy, dec(7, 1), "EOS", dec(-3, 0), "d1", false)).unwrap();
    let t = book.add_sell(&trade(Direction::Sell, dec(-7, 1), "SEK", dec(5, 0), "d2", false)).unwrap();
    assert_eq!(t.costs, vec![Money::new_coupon("EOS".to_string(), dec(-3, 0), "d1".to_string())]);
    assert!(book.costs.is_empty());
}

#[test]
fn overflowing_values_are_reported() {
    let mut book = CostBook::new("DOGE".to_string(), "SEK".to_string());
    // 10^10 / 10^-28 is beyond what rust_decimal holds
    book.costs.push(Cost::new(dec(1, 28), Money::new_cash("SEK".to_string(), dec(-10_000_000_000, 0)), false));
    let r = book.add_sell(&trade(Direction::Sell, dec(-1, 28), "SEK", dec(1, 0), "d1", false));
    assert_eq!(r, Err(CostError::Overflow));

    let mut book = CostBook::new("DOGE".to_string(), "SEK".to_string());
    // rust_decimal's largest value, 2^96 - 1: the cost of a third such buy
    // no longer fits in it
    let largest = dec(79228162514264337593543950335, 0);
    book.add_buy(&trade(Direction::Buy, dec(1, 0), "SEK", largest.neg(), "d1", false)).unwrap();
    let r = book.add_buy(&trade(Direction::Buy, dec(1, 0), "SEK", largest.neg(), "d2", false));
    assert_eq!(r, Err(CostError::Overflow));
    assert_eq!(book.costs.len(), 1);
    assert_eq!(book.costs[0].paid_amount, dec(1, 0));
}

#[test]
fn net_income_needs_all_cash() {
    let income = Money::new_cash("SEK".to_string(), dec(10, 0));
    assert_eq!(income.to_net_income(&vec![Money::new_cash("SEK".to_string(), dec(-4, 0))]), Some(dec(6, 0)));
    assert_eq!(income.to_net_income(&vec![]), Some(dec(10, 0)));
    let coupon = Money::new_coupon("EOS".to_string(), dec(-4, 0), "d".to_string());
    assert_eq!(income.to_net_income(&vec![coupon.clone()]), None);
    let coupon_income = Money::new_coupon("EOS".to_string(), dec(10, 0), "d".to_string());
    assert_eq!(coupon_income.to_net_income(&vec![Money::new_cash("SEK".to_string(), dec(-4, 0))]), None);
}

#[test]
fn deduct_takes_slice_of_same_kind() {
    let mut m = Money::new_coupon("EOS".to_string(), dec(-10, 0), "d".to_string());
    let slice = m.deduct(dec(-4, 0)).unwrap();
    assert_eq!(slice, Money::new_coupon("EOS".to_string(), dec(-4, 0), "d".to_string()));
    assert_eq!(m, Money::new_coupon("EOS".to_string(), dec(-6, 0), "d".to_string()));
}

fn sale(currency: &str, amount: i128, income: i128, cost: i128) -> TaxableTrade {
    TaxableTrade::new(
        Some("d".to_string()),
        currency.to_string(),
        dec(amount, 0),
        Money::new_cash("SEK".to_string(), dec(income, 0)),
        vec![Money::new_cash("SEK".to_string(), dec(cost, 0))],
        Some(dec(income + cost, 0)),
    )
}

#[test]
fn sums_by_currency_in_order_of_appearance() {
    let tts = vec![sale("EOS", -1, 10, -4), sale("BTC", -2, 20, -30), sale("EOS", -3, 5, -1)];
    let rows = TaxableTrade::try_sum_cash_amount_by_currency(&tts).unwrap();
    assert_eq!(rows.len(), 2);
    assert_eq!(rows[0].currency, "EOS");
    assert_eq!(rows[0].date, None);
    assert_eq!(rows[0].amount, dec(-4, 0));
    assert_eq!(rows[0].income, Money::new_cash("UNKNOWN".to_string(), dec(15, 0)));
    assert_eq!(rows[0].costs, vec![Money::new_cash("UNKNOWN".to_string(), dec(-5, 0))]);
    assert_eq!(rows[0].net_income, Some(dec(10, 0)));
    assert_eq!(rows[1].currency, "BTC");
    assert_eq!(rows[1].net_income, Some(dec(-10, 0)));
    assert_eq!(rows[1].sum_cash_amount(), Some(dec(-30, 0)));

    let mut mixed = tts;
    mixed[1].costs.push(Money::new_coupon("EOS".to_string(), dec(-1, 0), "d".to_string()));
    assert_eq!(mixed[1].sum_cash_amount(), None);
    assert_eq!(TaxableTrade::try_sum_cash_amount_by_currency(&mixed), Err(SumError::NotAllCash));
}

#[test]
fn each_pair_gets_its_own_book() {
    let trades = vec![
        trade(Direction::Buy, dec(10, 0), "SEK", dec(-100, 0), "d1", false),
        trade(Direction::Buy, dec(10, 0), "EUR", dec(-10, 0), "d2", false),
        trade(Direction::Sell, dec(-5, 0), "EUR", dec(8, 0), "d3", false),
        trade(Direction::Sell, dec(-5, 0), "SEK", dec(60, 0), "d4", false),
    ];
    let tts = TaxableTrade::taxable_trades_all_currencies(&trades).unwrap();
    assert_eq!(tts.len(), 2);
    assert_eq!(tts[0].costs, vec![Money::new_cash("SEK".to_string(), dec(-50, 0))]);
    assert_eq!(tts[0].net_income, Some(dec(10, 0)));
    assert_eq!(tts[1].costs, vec![Money::new_cash("EUR".to_string(), dec(-5, 0))]);
    assert_eq!(tts[1].net_income, Some(dec(3, 0)));

    let short = vec![trade(Direction::Sell, dec(-5, 0), "SEK", dec(60, 0), "d4", false)];
    assert_eq!(TaxableTrade::taxable_trades_all_currencies(&short), Err(CostError::NotEnoughCost));
}

fn cli(sru_file: bool, org: Option<&str>) -> Cli {
    Cli {
        path: "transactions.csv".to_string(),
        currency: None,
        base_currency: Some("EUR".to_string()),
        print_exchanges_only: false,
        print_trades: true,
        sru_file,
        sru_org_num: org.map(|s| s.to_string()),
        sru_org_name: None,
        sru_sum: true,
        year_traded: Some(2022),
        csv_version: None,
    }
}

#[test]
fn flags_become_config() {
    let c = cli(true, Some("195001011234")).to_config().ok().unwrap();
    assert_eq!(c.currency, "ALL");
    assert_eq!(c.base_currency, "EUR");
    assert_eq!(c.csv_version, 2023);
    assert!(c.sum);
    assert!(c.print_trades);
    assert_eq!(c.year_traded, Some(2022));
    assert_eq!(c.sru_file_config.unwrap().sru_org_num, "195001011234");
    assert!(cli(false, None).to_config().ok().unwrap().sru_file_config.is_none());
    assert!(matches!(cli(true, None).to_config(), Err(ConfigError::MissingSruOrgNum)));
}

fn row2023(product: Product, kind: Type, date: &str, amount: Decimal, fiat_inc_fees: Decimal) -> RevolutRow2023 {
    RevolutRow2023 {
        kind,
        product,
        started_date: date.to_string(),
        completed_date: Some(date.to_string()),
        description: String::new(),
        amount,
        currency: "EOS".to_string(),
        fiat_amount: fiat_inc_fees,
        fiat_amount_inc_fees: fiat_inc_fees,
        fee: dec(0, 0),
        base_currency: "SEK".to_string(),
        state: State::Completed,
        balance: None,
    }
}

fn statement_2023() -> Vec<RevolutRow2023> {
    vec![
        row2023(Product::Current, Type::Exchange, "2023-01-01 10:00:00", dec(30, 0), dec(60915, 2)),
        row2023(Product::Current, Type::Exchange, "2023-01-02 10:00:00", dec(-30, 0), dec(-39486, 2)),
        row2023(Product::Current, Type::Exchange, "2023-02-01 12:00:00", dec(50, 0), dec(100965, 2)),
        row2023(Product::Current, Type::Transfer, "2023-02-08 10:00:00", dec(-10, 0), dec(-200, 0)),
        row2023(Product::Savings, Type::Transfer, "2023-02-08 10:00:00", dec(10, 0), dec(200, 0)),
        row2023(Product::Savings, Type::Exchange, "2023-03-01 14:00:00", dec(20, 0), dec(40457, 2)),
        row2023(Product::Savings, Type::Exchange, "2023-03-02 14:00:00", dec(40, 0), dec(80915, 2)),
        row2023(Product::Savings, Type::Exchange, "2023-03-03 14:00:00", dec(60, 0), dec(121373, 2)),
        row2023(Product::Savings, Type::Exchange, "2023-03-04 14:00:00", dec(80, 0), dec(161831, 2)),
        row2023(Product::Current, Type::Transfer, "2023-04-04 10:00:00", dec(100, 0), dec(2000, 0)),
        row2023(Product::Savings, Type::Transfer, "2023-04-04 10:00:00", dec(-100, 0), dec(-2000, 0)),
        row2023(Product::Current, Type::Exchange, "2023-04-04 11:00:00", dec(-50, 0), dec(-59486, 2)),
        row2023(Product::Current, Type::CardPayment, "2023-05-06 10:00:00", dec(-25, 0), dec(-49575, 2)),
    ]
}

#[test]
fn statement_2023_gives_taxable_trades() {
    let trades = RevolutRow2023::rows_to_trades(&statement_2023()).unwrap();
    assert_eq!(trades.len(), 9);
    assert_eq!(
        trades[0],
        Trade {
            direction: Direction::Buy,
            paid_currency: "EOS".to_string(),
            paid_amount: dec(30, 0),
            exchanged_currency: "SEK".to_string(),
            exchanged_amount: dec(-60915, 2),
            date: "2023-01-01 10:00:00".to_string(),
            is_vault: false,
        }
    );
    assert!(trades[3].is_vault);
    let tts = TaxableTrade::taxable_trades(&trades, &"EOS".to_string(), &"SEK".to_string()).unwrap();
    assert_eq!(tts.len(), 3);
    assert_eq!(tts[0].costs, vec![Money::new_cash("SEK".to_string(), dec(-60915, 2))]);
    assert_eq!(tts[0].net_income, Some(dec(-21429, 2)));
    assert_eq!(tts[1].costs, vec![Money::new_cash("SEK".to_string(), dec(-100965, 2))]);
    assert_eq!(tts[1].net_income, Some(dec(-41479, 2)));
    assert_eq!(tts[2].costs, vec![Money::new_cash("SEK".to_string(), dec(-50572, 2))]);
    assert_eq!(tts[2].net_income, Some(dec(-997, 2)));
}

#[test]
fn should_write_sru_file() {
    let trades = RevolutRow2023::rows_to_trades(&statement_2023()).unwrap();
    let tts = TaxableTrade::taxable_trades(&trades, &"EOS".to_string(), &"SEK".to_string()).unwrap();
    let tts = TaxableTrade::try_sum_cash_amount_by_currency(&tts).unwrap();
    let sru_file = SruFile::try_new(&tts, &"195001011234".to_string(), &None, 2022).unwrap();
    let output = sru_file.write(&"20230115".to_string(), &"101112".to_string());

    assert!(output.starts_with("#BLANKETT K4-2022P4\n"));
    assert!(output.contains("#IDENTITET 195001011234 "));
    assert!(output.contains("#UPPGIFT 7014 1"));
    assert!(output.contains("#UPPGIFT 3410 105\n"));
    assert!(output.contains("#UPPGIFT 3411 EOS\n"));
    assert!(output.contains("#UPPGIFT 3412 1485\n"));
    assert!(output.contains("#UPPGIFT 3413 2125\n"));
    assert!(output.contains("#UPPGIFT 3415 639\n"));
    assert!(output.ends_with("#BLANKETTSLUT\n#FIL_SLUT\n"));
}

#[test]
fn sru_forms_hold_seven_trades_each() {
    let tts: Vec<TaxableTrade> = (0..8).map(|k| sale("EOS", -1, 3 + k, -2)).collect();
    let sru_file = SruFile::try_new(&tts, &"1".to_string(), &Some("Ann".to_string()), 2023).unwrap();
    assert_eq!(sru_file.forms.len(), 2);
    assert_eq!(sru_file.forms[0].information_groups.len(), 7);
    assert_eq!(sru_file.forms[1].information_groups.len(), 1);
    let out = sru_file.write(&"20240101".to_string(), &"000000".to_string());
    assert!(out.contains("#NAMN Ann\n#UPPGIFT 7014 2\n#UPPGIFT 3410 1\n"));
    // a gain goes under code 4, rounded half to even: 2.5 -> 2
    let half = TaxableTrade::new(
        None,
        "EOS".to_string(),
        dec(-25, 1),
        Money::new_cash("SEK".to_string(), dec(45, 1)),
        vec![Money::new_cash("SEK".to_string(), dec(-2, 0))],
        Some(dec(25, 1)),
    );
    let out = SruFile::try_new(&vec![half], &"1".to_string(), &None, 2023).unwrap().write(&"d".to_string(), &"t".to_string());
    assert!(out.contains("#UPPGIFT 3410 2\n"));
    assert!(out.contains("#UPPGIFT 3412 4\n"));
    assert!(out.contains("#UPPGIFT 3414 2\n"));
    let up = TaxableTrade::new(
        None,
        "EOS".to_string(),
        dec(-35, 1),
        Money::new_cash("SEK".to_string(), dec(-1050, 0)),
        vec![Money::new_cash("SEK".to_string(), dec(-2, 0))],
        Some(dec(-1052, 0)),
    );
    let out = SruFile::try_new(&vec![up], &"1".to_string(), &None, 2023).unwrap().write(&"d".to_string(), &"t".to_string());
    // 3.5 -> 4; a loss goes under code 5, without its sign
    assert!(out.contains("#UPPGIFT 3410 4\n"));
    assert!(out.contains("#UPPGIFT 3412 1050\n"));
    assert!(out.contains("#UPPGIFT 3415 1052\n"));
    let coupon = TaxableTrade::new(None, "EOS".to_string(), dec(-1, 0), Money::new_cash("SEK".to_string(), dec(1, 0)), vec![], None);
    assert!(SruFile::try_new(&vec![coupon], &"1".to_string(), &None, 2023).is_none());
}

#[test]
fn partly_sold_lot_can_be_sold_from_again() {
    let cash = Money::new_cash("SEK".to_string(), dec(-16000, 0));
    let mut cost = Cost::new(dec(7500, 0), cash, true);
    let first = cost.maybe_deduct(dec(-500, 0)).unwrap().unwrap();
    assert_eq!(first.exchanged, Money::new_cash("SEK".to_string(), dec(-10666666666666666666666666666, 25)));
    // what is left is rounded as rust_decimal rounds 16000 - 1066.66...
    assert_eq!(cost.exchanged, Money::new_cash("SEK".to_string(), dec(-14933333333333333333333333333, 24)));
    let second = cost.maybe_deduct(dec(-1, 0));
    assert!(matches!(second, Ok(Some(_))));
    assert_eq!(cost.paid_amount, dec(6999, 0));

    let mut book = CostBook::new("DOGE".to_string(), "SEK".to_string());
    book.add_buy(&trade(Direction::Buy, dec(3000, 0), "SEK", dec(-70000, 0), "d1", false)).unwrap();
    book.add_sell(&trade(Direction::Sell, dec(-1, 0), "SEK", dec(30, 0), "d2", false)).unwrap();
    let t = book.add_sell(&trade(Direction::Sell, dec(-1, 0), "SEK", dec(30, 0), "d3", false)).unwrap();
    assert_eq!(t.costs.len(), 1);
    assert_eq!(book.costs[0].paid_amount, dec(2998, 0));
}

#[test]
fn statement_rows_are_ordered_by_completion() {
    let mut rows = statement_2023();
    rows.reverse();
    rows.swap(0, 5);
    let mut missing = row2023(Product::Current, Type::Topup, "2023-06-01 10:00:00", dec(1, 0), dec(1, 0));
    missing.completed_date = None;
    rows.push(missing);
    let sorted = RevolutRow2023::sort_by_completion(rows);
    assert_eq!(sorted.len(), 14);
    assert_eq!(sorted[0].completed_date, None);
    for w in sorted.windows(2) {
        assert!(w[0].completed_date <= w[1].completed_date);
    }
    assert!(cryptotax::revolut_row_2023::text_le_exec("2023-01-02", "2023-01-10"));
    assert!(!cryptotax::revolut_row_2023::text_le_exec("2023-01-10", "2023-01-02"));
    assert!(cryptotax::revolut_row_2023::text_le_exec("2023", "2023-01"));
}

#[test]
fn buy_then_equal_sell_leaves_other_lots_as_they_were() {
    let mut book = reference_book();
    // the reference book has a cash lot outside the vault, so take a coupon
    let before = book.costs.clone();
    book.add_buy(&trade(Direction::Buy, dec(8, 0), "Z", dec(-2, 0), "d9", false)).unwrap();
    let t = book.add_sell(&trade(Direction::Sell, dec(-8, 0), "Y", dec(1, 0), "d10", false)).unwrap();
    assert_eq!(t.costs, vec![Money::new_coupon("Z".to_string(), dec(-2, 0), "d9".to_string())]);
    assert_eq!(t.net_income, None);
    assert_eq!(book.costs, before);

    let mut book = CostBook::new("DOGE".to_string(), "SEK".to_string());
    book.add_buy(&trade(Direction::Buy, dec(5, 0), "SEK", dec(-9, 0), "d1", true)).unwrap();
    book.add_buy(&trade(Direction::Buy, dec(3, 0), "EOS", dec(-2, 0), "d2", false)).unwrap();
    let before = book.costs.clone();
    book.add_buy(&trade(Direction::Buy, dec(4, 0), "SEK", dec(-22, 0), "d3", false)).unwrap();
    let t = book.add_sell(&trade(Direction::Sell, dec(-4, 0), "SEK", dec(30, 0), "d4", false)).unwrap();
    assert_eq!(t.costs, vec![Money::new_cash("SEK".to_string(), dec(-22, 0))]);
    assert_eq!(t.net_income, Some(dec(8, 0)));
    assert_eq!(book.costs, before);
}

#[test]
fn large_holdings_are_kept() {
    // 2 * 10^10 units of a cheap token, and rust_decimal's whole range
    let many = dec(20_000_000_000, 0);
    assert_eq!(many.repr(), Some((20_000_000_000, 0)));
    let largest = dec(79228162514264337593543950335, 0);
    assert_eq!(largest.repr(), Some((79228162514264337593543950335, 0)));
    assert_eq!(dec(-1, 28).repr(), Some((-1, 28)));
    assert!(Decimal::from_parts(i128::MAX, 0).is_some());

    let mut book = CostBook::new("SHIB".to_string(), "SEK".to_string());
    let mut buy = trade(Direction::Buy, many, "SEK", dec(-4000, 0), "d1", false);
    buy.paid_currency = "SHIB".to_string();
    book.add_buy(&buy).unwrap();
    let mut sell = trade(Direction::Sell, dec(-5_000_000_000, 0), "SEK", dec(1500, 0), "d2", false);
    sell.paid_currency = "SHIB".to_string();
    let t = book.add_sell(&sell).unwrap();
    assert_eq!(t.costs, vec![Money::new_cash("SEK".to_string(), dec(-1000, 0))]);
    assert_eq!(t.net_income, Some(dec(500, 0)));
    assert_eq!(book.costs[0].paid_amount, dec(15_000_000_000, 0));
}
