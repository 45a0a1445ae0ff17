use cryptotax::{Cost, CostBook, CostError, Decimal, Direction, Money, TaxableTrade, Trade};

fn dec(mantissa: i128, scale: u32) -> Decimal {
    Decimal::from_parts(mantissa, scale).unwrap()
}

fn trade(direction: Direction, paid: Decimal, exchanged_currency: &str, exchanged: Decimal, date: &str, is_vault: bool) -> Trade {
    Trade {
        direction,
        paid_currency: "DOGE".to_string(),
        paid_amount: paid,
        exchanged_currency: exchanged_currency.to_string(),
        exchanged_amount: exchanged,
        date: date.to_string(),
        is_vault,
    }
}

fn add_buy_case() {
    let mut book = CostBook::new("DOGE".to_string(), "SEK".to_string());

    book.add_buy(&trade(Direction::Buy, dec(3994, 2), "SEK", dec(-20, 0), "2021-11-11 18:03:13", true)).unwrap();
    book.add_buy(&trade(Direction::Buy, dec(2000, 0), "SEK", dec(-508060, 2), "2021-12-31 17:54:48", false)).unwrap();
    book.add_buy(&trade(Direction::Buy, dec(200, 0), "EOS", dec(-500, 0), "2022-02-03 10:30:29", false)).unwrap();
    book.add_buy(&trade(Direction::Buy, dec(303, 1), "EOS", dec(-6235, 2), "2022-02-04 11:01:35", false)).unwrap();

    let mut iter = book.costs.iter();
    assert_eq!(iter.next(), Some(&Cost::new(dec(3994, 2), Money::new_cash("SEK".to_string(), dec(-20, 0)), true)));
    assert_eq!(iter.next(), Some(&Cost::new(dec(2000, 0), Money::new_cash("SEK".to_string(), dec(-50806, 1)), false)));
    assert_eq!(
        iter.next(),
        Some(&Cost::new(dec(200, 0), Money::new_coupon("EOS".to_string(), dec(-500, 0), "2022-02-03 10:30:29".to_string()), false))
    );
    assert_eq!(
        iter.next(),
        Some(&Cost::new(dec(303, 1), Money::new_coupon("EOS".to_string(), dec(-6235, 2), "2022-02-04 11:01:35".to_string()), false))
    );
    assert_eq!(iter.next(), None);
}

fn sell_book() -> CostBook {
    let mut book = CostBook::new("DOGE".to_string(), "SEK".to_string());
    let coupon = Money::new_coupon("EOS".to_string(), dec(-500, 0), "2021-02-03 10:30:29".to_string());
    book.costs.push(Cost::new(dec(200, 0), coupon, false));
    let coupon = Money::new_coupon("BTC".to_string(), dec(-101, 7), "2021-03-04 11:31:30".to_string());
    book.costs.push(Cost::new(dec(1000, 0), coupon, false));
    let cash = Money::new_cash("SEK".to_string(), dec(-21000, 0));
    book.costs.push(Cost::new(dec(10000, 0), cash, false));
    let cash = Money::new_cash("SEK".to_string(), dec(-10, 0));
    book.costs.push(Cost::new(dec(45, 1), cash, true));
    book
}

fn add_sell_case() {
    let mut book = sell_book();

    let t = trade(Direction::Sell, dec(-50, 0), "SEK", dec(20063, 2), "2022-05-05 05:01:12", false);
    let x = book.add_sell(&t).unwrap();
    assert_eq!(
        x,
        TaxableTrade::new(
            Some("2022-05-05 05:01:12".to_string()),
            "DOGE".to_string(),
            dec(-50, 0),
            Money::new_cash("SEK".to_string(), dec(20063, 2)),
            vec![Money::new_cash("SEK".to_string(), dec(-105, 0))],
            Some(dec(9563, 2))
        )
    );

    let t = trade(Direction::Sell, dec(-50, 0), "BTC", dec(201, 7), "2022-07-06 06:02:13", false);
    let x = book.add_sell(&t).unwrap();
    assert_eq!(
        x,
        TaxableTrade::new(
            Some("2022-07-06 06:02:13".to_string()),
            "DOGE".to_string(),
            dec(-50, 0),
            Money::new_coupon("BTC".to_string(), dec(201, 7), "2022-07-06 06:02:13".to_string()),
            vec![Money::new_coupon("BTC".to_string(), dec(-505, 9), "2021-03-04 11:31:30".to_string())],
            None
        )
    );

    let t = trade(Direction::Sell, dec(-1250, 0), "BCH", dec(325, 0), "2022-08-07 07:03:14", false);
    let x = book.add_sell(&t).unwrap();
    assert_eq!(
        x,
        TaxableTrade::new(
            Some("2022-08-07 07:03:14".to_string()),
            "DOGE".to_string(),
            dec(-1250, 0),
            Money::new_coupon("BCH".to_string(), dec(325, 0), "2022-08-07 07:03:14".to_string()),
            vec![
                Money::new_coupon("BTC".to_string(), dec(-9595, 9), "2021-03-04 11:31:30".to_string()),
                Money::new_coupon("EOS".to_string(), dec(-500, 0), "2021-02-03 10:30:29".to_string()),
                Money::new_cash("SEK".to_string(), dec(-210, 0)),
            ],
            None
        )
    );
}

fn deduct_from_cost_case() {
    let cash = Money::new_cash("SEK".to_string(), dec(-16000, 0));
    let mut cost = Cost::new(dec(7500, 0), cash, true);
    let deducted = cost.maybe_deduct(dec(-500, 0));
    assert_eq!(
        deducted,
        Ok(Some(Cost::new(dec(500, 0), Money::new_cash("SEK".to_string(), dec(-10666666666666666666666666666, 25)), true)))
    );

    let coupon = Money::new_coupon("EOS".to_string(), dec(-500, 0), "2021-02-03 10:30:29".to_string());
    let mut cost = Cost::new(dec(200, 0), coupon, false);
    let deducted = cost.maybe_deduct(dec(-50, 0));
    assert_eq!(
        deducted,
        Ok(Some(Cost::new(dec(50, 0), Money::new_coupon("EOS".to_string(), dec(-125, 0), "2021-02-03 10:30:29".to_string()), false)))
    );
}

#[test]
fn cost_book_should_add_buy() {
    add_buy_case();
}

#[test]
fn cost_book_should_add_sell() {
    add_sell_case();
}

#[test]
fn cost_book_should_deduct_from_cost() {
    deduct_from_cost_case();
}

#[test]
fn calculator_should_add_buy() {
    add_buy_case();
}

#[test]
fn calculator_should_add_sell() {
    add_sell_case();
}

#[test]
fn calculator_should_deduct_from_cost() {
    deduct_from_cost_case();
}
