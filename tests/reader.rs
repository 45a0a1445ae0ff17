use cryptotax::revolut_row_2022::{State, Type};
use cryptotax::{Decimal, Direction, RevolutRow2022, Trade};

fn dec(mantissa: i128, scale: u32) -> Decimal {
    Decimal::from_parts(mantissa, scale).unwrap()
}

fn row(
    kind: Type,
    date: &str,
    description: &str,
    amount: Decimal,
    fee: Decimal,
    currency: &str,
    original_amount: Decimal,
    original_currency: &str,
    settled: Option<(Decimal, &str)>,
    balance: Decimal,
) -> RevolutRow2022 {
    RevolutRow2022 {
        kind,
        started_date: date.to_string(),
        completed_date: Some(date.to_string()),
        description: description.to_string(),
        amount,
        fee,
        currency: currency.to_string(),
        original_amount,
        original_currency: original_currency.to_string(),
        settled_amount: settled.map(|s| s.0),
        settled_currency: settled.map(|s| s.1.to_string()),
        state: State::Completed,
        balance: Some(balance),
    }
}

fn trade(direction: Direction, paid: Decimal, exchanged_currency: &str, exchanged: Decimal, date: &str, is_vault: bool) -> Trade {
    Trade {
        direction,
        paid_currency: "DOGE".to_string(),
        paid_amount: paid,
        exchanged_currency: exchanged_currency.to_string(),
        exchanged_amount: exchanged,
        date: date.to_string(),
        is_vault,
    }
}

fn parse_trades_from_rows_case() {
    let rows = vec![
        row(Type::CardPayment, "2022-04-02 17:22:50", "Klarna", dec(-12345678901, 8), dec(0, 8), "DOGE", dec(-32123456789, 8), "SEK", Some((dec(32123456789, 8), "SEK")), dec(9876123345, 6)),
        row(Type::Exchange, "2022-03-01 16:21:49", "Exchanged to EOS", dec(-90090603463, 8), dec(-2036495977, 8), "DOGE", dec(-90090603463, 8), "DOGE", None, dec(10787290056, 7)),
        row(Type::Exchange, "2022-03-01 16:21:49", "Exchanged from DOGE", dec(50, 0), dec(0, 0), "EOS", dec(50, 0), "EOS", None, dec(50, 0)),
        row(Type::Exchange, "2021-12-31 17:54:48", "Exchanged to DOGE", dec(-500045, 2), dec(-8015, 2), "SEK", dec(-500045, 2), "SEK", None, dec(70027, 2)),
        row(Type::Exchange, "2021-12-31 17:54:48", "Exchanged from SEK", dec(2000, 0), dec(0, 0), "DOGE", dec(2000, 0), "DOGE", None, dec(2000, 0)),
        row(Type::Exchange, "2021-11-11 18:03:13", "Exchanged to DOGE DOGE Vault", dec(-20, 0), dec(0, 0), "SEK", dec(-20, 0), "SEK", None, dec(500, 0)),
        row(Type::Exchange, "2021-11-11 18:03:13", "Exchanged from SEK", dec(40, 0), dec(-6, 2), "DOGE", dec(40, 0), "DOGE", None, dec(13994, 2)),
        row(Type::Exchange, "2021-11-10 17:03:13", "Exchanged to DOGE DOGE Vault", dec(-300, 0), dec(0, 0), "SEK", dec(-300, 0), "SEK", None, dec(0, 0)),
        row(Type::Exchange, "2021-11-10 17:03:13", "", dec(3, 0), dec(-6, 2), "DOGE", dec(3, 0), "DOGE", None, dec(200, 0)),
    ];

    let trades = RevolutRow2022::rows_to_trades(&rows, &"DOGE".to_string()).unwrap();

    let mut iter = trades.into_iter();
    assert_eq!(iter.next(), Some(trade(Direction::Buy, dec(294, 2), "SEK", dec(-300, 0), "2021-11-10 17:03:13", true)));
    assert_eq!(iter.next(), Some(trade(Direction::Buy, dec(3994, 2), "SEK", dec(-20, 0), "2021-11-11 18:03:13", true)));
    assert_eq!(iter.next(), Some(trade(Direction::Buy, dec(2000, 0), "SEK", dec(-508060, 2), "2021-12-31 17:54:48", false)));
    assert_eq!(iter.next(), Some(trade(Direction::Sell, dec(-92127099440, 8), "EOS", dec(50, 0), "2022-03-01 16:21:49", false)));
    assert_eq!(iter.next(), Some(trade(Direction::Sell, dec(-12345678901, 8), "SEK", dec(32123456789, 8), "2022-04-02 17:22:50", false)));
    assert_eq!(iter.next(), None);
}

#[test]
fn revolut_row_2022_should_parse_trades_from_rows() {
    parse_trades_from_rows_case();
}

#[test]
fn reader_should_parse_trades_from_rows() {
    parse_trades_from_rows_case();
}

#[test]
fn exchange_rows_are_picked_by_currency() {
    let r = row(Type::Exchange, "2022-03-01 16:21:49", "Exchanged from DOGE", dec(50, 0), dec(0, 0), "EOS", dec(50, 0), "EOS", None, dec(50, 0));
    assert!(r.is_exchange_in(&"DOGE".to_string()));
    assert!(r.is_exchange_in(&"EOS".to_string()));
    assert!(!r.is_exchange_in(&"BTC".to_string()));
    let card = row(Type::CardPayment, "2022-04-02 17:22:50", "Klarna", dec(-1, 0), dec(0, 0), "DOGE", dec(-3, 0), "SEK", None, dec(0, 0));
    assert!(card.is_exchange_in(&"DOGE".to_string()));
    assert!(!card.is_exchange_in(&"SEK".to_string()));
}
