//! Realized gains and losses on disposals of a fungible asset, by weighted
//! average cost, with vault and non-vault holdings kept apart.
//!
//! A `CostBook` keeps the cost lots of one (asset, base currency) pair. Buys
//! add lots; a sell draws units from the lots in a fixed order of categories
//! and reports what was received against the cost of what was drawn, as a
//! `TaxableTrade`.

pub mod config;
pub mod cost;
pub mod cost_book;
pub mod decimal;
pub mod laws;
pub mod money;
pub mod revolut_row_2022;
pub mod revolut_row_2023;
pub mod sru_file;
pub mod taxable_trade;
pub mod trade;

pub use config::{Cli, Config, ConfigError, SruFileConfig};
pub use cost::{Cost, CostError};
pub use cost_book::{Category, CostBook, Deductor};
pub use decimal::Decimal;
pub use money::{Cash, Coupon, Money};
pub use revolut_row_2022::RevolutRow2022;
pub use revolut_row_2023::RevolutRow2023;
pub use sru_file::{Form, SruFile};
pub use taxable_trade::TaxableTrade;
pub use trade::{Direction, Trade};
