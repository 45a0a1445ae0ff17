//! The settings of a run, and how command-line flags become them.
use vstd::prelude::*;

verus! {

/// What a run does and with which input.
pub struct Config {
    pub path: String,
    pub currency: String,
    pub base_currency: String,
    pub print_exchanges_only: bool,
    pub print_trades: bool,
    pub sru_file_config: Option<SruFileConfig>,
    pub year_traded: Option<u16>,
    pub sum: bool,
    pub csv_version: u16,
}

/// Who an SRU file is made out to.
pub struct SruFileConfig {
    pub sru_org_num: String,
    pub sru_org_name: Option<String>,
}

/// The command-line flags, as given.
pub struct Cli {
    pub path: String,
    pub currency: Option<String>,
    pub base_currency: Option<String>,
    pub print_exchanges_only: bool,
    pub print_trades: bool,
    pub sru_file: bool,
    pub sru_org_num: Option<String>,
    pub sru_org_name: Option<String>,
    pub sru_sum: bool,
    pub year_traded: Option<u16>,
    pub csv_version: Option<u16>,
}

#[derive(Clone, Copy, Debug, PartialEq, Eq, Structural)]
pub enum ConfigError {
    /// An SRU file was asked for without the number it is made out to.
    MissingSruOrgNum,
}

/// The CSV layout read when none is named.
pub const DEFAULT_CSV_VERSION: u16 = 2023;

pub open spec fn or_default(v: Option<String>, d: Seq<char>) -> Seq<char> {
    match v {
        Some(s) => s@,
        None => d,
    }
}

fn text_or(v: Option<String>, d: &str) -> (r: String)
    ensures
        r@ == or_default(v, d@),
{
    match v {
        Some(s) => s,
        None => String::from_str(d),
    }
}

impl Cli {
    /// The settings these flags ask for: every currency (`ALL`) and the base
    /// currency `SEK` unless named, the 2023 layout unless another is named.
    /// An SRU file needs the number it is made out to.
    pub fn to_config(self) -> (r: Result<Config, ConfigError>)
        ensures
            r is Err <==> self.sru_file && self.sru_org_num is None,
            r is Err ==> r == Err::<Config, ConfigError>(ConfigError::MissingSruOrgNum),
            r matches Ok(c) ==> {
                &&& c.path == self.path
                &&& c.currency@ == or_default(self.currency, "ALL"@)
                &&& c.base_currency@ == or_default(self.base_currency, "SEK"@)
                &&& c.print_exchanges_only == self.print_exchanges_only
                &&& c.print_trades == self.print_trades
                &&& c.year_traded == self.year_traded
                &&& c.sum == self.sru_sum
                &&& c.csv_version == match self.csv_version {
                    Some(v) => v,
                    None => DEFAULT_CSV_VERSION,
                }
                &&& (c.sru_file_config is Some <==> self.sru_file)
                &&& (c.sru_file_config matches Some(s) ==> Some(s.sru_org_num) == self.sru_org_num
                    && s.sru_org_name == self.sru_org_name)
            },
    {
        let Cli {
            path,
            currency,
            base_currency,
            print_exchanges_only,
            print_trades,
            sru_file,
            sru_org_num,
            sru_org_name,
            sru_sum,
            year_traded,
            csv_version,
        } = self;
        let sru_file_config = if sru_file {
            match sru_org_num {
                Some(num) => Some(SruFileConfig { sru_org_num: num, sru_org_name }),
                None => {
                    return Err(ConfigError::MissingSruOrgNum);
                },
            }
        } else {
            None
        };
        let csv_version = match csv_version {
            Some(v) => v,
            None => DEFAULT_CSV_VERSION,
        };
        Ok(
            Config {
                path,
                currency: text_or(currency, "ALL"),
                base_currency: text_or(base_currency, "SEK"),
                print_exchanges_only,
                print_trades,
                sru_file_config,
                year_traded,
                sum: sru_sum,
                csv_version,
            },
        )
    }
}

} // verus!
