//! The SRU file that reports taxable trades on form K4, section D: seven
//! trades to a form, amounts in whole units of the base currency.
use vstd::prelude::*;

use crate::decimal::{magnitude, pow10, repr_of, repr_ok, Decimal};
use crate::money::{all_cash, rounded_total};
use crate::taxable_trade::TaxableTrade;

verus! {

/// The trades one form holds.
pub const TRADES_PER_FORM: usize = 7;

/// One `#UPPGIFT` line: a field code and its value.
pub struct Information {
    pub field_code: String,
    pub field_value: String,
}

/// Whom a form is about.
pub struct Identity {
    pub org_num: String,
}

/// One form block.
pub struct Form {
    pub form: String,
    pub identity: Identity,
    pub name: Option<String>,
    pub information_groups: Vec<Vec<Information>>,
    pub system_info: Option<String>,
}

pub struct SruFile {
    pub forms: Vec<Form>,
}

/// The decimal digits of `n`, with a leading `-` when it is negative.
pub open spec fn int_text(n: int) -> Seq<char> {
    if n < 0 {
        seq!['-'] + digits(magnitude(n))
    } else {
        digits(n as nat)
    }
}

/// The decimal digits of `n`.
pub open spec fn digits(n: nat) -> Seq<char>
    decreases n,
{
    if n < 10 {
        seq![digit(n as int)]
    } else {
        digits(n / 10).push(digit((n % 10) as int))
    }
}

pub open spec fn digit(d: int) -> char {
    if d == 0 {
        '0'
    } else if d == 1 {
        '1'
    } else if d == 2 {
        '2'
    } else if d == 3 {
        '3'
    } else if d == 4 {
        '4'
    } else if d == 5 {
        '5'
    } else if d == 6 {
        '6'
    } else if d == 7 {
        '7'
    } else if d == 8 {
        '8'
    } else {
        '9'
    }
}

fn digit_text(d: u128) -> (r: &'static str)
    requires
        d < 10,
    ensures
        r@ == seq![digit(d as int)],
{
    proof {
        reveal_strlit("0");
        reveal_strlit("1");
        reveal_strlit("2");
        reveal_strlit("3");
        reveal_strlit("4");
        reveal_strlit("5");
        reveal_strlit("6");
        reveal_strlit("7");
        reveal_strlit("8");
        reveal_strlit("9");
    }
    let r = if d == 0 {
        "0"
    } else if d == 1 {
        "1"
    } else if d == 2 {
        "2"
    } else if d == 3 {
        "3"
    } else if d == 4 {
        "4"
    } else if d == 5 {
        "5"
    } else if d == 6 {
        "6"
    } else if d == 7 {
        "7"
    } else if d == 8 {
        "8"
    } else {
        "9"
    };
    assert(r@ =~= seq![digit(d as int)]);
    r
}

/// Adds the decimal digits of `n` to `out`.
fn append_digits(n: u128, out: &mut String)
    ensures
        final(out)@ == old(out)@ + digits(n as nat),
    decreases n,
{
    if n >= 10 {
        append_digits(n / 10, out);
    }
    let ghost before = out@;
    out.append(digit_text(n % 10));
    assert(out@ =~= old(out)@ + digits(n as nat));
}

/// The decimal digits of `n`, with `-` before a negative number.
fn integer_text(n: i128) -> (r: String)
    ensures
        r@ == int_text(n as int),
{
    let mut r = String::new();
    if n < 0 {
        r.append("-");
        proof {
            reveal_strlit("-");
        }
        let m: u128 = ((-(n + 1)) as u128) + 1;
        append_digits(m, &mut r);
        assert(r@ =~= int_text(n as int));
    } else {
        append_digits(n as u128, &mut r);
        assert(r@ =~= int_text(n as int));
    }
    r
}

/// `m * 10^-s` rounded to a whole number, ties to the even neighbour.
pub open spec fn half_even(m: nat, s: nat) -> int {
    let q: int = m as int / pow10(s);
    let rest: int = m as int % pow10(s);
    if 2 * rest > pow10(s) {
        q + 1
    } else if 2 * rest < pow10(s) {
        q
    } else if q % 2 == 0 {
        q
    } else {
        q + 1
    }
}

/// Relies on `rust_decimal::Decimal::round`: the nearest whole number, ties
/// to even ("Bankers Rounding" in its documentation), which it returns at
/// scale zero, so that its mantissa is that number.
#[verifier::external_body]
fn rounded(m: i128, s: u32) -> (r: i128)
    requires
        repr_ok(m, s),
        m >= 0,
    ensures
        r as int == half_even(m as nat, s as nat),
{
    rust_decimal::Decimal::from_i128_with_scale(m, s).round().mantissa()
}

/// The magnitude of `d`, rounded to a whole number, as text.
pub open spec fn whole_text(d: int) -> Option<Seq<char>> {
    match repr_of(magnitude(d) as int) {
        Some(p) => Some(int_text(half_even(p.0 as nat, p.1 as nat))),
        None => None,
    }
}

fn whole_text_of(d: &Decimal) -> (r: Option<String>)
    ensures
        r matches Some(t) ==> whole_text(d@) == Some(t@),
        r is None ==> whole_text(d@) is None,
{
    let m = d.abs();
    match m.repr() {
        Some(p) => Some(integer_text(rounded(p.0, p.1))),
        None => None,
    }
}

/// The field code `34<i><k>`.
pub open spec fn code_text(i: int, k: int) -> Seq<char> {
    "34"@ + int_text(i) + int_text(k)
}

fn code_of(i: usize, k: usize) -> (r: String)
    requires
        i <= 1000,
        k <= 10,
    ensures
        r@ == code_text(i as int, k as int),
{
    let mut r = String::from_str("34");
    let a = integer_text(i as i128);
    r.append(a.as_str());
    let b = integer_text(k as i128);
    r.append(b.as_str());
    r
}

/// The lines of the `i`th trade of a form: number of units, currency,
/// income, cost, and the gain (code 4) or loss (code 5).
pub open spec fn group_text(
    i: int,
    currency: Seq<char>,
    amount: int,
    income: int,
    costs: int,
    net_income: int,
) -> Option<Seq<(Seq<char>, Seq<char>)>> {
    match (whole_text(amount), whole_text(income), whole_text(costs), whole_text(net_income)) {
        (Some(a), Some(n), Some(c), Some(g)) => Some(
            seq![
                (code_text(i, 0), a),
                (code_text(i, 1), currency),
                (code_text(i, 2), n),
                (code_text(i, 3), c),
                (code_text(i, if net_income >= 0 { 4 } else { 5 }), g),
            ],
        ),
        _ => None,
    }
}

pub open spec fn group_view(g: Seq<Information>) -> Seq<(Seq<char>, Seq<char>)> {
    g.map_values(|x: Information| (x.field_code@, x.field_value@))
}

fn info(field_code: String, field_value: String) -> (r: Information)
    ensures
        r.field_code == field_code,
        r.field_value == field_value,
{
    Information { field_code, field_value }
}

pub fn new_information_group(
    i: usize,
    currency: &String,
    amount: Decimal,
    income: Decimal,
    costs: Decimal,
    net_income: Decimal,
) -> (r: Option<Vec<Information>>)
    requires
        i <= 1000,
    ensures
        r matches Some(g) ==> group_text(i as int, currency@, amount@, income@, costs@, net_income@)
            == Some(group_view(g@)),
        r is None ==> group_text(i as int, currency@, amount@, income@, costs@, net_income@) is None,
{
    let a = match whole_text_of(&amount) {
        Some(t) => t,
        None => return None,
    };
    let n = match whole_text_of(&income) {
        Some(t) => t,
        None => return None,
    };
    let c = match whole_text_of(&costs) {
        Some(t) => t,
        None => return None,
    };
    let g = match whole_text_of(&net_income) {
        Some(t) => t,
        None => return None,
    };
    let last: usize = if !net_income.is_negative() {
        4
    } else {
        5
    };
    let mut v: Vec<Information> = Vec::new();
    v.push(info(code_of(i, 0), a));
    v.push(info(code_of(i, 1), currency.clone()));
    v.push(info(code_of(i, 2), n));
    v.push(info(code_of(i, 3), c));
    v.push(info(code_of(i, last), g));
    assert(group_view(v@) =~= group_text(i as int, currency@, amount@, income@, costs@, net_income@)->Some_0);
    Some(v)
}

/// The group of `t` as the `i`th trade of its form, when its costs are all
/// cash and its gain or loss is known.
pub open spec fn trade_group(t: TaxableTrade, i: int) -> Option<Seq<(Seq<char>, Seq<char>)>> {
    if all_cash(t.costs@) && rounded_total(0, t.costs@) is Some && t.net_income is Some {
        group_text(
            i,
            t.currency@,
            t.amount@,
            t.income.value(),
            rounded_total(0, t.costs@)->Some_0,
            t.net_income->Some_0@,
        )
    } else {
        None
    }
}

/// The name of the form for income year `year`.
pub open spec fn form_name(year: int) -> Seq<char> {
    "K4-"@ + int_text(year) + "P4"@
}

/// How many forms `n` trades take: one at least.
pub open spec fn form_count(n: int) -> int {
    if n == 0 {
        1
    } else {
        (n + 6) / 7
    }
}

fn new_form(name_text: &String, org_num: &String, name: &Option<String>) -> (r: Form)
    ensures
        r.form == *name_text,
        r.identity.org_num == *org_num,
        r.name == *name,
        r.information_groups@.len() == 0,
        r.system_info is None,
{
    let n = match name {
        Some(s) => Some(s.clone()),
        None => None,
    };
    Form {
        form: name_text.clone(),
        identity: Identity { org_num: org_num.clone() },
        name: n,
        information_groups: Vec::new(),
        system_info: None,
    }
}

/// Form `f` of a file for `tts`, made out to `org_num` and `name` for income
/// year `year`, holds the groups of its seven trades.
pub open spec fn form_holds(
    f: Form,
    fi: int,
    tts: Seq<TaxableTrade>,
    org_num: String,
    name: Option<String>,
    year: int,
) -> bool {
    &&& f.form@ == form_name(year)
    &&& f.identity.org_num == org_num
    &&& f.name == name
    &&& f.system_info is None
    &&& f.information_groups@.len() == if tts.len() - 7 * fi < 7 {
        tts.len() - 7 * fi
    } else {
        7
    }
    &&& forall|g: int|
        0 <= g < f.information_groups@.len() ==> trade_group(tts[7 * fi + g], g + 1) == Some(
            group_view((#[trigger] f.information_groups@[g])@),
        )
}

impl Form {
    /// The forms for `taxable_trades`, seven trades to a form; `None` when a
    /// trade has a cost that is not cash or no known gain or loss.
    pub fn try_from_taxable_trades(
        taxable_trades: &Vec<TaxableTrade>,
        org_num: &String,
        name: &Option<String>,
        year: i32,
    ) -> (r: Option<Vec<Form>>)
        ensures
            r is Some <==> forall|k: int|
                0 <= k < taxable_trades@.len() ==> (#[trigger] trade_group(taxable_trades@[k], k % 7 + 1)) is Some,
            r matches Some(forms) ==> forms@.len() == form_count(taxable_trades@.len() as int) && forall|f: int|
                0 <= f < forms@.len() ==> form_holds(
                    #[trigger] forms@[f],
                    f,
                    taxable_trades@,
                    *org_num,
                    *name,
                    year as int,
                ),
    {
        let tts = taxable_trades;
        let mut form_name_text = String::from_str("K4-");
        let y = integer_text(year as i128);
        form_name_text.append(y.as_str());
        form_name_text.append("P4");
        let mut forms: Vec<Form> = Vec::new();
        let mut current = new_form(&form_name_text, org_num, name);
        let mut k: usize = 0;
        while k < tts.len()
            invariant
                tts == taxable_trades,
                k <= tts.len(),
                form_name_text@ == form_name(year as int),
                forms@.len() == if k == 0 { 0 } else { (k - 1) / 7 },
                current.information_groups@.len() == if k == 0 { 0 } else { (k - 1) % 7 + 1 },
                current.form == form_name_text,
                current.identity.org_num == *org_num,
                current.name == *name,
                current.system_info is None,
                forall|m: int| 0 <= m < k ==> (#[trigger] trade_group(tts@[m], m % 7 + 1)) is Some,
                forall|f: int|
                    0 <= f < forms@.len() ==> form_holds(#[trigger] forms@[f], f, tts@, *org_num, *name, year as int),
                forall|g: int|
                    0 <= g < current.information_groups@.len() ==> trade_group(tts@[7 * forms@.len() + g], g + 1)
                        == Some(group_view((#[trigger] current.information_groups@[g])@)),
            decreases tts.len() - k,
        {
            let t = &tts[k];
            let costs = match t.sum_cash_amount() {
                Some(c) => c,
                None => {
                    assert(trade_group(tts@[k as int], k % 7 + 1) is None);
                    return None;
                },
            };
            let net_income = match t.net_income {
                Some(n) => n,
                None => {
                    assert(trade_group(tts@[k as int], k % 7 + 1) is None);
                    return None;
                },
            };
            let slot: usize = k % TRADES_PER_FORM;
            if k > 0 && slot == 0 {
                let full = current;
                current = new_form(&form_name_text, org_num, name);
                forms.push(full);
            }
            let group = match new_information_group(slot + 1, &t.currency, t.amount, t.income.amount(), costs, net_income) {
                Some(g) => g,
                None => {
                    assert(trade_group(tts@[k as int], k % 7 + 1) is None);
                    return None;
                },
            };
            current.information_groups.push(group);
            k = k + 1;
        }
        forms.push(current);
        Some(forms)
    }
}

/// The line `#UPPGIFT <code> <value>`.
pub open spec fn info_line(x: Information) -> Seq<char> {
    "#UPPGIFT "@ + x.field_code@ + " "@ + x.field_value@ + "\n"@
}

pub open spec fn infos_text(g: Seq<Information>) -> Seq<char>
    decreases g.len(),
{
    if g.len() == 0 {
        Seq::empty()
    } else {
        infos_text(g.drop_last()) + info_line(g.last())
    }
}

pub open spec fn groups_text(gs: Seq<Vec<Information>>) -> Seq<char>
    decreases gs.len(),
{
    if gs.len() == 0 {
        Seq::empty()
    } else {
        groups_text(gs.drop_last()) + infos_text(gs.last()@)
    }
}

/// The `#BLANKETT` and `#IDENTITET` lines of form `f`.
pub open spec fn head_text(f: Form, date: Seq<char>, time: Seq<char>) -> Seq<char> {
    "#BLANKETT "@ + f.form@ + "\n"@ + "#IDENTITET "@ + f.identity.org_num@ + " "@ + date + " "@ + time
        + "\n"@
}

/// The `#NAMN` line of form `f`, if it has a name.
pub open spec fn name_text(f: Form) -> Seq<char> {
    match f.name {
        Some(n) => "#NAMN "@ + n@ + "\n"@,
        None => Seq::empty(),
    }
}

/// The block of form `f`, the `i`th of its file, made at `date` and `time`.
pub open spec fn form_text(f: Form, i: int, date: Seq<char>, time: Seq<char>) -> Seq<char> {
    head_text(f, date, time) + name_text(f) + ("#UPPGIFT 7014 "@ + int_text(i) + "\n"@) + groups_text(
        f.information_groups@,
    ) + "#BLANKETTSLUT\n"@
}

pub open spec fn forms_text(forms: Seq<Form>, date: Seq<char>, time: Seq<char>) -> Seq<char>
    decreases forms.len(),
{
    if forms.len() == 0 {
        Seq::empty()
    } else {
        forms_text(forms.drop_last(), date, time) + form_text(forms.last(), forms.len() as int, date, time)
    }
}

fn append_head(f: &Form, date: &String, time: &String, out: &mut String)
    ensures
        final(out)@ == old(out)@ + head_text(*f, date@, time@),
{
    let ghost start = out@;
    out.append("#BLANKETT ");
    out.append(f.form.as_str());
    out.append("\n");
    out.append("#IDENTITET ");
    out.append(f.identity.org_num.as_str());
    out.append(" ");
    out.append(date.as_str());
    out.append(" ");
    out.append(time.as_str());
    out.append("\n");
    assert(out@ =~= start + head_text(*f, date@, time@));
}

fn append_name(f: &Form, out: &mut String)
    ensures
        final(out)@ == old(out)@ + name_text(*f),
{
    let ghost start = out@;
    match &f.name {
        Some(n) => {
            out.append("#NAMN ");
            out.append(n.as_str());
            out.append("\n");
            assert(out@ =~= start + name_text(*f));
        },
        None => {
            assert(out@ =~= start + name_text(*f));
        },
    }
}

fn append_number(i: usize, out: &mut String)
    ensures
        final(out)@ == old(out)@ + ("#UPPGIFT 7014 "@ + int_text(i as int) + "\n"@),
{
    let ghost start = out@;
    out.append("#UPPGIFT 7014 ");
    let it = integer_text(i as i128);
    out.append(it.as_str());
    out.append("\n");
    assert(out@ =~= start + ("#UPPGIFT 7014 "@ + int_text(i as int) + "\n"@));
}

fn append_infos(group: &Vec<Information>, out: &mut String)
    ensures
        final(out)@ == old(out)@ + infos_text(group@),
{
    let ghost at_group = out@;
    let mut x: usize = 0;
    assert(group@.take(0) =~= Seq::<Information>::empty());
    assert(at_group + infos_text(group@.take(0)) =~= at_group);
    while x < group.len()
        invariant
            x <= group@.len(),
            out@ == at_group + infos_text(group@.take(x as int)),
        decreases group@.len() - x,
    {
        let ghost at_line = out@;
        out.append("#UPPGIFT ");
        out.append(group[x].field_code.as_str());
        out.append(" ");
        out.append(group[x].field_value.as_str());
        out.append("\n");
        assert(group@.take(x + 1).drop_last() =~= group@.take(x as int));
        assert(out@ =~= at_line + info_line(group@[x as int]));
        assert(at_group + infos_text(group@.take(x + 1)) =~= at_line + info_line(group@[x as int]));
        x = x + 1;
    }
    assert(group@.take(group@.len() as int) =~= group@);
}

fn append_groups(gs: &Vec<Vec<Information>>, out: &mut String)
    ensures
        final(out)@ == old(out)@ + groups_text(gs@),
{
    let ghost before = out@;
    let mut g: usize = 0;
    assert(gs@.take(0) =~= Seq::<Vec<Information>>::empty());
    assert(before + groups_text(gs@.take(0)) =~= before);
    while g < gs.len()
        invariant
            g <= gs@.len(),
            out@ == before + groups_text(gs@.take(g as int)),
        decreases gs@.len() - g,
    {
        let ghost at = out@;
        append_infos(&gs[g], out);
        assert(gs@.take(g + 1).drop_last() =~= gs@.take(g as int));
        assert(before + groups_text(gs@.take(g + 1)) =~= at + infos_text(gs@[g as int]@));
        g = g + 1;
    }
    assert(gs@.take(gs@.len() as int) =~= gs@);
}

impl Form {
    /// Adds the block of this form, the `i`th of its file, to `out`.
    pub fn write(&self, i: usize, date: &String, time: &String, out: &mut String)
        ensures
            final(out)@ == old(out)@ + form_text(*self, i as int, date@, time@),
    {
        let ghost start = out@;
        append_head(self, date, time, out);
        append_name(self, out);
        append_number(i, out);
        append_groups(&self.information_groups, out);
        out.append("#BLANKETTSLUT\n");
        assert(out@ =~= start + form_text(*self, i as int, date@, time@));
    }
}

impl SruFile {
    pub fn try_new(
        taxable_trades: &Vec<TaxableTrade>,
        org_num: &String,
        name: &Option<String>,
        year: i32,
    ) -> (r: Option<SruFile>)
        ensures
            r is Some <==> forall|k: int|
                0 <= k < taxable_trades@.len() ==> (#[trigger] trade_group(taxable_trades@[k], k % 7 + 1)) is Some,
            r matches Some(f) ==> f.forms@.len() == form_count(taxable_trades@.len() as int) && forall|i: int|
                0 <= i < f.forms@.len() ==> form_holds(
                    #[trigger] f.forms@[i],
                    i,
                    taxable_trades@,
                    *org_num,
                    *name,
                    year as int,
                ),
    {
        match Form::try_from_taxable_trades(taxable_trades, org_num, name, year) {
            Some(forms) => Some(SruFile { forms }),
            None => None,
        }
    }

    /// The text of the file, its forms made at `date` (`YYYYMMDD`) and
    /// `time` (`HHMMSS`).
    pub fn write(&self, date: &String, time: &String) -> (r: String)
        ensures
            r@ == forms_text(self.forms@, date@, time@) + "#FIL_SLUT\n"@,
    {
        let mut out = String::new();
        let mut i: usize = 0;
        assert(self.forms@.take(0) =~= Seq::<Form>::empty());
        while i < self.forms.len()
            invariant
                i <= self.forms@.len(),
                out@ == forms_text(self.forms@.take(i as int), date@, time@),
            decreases self.forms@.len() - i,
        {
            self.forms[i].write(i + 1, date, time, &mut out);
            assert(self.forms@.take(i + 1).drop_last() =~= self.forms@.take(i as int));
            i = i + 1;
        }
        assert(self.forms@.take(self.forms@.len() as int) =~= self.forms@);
        out.append("#FIL_SLUT\n");
        out
    }
}

} // verus!
