//! Which years can be asked for, and where each year's CSV is published.
use crate::error::TreasuryCurveError;
use crate::MIN_YEAR_AVAIL;
use vstd::prelude::*;

verus! {

/// The digit character of `d`, for `d` in 0..=9.
pub open spec fn digit_char(d: int) -> char {
    ((d + '0' as int) as u32) as char
}

/// The decimal text of a natural number, without leading zeros.
pub open spec fn decimal_text(n: nat) -> Seq<char>
    decreases n,
{
    if n < 10 {
        seq![digit_char(n as int)]
    } else {
        decimal_text(n / 10).push(digit_char((n % 10) as int))
    }
}

/// The start of every yearly CSV address.
pub open spec fn url_head() -> Seq<char> {
    "https://home.treasury.gov/resource-center/data-chart-center/interest-rates/daily-treasury-rates.csv/"@
}

/// The end of every yearly CSV address.
pub open spec fn url_tail() -> Seq<char> {
    "/all?type=daily_treasury_yield_curve&page&_format=csv"@
}

/// The address of the CSV of the year `year`.
pub open spec fn url_of(year: nat) -> Seq<char> {
    url_head() + decimal_text(year) + url_tail()
}

fn digit_str(d: u32) -> (r: &'static str)
    requires
        d < 10,
    ensures
        r@ == seq![digit_char(d as int)],
{
    proof {
        reveal_strlit("0");
        reveal_strlit("1");
        reveal_strlit("2");
        reveal_strlit("3");
        reveal_strlit("4");
        reveal_strlit("5");
        reveal_strlit("6");
        reveal_strlit("7");
        reveal_strlit("8");
        reveal_strlit("9");
    }
    let r = if d == 0 {
        "0"
    } else if d == 1 {
        "1"
    } else if d == 2 {
        "2"
    } else if d == 3 {
        "3"
    } else if d == 4 {
        "4"
    } else if d == 5 {
        "5"
    } else if d == 6 {
        "6"
    } else if d == 7 {
        "7"
    } else if d == 8 {
        "8"
    } else {
        "9"
    };
    assert(r@ =~= seq![digit_char(d as int)]);
    r
}

/// Appends the decimal text of `n` to `out`.
fn push_decimal(out: &mut String, n: u32)
    ensures
        final(out)@ == old(out)@ + decimal_text(n as nat),
    decreases n,
{
    if n >= 10 {
        push_decimal(out, n / 10);
    }
    out.append(digit_str(n % 10));
    assert(decimal_text(n as nat) == if n < 10 {
        seq![digit_char(n as int)]
    } else {
        decimal_text((n / 10) as nat).push(digit_char((n % 10) as int))
    });
    proof {
        if n >= 10 {
            assert(decimal_text((n / 10) as nat).push(digit_char((n % 10) as int)) =~= decimal_text(
                (n / 10) as nat,
            ) + seq![digit_char((n % 10) as int)]);
        }
    }
    assert(final(out)@ =~= old(out)@ + decimal_text(n as nat));
}

/// The address of the CSV of `year`, for years from 1990 up to `current_year`;
/// `InvalidYear` outside that range.
pub fn treasury_url(year: i32, current_year: i32) -> (r: Result<String, TreasuryCurveError>)
    ensures
        year < MIN_YEAR_AVAIL || year > current_year ==> r == Err::<String, TreasuryCurveError>(
            TreasuryCurveError::InvalidYear(year),
        ),
        MIN_YEAR_AVAIL <= year <= current_year ==> (r matches Ok(url) && url@ == url_of(year as nat)),
{
    if year < MIN_YEAR_AVAIL || year > current_year {
        return Err(TreasuryCurveError::InvalidYear(year));
    }
    let mut url = String::from_str(
        "https://home.treasury.gov/resource-center/data-chart-center/interest-rates/daily-treasury-rates.csv/",
    );
    push_decimal(&mut url, year as u32);
    url.append("/all?type=daily_treasury_yield_curve&page&_format=csv");
    Ok(url)
}

/// Relies on `time::OffsetDateTime::now_utc` and its `year`: the current
/// year of the system clock, in UTC.
#[verifier::external_body]
fn current_year() -> (r: i32) {
    time::OffsetDateTime::now_utc().year()
}

/// The address of the CSV of `year`, checked against the current year of the
/// system clock; `InvalidYear` before 1990 or after the current year.
pub fn year_url(year: i32) -> (r: Result<String, TreasuryCurveError>)
    ensures
        year < MIN_YEAR_AVAIL ==> r == Err::<String, TreasuryCurveError>(
            TreasuryCurveError::InvalidYear(year),
        ),
        match r {
            Ok(url) => year >= MIN_YEAR_AVAIL && url@ == url_of(year as nat),
            Err(e) => e == TreasuryCurveError::InvalidYear(year),
        },
{
    treasury_url(year, current_year())
}

} // verus!
