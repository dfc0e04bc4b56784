use treasury_yield::columns::active_flags;
use treasury_yield::date::Date;
use treasury_yield::error::TreasuryCurveError;
use treasury_yield::rate::Rate;
use treasury_yield::request::{treasury_url, year_url};
use treasury_yield::treasury_curve::{
    load_curve, load_date, sort_arrays, TreasuryCurveCsv, TreasuryCurveHistory,
};

const HEADER: &str = "Date,\"1 Mo\",\"2 Mo\",\"3 Mo\",\"4 Mo\",\"6 Mo\",\"1 Yr\",\"2 Yr\",\"3 Yr\",\"5 Yr\",\"7 Yr\",\"10 Yr\",\"20 Yr\",\"30 Yr\"";
const ROW_0707: &str = "07/07/2023,5.32,5.47,5.46,5.52,5.53,5.41,4.94,4.64,4.35,4.23,4.06,4.27,4.05";
const ROW_0706: &str = "07/06/2023,5.32,5.47,5.46,5.52,5.54,5.44,4.99,4.68,4.37,4.22,4.05,4.23,4.01";
const ROW_0703: &str = "07/03/2023,5.27,5.40,5.44,5.52,5.53,5.43,4.94,4.56,4.19,4.03,3.86,4.08,3.87";
const ROW_0630: &str = "06/30/2023,5.24,5.39,5.43,5.50,5.47,5.40,4.87,4.49,4.13,3.97,3.81,4.06,3.85";

fn date(year: i32, month: u8, day: u8) -> Date {
    Date::from_calendar_date(year, month, day).unwrap()
}

fn build(rows: &[&str]) -> Result<TreasuryCurveHistory, TreasuryCurveError> {
    let mut text = HEADER.to_string();
    for r in rows {
        text.push('\n');
        text.push_str(r);
    }
    TreasuryCurveHistory::try_from(TreasuryCurveCsv(text))
}

#[test]
fn weekend_request_resolves_to_previous_trading_day() {
    let h = build(&[ROW_0707, ROW_0706, ROW_0703, ROW_0630]).unwrap();
    let (d, _) = h.from_date(date(2023, 7, 2)).unwrap();
    assert_eq!(d, date(2023, 6, 30));
}

#[test]
fn exact_date_is_returned() {
    let h = build(&[ROW_0707, ROW_0706, ROW_0703, ROW_0630]).unwrap();
    let (d, c) = h.from_date(date(2023, 7, 6)).unwrap();
    assert_eq!(d, date(2023, 7, 6));
    assert_eq!(c.get_label("6 Mo").unwrap(), Some(Rate { units: 554, scale: 2 }));
}

#[test]
fn grace_window_returns_latest() {
    let h = build(&[ROW_0707, ROW_0706, ROW_0703, ROW_0630]).unwrap();
    let (d, _) = h.from_date(date(2023, 7, 12)).unwrap();
    assert_eq!(d, date(2023, 7, 7));
}

#[test]
fn beyond_grace_window_is_outside_range() {
    let h = build(&[ROW_0707, ROW_0706, ROW_0703, ROW_0630]).unwrap();
    let request = date(2023, 7, 13);
    assert_eq!(
        h.from_date(request).unwrap_err(),
        TreasuryCurveError::OutsideDateRange(request)
    );
}

#[test]
fn before_oldest_is_outside_range() {
    let h = build(&[ROW_0707, ROW_0706, ROW_0703, ROW_0630]).unwrap();
    let request = date(2023, 6, 29);
    assert_eq!(
        h.from_date(request).unwrap_err(),
        TreasuryCurveError::OutsideDateRange(request)
    );
}

#[test]
fn latest_is_most_recent_whatever_the_row_order() {
    let a = build(&[ROW_0630, ROW_0707, ROW_0703, ROW_0706]).unwrap();
    let b = build(&[ROW_0703, ROW_0630, ROW_0706, ROW_0707]).unwrap();
    assert_eq!(a.latest().0, date(2023, 7, 7));
    assert_eq!(b.latest().0, date(2023, 7, 7));
    assert_eq!(a.latest().1.0, b.latest().1.0);
    assert_eq!(a.len(), 4);
}

#[test]
fn history_dates_strictly_descending() {
    let h = build(&[ROW_0630, ROW_0707, ROW_0703, ROW_0706]).unwrap();
    let days: Vec<i32> = (0..h.len()).map(|i| h.entry(i).0.julian_day()).collect();
    for w in days.windows(2) {
        assert!(w[0] > w[1]);
    }
    assert_eq!(days[0] - days[3], 7);
}

#[test]
fn unknown_header_label_fails_the_build() {
    let text = "Date,\"1 Mo\",\"9 Mo\"\n07/07/2023,5.32,5.40".to_string();
    assert_eq!(
        TreasuryCurveHistory::try_from(TreasuryCurveCsv(text)).unwrap_err(),
        TreasuryCurveError::MissingLabel("9 Mo".to_string())
    );
}

#[test]
fn malformed_yield_fails_the_build() {
    let bad = "07/05/2023,5.28,5.38,x,5.51,5.52,5.40,4.94,4.59,4.25,4.11,3.95,4.17,3.95";
    assert_eq!(
        build(&[ROW_0707, bad]).unwrap_err(),
        TreasuryCurveError::DecodeFailure(bad.to_string())
    );
}

#[test]
fn malformed_date_fails_the_build() {
    let bad = "7/5/2023,5.28,5.38,5.44,5.51,5.52,5.40,4.94,4.59,4.25,4.11,3.95,4.17,3.95";
    assert_eq!(
        build(&[bad]).unwrap_err(),
        TreasuryCurveError::DecodeFailure(bad.to_string())
    );
}

#[test]
fn wrong_number_of_yields_fails_the_build() {
    let short = "07/05/2023,5.28,5.38";
    assert_eq!(
        build(&[short]).unwrap_err(),
        TreasuryCurveError::DecodeFailure(short.to_string())
    );
}

#[test]
fn header_only_is_no_data() {
    assert_eq!(build(&[]).unwrap_err(), TreasuryCurveError::NoData);
}

#[test]
fn empty_lines_are_skipped() {
    let h = build(&[ROW_0707, "", ROW_0630, ""]).unwrap();
    assert_eq!(h.len(), 2);
}

#[test]
fn duplicate_dates_are_rejected() {
    assert_eq!(
        build(&[ROW_0707, ROW_0630, ROW_0707]).unwrap_err(),
        TreasuryCurveError::DuplicateDate(date(2023, 7, 7))
    );
}

#[test]
fn missing_tenors_are_absent_and_values_keep_their_order() {
    let headers = vec!["Date", "3 Mo", "1 Yr", "30 Yr"];
    let flags = active_flags(&headers).unwrap();
    assert_eq!(flags, (1 << 2) | (1 << 5) | (1 << 12));
    let c = load_curve("01/02/2001,1.5,2.25,3", &flags).unwrap();
    for (i, v) in c.0.iter().enumerate() {
        match i {
            2 => assert_eq!(*v, Some(Rate { units: 15, scale: 1 })),
            5 => assert_eq!(*v, Some(Rate { units: 225, scale: 2 })),
            12 => assert_eq!(*v, Some(Rate { units: 3, scale: 0 })),
            _ => assert_eq!(*v, None),
        }
    }
}

#[test]
fn full_header_leaves_no_absence() {
    let headers: Vec<&str> = HEADER.split(',').map(|h| h.trim_matches('"')).collect();
    let flags = active_flags(&headers).unwrap();
    let c = load_curve(ROW_0707, &flags).unwrap();
    assert!(c.0.iter().all(|v| v.is_some()));
}

#[test]
fn negative_and_malformed_rates() {
    let flags: u16 = 1;
    let c = load_curve("01/02/2021,-0.05", &flags).unwrap();
    assert_eq!(c.0[0], Some(Rate { units: -5, scale: 2 }));
    assert!(load_curve("01/02/2021,5.", &flags).is_err());
    assert!(load_curve("01/02/2021,.5", &flags).is_err());
    assert!(load_curve("01/02/2021,1.2.3", &flags).is_err());
    assert!(load_curve("01/02/2021,1234567890123456789", &flags).is_err());
    assert_eq!(
        load_curve("01/02/2021,123456789.123456789", &flags).unwrap().0[0],
        Some(Rate { units: 123456789123456789, scale: 9 })
    );
}

#[test]
fn calendar_dates_are_checked() {
    assert!(Date::from_calendar_date(2023, 2, 29).is_none());
    assert!(Date::from_calendar_date(2024, 2, 29).is_some());
    assert!(Date::from_calendar_date(2023, 13, 1).is_none());
    assert!(Date::from_calendar_date(2023, 4, 31).is_none());
    assert!(load_date("02/30/2023,1").is_err());
    assert_eq!(date(2023, 3, 1).julian_day() - date(2023, 2, 28).julian_day(), 1);
    assert_eq!(date(2024, 1, 1).julian_day() - date(2023, 1, 1).julian_day(), 365);
    let d = date(2023, 7, 10);
    assert_eq!((d.year(), d.month(), d.day()), (2023, 7, 10));
}

#[test]
fn year_before_1990_is_invalid() {
    assert_eq!(treasury_url(1985, 2024), Err(TreasuryCurveError::InvalidYear(1985)));
    assert_eq!(year_url(1985), Err(TreasuryCurveError::InvalidYear(1985)));
}

#[test]
fn year_after_current_is_invalid() {
    assert_eq!(treasury_url(2025, 2024), Err(TreasuryCurveError::InvalidYear(2025)));
}

#[test]
fn url_names_the_year() {
    assert_eq!(
        treasury_url(2023, 2024).unwrap(),
        "https://home.treasury.gov/resource-center/data-chart-center/interest-rates/daily-treasury-rates.csv/2023/all?type=daily_treasury_yield_curve&page&_format=csv"
    );
    assert!(year_url(2000).unwrap().contains("/2000/all?"));
}

#[test]
fn sort_ascending_orders_by_date() {
    let primary = vec![date(2023, 7, 1), date(2023, 6, 25), date(2023, 8, 1)];
    let (p, s) = sort_arrays(primary, vec!['b', 'a', 'c'], true);
    assert_eq!(p, vec![date(2023, 6, 25), date(2023, 7, 1), date(2023, 8, 1)]);
    assert_eq!(s, vec!['a', 'b', 'c']);
}
