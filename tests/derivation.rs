use seasonal::date::Date;
use seasonal::processor::{
    calculate_derived_columns, derive_observations, parse_row, strip_derived, Cell, DerivedRow,
    RawRow,
};

const UNIT: i64 = 1_000_000;

fn text(s: &str) -> Cell {
    Cell::Text(s.to_string())
}

fn row(date: &str, close: i64) -> RawRow {
    RawRow {
        date: text(date),
        open: Cell::Empty,
        high: Cell::Empty,
        low: Cell::Empty,
        close: Cell::Number(close * UNIT),
    }
}

fn date(year: i32, month: u32, day: u32) -> Date {
    Date { year, month, day }
}

fn three_january_rows() -> Vec<RawRow> {
    vec![row("2023-01-02", 100), row("2023-01-03", 110), row("2023-01-04", 90)]
}

#[test]
fn concrete_scenario_replace() {
    let out = calculate_derived_columns(&three_january_rows(), true);
    assert_eq!(out.len(), 3);
    let pct: Vec<Option<i128>> = out.iter().map(|r| r.pct_change).collect();
    assert_eq!(pct, vec![Some(0), Some(10_000_000), Some(-20_000_000)]);
    let norm: Vec<Option<i128>> = out.iter().map(|r| r.normalized).collect();
    assert_eq!(norm, vec![Some(66_666_666), Some(100_000_000), Some(0)]);
    let avg: Vec<Option<i128>> = out.iter().map(|r| r.average_norm).collect();
    assert_eq!(avg, vec![Some(66_666_666), Some(83_333_333), Some(55_555_555)]);
    let seasonal: Vec<Option<i128>> = out.iter().map(|r| r.true_seasonal).collect();
    assert_eq!(seasonal, vec![Some(39_999_999), Some(100_000_000), Some(0)]);
    assert!(out.iter().all(|r| r.month_no == 1));
}

#[test]
fn preserve_policy_keeps_missing_values() {
    let out = calculate_derived_columns(&three_january_rows(), false);
    assert_eq!(out[0].pct_change, None);
    assert_eq!(out[0].normalized, None);
    assert_eq!(out[1].pct_change, Some(10_000_000));
    // The year's finite changes are 10 and -20.
    assert_eq!(out[1].normalized, Some(100_000_000));
    assert_eq!(out[2].normalized, Some(0));
    // The first row contributes nothing to the January mean.
    assert_eq!(out[0].average_norm, Some(0));
    assert_eq!(out[1].average_norm, Some(100_000_000));
    assert_eq!(out[2].average_norm, Some(50_000_000));
}

#[test]
fn first_row_change_is_zero_under_replace() {
    let rows = vec![row("2024-06-02", 7), row("2023-11-30", 5), row("2024-01-15", 6)];
    let out = calculate_derived_columns(&rows, true);
    assert_eq!(out[0].date, date(2023, 11, 30));
    assert_eq!(out[0].pct_change, Some(0));
}

#[test]
fn output_is_chronological_and_months_follow_dates() {
    let rows = vec![row("2022-03-05", 1), row("2021-12-31", 2), row("2022-01-01", 3)];
    let out = calculate_derived_columns(&rows, true);
    let dates: Vec<Date> = out.iter().map(|r| r.date).collect();
    assert_eq!(dates, vec![date(2021, 12, 31), date(2022, 1, 1), date(2022, 3, 5)]);
    let months: Vec<u32> = out.iter().map(|r| r.month_no).collect();
    assert_eq!(months, vec![12, 1, 3]);
    assert_eq!(out[1].pct_change, Some(UNIT as i128));
    assert_eq!(out[2].pct_change, Some(-2 * UNIT as i128));
}

#[test]
fn input_order_does_not_matter() {
    let a = three_january_rows();
    let mut b = three_january_rows();
    b.reverse();
    b.swap(0, 1);
    assert_eq!(calculate_derived_columns(&a, true), calculate_derived_columns(&b, true));
    assert_eq!(calculate_derived_columns(&a, false), calculate_derived_columns(&b, false));
}

#[test]
fn equal_dates_keep_input_order() {
    let rows = vec![row("2023-01-02", 5), row("2023-01-01", 1), row("2023-01-02", 3)];
    let out = calculate_derived_columns(&rows, true);
    let closes: Vec<i64> = out.iter().map(|r| r.close).collect();
    assert_eq!(closes, vec![UNIT, 5 * UNIT, 3 * UNIT]);
}

#[test]
fn rederiving_from_output_gives_same_columns() {
    let rows = vec![
        row("2021-03-01", 10),
        row("2020-01-02", 12),
        row("2021-01-05", 9),
        row("2020-07-01", 15),
        row("2021-01-06", 11),
    ];
    let first = calculate_derived_columns(&rows, true);
    let again = derive_observations(strip_derived(&first), true);
    let cols = |v: &Vec<DerivedRow>| -> Vec<(Option<i128>, Option<i128>, Option<i128>, Option<i128>)> {
        v.iter().map(|r| (r.pct_change, r.normalized, r.average_norm, r.true_seasonal)).collect()
    };
    assert_eq!(cols(&first), cols(&again));
    assert_eq!(first, again);
}

#[test]
fn flat_year_normalizes_to_zero() {
    // 2022 has changes 2, 2, 2 after the first row of 2021.
    let rows = vec![row("2021-12-30", 1), row("2022-01-03", 3), row("2022-02-01", 5), row("2022-03-01", 7)];
    let out = calculate_derived_columns(&rows, true);
    for r in out.iter().filter(|r| r.date.year == 2022) {
        assert_eq!(r.pct_change, Some(2 * UNIT as i128));
        assert_eq!(r.normalized, Some(0));
    }
}

#[test]
fn january_average_runs_across_years() {
    let rows = vec![
        row("2020-12-31", 1000),
        row("2021-01-04", 1010),
        row("2021-01-05", 1030),
        row("2021-02-01", 1030),
        row("2021-02-02", 1130),
        row("2022-01-03", 1160),
        row("2022-02-01", 1160),
        row("2022-02-02", 1260),
    ];
    let out = calculate_derived_columns(&rows, true);
    assert_eq!(out[1].normalized, Some(10 * UNIT as i128));
    assert_eq!(out[2].normalized, Some(20 * UNIT as i128));
    assert_eq!(out[5].date, date(2022, 1, 3));
    assert_eq!(out[5].normalized, Some(30 * UNIT as i128));
    assert_eq!(out[1].average_norm, Some(10 * UNIT as i128));
    assert_eq!(out[2].average_norm, Some(15 * UNIT as i128));
    assert_eq!(out[5].average_norm, Some(20 * UNIT as i128));
}

#[test]
fn unreadable_dates_are_dropped() {
    let mut rows = three_january_rows();
    rows.push(row("", 50));
    rows.push(row("not a date", 60));
    rows.push(RawRow { date: Cell::Empty, open: Cell::Empty, high: Cell::Empty, low: Cell::Empty, close: Cell::Empty });
    let out = calculate_derived_columns(&rows, true);
    assert_eq!(out.len(), rows.len() - 3);
    assert_eq!(out, calculate_derived_columns(&three_january_rows(), true));
}

#[test]
fn empty_input_gives_empty_output() {
    assert!(calculate_derived_columns(&Vec::new(), true).is_empty());
    assert!(calculate_derived_columns(&Vec::new(), false).is_empty());
}

#[test]
fn single_row_under_both_policies() {
    let rows = vec![row("2023-05-05", 4)];
    let out = calculate_derived_columns(&rows, true);
    assert_eq!(out[0].pct_change, Some(0));
    assert_eq!(out[0].normalized, Some(0));
    assert_eq!(out[0].average_norm, Some(0));
    assert_eq!(out[0].true_seasonal, Some(0));
    let out = calculate_derived_columns(&rows, false);
    assert_eq!(out[0].pct_change, None);
    assert_eq!(out[0].normalized, None);
    assert_eq!(out[0].average_norm, Some(0));
    assert_eq!(out[0].true_seasonal, None);
}

#[test]
fn dates_in_every_accepted_form() {
    let parse = |c: Cell| parse_row(&RawRow { date: c, open: Cell::Empty, high: Cell::Empty, low: Cell::Empty, close: Cell::Empty }).map(|o| o.date);
    assert_eq!(parse(text("2023-01-02")), Some(date(2023, 1, 2)));
    assert_eq!(parse(text("  2023-01-02 ")), Some(date(2023, 1, 2)));
    assert_eq!(parse(text("2023-05-06T23:30:00-05:00")), Some(date(2023, 5, 6)));
    assert_eq!(parse(text("45000")), Some(date(2023, 3, 15)));
    assert_eq!(parse(text("45000.75")), Some(date(2023, 3, 15)));
    assert_eq!(parse(Cell::Number(45_000 * UNIT)), Some(date(2023, 3, 15)));
    assert_eq!(parse(Cell::Number(25_568 * UNIT + UNIT / 2)), Some(date(1969, 12, 31)));
    assert_eq!(parse(Cell::Number(25_569 * UNIT)), Some(date(1970, 1, 1)));
    assert_eq!(parse(text("   ")), None);
    assert_eq!(parse(text("2023-13-01")), None);
    assert_eq!(parse(Cell::Empty), None);
}

#[test]
fn prices_from_numbers_and_text() {
    let r = RawRow {
        date: text("2023-01-02"),
        open: text(" 12.5 "),
        high: Cell::Number(3 * UNIT),
        low: text("abc"),
        close: Cell::Empty,
    };
    let o = parse_row(&r).unwrap();
    assert_eq!(o.open, 12_500_000);
    assert_eq!(o.high, 3 * UNIT);
    assert_eq!(o.low, 0);
    assert_eq!(o.close, 0);
}
