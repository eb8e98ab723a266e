use kachet::money::MoneyError;
use kachet::prices::{boc_spans, new_prices, valet_url, Observation, Span};

fn spans(cur: &str, start: Option<&str>, end: &str) -> Vec<(String, String, String)> {
    boc_spans(&cur.to_string(), &start.map(|s| s.to_string()), &end.to_string())
        .into_iter()
        .map(|s: Span| (s.series, s.from, s.to))
        .collect()
}

fn t(a: &str, b: &str, c: &str) -> (String, String, String) {
    (a.to_string(), b.to_string(), c.to_string())
}

#[test]
fn usd_before_2017_uses_the_closing_rate_then_the_indicative_rate() {
    assert_eq!(
        spans("CURRENCY:USD", Some("2015-06-01"), "2024-05-01"),
        vec![t("IEXE0102", "2015-06-01", "2016-12-31"), t("FXUSDCAD", "2017-01-03", "2024-05-01")]
    );
    assert_eq!(spans("CURRENCY:USD", Some("2015-06-01"), "2016-03-01"), vec![t("IEXE0102", "2015-06-01", "2016-03-01")]);
    assert_eq!(spans("CURRENCY:EUR", Some("2015-06-01"), "2024-05-01"), vec![t("FXEURCAD", "2017-01-03", "2024-05-01")]);
    assert_eq!(spans("CURRENCY:USD", Some("2019-02-02"), "2024-05-01"), vec![t("FXUSDCAD", "2019-02-02", "2024-05-01")]);
}

#[test]
fn unused_or_future_currencies_fetch_nothing() {
    assert!(spans("CURRENCY:USD", None, "2024-05-01").is_empty());
    assert!(spans("CURRENCY:USD", Some("2025-01-01"), "2024-05-01").is_empty());
}

#[test]
fn valet_urls() {
    let s = Span { series: "FXUSDCAD".to_string(), from: "2024-01-01".to_string(), to: "2024-02-01".to_string() };
    assert_eq!(
        valet_url(&s),
        "https://www.bankofcanada.ca/valet/observations/FXUSDCAD/json?start_date=2024-01-01&end_date=2024-02-01"
    );
}

#[test]
fn observations_fill_only_missing_dates() {
    let o = |d: Option<&str>, v: Option<&str>| Observation { date: d.map(|x| x.to_string()), value: v.map(|x| x.to_string()) };
    let obs = vec![
        o(Some("2024-01-02"), Some("1.3456")),
        o(Some("2024-01-03"), Some("1.35")),
        o(None, Some("1.1")),
        o(Some("2024-01-04"), None),
        o(Some("2024-01-05"), Some("2")),
    ];
    let (rows, err) = new_prices(&obs, &vec!["2024-01-03".to_string()]);
    assert!(err.is_none());
    let got: Vec<(String, i64, i64)> = rows.into_iter().map(|p| (p.date, p.num, p.denom)).collect();
    assert_eq!(
        got,
        vec![("2024-01-02".to_string(), 13456, 10000), ("2024-01-05".to_string(), 2, 1)]
    );
}

#[test]
fn a_bad_value_stops_the_series() {
    let o = |d: &str, v: &str| Observation { date: Some(d.to_string()), value: Some(v.to_string()) };
    let (rows, err) = new_prices(&vec![o("2024-01-02", "1.5"), o("2024-01-03", "x"), o("2024-01-04", "1.6")], &vec![]);
    assert_eq!(rows.len(), 1);
    assert!(matches!(err, Some(MoneyError::InvalidNumber(_))));
    let (rows, err) = new_prices(&vec![o("2024-01-02", "1.1234567890123456789")], &vec![]);
    assert!(rows.is_empty());
    assert!(matches!(err, Some(MoneyError::Overflow)));
}
