use kachet::account_report::{
    account_report_data, account_report_subtitle, contains_chars, grand_total, parse_amount, read_params,
    select_accounts, AccountReportError, AcctInfo, SplitRow,
};

fn s(x: &str) -> Option<String> {
    Some(x.to_string())
}

fn info(id: &str, name: &str, parent: Option<&str>, code: Option<&str>, commodity: Option<&str>) -> AcctInfo {
    AcctInfo {
        id: id.to_string(),
        name: name.to_string(),
        parent_id: parent.map(|p| p.to_string()),
        commodity_id: commodity.map(|c| c.to_string()),
        code: code.map(|c| c.to_string()),
    }
}

fn split(acct: &str, tx: &str, date: &str, num: i64, denom: i64, state: &str, desc: Option<&str>, memo: Option<&str>) -> SplitRow {
    SplitRow {
        account_id: acct.to_string(),
        memo: memo.map(|m| m.to_string()),
        reconcile_state: state.to_string(),
        quantity_num: num,
        quantity_denom: denom,
        tx_id: tx.to_string(),
        date_posted: date.to_string(),
        date_entered: None,
        num: None,
        description: desc.map(|d| d.to_string()),
    }
}

fn accounts() -> Vec<AcctInfo> {
    vec![
        info("ar", "Receivables", None, Some("1200"), Some("CURRENCY:CAD")),
        info("ar1", "Client A", Some("ar"), Some("1210"), Some("CURRENCY:CAD")),
        info("ar2", "Client B", Some("ar"), None, Some("CURRENCY:CAD")),
        info("usd", "US Account", None, Some("1300"), Some("CURRENCY:USD")),
    ]
}

fn splits() -> Vec<SplitRow> {
    vec![
        split("ar1", "t2", "2024-02-01", 5000, 100, "n", Some("Invoice 2"), None),
        split("ar1", "t1", "2024-01-15", 10000, 100, "c", Some("Invoice 1"), Some("net 30")),
        split("ar1", "t3", "2024-03-01", -10000, 100, "y", Some("Payment"), None),
        split("ar2", "t4", "2024-01-20", 2500, 100, "n", Some("Invoice B"), None),
        split("usd", "t5", "2024-01-05", 700, 100, "n", Some("Transfer"), None),
    ]
}

#[test]
fn read_params_requires_accounts() {
    let none = read_params(&None, &None, &None, &None, &None, &None, &None);
    assert!(matches!(none, Err(AccountReportError::NoAccounts)));
    let empty = read_params(&s(""), &None, &None, &None, &None, &None, &None);
    assert!(matches!(empty, Err(AccountReportError::NoAccounts)));
    let (roots, f) = read_params(&s("a,b"), &s("0"), &s("2024-01-01"), &s(""), &None, &s("ny"), &s("InVoice")).unwrap();
    assert_eq!(roots, vec!["a".to_string(), "b".to_string()]);
    assert!(!f.include_sub);
    assert_eq!(f.from.as_deref(), Some("2024-01-01"));
    assert_eq!(f.to, None);
    assert_eq!(f.dir, "all");
    assert_eq!(f.reconciled, "ny");
    assert_eq!(f.needle.as_deref(), Some("invoice"));
}

#[test]
fn selection_expands_to_subtrees_sorted_by_code() {
    let rows = accounts();
    let sel = select_accounts(&rows, &vec!["ar".to_string()], true);
    // codes: ar2 has none (sorts first), then 1200, 1210
    assert_eq!(sel, vec![2, 0, 1]);
    let only = select_accounts(&rows, &vec!["ar".to_string()], false);
    assert_eq!(only, vec![0]);
    let missing = select_accounts(&rows, &vec!["zz".to_string()], true);
    assert!(missing.is_empty());
}

#[test]
fn report_groups_rows_with_running_totals() {
    let rows = accounts();
    let (roots, f) = read_params(&s("ar"), &None, &None, &None, &None, &None, &None).unwrap();
    let out = account_report_data(&roots, &f, &rows, &splits()).unwrap();
    assert_eq!(out.count, 4);
    assert_eq!(out.groups.len(), 2);
    let b = &out.groups[0];
    assert_eq!(b.account_id, "ar2");
    assert_eq!(b.account_name, "Client B");
    assert_eq!(b.commodity, "CAD");
    assert_eq!(b.total, (2500, 100));
    let a = &out.groups[1];
    assert_eq!(a.account_name, "1210 Client A");
    let order: Vec<usize> = a.rows.iter().map(|r| r.split).collect();
    assert_eq!(order, vec![1, 0, 2]);
    let running: Vec<(i128, i128)> = a.rows.iter().map(|r| r.running).collect();
    assert_eq!(running, vec![(10000, 100), (15000, 100), (5000, 100)]);
    assert_eq!(a.total, (5000, 100));
}

#[test]
fn report_filters() {
    let rows = accounts();
    let sp = splits();
    let (roots, f) = read_params(&s("ar"), &None, &s("2024-01-16"), &s("2024-02-28"), &None, &None, &None).unwrap();
    let out = account_report_data(&roots, &f, &rows, &sp).unwrap();
    assert_eq!(out.count, 2);
    let (roots, f) = read_params(&s("ar"), &None, &None, &None, &s("out"), &None, &None).unwrap();
    let out = account_report_data(&roots, &f, &rows, &sp).unwrap();
    assert_eq!(out.count, 1);
    assert_eq!(out.groups[0].rows[0].split, 2);
    let (roots, f) = read_params(&s("ar"), &None, &None, &None, &None, &s("ny"), &None).unwrap();
    let out = account_report_data(&roots, &f, &rows, &sp).unwrap();
    assert_eq!(out.count, 3);
    let (roots, f) = read_params(&s("ar"), &None, &None, &None, &None, &s("c"), &None).unwrap();
    let out = account_report_data(&roots, &f, &rows, &sp).unwrap();
    assert_eq!(out.count, 1);
    let (roots, f) = read_params(&s("ar"), &None, &None, &None, &None, &None, &s("NET 3")).unwrap();
    let out = account_report_data(&roots, &f, &rows, &sp).unwrap();
    assert_eq!(out.count, 1);
    assert_eq!(out.groups[0].rows[0].split, 1);
}

#[test]
fn report_overflow_is_an_error() {
    let rows = vec![info("x", "X", None, None, None)];
    let sp = vec![split("x", "t", "2024-01-01", 1, 0, "n", None, None)];
    let (roots, f) = read_params(&s("x"), &None, &None, &None, &None, &None, &None).unwrap();
    assert!(matches!(account_report_data(&roots, &f, &rows, &sp), Err(AccountReportError::Overflow)));
    let out = account_report_data(&roots, &f, &vec![info("x", "X", None, None, None)], &vec![]).unwrap();
    assert_eq!(out.count, 0);
}

#[test]
fn amounts_parse_back() {
    assert_eq!(parse_amount("-456.54"), Some((-45654, 100)));
    assert_eq!(parse_amount("12"), Some((12, 1)));
    assert_eq!(parse_amount("-0.05"), Some((-5, 100)));
    assert_eq!(parse_amount("abc.5"), Some((5, 10)));
    assert_eq!(parse_amount("3/4"), Some((0, 1)));
    let long = format!("1.{}1", "0".repeat(38));
    assert_eq!(parse_amount(&long), None);
    let most = format!("1.{}1", "0".repeat(37));
    assert!(parse_amount(&most).is_some());
}

#[test]
fn grand_total_needs_one_commodity() {
    let cad = |x: &str| x.to_string();
    assert_eq!(
        grand_total(&vec![cad("CAD"), cad("CAD")], &vec![cad("25.00"), cad("50.5")]).ok().unwrap().map(|(t, c)| (t, c)),
        Some(((7550, 100), "CAD".to_string()))
    );
    assert!(grand_total(&vec![cad("CAD"), cad("USD")], &vec![cad("1"), cad("2")]).ok().unwrap().is_none());
    assert!(grand_total(&vec![], &vec![]).ok().unwrap().is_none());
}

#[test]
fn subtitle_summarises_filters() {
    assert_eq!(account_report_subtitle(&None, &None, &None, &None, &None), "all dates");
    assert_eq!(
        account_report_subtitle(&s("2024-01-01"), &s("2024-03-31"), &s("in"), &s("ny"), &s("rent")),
        "2024-01-01 to 2024-03-31 \u{b7} debits only \u{b7} unreconciled only \u{b7} matching \u{201c}rent\u{201d}"
    );
    assert_eq!(account_report_subtitle(&s("2024-01-01"), &None, &s("out"), &s("y"), &None), "from 2024-01-01 \u{b7} credits only \u{b7} reconciled only");
    assert_eq!(account_report_subtitle(&None, &s("2024-01-01"), &s("all"), &s("c"), &s("")), "through 2024-01-01 \u{b7} cleared only");
}

#[test]
fn substring_search() {
    let c = |x: &str| x.chars().collect::<Vec<char>>();
    assert!(contains_chars(&c("invoice 12"), &c("ice 1")));
    assert!(contains_chars(&c("abc"), &c("")));
    assert!(!contains_chars(&c("abc"), &c("abcd")));
    assert!(!contains_chars(&c("abc"), &c("ac")));
}

#[test]
fn unreconciled_filter_keeps_only_new_and_cleared() {
    let rows = vec![info("x", "X", None, None, None)];
    let sp = vec![
        split("x", "t1", "2024-01-01", 100, 100, "n", None, None),
        split("x", "t2", "2024-01-02", 200, 100, "c", None, None),
        split("x", "t3", "2024-01-03", 300, 100, "y", None, None),
        split("x", "t4", "2024-01-04", 400, 100, "f", None, None),
        split("x", "t5", "2024-01-05", 500, 100, "v", None, None),
    ];
    let (roots, f) = read_params(&s("x"), &None, &None, &None, &None, &s("ny"), &None).unwrap();
    let out = account_report_data(&roots, &f, &rows, &sp).unwrap();
    assert_eq!(out.count, 2);
    assert_eq!(out.groups[0].rows[0].split, 0);
    assert_eq!(out.groups[0].rows[1].split, 1);
}

#[test]
fn amounts_read_back_what_format_writes() {
    for (n, d) in [(-45654i128, 100i128), (7, 1), (-5, 1000), (i128::MAX, 100), (-i128::MAX, 10)] {
        let text = kachet::money::format(n, d).unwrap();
        assert_eq!(parse_amount(&text), Some((n, d)));
    }
}
