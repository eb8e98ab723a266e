use kachet::book::{build_book, select_price, to_cents, AccountRow, PriceRow, SplitQty};
use kachet::report::{balance_sheet_rows, fmt, income_statement_rows, mnemonic, RowKind};

fn acct(id: &str, name: &str, kind: &str, parent: Option<&str>, commodity: Option<&str>) -> AccountRow {
    AccountRow {
        id: id.to_string(),
        name: name.to_string(),
        kind: kind.to_string(),
        commodity_id: commodity.map(|c| c.to_string()),
        parent_id: parent.map(|p| p.to_string()),
        code: None,
    }
}

fn split(account: &str, num: i64, denom: i64) -> SplitQty {
    SplitQty { account_id: account.to_string(), num, denom }
}

fn small_book() -> (Vec<AccountRow>, Vec<SplitQty>) {
    let rows = vec![
        acct("a1", "Assets", "ASSET", None, Some("CURRENCY:CAD")),
        acct("a2", "Chequing", "BANK", Some("a1"), Some("CURRENCY:CAD")),
        acct("a3", "Salary", "INCOME", None, Some("CURRENCY:CAD")),
        acct("a4", "Owner", "EQUITY", None, Some("CURRENCY:CAD")),
    ];
    let splits = vec![split("a2", 10000, 100), split("a3", -10000, 100)];
    (rows, splits)
}

#[test]
fn cents_are_rendered_with_two_places() {
    assert_eq!(fmt(123456), "1234.56");
    assert_eq!(fmt(-5), "-0.05");
    assert_eq!(fmt(0), "0.00");
}

#[test]
fn mnemonic_is_what_follows_the_last_colon() {
    assert_eq!(mnemonic(&"CURRENCY:USD".to_string()), "USD");
    assert_eq!(mnemonic(&"PLAIN".to_string()), "PLAIN");
    assert_eq!(mnemonic(&"A:B:".to_string()), "");
}

#[test]
fn conversion_rounds_half_away_from_zero() {
    // 1.005 USD at 1.00 CAD -> 100.5 cents -> 101
    assert_eq!(to_cents((1005, 1000), (1, 1)), Some(101));
    assert_eq!(to_cents((-1005, 1000), (1, 1)), Some(-101));
    // 10 USD at 1.3456 CAD
    assert_eq!(to_cents((1000, 100), (13456, 10000)), Some(1346));
}

#[test]
fn nearest_price_on_or_before_wins() {
    let p = |d: &str, n: i64| PriceRow { commodity_id: "CURRENCY:USD".to_string(), date: d.to_string(), num: n, denom: 100 };
    let prices = vec![p("2024-01-01", 130), p("2024-03-01", 135), p("2024-02-01", 132), p("2024-05-01", 140)];
    let c = "CURRENCY:USD".to_string();
    assert_eq!(select_price(&prices, &c, &"2024-02-15".to_string()), Some(2));
    assert_eq!(select_price(&prices, &c, &"2023-12-01".to_string()), Some(0));
    assert_eq!(select_price(&prices, &"CURRENCY:EUR".to_string(), &"2024-02-15".to_string()), None);
}

#[test]
fn balance_sheet_of_a_small_book() {
    let (rows, splits) = small_book();
    let book = build_book(&rows, &splits, &vec![], &"2024-12-31".to_string()).unwrap();
    let rep = balance_sheet_rows(&book);
    assert_eq!(rep.currency, "CAD");
    assert_eq!(rep.cols, 3);
    let shown: Vec<(RowKind, String, Option<String>)> =
        rep.rows.iter().map(|r| (r.kind, r.label.clone(), r.amount.clone())).collect();
    let s = |k: RowKind, l: &str, a: Option<&str>| (k, l.to_string(), a.map(|x| x.to_string()));
    assert_eq!(
        shown,
        vec![
            s(RowKind::Section, "Assets", None),
            s(RowKind::Account, "Assets", None),
            s(RowKind::Account, "Chequing", Some("100.00")),
            s(RowKind::Subtotal, "Total Assets", Some("100.00")),
            s(RowKind::Total, "Total Assets", Some("100.00")),
            s(RowKind::Blank, "", None),
            s(RowKind::Section, "Liabilities", None),
            s(RowKind::Total, "Total Liabilities", Some("0.00")),
            s(RowKind::Blank, "", None),
            s(RowKind::Section, "Equity", None),
            s(RowKind::Total, "Retained Earnings", Some("100.00")),
            s(RowKind::Total, "Total Equity", Some("100.00")),
            s(RowKind::Blank, "", None),
            s(RowKind::Total, "Total Liabilities & Equity", Some("100.00")),
        ]
    );
    assert_eq!(rep.rows[1].col, 2);
    assert_eq!(rep.rows[2].col, 1);
    assert_eq!(rep.rows[2].depth, 2);
}

#[test]
fn income_statement_of_a_small_book() {
    let (rows, splits) = small_book();
    let book = build_book(&rows, &splits, &vec![], &"2024-12-31".to_string()).unwrap();
    let rep = income_statement_rows(&book);
    let last = rep.rows.last().unwrap();
    assert_eq!(last.kind, RowKind::Net);
    assert_eq!(last.label, "Net income for Period");
    assert_eq!(last.amount.as_deref(), Some("100.00"));
    assert_eq!(rep.rows[0].label, "Revenues");
    assert_eq!(rep.rows[1].label, "Salary");
    assert_eq!(rep.rows[1].amount.as_deref(), Some("100.00"));
}

#[test]
fn foreign_accounts_convert_at_the_nearest_price() {
    let rows = vec![
        acct("a1", "US Bank", "BANK", None, Some("CURRENCY:USD")),
        acct("a2", "Owner", "EQUITY", None, Some("CURRENCY:CAD")),
    ];
    let splits = vec![split("a1", 1000, 100), split("a2", -1300, 100)];
    let prices = vec![PriceRow { commodity_id: "CURRENCY:USD".to_string(), date: "2024-01-01".to_string(), num: 130, denom: 100 }];
    let book = build_book(&rows, &splits, &prices, &"2024-06-30".to_string()).unwrap();
    assert_eq!(book.accounts[0].own_cents, 1300);
    let rep = balance_sheet_rows(&book);
    let bank = &rep.rows[1];
    assert_eq!(bank.label, "US Bank");
    assert_eq!(bank.amount.as_deref(), Some("13.00"));
    let f = bank.foreign.as_ref().unwrap();
    assert_eq!(f.mnemonic, "USD");
    assert_eq!((f.num, f.denom), (1000, 100));
}

#[test]
fn a_total_is_own_cents_plus_children_totals() {
    let mut rows = small_book().0;
    rows.push(acct("a5", "Savings", "BANK", Some("a1"), Some("CURRENCY:CAD")));
    let splits = vec![split("a1", 500, 100), split("a2", 10000, 100), split("a5", 2500, 100), split("a3", -13000, 100)];
    let book = build_book(&rows, &splits, &vec![], &"2024-12-31".to_string()).unwrap();
    for x in 0..book.accounts.len() {
        let kids: i128 = book.children[x].iter().map(|&c| book.totals[c]).sum();
        assert_eq!(book.totals[x], book.accounts[x].own_cents + kids);
    }
    assert_eq!(book.totals[0], 13000);
    let all: i128 = book.accounts.iter().map(|a| a.own_cents).sum();
    assert_eq!(all, 0);
}
