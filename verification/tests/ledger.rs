use kachet::book::SplitQty;
use kachet::ledger::{
    check_delete, check_commodity_change, check_tx, list_accounts, new_guid, register_entries, validate_account,
    web_hash, AccountError, AccountIn, AccountKey, ParentLink, RegisterRow, SplitIn, TxError, TxIn,
};

fn split_in(acct: &str, value: &str, quantity: Option<&str>) -> SplitIn {
    SplitIn {
        account_id: acct.to_string(),
        memo: None,
        value: value.to_string(),
        quantity: quantity.map(|q| q.to_string()),
        reconcile_state: None,
    }
}

fn tx(date: &str, splits: Vec<SplitIn>) -> TxIn {
    TxIn { currency_id: "CURRENCY:CAD".to_string(), date_posted: date.to_string(), num: None, description: None, splits }
}

#[test]
fn guids_are_hex() {
    let id = new_guid([0x00, 0x01, 0x0a, 0xff, 0x10, 0x20, 0x30, 0x40, 0x50, 0x60, 0x70, 0x80, 0x90, 0xa0, 0xb0, 0xc9]);
    assert_eq!(id, "00010aff102030405060708090a0b0c9");
}

#[test]
fn balanced_transactions_pass() {
    let body = tx("2024-01-05", vec![split_in("a", "100.00", None), split_in("b", "-100", Some("-70.5"))]);
    let rows = check_tx(&body, Some(100), &vec![Some(100), Some(10)]).ok().unwrap();
    assert_eq!(rows.len(), 2);
    assert_eq!(rows[0].value, (10000, 100));
    assert_eq!(rows[0].quantity, (10000, 100));
    assert_eq!(rows[1].value, (-10000, 100));
    assert_eq!(rows[1].quantity, (-705, 10));
    assert_eq!(rows[1].reconcile_state, "n");
}

#[test]
fn transactions_are_refused_in_order() {
    let one = tx("2024-01-05", vec![split_in("a", "1", None)]);
    assert!(matches!(check_tx(&one, Some(100), &vec![Some(100)]), Err(TxError::TooFewSplits)));
    let bad_date = tx("2024-1-5", vec![split_in("a", "1", None), split_in("b", "-1", None)]);
    assert!(matches!(check_tx(&bad_date, Some(100), &vec![Some(100), Some(100)]), Err(TxError::BadDate)));
    let ok = tx("2024-01-05", vec![split_in("a", "1", None), split_in("b", "-1", None)]);
    match check_tx(&ok, None, &vec![Some(100), Some(100)]) {
        Err(TxError::UnknownCurrency(c)) => assert_eq!(c, "CURRENCY:CAD"),
        _ => panic!("expected an unknown currency"),
    }
    match check_tx(&ok, Some(100), &vec![Some(100), None]) {
        Err(TxError::UnknownAccount(a)) => assert_eq!(a, "b"),
        _ => panic!("expected an unknown account"),
    }
    let precise = tx("2024-01-05", vec![split_in("a", "1.005", None), split_in("b", "-1", None)]);
    assert!(matches!(check_tx(&precise, Some(100), &vec![Some(100), Some(100)]), Err(TxError::Amount(kachet::money::MoneyError::TooManyDecimals { .. }))));
    let off = tx("2024-01-05", vec![split_in("a", "1", None), split_in("b", "-0.99", None)]);
    match check_tx(&off, Some(100), &vec![Some(100), Some(100)]) {
        Err(TxError::Unbalanced(n, d)) => assert_eq!((n, d), (1, 100)),
        _ => panic!("expected unbalanced splits"),
    }
    assert!(matches!(check_tx(&ok, Some(0), &vec![Some(100), Some(100)]), Err(TxError::Overflow)));
}

#[test]
fn register_keeps_a_running_balance() {
    let r = |t: &str, n: i64| RegisterRow { tx_id: t.to_string(), quantity_num: n, quantity_denom: 100 };
    let rows = vec![r("t1", 1000), r("t2", -250), r("t1", 5)];
    let tx_ids: Vec<String> = ["t1", "t2", "t1", "t3", "t2"].iter().map(|s| s.to_string()).collect();
    let es = register_entries(&rows, &tx_ids).unwrap();
    let running: Vec<(i128, i128)> = es.iter().map(|e| e.running).collect();
    assert_eq!(running, vec![(1000, 100), (750, 100), (755, 100)]);
    assert_eq!(es[0].siblings, vec![0, 2]);
    assert_eq!(es[1].siblings, vec![1, 4]);
    assert_eq!(es[2].row, 2);
    let bad = vec![RegisterRow { tx_id: "t".to_string(), quantity_num: 1, quantity_denom: 0 }];
    assert!(register_entries(&bad, &vec![]).is_none());
}

#[test]
fn account_list_is_sorted_with_balances() {
    let k = |id: &str, code: Option<&str>, name: &str| AccountKey { id: id.to_string(), code: code.map(|c| c.to_string()), name: name.to_string() };
    let accounts = vec![k("x", Some("2000"), "Loans"), k("y", None, "Misc"), k("z", Some("1000"), "Cash")];
    let sp = |a: &str, n: i64| SplitQty { account_id: a.to_string(), num: n, denom: 100 };
    let splits = vec![sp("z", 500), sp("x", -200), sp("z", 250)];
    let out = list_accounts(&accounts, &splits).unwrap();
    let shown: Vec<(usize, (i128, i128), usize)> = out.iter().map(|e| (e.row, e.balance, e.tx_count)).collect();
    assert_eq!(shown, vec![(1, (0, 100), 0), (2, (750, 100), 2), (0, (-200, 100), 1)]);
}

fn acct_in(name: &str, kind: &str, parent: Option<&str>) -> AccountIn {
    AccountIn {
        name: name.to_string(),
        kind: kind.to_string(),
        commodity_id: "CURRENCY:CAD".to_string(),
        parent_id: parent.map(|p| p.to_string()),
        code: None,
        description: None,
        placeholder: false,
        hidden: false,
    }
}

#[test]
fn account_checks() {
    let links = vec![
        ParentLink { id: "root".to_string(), parent_id: None },
        ParentLink { id: "a".to_string(), parent_id: Some("root".to_string()) },
        ParentLink { id: "b".to_string(), parent_id: Some("a".to_string()) },
    ];
    assert!(validate_account(&acct_in("Bank", "BANK", Some("b")), true, &None, &links).is_ok());
    assert!(matches!(validate_account(&acct_in("  ", "BANK", None), true, &None, &links), Err(AccountError::NameRequired)));
    assert!(matches!(validate_account(&acct_in("X", "STOCK", None), true, &None, &links), Err(AccountError::BadKind(_))));
    assert!(matches!(validate_account(&acct_in("X", "BANK", None), false, &None, &links), Err(AccountError::UnknownCommodity(_))));
    assert!(matches!(validate_account(&acct_in("X", "BANK", Some("b")), true, &Some("a".to_string()), &links), Err(AccountError::Cycle)));
    match validate_account(&acct_in("X", "BANK", Some("q")), true, &None, &links) {
        Err(AccountError::UnknownParent(p)) => assert_eq!(p, "q"),
        _ => panic!("expected an unknown parent"),
    }
    let looped = vec![
        ParentLink { id: "p".to_string(), parent_id: Some("q".to_string()) },
        ParentLink { id: "q".to_string(), parent_id: Some("p".to_string()) },
    ];
    assert!(matches!(validate_account(&acct_in("X", "BANK", Some("p")), true, &None, &looped), Err(AccountError::TooDeep)));
}

#[test]
fn commodity_and_delete_checks() {
    let cad = "CURRENCY:CAD".to_string();
    assert!(check_commodity_change(0, &None, &cad).is_ok());
    assert!(matches!(check_commodity_change(3, &None, &cad), Err(AccountError::NotFound)));
    assert!(check_commodity_change(3, &Some(Some(cad.clone())), &cad).is_ok());
    assert!(matches!(check_commodity_change(3, &Some(None), &cad), Err(AccountError::CommodityChange)));
    assert!(matches!(check_delete(2, 1), Err(AccountError::HasSplits(2))));
    assert!(matches!(check_delete(0, 4), Err(AccountError::HasChildren(4))));
    assert!(check_delete(0, 0).is_ok());
}

fn fnv(mut times: Vec<u64>) -> String {
    times.sort_unstable();
    let mut h: u64 = 0xcbf29ce484222325;
    for t in times {
        for b in t.to_le_bytes() {
            h ^= b as u64;
            h = h.wrapping_mul(0x100000001b3);
        }
    }
    format!("{h:016x}")
}

#[test]
fn web_hash_is_fnv_over_sorted_times() {
    assert_eq!(web_hash(&vec![]), "cbf29ce484222325");
    let a = vec![1700000000u64, 5, 1600000000, 5];
    assert_eq!(web_hash(&a), fnv(a.clone()));
    assert_eq!(web_hash(&a), web_hash(&vec![5, 5, 1600000000, 1700000000]));
    assert_ne!(web_hash(&a), web_hash(&vec![5, 1600000000, 1700000000]));
}

#[test]
fn asset_paths() {
    assert_eq!(kachet::ledger::asset_path("/"), "index.html");
    assert_eq!(kachet::ledger::asset_path("//assets/app.js"), "assets/app.js");
    assert_eq!(kachet::ledger::asset_path(""), "index.html");
}

#[test]
fn dates_must_be_calendar_dates() {
    let two = |d: &str| tx(d, vec![split_in("a", "1", None), split_in("b", "-1", None)]);
    let fr = vec![Some(100), Some(100)];
    for bad in ["2024/13/99", "2024-13-01", "2024-00-10", "2024-02-30", "2023-02-29", "2024-04-31", "2024-01-00", "abcd-01-01", "2024-01-1x"] {
        assert!(matches!(check_tx(&two(bad), Some(100), &fr), Err(TxError::BadDate)), "{bad}");
    }
    for good in ["2024-02-29", "2000-02-29", "2023-12-31", "0001-01-01"] {
        assert!(check_tx(&two(good), Some(100), &fr).is_ok(), "{good}");
    }
    assert!(matches!(check_tx(&two("1900-02-29"), Some(100), &fr), Err(TxError::BadDate)));
    assert!(kachet::ledger::iso_date("2024-06-30"));
    assert!(!kachet::ledger::iso_date("2024-06-31"));
}
