use kachet::import::{date_part, document_bytes, parse, plan_import, CommodityRef, ImportError};
use std::io::Write;

const BOOK: &str = r#"<?xml version="1.0" encoding="utf-8" ?>
<gnc-v2 xmlns:gnc="http://www.gnucash.org/XML/gnc">
<gnc:book version="2.0.0">
<gnc:commodity version="2.0.0">
  <cmdty:space>CURRENCY</cmdty:space>
  <cmdty:id>CAD</cmdty:id>
</gnc:commodity>
<gnc:commodity version="2.0.0">
  <cmdty:space>NASDAQ</cmdty:space>
  <cmdty:id>ACME</cmdty:id>
  <cmdty:fraction>10000</cmdty:fraction>
</gnc:commodity>
<gnc:account version="2.0.0">
  <act:name>Root Account</act:name>
  <act:id type="guid">root</act:id>
  <act:type>ROOT</act:type>
</gnc:account>
<gnc:account version="2.0.0">
  <act:name>Chequing &amp; Savings</act:name>
  <act:id type="guid">chq</act:id>
  <act:type>BANK</act:type>
  <act:commodity>
    <cmdty:space>CURRENCY</cmdty:space>
    <cmdty:id>CAD</cmdty:id>
  </act:commodity>
  <act:code>1010</act:code>
  <act:slots>
    <slot>
      <slot:key>placeholder</slot:key>
      <slot:value type="string">true</slot:value>
    </slot>
    <slot>
      <slot:key>notes</slot:key>
      <slot:value type="string">  main account  </slot:value>
    </slot>
  </act:slots>
  <act:parent type="guid">root</act:parent>
</gnc:account>
<gnc:account version="2.0.0">
  <act:name>Template</act:name>
  <act:id type="guid">tpl</act:id>
  <act:type>BANK</act:type>
  <act:commodity>
    <cmdty:space>template</cmdty:space>
    <cmdty:id>template</cmdty:id>
  </act:commodity>
</gnc:account>
<gnc:transaction version="2.0.0">
  <trn:id type="guid">tx1</trn:id>
  <trn:currency>
    <cmdty:space>CURRENCY</cmdty:space>
    <cmdty:id>CAD</cmdty:id>
  </trn:currency>
  <trn:num>17</trn:num>
  <trn:date-posted>
    <ts:date>2024-01-05 10:59:00 -0500</ts:date>
  </trn:date-posted>
  <trn:date-entered>
    <ts:date>2024-01-06 08:00:00 -0500</ts:date>
  </trn:date-entered>
  <trn:description>Deposit</trn:description>
  <trn:slots>
    <slot>
      <slot:key>date-posted</slot:key>
      <slot:value type="gdate">
        <gdate>2024-01-04</gdate>
      </slot:value>
    </slot>
  </trn:slots>
  <trn:splits>
    <trn:split>
      <split:id type="guid">s1</split:id>
      <split:memo>cash</split:memo>
      <split:reconciled-state>c</split:reconciled-state>
      <split:value>12345/100</split:value>
      <split:quantity>12345/100</split:quantity>
      <split:account type="guid">chq</split:account>
    </trn:split>
    <trn:split>
      <split:id type="guid">s2</split:id>
      <split:reconciled-state>n</split:reconciled-state>
      <split:value>-12345/100</split:value>
      <split:quantity>-12345/100</split:quantity>
      <split:account type="guid">root</split:account>
    </trn:split>
  </trn:splits>
</gnc:transaction>
<gnc:pricedb version="1">
  <price>
    <price:id type="guid">p1</price:id>
    <price:commodity>
      <cmdty:space>CURRENCY</cmdty:space>
      <cmdty:id>USD</cmdty:id>
    </price:commodity>
    <price:currency>
      <cmdty:space>CURRENCY</cmdty:space>
      <cmdty:id>CAD</cmdty:id>
    </price:currency>
    <price:time>
      <ts:date>2024-01-02 00:00:00 +0000</ts:date>
    </price:time>
    <price:source>user:price</price:source>
    <price:type>last</price:type>
    <price:value>13456/10000</price:value>
  </price>
  <price>
    <price:id type="guid">p2</price:id>
    <price:value>1/1</price:value>
  </price>
</gnc:pricedb>
</gnc:book>
</gnc-v2>
"#;

#[test]
fn dates_keep_their_first_word() {
    assert_eq!(date_part("2024-01-05 10:59:00 -0500"), "2024-01-05");
    assert_eq!(date_part("  2024-01-05"), "2024-01-05");
    assert_eq!(date_part("   "), "   ");
}

#[test]
fn commodity_keys() {
    let c = CommodityRef { space: "CURRENCY".to_string(), id: "CAD".to_string() };
    assert_eq!(c.key(), "CURRENCY:CAD");
    assert!(c.is_currency());
    assert!(CommodityRef { space: "ISO4217".to_string(), id: "USD".to_string() }.is_currency());
    assert!(!CommodityRef { space: "NASDAQ".to_string(), id: "ACME".to_string() }.is_currency());
}

#[test]
fn parses_a_book() {
    let p = parse(BOOK.as_bytes()).ok().unwrap();
    let keys: Vec<(String, i64)> = p.commodities.iter().map(|c| (c.key.clone(), c.fraction)).collect();
    assert_eq!(
        keys,
        vec![
            ("CURRENCY:CAD".to_string(), 100),
            ("NASDAQ:ACME".to_string(), 10000),
            ("CURRENCY:USD".to_string(), 100),
        ]
    );
    assert_eq!(p.accounts.len(), 3);
    let chq = &p.accounts[1];
    assert_eq!(chq.name, "Chequing & Savings");
    assert_eq!(chq.kind, "BANK");
    assert_eq!(chq.code.as_deref(), Some("1010"));
    assert_eq!(chq.parent.as_deref(), Some("root"));
    assert!(chq.placeholder);
    assert!(!chq.hidden);
    assert_eq!(chq.notes.as_deref(), Some("main account"));
    assert_eq!(chq.commodity.as_ref().unwrap().key(), "CURRENCY:CAD");
    assert_eq!(p.transactions.len(), 1);
    let t = &p.transactions[0];
    assert_eq!(t.id, "tx1");
    assert_eq!(t.num.as_deref(), Some("17"));
    assert_eq!(t.date_posted.as_deref(), Some("2024-01-05"));
    assert_eq!(t.gdate_posted.as_deref(), Some("2024-01-04"));
    assert_eq!(t.date_entered.as_deref(), Some("2024-01-06 08:00:00 -0500"));
    assert_eq!(t.splits.len(), 2);
    assert_eq!(t.splits[0].memo.as_deref(), Some("cash"));
    assert_eq!(t.splits[0].reconcile, "c");
    assert_eq!(t.splits[0].value, (12345, 100));
    assert_eq!(t.splits[1].quantity, (-12345, 100));
    assert_eq!(t.splits[1].account, "root");
    assert_eq!(p.prices.len(), 2);
    assert_eq!(p.prices[0].date.as_deref(), Some("2024-01-02"));
    assert_eq!(p.prices[0].value, (13456, 10000));
    assert_eq!(p.prices[0].kind.as_deref(), Some("last"));
}

#[test]
fn plans_what_to_store() {
    let p = parse(BOOK.as_bytes()).ok().unwrap();
    let plan = plan_import(&p).ok().unwrap();
    // the template account is left out
    assert_eq!(plan.accounts, vec![0, 1]);
    assert_eq!(plan.transactions.len(), 1);
    assert_eq!(plan.transactions[0].currency_id, "CURRENCY:CAD");
    assert_eq!(plan.transactions[0].date, "2024-01-04");
    // the second price has no commodity
    assert_eq!(plan.prices, vec![0]);
    assert_eq!(plan.stats.commodities, 3);
    assert_eq!(plan.stats.accounts, 2);
    assert_eq!(plan.stats.transactions, 1);
    assert_eq!(plan.stats.splits, 2);
    assert_eq!(plan.stats.prices, 1);
}

#[test]
fn a_transaction_without_currency_is_refused() {
    let doc = "<gnc:transaction><trn:id>t9</trn:id><trn:currency><cmdty:space>NASDAQ</cmdty:space><cmdty:id>X</cmdty:id></trn:currency></gnc:transaction>";
    let p = parse(doc.as_bytes()).ok().unwrap();
    match plan_import(&p) {
        Err(ImportError::NoCurrency(id)) => assert_eq!(id, "t9"),
        _ => panic!("expected a missing currency"),
    }
    let doc = "<gnc:transaction><trn:id>t8</trn:id><trn:currency><cmdty:space>ISO4217</cmdty:space><cmdty:id>USD</cmdty:id></trn:currency></gnc:transaction>";
    let p = parse(doc.as_bytes()).ok().unwrap();
    match plan_import(&p) {
        Err(ImportError::NoDate(id)) => assert_eq!(id, "t8"),
        _ => panic!("expected a missing date"),
    }
}

#[test]
fn bad_fractions_and_bad_xml_are_errors() {
    let doc = "<gnc:transaction><trn:split><split:value>12</split:value></trn:split></gnc:transaction>";
    assert!(matches!(parse(doc.as_bytes()), Err(ImportError::Fraction(_))));
    // outside a split the value is ignored
    let doc = "<gnc:transaction><split:value>12</split:value></gnc:transaction>";
    assert!(parse(doc.as_bytes()).is_ok());
    assert!(matches!(parse("<a></b>".as_bytes()), Err(ImportError::Xml(_))));
}

#[test]
fn gzip_files_are_decompressed() {
    let mut enc = flate2::write::GzEncoder::new(Vec::new(), flate2::Compression::default());
    enc.write_all(BOOK.as_bytes()).unwrap();
    let gz = enc.finish().unwrap();
    assert_eq!(&gz[..2], &[0x1f, 0x8b]);
    let raw = document_bytes(gz).ok().unwrap();
    assert_eq!(raw, BOOK.as_bytes());
    let plain = document_bytes(BOOK.as_bytes().to_vec()).ok().unwrap();
    assert_eq!(plain, BOOK.as_bytes());
    assert!(matches!(document_bytes(vec![0x1f, 0x8b, 0, 0]), Err(ImportError::Gzip(_))));
}

#[test]
fn text_that_does_not_decode_or_unescape_is_an_xml_error() {
    let bad_entity = "<gnc-v2><act:name>A &bogus; B</act:name></gnc-v2>";
    assert!(matches!(parse(bad_entity.as_bytes()), Err(ImportError::Xml(_))));
    let mut bad_utf8 = b"<gnc-v2><act:name>".to_vec();
    bad_utf8.push(0xff);
    bad_utf8.extend_from_slice(b"</act:name></gnc-v2>");
    assert!(matches!(parse(&bad_utf8), Err(ImportError::Xml(_))));
}

#[test]
fn the_same_bytes_read_the_same_plain_or_compressed() {
    let mut enc = flate2::write::GzEncoder::new(Vec::new(), flate2::Compression::default());
    enc.write_all(BOOK.as_bytes()).unwrap();
    let from_gz = document_bytes(enc.finish().unwrap()).ok().unwrap();
    let a = parse(&from_gz).ok().unwrap();
    let b = parse(BOOK.as_bytes()).ok().unwrap();
    let keys = |p: &kachet::import::Parsed| -> Vec<String> { p.commodities.iter().map(|c| c.key.clone()).collect() };
    assert_eq!(keys(&a), keys(&b));
    let names = |p: &kachet::import::Parsed| -> Vec<String> { p.accounts.iter().map(|c| c.name.clone()).collect() };
    assert_eq!(names(&a), names(&b));
    assert_eq!(a.transactions.len(), b.transactions.len());
    assert_eq!(a.prices.len(), b.prices.len());
    for (x, y) in a.transactions.iter().zip(b.transactions.iter()) {
        assert_eq!(x.id, y.id);
        assert_eq!(x.splits.len(), y.splits.len());
        for (s, t) in x.splits.iter().zip(y.splits.iter()) {
            assert_eq!(s.value, t.value);
            assert_eq!(s.quantity, t.quantity);
        }
    }
}

#[test]
fn noting_a_commodity_with_and_without_a_fraction_commutes() {
    let usd = CommodityRef { space: "CURRENCY".to_string(), id: "USD".to_string() };
    let acme = CommodityRef { space: "NASDAQ".to_string(), id: "ACME".to_string() };
    let mut p1 = kachet::import::Parsed::new();
    let mut p2 = kachet::import::Parsed::new();
    p1.note_commodity(&acme, None);
    p2.note_commodity(&acme, None);
    p1.note_commodity(&usd, Some(1000));
    p1.note_commodity(&usd, None);
    p2.note_commodity(&usd, None);
    p2.note_commodity(&usd, Some(1000));
    let view = |p: &kachet::import::Parsed| -> Vec<(String, i64)> { p.commodities.iter().map(|c| (c.key.clone(), c.fraction)).collect() };
    assert_eq!(view(&p1), view(&p2));
    assert_eq!(view(&p1), vec![("NASDAQ:ACME".to_string(), 100), ("CURRENCY:USD".to_string(), 1000)]);
}
