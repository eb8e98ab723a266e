use kachet::report::{ReportKind, ReportOut, ReportRow, RowKind};
use kachet::typst::{account_to_typst, to_typst, typst_esc, DocGroup, DocRow};

#[test]
fn markup_characters_are_escaped() {
    assert_eq!(typst_esc("A & B #1 *x* [y] <z> @w ~ $ ` _ \\"), "A & B \\#1 \\*x\\* \\[y\\] \\<z\\> \\@w \\~ \\$ \\` \\_ \\\\");
    assert_eq!(typst_esc("plain"), "plain");
}

fn row(kind: RowKind, depth: i64, label: &str, amount: Option<&str>, col: i64) -> ReportRow {
    ReportRow { kind, depth, label: label.to_string(), account_id: None, amount: amount.map(|a| a.to_string()), foreign: None, col }
}

#[test]
fn report_markup() {
    let rep = ReportOut {
        kind: ReportKind::BalanceSheet,
        currency: "CAD".to_string(),
        cols: 2,
        rows: vec![
            row(RowKind::Section, 0, "Assets", None, 0),
            row(RowKind::Account, 1, "Cash_1", Some("10.00"), 1),
            row(RowKind::Total, 0, "Total", Some("10.00"), 1),
            row(RowKind::Blank, 0, "", None, 0),
        ],
    };
    let doc = to_typst(&rep, &vec![None, Some("USD 7.50".to_string()), None, None], "Balance #1", "2024-12-31");
    let expected = "#set page(paper: \"us-letter\", margin: (x: 2.2cm, y: 2.2cm))\n#set text(size: 10pt)\n#text(size: 14pt, weight: \"bold\")[Balance \\#1]\n#h(0.8em)\n#text(size: 10pt, fill: luma(100))[2024\\-12\\-31]\n#v(0.6em)\n#table(\n  columns: (1fr, 8.5em, 8.5em, ),\n  align: (left, right, right),\n  stroke: none,\n  inset: (x: 4pt, y: 2.5pt),\n\
table.cell(colspan: 3, fill: luma(235))[*Assets*],\n\
[#h(14pt)Cash\\_1],\n[],\n[10\\.00#linebreak()#text(size: 7.5pt, fill: luma(110))[USD 7\\.50]],\n\
[#h(0pt)*Total*],\n[],\ntable.cell(stroke: (top: 0.5pt + luma(60)))[*10\\.00*],\n\
table.cell(colspan: 3, inset: (y: 6pt))[],\n\
)\n#v(1em)\n#text(size: 8pt, fill: luma(120))[All amounts in CAD. Generated by kachet.]\n";
    assert_eq!(doc, expected);
}

#[test]
fn account_report_markup() {
    let g = DocGroup {
        account_name: "1200 A/R".to_string(),
        commodity: "CAD".to_string(),
        rows: vec![DocRow {
            date: "2024-01-02".to_string(),
            num: None,
            description: Some("Invoice #3".to_string()),
            memo: None,
            reconcile_state: "n".to_string(),
            amount: "5.00".to_string(),
            running: "5.00".to_string(),
        }],
        total: "5.00".to_string(),
    };
    let doc = account_to_typst(&vec![g], &Some(("5.00".to_string(), "CAD".to_string())), 1, "Statement", "all dates");
    assert!(doc.starts_with("#set page(paper: \"us-letter\", margin: (x: 2.2cm, y: 2.2cm))\n#set text(size: 9.5pt)\n#text(size: 14pt, weight: \"bold\")[Statement]\n"));
    assert!(doc.contains("[2024\\-01\\-02], [], [Invoice \\#3], [], [n], [5\\.00], [5\\.00],\n"));
    assert!(doc.contains("table.cell(colspan: 5)[*Total 1200 A\\/R*], table.cell(stroke: (top: 0.5pt + luma(60)), colspan: 2)[*5\\.00*],\n"));
    // one group: no grand total line
    assert!(!doc.contains("Grand total"));
    assert!(doc.ends_with("\n#v(1em)\n#text(size: 8pt, fill: luma(120))[1 entries. Generated by kachet.]\n"));
}

fn unescape(s: &str) -> String {
    let mut out = String::new();
    let mut chars = s.chars();
    while let Some(c) = chars.next() {
        if c == '\\' {
            match chars.next() {
                Some(d) => out.push(d),
                None => out.push(c),
            }
        } else {
            out.push(c);
        }
    }
    out
}

#[test]
fn escaping_loses_nothing() {
    for s in ["", "plain text", "#set \\ [x] <y> @z ~$`_*", "\\\\", "ünïcödé #1"] {
        assert_eq!(unescape(&typst_esc(s)), s);
    }
}

#[test]
fn pdf_file_names() {
    assert_eq!(kachet::typst::pdf_filename("A/B \"x\"", &Some("2024-01-01 to 2024\\12".to_string())), "A-B -x- 2024-01-01 to 2024-12.pdf");
    assert_eq!(kachet::typst::pdf_filename("Account Report", &None), "Account Report.pdf");
}

#[test]
fn comment_and_shorthand_syntax_is_escaped() {
    assert_eq!(typst_esc("a // b /* c */"), "a \\/\\/ b \\/\\* c \\*\\/");
    assert_eq!(typst_esc("- = + ... 'q' \"d\""), "\\- \\= \\+ \\.\\.\\. \\'q\\' \\\"d\\\"");
    let e = typst_esc("x//y");
    for (i, c) in e.char_indices() {
        if c == '/' {
            assert_eq!(&e[i - 1..i], "\\");
        }
    }
}
