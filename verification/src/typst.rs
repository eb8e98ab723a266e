//! Typst markup for the PDF export: the staircase table of the balance
//! sheet and the income statement, and the per-account tables of the
//! account report. Text from the book is escaped before it is embedded.

use vstd::prelude::*;
use crate::report::{row_view, rows_view, ReportOut, ReportRow, RowKind, RowV};
use crate::text::{int_text, push_int};

verus! {

/// Characters that typst markup gives a meaning to: markup, code, math,
/// labels, references, comments (`//`, `/*`), headings and lists (`=`,
/// `-`, `+`, `/`) and shorthands (`--`, `...`, smart quotes).
pub open spec fn needs_esc(c: char) -> bool {
    c == '\\' || c == '#' || c == '*' || c == '_' || c == '`' || c == '$' || c == '[' || c == ']'
        || c == '<' || c == '>' || c == '@' || c == '~' || c == '/' || c == '=' || c == '-' || c
        == '+' || c == '.' || c == '\'' || c == '"'
}

/// Markup that typst reads as plain text: read from the left, each
/// character that markup gives a meaning to stands right after a
/// backslash that escapes it, and every other character stands alone.
pub open spec fn inert(r: Seq<char>) -> bool
    decreases r.len(),
{
    if r.len() == 0 {
        true
    } else if r[0] == '\\' {
        r.len() >= 2 && needs_esc(r[1]) && inert(r.skip(2))
    } else {
        !needs_esc(r[0]) && inert(r.skip(1))
    }
}

/// `s` with a backslash before each character that typst markup gives a
/// meaning to.
pub open spec fn esc(s: Seq<char>) -> Seq<char>
    decreases s.len(),
{
    if s.len() == 0 {
        s
    } else {
        esc(s.drop_last()) + if needs_esc(s.last()) {
            seq!['\\', s.last()]
        } else {
            seq![s.last()]
        }
    }
}

/// Text read back from markup: a backslash stands for the character after
/// it.
pub open spec fn unesc(s: Seq<char>) -> Seq<char>
    decreases s.len(),
{
    if s.len() == 0 {
        s
    } else if s[0] == '\\' && s.len() >= 2 {
        seq![s[1]] + unesc(s.skip(2))
    } else {
        seq![s[0]] + unesc(s.skip(1))
    }
}

proof fn lemma_esc_concat(a: Seq<char>, b: Seq<char>)
    ensures
        esc(a + b) == esc(a) + esc(b),
    decreases b.len(),
{
    if b.len() == 0 {
        assert(a + b =~= a);
        assert(esc(a) + esc(b) =~= esc(a));
    } else {
        lemma_esc_concat(a, b.drop_last());
        assert((a + b).drop_last() =~= a + b.drop_last());
        assert((a + b).last() == b.last());
        let tail = if needs_esc(b.last()) {
            seq!['\\', b.last()]
        } else {
            seq![b.last()]
        };
        assert(esc(a) + esc(b.drop_last()) + tail =~= esc(a) + (esc(b.drop_last()) + tail));
    }
}

/// Escaping loses nothing: reading the escaped text back gives the text.
pub proof fn lemma_esc_roundtrip(s: Seq<char>)
    ensures
        unesc(esc(s)) == s,
    decreases s.len(),
{
    if s.len() > 0 {
        let c = s[0];
        let t = s.skip(1);
        assert(s =~= seq![c] + t);
        lemma_esc_concat(seq![c], t);
        assert(seq![c].drop_last() =~= Seq::<char>::empty());
        assert(esc(Seq::<char>::empty()) == Seq::<char>::empty());
        assert(seq![c].last() == c);
        let head = if needs_esc(c) {
            seq!['\\', c]
        } else {
            seq![c]
        };
        assert(esc(seq![c]) == esc(seq![c].drop_last()) + head);
        assert(esc(seq![c]) =~= head);
        lemma_esc_roundtrip(t);
        let e = head + esc(t);
        if needs_esc(c) {
            assert(e.skip(2) =~= esc(t));
        } else {
            assert(e.skip(1) =~= esc(t));
        }
        assert(unesc(e) =~= seq![c] + t);
    }
}

/// Escaped text is inert: whatever the text, its escaped form holds no
/// markup, code, comment or other syntax that typst would act on, only
/// escaped characters and characters without meaning; in particular every
/// `/` of it comes right after a backslash, so no `//` or `/*` comment
/// opens.
pub proof fn lemma_esc_inert(s: Seq<char>)
    ensures
        inert(esc(s)),
        forall|i: int| 0 <= i < esc(s).len() && #[trigger] esc(s)[i] == '/' ==> i > 0 && esc(s)[i - 1] == '\\',
    decreases s.len(),
{
    if s.len() > 0 {
        let c = s[0];
        let t = s.skip(1);
        assert(s =~= seq![c] + t);
        lemma_esc_concat(seq![c], t);
        assert(seq![c].drop_last() =~= Seq::<char>::empty());
        assert(esc(Seq::<char>::empty()) == Seq::<char>::empty());
        assert(seq![c].last() == c);
        let head = if needs_esc(c) {
            seq!['\\', c]
        } else {
            seq![c]
        };
        assert(esc(seq![c]) == esc(seq![c].drop_last()) + head);
        assert(esc(seq![c]) =~= head);
        lemma_esc_inert(t);
        let e = head + esc(t);
        assert(e == esc(s));
        if needs_esc(c) {
            assert(e.skip(2) =~= esc(t));
        } else {
            assert(e.skip(1) =~= esc(t));
        }
        assert forall|i: int| 0 <= i < e.len() && #[trigger] e[i] == '/' implies i > 0 && e[i - 1] == '\\' by {
            if i >= head.len() {
                let j = i - head.len();
                assert(e[i] == esc(t)[j]);
                if j > 0 {
                    assert(e[i - 1] == esc(t)[j - 1]);
                } else {
                    assert(esc(t)[0] == '/');
                    assert(false) by {
                        lemma_inert_head(esc(t));
                    }
                }
            }
        }
    }
}

/// The first character of inert markup is a backslash or has no meaning.
proof fn lemma_inert_head(r: Seq<char>)
    requires
        inert(r),
        r.len() > 0,
    ensures
        r[0] == '\\' || !needs_esc(r[0]),
{
}

/// Escape text for use inside typst markup.
pub fn typst_esc(s: &str) -> (r: String)
    ensures
        r@ == esc(s@),
        inert(r@),
{
    proof {
        lemma_esc_inert(s@);
    }
    let mut out = String::new();
    let v = crate::text::chars_of(s);
    let mut i: usize = 0;
    assert(v@.take(0) =~= Seq::<char>::empty());
    while i < v.len()
        invariant
            i <= v.len(),
            v@ == s@,
            out@ == esc(v@.take(i as int)),
        decreases v.len() - i,
    {
        let c = v[i];
        if c == '\\' || c == '#' || c == '*' || c == '_' || c == '`' || c == '$' || c == '[' || c
            == ']' || c == '<' || c == '>' || c == '@' || c == '~' || c == '/' || c == '=' || c
            == '-' || c == '+' || c == '.' || c == '\'' || c == '"' {
            out.push('\\');
        }
        out.push(c);
        assert(v@.take(i + 1).drop_last() =~= v@.take(i as int));
        assert(out@ =~= esc(v@.take(i + 1)));
        i += 1;
    }
    assert(v@.take(i as int) =~= v@);
    out
}

fn push_esc(out: &mut String, s: &str)
    ensures
        final(out)@ == old(out)@ + esc(s@),
{
    let e = typst_esc(s);
    out.push_str(e.as_str());
}

// ---------------------------------------------------------------------------
// Balance sheet and income statement
// ---------------------------------------------------------------------------

pub open spec fn bold_kind(k: RowKind) -> bool {
    k == RowKind::Total || k == RowKind::Net
}

pub open spec fn ruled_kind(k: RowKind) -> bool {
    k == RowKind::Subtotal || k == RowKind::Total || k == RowKind::Net
}

pub open spec fn starred(s: Seq<char>, bold: bool) -> Seq<char> {
    if bold {
        seq!['*'] + s + seq!['*']
    } else {
        s
    }
}

/// The cell of amount column `c` of a row: its figure where the figure
/// sits in that column (with the foreign figure `f` below it), else empty.
pub open spec fn amount_cell(r: RowV, f: Option<Seq<char>>, c: int) -> Seq<char> {
    if c == r.col && r.amount is Some {
        let content = starred(esc(r.amount->0), bold_kind(r.kind)) + match f {
            Some(x) => "#linebreak()#text(size: 7.5pt, fill: luma(110))["@ + esc(x) + "]"@,
            None => Seq::empty(),
        };
        if ruled_kind(r.kind) {
            "table.cell(stroke: (top: 0.5pt + luma(60)))["@ + content + "],\n"@
        } else {
            "["@ + content + "],\n"@
        }
    } else {
        "[],\n"@
    }
}

/// The cells of amount columns `0..c`.
pub open spec fn amount_cells(r: RowV, f: Option<Seq<char>>, c: int) -> Seq<char>
    decreases c,
{
    if c <= 0 {
        Seq::empty()
    } else {
        amount_cells(r, f, c - 1) + amount_cell(r, f, c - 1)
    }
}

/// The table cells of one row, over `cols` amount columns.
pub open spec fn row_cells(r: RowV, f: Option<Seq<char>>, cols: int) -> Seq<char> {
    if r.kind == RowKind::Blank {
        "table.cell(colspan: "@ + int_text(cols + 1) + ", inset: (y: 6pt))[],\n"@
    } else if r.kind == RowKind::Section {
        "table.cell(colspan: "@ + int_text(cols + 1) + ", fill: luma(235))[*"@ + esc(r.label)
            + "*],\n"@
    } else {
        "[#h("@ + int_text(r.depth * 14) + "pt)"@ + starred(esc(r.label), bold_kind(r.kind))
            + "],\n"@ + amount_cells(r, f, cols)
    }
}

/// The cells of the rows `0..k`.
pub open spec fn table_cells(rows: Seq<RowV>, foreign: Seq<Option<Seq<char>>>, cols: int, k: int) -> Seq<char>
    decreases k,
{
    if k <= 0 {
        Seq::empty()
    } else {
        table_cells(rows, foreign, cols, k - 1) + row_cells(rows[k - 1], foreign[k - 1], cols)
    }
}

/// `s` repeated `n` times.
pub open spec fn repeat(s: Seq<char>, n: int) -> Seq<char>
    decreases n,
{
    if n <= 0 {
        Seq::empty()
    } else {
        repeat(s, n - 1) + s
    }
}

/// The whole document for a report.
pub open spec fn report_doc(
    rows: Seq<RowV>,
    foreign: Seq<Option<Seq<char>>>,
    cols: int,
    currency: Seq<char>,
    title: Seq<char>,
    period: Seq<char>,
) -> Seq<char> {
    "#set page(paper: \"us-letter\", margin: (x: 2.2cm, y: 2.2cm))\n#set text(size: 10pt)\n#text(size: 14pt, weight: \"bold\")["@
        + esc(title) + "]\n#h(0.8em)\n#text(size: 10pt, fill: luma(100))["@ + esc(period)
        + "]\n#v(0.6em)\n#table(\n  columns: (1fr, "@ + repeat("8.5em, "@, cols)
        + "),\n  align: (left"@ + repeat(", right"@, cols)
        + "),\n  stroke: none,\n  inset: (x: 4pt, y: 2.5pt),\n"@ + table_cells(
        rows,
        foreign,
        cols,
        rows.len() as int,
    ) + ")\n#v(1em)\n#text(size: 8pt, fill: luma(120))[All amounts in "@ + currency
        + ". Generated by kachet.]\n"@
}

fn push_repeat(out: &mut String, s: &str, n: i64)
    requires
        n >= 0,
    ensures
        final(out)@ == old(out)@ + repeat(s@, n as int),
{
    let mut k: i64 = 0;
    assert(old(out)@ + repeat(s@, 0) =~= old(out)@);
    while k < n
        invariant
            0 <= k <= n,
            out@ == old(out)@ + repeat(s@, k as int),
        decreases n - k,
    {
        out.push_str(s);
        assert(out@ =~= old(out)@ + repeat(s@, (k + 1) as int));
        k += 1;
    }
}

fn push_amount_cell(out: &mut String, r: &ReportRow, f: &Option<String>, c: i64)
    ensures
        final(out)@ == old(out)@ + amount_cell(row_view(*r), crate::order::opt_view(*f), c as int),
{
    let ghost rv = row_view(*r);
    match &r.amount {
        Some(a) => if c == r.col {
            let bold = r.kind == RowKind::Total || r.kind == RowKind::Net;
            let mut content = String::new();
            if bold {
                content.push('*');
            }
            push_esc(&mut content, a.as_str());
            if bold {
                content.push('*');
            }
            match f {
                Some(x) => {
                    content.push_str("#linebreak()#text(size: 7.5pt, fill: luma(110))[");
                    push_esc(&mut content, x.as_str());
                    content.push_str("]");
                },
                None => {},
            }
            proof {
                let expect = starred(esc(a@), bold_kind(r.kind)) + match crate::order::opt_view(*f) {
                    Some(x) => "#linebreak()#text(size: 7.5pt, fill: luma(110))["@ + esc(x) + "]"@,
                    None => Seq::empty(),
                };
                assert(content@ =~= expect);
            }
            if r.kind == RowKind::Subtotal || r.kind == RowKind::Total || r.kind == RowKind::Net {
                out.push_str("table.cell(stroke: (top: 0.5pt + luma(60)))[");
            } else {
                out.push_str("[");
            }
            out.push_str(content.as_str());
            out.push_str("],\n");
            proof {
                let pre = if ruled_kind(r.kind) {
                    "table.cell(stroke: (top: 0.5pt + luma(60)))["@
                } else {
                    "["@
                };
                assert(out@ =~= old(out)@ + (pre + content@ + "],\n"@));
            }
        } else {
            out.push_str("[],\n");
        },
        None => {
            out.push_str("[],\n");
        },
    }
}

fn push_row_cells(out: &mut String, r: &ReportRow, f: &Option<String>, cols: i64)
    requires
        0 <= cols <= 0xffff_ffff,
        i64::MIN <= r.depth * 14 <= i64::MAX,
    ensures
        final(out)@ == old(out)@ + row_cells(row_view(*r), crate::order::opt_view(*f), cols as int),
{
    let ghost rv = row_view(*r);
    let ghost fv = crate::order::opt_view(*f);
    if r.kind == RowKind::Blank {
        out.push_str("table.cell(colspan: ");
        push_int(out, (cols + 1) as i128);
        out.push_str(", inset: (y: 6pt))[],\n");
        return;
    }
    if r.kind == RowKind::Section {
        out.push_str("table.cell(colspan: ");
        push_int(out, (cols + 1) as i128);
        out.push_str(", fill: luma(235))[*");
        push_esc(out, r.label.as_str());
        out.push_str("*],\n");
        return;
    }
    let bold = r.kind == RowKind::Total || r.kind == RowKind::Net;
    out.push_str("[#h(");
    push_int(out, (r.depth as i128) * 14);
    out.push_str("pt)");
    if bold {
        out.push('*');
    }
    push_esc(out, r.label.as_str());
    if bold {
        out.push('*');
    }
    out.push_str("],\n");
    let ghost head = out@;
    assert(head =~= old(out)@ + ("[#h("@ + int_text(rv.depth * 14) + "pt)"@ + starred(esc(rv.label), bold_kind(rv.kind)) + "],\n"@));
    let mut c: i64 = 0;
    while c < cols
        invariant
            0 <= c <= cols,
            rv == row_view(*r),
            fv == crate::order::opt_view(*f),
            out@ == head + amount_cells(rv, fv, c as int),
        decreases cols - c,
    {
        push_amount_cell(out, r, f, c);
        assert(out@ =~= head + amount_cells(rv, fv, (c + 1) as int));
        c += 1;
    }
}

/// Render a report as typst markup: the staircase table with the title and
/// the period above it. `foreign[i]` is the original-commodity figure of
/// row `i`, as it is to be shown.
pub fn to_typst(rep: &ReportOut, foreign: &Vec<Option<String>>, title: &str, period: &str) -> (r: String)
    requires
        foreign.len() == rep.rows.len(),
        0 <= rep.cols <= 0xffff_ffff,
        forall|i: int|
            0 <= i < rep.rows.len() ==> i64::MIN <= #[trigger] rep.rows@[i].depth * 14 <= i64::MAX,
    ensures
        r@ == report_doc(
            rows_view(rep.rows@),
            foreign@.map_values(|o: Option<String>| crate::order::opt_view(o)),
            rep.cols as int,
            rep.currency@,
            title@,
            period@,
        ),
{
    let ghost rv = rows_view(rep.rows@);
    let ghost fv = foreign@.map_values(|o: Option<String>| crate::order::opt_view(o));
    let mut cells = String::new();
    let mut k: usize = 0;
    while k < rep.rows.len()
        invariant
            k <= rep.rows.len(),
            foreign.len() == rep.rows.len(),
            0 <= rep.cols <= 0xffff_ffff,
            forall|i: int|
                0 <= i < rep.rows.len() ==> i64::MIN <= #[trigger] rep.rows@[i].depth * 14 <= i64::MAX,
            rv == rows_view(rep.rows@),
            fv == foreign@.map_values(|o: Option<String>| crate::order::opt_view(o)),
            cells@ == table_cells(rv, fv, rep.cols as int, k as int),
        decreases rep.rows.len() - k,
    {
        push_row_cells(&mut cells, &rep.rows[k], &foreign[k], rep.cols);
        assert(rv[k as int] == row_view(rep.rows@[k as int]));
        assert(fv[k as int] == crate::order::opt_view(foreign@[k as int]));
        k += 1;
    }
    let mut out = String::new();
    out.push_str(
        "#set page(paper: \"us-letter\", margin: (x: 2.2cm, y: 2.2cm))\n#set text(size: 10pt)\n#text(size: 14pt, weight: \"bold\")[",
    );
    push_esc(&mut out, title);
    out.push_str("]\n#h(0.8em)\n#text(size: 10pt, fill: luma(100))[");
    push_esc(&mut out, period);
    out.push_str("]\n#v(0.6em)\n#table(\n  columns: (1fr, ");
    push_repeat(&mut out, "8.5em, ", rep.cols);
    out.push_str("),\n  align: (left");
    push_repeat(&mut out, ", right", rep.cols);
    out.push_str("),\n  stroke: none,\n  inset: (x: 4pt, y: 2.5pt),\n");
    out.push_str(cells.as_str());
    out.push_str(")\n#v(1em)\n#text(size: 8pt, fill: luma(120))[All amounts in ");
    out.push_str(rep.currency.as_str());
    out.push_str(". Generated by kachet.]\n");
    assert(out@ =~= report_doc(rv, fv, rep.cols as int, rep.currency@, title@, period@));
    out
}


// ---------------------------------------------------------------------------
// Account report
// ---------------------------------------------------------------------------

/// A row of the account report as it is to be shown.
pub struct DocRow {
    pub date: String,
    pub num: Option<String>,
    pub description: Option<String>,
    pub memo: Option<String>,
    pub reconcile_state: String,
    pub amount: String,
    pub running: String,
}

/// An account's group of the account report as it is to be shown.
pub struct DocGroup {
    pub account_name: String,
    pub commodity: String,
    pub rows: Vec<DocRow>,
    pub total: String,
}

pub open spec fn or_blank(o: Option<String>) -> Seq<char> {
    match o {
        Some(s) => s@,
        None => Seq::empty(),
    }
}

pub open spec fn row_line(r: DocRow) -> Seq<char> {
    "["@ + esc(r.date@) + "], ["@ + esc(or_blank(r.num)) + "], ["@ + esc(or_blank(r.description))
        + "], ["@ + esc(or_blank(r.memo)) + "], ["@ + esc(r.reconcile_state@) + "], ["@ + esc(
        r.amount@,
    ) + "], ["@ + esc(r.running@) + "],\n"@
}

pub open spec fn row_lines(rows: Seq<DocRow>, k: int) -> Seq<char>
    decreases k,
{
    if k <= 0 {
        Seq::empty()
    } else {
        row_lines(rows, k - 1) + row_line(rows[k - 1])
    }
}

/// The heading and the table of one group.
pub open spec fn group_doc(g: DocGroup) -> Seq<char> {
    "#v(0.8em)\n#text(size: 11pt, weight: \"bold\")["@ + esc(g.account_name@)
        + " #text(weight: \"regular\", fill: luma(100), size: 9pt)[("@ + esc(g.commodity@)
        + ")]]\n#v(0.3em)\n"@
        + "#table(\n  columns: (auto, auto, 1fr, 1fr, auto, 7em, 7em),\n  align: (left, left, left, left, center, right, right),\n  stroke: none,\n  inset: (x: 4pt, y: 2.5pt),\n  fill: (_, y) => if y == 0 { luma(235) },\n"@
        + "table.header([*Date*], [*Num*], [*Description*], [*Memo*], [*R*], [*Amount*], [*Running*]),\n"@
        + row_lines(g.rows@, g.rows.len() as int) + "table.cell(colspan: 5)[*Total "@ + esc(
        g.account_name@,
    ) + "*], table.cell(stroke: (top: 0.5pt + luma(60)), colspan: 2)[*"@ + esc(g.total@)
        + "*],\n"@ + ")\n"@
}

pub open spec fn groups_doc(gs: Seq<DocGroup>, k: int) -> Seq<char>
    decreases k,
{
    if k <= 0 {
        Seq::empty()
    } else {
        groups_doc(gs, k - 1) + group_doc(gs[k - 1])
    }
}

/// The grand total line: shown where there is a grand total and more than
/// one group.
pub open spec fn grand_doc(grand: Option<(Seq<char>, Seq<char>)>, groups: int) -> Seq<char> {
    match grand {
        Some((t, c)) => if groups > 1 {
            "#v(0.6em)\n#align(right)[#text(weight: \"bold\")[Grand total: "@ + esc(t) + " "@ + esc(c)
                + "]]\n"@
        } else {
            Seq::empty()
        },
        None => Seq::empty(),
    }
}

/// The whole document for an account report.
pub open spec fn account_doc(
    groups: Seq<DocGroup>,
    grand: Option<(Seq<char>, Seq<char>)>,
    count: int,
    title: Seq<char>,
    subtitle: Seq<char>,
) -> Seq<char> {
    "#set page(paper: \"us-letter\", margin: (x: 2.2cm, y: 2.2cm))\n#set text(size: 9.5pt)\n#text(size: 14pt, weight: \"bold\")["@
        + esc(title) + "]\n#h(0.8em)\n#text(size: 10pt, fill: luma(100))["@ + esc(subtitle) + "]\n"@
        + groups_doc(groups, groups.len() as int) + grand_doc(grand, groups.len() as int)
        + "\n#v(1em)\n#text(size: 8pt, fill: luma(120))["@ + int_text(count)
        + " entries. Generated by kachet.]\n"@
}

fn push_esc_opt(out: &mut String, o: &Option<String>)
    ensures
        final(out)@ == old(out)@ + esc(or_blank(*o)),
{
    match o {
        Some(s) => push_esc(out, s.as_str()),
        None => {
            assert(esc(Seq::<char>::empty()) =~= Seq::<char>::empty());
            assert(old(out)@ + Seq::<char>::empty() =~= old(out)@);
        },
    }
}

fn push_row_line(out: &mut String, r: &DocRow)
    ensures
        final(out)@ == old(out)@ + row_line(*r),
{
    out.push_str("[");
    push_esc(out, r.date.as_str());
    out.push_str("], [");
    push_esc_opt(out, &r.num);
    out.push_str("], [");
    push_esc_opt(out, &r.description);
    out.push_str("], [");
    push_esc_opt(out, &r.memo);
    out.push_str("], [");
    push_esc(out, r.reconcile_state.as_str());
    out.push_str("], [");
    push_esc(out, r.amount.as_str());
    out.push_str("], [");
    push_esc(out, r.running.as_str());
    out.push_str("],\n");
    assert(out@ =~= old(out)@ + row_line(*r));
}

fn push_group(out: &mut String, g: &DocGroup)
    ensures
        final(out)@ == old(out)@ + group_doc(*g),
{
    out.push_str("#v(0.8em)\n#text(size: 11pt, weight: \"bold\")[");
    push_esc(out, g.account_name.as_str());
    out.push_str(" #text(weight: \"regular\", fill: luma(100), size: 9pt)[(");
    push_esc(out, g.commodity.as_str());
    out.push_str(")]]\n#v(0.3em)\n");
    out.push_str(
        "#table(\n  columns: (auto, auto, 1fr, 1fr, auto, 7em, 7em),\n  align: (left, left, left, left, center, right, right),\n  stroke: none,\n  inset: (x: 4pt, y: 2.5pt),\n  fill: (_, y) => if y == 0 { luma(235) },\n",
    );
    out.push_str(
        "table.header([*Date*], [*Num*], [*Description*], [*Memo*], [*R*], [*Amount*], [*Running*]),\n",
    );
    let ghost head = out@;
    let mut k: usize = 0;
    while k < g.rows.len()
        invariant
            k <= g.rows.len(),
            out@ == head + row_lines(g.rows@, k as int),
        decreases g.rows.len() - k,
    {
        push_row_line(out, &g.rows[k]);
        assert(out@ =~= head + row_lines(g.rows@, (k + 1) as int));
        k += 1;
    }
    out.push_str("table.cell(colspan: 5)[*Total ");
    push_esc(out, g.account_name.as_str());
    out.push_str("*], table.cell(stroke: (top: 0.5pt + luma(60)), colspan: 2)[*");
    push_esc(out, g.total.as_str());
    out.push_str("*],\n");
    out.push_str(")\n");
    assert(out@ =~= old(out)@ + group_doc(*g));
}

/// Render an account report as typst markup: one transaction table per
/// account group, with its total, and the grand total (amount and
/// commodity) where there is one and more than one group.
pub fn account_to_typst(groups: &Vec<DocGroup>, grand: &Option<(String, String)>, count: u128, title: &str, subtitle: &str) -> (r: String)
    ensures
        r@ == account_doc(
            groups@,
            match grand {
                Some((t, c)) => Some((t@, c@)),
                None => None,
            },
            count as int,
            title@,
            subtitle@,
        ),
{
    let mut out = String::new();
    out.push_str(
        "#set page(paper: \"us-letter\", margin: (x: 2.2cm, y: 2.2cm))\n#set text(size: 9.5pt)\n#text(size: 14pt, weight: \"bold\")[",
    );
    push_esc(&mut out, title);
    out.push_str("]\n#h(0.8em)\n#text(size: 10pt, fill: luma(100))[");
    push_esc(&mut out, subtitle);
    out.push_str("]\n");
    let ghost head = out@;
    let mut k: usize = 0;
    while k < groups.len()
        invariant
            k <= groups.len(),
            out@ == head + groups_doc(groups@, k as int),
        decreases groups.len() - k,
    {
        push_group(&mut out, &groups[k]);
        assert(out@ =~= head + groups_doc(groups@, (k + 1) as int));
        k += 1;
    }
    let ghost mid = out@;
    match grand {
        Some((t, c)) => if groups.len() > 1 {
            out.push_str("#v(0.6em)\n#align(right)[#text(weight: \"bold\")[Grand total: ");
            push_esc(&mut out, t.as_str());
            out.push_str(" ");
            push_esc(&mut out, c.as_str());
            out.push_str("]]\n");
        },
        None => {},
    }
    out.push_str("\n#v(1em)\n#text(size: 8pt, fill: luma(120))[");
    crate::text::push_nat(&mut out, count);
    out.push_str(" entries. Generated by kachet.]\n");
    proof {
        let gv = match grand {
            Some((t, c)) => Some((t@, c@)),
            None => None,
        };
        assert(int_text(count as int) == crate::text::nat_digits(count as nat));
        assert(out@ =~= account_doc(groups@, gv, count as int, title@, subtitle@));
    }
    out
}


// ---------------------------------------------------------------------------
// File names
// ---------------------------------------------------------------------------

/// A character as it may stand in a file name: `/`, `\` and `"` become `-`.
pub open spec fn file_char(c: char) -> char {
    if c == '/' || c == '\\' || c == '"' {
        '-'
    } else {
        c
    }
}

/// The name of a report's PDF: its title, a space and its period where it
/// has one, then `.pdf`, with `/`, `\` and `"` replaced by `-`.
pub open spec fn pdf_filename_spec(title: Seq<char>, period: Option<Seq<char>>) -> Seq<char> {
    let stem = match period {
        Some(p) => title + seq![' '] + p,
        None => title,
    };
    (stem + ".pdf"@).map_values(|c: char| file_char(c))
}

pub fn pdf_filename(title: &str, period: &Option<String>) -> (r: String)
    ensures
        r@ == pdf_filename_spec(title@, crate::order::opt_view(*period)),
{
    let mut raw = crate::text::owned(title);
    match period {
        Some(p) => {
            raw.push(' ');
            raw.push_str(p.as_str());
        },
        None => {},
    }
    raw.push_str(".pdf");
    let v = crate::text::chars_of(raw.as_str());
    let mut out = String::new();
    let mut i: usize = 0;
    while i < v.len()
        invariant
            i <= v.len(),
            out@ == v@.take(i as int).map_values(|c: char| file_char(c)),
        decreases v.len() - i,
    {
        let c = v[i];
        let d = if c == '/' || c == '\\' || c == '"' {
            '-'
        } else {
            c
        };
        out.push(d);
        assert(v@.take(i + 1).map_values(|c: char| file_char(c)) =~= v@.take(i as int).map_values(
            |c: char| file_char(c),
        ).push(file_char(c)));
        i += 1;
    }
    assert(v@.take(i as int) =~= v@);
    proof {
        let stem = match crate::order::opt_view(*period) {
            Some(p) => title@ + seq![' '] + p,
            None => title@,
        };
        assert(v@ =~= stem + ".pdf"@);
    }
    out
}

} // verus!
