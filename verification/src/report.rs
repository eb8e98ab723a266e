//! Report computation: balance sheet and income statement as generic
//! row tables the frontend renders directly (and typst consumes for PDF
//! export). Layout decisions mirror the user's GnuCash report options:
//! three levels of subaccounts (deeper accounts roll up into their
//! ancestor at that depth), zero balances omitted, parent rows show their
//! own balance.

use vstd::prelude::*;
use crate::book::{abs_sum, book_wf, cents_seq, kids_upto, lemma_abs_sum, lemma_subtree_sum_abs, Acct, Book};
use crate::money::{format_spec, iabs, lemma_pow10_scale, pow10};
use crate::order::opt_view;
use crate::text::{owned, string_is};

verus! {

broadcast use vstd::seq_lib::group_to_multiset_ensures;

/// Levels of subaccounts shown; deeper accounts roll up into their
/// ancestor at this depth. (GnuCash option, hardcoded per user prefs.)
pub const LEVELS: i64 = 3;

/// What a row of a report is.
#[derive(Clone, Copy, Debug, PartialEq, Eq, Structural)]
pub enum RowKind {
    Section,
    Account,
    Subtotal,
    Total,
    Net,
    Blank,
}

/// The original-commodity figure of a foreign-currency account: its
/// commodity's mnemonic and its balance in that commodity.
pub struct Foreign {
    pub mnemonic: String,
    pub num: i128,
    pub denom: i128,
}

pub struct ReportRow {
    pub kind: RowKind,
    pub depth: i64,
    pub label: String,
    pub account_id: Option<String>,
    /// CAD amount, formatted; None = blank cell
    pub amount: Option<String>,
    /// Original-commodity annotation for foreign-currency accounts
    pub foreign: Option<Foreign>,
    /// Which of the `cols` amount columns the figure sits in (staircase)
    pub col: i64,
}

#[derive(Clone, Copy, Debug, PartialEq, Eq, Structural)]
pub enum ReportKind {
    BalanceSheet,
    IncomeStatement,
}

pub struct ReportOut {
    pub kind: ReportKind,
    /// Always "CAD".
    pub currency: String,
    pub cols: i64,
    pub rows: Vec<ReportRow>,
}

/// A report row with its strings taken as character sequences.
pub struct RowV {
    pub kind: RowKind,
    pub depth: int,
    pub label: Seq<char>,
    pub account_id: Option<Seq<char>>,
    pub amount: Option<Seq<char>>,
    pub foreign: Option<(Seq<char>, int, int)>,
    pub col: int,
}

pub open spec fn row_view(r: ReportRow) -> RowV {
    RowV {
        kind: r.kind,
        depth: r.depth as int,
        label: r.label@,
        account_id: opt_view(r.account_id),
        amount: opt_view(r.amount),
        foreign: match r.foreign {
            Some(f) => Some((f.mnemonic@, f.num as int, f.denom as int)),
            None => None,
        },
        col: r.col as int,
    }
}

pub open spec fn rows_view(rows: Seq<ReportRow>) -> Seq<RowV> {
    rows.map_values(|r: ReportRow| row_view(r))
}

// ---------------------------------------------------------------------------
// Rows of accounts
// ---------------------------------------------------------------------------

/// CAD cents rendered with two places.
pub open spec fn fmt_spec(cents: int) -> Seq<char> {
    format_spec(cents, 100)->0
}

proof fn lemma_fmt_some(cents: int)
    ensures
        format_spec(cents, 100) is Some,
{
    lemma_pow10_scale(2);
    assert(pow10(2) == 100) by {
        reveal_with_fuel(pow10, 3);
    }
}

/// CAD cents rendered with two places.
pub fn fmt(cents: i128) -> (s: String)
    ensures
        s@ == fmt_spec(cents as int),
{
    proof {
        lemma_fmt_some(cents as int);
    }
    match crate::money::format(cents, 100) {
        Some(s) => s,
        None => {
            assert(false);
            String::new()
        },
    }
}

/// What follows the last `:` of a commodity id (its mnemonic).
pub open spec fn after_last_colon(s: Seq<char>) -> Seq<char>
    decreases s.len(),
{
    if s.len() == 0 {
        s
    } else if s.last() == ':' {
        Seq::empty()
    } else {
        after_last_colon(s.drop_last()).push(s.last())
    }
}

/// The mnemonic of a commodity id such as `CURRENCY:USD`
/// (`split(':').next_back()`).
pub fn mnemonic(c: &String) -> (m: String)
    ensures
        m@ == after_last_colon(c@),
{
    let v = crate::text::chars_of(c.as_str());
    let mut k = v.len();
    assert(v@.take(k as int) =~= v@);
    assert(v@.subrange(k as int, k as int) =~= Seq::<char>::empty());
    assert(c@ + Seq::<char>::empty() =~= c@);
    while k > 0 && v[k - 1] != ':'
        invariant
            k <= v.len(),
            v@ == c@,
            after_last_colon(c@) == after_last_colon(v@.take(k as int)) + v@.subrange(
                k as int,
                v.len() as int,
            ),
        decreases k,
    {
        proof {
            let t = v@.take(k as int);
            assert(t.drop_last() =~= v@.take(k - 1));
            assert(v@.subrange(k - 1, v.len() as int) =~= seq![t.last()] + v@.subrange(
                k as int,
                v.len() as int,
            ));
        }
        k -= 1;
    }
    proof {
        let t = v@.take(k as int);
        if k > 0 {
            assert(after_last_colon(t) == Seq::<char>::empty());
        } else {
            assert(t.len() == 0);
        }
        assert(after_last_colon(c@) =~= v@.subrange(k as int, v.len() as int));
    }
    crate::text::string_of(&crate::text::slice_chars(&v, k, v.len()))
}

/// An account's label: its code, a space and its name where it has a
/// non-empty code, else its name.
pub open spec fn acct_label(a: Acct) -> Seq<char> {
    match a.code {
        Some(c) => if c@.len() > 0 {
            c@ + seq![' '] + a.name@
        } else {
            a.name@
        },
        None => a.name@,
    }
}

/// The account `c` has a balance or a total to show.
pub open spec fn live(b: Book, c: int) -> bool {
    b.totals@[c] != 0 || b.accounts@[c].own_cents != 0
}

/// The accounts of `cs` among the first `k` that have something to show.
pub open spec fn live_upto(b: Book, cs: Seq<usize>, k: int) -> Seq<usize>
    decreases k,
{
    if k <= 0 {
        Seq::empty()
    } else if live(b, cs[k - 1] as int) {
        live_upto(b, cs, k - 1).push(cs[k - 1])
    } else {
        live_upto(b, cs, k - 1)
    }
}

pub open spec fn live_kids(b: Book, id: int) -> Seq<usize> {
    live_upto(b, b.children@[id]@, b.children@[id]@.len() as int)
}

pub open spec fn staircase(depth: int) -> int {
    if LEVELS - depth > 0 {
        LEVELS - depth
    } else {
        0
    }
}

/// The rows an account contributes to a section (`sign` -1 for
/// credit-normal sections so that figures read positive), and its total.
///
/// An account with neither a total nor a balance of its own is left out.
/// An account deeper than the shown levels, or without children to show,
/// is rolled up: its row carries its total. Otherwise its row carries its
/// own balance, its children follow one level deeper, and (with
/// `subtotals`) a subtotal row closes it.
pub open spec fn acct_emit(b: Book, id: int, depth: int, sign: int, subtotals: bool) -> (Seq<RowV>, int)
    decreases 4 - depth, 0int,
{
    let a = b.accounts@[id];
    let total = b.totals@[id] as int;
    if total == 0 && a.own_cents == 0 {
        (Seq::empty(), 0)
    } else {
        let ks = live_kids(b, id);
        let rolled = depth >= LEVELS || ks.len() == 0;
        let shown = if rolled {
            total
        } else {
            a.own_cents as int
        };
        let foreign = match a.commodity_id {
            Some(c) => if rolled && ks.len() == 0 && c@ != "CURRENCY:CAD"@ {
                Some((after_last_colon(c@), a.own.0 as int, a.own.1 as int))
            } else {
                None
            },
            None => None,
        };
        let row = RowV {
            kind: RowKind::Account,
            depth,
            label: acct_label(a),
            account_id: Some(a.id@),
            amount: if shown != 0 {
                Some(fmt_spec(sign * shown))
            } else {
                None
            },
            foreign,
            col: staircase(depth),
        };
        if rolled {
            (seq![row], total)
        } else {
            let sub = if subtotals {
                seq![
                    RowV {
                        kind: RowKind::Subtotal,
                        depth,
                        label: "Total "@ + a.name@,
                        account_id: Some(a.id@),
                        amount: Some(fmt_spec(sign * total)),
                        foreign: None,
                        col: staircase(depth),
                    },
                ]
            } else {
                Seq::empty()
            };
            (seq![row] + list_emit(b, ks, depth + 1, sign, subtotals).0 + sub, total)
        }
    }
}

/// Accounts roll up at the last level: an account shown at depth `LEVELS`
/// or deeper (or one with nothing below it to show) is a single row whose
/// amount is its whole subtree total, signed; nothing below it is shown.
/// An account above the last level that has accounts to show below it
/// shows its own balance, and its total where subtotals are on.
pub proof fn lemma_rolls_up(b: Book, id: int, depth: int, sign: int, subtotals: bool)
    requires
        0 <= id < b.accounts.len(),
        !(b.totals@[id] == 0 && b.accounts@[id].own_cents == 0),
    ensures
        (depth >= LEVELS || live_kids(b, id).len() == 0) ==> {
            let e = acct_emit(b, id, depth, sign, subtotals);
            &&& e.0.len() == 1
            &&& e.0[0].kind == RowKind::Account
            &&& e.0[0].amount == if b.totals@[id] != 0 {
                Some(fmt_spec(sign * b.totals@[id]))
            } else {
                None::<Seq<char>>
            }
            &&& e.1 == b.totals@[id]
        },
        (depth < LEVELS && live_kids(b, id).len() > 0) ==> {
            let e = acct_emit(b, id, depth, sign, subtotals);
            &&& e.0[0].kind == RowKind::Account
            &&& e.0[0].amount == if b.accounts@[id].own_cents != 0 {
                Some(fmt_spec(sign * b.accounts@[id].own_cents))
            } else {
                None::<Seq<char>>
            }
            &&& subtotals ==> e.0.last().amount == Some(fmt_spec(sign * b.totals@[id]))
        },
{
}

/// The rows of a list of accounts, one after another, and the sum of
/// their totals.
pub open spec fn list_emit(b: Book, ids: Seq<usize>, depth: int, sign: int, subtotals: bool) -> (Seq<RowV>, int)
    decreases 4 - depth, ids.len() + 1,
{
    if ids.len() == 0 {
        (Seq::empty(), 0)
    } else {
        let first = acct_emit(b, ids[0] as int, depth, sign, subtotals);
        let rest = list_emit(b, ids.drop_first(), depth, sign, subtotals);
        (first.0 + rest.0, first.1 + rest.1)
    }
}


// ---------------------------------------------------------------------------
// Bounds
// ---------------------------------------------------------------------------

/// The magnitude bound of a well-formed book: the magnitudes of all
/// accounts' cents added up. No account's cents, no subtree total and no
/// sum over disjoint subtrees exceeds it, and four times it fits in an
/// i128.
pub open spec fn cap(b: Book) -> int {
    abs_sum(cents_seq(b), b.accounts.len() as int)
}

proof fn lemma_cap(b: Book)
    requires
        book_wf(b),
    ensures
        forall|i: int| 0 <= i < b.accounts.len() ==> iabs(#[trigger] b.accounts@[i].own_cents as int) <= cap(b),
        4 * cap(b) <= i128::MAX,
        cap(b) >= 0,
{
    let cs = cents_seq(b);
    lemma_abs_sum(cs, cs.len() as int);
    assert forall|i: int| 0 <= i < b.accounts.len() implies iabs(#[trigger] b.accounts@[i].own_cents as int) <= cap(b) by {
        assert(cs[i] == b.accounts@[i].own_cents as int);
    }
}

/// A subtree total is at most the cap.
proof fn lemma_total_bound(b: Book, x: int)
    requires
        book_wf(b),
        0 <= x < b.accounts.len(),
    ensures
        iabs(b.totals@[x] as int) <= cap(b),
{
    lemma_cap(b);
    lemma_subtree_sum_abs(b.parent@, cents_seq(b), x, b.accounts.len() as int);
}

proof fn lemma_acct_emit_total(b: Book, id: int, depth: int, sign: int, subtotals: bool)
    requires
        book_wf(b),
        0 <= id < b.accounts.len(),
    ensures
        acct_emit(b, id, depth, sign, subtotals).1 == 0 || acct_emit(b, id, depth, sign, subtotals).1 == b.totals@[id] as int,
{
}

pub open spec fn ids_ok(b: Book, ids: Seq<usize>) -> bool {
    forall|i: int| 0 <= i < ids.len() ==> #[trigger] ids[i] < b.accounts.len()
}


proof fn lemma_list_emit_push(b: Book, ids: Seq<usize>, x: usize, depth: int, sign: int, subtotals: bool)
    ensures
        list_emit(b, ids.push(x), depth, sign, subtotals).0 == list_emit(b, ids, depth, sign, subtotals).0
            + acct_emit(b, x as int, depth, sign, subtotals).0,
        list_emit(b, ids.push(x), depth, sign, subtotals).1 == list_emit(b, ids, depth, sign, subtotals).1
            + acct_emit(b, x as int, depth, sign, subtotals).1,
    decreases ids.len(),
{
    if ids.len() == 0 {
        let s = ids.push(x);
        assert(s.len() == 1);
        assert(s[0] == x);
        assert(s.drop_first().len() == 0);
        let e = acct_emit(b, x as int, depth, sign, subtotals);
        assert(list_emit(b, s.drop_first(), depth, sign, subtotals) == (Seq::<RowV>::empty(), 0int));
        assert(e.0 + Seq::<RowV>::empty() =~= e.0);
        assert(list_emit(b, ids, depth, sign, subtotals) == (Seq::<RowV>::empty(), 0int));
        assert(Seq::<RowV>::empty() + e.0 =~= e.0);
    } else {
        lemma_list_emit_push(b, ids.drop_first(), x, depth, sign, subtotals);
        assert(ids.push(x).drop_first() =~= ids.drop_first().push(x));
        let f = acct_emit(b, ids[0] as int, depth, sign, subtotals).0;
        assert(f + (list_emit(b, ids.drop_first(), depth, sign, subtotals).0 + acct_emit(b, x as int, depth, sign, subtotals).0)
            =~= (f + list_emit(b, ids.drop_first(), depth, sign, subtotals).0) + acct_emit(b, x as int, depth, sign, subtotals).0);
    }
}

proof fn lemma_kids_upto_len(par: Seq<Option<usize>>, p: Option<usize>, k: int)
    requires
        0 <= k,
    ensures
        kids_upto(par, p, k).len() <= k,
    decreases k,
{
    if k > 0 {
        lemma_kids_upto_len(par, p, k - 1);
    }
}

proof fn lemma_live_upto(b: Book, cs: Seq<usize>, k: int)
    requires
        0 <= k <= cs.len(),
        ids_ok(b, cs),
    ensures
        live_upto(b, cs, k).len() <= k,
        ids_ok(b, live_upto(b, cs, k)),
        forall|i: int| 0 <= i < live_upto(b, cs, k).len() ==> live(b, #[trigger] live_upto(b, cs, k)[i] as int),
    decreases k,
{
    if k > 0 {
        lemma_live_upto(b, cs, k - 1);
    }
}

/// Children lists and the top-level list hold valid accounts, at most
/// as many as the book has.
proof fn lemma_lists_ok(b: Book)
    requires
        book_wf(b),
    ensures
        ids_ok(b, b.roots@),
        b.roots.len() <= b.accounts.len(),
        forall|p: int| 0 <= p < b.accounts.len() ==> ids_ok(b, #[trigger] b.children@[p]@) && b.children@[p].len() <= b.accounts.len(),
{
    let n = b.accounts.len();
    lemma_kids_upto_len(b.parent@, None, n as int);
    assert(b.roots@.to_multiset().len() == b.roots@.len());
    assert forall|p: int| 0 <= p < n implies ids_ok(b, #[trigger] b.children@[p]@) && b.children@[p].len() <= n by {
        lemma_kids_upto_len(b.parent@, Some(p as usize), n as int);
        assert(b.children@[p]@.to_multiset().len() == b.children@[p]@.len());
    }
}

// ---------------------------------------------------------------------------
// Emitting rows
// ---------------------------------------------------------------------------

fn staircase_exec(depth: i64) -> (c: i64)
    requires
        0 <= depth <= 4,
    ensures
        c == staircase(depth as int),
{
    if LEVELS - depth > 0 {
        LEVELS - depth
    } else {
        0
    }
}

fn label_of(a: &Acct) -> (l: String)
    ensures
        l@ == acct_label(*a),
{
    match &a.code {
        Some(c) => {
            if !c.as_str().is_empty() {
                let mut l = c.clone();
                l.push(' ');
                l.push_str(a.name.as_str());
                l
            } else {
                a.name.clone()
            }
        },
        None => a.name.clone(),
    }
}

fn live_children(b: &Book, id: usize) -> (ks: Vec<usize>)
    requires
        book_wf(*b),
        id < b.accounts.len(),
    ensures
        ks@ == live_kids(*b, id as int),
        ids_ok(*b, ks@),
        ks.len() <= b.accounts.len(),
{
    proof {
        lemma_lists_ok(*b);
    }
    let cs = &b.children[id];
    let mut ks: Vec<usize> = Vec::new();
    let mut k: usize = 0;
    while k < cs.len()
        invariant
            k <= cs.len(),
            *cs == b.children@[id as int],
            book_wf(*b),
            ids_ok(*b, cs@),
            ks@ == live_upto(*b, cs@, k as int),
        decreases cs.len() - k,
    {
        let c = cs[k];
        if b.totals[c] != 0 || b.accounts[c].own_cents != 0 {
            ks.push(c);
        }
        k += 1;
    }
    proof {
        lemma_live_upto(*b, cs@, cs.len() as int);
    }
    ks
}

/// Appends an account's rows (see `acct_emit`) and returns its total.
fn emit_account(
    b: &Book,
    rows: &mut Vec<ReportRow>,
    id: usize,
    depth: i64,
    sign: i128,
    subtotals: bool,
) -> (t: i128)
    requires
        book_wf(*b),
        id < b.accounts.len(),
        1 <= depth <= LEVELS,
        sign == 1 || sign == -1,
    ensures
        rows_view(final(rows)@) == rows_view(old(rows)@) + acct_emit(*b, id as int, depth as int, sign as int, subtotals).0,
        t as int == acct_emit(*b, id as int, depth as int, sign as int, subtotals).1,
    decreases 4 - depth, 0int,
{
    let ghost start = rows_view(rows@);
    let a = &b.accounts[id];
    let total = b.totals[id];
    proof {
        lemma_total_bound(*b, id as int);
        lemma_cap(*b);
        let n = b.accounts.len();
        assert(iabs(a.own_cents as int) <= cap(*b));
    }
    if total == 0 && a.own_cents == 0 {
        assert(rows_view(rows@) =~= start + Seq::<RowV>::empty());
        return 0;
    }
    let ks = live_children(b, id);
    let rolled = depth >= LEVELS || ks.len() == 0;
    let shown = if rolled {
        total
    } else {
        a.own_cents
    };
    let foreign = match &a.commodity_id {
        Some(c) => {
            if rolled && ks.len() == 0 && !string_is(c, "CURRENCY:CAD") {
                Some(Foreign { mnemonic: mnemonic(c), num: a.own.0, denom: a.own.1 })
            } else {
                None
            }
        },
        None => None,
    };
    let amount = if shown != 0 {
        Some(fmt(sign * shown))
    } else {
        None
    };
    let row = ReportRow {
        kind: RowKind::Account,
        depth,
        label: label_of(a),
        account_id: Some(a.id.clone()),
        amount,
        foreign,
        col: staircase_exec(depth),
    };
    rows.push(row);
    let ghost after_row = rows_view(rows@);
    proof {
        assert(rows_view(rows@) =~= start + seq![row_view(row)]);
    }
    if !rolled {
        emit_kids(b, rows, &ks, depth + 1, sign, subtotals);
        if subtotals {
            let mut label = owned("Total ");
            label.push_str(a.name.as_str());
            let sub = ReportRow {
                kind: RowKind::Subtotal,
                depth,
                label,
                account_id: Some(a.id.clone()),
                amount: Some(fmt(sign * total)),
                foreign: None,
                col: staircase_exec(depth),
            };
            let ghost before = rows_view(rows@);
            rows.push(sub);
            assert(rows_view(rows@) =~= before + seq![row_view(sub)]);
        }
    }
    proof {
        let e = acct_emit(*b, id as int, depth as int, sign as int, subtotals);
        assert(rows_view(rows@) =~= start + e.0);
    }
    total
}

/// Appends the rows of a list of accounts and returns the sum of their
/// totals.
fn emit_list(
    b: &Book,
    rows: &mut Vec<ReportRow>,
    ids: &Vec<usize>,
    depth: i64,
    sign: i128,
    subtotals: bool,
) -> (t: i128)
    requires
        book_wf(*b),
        ids_ok(*b, ids@),
        ids.len() <= b.accounts.len(),
        1 <= depth <= LEVELS,
        sign == 1 || sign == -1,
        crate::balance::distinct_tops(*b, ids@),
    ensures
        rows_view(final(rows)@) == rows_view(old(rows)@) + list_emit(*b, ids@, depth as int, sign as int, subtotals).0,
        t as int == list_emit(*b, ids@, depth as int, sign as int, subtotals).1,
    decreases 4 - depth, 1int,
{
    let ghost start = rows_view(rows@);
    let mut sum: i128 = 0;
    let mut i: usize = 0;
    assert(ids@.take(0) =~= Seq::<usize>::empty());
    assert(start =~= start + Seq::<RowV>::empty());
    while i < ids.len()
        invariant
            i <= ids.len(),
            book_wf(*b),
            ids_ok(*b, ids@),
            ids.len() <= b.accounts.len(),
            1 <= depth <= LEVELS,
            sign == 1 || sign == -1,
            crate::balance::distinct_tops(*b, ids@),
            rows_view(rows@) == start + list_emit(*b, ids@.take(i as int), depth as int, sign as int, subtotals).0,
            sum as int == list_emit(*b, ids@.take(i as int), depth as int, sign as int, subtotals).1,
        decreases ids.len() - i,
    {
        let x = ids[i];
        let ghost before = rows_view(rows@);
        let t = emit_account(b, rows, x, depth, sign, subtotals);
        proof {
            lemma_list_emit_push(*b, ids@.take(i as int), x, depth as int, sign as int, subtotals);
            assert(ids@.take(i + 1) =~= ids@.take(i as int).push(x));
            assert(ids_ok(*b, ids@.take(i + 1)));
            crate::balance::lemma_tops_list_bound(*b, ids@, i + 1, depth as int, sign as int, subtotals);
            lemma_cap(*b);
        }
        sum = sum + t;
        i += 1;
    }
    assert(ids@.take(ids.len() as int) =~= ids@);
    sum
}

/// Appends the rows of a list of sibling accounts.
fn emit_kids(
    b: &Book,
    rows: &mut Vec<ReportRow>,
    ids: &Vec<usize>,
    depth: i64,
    sign: i128,
    subtotals: bool,
)
    requires
        book_wf(*b),
        ids_ok(*b, ids@),
        ids.len() <= b.accounts.len(),
        1 <= depth <= LEVELS,
        sign == 1 || sign == -1,
    ensures
        rows_view(final(rows)@) == rows_view(old(rows)@) + list_emit(*b, ids@, depth as int, sign as int, subtotals).0,
    decreases 4 - depth, 1int,
{
    let ghost start = rows_view(rows@);
    let mut i: usize = 0;
    assert(ids@.take(0) =~= Seq::<usize>::empty());
    assert(start =~= start + Seq::<RowV>::empty());
    while i < ids.len()
        invariant
            i <= ids.len(),
            book_wf(*b),
            ids_ok(*b, ids@),
            ids.len() <= b.accounts.len(),
            1 <= depth <= LEVELS,
            sign == 1 || sign == -1,
            rows_view(rows@) == start + list_emit(*b, ids@.take(i as int), depth as int, sign as int, subtotals).0,
        decreases ids.len() - i,
    {
        let x = ids[i];
        let ghost before = rows_view(rows@);
        emit_account(b, rows, x, depth, sign, subtotals);
        proof {
            lemma_list_emit_push(*b, ids@.take(i as int), x, depth as int, sign as int, subtotals);
            assert(ids@.take(i + 1) =~= ids@.take(i as int).push(x));
            assert(ids_ok(*b, ids@.take(i + 1)));
        }
        i += 1;
    }
    assert(ids@.take(ids.len() as int) =~= ids@);
}


// ---------------------------------------------------------------------------
// Sections and reports
// ---------------------------------------------------------------------------

pub open spec fn kinds_view(kinds: Seq<&str>) -> Seq<Seq<char>> {
    kinds.map_values(|k: &str| k@)
}

/// The top-level accounts among the first `k` whose kind is in `kinds`.
pub open spec fn roots_of_kinds_upto(b: Book, kinds: Seq<Seq<char>>, k: int) -> Seq<usize>
    decreases k,
{
    if k <= 0 {
        Seq::empty()
    } else if kinds.contains(b.accounts@[b.roots@[k - 1] as int].kind@) {
        roots_of_kinds_upto(b, kinds, k - 1).push(b.roots@[k - 1])
    } else {
        roots_of_kinds_upto(b, kinds, k - 1)
    }
}

pub open spec fn roots_of_kinds(b: Book, kinds: Seq<Seq<char>>) -> Seq<usize> {
    roots_of_kinds_upto(b, kinds, b.roots.len() as int)
}

pub open spec fn section_row(label: Seq<char>) -> RowV {
    RowV {
        kind: RowKind::Section,
        depth: 0,
        label,
        account_id: None,
        amount: None,
        foreign: None,
        col: 0,
    }
}

pub open spec fn total_row(kind: RowKind, label: Seq<char>, amount: Seq<char>) -> RowV {
    RowV {
        kind,
        depth: 0,
        label,
        account_id: None,
        amount: Some(amount),
        foreign: None,
        col: LEVELS - 1,
    }
}

pub open spec fn blank_row() -> RowV {
    RowV {
        kind: RowKind::Blank,
        depth: 0,
        label: Seq::empty(),
        account_id: None,
        amount: None,
        foreign: None,
        col: 0,
    }
}

/// One section (Assets / Liabilities / Expenses ...): all top-level
/// accounts whose kind is in `kinds`, three levels deep, followed by a
/// grand-total row and a blank row; with the signed section total.
pub open spec fn section_emit(
    b: Book,
    label: Seq<char>,
    total_label: Seq<char>,
    kinds: Seq<Seq<char>>,
    sign: int,
    subtotals: bool,
) -> (Seq<RowV>, int) {
    let body = list_emit(b, roots_of_kinds(b, kinds), 1, sign, subtotals);
    (
        seq![section_row(label)] + body.0 + seq![
            total_row(RowKind::Total, total_label, fmt_spec(sign * body.1)),
            blank_row(),
        ],
        sign * body.1,
    )
}

/// The sum of the own balances (cents) of all accounts whose kind is in
/// `kinds`, among the first `k`.
pub open spec fn kinds_total_upto(b: Book, kinds: Seq<Seq<char>>, k: int) -> int
    decreases k,
{
    if k <= 0 {
        0
    } else {
        kinds_total_upto(b, kinds, k - 1) + if kinds.contains(b.accounts@[k - 1].kind@) {
            b.accounts@[k - 1].own_cents as int
        } else {
            0
        }
    }
}

pub open spec fn kinds_total_spec(b: Book, kinds: Seq<Seq<char>>) -> int {
    kinds_total_upto(b, kinds, b.accounts.len() as int)
}

fn kind_listed(kinds: &Vec<&str>, k: &String) -> (r: bool)
    ensures
        r == kinds_view(kinds@).contains(k@),
{
    let mut i: usize = 0;
    while i < kinds.len()
        invariant
            i <= kinds.len(),
            forall|j: int| 0 <= j < i ==> kinds@[j]@ != k@,
        decreases kinds.len() - i,
    {
        if string_is(k, kinds[i]) {
            assert(kinds_view(kinds@)[i as int] == k@);
            return true;
        }
        i += 1;
    }
    proof {
        if kinds_view(kinds@).contains(k@) {
            let j = choose|j: int| 0 <= j < kinds_view(kinds@).len() && kinds_view(kinds@)[j] == k@;
            assert(kinds@[j]@ == k@);
        }
    }
    false
}


/// The sum of the own balances (cents) of all accounts whose kind is in
/// `kinds`.
pub fn kinds_total(b: &Book, kinds: &Vec<&str>) -> (t: i128)
    requires
        book_wf(*b),
    ensures
        t as int == kinds_total_spec(*b, kinds_view(kinds@)),
{
    let n = b.accounts.len();
    let mut t: i128 = 0;
    let mut i: usize = 0;
    while i < n
        invariant
            i <= n,
            n == b.accounts.len(),
            book_wf(*b),
            t as int == kinds_total_upto(*b, kinds_view(kinds@), i as int),
        decreases n - i,
    {
        proof {
            crate::balance::lemma_kinds_total_abs(*b, kinds_view(kinds@), i + 1);
            lemma_cap(*b);
        }
        if kind_listed(kinds, &b.accounts[i].kind) {
            t = t + b.accounts[i].own_cents;
        }
        i += 1;
    }
    t
}

fn roots_with_kinds(b: &Book, kinds: &Vec<&str>) -> (ids: Vec<usize>)
    requires
        book_wf(*b),
    ensures
        ids@ == roots_of_kinds(*b, kinds_view(kinds@)),
        ids_ok(*b, ids@),
        ids.len() <= b.accounts.len(),
        crate::balance::distinct_tops(*b, ids@),
{
    proof {
        lemma_lists_ok(*b);
        crate::balance::lemma_roots_of_kinds_tops(*b, kinds_view(kinds@));
    }
    let mut ids: Vec<usize> = Vec::new();
    let mut k: usize = 0;
    while k < b.roots.len()
        invariant
            k <= b.roots.len(),
            book_wf(*b),
            ids_ok(*b, b.roots@),
            b.roots.len() <= b.accounts.len(),
            ids@ == roots_of_kinds_upto(*b, kinds_view(kinds@), k as int),
            ids_ok(*b, ids@),
            ids.len() <= k,
        decreases b.roots.len() - k,
    {
        let r = b.roots[k];
        if kind_listed(kinds, &b.accounts[r].kind) {
            ids.push(r);
        }
        k += 1;
    }
    ids
}

fn section_header(label: &str) -> (r: ReportRow)
    ensures
        row_view(r) == section_row(label@),
{
    ReportRow {
        kind: RowKind::Section,
        depth: 0,
        label: owned(label),
        account_id: None,
        amount: None,
        foreign: None,
        col: 0,
    }
}

fn total_line(kind: RowKind, label: &str, amount: String) -> (r: ReportRow)
    ensures
        row_view(r) == total_row(kind, label@, amount@),
{
    ReportRow {
        kind,
        depth: 0,
        label: owned(label),
        account_id: None,
        amount: Some(amount),
        foreign: None,
        col: LEVELS - 1,
    }
}

/// A blank separator row.
pub fn blank() -> (r: ReportRow)
    ensures
        row_view(r) == blank_row(),
{
    ReportRow {
        kind: RowKind::Blank,
        depth: 0,
        label: String::new(),
        account_id: None,
        amount: None,
        foreign: None,
        col: 0,
    }
}

fn push_row(rows: &mut Vec<ReportRow>, r: ReportRow)
    ensures
        rows_view(final(rows)@) == rows_view(old(rows)@).push(row_view(r)),
{
    rows.push(r);
    assert(rows_view(rows@) =~= rows_view(old(rows)@).push(row_view(r)));
}

/// Emit one section (Assets / Liabilities / Expenses ...): all top-level
/// accounts whose kind is in `kinds`, three levels deep, followed by a
/// grand-total row. `sign` = -1 for credit-normal sections so figures
/// read positive. Returns the (signed) section total in cents.
pub fn emit_section(
    b: &Book,
    rows: &mut Vec<ReportRow>,
    label: &str,
    total_label: &str,
    kinds: &Vec<&str>,
    sign: i128,
    subtotals: bool,
) -> (t: i128)
    requires
        book_wf(*b),
        sign == 1 || sign == -1,
    ensures
        rows_view(final(rows)@) == rows_view(old(rows)@) + section_emit(*b, label@, total_label@, kinds_view(kinds@), sign as int, subtotals).0,
        t as int == section_emit(*b, label@, total_label@, kinds_view(kinds@), sign as int, subtotals).1,
        iabs(t as int) <= cap(*b),
{
    let ghost start = rows_view(rows@);
    push_row(rows, section_header(label));
    let ids = roots_with_kinds(b, kinds);
    let total = emit_list(b, rows, &ids, 1, sign, subtotals);
    proof {
        crate::balance::lemma_tops_list_bound(*b, ids@, ids.len() as int, 1, sign as int, subtotals);
        assert(ids@.take(ids.len() as int) =~= ids@);
        lemma_cap(*b);
    }
    let signed = sign * total;
    push_row(rows, total_line(RowKind::Total, total_label, fmt(signed)));
    push_row(rows, blank());
    proof {
        let e = section_emit(*b, label@, total_label@, kinds_view(kinds@), sign as int, subtotals);
        assert(rows_view(rows@) =~= start + e.0);
    }
    signed
}

fn asset_kinds() -> (v: Vec<&'static str>)
    ensures
        kinds_view(v@) == seq!["ASSET"@, "BANK"@, "CASH"@, "RECEIVABLE"@],
{
    let v = vec!["ASSET", "BANK", "CASH", "RECEIVABLE"];
    assert(kinds_view(v@) =~= seq!["ASSET"@, "BANK"@, "CASH"@, "RECEIVABLE"@]);
    v
}

fn liability_kinds() -> (v: Vec<&'static str>)
    ensures
        kinds_view(v@) == seq!["LIABILITY"@, "CREDIT"@, "PAYABLE"@],
{
    let v = vec!["LIABILITY", "CREDIT", "PAYABLE"];
    assert(kinds_view(v@) =~= seq!["LIABILITY"@, "CREDIT"@, "PAYABLE"@]);
    v
}

fn one_kind(k: &'static str) -> (v: Vec<&'static str>)
    ensures
        kinds_view(v@) == seq![k@],
{
    let v = vec![k];
    assert(kinds_view(v@) =~= seq![k@]);
    v
}

fn two_kinds(k1: &'static str, k2: &'static str) -> (v: Vec<&'static str>)
    ensures
        kinds_view(v@) == seq![k1@, k2@],
{
    let v = vec![k1, k2];
    assert(kinds_view(v@) =~= seq![k1@, k2@]);
    v
}

pub open spec fn report_view(r: ReportOut) -> (ReportKind, Seq<char>, int, Seq<RowV>) {
    (r.kind, r.currency@, r.cols as int, rows_view(r.rows@))
}

/// The rows of the balance sheet: assets, liabilities, then equity made
/// of the booked equity accounts, retained earnings (minus all income and
/// expense to date) and trading gains or losses, and the total of
/// liabilities and equity.
pub open spec fn balance_sheet_spec(b: Book) -> Seq<RowV> {
    let a = section_emit(b, "Assets"@, "Total Assets"@, seq!["ASSET"@, "BANK"@, "CASH"@, "RECEIVABLE"@], 1, true);
    let l = section_emit(b, "Liabilities"@, "Total Liabilities"@, seq!["LIABILITY"@, "CREDIT"@, "PAYABLE"@], -1, true);
    let e = list_emit(b, roots_of_kinds(b, seq!["EQUITY"@]), 1, -1, true);
    let retained = -kinds_total_spec(b, seq!["INCOME"@, "EXPENSE"@]);
    let trading = -kinds_total_spec(b, seq!["TRADING"@]);
    let total_equity = -e.1 + retained + if trading != 0 {
        trading
    } else {
        0
    };
    let trading_rows = if trading != 0 {
        seq![
            total_row(
                RowKind::Total,
                if trading >= 0 {
                    "Trading Gains"@
                } else {
                    "Trading Losses"@
                },
                fmt_spec(iabs(trading) as int),
            ),
        ]
    } else {
        Seq::empty()
    };
    a.0 + l.0 + seq![section_row("Equity"@)] + e.0 + seq![
        total_row(RowKind::Total, "Retained Earnings"@, fmt_spec(retained)),
    ] + trading_rows + seq![
        total_row(RowKind::Total, "Total Equity"@, fmt_spec(total_equity)),
        blank_row(),
        total_row(RowKind::Total, "Total Liabilities & Equity"@, fmt_spec(l.1 + total_equity)),
    ]
}

proof fn lemma_sum_bounds(b: Book)
    requires
        book_wf(b),
    ensures
        ({
            let n = b.accounts.len();
            let k = cap(b);
            &&& 4 * k <= i128::MAX
            &&& k >= 0
        }),
{
    lemma_cap(b);
    let n = b.accounts.len();
    let k = cap(b);
}

/// The balance sheet of a book.
pub fn balance_sheet_rows(b: &Book) -> (r: ReportOut)
    requires
        book_wf(*b),
    ensures
        report_view(r) == (ReportKind::BalanceSheet, "CAD"@, LEVELS as int, balance_sheet_spec(*b)),
{
    let mut rows: Vec<ReportRow> = Vec::new();
    let _assets = emit_section(b, &mut rows, "Assets", "Total Assets", &asset_kinds(), 1, true);
    let liab = emit_section(
        b,
        &mut rows,
        "Liabilities",
        "Total Liabilities",
        &liability_kinds(),
        -1,
        true,
    );
    let ghost after_sections = rows_view(rows@);
    // Equity: booked equity accounts plus computed retained earnings
    // (all income+expense to date) and trading gains/losses.
    push_row(&mut rows, section_header("Equity"));
    let eq_ids = roots_with_kinds(b, &one_kind("EQUITY"));
    let equity = emit_list(b, &mut rows, &eq_ids, 1, -1, true);
    let income_expense = kinds_total(b, &two_kinds("INCOME", "EXPENSE"));
    let trading_raw = kinds_total(b, &one_kind("TRADING"));
    proof {
        lemma_sum_bounds(*b);
        crate::balance::lemma_tops_list_bound(*b, eq_ids@, eq_ids.len() as int, 1, -1, true);
        assert(eq_ids@.take(eq_ids.len() as int) =~= eq_ids@);
        crate::balance::lemma_kinds_total_abs(*b, seq!["INCOME"@, "EXPENSE"@], b.accounts.len() as int);
        crate::balance::lemma_kinds_total_abs(*b, seq!["TRADING"@], b.accounts.len() as int);
    }
    let mut total_equity = -equity;
    let retained = -income_expense;
    total_equity = total_equity + retained;
    push_row(&mut rows, total_line(RowKind::Total, "Retained Earnings", fmt(retained)));
    let trading = -trading_raw;
    if trading != 0 {
        total_equity = total_equity + trading;
        let label = if trading >= 0 {
            "Trading Gains"
        } else {
            "Trading Losses"
        };
        let mag = if trading >= 0 {
            trading
        } else {
            -trading
        };
        push_row(&mut rows, total_line(RowKind::Total, label, fmt(mag)));
    }
    push_row(&mut rows, total_line(RowKind::Total, "Total Equity", fmt(total_equity)));
    push_row(&mut rows, blank());
    push_row(
        &mut rows,
        total_line(RowKind::Total, "Total Liabilities & Equity", fmt(liab + total_equity)),
    );
    let r = ReportOut { kind: ReportKind::BalanceSheet, currency: owned("CAD"), cols: LEVELS, rows };
    proof {
        assert(rows_view(r.rows@) =~= balance_sheet_spec(*b));
    }
    r
}

/// The rows of the income statement over the book's window: revenues,
/// trading (where there is any), expenses, and the net income or loss.
pub open spec fn income_statement_spec(b: Book) -> Seq<RowV> {
    let rev = section_emit(b, "Revenues"@, "Total Revenue"@, seq!["INCOME"@], -1, false);
    let trading_raw = kinds_total_spec(b, seq!["TRADING"@]);
    let trading_rows = if trading_raw != 0 {
        section_emit(b, "Trading"@, "Total Trading"@, seq!["TRADING"@], -1, false).0
    } else {
        Seq::empty()
    };
    let exp = section_emit(b, "Expenses"@, "Total Expenses"@, seq!["EXPENSE"@], 1, false);
    let net = rev.1 - trading_raw - exp.1;
    rev.0 + trading_rows + exp.0 + seq![
        RowV {
            kind: RowKind::Net,
            depth: 0,
            label: if net >= 0 {
                "Net income for Period"@
            } else {
                "Net loss for Period"@
            },
            account_id: None,
            amount: Some(fmt_spec(iabs(net) as int)),
            foreign: None,
            col: LEVELS - 1,
        },
    ]
}

/// The income statement of a book.
pub fn income_statement_rows(b: &Book) -> (r: ReportOut)
    requires
        book_wf(*b),
    ensures
        report_view(r) == (ReportKind::IncomeStatement, "CAD"@, LEVELS as int, income_statement_spec(*b)),
{
    let mut rows: Vec<ReportRow> = Vec::new();
    let revenue = emit_section(b, &mut rows, "Revenues", "Total Revenue", &one_kind("INCOME"), -1, false);
    let trading_raw = kinds_total(b, &one_kind("TRADING"));
    if trading_raw != 0 {
        emit_section(b, &mut rows, "Trading", "Total Trading", &one_kind("TRADING"), -1, false);
    }
    let expenses = emit_section(b, &mut rows, "Expenses", "Total Expenses", &one_kind("EXPENSE"), 1, false);
    proof {
        lemma_sum_bounds(*b);
        crate::balance::lemma_kinds_total_abs(*b, seq!["TRADING"@], b.accounts.len() as int);
    }
    let net = revenue - trading_raw - expenses;
    let label = if net >= 0 {
        "Net income for Period"
    } else {
        "Net loss for Period"
    };
    let mag = if net >= 0 {
        net
    } else {
        -net
    };
    push_row(
        &mut rows,
        ReportRow {
            kind: RowKind::Net,
            depth: 0,
            label: owned(label),
            account_id: None,
            amount: Some(fmt(mag)),
            foreign: None,
            col: LEVELS - 1,
        },
    );
    let r = ReportOut { kind: ReportKind::IncomeStatement, currency: owned("CAD"), cols: LEVELS, rows };
    proof {
        assert(rows_view(r.rows@) =~= income_statement_spec(*b));
    }
    r
}

} // verus!
