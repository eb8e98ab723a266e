//! The balance sheet balances: where every account hangs below a
//! top-level account, where the accounts below asset, liability and equity
//! accounts are the ones that are not income, expense or trading accounts,
//! and where all balances in CAD cents add up to zero, total assets equal
//! total liabilities and equity.

use vstd::prelude::*;
use crate::money::iabs;
use crate::book::{
    abs_sum, lemma_abs_sum, acct_matches, anc, balance_spec, book_wf, cents_seq, cents_spec, ids_distinct, in_subtree, kids, kids_upto,
    price_of, reachable, subtree_sum, top_at, AccountRow, Book, PriceRow, SplitQty,
};
use crate::report::{
    balance_sheet_spec, income_statement_spec, fmt_spec, kinds_total_spec, kinds_total_upto, list_emit, acct_emit,
    roots_of_kinds, roots_of_kinds_upto, section_emit, total_row, RowKind,
};

verus! {

broadcast use vstd::seq_lib::group_to_multiset_ensures;

/// The sum of `c[y]` over the `y < m` that satisfy `p`.
pub open spec fn sum_where(c: Seq<int>, m: int, p: spec_fn(int) -> bool) -> int
    decreases m,
{
    if m <= 0 {
        0
    } else {
        sum_where(c, m - 1, p) + if p(m - 1) {
            c[m - 1]
        } else {
            0
        }
    }
}

proof fn lemma_sum_where_ext(c: Seq<int>, m: int, p: spec_fn(int) -> bool, q: spec_fn(int) -> bool)
    requires
        forall|y: int| 0 <= y < m ==> #[trigger] p(y) == q(y),
    ensures
        sum_where(c, m, p) == sum_where(c, m, q),
    decreases m,
{
    if m > 0 {
        lemma_sum_where_ext(c, m - 1, p, q);
    }
}

proof fn lemma_sum_where_or(c: Seq<int>, m: int, p: spec_fn(int) -> bool, q: spec_fn(int) -> bool)
    requires
        forall|y: int| 0 <= y < m ==> !(#[trigger] p(y) && q(y)),
    ensures
        sum_where(c, m, p) + sum_where(c, m, q) == sum_where(c, m, |y: int| p(y) || q(y)),
    decreases m,
{
    if m > 0 {
        lemma_sum_where_or(c, m - 1, p, q);
    }
}

proof fn lemma_subtree_sum_where(par: Seq<Option<usize>>, c: Seq<int>, x: int, m: int)
    ensures
        subtree_sum(par, c, x, m) == sum_where(c, m, |y: int| in_subtree(par, x, y)),
    decreases m,
{
    if m > 0 {
        lemma_subtree_sum_where(par, c, x, m - 1);
    }
}

/// The level at which `y` reaches a top-level account.
pub open spec fn top_level(par: Seq<Option<usize>>, y: int) -> nat {
    choose|k: nat| k <= par.len() && top_at(par, y, k)
}

/// The top-level account above `y` (or `y` itself).
pub open spec fn top_of(par: Seq<Option<usize>>, y: int) -> int {
    anc(par, y, top_level(par, y))->0
}

proof fn lemma_top_unique(par: Seq<Option<usize>>, y: int, k1: nat, k2: nat)
    requires
        top_at(par, y, k1),
        top_at(par, y, k2),
    ensures
        k1 == k2,
{
    if k1 < k2 {
        crate::book::lemma_past_top(par, y, k1, k2);
    } else if k2 < k1 {
        crate::book::lemma_past_top(par, y, k2, k1);
    }
}

proof fn lemma_top_of(par: Seq<Option<usize>>, y: int)
    requires
        reachable(par, y),
    ensures
        0 <= top_of(par, y) < par.len(),
        par[top_of(par, y)] is None,
        top_at(par, y, top_level(par, y)),
        top_level(par, y) <= par.len(),
{
}

/// Below a top-level account `r` lie exactly the accounts whose top-level
/// account is `r`.
proof fn lemma_in_subtree_top(par: Seq<Option<usize>>, r: int, y: int)
    requires
        0 <= r < par.len(),
        par[r] is None,
    ensures
        in_subtree(par, r, y) == (reachable(par, y) && top_of(par, y) == r),
{
    if in_subtree(par, r, y) {
        let k = choose|k: nat| k <= par.len() && #[trigger] anc(par, y, k) == Some(r);
        assert(top_at(par, y, k));
        lemma_top_of(par, y);
        lemma_top_unique(par, y, k, top_level(par, y));
    }
    if reachable(par, y) && top_of(par, y) == r {
        lemma_top_of(par, y);
        let k = top_level(par, y);
        assert(anc(par, y, k) == Some(r));
    }
}


/// The sum of the totals of the accounts `ids`.
pub open spec fn sum_totals(b: Book, ids: Seq<usize>) -> int
    decreases ids.len(),
{
    if ids.len() == 0 {
        0
    } else {
        b.totals@[ids[0] as int] as int + sum_totals(b, ids.drop_first())
    }
}

proof fn lemma_list_emit_total(b: Book, ids: Seq<usize>, depth: int, sign: int, subtotals: bool)
    ensures
        list_emit(b, ids, depth, sign, subtotals).1 == sum_totals(b, ids),
    decreases ids.len(),
{
    if ids.len() > 0 {
        lemma_list_emit_total(b, ids.drop_first(), depth, sign, subtotals);
        let a = acct_emit(b, ids[0] as int, depth, sign, subtotals);
        assert(a.1 == b.totals@[ids[0] as int] as int);
    }
}

/// The accounts `ids` are distinct top-level accounts.
pub open spec fn distinct_tops(b: Book, ids: Seq<usize>) -> bool {
    &&& forall|i: int| 0 <= i < ids.len() ==> #[trigger] ids[i] < b.parent.len() && b.parent@[ids[i] as int] is None
    &&& forall|i: int, j: int| 0 <= i < j < ids.len() ==> ids[i] != ids[j]
}

/// The totals of distinct top-level accounts add up to the cents of the
/// accounts below them.
proof fn lemma_sum_totals_tops(b: Book, ids: Seq<usize>)
    requires
        book_wf(b),
        distinct_tops(b, ids),
    ensures
        sum_totals(b, ids) == sum_where(
            cents_seq(b),
            b.accounts.len() as int,
            |y: int| reachable(b.parent@, y) && ids.contains(top_of(b.parent@, y) as usize),
        ),
    decreases ids.len(),
{
    let n = b.accounts.len() as int;
    let par = b.parent@;
    let c = cents_seq(b);
    if ids.len() == 0 {
        lemma_sum_where_ext(c, n, |y: int| reachable(par, y) && ids.contains(top_of(par, y) as usize), |y: int| false);
        lemma_sum_where_false(c, n);
    } else {
        let r = ids[0];
        let rest = ids.drop_first();
        assert(distinct_tops(b, rest)) by {
            assert forall|i: int, j: int| 0 <= i < j < rest.len() implies rest[i] != rest[j] by {
                assert(rest[i] == ids[i + 1]);
                assert(rest[j] == ids[j + 1]);
            }
            assert forall|i: int| 0 <= i < rest.len() implies #[trigger] rest[i] < b.parent.len() && b.parent@[rest[i] as int] is None by {
                assert(rest[i] == ids[i + 1]);
            }
        }
        lemma_sum_totals_tops(b, rest);
        assert(ids[0] < b.parent.len() && b.parent@[ids[0] as int] is None);
        assert(b.totals@[r as int] as int == subtree_sum(par, c, r as int, n));
        lemma_subtree_sum_where(par, c, r as int, n);
        let p = |y: int| in_subtree(par, r as int, y);
        let q = |y: int| reachable(par, y) && rest.contains(top_of(par, y) as usize);
        assert forall|y: int| 0 <= y < n implies !(#[trigger] p(y) && q(y)) by {
            lemma_in_subtree_top(par, r as int, y);
            if p(y) && q(y) {
                let i = choose|i: int| 0 <= i < rest.len() && rest[i] == top_of(par, y) as usize;
                assert(ids[i + 1] == ids[0]);
            }
        }
        lemma_sum_where_or(c, n, p, q);
        let pq = |y: int| p(y) || q(y);
        let target = |y: int| reachable(par, y) && ids.contains(top_of(par, y) as usize);
        assert forall|y: int| 0 <= y < n implies #[trigger] pq(y) == target(y) by {
            lemma_in_subtree_top(par, r as int, y);
            if reachable(par, y) {
                lemma_top_of(par, y);
                let t = top_of(par, y) as usize;
                if ids.contains(t) {
                    let i = choose|i: int| 0 <= i < ids.len() && ids[i] == t;
                    if i > 0 {
                        assert(rest[i - 1] == t);
                    }
                }
                if rest.contains(t) {
                    let i = choose|i: int| 0 <= i < rest.len() && rest[i] == t;
                    assert(ids[i + 1] == t);
                }
                if t == r {
                    assert(ids[0] == t);
                }
            }
        }
        lemma_sum_where_ext(c, n, pq, target);
    }
}

proof fn lemma_sum_where_false(c: Seq<int>, m: int)
    ensures
        sum_where(c, m, |y: int| false) == 0,
    decreases m,
{
    if m > 0 {
        lemma_sum_where_false(c, m - 1);
    }
}


proof fn lemma_kids_none(par: Seq<Option<usize>>, k: int)
    requires
        0 <= k <= par.len(),
        par.len() <= usize::MAX,
    ensures
        forall|i: int|
            0 <= i < kids_upto(par, None, k).len() ==> (#[trigger] kids_upto(par, None, k)[i]) < k
                && par[kids_upto(par, None, k)[i] as int] is None,
        forall|i: int, j: int|
            0 <= i < j < kids_upto(par, None, k).len() ==> kids_upto(par, None, k)[i] < kids_upto(
                par,
                None,
                k,
            )[j],
        forall|j: int| 0 <= j < k && par[j] is None ==> #[trigger] kids_upto(par, None, k).contains(j as usize),
    decreases k,
{
    if k > 0 {
        lemma_kids_none(par, k - 1);
        let prev = kids_upto(par, None, k - 1);
        if par[k - 1] == None::<usize> {
            let cur = prev.push((k - 1) as usize);
            assert(kids_upto(par, None, k) == cur);
            assert forall|i: int| 0 <= i < cur.len() implies (#[trigger] cur[i]) < k && par[cur[i] as int] is None by {
                if i < prev.len() {
                    assert(cur[i] == prev[i]);
                }
            }
            assert forall|i: int, j: int| 0 <= i < j < cur.len() implies cur[i] < cur[j] by {
                assert(cur[i] == prev[i]);
                if j < prev.len() {
                    assert(cur[j] == prev[j]);
                } else {
                    assert(prev[i] < k - 1);
                }
            }
            assert forall|j: int| 0 <= j < k && par[j] is None implies #[trigger] cur.contains(j as usize) by {
                if j < k - 1 {
                    assert(prev.contains(j as usize));
                    let i = choose|i: int| 0 <= i < prev.len() && prev[i] == j as usize;
                    assert(cur[i] == j as usize);
                } else {
                    assert(cur[cur.len() - 1] == j as usize);
                }
            }
        } else {
            assert(kids_upto(par, None, k) == prev);
            assert forall|j: int| 0 <= j < k && par[j] is None implies #[trigger] prev.contains(j as usize) by {
                if j == k - 1 {
                    assert(par[k - 1] is Some);
                }
            }
        }
    }
}

/// The top-level accounts of a well-formed book are distinct, and each is
/// top-level; every top-level account is among them.
proof fn lemma_roots(b: Book)
    requires
        book_wf(b),
    ensures
        distinct_tops(b, b.roots@),
        forall|r: int|
            0 <= r < b.parent.len() && b.parent@[r] is None ==> #[trigger] b.roots@.contains(r as usize),
{
    let par = b.parent@;
    let ks = kids(par, None);
    lemma_kids_none(par, par.len() as int);
    assert forall|i: int| 0 <= i < b.roots.len() implies #[trigger] b.roots@[i] < b.parent.len() && b.parent@[b.roots@[i] as int] is None by {
        let r = b.roots@[i];
        assert(b.roots@.contains(r));
        assert(b.roots@.to_multiset().count(r) > 0);
        assert(ks.to_multiset().count(r) > 0);
        assert(ks.contains(r));
        let j = choose|j: int| 0 <= j < ks.len() && ks[j] == r;
        assert(ks[j] < par.len());
    }
    assert forall|i: int, j: int| 0 <= i < j < b.roots.len() implies b.roots@[i] != b.roots@[j] by {
        if b.roots@[i] == b.roots@[j] {
            crate::account_report::lemma_count_two(b.roots@, i, j);
            crate::account_report::lemma_distinct_count(ks, b.roots@[i]);
        }
    }
    assert forall|r: int| 0 <= r < b.parent.len() && b.parent@[r] is None implies #[trigger] b.roots@.contains(r as usize) by {
        assert(ks.contains(r as usize));
        assert(ks.to_multiset().count(r as usize) > 0);
        assert(b.roots@.to_multiset().count(r as usize) > 0);
    }
}

/// The top-level accounts of kinds `kinds` among the first `k`: each is one
/// of the first `k` top-level accounts and of such a kind, and each such
/// account is among them.
proof fn lemma_roots_of_kinds(b: Book, kinds: Seq<Seq<char>>, k: int)
    requires
        book_wf(b),
        0 <= k <= b.roots.len(),
    ensures
        forall|r: usize|
            #[trigger] roots_of_kinds_upto(b, kinds, k).contains(r) <==> (b.roots@.take(k).contains(r)
                && kinds.contains(b.accounts@[r as int].kind@)),
        forall|i: int|
            0 <= i < roots_of_kinds_upto(b, kinds, k).len() ==> b.roots@.take(k).contains(
                #[trigger] roots_of_kinds_upto(b, kinds, k)[i],
            ),
        distinct_tops(b, b.roots@) ==> distinct_tops(b, roots_of_kinds_upto(b, kinds, k)),
    decreases k,
{
    lemma_roots(b);
    if k > 0 {
        lemma_roots_of_kinds(b, kinds, k - 1);
        let prev = roots_of_kinds_upto(b, kinds, k - 1);
        let cur = roots_of_kinds_upto(b, kinds, k);
        let t = b.roots@.take(k);
        let tp = b.roots@.take(k - 1);
        assert(t =~= tp.push(b.roots@[k - 1]));
        let r0 = b.roots@[k - 1];
        assert forall|r: usize| #[trigger] cur.contains(r) <==> (t.contains(r) && kinds.contains(b.accounts@[r as int].kind@)) by {
            if kinds.contains(b.accounts@[r0 as int].kind@) {
                assert(cur == prev.push(r0));
                if cur.contains(r) {
                    let i = choose|i: int| 0 <= i < cur.len() && cur[i] == r;
                    if i < prev.len() {
                        assert(prev[i] == r);
                        assert(prev.contains(r));
                        let j = choose|j: int| 0 <= j < tp.len() && tp[j] == r;
                        assert(t[j] == r);
                    } else {
                        assert(t[k - 1] == r);
                    }
                }
                if t.contains(r) && kinds.contains(b.accounts@[r as int].kind@) {
                    let j = choose|j: int| 0 <= j < t.len() && t[j] == r;
                    if j < k - 1 {
                        assert(tp[j] == r);
                        assert(tp.contains(r));
                        assert(prev.contains(r));
                        let i = choose|i: int| 0 <= i < prev.len() && prev[i] == r;
                        assert(cur[i] == r);
                    } else {
                        assert(cur[cur.len() - 1] == r);
                    }
                }
            } else {
                assert(cur == prev);
                if cur.contains(r) {
                    assert(prev.contains(r));
                    let j = choose|j: int| 0 <= j < tp.len() && tp[j] == r;
                    assert(t[j] == r);
                }
                if t.contains(r) && kinds.contains(b.accounts@[r as int].kind@) {
                    let j = choose|j: int| 0 <= j < t.len() && t[j] == r;
                    if j < k - 1 {
                        assert(tp[j] == r);
                        assert(tp.contains(r));
                    } else {
                        assert(r == r0);
                    }
                }
            }
        }
        assert forall|i: int| 0 <= i < cur.len() implies t.contains(#[trigger] cur[i]) by {
            assert(cur.contains(cur[i]));
        }
        if distinct_tops(b, b.roots@) {
            assert forall|i: int, j: int| 0 <= i < j < cur.len() implies cur[i] != cur[j] by {
                if kinds.contains(b.accounts@[r0 as int].kind@) && j == cur.len() - 1 {
                    assert(cur[j] == r0);
                    assert(tp.contains(cur[i])) by {
                        assert(prev.contains(prev[i]));
                        assert(cur[i] == prev[i]);
                    }
                    let q = choose|q: int| 0 <= q < tp.len() && tp[q] == cur[i];
                    assert(b.roots@[q] == cur[i]);
                    assert(b.roots@[k - 1] == r0);
                }
            }
            assert forall|i: int| 0 <= i < cur.len() implies #[trigger] cur[i] < b.parent.len() && b.parent@[cur[i] as int] is None by {
                assert(t.contains(cur[i]));
                let q = choose|q: int| 0 <= q < t.len() && t[q] == cur[i];
                assert(b.roots@[q] == cur[i]);
            }
        }
    }
}

/// The totals of the top-level accounts of some kinds add up to the cents
/// of all accounts whose top-level account is of such a kind.
proof fn lemma_section_sum(b: Book, kinds: Seq<Seq<char>>)
    requires
        book_wf(b),
    ensures
        sum_totals(b, roots_of_kinds(b, kinds)) == sum_where(
            cents_seq(b),
            b.accounts.len() as int,
            |y: int| reachable(b.parent@, y) && kinds.contains(b.accounts@[top_of(b.parent@, y)].kind@),
        ),
{
    let par = b.parent@;
    let n = b.accounts.len() as int;
    let ids = roots_of_kinds(b, kinds);
    lemma_roots(b);
    lemma_roots_of_kinds(b, kinds, b.roots.len() as int);
    assert(b.roots@.take(b.roots.len() as int) =~= b.roots@);
    lemma_sum_totals_tops(b, ids);
    let p = |y: int| reachable(par, y) && ids.contains(top_of(par, y) as usize);
    let q = |y: int| reachable(par, y) && kinds.contains(b.accounts@[top_of(par, y)].kind@);
    assert forall|y: int| 0 <= y < n implies #[trigger] p(y) == q(y) by {
        if reachable(par, y) {
            lemma_top_of(par, y);
            let t = top_of(par, y);
            assert(b.roots@.contains(t as usize));
            assert(ids.contains(t as usize) == (b.roots@.contains(t as usize) && kinds.contains(
                b.accounts@[t].kind@,
            )));
        }
    }
    lemma_sum_where_ext(cents_seq(b), n, p, q);
}

/// A sum over some of the first `m` entries is at most the sum of their
/// magnitudes.
proof fn lemma_sum_where_abs(c: Seq<int>, m: int, p: spec_fn(int) -> bool)
    requires
        0 <= m <= c.len(),
    ensures
        iabs(sum_where(c, m, p)) <= abs_sum(c, m),
    decreases m,
{
    if m > 0 {
        lemma_sum_where_abs(c, m - 1, p);
    }
}

/// The top-level accounts of some kinds are distinct top-level accounts.
pub proof fn lemma_roots_of_kinds_tops(b: Book, kinds: Seq<Seq<char>>)
    requires
        book_wf(b),
    ensures
        distinct_tops(b, roots_of_kinds(b, kinds)),
{
    let ids = roots_of_kinds(b, kinds);
    lemma_roots(b);
    lemma_roots_of_kinds(b, kinds, b.roots.len() as int);
    assert(b.roots@.take(b.roots.len() as int) =~= b.roots@);
}

/// What a list of distinct top-level accounts adds up to, and so what any
/// first part of it adds up to, is at most the sum of all magnitudes.
pub proof fn lemma_tops_list_bound(b: Book, ids: Seq<usize>, i: int, depth: int, sign: int, subtotals: bool)
    requires
        book_wf(b),
        distinct_tops(b, ids),
        0 <= i <= ids.len(),
    ensures
        iabs(list_emit(b, ids.take(i), depth, sign, subtotals).1) <= abs_sum(
            cents_seq(b),
            b.accounts.len() as int,
        ),
{
    let t = ids.take(i);
    assert forall|a: int| 0 <= a < t.len() implies #[trigger] t[a] < b.parent.len() && b.parent@[t[a] as int] is None by {
        assert(t[a] == ids[a]);
    }
    assert forall|a: int, c: int| 0 <= a < c < t.len() implies t[a] != t[c] by {
        assert(t[a] == ids[a] && t[c] == ids[c]);
    }
    lemma_list_emit_total(b, t, depth, sign, subtotals);
    lemma_sum_totals_tops(b, t);
    lemma_sum_where_abs(
        cents_seq(b),
        b.accounts.len() as int,
        |y: int| reachable(b.parent@, y) && t.contains(top_of(b.parent@, y) as usize),
    );
}

/// The cents of the accounts of some kinds among the first `k` add up to
/// at most the sum of all magnitudes.
pub proof fn lemma_kinds_total_abs(b: Book, kinds: Seq<Seq<char>>, k: int)
    requires
        book_wf(b),
        0 <= k <= b.accounts.len(),
    ensures
        iabs(kinds_total_upto(b, kinds, k)) <= abs_sum(cents_seq(b), b.accounts.len() as int),
{
    lemma_kinds_total_where(b, kinds, k);
    lemma_sum_where_abs(cents_seq(b), k, |y: int| kinds.contains(b.accounts@[y].kind@));
    lemma_abs_sum(cents_seq(b), b.accounts.len() as int);
}

/// A report section's total, stated directly: the sum, with the
/// section's sign, of the CAD cents of every account that hangs below a
/// top-level account of one of the section's kinds.
pub proof fn lemma_section_total(
    b: Book,
    label: Seq<char>,
    total_label: Seq<char>,
    kinds: Seq<Seq<char>>,
    sign: int,
    subtotals: bool,
)
    requires
        book_wf(b),
    ensures
        section_emit(b, label, total_label, kinds, sign, subtotals).1 == sign * sum_where(
            cents_seq(b),
            b.accounts.len() as int,
            |y: int| reachable(b.parent@, y) && kinds.contains(b.accounts@[top_of(b.parent@, y)].kind@),
        ),
{
    lemma_list_emit_total(b, roots_of_kinds(b, kinds), 1, sign, subtotals);
    lemma_section_sum(b, kinds);
}

/// The net line of the income statement is revenue less trading and
/// expenses: its figure is minus the CAD cents of every account under an
/// income top-level account, minus those under an expense top-level
/// account, minus the balances of the trading accounts; the row shows the
/// figure's magnitude and reads income where it is not negative, loss
/// otherwise.
pub proof fn lemma_net_income(b: Book)
    requires
        book_wf(b),
    ensures
        ({
            let n = b.accounts.len() as int;
            let par = b.parent@;
            let income = sum_where(
                cents_seq(b),
                n,
                |y: int| reachable(par, y) && seq!["INCOME"@].contains(b.accounts@[top_of(par, y)].kind@),
            );
            let expenses = sum_where(
                cents_seq(b),
                n,
                |y: int| reachable(par, y) && seq!["EXPENSE"@].contains(b.accounts@[top_of(par, y)].kind@),
            );
            let net = -income - expenses - kinds_total_spec(b, seq!["TRADING"@]);
            let last = income_statement_spec(b).last();
            &&& last.kind == RowKind::Net
            &&& last.amount == Some(fmt_spec(iabs(net) as int))
            &&& last.label == if net >= 0 {
                "Net income for Period"@
            } else {
                "Net loss for Period"@
            }
        }),
{
    lemma_section_total(b, "Revenues"@, "Total Revenue"@, seq!["INCOME"@], -1, false);
    lemma_section_total(b, "Expenses"@, "Total Expenses"@, seq!["EXPENSE"@], 1, false);
}

proof fn lemma_kinds_total_where(b: Book, kinds: Seq<Seq<char>>, k: int)
    requires
        0 <= k <= b.accounts.len(),
    ensures
        kinds_total_upto(b, kinds, k) == sum_where(
            cents_seq(b),
            k,
            |y: int| kinds.contains(b.accounts@[y].kind@),
        ),
    decreases k,
{
    if k > 0 {
        lemma_kinds_total_where(b, kinds, k - 1);
    }
}


// ---------------------------------------------------------------------------
// The balance sheet
// ---------------------------------------------------------------------------

pub open spec fn asset_kinds() -> Seq<Seq<char>> {
    seq!["ASSET"@, "BANK"@, "CASH"@, "RECEIVABLE"@]
}

pub open spec fn liability_kinds() -> Seq<Seq<char>> {
    seq!["LIABILITY"@, "CREDIT"@, "PAYABLE"@]
}

pub open spec fn equity_kinds() -> Seq<Seq<char>> {
    seq!["EQUITY"@]
}

pub open spec fn income_expense_kinds() -> Seq<Seq<char>> {
    seq!["INCOME"@, "EXPENSE"@]
}

pub open spec fn trading_kinds() -> Seq<Seq<char>> {
    seq!["TRADING"@]
}

/// An asset, liability or equity kind.
pub open spec fn sheet_kind(k: Seq<char>) -> bool {
    asset_kinds().contains(k) || liability_kinds().contains(k) || equity_kinds().contains(k)
}

/// An income, expense or trading kind.
pub open spec fn flow_kind(k: Seq<char>) -> bool {
    income_expense_kinds().contains(k) || trading_kinds().contains(k)
}

/// Every account hangs below a top-level account, and an account is an
/// income, expense or trading account exactly when its top-level account
/// is not an asset, liability or equity account.
pub open spec fn kinds_consistent(b: Book) -> bool {
    forall|y: int|
        0 <= y < b.accounts.len() ==> #[trigger] reachable(b.parent@, y) && (sheet_kind(
            b.accounts@[top_of(b.parent@, y)].kind@,
        ) <==> !flow_kind(b.accounts@[y].kind@))
}

/// All balances, in CAD cents, add up to zero.
pub open spec fn cents_balance(b: Book) -> bool {
    sum_where(cents_seq(b), b.accounts.len() as int, |y: int| true) == 0
}

/// The figure of the balance sheet's "Total Assets" row.
pub open spec fn total_assets(b: Book) -> int {
    section_emit(b, "Assets"@, "Total Assets"@, asset_kinds(), 1, true).1
}

/// The figure of the balance sheet's "Total Liabilities & Equity" row.
pub open spec fn total_liabilities_equity(b: Book) -> int {
    let l = section_emit(b, "Liabilities"@, "Total Liabilities"@, liability_kinds(), -1, true);
    let e = list_emit(b, roots_of_kinds(b, equity_kinds()), 1, -1, true);
    let retained = -kinds_total_spec(b, income_expense_kinds());
    let trading = -kinds_total_spec(b, trading_kinds());
    l.1 + (-e.1 + retained + if trading != 0 {
        trading
    } else {
        0
    })
}

proof fn lemma_kind_groups(k: Seq<char>)
    ensures
        !(asset_kinds().contains(k) && liability_kinds().contains(k)),
        !(asset_kinds().contains(k) && equity_kinds().contains(k)),
        !(liability_kinds().contains(k) && equity_kinds().contains(k)),
        !(income_expense_kinds().contains(k) && trading_kinds().contains(k)),
{
    reveal_strlit("ASSET");
    reveal_strlit("BANK");
    reveal_strlit("CASH");
    reveal_strlit("RECEIVABLE");
    reveal_strlit("LIABILITY");
    reveal_strlit("CREDIT");
    reveal_strlit("PAYABLE");
    reveal_strlit("EQUITY");
    reveal_strlit("INCOME");
    reveal_strlit("EXPENSE");
    reveal_strlit("TRADING");
    let a = asset_kinds();
    let l = liability_kinds();
    let e = equity_kinds();
    let ie = income_expense_kinds();
    let t = trading_kinds();
    if a.contains(k) {
        let i = choose|i: int| 0 <= i < a.len() && a[i] == k;
        if l.contains(k) {
            let j = choose|j: int| 0 <= j < l.len() && l[j] == k;
            assert(a[i] != l[j]) by {
                assert(a[i].len() != l[j].len() || a[i][0] != l[j][0]);
            }
        }
        if e.contains(k) {
            let j = choose|j: int| 0 <= j < e.len() && e[j] == k;
            assert(a[i] != e[j]) by {
                assert(a[i].len() != e[j].len() || a[i][0] != e[j][0]);
            }
        }
    }
    if l.contains(k) && e.contains(k) {
        let i = choose|i: int| 0 <= i < l.len() && l[i] == k;
        let j = choose|j: int| 0 <= j < e.len() && e[j] == k;
        assert(l[i] != e[j]) by {
            assert(l[i].len() != e[j].len() || l[i][0] != e[j][0]);
        }
    }
    if ie.contains(k) && t.contains(k) {
        let i = choose|i: int| 0 <= i < ie.len() && ie[i] == k;
        let j = choose|j: int| 0 <= j < t.len() && t[j] == k;
        assert(ie[i] != t[j]) by {
            assert(ie[i].len() != t[j].len() || ie[i][0] != t[j][0]);
        }
    }
}

/// The balance sheet balances: in a book where every account hangs below
/// a top-level account, where the accounts below asset, liability and
/// equity accounts are exactly those that are not income, expense or
/// trading accounts, and whose balances in CAD cents add up to zero,
/// total assets equal total liabilities and equity, and the sheet's last
/// row shows that figure.
pub proof fn lemma_balance_sheet_balances(b: Book)
    requires
        book_wf(b),
        kinds_consistent(b),
        cents_balance(b),
    ensures
        total_assets(b) == total_liabilities_equity(b),
        balance_sheet_spec(b).last() == total_row(
            RowKind::Total,
            "Total Liabilities & Equity"@,
            fmt_spec(total_assets(b)),
        ),
{
    let n = b.accounts.len() as int;
    let par = b.parent@;
    let c = cents_seq(b);
    let ra = roots_of_kinds(b, asset_kinds());
    let rl = roots_of_kinds(b, liability_kinds());
    let re = roots_of_kinds(b, equity_kinds());
    lemma_list_emit_total(b, ra, 1, 1, true);
    lemma_list_emit_total(b, rl, 1, -1, true);
    lemma_list_emit_total(b, re, 1, -1, true);
    lemma_section_sum(b, asset_kinds());
    lemma_section_sum(b, liability_kinds());
    lemma_section_sum(b, equity_kinds());
    lemma_kinds_total_where(b, income_expense_kinds(), n);
    lemma_kinds_total_where(b, trading_kinds(), n);
    let pa = |y: int| reachable(par, y) && asset_kinds().contains(b.accounts@[top_of(par, y)].kind@);
    let pl = |y: int| reachable(par, y) && liability_kinds().contains(b.accounts@[top_of(par, y)].kind@);
    let pe = |y: int| reachable(par, y) && equity_kinds().contains(b.accounts@[top_of(par, y)].kind@);
    let pie = |y: int| income_expense_kinds().contains(b.accounts@[y].kind@);
    let pt = |y: int| trading_kinds().contains(b.accounts@[y].kind@);
    assert forall|y: int| 0 <= y < n implies !(#[trigger] pa(y) && pl(y)) by {
        lemma_kind_groups(b.accounts@[top_of(par, y)].kind@);
    }
    lemma_sum_where_or(c, n, pa, pl);
    let pal = |y: int| pa(y) || pl(y);
    assert forall|y: int| 0 <= y < n implies !(#[trigger] pal(y) && pe(y)) by {
        lemma_kind_groups(b.accounts@[top_of(par, y)].kind@);
    }
    lemma_sum_where_or(c, n, pal, pe);
    let sheet = |y: int| pal(y) || pe(y);
    assert forall|y: int| 0 <= y < n implies !(#[trigger] pie(y) && pt(y)) by {
        lemma_kind_groups(b.accounts@[y].kind@);
    }
    lemma_sum_where_or(c, n, pie, pt);
    let flow = |y: int| pie(y) || pt(y);
    assert forall|y: int| 0 <= y < n implies !(#[trigger] sheet(y) && flow(y)) by {
        assert(reachable(par, y));
    }
    lemma_sum_where_or(c, n, sheet, flow);
    let all = |y: int| sheet(y) || flow(y);
    assert forall|y: int| 0 <= y < n implies #[trigger] all(y) == (|y: int| true)(y) by {
        assert(reachable(par, y));
    }
    lemma_sum_where_ext(c, n, all, |y: int| true);
}


// ---------------------------------------------------------------------------
// From the stored data
// ---------------------------------------------------------------------------

/// The quantities of the splits of account `id`, added up.
pub open spec fn split_sum(splits: Seq<SplitQty>, id: Seq<char>) -> int
    decreases splits.len(),
{
    if splits.len() == 0 {
        0
    } else {
        split_sum(splits.drop_last(), id) + if splits.last().account_id@ == id {
            splits.last().num as int
        } else {
            0
        }
    }
}

/// The quantities of all splits, added up.
pub open spec fn all_sum(splits: Seq<SplitQty>) -> int
    decreases splits.len(),
{
    if splits.len() == 0 {
        0
    } else {
        all_sum(splits.drop_last()) + splits.last().num as int
    }
}

/// Data held in CAD cents: every split is in cents, every account is
/// held in CAD, and every split belongs to one of the accounts.
pub open spec fn cad_cents_data(rows: Seq<AccountRow>, splits: Seq<SplitQty>) -> bool {
    &&& forall|k: int| 0 <= k < splits.len() ==> (#[trigger] splits[k]).denom == 100
    &&& forall|i: int|
        0 <= i < rows.len() ==> ((#[trigger] rows[i]).commodity_id matches Some(c) && c@ == "CURRENCY:CAD"@)
    &&& forall|k: int|
        0 <= k < splits.len() ==> exists|i: int| 0 <= i < rows.len() && (#[trigger] rows[i]).id@ == (
        #[trigger] splits[k]).account_id@
}

/// The split sums of the first `m` accounts, added up.
spec fn rows_sum(rows: Seq<AccountRow>, splits: Seq<SplitQty>, m: int) -> int
    decreases m,
{
    if m <= 0 {
        0
    } else {
        rows_sum(rows, splits, m - 1) + split_sum(splits, rows[m - 1].id@)
    }
}

/// How many of the first `m` accounts have the id `a`.
spec fn id_count(rows: Seq<AccountRow>, a: Seq<char>, m: int) -> int
    decreases m,
{
    if m <= 0 {
        0
    } else {
        id_count(rows, a, m - 1) + if rows[m - 1].id@ == a {
            1int
        } else {
            0
        }
    }
}

/// In cents, an account's balance is its split sum over 100 (or `0/1`
/// before its first split).
proof fn lemma_cents_balance_of(splits: Seq<SplitQty>, id: Seq<char>)
    requires
        forall|k: int| 0 <= k < splits.len() ==> (#[trigger] splits[k]).denom == 100,
    ensures
        balance_spec(splits, id) matches Some(b) ==> (b == (0int, 1int) && split_sum(splits, id) == 0)
            || b == (split_sum(splits, id), 100int),
    decreases splits.len(),
{
    if splits.len() > 0 {
        let p = splits.drop_last();
        assert forall|k: int| 0 <= k < p.len() implies (#[trigger] p[k]).denom == 100 by {
            assert(p[k] == splits[k]);
        }
        lemma_cents_balance_of(p, id);
        assert(splits.last() == splits[splits.len() - 1]);
        reveal_with_fuel(crate::money::gcd_nat, 4);
        assert(crate::money::gcd_spec(1, 100) == 1);
        let s = splits.last();
        if s.account_id@ == id {
            if let Some(b0) = balance_spec(p, id) {
                let q = (s.num as int, s.denom as int);
                assert(q.1 == 100);
                if b0 == (0int, 1int) {
                    assert(100int / 1 == 100 && 1int / 1 == 1);
                    assert(crate::money::add_spec(b0, q) == (s.num as int, 100int));
                } else {
                    assert(crate::money::add_spec(b0, q) == (split_sum(p, id) + s.num, 100int));
                }
            }
        }
    }
}

/// A balance in cents converts to exactly its cents.
proof fn lemma_cents_exact(bal: (int, int), s: int)
    requires
        (bal == (0int, 1int) && s == 0) || bal == (s, 100int),
        cents_spec(bal, (1, 1)) is Some,
    ensures
        cents_spec(bal, (1, 1)) == Some(s),
{
    if bal == (s, 100int) {
        let a = crate::money::iabs(s);
        assert(crate::money::iabs(s * 100) == a * 100);
        assert((a * 100 + 50) / 100 == a) by (nonlinear_arith)
            requires
                a >= 0,
        ;
    }
}

proof fn lemma_rows_sum_push(rows: Seq<AccountRow>, splits: Seq<SplitQty>, s: SplitQty, m: int)
    requires
        0 <= m <= rows.len(),
    ensures
        rows_sum(rows, splits.push(s), m) == rows_sum(rows, splits, m) + id_count(rows, s.account_id@, m)
            * s.num,
    decreases m,
{
    if m > 0 {
        lemma_rows_sum_push(rows, splits, s, m - 1);
        assert(splits.push(s).drop_last() =~= splits);
        let c = id_count(rows, s.account_id@, m - 1);
        let e: int = if rows[m - 1].id@ == s.account_id@ {
            1
        } else {
            0
        };
        assert((c + e) * s.num == c * s.num + e * s.num) by (nonlinear_arith);
    }
}

proof fn lemma_id_count(rows: Seq<AccountRow>, a: Seq<char>, m: int)
    requires
        0 <= m <= rows.len(),
        ids_distinct(rows),
    ensures
        id_count(rows, a, m) == if exists|i: int| 0 <= i < m && (#[trigger] rows[i]).id@ == a {
            1int
        } else {
            0
        },
    decreases m,
{
    if m > 0 {
        lemma_id_count(rows, a, m - 1);
        if rows[m - 1].id@ == a {
            assert forall|i: int| 0 <= i < m - 1 implies (#[trigger] rows[i]).id@ != a by {
                assert(rows[i].id@ != rows[m - 1].id@);
            }
        }
        if exists|i: int| 0 <= i < m && (#[trigger] rows[i]).id@ == a {
            let i = choose|i: int| 0 <= i < m && (#[trigger] rows[i]).id@ == a;
            if i < m - 1 {
                assert(exists|j: int| 0 <= j < m - 1 && (#[trigger] rows[j]).id@ == a);
            }
        } else {
            assert(rows[m - 1].id@ != a);
        }
    }
}

/// Every split counted once, under its account.
proof fn lemma_rows_sum_all(rows: Seq<AccountRow>, splits: Seq<SplitQty>)
    requires
        ids_distinct(rows),
        forall|k: int|
            0 <= k < splits.len() ==> exists|i: int| 0 <= i < rows.len() && (#[trigger] rows[i]).id@ == (
            #[trigger] splits[k]).account_id@,
    ensures
        rows_sum(rows, splits, rows.len() as int) == all_sum(splits),
    decreases splits.len(),
{
    let n = rows.len() as int;
    if splits.len() == 0 {
        lemma_rows_sum_empty(rows, splits, n);
    } else {
        let p = splits.drop_last();
        let s = splits.last();
        assert forall|k: int|
            0 <= k < p.len() implies exists|i: int| 0 <= i < rows.len() && (#[trigger] rows[i]).id@ == (
            #[trigger] p[k]).account_id@ by {
            assert(p[k] == splits[k]);
        }
        lemma_rows_sum_all(rows, p);
        assert(p.push(s) =~= splits);
        lemma_rows_sum_push(rows, p, s, n);
        lemma_id_count(rows, s.account_id@, n);
        assert(s == splits[splits.len() - 1]);
        assert(exists|i: int| 0 <= i < n && (#[trigger] rows[i]).id@ == s.account_id@);
    }
}

proof fn lemma_rows_sum_empty(rows: Seq<AccountRow>, splits: Seq<SplitQty>, m: int)
    requires
        splits.len() == 0,
    ensures
        rows_sum(rows, splits, m) == 0,
    decreases m,
{
    if m > 0 {
        lemma_rows_sum_empty(rows, splits, m - 1);
    }
}

proof fn lemma_book_cents_sum(b: Book, rows: Seq<AccountRow>, splits: Seq<SplitQty>, m: int)
    requires
        0 <= m <= rows.len(),
        b.accounts.len() == rows.len(),
        forall|i: int| 0 <= i < rows.len() ==> #[trigger] cents_seq(b)[i] == split_sum(splits, rows[i].id@),
    ensures
        sum_where(cents_seq(b), m, |y: int| true) == rows_sum(rows, splits, m),
    decreases m,
{
    if m > 0 {
        lemma_book_cents_sum(b, rows, splits, m - 1);
        assert(cents_seq(b)[m - 1] == split_sum(splits, rows[m - 1].id@));
    }
}

/// Balanced data in CAD cents gives a balance sheet that balances: where
/// every split is in cents, every account is held in CAD, every split
/// belongs to one of the accounts and the splits add up to zero (as they
/// do where every transaction balances), the book built from the data
/// (see `build_book`) has CAD balances adding up to zero; so where its
/// kinds are consistent, total assets equal total liabilities and equity.
pub proof fn lemma_balanced_data_balances(
    rows: Seq<AccountRow>,
    splits: Seq<SplitQty>,
    prices: Seq<PriceRow>,
    to: Seq<char>,
    b: Book,
)
    requires
        ids_distinct(rows),
        cad_cents_data(rows, splits),
        all_sum(splits) == 0,
        book_wf(b),
        b.accounts.len() == rows.len(),
        forall|i: int|
            0 <= i < rows.len() ==> acct_matches(#[trigger] b.accounts@[i], rows, splits, prices, to, i),
    ensures
        cents_balance(b),
        kinds_consistent(b) ==> total_assets(b) == total_liabilities_equity(b),
{
    let n = rows.len() as int;
    assert forall|i: int| 0 <= i < n implies #[trigger] cents_seq(b)[i] == split_sum(splits, rows[i].id@) by {
        assert(acct_matches(b.accounts@[i], rows, splits, prices, to, i));
        let id = rows[i].id@;
        lemma_cents_balance_of(splits, id);
        let bal = balance_spec(splits, id)->0;
        assert(rows[i].commodity_id matches Some(c) ==> c@ == "CURRENCY:CAD"@);
        assert(price_of(rows, prices, to, i) == (1int, 1int));
        lemma_cents_exact(bal, split_sum(splits, id));
    }
    lemma_rows_sum_all(rows, splits);
    lemma_book_cents_sum(b, rows, splits, n);
    if kinds_consistent(b) {
        lemma_balance_sheet_balances(b);
    }
}

} // verus!
