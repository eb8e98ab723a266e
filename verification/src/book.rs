//! The book a report is computed from: every account with its balance
//! over the report's date window, converted to CAD cents at the price
//! nearest the report end date, arranged as a tree with subtree totals.
//!
//! The rows come from the database; this module decides everything that
//! follows from them.

use vstd::prelude::*;
use crate::money::{add_fits, add_spec, checked_add, iabs, in_i128, pair_view};
use crate::order::{
    key_le, key_view, lemma_str_lt_irrefl, lemma_str_lt_total, lemma_str_lt_trans, opt_view,
    sort_indices, sorted_by_keys, str_less, str_lt, Key,
};
use crate::text::{string_is, unsigned_abs};

verus! {

broadcast use vstd::seq_lib::group_to_multiset_ensures;

/// An account as the database lists it (root accounts left out).
pub struct AccountRow {
    pub id: String,
    pub name: String,
    pub kind: String,
    pub commodity_id: Option<String>,
    pub parent_id: Option<String>,
    pub code: Option<String>,
}

/// The quantity of one split in its account's commodity.
pub struct SplitQty {
    pub account_id: String,
    pub num: i64,
    pub denom: i64,
}

/// A price of a commodity in CAD on a date (`YYYY-MM-DD`).
pub struct PriceRow {
    pub commodity_id: String,
    pub date: String,
    pub num: i64,
    pub denom: i64,
}

/// An account of the book.
pub struct Acct {
    pub id: String,
    pub name: String,
    pub kind: String,
    pub commodity_id: Option<String>,
    pub code: Option<String>,
    /// balance in own commodity (exact rational)
    pub own: (i128, i128),
    /// balance converted to CAD cents (rounded once per account)
    pub own_cents: i128,
}

/// Accounts, their tree (children sorted by code then name) and, for each
/// account, its own balance plus all descendants' in CAD cents.
pub struct Book {
    pub accounts: Vec<Acct>,
    pub parent: Vec<Option<usize>>,
    pub roots: Vec<usize>,
    pub children: Vec<Vec<usize>>,
    pub totals: Vec<i128>,
}

// ---------------------------------------------------------------------------
// Balances
// ---------------------------------------------------------------------------

/// The balance of the account `id`: its split quantities added up in the
/// order given, from `0/1`; `None` where an addition would overflow.
pub open spec fn balance_spec(splits: Seq<SplitQty>, id: Seq<char>) -> Option<(int, int)>
    decreases splits.len(),
{
    if splits.len() == 0 {
        Some((0, 1))
    } else {
        let prev = balance_spec(splits.drop_last(), id);
        let s = splits.last();
        if s.account_id@ == id {
            match prev {
                Some(b) => {
                    let q = (s.num as int, s.denom as int);
                    if add_fits(b, q) {
                        Some(add_spec(b, q))
                    } else {
                        None
                    }
                },
                None => None,
            }
        } else {
            prev
        }
    }
}

pub fn balance_of(splits: &Vec<SplitQty>, id: &String) -> (r: Option<(i128, i128)>)
    ensures
        match r {
            Some(b) => balance_spec(splits@, id@) == Some(pair_view(b)),
            None => balance_spec(splits@, id@) is None,
        },
{
    let mut b: (i128, i128) = (0, 1);
    let mut i: usize = 0;
    assert(splits@.take(0) =~= Seq::<SplitQty>::empty());
    while i < splits.len()
        invariant
            i <= splits.len(),
            balance_spec(splits@.take(i as int), id@) == Some(pair_view(b)),
        decreases splits.len() - i,
    {
        let ghost cur = splits@.take(i + 1);
        assert(cur.drop_last() =~= splits@.take(i as int));
        let s = &splits[i];
        if s.account_id == *id {
            match checked_add(b, (s.num as i128, s.denom as i128)) {
                Some(nb) => {
                    b = nb;
                },
                None => {
                    proof {
                        lemma_balance_none_stays(splits@, id@, i + 1);
                    }
                    return None;
                },
            }
        }
        i += 1;
    }
    assert(splits@.take(splits.len() as int) =~= splits@);
    Some(b)
}

proof fn lemma_balance_none_stays(splits: Seq<SplitQty>, id: Seq<char>, k: int)
    requires
        0 <= k <= splits.len(),
        balance_spec(splits.take(k), id) is None,
    ensures
        balance_spec(splits, id) is None,
    decreases splits.len() - k,
{
    if k < splits.len() {
        assert(splits.take(k + 1).drop_last() =~= splits.take(k));
        lemma_balance_none_stays(splits, id, k + 1);
    } else {
        assert(splits.take(k) =~= splits);
    }
}

// ---------------------------------------------------------------------------
// Prices
// ---------------------------------------------------------------------------

/// `a` is strictly nearer the end date `to` than `b`: on-or-before beats
/// after, the latest on-or-before wins, and after `to` the earliest wins.
pub open spec fn price_pref(a: Seq<char>, b: Seq<char>, to: Seq<char>) -> bool {
    let a_after = str_lt(to, a);
    let b_after = str_lt(to, b);
    ||| !a_after && b_after
    ||| !a_after && !b_after && str_lt(b, a)
    ||| a_after && b_after && str_lt(a, b)
}

proof fn lemma_pref_props(a: Seq<char>, b: Seq<char>, c: Seq<char>, to: Seq<char>)
    ensures
        !price_pref(a, a, to),
        price_pref(a, b, to) && price_pref(b, c, to) ==> price_pref(a, c, to),
        price_pref(a, c, to) ==> price_pref(a, b, to) || price_pref(b, c, to),
{
    lemma_str_lt_irrefl(a);
    lemma_str_lt_total(a, b);
    lemma_str_lt_total(b, c);
    lemma_str_lt_total(a, c);
    if str_lt(a, b) && str_lt(b, c) {
        lemma_str_lt_trans(a, b, c);
    }
    if str_lt(c, b) && str_lt(b, a) {
        lemma_str_lt_trans(c, b, a);
    }
    if str_lt(b, a) && str_lt(a, c) {
        lemma_str_lt_trans(b, a, c);
    }
    if str_lt(a, c) && str_lt(c, b) {
        lemma_str_lt_trans(a, c, b);
    }
    if str_lt(c, a) && str_lt(a, b) {
        lemma_str_lt_trans(c, a, b);
    }
    if str_lt(b, c) && str_lt(c, a) {
        lemma_str_lt_trans(b, c, a);
    }
    if str_lt(a, b) && str_lt(b, a) {
        lemma_str_lt_trans(a, b, a);
    }
    if str_lt(b, c) && str_lt(c, b) {
        lemma_str_lt_trans(b, c, b);
    }
    if str_lt(a, c) && str_lt(c, a) {
        lemma_str_lt_trans(a, c, a);
    }
    lemma_str_lt_irrefl(b);
    lemma_str_lt_irrefl(c);
    lemma_str_lt_total(to, a);
    lemma_str_lt_total(to, b);
    lemma_str_lt_total(to, c);
    if str_lt(to, a) && str_lt(a, b) {
        lemma_str_lt_trans(to, a, b);
    }
    if str_lt(to, b) && str_lt(b, c) {
        lemma_str_lt_trans(to, b, c);
    }
    if str_lt(to, a) && str_lt(a, c) {
        lemma_str_lt_trans(to, a, c);
    }
    if str_lt(to, b) && str_lt(b, a) {
        lemma_str_lt_trans(to, b, a);
    }
    if str_lt(to, c) && str_lt(c, a) {
        lemma_str_lt_trans(to, c, a);
    }
    if str_lt(to, c) && str_lt(c, b) {
        lemma_str_lt_trans(to, c, b);
    }
}

/// `prices[i]` is the price of `c` to use: no price of `c` is nearer the
/// end date, and every earlier one is farther (the first of equals).
pub open spec fn is_best_price(prices: Seq<PriceRow>, c: Seq<char>, to: Seq<char>, i: int) -> bool {
    &&& 0 <= i < prices.len()
    &&& prices[i].commodity_id@ == c
    &&& forall|j: int|
        0 <= j < prices.len() && (#[trigger] prices[j]).commodity_id@ == c ==> !price_pref(
            prices[j].date@,
            prices[i].date@,
            to,
        ) && (j < i ==> price_pref(prices[i].date@, prices[j].date@, to))
}

/// The price of `c` nearest the end date `to`, if `c` has any.
pub open spec fn best_price(prices: Seq<PriceRow>, c: Seq<char>, to: Seq<char>) -> Option<int> {
    if exists|i: int| is_best_price(prices, c, to, i) {
        Some(choose|i: int| is_best_price(prices, c, to, i))
    } else {
        None
    }
}

proof fn lemma_best_unique(prices: Seq<PriceRow>, c: Seq<char>, to: Seq<char>, i: int, k: int)
    requires
        is_best_price(prices, c, to, i),
        is_best_price(prices, c, to, k),
    ensures
        i == k,
{
    if i < k {
        assert(price_pref(prices[k].date@, prices[i].date@, to));
        assert(!price_pref(prices[k].date@, prices[i].date@, to));
    } else if k < i {
        assert(price_pref(prices[i].date@, prices[k].date@, to));
        assert(!price_pref(prices[i].date@, prices[k].date@, to));
    }
}

fn pref_exec(a: &String, b: &String, to: &String) -> (r: bool)
    ensures
        r == price_pref(a@, b@, to@),
{
    let a_after = str_less(to, a);
    let b_after = str_less(to, b);
    (!a_after && b_after) || (!a_after && !b_after && str_less(b, a)) || (a_after && b_after
        && str_less(a, b))
}

/// Index of the price of `c` nearest the end date `to`.
pub fn select_price(prices: &Vec<PriceRow>, c: &String, to: &String) -> (r: Option<usize>)
    ensures
        match r {
            Some(i) => best_price(prices@, c@, to@) == Some(i as int),
            None => best_price(prices@, c@, to@) is None,
        },
{
    let mut best: Option<usize> = None;
    let mut k: usize = 0;
    while k < prices.len()
        invariant
            k <= prices.len(),
            match best {
                Some(b) => {
                    &&& b < k
                    &&& prices@[b as int].commodity_id@ == c@
                    &&& forall|j: int|
                        0 <= j < k && (#[trigger] prices@[j]).commodity_id@ == c@ ==> !price_pref(
                            prices@[j].date@,
                            prices@[b as int].date@,
                            to@,
                        ) && (j < b ==> price_pref(
                            prices@[b as int].date@,
                            prices@[j].date@,
                            to@,
                        ))
                },
                None => forall|j: int|
                    0 <= j < k ==> (#[trigger] prices@[j]).commodity_id@ != c@,
            },
        decreases prices.len() - k,
    {
        if prices[k].commodity_id == *c {
            match best {
                None => {
                    proof {
                        lemma_pref_props(prices@[k as int].date@, prices@[k as int].date@, prices@[k as int].date@, to@);
                    }
                    best = Some(k);
                },
                Some(b) => {
                    if pref_exec(&prices[k].date, &prices[b].date, to) {
                        proof {
                            let dk = prices@[k as int].date@;
                            let db = prices@[b as int].date@;
                            assert forall|j: int|
                                0 <= j < k + 1 && (#[trigger] prices@[j]).commodity_id@ == c@ implies !price_pref(
                                prices@[j].date@,
                                dk,
                                to@,
                            ) && (j < k ==> price_pref(dk, prices@[j].date@, to@)) by {
                                let dj = prices@[j].date@;
                                lemma_pref_props(dj, dk, db, to@);
                                lemma_pref_props(dk, db, dj, to@);
                                lemma_pref_props(dk, dj, db, to@);
                                lemma_pref_props(dj, db, dk, to@);
                            }
                        }
                        best = Some(k);
                    } else {
                        proof {
                            lemma_pref_props(prices@[b as int].date@, prices@[b as int].date@, prices@[b as int].date@, to@);
                        }
                    }
                },
            }
        }
        k += 1;
    }
    proof {
        match best {
            Some(b) => {
                assert(is_best_price(prices@, c@, to@, b as int));
                lemma_best_exists_unique(prices@, c@, to@, b as int);
            },
            None => {
                assert(!exists|i: int| is_best_price(prices@, c@, to@, i));
            },
        }
    }
    best
}

proof fn lemma_best_exists_unique(prices: Seq<PriceRow>, c: Seq<char>, to: Seq<char>, b: int)
    requires
        is_best_price(prices, c, to, b),
    ensures
        best_price(prices, c, to) == Some(b),
{
    let i = choose|i: int| is_best_price(prices, c, to, i);
    lemma_best_unique(prices, c, to, i, b);
}

// ---------------------------------------------------------------------------
// Conversion to cents
// ---------------------------------------------------------------------------

/// `num / den` rounded half away from zero.
pub open spec fn round_half_away(num: int, den: int) -> int {
    let m = ((iabs(num) + iabs(den) / 2) / iabs(den)) as int;
    if (num >= 0) == (den > 0) {
        m
    } else {
        -m
    }
}

/// `bal * price` in cents, rounded half away from zero (0 where the
/// product's denominator is 0); `None` where the i128 arithmetic of the
/// conversion overflows.
pub open spec fn cents_spec(bal: (int, int), price: (int, int)) -> Option<int> {
    let p = bal.0 * price.0;
    let num = p * 100;
    let den = bal.1 * price.1;
    if !in_i128(p) || !in_i128(num) || !in_i128(den) {
        None
    } else if den == 0 {
        Some(0)
    } else {
        let h = iabs(den) / 2;
        let v = if (num >= 0) == (den > 0) {
            if den > 0 {
                num + h
            } else {
                num - h
            }
        } else {
            if den > 0 {
                num - h
            } else {
                num + h
            }
        };
        let r = round_half_away(num, den);
        if !in_i128(v) || !in_i128(r) {
            None
        } else {
            Some(r)
        }
    }
}

/// bal * price, rounded (half away from zero) to cents.
pub fn to_cents(bal: (i128, i128), price: (i128, i128)) -> (r: Option<i128>)
    ensures
        match r {
            Some(c) => cents_spec(pair_view(bal), pair_view(price)) == Some(c as int),
            None => cents_spec(pair_view(bal), pair_view(price)) is None,
        },
{
    let p = match bal.0.checked_mul(price.0) {
        Some(p) => p,
        None => {
            return None;
        },
    };
    let num = match p.checked_mul(100) {
        Some(n) => n,
        None => {
            return None;
        },
    };
    let den = match bal.1.checked_mul(price.1) {
        Some(d) => d,
        None => {
            return None;
        },
    };
    if den == 0 {
        return Some(0);
    }
    let dabs = unsigned_abs(den);
    let h = (dabs / 2) as i128;
    // num +/- den/2, with den/2 truncated toward zero
    let v = if (num >= 0) == (den > 0) {
        if den > 0 {
            num.checked_add(h)
        } else {
            num.checked_sub(h)
        }
    } else {
        if den > 0 {
            num.checked_sub(h)
        } else {
            num.checked_add(h)
        }
    };
    let v = match v {
        Some(v) => v,
        None => {
            return None;
        },
    };
    // v / den, truncated toward zero
    let va = unsigned_abs(v);
    let q = va / dabs;
    proof {
        let na = iabs(num as int);
        assert(va as int == na + h);
        assert(q as int == ((iabs(num as int) + iabs(den as int) / 2) / iabs(den as int)) as int);
    }
    if (num >= 0) == (den > 0) {
        if q > i128::MAX as u128 {
            return None;
        }
        Some(q as i128)
    } else {
        if q > (i128::MAX as u128) + 1 {
            return None;
        }
        if q == (i128::MAX as u128) + 1 {
            Some(i128::MIN)
        } else {
            Some(-(q as i128))
        }
    }
}


// ---------------------------------------------------------------------------
// The account tree
// ---------------------------------------------------------------------------

/// The first row at or after `from` whose id is `id`.
pub open spec fn find_id_from(rows: Seq<AccountRow>, id: Seq<char>, from: int) -> Option<int>
    decreases rows.len() - from,
{
    if from < 0 || from >= rows.len() {
        None
    } else if rows[from].id@ == id {
        Some(from)
    } else {
        find_id_from(rows, id, from + 1)
    }
}

/// The parent of row `i`: its `parent_id`, where a (non-root) row has it.
pub open spec fn parent_spec(rows: Seq<AccountRow>, i: int) -> Option<int> {
    match rows[i].parent_id {
        Some(p) => find_id_from(rows, p@, 0),
        None => None,
    }
}

fn find_id(rows: &Vec<AccountRow>, id: &String) -> (r: Option<usize>)
    ensures
        match r {
            Some(j) => find_id_from(rows@, id@, 0) == Some(j as int) && j < rows.len(),
            None => find_id_from(rows@, id@, 0) is None,
        },
{
    let mut j: usize = 0;
    while j < rows.len()
        invariant
            j <= rows.len(),
            find_id_from(rows@, id@, 0) == find_id_from(rows@, id@, j as int),
        decreases rows.len() - j,
    {
        if rows[j].id == *id {
            return Some(j);
        }
        j += 1;
    }
    None
}

/// One step up the tree.
pub open spec fn step_up(par: Seq<Option<usize>>, j: int) -> Option<int> {
    if 0 <= j < par.len() {
        match par[j] {
            Some(p) => Some(p as int),
            None => None,
        }
    } else {
        None
    }
}

/// The `k`-th ancestor of `y` (`y` itself for `k == 0`).
pub open spec fn anc(par: Seq<Option<usize>>, y: int, k: nat) -> Option<int>
    decreases k,
{
    if k == 0 {
        Some(y)
    } else {
        match anc(par, y, (k - 1) as nat) {
            Some(j) => step_up(par, j),
            None => None,
        }
    }
}

/// The `k`-th ancestor of `y` is a top-level account.
pub open spec fn top_at(par: Seq<Option<usize>>, y: int, k: nat) -> bool {
    anc(par, y, k) matches Some(j) && 0 <= j < par.len() && par[j] is None
}

/// `y` hangs below a top-level account (the accounts a walk from the
/// top-level accounts reaches).
pub open spec fn reachable(par: Seq<Option<usize>>, y: int) -> bool {
    exists|k: nat| k <= par.len() && #[trigger] top_at(par, y, k)
}

/// `y` is `x` or one of its descendants.
pub open spec fn in_subtree(par: Seq<Option<usize>>, x: int, y: int) -> bool {
    reachable(par, y) && exists|k: nat| k <= par.len() && #[trigger] anc(par, y, k) == Some(x)
}

/// The cents of the accounts among `0..m` in the subtree of `x`.
pub open spec fn subtree_sum(par: Seq<Option<usize>>, cents: Seq<int>, x: int, m: int) -> int
    decreases m,
{
    if m <= 0 {
        0
    } else {
        subtree_sum(par, cents, x, m - 1) + if in_subtree(par, x, m - 1) {
            cents[m - 1]
        } else {
            0
        }
    }
}

pub proof fn lemma_anc_none_propagates(par: Seq<Option<usize>>, y: int, k: nat, k2: nat)
    requires
        anc(par, y, k) is None,
        k <= k2,
    ensures
        anc(par, y, k2) is None,
    decreases k2,
{
    if k < k2 {
        lemma_anc_none_propagates(par, y, k, (k2 - 1) as nat);
    }
}

proof fn lemma_anc_shift(par: Seq<Option<usize>>, y: int, i: nat, j: nat, m: nat)
    requires
        anc(par, y, i) == anc(par, y, j),
    ensures
        anc(par, y, i + m) == anc(par, y, j + m),
    decreases m,
{
    if m > 0 {
        lemma_anc_shift(par, y, i, j, (m - 1) as nat);
        assert(anc(par, y, i + m) == match anc(par, y, (i + m - 1) as nat) {
            Some(q) => step_up(par, q),
            None => None,
        });
        assert(anc(par, y, j + m) == match anc(par, y, (j + m - 1) as nat) {
            Some(q) => step_up(par, q),
            None => None,
        });
    }
}

/// Along the way up to a top-level account no account comes twice.
proof fn lemma_chain_distinct(par: Seq<Option<usize>>, y: int, r: nat, i: nat, j: nat)
    requires
        top_at(par, y, r),
        i < j <= r,
    ensures
        anc(par, y, i) != anc(par, y, j),
{
    if anc(par, y, i) == anc(par, y, j) {
        let m = (r - j) as nat;
        lemma_anc_shift(par, y, i, j, m);
        let t = (i + m) as nat;
        assert(anc(par, y, t) == anc(par, y, r));
        assert(anc(par, y, t + 1) is None);
        lemma_anc_none_propagates(par, y, (t + 1) as nat, r);
    }
}

/// Past a top-level account there is no ancestor.
pub proof fn lemma_past_top(par: Seq<Option<usize>>, y: int, r: nat, k: nat)
    requires
        top_at(par, y, r),
        r < k,
    ensures
        anc(par, y, k) is None,
{
    assert(anc(par, y, r + 1) is None);
    lemma_anc_none_propagates(par, y, r + 1, k);
}

pub proof fn lemma_subtree_sum_bound(par: Seq<Option<usize>>, cents: Seq<int>, x: int, m: int, b: int)
    requires
        0 <= m <= cents.len(),
        forall|i: int| 0 <= i < cents.len() ==> iabs(#[trigger] cents[i]) <= b,
    ensures
        iabs(subtree_sum(par, cents, x, m)) <= m * b,
    decreases m,
{
    if m > 0 {
        lemma_subtree_sum_bound(par, cents, x, m - 1, b);
        let s1 = subtree_sum(par, cents, x, m - 1);
        let add = if in_subtree(par, x, m - 1) {
            cents[m - 1]
        } else {
            0
        };
        assert(iabs(cents[m - 1]) <= b);
        assert(iabs(add) <= b);
        assert(subtree_sum(par, cents, x, m) == s1 + add);
        assert((m - 1) * b + b == m * b) by (nonlinear_arith);
        assert(iabs(s1 + add) <= iabs(s1) + iabs(add));
        assert(iabs(s1) <= (m - 1) * b);
        assert(iabs(s1 + add) <= m * b);
    } else {
        assert(m * b == 0) by (nonlinear_arith)
            requires
                m == 0,
        ;
    }
}

pub open spec fn parents_valid(par: Seq<Option<usize>>) -> bool {
    forall|i: int| 0 <= i < par.len() ==> (#[trigger] par[i] matches Some(p) ==> p < par.len())
}

/// For every account, the cents of its subtree.
fn subtree_totals(par: &Vec<Option<usize>>, cents: &Vec<i128>) -> (totals: Vec<i128>)
    requires
        par.len() == cents.len(),
        parents_valid(par@),
        abs_sum(cents@.map_values(|c: i128| c as int), cents.len() as int) <= i128::MAX,
    ensures
        totals.len() == cents.len(),
        forall|x: int|
            0 <= x < cents.len() ==> #[trigger] totals@[x] as int == subtree_sum(
                par@,
                cents@.map_values(|c: i128| c as int),
                x,
                cents.len() as int,
            ),
{
    let n = cents.len();
    let ghost cv = cents@.map_values(|c: i128| c as int);
    let mut totals: Vec<i128> = Vec::new();
    while totals.len() < n
        invariant
            totals.len() <= n,
            forall|x: int| 0 <= x < totals.len() ==> #[trigger] totals@[x] == 0,
        decreases n - totals.len(),
    {
        totals.push(0);
    }
    let mut y: usize = 0;
    while y < n
        invariant
            y <= n,
            n == cents.len(),
            n == par.len(),
            totals.len() == n,
            parents_valid(par@),
            cv == cents@.map_values(|c: i128| c as int),
            abs_sum(cv, n as int) <= i128::MAX,
            forall|x: int|
                0 <= x < n ==> #[trigger] totals@[x] as int == subtree_sum(par@, cv, x, y as int),
        decreases n - y,
    {
        // find the top-level account above y
        let mut cur = y;
        let mut k: usize = 0;
        while k < n && par[cur].is_some()
            invariant
                k <= n,
                n == par.len(),
                y < n,
                cur < n,
                parents_valid(par@),
                anc(par@, y as int, k as nat) == Some(cur as int),
                forall|k2: nat| k2 < k ==> !#[trigger] top_at(par@, y as int, k2),
            decreases n - k,
        {
            proof {
                assert(!top_at(par@, y as int, k as nat));
            }
            cur = par[cur].unwrap();
            k += 1;
        }
        if par[cur].is_some() {
            proof {
                assert(!top_at(par@, y as int, k as nat));
                assert(!reachable(par@, y as int));
                assert forall|x: int| 0 <= x < n implies #[trigger] totals@[x] as int
                    == subtree_sum(par@, cv, x, y + 1) by {
                    assert(!in_subtree(par@, x, y as int));
                }
            }
        } else {
            let r = k;
            let ghost base = totals@;
            proof {
                assert(top_at(par@, y as int, r as nat));
                assert(reachable(par@, y as int));
            }
            // add y's cents to every account on the way up
            let mut cur = y;
            let mut t: usize = 0;
            let c = cents[y];
            let mut done = false;
            while !done
                invariant
                    t <= r,
                    r <= n,
                    n == par.len(),
                    n == cents.len(),
                    totals.len() == n,
                    y < n,
                    cur < n,
                    c == cents@[y as int],
                    parents_valid(par@),
                    base.len() == n,
                    cv == cents@.map_values(|c: i128| c as int),
                    top_at(par@, y as int, r as nat),
                    done ==> t == r,
                    anc(par@, y as int, t as nat) == Some(cur as int),
                    abs_sum(cv, n as int) <= i128::MAX,
                    forall|x: int|
                        0 <= x < n ==> #[trigger] totals@[x] as int == base[x] as int + if exists|t2: nat|
                            t2 < (if done { t + 1 } else { t as int }) && #[trigger] anc(par@, y as int, t2) == Some(x) {
                            c as int
                        } else {
                            0
                        },
                    forall|x: int|
                        0 <= x < n ==> #[trigger] base[x] as int == subtree_sum(par@, cv, x, y as int),
                decreases r - t, if done { 0int } else { 1int },
            {
                proof {
                    assert forall|t2: nat| t2 < t implies #[trigger] anc(par@, y as int, t2) != Some(
                        cur as int,
                    ) by {
                        lemma_chain_distinct(par@, y as int, r as nat, t2, t as nat);
                    }
                    lemma_subtree_sum_abs(par@, cv, cur as int, y as int);
                    lemma_abs_sum(cv, n as int);
                    assert(totals@[cur as int] == base[cur as int]);
                    assert(cv[y as int] == c as int);
                    assert(abs_sum(cv, y + 1) == abs_sum(cv, y as int) + iabs(cv[y as int]));
                    assert(abs_sum(cv, y + 1) <= abs_sum(cv, n as int));
                    assert(iabs(totals@[cur as int] as int + c as int) <= abs_sum(cv, y + 1));
                    assert(totals@[cur as int] as int + c as int <= i128::MAX);
                    assert(totals@[cur as int] as int + c as int >= i128::MIN);
                }
                let nt = totals[cur] + c;
                totals.set(cur, nt);
                proof {
                    assert forall|x: int| 0 <= x < n implies #[trigger] totals@[x] as int
                        == base[x] as int + if exists|t2: nat|
                        t2 < t + 1 && #[trigger] anc(par@, y as int, t2) == Some(x) {
                        c as int
                    } else {
                        0
                    } by {
                        if x == cur as int {
                            assert(anc(par@, y as int, t as nat) == Some(x));
                        } else {
                            if exists|t2: nat| t2 < t + 1 && #[trigger] anc(par@, y as int, t2) == Some(x) {
                                let t2 = choose|t2: nat| t2 < t + 1 && #[trigger] anc(par@, y as int, t2) == Some(x);
                                assert(t2 != t);
                            }
                        }
                    }
                }
                if t == r {
                    done = true;
                } else {
                    proof {
                        assert(anc(par@, y as int, (t + 1) as nat) == step_up(par@, cur as int));
                        lemma_anc_none_propagates_contra(par@, y as int, (t + 1) as nat, r as nat);
                    }
                    cur = par[cur].unwrap();
                    t += 1;
                }
            }
            proof {
                assert forall|x: int| 0 <= x < n implies #[trigger] totals@[x] as int
                    == subtree_sum(par@, cv, x, y + 1) by {
                    let e1 = exists|t2: nat| t2 < r + 1 && #[trigger] anc(par@, y as int, t2) == Some(x);
                    if in_subtree(par@, x, y as int) {
                        let k2 = choose|k2: nat| k2 <= par@.len() && #[trigger] anc(par@, y as int, k2) == Some(x);
                        if k2 > r {
                            lemma_past_top(par@, y as int, r as nat, k2);
                        }
                        assert(e1);
                    }
                    if e1 {
                        let t2 = choose|t2: nat| t2 < r + 1 && #[trigger] anc(par@, y as int, t2) == Some(x);
                        assert(in_subtree(par@, x, y as int));
                    }
                }
            }
        }
        y += 1;
    }
    totals
}

proof fn lemma_anc_none_propagates_contra(par: Seq<Option<usize>>, y: int, k: nat, r: nat)
    requires
        k <= r,
        top_at(par, y, r),
    ensures
        anc(par, y, k) is Some,
{
    if anc(par, y, k) is None {
        lemma_anc_none_propagates(par, y, k, r);
    }
}


// ---------------------------------------------------------------------------
// Building the book
// ---------------------------------------------------------------------------

/// The price an account's balance converts at: the nearest price of its
/// commodity for a commodity other than CAD, else 1:1.
pub open spec fn price_of(rows: Seq<AccountRow>, prices: Seq<PriceRow>, to: Seq<char>, i: int) -> (int, int) {
    match rows[i].commodity_id {
        Some(c) => if c@ != "CURRENCY:CAD"@ {
            match best_price(prices, c@, to) {
                Some(j) => (prices[j].num as int, prices[j].denom as int),
                None => (1, 1),
            }
        } else {
            (1, 1)
        },
        None => (1, 1),
    }
}

/// The CAD cents of row `i`, `None` where its balance or its conversion
/// overflows.
pub open spec fn row_cents(
    rows: Seq<AccountRow>,
    splits: Seq<SplitQty>,
    prices: Seq<PriceRow>,
    to: Seq<char>,
    i: int,
) -> Option<int> {
    match balance_spec(splits, rows[i].id@) {
        Some(b) => cents_spec(b, price_of(rows, prices, to, i)),
        None => None,
    }
}

/// The magnitudes of the first `m` entries of `c`, added up.
pub open spec fn abs_sum(c: Seq<int>, m: int) -> int
    decreases m,
{
    if m <= 0 {
        0
    } else {
        abs_sum(c, m - 1) + iabs(c[m - 1])
    }
}

/// Every figure of a report on a book with these cents fits in an i128:
/// each figure adds up at most four sums over accounts in disjoint
/// subtrees, and each of those is at most the sum of all magnitudes.
pub open spec fn bound_ok(cents: Seq<int>) -> bool {
    4 * abs_sum(cents, cents.len() as int) <= i128::MAX
}

/// Each magnitude, and each prefix, is at most the whole sum.
pub proof fn lemma_abs_sum(c: Seq<int>, m: int)
    requires
        0 <= m <= c.len(),
    ensures
        abs_sum(c, m) >= 0,
        forall|i: int| 0 <= i < m ==> iabs(#[trigger] c[i]) <= abs_sum(c, m),
        forall|k: int| 0 <= k <= m ==> #[trigger] abs_sum(c, k) <= abs_sum(c, m),
    decreases m,
{
    if m > 0 {
        lemma_abs_sum(c, m - 1);
        assert forall|k: int| 0 <= k <= m implies #[trigger] abs_sum(c, k) <= abs_sum(c, m) by {
            if k < m {
                assert(abs_sum(c, k) <= abs_sum(c, m - 1));
            }
        }
    }
}

/// A subtree sum is at most the sum of all magnitudes.
pub proof fn lemma_subtree_sum_abs(par: Seq<Option<usize>>, c: Seq<int>, x: int, m: int)
    requires
        0 <= m <= c.len(),
    ensures
        iabs(subtree_sum(par, c, x, m)) <= abs_sum(c, m),
    decreases m,
{
    if m > 0 {
        lemma_subtree_sum_abs(par, c, x, m - 1);
    }
}

/// The rows convert without overflow and the resulting book is small
/// enough for its reports to be computed in i128.
pub open spec fn book_fits(
    rows: Seq<AccountRow>,
    splits: Seq<SplitQty>,
    prices: Seq<PriceRow>,
    to: Seq<char>,
) -> bool {
    &&& forall|i: int| 0 <= i < rows.len() ==> (#[trigger] row_cents(rows, splits, prices, to, i)) is Some
    &&& bound_ok(Seq::new(rows.len(), |i: int| row_cents(rows, splits, prices, to, i)->0))
}

pub open spec fn ids_distinct(rows: Seq<AccountRow>) -> bool {
    forall|i: int, j: int| 0 <= i < j < rows.len() ==> (#[trigger] rows[i]).id@ != (#[trigger] rows[j]).id@
}

/// The accounts among `0..k` whose parent is `p`, in index order.
pub open spec fn kids_upto(par: Seq<Option<usize>>, p: Option<usize>, k: int) -> Seq<usize>
    decreases k,
{
    if k <= 0 {
        Seq::empty()
    } else if par[k - 1] == p {
        kids_upto(par, p, k - 1).push((k - 1) as usize)
    } else {
        kids_upto(par, p, k - 1)
    }
}

pub open spec fn kids(par: Seq<Option<usize>>, p: Option<usize>) -> Seq<usize> {
    kids_upto(par, p, par.len() as int)
}

/// The sort key of an account: its code, then its name.
pub open spec fn acct_key(a: Acct) -> Seq<Option<Seq<char>>> {
    seq![opt_view(a.code), Some(a.name@)]
}

pub open spec fn cents_seq(b: Book) -> Seq<int> {
    b.accounts@.map_values(|a: Acct| a.own_cents as int)
}

/// `order` lists accounts of `b` in non-decreasing order of code, then name.
pub open spec fn sorted_by_code_name(b: Book, order: Seq<usize>) -> bool {
    &&& forall|i: int| 0 <= i < order.len() ==> #[trigger] order[i] < b.accounts.len()
    &&& forall|i: int, j: int|
        0 <= i < j < order.len() ==> key_le(
            acct_key(b.accounts@[order[i] as int]),
            acct_key(b.accounts@[order[j] as int]),
        )
}

/// The tree and the totals are consistent with the accounts.
pub open spec fn book_wf(b: Book) -> bool {
    let n = b.accounts.len();
    &&& b.parent.len() == n
    &&& b.children.len() == n
    &&& b.totals.len() == n
    &&& parents_valid(b.parent@)
    &&& b.roots@.to_multiset() == kids(b.parent@, None).to_multiset()
    &&& sorted_by_code_name(b, b.roots@)
    &&& forall|p: int|
        0 <= p < n ==> (#[trigger] b.children@[p])@.to_multiset() == kids(
            b.parent@,
            Some(p as usize),
        ).to_multiset() && sorted_by_code_name(b, b.children@[p]@)
    &&& forall|x: int|
        0 <= x < n ==> #[trigger] b.totals@[x] as int == subtree_sum(b.parent@, cents_seq(b), x, n as int)
    &&& bound_ok(cents_seq(b))
}

/// Row `i` of the book is the account of row `i` of the input.
pub open spec fn acct_matches(
    a: Acct,
    rows: Seq<AccountRow>,
    splits: Seq<SplitQty>,
    prices: Seq<PriceRow>,
    to: Seq<char>,
    i: int,
) -> bool {
    &&& a.id@ == rows[i].id@
    &&& a.name@ == rows[i].name@
    &&& a.kind@ == rows[i].kind@
    &&& opt_view(a.commodity_id) == opt_view(rows[i].commodity_id)
    &&& opt_view(a.code) == opt_view(rows[i].code)
    &&& balance_spec(splits, rows[i].id@) == Some(pair_view(a.own))
    &&& row_cents(rows, splits, prices, to, i) == Some(a.own_cents as int)
}

pub fn clone_opt(o: &Option<String>) -> (r: Option<String>)
    ensures
        opt_view(r) == opt_view(*o),
{
    match o {
        Some(s) => Some(s.clone()),
        None => None,
    }
}

fn opt_usize_is(o: Option<usize>, p: Option<usize>) -> (r: bool)
    ensures
        r == (o == p),
{
    match (o, p) {
        (Some(a), Some(b)) => a == b,
        (None, None) => true,
        _ => false,
    }
}

fn kids_of(par: &Vec<Option<usize>>, p: Option<usize>) -> (r: Vec<usize>)
    ensures
        r@ == kids(par@, p),
        forall|i: int| 0 <= i < r.len() ==> #[trigger] r@[i] < par.len() && par@[r@[i] as int] == p,
{
    let mut r: Vec<usize> = Vec::new();
    let mut k: usize = 0;
    while k < par.len()
        invariant
            k <= par.len(),
            r@ == kids_upto(par@, p, k as int),
            forall|i: int| 0 <= i < r.len() ==> #[trigger] r@[i] < k && par@[r@[i] as int] == p,
        decreases par.len() - k,
    {
        if opt_usize_is(par[k], p) {
            r.push(k);
        }
        k += 1;
    }
    r
}

proof fn lemma_sorted_keys(b: Book, keys: Seq<Key>, order: Seq<usize>)
    requires
        keys.len() == b.accounts.len(),
        forall|i: int| 0 <= i < keys.len() ==> #[trigger] crate::order::key_view(keys[i]) == acct_key(b.accounts@[i]),
        sorted_by_keys(order, keys),
    ensures
        sorted_by_code_name(b, order),
{
    assert forall|i: int, j: int| 0 <= i < j < order.len() implies key_le(
        acct_key(b.accounts@[order[i] as int]),
        acct_key(b.accounts@[order[j] as int]),
    ) by {
        assert(key_le(key_view(keys[order[i] as int]), key_view(keys[order[j] as int])));
    }
}

/// Load accounts with balances over the given date window, converted to
/// CAD at the price nearest on-or-before `to` (falling back to the
/// earliest price after, then 1:1).
///
/// `None` where a balance or a conversion would overflow, or where four
/// times the sum of all balances' magnitudes (in cents) exceeds
/// `i128::MAX`, the bound under which every report figure is shown to fit
/// in an i128.
pub fn build_book(
    rows: &Vec<AccountRow>,
    splits: &Vec<SplitQty>,
    prices: &Vec<PriceRow>,
    to: &String,
) -> (r: Option<Book>)
    requires
        ids_distinct(rows@),
    ensures
        r is Some <==> book_fits(rows@, splits@, prices@, to@),
        r matches Some(b) ==> {
            &&& book_wf(b)
            &&& b.accounts.len() == rows.len()
            &&& forall|i: int|
                0 <= i < rows.len() ==> acct_matches(
                    #[trigger] b.accounts@[i],
                    rows@,
                    splits@,
                    prices@,
                    to@,
                    i,
                )
            &&& forall|i: int|
                0 <= i < rows.len() ==> (#[trigger] b.parent@[i] matches Some(p) ==> parent_spec(
                    rows@,
                    i,
                ) == Some(p as int)) && (b.parent@[i] is None ==> parent_spec(rows@, i) is None)
        },
{
    let n = rows.len();
    let ghost cents_all = Seq::new(rows.len() as nat, |i: int| row_cents(rows@, splits@, prices@, to@, i)->0);
    let mut accounts: Vec<Acct> = Vec::new();
    let mut i: usize = 0;
    while i < n
        invariant
            i <= n,
            n == rows.len(),
            accounts.len() == i,
            forall|j: int| 0 <= j < i ==> acct_matches(#[trigger] accounts@[j], rows@, splits@, prices@, to@, j),
            forall|j: int| 0 <= j < i ==> (#[trigger] row_cents(rows@, splits@, prices@, to@, j)) is Some,
        decreases n - i,
    {
        let row = &rows[i];
        let own = match balance_of(splits, &row.id) {
            Some(b) => b,
            None => {
                assert(row_cents(rows@, splits@, prices@, to@, i as int) is None);
                return None;
            },
        };
        let price: (i128, i128) = match &row.commodity_id {
            Some(c) => {
                if !string_is(c, "CURRENCY:CAD") {
                    match select_price(prices, c, to) {
                        Some(j) => (prices[j].num as i128, prices[j].denom as i128),
                        None => (1, 1),
                    }
                } else {
                    (1, 1)
                }
            },
            None => (1, 1),
        };
        assert(pair_view(price) == price_of(rows@, prices@, to@, i as int));
        let cents = match to_cents(own, price) {
            Some(c) => c,
            None => {
                assert(row_cents(rows@, splits@, prices@, to@, i as int) is None);
                return None;
            },
        };
        accounts.push(
            Acct {
                id: row.id.clone(),
                name: row.name.clone(),
                kind: row.kind.clone(),
                commodity_id: clone_opt(&row.commodity_id),
                code: clone_opt(&row.code),
                own,
                own_cents: cents,
            },
        );
        i += 1;
    }
    // the size bound
    let ghost cv = accounts@.map_values(|a: Acct| a.own_cents as int);
    assert(cv =~= cents_all) by {
        assert forall|j: int| 0 <= j < n implies cv[j] == cents_all[j] by {
            assert(acct_matches(accounts@[j], rows@, splits@, prices@, to@, j));
        }
    }
    proof {
        lemma_abs_sum(cv, n as int);
    }
    let mut total: u128 = 0;
    let mut i: usize = 0;
    while i < n
        invariant
            i <= n,
            n == accounts.len(),
            cv == accounts@.map_values(|a: Acct| a.own_cents as int),
            cv == cents_all,
            cents_all.len() == n,
            cents_all == Seq::new(rows.len() as nat, |i: int| row_cents(rows@, splits@, prices@, to@, i)->0),
            total as int == abs_sum(cv, i as int),
            forall|k: int| 0 <= k <= n ==> #[trigger] abs_sum(cv, k) <= abs_sum(cv, n as int),
        decreases n - i,
    {
        let a = unsigned_abs(accounts[i].own_cents);
        assert(a as int == iabs(cv[i as int]));
        match total.checked_add(a) {
            Some(t) => {
                total = t;
            },
            None => {
                proof {
                    assert(abs_sum(cv, i + 1) > u128::MAX);
                    assert(abs_sum(cv, i + 1) <= abs_sum(cv, n as int));
                    assert(4 * abs_sum(cv, n as int) > i128::MAX);
                    assert(cents_all.len() == n);
                    assert(!bound_ok(cents_all));
                }
                return None;
            },
        }
        i += 1;
    }
    let fits = match total.checked_mul(4) {
        Some(v) => v <= i128::MAX as u128,
        None => false,
    };
    proof {
        let s4 = abs_sum(cv, n as int);
        assert(total as int == s4);
        assert(cents_all.len() == n);
        if fits {
            assert(bound_ok(cents_all));
        } else {
            assert(!bound_ok(cents_all));
        }
    }
    if !fits {
        return None;
    }
    // parents
    let mut parent: Vec<Option<usize>> = Vec::new();
    let mut i: usize = 0;
    while i < n
        invariant
            i <= n,
            n == rows.len(),
            parent.len() == i,
            forall|j: int| 0 <= j < i ==> (#[trigger] parent@[j] matches Some(p) ==> p < n && parent_spec(rows@, j) == Some(p as int)) && (parent@[j] is None ==> parent_spec(rows@, j) is None),
        decreases n - i,
    {
        let p = match &rows[i].parent_id {
            Some(pid) => find_id(rows, pid),
            None => None,
        };
        parent.push(p);
        i += 1;
    }
    // sort keys
    let mut keys: Vec<Key> = Vec::new();
    let mut i: usize = 0;
    while i < n
        invariant
            i <= n,
            n == accounts.len(),
            keys.len() == i,
            forall|j: int| 0 <= j < i ==> #[trigger] key_view(keys@[j]) == acct_key(accounts@[j]),
            forall|j: int| 0 <= j < i ==> (#[trigger] keys@[j]).len() == 2,
        decreases n - i,
    {
        let k: Key = vec![clone_opt(&accounts[i].code), Some(accounts[i].name.clone())];
        assert(key_view(k) =~= acct_key(accounts@[i as int]));
        keys.push(k);
        i += 1;
    }
    let top = kids_of(&parent, None);
    let roots = sort_indices(&top, &keys);
    let mut children: Vec<Vec<usize>> = Vec::new();
    let mut p: usize = 0;
    while p < n
        invariant
            p <= n,
            n == accounts.len(),
            n == parent.len(),
            keys.len() == n,
            forall|j: int| 0 <= j < n ==> #[trigger] key_view(keys@[j]) == acct_key(accounts@[j]),
            forall|j: int| 0 <= j < n ==> (#[trigger] keys@[j]).len() == 2,
            children.len() == p,
            forall|q: int|
                0 <= q < p ==> (#[trigger] children@[q])@.to_multiset() == kids(parent@, Some(q as usize)).to_multiset()
                    && sorted_by_keys(children@[q]@, keys@),
        decreases n - p,
    {
        let ks = kids_of(&parent, Some(p));
        children.push(sort_indices(&ks, &keys));
        p += 1;
    }
    let mut cents: Vec<i128> = Vec::new();
    let mut i: usize = 0;
    while i < n
        invariant
            i <= n,
            n == accounts.len(),
            cents.len() == i,
            forall|j: int| 0 <= j < i ==> #[trigger] cents@[j] == accounts@[j].own_cents,
        decreases n - i,
    {
        cents.push(accounts[i].own_cents);
        i += 1;
    }
    proof {
        assert(cents@.map_values(|c: i128| c as int) =~= cv);
        assert(abs_sum(cv, n as int) <= i128::MAX);
    }
    let totals = subtree_totals(&parent, &cents);
    let b = Book { accounts, parent, roots, children, totals };
    proof {
        assert(cents_seq(b) =~= cv);
        lemma_sorted_keys(b, keys@, b.roots@);
        assert forall|q: int| 0 <= q < n implies (#[trigger] b.children@[q])@.to_multiset() == kids(
            b.parent@,
            Some(q as usize),
        ).to_multiset() && sorted_by_code_name(b, b.children@[q]@) by {
            lemma_sorted_keys(b, keys@, b.children@[q]@);
        }
    }
    Some(b)
}

// ---------------------------------------------------------------------------
// Totals: an account's own cents plus its children's totals
// ---------------------------------------------------------------------------


/// The sum of `t[c]` over the entries `c` of `cs`.
pub open spec fn sum_at(t: Seq<int>, cs: Seq<usize>) -> int
    decreases cs.len(),
{
    if cs.len() == 0 {
        0
    } else {
        sum_at(t, cs.drop_last()) + t[cs.last() as int]
    }
}

/// The totals of a book as integers.
pub open spec fn totals_seq(b: Book) -> Seq<int> {
    b.totals@.map_values(|t: i128| t as int)
}

/// The subtree sums (over `0..m`) of the entries of `cs`, added up.
spec fn subtree_sums(par: Seq<Option<usize>>, cents: Seq<int>, cs: Seq<usize>, m: int) -> int
    decreases cs.len(),
{
    if cs.len() == 0 {
        0
    } else {
        subtree_sums(par, cents, cs.drop_last(), m) + subtree_sum(par, cents, cs.last() as int, m)
    }
}

/// How many entries of `cs` have `y` in their subtree.
spec fn holders(par: Seq<Option<usize>>, cs: Seq<usize>, y: int) -> int
    decreases cs.len(),
{
    if cs.len() == 0 {
        0
    } else {
        holders(par, cs.drop_last(), y) + if in_subtree(par, cs.last() as int, y) {
            1int
        } else {
            0
        }
    }
}

proof fn lemma_subtree_sums_step(par: Seq<Option<usize>>, cents: Seq<int>, cs: Seq<usize>, m: int)
    requires
        0 <= m,
    ensures
        subtree_sums(par, cents, cs, m + 1) == subtree_sums(par, cents, cs, m) + holders(par, cs, m)
            * cents[m],
    decreases cs.len(),
{
    if cs.len() > 0 {
        lemma_subtree_sums_step(par, cents, cs.drop_last(), m);
        let h = holders(par, cs.drop_last(), m);
        let e: int = if in_subtree(par, cs.last() as int, m) {
            1
        } else {
            0
        };
        assert((h + e) * cents[m] == h * cents[m] + e * cents[m]) by (nonlinear_arith);
    }
}

proof fn lemma_holders_zero(par: Seq<Option<usize>>, cs: Seq<usize>, y: int)
    requires
        forall|i: int| 0 <= i < cs.len() ==> !in_subtree(par, #[trigger] cs[i] as int, y),
    ensures
        holders(par, cs, y) == 0,
    decreases cs.len(),
{
    if cs.len() > 0 {
        assert(cs.last() == cs[cs.len() - 1]);
        lemma_holders_zero(par, cs.drop_last(), y);
    }
}

proof fn lemma_holders_one(par: Seq<Option<usize>>, cs: Seq<usize>, y: int, c: usize)
    requires
        forall|i: int, j: int| 0 <= i < j < cs.len() ==> cs[i] < cs[j],
        cs.contains(c),
        in_subtree(par, c as int, y),
        forall|i: int| 0 <= i < cs.len() && in_subtree(par, #[trigger] cs[i] as int, y) ==> cs[i] == c,
    ensures
        holders(par, cs, y) == 1,
    decreases cs.len(),
{
    let l = cs.last();
    assert(l == cs[cs.len() - 1]);
    let p = cs.drop_last();
    if l == c {
        assert forall|i: int| 0 <= i < p.len() implies !in_subtree(par, #[trigger] p[i] as int, y) by {
            assert(p[i] == cs[i]);
            assert(cs[i] < cs[cs.len() - 1]);
        }
        lemma_holders_zero(par, p, y);
    } else {
        let k = choose|k: int| 0 <= k < cs.len() && cs[k] == c;
        assert(k < cs.len() - 1);
        assert(p[k] == c);
        assert forall|i: int, j: int| 0 <= i < j < p.len() implies p[i] < p[j] by {
            assert(p[i] == cs[i] && p[j] == cs[j]);
        }
        assert forall|i: int| 0 <= i < p.len() && in_subtree(par, #[trigger] p[i] as int, y) implies p[i] == c by {
            assert(p[i] == cs[i]);
        }
        lemma_holders_one(par, p, y, c);
    }
}

/// The children of `p` among `0..k`, in index order: each once, each with
/// parent `p`, and all of them.
proof fn lemma_kids(par: Seq<Option<usize>>, p: Option<usize>, k: int)
    requires
        0 <= k <= par.len(),
        par.len() <= usize::MAX,
    ensures
        forall|i: int|
            0 <= i < kids_upto(par, p, k).len() ==> (#[trigger] kids_upto(par, p, k)[i]) < k
                && par[kids_upto(par, p, k)[i] as int] == p,
        forall|i: int, j: int|
            0 <= i < j < kids_upto(par, p, k).len() ==> kids_upto(par, p, k)[i] < kids_upto(par, p, k)[j],
        forall|j: int| 0 <= j < k && par[j] == p ==> #[trigger] kids_upto(par, p, k).contains(j as usize),
    decreases k,
{
    if k > 0 {
        lemma_kids(par, p, k - 1);
        let prev = kids_upto(par, p, k - 1);
        if par[k - 1] == p {
            let cur = prev.push((k - 1) as usize);
            assert(kids_upto(par, p, k) == cur);
            assert forall|i: int| 0 <= i < cur.len() implies (#[trigger] cur[i]) < k && par[cur[i] as int] == p by {
                if i < prev.len() {
                    assert(cur[i] == prev[i]);
                }
            }
            assert forall|i: int, j: int| 0 <= i < j < cur.len() implies cur[i] < cur[j] by {
                assert(cur[i] == prev[i]);
                if j < prev.len() {
                    assert(cur[j] == prev[j]);
                } else {
                    assert(prev[i] < k - 1);
                }
            }
            assert forall|j: int| 0 <= j < k && par[j] == p implies #[trigger] cur.contains(j as usize) by {
                if j < k - 1 {
                    assert(prev.contains(j as usize));
                    let i = choose|i: int| 0 <= i < prev.len() && prev[i] == j as usize;
                    assert(cur[i] == j as usize);
                } else {
                    assert(cur[cur.len() - 1] == j as usize);
                }
            }
        } else {
            assert(kids_upto(par, p, k) == prev);
            assert forall|j: int| 0 <= j < k && par[j] == p implies #[trigger] prev.contains(j as usize) by {
                if j == k - 1 {
                    assert(par[k - 1] != p);
                }
            }
        }
    }
}

/// One step past the `k`-th ancestor.
proof fn lemma_anc_next(par: Seq<Option<usize>>, y: int, k: nat)
    ensures
        anc(par, y, k + 1) == match anc(par, y, k) {
            Some(j) => step_up(par, j),
            None => None,
        },
{
}

/// A child `d` of `x` whose subtree holds `y` is the ancestor of `y` one
/// step below `x`.
proof fn lemma_child_on_chain(par: Seq<Option<usize>>, x: int, y: int, d: int, kd: nat)
    requires
        0 <= d < par.len(),
        par[d] == Some(x as usize),
        0 <= x < par.len(),
        par.len() <= usize::MAX,
        reachable(par, y),
        anc(par, y, kd) == Some(d),
    ensures
        anc(par, y, kd + 1) == Some(x),
        kd + 1 <= par.len(),
        in_subtree(par, x, y),
{
    lemma_anc_next(par, y, kd);
    let r = choose|r: nat| r <= par.len() && #[trigger] top_at(par, y, r);
    if kd + 1 > r {
        lemma_past_top(par, y, r, kd + 1);
    }
    assert(anc(par, y, (kd + 1) as nat) == Some(x));
}

/// The subtree of an account that hangs below a top-level account is the
/// account itself and the subtrees of its children.
proof fn lemma_subtree_split(par: Seq<Option<usize>>, cents: Seq<int>, x: int, m: int)
    requires
        parents_valid(par),
        par.len() <= usize::MAX,
        0 <= x < par.len(),
        reachable(par, x),
        0 <= m <= par.len(),
    ensures
        subtree_sum(par, cents, x, m) == (if x < m {
            cents[x]
        } else {
            0
        }) + subtree_sums(par, cents, kids(par, Some(x as usize)), m),
    decreases m,
{
    let ks = kids(par, Some(x as usize));
    lemma_kids(par, Some(x as usize), par.len() as int);
    if m == 0 {
        lemma_subtree_sums_zero(par, cents, ks);
    } else {
        let y = m - 1;
        lemma_subtree_split(par, cents, x, y);
        lemma_subtree_sums_step(par, cents, ks, y);
        if y == x {
            assert(anc(par, x, 0) == Some(x));
            assert(in_subtree(par, x, y));
            assert forall|i: int| 0 <= i < ks.len() implies !in_subtree(par, #[trigger] ks[i] as int, y) by {
                let d = ks[i] as int;
                if in_subtree(par, d, y) {
                    let kd = choose|k: nat| k <= par.len() && #[trigger] anc(par, y, k) == Some(d);
                    lemma_child_on_chain(par, x, y, d, kd);
                    let r = choose|r: nat| r <= par.len() && #[trigger] top_at(par, y, r);
                    if kd + 1 > r {
                        lemma_past_top(par, y, r, kd + 1);
                    } else {
                        lemma_chain_distinct(par, y, r, 0, kd + 1);
                    }
                }
            }
            lemma_holders_zero(par, ks, y);
        } else if in_subtree(par, x, y) {
            let k = choose|k: nat| k <= par.len() && #[trigger] anc(par, y, k) == Some(x);
            assert(k >= 1);
            let k1 = (k - 1) as nat;
            lemma_anc_next(par, y, k1);
            let c = anc(par, y, k1)->0;
            assert(anc(par, y, k1) is Some);
            assert(0 <= c < par.len() && par[c] == Some(x as usize));
            assert(in_subtree(par, c, y));
            assert(ks.contains(c as usize));
            assert forall|i: int| 0 <= i < ks.len() && in_subtree(par, #[trigger] ks[i] as int, y) implies ks[i] == c as usize by {
                let d = ks[i] as int;
                let kd = choose|kk: nat| kk <= par.len() && #[trigger] anc(par, y, kk) == Some(d);
                lemma_child_on_chain(par, x, y, d, kd);
                let r = choose|r: nat| r <= par.len() && #[trigger] top_at(par, y, r);
                if kd + 1 > r {
                    lemma_past_top(par, y, r, kd + 1);
                } else if k > r {
                    lemma_past_top(par, y, r, k);
                } else if kd + 1 < k {
                    lemma_chain_distinct(par, y, r, kd + 1, k);
                } else if k < kd + 1 {
                    lemma_chain_distinct(par, y, r, k, kd + 1);
                }
            }
            lemma_holders_one(par, ks, y, c as usize);
        } else {
            assert forall|i: int| 0 <= i < ks.len() implies !in_subtree(par, #[trigger] ks[i] as int, y) by {
                let d = ks[i] as int;
                if in_subtree(par, d, y) {
                    let kd = choose|k: nat| k <= par.len() && #[trigger] anc(par, y, k) == Some(d);
                    lemma_child_on_chain(par, x, y, d, kd);
                }
            }
            lemma_holders_zero(par, ks, y);
        }
    }
}

proof fn lemma_subtree_sums_zero(par: Seq<Option<usize>>, cents: Seq<int>, cs: Seq<usize>)
    ensures
        subtree_sums(par, cents, cs, 0) == 0,
    decreases cs.len(),
{
    if cs.len() > 0 {
        lemma_subtree_sums_zero(par, cents, cs.drop_last());
    }
}

proof fn lemma_sums_are_totals(b: Book, cs: Seq<usize>)
    requires
        book_wf(b),
        forall|i: int| 0 <= i < cs.len() ==> #[trigger] cs[i] < b.accounts.len(),
    ensures
        subtree_sums(b.parent@, cents_seq(b), cs, b.accounts.len() as int) == sum_at(totals_seq(b), cs),
    decreases cs.len(),
{
    if cs.len() > 0 {
        assert(cs.last() == cs[cs.len() - 1]);
        let p = cs.drop_last();
        assert forall|i: int| 0 <= i < p.len() implies #[trigger] p[i] < b.accounts.len() by {
            assert(p[i] == cs[i]);
        }
        lemma_sums_are_totals(b, p);
        let x = cs.last() as int;
        assert(b.totals@[x] as int == subtree_sum(b.parent@, cents_seq(b), x, b.accounts.len() as int));
    }
}

proof fn lemma_sum_at_remove(t: Seq<int>, cs: Seq<usize>, i: int)
    requires
        0 <= i < cs.len(),
    ensures
        sum_at(t, cs) == sum_at(t, cs.remove(i)) + t[cs[i] as int],
    decreases cs.len(),
{
    if i < cs.len() - 1 {
        let p = cs.drop_last();
        lemma_sum_at_remove(t, p, i);
        assert(cs.remove(i).drop_last() =~= p.remove(i));
        assert(cs.remove(i).last() == cs.last());
    } else {
        assert(cs.remove(i) =~= cs.drop_last());
    }
}

/// Sums over two orderings of the same entries agree.
proof fn lemma_sum_at_perm(t: Seq<int>, a: Seq<usize>, c: Seq<usize>)
    requires
        a.to_multiset() == c.to_multiset(),
    ensures
        sum_at(t, a) == sum_at(t, c),
    decreases a.len(),
{
    broadcast use vstd::seq_lib::group_to_multiset_ensures;
    if a.len() == 0 {
        assert(c.to_multiset().len() == 0);
    } else {
        let v = a.last();
        assert(a.drop_last().push(v) =~= a);
        assert(a.to_multiset().count(v) > 0);
        assert(c.contains(v));
        let i = choose|i: int| 0 <= i < c.len() && c[i] == v;
        assert(c.remove(i).to_multiset() == c.to_multiset().remove(v));
        assert(a.drop_last().to_multiset() =~= a.to_multiset().remove(v));
        lemma_sum_at_perm(t, a.drop_last(), c.remove(i));
        lemma_sum_at_remove(t, c, i);
    }
}

/// A total is the account's own cents plus its children's totals: in a
/// well-formed book, for every account that hangs below a top-level
/// account, its total equals its own cents plus the totals of the
/// accounts listed as its children.
pub proof fn lemma_total_own_plus_children(b: Book, x: int)
    requires
        book_wf(b),
        0 <= x < b.accounts.len(),
        reachable(b.parent@, x),
    ensures
        totals_seq(b)[x] == b.accounts@[x].own_cents + sum_at(totals_seq(b), b.children@[x]@),
{
    let n = b.accounts.len() as int;
    let par = b.parent@;
    let ks = kids(par, Some(x as usize));
    lemma_kids(par, Some(x as usize), n);
    lemma_subtree_split(par, cents_seq(b), x, n);
    lemma_sums_are_totals(b, ks);
    assert(b.children@[x]@.to_multiset() == ks.to_multiset());
    lemma_sum_at_perm(totals_seq(b), b.children@[x]@, ks);
}

} // verus!
