//! The filtered account report: the transactions of chosen accounts (and
//! their subaccounts), filtered by date range, direction, reconcile state
//! and a case-insensitive substring, grouped per account with running
//! totals, and a grand total where all groups share a commodity.

use vstd::prelude::*;
use crate::book::anc;
use crate::money::{add_fits, add_spec, checked_add, find_char, in_i128, pair_view, pow10, utf8_len, utf8_len_exec, lemma_pow10_mono};
use crate::order::{key_view, opt_view, sort_indices, sorted_by_keys, str_less, str_lt, Key};
use crate::report::{after_last_colon, mnemonic};
use crate::text::{chars_of, owned, parse_i128_from, parse_i128_spec, slice_chars, string_is, string_of, IntErrorKind};

verus! {

broadcast use vstd::seq_lib::group_to_multiset_ensures;

/// The lower-case form of a string, as `str::to_lowercase` gives it (full
/// Unicode case mapping, including the context rule for final sigma).
pub uninterp spec fn lowercase(s: Seq<char>) -> Seq<char>;

/// `str::to_lowercase`. Claims only that the result is a function of the
/// input (named `lowercase`); the mapping itself is the standard
/// library's.
#[verifier::external_body]
fn to_lower(s: &str) -> (r: String)
    ensures
        r@ == lowercase(s@),
{
    s.to_lowercase()
}

/// Why the report was refused.
#[derive(Clone, Copy, Debug, PartialEq, Eq, Structural)]
pub enum AccountReportError {
    /// No account was chosen.
    NoAccounts,
    /// A running balance does not fit (or a quantity has a zero
    /// denominator).
    Overflow,
}

/// The filters of the report.
pub struct Filters {
    pub include_sub: bool,
    pub from: Option<String>,
    pub to: Option<String>,
    /// `all`, `in` (debits) or `out` (credits)
    pub dir: String,
    /// `all`, `y`, `c`, `n` or `ny` (`n` or `c`: neither reconciled,
    /// frozen nor voided)
    pub reconciled: String,
    /// lower-cased substring to look for
    pub needle: Option<String>,
}

pub open spec fn strs_view(v: Seq<String>) -> Seq<Seq<char>> {
    v.map_values(|s: String| s@)
}

/// A query parameter counts where it is present and not empty.
pub open spec fn given(p: Option<Seq<char>>) -> Option<Seq<char>> {
    match p {
        Some(s) => if s.len() > 0 {
            Some(s)
        } else {
            None
        },
        None => None,
    }
}

/// `s` split at every `,`.
pub open spec fn split_commas(s: Seq<char>) -> Seq<Seq<char>>
    decreases s.len(),
{
    let k = crate::money::find(s, ',');
    if k >= s.len() {
        seq![s]
    } else {
        proof {
            lemma_find_bound(s, ',');
        }
        seq![s.take(k)] + split_commas(s.skip(k + 1))
    }
}

fn given_exec(p: &Option<String>) -> (r: Option<String>)
    ensures
        opt_view(r) == given(opt_view(*p)),
{
    match p {
        Some(s) => if !s.as_str().is_empty() {
            Some(s.clone())
        } else {
            None
        },
        None => None,
    }
}

pub proof fn lemma_find_bound(s: Seq<char>, c: char)
    ensures
        0 <= crate::money::find(s, c) <= s.len(),
        crate::money::find(s, c) < s.len() ==> s[crate::money::find(s, c)] == c,
    decreases s.len(),
{
    if s.len() > 0 && s[0] != c {
        lemma_find_bound(s.drop_first(), c);
    }
}

fn split_commas_exec(s: &String) -> (r: Vec<String>)
    ensures
        r@.map_values(|x: String| x@) == split_commas(s@),
{
    let v = chars_of(s.as_str());
    let mut out: Vec<String> = Vec::new();
    let mut start: usize = 0;
    let mut i: usize = 0;
    assert(v@.skip(0) =~= v@);
    while i < v.len()
        invariant
            start <= i <= v.len(),
            v@ == s@,
            forall|j: int| start <= j < i ==> v@[j] != ',',
            out@.map_values(|x: String| x@) + split_commas(v@.skip(start as int)) == split_commas(v@),
        decreases v.len() - i,
    {
        if v[i] == ',' {
            let ghost rest = v@.skip(start as int);
            proof {
                lemma_find_first_at(rest, ',', i - start);
                assert(rest.take(i - start) =~= v@.subrange(start as int, i as int));
                assert(rest.skip(i - start + 1) =~= v@.skip(i + 1));
            }
            let piece = string_of(&slice_chars(&v, start, i));
            let ghost before = out@.map_values(|x: String| x@);
            out.push(piece);
            assert(out@.map_values(|x: String| x@) =~= before.push(piece@));
            assert(before + split_commas(rest) =~= before.push(piece@) + split_commas(v@.skip(i + 1)));
            start = i + 1;
        }
        i += 1;
    }
    let ghost rest = v@.skip(start as int);
    proof {
        lemma_find_none(rest, ',');
        assert(rest =~= v@.subrange(start as int, v.len() as int));
    }
    let piece = string_of(&slice_chars(&v, start, v.len()));
    let ghost before = out@.map_values(|x: String| x@);
    out.push(piece);
    assert(out@.map_values(|x: String| x@) =~= before.push(piece@));
    assert(before + split_commas(rest) =~= before.push(piece@));
    out
}

proof fn lemma_find_first_at(s: Seq<char>, c: char, k: int)
    requires
        0 <= k < s.len(),
        s[k] == c,
        forall|j: int| 0 <= j < k ==> s[j] != c,
    ensures
        crate::money::find(s, c) == k,
    decreases k,
{
    if k > 0 {
        lemma_find_first_at(s.drop_first(), c, k - 1);
    }
}

proof fn lemma_find_none(s: Seq<char>, c: char)
    requires
        forall|j: int| 0 <= j < s.len() ==> s[j] != c,
    ensures
        crate::money::find(s, c) == s.len(),
    decreases s.len(),
{
    if s.len() > 0 {
        lemma_find_none(s.drop_first(), c);
    }
}

pub open spec fn or_default(p: Option<Seq<char>>, d: Seq<char>) -> Seq<char> {
    match p {
        Some(s) => s,
        None => d,
    }
}

/// The chosen accounts and the filters, read from the query parameters:
/// `accounts=id,id` (required), `subaccounts=1|0` (default 1),
/// `from`/`to` dates, `dir=all|in|out`, `reconciled=all|y|c|n|ny`,
/// `filter=substring`. Empty parameters count as absent.
pub fn read_params(
    accounts: &Option<String>,
    subaccounts: &Option<String>,
    from: &Option<String>,
    to: &Option<String>,
    dir: &Option<String>,
    reconciled: &Option<String>,
    filter: &Option<String>,
) -> (r: Result<(Vec<String>, Filters), AccountReportError>)
    ensures
        match r {
            Err(e) => e == AccountReportError::NoAccounts && given(opt_view(*accounts)) is None,
            Ok((roots, f)) => {
                &&& given(opt_view(*accounts)) matches Some(a) && roots@.map_values(
                    |x: String| x@,
                ) == split_commas(a)
                &&& f.include_sub == (given(opt_view(*subaccounts)) != Some("0"@))
                &&& opt_view(f.from) == given(opt_view(*from))
                &&& opt_view(f.to) == given(opt_view(*to))
                &&& f.dir@ == or_default(given(opt_view(*dir)), "all"@)
                &&& f.reconciled@ == or_default(given(opt_view(*reconciled)), "all"@)
                &&& opt_view(f.needle) == match given(opt_view(*filter)) {
                    Some(s) => Some(lowercase(s)),
                    None => None,
                }
            },
        },
{
    let roots = match given_exec(accounts) {
        Some(a) => split_commas_exec(&a),
        None => {
            return Err(AccountReportError::NoAccounts);
        },
    };
    let include_sub = match given_exec(subaccounts) {
        Some(s) => !string_is(&s, "0"),
        None => true,
    };
    let dir = match given_exec(dir) {
        Some(d) => d,
        None => owned("all"),
    };
    let reconciled = match given_exec(reconciled) {
        Some(d) => d,
        None => owned("all"),
    };
    let needle = match given_exec(filter) {
        Some(s) => Some(to_lower(s.as_str())),
        None => None,
    };
    Ok(
        (
            roots,
            Filters { include_sub, from: given_exec(from), to: given_exec(to), dir, reconciled, needle },
        ),
    )
}

// ---------------------------------------------------------------------------
// Choosing the accounts
// ---------------------------------------------------------------------------

/// An account as the report reads it.
pub struct AcctInfo {
    pub id: String,
    pub name: String,
    pub parent_id: Option<String>,
    pub commodity_id: Option<String>,
    pub code: Option<String>,
}

pub open spec fn info_parent(rows: Seq<AcctInfo>, i: int) -> Option<usize> {
    match rows[i].parent_id {
        Some(p) => match find_info(rows, p@, 0) {
            Some(j) => Some(j as usize),
            None => None,
        },
        None => None,
    }
}

/// The first row at or after `from` whose id is `id`.
pub open spec fn find_info(rows: Seq<AcctInfo>, id: Seq<char>, from: int) -> Option<int>
    decreases rows.len() - from,
{
    if from < 0 || from >= rows.len() {
        None
    } else if rows[from].id@ == id {
        Some(from)
    } else {
        find_info(rows, id, from + 1)
    }
}

pub open spec fn info_parents(rows: Seq<AcctInfo>) -> Seq<Option<usize>> {
    Seq::new(rows.len(), |i: int| info_parent(rows, i))
}

/// Account `x` is chosen: it is one of the listed roots, or (with
/// subaccounts) it lies below one.
pub open spec fn chosen(rows: Seq<AcctInfo>, roots: Seq<Seq<char>>, include_sub: bool, x: int) -> bool {
    exists|k: nat|
        k <= rows.len() && (k == 0 || include_sub) && #[trigger] hits(rows, roots, x, k)
}

/// The `k`-th ancestor of `x` is one of the listed roots.
pub open spec fn hits(rows: Seq<AcctInfo>, roots: Seq<Seq<char>>, x: int, k: nat) -> bool {
    match anc(info_parents(rows), x, k) {
        Some(j) => 0 <= j < rows.len() && roots.contains(rows[j].id@),
        None => false,
    }
}

fn find_info_exec(rows: &Vec<AcctInfo>, id: &String) -> (r: Option<usize>)
    ensures
        match r {
            Some(j) => find_info(rows@, id@, 0) == Some(j as int) && j < rows.len(),
            None => find_info(rows@, id@, 0) is None,
        },
{
    let mut j: usize = 0;
    while j < rows.len()
        invariant
            j <= rows.len(),
            find_info(rows@, id@, 0) == find_info(rows@, id@, j as int),
        decreases rows.len() - j,
    {
        if rows[j].id == *id {
            return Some(j);
        }
        j += 1;
    }
    None
}

proof fn lemma_find_info_bound(rows: Seq<AcctInfo>, id: Seq<char>, from: int)
    ensures
        find_info(rows, id, from) matches Some(j) ==> 0 <= j < rows.len(),
    decreases rows.len() - from,
{
    if 0 <= from < rows.len() && rows[from].id@ != id {
        lemma_find_info_bound(rows, id, from + 1);
    }
}

fn listed(roots: &Vec<String>, id: &String) -> (r: bool)
    ensures
        r == roots@.map_values(|x: String| x@).contains(id@),
{
    let mut i: usize = 0;
    while i < roots.len()
        invariant
            i <= roots.len(),
            forall|j: int| 0 <= j < i ==> roots@[j]@ != id@,
        decreases roots.len() - i,
    {
        if roots[i] == *id {
            assert(roots@.map_values(|x: String| x@)[i as int] == id@);
            return true;
        }
        i += 1;
    }
    proof {
        let m = roots@.map_values(|x: String| x@);
        if m.contains(id@) {
            let j = choose|j: int| 0 <= j < m.len() && m[j] == id@;
            assert(roots@[j]@ == id@);
        }
    }
    false
}

/// The chosen accounts, sorted by code, then name.
pub fn select_accounts(rows: &Vec<AcctInfo>, roots: &Vec<String>, include_sub: bool) -> (sel: Vec<usize>)
    ensures
        forall|x: int|
            0 <= x < rows.len() ==> (sel@.contains(x as usize) <==> #[trigger] chosen(
                rows@,
                strs_view(roots@),
                include_sub,
                x,
            )),
        forall|i: int, j: int| 0 <= i < j < sel.len() ==> sel@[i] != sel@[j],
        forall|i: int| 0 <= i < sel.len() ==> #[trigger] sel@[i] < rows.len(),
        forall|i: int, j: int|
            0 <= i < j < sel.len() ==> crate::order::key_le(
                info_key(rows@[sel@[i] as int]),
                info_key(rows@[sel@[j] as int]),
            ),
{
    let n = rows.len();
    let ghost rv = strs_view(roots@);
    // parents
    let mut par: Vec<Option<usize>> = Vec::new();
    while par.len() < n
        invariant
            par.len() <= n,
            n == rows.len(),
            forall|i: int| 0 <= i < par.len() ==> #[trigger] par@[i] == info_parent(rows@, i),
            forall|i: int| 0 <= i < par.len() ==> (#[trigger] par@[i] matches Some(p) ==> p < n),
        decreases n - par.len(),
    {
        let i = par.len();
        let p = match &rows[i].parent_id {
            Some(pid) => find_info_exec(rows, pid),
            None => None,
        };
        proof {
            if let Some(pid) = rows@[i as int].parent_id {
                lemma_find_info_bound(rows@, pid@, 0);
            }
        }
        par.push(p);
    }
    assert(par@ =~= info_parents(rows@));
    // walk up from every account
    let mut picked: Vec<usize> = Vec::new();
    let mut x: usize = 0;
    while x < n
        invariant
            x <= n,
            n == rows.len(),
            par@ == info_parents(rows@),
            rv == strs_view(roots@),
            forall|i: int| 0 <= i < par.len() ==> (#[trigger] par@[i] matches Some(p) ==> p < n),
            forall|i: int| 0 <= i < picked.len() ==> #[trigger] picked@[i] < x,
            forall|i: int, j: int| 0 <= i < j < picked.len() ==> picked@[i] < picked@[j],
            forall|y: int| 0 <= y < x ==> (picked@.contains(y as usize) <==> #[trigger] chosen(rows@, rv, include_sub, y)),
        decreases n - x,
    {
        let mut cur = x;
        let mut k: usize = 0;
        let mut found = false;
        let mut stop = false;
        while !stop
            invariant
                k <= n,
                cur < n,
                x < n,
                n == rows.len(),
                par@ == info_parents(rows@),
                rv == strs_view(roots@),
                forall|i: int| 0 <= i < par.len() ==> (#[trigger] par@[i] matches Some(p) ==> p < n),
                !stop ==> anc(par@, x as int, k as nat) == Some(cur as int),
                !stop ==> (k == 0 || include_sub),
                found ==> chosen(rows@, rv, include_sub, x as int),
                found ==> stop,
                !found ==> forall|k2: nat| k2 < k ==> !#[trigger] hits(rows@, rv, x as int, k2),
                stop && !found ==> !chosen(rows@, rv, include_sub, x as int),
            decreases n - k, if stop { 0int } else { 1int },
        {
            let hit = listed(roots, &rows[cur].id);
            proof {
                assert(hits(rows@, rv, x as int, k as nat) == hit);
            }
            if hit {
                found = true;
                stop = true;
            } else if !include_sub || k == n {
                stop = true;
                proof {
                    assert forall|k2: nat|
                        k2 <= rows.len() && (k2 == 0 || include_sub) implies !#[trigger] hits(rows@, rv, x as int, k2) by {
                        if k2 < k {
                        } else if k2 == k {
                            assert(!hit);
                        } else {
                            assert(!include_sub || k == n);
                            assert(false);
                        }
                    }
                }
            } else {
                match par[cur] {
                    Some(p) => {
                        assert(anc(par@, x as int, (k + 1) as nat) == Some(p as int));
                        cur = p;
                        k += 1;
                    },
                    None => {
                        stop = true;
                        proof {
                            assert(anc(par@, x as int, (k + 1) as nat) is None);
                            assert forall|k2: nat|
                                k2 <= rows.len() && (k2 == 0 || include_sub) implies !#[trigger] hits(rows@, rv, x as int, k2) by {
                                if k2 < k {
                                } else if k2 == k {
                                    assert(!hit);
                                } else {
                                    crate::book::lemma_anc_none_propagates(par@, x as int, (k + 1) as nat, k2);
                                }
                            }
                        }
                    },
                }
            }
        }
        let ghost old_picked = picked@;
        if found {
            picked.push(x);
        }
        proof {
            assert forall|y: int| 0 <= y < x + 1 implies (picked@.contains(y as usize) <==> #[trigger] chosen(rows@, rv, include_sub, y)) by {
                if y < x {
                    if found {
                        assert(picked@ == old_picked.push(x));
                        if picked@.contains(y as usize) {
                            let i = choose|i: int| 0 <= i < picked.len() && picked@[i] == y as usize;
                            assert(i < old_picked.len());
                            assert(old_picked.contains(y as usize));
                        }
                        if old_picked.contains(y as usize) {
                            let i = choose|i: int| 0 <= i < old_picked.len() && old_picked[i] == y as usize;
                            assert(picked@[i] == y as usize);
                        }
                    }
                } else {
                    if found {
                        assert(picked@[picked.len() - 1] == x);
                    } else {
                        if picked@.contains(y as usize) {
                            let i = choose|i: int| 0 <= i < picked.len() && picked@[i] == y as usize;
                            assert(picked@[i] < x);
                        }
                    }
                }
            }
        }
        x += 1;
    }
    // sort by code, then name
    let mut keys: Vec<Key> = Vec::new();
    while keys.len() < n
        invariant
            keys.len() <= n,
            n == rows.len(),
            forall|j: int| 0 <= j < keys.len() ==> #[trigger] key_view(keys@[j]) == info_key(rows@[j]),
            forall|j: int| 0 <= j < keys.len() ==> (#[trigger] keys@[j]).len() == 2,
        decreases n - keys.len(),
    {
        let i = keys.len();
        let k: Key = vec![crate::book::clone_opt(&rows[i].code), Some(rows[i].name.clone())];
        assert(key_view(k) =~= info_key(rows@[i as int]));
        keys.push(k);
    }
    let sel = sort_indices(&picked, &keys);
    proof {
        assert forall|y: usize| #[trigger] sel@.contains(y) == picked@.contains(y) by {
            assert(sel@.to_multiset().count(y) == picked@.to_multiset().count(y));
        }
        assert forall|i: int, j: int| 0 <= i < j < sel.len() implies sel@[i] != sel@[j] by {
            if sel@[i] == sel@[j] {
                lemma_count_two(sel@, i, j);
                lemma_distinct_count(picked@, sel@[i]);
            }
        }
        assert forall|i: int, j: int| 0 <= i < j < sel.len() implies crate::order::key_le(
            info_key(rows@[sel@[i] as int]),
            info_key(rows@[sel@[j] as int]),
        ) by {
            assert(crate::order::key_le(key_view(keys@[sel@[i] as int]), key_view(keys@[sel@[j] as int])));
        }
    }
    sel
}

/// The sort key of an account in the report: code, then name.
pub open spec fn info_key(a: AcctInfo) -> Seq<Option<Seq<char>>> {
    seq![opt_view(a.code), Some(a.name@)]
}

pub proof fn lemma_count_two(s: Seq<usize>, i: int, j: int)
    requires
        0 <= i < j < s.len(),
        s[i] == s[j],
    ensures
        s.to_multiset().count(s[i]) >= 2,
{
    let t = s.remove(j);
    assert(t[i] == s[i]);
    assert(t.to_multiset().count(s[i]) >= 1);
    assert(s.to_multiset() == t.to_multiset().insert(s[j])) by {
        assert(s.remove(j).to_multiset() =~= s.to_multiset().remove(s[j]));
    }
}

pub proof fn lemma_distinct_count(s: Seq<usize>, v: usize)
    requires
        forall|i: int, j: int| 0 <= i < j < s.len() ==> s[i] < s[j],
    ensures
        s.to_multiset().count(v) <= 1,
    decreases s.len(),
{
    if s.len() > 0 {
        let t = s.drop_last();
        lemma_distinct_count(t, v);
        assert(s =~= t.push(s.last()));
        if s.last() == v && t.to_multiset().count(v) >= 1 {
            assert(t.contains(v));
            let i = choose|i: int| 0 <= i < t.len() && t[i] == v;
            assert(s[i] < s[s.len() - 1]);
        }
    }
}


// ---------------------------------------------------------------------------
// Matching splits
// ---------------------------------------------------------------------------

/// A split as the report reads it, with the fields of its transaction.
pub struct SplitRow {
    pub account_id: String,
    pub memo: Option<String>,
    pub reconcile_state: String,
    pub quantity_num: i64,
    pub quantity_denom: i64,
    pub tx_id: String,
    pub date_posted: String,
    pub date_entered: Option<String>,
    pub num: Option<String>,
    pub description: Option<String>,
}

pub open spec fn or_empty(o: Option<String>) -> Seq<char> {
    match o {
        Some(s) => s@,
        None => Seq::empty(),
    }
}

/// The text the substring filter looks in: description, memo and number,
/// separated by single spaces.
pub open spec fn hay(s: SplitRow) -> Seq<char> {
    or_empty(s.description) + seq![' '] + or_empty(s.memo) + seq![' '] + or_empty(s.num)
}

/// `n` occurs in `h` starting at index `i`.
pub open spec fn occurs_at(h: Seq<char>, n: Seq<char>, i: int) -> bool {
    0 <= i && i + n.len() <= h.len() && h.subrange(i, i + n.len()) == n
}

/// `n` occurs somewhere in `h` (the empty string occurs everywhere).
pub open spec fn contains_str(h: Seq<char>, n: Seq<char>) -> bool {
    exists|i: int| #[trigger] occurs_at(h, n, i)
}

/// Split `s` belongs to the account `acct` and passes every filter.
pub open spec fn passes(s: SplitRow, acct: Seq<char>, f: Filters) -> bool {
    &&& s.account_id@ == acct
    &&& (f.from matches Some(fr) ==> !str_lt(s.date_posted@, fr@))
    &&& (f.to matches Some(t) ==> !str_lt(t@, s.date_posted@))
    &&& !(f.dir@ == "in"@ && s.quantity_num <= 0)
    &&& !(f.dir@ == "out"@ && s.quantity_num >= 0)
    &&& (f.reconciled@ == "ny"@ ==> (s.reconcile_state@ == "n"@ || s.reconcile_state@ == "c"@))
    &&& !((f.reconciled@ == "y"@ || f.reconciled@ == "c"@ || f.reconciled@ == "n"@)
        && s.reconcile_state@ != f.reconciled@)
    &&& (f.needle matches Some(n) ==> contains_str(lowercase(hay(s)), n@))
}

/// `f` and `g` are the same filters but perhaps for the direction.
pub open spec fn same_but_dir(f: Filters, g: Filters) -> bool {
    &&& f.include_sub == g.include_sub
    &&& opt_view(f.from) == opt_view(g.from)
    &&& opt_view(f.to) == opt_view(g.to)
    &&& f.reconciled@ == g.reconciled@
    &&& opt_view(f.needle) == opt_view(g.needle)
}

/// The direction filter keeps what it names: with direction `in` a split
/// is kept exactly when it is a debit (a positive quantity) that the
/// same filters with direction `all` keep, and with direction `out`
/// exactly when it is such a credit (a negative quantity).
pub proof fn lemma_direction_filter(s: SplitRow, acct: Seq<char>, f: Filters, g: Filters)
    requires
        same_but_dir(f, g),
        g.dir@ == "all"@,
    ensures
        f.dir@ == "in"@ ==> (passes(s, acct, f) <==> (s.quantity_num > 0 && passes(s, acct, g))),
        f.dir@ == "out"@ ==> (passes(s, acct, f) <==> (s.quantity_num < 0 && passes(s, acct, g))),
{
    reveal_strlit("in");
    reveal_strlit("out");
    reveal_strlit("all");
    assert("in"@.len() == 2 && "out"@.len() == 3 && "all"@.len() == 3);
    assert("out"@[0] != "all"@[0]);
    assert("in"@ != "all"@ && "out"@ != "all"@ && "in"@ != "out"@);
}

/// `f` and `g` are the same filters but perhaps for the reconcile state.
pub open spec fn same_but_reconciled(f: Filters, g: Filters) -> bool {
    &&& f.include_sub == g.include_sub
    &&& opt_view(f.from) == opt_view(g.from)
    &&& opt_view(f.to) == opt_view(g.to)
    &&& f.dir@ == g.dir@
    &&& opt_view(f.needle) == opt_view(g.needle)
}

/// The reconcile filter keeps what it names: with `y`, `c` or `n` a split
/// is kept exactly when it is in that state and the same filters with
/// `all` keep it, and with `ny` exactly when it is new or cleared (`n` or
/// `c`) and kept with `all`.
pub proof fn lemma_reconcile_filter(s: SplitRow, acct: Seq<char>, f: Filters, g: Filters)
    requires
        same_but_reconciled(f, g),
        g.reconciled@ == "all"@,
    ensures
        (f.reconciled@ == "y"@ || f.reconciled@ == "c"@ || f.reconciled@ == "n"@) ==> (passes(s, acct, f)
            <==> (s.reconcile_state@ == f.reconciled@ && passes(s, acct, g))),
        f.reconciled@ == "ny"@ ==> (passes(s, acct, f) <==> ((s.reconcile_state@ == "n"@
            || s.reconcile_state@ == "c"@) && passes(s, acct, g))),
{
    reveal_strlit("all");
    reveal_strlit("ny");
    reveal_strlit("y");
    reveal_strlit("c");
    reveal_strlit("n");
    assert("all"@.len() == 3 && "ny"@.len() == 2 && "y"@.len() == 1 && "c"@.len() == 1 && "n"@.len() == 1);
    assert("all"@ != "ny"@ && "all"@ != "y"@ && "all"@ != "c"@ && "all"@ != "n"@);
    assert("ny"@ != "y"@ && "ny"@ != "c"@ && "ny"@ != "n"@);
}

/// The order of the rows within an account: date posted, date entered,
/// transaction id.
pub open spec fn split_key(s: SplitRow) -> Seq<Option<Seq<char>>> {
    seq![Some(s.date_posted@), opt_view(s.date_entered), Some(s.tx_id@)]
}

fn push_opt(h: &mut String, o: &Option<String>)
    ensures
        final(h)@ == old(h)@ + or_empty(*o),
{
    match o {
        Some(x) => h.push_str(x.as_str()),
        None => {
            assert(old(h)@ + Seq::<char>::empty() =~= old(h)@);
        },
    }
}

fn hay_exec(s: &SplitRow) -> (h: String)
    ensures
        h@ == hay(*s),
{
    let mut h = String::new();
    push_opt(&mut h, &s.description);
    h.push(' ');
    push_opt(&mut h, &s.memo);
    h.push(' ');
    push_opt(&mut h, &s.num);
    assert(h@ =~= hay(*s));
    h
}

/// `str::contains` on character vectors.
pub fn contains_chars(h: &Vec<char>, n: &Vec<char>) -> (r: bool)
    ensures
        r == contains_str(h@, n@),
{
    if n.len() > h.len() {
        return false;
    }
    let last = h.len() - n.len();
    let mut i: usize = 0;
    while i <= last
        invariant
            n.len() <= h.len(),
            last == h.len() - n.len(),
            i <= last + 1,
            forall|j: int| 0 <= j < i ==> !#[trigger] occurs_at(h@, n@, j),
        decreases last + 1 - i,
    {
        let mut k: usize = 0;
        while k < n.len() && h[i + k] == n[k]
            invariant
                k <= n.len(),
                i <= last,
                last == h.len() - n.len(),
                forall|t: int| 0 <= t < k ==> h@[i + t] == n@[t],
            decreases n.len() - k,
        {
            k += 1;
        }
        if k == n.len() {
            assert(h@.subrange(i as int, i + n.len()) =~= n@);
            assert(occurs_at(h@, n@, i as int));
            return true;
        }
        assert(h@.subrange(i as int, i + n.len())[k as int] != n@[k as int]);
        i += 1;
    }
    false
}

/// Whether split `s` passes the filters for account `acct`.
pub fn passes_exec(s: &SplitRow, acct: &String, f: &Filters) -> (r: bool)
    ensures
        r == passes(*s, acct@, *f),
{
    if !crate::order::str_eq(&s.account_id, acct) {
        return false;
    }
    match &f.from {
        Some(fr) => if str_less(&s.date_posted, fr) {
            return false;
        },
        None => {},
    }
    match &f.to {
        Some(t) => if str_less(t, &s.date_posted) {
            return false;
        },
        None => {},
    }
    let qn = s.quantity_num;
    if string_is(&f.dir, "in") && qn <= 0 {
        return false;
    }
    if string_is(&f.dir, "out") && qn >= 0 {
        return false;
    }
    if string_is(&f.reconciled, "ny") && !(string_is(&s.reconcile_state, "n") || string_is(
        &s.reconcile_state,
        "c",
    )) {
        return false;
    }
    let one_state = string_is(&f.reconciled, "y") || string_is(&f.reconciled, "c") || string_is(
        &f.reconciled,
        "n",
    );
    if one_state && !crate::order::str_eq(&s.reconcile_state, &f.reconciled) {
        return false;
    }
    match &f.needle {
        Some(n) => {
            let h = hay_exec(s);
            let low = to_lower(h.as_str());
            contains_chars(&chars_of(low.as_str()), &chars_of(n.as_str()))
        },
        None => true,
    }
}

/// The splits of account `acct` that pass the filters, as indices into
/// `splits`, in row order (date posted, date entered, transaction id).
pub fn matching_splits(splits: &Vec<SplitRow>, keys: &Vec<Key>, acct: &String, f: &Filters) -> (order: Vec<usize>)
    requires
        keys.len() == splits.len(),
        forall|i: int| 0 <= i < keys.len() ==> #[trigger] key_view(keys@[i]) == split_key(splits@[i]),
    ensures
        forall|i: int|
            0 <= i < splits.len() ==> (order@.contains(i as usize) <==> #[trigger] passes(
                splits@[i],
                acct@,
                *f,
            )),
        forall|a: int, b: int| 0 <= a < b < order.len() ==> order@[a] != order@[b],
        sorted_by_keys(order@, keys@),
{
    let mut picked: Vec<usize> = Vec::new();
    let mut i: usize = 0;
    while i < splits.len()
        invariant
            i <= splits.len(),
            forall|k: int| 0 <= k < picked.len() ==> #[trigger] picked@[k] < i,
            forall|a: int, b: int| 0 <= a < b < picked.len() ==> picked@[a] < picked@[b],
            forall|j: int|
                0 <= j < i ==> (picked@.contains(j as usize) <==> #[trigger] passes(
                    splits@[j],
                    acct@,
                    *f,
                )),
        decreases splits.len() - i,
    {
        let ghost before = picked@;
        let p = passes_exec(&splits[i], acct, f);
        if p {
            picked.push(i);
        }
        proof {
            assert forall|j: int| 0 <= j < i + 1 implies (picked@.contains(j as usize) <==> #[trigger] passes(
                splits@[j],
                acct@,
                *f,
            )) by {
                if p {
                    assert(picked@ == before.push(i));
                    if j < i {
                        if picked@.contains(j as usize) {
                            let k = choose|k: int| 0 <= k < picked.len() && picked@[k] == j as usize;
                            assert(k < before.len());
                            assert(before.contains(j as usize));
                        }
                        if before.contains(j as usize) {
                            let k = choose|k: int| 0 <= k < before.len() && before[k] == j as usize;
                            assert(picked@[k] == j as usize);
                        }
                    } else {
                        assert(picked@[picked.len() - 1] == i);
                    }
                } else if j == i {
                    if picked@.contains(j as usize) {
                        let k = choose|k: int| 0 <= k < picked.len() && picked@[k] == j as usize;
                        assert(picked@[k] < i);
                    }
                }
            }
        }
        i += 1;
    }
    proof {
        assert forall|a: int, b: int|
            0 <= a < keys.len() && 0 <= b < keys.len() implies (#[trigger] keys@[a]).len() == (
            #[trigger] keys@[b]).len() by {
            assert(key_view(keys@[a]).len() == 3);
            assert(key_view(keys@[b]).len() == 3);
        }
    }
    let order = sort_indices(&picked, keys);
    proof {
        assert forall|y: usize| #[trigger] order@.contains(y) == picked@.contains(y) by {
            assert(order@.to_multiset().count(y) == picked@.to_multiset().count(y));
        }
        assert forall|a: int, b: int| 0 <= a < b < order.len() implies order@[a] != order@[b] by {
            if order@[a] == order@[b] {
                lemma_count_two(order@, a, b);
                lemma_distinct_count(picked@, order@[a]);
            }
        }
    }
    order
}


// ---------------------------------------------------------------------------
// Running totals and groups
// ---------------------------------------------------------------------------

/// The quantity of a split, as an exact rational.
pub open spec fn qty(s: SplitRow) -> (int, int) {
    (s.quantity_num as int, s.quantity_denom as int)
}

/// The quantities of the splits `order` lists, in that order.
pub open spec fn amounts(splits: Seq<SplitRow>, order: Seq<usize>) -> Seq<(int, int)> {
    Seq::new(order.len(), |k: int| qty(splits[order[k] as int]))
}

/// The running sums of `amts` starting from `acc` (one after each
/// amount), or `None` where one of the additions would not fit.
pub open spec fn sums_from(acc: (int, int), amts: Seq<(int, int)>) -> Option<Seq<(int, int)>>
    decreases amts.len(),
{
    if amts.len() == 0 {
        Some(Seq::empty())
    } else if !add_fits(acc, amts[0]) {
        None
    } else {
        let next = add_spec(acc, amts[0]);
        match sums_from(next, amts.drop_first()) {
            Some(rest) => Some(seq![next] + rest),
            None => None,
        }
    }
}

/// A row of the account report: the split it shows, its amount and the
/// running balance after it.
pub struct AcctRow {
    pub split: usize,
    pub amount: (i128, i128),
    pub running: (i128, i128),
}

pub open spec fn runnings(rows: Seq<AcctRow>) -> Seq<(int, int)> {
    rows.map_values(|r: AcctRow| pair_view(r.running))
}

/// The rows for the splits `order` lists: each split's quantity and the
/// running balance from zero; `None` where a running sum does not fit.
pub fn running_rows(splits: &Vec<SplitRow>, order: &Vec<usize>) -> (r: Option<Vec<AcctRow>>)
    requires
        forall|k: int| 0 <= k < order.len() ==> #[trigger] order@[k] < splits.len(),
    ensures
        r is Some <==> sums_from((0, 1), amounts(splits@, order@)) is Some,
        r matches Some(rows) ==> {
            &&& rows.len() == order.len()
            &&& forall|k: int|
                0 <= k < rows.len() ==> (#[trigger] rows@[k]).split == order@[k] && pair_view(
                    rows@[k].amount,
                ) == qty(splits@[order@[k] as int])
            &&& sums_from((0, 1), amounts(splits@, order@)) == Some(runnings(rows@))
        },
{
    let ghost amts = amounts(splits@, order@);
    let mut rows: Vec<AcctRow> = Vec::new();
    let mut acc: (i128, i128) = (0, 1);
    let mut k: usize = 0;
    assert(amts.skip(0) =~= amts);
    assert(runnings(rows@) + Seq::<(int, int)>::empty() =~= runnings(rows@));
    while k < order.len()
        invariant
            k <= order.len(),
            amts == amounts(splits@, order@),
            forall|j: int| 0 <= j < order.len() ==> #[trigger] order@[j] < splits.len(),
            rows.len() == k,
            forall|j: int|
                0 <= j < k ==> (#[trigger] rows@[j]).split == order@[j] && pair_view(rows@[j].amount)
                    == qty(splits@[order@[j] as int]),
            k > 0 ==> acc == rows@[k - 1].running,
            k == 0 ==> acc == (0i128, 1i128),
            sums_from((0, 1), amts) == match sums_from(pair_view(acc), amts.skip(k as int)) {
                Some(rest) => Some(runnings(rows@) + rest),
                None => None::<Seq<(int, int)>>,
            },
        decreases order.len() - k,
    {
        let s = &splits[order[k]];
        let amount = (s.quantity_num as i128, s.quantity_denom as i128);
        let ghost tail = amts.skip(k as int);
        assert(tail[0] == pair_view(amount));
        assert(tail.drop_first() =~= amts.skip(k + 1));
        match checked_add(acc, amount) {
            None => {
                return None;
            },
            Some(next) => {
                let ghost before = runnings(rows@);
                rows.push(AcctRow { split: order[k], amount, running: next });
                assert(runnings(rows@) =~= before.push(pair_view(next)));
                proof {
                    let r2 = sums_from(pair_view(next), amts.skip(k + 1));
                    if let Some(rest) = r2 {
                        assert(before + (seq![pair_view(next)] + rest) =~= runnings(rows@) + rest);
                    }
                }
                acc = next;
            },
        }
        k += 1;
    }
    assert(amts.skip(k as int) =~= Seq::<(int, int)>::empty());
    assert(runnings(rows@) + Seq::<(int, int)>::empty() =~= runnings(rows@));
    Some(rows)
}


/// `order` is an admissible row order for account `acct`: exactly the
/// matching splits, each once, ordered by `split_key`.
pub open spec fn valid_order(splits: Seq<SplitRow>, acct: Seq<char>, f: Filters, order: Seq<usize>) -> bool {
    &&& forall|k: int| 0 <= k < order.len() ==> #[trigger] order[k] < splits.len()
    &&& forall|i: int|
        0 <= i < splits.len() ==> (order.contains(i as usize) <==> #[trigger] passes(splits[i], acct, f))
    &&& forall|a: int, b: int| 0 <= a < b < order.len() ==> order[a] != order[b]
    &&& forall|a: int, b: int|
        0 <= a < b < order.len() ==> crate::order::key_le(
            split_key(splits[order[a] as int]),
            split_key(splits[order[b] as int]),
        )
}

/// Some split of account `acct` passes the filters.
pub open spec fn has_match(splits: Seq<SplitRow>, acct: Seq<char>, f: Filters) -> bool {
    exists|i: int| 0 <= i < splits.len() && #[trigger] passes(splits[i], acct, f)
}

/// The chosen accounts that have at least one matching split, in order.
pub open spec fn with_matches(info: Seq<AcctInfo>, splits: Seq<SplitRow>, f: Filters, sel: Seq<usize>) -> Seq<usize>
    decreases sel.len(),
{
    if sel.len() == 0 {
        sel
    } else {
        let rest = with_matches(info, splits, f, sel.drop_last());
        if has_match(splits, info[sel.last() as int].id@, f) {
            rest.push(sel.last())
        } else {
            rest
        }
    }
}

/// An account's heading in the report: its code, a space and its name
/// where it has a non-empty code, else its name.
pub open spec fn info_label(a: AcctInfo) -> Seq<char> {
    match a.code {
        Some(c) => if c@.len() > 0 {
            c@ + seq![' '] + a.name@
        } else {
            a.name@
        },
        None => a.name@,
    }
}

/// The commodity shown for an account: the mnemonic of its commodity, or
/// `?` where it has none.
pub open spec fn commodity_label(a: AcctInfo) -> Seq<char> {
    match a.commodity_id {
        Some(c) => after_last_colon(c@),
        None => "?"@,
    }
}

/// The rows and running total of one account.
pub struct AcctGroup {
    /// index of the account among the account rows
    pub account: usize,
    pub account_id: String,
    pub account_name: String,
    pub commodity: String,
    pub rows: Vec<AcctRow>,
    pub total: (i128, i128),
}

pub open spec fn row_splits(rows: Seq<AcctRow>) -> Seq<usize> {
    rows.map_values(|r: AcctRow| r.split)
}

/// `g` is the group of account `a`: its heading, its matching splits in
/// row order with their amounts and running balances, and the final
/// balance as total.
pub open spec fn group_ok(info: Seq<AcctInfo>, splits: Seq<SplitRow>, f: Filters, a: usize, g: AcctGroup) -> bool {
    &&& g.account == a
    &&& g.account_id@ == info[a as int].id@
    &&& g.account_name@ == info_label(info[a as int])
    &&& g.commodity@ == commodity_label(info[a as int])
    &&& g.rows.len() > 0
    &&& valid_order(splits, info[a as int].id@, f, row_splits(g.rows@))
    &&& forall|k: int|
        0 <= k < g.rows.len() ==> pair_view((#[trigger] g.rows@[k]).amount) == qty(
            splits[g.rows@[k].split as int],
        )
    &&& sums_from((0, 1), amounts(splits, row_splits(g.rows@))) == Some(runnings(g.rows@))
    &&& g.total == g.rows@.last().running
}

fn info_label_exec(a: &AcctInfo) -> (r: String)
    ensures
        r@ == info_label(*a),
{
    match &a.code {
        Some(c) => if !c.as_str().is_empty() {
            let mut s = c.clone();
            s.push(' ');
            s.push_str(a.name.as_str());
            assert(s@ =~= c@ + seq![' '] + a.name@);
            s
        } else {
            a.name.clone()
        },
        None => a.name.clone(),
    }
}

fn commodity_label_exec(a: &AcctInfo) -> (r: String)
    ensures
        r@ == commodity_label(*a),
{
    match &a.commodity_id {
        Some(c) => mnemonic(c),
        None => owned("?"),
    }
}

/// The sort key of every split.
fn split_keys(splits: &Vec<SplitRow>) -> (keys: Vec<Key>)
    ensures
        keys.len() == splits.len(),
        forall|i: int| 0 <= i < keys.len() ==> #[trigger] key_view(keys@[i]) == split_key(splits@[i]),
{
    let mut keys: Vec<Key> = Vec::new();
    while keys.len() < splits.len()
        invariant
            keys.len() <= splits.len(),
            forall|i: int| 0 <= i < keys.len() ==> #[trigger] key_view(keys@[i]) == split_key(splits@[i]),
        decreases splits.len() - keys.len(),
    {
        let s = &splits[keys.len()];
        let k: Key = vec![
            Some(s.date_posted.clone()),
            crate::book::clone_opt(&s.date_entered),
            Some(s.tx_id.clone()),
        ];
        assert(key_view(k) =~= split_key(*s));
        keys.push(k);
    }
    keys
}

proof fn lemma_valid_from_sorted(
    splits: Seq<SplitRow>,
    keys: Seq<Key>,
    acct: Seq<char>,
    f: Filters,
    order: Seq<usize>,
)
    requires
        keys.len() == splits.len(),
        forall|i: int| 0 <= i < keys.len() ==> #[trigger] key_view(keys[i]) == split_key(splits[i]),
        forall|i: int|
            0 <= i < splits.len() ==> (order.contains(i as usize) <==> #[trigger] passes(splits[i], acct, f)),
        forall|a: int, b: int| 0 <= a < b < order.len() ==> order[a] != order[b],
        sorted_by_keys(order, keys),
    ensures
        valid_order(splits, acct, f, order),
{
    assert forall|a: int, b: int| 0 <= a < b < order.len() implies crate::order::key_le(
        split_key(splits[order[a] as int]),
        split_key(splits[order[b] as int]),
    ) by {
        assert(key_view(keys[order[a] as int]) == split_key(splits[order[a] as int]));
        assert(key_view(keys[order[b] as int]) == split_key(splits[order[b] as int]));
    }
}

/// One group per chosen account with matching splits, in the order of
/// `sel`. Fails with `Overflow` where a running balance cannot be formed
/// (a zero denominator, or a sum beyond `i128`) for the row order taken.
pub fn account_groups(
    info: &Vec<AcctInfo>,
    sel: &Vec<usize>,
    splits: &Vec<SplitRow>,
    f: &Filters,
) -> (r: Result<Vec<AcctGroup>, AccountReportError>)
    requires
        forall|k: int| 0 <= k < sel.len() ==> #[trigger] sel@[k] < info.len(),
    ensures
        r matches Ok(groups) ==> {
            let want = with_matches(info@, splits@, *f, sel@);
            &&& groups.len() == want.len()
            &&& forall|g: int|
                0 <= g < groups.len() ==> group_ok(info@, splits@, *f, want[g], #[trigger] groups@[g])
        },
        r matches Err(e) ==> e == AccountReportError::Overflow && exists|k: int, o: Seq<usize>|
            #![trigger sel@[k], amounts(splits@, o)]
            0 <= k < sel.len() && valid_order(splits@, info@[sel@[k] as int].id@, *f, o)
                && sums_from((0, 1), amounts(splits@, o)) is None,
{
    let keys = split_keys(splits);
    let mut groups: Vec<AcctGroup> = Vec::new();
    let mut k: usize = 0;
    while k < sel.len()
        invariant
            k <= sel.len(),
            forall|j: int| 0 <= j < sel.len() ==> #[trigger] sel@[j] < info.len(),
            keys.len() == splits.len(),
            forall|i: int| 0 <= i < keys.len() ==> #[trigger] key_view(keys@[i]) == split_key(splits@[i]),
            groups.len() == with_matches(info@, splits@, *f, sel@.take(k as int)).len(),
            forall|g: int|
                0 <= g < groups.len() ==> group_ok(
                    info@,
                    splits@,
                    *f,
                    with_matches(info@, splits@, *f, sel@.take(k as int))[g],
                    #[trigger] groups@[g],
                ),
        decreases sel.len() - k,
    {
        let a = sel[k];
        let acct = &info[a];
        let order = matching_splits(splits, &keys, &acct.id, f);
        proof {
            lemma_valid_from_sorted(splits@, keys@, acct.id@, *f, order@);
            assert(sel@.take(k + 1).drop_last() =~= sel@.take(k as int));
        }
        let ghost prev = with_matches(info@, splits@, *f, sel@.take(k as int));
        if order.len() == 0 {
            proof {
                if has_match(splits@, acct.id@, *f) {
                    let i = choose|i: int| 0 <= i < splits.len() && #[trigger] passes(splits@[i], acct.id@, *f);
                    assert(order@.contains(i as usize));
                }
                assert(with_matches(info@, splits@, *f, sel@.take(k + 1)) == prev);
            }
        } else {
            let rows = match running_rows(splits, &order) {
                Some(rows) => rows,
                None => {
                    proof {
                        assert(valid_order(splits@, info@[sel@[k as int] as int].id@, *f, order@));
                        assert(sums_from((0, 1), amounts(splits@, order@)) is None);
                    }
                    return Err(AccountReportError::Overflow);
                },
            };
            proof {
                assert(order@.contains(order@[0]));
                assert(passes(splits@[order@[0] as int], acct.id@, *f));
                assert(has_match(splits@, acct.id@, *f));
                assert(row_splits(rows@) =~= order@);
                assert(with_matches(info@, splits@, *f, sel@.take(k + 1)) == prev.push(a));
            }
            let total = rows[rows.len() - 1].running;
            let g = AcctGroup {
                account: a,
                account_id: acct.id.clone(),
                account_name: info_label_exec(acct),
                commodity: commodity_label_exec(acct),
                rows,
                total,
            };
            groups.push(g);
        }
        k += 1;
    }
    assert(sel@.take(k as int) =~= sel@);
    Ok(groups)
}


/// `sel` is an admissible list of the chosen accounts: each chosen account
/// once, sorted by code, then name.
pub open spec fn selection_ok(rows: Seq<AcctInfo>, roots: Seq<Seq<char>>, include_sub: bool, sel: Seq<usize>) -> bool {
    &&& forall|x: int|
        0 <= x < rows.len() ==> (sel.contains(x as usize) <==> #[trigger] chosen(rows, roots, include_sub, x))
    &&& forall|i: int, j: int| 0 <= i < j < sel.len() ==> sel[i] != sel[j]
    &&& forall|i: int| 0 <= i < sel.len() ==> #[trigger] sel[i] < rows.len()
    &&& forall|i: int, j: int|
        0 <= i < j < sel.len() ==> crate::order::key_le(
            info_key(rows[sel[i] as int]),
            info_key(rows[sel[j] as int]),
        )
}

/// The number of rows over all groups.
pub open spec fn rows_count(groups: Seq<AcctGroup>) -> int
    decreases groups.len(),
{
    if groups.len() == 0 {
        0
    } else {
        rows_count(groups.drop_last()) + groups.last().rows.len()
    }
}

/// The account report: its groups and the number of rows in them.
pub struct AccountReportOut {
    pub groups: Vec<AcctGroup>,
    pub count: u128,
}

/// The report over the accounts `info` and the splits `splits`, for the
/// listed `roots` and the filters `f` (see `read_params`).
pub fn account_report_data(
    roots: &Vec<String>,
    f: &Filters,
    info: &Vec<AcctInfo>,
    splits: &Vec<SplitRow>,
) -> (r: Result<AccountReportOut, AccountReportError>)
    ensures
        r matches Ok(out) ==> exists|sel: Seq<usize>|
            #[trigger] selection_ok(info@, strs_view(roots@), f.include_sub, sel) && {
                let want = with_matches(info@, splits@, *f, sel);
                &&& out.groups.len() == want.len()
                &&& forall|g: int|
                    0 <= g < out.groups.len() ==> group_ok(
                        info@,
                        splits@,
                        *f,
                        want[g],
                        #[trigger] out.groups@[g],
                    )
                &&& out.count == rows_count(out.groups@)
            },
        r matches Err(e) ==> e == AccountReportError::Overflow && exists|sel: Seq<usize>, k: int, o: Seq<usize>|
            #![trigger selection_ok(info@, strs_view(roots@), f.include_sub, sel), sel[k], amounts(splits@, o)]
            selection_ok(info@, strs_view(roots@), f.include_sub, sel) && 0 <= k < sel.len()
                && valid_order(splits@, info@[sel[k] as int].id@, *f, o)
                && sums_from((0, 1), amounts(splits@, o)) is None,
{
    let sel = select_accounts(info, roots, f.include_sub);
    assert(selection_ok(info@, strs_view(roots@), f.include_sub, sel@));
    let groups = match account_groups(info, &sel, splits, f) {
        Ok(g) => g,
        Err(e) => {
            return Err(e);
        },
    };
    let mut count: u128 = 0;
    let mut g: usize = 0;
    while g < groups.len()
        invariant
            g <= groups.len(),
            count == rows_count(groups@.take(g as int)),
            count <= g * 0xffff_ffff_ffff_ffffu128,
        decreases groups.len() - g,
    {
        assert(groups@.take(g + 1).drop_last() =~= groups@.take(g as int));
        assert(groups@[g as int].rows.len() <= 0xffff_ffff_ffff_ffffu128);
        assert(g * 0xffff_ffff_ffff_ffffu128 + 0xffff_ffff_ffff_ffffu128 == (g + 1) * 0xffff_ffff_ffff_ffffu128) by (nonlinear_arith);
        assert((g + 1) * 0xffff_ffff_ffff_ffffu128 <= 0xffff_ffff_ffff_ffffu128 * 0xffff_ffff_ffff_ffffu128) by (nonlinear_arith)
            requires
                g + 1 <= 0xffff_ffff_ffff_ffffu128,
        ;
        count = count + groups[g].rows.len() as u128;
        g += 1;
    }
    assert(groups@.take(g as int) =~= groups@);
    Ok(AccountReportOut { groups, count })
}


// ---------------------------------------------------------------------------
// Grand total
// ---------------------------------------------------------------------------

/// `s` without its leading run of `-` (`trim_start_matches('-')`).
pub open spec fn strip_minus(s: Seq<char>) -> Seq<char>
    decreases s.len(),
{
    if s.len() > 0 && s[0] == '-' {
        strip_minus(s.drop_first())
    } else {
        s
    }
}

/// The value of an integer parse, or 0 where it fails
/// (`parse().unwrap_or(0)`).
pub open spec fn or_zero(r: Result<int, IntErrorKind>) -> int {
    match r {
        Ok(v) => v,
        Err(_) => 0,
    }
}

/// What `parse_amount` reads from a formatted amount: the part before the
/// first `.` as integer part (a leading `-` making the result negative),
/// the part after it as fraction over `10^len`; parts that do not parse
/// count as 0. `None` where the denominator or the value does not fit in
/// `i128`.
pub open spec fn amount_spec(s: Seq<char>) -> Option<(int, int)> {
    let k = crate::money::find(s, '.');
    let ip = if k < s.len() {
        s.take(k)
    } else {
        s
    };
    let fp = if k < s.len() {
        s.skip(k + 1)
    } else {
        Seq::<char>::empty()
    };
    let flen = utf8_len(fp);
    if flen > 38 {
        None
    } else {
        let denom = pow10(flen as nat);
        let neg = ip.len() > 0 && ip[0] == '-';
        let iv = or_zero(parse_i128_spec(strip_minus(ip)));
        let fv = if fp.len() == 0 {
            0
        } else {
            or_zero(parse_i128_spec(fp))
        };
        let prod = iv * denom;
        let mag = prod + fv;
        if !in_i128(prod) || !in_i128(mag) || (neg && !in_i128(-mag)) {
            None
        } else {
            Some(
                (
                    if neg {
                        -mag
                    } else {
                        mag
                    },
                    denom,
                ),
            )
        }
    }
}

/// `parse_amount` reads back what `format` writes: for a denominator
/// `10^k` and an amount above `i128::MIN`, reading the formatted text gives
/// the amount over the same denominator.
pub proof fn lemma_amount_reads_back(num: i128, denom: i128)
    requires
        num > i128::MIN,
        denom >= 1,
        crate::money::scale_spec(denom as int) is Some,
    ensures
        crate::money::format_spec(num as int, denom as int) is Some,
        amount_spec(crate::money::format_spec(num as int, denom as int)->0) == Some(
            (num as int, denom as int),
        ),
{
    let f = denom as int;
    let scale = crate::money::scale_spec(f)->0;
    crate::money::lemma_scale_pow10(f);
    crate::money::lemma_pow10_big(scale);
    let a = crate::money::iabs(num as int);
    let ip = a / (f as nat);
    let fp = a % (f as nat);
    let sign = if num < 0 {
        seq!['-']
    } else {
        Seq::<char>::empty()
    };
    let digits = crate::text::nat_digits(ip);
    let fixed = crate::text::fixed_digits(fp, scale);
    let tail = if scale == 0 {
        Seq::<char>::empty()
    } else {
        seq!['.'] + fixed
    };
    let s = sign + digits + tail;
    assert(crate::money::format_spec(num as int, f) == Some(s));
    assert(ip <= a) by {
        vstd::arithmetic::div_mod::lemma_div_is_ordered_by_denominator(a as int, 1, f);
    }
    crate::money::lemma_nat_digits(ip);
    crate::money::lemma_nat_digits_128(ip);
    crate::money::lemma_fixed_digits(fp, scale);
    crate::money::lemma_fixed_digits_128(fp, scale);
    crate::money::lemma_digit_char(ip % 10);
    let head = sign + digits;
    assert forall|i: int| 0 <= i < head.len() implies #[trigger] head[i] != '.' by {
        if i >= sign.len() {
            assert(head[i] == digits[i - sign.len()]);
            assert(crate::text::is_digit(digits[i - sign.len()]));
        }
    }
    crate::money::lemma_find_skip(head, tail, '.');
    assert(s == head + tail);
    let k = crate::money::find(s, '.');
    assert(k == head.len()) by {
        if scale == 0 {
            assert(tail.len() == 0);
        } else {
            assert(tail[0] == '.');
        }
    }
    assert(s.take(k) =~= head);
    let fpart = if k < s.len() {
        s.skip(k + 1)
    } else {
        Seq::<char>::empty()
    };
    assert(fpart =~= fixed) by {
        if scale == 0 {
            assert(fixed.len() == 0);
        } else {
            assert(s.skip(k + 1) =~= fixed);
        }
    }
    crate::money::lemma_utf8_ascii(fixed);
    assert(crate::text::is_digit(digits[0]));
    let neg = head.len() > 0 && head[0] == '-';
    assert(neg == (num < 0)) by {
        if num >= 0 {
            assert(head[0] == digits[0]);
        }
    }
    assert(strip_minus(head) == digits) by {
        assert(strip_minus(digits) == digits);
        if num < 0 {
            assert(head.drop_first() =~= digits);
        } else {
            assert(head =~= digits);
        }
    }
    assert(parse_i128_spec(digits) == Ok::<int, IntErrorKind>(ip as int));
    crate::money::lemma_pow10_pos(scale);
    if scale > 0 {
        assert(crate::text::is_digit(fixed[0]));
        vstd::arithmetic::div_mod::lemma_small_mod(fp, f as nat);
        assert(parse_i128_spec(fixed) == Ok::<int, IntErrorKind>(fp as int));
    }
    vstd::arithmetic::div_mod::lemma_fundamental_div_mod(a as int, f);
    assert(ip * f == f * ip) by (nonlinear_arith);
    assert(ip * f + fp == a);
    assert(0 <= ip * f) by (nonlinear_arith)
        requires
            f >= 1,
    ;
}

fn pow10_i128(k: u32) -> (p: i128)
    requires
        k <= 38,
    ensures
        p == pow10(k as nat),
{
    let mut p: i128 = 1;
    let mut i: u32 = 0;
    proof {
        reveal_with_fuel(pow10, 39);
        assert(pow10(38) == 100000000000000000000000000000000000000int);
    }
    while i < k
        invariant
            i <= k <= 38,
            p == pow10(i as nat),
            pow10(38) == 100000000000000000000000000000000000000int,
        decreases k - i,
    {
        proof {
            lemma_pow10_mono((i + 1) as nat, 38);
            assert(pow10((i + 1) as nat) == 10 * pow10(i as nat));
            assert(pow10((i + 1) as nat) <= 100000000000000000000000000000000000000int);
            crate::money::lemma_pow10_pos(i as nat);
        }
        p = p * 10;
        i += 1;
    }
    p
}

/// Parse a formatted decimal amount back to an exact rational.
///
/// Returns `None` on the inputs where the denominator `10^places` or the
/// value would not fit in `i128`.
pub fn parse_amount(s: &str) -> (r: Option<(i128, i128)>)
    ensures
        match r {
            Some(p) => amount_spec(s@) == Some(pair_view(p)),
            None => amount_spec(s@) is None,
        },
{
    let v = chars_of(s);
    let k = find_char(&v, '.');
    let (iend, fstart) = if k < v.len() {
        (k, k + 1)
    } else {
        (v.len(), v.len())
    };
    let ip = slice_chars(&v, 0, iend);
    let fp = slice_chars(&v, fstart, v.len());
    proof {
        if k < v.len() {
            assert(ip@ =~= v@.take(k as int));
            assert(fp@ =~= v@.skip(k + 1));
        } else {
            assert(ip@ =~= v@);
            assert(fp@ =~= Seq::<char>::empty());
        }
    }
    let flen = utf8_len_exec(&fp);
    if flen > 38 {
        return None;
    }
    let denom = pow10_i128(flen as u32);
    let neg = ip.len() > 0 && ip[0] == '-';
    let mut st: usize = 0;
    assert(ip@.subrange(0, ip.len() as int) =~= ip@);
    while st < ip.len() && ip[st] == '-'
        invariant
            st <= ip.len(),
            strip_minus(ip@) == strip_minus(ip@.subrange(st as int, ip.len() as int)),
        decreases ip.len() - st,
    {
        assert(ip@.subrange(st as int, ip.len() as int).drop_first() =~= ip@.subrange(
            st + 1,
            ip.len() as int,
        ));
        st += 1;
    }
    let iv: i128 = match parse_i128_from(&ip, st) {
        Ok(x) => x,
        Err(_) => 0,
    };
    let fv: i128 = if fp.len() == 0 {
        0
    } else {
        assert(fp@.subrange(0, fp.len() as int) =~= fp@);
        match parse_i128_from(&fp, 0) {
            Ok(x) => x,
            Err(_) => 0,
        }
    };
    let prod = match iv.checked_mul(denom) {
        Some(x) => x,
        None => {
            return None;
        },
    };
    let mag = match prod.checked_add(fv) {
        Some(x) => x,
        None => {
            return None;
        },
    };
    if neg {
        match 0i128.checked_sub(mag) {
            Some(x) => Some((x, denom)),
            None => None,
        }
    } else {
        Some((mag, denom))
    }
}

/// The sum of the formatted totals, read back with `parse_amount`, from
/// `(0, 1)` in order; `None` where an amount or a sum does not fit.
pub open spec fn grand_sum(totals: Seq<Seq<char>>) -> Option<(int, int)>
    decreases totals.len(),
{
    if totals.len() == 0 {
        Some((0, 1))
    } else {
        match (grand_sum(totals.drop_last()), amount_spec(totals.last())) {
            (Some(t), Some(a)) => if add_fits(t, a) {
                Some(add_spec(t, a))
            } else {
                None
            },
            _ => None,
        }
    }
}

proof fn lemma_grand_sum_prefix(totals: Seq<Seq<char>>, k: int)
    requires
        0 <= k <= totals.len(),
        grand_sum(totals.take(k)) is None,
    ensures
        grand_sum(totals) is None,
    decreases totals.len() - k,
{
    if k < totals.len() {
        assert(totals.take(k + 1).drop_last() =~= totals.take(k));
        lemma_grand_sum_prefix(totals, k + 1);
    } else {
        assert(totals.take(k) =~= totals);
    }
}

/// All groups share one commodity.
pub open spec fn one_commodity(commodities: Seq<Seq<char>>) -> bool {
    forall|g: int| 0 <= g < commodities.len() ==> #[trigger] commodities[g] == commodities[0]
}

/// The grand total of the groups, from their formatted totals, with the
/// commodity they share: `None` where there are no groups or the groups
/// differ in commodity. Fails with `Overflow` where the sum does not fit.
pub fn grand_total(commodities: &Vec<String>, totals: &Vec<String>) -> (r: Result<Option<((i128, i128), String)>, AccountReportError>)
    requires
        commodities.len() == totals.len(),
    ensures
        (commodities.len() == 0 || !one_commodity(strs_view(commodities@))) ==> r == Ok::<
            Option<((i128, i128), String)>,
            AccountReportError,
        >(None),
        (commodities.len() > 0 && one_commodity(strs_view(commodities@))) ==> match r {
            Ok(Some((t, c))) => grand_sum(strs_view(totals@)) == Some(pair_view(t)) && c@
                == commodities@[0]@,
            Ok(None) => false,
            Err(e) => e == AccountReportError::Overflow && grand_sum(strs_view(totals@)) is None,
        },
{
    let ghost cs = strs_view(commodities@);
    let ghost ts = strs_view(totals@);
    if commodities.len() == 0 {
        return Ok(None);
    }
    let mut g: usize = 0;
    while g < commodities.len()
        invariant
            g <= commodities.len(),
            cs == strs_view(commodities@),
            commodities.len() > 0,
            forall|j: int| 0 <= j < g ==> #[trigger] cs[j] == cs[0],
        decreases commodities.len() - g,
    {
        if !crate::order::str_eq(&commodities[g], &commodities[0]) {
            assert(cs[g as int] != cs[0]);
            return Ok(None);
        }
        g += 1;
    }
    assert(one_commodity(cs));
    let mut t: (i128, i128) = (0, 1);
    let mut k: usize = 0;
    while k < totals.len()
        invariant
            k <= totals.len(),
            ts == strs_view(totals@),
            cs == strs_view(commodities@),
            commodities.len() > 0,
            one_commodity(cs),
            grand_sum(ts.take(k as int)) == Some(pair_view(t)),
        decreases totals.len() - k,
    {
        assert(ts.take(k + 1).drop_last() =~= ts.take(k as int));
        assert(ts.take(k + 1).last() == totals@[k as int]@);
        let a = match parse_amount(totals[k].as_str()) {
            Some(a) => a,
            None => {
                proof {
                    lemma_grand_sum_prefix(ts, k + 1);
                }
                return Err(AccountReportError::Overflow);
            },
        };
        t = match checked_add(t, a) {
            Some(x) => x,
            None => {
                proof {
                    lemma_grand_sum_prefix(ts, k + 1);
                }
                return Err(AccountReportError::Overflow);
            },
        };
        k += 1;
    }
    assert(ts.take(k as int) =~= ts);
    Ok(Some((t, commodities[0].clone())))
}


// ---------------------------------------------------------------------------
// Subtitle
// ---------------------------------------------------------------------------

pub open spec fn dates_text(from: Option<Seq<char>>, to: Option<Seq<char>>) -> Seq<char> {
    match (from, to) {
        (Some(f), Some(t)) => f + " to "@ + t,
        (Some(f), None) => "from "@ + f,
        (None, Some(t)) => "through "@ + t,
        (None, None) => "all dates"@,
    }
}

pub open spec fn dir_text(d: Option<Seq<char>>) -> Seq<Seq<char>> {
    if d == Some("in"@) {
        seq!["debits only"@]
    } else if d == Some("out"@) {
        seq!["credits only"@]
    } else {
        Seq::empty()
    }
}

pub open spec fn reconciled_text(r: Option<Seq<char>>) -> Seq<Seq<char>> {
    if r == Some("y"@) {
        seq!["reconciled only"@]
    } else if r == Some("c"@) {
        seq!["cleared only"@]
    } else if r == Some("n"@) {
        seq!["new only"@]
    } else if r == Some("ny"@) {
        seq!["unreconciled only"@]
    } else {
        Seq::empty()
    }
}

pub open spec fn filter_text(f: Option<Seq<char>>) -> Seq<Seq<char>> {
    match f {
        Some(x) => seq!["matching "@ + seq!['\u{201c}'] + x + seq!['\u{201d}']],
        None => Seq::empty(),
    }
}

/// The parts joined with `sep` between them.
pub open spec fn join_with(parts: Seq<Seq<char>>, sep: Seq<char>) -> Seq<char>
    decreases parts.len(),
{
    if parts.len() == 0 {
        Seq::empty()
    } else if parts.len() == 1 {
        parts[0]
    } else {
        join_with(parts.drop_last(), sep) + sep + parts.last()
    }
}

/// The parts of the subtitle, from the (given) query parameters.
pub open spec fn subtitle_parts(
    from: Option<Seq<char>>,
    to: Option<Seq<char>>,
    dir: Option<Seq<char>>,
    reconciled: Option<Seq<char>>,
    filter: Option<Seq<char>>,
) -> Seq<Seq<char>> {
    seq![dates_text(from, to)] + dir_text(dir) + reconciled_text(reconciled) + filter_text(filter)
}

fn opt_is(o: &Option<String>, lit: &str) -> (r: bool)
    ensures
        r == (opt_view(*o) == Some(lit@)),
{
    match o {
        Some(s) => string_is(s, lit),
        None => false,
    }
}

fn push_part(parts: &mut Vec<String>, lit: &str)
    ensures
        strs_view(final(parts)@) == strs_view(old(parts)@).push(lit@),
{
    let ghost before = strs_view(parts@);
    parts.push(owned(lit));
    assert(strs_view(parts@) =~= before.push(lit@));
}

/// Human summary of the active filters, for report subtitles.
pub fn account_report_subtitle(
    from: &Option<String>,
    to: &Option<String>,
    dir: &Option<String>,
    reconciled: &Option<String>,
    filter: &Option<String>,
) -> (r: String)
    ensures
        r@ == join_with(
            subtitle_parts(
                given(opt_view(*from)),
                given(opt_view(*to)),
                given(opt_view(*dir)),
                given(opt_view(*reconciled)),
                given(opt_view(*filter)),
            ),
            " \u{b7} "@,
        ),
{
    let from = given_exec(from);
    let to = given_exec(to);
    let dir = given_exec(dir);
    let reconciled = given_exec(reconciled);
    let filter = given_exec(filter);
    let mut parts: Vec<String> = Vec::new();
    let dates = match (&from, &to) {
        (Some(f), Some(t)) => {
            let mut s = f.clone();
            s.push_str(" to ");
            s.push_str(t.as_str());
            s
        },
        (Some(f), None) => {
            let mut s = owned("from ");
            s.push_str(f.as_str());
            s
        },
        (None, Some(t)) => {
            let mut s = owned("through ");
            s.push_str(t.as_str());
            s
        },
        (None, None) => owned("all dates"),
    };
    assert(dates@ =~= dates_text(opt_view(from), opt_view(to)));
    parts.push(dates);
    let ghost p0 = strs_view(parts@);
    assert(p0 =~= seq![dates_text(opt_view(from), opt_view(to))]);
    if opt_is(&dir, "in") {
        push_part(&mut parts, "debits only");
    } else if opt_is(&dir, "out") {
        push_part(&mut parts, "credits only");
    }
    assert(strs_view(parts@) =~= p0 + dir_text(opt_view(dir)));
    let ghost p1 = strs_view(parts@);
    if opt_is(&reconciled, "y") {
        push_part(&mut parts, "reconciled only");
    } else if opt_is(&reconciled, "c") {
        push_part(&mut parts, "cleared only");
    } else if opt_is(&reconciled, "n") {
        push_part(&mut parts, "new only");
    } else if opt_is(&reconciled, "ny") {
        push_part(&mut parts, "unreconciled only");
    }
    assert(strs_view(parts@) =~= p1 + reconciled_text(opt_view(reconciled)));
    let ghost p2 = strs_view(parts@);
    match &filter {
        Some(f) => {
            let mut s = owned("matching ");
            s.push('\u{201c}');
            s.push_str(f.as_str());
            s.push('\u{201d}');
            assert(s@ =~= "matching "@ + seq!['\u{201c}'] + f@ + seq!['\u{201d}']);
            parts.push(s);
            assert(strs_view(parts@) =~= p2 + filter_text(opt_view(filter)));
        },
        None => {
            assert(strs_view(parts@) =~= p2 + filter_text(opt_view(filter)));
        },
    }
    let ghost all = strs_view(parts@);
    assert(all =~= subtitle_parts(
        opt_view(from),
        opt_view(to),
        opt_view(dir),
        opt_view(reconciled),
        opt_view(filter),
    ));
    // join
    let mut out = parts[0].clone();
    let mut k: usize = 1;
    assert(all.take(1) =~= seq![all[0]]);
    while k < parts.len()
        invariant
            1 <= k <= parts.len(),
            all == strs_view(parts@),
            out@ == join_with(all.take(k as int), " \u{b7} "@),
        decreases parts.len() - k,
    {
        out.push_str(" \u{b7} ");
        out.push_str(parts[k].as_str());
        assert(all.take(k + 1).drop_last() =~= all.take(k as int));
        k += 1;
    }
    assert(all.take(k as int) =~= all);
    out
}

} // verus!
