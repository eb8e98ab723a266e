//! The ledger's own rules: new transaction ids, checking a transaction
//! before it is stored (at least two splits, a full date, amounts within
//! the commodities' precision, splits that balance), the register's
//! running balances, the account list, account checks, and the hash of
//! the web assets.

use vstd::prelude::*;
use crate::money::{
    add_fits, add_spec, checked_add, pair_view, parse_ok, parse_or_overflow, parse_spec, utf8_len,
    utf8_len_exec, MoneyError, MoneyFault,
};
use crate::text::{chars_of, owned, string_is};

verus! {

broadcast use vstd::seq_lib::group_to_multiset_ensures;

// ---------------------------------------------------------------------------
// Ids
// ---------------------------------------------------------------------------

pub open spec fn hex_digit(d: int) -> char {
    if d < 10 {
        (d + 48) as char
    } else {
        (d - 10 + 97) as char
    }
}

/// Two lower-case hex digits for a byte.
pub open spec fn hex2(b: u8) -> Seq<char> {
    seq![hex_digit(b as int / 16), hex_digit(b as int % 16)]
}

/// The bytes as lower-case hex, two digits each.
pub open spec fn hex_of(bytes: Seq<u8>) -> Seq<char>
    decreases bytes.len(),
{
    if bytes.len() == 0 {
        Seq::empty()
    } else {
        hex_of(bytes.drop_last()) + hex2(bytes.last())
    }
}

fn hex_char(d: u8) -> (c: char)
    requires
        d < 16,
    ensures
        c == hex_digit(d as int),
{
    match d {
        0 => '0',
        1 => '1',
        2 => '2',
        3 => '3',
        4 => '4',
        5 => '5',
        6 => '6',
        7 => '7',
        8 => '8',
        9 => '9',
        10 => 'a',
        11 => 'b',
        12 => 'c',
        13 => 'd',
        14 => 'e',
        _ => 'f',
    }
}

/// A new id, GnuCash-guid style: 32 lower-case hex digits for 16 random
/// bytes (which the caller draws from the operating system).
pub fn new_guid(bytes: [u8; 16]) -> (id: String)
    ensures
        id@ == hex_of(bytes@),
{
    let mut id = String::new();
    let mut i: usize = 0;
    assert(bytes@.take(0) =~= Seq::<u8>::empty());
    while i < 16
        invariant
            i <= 16,
            bytes@.len() == 16,
            id@ == hex_of(bytes@.take(i as int)),
        decreases 16 - i,
    {
        let b = bytes[i];
        id.push(hex_char(b / 16));
        id.push(hex_char(b % 16));
        assert(bytes@.take(i + 1).drop_last() =~= bytes@.take(i as int));
        assert(id@ =~= hex_of(bytes@.take(i + 1)));
        i += 1;
    }
    assert(bytes@.take(16) =~= bytes@);
    id
}

// ---------------------------------------------------------------------------
// Checking a transaction
// ---------------------------------------------------------------------------

/// A split as entered.
pub struct SplitIn {
    pub account_id: String,
    pub memo: Option<String>,
    /// decimal string in the transaction currency, e.g. "-123.45"
    pub value: String,
    /// decimal string in the account's commodity; defaults to the value
    pub quantity: Option<String>,
    pub reconcile_state: Option<String>,
}

/// A transaction as entered.
pub struct TxIn {
    pub currency_id: String,
    pub date_posted: String,
    pub num: Option<String>,
    pub description: Option<String>,
    pub splits: Vec<SplitIn>,
}

/// Why a transaction was refused.
pub enum TxError {
    /// Fewer than two splits.
    TooFewSplits,
    /// The date is not ten bytes long (`YYYY-MM-DD`).
    BadDate,
    /// The currency (its id) is not a known commodity.
    UnknownCurrency(String),
    /// A split's account (its id) is not known.
    UnknownAccount(String),
    /// A split's value or quantity does not parse.
    Amount(MoneyError),
    /// The values cannot be added up (a zero fraction, or a sum beyond
    /// `i128`).
    Overflow,
    /// The values do not add up to zero (their total).
    Unbalanced(i128, i128),
}

pub enum TxFault {
    TooFewSplits,
    BadDate,
    UnknownCurrency(Seq<char>),
    UnknownAccount(Seq<char>),
    Amount(MoneyFault),
    Overflow,
    Unbalanced(int, int),
}

impl View for TxError {
    type V = TxFault;

    open spec fn view(&self) -> TxFault {
        match self {
            TxError::TooFewSplits => TxFault::TooFewSplits,
            TxError::BadDate => TxFault::BadDate,
            TxError::UnknownCurrency(c) => TxFault::UnknownCurrency(c@),
            TxError::UnknownAccount(a) => TxFault::UnknownAccount(a@),
            TxError::Amount(e) => TxFault::Amount(e@),
            TxError::Overflow => TxFault::Overflow,
            TxError::Unbalanced(n, d) => TxFault::Unbalanced(*n as int, *d as int),
        }
    }
}

/// `parse`, with `Overflow` on the inputs where it cannot negate the amount.
pub open spec fn amount_spec(s: Seq<char>, fraction: int) -> Result<(int, int), MoneyFault> {
    if parse_ok(s, fraction) {
        parse_spec(s, fraction)
    } else {
        Err(MoneyFault::Overflow)
    }
}

/// A split's value (in the currency's fraction) and quantity (in its
/// account's fraction; the value's text where no quantity is given).
pub open spec fn split_amounts(sp: SplitIn, cf: int, af: int) -> Result<((int, int), (int, int)), MoneyFault> {
    match amount_spec(sp.value@, cf) {
        Err(e) => Err(e),
        Ok(v) => match amount_spec(
            match sp.quantity {
                Some(q) => q@,
                None => sp.value@,
            },
            af,
        ) {
            Err(e) => Err(e),
            Ok(q) => Ok((v, q)),
        },
    }
}

/// One split checked against the running sum `sum`: its account known,
/// its amounts parsed, its value added.
pub open spec fn split_step(sum: (int, int), sp: SplitIn, cf: int, afo: Option<i64>) -> Result<(((int, int), (int, int)), (int, int)), TxFault> {
    match afo {
        None => Err(TxFault::UnknownAccount(sp.account_id@)),
        Some(af) => match split_amounts(sp, cf, af as int) {
            Err(e) => Err(TxFault::Amount(e)),
            Ok((v, q)) => if add_fits(sum, v) {
                Ok(((v, q), add_spec(sum, v)))
            } else {
                Err(TxFault::Overflow)
            },
        },
    }
}

/// The splits checked in order, with the running sum of their values
/// from `0/1`; the first failure stops it.
pub open spec fn fold_splits(sps: Seq<SplitIn>, cf: int, afs: Seq<Option<i64>>) -> Result<(Seq<((int, int), (int, int))>, (int, int)), TxFault>
    decreases sps.len(),
{
    if sps.len() == 0 {
        Ok((Seq::empty(), (0, 1)))
    } else {
        match fold_splits(sps.drop_last(), cf, afs) {
            Err(e) => Err(e),
            Ok((rows, sum)) => match split_step(sum, sps.last(), cf, afs[sps.len() - 1]) {
                Err(e) => Err(e),
                Ok((vq, s2)) => Ok((rows.push(vq), s2)),
            },
        }
    }
}

/// A leap year of the Gregorian calendar.
pub open spec fn leap_year(y: int) -> bool {
    (y % 4 == 0 && y % 100 != 0) || y % 400 == 0
}

/// The number of days of month `m` (1 to 12) of year `y`.
pub open spec fn days_in_month(y: int, m: int) -> int {
    if m == 2 {
        if leap_year(y) {
            29
        } else {
            28
        }
    } else if m == 4 || m == 6 || m == 9 || m == 11 {
        30
    } else {
        31
    }
}

/// The value of the digits of `s` from `i` up to `j`.
pub open spec fn digits_value(s: Seq<char>, i: int, j: int) -> int
    decreases j - i,
{
    if j <= i {
        0
    } else {
        digits_value(s, i, j - 1) * 10 + (s[j - 1] as int - 48)
    }
}

/// `s` is a calendar date written `YYYY-MM-DD`: four digits of year, a
/// dash, two of month (01 to 12), a dash, two of day (01 to the month's
/// last day, with February 29 in leap years).
pub open spec fn is_iso_date(s: Seq<char>) -> bool {
    &&& s.len() == 10
    &&& s[4] == '-' && s[7] == '-'
    &&& forall|i: int| 0 <= i < 10 && i != 4 && i != 7 ==> '0' <= #[trigger] s[i] <= '9'
    &&& 1 <= digits_value(s, 5, 7) <= 12
    &&& 1 <= digits_value(s, 8, 10) <= days_in_month(digits_value(s, 0, 4), digits_value(s, 5, 7))
}

fn digit_at(v: &Vec<char>, i: usize) -> (d: u32)
    requires
        i < v.len(),
        '0' <= v@[i as int] <= '9',
    ensures
        d == v@[i as int] as int - 48,
        d <= 9,
{
    (v[i] as u32) - 48
}

/// Whether `s` is a calendar date written `YYYY-MM-DD`.
pub fn iso_date(s: &str) -> (r: bool)
    ensures
        r == is_iso_date(s@),
{
    let v = chars_of(s);
    if v.len() != 10 || v[4] != '-' || v[7] != '-' {
        return false;
    }
    let mut i: usize = 0;
    while i < 10
        invariant
            v@ == s@,
            v.len() == 10,
            i <= 10,
            forall|j: int| 0 <= j < i && j != 4 && j != 7 ==> '0' <= #[trigger] v@[j] <= '9',
        decreases 10 - i,
    {
        if i != 4 && i != 7 && !('0' <= v[i] && v[i] <= '9') {
            return false;
        }
        i += 1;
    }
    let ghost t = v@;
    let y = ((digit_at(&v, 0) * 10 + digit_at(&v, 1)) * 10 + digit_at(&v, 2)) * 10 + digit_at(&v, 3);
    let m = digit_at(&v, 5) * 10 + digit_at(&v, 6);
    let d = digit_at(&v, 8) * 10 + digit_at(&v, 9);
    proof {
        reveal_with_fuel(digits_value, 5);
        assert(digits_value(t, 0, 1) == t[0] as int - 48);
        assert(digits_value(t, 0, 2) == digits_value(t, 0, 1) * 10 + (t[1] as int - 48));
        assert(digits_value(t, 0, 3) == digits_value(t, 0, 2) * 10 + (t[2] as int - 48));
        assert(digits_value(t, 0, 4) == digits_value(t, 0, 3) * 10 + (t[3] as int - 48));
        assert(y == digits_value(t, 0, 4));
        assert(digits_value(t, 5, 6) == t[5] as int - 48);
        assert(m == digits_value(t, 5, 7));
        assert(digits_value(t, 8, 9) == t[8] as int - 48);
        assert(d == digits_value(t, 8, 10));
    }
    let leap = (y % 4 == 0 && y % 100 != 0) || y % 400 == 0;
    let last: u32 = if m == 2 {
        if leap {
            29
        } else {
            28
        }
    } else if m == 4 || m == 6 || m == 9 || m == 11 {
        30
    } else {
        31
    };
    1 <= m && m <= 12 && 1 <= d && d <= last
}

/// What checking a transaction gives: the value and quantity of each
/// split, or the first reason to refuse it.
pub open spec fn check_tx_spec(body: TxIn, cf: Option<i64>, afs: Seq<Option<i64>>) -> Result<Seq<((int, int), (int, int))>, TxFault> {
    if body.splits.len() < 2 {
        Err(TxFault::TooFewSplits)
    } else if !is_iso_date(body.date_posted@) {
        Err(TxFault::BadDate)
    } else {
        match cf {
            None => Err(TxFault::UnknownCurrency(body.currency_id@)),
            Some(cf) => match fold_splits(body.splits@, cf as int, afs) {
                Err(e) => Err(e),
                Ok((rows, sum)) => if sum.0 != 0 {
                    Err(TxFault::Unbalanced(sum.0, sum.1))
                } else {
                    Ok(rows)
                },
            },
        }
    }
}

/// A split's checked amounts: value (currency) and quantity (account
/// commodity), and its reconcile state (`n` where none was given).
pub struct SplitAmounts {
    pub value: (i64, i64),
    pub quantity: (i64, i64),
    pub reconcile_state: String,
}

pub open spec fn amounts_view(a: SplitAmounts) -> ((int, int), (int, int)) {
    ((a.value.0 as int, a.value.1 as int), (a.quantity.0 as int, a.quantity.1 as int))
}

proof fn lemma_fold_err_stays(sps: Seq<SplitIn>, cf: int, afs: Seq<Option<i64>>, k: int)
    requires
        0 <= k <= sps.len(),
        fold_splits(sps.take(k), cf, afs) is Err,
    ensures
        fold_splits(sps, cf, afs) == fold_splits(sps.take(k), cf, afs),
    decreases sps.len() - k,
{
    if k < sps.len() {
        assert(sps.take(k + 1).drop_last() =~= sps.take(k));
        lemma_fold_err_stays(sps, cf, afs, k + 1);
    } else {
        assert(sps.take(k) =~= sps);
    }
}

fn check_split(sp: &SplitIn, cf: i64, afo: Option<i64>, sum: (i128, i128)) -> (r: Result<((i64, i64), (i64, i64), (i128, i128)), TxError>)
    ensures
        match r {
            Ok((v, q, s2)) => split_step(pair_view(sum), *sp, cf as int, afo) == Ok::<
                (((int, int), (int, int)), (int, int)),
                TxFault,
            >((((v.0 as int, v.1 as int), (q.0 as int, q.1 as int)), pair_view(s2))),
            Err(e) => split_step(pair_view(sum), *sp, cf as int, afo) == Err::<
                (((int, int), (int, int)), (int, int)),
                TxFault,
            >(e@),
        },
{
    let af = match afo {
        None => {
            return Err(TxError::UnknownAccount(sp.account_id.clone()));
        },
        Some(af) => af,
    };
    let value = match parse_or_overflow(sp.value.as_str(), cf) {
        Ok(v) => v,
        Err(e) => {
            return Err(TxError::Amount(e));
        },
    };
    let qtext = match &sp.quantity {
        Some(q) => q.as_str(),
        None => sp.value.as_str(),
    };
    assert(qtext@ == match sp.quantity {
        Some(q) => q@,
        None => sp.value@,
    });
    let quantity = match parse_or_overflow(qtext, af) {
        Ok(q) => q,
        Err(e) => {
            return Err(TxError::Amount(e));
        },
    };
    match checked_add(sum, (value.0 as i128, value.1 as i128)) {
        Some(s2) => Ok((value, quantity, s2)),
        None => Err(TxError::Overflow),
    }
}

/// Check a transaction before it is stored. `currency_fraction` is the
/// fraction of its currency (`None` where the currency is unknown);
/// `account_fractions[i]` that of split `i`'s account (`None` where the
/// account is unknown; 100 for an account without commodity).
pub fn check_tx(body: &TxIn, currency_fraction: Option<i64>, account_fractions: &Vec<Option<i64>>) -> (r: Result<Vec<SplitAmounts>, TxError>)
    requires
        account_fractions.len() == body.splits.len(),
    ensures
        match r {
            Ok(rows) => {
                &&& check_tx_spec(*body, currency_fraction, account_fractions@) == Ok::<
                    Seq<((int, int), (int, int))>,
                    TxFault,
                >(rows@.map_values(|a: SplitAmounts| amounts_view(a)))
                &&& forall|i: int|
                    0 <= i < rows.len() ==> (#[trigger] rows@[i]).reconcile_state@ == match body.splits@[i].reconcile_state {
                        Some(s) => s@,
                        None => "n"@,
                    }
            },
            Err(e) => check_tx_spec(*body, currency_fraction, account_fractions@) == Err::<
                Seq<((int, int), (int, int))>,
                TxFault,
            >(e@),
        },
{
    if body.splits.len() < 2 {
        return Err(TxError::TooFewSplits);
    }
    if !iso_date(body.date_posted.as_str()) {
        return Err(TxError::BadDate);
    }
    let cf = match currency_fraction {
        None => {
            return Err(TxError::UnknownCurrency(body.currency_id.clone()));
        },
        Some(cf) => cf,
    };
    let ghost sps = body.splits@;
    let ghost afs = account_fractions@;
    let mut rows: Vec<SplitAmounts> = Vec::new();
    let mut sum: (i128, i128) = (0, 1);
    let mut i: usize = 0;
    assert(sps.take(0) =~= Seq::<SplitIn>::empty());
    assert(rows@.map_values(|a: SplitAmounts| amounts_view(a)) =~= Seq::<((int, int), (int, int))>::empty());
    while i < body.splits.len()
        invariant
            i <= body.splits.len(),
            sps == body.splits@,
            afs == account_fractions@,
            afs.len() == sps.len(),
            sps.len() >= 2,
            is_iso_date(body.date_posted@),
            currency_fraction == Some(cf),
            rows.len() == i,
            fold_splits(sps.take(i as int), cf as int, afs) == Ok::<
                (Seq<((int, int), (int, int))>, (int, int)),
                TxFault,
            >((rows@.map_values(|a: SplitAmounts| amounts_view(a)), pair_view(sum))),
            forall|j: int|
                0 <= j < rows.len() ==> (#[trigger] rows@[j]).reconcile_state@ == match sps[j].reconcile_state {
                    Some(s) => s@,
                    None => "n"@,
                },
        decreases body.splits.len() - i,
    {
        let sp = &body.splits[i];
        let ghost pre = sps.take(i as int);
        let ghost cur = sps.take(i + 1);
        assert(cur.drop_last() =~= pre);
        assert(cur.last() == sps[i as int]);
        let (value, quantity, next) = match check_split(sp, cf, account_fractions[i], sum) {
            Ok(x) => x,
            Err(e) => {
                proof {
                    assert(cur.len() - 1 == i);
                    assert(afs[cur.len() - 1] == account_fractions@[i as int]);
                    assert(fold_splits(cur, cf as int, afs) == Err::<
                        (Seq<((int, int), (int, int))>, (int, int)),
                        TxFault,
                    >(e@));
                    lemma_fold_err_stays(sps, cf as int, afs, i + 1);
                }
                return Err(e);
            },
        };
        proof {
            assert(cur.len() - 1 == i);
            assert(afs[cur.len() - 1] == account_fractions@[i as int]);
        }
        sum = next;
        let reconcile_state = match &sp.reconcile_state {
            Some(s) => s.clone(),
            None => owned("n"),
        };
        assert(reconcile_state@ == match sps[i as int].reconcile_state {
            Some(s) => s@,
            None => "n"@,
        });
        let ghost before = rows@.map_values(|a: SplitAmounts| amounts_view(a));
        let ghost old_rows = rows@;
        assert(forall|j: int|
            0 <= j < old_rows.len() ==> (#[trigger] old_rows[j]).reconcile_state@ == match sps[j].reconcile_state {
                Some(s) => s@,
                None => "n"@,
            });
        let ghost rs = reconcile_state@;
        rows.push(SplitAmounts { value, quantity, reconcile_state });
        assert forall|j: int| 0 <= j < rows.len() implies (#[trigger] rows@[j]).reconcile_state@ == match sps[j].reconcile_state {
            Some(s) => s@,
            None => "n"@,
        } by {
            if j < old_rows.len() {
                assert(rows@[j] == old_rows[j]);
            } else {
                assert(rows@[j].reconcile_state@ == rs);
            }
        }
        assert(rows@.map_values(|a: SplitAmounts| amounts_view(a)) =~= before.push(
            ((value.0 as int, value.1 as int), (quantity.0 as int, quantity.1 as int)),
        ));
        i += 1;
    }
    assert(sps.take(i as int) =~= sps);
    if sum.0 != 0 {
        return Err(TxError::Unbalanced(sum.0, sum.1));
    }
    Ok(rows)
}


// ---------------------------------------------------------------------------
// The register
// ---------------------------------------------------------------------------

/// A split of the register's account, in register order (date posted,
/// date entered, transaction id), with its transaction.
pub struct RegisterRow {
    pub tx_id: String,
    pub quantity_num: i64,
    pub quantity_denom: i64,
}

/// An entry of the register: the row it shows, the balance after it, and
/// the splits of its transaction (indices into the transaction splits).
pub struct RegisterEntry {
    pub row: usize,
    pub running: (i128, i128),
    pub siblings: Vec<usize>,
}

pub open spec fn reg_amounts(rows: Seq<RegisterRow>) -> Seq<(int, int)> {
    rows.map_values(|r: RegisterRow| (r.quantity_num as int, r.quantity_denom as int))
}

/// `idx` lists, in increasing order, exactly the indices of `ids` equal
/// to `t`.
pub open spec fn all_with(idx: Seq<usize>, ids: Seq<Seq<char>>, t: Seq<char>) -> bool {
    &&& forall|k: int| 0 <= k < idx.len() ==> #[trigger] idx[k] < ids.len() && ids[idx[k] as int] == t
    &&& forall|a: int, b: int| 0 <= a < b < idx.len() ==> idx[a] < idx[b]
    &&& forall|j: int| 0 <= j < ids.len() && ids[j] == t ==> #[trigger] idx.contains(j as usize)
}

fn indices_with(ids: &Vec<String>, t: &String) -> (idx: Vec<usize>)
    ensures
        all_with(idx@, ids@.map_values(|x: String| x@), t@),
{
    let ghost v = ids@.map_values(|x: String| x@);
    let mut idx: Vec<usize> = Vec::new();
    let mut j: usize = 0;
    while j < ids.len()
        invariant
            j <= ids.len(),
            v == ids@.map_values(|x: String| x@),
            forall|k: int| 0 <= k < idx.len() ==> #[trigger] idx@[k] < j && v[idx@[k] as int] == t@,
            forall|a: int, b: int| 0 <= a < b < idx.len() ==> idx@[a] < idx@[b],
            forall|q: int| 0 <= q < j && v[q] == t@ ==> #[trigger] idx@.contains(q as usize),
        decreases ids.len() - j,
    {
        if crate::order::str_eq(&ids[j], t) {
            let ghost before = idx@;
            idx.push(j);
            proof {
                assert(idx@ == before.push(j));
                assert forall|q: int| 0 <= q < j + 1 && v[q] == t@ implies #[trigger] idx@.contains(q as usize) by {
                    if q < j {
                        assert(before.contains(q as usize));
                        let k = choose|k: int| 0 <= k < before.len() && before[k] == q as usize;
                        assert(idx@[k] == q as usize);
                    } else {
                        assert(idx@[idx.len() - 1] == j);
                    }
                }
            }
        }
        j += 1;
    }
    idx
}

/// The register of an account: for each of its splits (`rows`, in
/// register order) the running balance from `0/1` and the splits of the
/// same transaction among `split_tx_ids` (the transaction of each split
/// of those transactions, in storage order). `None` where a running
/// balance cannot be formed.
pub fn register_entries(rows: &Vec<RegisterRow>, split_tx_ids: &Vec<String>) -> (r: Option<Vec<RegisterEntry>>)
    ensures
        r is Some <==> crate::account_report::sums_from((0, 1), reg_amounts(rows@)) is Some,
        r matches Some(es) ==> {
            &&& es.len() == rows.len()
            &&& crate::account_report::sums_from((0, 1), reg_amounts(rows@)) == Some(
                es@.map_values(|e: RegisterEntry| pair_view(e.running)),
            )
            &&& forall|k: int|
                0 <= k < es.len() ==> (#[trigger] es@[k]).row == k && all_with(
                    es@[k].siblings@,
                    split_tx_ids@.map_values(|x: String| x@),
                    rows@[k].tx_id@,
                )
        },
{
    let ghost amts = reg_amounts(rows@);
    let mut es: Vec<RegisterEntry> = Vec::new();
    let mut acc: (i128, i128) = (0, 1);
    let mut k: usize = 0;
    assert(amts.skip(0) =~= amts);
    assert(es@.map_values(|e: RegisterEntry| pair_view(e.running)) =~= Seq::<(int, int)>::empty());
    while k < rows.len()
        invariant
            k <= rows.len(),
            amts == reg_amounts(rows@),
            es.len() == k,
            forall|j: int|
                0 <= j < k ==> (#[trigger] es@[j]).row == j && all_with(
                    es@[j].siblings@,
                    split_tx_ids@.map_values(|x: String| x@),
                    rows@[j].tx_id@,
                ),
            k > 0 ==> acc == es@[k - 1].running,
            k == 0 ==> acc == (0i128, 1i128),
            crate::account_report::sums_from((0, 1), amts) == match crate::account_report::sums_from(pair_view(acc), amts.skip(k as int)) {
                Some(rest) => Some(es@.map_values(|e: RegisterEntry| pair_view(e.running)) + rest),
                None => None::<Seq<(int, int)>>,
            },
        decreases rows.len() - k,
    {
        let r = &rows[k];
        let amount = (r.quantity_num as i128, r.quantity_denom as i128);
        let ghost tail = amts.skip(k as int);
        assert(tail[0] == pair_view(amount));
        assert(tail.drop_first() =~= amts.skip(k + 1));
        match checked_add(acc, amount) {
            None => {
                return None;
            },
            Some(next) => {
                let siblings = indices_with(split_tx_ids, &r.tx_id);
                let ghost before = es@.map_values(|e: RegisterEntry| pair_view(e.running));
                let ghost old_es = es@;
                es.push(RegisterEntry { row: k, running: next, siblings });
                assert(es@.map_values(|e: RegisterEntry| pair_view(e.running)) =~= before.push(pair_view(next)));
                assert forall|j: int| 0 <= j < k + 1 implies (#[trigger] es@[j]).row == j && all_with(
                    es@[j].siblings@,
                    split_tx_ids@.map_values(|x: String| x@),
                    rows@[j].tx_id@,
                ) by {
                    if j < k {
                        assert(es@[j] == old_es[j]);
                    }
                }
                proof {
                    let r2 = crate::account_report::sums_from(pair_view(next), amts.skip(k + 1));
                    if let Some(rest) = r2 {
                        assert(before + (seq![pair_view(next)] + rest) =~= es@.map_values(
                            |e: RegisterEntry| pair_view(e.running),
                        ) + rest);
                    }
                }
                acc = next;
            },
        }
        k += 1;
    }
    assert(amts.skip(k as int) =~= Seq::<(int, int)>::empty());
    assert(es@.map_values(|e: RegisterEntry| pair_view(e.running)) + Seq::<(int, int)>::empty()
        =~= es@.map_values(|e: RegisterEntry| pair_view(e.running)));
    Some(es)
}


// ---------------------------------------------------------------------------
// The account list
// ---------------------------------------------------------------------------

/// What the account list orders and totals by.
pub struct AccountKey {
    pub id: String,
    pub code: Option<String>,
    pub name: String,
}

/// An account of the list: its row, its balance in its own commodity and
/// its number of splits.
pub struct ListedAccount {
    pub row: usize,
    pub balance: (i128, i128),
    pub tx_count: usize,
}

/// Some entry of the list shows row `i`.
pub open spec fn lists_row(out: Seq<ListedAccount>, i: int) -> bool {
    exists|k: int| 0 <= k < out.len() && out[k].row == i
}

/// The number of splits of account `id`.
pub open spec fn split_count(splits: Seq<crate::book::SplitQty>, id: Seq<char>) -> int
    decreases splits.len(),
{
    if splits.len() == 0 {
        0
    } else {
        split_count(splits.drop_last(), id) + if splits.last().account_id@ == id {
            1int
        } else {
            0int
        }
    }
}

/// The balance the list shows: `0/100` for an account without splits,
/// else the sum of its splits' quantities.
pub open spec fn listed_balance(splits: Seq<crate::book::SplitQty>, id: Seq<char>) -> Option<(int, int)> {
    if split_count(splits, id) == 0 {
        Some((0, 100))
    } else {
        crate::book::balance_spec(splits, id)
    }
}

pub open spec fn account_key(a: AccountKey) -> Seq<Option<Seq<char>>> {
    seq![crate::order::opt_view(a.code), Some(a.name@)]
}

fn count_splits(splits: &Vec<crate::book::SplitQty>, id: &String) -> (n: usize)
    ensures
        n == split_count(splits@, id@),
{
    let mut n: usize = 0;
    let mut i: usize = 0;
    assert(splits@.take(0) =~= Seq::<crate::book::SplitQty>::empty());
    while i < splits.len()
        invariant
            i <= splits.len(),
            n == split_count(splits@.take(i as int), id@),
            n <= i,
        decreases splits.len() - i,
    {
        assert(splits@.take(i + 1).drop_last() =~= splits@.take(i as int));
        if crate::order::str_eq(&splits[i].account_id, id) {
            n += 1;
        }
        i += 1;
    }
    assert(splits@.take(i as int) =~= splits@);
    n
}

/// The accounts with their balances and split counts, ordered by code,
/// then name. `None` where an account's balance cannot be formed.
pub fn list_accounts(accounts: &Vec<AccountKey>, splits: &Vec<crate::book::SplitQty>) -> (r: Option<Vec<ListedAccount>>)
    ensures
        r is None <==> exists|i: int|
            0 <= i < accounts.len() && #[trigger] listed_balance(splits@, accounts@[i].id@) is None,
        r matches Some(out) ==> {
            &&& out.len() == accounts.len()
            &&& forall|i: int| 0 <= i < accounts.len() ==> #[trigger] lists_row(out@, i)
            &&& forall|a: int, b: int| 0 <= a < b < out.len() ==> out@[a].row != out@[b].row
            &&& forall|k: int|
                0 <= k < out.len() ==> {
                    let e = #[trigger] out@[k];
                    &&& e.row < accounts.len()
                    &&& listed_balance(splits@, accounts@[e.row as int].id@) == Some(pair_view(e.balance))
                    &&& e.tx_count == split_count(splits@, accounts@[e.row as int].id@)
                }
            &&& forall|a: int, b: int|
                0 <= a < b < out.len() ==> crate::order::key_le(
                    account_key(accounts@[out@[a].row as int]),
                    account_key(accounts@[out@[b].row as int]),
                )
        },
{
    let n = accounts.len();
    let mut bals: Vec<(i128, i128)> = Vec::new();
    let mut counts: Vec<usize> = Vec::new();
    let mut keys: Vec<crate::order::Key> = Vec::new();
    let mut all: Vec<usize> = Vec::new();
    while bals.len() < n
        invariant
            bals.len() <= n,
            n == accounts.len(),
            counts.len() == bals.len(),
            keys.len() == bals.len(),
            all.len() == bals.len(),
            forall|i: int| 0 <= i < bals.len() ==> #[trigger] all@[i] == i,
            forall|i: int|
                0 <= i < bals.len() ==> listed_balance(splits@, accounts@[i].id@) == Some(
                    pair_view(#[trigger] bals@[i]),
                ),
            forall|i: int| 0 <= i < bals.len() ==> #[trigger] counts@[i] == split_count(splits@, accounts@[i].id@),
            forall|i: int| 0 <= i < bals.len() ==> #[trigger] crate::order::key_view(keys@[i]) == account_key(accounts@[i]),
            forall|i: int| 0 <= i < bals.len() ==> (#[trigger] keys@[i]).len() == 2,
        decreases n - bals.len(),
    {
        let i = bals.len();
        let a = &accounts[i];
        let c = count_splits(splits, &a.id);
        let b = if c == 0 {
            (0i128, 100i128)
        } else {
            match crate::book::balance_of(splits, &a.id) {
                Some(b) => b,
                None => {
                    assert(listed_balance(splits@, accounts@[i as int].id@) is None);
                    return None;
                },
            }
        };
        bals.push(b);
        counts.push(c);
        let k: crate::order::Key = vec![crate::book::clone_opt(&a.code), Some(a.name.clone())];
        assert(crate::order::key_view(k) =~= account_key(*a));
        keys.push(k);
        all.push(i);
    }
    proof {
        assert forall|a: int, b: int|
            0 <= a < keys.len() && 0 <= b < keys.len() implies (#[trigger] keys@[a]).len() == (
            #[trigger] keys@[b]).len() by {}
    }
    let order = crate::order::sort_indices(&all, &keys);
    let mut out: Vec<ListedAccount> = Vec::new();
    let mut k: usize = 0;
    while k < order.len()
        invariant
            k <= order.len(),
            order.len() == n,
            n == accounts.len(),
            bals.len() == n,
            counts.len() == n,
            keys.len() == n,
            out.len() == k,
            crate::order::sorted_by_keys(order@, keys@),
            forall|i: int|
                0 <= i < n ==> listed_balance(splits@, accounts@[i].id@) == Some(
                    pair_view(#[trigger] bals@[i]),
                ),
            forall|i: int| 0 <= i < n ==> #[trigger] counts@[i] == split_count(splits@, accounts@[i].id@),
            forall|j: int| 0 <= j < k ==> (#[trigger] out@[j]).row == order@[j],
            forall|j: int|
                0 <= j < k ==> {
                    let e = #[trigger] out@[j];
                    &&& e.row < n
                    &&& listed_balance(splits@, accounts@[e.row as int].id@) == Some(pair_view(e.balance))
                    &&& e.tx_count == split_count(splits@, accounts@[e.row as int].id@)
                },
        decreases order.len() - k,
    {
        let i = order[k];
        assert(order@[k as int] < keys.len());
        let ghost old_out = out@;
        out.push(ListedAccount { row: i, balance: bals[i], tx_count: counts[i] });
        assert forall|j: int| 0 <= j < k + 1 implies (#[trigger] out@[j]).row == order@[j] by {
            if j < k {
                assert(out@[j] == old_out[j]);
            }
        }
        assert forall|j: int| 0 <= j < k + 1 implies {
            let e = #[trigger] out@[j];
            &&& e.row < n
            &&& listed_balance(splits@, accounts@[e.row as int].id@) == Some(pair_view(e.balance))
            &&& e.tx_count == split_count(splits@, accounts@[e.row as int].id@)
        } by {
            if j < k {
                assert(out@[j] == old_out[j]);
            }
        }
        k += 1;
    }
    proof {
        assert forall|i: int| 0 <= i < n implies !(#[trigger] listed_balance(splits@, accounts@[i].id@) is None) by {
            assert(listed_balance(splits@, accounts@[i].id@) == Some(pair_view(bals@[i])));
        }
        assert forall|i: int| 0 <= i < accounts.len() implies #[trigger] lists_row(out@, i) by {
            assert(all@.to_multiset().count(i as usize) >= 1) by {
                assert(all@[i] == i as usize);
                assert(all@.contains(i as usize));
            }
            assert(order@.to_multiset().count(i as usize) >= 1);
            assert(order@.contains(i as usize));
            let k = choose|k: int| 0 <= k < order.len() && order@[k] == i as usize;
            assert(out@[k].row == i);
            assert(lists_row(out@, i));
        }
        assert forall|a: int, b: int| 0 <= a < b < out.len() implies out@[a].row != out@[b].row by {
            if order@[a] == order@[b] {
                crate::account_report::lemma_count_two(order@, a, b);
                crate::account_report::lemma_distinct_count(all@, order@[a]);
            }
        }
        assert forall|a: int, b: int| 0 <= a < b < out.len() implies crate::order::key_le(
            account_key(accounts@[out@[a].row as int]),
            account_key(accounts@[out@[b].row as int]),
        ) by {
            assert(crate::order::key_le(
                crate::order::key_view(keys@[order@[a] as int]),
                crate::order::key_view(keys@[order@[b] as int]),
            ));
        }
    }
    Some(out)
}


// ---------------------------------------------------------------------------
// Account checks
// ---------------------------------------------------------------------------

/// An account as entered.
pub struct AccountIn {
    pub name: String,
    pub kind: String,
    pub commodity_id: String,
    pub parent_id: Option<String>,
    pub code: Option<String>,
    pub description: Option<String>,
    pub placeholder: bool,
    pub hidden: bool,
}

/// An account and its parent, as stored.
pub struct ParentLink {
    pub id: String,
    pub parent_id: Option<String>,
}

/// Why an account change was refused.
pub enum AccountError {
    /// The name is empty once trimmed.
    NameRequired,
    /// The type (as given) is not one of the account types.
    BadKind(String),
    /// The commodity (its id) is not known.
    UnknownCommodity(String),
    /// The parent chain passes through the account itself.
    Cycle,
    /// A parent (its id) is not a known account.
    UnknownParent(String),
    /// More than 100 ancestors.
    TooDeep,
    /// The account does not exist.
    NotFound,
    /// The commodity of an account with splits would change.
    CommodityChange,
    /// The account still has splits (their number).
    HasSplits(i64),
    /// The account still has child accounts (their number).
    HasChildren(i64),
}

pub enum AccountFault {
    NameRequired,
    BadKind(Seq<char>),
    UnknownCommodity(Seq<char>),
    Cycle,
    UnknownParent(Seq<char>),
    TooDeep,
    NotFound,
    CommodityChange,
    HasSplits(int),
    HasChildren(int),
}

impl View for AccountError {
    type V = AccountFault;

    open spec fn view(&self) -> AccountFault {
        match self {
            AccountError::NameRequired => AccountFault::NameRequired,
            AccountError::BadKind(k) => AccountFault::BadKind(k@),
            AccountError::UnknownCommodity(c) => AccountFault::UnknownCommodity(c@),
            AccountError::Cycle => AccountFault::Cycle,
            AccountError::UnknownParent(p) => AccountFault::UnknownParent(p@),
            AccountError::TooDeep => AccountFault::TooDeep,
            AccountError::NotFound => AccountFault::NotFound,
            AccountError::CommodityChange => AccountFault::CommodityChange,
            AccountError::HasSplits(n) => AccountFault::HasSplits(*n as int),
            AccountError::HasChildren(n) => AccountFault::HasChildren(*n as int),
        }
    }
}

/// The account types an account may have.
pub open spec fn kind_ok(k: Seq<char>) -> bool {
    k == "ASSET"@ || k == "BANK"@ || k == "CASH"@ || k == "LIABILITY"@ || k == "CREDIT"@ || k
        == "INCOME"@ || k == "EXPENSE"@ || k == "EQUITY"@ || k == "TRADING"@
}

/// The parent of the first stored account with id `id` (`None` where
/// there is no such account).
pub open spec fn lookup(links: Seq<ParentLink>, id: Seq<char>, from: int) -> Option<Option<Seq<char>>>
    decreases links.len() - from,
{
    if from < 0 || from >= links.len() {
        None
    } else if links[from].id@ == id {
        Some(crate::order::opt_view(links[from].parent_id))
    } else {
        lookup(links, id, from + 1)
    }
}

/// The walk up the parent chain from `cur`, `hops` parents in: it must
/// not reach the account itself, must find each parent, and must end
/// within 100 parents.
pub open spec fn walk_spec(links: Seq<ParentLink>, self_id: Option<Seq<char>>, cur: Option<Seq<char>>, hops: int) -> Result<(), AccountFault>
    decreases 101 - hops,
{
    match cur {
        None => Ok(()),
        Some(id) => if self_id == Some(id) {
            Err(AccountFault::Cycle)
        } else {
            match lookup(links, id, 0) {
                None => Err(AccountFault::UnknownParent(id)),
                Some(p) => if hops + 1 > 100 || hops < 0 {
                    Err(AccountFault::TooDeep)
                } else {
                    walk_spec(links, self_id, p, hops + 1)
                },
            }
        },
    }
}

/// What checking an account gives.
pub open spec fn validate_spec(body: AccountIn, commodity_known: bool, self_id: Option<Seq<char>>, links: Seq<ParentLink>) -> Result<(), AccountFault> {
    if crate::text::trim(body.name@).len() == 0 {
        Err(AccountFault::NameRequired)
    } else if !kind_ok(body.kind@) {
        Err(AccountFault::BadKind(body.kind@))
    } else if !commodity_known {
        Err(AccountFault::UnknownCommodity(body.commodity_id@))
    } else {
        walk_spec(links, self_id, crate::order::opt_view(body.parent_id), 0)
    }
}

/// The nine account types are the ones accepted: an account with a name
/// that is not blank, a known commodity and no parent is accepted exactly
/// when its type is ASSET, BANK, CASH, LIABILITY, CREDIT, INCOME, EXPENSE,
/// EQUITY or TRADING; any other type is refused as not an account type.
pub proof fn lemma_account_types(
    body: AccountIn,
    self_id: Option<Seq<char>>,
    links: Seq<ParentLink>,
)
    requires
        crate::text::trim(body.name@).len() > 0,
        body.parent_id is None,
    ensures
        validate_spec(body, true, self_id, links) is Ok <==> (body.kind@ == "ASSET"@ || body.kind@
            == "BANK"@ || body.kind@ == "CASH"@ || body.kind@ == "LIABILITY"@ || body.kind@
            == "CREDIT"@ || body.kind@ == "INCOME"@ || body.kind@ == "EXPENSE"@ || body.kind@
            == "EQUITY"@ || body.kind@ == "TRADING"@),
        !(body.kind@ == "ASSET"@ || body.kind@ == "BANK"@ || body.kind@ == "CASH"@ || body.kind@
            == "LIABILITY"@ || body.kind@ == "CREDIT"@ || body.kind@ == "INCOME"@ || body.kind@
            == "EXPENSE"@ || body.kind@ == "EQUITY"@ || body.kind@ == "TRADING"@)
            ==> validate_spec(body, true, self_id, links) == Err::<(), AccountFault>(
            AccountFault::BadKind(body.kind@),
        ),
{
    assert(crate::order::opt_view(body.parent_id) is None);
}

fn lookup_exec(links: &Vec<ParentLink>, id: &String) -> (r: Option<Option<String>>)
    ensures
        match r {
            Some(p) => lookup(links@, id@, 0) == Some(crate::order::opt_view(p)),
            None => lookup(links@, id@, 0) is None,
        },
{
    let mut j: usize = 0;
    while j < links.len()
        invariant
            j <= links.len(),
            lookup(links@, id@, 0) == lookup(links@, id@, j as int),
        decreases links.len() - j,
    {
        if crate::order::str_eq(&links[j].id, id) {
            return Some(crate::book::clone_opt(&links[j].parent_id));
        }
        j += 1;
    }
    None
}

fn opt_eq_str(a: &Option<String>, b: &String) -> (r: bool)
    ensures
        r == (crate::order::opt_view(*a) == Some(b@)),
{
    match a {
        Some(x) => crate::order::str_eq(x, b),
        None => false,
    }
}

/// Check an account before it is created (`self_id` `None`) or updated:
/// a name, a known type, a known commodity (`commodity_known`), and a
/// parent chain through the stored accounts `links` that exists, does
/// not pass through the account itself and ends within 100 parents.
pub fn validate_account(body: &AccountIn, commodity_known: bool, self_id: &Option<String>, links: &Vec<ParentLink>) -> (r: Result<(), AccountError>)
    ensures
        match r {
            Ok(()) => validate_spec(*body, commodity_known, crate::order::opt_view(*self_id), links@)
                == Ok::<(), AccountFault>(()),
            Err(e) => validate_spec(*body, commodity_known, crate::order::opt_view(*self_id), links@)
                == Err::<(), AccountFault>(e@),
        },
{
    if crate::text::trim_chars(&chars_of(body.name.as_str())).len() == 0 {
        return Err(AccountError::NameRequired);
    }
    let k = &body.kind;
    let ok = string_is(k, "ASSET") || string_is(k, "BANK") || string_is(k, "CASH") || string_is(
        k,
        "LIABILITY",
    ) || string_is(k, "CREDIT") || string_is(k, "INCOME") || string_is(k, "EXPENSE") || string_is(
        k,
        "EQUITY",
    ) || string_is(k, "TRADING");
    if !ok {
        return Err(AccountError::BadKind(body.kind.clone()));
    }
    if !commodity_known {
        return Err(AccountError::UnknownCommodity(body.commodity_id.clone()));
    }
    let ghost sid = crate::order::opt_view(*self_id);
    assert(validate_spec(*body, commodity_known, sid, links@) == walk_spec(
        links@,
        sid,
        crate::order::opt_view(body.parent_id),
        0,
    ));
    let mut cur = crate::book::clone_opt(&body.parent_id);
    let mut hops: u32 = 0;
    while cur.is_some()
        invariant
            hops <= 100,
            walk_spec(links@, sid, crate::order::opt_view(body.parent_id), 0) == walk_spec(
                links@,
                sid,
                crate::order::opt_view(cur),
                hops as int,
            ),
            sid == crate::order::opt_view(*self_id),
            validate_spec(*body, commodity_known, sid, links@) == walk_spec(
                links@,
                sid,
                crate::order::opt_view(body.parent_id),
                0,
            ),
        decreases 101 - hops,
    {
        let id = match &cur {
            Some(id) => id.clone(),
            None => String::new(),
        };
        assert(crate::order::opt_view(cur) == Some(id@));
        if opt_eq_str(self_id, &id) {
            return Err(AccountError::Cycle);
        }
        let p = match lookup_exec(links, &id) {
            None => {
                return Err(AccountError::UnknownParent(id));
            },
            Some(p) => p,
        };
        if hops + 1 > 100 {
            return Err(AccountError::TooDeep);
        }
        cur = p;
        hops += 1;
    }
    Ok(())
}

/// An account with splits keeps its commodity: `split_count` is its
/// number of splits, `old_commodity` its stored commodity (`None` where
/// the account does not exist).
pub fn check_commodity_change(split_count: i64, old_commodity: &Option<Option<String>>, new_commodity: &String) -> (r: Result<(), AccountError>)
    ensures
        split_count <= 0 ==> r is Ok,
        split_count > 0 ==> match old_commodity {
            None => (r matches Err(e) && e is NotFound),
            Some(o) => if crate::order::opt_view(*o) == Some(new_commodity@) {
                r is Ok
            } else {
                (r matches Err(e) && e is CommodityChange)
            },
        },
{
    if split_count > 0 {
        match old_commodity {
            None => {
                return Err(AccountError::NotFound);
            },
            Some(o) => if !opt_eq_str(o, new_commodity) {
                return Err(AccountError::CommodityChange);
            },
        }
    }
    Ok(())
}

/// An account can be deleted once it has neither splits nor children.
pub fn check_delete(split_count: i64, child_count: i64) -> (r: Result<(), AccountError>)
    ensures
        split_count > 0 ==> (r matches Err(e) && e@ == AccountFault::HasSplits(split_count as int)),
        split_count <= 0 && child_count > 0 ==> (r matches Err(e) && e@ == AccountFault::HasChildren(
            child_count as int,
        )),
        split_count <= 0 && child_count <= 0 ==> r is Ok,
{
    if split_count > 0 {
        return Err(AccountError::HasSplits(split_count));
    }
    if child_count > 0 {
        return Err(AccountError::HasChildren(child_count));
    }
    Ok(())
}


// ---------------------------------------------------------------------------
// The web-asset hash
// ---------------------------------------------------------------------------

pub open spec fn sorted_u64(s: Seq<u64>) -> bool {
    forall|i: int, j: int| 0 <= i <= j < s.len() ==> s[i] <= s[j]
}

/// `v` in ascending order (insertion sort).
pub fn sort_u64(v: &Vec<u64>) -> (r: Vec<u64>)
    ensures
        sorted_u64(r@),
        r@.to_multiset() == v@.to_multiset(),
{
    let mut r: Vec<u64> = Vec::new();
    let mut n: usize = 0;
    assert(v@.take(0) =~= Seq::<u64>::empty());
    while n < v.len()
        invariant
            n <= v.len(),
            r.len() == n,
            sorted_u64(r@),
            r@.to_multiset() == v@.take(n as int).to_multiset(),
        decreases v.len() - n,
    {
        let x = v[n];
        let mut p = r.len();
        while p > 0 && x < r[p - 1]
            invariant
                p <= r.len(),
                forall|q: int| p <= q < r.len() ==> x < #[trigger] r@[q],
            decreases p,
        {
            p -= 1;
        }
        let ghost old_r = r@;
        r.insert(p, x);
        proof {
            assert(r@ == old_r.insert(p as int, x));
            vstd::seq_lib::to_multiset_insert(old_r, p as int, x);
            assert(v@.take(n + 1) =~= v@.take(n as int).push(x));
            assert forall|i: int, j: int| 0 <= i <= j < r.len() implies r@[i] <= r@[j] by {
                if i < p && j == p {
                    assert(r@[i] == old_r[i]);
                    if p > 0 {
                        assert(old_r[i] <= old_r[p - 1]);
                    }
                } else if i == p && j > p {
                    assert(r@[j] == old_r[j - 1]);
                } else if i < p && j > p {
                    assert(r@[i] == old_r[i]);
                    assert(r@[j] == old_r[j - 1]);
                } else if j < p {
                    assert(r@[i] == old_r[i]);
                    assert(r@[j] == old_r[j]);
                } else if i > p {
                    assert(r@[i] == old_r[i - 1]);
                    assert(r@[j] == old_r[j - 1]);
                }
            }
        }
        n += 1;
    }
    assert(v@.take(n as int) =~= v@);
    r
}

/// One byte into an FNV-1a (64-bit) hash.
pub open spec fn fnv_byte(h: u64, b: u64) -> u64 {
    (h ^ b).wrapping_mul(0x100000001b3u64)
}

/// Byte `i` of `t` in little-endian order.
pub open spec fn byte_of(t: u64, i: u64) -> u64 {
    (t >> (8 * i) as u64) & 0xffu64
}

/// The bytes `i..8` of `t` into the hash.
pub open spec fn fnv_word(h: u64, t: u64, i: u64) -> u64
    decreases 8 - i,
{
    if i >= 8 {
        h
    } else {
        fnv_word(fnv_byte(h, byte_of(t, i)), t, (i + 1) as u64)
    }
}

/// The values into the hash, each as its eight little-endian bytes.
pub open spec fn fnv_all(h: u64, ts: Seq<u64>) -> u64
    decreases ts.len(),
{
    if ts.len() == 0 {
        h
    } else {
        fnv_all(fnv_word(h, ts[0], 0), ts.drop_first())
    }
}

/// The FNV-1a offset basis.
pub open spec fn fnv_offset() -> u64 {
    0xcbf29ce484222325u64
}

/// Sixteen lower-case hex digits of `h`, most significant first.
pub open spec fn hex16(h: u64) -> Seq<char> {
    Seq::new(16, |i: int| hex_digit(((h >> (4 * (15 - i)) as u64) & 0xfu64) as int))
}

/// The times in ascending order.
pub open spec fn sorted_of(m: Seq<u64>) -> Seq<u64> {
    choose|s: Seq<u64>| sorted_u64(s) && s.to_multiset() == m.to_multiset()
}

/// What `web_hash` returns: FNV-1a over the times in ascending order, in
/// sixteen hex digits.
pub open spec fn web_hash_spec(m: Seq<u64>) -> Seq<char> {
    hex16(fnv_all(fnv_offset(), sorted_of(m)))
}

proof fn lemma_sorted_exists(m: Seq<u64>, s: Seq<u64>)
    requires
        sorted_u64(s),
        s.to_multiset() == m.to_multiset(),
    ensures
        sorted_u64(sorted_of(m)),
        sorted_of(m).to_multiset() == m.to_multiset(),
{
}

/// Two ascending sequences with the same elements are the same sequence.
pub proof fn lemma_sorted_unique(a: Seq<u64>, b: Seq<u64>)
    requires
        sorted_u64(a),
        sorted_u64(b),
        a.to_multiset() == b.to_multiset(),
    ensures
        a == b,
    decreases a.len(),
{
    a.to_multiset_ensures();
    b.to_multiset_ensures();
    if a.len() == 0 {
        assert(a =~= b);
    } else {
        assert(a.contains(a[0]));
        assert(a.to_multiset().count(a[0]) > 0);
        assert(b.to_multiset().count(a[0]) > 0);
        assert(b.contains(a[0]));
        let j = choose|j: int| 0 <= j < b.len() && b[j] == a[0];
        assert(b[0] <= b[j]);
        assert(b.contains(b[0]));
        assert(b.to_multiset().count(b[0]) > 0);
        assert(a.to_multiset().count(b[0]) > 0);
        assert(a.contains(b[0]));
        let i = choose|i: int| 0 <= i < a.len() && a[i] == b[0];
        assert(a[0] <= a[i]);
        assert(a[0] == b[0]);
        let a2 = a.remove(0);
        let b2 = b.remove(0);
        assert(a2 =~= a.drop_first());
        assert(b2 =~= b.drop_first());
        assert(a2.to_multiset() =~= a.to_multiset().remove(a[0]));
        assert(b2.to_multiset() =~= b.to_multiset().remove(b[0]));
        lemma_sorted_unique(a2, b2);
        assert(a =~= b) by {
            assert forall|k: int| 0 <= k < a.len() implies a[k] == b[k] by {
                if k > 0 {
                    assert(a[k] == a2[k - 1]);
                    assert(b[k] == b2[k - 1]);
                }
            }
        }
    }
}

/// The web hash depends only on which times there are, not on the order
/// in which they are listed.
pub proof fn lemma_web_hash_order_free(a: Seq<u64>, b: Seq<u64>)
    requires
        a.to_multiset() == b.to_multiset(),
    ensures
        web_hash_spec(a) == web_hash_spec(b),
{
    assert(sorted_of(a) == sorted_of(b));
}

/// Hash of the web assets' modification times (in seconds since the
/// epoch): FNV-1a over the sorted times, in sixteen hex digits. Lets a
/// client tell that the server runs newer frontend code; a change check,
/// not an integrity check.
pub fn web_hash(mtimes: &Vec<u64>) -> (r: String)
    ensures
        r@ == web_hash_spec(mtimes@),
{
    let sorted = sort_u64(mtimes);
    proof {
        lemma_sorted_exists(mtimes@, sorted@);
        lemma_sorted_unique(sorted@, sorted_of(mtimes@));
    }
    let mut h: u64 = 0xcbf29ce484222325;
    let mut k: usize = 0;
    assert(sorted@.skip(0) =~= sorted@);
    while k < sorted.len()
        invariant
            k <= sorted.len(),
            fnv_all(fnv_offset(), sorted@) == fnv_all(h, sorted@.skip(k as int)),
        decreases sorted.len() - k,
    {
        let t = sorted[k];
        let ghost h0 = h;
        let mut i: u64 = 0;
        while i < 8
            invariant
                i <= 8,
                fnv_word(h0, t, 0) == fnv_word(h, t, i),
            decreases 8 - i,
        {
            let b = (t >> (8 * i)) & 0xff;
            h = (h ^ b).wrapping_mul(0x100000001b3);
            i += 1;
        }
        assert(sorted@.skip(k as int)[0] == t);
        assert(sorted@.skip(k as int).drop_first() =~= sorted@.skip(k + 1));
        k += 1;
    }
    assert(sorted@.skip(k as int) =~= Seq::<u64>::empty());
    let mut out = String::new();
    let mut j: u64 = 0;
    while j < 16
        invariant
            j <= 16,
            out@ == hex16(h).take(j as int),
        decreases 16 - j,
    {
        let d = ((h >> (4 * (15 - j))) & 0xf) as u8;
        assert(((h >> (4 * (15 - j)) as u64) & 0xfu64) < 16) by (bit_vector);
        out.push(hex_char(d));
        assert(out@ =~= hex16(h).take(j + 1));
        j += 1;
    }
    assert(hex16(h).take(16) =~= hex16(h));
    out
}


/// `s` without its leading run of `/`.
pub open spec fn strip_slashes(s: Seq<char>) -> Seq<char>
    decreases s.len(),
{
    if s.len() > 0 && s[0] == '/' {
        strip_slashes(s.drop_first())
    } else {
        s
    }
}

/// The embedded asset a request path asks for: the path without its
/// leading slashes, `index.html` where nothing is left.
pub fn asset_path(path: &str) -> (r: String)
    ensures
        r@ == if strip_slashes(path@).len() == 0 {
            "index.html"@
        } else {
            strip_slashes(path@)
        },
{
    let v = chars_of(path);
    let mut i: usize = 0;
    assert(v@.subrange(0, v.len() as int) =~= v@);
    while i < v.len() && v[i] == '/'
        invariant
            i <= v.len(),
            strip_slashes(path@) == strip_slashes(v@.subrange(i as int, v.len() as int)),
            v@ == path@,
        decreases v.len() - i,
    {
        assert(v@.subrange(i as int, v.len() as int).drop_first() =~= v@.subrange(i + 1, v.len() as int));
        i += 1;
    }
    if i == v.len() {
        owned("index.html")
    } else {
        crate::text::string_of(&crate::text::slice_chars(&v, i, v.len()))
    }
}

// ---------------------------------------------------------------------------
// Laws
// ---------------------------------------------------------------------------

/// The values of checked splits added up in order from `0/1`.
pub open spec fn values_total(rows: Seq<((int, int), (int, int))>) -> (int, int)
    decreases rows.len(),
{
    if rows.len() == 0 {
        (0, 1)
    } else {
        add_spec(values_total(rows.drop_last()), rows.last().0)
    }
}

proof fn lemma_fold_total(sps: Seq<SplitIn>, cf: int, afs: Seq<Option<i64>>)
    ensures
        fold_splits(sps, cf, afs) matches Ok((rows, sum)) ==> sum == values_total(rows)
            && rows.len() == sps.len(),
    decreases sps.len(),
{
    if sps.len() > 0 {
        lemma_fold_total(sps.drop_last(), cf, afs);
        if let Ok((rows, sum)) = fold_splits(sps, cf, afs) {
            let (r0, s0) = fold_splits(sps.drop_last(), cf, afs)->Ok_0;
            assert(rows.drop_last() =~= r0);
        }
    }
}

/// Every transaction that passes the check balances: the values of its
/// splits add up to zero.
pub proof fn lemma_checked_tx_balances(body: TxIn, cf: Option<i64>, afs: Seq<Option<i64>>)
    requires
        check_tx_spec(body, cf, afs) is Ok,
    ensures
        values_total(check_tx_spec(body, cf, afs)->Ok_0).0 == 0,
        check_tx_spec(body, cf, afs)->Ok_0.len() == body.splits.len(),
{
    lemma_fold_total(body.splits@, cf->0 as int, afs);
}

} // verus!
