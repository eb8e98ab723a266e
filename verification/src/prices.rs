//! Planning Bank of Canada exchange-rate fetches: which Valet series and
//! date spans to request for a currency, and which observations become
//! new prices. Prices already present are never overwritten.

use vstd::prelude::*;
use crate::money::{find, find_char, lemma_parse_ok_nonneg, parse, parse_spec, pow10, utf8_len, utf8_len_exec, MoneyError, MoneyFault};
use crate::order::{str_less, str_lt};
use crate::report::{after_last_colon, mnemonic};
use crate::text::{chars_of, owned, slice_chars, string_is};

verus! {

/// A series to request over a span of dates.
pub struct Span {
    pub series: String,
    pub from: String,
    pub to: String,
}

pub open spec fn span_view(s: Span) -> (Seq<char>, Seq<char>, Seq<char>) {
    (s.series@, s.from@, s.to@)
}

/// The spans to request for a currency first used on `start` (if ever),
/// through `end`: the legacy closing rate `IEXE0102` before 2017 (US
/// dollars only), and the daily indicative rate `FX<CUR>CAD` from
/// 2017-01-03 on. Nothing where the currency is unused or first used after
/// `end`.
pub open spec fn spans_spec(currency: Seq<char>, start: Option<Seq<char>>, end: Seq<char>) -> Seq<(Seq<char>, Seq<char>, Seq<char>)> {
    match start {
        None => Seq::empty(),
        Some(st) => if str_lt(end, st) {
            Seq::empty()
        } else {
            let m = after_last_colon(currency);
            let legacy = if str_lt(st, "2017-01-03"@) && m == "USD"@ {
                seq![
                    (
                        "IEXE0102"@,
                        st,
                        if str_lt("2016-12-31"@, end) {
                            "2016-12-31"@
                        } else {
                            end
                        },
                    ),
                ]
            } else {
                Seq::empty()
            };
            let ms = if str_lt(st, "2017-01-03"@) {
                "2017-01-03"@
            } else {
                st
            };
            legacy + if !str_lt(end, ms) {
                seq![("FX"@ + m + "CAD"@, ms, end)]
            } else {
                Seq::empty()
            }
        },
    }
}

fn concat3(a: &str, b: &String, c: &str) -> (r: String)
    ensures
        r@ == a@ + b@ + c@,
{
    let mut r = owned(a);
    r.push_str(b.as_str());
    r.push_str(c);
    r
}

/// The spans to request for `currency` (a commodity id such as
/// `CURRENCY:USD`).
pub fn boc_spans(currency: &String, start: &Option<String>, end: &String) -> (r: Vec<Span>)
    ensures
        r@.map_values(|s: Span| span_view(s)) == spans_spec(
            currency@,
            crate::order::opt_view(*start),
            end@,
        ),
{
    let mut spans: Vec<Span> = Vec::new();
    let st = match start {
        None => {
            return spans;
        },
        Some(st) => st,
    };
    if str_less(end, st) {
        return spans;
    }
    let m = mnemonic(currency);
    let modern = owned("2017-01-03");
    let early = str_less(st, &modern);
    if early && string_is(&m, "USD") {
        let last = owned("2016-12-31");
        let to = if str_less(&last, end) {
            last
        } else {
            end.clone()
        };
        spans.push(Span { series: owned("IEXE0102"), from: st.clone(), to });
    }
    let ghost legacy = spans@.map_values(|s: Span| span_view(s));
    let ms = if early {
        modern
    } else {
        st.clone()
    };
    if !str_less(end, &ms) {
        spans.push(Span { series: concat3("FX", &m, "CAD"), from: ms, to: end.clone() });
    }
    assert(spans@.map_values(|s: Span| span_view(s)) =~= spans_spec(
        currency@,
        crate::order::opt_view(*start),
        end@,
    ));
    spans
}

/// The Valet observations request for a span.
pub open spec fn valet_url_spec(series: Seq<char>, from: Seq<char>, to: Seq<char>) -> Seq<char> {
    "https://www.bankofcanada.ca/valet/observations/"@ + series + "/json?start_date="@ + from
        + "&end_date="@ + to
}

pub fn valet_url(span: &Span) -> (r: String)
    ensures
        r@ == valet_url_spec(span.series@, span.from@, span.to@),
{
    let mut r = owned("https://www.bankofcanada.ca/valet/observations/");
    r.push_str(span.series.as_str());
    r.push_str("/json?start_date=");
    r.push_str(span.from.as_str());
    r.push_str("&end_date=");
    r.push_str(span.to.as_str());
    r
}

/// One observation of a series: its date and its value, where present.
pub struct Observation {
    pub date: Option<String>,
    pub value: Option<String>,
}

/// A price to add: its date and exact value.
pub struct NewPrice {
    pub date: String,
    pub num: i64,
    pub denom: i64,
}

pub open spec fn new_price_view(p: NewPrice) -> (Seq<char>, int, int) {
    (p.date@, p.num as int, p.denom as int)
}

/// The decimal places of a value as written: the bytes between its first
/// `.` and the next one (or the end).
pub open spec fn places(v: Seq<char>) -> int {
    let k = find(v, '.');
    if k < v.len() {
        let rest = v.skip(k + 1);
        utf8_len(rest.take(find(rest, '.')))
    } else {
        0
    }
}

/// What an observation contributes: nothing where its date or value is
/// missing or its date is already priced; else its value parsed with the
/// fraction `10^places`, or the error of that parse (`Overflow` where the
/// fraction itself exceeds 64 bits).
pub open spec fn observation_spec(date: Option<Seq<char>>, value: Option<Seq<char>>, existing: Seq<Seq<char>>) -> Option<Result<(Seq<char>, int, int), MoneyFault>> {
    match (date, value) {
        (Some(d), Some(v)) => if existing.contains(d) {
            None
        } else if places(v) > 18 {
            Some(Err(MoneyFault::Overflow))
        } else {
            match parse_spec(v, pow10(places(v) as nat)) {
                Ok(p) => Some(Ok((d, p.0, p.1))),
                Err(e) => Some(Err(e)),
            }
        },
        _ => None,
    }
}

pub open spec fn obs_view(o: Observation) -> (Option<Seq<char>>, Option<Seq<char>>) {
    (crate::order::opt_view(o.date), crate::order::opt_view(o.value))
}

/// The prices the observations add, in order, up to the first value that
/// does not parse (and that error).
pub open spec fn prices_spec(obs: Seq<(Option<Seq<char>>, Option<Seq<char>>)>, existing: Seq<Seq<char>>) -> (Seq<(Seq<char>, int, int)>, Option<MoneyFault>)
    decreases obs.len(),
{
    if obs.len() == 0 {
        (Seq::empty(), None)
    } else {
        let (rows, err) = prices_spec(obs.drop_last(), existing);
        if err is Some {
            (rows, err)
        } else {
            match observation_spec(obs.last().0, obs.last().1, existing) {
                None => (rows, None),
                Some(Ok(p)) => (rows.push(p), None),
                Some(Err(e)) => (rows, Some(e)),
            }
        }
    }
}

fn contains_str(v: &Vec<String>, s: &String) -> (r: bool)
    ensures
        r == v@.map_values(|x: String| x@).contains(s@),
{
    let mut i: usize = 0;
    while i < v.len()
        invariant
            i <= v.len(),
            forall|j: int| 0 <= j < i ==> v@[j]@ != s@,
        decreases v.len() - i,
    {
        if crate::order::str_eq(&v[i], s) {
            assert(v@.map_values(|x: String| x@)[i as int] == s@);
            return true;
        }
        i += 1;
    }
    proof {
        let m = v@.map_values(|x: String| x@);
        if m.contains(s@) {
            let j = choose|j: int| 0 <= j < m.len() && m[j] == s@;
            assert(v@[j]@ == s@);
        }
    }
    false
}

fn places_exec(v: &Vec<char>) -> (n: u128)
    ensures
        n as int == places(v@),
{
    let k = find_char(v, '.');
    if k < v.len() {
        let rest = slice_chars(v, k + 1, v.len());
        assert(rest@ =~= v@.skip(k + 1));
        let j = find_char(&rest, '.');
        let piece = slice_chars(&rest, 0, j);
        assert(piece@ =~= rest@.take(j as int));
        utf8_len_exec(&piece)
    } else {
        0
    }
}

fn pow10_u32(k: u32) -> (p: i64)
    requires
        k <= 18,
    ensures
        p == pow10(k as nat),
{
    let mut p: i64 = 1;
    let mut i: u32 = 0;
    while i < k
        invariant
            i <= k <= 18,
            p == pow10(i as nat),
        decreases k - i,
    {
        proof {
            crate::money::lemma_pow10_mono((i + 1) as nat, 18);
            crate::money::lemma_pow10_pos(i as nat);
            reveal_with_fuel(pow10, 19);
        }
        p = p * 10;
        i += 1;
    }
    p
}

/// The prices that the observations of a series add: each observation
/// with a date and a value, for a date not in `existing`, its value parsed
/// as an exact decimal. Stops at the first value that does not parse and
/// returns, with the prices before it, that error.
pub fn new_prices(obs: &Vec<Observation>, existing: &Vec<String>) -> (r: (Vec<NewPrice>, Option<MoneyError>))
    ensures
        ({
            let (rows, err) = prices_spec(
                obs@.map_values(|o: Observation| obs_view(o)),
                existing@.map_values(|x: String| x@),
            );
            &&& r.0@.map_values(|p: NewPrice| new_price_view(p)) == rows
            &&& match r.1 {
                Some(e) => err == Some(e@),
                None => err is None,
            }
        }),
{
    let ghost ov = obs@.map_values(|o: Observation| obs_view(o));
    let ghost ex = existing@.map_values(|x: String| x@);
    let mut rows: Vec<NewPrice> = Vec::new();
    let mut i: usize = 0;
    while i < obs.len()
        invariant
            i <= obs.len(),
            ov == obs@.map_values(|o: Observation| obs_view(o)),
            ex == existing@.map_values(|x: String| x@),
            prices_spec(ov.take(i as int), ex) == (rows@.map_values(|p: NewPrice| new_price_view(p)), None::<MoneyFault>),
        decreases obs.len() - i,
    {
        assert(ov.take(i + 1).drop_last() =~= ov.take(i as int));
        assert(ov.take(i + 1).last() == obs_view(obs@[i as int]));
        let o = &obs[i];
        let ghost before = rows@.map_values(|p: NewPrice| new_price_view(p));
        match (&o.date, &o.value) {
            (Some(d), Some(v)) => {
                if !contains_str(existing, d) {
                    let cv = chars_of(v.as_str());
                    let n = places_exec(&cv);
                    if n > 18 {
                        proof {
                            lemma_prices_stop(ov, ex, i + 1);
                        }
                        return (rows, Some(MoneyError::Overflow));
                    }
                    let fraction = pow10_u32(n as u32);
                    proof {
                        crate::money::lemma_pow10_pos(n as nat);
                        lemma_parse_ok_nonneg(v@, fraction);
                    }
                    match parse(v.as_str(), fraction) {
                        Ok((num, denom)) => {
                            rows.push(NewPrice { date: d.clone(), num, denom });
                            assert(rows@.map_values(|p: NewPrice| new_price_view(p)) =~= before.push(
                                (d@, num as int, denom as int),
                            ));
                        },
                        Err(e) => {
                            proof {
                                lemma_prices_stop(ov, ex, i + 1);
                            }
                            return (rows, Some(e));
                        },
                    }
                }
            },
            _ => {},
        }
        i += 1;
    }
    assert(ov.take(i as int) =~= ov);
    (rows, None)
}

/// Once an error stops the fold, later observations change nothing.
proof fn lemma_prices_stop(obs: Seq<(Option<Seq<char>>, Option<Seq<char>>)>, ex: Seq<Seq<char>>, k: int)
    requires
        0 <= k <= obs.len(),
        prices_spec(obs.take(k), ex).1 is Some,
    ensures
        prices_spec(obs, ex) == prices_spec(obs.take(k), ex),
    decreases obs.len() - k,
{
    if k < obs.len() {
        assert(obs.take(k + 1).drop_last() =~= obs.take(k));
        lemma_prices_stop(obs, ex, k + 1);
    } else {
        assert(obs.take(k) =~= obs);
    }
}


/// Prices already present are never overwritten: every price that the
/// observations add is for a date not among the existing ones.
pub proof fn lemma_new_prices_skip_existing(obs: Seq<(Option<Seq<char>>, Option<Seq<char>>)>, existing: Seq<Seq<char>>)
    ensures
        forall|k: int|
            0 <= k < prices_spec(obs, existing).0.len() ==> !existing.contains(
                #[trigger] prices_spec(obs, existing).0[k].0,
            ),
    decreases obs.len(),
{
    if obs.len() > 0 {
        let pre = obs.drop_last();
        lemma_new_prices_skip_existing(pre, existing);
        let (rows, err) = prices_spec(pre, existing);
        let all = prices_spec(obs, existing).0;
        assert forall|k: int| 0 <= k < all.len() implies !existing.contains(#[trigger] all[k].0) by {
            if k < rows.len() {
                assert(all[k] == rows[k]);
                assert(!existing.contains(prices_spec(pre, existing).0[k].0));
            }
        }
    }
}

} // verus!
