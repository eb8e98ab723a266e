//! GnuCash XML import: the document is read as a stream of XML events and
//! folded into commodities, accounts, transactions and prices, which are
//! then turned into the rows to store.

use vstd::prelude::*;
use vstd::utf8::{decode_utf8, valid_utf8};
use crate::money::{gnc_fraction_spec, parse_gnc_fraction, MoneyError, MoneyFault};
use crate::text::{chars_of, first_word, first_word_chars, parse_i64, parse_i64_spec, string_is, string_of, trim, trim_chars};

verus! {

/// How many rows of each kind an import stored.
pub struct ImportStats {
    pub commodities: usize,
    pub accounts: usize,
    pub transactions: usize,
    pub splits: usize,
    pub prices: usize,
}

// ---------------------------------------------------------------------------
// The parsed document
// ---------------------------------------------------------------------------

/// A reference to a commodity: its namespace and its id (mnemonic).
pub struct CommodityRef {
    pub space: String,
    pub id: String,
}

#[verifier::ext_equal]
pub struct CommodityV {
    pub space: Seq<char>,
    pub id: Seq<char>,
}

impl View for CommodityRef {
    type V = CommodityV;

    open spec fn view(&self) -> CommodityV {
        CommodityV { space: self.space@, id: self.id@ }
    }
}

/// The key a commodity is stored under: `namespace:id`.
pub open spec fn commodity_key(c: CommodityV) -> Seq<char> {
    c.space + seq![':'] + c.id
}

/// The namespaces of currencies.
pub open spec fn is_currency_space(space: Seq<char>) -> bool {
    space == "CURRENCY"@ || space == "ISO4217"@
}

pub open spec fn empty_commodity() -> CommodityV {
    CommodityV { space: Seq::empty(), id: Seq::empty() }
}

impl CommodityRef {
    pub fn new() -> (c: CommodityRef)
        ensures
            c@ == empty_commodity(),
    {
        CommodityRef { space: String::new(), id: String::new() }
    }

    pub fn clone_ref(&self) -> (c: CommodityRef)
        ensures
            c@ == self@,
    {
        CommodityRef { space: self.space.clone(), id: self.id.clone() }
    }

    /// `namespace:id`.
    pub fn key(&self) -> (k: String)
        ensures
            k@ == commodity_key(self@),
    {
        let mut k = self.space.clone();
        k.push(':');
        k.push_str(self.id.as_str());
        k
    }

    /// The commodity is a currency (namespace `CURRENCY` or `ISO4217`).
    pub fn is_currency(&self) -> (r: bool)
        ensures
            r == is_currency_space(self@.space),
    {
        string_is(&self.space, "CURRENCY") || string_is(&self.space, "ISO4217")
    }
}

pub struct Account {
    pub id: String,
    pub name: String,
    pub kind: String,
    pub commodity: Option<CommodityRef>,
    pub parent: Option<String>,
    pub code: Option<String>,
    pub description: Option<String>,
    pub notes: Option<String>,
    pub placeholder: bool,
    pub hidden: bool,
}

#[verifier::ext_equal]
pub struct AccountV {
    pub id: Seq<char>,
    pub name: Seq<char>,
    pub kind: Seq<char>,
    pub commodity: Option<CommodityV>,
    pub parent: Option<Seq<char>>,
    pub code: Option<Seq<char>>,
    pub description: Option<Seq<char>>,
    pub notes: Option<Seq<char>>,
    pub placeholder: bool,
    pub hidden: bool,
}

pub open spec fn sv(o: Option<String>) -> Option<Seq<char>> {
    match o {
        Some(s) => Some(s@),
        None => None,
    }
}

pub open spec fn cv(o: Option<CommodityRef>) -> Option<CommodityV> {
    match o {
        Some(c) => Some(c@),
        None => None,
    }
}

impl View for Account {
    type V = AccountV;

    open spec fn view(&self) -> AccountV {
        AccountV {
            id: self.id@,
            name: self.name@,
            kind: self.kind@,
            commodity: cv(self.commodity),
            parent: sv(self.parent),
            code: sv(self.code),
            description: sv(self.description),
            notes: sv(self.notes),
            placeholder: self.placeholder,
            hidden: self.hidden,
        }
    }
}

pub open spec fn empty_account() -> AccountV {
    AccountV {
        id: Seq::empty(),
        name: Seq::empty(),
        kind: Seq::empty(),
        commodity: None,
        parent: None,
        code: None,
        description: None,
        notes: None,
        placeholder: false,
        hidden: false,
    }
}

pub struct Split {
    pub id: String,
    pub account: String,
    pub memo: Option<String>,
    pub action: Option<String>,
    pub reconcile: String,
    pub value: (i64, i64),
    pub quantity: (i64, i64),
}

#[verifier::ext_equal]
pub struct SplitV {
    pub id: Seq<char>,
    pub account: Seq<char>,
    pub memo: Option<Seq<char>>,
    pub action: Option<Seq<char>>,
    pub reconcile: Seq<char>,
    pub value: (int, int),
    pub quantity: (int, int),
}

impl View for Split {
    type V = SplitV;

    open spec fn view(&self) -> SplitV {
        SplitV {
            id: self.id@,
            account: self.account@,
            memo: sv(self.memo),
            action: sv(self.action),
            reconcile: self.reconcile@,
            value: (self.value.0 as int, self.value.1 as int),
            quantity: (self.quantity.0 as int, self.quantity.1 as int),
        }
    }
}

pub open spec fn empty_split() -> SplitV {
    SplitV {
        id: Seq::empty(),
        account: Seq::empty(),
        memo: None,
        action: None,
        reconcile: Seq::empty(),
        value: (0, 0),
        quantity: (0, 0),
    }
}

pub struct Transaction {
    pub id: String,
    pub currency: Option<CommodityRef>,
    pub num: Option<String>,
    /// from `ts:date`, its date part
    pub date_posted: Option<String>,
    /// from the `date-posted` slot, preferred
    pub gdate_posted: Option<String>,
    pub date_entered: Option<String>,
    pub description: Option<String>,
    pub splits: Vec<Split>,
}

#[verifier::ext_equal]
pub struct TransactionV {
    pub id: Seq<char>,
    pub currency: Option<CommodityV>,
    pub num: Option<Seq<char>>,
    pub date_posted: Option<Seq<char>>,
    pub gdate_posted: Option<Seq<char>>,
    pub date_entered: Option<Seq<char>>,
    pub description: Option<Seq<char>>,
    pub splits: Seq<SplitV>,
}

pub open spec fn splits_v(v: Seq<Split>) -> Seq<SplitV> {
    v.map_values(|s: Split| s@)
}

impl View for Transaction {
    type V = TransactionV;

    open spec fn view(&self) -> TransactionV {
        TransactionV {
            id: self.id@,
            currency: cv(self.currency),
            num: sv(self.num),
            date_posted: sv(self.date_posted),
            gdate_posted: sv(self.gdate_posted),
            date_entered: sv(self.date_entered),
            description: sv(self.description),
            splits: splits_v(self.splits@),
        }
    }
}

pub open spec fn empty_transaction() -> TransactionV {
    TransactionV {
        id: Seq::empty(),
        currency: None,
        num: None,
        date_posted: None,
        gdate_posted: None,
        date_entered: None,
        description: None,
        splits: Seq::empty(),
    }
}

pub struct Price {
    pub id: String,
    pub commodity: Option<CommodityRef>,
    pub currency: Option<CommodityRef>,
    pub date: Option<String>,
    pub source: Option<String>,
    pub kind: Option<String>,
    pub value: (i64, i64),
}

#[verifier::ext_equal]
pub struct PriceV {
    pub id: Seq<char>,
    pub commodity: Option<CommodityV>,
    pub currency: Option<CommodityV>,
    pub date: Option<Seq<char>>,
    pub source: Option<Seq<char>>,
    pub kind: Option<Seq<char>>,
    pub value: (int, int),
}

impl View for Price {
    type V = PriceV;

    open spec fn view(&self) -> PriceV {
        PriceV {
            id: self.id@,
            commodity: cv(self.commodity),
            currency: cv(self.currency),
            date: sv(self.date),
            source: sv(self.source),
            kind: sv(self.kind),
            value: (self.value.0 as int, self.value.1 as int),
        }
    }
}

pub open spec fn empty_price() -> PriceV {
    PriceV {
        id: Seq::empty(),
        commodity: None,
        currency: None,
        date: None,
        source: None,
        kind: None,
        value: (0, 0),
    }
}

/// A commodity to store: its key, namespace, mnemonic and fraction.
pub struct CommodityEntry {
    pub key: String,
    pub space: String,
    pub mnemonic: String,
    pub fraction: i64,
}

#[verifier::ext_equal]
pub struct EntryV {
    pub key: Seq<char>,
    pub space: Seq<char>,
    pub mnemonic: Seq<char>,
    pub fraction: int,
}

impl View for CommodityEntry {
    type V = EntryV;

    open spec fn view(&self) -> EntryV {
        EntryV {
            key: self.key@,
            space: self.space@,
            mnemonic: self.mnemonic@,
            fraction: self.fraction as int,
        }
    }
}

/// What the document holds. Each commodity key occurs once.
pub struct Parsed {
    pub commodities: Vec<CommodityEntry>,
    pub accounts: Vec<Account>,
    pub transactions: Vec<Transaction>,
    pub prices: Vec<Price>,
}

#[verifier::ext_equal]
pub struct ParsedV {
    pub commodities: Seq<EntryV>,
    pub accounts: Seq<AccountV>,
    pub transactions: Seq<TransactionV>,
    pub prices: Seq<PriceV>,
}

impl View for Parsed {
    type V = ParsedV;

    open spec fn view(&self) -> ParsedV {
        ParsedV {
            commodities: self.commodities@.map_values(|e: CommodityEntry| e@),
            accounts: self.accounts@.map_values(|a: Account| a@),
            transactions: self.transactions@.map_values(|t: Transaction| t@),
            prices: self.prices@.map_values(|p: Price| p@),
        }
    }
}

/// The first entry at or after `from` with key `k`.
pub open spec fn find_entry(es: Seq<EntryV>, k: Seq<char>, from: int) -> Option<int>
    decreases es.len() - from,
{
    if from < 0 || from >= es.len() {
        None
    } else if es[from].key == k {
        Some(from)
    } else {
        find_entry(es, k, from + 1)
    }
}

/// Every key occurs once.
pub open spec fn keys_unique(es: Seq<EntryV>) -> bool {
    forall|i: int, j: int| 0 <= i < j < es.len() ==> es[i].key != es[j].key
}

/// Record commodity `c` (unless it belongs to the `template` namespace):
/// a new key is added with the given fraction, or 100; a known key only
/// takes the fraction where one is given.
pub open spec fn note_spec(es: Seq<EntryV>, c: CommodityV, fraction: Option<int>) -> Seq<EntryV> {
    if c.space == "template"@ {
        es
    } else {
        let k = commodity_key(c);
        match find_entry(es, k, 0) {
            Some(i) => match fraction {
                Some(f) => es.update(i, EntryV { fraction: f, ..es[i] }),
                None => es,
            },
            None => es.push(
                EntryV {
                    key: k,
                    space: c.space,
                    mnemonic: c.id,
                    fraction: match fraction {
                        Some(f) => f,
                        None => 100,
                    },
                },
            ),
        }
    }
}

proof fn lemma_find_entry(es: Seq<EntryV>, k: Seq<char>, from: int)
    requires
        0 <= from,
    ensures
        find_entry(es, k, from) matches Some(i) ==> from <= i < es.len() && es[i].key == k,
        find_entry(es, k, from) is None ==> forall|j: int| from <= j < es.len() ==> es[j].key != k,
    decreases es.len() - from,
{
    if from < es.len() && es[from].key != k {
        lemma_find_entry(es, k, from + 1);
    }
}

/// The first entry with key `k` found from `from` on is the one at `i`
/// where no entry between has that key.
proof fn lemma_find_entry_at(es: Seq<EntryV>, k: Seq<char>, from: int, i: int)
    requires
        0 <= from <= i < es.len(),
        es[i].key == k,
        forall|j: int| from <= j < i ==> es[j].key != k,
    ensures
        find_entry(es, k, from) == Some(i),
    decreases i - from,
{
    if from < i {
        lemma_find_entry_at(es, k, from + 1, i);
    }
}

/// Noting a commodity once with a fraction and once without gives the
/// same entries in either order: its key is there once, with that
/// fraction, and every other entry stays as it was (a new key goes last).
pub proof fn lemma_note_commutes(es: Seq<EntryV>, c: CommodityV, f: int)
    requires
        keys_unique(es),
        c.space != "template"@,
    ensures
        note_spec(note_spec(es, c, Some(f)), c, None) == note_spec(note_spec(es, c, None), c, Some(f)),
        ({
            let r = note_spec(note_spec(es, c, Some(f)), c, None);
            &&& r.len() == es.len() || r.len() == es.len() + 1
            &&& forall|j: int| 0 <= j < es.len() && es[j].key != commodity_key(c) ==> r[j] == es[j]
            &&& exists|i: int| 0 <= i < r.len() && r[i].key == commodity_key(c) && r[i].fraction == f
            &&& forall|i: int| 0 <= i < r.len() && r[i].key == commodity_key(c) ==> r[i].fraction == f
        }),
{
    let k = commodity_key(c);
    lemma_find_entry(es, k, 0);
    match find_entry(es, k, 0) {
        Some(i) => {
            let a = es.update(i, EntryV { fraction: f, ..es[i] });
            assert forall|j: int| 0 <= j < i implies a[j].key != k by {
                assert(es[j].key != es[i].key);
            }
            lemma_find_entry_at(a, k, 0, i);
            assert(note_spec(es, c, Some(f)) == a);
            assert(note_spec(a, c, None) == a);
            assert(note_spec(es, c, None) == es);
            assert forall|j: int| 0 <= j < a.len() && a[j].key == k implies a[j].fraction == f by {
                if j != i {
                    if j < i {
                        assert(es[j].key != es[i].key);
                    } else {
                        assert(es[i].key != es[j].key);
                    }
                }
            }
        },
        None => {
            let e100 = EntryV { key: k, space: c.space, mnemonic: c.id, fraction: 100 };
            let ef = EntryV { key: k, space: c.space, mnemonic: c.id, fraction: f };
            let a = es.push(ef);
            let b = es.push(e100);
            lemma_find_entry_at(a, k, 0, es.len() as int);
            lemma_find_entry_at(b, k, 0, es.len() as int);
            assert(note_spec(es, c, Some(f)) == a);
            assert(note_spec(a, c, None) == a);
            assert(note_spec(es, c, None) == b);
            assert(b.update(es.len() as int, EntryV { fraction: f, ..b[es.len() as int] }) =~= a);
            assert(a[es.len() as int].key == k);
        },
    }
}

impl Parsed {
    pub fn new() -> (p: Parsed)
        ensures
            p@ == (ParsedV {
                commodities: Seq::empty(),
                accounts: Seq::empty(),
                transactions: Seq::empty(),
                prices: Seq::empty(),
            }),
    {
        let p = Parsed {
            commodities: Vec::new(),
            accounts: Vec::new(),
            transactions: Vec::new(),
            prices: Vec::new(),
        };
        assert(p@ =~= (ParsedV {
            commodities: Seq::empty(),
            accounts: Seq::empty(),
            transactions: Seq::empty(),
            prices: Seq::empty(),
        }));
        p
    }

    /// Record a commodity that the document defines or refers to.
    pub fn note_commodity(&mut self, c: &CommodityRef, fraction: Option<i64>)
        requires
            keys_unique(old(self)@.commodities),
        ensures
            final(self)@ == (ParsedV {
                commodities: note_spec(
                    old(self)@.commodities,
                    c@,
                    match fraction {
                        Some(f) => Some(f as int),
                        None => None,
                    },
                ),
                ..old(self)@
            }),
            keys_unique(final(self)@.commodities),
    {
        if string_is(&c.space, "template") {
            return;
        }
        let k = c.key();
        let ghost es = self@.commodities;
        let found = find_entry_exec(&self.commodities, &k);
        proof {
            lemma_find_entry(es, k@, 0);
        }
        match found {
            Some(i) => {
                match fraction {
                    Some(f) => {
                        let e = &self.commodities[i];
                        let ne = CommodityEntry {
                            key: e.key.clone(),
                            space: e.space.clone(),
                            mnemonic: e.mnemonic.clone(),
                            fraction: f,
                        };
                        self.commodities.set(i, ne);
                        proof {
                            assert(self@.commodities =~= es.update(
                                i as int,
                                EntryV { fraction: f as int, ..es[i as int] },
                            ));
                            assert(self@ =~= ParsedV { commodities: self@.commodities, ..old(self)@ });
                        }
                    },
                    None => {
                        assert(self@ =~= ParsedV { commodities: es, ..old(self)@ });
                    },
                }
            },
            None => {
                let f = match fraction {
                    Some(f) => f,
                    None => 100,
                };
                self.commodities.push(
                    CommodityEntry { key: k, space: c.space.clone(), mnemonic: c.id.clone(), fraction: f },
                );
                proof {
                    assert(self@.commodities =~= es.push(
                        EntryV { key: commodity_key(c@), space: c@.space, mnemonic: c@.id, fraction: f as int },
                    ));
                    assert(self@ =~= ParsedV { commodities: self@.commodities, ..old(self)@ });
                }
            },
        }
    }
}

fn find_entry_exec(v: &Vec<CommodityEntry>, k: &String) -> (r: Option<usize>)
    ensures
        match r {
            Some(i) => i < v.len() && find_entry(v@.map_values(|e: CommodityEntry| e@), k@, 0) == Some(i as int),
            None => find_entry(v@.map_values(|e: CommodityEntry| e@), k@, 0) is None,
        },
{
    let ghost es = v@.map_values(|e: CommodityEntry| e@);
    let mut i: usize = 0;
    while i < v.len()
        invariant
            i <= v.len(),
            es == v@.map_values(|e: CommodityEntry| e@),
            find_entry(es, k@, 0) == find_entry(es, k@, i as int),
        decreases v.len() - i,
    {
        if crate::order::str_eq(&v[i].key, k) {
            return Some(i);
        }
        i += 1;
    }
    None
}

/// The date of a timestamp: its first whitespace-separated word.
pub fn date_part(ts: &str) -> (d: String)
    ensures
        d@ == first_word(ts@),
{
    string_of(&first_word_chars(&chars_of(ts)))
}


// ---------------------------------------------------------------------------
// Reading the document: the state between XML events
// ---------------------------------------------------------------------------

/// Where the reading stands between two events.
pub struct ParseState {
    pub parsed: Parsed,
    /// the names of the open elements
    pub path: Vec<String>,
    /// the text read since the last start tag
    pub text: String,
    pub cur_acc: Option<Account>,
    pub cur_tx: Option<Transaction>,
    pub cur_split: Option<Split>,
    pub cur_price: Option<Price>,
    /// a top-level commodity definition being read, with its fraction
    pub cur_def: Option<(CommodityRef, Option<i64>)>,
    /// the commodity reference being read (`act:commodity`, `trn:currency`, ...)
    pub cmdty_ref: CommodityRef,
    /// the keys of the open slots (slots nest through frame values)
    pub slot_keys: Vec<String>,
}

#[verifier::ext_equal]
pub struct StateV {
    pub parsed: ParsedV,
    pub path: Seq<Seq<char>>,
    pub text: Seq<char>,
    pub cur_acc: Option<AccountV>,
    pub cur_tx: Option<TransactionV>,
    pub cur_split: Option<SplitV>,
    pub cur_price: Option<PriceV>,
    pub cur_def: Option<(CommodityV, Option<int>)>,
    pub cmdty_ref: CommodityV,
    pub slot_keys: Seq<Seq<char>>,
}

pub open spec fn strs(v: Seq<String>) -> Seq<Seq<char>> {
    v.map_values(|x: String| x@)
}

pub open spec fn def_v(d: Option<(CommodityRef, Option<i64>)>) -> Option<(CommodityV, Option<int>)> {
    match d {
        Some((c, f)) => Some(
            (
                c@,
                match f {
                    Some(x) => Some(x as int),
                    None => None,
                },
            ),
        ),
        None => None,
    }
}

pub open spec fn acc_v(o: Option<Account>) -> Option<AccountV> {
    match o {
        Some(a) => Some(a@),
        None => None,
    }
}

pub open spec fn tx_v(o: Option<Transaction>) -> Option<TransactionV> {
    match o {
        Some(t) => Some(t@),
        None => None,
    }
}

pub open spec fn split_v(o: Option<Split>) -> Option<SplitV> {
    match o {
        Some(x) => Some(x@),
        None => None,
    }
}

pub open spec fn price_v(o: Option<Price>) -> Option<PriceV> {
    match o {
        Some(x) => Some(x@),
        None => None,
    }
}

impl View for ParseState {
    type V = StateV;

    open spec fn view(&self) -> StateV {
        StateV {
            parsed: self.parsed@,
            path: strs(self.path@),
            text: self.text@,
            cur_acc: acc_v(self.cur_acc),
            cur_tx: tx_v(self.cur_tx),
            cur_split: split_v(self.cur_split),
            cur_price: price_v(self.cur_price),
            cur_def: def_v(self.cur_def),
            cmdty_ref: self.cmdty_ref@,
            slot_keys: strs(self.slot_keys@),
        }
    }
}

pub open spec fn initial_state() -> StateV {
    StateV {
        parsed: ParsedV {
            commodities: Seq::empty(),
            accounts: Seq::empty(),
            transactions: Seq::empty(),
            prices: Seq::empty(),
        },
        path: Seq::empty(),
        text: Seq::empty(),
        cur_acc: None,
        cur_tx: None,
        cur_split: None,
        cur_price: None,
        cur_def: None,
        cmdty_ref: empty_commodity(),
        slot_keys: Seq::empty(),
    }
}

/// A start tag: the elements that begin a record reset it, then the name
/// is pushed and the text cleared.
pub open spec fn start_spec(s: StateV, name: Seq<char>) -> StateV {
    let s1 = if name == "gnc:account"@ {
        StateV { cur_acc: Some(empty_account()), ..s }
    } else if name == "gnc:transaction"@ {
        StateV { cur_tx: Some(empty_transaction()), ..s }
    } else if name == "trn:split"@ {
        StateV { cur_split: Some(empty_split()), ..s }
    } else if name == "price"@ {
        StateV { cur_price: Some(empty_price()), ..s }
    } else if name == "gnc:commodity"@ {
        StateV { cur_def: Some((empty_commodity(), None)), ..s }
    } else if name == "act:commodity"@ || name == "trn:currency"@ || name == "price:commodity"@
        || name == "price:currency"@ {
        StateV { cmdty_ref: empty_commodity(), ..s }
    } else {
        s
    };
    StateV { path: s1.path.push(name), text: Seq::empty(), ..s1 }
}

/// The element enclosing the one that ends: the second-to-last name on the
/// path (the only name where there is one, nothing where there is none).
pub open spec fn parent_of(path: Seq<Seq<char>>) -> Seq<char> {
    if path.len() == 0 {
        Seq::empty()
    } else if path.len() == 1 {
        path[0]
    } else {
        path[path.len() - 2]
    }
}

pub open spec fn ok_i64(r: Result<int, crate::text::IntErrorKind>) -> Option<int> {
    match r {
        Ok(v) => Some(v),
        Err(_) => None,
    }
}

pub open spec fn noted(p: ParsedV, c: CommodityV) -> ParsedV {
    ParsedV { commodities: note_spec(p.commodities, c, None), ..p }
}

/// End tags of commodity definitions and references.
pub open spec fn end_commodity(s: StateV, name: Seq<char>, parent: Seq<char>, value: Seq<char>) -> Result<StateV, MoneyFault> {
    if name == "cmdty:space"@ {
        Ok(
            match s.cur_def {
                Some((c, f)) => if parent == "gnc:commodity"@ {
                    StateV { cur_def: Some((CommodityV { space: value, ..c }, f)), ..s }
                } else {
                    StateV { cmdty_ref: CommodityV { space: value, ..s.cmdty_ref }, ..s }
                },
                None => StateV { cmdty_ref: CommodityV { space: value, ..s.cmdty_ref }, ..s },
            },
        )
    } else if name == "cmdty:id"@ {
        Ok(
            match s.cur_def {
                Some((c, f)) => if parent == "gnc:commodity"@ {
                    StateV { cur_def: Some((CommodityV { id: value, ..c }, f)), ..s }
                } else {
                    StateV { cmdty_ref: CommodityV { id: value, ..s.cmdty_ref }, ..s }
                },
                None => StateV { cmdty_ref: CommodityV { id: value, ..s.cmdty_ref }, ..s },
            },
        )
    } else if name == "cmdty:fraction"@ {
        Ok(
            match s.cur_def {
                Some((c, f)) => StateV { cur_def: Some((c, ok_i64(parse_i64_spec(value)))), ..s },
                None => s,
            },
        )
    } else if name == "gnc:commodity"@ {
        Ok(
            match s.cur_def {
                Some((c, f)) => StateV {
                    cur_def: None,
                    parsed: ParsedV {
                        commodities: note_spec(
                            s.parsed.commodities,
                            c,
                            Some(
                                match f {
                                    Some(x) => x,
                                    None => 100,
                                },
                            ),
                        ),
                        ..s.parsed
                    },
                    ..s
                },
                None => s,
            },
        )
    } else if name == "act:commodity"@ {
        Ok(
            match s.cur_acc {
                Some(a) => StateV {
                    parsed: noted(s.parsed, s.cmdty_ref),
                    cur_acc: Some(AccountV { commodity: Some(s.cmdty_ref), ..a }),
                    ..s
                },
                None => s,
            },
        )
    } else if name == "trn:currency"@ {
        Ok(
            match s.cur_tx {
                Some(t) => StateV {
                    parsed: noted(s.parsed, s.cmdty_ref),
                    cur_tx: Some(TransactionV { currency: Some(s.cmdty_ref), ..t }),
                    ..s
                },
                None => s,
            },
        )
    } else if name == "price:commodity"@ {
        Ok(
            match s.cur_price {
                Some(p) => StateV {
                    parsed: noted(s.parsed, s.cmdty_ref),
                    cur_price: Some(PriceV { commodity: Some(s.cmdty_ref), ..p }),
                    ..s
                },
                None => s,
            },
        )
    } else if name == "price:currency"@ {
        Ok(
            match s.cur_price {
                Some(p) => StateV {
                    parsed: noted(s.parsed, s.cmdty_ref),
                    cur_price: Some(PriceV { currency: Some(s.cmdty_ref), ..p }),
                    ..s
                },
                None => s,
            },
        )
    } else {
        end_account(s, name, parent, value)
    }
}

/// End tags of account fields and of slots.
pub open spec fn end_account(s: StateV, name: Seq<char>, parent: Seq<char>, value: Seq<char>) -> Result<StateV, MoneyFault> {
    let on_acc = |f: spec_fn(AccountV) -> AccountV|
        match s.cur_acc {
            Some(a) => StateV { cur_acc: Some(f(a)), ..s },
            None => s,
        };
    if name == "act:name"@ {
        Ok(on_acc(|a: AccountV| AccountV { name: value, ..a }))
    } else if name == "act:id"@ {
        Ok(on_acc(|a: AccountV| AccountV { id: value, ..a }))
    } else if name == "act:type"@ {
        Ok(on_acc(|a: AccountV| AccountV { kind: value, ..a }))
    } else if name == "act:code"@ {
        Ok(on_acc(|a: AccountV| AccountV { code: Some(value), ..a }))
    } else if name == "act:description"@ {
        Ok(on_acc(|a: AccountV| AccountV { description: Some(value), ..a }))
    } else if name == "act:parent"@ {
        Ok(on_acc(|a: AccountV| AccountV { parent: Some(value), ..a }))
    } else if name == "gnc:account"@ {
        Ok(
            match s.cur_acc {
                Some(a) => StateV {
                    cur_acc: None,
                    parsed: ParsedV { accounts: s.parsed.accounts.push(a), ..s.parsed },
                    ..s
                },
                None => s,
            },
        )
    } else if name == "slot:key"@ {
        Ok(StateV { slot_keys: s.slot_keys.push(value), ..s })
    } else if name == "slot:value"@ {
        Ok(
            if s.slot_keys.len() == 1 {
                let key = s.slot_keys[0];
                if key == "placeholder"@ {
                    on_acc(|a: AccountV| AccountV { placeholder: value == "true"@, ..a })
                } else if key == "hidden"@ {
                    on_acc(|a: AccountV| AccountV { hidden: value == "true"@, ..a })
                } else if key == "notes"@ && value.len() > 0 {
                    on_acc(|a: AccountV| AccountV { notes: Some(value), ..a })
                } else {
                    s
                }
            } else {
                s
            },
        )
    } else if name == "gdate"@ {
        Ok(
            match s.cur_tx {
                Some(t) => if s.cur_split is None && s.slot_keys.len() > 0 && s.slot_keys.last()
                    == "date-posted"@ {
                    StateV { cur_tx: Some(TransactionV { gdate_posted: Some(value), ..t }), ..s }
                } else {
                    s
                },
                None => s,
            },
        )
    } else if name == "slot"@ {
        Ok(
            if s.slot_keys.len() > 0 {
                StateV { slot_keys: s.slot_keys.drop_last(), ..s }
            } else {
                s
            },
        )
    } else {
        end_transaction(s, name, parent, value)
    }
}

/// End tags of transaction fields.
pub open spec fn end_transaction(s: StateV, name: Seq<char>, parent: Seq<char>, value: Seq<char>) -> Result<StateV, MoneyFault> {
    let on_tx = |f: spec_fn(TransactionV) -> TransactionV|
        match s.cur_tx {
            Some(t) => StateV { cur_tx: Some(f(t)), ..s },
            None => s,
        };
    if name == "trn:id"@ {
        Ok(on_tx(|t: TransactionV| TransactionV { id: value, ..t }))
    } else if name == "trn:num"@ {
        Ok(on_tx(|t: TransactionV| TransactionV { num: Some(value), ..t }))
    } else if name == "trn:description"@ {
        Ok(on_tx(|t: TransactionV| TransactionV { description: Some(value), ..t }))
    } else if name == "ts:date"@ {
        Ok(
            if parent == "trn:date-posted"@ {
                on_tx(|t: TransactionV| TransactionV { date_posted: Some(first_word(value)), ..t })
            } else if parent == "trn:date-entered"@ {
                on_tx(|t: TransactionV| TransactionV { date_entered: Some(value), ..t })
            } else if parent == "price:time"@ {
                match s.cur_price {
                    Some(p) => StateV { cur_price: Some(PriceV { date: Some(first_word(value)), ..p }), ..s },
                    None => s,
                }
            } else {
                s
            },
        )
    } else if name == "gnc:transaction"@ {
        Ok(
            match s.cur_tx {
                Some(t) => StateV {
                    cur_tx: None,
                    parsed: ParsedV { transactions: s.parsed.transactions.push(t), ..s.parsed },
                    ..s
                },
                None => s,
            },
        )
    } else {
        end_split(s, name, value)
    }
}

/// End tags of split fields.
pub open spec fn end_split(s: StateV, name: Seq<char>, value: Seq<char>) -> Result<StateV, MoneyFault> {
    let on_split = |f: spec_fn(SplitV) -> SplitV|
        match s.cur_split {
            Some(x) => StateV { cur_split: Some(f(x)), ..s },
            None => s,
        };
    if name == "split:id"@ {
        Ok(on_split(|x: SplitV| SplitV { id: value, ..x }))
    } else if name == "split:memo"@ {
        Ok(on_split(|x: SplitV| SplitV { memo: Some(value), ..x }))
    } else if name == "split:action"@ {
        Ok(on_split(|x: SplitV| SplitV { action: Some(value), ..x }))
    } else if name == "split:reconciled-state"@ {
        Ok(on_split(|x: SplitV| SplitV { reconcile: value, ..x }))
    } else if name == "split:account"@ {
        Ok(on_split(|x: SplitV| SplitV { account: value, ..x }))
    } else if name == "split:value"@ {
        match s.cur_split {
            Some(x) => match gnc_fraction_spec(value) {
                Ok(v) => Ok(StateV { cur_split: Some(SplitV { value: v, ..x }), ..s }),
                Err(e) => Err(e),
            },
            None => Ok(s),
        }
    } else if name == "split:quantity"@ {
        match s.cur_split {
            Some(x) => match gnc_fraction_spec(value) {
                Ok(v) => Ok(StateV { cur_split: Some(SplitV { quantity: v, ..x }), ..s }),
                Err(e) => Err(e),
            },
            None => Ok(s),
        }
    } else if name == "trn:split"@ {
        Ok(
            match (s.cur_tx, s.cur_split) {
                (Some(t), Some(x)) => StateV {
                    cur_tx: Some(TransactionV { splits: t.splits.push(x), ..t }),
                    cur_split: None,
                    ..s
                },
                _ => StateV { cur_split: None, ..s },
            },
        )
    } else {
        end_price(s, name, value)
    }
}

/// End tags of price fields.
pub open spec fn end_price(s: StateV, name: Seq<char>, value: Seq<char>) -> Result<StateV, MoneyFault> {
    let on_price = |f: spec_fn(PriceV) -> PriceV|
        match s.cur_price {
            Some(p) => StateV { cur_price: Some(f(p)), ..s },
            None => s,
        };
    if name == "price:id"@ {
        Ok(on_price(|p: PriceV| PriceV { id: value, ..p }))
    } else if name == "price:source"@ {
        Ok(on_price(|p: PriceV| PriceV { source: Some(value), ..p }))
    } else if name == "price:type"@ {
        Ok(on_price(|p: PriceV| PriceV { kind: Some(value), ..p }))
    } else if name == "price:value"@ {
        match s.cur_price {
            Some(p) => match gnc_fraction_spec(value) {
                Ok(v) => Ok(StateV { cur_price: Some(PriceV { value: v, ..p }), ..s }),
                Err(e) => Err(e),
            },
            None => Ok(s),
        }
    } else if name == "price"@ {
        Ok(
            match s.cur_price {
                Some(p) => StateV {
                    cur_price: None,
                    parsed: ParsedV { prices: s.parsed.prices.push(p), ..s.parsed },
                    ..s
                },
                None => s,
            },
        )
    } else {
        Ok(s)
    }
}

/// An end tag: the trimmed text is the element's value, the fields it
/// names are set (records are closed and stored), and the name is popped.
pub open spec fn end_spec(s: StateV, name: Seq<char>) -> Result<StateV, MoneyFault> {
    let s0 = StateV { text: Seq::empty(), ..s };
    match end_commodity(s0, name, parent_of(s.path), trim(s.text)) {
        Ok(s1) => Ok(
            StateV {
                path: if s1.path.len() > 0 {
                    s1.path.drop_last()
                } else {
                    s1.path
                },
                ..s1
            },
        ),
        Err(e) => Err(e),
    }
}

/// The element names that come before the split amounts are other names.
proof fn lemma_split_amount_names()
    ensures
        "split:value"@ != "act:code"@,
        "split:value"@ != "act:commodity"@,
        "split:value"@ != "act:description"@,
        "split:value"@ != "act:id"@,
        "split:value"@ != "act:name"@,
        "split:value"@ != "act:parent"@,
        "split:value"@ != "act:type"@,
        "split:value"@ != "cmdty:fraction"@,
        "split:value"@ != "cmdty:id"@,
        "split:value"@ != "cmdty:space"@,
        "split:value"@ != "gdate"@,
        "split:value"@ != "gnc:account"@,
        "split:value"@ != "gnc:commodity"@,
        "split:value"@ != "gnc:transaction"@,
        "split:value"@ != "price:commodity"@,
        "split:value"@ != "price:currency"@,
        "split:value"@ != "slot"@,
        "split:value"@ != "slot:key"@,
        "split:value"@ != "slot:value"@,
        "split:value"@ != "split:account"@,
        "split:value"@ != "split:action"@,
        "split:value"@ != "split:id"@,
        "split:value"@ != "split:memo"@,
        "split:value"@ != "split:quantity"@,
        "split:value"@ != "split:reconciled-state"@,
        "split:value"@ != "trn:currency"@,
        "split:value"@ != "trn:description"@,
        "split:value"@ != "trn:id"@,
        "split:value"@ != "trn:num"@,
        "split:value"@ != "trn:split"@,
        "split:value"@ != "ts:date"@,
        "split:quantity"@ != "act:code"@,
        "split:quantity"@ != "act:commodity"@,
        "split:quantity"@ != "act:description"@,
        "split:quantity"@ != "act:id"@,
        "split:quantity"@ != "act:name"@,
        "split:quantity"@ != "act:parent"@,
        "split:quantity"@ != "act:type"@,
        "split:quantity"@ != "cmdty:fraction"@,
        "split:quantity"@ != "cmdty:id"@,
        "split:quantity"@ != "cmdty:space"@,
        "split:quantity"@ != "gdate"@,
        "split:quantity"@ != "gnc:account"@,
        "split:quantity"@ != "gnc:commodity"@,
        "split:quantity"@ != "gnc:transaction"@,
        "split:quantity"@ != "price:commodity"@,
        "split:quantity"@ != "price:currency"@,
        "split:quantity"@ != "slot"@,
        "split:quantity"@ != "slot:key"@,
        "split:quantity"@ != "slot:value"@,
        "split:quantity"@ != "split:account"@,
        "split:quantity"@ != "split:action"@,
        "split:quantity"@ != "split:id"@,
        "split:quantity"@ != "split:memo"@,
        "split:quantity"@ != "split:reconciled-state"@,
        "split:quantity"@ != "split:value"@,
        "split:quantity"@ != "trn:currency"@,
        "split:quantity"@ != "trn:description"@,
        "split:quantity"@ != "trn:id"@,
        "split:quantity"@ != "trn:num"@,
        "split:quantity"@ != "trn:split"@,
        "split:quantity"@ != "ts:date"@,
{
    reveal_strlit("split:value");
    reveal_strlit("split:quantity");
    reveal_strlit("act:code");
    reveal_strlit("act:commodity");
    reveal_strlit("act:description");
    reveal_strlit("act:id");
    reveal_strlit("act:name");
    reveal_strlit("act:parent");
    reveal_strlit("act:type");
    reveal_strlit("cmdty:fraction");
    reveal_strlit("cmdty:id");
    reveal_strlit("cmdty:space");
    reveal_strlit("gdate");
    reveal_strlit("gnc:account");
    reveal_strlit("gnc:commodity");
    reveal_strlit("gnc:transaction");
    reveal_strlit("price:commodity");
    reveal_strlit("price:currency");
    reveal_strlit("slot");
    reveal_strlit("slot:key");
    reveal_strlit("slot:value");
    reveal_strlit("split:account");
    reveal_strlit("split:action");
    reveal_strlit("split:id");
    reveal_strlit("split:memo");
    reveal_strlit("split:reconciled-state");
    reveal_strlit("trn:currency");
    reveal_strlit("trn:description");
    reveal_strlit("trn:id");
    reveal_strlit("trn:num");
    reveal_strlit("trn:split");
    reveal_strlit("ts:date");
    assert("split:value"@.len() != "act:code"@.len());
    assert("split:value"@ != "act:code"@);
    assert("split:value"@.len() != "act:commodity"@.len());
    assert("split:value"@ != "act:commodity"@);
    assert("split:value"@.len() != "act:description"@.len());
    assert("split:value"@ != "act:description"@);
    assert("split:value"@.len() != "act:id"@.len());
    assert("split:value"@ != "act:id"@);
    assert("split:value"@.len() != "act:name"@.len());
    assert("split:value"@ != "act:name"@);
    assert("split:value"@.len() != "act:parent"@.len());
    assert("split:value"@ != "act:parent"@);
    assert("split:value"@.len() != "act:type"@.len());
    assert("split:value"@ != "act:type"@);
    assert("split:value"@.len() != "cmdty:fraction"@.len());
    assert("split:value"@ != "cmdty:fraction"@);
    assert("split:value"@.len() != "cmdty:id"@.len());
    assert("split:value"@ != "cmdty:id"@);
    assert("split:value"@[0] != "cmdty:space"@[0]);
    assert("split:value"@ != "cmdty:space"@);
    assert("split:value"@.len() != "gdate"@.len());
    assert("split:value"@ != "gdate"@);
    assert("split:value"@[0] != "gnc:account"@[0]);
    assert("split:value"@ != "gnc:account"@);
    assert("split:value"@.len() != "gnc:commodity"@.len());
    assert("split:value"@ != "gnc:commodity"@);
    assert("split:value"@.len() != "gnc:transaction"@.len());
    assert("split:value"@ != "gnc:transaction"@);
    assert("split:value"@.len() != "price:commodity"@.len());
    assert("split:value"@ != "price:commodity"@);
    assert("split:value"@.len() != "price:currency"@.len());
    assert("split:value"@ != "price:currency"@);
    assert("split:value"@.len() != "slot"@.len());
    assert("split:value"@ != "slot"@);
    assert("split:value"@.len() != "slot:key"@.len());
    assert("split:value"@ != "slot:key"@);
    assert("split:value"@.len() != "slot:value"@.len());
    assert("split:value"@ != "slot:value"@);
    assert("split:value"@.len() != "split:account"@.len());
    assert("split:value"@ != "split:account"@);
    assert("split:value"@.len() != "split:action"@.len());
    assert("split:value"@ != "split:action"@);
    assert("split:value"@.len() != "split:id"@.len());
    assert("split:value"@ != "split:id"@);
    assert("split:value"@.len() != "split:memo"@.len());
    assert("split:value"@ != "split:memo"@);
    assert("split:value"@.len() != "split:quantity"@.len());
    assert("split:value"@ != "split:quantity"@);
    assert("split:value"@.len() != "split:reconciled-state"@.len());
    assert("split:value"@ != "split:reconciled-state"@);
    assert("split:value"@.len() != "trn:currency"@.len());
    assert("split:value"@ != "trn:currency"@);
    assert("split:value"@.len() != "trn:description"@.len());
    assert("split:value"@ != "trn:description"@);
    assert("split:value"@.len() != "trn:id"@.len());
    assert("split:value"@ != "trn:id"@);
    assert("split:value"@.len() != "trn:num"@.len());
    assert("split:value"@ != "trn:num"@);
    assert("split:value"@.len() != "trn:split"@.len());
    assert("split:value"@ != "trn:split"@);
    assert("split:value"@.len() != "ts:date"@.len());
    assert("split:value"@ != "ts:date"@);
    assert("split:quantity"@.len() != "act:code"@.len());
    assert("split:quantity"@ != "act:code"@);
    assert("split:quantity"@.len() != "act:commodity"@.len());
    assert("split:quantity"@ != "act:commodity"@);
    assert("split:quantity"@.len() != "act:description"@.len());
    assert("split:quantity"@ != "act:description"@);
    assert("split:quantity"@.len() != "act:id"@.len());
    assert("split:quantity"@ != "act:id"@);
    assert("split:quantity"@.len() != "act:name"@.len());
    assert("split:quantity"@ != "act:name"@);
    assert("split:quantity"@.len() != "act:parent"@.len());
    assert("split:quantity"@ != "act:parent"@);
    assert("split:quantity"@.len() != "act:type"@.len());
    assert("split:quantity"@ != "act:type"@);
    assert("split:quantity"@[0] != "cmdty:fraction"@[0]);
    assert("split:quantity"@ != "cmdty:fraction"@);
    assert("split:quantity"@.len() != "cmdty:id"@.len());
    assert("split:quantity"@ != "cmdty:id"@);
    assert("split:quantity"@.len() != "cmdty:space"@.len());
    assert("split:quantity"@ != "cmdty:space"@);
    assert("split:quantity"@.len() != "gdate"@.len());
    assert("split:quantity"@ != "gdate"@);
    assert("split:quantity"@.len() != "gnc:account"@.len());
    assert("split:quantity"@ != "gnc:account"@);
    assert("split:quantity"@.len() != "gnc:commodity"@.len());
    assert("split:quantity"@ != "gnc:commodity"@);
    assert("split:quantity"@.len() != "gnc:transaction"@.len());
    assert("split:quantity"@ != "gnc:transaction"@);
    assert("split:quantity"@.len() != "price:commodity"@.len());
    assert("split:quantity"@ != "price:commodity"@);
    assert("split:quantity"@[0] != "price:currency"@[0]);
    assert("split:quantity"@ != "price:currency"@);
    assert("split:quantity"@.len() != "slot"@.len());
    assert("split:quantity"@ != "slot"@);
    assert("split:quantity"@.len() != "slot:key"@.len());
    assert("split:quantity"@ != "slot:key"@);
    assert("split:quantity"@.len() != "slot:value"@.len());
    assert("split:quantity"@ != "slot:value"@);
    assert("split:quantity"@.len() != "split:account"@.len());
    assert("split:quantity"@ != "split:account"@);
    assert("split:quantity"@.len() != "split:action"@.len());
    assert("split:quantity"@ != "split:action"@);
    assert("split:quantity"@.len() != "split:id"@.len());
    assert("split:quantity"@ != "split:id"@);
    assert("split:quantity"@.len() != "split:memo"@.len());
    assert("split:quantity"@ != "split:memo"@);
    assert("split:quantity"@.len() != "split:reconciled-state"@.len());
    assert("split:quantity"@ != "split:reconciled-state"@);
    assert("split:quantity"@.len() != "split:value"@.len());
    assert("split:quantity"@ != "split:value"@);
    assert("split:quantity"@.len() != "trn:currency"@.len());
    assert("split:quantity"@ != "trn:currency"@);
    assert("split:quantity"@.len() != "trn:description"@.len());
    assert("split:quantity"@ != "trn:description"@);
    assert("split:quantity"@.len() != "trn:id"@.len());
    assert("split:quantity"@ != "trn:id"@);
    assert("split:quantity"@.len() != "trn:num"@.len());
    assert("split:quantity"@ != "trn:num"@);
    assert("split:quantity"@.len() != "trn:split"@.len());
    assert("split:quantity"@ != "trn:split"@);
    assert("split:quantity"@.len() != "ts:date"@.len());
    assert("split:quantity"@ != "ts:date"@);
}

/// A split's amounts are read from their own elements: where a split is
/// being read and the element's text (trimmed) is a GnuCash fraction `v`,
/// the end of `split:value` makes `v` the split's value and leaves its
/// quantity, and the end of `split:quantity` makes `v` its quantity and
/// leaves its value; text that is no fraction stops the import there.
pub proof fn lemma_split_amounts(s: StateV, x: SplitV)
    requires
        s.cur_split == Some(x),
    ensures
        gnc_fraction_spec(trim(s.text)) matches Ok(v) ==> (end_spec(s, "split:value"@) matches Ok(s2)
            && s2.cur_split == Some(SplitV { value: v, ..x })),
        gnc_fraction_spec(trim(s.text)) matches Ok(v) ==> (end_spec(s, "split:quantity"@) matches Ok(s2)
            && s2.cur_split == Some(SplitV { quantity: v, ..x })),
        gnc_fraction_spec(trim(s.text)) matches Err(e) ==> end_spec(s, "split:value"@) == Err::<StateV, MoneyFault>(e)
            && end_spec(s, "split:quantity"@) == Err::<StateV, MoneyFault>(e),
{
    lemma_split_amount_names();
}

pub open spec fn fault_of(r: Result<(), MoneyError>, spec: Result<StateV, MoneyFault>, after: StateV) -> bool {
    match r {
        Ok(_) => spec == Ok::<StateV, MoneyFault>(after),
        Err(e) => spec == Err::<StateV, MoneyFault>(e@),
    }
}

fn empty_account_exec() -> (a: Account)
    ensures
        a@ == empty_account(),
{
    Account {
        id: String::new(),
        name: String::new(),
        kind: String::new(),
        commodity: None,
        parent: None,
        code: None,
        description: None,
        notes: None,
        placeholder: false,
        hidden: false,
    }
}

fn empty_transaction_exec() -> (t: Transaction)
    ensures
        t@ == empty_transaction(),
{
    let t = Transaction {
        id: String::new(),
        currency: None,
        num: None,
        date_posted: None,
        gdate_posted: None,
        date_entered: None,
        description: None,
        splits: Vec::new(),
    };
    assert(t@ =~= empty_transaction());
    t
}

fn empty_split_exec() -> (x: Split)
    ensures
        x@ == empty_split(),
{
    Split {
        id: String::new(),
        account: String::new(),
        memo: None,
        action: None,
        reconcile: String::new(),
        value: (0, 0),
        quantity: (0, 0),
    }
}

fn empty_price_exec() -> (p: Price)
    ensures
        p@ == empty_price(),
{
    Price {
        id: String::new(),
        commodity: None,
        currency: None,
        date: None,
        source: None,
        kind: None,
        value: (0, 0),
    }
}

impl ParseState {
    pub fn new() -> (s: ParseState)
        ensures
            s@ == initial_state(),
    {
        let s = ParseState {
            parsed: Parsed::new(),
            path: Vec::new(),
            text: String::new(),
            cur_acc: None,
            cur_tx: None,
            cur_split: None,
            cur_price: None,
            cur_def: None,
            cmdty_ref: CommodityRef::new(),
            slot_keys: Vec::new(),
        };
        assert(s@ =~= initial_state());
        s
    }

    /// A start tag.
    pub fn start(&mut self, name: String)
        ensures
            final(self)@ == start_spec(old(self)@, name@),
    {
        if string_is(&name, "gnc:account") {
            self.cur_acc = Some(empty_account_exec());
        } else if string_is(&name, "gnc:transaction") {
            self.cur_tx = Some(empty_transaction_exec());
        } else if string_is(&name, "trn:split") {
            self.cur_split = Some(empty_split_exec());
        } else if string_is(&name, "price") {
            self.cur_price = Some(empty_price_exec());
        } else if string_is(&name, "gnc:commodity") {
            self.cur_def = Some((CommodityRef::new(), None));
        } else if string_is(&name, "act:commodity") || string_is(&name, "trn:currency") || string_is(
            &name,
            "price:commodity",
        ) || string_is(&name, "price:currency") {
            self.cmdty_ref = CommodityRef::new();
        }
        let ghost mid = self@;
        self.path.push(name);
        self.text = String::new();
        assert(strs(self.path@) =~= mid.path.push(name@));
        assert(self@ =~= StateV { path: mid.path.push(name@), text: Seq::empty(), ..mid });
    }

    /// Text between tags.
    pub fn add_text(&mut self, t: &String)
        ensures
            final(self)@ == (StateV { text: old(self)@.text + t@, ..old(self)@ }),
    {
        self.text.push_str(t.as_str());
        assert(self@ =~= StateV { text: old(self)@.text + t@, ..old(self)@ });
    }
}


impl ParseState {
    fn end_commodity_exec(&mut self, name: &String, parent: &String, value: String) -> (r: Result<(), MoneyError>)
        requires
            keys_unique(old(self)@.parsed.commodities),
        ensures
            fault_of(r, end_commodity(old(self)@, name@, parent@, value@), final(self)@),
            r is Ok ==> keys_unique(final(self)@.parsed.commodities),
    {
        let ghost s = self@;
        if string_is(name, "cmdty:space") || string_is(name, "cmdty:id") {
            let is_space = string_is(name, "cmdty:space");
            let under_def = string_is(parent, "gnc:commodity");
            match self.cur_def.take() {
                Some((mut c, f)) => {
                    if under_def {
                        if is_space {
                            c.space = value;
                        } else {
                            c.id = value;
                        }
                        self.cur_def = Some((c, f));
                    } else {
                        self.cur_def = Some((c, f));
                        if is_space {
                            self.cmdty_ref.space = value;
                        } else {
                            self.cmdty_ref.id = value;
                        }
                    }
                },
                None => {
                    if is_space {
                        self.cmdty_ref.space = value;
                    } else {
                        self.cmdty_ref.id = value;
                    }
                },
            }
            assert(self@ =~= end_commodity(s, name@, parent@, value@)->Ok_0);
            return Ok(());
        }
        if string_is(name, "cmdty:fraction") {
            match self.cur_def.take() {
                Some((c, _)) => {
                    let f = match parse_i64(&chars_of(value.as_str())) {
                        Ok(x) => Some(x),
                        Err(_) => None,
                    };
                    self.cur_def = Some((c, f));
                },
                None => {},
            }
            assert(self@ =~= end_commodity(s, name@, parent@, value@)->Ok_0);
            return Ok(());
        }
        if string_is(name, "gnc:commodity") {
            match self.cur_def.take() {
                Some((c, f)) => {
                    let fr = match f {
                        Some(x) => x,
                        None => 100,
                    };
                    self.parsed.note_commodity(&c, Some(fr));
                },
                None => {},
            }
            assert(self@ =~= end_commodity(s, name@, parent@, value@)->Ok_0);
            return Ok(());
        }
        if string_is(name, "act:commodity") {
            match self.cur_acc.take() {
                Some(mut a) => {
                    self.parsed.note_commodity(&self.cmdty_ref, None);
                    a.commodity = Some(self.cmdty_ref.clone_ref());
                    self.cur_acc = Some(a);
                },
                None => {},
            }
            assert(self@ =~= end_commodity(s, name@, parent@, value@)->Ok_0);
            return Ok(());
        }
        if string_is(name, "trn:currency") {
            match self.cur_tx.take() {
                Some(mut t) => {
                    self.parsed.note_commodity(&self.cmdty_ref, None);
                    t.currency = Some(self.cmdty_ref.clone_ref());
                    self.cur_tx = Some(t);
                },
                None => {},
            }
            assert(self@ =~= end_commodity(s, name@, parent@, value@)->Ok_0);
            return Ok(());
        }
        if string_is(name, "price:commodity") || string_is(name, "price:currency") {
            let is_commodity = string_is(name, "price:commodity");
            match self.cur_price.take() {
                Some(mut p) => {
                    self.parsed.note_commodity(&self.cmdty_ref, None);
                    if is_commodity {
                        p.commodity = Some(self.cmdty_ref.clone_ref());
                    } else {
                        p.currency = Some(self.cmdty_ref.clone_ref());
                    }
                    self.cur_price = Some(p);
                },
                None => {},
            }
            assert(self@ =~= end_commodity(s, name@, parent@, value@)->Ok_0);
            return Ok(());
        }
        self.end_account_exec(name, parent, value)
    }

    fn end_account_exec(&mut self, name: &String, parent: &String, value: String) -> (r: Result<(), MoneyError>)
        requires
            keys_unique(old(self)@.parsed.commodities),
        ensures
            fault_of(r, end_account(old(self)@, name@, parent@, value@), final(self)@),
            r is Ok ==> keys_unique(final(self)@.parsed.commodities),
    {
        let ghost s = self@;
        if string_is(name, "act:name") {
            match self.cur_acc.take() {
                Some(mut a) => {
                    a.name = value;
                    self.cur_acc = Some(a);
                },
                None => {},
            }
            assert(self@ =~= end_account(s, name@, parent@, value@)->Ok_0);
            return Ok(());
        }
        if string_is(name, "act:id") {
            match self.cur_acc.take() {
                Some(mut a) => {
                    a.id = value;
                    self.cur_acc = Some(a);
                },
                None => {},
            }
            assert(self@ =~= end_account(s, name@, parent@, value@)->Ok_0);
            return Ok(());
        }
        if string_is(name, "act:type") {
            match self.cur_acc.take() {
                Some(mut a) => {
                    a.kind = value;
                    self.cur_acc = Some(a);
                },
                None => {},
            }
            assert(self@ =~= end_account(s, name@, parent@, value@)->Ok_0);
            return Ok(());
        }
        if string_is(name, "act:code") {
            match self.cur_acc.take() {
                Some(mut a) => {
                    a.code = Some(value);
                    self.cur_acc = Some(a);
                },
                None => {},
            }
            assert(self@ =~= end_account(s, name@, parent@, value@)->Ok_0);
            return Ok(());
        }
        if string_is(name, "act:description") {
            match self.cur_acc.take() {
                Some(mut a) => {
                    a.description = Some(value);
                    self.cur_acc = Some(a);
                },
                None => {},
            }
            assert(self@ =~= end_account(s, name@, parent@, value@)->Ok_0);
            return Ok(());
        }
        if string_is(name, "act:parent") {
            match self.cur_acc.take() {
                Some(mut a) => {
                    a.parent = Some(value);
                    self.cur_acc = Some(a);
                },
                None => {},
            }
            assert(self@ =~= end_account(s, name@, parent@, value@)->Ok_0);
            return Ok(());
        }
        if string_is(name, "gnc:account") {
            match self.cur_acc.take() {
                Some(a) => {
                    self.parsed.accounts.push(a);
                },
                None => {},
            }
            assert(self@ =~= end_account(s, name@, parent@, value@)->Ok_0);
            return Ok(());
        }
        if string_is(name, "slot:key") {
            self.slot_keys.push(value);
            assert(self@ =~= end_account(s, name@, parent@, value@)->Ok_0);
            return Ok(());
        }
        if string_is(name, "slot:value") {
            if self.slot_keys.len() == 1 {
                let is_true = string_is(&value, "true");
                if string_is(&self.slot_keys[0], "placeholder") {
                    match self.cur_acc.take() {
                        Some(mut a) => {
                            a.placeholder = is_true;
                            self.cur_acc = Some(a);
                        },
                        None => {},
                    }
                } else if string_is(&self.slot_keys[0], "hidden") {
                    match self.cur_acc.take() {
                        Some(mut a) => {
                            a.hidden = is_true;
                            self.cur_acc = Some(a);
                        },
                        None => {},
                    }
                } else if string_is(&self.slot_keys[0], "notes") && !value.as_str().is_empty() {
                    match self.cur_acc.take() {
                        Some(mut a) => {
                            a.notes = Some(value);
                            self.cur_acc = Some(a);
                        },
                        None => {},
                    }
                }
            }
            assert(self@ =~= end_account(s, name@, parent@, value@)->Ok_0);
            return Ok(());
        }
        if string_is(name, "gdate") {
            let n = self.slot_keys.len();
            let dated = self.cur_split.is_none() && n > 0 && string_is(&self.slot_keys[n - 1], "date-posted");
            match self.cur_tx.take() {
                Some(mut t) => {
                    if dated {
                        t.gdate_posted = Some(value);
                    }
                    self.cur_tx = Some(t);
                },
                None => {},
            }
            assert(self@ =~= end_account(s, name@, parent@, value@)->Ok_0);
            return Ok(());
        }
        if string_is(name, "slot") {
            if self.slot_keys.len() > 0 {
                self.slot_keys.pop();
                assert(strs(self.slot_keys@) =~= s.slot_keys.drop_last());
            }
            assert(self@ =~= end_account(s, name@, parent@, value@)->Ok_0);
            return Ok(());
        }
        self.end_transaction_exec(name, parent, value)
    }

    fn end_transaction_exec(&mut self, name: &String, parent: &String, value: String) -> (r: Result<(), MoneyError>)
        requires
            keys_unique(old(self)@.parsed.commodities),
        ensures
            fault_of(r, end_transaction(old(self)@, name@, parent@, value@), final(self)@),
            r is Ok ==> keys_unique(final(self)@.parsed.commodities),
    {
        let ghost s = self@;
        if string_is(name, "trn:id") {
            match self.cur_tx.take() {
                Some(mut t) => {
                    t.id = value;
                    self.cur_tx = Some(t);
                },
                None => {},
            }
            assert(self@ =~= end_transaction(s, name@, parent@, value@)->Ok_0);
            return Ok(());
        }
        if string_is(name, "trn:num") {
            match self.cur_tx.take() {
                Some(mut t) => {
                    t.num = Some(value);
                    self.cur_tx = Some(t);
                },
                None => {},
            }
            assert(self@ =~= end_transaction(s, name@, parent@, value@)->Ok_0);
            return Ok(());
        }
        if string_is(name, "trn:description") {
            match self.cur_tx.take() {
                Some(mut t) => {
                    t.description = Some(value);
                    self.cur_tx = Some(t);
                },
                None => {},
            }
            assert(self@ =~= end_transaction(s, name@, parent@, value@)->Ok_0);
            return Ok(());
        }
        if string_is(name, "ts:date") {
            if string_is(parent, "trn:date-posted") {
                match self.cur_tx.take() {
                    Some(mut t) => {
                        t.date_posted = Some(date_part(value.as_str()));
                        self.cur_tx = Some(t);
                    },
                    None => {},
                }
            } else if string_is(parent, "trn:date-entered") {
                match self.cur_tx.take() {
                    Some(mut t) => {
                        t.date_entered = Some(value);
                        self.cur_tx = Some(t);
                    },
                    None => {},
                }
            } else if string_is(parent, "price:time") {
                match self.cur_price.take() {
                    Some(mut p) => {
                        p.date = Some(date_part(value.as_str()));
                        self.cur_price = Some(p);
                    },
                    None => {},
                }
            }
            assert(self@ =~= end_transaction(s, name@, parent@, value@)->Ok_0);
            return Ok(());
        }
        if string_is(name, "gnc:transaction") {
            match self.cur_tx.take() {
                Some(t) => {
                    self.parsed.transactions.push(t);
                },
                None => {},
            }
            assert(self@ =~= end_transaction(s, name@, parent@, value@)->Ok_0);
            return Ok(());
        }
        self.end_split_exec(name, value)
    }

    fn end_split_exec(&mut self, name: &String, value: String) -> (r: Result<(), MoneyError>)
        requires
            keys_unique(old(self)@.parsed.commodities),
        ensures
            fault_of(r, end_split(old(self)@, name@, value@), final(self)@),
            r is Ok ==> keys_unique(final(self)@.parsed.commodities),
    {
        let ghost s = self@;
        if string_is(name, "split:id") {
            match self.cur_split.take() {
                Some(mut x) => {
                    x.id = value;
                    self.cur_split = Some(x);
                },
                None => {},
            }
            assert(self@ =~= end_split(s, name@, value@)->Ok_0);
            return Ok(());
        }
        if string_is(name, "split:memo") {
            match self.cur_split.take() {
                Some(mut x) => {
                    x.memo = Some(value);
                    self.cur_split = Some(x);
                },
                None => {},
            }
            assert(self@ =~= end_split(s, name@, value@)->Ok_0);
            return Ok(());
        }
        if string_is(name, "split:action") {
            match self.cur_split.take() {
                Some(mut x) => {
                    x.action = Some(value);
                    self.cur_split = Some(x);
                },
                None => {},
            }
            assert(self@ =~= end_split(s, name@, value@)->Ok_0);
            return Ok(());
        }
        if string_is(name, "split:reconciled-state") {
            match self.cur_split.take() {
                Some(mut x) => {
                    x.reconcile = value;
                    self.cur_split = Some(x);
                },
                None => {},
            }
            assert(self@ =~= end_split(s, name@, value@)->Ok_0);
            return Ok(());
        }
        if string_is(name, "split:account") {
            match self.cur_split.take() {
                Some(mut x) => {
                    x.account = value;
                    self.cur_split = Some(x);
                },
                None => {},
            }
            assert(self@ =~= end_split(s, name@, value@)->Ok_0);
            return Ok(());
        }
        if string_is(name, "split:value") || string_is(name, "split:quantity") {
            let is_value = string_is(name, "split:value");
            match self.cur_split.take() {
                Some(mut x) => {
                    let q = parse_gnc_fraction(value.as_str());
                    match q {
                        Ok(v) => {
                            if is_value {
                                x.value = v;
                            } else {
                                x.quantity = v;
                            }
                            self.cur_split = Some(x);
                        },
                        Err(e) => {
                            return Err(e);
                        },
                    }
                },
                None => {},
            }
            assert(self@ =~= end_split(s, name@, value@)->Ok_0);
            return Ok(());
        }
        if string_is(name, "trn:split") {
            let sp = self.cur_split.take();
            match (self.cur_tx.take(), sp) {
                (Some(mut t), Some(x)) => {
                    let ghost before = splits_v(t.splits@);
                    t.splits.push(x);
                    assert(splits_v(t.splits@) =~= before.push(x@));
                    self.cur_tx = Some(t);
                },
                (t, _) => {
                    self.cur_tx = t;
                },
            }
            assert(self@ =~= end_split(s, name@, value@)->Ok_0);
            return Ok(());
        }
        self.end_price_exec(name, value)
    }

    fn end_price_exec(&mut self, name: &String, value: String) -> (r: Result<(), MoneyError>)
        requires
            keys_unique(old(self)@.parsed.commodities),
        ensures
            fault_of(r, end_price(old(self)@, name@, value@), final(self)@),
            r is Ok ==> keys_unique(final(self)@.parsed.commodities),
    {
        let ghost s = self@;
        if string_is(name, "price:id") {
            match self.cur_price.take() {
                Some(mut p) => {
                    p.id = value;
                    self.cur_price = Some(p);
                },
                None => {},
            }
            assert(self@ =~= end_price(s, name@, value@)->Ok_0);
            return Ok(());
        }
        if string_is(name, "price:source") {
            match self.cur_price.take() {
                Some(mut p) => {
                    p.source = Some(value);
                    self.cur_price = Some(p);
                },
                None => {},
            }
            assert(self@ =~= end_price(s, name@, value@)->Ok_0);
            return Ok(());
        }
        if string_is(name, "price:type") {
            match self.cur_price.take() {
                Some(mut p) => {
                    p.kind = Some(value);
                    self.cur_price = Some(p);
                },
                None => {},
            }
            assert(self@ =~= end_price(s, name@, value@)->Ok_0);
            return Ok(());
        }
        if string_is(name, "price:value") {
            match self.cur_price.take() {
                Some(mut p) => {
                    match parse_gnc_fraction(value.as_str()) {
                        Ok(v) => {
                            p.value = v;
                            self.cur_price = Some(p);
                        },
                        Err(e) => {
                            return Err(e);
                        },
                    }
                },
                None => {},
            }
            assert(self@ =~= end_price(s, name@, value@)->Ok_0);
            return Ok(());
        }
        if string_is(name, "price") {
            match self.cur_price.take() {
                Some(p) => {
                    self.parsed.prices.push(p);
                },
                None => {},
            }
            assert(self@ =~= end_price(s, name@, value@)->Ok_0);
            return Ok(());
        }
        Ok(())
    }

    /// An end tag.
    pub fn end(&mut self, name: &String) -> (r: Result<(), MoneyError>)
        requires
            keys_unique(old(self)@.parsed.commodities),
        ensures
            fault_of(r, end_spec(old(self)@, name@), final(self)@),
            r is Ok ==> keys_unique(final(self)@.parsed.commodities),
    {
        let ghost s = self@;
        let n = self.path.len();
        let parent = if n == 0 {
            String::new()
        } else if n == 1 {
            self.path[0].clone()
        } else {
            self.path[n - 2].clone()
        };
        assert(parent@ == parent_of(s.path));
        let raw = self.text.clone();
        self.text = String::new();
        let value = string_of(&trim_chars(&chars_of(raw.as_str())));
        assert(self@ =~= StateV { text: Seq::empty(), ..s });
        match self.end_commodity_exec(name, &parent, value) {
            Ok(()) => {
                let ghost mid = self@;
                if self.path.len() > 0 {
                    self.path.pop();
                    assert(strs(self.path@) =~= mid.path.drop_last());
                }
                assert(self@ =~= end_spec(s, name@)->Ok_0);
                Ok(())
            },
            Err(e) => Err(e),
        }
    }
}


// ---------------------------------------------------------------------------
// Reading the document
// ---------------------------------------------------------------------------

#[verifier::external_type_specification]
#[verifier::external_body]
#[verifier::reject_recursive_types(R)]
pub struct ExXmlReader<R>(quick_xml::Reader<R>);

#[verifier::external_type_specification]
#[verifier::external_body]
pub struct ExXmlError(quick_xml::Error);

/// An XML event as the reader hands it over: element names and text as
/// the bytes of the document (text still escaped).
pub enum RawEvent {
    Start(Vec<u8>),
    End(Vec<u8>),
    Text(Vec<u8>),
    Eof,
    /// anything else (declarations, comments, empty elements, ...)
    Other,
}

/// A reader event as values: names and text as byte sequences.
pub enum RawEventV {
    Start(Seq<u8>),
    End(Seq<u8>),
    Text(Seq<u8>),
    Eof,
    Other,
}

impl View for RawEvent {
    type V = RawEventV;

    open spec fn view(&self) -> RawEventV {
        match self {
            RawEvent::Start(n) => RawEventV::Start(n@),
            RawEvent::End(n) => RawEventV::End(n@),
            RawEvent::Text(t) => RawEventV::Text(t@),
            RawEvent::Eof => RawEventV::Eof,
            RawEvent::Other => RawEventV::Other,
        }
    }
}

/// A quick-xml reader over a document, with (as ghost state) the document
/// and the number of events read from it so far.
pub struct DocReader<'a> {
    reader: quick_xml::Reader<&'a [u8]>,
    doc: Ghost<Seq<u8>>,
    pos: Ghost<nat>,
}

/// The event that quick-xml's `Reader::read_event_into` hands over at the
/// `k`-th read (counting from 0) of a reader made by `Reader::from_reader`
/// over `doc`, with the default configuration (text kept as it stands):
/// element names and text as bytes; `None` where that read is an error.
pub uninterp spec fn xml_event_at(doc: Seq<u8>, k: nat) -> Option<RawEventV>;

/// `quick_xml::Reader::from_reader` over the document. Claims that nothing
/// has been read from it yet.
#[verifier::external_body]
fn xml_reader<'a>(xml: &'a [u8]) -> (r: DocReader<'a>)
    ensures
        r.doc@ == xml@,
        r.pos@ == 0,
{
    DocReader { reader: quick_xml::Reader::from_reader(xml), doc: Ghost(xml@), pos: Ghost(0) }
}

/// `Config::trim_text(false)` on the reader's configuration: text is
/// handed over as it stands, which is also quick-xml's default. Claims that
/// what the reader will hand over does not change.
#[verifier::external_body]
fn keep_text_as_is(r: &mut DocReader)
    ensures
        final(r).doc@ == old(r).doc@,
        final(r).pos@ == old(r).pos@,
{
    r.reader.config_mut().trim_text(false);
}

/// `Reader::read_event_into`: the next event of the document, its element
/// name or text moved out as bytes. Claims that the outcome is the event
/// named `xml_event_at` for the document and the number of events read
/// before, and that one more event has been read.
#[verifier::external_body]
fn read_event(r: &mut DocReader) -> (e: Result<RawEvent, quick_xml::Error>)
    ensures
        final(r).doc@ == old(r).doc@,
        final(r).pos@ == old(r).pos@ + 1,
        match xml_event_at(old(r).doc@, old(r).pos@) {
            Some(ev) => e matches Ok(x) && x@ == ev,
            None => e is Err,
        },
{
    let mut buf = Vec::new();
    match r.reader.read_event_into(&mut buf)? {
        quick_xml::events::Event::Start(e) => Ok(RawEvent::Start(e.name().as_ref().to_vec())),
        quick_xml::events::Event::End(e) => Ok(RawEvent::End(e.name().as_ref().to_vec())),
        quick_xml::events::Event::Text(t) => Ok(RawEvent::Text(t.into_inner().into_owned())),
        quick_xml::events::Event::Eof => Ok(RawEvent::Eof),
        _ => Ok(RawEvent::Other),
    }
}

/// `std::str::from_utf8`, as quick-xml decodes text: the string that the
/// bytes encode where they are valid UTF-8, else an error (carried as
/// quick-xml's encoding error).
#[verifier::external_body]
fn decode_text(b: &[u8]) -> (r: Result<String, quick_xml::Error>)
    ensures
        r is Ok <==> valid_utf8(b@),
        r matches Ok(s) ==> s@ == decode_utf8(b@),
{
    match std::str::from_utf8(b) {
        Ok(s) => Ok(s.to_string()),
        Err(e) => Err(quick_xml::Error::from(quick_xml::encoding::EncodingError::from(e))),
    }
}

/// What `quick_xml::escape::unescape` makes of some text: the text with
/// its character and predefined entity references replaced, or `None`
/// where a reference is unknown or unterminated.
pub uninterp spec fn xml_unescaped(s: Seq<char>) -> Option<Seq<char>>;

/// `quick_xml::escape::unescape` (the second half of `BytesText::unescape`,
/// after decoding). Claims that the outcome is a function of the text
/// (named `xml_unescaped`).
#[verifier::external_body]
fn unescape_str(s: &str) -> (r: Result<String, quick_xml::Error>)
    ensures
        match xml_unescaped(s@) {
            Some(t) => r matches Ok(u) && u@ == t,
            None => r is Err,
        },
{
    match quick_xml::escape::unescape(s) {
        Ok(t) => Ok(t.into_owned()),
        Err(e) => Err(quick_xml::Error::from(e)),
    }
}

/// What `String::from_utf8_lossy` makes of some bytes: their UTF-8
/// decoding, with a replacement character for each invalid sequence.
pub uninterp spec fn lossy_utf8(b: Seq<u8>) -> Seq<char>;

/// `String::from_utf8_lossy`. Claims that the result is a function of the
/// bytes (named `lossy_utf8`).
#[verifier::external_body]
fn lossy(b: &[u8]) -> (s: String)
    ensures
        s@ == lossy_utf8(b@),
{
    String::from_utf8_lossy(b).into_owned()
}

/// The message of a quick-xml error (its `Display`). Nothing is claimed
/// of the text.
#[verifier::external_body]
fn xml_error_text(e: &quick_xml::Error) -> String {
    e.to_string()
}

/// Why an import failed.
pub enum ImportError {
    /// The XML could not be read (the reader's message).
    Xml(String),
    /// A GnuCash fraction did not parse.
    Fraction(MoneyError),
    /// The reader went on past one event per byte of input without
    /// reaching the end.
    Unterminated,
    /// A transaction (its id) has no currency commodity.
    NoCurrency(String),
    /// A transaction (its id) has no date.
    NoDate(String),
    /// The file looked gzip-compressed but did not decompress (the
    /// decoder's message).
    Gzip(String),
}

/// How reading a document ends.
pub enum ReadOutcome {
    /// The end of the document was reached; what was read.
    Done(ParsedV),
    /// The reader reported an error, or a text did not decode or unescape.
    XmlFailure,
    /// A GnuCash fraction did not parse.
    Fault(MoneyFault),
    /// More events than the budget allows.
    Unterminated,
}

/// The text of a text event: its bytes decoded as UTF-8, then unescaped.
pub open spec fn text_of(b: Seq<u8>) -> Option<Seq<char>> {
    if valid_utf8(b) {
        xml_unescaped(decode_utf8(b))
    } else {
        None
    }
}

/// What an event does to the state: `None` where its text cannot be read.
pub open spec fn raw_step(s: StateV, e: RawEventV) -> Option<Result<StateV, MoneyFault>> {
    match e {
        RawEventV::Start(n) => Some(Ok(start_spec(s, lossy_utf8(n)))),
        RawEventV::End(n) => Some(end_spec(s, lossy_utf8(n))),
        RawEventV::Text(b) => match text_of(b) {
            Some(t) => Some(Ok(StateV { text: s.text + t, ..s })),
            None => None,
        },
        _ => Some(Ok(s)),
    }
}

/// Reading `doc` from its `k`-th event on, in state `s`, with `fuel` more
/// events allowed before the end.
pub open spec fn read_doc(doc: Seq<u8>, s: StateV, k: nat, fuel: nat) -> ReadOutcome
    decreases fuel,
{
    match xml_event_at(doc, k) {
        None => ReadOutcome::XmlFailure,
        Some(RawEventV::Eof) => ReadOutcome::Done(s.parsed),
        Some(e) => match raw_step(s, e) {
            None => ReadOutcome::XmlFailure,
            Some(r) => if fuel == 0 {
                ReadOutcome::Unterminated
            } else {
                match r {
                    Ok(s2) => read_doc(doc, s2, k + 1, (fuel - 1) as nat),
                    Err(f) => ReadOutcome::Fault(f),
                }
            },
        },
    }
}

/// Reading a whole document: from its first event, at most one event per
/// byte.
pub open spec fn parse_doc(doc: Seq<u8>) -> ReadOutcome {
    read_doc(doc, initial_state(), 0, doc.len())
}

/// Read a GnuCash XML document: the events that quick-xml hands over,
/// folded into the state until the end of the document.
pub fn parse(xml: &[u8]) -> (r: Result<Parsed, ImportError>)
    ensures
        r is Ok <==> parse_doc(xml@) is Done,
        r matches Ok(p) ==> parse_doc(xml@) == ReadOutcome::Done(p@) && keys_unique(p@.commodities),
        r matches Err(ImportError::Xml(_)) <==> parse_doc(xml@) is XmlFailure,
        r matches Err(ImportError::Unterminated) <==> parse_doc(xml@) is Unterminated,
        r matches Err(e) ==> (e is Xml || e is Fraction || e is Unterminated),
        r matches Err(ImportError::Fraction(e)) ==> parse_doc(xml@) == ReadOutcome::Fault(e@),
        parse_doc(xml@) matches ReadOutcome::Fault(f) ==> r matches Err(ImportError::Fraction(e)) && e@ == f,
{
    let mut reader = xml_reader(xml);
    keep_text_as_is(&mut reader);
    let mut st = ParseState::new();
    let mut budget: usize = xml.len();
    loop
        invariant
            reader.doc@ == xml@,
            keys_unique(st@.parsed.commodities),
            read_doc(xml@, st@, reader.pos@, budget as nat) == parse_doc(xml@),
        decreases budget,
    {
        let ghost k = reader.pos@;
        let ghost s0 = st@;
        let raw = match read_event(&mut reader) {
            Ok(raw) => raw,
            Err(e) => {
                return Err(ImportError::Xml(xml_error_text(&e)));
            },
        };
        assert(xml_event_at(xml@, k) == Some(raw@));
        match raw {
            RawEvent::Eof => {
                return Ok(st.parsed);
            },
            RawEvent::Start(n) => {
                if budget == 0 {
                    return Err(ImportError::Unterminated);
                }
                budget -= 1;
                st.start(lossy(n.as_slice()));
            },
            RawEvent::End(n) => {
                if budget == 0 {
                    return Err(ImportError::Unterminated);
                }
                budget -= 1;
                match st.end(&lossy(n.as_slice())) {
                    Ok(()) => {},
                    Err(e) => {
                        return Err(ImportError::Fraction(e));
                    },
                }
            },
            RawEvent::Text(b) => {
                let decoded = match decode_text(b.as_slice()) {
                    Ok(d) => d,
                    Err(e) => {
                        return Err(ImportError::Xml(xml_error_text(&e)));
                    },
                };
                let text = match unescape_str(decoded.as_str()) {
                    Ok(t) => t,
                    Err(e) => {
                        return Err(ImportError::Xml(xml_error_text(&e)));
                    },
                };
                if budget == 0 {
                    return Err(ImportError::Unterminated);
                }
                budget -= 1;
                st.add_text(&text);
            },
            RawEvent::Other => {
                if budget == 0 {
                    return Err(ImportError::Unterminated);
                }
                budget -= 1;
            },
        }
    }
}

// ---------------------------------------------------------------------------
// What to store
// ---------------------------------------------------------------------------

/// An account is stored when it is the root, or has a commodity outside
/// the `template` namespace (the scheduled-transaction template tree has
/// none).
pub open spec fn keep_account(a: AccountV) -> bool {
    a.kind == "ROOT"@ || (a.commodity matches Some(c) && c.space != "template"@)
}

/// The transaction's commodity is a currency.
pub open spec fn currency_ok(t: TransactionV) -> bool {
    t.currency matches Some(c) && is_currency_space(c.space)
}

/// The date a transaction is stored under: the `date-posted` slot where
/// there is one, else the date part of `trn:date-posted`.
pub open spec fn date_of(t: TransactionV) -> Option<Seq<char>> {
    match t.gdate_posted {
        Some(d) => Some(d),
        None => t.date_posted,
    }
}

pub open spec fn tx_ok(t: TransactionV) -> bool {
    currency_ok(t) && date_of(t) is Some
}

/// A price is stored when it has a commodity, a currency and a date.
pub open spec fn keep_price(p: PriceV) -> bool {
    p.commodity is Some && p.currency is Some && p.date is Some
}

/// The number of splits over all transactions.
pub open spec fn splits_total(ts: Seq<TransactionV>) -> int
    decreases ts.len(),
{
    if ts.len() == 0 {
        0
    } else {
        splits_total(ts.drop_last()) + ts.last().splits.len()
    }
}

/// The indices `0..n` that satisfy `keep`, in order.
pub open spec fn kept(idx: Seq<usize>, n: int, keep: spec_fn(int) -> bool) -> bool {
    &&& forall|k: int| 0 <= k < idx.len() ==> #[trigger] idx[k] < n && keep(idx[k] as int)
    &&& forall|a: int, b: int| 0 <= a < b < idx.len() ==> idx[a] < idx[b]
    &&& forall|i: int| 0 <= i < n && keep(i) ==> #[trigger] idx.contains(i as usize)
}

/// The currency and date a transaction is stored with.
pub struct TxPlan {
    pub currency_id: String,
    pub date: String,
}

/// What an import stores: every commodity, the accounts and prices listed
/// (by index), every transaction with its splits, with the counts.
pub struct ImportPlan {
    pub accounts: Vec<usize>,
    pub transactions: Vec<TxPlan>,
    pub prices: Vec<usize>,
    pub stats: ImportStats,
}

fn keep_indices_accounts(v: &Vec<Account>) -> (idx: Vec<usize>)
    ensures
        kept(idx@, v.len() as int, |i: int| keep_account(v@[i]@)),
{
    let mut idx: Vec<usize> = Vec::new();
    let mut i: usize = 0;
    while i < v.len()
        invariant
            i <= v.len(),
            forall|k: int| 0 <= k < idx.len() ==> #[trigger] idx@[k] < i && keep_account(v@[idx@[k] as int]@),
            forall|a: int, b: int| 0 <= a < b < idx.len() ==> idx@[a] < idx@[b],
            forall|j: int| 0 <= j < i && keep_account(v@[j]@) ==> #[trigger] idx@.contains(j as usize),
        decreases v.len() - i,
    {
        let a = &v[i];
        let keep = string_is(&a.kind, "ROOT") || match &a.commodity {
            Some(c) => !string_is(&c.space, "template"),
            None => false,
        };
        if keep {
            let ghost before = idx@;
            idx.push(i);
            proof {
                assert forall|j: int| 0 <= j < i + 1 && keep_account(v@[j]@) implies #[trigger] idx@.contains(j as usize) by {
                    assert(idx@ == before.push(i));
                    if j < i {
                        assert(before.contains(j as usize));
                        let k = choose|k: int| 0 <= k < before.len() && before[k] == j as usize;
                        assert(idx@[k] == j as usize);
                    } else {
                        assert(idx@[idx.len() - 1] == i);
                    }
                }
            }
        }
        i += 1;
    }
    idx
}

fn keep_indices_prices(v: &Vec<Price>) -> (idx: Vec<usize>)
    ensures
        kept(idx@, v.len() as int, |i: int| keep_price(v@[i]@)),
{
    let mut idx: Vec<usize> = Vec::new();
    let mut i: usize = 0;
    while i < v.len()
        invariant
            i <= v.len(),
            forall|k: int| 0 <= k < idx.len() ==> #[trigger] idx@[k] < i && keep_price(v@[idx@[k] as int]@),
            forall|a: int, b: int| 0 <= a < b < idx.len() ==> idx@[a] < idx@[b],
            forall|j: int| 0 <= j < i && keep_price(v@[j]@) ==> #[trigger] idx@.contains(j as usize),
        decreases v.len() - i,
    {
        let p = &v[i];
        if p.commodity.is_some() && p.currency.is_some() && p.date.is_some() {
            let ghost before = idx@;
            idx.push(i);
            proof {
                assert forall|j: int| 0 <= j < i + 1 && keep_price(v@[j]@) implies #[trigger] idx@.contains(j as usize) by {
                    assert(idx@ == before.push(i));
                    if j < i {
                        assert(before.contains(j as usize));
                        let k = choose|k: int| 0 <= k < before.len() && before[k] == j as usize;
                        assert(idx@[k] == j as usize);
                    } else {
                        assert(idx@[idx.len() - 1] == i);
                    }
                }
            }
        }
        i += 1;
    }
    idx
}

/// What to store for a parsed document. Fails on the first transaction
/// (in document order) whose commodity is not a currency (`NoCurrency`),
/// or, failing that, that has no date (`NoDate`).
pub fn plan_import(p: &Parsed) -> (r: Result<ImportPlan, ImportError>)
    requires
        splits_total(p@.transactions) <= usize::MAX,
    ensures
        r matches Ok(plan) ==> {
            &&& kept(plan.accounts@, p.accounts.len() as int, |i: int| keep_account(p@.accounts[i]))
            &&& kept(plan.prices@, p.prices.len() as int, |i: int| keep_price(p@.prices[i]))
            &&& plan.transactions.len() == p.transactions.len()
            &&& forall|i: int|
                0 <= i < p.transactions.len() ==> {
                    let t = #[trigger] p@.transactions[i];
                    &&& tx_ok(t)
                    &&& plan.transactions@[i].currency_id@ == commodity_key(t.currency->0)
                    &&& Some(plan.transactions@[i].date@) == date_of(t)
                }
            &&& plan.stats.commodities == p.commodities.len()
            &&& plan.stats.accounts == plan.accounts.len()
            &&& plan.stats.transactions == p.transactions.len()
            &&& plan.stats.splits == splits_total(p@.transactions)
            &&& plan.stats.prices == plan.prices.len()
        },
        r matches Err(e) ==> exists|i: int|
            0 <= i < p.transactions.len() && (forall|j: int| 0 <= j < i ==> tx_ok(#[trigger] p@.transactions[j]))
                && !tx_ok(#[trigger] p@.transactions[i]) && match e {
                ImportError::NoCurrency(id) => !currency_ok(p@.transactions[i]) && id@ == p@.transactions[i].id,
                ImportError::NoDate(id) => currency_ok(p@.transactions[i]) && id@ == p@.transactions[i].id,
                _ => false,
            },
{
    let accounts = keep_indices_accounts(&p.accounts);
    proof {
        assert forall|i: int| 0 <= i < p.accounts.len() implies #[trigger] p@.accounts[i] == p.accounts@[i]@ by {}
    }
    let mut txs: Vec<TxPlan> = Vec::new();
    let mut nsplits: usize = 0;
    let mut i: usize = 0;
    let ghost ts = p@.transactions;
    while i < p.transactions.len()
        invariant
            i <= p.transactions.len(),
            ts == p@.transactions,
            ts.len() == p.transactions.len(),
            splits_total(ts) <= usize::MAX,
            txs.len() == i,
            nsplits == splits_total(ts.take(i as int)),
            forall|j: int|
                0 <= j < i ==> {
                    let t = #[trigger] ts[j];
                    &&& tx_ok(t)
                    &&& txs@[j].currency_id@ == commodity_key(t.currency->0)
                    &&& Some(txs@[j].date@) == date_of(t)
                },
        decreases p.transactions.len() - i,
    {
        let t = &p.transactions[i];
        assert(ts[i as int] == t@);
        let currency_id = match &t.currency {
            Some(c) => if c.is_currency() {
                c.key()
            } else {
                return Err(ImportError::NoCurrency(t.id.clone()));
            },
            None => {
                return Err(ImportError::NoCurrency(t.id.clone()));
            },
        };
        let date = match &t.gdate_posted {
            Some(d) => d.clone(),
            None => match &t.date_posted {
                Some(d) => d.clone(),
                None => {
                    return Err(ImportError::NoDate(t.id.clone()));
                },
            },
        };
        txs.push(TxPlan { currency_id, date });
        proof {
            assert(ts.take(i + 1).drop_last() =~= ts.take(i as int));
            lemma_splits_total_prefix(ts, i + 1);
        }
        nsplits = nsplits + t.splits.len();
        i += 1;
    }
    assert(ts.take(i as int) =~= ts);
    let prices = keep_indices_prices(&p.prices);
    let stats = ImportStats {
        commodities: p.commodities.len(),
        accounts: accounts.len(),
        transactions: p.transactions.len(),
        splits: nsplits,
        prices: prices.len(),
    };
    Ok(ImportPlan { accounts, transactions: txs, prices, stats })
}

proof fn lemma_splits_total_prefix(ts: Seq<TransactionV>, k: int)
    requires
        0 <= k <= ts.len(),
    ensures
        splits_total(ts.take(k)) <= splits_total(ts),
    decreases ts.len() - k,
{
    if k < ts.len() {
        lemma_splits_total_prefix(ts, k + 1);
        assert(ts.take(k + 1).drop_last() =~= ts.take(k));
    } else {
        assert(ts.take(k) =~= ts);
    }
}


// ---------------------------------------------------------------------------
// Compressed files
// ---------------------------------------------------------------------------

#[verifier::external_type_specification]
#[verifier::external_body]
pub struct ExIoError(std::io::Error);

/// What gzip decompression makes of `raw`: the decompressed bytes, or
/// `None` where `raw` is not a valid gzip stream.
pub uninterp spec fn gunzipped(raw: Seq<u8>) -> Option<Seq<u8>>;

/// `flate2::read::GzDecoder` over `raw`, read to the end. Claims that the
/// outcome is a function of the input (named `gunzipped`): decompression
/// is deterministic, and reading from a byte slice fails only where the
/// stream is invalid.
#[verifier::external_body]
fn gunzip(raw: &[u8]) -> (r: Result<Vec<u8>, std::io::Error>)
    ensures
        match r {
            Ok(v) => gunzipped(raw@) == Some(v@),
            Err(_) => gunzipped(raw@) is None,
        },
{
    let mut out = Vec::new();
    std::io::Read::read_to_end(&mut flate2::read::GzDecoder::new(raw), &mut out)?;
    Ok(out)
}

/// The message of an I/O error (its `Display`). Nothing is claimed of the
/// text.
#[verifier::external_body]
fn io_error_text(e: &std::io::Error) -> String {
    e.to_string()
}

/// The file starts with the gzip magic bytes `1f 8b`.
pub open spec fn is_gzip(raw: Seq<u8>) -> bool {
    raw.len() >= 2 && raw[0] == 0x1fu8 && raw[1] == 0x8bu8
}

/// The XML document in a file's bytes: decompressed where the file is
/// gzip-compressed, else the bytes as they are.
pub fn document_bytes(raw: Vec<u8>) -> (r: Result<Vec<u8>, ImportError>)
    ensures
        !is_gzip(raw@) ==> (r matches Ok(v) && v@ == raw@),
        is_gzip(raw@) ==> match r {
            Ok(v) => gunzipped(raw@) == Some(v@),
            Err(e) => e is Gzip && gunzipped(raw@) is None,
        },
{
    if raw.len() >= 2 && raw[0] == 0x1f && raw[1] == 0x8b {
        match gunzip(raw.as_slice()) {
            Ok(v) => Ok(v),
            Err(e) => Err(ImportError::Gzip(io_error_text(&e))),
        }
    } else {
        Ok(raw)
    }
}

} // verus!
