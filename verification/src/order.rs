//! Ordering of text: strings compare by code point (which is the byte
//! order of their UTF-8 encoding, the order of `String` and of SQLite's
//! default collation), optional strings put `None` first, and sort keys
//! of several components compare component by component.

use vstd::prelude::*;

verus! {

broadcast use vstd::seq_lib::group_to_multiset_ensures;

/// `a < b` in code-point order.
pub open spec fn str_lt(a: Seq<char>, b: Seq<char>) -> bool
    decreases a.len(),
{
    if a.len() == 0 {
        b.len() > 0
    } else if b.len() == 0 {
        false
    } else if a[0] != b[0] {
        (a[0] as int) < (b[0] as int)
    } else {
        str_lt(a.drop_first(), b.drop_first())
    }
}

pub proof fn lemma_str_lt_irrefl(a: Seq<char>)
    ensures
        !str_lt(a, a),
    decreases a.len(),
{
    if a.len() > 0 {
        lemma_str_lt_irrefl(a.drop_first());
    }
}

pub proof fn lemma_str_lt_trans(a: Seq<char>, b: Seq<char>, c: Seq<char>)
    requires
        str_lt(a, b),
        str_lt(b, c),
    ensures
        str_lt(a, c),
    decreases a.len(),
{
    if a.len() > 0 && b.len() > 0 && c.len() > 0 && a[0] == b[0] && b[0] == c[0] {
        lemma_str_lt_trans(a.drop_first(), b.drop_first(), c.drop_first());
    }
}

pub proof fn lemma_str_lt_total(a: Seq<char>, b: Seq<char>)
    ensures
        str_lt(a, b) || str_lt(b, a) || a == b,
    decreases a.len(),
{
    if a.len() > 0 && b.len() > 0 {
        if a[0] == b[0] {
            lemma_str_lt_total(a.drop_first(), b.drop_first());
            if a.drop_first() == b.drop_first() {
                assert(a =~= seq![a[0]] + a.drop_first());
                assert(b =~= seq![b[0]] + b.drop_first());
            }
        } else {
            assert((a[0] as int) != (b[0] as int));
        }
    } else if a.len() == 0 && b.len() == 0 {
        assert(a =~= b);
    }
}

/// One component of a sort key: an optional string, `None` first.
pub open spec fn comp_lt(x: Option<Seq<char>>, y: Option<Seq<char>>) -> bool {
    match (x, y) {
        (None, Some(_)) => true,
        (Some(a), Some(b)) => str_lt(a, b),
        _ => false,
    }
}

/// Sort keys compare component by component.
pub open spec fn key_lt(a: Seq<Option<Seq<char>>>, b: Seq<Option<Seq<char>>>) -> bool
    decreases a.len(),
{
    if a.len() == 0 || b.len() == 0 {
        false
    } else if a[0] != b[0] {
        comp_lt(a[0], b[0])
    } else {
        key_lt(a.drop_first(), b.drop_first())
    }
}

pub open spec fn key_le(a: Seq<Option<Seq<char>>>, b: Seq<Option<Seq<char>>>) -> bool {
    !key_lt(b, a)
}

proof fn lemma_comp_props(x: Option<Seq<char>>, y: Option<Seq<char>>, z: Option<Seq<char>>)
    ensures
        !comp_lt(x, x),
        comp_lt(x, y) && comp_lt(y, z) ==> comp_lt(x, z),
        comp_lt(x, y) || comp_lt(y, x) || x == y,
{
    if let Some(a) = x {
        lemma_str_lt_irrefl(a);
        if let Some(b) = y {
            lemma_str_lt_total(a, b);
            if let Some(c) = z {
                if comp_lt(x, y) && comp_lt(y, z) {
                    lemma_str_lt_trans(a, b, c);
                }
            }
        }
    }
}

pub proof fn lemma_key_lt_irrefl(a: Seq<Option<Seq<char>>>)
    ensures
        !key_lt(a, a),
    decreases a.len(),
{
    if a.len() > 0 {
        lemma_key_lt_irrefl(a.drop_first());
    }
}

pub proof fn lemma_key_lt_trans(
    a: Seq<Option<Seq<char>>>,
    b: Seq<Option<Seq<char>>>,
    c: Seq<Option<Seq<char>>>,
)
    requires
        key_lt(a, b),
        key_lt(b, c),
    ensures
        key_lt(a, c),
    decreases a.len(),
{
    lemma_comp_props(a[0], b[0], c[0]);
    lemma_comp_props(b[0], c[0], a[0]);
    lemma_comp_props(c[0], a[0], b[0]);
    if a[0] == b[0] && b[0] == c[0] {
        lemma_key_lt_trans(a.drop_first(), b.drop_first(), c.drop_first());
    }
}

pub proof fn lemma_key_lt_total(a: Seq<Option<Seq<char>>>, b: Seq<Option<Seq<char>>>)
    requires
        a.len() == b.len(),
    ensures
        key_lt(a, b) || key_lt(b, a) || a == b,
    decreases a.len(),
{
    if a.len() > 0 {
        lemma_comp_props(a[0], b[0], a[0]);
        if a[0] == b[0] {
            lemma_key_lt_total(a.drop_first(), b.drop_first());
            if a.drop_first() == b.drop_first() {
                assert(a =~= seq![a[0]] + a.drop_first());
                assert(b =~= seq![b[0]] + b.drop_first());
            }
        }
    } else {
        assert(a =~= b);
    }
}

/// A sort key as the caller builds it.
pub type Key = Vec<Option<String>>;

pub open spec fn opt_view(o: Option<String>) -> Option<Seq<char>> {
    match o {
        Some(s) => Some(s@),
        None => None,
    }
}

pub open spec fn key_view(k: Key) -> Seq<Option<Seq<char>>> {
    k@.map_values(|o: Option<String>| opt_view(o))
}

/// `a < b` for strings.
pub fn str_less(a: &String, b: &String) -> (r: bool)
    ensures
        r == str_lt(a@, b@),
{
    let x = crate::text::chars_of(a.as_str());
    let y = crate::text::chars_of(b.as_str());
    let mut i: usize = 0;
    assert(x@.skip(0) =~= x@);
    assert(y@.skip(0) =~= y@);
    while i < x.len() && i < y.len() && x[i] == y[i]
        invariant
            i <= x.len(),
            i <= y.len(),
            x@ == a@,
            y@ == b@,
            str_lt(a@, b@) == str_lt(x@.skip(i as int), y@.skip(i as int)),
        decreases x.len() - i,
    {
        assert(x@.skip(i as int).drop_first() =~= x@.skip(i + 1));
        assert(y@.skip(i as int).drop_first() =~= y@.skip(i + 1));
        i += 1;
    }
    if i == x.len() {
        i < y.len()
    } else if i == y.len() {
        false
    } else {
        x[i] < y[i]
    }
}

/// Strings are equal.
pub fn str_eq(a: &String, b: &String) -> (r: bool)
    ensures
        r == (a@ == b@),
{
    *a == *b
}

fn opt_eq(a: &Option<String>, b: &Option<String>) -> (r: bool)
    ensures
        r == (opt_view(*a) == opt_view(*b)),
{
    match (a, b) {
        (None, None) => true,
        (Some(x), Some(y)) => str_eq(x, y),
        _ => false,
    }
}

fn comp_less(a: &Option<String>, b: &Option<String>) -> (r: bool)
    ensures
        r == comp_lt(opt_view(*a), opt_view(*b)),
{
    match (a, b) {
        (None, Some(_)) => true,
        (Some(x), Some(y)) => str_less(x, y),
        _ => false,
    }
}

/// `a < b` for sort keys.
pub fn key_less(a: &Key, b: &Key) -> (r: bool)
    ensures
        r == key_lt(key_view(*a), key_view(*b)),
{
    let ghost ka = key_view(*a);
    let ghost kb = key_view(*b);
    let mut i: usize = 0;
    assert(ka.skip(0) =~= ka);
    assert(kb.skip(0) =~= kb);
    while i < a.len() && i < b.len()
        invariant
            i <= a.len(),
            i <= b.len(),
            ka == key_view(*a),
            kb == key_view(*b),
            ka.len() == a.len(),
            kb.len() == b.len(),
            key_lt(ka, kb) == key_lt(ka.skip(i as int), kb.skip(i as int)),
        decreases a.len() - i,
    {
        assert(ka.skip(i as int)[0] == opt_view(a@[i as int]));
        assert(kb.skip(i as int)[0] == opt_view(b@[i as int]));
        if !opt_eq(&a[i], &b[i]) {
            return comp_less(&a[i], &b[i]);
        }
        assert(ka.skip(i as int).drop_first() =~= ka.skip(i + 1));
        assert(kb.skip(i as int).drop_first() =~= kb.skip(i + 1));
        i += 1;
    }
    false
}

/// `order` lists the indices of `keys` in non-decreasing key order.
pub open spec fn sorted_by_keys(order: Seq<usize>, keys: Seq<Key>) -> bool {
    &&& forall|i: int| 0 <= i < order.len() ==> #[trigger] order[i] < keys.len()
    &&& forall|i: int, j: int|
        0 <= i < j < order.len() ==> key_le(
            key_view(keys[order[i] as int]),
            key_view(keys[order[j] as int]),
        )
}

/// `items` sorted by the keys they index (insertion sort, which keeps
/// items with equal keys in their given order).
pub fn sort_indices(items: &Vec<usize>, keys: &Vec<Key>) -> (order: Vec<usize>)
    requires
        forall|i: int| 0 <= i < items.len() ==> #[trigger] items@[i] < keys.len(),
        forall|i: int, j: int| 0 <= i < keys.len() && 0 <= j < keys.len() ==> (#[trigger] keys@[i]).len() == (#[trigger] keys@[j]).len(),
    ensures
        order@.to_multiset() == items@.to_multiset(),
        sorted_by_keys(order@, keys@),
        order.len() == items.len(),
{
    let mut order: Vec<usize> = Vec::new();
    let mut n: usize = 0;
    assert(items@.take(0) =~= Seq::<usize>::empty());
    while n < items.len()
        invariant
            n <= items.len(),
            forall|i: int| 0 <= i < items.len() ==> #[trigger] items@[i] < keys.len(),
            order@.to_multiset() == items@.take(n as int).to_multiset(),
            order.len() == n,
            sorted_by_keys(order@, keys@),
            forall|i: int, j: int| 0 <= i < keys.len() && 0 <= j < keys.len() ==> (#[trigger] keys@[i]).len() == (#[trigger] keys@[j]).len(),
        decreases items.len() - n,
    {
        let x = items[n];
        // insert x after every element whose key is not above its own
        let mut p = order.len();
        while p > 0 && key_less(&keys[x], &keys[order[p - 1]])
            invariant
                p <= order.len(),
                x < keys.len(),
                order.len() == n,
                forall|i: int| 0 <= i < order.len() ==> #[trigger] order@[i] < keys.len(),
                forall|q: int|
                    p <= q < order.len() ==> key_lt(
                        key_view(keys@[x as int]),
                        key_view(keys@[#[trigger] order@[q] as int]),
                    ),
            decreases p,
        {
            p -= 1;
        }
        let ghost old_order = order@;
        proof {
            assert forall|q: int| 0 <= q < p implies key_le(
                key_view(keys@[#[trigger] order@[q] as int]),
                key_view(keys@[x as int]),
            ) by {
                if p > 0 && q < p - 1 {
                    let a = key_view(keys@[order@[q] as int]);
                    let y = key_view(keys@[order@[p - 1] as int]);
                    let z = key_view(keys@[x as int]);
                    assert(key_le(a, y));
                    assert(!key_lt(z, y));
                    if key_lt(z, a) {
                        lemma_key_lt_total(a, y);
                        if key_lt(a, y) {
                            lemma_key_lt_trans(z, a, y);
                        }
                    }
                }
            }
        }
        order.insert(p, x);
        proof {
            assert(order@ == old_order.insert(p as int, x));
            vstd::seq_lib::to_multiset_insert(old_order, p as int, x);
            assert(items@.take(n + 1) =~= items@.take(n as int).push(x));
            assert forall|i: int, j: int| 0 <= i < j < order.len() implies key_le(
                key_view(keys@[order@[i] as int]),
                key_view(keys@[order@[j] as int]),
            ) by {
                let kx = key_view(keys@[x as int]);
                if i < p && j == p {
                    assert(order@[i] == old_order[i]);
                } else if i == p && j > p {
                    assert(order@[j] == old_order[j - 1]);
                    lemma_key_lt_irrefl(kx);
                    let y = key_view(keys@[old_order[j - 1] as int]);
                    if key_lt(y, kx) {
                        lemma_key_lt_trans(y, kx, y);
                        lemma_key_lt_irrefl(y);
                    }
                } else if i < p && j > p {
                    assert(order@[i] == old_order[i]);
                    assert(order@[j] == old_order[j - 1]);
                } else if j < p {
                    assert(order@[i] == old_order[i]);
                    assert(order@[j] == old_order[j]);
                } else {
                    assert(order@[i] == old_order[i - 1]);
                    assert(order@[j] == old_order[j - 1]);
                }
            }
        }
        n += 1;
    }
    assert(items@.take(n as int) =~= items@);
    order
}

} // verus!
