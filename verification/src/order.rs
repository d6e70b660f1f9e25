//! Ordering of sort keys and the stable sort that every table uses.
use crate::keys::{ix, key_views, push_text_key, text_key};
use crate::text::{lowercase, to_lower};
use std::cmp::Ordering;
use vstd::prelude::*;

verus! {

/// Lexicographic order of two keys.
pub open spec fn lex_ord(a: Seq<u64>, b: Seq<u64>) -> Ordering
    decreases a.len(),
{
    if a.len() == 0 && b.len() == 0 {
        Ordering::Equal
    } else if a.len() == 0 {
        Ordering::Less
    } else if b.len() == 0 {
        Ordering::Greater
    } else if a[0] < b[0] {
        Ordering::Less
    } else if a[0] > b[0] {
        Ordering::Greater
    } else {
        lex_ord(a.drop_first(), b.drop_first())
    }
}

pub open spec fn flip(o: Ordering) -> Ordering {
    match o {
        Ordering::Less => Ordering::Greater,
        Ordering::Equal => Ordering::Equal,
        Ordering::Greater => Ordering::Less,
    }
}

/// The order in a direction: descending flips it.
pub open spec fn directed(o: Ordering, desc: bool) -> Ordering {
    if desc {
        flip(o)
    } else {
        o
    }
}

/// Flips an ordering when sorting descending.
pub fn apply_dir(ord: Ordering, desc: bool) -> (r: Ordering)
    ensures
        r == directed(ord, desc),
{
    if desc {
        match ord {
            Ordering::Less => Ordering::Greater,
            Ordering::Equal => Ordering::Equal,
            Ordering::Greater => Ordering::Less,
        }
    } else {
        ord
    }
}

pub proof fn lemma_lex_equal(a: Seq<u64>, b: Seq<u64>)
    ensures
        (lex_ord(a, b) == Ordering::Equal) <==> (a == b),
    decreases a.len(),
{
    if a.len() > 0 && b.len() > 0 && a[0] == b[0] {
        lemma_lex_equal(a.drop_first(), b.drop_first());
        if a.drop_first() == b.drop_first() {
            assert(a =~= seq![a[0]] + a.drop_first());
            assert(b =~= seq![b[0]] + b.drop_first());
        }
        if a == b {
            assert(a.drop_first() =~= b.drop_first());
        }
    } else if a.len() == 0 && b.len() == 0 {
        assert(a =~= b);
    }
}

pub proof fn lemma_lex_flip(a: Seq<u64>, b: Seq<u64>)
    ensures
        lex_ord(b, a) == flip(lex_ord(a, b)),
    decreases a.len(),
{
    if a.len() > 0 && b.len() > 0 && a[0] == b[0] {
        lemma_lex_flip(a.drop_first(), b.drop_first());
    }
}

pub proof fn lemma_lex_trans(a: Seq<u64>, b: Seq<u64>, c: Seq<u64>)
    requires
        lex_ord(a, b) != Ordering::Greater,
        lex_ord(b, c) != Ordering::Greater,
    ensures
        lex_ord(a, c) != Ordering::Greater,
        lex_ord(a, b) == Ordering::Less || lex_ord(b, c) == Ordering::Less ==> lex_ord(a, c)
            == Ordering::Less,
    decreases a.len(),
{
    if a.len() > 0 && b.len() > 0 && c.len() > 0 && a[0] == b[0] && b[0] == c[0] {
        lemma_lex_trans(a.drop_first(), b.drop_first(), c.drop_first());
    } else if a.len() > 0 && b.len() > 0 && c.len() > 0 {
    } else {
        lemma_lex_equal(a, b);
        lemma_lex_equal(b, c);
    }
}

/// Compares two keys lexicographically.
pub fn lex_cmp(a: &Vec<u64>, b: &Vec<u64>) -> (r: Ordering)
    ensures
        r == lex_ord(a@, b@),
{
    let mut i: usize = 0;
    proof {
        assert(a@.skip(0) =~= a@);
        assert(b@.skip(0) =~= b@);
    }
    while i < a.len() && i < b.len()
        invariant
            i <= a.len(),
            i <= b.len(),
            forall|j: int| 0 <= j < i ==> a@[j] == b@[j],
            lex_ord(a@, b@) == lex_ord(a@.skip(ix(i)), b@.skip(ix(i))),
        decreases a.len() - i,
    {
        proof {
            assert(a@.skip(ix(i)).drop_first() =~= a@.skip(i + 1));
            assert(b@.skip(ix(i)).drop_first() =~= b@.skip(i + 1));
        }
        if a[i] < b[i] {
            return Ordering::Less;
        } else if a[i] > b[i] {
            return Ordering::Greater;
        }
        i = i + 1;
    }
    if a.len() == b.len() {
        Ordering::Equal
    } else if i == a.len() {
        Ordering::Less
    } else {
        Ordering::Greater
    }
}

/// The order of two texts by `str`'s `Ord`: character by character.
pub open spec fn text_ord(a: Seq<char>, b: Seq<char>) -> Ordering {
    lex_ord(text_key(a), text_key(b))
}

/// Case-insensitive name order: both names lowercased, then compared as text.
pub fn cmp_name(a: &str, b: &str) -> (r: Ordering)
    ensures
        r == text_ord(lowercase(a@), lowercase(b@)),
{
    let la = to_lower(a);
    let lb = to_lower(b);
    let mut ka: Vec<u64> = Vec::new();
    let mut kb: Vec<u64> = Vec::new();
    push_text_key(&mut ka, la.as_str());
    push_text_key(&mut kb, lb.as_str());
    proof {
        assert(ka@ =~= text_key(la@));
        assert(kb@ =~= text_key(lb@));
    }
    lex_cmp(&ka, &kb)
}

/// Key `a` may come before key `b` in direction `desc`: it is not strictly after it.
pub open spec fn in_order(a: Seq<u64>, b: Seq<u64>, desc: bool) -> bool {
    directed(lex_ord(a, b), desc) != Ordering::Greater
}

/// Key `a` comes strictly before key `b` in ascending order.
pub open spec fn key_before(a: Seq<u64>, b: Seq<u64>) -> bool {
    lex_ord(a, b) == Ordering::Less
}

/// Ascending key order is transitive, strict when either step is, and strict between
/// distinct keys.
pub proof fn lemma_key_order(a: Seq<u64>, b: Seq<u64>, c: Seq<u64>)
    ensures
        in_order(a, b, false) && in_order(b, c, false) ==> in_order(a, c, false),
        key_before(a, b) && in_order(b, c, false) ==> key_before(a, c),
        in_order(a, b, false) && key_before(b, c) ==> key_before(a, c),
        in_order(a, b, false) && a != b ==> key_before(a, b),
        key_before(a, b) ==> in_order(a, b, false) && a != b,
{
    lemma_lex_equal(a, b);
    if lex_ord(a, b) != Ordering::Greater && lex_ord(b, c) != Ordering::Greater {
        lemma_lex_trans(a, b, c);
    }
}

/// Keys of one number each are in order exactly when the numbers are.
pub proof fn lemma_single_key(x: u64, y: u64, desc: bool)
    ensures
        in_order(seq![x], seq![y], desc) <==> (if desc {
            x >= y
        } else {
            x <= y
        }),
{
    let (a, b) = (seq![x], seq![y]);
    assert(a.drop_first() =~= Seq::<u64>::empty());
    assert(b.drop_first() =~= Seq::<u64>::empty());
    assert(lex_ord(a.drop_first(), b.drop_first()) == Ordering::Equal);
}

/// Item `i` comes before item `j` in a stable sort by `keys` in direction `desc`: its key is
/// strictly earlier, or the keys are equal and `i` came first.
pub open spec fn precedes(keys: Seq<Seq<u64>>, desc: bool, i: int, j: int) -> bool {
    let o = directed(lex_ord(keys[i], keys[j]), desc);
    o == Ordering::Less || (o == Ordering::Equal && i < j)
}

/// `order` lists every index of `keys` once, in stable sorted order.
pub open spec fn is_stable_sort(keys: Seq<Seq<u64>>, desc: bool, order: Seq<usize>) -> bool {
    &&& order.len() == keys.len()
    &&& forall|a: int| 0 <= a < order.len() ==> #[trigger] order[a] < keys.len()
    &&& forall|a: int, b: int| 0 <= a < b < order.len() ==> order[a] != order[b]
    &&& forall|j: usize| j < keys.len() ==> #[trigger] order.contains(j)
    &&& forall|a: int, b: int|
        0 <= a < b < order.len() ==> precedes(keys, desc, ix(#[trigger] order[a]), ix(#[trigger] order[b]))
}

/// The stable sorted order of `keys` (the one order `is_stable_sort` admits).
pub open spec fn sorted_order(keys: Seq<Seq<u64>>, desc: bool) -> Seq<usize> {
    choose|order: Seq<usize>| is_stable_sort(keys, desc, order)
}

proof fn lemma_unique_prefix(keys: Seq<Seq<u64>>, desc: bool, r1: Seq<usize>, r2: Seq<usize>, m: int)
    requires
        is_stable_sort(keys, desc, r1),
        is_stable_sort(keys, desc, r2),
        0 <= m <= r1.len(),
    ensures
        forall|k: int| 0 <= k < m ==> r1[k] == r2[k],
    decreases m,
{
    if m > 0 {
        lemma_unique_prefix(keys, desc, r1, r2, m - 1);
        let k = m - 1;
        let x = r1[k];
        let y = r2[k];
        if x != y {
            assert(r2.contains(x));
            assert(r1.contains(y));
            let q = choose|q: int| 0 <= q < r2.len() && r2[q] == x;
            let q2 = choose|q: int| 0 <= q < r1.len() && r1[q] == y;
            if q < k {
                assert(r1[q] == x);
            }
            if q2 < k {
                assert(r2[q2] == y);
            }
            assert(precedes(keys, desc, ix(y), ix(x)));
            assert(precedes(keys, desc, ix(x), ix(y)));
            lemma_precedes_total(keys, desc, ix(x), ix(y));
        }
    }
}

/// A stable sort leaves exactly one order: any two orders that both list every index once and
/// respect the stable order are the same.
pub proof fn lemma_stable_sort_unique(keys: Seq<Seq<u64>>, desc: bool, r1: Seq<usize>, r2: Seq<usize>)
    requires
        is_stable_sort(keys, desc, r1),
        is_stable_sort(keys, desc, r2),
    ensures
        r1 == r2,
{
    lemma_unique_prefix(keys, desc, r1, r2, r1.len() as int);
    assert(r1 =~= r2);
}

/// Any stable sorted order is `sorted_order`.
pub proof fn lemma_sorted_order(keys: Seq<Seq<u64>>, desc: bool, r: Seq<usize>)
    requires
        is_stable_sort(keys, desc, r),
    ensures
        r == sorted_order(keys, desc),
{
    lemma_stable_sort_unique(keys, desc, r, sorted_order(keys, desc));
}

/// The position of the first entry of `order`, from position `a` on, that does not come
/// before index `n`.
spec fn first_not_before(keys: Seq<Seq<u64>>, desc: bool, order: Seq<usize>, n: int, a: int) -> int
    decreases order.len() - a,
{
    if a >= order.len() {
        order.len() as int
    } else if precedes(keys, desc, ix(order[a]), n) {
        first_not_before(keys, desc, order, n, a + 1)
    } else {
        a
    }
}

proof fn lemma_first_not_before(keys: Seq<Seq<u64>>, desc: bool, order: Seq<usize>, n: int, a: int)
    requires
        0 <= a <= order.len(),
    ensures
        a <= first_not_before(keys, desc, order, n, a) <= order.len(),
        forall|b: int|
            a <= b < first_not_before(keys, desc, order, n, a) ==> precedes(keys, desc, #[trigger] ix(order[b]), n),
        first_not_before(keys, desc, order, n, a) < order.len() ==> !precedes(
            keys,
            desc,
            ix(order[first_not_before(keys, desc, order, n, a)]),
            n,
        ),
    decreases order.len() - a,
{
    if a < order.len() && precedes(keys, desc, ix(order[a]), n) {
        lemma_first_not_before(keys, desc, order, n, a + 1);
    }
}

/// The indices `0..n` sorted by inserting each in turn after the ones that come before it.
spec fn insertion_order(keys: Seq<Seq<u64>>, desc: bool, n: nat) -> Seq<usize>
    decreases n,
{
    if n == 0 {
        Seq::empty()
    } else {
        let o = insertion_order(keys, desc, (n - 1) as nat);
        o.insert(first_not_before(keys, desc, o, n - 1, 0), (n - 1) as usize)
    }
}

/// `order` lists the indices `0..n` once each, in stable sorted order.
spec fn sorted_prefix(keys: Seq<Seq<u64>>, desc: bool, order: Seq<usize>, n: nat) -> bool {
    &&& order.len() == n
    &&& forall|a: int| 0 <= a < n ==> #[trigger] order[a] < n
    &&& forall|a: int, b: int| 0 <= a < b < n ==> order[a] != order[b]
    &&& forall|j: usize| j < n ==> #[trigger] order.contains(j)
    &&& forall|a: int, b: int|
        0 <= a < b < n ==> precedes(keys, desc, ix(#[trigger] order[a]), ix(#[trigger] order[b]))
}

proof fn lemma_insert_step(keys: Seq<Seq<u64>>, desc: bool, o: Seq<usize>, m: int, p: int)
    requires
        sorted_prefix(keys, desc, o, m as nat),
        0 <= m < keys.len(),
        keys.len() <= usize::MAX,
        0 <= p <= m,
        forall|b: int| 0 <= b < p ==> precedes(keys, desc, #[trigger] ix(o[b]), m),
        forall|b: int| p <= b < m ==> precedes(keys, desc, m, #[trigger] ix(o[b])),
    ensures
        sorted_prefix(keys, desc, o.insert(p, m as usize), (m + 1) as nat),
{
    let n = m + 1;
    let r = o.insert(p, m as usize);
    assert(ix(m as usize) == m);
    assert forall|a: int| 0 <= a < n implies #[trigger] r[a] < n by {
        if a > p {
            assert(r[a] == o[a - 1]);
        }
    }
    assert forall|a: int, b: int| 0 <= a < b < n implies r[a] != r[b] by {
        if a < p && b > p {
            assert(r[b] == o[b - 1]);
        } else if a > p {
            assert(r[a] == o[a - 1] && r[b] == o[b - 1]);
        }
    }
    assert forall|j: usize| j < n implies #[trigger] r.contains(j) by {
        if j == m {
            assert(r[p] == j);
        } else {
            assert(o.contains(j));
            let k = choose|k: int| 0 <= k < o.len() && o[k] == j;
            if k < p {
                assert(r[k] == j);
            } else {
                assert(r[k + 1] == j);
            }
        }
    }
    assert forall|a: int, b: int| 0 <= a < b < n implies precedes(keys, desc, ix(#[trigger] r[a]), ix(#[trigger] r[b])) by {
        if b < p {
            assert(r[a] == o[a] && r[b] == o[b]);
        } else if b == p {
            assert(r[a] == o[a]);
        } else if a < p {
            assert(r[a] == o[a] && r[b] == o[b - 1]);
            lemma_precedes_trans(keys, desc, ix(o[a]), m, ix(o[b - 1]));
        } else if a == p {
            assert(r[b] == o[b - 1]);
        } else {
            assert(r[a] == o[a - 1] && r[b] == o[b - 1]);
        }
    }
}

proof fn lemma_insertion_order(keys: Seq<Seq<u64>>, desc: bool, n: nat)
    requires
        n <= keys.len(),
        keys.len() <= usize::MAX,
    ensures
        sorted_prefix(keys, desc, insertion_order(keys, desc, n), n),
    decreases n,
{
    if n > 0 {
        let m: int = n - 1;
        lemma_insertion_order(keys, desc, (n - 1) as nat);
        let o = insertion_order(keys, desc, (n - 1) as nat);
        let p = first_not_before(keys, desc, o, m, 0);
        lemma_first_not_before(keys, desc, o, m, 0);
        assert forall|b: int| p <= b < m implies precedes(keys, desc, m, #[trigger] ix(o[b])) by {
            assert(ix(o[b]) < m);
            if precedes(keys, desc, ix(o[b]), m) {
                if p < b {
                    lemma_precedes_trans(keys, desc, ix(o[p]), ix(o[b]), m);
                }
            }
            lemma_precedes_total(keys, desc, ix(o[b]), m);
        }
        lemma_insert_step(keys, desc, o, m, p);
    }
}

/// Every list of keys has a stable sorted order, so `sorted_order` is one.
pub proof fn lemma_sorted_order_exists(keys: Seq<Seq<u64>>, desc: bool)
    requires
        keys.len() <= usize::MAX,
    ensures
        is_stable_sort(keys, desc, sorted_order(keys, desc)),
{
    lemma_insertion_order(keys, desc, keys.len());
    assert(is_stable_sort(keys, desc, insertion_order(keys, desc, keys.len())));
}

pub proof fn lemma_precedes_total(keys: Seq<Seq<u64>>, desc: bool, i: int, j: int)
    requires
        i != j,
    ensures
        precedes(keys, desc, i, j) != precedes(keys, desc, j, i),
{
    lemma_lex_flip(keys[i], keys[j]);
}

pub proof fn lemma_precedes_trans(keys: Seq<Seq<u64>>, desc: bool, i: int, j: int, k: int)
    requires
        precedes(keys, desc, i, j),
        precedes(keys, desc, j, k),
    ensures
        precedes(keys, desc, i, k),
{
    lemma_lex_flip(keys[i], keys[j]);
    lemma_lex_flip(keys[j], keys[k]);
    lemma_lex_flip(keys[i], keys[k]);
    lemma_lex_equal(keys[i], keys[j]);
    lemma_lex_equal(keys[j], keys[k]);
    lemma_lex_equal(keys[i], keys[k]);
    if desc {
        lemma_lex_trans(keys[k], keys[j], keys[i]);
    } else {
        lemma_lex_trans(keys[i], keys[j], keys[k]);
    }
}

/// The indices of `keys` in stable sorted order (ascending, or descending when `desc`), the
/// order `slice::sort_by` leaves items in.
pub fn stable_order(keys: &Vec<Vec<u64>>, desc: bool) -> (order: Vec<usize>)
    ensures
        is_stable_sort(key_views(keys@), desc, order@),
        order@ == sorted_order(key_views(keys@), desc),
{
    let ghost ks = key_views(keys@);
    let mut order: Vec<usize> = Vec::new();
    let mut i: usize = 0;
    while i < keys.len()
        invariant
            i <= keys.len(),
            ks == key_views(keys@),
            order.len() == i,
            forall|a: int| 0 <= a < order.len() ==> #[trigger] order@[a] < i,
            forall|a: int, b: int| 0 <= a < b < order.len() ==> order@[a] != order@[b],
            forall|j: usize| j < i ==> #[trigger] order@.contains(j),
            forall|a: int, b: int|
                0 <= a < b < order.len() ==> precedes(ks, desc, #[trigger] ix(order@[a]), #[trigger] ix(order@[b])),
        decreases keys.len() - i,
    {
        let mut p: usize = 0;
        loop
            invariant
                p <= order.len(),
                i < keys.len(),
                ks == key_views(keys@),
                order.len() == i,
                forall|a: int| 0 <= a < order.len() ==> #[trigger] order@[a] < i,
                forall|a: int| 0 <= a < p ==> precedes(ks, desc, #[trigger] ix(order@[a]), ix(i)),
            ensures
                p <= order.len(),
                forall|a: int| 0 <= a < p ==> precedes(ks, desc, #[trigger] ix(order@[a]), ix(i)),
                p < order.len() ==> precedes(ks, desc, ix(i), ix(order@[ix(p)])),
            decreases order.len() - p,
        {
            if p == order.len() {
                break;
            }
            let o = apply_dir(lex_cmp(&keys[order[p]], &keys[i]), desc);
            proof {
                lemma_lex_flip(ks[ix(order@[ix(p)])], ks[ix(i)]);
            }
            match o {
                Ordering::Greater => {
                    break;
                },
                _ => {},
            }
            p = p + 1;
        }
        proof {
            if p < order.len() {
                assert forall|b: int| p < b < order.len() implies precedes(ks, desc, ix(i), #[trigger] ix(order@[b])) by {
                    lemma_precedes_trans(ks, desc, ix(i), ix(order@[ix(p)]), ix(order@[b]));
                }
            }
        }
        let ghost old_order = order@;
        order.insert(p, i);
        proof {
            assert(order@ == old_order.insert(ix(p), i));
            assert forall|a: int, b: int| 0 <= a < b < order.len() implies precedes(ks, desc, #[trigger] ix(order@[a]), #[trigger] ix(order@[b])) by {
                if a < p && b < p {
                    assert(order@[a] == old_order[a] && order@[b] == old_order[b]);
                } else if a < p && b == p {
                } else if a < p {
                    assert(order@[b] == old_order[b - 1]);
                    assert(order@[a] == old_order[a]);
                } else if a == p {
                    assert(order@[b] == old_order[b - 1]);
                } else {
                    assert(order@[a] == old_order[a - 1] && order@[b] == old_order[b - 1]);
                }
            }
            assert forall|j: usize| j <= i implies #[trigger] order@.contains(j) by {
                if j == i {
                    assert(order@[ix(p)] == i);
                } else {
                    assert(old_order.contains(j));
                    let q = choose|q: int| 0 <= q < old_order.len() && old_order[q] == j;
                    if q < p {
                        assert(order@[q] == j);
                    } else {
                        assert(order@[q + 1] == j);
                    }
                }
            }
        }
        i = i + 1;
    }
    proof {
        lemma_sorted_order(key_views(keys@), desc, order@);
    }
    order
}

} // verus!
