//! Lexicographic order on strings and tuples of strings, and a stable sort of
//! indices by such keys (the order of `sort_by` on `str` keys).
use vstd::prelude::*;
use crate::text::chars_lt;

verus! {

/// Strict lexicographic order on tuples of strings, component by component.
pub open spec fn key_lt(a: Seq<Seq<char>>, b: Seq<Seq<char>>) -> bool
    decreases a.len(),
{
    if b.len() == 0 {
        false
    } else if a.len() == 0 {
        true
    } else if chars_lt(a[0], b[0]) {
        true
    } else if a[0] == b[0] {
        key_lt(a.drop_first(), b.drop_first())
    } else {
        false
    }
}

/// Compares two character sequences lexicographically.
pub fn chars_less(a: &Vec<char>, b: &Vec<char>) -> (res: bool)
    ensures
        res == chars_lt(a@, b@),
{
    let mut i: usize = 0;
    assert(a@.skip(0) =~= a@);
    assert(b@.skip(0) =~= b@);
    while i < a.len() && i < b.len() && a[i] == b[i]
        invariant
            i <= a.len(),
            i <= b.len(),
            chars_lt(a@, b@) == chars_lt(a@.skip(i as int), b@.skip(i as int)),
        decreases a.len() - i,
    {
        assert(a@.skip(i as int).drop_first() =~= a@.skip(i + 1));
        assert(b@.skip(i as int).drop_first() =~= b@.skip(i + 1));
        i = i + 1;
    }
    if i == b.len() {
        false
    } else if i == a.len() {
        true
    } else {
        assert(a@.skip(i as int)[0] == a@[i as int]);
        assert(b@.skip(i as int)[0] == b@[i as int]);
        a[i] < b[i]
    }
}

/// Tests two character sequences for equality.
pub fn chars_equal(a: &Vec<char>, b: &Vec<char>) -> (res: bool)
    ensures
        res == (a@ == b@),
{
    if a.len() != b.len() {
        return false;
    }
    let mut i: usize = 0;
    while i < a.len()
        invariant
            a.len() == b.len(),
            i <= a.len(),
            a@.subrange(0, i as int) == b@.subrange(0, i as int),
        decreases a.len() - i,
    {
        if a[i] != b[i] {
            return false;
        }
        assert(a@.subrange(0, i + 1) =~= a@.subrange(0, i as int).push(a@[i as int]));
        assert(b@.subrange(0, i + 1) =~= b@.subrange(0, i as int).push(b@[i as int]));
        i = i + 1;
    }
    assert(a@ =~= a@.subrange(0, i as int));
    assert(b@ =~= b@.subrange(0, i as int));
    true
}

/// No character sequence sorts before itself.
pub proof fn lemma_chars_lt_irreflexive(a: Seq<char>)
    ensures
        !chars_lt(a, a),
    decreases a.len(),
{
    if a.len() > 0 {
        lemma_chars_lt_irreflexive(a.drop_first());
    }
}

/// Compares two tuples of strings lexicographically.
pub fn key_less(a: &Vec<Vec<char>>, b: &Vec<Vec<char>>) -> (res: bool)
    ensures
        res == key_lt(a.deep_view(), b.deep_view()),
{
    let ghost da = a.deep_view();
    let ghost db = b.deep_view();
    let mut i: usize = 0;
    assert(da.skip(0) =~= da);
    assert(db.skip(0) =~= db);
    while i < a.len() && i < b.len() && chars_equal(&a[i], &b[i])
        invariant
            da == a.deep_view(),
            db == b.deep_view(),
            i <= a.len(),
            i <= b.len(),
            key_lt(da, db) == key_lt(da.skip(i as int), db.skip(i as int)),
        decreases a.len() - i,
    {
        assert(da.skip(i as int).drop_first() =~= da.skip(i + 1));
        assert(db.skip(i as int).drop_first() =~= db.skip(i + 1));
        assert(da.skip(i as int)[0] == da[i as int]);
        assert(db.skip(i as int)[0] == db[i as int]);
        proof {
            lemma_chars_lt_irreflexive(da[i as int]);
        }
        i = i + 1;
    }
    if i == b.len() {
        false
    } else if i == a.len() {
        true
    } else {
        assert(da.skip(i as int)[0] == da[i as int]);
        assert(db.skip(i as int)[0] == db[i as int]);
        assert(da[i as int] =~= a[i as int]@);
        assert(db[i as int] =~= b[i as int]@);
        chars_less(&a[i], &b[i])
    }
}

/// Where a stable insertion puts a new key `k` into `order` (indices into
/// `keys`): after every trailing element whose key is not greater than `k`.
pub open spec fn insert_pos(keys: Seq<Seq<Seq<char>>>, order: Seq<usize>, k: Seq<Seq<char>>) -> int
    decreases order.len(),
{
    if order.len() == 0 {
        0
    } else if key_lt(k, keys[order.last() as int]) {
        insert_pos(keys, order.drop_last(), k)
    } else {
        order.len() as int
    }
}

/// The stable sorted order of the first `n` keys: the indices `0..n`, arranged
/// by key, equal keys keeping their relative order.
pub open spec fn stable_order(keys: Seq<Seq<Seq<char>>>, n: nat) -> Seq<usize>
    decreases n,
{
    if n == 0 {
        seq![]
    } else {
        let o = stable_order(keys, (n - 1) as nat);
        o.insert(insert_pos(keys, o, keys[n - 1]), (n - 1) as usize)
    }
}

proof fn lemma_insert_pos_bounds(keys: Seq<Seq<Seq<char>>>, order: Seq<usize>, k: Seq<Seq<char>>)
    ensures
        0 <= insert_pos(keys, order, k) <= order.len(),
    decreases order.len(),
{
    if order.len() > 0 {
        lemma_insert_pos_bounds(keys, order.drop_last(), k);
    }
}

/// The length of a stable order.
pub proof fn lemma_stable_order_len(keys: Seq<Seq<Seq<char>>>, n: nat)
    ensures
        stable_order(keys, n).len() == n,
    decreases n,
{
    if n > 0 {
        lemma_stable_order_len(keys, (n - 1) as nat);
        lemma_insert_pos_bounds(keys, stable_order(keys, (n - 1) as nat), keys[n - 1]);
    }
}

/// Sorts the indices of `keys` stably by key (insertion sort).
pub fn sort_indices(keys: &Vec<Vec<Vec<char>>>) -> (res: Vec<usize>)
    ensures
        res@ == stable_order(keys.deep_view(), keys.len() as nat),
{
    let ghost ks = keys.deep_view();
    let n = keys.len();
    let mut idx: Vec<usize> = Vec::new();
    let mut i: usize = 0;
    while i < n
        invariant
            n == keys.len(),
            ks == keys.deep_view(),
            i <= n,
            idx@ == stable_order(ks, i as nat),
            forall|j: int| 0 <= j < idx.len() ==> idx@[j] < i,
        decreases n - i,
    {
        proof {
            lemma_stable_order_len(ks, i as nat);
        }
        let mut p: usize = idx.len();
        assert(idx@.subrange(0, p as int) =~= idx@);
        while p > 0 && key_less(&keys[i], &keys[idx[p - 1]])
            invariant
                n == keys.len(),
                ks == keys.deep_view(),
                i < n,
                idx@ == stable_order(ks, i as nat),
                idx.len() == i,
                p <= idx.len(),
                forall|j: int| 0 <= j < idx.len() ==> idx@[j] < i,
                insert_pos(ks, idx@, ks[i as int]) == insert_pos(ks, idx@.subrange(0, p as int), ks[i as int]),
            decreases p,
        {
            assert(idx@.subrange(0, p as int).drop_last() =~= idx@.subrange(0, p - 1));
            p = p - 1;
        }
        proof {
            if p > 0 {
                assert(idx@.subrange(0, p as int).last() == idx@[p - 1]);
            }
        }
        idx.insert(p, i);
        i = i + 1;
    }
    idx
}

} // verus!

verus! {

/// `chars_lt` is asymmetric, transitive and total: a strict total order.
pub proof fn lemma_chars_lt_order(a: Seq<char>, b: Seq<char>, c: Seq<char>)
    ensures
        chars_lt(a, b) ==> !chars_lt(b, a),
        chars_lt(a, b) && chars_lt(b, c) ==> chars_lt(a, c),
        a == b || chars_lt(a, b) || chars_lt(b, a),
        !chars_lt(a, a),
    decreases a.len(),
{
    lemma_chars_lt_irreflexive(a);
    if a.len() > 0 && b.len() > 0 {
        if c.len() > 0 {
            lemma_chars_lt_order(a.drop_first(), b.drop_first(), c.drop_first());
        } else {
            lemma_chars_lt_order(a.drop_first(), b.drop_first(), c);
        }
        if a[0] == b[0] && !chars_lt(a, b) && !chars_lt(b, a) {
            assert(a =~= seq![a[0]] + a.drop_first());
            assert(b =~= seq![b[0]] + b.drop_first());
            assert(a == b);
        }
        if a[0] != b[0] {
            assert((a[0] as int) != (b[0] as int));
        }
    } else if a.len() == 0 && b.len() == 0 {
        assert(a =~= b);
    }
}

/// `key_lt` is asymmetric, transitive and total: a strict total order.
pub proof fn lemma_key_lt_order(a: Seq<Seq<char>>, b: Seq<Seq<char>>, c: Seq<Seq<char>>)
    ensures
        key_lt(a, b) ==> !key_lt(b, a),
        key_lt(a, b) && key_lt(b, c) ==> key_lt(a, c),
        a == b || key_lt(a, b) || key_lt(b, a),
        !key_lt(a, a),
    decreases a.len(),
{
    if a.len() > 0 && b.len() > 0 {
        if c.len() > 0 {
            lemma_key_lt_order(a.drop_first(), b.drop_first(), c.drop_first());
            lemma_chars_lt_order(a[0], b[0], c[0]);
        } else {
            lemma_key_lt_order(a.drop_first(), b.drop_first(), c);
            lemma_chars_lt_order(a[0], b[0], a[0]);
        }
        if a[0] == b[0] && !key_lt(a, b) && !key_lt(b, a) {
            assert(a =~= seq![a[0]] + a.drop_first());
            assert(b =~= seq![b[0]] + b.drop_first());
            assert(a == b);
        }
    } else if a.len() == 0 && b.len() == 0 {
        assert(a =~= b);
    } else if a.len() > 0 {
        lemma_chars_lt_order(a[0], a[0], a[0]);
        lemma_key_lt_order(a.drop_first(), a.drop_first(), a.drop_first());
    }
}

/// The keys of `order` never decrease along it.
pub open spec fn ordered_by(keys: Seq<Seq<Seq<char>>>, order: Seq<usize>) -> bool {
    forall|i: int, j: int| 0 <= i < j < order.len() ==> !key_lt(keys[order[j] as int], keys[order[i] as int])
}

proof fn lemma_insert_pos_props(keys: Seq<Seq<Seq<char>>>, order: Seq<usize>, k: Seq<Seq<char>>)
    ensures
        forall|j: int| insert_pos(keys, order, k) <= j < order.len() ==> key_lt(k, #[trigger] keys[order[j] as int]),
        insert_pos(keys, order, k) > 0 ==> !key_lt(k, keys[order[insert_pos(keys, order, k) - 1] as int]),
        0 <= insert_pos(keys, order, k) <= order.len(),
    decreases order.len(),
{
    if order.len() > 0 && key_lt(k, keys[order.last() as int]) {
        lemma_insert_pos_props(keys, order.drop_last(), k);
        let p = insert_pos(keys, order, k);
        assert forall|j: int| p <= j < order.len() implies key_lt(k, #[trigger] keys[order[j] as int]) by {
            if j < order.len() - 1 {
                assert(order.drop_last()[j] == order[j]);
            }
        }
        if p > 0 {
            assert(order.drop_last()[p - 1] == order[p - 1]);
        }
    }
}

/// A stable order holds each index below `n` exactly once, and orders them by key.
pub proof fn lemma_stable_order_sorted(keys: Seq<Seq<Seq<char>>>, n: nat)
    requires
        n <= keys.len(),
        n <= usize::MAX,
    ensures
        stable_order(keys, n).len() == n,
        stable_order(keys, n).no_duplicates(),
        forall|i: int| 0 <= i < n ==> (#[trigger] stable_order(keys, n)[i] as int) < n,
        forall|x: usize| (x as int) < n ==> #[trigger] stable_order(keys, n).contains(x),
        ordered_by(keys, stable_order(keys, n)),
    decreases n,
{
    if n > 0 {
        let m = (n - 1) as nat;
        lemma_stable_order_sorted(keys, m);
        let o = stable_order(keys, m);
        let k = keys[m as int];
        let p = insert_pos(keys, o, k);
        lemma_insert_pos_props(keys, o, k);
        let r = o.insert(p, m as usize);
        o.insert_ensures(p, m as usize);
        assert forall|i: int| p < i < r.len() implies r[i] == o[i - 1] by {
            assert(r[(i - 1) + 1] == o[i - 1]);
        }
        assert(r == stable_order(keys, n));
        assert forall|i: int| 0 <= i < n implies (#[trigger] r[i] as int) < n by {
            if i < p {
                assert(r[i] == o[i]);
            } else if i > p {
                assert(r[i] == o[i - 1]);
            }
        }
        assert forall|x: usize| (x as int) < n implies #[trigger] r.contains(x) by {
            if x as int == m {
                assert(r[p] == x);
            } else {
                assert(o.contains(x));
                let i = choose|i: int| 0 <= i < o.len() && o[i] == x;
                if i < p {
                    assert(r[i] == x);
                } else {
                    assert(r[i + 1] == x);
                }
            }
        }
        assert(r[p] == m as usize);
        assert forall|i: int, j: int| 0 <= i < j < r.len() implies r[i] != r[j] by {
            if i < p && j < p {
                assert(r[i] == o[i] && r[j] == o[j]);
                assert(o[i] != o[j]);
                assert(r[i] != r[j]);
            } else if i < p && j == p {
                assert(r[i] == o[i]);
                assert((o[i] as int) < m);
                assert(r[i] != r[j]);
            } else if i < p && j > p {
                assert(r[i] == o[i] && r[j] == o[j - 1]);
                assert(o[i] != o[j - 1]);
                assert(r[i] != r[j]);
            } else if i == p {
                assert(r[j] == o[j - 1]);
                assert((o[j - 1] as int) < m);
                assert(r[i] != r[j]);
            } else {
                assert(r[i] == o[i - 1] && r[j] == o[j - 1]);
                assert(o[i - 1] != o[j - 1]);
                assert(r[i] != r[j]);
            }
        }
        assert forall|i: int, j: int| 0 <= i < j < r.len() implies
            !key_lt(keys[r[j] as int], keys[r[i] as int]) by {
            if i < p && j < p {
                assert(r[i] == o[i] && r[j] == o[j]);
                assert(!key_lt(keys[o[j] as int], keys[o[i] as int]));
            } else if i < p && j == p {
                assert(r[i] == o[i]);
                let q = o[p - 1];
                let ki = keys[o[i] as int];
                let kq = keys[q as int];
                lemma_key_lt_order(k, ki, kq);
                lemma_key_lt_order(ki, kq, k);
                if i < p - 1 {
                    assert(!key_lt(keys[o[p - 1] as int], keys[o[i] as int]));
                }
            } else if i < p && j > p {
                assert(r[i] == o[i] && r[j] == o[j - 1]);
                if i < j - 1 {
                    assert(!key_lt(keys[o[j - 1] as int], keys[o[i] as int]));
                }
            } else if i == p {
                assert(r[j] == o[j - 1]);
                lemma_key_lt_order(k, keys[o[j - 1] as int], k);
            } else {
                assert(r[i] == o[i - 1] && r[j] == o[j - 1]);
                assert(!key_lt(keys[o[j - 1] as int], keys[o[i - 1] as int]));
            }
        }
    }
}

} // verus!
