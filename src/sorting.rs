//! Stable sorting by integer keys, specified as insertion sort: each item,
//! from the last to the first, goes before the first item whose key is not
//! smaller. Items with equal keys keep their order.
use vstd::prelude::*;

verus! {

broadcast use vstd::seq_lib::group_to_multiset_ensures;

/// Keys compare by their first component, then by their second.
pub open spec fn key_le(a: (i128, i128), b: (i128, i128)) -> bool {
    a.0 < b.0 || (a.0 == b.0 && a.1 <= b.1)
}

pub fn key_le_exec(a: (i128, i128), b: (i128, i128)) -> (r: bool)
    ensures
        r == key_le(a, b),
{
    a.0 < b.0 || (a.0 == b.0 && a.1 <= b.1)
}

/// Where `x` goes in `s`: before the first item whose key is not smaller.
pub open spec fn insert_pos<T>(x: T, s: Seq<T>, key: spec_fn(T) -> (i128, i128)) -> int
    decreases s.len(),
{
    if s.len() == 0 || key_le(key(x), key(s[0])) {
        0
    } else {
        1 + insert_pos(x, s.drop_first(), key)
    }
}

/// `x` inserted into `s` at its place.
pub open spec fn insert_sorted<T>(x: T, s: Seq<T>, key: spec_fn(T) -> (i128, i128)) -> Seq<T> {
    s.insert(insert_pos(x, s, key), x)
}

/// Insertion sort of `s` by `key`.
pub open spec fn sort_by<T>(s: Seq<T>, key: spec_fn(T) -> (i128, i128)) -> Seq<T>
    decreases s.len(),
{
    if s.len() == 0 {
        Seq::empty()
    } else {
        insert_sorted(s[0], sort_by(s.drop_first(), key), key)
    }
}

/// Keys never decrease along `s`.
pub open spec fn sorted_by<T>(s: Seq<T>, key: spec_fn(T) -> (i128, i128)) -> bool {
    forall|i: int, j: int| 0 <= i < j < s.len() ==> key_le(key(#[trigger] s[i]), key(#[trigger] s[j]))
}

pub proof fn lemma_insert_pos<T>(x: T, s: Seq<T>, key: spec_fn(T) -> (i128, i128))
    ensures
        0 <= insert_pos(x, s, key) <= s.len(),
        forall|j: int| 0 <= j < insert_pos(x, s, key) ==> !key_le(key(x), key(#[trigger] s[j])),
        insert_pos(x, s, key) < s.len() ==> key_le(key(x), key(s[insert_pos(x, s, key)])),
    decreases s.len(),
{
    if s.len() > 0 && !key_le(key(x), key(s[0])) {
        lemma_insert_pos(x, s.drop_first(), key);
        assert forall|j: int| 0 <= j < insert_pos(x, s, key) implies !key_le(key(x), key(#[trigger] s[j])) by {
            if j > 0 {
                assert(s[j] == s.drop_first()[j - 1]);
            }
        }
    }
}

/// The first place whose key is not smaller is the insertion place.
pub proof fn lemma_insert_pos_unique<T>(x: T, s: Seq<T>, key: spec_fn(T) -> (i128, i128), p: int)
    requires
        0 <= p <= s.len(),
        forall|j: int| 0 <= j < p ==> !key_le(key(x), key(#[trigger] s[j])),
        p < s.len() ==> key_le(key(x), key(s[p])),
    ensures
        insert_pos(x, s, key) == p,
    decreases s.len(),
{
    if p > 0 {
        assert(!key_le(key(x), key(s[0])));
        assert forall|j: int| 0 <= j < p - 1 implies !key_le(key(x), key(#[trigger] s.drop_first()[j])) by {
            assert(s.drop_first()[j] == s[j + 1]);
        }
        lemma_insert_pos_unique(x, s.drop_first(), key, p - 1);
    }
}

pub proof fn lemma_insert_sorted<T>(x: T, s: Seq<T>, key: spec_fn(T) -> (i128, i128))
    requires
        sorted_by(s, key),
    ensures
        sorted_by(insert_sorted(x, s, key), key),
        insert_sorted(x, s, key).to_multiset() =~= s.to_multiset().insert(x),
        insert_sorted(x, s, key).len() == s.len() + 1,
{
    lemma_insert_pos(x, s, key);
    let p = insert_pos(x, s, key);
    let r = insert_sorted(x, s, key);
    assert forall|i: int, j: int| 0 <= i < j < r.len() implies key_le(key(#[trigger] r[i]), key(#[trigger] r[j])) by {
        if j < p {
            assert(r[i] == s[i] && r[j] == s[j]);
        } else if j == p {
            assert(r[i] == s[i] && r[j] == x);
            assert(!key_le(key(x), key(s[i])));
        } else if i < p {
            assert(r[i] == s[i] && r[j] == s[j - 1]);
            assert(!key_le(key(x), key(s[i])));
            assert(key_le(key(x), key(s[p])));
            if p < j - 1 {
                assert(key_le(key(s[p]), key(s[j - 1])));
            }
        } else if i == p {
            assert(r[i] == x && r[j] == s[j - 1]);
            assert(key_le(key(x), key(s[p])));
            if p < j - 1 {
                assert(key_le(key(s[p]), key(s[j - 1])));
            }
        } else {
            assert(r[i] == s[i - 1] && r[j] == s[j - 1]);
        }
    }
}

pub proof fn lemma_sort_by<T>(s: Seq<T>, key: spec_fn(T) -> (i128, i128))
    ensures
        sorted_by(sort_by(s, key), key),
        sort_by(s, key).to_multiset() =~= s.to_multiset(),
        sort_by(s, key).len() == s.len(),
    decreases s.len(),
{
    if s.len() > 0 {
        lemma_sort_by(s.drop_first(), key);
        lemma_insert_sorted(s[0], sort_by(s.drop_first(), key), key);
        assert(s =~= s.drop_first().insert(0, s[0]));
    }
}

/// Sorting what is already sorted changes nothing.
pub proof fn lemma_sort_by_sorted<T>(s: Seq<T>, key: spec_fn(T) -> (i128, i128))
    requires
        sorted_by(s, key),
    ensures
        sort_by(s, key) == s,
    decreases s.len(),
{
    if s.len() > 0 {
        let t = s.drop_first();
        assert(sorted_by(t, key)) by {
            assert forall|i: int, j: int| 0 <= i < j < t.len() implies key_le(key(#[trigger] t[i]), key(#[trigger] t[j])) by {
                assert(t[i] == s[i + 1] && t[j] == s[j + 1]);
            }
        }
        lemma_sort_by_sorted(t, key);
        if t.len() > 0 {
            assert(key_le(key(s[0]), key(s[1])));
        }
        lemma_insert_pos_unique(s[0], t, key, 0);
        assert(t.insert(0, s[0]) =~= s);
    }
}

/// Sorts `items` stably by `keys`, where `keys[i]` is the key of `items[i]`.
pub(crate) fn sort_by_keys<T>(items: Vec<T>, keys: Vec<(i128, i128)>, Ghost(key): Ghost<
    spec_fn(T) -> (i128, i128),
>) -> (r: Vec<T>)
    requires
        items@.len() == keys@.len(),
        forall|i: int| 0 <= i < items@.len() ==> keys@[i] == key(#[trigger] items@[i]),
    ensures
        r@ == sort_by(items@, key),
{
    let ghost orig = items@;
    let mut items = items;
    let mut keys = keys;
    let mut out: Vec<T> = Vec::new();
    let mut out_keys: Vec<(i128, i128)> = Vec::new();
    assert(orig.take(orig.len() as int) =~= orig);
    assert(orig.skip(orig.len() as int) =~= Seq::<T>::empty());
    while items.len() > 0
        invariant
            items.len() <= orig.len(),
            items@ == orig.take(items.len() as int),
            keys@.len() == items@.len(),
            forall|i: int| 0 <= i < items@.len() ==> keys@[i] == key(#[trigger] items@[i]),
            out@ == sort_by(orig.skip(items.len() as int), key),
            out_keys@.len() == out@.len(),
            forall|i: int| 0 <= i < out@.len() ==> out_keys@[i] == key(#[trigger] out@[i]),
        decreases items.len(),
    {
        let ghost n = items.len() as int;
        let ghost before = out@;
        let x = items.pop().unwrap();
        let kx = keys.pop().unwrap();
        assert(kx == key(x));
        let mut pos: usize = 0;
        while pos < out.len() && !key_le_exec(kx, out_keys[pos])
            invariant
                pos <= out.len(),
                out@ == before,
                out_keys@.len() == out@.len(),
                forall|i: int| 0 <= i < out@.len() ==> out_keys@[i] == key(#[trigger] out@[i]),
                kx == key(x),
                forall|j: int| 0 <= j < pos ==> !key_le(key(x), key(#[trigger] before[j])),
            decreases out.len() - pos,
        {
            pos = pos + 1;
        }
        proof {
            lemma_insert_pos_unique(x, before, key, pos as int);
            assert(orig.skip(n - 1).drop_first() =~= orig.skip(n));
            assert(orig.skip(n - 1)[0] == x);
        }
        out.insert(pos, x);
        out_keys.insert(pos, kx);
        assert forall|i: int| 0 <= i < out@.len() implies out_keys@[i] == key(#[trigger] out@[i]) by {
            if i < pos {
            } else if i == pos {
            } else {
                assert(out@[i] == before[i - 1]);
            }
        }
    }
    out
}

} // verus!
