//! A stable insertion sort by keys that are pairs of integers, shared by the
//! slide parts (slide number, notes after the slide) and the pictures
//! (CRC-32, size).

use vstd::prelude::*;

verus! {

/// Whether key `a` comes before or with key `b`: by the first integer, then
/// by the second.
pub open spec fn key_le(a: (int, int), b: (int, int)) -> bool {
    a.0 < b.0 || (a.0 == b.0 && a.1 <= b.1)
}

/// `sorted` with `p` inserted after every item whose key does not come
/// after that of `p`.
pub open spec fn insert_by<T>(sorted: Seq<T>, p: T, key: spec_fn(T) -> (int, int)) -> Seq<T>
    decreases sorted.len(),
{
    if sorted.len() == 0 || key_le(key(sorted.last()), key(p)) {
        sorted.push(p)
    } else {
        insert_by(sorted.drop_last(), p, key).push(sorted.last())
    }
}

/// `s` ordered by `key`, items with equal keys keeping the order they came
/// in: a stable sort.
pub open spec fn sort_by<T>(s: Seq<T>, key: spec_fn(T) -> (int, int)) -> Seq<T>
    decreases s.len(),
{
    if s.len() == 0 {
        s
    } else {
        insert_by(sort_by(s.drop_last(), key), s.last(), key)
    }
}

/// Whether every item of `s` comes, by key, before or with the items after it.
pub open spec fn in_key_order<T>(s: Seq<T>, key: spec_fn(T) -> (int, int)) -> bool {
    forall|i: int, j: int| 0 <= i < j < s.len() ==> key_le(key(#[trigger] s[i]), key(#[trigger] s[j]))
}

proof fn lemma_insert_by_multiset<T>(s: Seq<T>, p: T, key: spec_fn(T) -> (int, int))
    ensures
        insert_by(s, p, key).to_multiset() =~= s.to_multiset().insert(p),
    decreases s.len(),
{
    broadcast use vstd::seq_lib::group_to_multiset_ensures;
    broadcast use vstd::multiset::group_multiset_axioms;

    if s.len() > 0 && !key_le(key(s.last()), key(p)) {
        let d = s.drop_last();
        lemma_insert_by_multiset(d, p, key);
        assert(s =~= d.push(s.last()));
    }
}

proof fn lemma_insert_by_in_order<T>(s: Seq<T>, p: T, key: spec_fn(T) -> (int, int))
    requires
        in_key_order(s, key),
    ensures
        in_key_order(insert_by(s, p, key), key),
    decreases s.len(),
{
    broadcast use vstd::seq_lib::group_to_multiset_ensures;
    broadcast use vstd::multiset::group_multiset_axioms;

    let r = insert_by(s, p, key);
    if s.len() == 0 || key_le(key(s.last()), key(p)) {
        assert forall|i: int, j: int| 0 <= i < j < r.len() implies key_le(key(#[trigger] r[i]), key(#[trigger] r[j])) by {
            if j == s.len() {
                assert(key_le(key(s[i]), key(s.last())) || i == s.len() - 1);
            }
        }
    } else {
        let d = s.drop_last();
        assert(in_key_order(d, key)) by {
            assert forall|i: int, j: int| 0 <= i < j < d.len() implies key_le(key(#[trigger] d[i]), key(#[trigger] d[j])) by {
                assert(d[i] == s[i] && d[j] == s[j]);
            }
        }
        lemma_insert_by_in_order(d, p, key);
        lemma_insert_by_multiset(d, p, key);
        let q = insert_by(d, p, key);
        assert forall|i: int, j: int| 0 <= i < j < r.len() implies key_le(key(#[trigger] r[i]), key(#[trigger] r[j])) by {
            if j == r.len() - 1 {
                let x = q[i];
                assert(q.to_multiset().count(x) > 0);
                if x != p {
                    assert(d.to_multiset().count(x) > 0);
                    let k = choose|k: int| 0 <= k < d.len() && d[k] == x;
                    assert(key_le(key(s[k]), key(s[s.len() - 1])));
                }
            } else {
                assert(r[i] == q[i] && r[j] == q[j]);
            }
        }
    }
}

/// Sorting orders the items by key, and loses none and adds none.
pub proof fn sorting_orders_and_keeps<T>(s: Seq<T>, key: spec_fn(T) -> (int, int))
    ensures
        in_key_order(sort_by(s, key), key),
        sort_by(s, key).to_multiset() =~= s.to_multiset(),
    decreases s.len(),
{
    broadcast use vstd::seq_lib::group_to_multiset_ensures;

    if s.len() > 0 {
        sorting_orders_and_keeps(s.drop_last(), key);
        lemma_insert_by_in_order(sort_by(s.drop_last(), key), s.last(), key);
        lemma_insert_by_multiset(sort_by(s.drop_last(), key), s.last(), key);
        assert(s =~= s.drop_last().push(s.last()));
    }
}

proof fn lemma_insert_by_map<A, B>(
    s: Seq<A>,
    p: A,
    f: spec_fn(A) -> B,
    ka: spec_fn(A) -> (int, int),
    kb: spec_fn(B) -> (int, int),
)
    requires
        forall|x: A| #[trigger] kb(f(x)) == ka(x),
    ensures
        insert_by(s.map_values(f), f(p), kb) == insert_by(s, p, ka).map_values(f),
    decreases s.len(),
{
    let m = s.map_values(f);
    assert(kb(f(p)) == ka(p));
    if s.len() == 0 {
        assert(m.push(f(p)) =~= s.push(p).map_values(f));
    } else {
        assert(m.last() == f(s.last()));
        assert(kb(f(s.last())) == ka(s.last()));
        if key_le(ka(s.last()), ka(p)) {
            assert(m.push(f(p)) =~= s.push(p).map_values(f));
        } else {
            assert(m.drop_last() =~= s.drop_last().map_values(f));
            lemma_insert_by_map(s.drop_last(), p, f, ka, kb);
            assert(insert_by(m.drop_last(), f(p), kb).push(m.last()) =~= insert_by(s.drop_last(), p, ka).push(
                s.last(),
            ).map_values(f));
        }
    }
}

/// Sorting commutes with a map that keeps the keys: sorting the images of
/// the items gives the images of the sorted items.
pub proof fn lemma_sort_by_map<A, B>(
    s: Seq<A>,
    f: spec_fn(A) -> B,
    ka: spec_fn(A) -> (int, int),
    kb: spec_fn(B) -> (int, int),
)
    requires
        forall|x: A| #[trigger] kb(f(x)) == ka(x),
    ensures
        sort_by(s.map_values(f), kb) == sort_by(s, ka).map_values(f),
    decreases s.len(),
{
    if s.len() == 0 {
        assert(s.map_values(f) =~= Seq::<B>::empty());
        assert(sort_by(s, ka).map_values(f) =~= Seq::<B>::empty());
    } else {
        let m = s.map_values(f);
        assert(m.drop_last() =~= s.drop_last().map_values(f));
        assert(m.last() == f(s.last()));
        lemma_sort_by_map(s.drop_last(), f, ka, kb);
        lemma_insert_by_map(sort_by(s.drop_last(), ka), s.last(), f, ka, kb);
    }
}

/// Items that can be sorted: each has a key of two integers, which it can
/// tell in machine integers.
pub trait Keyed: Sized {
    /// The key.
    spec fn key_spec(&self) -> (int, int);

    /// The key, as machine integers.
    fn sort_key(&self) -> (res: (u64, u64))
        ensures
            res.0 as int == self.key_spec().0,
            res.1 as int == self.key_spec().1,
    ;
}

/// The key of an item, as a function.
pub open spec fn key_of<T: Keyed>() -> spec_fn(T) -> (int, int) {
    |x: T| x.key_spec()
}

proof fn lemma_insert_at<T>(s: Seq<T>, p: T, j: int, key: spec_fn(T) -> (int, int))
    requires
        0 <= j <= s.len(),
        j == 0 || key_le(key(s[j - 1]), key(p)),
        forall|k: int| j <= k < s.len() ==> !key_le(key(#[trigger] s[k]), key(p)),
    ensures
        insert_by(s, p, key) == s.take(j).push(p) + s.skip(j),
    decreases s.len(),
{
    if j == s.len() {
        assert(s.take(j) =~= s);
        assert(s.skip(j) =~= Seq::<T>::empty());
        assert(s.take(j).push(p) + s.skip(j) =~= s.push(p));
    } else {
        let d = s.drop_last();
        assert(!key_le(key(s.last()), key(p)));
        assert forall|k: int| j <= k < d.len() implies !key_le(key(#[trigger] d[k]), key(p)) by {
            assert(d[k] == s[k]);
        }
        if j > 0 {
            assert(d[j - 1] == s[j - 1]);
        }
        lemma_insert_at(d, p, j, key);
        assert(d.take(j) =~= s.take(j));
        assert(s.take(j).push(p) + s.skip(j) =~= (d.take(j).push(p) + d.skip(j)).push(s.last()));
    }
}

/// Inserts `p` into `v` as [`insert_by`] does.
fn insert_keyed<T: Keyed>(v: &mut Vec<T>, p: T)
    ensures
        final(v)@ == insert_by(old(v)@, p, key_of::<T>()),
{
    let ghost s = v@;
    let kp = p.sort_key();
    let mut j: usize = v.len();
    while j > 0
        invariant
            j <= v@.len(),
            v@ == s,
            s == old(v)@,
            kp.0 as int == p.key_spec().0 && kp.1 as int == p.key_spec().1,
            forall|k: int| j <= k < s.len() ==> !key_le(key_of::<T>()(#[trigger] s[k]), key_of::<T>()(p)),
        ensures
            j <= v@.len(),
            v@ == s,
            forall|k: int| j <= k < s.len() ==> !key_le(key_of::<T>()(#[trigger] s[k]), key_of::<T>()(p)),
            j == 0 || key_le(key_of::<T>()(s[j - 1]), key_of::<T>()(p)),
        decreases j,
    {
        let kq = v[j - 1].sort_key();
        if kq.0 < kp.0 || (kq.0 == kp.0 && kq.1 <= kp.1) {
            break;
        }
        j = j - 1;
    }
    proof {
        lemma_insert_at(s, p, j as int, key_of::<T>());
    }
    v.insert(j, p);
    assert(v@ =~= s.take(j as int).push(p) + s.skip(j as int));
}

/// `items` stably sorted by key.
pub fn stable_sort<T: Keyed>(items: Vec<T>) -> (res: Vec<T>)
    ensures
        res@ == sort_by(items@, key_of::<T>()),
{
    let ghost orig = items@;
    let ghost n = orig.len();
    let mut rest = items;
    let mut rev: Vec<T> = Vec::new();
    while rest.len() > 0
        invariant
            n == orig.len(),
            rest@ == orig.take(n - rev@.len()),
            rev@.len() <= n,
            forall|i: int| 0 <= i < rev@.len() ==> #[trigger] rev@[i] == orig[n - 1 - i],
        decreases rest@.len(),
    {
        let p = rest.pop().unwrap();
        assert(p == orig[n - 1 - rev@.len()]);
        rev.push(p);
        assert(rest@ =~= orig.take(n - rev@.len()));
    }
    let mut res: Vec<T> = Vec::new();
    assert(orig.take(0) =~= Seq::<T>::empty());
    while rev.len() > 0
        invariant
            rev@.len() <= n,
            n == orig.len(),
            forall|i: int| 0 <= i < rev@.len() ==> #[trigger] rev@[i] == orig[n - 1 - i],
            res@ == sort_by(orig.take(n - rev@.len()), key_of::<T>()),
        decreases rev@.len(),
    {
        let ghost k = n - rev@.len();
        let p = rev.pop().unwrap();
        assert(p == orig[k]);
        insert_keyed(&mut res, p);
        assert(orig.take(k + 1).drop_last() =~= orig.take(k));
        assert(orig.take(k + 1).last() == p);
    }
    assert(orig.take(n as int) =~= orig);
    res
}

} // verus!
