//! The mathematical model shared by the sparse grids: a sequence of
//! key-value entries with pairwise-distinct keys, read as a `Map`.

use vstd::prelude::*;

verus! {

/// The map described by an entry sequence; later entries win.
pub open spec fn map_of<K, V>(s: Seq<(K, V)>) -> Map<K, V>
    decreases s.len(),
{
    if s.len() == 0 {
        Map::empty()
    } else {
        map_of(s.drop_last()).insert(s.last().0, s.last().1)
    }
}

/// No two entries share a key.
pub open spec fn keys_distinct<K, V>(s: Seq<(K, V)>) -> bool {
    forall|i: int, j: int| 0 <= i < j < s.len() ==> (#[trigger] s[i]).0 != (#[trigger] s[j]).0
}

/// The subsequence of `s` kept by the decision sequence `bs`.
pub open spec fn filter_by<A>(s: Seq<A>, bs: Seq<bool>) -> Seq<A>
    recommends
        bs.len() == s.len(),
    decreases s.len(),
{
    if s.len() == 0 {
        Seq::empty()
    } else {
        filter_by(s.drop_last(), bs.drop_last()) + if s.len() <= bs.len() && bs[s.len() - 1] {
            seq![s.last()]
        } else {
            Seq::empty()
        }
    }
}

/// The candidate keys that are present in `m`, kept in candidate order.
pub open spec fn present_keys<K, V>(cands: Seq<K>, m: Map<K, V>) -> Seq<K>
    decreases cands.len(),
{
    if cands.len() == 0 {
        Seq::empty()
    } else {
        present_keys(cands.drop_last(), m) + if m.contains_key(cands.last()) {
            seq![cands.last()]
        } else {
            Seq::empty()
        }
    }
}

/// A key is in the map exactly when some entry carries it.
pub proof fn lemma_map_of_contains<K, V>(s: Seq<(K, V)>, k: K)
    ensures
        map_of(s).contains_key(k) <==> exists|i: int| 0 <= i < s.len() && (#[trigger] s[i]).0 == k,
    decreases s.len(),
{
    if s.len() > 0 {
        lemma_map_of_contains(s.drop_last(), k);
        if map_of(s).contains_key(k) {
            if s.last().0 == k {
                assert(s[s.len() - 1].0 == k);
            } else {
                let dl = s.drop_last();
                let i = choose|i: int| 0 <= i < dl.len() && (#[trigger] dl[i]).0 == k;
                assert(s[i].0 == k);
            }
        }
        if exists|i: int| 0 <= i < s.len() && (#[trigger] s[i]).0 == k {
            let i = choose|i: int| 0 <= i < s.len() && (#[trigger] s[i]).0 == k;
            if i < s.len() - 1 {
                assert(s.drop_last()[i].0 == k);
            }
        }
    }
}

/// With distinct keys, entry `i` is exactly what the map stores at its key.
pub proof fn lemma_map_of_index<K, V>(s: Seq<(K, V)>, i: int)
    requires
        keys_distinct(s),
        0 <= i < s.len(),
    ensures
        map_of(s).contains_key(s[i].0),
        map_of(s)[s[i].0] == s[i].1,
    decreases s.len(),
{
    if i == s.len() - 1 {
        assert(map_of(s) == map_of(s.drop_last()).insert(s.last().0, s.last().1));
    } else {
        assert(keys_distinct(s.drop_last())) by {
            assert(forall|a: int, b: int|
                0 <= a < b < s.drop_last().len() ==> (#[trigger] s.drop_last()[a]).0 != (
                #[trigger] s.drop_last()[b]).0);
        }
        lemma_map_of_index(s.drop_last(), i);
        assert(s.drop_last()[i] == s[i]);
        assert(s[i].0 != s.last().0);
    }
}

/// Appending an entry inserts its key.
pub proof fn lemma_map_of_push<K, V>(s: Seq<(K, V)>, k: K, v: V)
    ensures
        map_of(s.push((k, v))) == map_of(s).insert(k, v),
{
    let t = s.push((k, v));
    assert(t.drop_last() =~= s);
    assert(t.last() == (k, v));
}

/// Overwriting the entry that carries `k` updates the map at `k` alone.
pub proof fn lemma_map_of_update<K, V>(s: Seq<(K, V)>, i: int, k: K, v: V)
    requires
        keys_distinct(s),
        0 <= i < s.len(),
        s[i].0 == k,
    ensures
        map_of(s.update(i, (k, v))) == map_of(s).insert(k, v),
    decreases s.len(),
{
    let t = s.update(i, (k, v));
    if i == s.len() - 1 {
        assert(t.drop_last() =~= s.drop_last());
        assert(map_of(t) == map_of(s.drop_last()).insert(k, v));
        assert(map_of(s).insert(k, v) == map_of(s.drop_last()).insert(s.last().0, s.last().1).insert(
            k,
            v,
        ));
        assert(map_of(s.drop_last()).insert(k, v) =~= map_of(s.drop_last()).insert(
            s.last().0,
            s.last().1,
        ).insert(k, v));
    } else {
        assert(keys_distinct(s.drop_last())) by {
            assert(forall|a: int, b: int|
                0 <= a < b < s.drop_last().len() ==> (#[trigger] s.drop_last()[a]).0 != (
                #[trigger] s.drop_last()[b]).0);
        }
        lemma_map_of_update(s.drop_last(), i, k, v);
        assert(t.drop_last() =~= s.drop_last().update(i, (k, v)));
        assert(t.last() == s.last());
        assert(map_of(t) == map_of(s.drop_last()).insert(k, v).insert(s.last().0, s.last().1));
        assert(s.last().0 != k);
        assert(map_of(s.drop_last()).insert(k, v).insert(s.last().0, s.last().1) =~= map_of(
            s.drop_last(),
        ).insert(s.last().0, s.last().1).insert(k, v));
    }
}

/// Distinctness survives overwriting an entry with the same key.
pub proof fn lemma_distinct_update<K, V>(s: Seq<(K, V)>, i: int, k: K, v: V)
    requires
        keys_distinct(s),
        0 <= i < s.len(),
        s[i].0 == k,
    ensures
        keys_distinct(s.update(i, (k, v))),
{
    let t = s.update(i, (k, v));
    assert(forall|a: int, b: int|
        0 <= a < b < t.len() ==> (#[trigger] t[a]).0 != (#[trigger] t[b]).0) by {
        assert(forall|a: int| 0 <= a < t.len() ==> (#[trigger] t[a]).0 == s[a].0);
    }
}

/// Distinctness survives appending a fresh key.
pub proof fn lemma_distinct_push<K, V>(s: Seq<(K, V)>, k: K, v: V)
    requires
        keys_distinct(s),
        forall|i: int| 0 <= i < s.len() ==> (#[trigger] s[i]).0 != k,
    ensures
        keys_distinct(s.push((k, v))),
{
    let t = s.push((k, v));
    assert(forall|a: int, b: int|
        0 <= a < b < t.len() ==> (#[trigger] t[a]).0 != (#[trigger] t[b]).0);
}

/// Distinctness survives keeping a subsequence.
pub proof fn lemma_distinct_filter_by<K, V>(s: Seq<(K, V)>, bs: Seq<bool>)
    requires
        keys_distinct(s),
        bs.len() == s.len(),
    ensures
        keys_distinct(filter_by(s, bs)),
        forall|i: int|
            0 <= i < filter_by(s, bs).len() ==> exists|j: int|
                0 <= j < s.len() && #[trigger] filter_by(s, bs)[i] == s[j],
    decreases s.len(),
{
    if s.len() > 0 {
        assert(keys_distinct(s.drop_last())) by {
            assert(forall|a: int, b: int|
                0 <= a < b < s.drop_last().len() ==> (#[trigger] s.drop_last()[a]).0 != (
                #[trigger] s.drop_last()[b]).0);
        }
        lemma_distinct_filter_by(s.drop_last(), bs.drop_last());
        let f = filter_by(s, bs);
        let fd = filter_by(s.drop_last(), bs.drop_last());
        assert forall|i: int| 0 <= i < f.len() implies exists|j: int|
            0 <= j < s.len() && #[trigger] f[i] == s[j] by {
            if i < fd.len() {
                assert(f[i] == fd[i]);
                let j = choose|j: int| 0 <= j < s.drop_last().len() && fd[i] == #[trigger] s.drop_last()[j];
                assert(f[i] == s[j]);
            } else {
                assert(f[i] == s[s.len() - 1]);
            }
        }
        assert forall|a: int, b: int| 0 <= a < b < f.len() implies (#[trigger] f[a]).0 != (
        #[trigger] f[b]).0 by {
            if b < fd.len() {
            } else {
                assert(f[b] == s.last());
                let j = choose|j: int| 0 <= j < s.drop_last().len() && f[a] == #[trigger] s.drop_last()[j];
                assert(f[a] == s[j]);
            }
        }
    }
}

} // verus!
