//! Lists of key/value pairs and the mappings they stand for.
//!
//! Both the label sets and the inverted index keep their pairs in a vector
//! sorted by key. This file relates such a list to the mapping it stands for.

use vstd::prelude::*;

verus! {

/// No key occurs twice in `pairs`.
pub open spec fn distinct_keys<K, V>(pairs: Seq<(K, V)>) -> bool {
    forall|i: int, j: int|
        0 <= i < j < pairs.len() ==> (#[trigger] pairs[i]).0 != (#[trigger] pairs[j]).0
}

/// The keys of `pairs` ascend strictly in the order `lt`.
pub open spec fn ascending_keys<K, V>(pairs: Seq<(K, V)>, lt: spec_fn(K, K) -> bool) -> bool {
    forall|i: int, j: int|
        0 <= i < j < pairs.len() ==> lt((#[trigger] pairs[i]).0, (#[trigger] pairs[j]).0)
}

/// `lt` is a strict total order.
pub open spec fn strict_total_order<K>(lt: spec_fn(K, K) -> bool) -> bool {
    &&& forall|a: K| !#[trigger] lt(a, a)
    &&& forall|a: K, b: K, c: K| #[trigger] lt(a, b) && #[trigger] lt(b, c) ==> lt(a, c)
    &&& forall|a: K, b: K| a == b || #[trigger] lt(a, b) || #[trigger] lt(b, a)
}

/// The mapping that a list of pairs stands for. Where a key occurs twice the
/// later pair counts.
pub open spec fn to_map<K, V>(pairs: Seq<(K, V)>) -> Map<K, V>
    decreases pairs.len(),
{
    if pairs.len() == 0 {
        Map::empty()
    } else {
        to_map(pairs.drop_last()).insert(pairs.last().0, pairs.last().1)
    }
}

/// Keys that ascend strictly in an irreflexive order are distinct.
pub proof fn lemma_ascending_is_distinct<K, V>(pairs: Seq<(K, V)>, lt: spec_fn(K, K) -> bool)
    requires
        strict_total_order(lt),
        ascending_keys(pairs, lt),
    ensures
        distinct_keys(pairs),
{
    assert forall|i: int, j: int| 0 <= i < j < pairs.len() implies (#[trigger] pairs[i]).0 != (
    #[trigger] pairs[j]).0 by {
        assert(lt(pairs[i].0, pairs[j].0));
    }
}

/// In a list with distinct keys each pair is found in the mapping under its
/// key, and the mapping holds no other key.
pub proof fn lemma_to_map_lookup<K, V>(pairs: Seq<(K, V)>)
    requires
        distinct_keys(pairs),
    ensures
        forall|i: int|
            0 <= i < pairs.len() ==> to_map(pairs).contains_key((#[trigger] pairs[i]).0) && to_map(
                pairs,
            )[pairs[i].0] == pairs[i].1,
        forall|k: K|
            to_map(pairs).contains_key(k) ==> exists|i: int|
                0 <= i < pairs.len() && (#[trigger] pairs[i]).0 == k,
        to_map(pairs).dom().finite(),
        to_map(pairs).len() == pairs.len(),
    decreases pairs.len(),
{
    if pairs.len() > 0 {
        let front = pairs.drop_last();
        let last = pairs.last();
        assert forall|i: int, j: int| 0 <= i < j < front.len() implies (#[trigger] front[i]).0 != (
        #[trigger] front[j]).0 by {
            assert(front[i] == pairs[i] && front[j] == pairs[j]);
        }
        lemma_to_map_lookup(front);
        assert forall|i: int| 0 <= i < pairs.len() implies to_map(pairs).contains_key(
            (#[trigger] pairs[i]).0,
        ) && to_map(pairs)[pairs[i].0] == pairs[i].1 by {
            if i < pairs.len() - 1 {
                assert(front[i] == pairs[i]);
                assert(pairs[i].0 != pairs[pairs.len() - 1].0);
            }
        }
        assert forall|k: K| to_map(pairs).contains_key(k) implies exists|i: int|
            0 <= i < pairs.len() && (#[trigger] pairs[i]).0 == k by {
            if k == last.0 {
                assert(pairs[pairs.len() - 1].0 == k);
            } else {
                let i = choose|i: int| 0 <= i < front.len() && (#[trigger] front[i]).0 == k;
                assert(pairs[i].0 == k);
            }
        }
        assert(!to_map(front).contains_key(last.0)) by {
            if to_map(front).contains_key(last.0) {
                let i = choose|i: int| 0 <= i < front.len() && (#[trigger] front[i]).0 == last.0;
                assert(front[i] == pairs[i]);
                assert(pairs[i].0 != pairs[pairs.len() - 1].0);
            }
        }
    }
}

/// Replacing the value of the pair at position `i` sets the value of its key
/// in the mapping.
pub proof fn lemma_to_map_update<K, V>(pairs: Seq<(K, V)>, i: int, value: V)
    requires
        distinct_keys(pairs),
        0 <= i < pairs.len(),
    ensures
        distinct_keys(pairs.update(i, (pairs[i].0, value))),
        to_map(pairs.update(i, (pairs[i].0, value))) == to_map(pairs).insert(pairs[i].0, value),
{
    let key = pairs[i].0;
    let after = pairs.update(i, (key, value));
    assert forall|a: int, b: int| 0 <= a < b < after.len() implies (#[trigger] after[a]).0 != (
    #[trigger] after[b]).0 by {
        assert(after[a].0 == pairs[a].0 && after[b].0 == pairs[b].0);
    }
    lemma_to_map_lookup(pairs);
    lemma_to_map_lookup(after);
    let goal = to_map(pairs).insert(key, value);
    assert forall|k: K| to_map(after).contains_key(k) == goal.contains_key(k) by {
        if to_map(after).contains_key(k) {
            let n = choose|n: int| 0 <= n < after.len() && (#[trigger] after[n]).0 == k;
            assert(pairs[n].0 == k);
        }
        if to_map(pairs).contains_key(k) {
            let n = choose|n: int| 0 <= n < pairs.len() && (#[trigger] pairs[n]).0 == k;
            assert(after[n].0 == k);
        }
        if k == key {
            assert(after[i].0 == k);
        }
    }
    assert forall|k: K| to_map(after).contains_key(k) implies to_map(after)[k] == goal[k] by {
        let n = choose|n: int| 0 <= n < after.len() && (#[trigger] after[n]).0 == k;
        if n != i {
            assert(pairs[n] == after[n]);
            if n < i {
                assert(after[n].0 != after[i].0);
            } else {
                assert(after[i].0 != after[n].0);
            }
        }
    }
    assert(to_map(after) =~= goal);
}

/// Putting a pair with a new key into the list, at any position, adds the
/// pair to the mapping.
pub proof fn lemma_to_map_insert<K, V>(pairs: Seq<(K, V)>, i: int, key: K, value: V)
    requires
        distinct_keys(pairs),
        0 <= i <= pairs.len(),
        forall|j: int| 0 <= j < pairs.len() ==> (#[trigger] pairs[j]).0 != key,
    ensures
        distinct_keys(pairs.insert(i, (key, value))),
        to_map(pairs.insert(i, (key, value))) == to_map(pairs).insert(key, value),
{
    let after = pairs.insert(i, (key, value));
    assert forall|a: int, b: int| 0 <= a < b < after.len() implies (#[trigger] after[a]).0 != (
    #[trigger] after[b]).0 by {
        if b < i {
            assert(after[a] == pairs[a] && after[b] == pairs[b]);
        } else if b == i {
            assert(after[a] == pairs[a]);
        } else if a < i {
            assert(after[a] == pairs[a] && after[b] == pairs[b - 1]);
        } else if a == i {
            assert(after[b] == pairs[b - 1]);
        } else {
            assert(after[a] == pairs[a - 1] && after[b] == pairs[b - 1]);
        }
    }
    lemma_to_map_lookup(pairs);
    lemma_to_map_lookup(after);
    let goal = to_map(pairs).insert(key, value);
    assert forall|k: K| to_map(after).contains_key(k) == goal.contains_key(k) by {
        if to_map(after).contains_key(k) {
            let n = choose|n: int| 0 <= n < after.len() && (#[trigger] after[n]).0 == k;
            if n < i {
                assert(pairs[n].0 == k);
            } else if n > i {
                assert(pairs[n - 1].0 == k);
            }
        }
        if to_map(pairs).contains_key(k) {
            let n = choose|n: int| 0 <= n < pairs.len() && (#[trigger] pairs[n]).0 == k;
            if n < i {
                assert(after[n].0 == k);
            } else {
                assert(after[n + 1].0 == k);
            }
        }
        if k == key {
            assert(after[i].0 == k);
        }
    }
    assert forall|k: K| to_map(after).contains_key(k) implies to_map(after)[k] == goal[k] by {
        let n = choose|n: int| 0 <= n < after.len() && (#[trigger] after[n]).0 == k;
        if n < i {
            assert(pairs[n] == after[n]);
        } else if n > i {
            assert(pairs[n - 1] == after[n]);
        }
    }
    assert(to_map(after) =~= goal);
}

/// A list stays ascending where the value of a pair is replaced.
pub proof fn lemma_ascending_update<K, V>(
    pairs: Seq<(K, V)>,
    i: int,
    value: V,
    lt: spec_fn(K, K) -> bool,
)
    requires
        ascending_keys(pairs, lt),
        0 <= i < pairs.len(),
    ensures
        ascending_keys(pairs.update(i, (pairs[i].0, value)), lt),
{
    let after = pairs.update(i, (pairs[i].0, value));
    assert forall|a: int, b: int| 0 <= a < b < after.len() implies lt(
        (#[trigger] after[a]).0,
        (#[trigger] after[b]).0,
    ) by {
        assert(after[a].0 == pairs[a].0 && after[b].0 == pairs[b].0);
        assert(lt(pairs[a].0, pairs[b].0));
    }
}

/// A list stays ascending where a pair is put between the smaller keys and
/// the greater ones.
pub proof fn lemma_ascending_insert<K, V>(
    pairs: Seq<(K, V)>,
    i: int,
    key: K,
    value: V,
    lt: spec_fn(K, K) -> bool,
)
    requires
        strict_total_order(lt),
        ascending_keys(pairs, lt),
        0 <= i <= pairs.len(),
        forall|j: int| 0 <= j < i ==> lt((#[trigger] pairs[j]).0, key),
        forall|j: int| i <= j < pairs.len() ==> lt(key, (#[trigger] pairs[j]).0),
    ensures
        ascending_keys(pairs.insert(i, (key, value)), lt),
        forall|j: int| 0 <= j < pairs.len() ==> (#[trigger] pairs[j]).0 != key,
{
    let after = pairs.insert(i, (key, value));
    assert forall|a: int, b: int| 0 <= a < b < after.len() implies lt(
        (#[trigger] after[a]).0,
        (#[trigger] after[b]).0,
    ) by {
        if b < i {
            assert(after[a] == pairs[a] && after[b] == pairs[b]);
            assert(lt(pairs[a].0, pairs[b].0));
        } else if b == i {
            assert(after[a] == pairs[a]);
        } else if a < i {
            assert(after[a] == pairs[a] && after[b] == pairs[b - 1]);
            assert(lt(pairs[a].0, key));
            assert(lt(key, pairs[b - 1].0));
        } else if a == i {
            assert(after[b] == pairs[b - 1]);
        } else {
            assert(after[a] == pairs[a - 1] && after[b] == pairs[b - 1]);
            assert(lt(pairs[a - 1].0, pairs[b - 1].0));
        }
    }
    assert forall|j: int| 0 <= j < pairs.len() implies (#[trigger] pairs[j]).0 != key by {
        assert(!lt(key, key));
    }
}

/// Two lists with ascending keys that stand for the same mapping are the same
/// list.
pub proof fn lemma_ascending_unique<K, V>(a: Seq<(K, V)>, b: Seq<(K, V)>, lt: spec_fn(K, K) -> bool)
    requires
        strict_total_order(lt),
        ascending_keys(a, lt),
        ascending_keys(b, lt),
        to_map(a) == to_map(b),
    ensures
        a == b,
    decreases a.len(),
{
    lemma_ascending_is_distinct(a, lt);
    lemma_ascending_is_distinct(b, lt);
    lemma_to_map_lookup(a);
    lemma_to_map_lookup(b);
    if a.len() > 0 {
        let n = a.len() - 1;
        let j = choose|j: int| 0 <= j < b.len() && (#[trigger] b[j]).0 == a[n].0;
        let i = choose|i: int| 0 <= i < a.len() && (#[trigger] a[i]).0 == b[n].0;
        assert(a[n].0 == b[n].0) by {
            if j < n {
                assert(lt(b[j].0, b[n].0));
            }
            if i < n {
                assert(lt(a[i].0, a[n].0));
            }
            if a[n].0 != b[n].0 {
                assert(lt(a[n].0, b[n].0) && lt(b[n].0, a[n].0));
                assert(lt(a[n].0, a[n].0));
            }
        }
        assert(a[n] == b[n]);
        let fa = a.drop_last();
        let fb = b.drop_last();
        assert(ascending_keys(fa, lt)) by {
            assert forall|i: int, j: int| 0 <= i < j < fa.len() implies lt(
                (#[trigger] fa[i]).0,
                (#[trigger] fa[j]).0,
            ) by {
                assert(fa[i] == a[i] && fa[j] == a[j]);
            }
        }
        assert(ascending_keys(fb, lt)) by {
            assert forall|i: int, j: int| 0 <= i < j < fb.len() implies lt(
                (#[trigger] fb[i]).0,
                (#[trigger] fb[j]).0,
            ) by {
                assert(fb[i] == b[i] && fb[j] == b[j]);
            }
        }
        lemma_ascending_is_distinct(fa, lt);
        lemma_ascending_is_distinct(fb, lt);
        lemma_to_map_lookup(fa);
        lemma_to_map_lookup(fb);
        assert(to_map(fa) =~= to_map(a).remove(a[n].0));
        assert(to_map(fb) =~= to_map(b).remove(b[n].0));
        lemma_ascending_unique(fa, fb, lt);
        assert(a =~= fa.push(a[n]));
        assert(b =~= fb.push(b[n]));
    } else {
        assert(a =~= b);
    }
}

} // verus!
