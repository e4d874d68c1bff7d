//! Lists of keyed entries read as maps. The tables of this crate are short
//! vectors in which no key occurs twice; their contracts speak of the map that
//! such a list stands for.

use vstd::prelude::*;

verus! {

/// Whether some entry of `s` has the key `k`.
pub open spec fn has_key<K, V>(s: Seq<(K, V)>, k: K) -> bool {
    exists|i: int| 0 <= i < s.len() && (#[trigger] s[i]).0 == k
}

/// The place of an entry with key `k`.
pub open spec fn index_of<K, V>(s: Seq<(K, V)>, k: K) -> int {
    choose|i: int| 0 <= i < s.len() && (#[trigger] s[i]).0 == k
}

/// The map that a list of entries stands for.
pub open spec fn to_map<K, V>(s: Seq<(K, V)>) -> Map<K, V> {
    Map::new(|k: K| has_key(s, k), |k: K| s[index_of(s, k)].1)
}

/// No key occurs twice.
pub open spec fn distinct_keys<K, V>(s: Seq<(K, V)>) -> bool {
    forall|i: int, j: int| 0 <= i < j < s.len() ==> (#[trigger] s[i]).0 != (#[trigger] s[j]).0
}

/// In a list without repeated keys, each entry is what the map holds for its
/// key.
pub proof fn lemma_entry<K, V>(s: Seq<(K, V)>, i: int)
    requires
        distinct_keys(s),
        0 <= i < s.len(),
    ensures
        has_key(s, s[i].0),
        index_of(s, s[i].0) == i,
        to_map(s).dom().contains(s[i].0),
        to_map(s)[s[i].0] == s[i].1,
{
    let k = s[i].0;
    assert(has_key(s, k));
    let j = index_of(s, k);
    assert(0 <= j < s.len() && s[j].0 == k);
    if i < j {
        assert(s[i].0 != s[j].0);
    } else if j < i {
        assert(s[j].0 != s[i].0);
    }
}

/// Appending an entry under a new key inserts it into the map.
pub proof fn lemma_push<K, V>(s: Seq<(K, V)>, k: K, v: V)
    requires
        distinct_keys(s),
        !has_key(s, k),
    ensures
        distinct_keys(s.push((k, v))),
        to_map(s.push((k, v))) == to_map(s).insert(k, v),
{
    let more = s.push((k, v));
    assert forall|i: int, j: int| 0 <= i < j < more.len() implies (#[trigger] more[i]).0
        != (#[trigger] more[j]).0 by {
        if j == s.len() {
            assert(s[i].0 == more[i].0);
        } else {
            assert(s[i].0 != s[j].0);
        }
    }
    assert forall|q: K| has_key(more, q) == (has_key(s, q) || q == k) by {
        if has_key(s, q) {
            let i = index_of(s, q);
            assert(more[i].0 == q);
        }
        if q == k {
            assert(more[s.len() as int].0 == q);
        }
        if has_key(more, q) {
            let i = index_of(more, q);
            if i < s.len() {
                assert(s[i].0 == q);
            }
        }
    }
    assert forall|q: K| has_key(more, q) implies to_map(more)[q] == to_map(s).insert(k, v)[q] by {
        let i = index_of(more, q);
        lemma_entry(more, i);
        if i < s.len() {
            assert(s[i].0 == q);
            lemma_entry(s, i);
        }
    }
    assert(to_map(more) =~= to_map(s).insert(k, v));
}

/// Replacing what an entry holds, under the same key, replaces it in the map.
pub proof fn lemma_update<K, V>(s: Seq<(K, V)>, i: int, v: V)
    requires
        distinct_keys(s),
        0 <= i < s.len(),
    ensures
        distinct_keys(s.update(i, (s[i].0, v))),
        to_map(s.update(i, (s[i].0, v))) == to_map(s).insert(s[i].0, v),
{
    let k = s[i].0;
    let next = s.update(i, (k, v));
    assert forall|a: int, b: int| 0 <= a < b < next.len() implies (#[trigger] next[a]).0
        != (#[trigger] next[b]).0 by {
        assert(next[a].0 == s[a].0 && next[b].0 == s[b].0);
        assert(s[a].0 != s[b].0);
    }
    assert forall|q: K| has_key(next, q) == has_key(s, q) by {
        if has_key(s, q) {
            let j = index_of(s, q);
            assert(next[j].0 == q);
        }
        if has_key(next, q) {
            let j = index_of(next, q);
            assert(s[j].0 == q);
        }
    }
    lemma_entry(s, i);
    assert forall|q: K| has_key(next, q) implies to_map(next)[q] == to_map(s).insert(k, v)[q] by {
        let j = index_of(next, q);
        assert(s[j].0 == q);
        lemma_entry(next, j);
        lemma_entry(s, j);
    }
    assert(to_map(next) =~= to_map(s).insert(k, v));
}

/// A list without repeated keys has as many entries as its map has keys.
pub proof fn lemma_count<K, V>(s: Seq<(K, V)>)
    requires
        distinct_keys(s),
    ensures
        to_map(s).dom().finite(),
        to_map(s).dom().len() == s.len(),
    decreases s.len(),
{
    if s.len() == 0 {
        assert(to_map(s).dom() =~= Set::<K>::empty());
    } else {
        let front = s.drop_last();
        let last = s.last();
        assert(distinct_keys(front)) by {
            assert forall|i: int, j: int| 0 <= i < j < front.len() implies (#[trigger] front[i]).0
                != (#[trigger] front[j]).0 by {
                assert(s[i].0 != s[j].0);
            }
        }
        assert(!has_key(front, last.0)) by {
            if has_key(front, last.0) {
                let i = index_of(front, last.0);
                assert(s[i].0 != s[s.len() - 1].0);
            }
        }
        lemma_count(front);
        lemma_push(front, last.0, last.1);
        assert(front.push((last.0, last.1)) =~= s);
    }
}

} // verus!
