//! Key-value sequences: the ghost model behind both a record's fields and a
//! collection's GUID-keyed entries. A value keyed by a string is modelled as
//! a sequence of pairs; insertion replaces the pair that carries the key, or
//! appends a fresh pair at the end.

use vstd::prelude::*;

verus! {

/// Some pair of `s` carries the key `k`.
pub open spec fn has_key<T>(s: Seq<(Seq<char>, T)>, k: Seq<char>) -> bool {
    exists|i: int| 0 <= i < s.len() && (#[trigger] s[i]).0 == k
}

/// An index of a pair that carries `k` (the only one when keys are unique).
pub open spec fn key_index<T>(s: Seq<(Seq<char>, T)>, k: Seq<char>) -> int {
    choose|i: int| 0 <= i < s.len() && (#[trigger] s[i]).0 == k
}

/// The value stored under `k`.
pub open spec fn value_of<T>(s: Seq<(Seq<char>, T)>, k: Seq<char>) -> T {
    s[key_index(s, k)].1
}

/// `s` with `v` stored under `k`: the carrying pair is replaced in place,
/// or a fresh pair is appended.
pub open spec fn set_key<T>(s: Seq<(Seq<char>, T)>, k: Seq<char>, v: T) -> Seq<(Seq<char>, T)> {
    if has_key(s, k) {
        s.update(key_index(s, k), (k, v))
    } else {
        s.push((k, v))
    }
}

/// No two pairs of `s` carry the same key.
pub open spec fn unique_keys<T>(s: Seq<(Seq<char>, T)>) -> bool {
    forall|i: int, j: int|
        #![trigger s[i].0, s[j].0]
        0 <= i < j < s.len() ==> s[i].0 != s[j].0
}

/// The mapping that `s` stores, read through `has_key` and `value_of`.
pub open spec fn kv_map<T>(s: Seq<(Seq<char>, T)>) -> Map<Seq<char>, T> {
    Map::new(|k: Seq<char>| has_key(s, k), |k: Seq<char>| value_of(s, k))
}

/// With unique keys, the pair at any index is the one its key selects.
pub proof fn lemma_key_at<T>(s: Seq<(Seq<char>, T)>, i: int)
    requires
        unique_keys(s),
        0 <= i < s.len(),
    ensures
        has_key(s, s[i].0),
        key_index(s, s[i].0) == i,
        value_of(s, s[i].0) == s[i].1,
        kv_map(s)[s[i].0] == s[i].1,
{
    let k = s[i].0;
    assert(has_key(s, k));
    let j = key_index(s, k);
    assert(0 <= j < s.len() && s[j].0 == k);
    if i < j {
        assert(s[i].0 != s[j].0);
    } else if j < i {
        assert(s[j].0 != s[i].0);
    }
}

/// Storing under a key keeps keys unique and acts as `insert` on the stored
/// mapping; pairs carrying other keys stand as they were.
pub proof fn lemma_set_key<T>(s: Seq<(Seq<char>, T)>, k: Seq<char>, v: T)
    requires
        unique_keys(s),
    ensures
        unique_keys(set_key(s, k, v)),
        kv_map(set_key(s, k, v)) == kv_map(s).insert(k, v),
        has_key(set_key(s, k, v), k),
        forall|i: int|
            0 <= i < s.len() && s[i].0 != k ==> #[trigger] set_key(s, k, v)[i] == s[i],
{
    let s2 = set_key(s, k, v);
    if has_key(s, k) {
        let i = key_index(s, k);
        assert(0 <= i < s.len() && s[i].0 == k);
        assert(forall|j: int| 0 <= j < s2.len() && j != i ==> #[trigger] s2[j] == s[j]);
        assert(s2[i] == (k, v));
        assert(unique_keys(s2));
        assert forall|k2: Seq<char>| has_key(s2, k2) <==> has_key(s, k2) || k2 == k by {
            if has_key(s2, k2) {
                let j = choose|j: int| 0 <= j < s2.len() && (#[trigger] s2[j]).0 == k2;
                if j != i {
                    assert(s[j].0 == k2);
                }
            }
            if has_key(s, k2) {
                let j = choose|j: int| 0 <= j < s.len() && (#[trigger] s[j]).0 == k2;
                if j != i {
                    assert(s2[j].0 == k2);
                } else {
                    assert(k2 == k);
                }
            }
            if k2 == k {
                assert(s2[i].0 == k2);
            }
        }
        assert forall|k2: Seq<char>| #[trigger] has_key(s2, k2) implies kv_map(s2)[k2] == kv_map(
            s,
        ).insert(k, v)[k2] by {
            let j = key_index(s2, k2);
            assert(0 <= j < s2.len() && s2[j].0 == k2);
            lemma_key_at(s2, j);
            if k2 == k {
                assert(j == i) by {
                    if j != i {
                        assert(s2[j] == s[j]);
                        assert(s[j].0 != s[i].0);
                    }
                }
            } else {
                assert(j != i);
                assert(s2[j] == s[j]);
                lemma_key_at(s, j);
            }
        }
        assert(kv_map(s2) =~= kv_map(s).insert(k, v));
    } else {
        assert(forall|j: int| 0 <= j < s.len() ==> #[trigger] s2[j] == s[j]);
        assert(s2[s.len() as int] == (k, v));
        assert forall|i: int, j: int| 0 <= i < j < s2.len() implies s2[i].0 != s2[j].0 by {
            if j < s.len() {
                assert(s[i].0 != s[j].0);
            } else {
                assert(s2[j].0 == k);
                assert(s2[i] == s[i]);
                assert(!(s[i].0 == k));
            }
        }
        assert forall|k2: Seq<char>| has_key(s2, k2) <==> has_key(s, k2) || k2 == k by {
            if has_key(s2, k2) {
                let j = choose|j: int| 0 <= j < s2.len() && (#[trigger] s2[j]).0 == k2;
                if j < s.len() {
                    assert(s[j].0 == k2);
                }
            }
            if has_key(s, k2) {
                let j = choose|j: int| 0 <= j < s.len() && (#[trigger] s[j]).0 == k2;
                assert(s2[j].0 == k2);
            }
            if k2 == k {
                assert(s2[s.len() as int].0 == k2);
            }
        }
        assert forall|k2: Seq<char>| #[trigger] has_key(s2, k2) implies kv_map(s2)[k2] == kv_map(
            s,
        ).insert(k, v)[k2] by {
            let j = key_index(s2, k2);
            assert(0 <= j < s2.len() && s2[j].0 == k2);
            lemma_key_at(s2, j);
            if j < s.len() {
                assert(s2[j] == s[j]);
                lemma_key_at(s, j);
                assert(k2 != k);
            } else {
                assert(k2 == k);
            }
        }
        assert(kv_map(s2) =~= kv_map(s).insert(k, v));
    }
}

/// Appending a pair whose key is fresh keeps keys unique.
pub proof fn lemma_push_fresh<T>(s: Seq<(Seq<char>, T)>, k: Seq<char>, v: T)
    requires
        unique_keys(s),
        !has_key(s, k),
    ensures
        unique_keys(s.push((k, v))),
        set_key(s, k, v) == s.push((k, v)),
{
    let s2 = s.push((k, v));
    assert forall|i: int, j: int| 0 <= i < j < s2.len() implies s2[i].0 != s2[j].0 by {
        if j < s.len() {
            assert(s[i].0 != s[j].0);
        } else {
            assert(s2[i] == s[i]);
            assert(!(s[i].0 == k));
        }
    }
}

} // verus!
