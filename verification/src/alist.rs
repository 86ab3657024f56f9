//! Association lists: sequences of key-value pairs looked up by their first
//! matching entry. The tables this crate exchanges (token to path, token to
//! file contents) are small and call-scoped, so a plain vector with verified
//! lookup is the whole data structure.

use vstd::prelude::*;
use crate::strutil::str_eq;

verus! {

/// Whether some entry of `s` has key `key`.
pub open spec fn alist_contains_key<K, V>(s: Seq<(K, V)>, key: K) -> bool {
    exists|i: int| 0 <= i < s.len() && (#[trigger] s[i]).0 == key
}

/// The value at the first entry of `s` whose key is `key`, if any.
pub open spec fn alist_get<K, V>(s: Seq<(K, V)>, key: K) -> Option<V>
    decreases s.len(),
{
    if s.len() == 0 {
        None
    } else if s[0].0 == key {
        Some(s[0].1)
    } else {
        alist_get(s.drop_first(), key)
    }
}

/// The index of the first entry of `s` whose key is `key`, or -1.
pub open spec fn alist_first_index<K, V>(s: Seq<(K, V)>, key: K) -> int
    decreases s.len(),
{
    if s.len() == 0 {
        -1
    } else if s[0].0 == key {
        0
    } else if alist_first_index(s.drop_first(), key) == -1 {
        -1
    } else {
        alist_first_index(s.drop_first(), key) + 1
    }
}

/// `s` with `key` bound to `value`: the first entry with that key is
/// replaced in place, or a new entry is appended if there is none.
pub open spec fn alist_insert<K, V>(s: Seq<(K, V)>, key: K, value: V) -> Seq<(K, V)> {
    let i = alist_first_index(s, key);
    if i == -1 {
        s.push((key, value))
    } else {
        s.update(i, (key, value))
    }
}

/// A key that no entry carries is not found.
pub proof fn lemma_alist_get_none<K, V>(s: Seq<(K, V)>, key: K)
    requires
        forall|i: int| 0 <= i < s.len() ==> (#[trigger] s[i]).0 != key,
    ensures
        alist_get(s, key) is None,
    decreases s.len(),
{
    if s.len() > 0 {
        assert(forall|i: int| 0 <= i < s.drop_first().len() ==> (#[trigger] s.drop_first()[i]).0
            == s[i + 1].0);
        lemma_alist_get_none(s.drop_first(), key);
    }
}

/// Lookup returns the value at the first entry carrying the key.
pub proof fn lemma_alist_get_at<K, V>(s: Seq<(K, V)>, key: K, j: int)
    requires
        0 <= j < s.len(),
        s[j].0 == key,
        forall|i: int| 0 <= i < j ==> (#[trigger] s[i]).0 != key,
    ensures
        alist_get(s, key) == Some(s[j].1),
    decreases s.len(),
{
    if j == 0 {
    } else {
        assert(forall|i: int| 0 <= i < s.drop_first().len() ==> #[trigger] s.drop_first()[i] == s[i + 1]);
        lemma_alist_get_at(s.drop_first(), key, j - 1);
    }
}

/// Appending an entry does not shadow earlier entries: lookup changes only
/// for a key that was absent.
pub proof fn lemma_alist_get_push<K, V>(s: Seq<(K, V)>, key: K, p: (K, V))
    ensures
        alist_get(s, key) is Some ==> alist_get(s.push(p), key) == alist_get(s, key),
        alist_get(s, key) is None && p.0 == key ==> alist_get(s.push(p), key) == Some(p.1),
        alist_get(s, key) is None && p.0 != key ==> alist_get(s.push(p), key) is None,
    decreases s.len(),
{
    if s.len() == 0 {
        assert(s.push(p)[0] == p);
        if p.0 == key {
            lemma_alist_get_at(s.push(p), key, 0);
        } else {
            lemma_alist_get_none(s.push(p), key);
        }
    } else {
        assert(s.push(p)[0] == s[0]);
        assert(s.push(p).drop_first() =~= s.drop_first().push(p));
        lemma_alist_get_push(s.drop_first(), key, p);
    }
}

/// A key found in a prefix is found with the same value in the whole list:
/// entries appended later never shadow earlier ones.
pub proof fn lemma_alist_get_prefix<K, V>(s1: Seq<(K, V)>, s2: Seq<(K, V)>, key: K)
    requires
        s1.is_prefix_of(s2),
        alist_get(s1, key) is Some,
    ensures
        alist_get(s2, key) == alist_get(s1, key),
    decreases s1.len(),
{
    assert(s1[0] == s2[0]);
    if s1[0].0 == key {
    } else {
        assert(s1.drop_first().is_prefix_of(s2.drop_first())) by {
            assert(s1.drop_first() =~= s2.drop_first().subrange(0, s1.drop_first().len() as int));
        }
        lemma_alist_get_prefix(s1.drop_first(), s2.drop_first(), key);
    }
}

/// A found key is a contained key, and conversely.
pub proof fn lemma_alist_get_contains<K, V>(s: Seq<(K, V)>, key: K)
    ensures
        alist_get(s, key) is Some <==> alist_contains_key(s, key),
    decreases s.len(),
{
    if s.len() > 0 {
        assert(forall|i: int| 0 <= i < s.drop_first().len() ==> #[trigger] s.drop_first()[i] == s[i + 1]);
        lemma_alist_get_contains(s.drop_first(), key);
        if alist_contains_key(s, key) && s[0].0 != key {
            let i = choose|i: int| 0 <= i < s.len() && (#[trigger] s[i]).0 == key;
            assert(s.drop_first()[i - 1].0 == key);
        }
    }
}

/// The first index is in range and points at the key, with no earlier
/// occurrence; it is -1 exactly when the key is absent.
pub proof fn lemma_alist_first_index<K, V>(s: Seq<(K, V)>, key: K)
    ensures
        -1 <= alist_first_index(s, key) < s.len(),
        alist_first_index(s, key) == -1 <==> !alist_contains_key(s, key),
        alist_first_index(s, key) >= 0 ==> s[alist_first_index(s, key)].0 == key && (forall|
            i: int,
        |
            0 <= i < alist_first_index(s, key) ==> (#[trigger] s[i]).0 != key),
    decreases s.len(),
{
    if s.len() > 0 {
        assert(forall|i: int| 1 <= i < s.len() ==> #[trigger] s[i] == s.drop_first()[i - 1]);
        lemma_alist_first_index(s.drop_first(), key);
        if s[0].0 != key {
            let r0 = alist_first_index(s.drop_first(), key);
            if r0 == -1 {
                if alist_contains_key(s, key) {
                    let i = choose|i: int| 0 <= i < s.len() && (#[trigger] s[i]).0 == key;
                    assert(s.drop_first()[i - 1].0 == key);
                    assert(alist_contains_key(s.drop_first(), key));
                }
            } else {
                assert(s[r0 + 1] == s.drop_first()[r0]);
                assert(alist_contains_key(s, key));
                assert(forall|i: int|
                    1 <= i < r0 + 1 ==> (#[trigger] s[i]).0 == s.drop_first()[i - 1].0);
            }
        }
    }
}

/// Finds the first entry with the given key and returns a reference to its
/// value.
pub fn alist_find<'a, V: DeepView>(entries: &'a Vec<(String, V)>, key: &str) -> (r: Option<&'a V>)
    ensures
        match r {
            Some(v) => alist_get(entries.deep_view(), key@) == Some(v.deep_view()),
            None => alist_get(entries.deep_view(), key@) is None,
        },
{
    let ghost dv = entries.deep_view();
    let mut i: usize = 0;
    while i < entries.len()
        invariant
            dv == entries.deep_view(),
            dv.len() == entries@.len(),
            forall|k: int| 0 <= k < dv.len() ==> #[trigger] dv[k] == (entries@[k].0@,
            entries@[k].1.deep_view()),
            i <= entries@.len(),
            forall|k: int| 0 <= k < i ==> (#[trigger] dv[k]).0 != key@,
        decreases entries@.len() - i,
    {
        if str_eq(entries[i].0.as_str(), key) {
            proof {
                lemma_alist_get_at(dv, key@, i as int);
            }
            return Some(&entries[i].1);
        }
        i = i + 1;
    }
    proof {
        lemma_alist_get_none(dv, key@);
    }
    None
}

} // verus!
