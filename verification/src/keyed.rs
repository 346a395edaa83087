//! A list of `(name, value)` entries read as a finite map.
//!
//! Both the variable table and the rule table of the evaluator are stored as
//! vectors of pairs whose first component is a `String` name.  The spec
//! functions here give such a sequence its mathematical reading: which names
//! occur, at which position, with which value.  `unique_keys` is the
//! well-formedness condition that makes the reading a function of the name.

use vstd::pervasive::VecAdditionalExecFns;
use vstd::prelude::*;

verus! {

/// No two entries carry the same name.
pub open spec fn unique_keys<T>(s: Seq<(String, T)>) -> bool {
    forall|i: int, j: int| 0 <= i < j < s.len() ==> s[i].0@ != s[j].0@
}

/// Some entry carries the name `k`.
pub open spec fn has_key<T>(s: Seq<(String, T)>, k: Seq<char>) -> bool {
    exists|i: int| 0 <= i < s.len() && s[i].0@ == k
}

/// The position of an entry named `k` (meaningful only when `has_key` holds;
/// unique when `unique_keys` holds).
pub open spec fn key_index<T>(s: Seq<(String, T)>, k: Seq<char>) -> int {
    choose|i: int| 0 <= i < s.len() && s[i].0@ == k
}

/// The value of the entry named `k`.
pub open spec fn value_of<T>(s: Seq<(String, T)>, k: Seq<char>) -> T {
    s[key_index(s, k)].1
}

/// The entries, read as a map from names to values.
pub open spec fn map_of<T>(s: Seq<(String, T)>) -> Map<Seq<char>, T> {
    Map::new(|k: Seq<char>| has_key(s, k), |k: Seq<char>| value_of(s, k))
}

/// With unique keys, the entry at position `i` is the one its own name leads to.
pub proof fn lemma_entry_at<T>(s: Seq<(String, T)>, i: int)
    requires
        unique_keys(s),
        0 <= i < s.len(),
    ensures
        has_key(s, s[i].0@),
        key_index(s, s[i].0@) == i,
        value_of(s, s[i].0@) == s[i].1,
        map_of(s).contains_key(s[i].0@),
        map_of(s)[s[i].0@] == s[i].1,
{
    let k = s[i].0@;
    assert(has_key(s, k));
    let j = key_index(s, k);
    assert(0 <= j < s.len() && s[j].0@ == k);
    if i < j {
        assert(s[i].0@ != s[j].0@);
    }
    if j < i {
        assert(s[j].0@ != s[i].0@);
    }
}

/// Two entry lists with the same names at the same positions agree on which
/// names they hold and where; uniqueness carries over.
pub proof fn lemma_same_keys<T, U>(s0: Seq<(String, T)>, s1: Seq<(String, U)>)
    requires
        unique_keys(s0),
        s0.len() == s1.len(),
        forall|i: int| 0 <= i < s0.len() ==> s0[i].0@ == #[trigger] s1[i].0@,
    ensures
        unique_keys(s1),
        forall|k: Seq<char>| has_key(s1, k) == has_key(s0, k),
        forall|k: Seq<char>| #[trigger] has_key(s0, k) ==> key_index(s1, k) == key_index(s0, k),
{
    assert forall|i: int, j: int| 0 <= i < j < s1.len() implies s1[i].0@ != s1[j].0@ by {
        assert(s0[i].0@ != s0[j].0@);
    }
    assert forall|k: Seq<char>| has_key(s1, k) == has_key(s0, k) by {
        if has_key(s0, k) {
            let i = key_index(s0, k);
            assert(0 <= i < s0.len() && s0[i].0@ == k);
            assert(s1[i].0@ == k);
            assert(has_key(s1, k));
        }
        if has_key(s1, k) {
            let i = key_index(s1, k);
            assert(0 <= i < s1.len() && s1[i].0@ == k);
            assert(s0[i].0@ == k);
            assert(has_key(s0, k));
        }
    }
    assert forall|k: Seq<char>| #[trigger] has_key(s0, k) implies key_index(s1, k) == key_index(
        s0,
        k,
    ) by {
        let i = key_index(s0, k);
        assert(0 <= i < s0.len() && s0[i].0@ == k);
        assert(s1[i].0@ == k);
        lemma_entry_at(s1, i);
    }
}

/// The position of the entry named `key`, by linear search.
pub fn find_key<T>(entries: &Vec<(String, T)>, key: &String) -> (r: Option<usize>)
    ensures
        match r {
            Some(i) => i < entries@.len() && entries@[i as int].0@ == key@,
            None => !has_key(entries@, key@),
        },
{
    let n: usize = entries.len();
    let mut i: usize = 0;
    while i < n
        invariant
            n == entries@.len(),
            i <= n,
            forall|j: int| 0 <= j < i ==> entries@[j].0@ != key@,
        decreases n - i,
    {
        if entries[i].0 == *key {
            return Some(i);
        }
        i += 1;
    }
    None
}

/// Inserts `value` under `key`: overwrites the entry already named `key`, or
/// appends a new one.
pub fn put_entry<T>(entries: &mut Vec<(String, T)>, key: String, value: T)
    requires
        unique_keys(old(entries)@),
    ensures
        unique_keys(final(entries)@),
        map_of(final(entries)@) == map_of(old(entries)@).insert(key@, value),
        final(entries)@.len() <= old(entries)@.len() + 1,
{
    let ghost s0 = entries@;
    match find_key(entries, &key) {
        Some(i) => {
            let ghost k = key@;
            entries.set(i, (key, value));
            proof {
                let s1 = entries@;
                lemma_same_keys(s0, s1);
                lemma_entry_at(s0, i as int);
                lemma_entry_at(s1, i as int);
                assert forall|q: Seq<char>|
                    map_of(s1).contains_key(q) == map_of(s0).insert(k, value).contains_key(
                        q,
                    ) by {
                    assert(has_key(s1, q) == has_key(s0, q));
                    if q == k {
                        assert(has_key(s0, k));
                    }
                }
                assert forall|q: Seq<char>| #[trigger]
                    map_of(s1).contains_key(q) implies map_of(s1)[q] == map_of(s0).insert(
                    k,
                    value,
                )[q] by {
                    if q == k {
                        assert(value_of(s1, k) == value);
                    } else {
                        let p = key_index(s0, q);
                        assert(0 <= p < s0.len() && s0[p].0@ == q);
                        assert(p != i);
                        assert(s1[p] == s0[p]);
                        lemma_entry_at(s1, p);
                        assert(value_of(s1, q) == s0[p].1);
                        lemma_entry_at(s0, p);
                    }
                }
                assert(map_of(s1) =~= map_of(s0).insert(k, value));
            }
        },
        None => {
            let ghost k = key@;
            entries.push((key, value));
            proof {
                let s1 = entries@;
                let n = s0.len() as int;
                assert(s1[n].0@ == k);
                assert forall|i: int, j: int| 0 <= i < j < s1.len() implies s1[i].0@
                    != s1[j].0@ by {
                    if j < n {
                        assert(s0[i].0@ != s0[j].0@);
                    } else {
                        assert(s1[j].0@ == k);
                        if s1[i].0@ == k {
                            assert(has_key(s0, k));
                        }
                    }
                }
                lemma_entry_at(s1, n);
                assert forall|q: Seq<char>|
                    map_of(s1).contains_key(q) == map_of(s0).insert(k, value).contains_key(
                        q,
                    ) by {
                    if has_key(s1, q) {
                        let p = key_index(s1, q);
                        assert(0 <= p < s1.len() && s1[p].0@ == q);
                        if p < n {
                            assert(s0[p].0@ == q);
                            assert(has_key(s0, q));
                        } else {
                            assert(q == k);
                        }
                    }
                    if has_key(s0, q) {
                        let p = key_index(s0, q);
                        assert(0 <= p < s0.len() && s0[p].0@ == q);
                        assert(s1[p].0@ == q);
                        assert(has_key(s1, q));
                    }
                }
                assert forall|q: Seq<char>| #[trigger]
                    map_of(s1).contains_key(q) implies map_of(s1)[q] == map_of(s0).insert(
                    k,
                    value,
                )[q] by {
                    if q == k {
                        assert(value_of(s1, k) == value);
                    } else {
                        let p = key_index(s0, q);
                        assert(0 <= p < s0.len() && s0[p].0@ == q);
                        assert(s1[p] == s0[p]);
                        lemma_entry_at(s1, p);
                        lemma_entry_at(s0, p);
                    }
                }
                assert(map_of(s1) =~= map_of(s0).insert(k, value));
            }
        },
    }
}

} // verus!
