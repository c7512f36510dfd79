//! Lists of `(key, value)` pairs keyed by a string: the library's small maps.
use vstd::prelude::*;

verus! {

/// Whether some entry of `r` has key `k`.
pub open spec fn has_key<V>(r: Seq<(String, V)>, k: Seq<char>) -> bool {
    exists|i: int| 0 <= i < r.len() && r[i].0@ == k
}

/// `i` is the first position of key `k` in `r`.
pub open spec fn is_first_key<V>(r: Seq<(String, V)>, k: Seq<char>, i: int) -> bool {
    &&& 0 <= i < r.len()
    &&& r[i].0@ == k
    &&& forall|j: int| 0 <= j < i ==> r[j].0@ != k
}

/// No two entries share a key.
pub open spec fn keys_unique<V>(r: Seq<(String, V)>) -> bool {
    forall|i: int, j: int| 0 <= i < j < r.len() ==> r[i].0@ != r[j].0@
}

/// The value of the first entry of key `k`, if any.
pub open spec fn value_of<V>(r: Seq<(String, V)>, k: Seq<char>) -> Option<V> {
    if exists|i: int| is_first_key(r, k, i) {
        Some(r[choose|i: int| is_first_key(r, k, i)].1)
    } else {
        None
    }
}

/// The position of the first entry of key `k`.
pub fn find_key<V>(r: &Vec<(String, V)>, k: &String) -> (res: Option<usize>)
    ensures
        res matches Some(i) ==> is_first_key(r@, k@, i as int),
        res is None ==> !has_key(r@, k@),
{
    let mut i: usize = 0;
    while i < r.len()
        invariant
            i <= r@.len(),
            forall|j: int| 0 <= j < i ==> r@[j].0@ != k@,
        decreases r@.len() - i,
    {
        if r[i].0 == *k {
            return Some(i);
        }
        i = i + 1;
    }
    None
}

/// The value of the first entry of key `k`, if any.
pub fn lookup<V: Copy>(r: &Vec<(String, V)>, k: &String) -> (res: Option<V>)
    ensures
        res == value_of(r@, k@),
{
    match find_key(r, k) {
        Some(i) => {
            proof {
                let c = choose|c: int| is_first_key(r@, k@, c);
                if c > i {
                    assert(r@[i as int].0@ == k@);
                }
                assert(c == i);
            }
            Some(r[i].1)
        },
        None => {
            proof {
                if exists|c: int| is_first_key(r@, k@, c) {
                    let c = choose|c: int| is_first_key(r@, k@, c);
                    assert(r@[c].0@ == k@);
                }
            }
            None
        },
    }
}

/// With unique keys, the entry at `i` is the one found under its key.
pub proof fn lemma_value_of_at<V>(r: Seq<(String, V)>, i: int)
    requires
        keys_unique(r),
        0 <= i < r.len(),
    ensures
        value_of(r, r[i].0@) == Some(r[i].1),
{
    assert(is_first_key(r, r[i].0@, i));
    let c = choose|c: int| is_first_key(r, r[i].0@, c);
    if c != i {
        assert(r[c].0@ == r[i].0@);
    }
}

/// A key that no entry has is found nowhere.
pub proof fn lemma_value_of_absent<V>(r: Seq<(String, V)>, k: Seq<char>)
    requires
        !has_key(r, k),
    ensures
        value_of(r, k) is None,
{
    if exists|c: int| is_first_key(r, k, c) {
        let c = choose|c: int| is_first_key(r, k, c);
        assert(r[c].0@ == k);
    }
}

/// Replacing the value at `i`, or appending a new key, keeps keys unique and
/// changes what is found under no other key.
pub proof fn lemma_value_of_frame<V>(r: Seq<(String, V)>, s: Seq<(String, V)>, key: Seq<char>)
    requires
        keys_unique(r),
        keys_unique(s),
        forall|k: Seq<char>| k != key ==> (has_key(r, k) <==> has_key(s, k)),
        forall|i: int, j: int|
            0 <= i < r.len() && 0 <= j < s.len() && r[i].0@ == s[j].0@ && r[i].0@ != key ==> r[i].1
                == s[j].1,
    ensures
        forall|k: Seq<char>| k != key ==> value_of(s, k) == value_of(r, k),
{
    assert forall|k: Seq<char>| k != key implies value_of(s, k) == value_of(r, k) by {
        if has_key(r, k) {
            let i = choose|i: int| 0 <= i < r.len() && r[i].0@ == k;
            let j = choose|j: int| 0 <= j < s.len() && s[j].0@ == k;
            lemma_value_of_at(r, i);
            lemma_value_of_at(s, j);
        } else {
            lemma_value_of_absent(r, k);
            lemma_value_of_absent(s, k);
        }
    }
}

/// Stores `v` under `key`, replacing the entry of that key if there is one.
pub fn upsert<V>(r: &mut Vec<(String, V)>, key: String, v: V)
    requires
        keys_unique(old(r)@),
    ensures
        keys_unique(final(r)@),
        value_of(final(r)@, key@) == Some(v),
        forall|k: Seq<char>| k != key@ ==> value_of(final(r)@, k) == value_of(old(r)@, k),
        has_key(old(r)@, key@) ==> final(r)@.len() == old(r)@.len(),
        !has_key(old(r)@, key@) ==> final(r)@.len() == old(r)@.len() + 1,
{
    let ghost before = r@;
    let ghost kv = key@;
    match find_key(r, &key) {
        Some(i) => {
            r.set(i, (key, v));
            proof {
                lemma_value_of_at(r@, i as int);
                assert forall|k: Seq<char>| k != kv implies (has_key(before, k) <==> has_key(r@, k)) by {
                    if has_key(r@, k) {
                        let j = choose|j: int| 0 <= j < before.len() && r@[j].0@ == k;
                        assert(before[j] == r@[j]);
                    }
                    if has_key(before, k) {
                        let j = choose|j: int| 0 <= j < before.len() && before[j].0@ == k;
                        assert(before[j] == r@[j]);
                    }
                }
            }
        },
        None => {
            r.push((key, v));
            proof {
                let n = before.len() as int;
                assert forall|j: int| 0 <= j < n implies r@[j].0@ != kv by {
                    assert(before[j] == r@[j]);
                }
                lemma_value_of_at(r@, n);
                assert forall|k: Seq<char>| k != kv implies (has_key(before, k) <==> has_key(r@, k)) by {
                    if has_key(r@, k) {
                        let j = choose|j: int| 0 <= j < r@.len() && r@[j].0@ == k;
                        assert(j != n);
                        assert(before[j] == r@[j]);
                    }
                    if has_key(before, k) {
                        let j = choose|j: int| 0 <= j < before.len() && before[j].0@ == k;
                        assert(before[j] == r@[j]);
                    }
                }
            }
        },
    }
    proof {
        lemma_value_of_frame(before, r@, kv);
    }
}

} // verus!
