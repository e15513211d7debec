//! Small maps with numbers as keys, as lists of pairs in which no key occurs twice.
use vstd::prelude::*;

verus! {

/// A list of pairs.
pub type Pairs<V> = Seq<(u64, V)>;

/// Index of the pair with a key, at or after `from`.
pub open spec fn key_index<V>(s: Pairs<V>, k: u64, from: int) -> Option<int>
    decreases s.len() - from,
{
    if from < 0 || from >= s.len() {
        None
    } else if s[from].0 == k {
        Some(from)
    } else {
        key_index(s, k, from + 1)
    }
}

/// The value of a key.
pub open spec fn lookup<V>(s: Pairs<V>, k: u64) -> Option<V> {
    match key_index(s, k, 0) {
        Some(i) => Some(s[i].1),
        None => None,
    }
}

/// The pairs with a key set to a value.
pub open spec fn put<V>(s: Pairs<V>, k: u64, v: V) -> Pairs<V> {
    match key_index(s, k, 0) {
        Some(i) => s.update(i, (k, v)),
        None => s.push((k, v)),
    }
}

/// The pairs without a key.
pub open spec fn without_key<V>(s: Pairs<V>, k: u64) -> Pairs<V> {
    match key_index(s, k, 0) {
        Some(i) => s.remove(i),
        None => s,
    }
}

/// The key of the first pair with a value, at or after `from`.
pub open spec fn key_of(s: Pairs<u64>, v: u64, from: int) -> Option<u64>
    decreases s.len() - from,
{
    if from < 0 || from >= s.len() {
        None
    } else if s[from].1 == v {
        Some(s[from].0)
    } else {
        key_of(s, v, from + 1)
    }
}

/// Whether no key occurs twice.
pub open spec fn unique_keys<V>(s: Pairs<V>) -> bool {
    forall|i: int, j: int| 0 <= i < j < s.len() ==> (#[trigger] s[i]).0 != (#[trigger] s[j]).0
}

/// What `key_index` means.
pub proof fn lemma_key_index<V>(s: Pairs<V>, k: u64, from: int)
    requires
        0 <= from <= s.len(),
    ensures
        match key_index(s, k, from) {
            Some(i) => from <= i < s.len() && s[i].0 == k && forall|j: int|
                from <= j < i ==> (#[trigger] s[j]).0 != k,
            None => forall|j: int| from <= j < s.len() ==> (#[trigger] s[j]).0 != k,
        },
    decreases s.len() - from,
{
    if from < s.len() && s[from].0 != k {
        lemma_key_index(s, k, from + 1);
    }
}

/// Index of a key.
fn position<V>(s: &Vec<(u64, V)>, k: u64) -> (r: Option<usize>)
    ensures
        match r {
            Some(i) => key_index(s@, k, 0) == Some(i as int) && i < s@.len(),
            None => key_index(s@, k, 0) is None,
        },
{
    let mut i: usize = 0;
    while i < s.len()
        invariant
            i <= s@.len(),
            key_index(s@, k, 0) == key_index(s@, k, i as int),
        decreases s@.len() - i,
    {
        if s[i].0 == k {
            return Some(i);
        }
        i = i + 1;
    }
    None
}

/// The value of a key.
pub fn get<V: Copy>(s: &Vec<(u64, V)>, k: u64) -> (r: Option<V>)
    ensures
        r == lookup(s@, k),
{
    match position(s, k) {
        Some(i) => Some(s[i].1),
        None => None,
    }
}

/// Sets a key to a value.
pub fn insert<V>(s: &mut Vec<(u64, V)>, k: u64, v: V)
    ensures
        final(s)@ == put(old(s)@, k, v),
{
    match position(s, k) {
        Some(i) => {
            s.set(i, (k, v));
        },
        None => {
            s.push((k, v));
        },
    }
}

/// Takes a key out and returns its value.
pub fn remove<V>(s: &mut Vec<(u64, V)>, k: u64) -> (r: Option<V>)
    ensures
        r == lookup(old(s)@, k),
        final(s)@ == without_key(old(s)@, k),
{
    match position(s, k) {
        Some(i) => Some(s.remove(i).1),
        None => None,
    }
}

/// The first key that has a value.
pub fn find_key(s: &Vec<(u64, u64)>, v: u64) -> (r: Option<u64>)
    ensures
        r == key_of(s@, v, 0),
{
    let mut i: usize = 0;
    while i < s.len()
        invariant
            i <= s@.len(),
            key_of(s@, v, 0) == key_of(s@, v, i as int),
        decreases s@.len() - i,
    {
        if s[i].1 == v {
            return Some(s[i].0);
        }
        i = i + 1;
    }
    None
}

/// Pairs behave as a map: setting a key and taking one out keep keys unique, and change the value
/// of that key only.
pub proof fn pairs_are_a_map<V>(s: Pairs<V>, k: u64, v: V, other: u64)
    requires
        unique_keys(s),
    ensures
        unique_keys(put(s, k, v)),
        unique_keys(without_key(s, k)),
        lookup(put(s, k, v), other) == (if other == k {
            Some(v)
        } else {
            lookup(s, other)
        }),
        lookup(without_key(s, k), other) == (if other == k {
            None
        } else {
            lookup(s, other)
        }),
{
    lemma_key_index(s, k, 0);
    lemma_key_index(s, other, 0);
    let (p, w) = (put(s, k, v), without_key(s, k));
    lemma_key_index(p, other, 0);
    lemma_key_index(w, other, 0);
    match key_index(s, k, 0) {
        Some(i) => {
            assert(p[i].0 == k);
            if let Some(j) = key_index(s, other, 0) {
                assert(p[j].0 == other);
                if j < i {
                    assert(w[j] == s[j]);
                } else if j > i {
                    assert(w[j - 1] == s[j]);
                }
            }
            if let Some(j) = key_index(w, other, 0) {
                if j < i {
                    assert(s[j].0 == other);
                } else {
                    assert(s[j + 1].0 == other);
                }
            }
            if let Some(j) = key_index(p, other, 0) {
                assert(s[j].0 == other);
            }
        },
        None => {
            assert(p[s.len() as int].0 == k);
            if let Some(j) = key_index(s, other, 0) {
                assert(p[j] == s[j]);
            }
            if let Some(j) = key_index(p, other, 0) {
                if j < s.len() {
                    assert(s[j].0 == other);
                }
            }
        },
    }
}

/// Looking for the key of a value finds one that has it, the first, where there is one.
pub proof fn keys_are_found_by_their_value(s: Pairs<u64>, v: u64)
    ensures
        match key_of(s, v, 0) {
            Some(k) => exists|i: int|
                0 <= i < s.len() && #[trigger] s[i] == (k, v) && forall|j: int|
                    0 <= j < i ==> (#[trigger] s[j]).1 != v,
            None => forall|j: int| 0 <= j < s.len() ==> (#[trigger] s[j]).1 != v,
        },
{
    lemma_key_of(s, v, 0);
}

proof fn lemma_key_of(s: Pairs<u64>, v: u64, from: int)
    requires
        0 <= from <= s.len(),
        forall|j: int| 0 <= j < from ==> (#[trigger] s[j]).1 != v,
    ensures
        match key_of(s, v, from) {
            Some(k) => exists|i: int|
                0 <= i < s.len() && #[trigger] s[i] == (k, v) && forall|j: int|
                    0 <= j < i ==> (#[trigger] s[j]).1 != v,
            None => forall|j: int| 0 <= j < s.len() ==> (#[trigger] s[j]).1 != v,
        },
    decreases s.len() - from,
{
    if from < s.len() {
        if s[from].1 == v {
            assert(s[from] == (s[from].0, v));
        } else {
            lemma_key_of(s, v, from + 1);
        }
    }
}

} // verus!
