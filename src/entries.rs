//! Mappings stored as lists of key/value entries, and their model.

use vstd::prelude::*;
use crate::value::{Val, Value};

verus! {

/// A mapping from key to value written as a list of entries; where a key
/// occurs twice, its last entry counts.
pub type Entries = Seq<(Seq<char>, Val)>;

/// The model of a list of entries of the library.
pub open spec fn entries_view(v: Seq<(String, Value)>) -> Entries {
    v.map_values(|e: (String, Value)| (e.0@, e.1@))
}

/// No key occurs twice.
pub open spec fn unique_keys(s: Entries) -> bool {
    forall|i: int, j: int| 0 <= i < j < s.len() ==> s[i].0 != s[j].0
}

/// The position of the last entry with key `k`, or -1.
pub open spec fn find_key(s: Entries, k: Seq<char>) -> int
    decreases s.len(),
{
    if s.len() == 0 {
        -1
    } else if s.last().0 == k {
        s.len() - 1
    } else {
        find_key(s.drop_last(), k)
    }
}

/// The value stored under `k`.
pub open spec fn lookup(s: Entries, k: Seq<char>) -> Option<Val> {
    let j = find_key(s, k);
    if j >= 0 {
        Some(s[j].1)
    } else {
        None
    }
}

pub open spec fn has_key(s: Entries, k: Seq<char>) -> bool {
    lookup(s, k) is Some
}

/// `s` with `k` mapped to `x`: the entry of `k` is replaced, or one is added.
pub open spec fn insert_entry(s: Entries, k: Seq<char>, x: Val) -> Entries {
    let j = find_key(s, k);
    if j >= 0 {
        s.update(j, (k, x))
    } else {
        s.push((k, x))
    }
}

/// `s` with `k` mapped to `x` unless `k` already has a value.
pub open spec fn insert_absent(s: Entries, k: Seq<char>, x: Val) -> Entries {
    if has_key(s, k) {
        s
    } else {
        s.push((k, x))
    }
}

pub proof fn lemma_find_key_range(s: Entries, k: Seq<char>)
    ensures
        -1 <= find_key(s, k) < s.len(),
        find_key(s, k) >= 0 ==> s[find_key(s, k)].0 == k,
        forall|i: int| find_key(s, k) < i < s.len() ==> s[i].0 != k,
    decreases s.len(),
{
    if s.len() > 0 && s.last().0 != k {
        lemma_find_key_range(s.drop_last(), k);
        assert forall|i: int| find_key(s, k) < i < s.len() implies s[i].0 != k by {
            if i < s.len() - 1 {
                assert(s[i] == s.drop_last()[i]);
            }
        }
    }
}

pub proof fn lemma_find_key_same_keys(s1: Entries, s2: Entries, k: Seq<char>)
    requires
        s1.len() == s2.len(),
        forall|i: int| 0 <= i < s1.len() ==> s1[i].0 == s2[i].0,
    ensures
        find_key(s1, k) == find_key(s2, k),
    decreases s1.len(),
{
    if s1.len() > 0 {
        lemma_find_key_same_keys(s1.drop_last(), s2.drop_last(), k);
    }
}

pub proof fn lemma_find_key_push(s: Entries, k: Seq<char>, x: Val, k2: Seq<char>)
    ensures
        find_key(s.push((k, x)), k2) == if k2 == k {
            s.len() as int
        } else {
            find_key(s, k2)
        },
{
    assert(s.push((k, x)).drop_last() =~= s);
}

/// After an insertion, `k` has the new value and every other key keeps its own.
pub proof fn lemma_lookup_insert(s: Entries, k: Seq<char>, x: Val, k2: Seq<char>)
    ensures
        lookup(insert_entry(s, k, x), k2) == if k2 == k {
            Some(x)
        } else {
            lookup(s, k2)
        },
{
    lemma_find_key_range(s, k);
    lemma_find_key_range(s, k2);
    let j = find_key(s, k);
    if j >= 0 {
        let t = s.update(j, (k, x));
        lemma_find_key_same_keys(s, t, k2);
    } else {
        lemma_find_key_push(s, k, x, k2);
    }
}

pub proof fn lemma_lookup_insert_absent(s: Entries, k: Seq<char>, x: Val, k2: Seq<char>)
    ensures
        lookup(insert_absent(s, k, x), k2) == if k2 == k && !has_key(s, k) {
            Some(x)
        } else {
            lookup(s, k2)
        },
{
    lemma_find_key_range(s, k2);
    if !has_key(s, k) {
        lemma_find_key_push(s, k, x, k2);
    }
}

/// Insertions keep the keys distinct.
pub proof fn lemma_insert_unique(s: Entries, k: Seq<char>, x: Val)
    requires
        unique_keys(s),
    ensures
        unique_keys(insert_entry(s, k, x)),
        unique_keys(insert_absent(s, k, x)),
{
    lemma_find_key_range(s, k);
}

/// The position of the last entry with key `k`.
pub fn find_entry(v: &Vec<(String, Value)>, k: &String) -> (r: Option<usize>)
    ensures
        match r {
            Some(j) => j < v.len() && j == find_key(entries_view(v@), k@),
            None => find_key(entries_view(v@), k@) == -1,
        },
{
    let ghost s = entries_view(v@);
    let mut n: usize = v.len();
    assert(s.subrange(0, n as int) =~= s);
    proof {
        lemma_find_key_range(s, k@);
    }
    while n > 0
        invariant
            n <= v.len(),
            s == entries_view(v@),
            -1 <= find_key(s, k@) < s.len(),
            find_key(s, k@) == find_key(s.subrange(0, n as int), k@),
        decreases n,
    {
        let ghost p = s.subrange(0, n as int);
        assert(p.drop_last() =~= s.subrange(0, n - 1));
        if v[n - 1].0 == *k {
            return Some(n - 1);
        }
        n -= 1;
    }
    None
}

/// The value stored under `k`.
pub fn get_entry<'a>(v: &'a Vec<(String, Value)>, k: &String) -> (r: Option<&'a Value>)
    ensures
        match r {
            Some(x) => lookup(entries_view(v@), k@) == Some(x@),
            None => lookup(entries_view(v@), k@) is None,
        },
{
    match find_entry(v, k) {
        Some(j) => Some(&v[j].1),
        None => None,
    }
}

/// Maps `k` to `x`, replacing what `k` held.
pub fn set_entry(v: &mut Vec<(String, Value)>, k: String, x: Value)
    ensures
        entries_view(final(v)@) == insert_entry(entries_view(old(v)@), k@, x@),
        unique_keys(entries_view(old(v)@)) ==> unique_keys(entries_view(final(v)@)),
{
    proof {
        if unique_keys(entries_view(v@)) {
            lemma_insert_unique(entries_view(v@), k@, x@);
        }
    }
    match find_entry(v, &k) {
        Some(j) => {
            let ghost kv = k@;
            let ghost xv = x@;
            v.set(j, (k, x));
            assert(entries_view(v@) =~= entries_view(old(v)@).update(j as int, (kv, xv)));
        },
        None => {
            v.push((k, x));
            assert(entries_view(v@) =~= entries_view(old(v)@).push((k@, x@)));
        },
    }
}

} // verus!
