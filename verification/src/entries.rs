//! Lists of keyed entries, as TOML tables and JSON objects hold them: lookup of the first
//! entry with a key, and the keys in order.

use vstd::prelude::*;

verus! {

/// The position of the first entry whose key is `key`.
#[verifier::opaque]
pub open spec fn key_position<V>(entries: Seq<(String, V)>, key: Seq<char>) -> Option<int> {
    if exists|i: int| 0 <= i < entries.len() && entries[i].0@ == key {
        Some(
            choose|i: int|
                0 <= i < entries.len() && entries[i].0@ == key && forall|j: int|
                    0 <= j < i ==> entries[j].0@ != key,
        )
    } else {
        None
    }
}

/// The value of the first entry whose key is `key`.
pub open spec fn lookup<V>(entries: Seq<(String, V)>, key: Seq<char>) -> Option<V> {
    match key_position(entries, key) {
        Some(i) => Some(entries[i].1),
        None => None,
    }
}

/// The keys of `entries`, in order.
pub open spec fn keys_of<V>(entries: Seq<(String, V)>) -> Seq<Seq<char>> {
    entries.map_values(|e: (String, V)| e.0@)
}

pub proof fn lemma_key_position_is<V>(entries: Seq<(String, V)>, key: Seq<char>, i: int)
    requires
        0 <= i < entries.len(),
        entries[i].0@ == key,
        forall|j: int| 0 <= j < i ==> entries[j].0@ != key,
    ensures
        key_position(entries, key) == Some(i),
{
    reveal(key_position);
    let k = choose|k: int|
        0 <= k < entries.len() && entries[k].0@ == key && forall|j: int|
            0 <= j < k ==> entries[j].0@ != key;
    assert(0 <= k < entries.len() && entries[k].0@ == key);
    if k < i {
        assert(entries[k].0@ != key);
    }
    if i < k {
        assert(entries[i].0@ != key);
    }
}

/// A found position is in range and holds the key.
pub proof fn lemma_key_position_bounds<V>(entries: Seq<(String, V)>, key: Seq<char>)
    ensures
        key_position(entries, key) matches Some(i) ==> 0 <= i < entries.len() && entries[i].0@
            == key,
{
    reveal(key_position);
    if exists|i: int| 0 <= i < entries.len() && entries[i].0@ == key {
        let i = choose|i: int| 0 <= i < entries.len() && entries[i].0@ == key;
        lemma_first_match_exists(entries, key, i);
    }
}

/// Where two lists have the same keys, a key sits at the same position in both.
pub proof fn lemma_same_keys_position<V, W>(
    a: Seq<(String, V)>,
    b: Seq<(String, W)>,
    key: Seq<char>,
)
    requires
        a.len() == b.len(),
        forall|i: int| 0 <= i < a.len() ==> #[trigger] a[i].0@ == b[i].0@,
    ensures
        key_position(a, key) == key_position(b, key),
{
    reveal(key_position);
    if exists|i: int| 0 <= i < a.len() && a[i].0@ == key {
        let i = choose|i: int| 0 <= i < a.len() && a[i].0@ == key;
        assert(b[i].0@ == key);
        let k = choose|k: int|
            0 <= k < a.len() && a[k].0@ == key && forall|j: int| 0 <= j < k ==> a[j].0@ != key;
        assert(exists|k: int|
            0 <= k < a.len() && a[k].0@ == key && forall|j: int| 0 <= j < k ==> a[j].0@ != key)
            by {
            lemma_first_match_exists(a, key, i);
        }
        assert(forall|j: int| 0 <= j < k ==> b[j].0@ != key) by {
            assert forall|j: int| 0 <= j < k implies b[j].0@ != key by {
                assert(a[j].0@ == b[j].0@);
            }
        }
        lemma_key_position_is(a, key, k);
        lemma_key_position_is(b, key, k);
    } else {
        assert forall|i: int| 0 <= i < b.len() implies b[i].0@ != key by {
            assert(a[i].0@ == b[i].0@);
        }
    }
}

/// Where some entry has the key, a first one has it.
proof fn lemma_first_match_exists<V>(a: Seq<(String, V)>, key: Seq<char>, i: int)
    requires
        0 <= i < a.len(),
        a[i].0@ == key,
    ensures
        exists|k: int|
            0 <= k < a.len() && a[k].0@ == key && forall|j: int| 0 <= j < k ==> a[j].0@ != key,
    decreases i,
{
    if exists|j: int| 0 <= j < i && a[j].0@ == key {
        let j = choose|j: int| 0 <= j < i && a[j].0@ == key;
        lemma_first_match_exists(a, key, j);
    } else {
        assert(0 <= i < a.len() && a[i].0@ == key && forall|j: int| 0 <= j < i ==> a[j].0@ != key);
    }
}

/// The position of the first entry of `entries` whose key is `key`.
pub fn find_key<V>(entries: &Vec<(String, V)>, key: &String) -> (r: Option<usize>)
    ensures
        r matches Some(i) ==> key_position(entries@, key@) == Some(i as int) && i < entries.len()
            && entries@[i as int].0@ == key@,
        r is None ==> key_position(entries@, key@) is None,
{
    let mut i: usize = 0;
    while i < entries.len()
        invariant
            i <= entries.len(),
            forall|j: int| 0 <= j < i ==> entries@[j].0@ != key@,
        decreases entries.len() - i,
    {
        if entries[i].0 == *key {
            proof {
                lemma_key_position_is(entries@, key@, i as int);
            }
            return Some(i);
        }
        i = i + 1;
    }
    proof {
        reveal(key_position);
    }
    None
}

/// The keys of `entries`, in order.
pub fn entry_keys<V>(entries: &Vec<(String, V)>) -> (r: Vec<String>)
    ensures
        r.deep_view() == keys_of(entries@),
{
    let mut r: Vec<String> = Vec::new();
    let mut i: usize = 0;
    while i < entries.len()
        invariant
            i <= entries.len(),
            r.deep_view() == keys_of(entries@.take(i as int)),
        decreases entries.len() - i,
    {
        let ghost before = r.deep_view();
        r.push(entries[i].0.clone());
        assert(r.deep_view() =~= before.push(entries@[i as int].0@));
        assert(entries@.take(i + 1) =~= entries@.take(i as int).push(entries@[i as int]));
        assert(r.deep_view() =~= keys_of(entries@.take(i + 1)));
        i = i + 1;
    }
    assert(entries@.take(entries.len() as int) =~= entries@);
    r
}

} // verus!
