//! Association lists keyed by strings: the library's stand-in for a
//! `HashMap<String, V>`, with the same insert, lookup and remove behaviour and
//! a fixed order (first insertion first).
use vstd::prelude::*;
use crate::text::str_equal;

verus! {

/// The index of the entry with key `k`, looking from the front.
pub open spec fn key_index<V>(m: Seq<(Seq<char>, V)>, k: Seq<char>) -> Option<int>
    decreases m.len(),
{
    if m.len() == 0 {
        None
    } else if m[0].0 == k {
        Some(0)
    } else {
        match key_index(m.drop_first(), k) {
            Some(i) => Some(i + 1),
            None => None,
        }
    }
}

/// The keys of an association list are pairwise distinct.
pub open spec fn distinct_keys<V>(m: Seq<(Seq<char>, V)>) -> bool {
    forall|i: int, j: int| 0 <= i < j < m.len() ==> m[i].0 != m[j].0
}

/// `HashMap::insert`: an existing entry of the key takes the new value in its
/// place; otherwise the entry is added at the end.
pub open spec fn insert_entry<V>(m: Seq<(Seq<char>, V)>, k: Seq<char>, v: V) -> Seq<(Seq<char>, V)> {
    match key_index(m, k) {
        Some(i) => m.update(i, (k, v)),
        None => m.push((k, v)),
    }
}

/// `HashMap::remove`: the entry of the key, if any, leaves.
pub open spec fn remove_entry<V>(m: Seq<(Seq<char>, V)>, k: Seq<char>) -> Seq<(Seq<char>, V)> {
    match key_index(m, k) {
        Some(i) => m.remove(i),
        None => m,
    }
}

/// The association list that inserting the entries in order builds.
pub open spec fn fold_insert<V>(es: Seq<(Seq<char>, V)>) -> Seq<(Seq<char>, V)>
    decreases es.len(),
{
    if es.len() == 0 {
        Seq::empty()
    } else {
        insert_entry(fold_insert(es.drop_last()), es.last().0, es.last().1)
    }
}

/// The view of an association list held in a vector.
pub open spec fn assoc_view<V: View>(m: Seq<(String, V)>) -> Seq<(Seq<char>, V::V)> {
    m.map_values(|e: (String, V)| (e.0@, e.1@))
}

pub proof fn lemma_key_index<V>(m: Seq<(Seq<char>, V)>, k: Seq<char>)
    ensures
        match key_index(m, k) {
            Some(i) => 0 <= i < m.len() && m[i].0 == k && forall|j: int| 0 <= j < i ==> m[j].0 != k,
            None => forall|j: int| 0 <= j < m.len() ==> m[j].0 != k,
        },
    decreases m.len(),
{
    if m.len() > 0 {
        lemma_key_index(m.drop_first(), k);
        if m[0].0 != k {
            assert forall|j: int| 1 <= j < m.len() implies m[j] == m.drop_first()[j - 1] by {}
        }
    }
}

pub proof fn lemma_insert_entry<V>(m: Seq<(Seq<char>, V)>, k: Seq<char>, v: V)
    requires
        distinct_keys(m),
    ensures
        distinct_keys(insert_entry(m, k, v)),
        key_index(insert_entry(m, k, v), k) matches Some(i) && insert_entry(m, k, v)[i] == (k, v),
        forall|x: Seq<char>|
            x != k ==> key_index(insert_entry(m, k, v), x) == key_index(m, x),
{
    lemma_key_index(m, k);
    let r = insert_entry(m, k, v);
    lemma_key_index(r, k);
    match key_index(m, k) {
        Some(i) => {
            assert(r[i].0 == k);
            match key_index(r, k) {
                Some(i2) => {
                    if i2 < i {
                        assert(m[i2] == r[i2]);
                    }
                    assert(i2 == i);
                },
                None => {},
            }
        },
        None => {
            assert(r[m.len() as int].0 == k);
            match key_index(r, k) {
                Some(i2) => {
                    if i2 < m.len() {
                        assert(m[i2] == r[i2]);
                    }
                    assert(i2 == m.len());
                },
                None => {},
            }
        },
    }
    assert forall|x: Seq<char>| x != k implies key_index(r, x) == key_index(m, x) by {
        lemma_key_index(m, x);
        lemma_key_index(r, x);
        match key_index(m, x) {
            Some(i) => {
                assert(r[i].0 == x);
            },
            None => {},
        }
        match key_index(r, x) {
            Some(i) => {
                assert(m[i].0 == x);
            },
            None => {},
        }
    }
}

/// The entries built by inserting in order have distinct keys.
pub proof fn lemma_fold_insert<V>(es: Seq<(Seq<char>, V)>)
    ensures
        distinct_keys(fold_insert(es)),
    decreases es.len(),
{
    if es.len() > 0 {
        lemma_fold_insert(es.drop_last());
        lemma_insert_entry(fold_insert(es.drop_last()), es.last().0, es.last().1);
    }
}

/// Removing a key keeps the keys distinct.
pub proof fn lemma_remove_entry_distinct<V>(m: Seq<(Seq<char>, V)>, k: Seq<char>)
    requires
        distinct_keys(m),
    ensures
        distinct_keys(remove_entry(m, k)),
{
    match key_index(m, k) {
        Some(i) => {
            lemma_key_index(m, k);
            let r = m.remove(i);
            assert forall|a: int, b: int| 0 <= a < b < r.len() implies r[a].0 != r[b].0 by {
                let a2 = if a < i { a } else { a + 1 };
                let b2 = if b < i { b } else { b + 1 };
                assert(r[a] == m[a2]);
                assert(r[b] == m[b2]);
            }
        },
        None => {},
    }
}

/// Sequences with the same elements, each mapped by `f`, have the same
/// mapped elements.
pub proof fn lemma_map_multiset<A, B>(a: Seq<A>, b: Seq<A>, f: spec_fn(A) -> B)
    requires
        a.to_multiset() == b.to_multiset(),
    ensures
        a.map_values(f).to_multiset() == b.map_values(f).to_multiset(),
    decreases a.len(),
{
    broadcast use vstd::seq_lib::group_to_multiset_ensures;
    if a.len() == 0 {
        assert(b.len() == 0) by {
            assert(a.to_multiset().len() == 0);
        }
        assert(a.map_values(f) =~= b.map_values(f));
    } else {
        let x = a[0];
        assert(a.contains(x));
        assert(b.to_multiset().count(x) > 0);
        let j = choose|j: int| 0 <= j < b.len() && b[j] == x;
        let a1 = a.drop_first();
        let b1 = b.remove(j);
        assert(a =~= a1.insert(0, x));
        assert(a1.to_multiset() =~= b1.to_multiset()) by {
            assert(a.to_multiset() == a1.to_multiset().insert(x));
            assert(b1.to_multiset() == b.to_multiset().remove(x));
        }
        lemma_map_multiset(a1, b1, f);
        assert(a.map_values(f) =~= a1.map_values(f).insert(0, f(x)));
        assert(b1.map_values(f) =~= b.map_values(f).remove(j));
        assert(b.map_values(f)[j] == f(x));
        assert(b.map_values(f).to_multiset() == b1.map_values(f).to_multiset().insert(f(x))) by {
            assert(b1.map_values(f).to_multiset() == b.map_values(f).to_multiset().remove(f(x)));
            assert(b.map_values(f).to_multiset().count(f(x)) > 0) by {
                assert(b.map_values(f).contains(f(x)));
            }
        }
    }
}

/// The keys of the entries.
pub open spec fn keys_of<V>(m: Seq<(Seq<char>, V)>) -> Seq<Seq<char>> {
    m.map_values(|e: (Seq<char>, V)| e.0)
}

/// Reordering an association list keeps its keys distinct.
pub proof fn lemma_distinct_keys_perm<V>(a: Seq<(Seq<char>, V)>, b: Seq<(Seq<char>, V)>)
    requires
        a.to_multiset() == b.to_multiset(),
        distinct_keys(a),
    ensures
        distinct_keys(b),
{
    let f = |e: (Seq<char>, V)| e.0;
    lemma_map_multiset(a, b, f);
    assert(keys_of(a) =~= a.map_values(f));
    assert(keys_of(b) =~= b.map_values(f));
    assert(keys_of(a).no_duplicates()) by {
        assert forall|i: int, j: int| 0 <= i < keys_of(a).len() && 0 <= j < keys_of(a).len() && i != j implies keys_of(a)[i] != keys_of(a)[j] by {
            if i < j {
                assert(a[i].0 != a[j].0);
            } else {
                assert(a[j].0 != a[i].0);
            }
        }
    }
    keys_of(a).lemma_multiset_has_no_duplicates();
    keys_of(b).lemma_multiset_has_no_duplicates_conv();
    assert forall|i: int, j: int| 0 <= i < j < b.len() implies b[i].0 != b[j].0 by {
        assert(keys_of(b)[i] == b[i].0);
        assert(keys_of(b)[j] == b[j].0);
    }
}

/// The index of the entry whose key is `k`.
pub fn find_key<V: View>(m: &Vec<(String, V)>, k: &str) -> (r: Option<usize>)
    ensures
        match key_index(assoc_view(m@), k@) {
            Some(i) => r matches Some(k) && k as int == i,
            None => r is None,
        },
{
    proof {
        lemma_key_index(assoc_view(m@), k@);
    }
    let mut i: usize = 0;
    while i < m.len()
        invariant
            i <= m.len(),
            forall|j: int| 0 <= j < i ==> assoc_view(m@)[j].0 != k@,
            match key_index(assoc_view(m@), k@) {
                Some(x) => 0 <= x < m.len() && assoc_view(m@)[x].0 == k@ && forall|j: int|
                    0 <= j < x ==> assoc_view(m@)[j].0 != k@,
                None => forall|j: int| 0 <= j < m.len() ==> assoc_view(m@)[j].0 != k@,
            },
        decreases m.len() - i,
    {
        if str_equal(m[i].0.as_str(), k) {
            assert(assoc_view(m@)[i as int].0 == k@);
            return Some(i);
        }
        i = i + 1;
    }
    None
}

/// `HashMap::insert` on an association list.
pub fn insert_assoc<V: View>(m: &mut Vec<(String, V)>, k: String, v: V)
    ensures
        assoc_view(final(m)@) == insert_entry(assoc_view(old(m)@), k@, v@),
{
    let ghost kv = k@;
    let ghost vv = v@;
    proof {
        lemma_key_index(assoc_view(m@), k@);
    }
    match find_key(m, k.as_str()) {
        Some(i) => {
            m.set(i, (k, v));
            assert(assoc_view(m@) =~= assoc_view(old(m)@).update(i as int, (kv, vv)));
        },
        None => {
            m.push((k, v));
            assert(assoc_view(m@) =~= assoc_view(old(m)@).push((kv, vv)));
        },
    }
}

/// `HashMap::remove` on an association list.
pub fn remove_assoc<V: View>(m: &mut Vec<(String, V)>, k: &str)
    ensures
        assoc_view(final(m)@) == remove_entry(assoc_view(old(m)@), k@),
{
    proof {
        lemma_key_index(assoc_view(m@), k@);
    }
    match find_key(m, k) {
        Some(i) => {
            m.remove(i);
            assert(assoc_view(m@) =~= assoc_view(old(m)@).remove(i as int));
        },
        None => {},
    }
}

} // verus!
