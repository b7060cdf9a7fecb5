//! Association lists keyed by byte strings, abstracted as maps.
//!
//! Both the keyspace and the waiter registry store their entries as a
//! vector of key/value pairs with pairwise-distinct keys; this module
//! holds the shared reasoning between that representation and the
//! `Map` it denotes.

use vstd::prelude::*;

verus! {

broadcast use vstd::set::group_set_axioms;

/// Abstract content of an association list, later pairs shadowing
/// earlier ones (well-formed lists have no duplicates).
pub open spec fn assoc_map<V: View>(s: Seq<(Vec<u8>, V)>) -> Map<Seq<u8>, V::V>
    decreases s.len(),
{
    if s.len() == 0 {
        Map::empty()
    } else {
        assoc_map(s.drop_last()).insert(s.last().0@, s.last().1@)
    }
}

/// Pairwise-distinct keys.
pub open spec fn unique_keys<V>(s: Seq<(Vec<u8>, V)>) -> bool {
    forall|i: int, j: int| 0 <= i < j < s.len() ==> s[i].0@ != s[j].0@
}

/// A key carried by no pair is outside the abstract map.
pub proof fn lemma_assoc_absent<V: View>(s: Seq<(Vec<u8>, V)>, k: Seq<u8>)
    requires
        forall|i: int| 0 <= i < s.len() ==> s[i].0@ != k,
    ensures
        !assoc_map(s).dom().contains(k),
    decreases s.len(),
{
    if s.len() > 0 {
        lemma_assoc_absent(s.drop_last(), k);
    }
}

/// With distinct keys, each pair is reflected exactly in the map.
pub proof fn lemma_assoc_index<V: View>(s: Seq<(Vec<u8>, V)>, i: int)
    requires
        unique_keys(s),
        0 <= i < s.len(),
    ensures
        assoc_map(s).dom().contains(s[i].0@),
        assoc_map(s)[s[i].0@] == s[i].1@,
    decreases s.len(),
{
    if i < s.len() - 1 {
        lemma_assoc_index(s.drop_last(), i);
    }
}

/// Appending a pair inserts its binding.
pub proof fn lemma_assoc_push<V: View>(s: Seq<(Vec<u8>, V)>, p: (Vec<u8>, V))
    ensures
        assoc_map(s.push(p)) == assoc_map(s).insert(p.0@, p.1@),
{
    assert(s.push(p).drop_last() =~= s);
    assert(s.push(p).last() == p);
}

/// Removing a pair removes its binding.
pub proof fn lemma_assoc_remove<V: View>(s: Seq<(Vec<u8>, V)>, i: int)
    requires
        unique_keys(s),
        0 <= i < s.len(),
    ensures
        assoc_map(s.remove(i)) == assoc_map(s).remove(s[i].0@),
    decreases s.len(),
{
    let k = s[i].0@;
    if i == s.len() - 1 {
        assert(s.remove(i) =~= s.drop_last());
        lemma_assoc_absent(s.drop_last(), k);
        assert(assoc_map(s.drop_last()) =~= assoc_map(s.drop_last()).insert(k, s[i].1@).remove(k));
    } else {
        lemma_assoc_remove(s.drop_last(), i);
        assert(s.remove(i).drop_last() =~= s.drop_last().remove(i));
        assert(s.remove(i).last() == s.last());
        assert(assoc_map(s.drop_last()).remove(k).insert(s.last().0@, s.last().1@) =~= assoc_map(
            s.drop_last(),
        ).insert(s.last().0@, s.last().1@).remove(k));
    }
}

/// With distinct keys, the map's domain is as large as the list.
pub proof fn lemma_assoc_dom_len<V: View>(s: Seq<(Vec<u8>, V)>)
    requires
        unique_keys(s),
    ensures
        assoc_map(s).dom().finite(),
        assoc_map(s).dom().len() == s.len(),
    decreases s.len(),
{
    if s.len() > 0 {
        lemma_assoc_dom_len(s.drop_last());
        lemma_assoc_absent(s.drop_last(), s.last().0@);
    }
}

/// Removal keeps keys distinct, and none of the survivors carries the
/// removed key.
pub proof fn lemma_remove_unique<V>(s: Seq<(Vec<u8>, V)>, i: int)
    requires
        unique_keys(s),
        0 <= i < s.len(),
    ensures
        unique_keys(s.remove(i)),
        forall|j: int| 0 <= j < s.remove(i).len() ==> (#[trigger] s.remove(i)[j]).0@ != s[i].0@,
{
    assert forall|a: int, b: int|
        0 <= a < b < s.remove(i).len() implies s.remove(i)[a].0@ != s.remove(i)[b].0@ by {
        assert(s.remove(i)[a] == if a < i {
            s[a]
        } else {
            s[a + 1]
        });
        assert(s.remove(i)[b] == if b < i {
            s[b]
        } else {
            s[b + 1]
        });
    }
    assert forall|j: int|
        0 <= j < s.remove(i).len() implies (#[trigger] s.remove(i)[j]).0@ != s[i].0@ by {
        assert(s.remove(i)[j] == if j < i {
            s[j]
        } else {
            s[j + 1]
        });
    }
}

/// Appending a pair under a fresh key keeps keys distinct.
pub proof fn lemma_push_unique<V>(s: Seq<(Vec<u8>, V)>, p: (Vec<u8>, V))
    requires
        unique_keys(s),
        forall|j: int| 0 <= j < s.len() ==> (#[trigger] s[j]).0@ != p.0@,
    ensures
        unique_keys(s.push(p)),
{
    assert forall|a: int, b: int|
        0 <= a < b < s.push(p).len() implies s.push(p)[a].0@ != s.push(p)[b].0@ by {
        assert(s.push(p)[a] == s[a]);
        if b < s.len() {
            assert(s.push(p)[b] == s[b]);
        } else {
            assert(s.push(p)[b] == p);
        }
    }
}

} // verus!
