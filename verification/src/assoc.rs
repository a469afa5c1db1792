//! Association lists: vectors of key/value pairs with distinct keys, read as
//! finite maps (the index keeps its posting lists and token counts so), and
//! the sum of a map of lengths.

use vstd::prelude::*;

verus! {

/// No key occurs twice.
pub open spec fn keys_distinct<K, V>(s: Seq<(K, V)>) -> bool {
    forall|i: int, j: int| 0 <= i < s.len() && 0 <= j < s.len() && i != j ==> s[i].0 != s[j].0
}

/// Some pair has key `k`.
pub open spec fn has_key<K, V>(s: Seq<(K, V)>, k: K) -> bool {
    exists|i: int| 0 <= i < s.len() && s[i].0 == k
}

/// The map that an association list stands for (a later pair wins).
pub open spec fn assoc_map<K, V>(s: Seq<(K, V)>) -> Map<K, V>
    decreases s.len(),
{
    if s.len() == 0 {
        Map::empty()
    } else {
        assoc_map(s.drop_last()).insert(s.last().0, s.last().1)
    }
}

/// What an association list with distinct keys says as a map.
pub proof fn lemma_assoc_map<K, V>(s: Seq<(K, V)>)
    requires
        keys_distinct(s),
    ensures
        assoc_map(s).dom().finite(),
        assoc_map(s).dom().len() == s.len(),
        forall|k: K| #[trigger] assoc_map(s).contains_key(k) <==> has_key(s, k),
        forall|i: int| 0 <= i < s.len() ==> #[trigger] assoc_map(s)[s[i].0] == s[i].1,
    decreases s.len(),
{
    if s.len() > 0 {
        let t = s.drop_last();
        assert(keys_distinct(t));
        lemma_assoc_map(t);
        let last = s.last();
        assert(!has_key(t, last.0)) by {
            if has_key(t, last.0) {
                let j = choose|j: int| 0 <= j < t.len() && t[j].0 == last.0;
                assert(s[j].0 == s[s.len() - 1].0);
            }
        }
        assert forall|k: K| #[trigger] assoc_map(s).contains_key(k) <==> has_key(s, k) by {
            if has_key(s, k) {
                let j = choose|j: int| 0 <= j < s.len() && s[j].0 == k;
                if j < s.len() - 1 {
                    assert(t[j].0 == k);
                }
            }
            if assoc_map(t).contains_key(k) {
                let j = choose|j: int| 0 <= j < t.len() && t[j].0 == k;
                assert(s[j].0 == k);
            }
        }
        assert forall|i: int| 0 <= i < s.len() implies #[trigger] assoc_map(s)[s[i].0] == s[i].1 by {
            if i < s.len() - 1 {
                assert(t[i] == s[i]);
                assert(s[i].0 != last.0);
            }
        }
    }
}

/// Appending a pair with a new key inserts it.
pub proof fn lemma_assoc_push<K, V>(s: Seq<(K, V)>, p: (K, V))
    requires
        keys_distinct(s),
        !has_key(s, p.0),
    ensures
        keys_distinct(s.push(p)),
        assoc_map(s.push(p)) == assoc_map(s).insert(p.0, p.1),
{
    assert(s.push(p).drop_last() =~= s);
    assert forall|i: int, j: int|
        0 <= i < s.push(p).len() && 0 <= j < s.push(p).len() && i != j implies s.push(p)[i].0
        != s.push(p)[j].0 by {
        if i == s.len() {
            assert(s[j].0 == s.push(p)[j].0);
        } else if j == s.len() {
            assert(s[i].0 == s.push(p)[i].0);
        }
    }
}

/// Replacing the value of one pair updates the map there.
pub proof fn lemma_assoc_update<K, V>(s: Seq<(K, V)>, i: int, v: V)
    requires
        keys_distinct(s),
        0 <= i < s.len(),
    ensures
        keys_distinct(s.update(i, (s[i].0, v))),
        assoc_map(s.update(i, (s[i].0, v))) == assoc_map(s).insert(s[i].0, v),
{
    let u = s.update(i, (s[i].0, v));
    assert(keys_distinct(u));
    lemma_assoc_map(s);
    lemma_assoc_map(u);
    assert forall|k: K| #[trigger] assoc_map(u).contains_key(k) <==> assoc_map(s).insert(
        s[i].0,
        v,
    ).contains_key(k) by {
        if has_key(s, k) {
            let j = choose|j: int| 0 <= j < s.len() && s[j].0 == k;
            assert(u[j].0 == k);
        }
        if has_key(u, k) {
            let j = choose|j: int| 0 <= j < u.len() && u[j].0 == k;
            assert(s[j].0 == k);
        }
    }
    assert forall|k: K| #[trigger] assoc_map(u).contains_key(k) implies assoc_map(u)[k]
        == assoc_map(s).insert(s[i].0, v)[k] by {
        let j = choose|j: int| 0 <= j < u.len() && u[j].0 == k;
        assert(assoc_map(u)[u[j].0] == u[j].1);
        if j != i {
            assert(assoc_map(s)[s[j].0] == s[j].1);
        }
    }
    assert(assoc_map(u) =~= assoc_map(s).insert(s[i].0, v));
}

/// The sum of the lengths in a length map.
pub open spec fn length_sum(m: Map<u64, u32>) -> nat
    decreases m.dom().len(),
    when m.dom().finite()
{
    if m.dom().len() == 0 {
        0
    } else {
        let k = m.dom().choose();
        proof {
            if !m.dom().contains(k) {
                assert(m.dom() =~= Set::<u64>::empty());
            }
        }
        m[k] as nat + length_sum(m.remove(k))
    }
}

/// The sum splits at any key.
pub proof fn lemma_length_sum_remove(m: Map<u64, u32>, k: u64)
    requires
        m.dom().finite(),
        m.contains_key(k),
    ensures
        length_sum(m) == m[k] + length_sum(m.remove(k)),
    decreases m.dom().len(),
{
    let c = m.dom().choose();
    assert(m.dom().contains(c));
    if c != k {
        lemma_length_sum_remove(m.remove(c), k);
        lemma_length_sum_remove(m.remove(k), c);
        assert(m.remove(c).remove(k) =~= m.remove(k).remove(c));
    }
}

/// The sum after setting one length.
pub proof fn lemma_length_sum_insert(m: Map<u64, u32>, k: u64, v: u32)
    requires
        m.dom().finite(),
    ensures
        length_sum(m.insert(k, v)) + (if m.contains_key(k) {
            m[k] as int
        } else {
            0
        }) == length_sum(m) + v,
{
    lemma_length_sum_remove(m.insert(k, v), k);
    if m.contains_key(k) {
        lemma_length_sum_remove(m, k);
        assert(m.insert(k, v).remove(k) =~= m.remove(k));
    } else {
        assert(m.insert(k, v).remove(k) =~= m);
    }
}

} // verus!
