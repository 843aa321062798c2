//! A small association-list model: vectors of hash-keyed pairs viewed as a
//! `Map` from digest bytes to values, with the lemmas the store needs.

use vstd::prelude::*;
use crate::crypto::SequencedMessageHash;
use crate::wire::bytes_eq;

verus! {

/// The map denoted by a sequence of key-value pairs; later pairs win.
pub open spec fn pairs_map<V>(s: Seq<(SequencedMessageHash, V)>) -> Map<Seq<u8>, V>
    decreases s.len(),
{
    if s.len() == 0 {
        Map::empty()
    } else {
        pairs_map(s.drop_last()).insert(s.last().0.spec_bytes(), s.last().1)
    }
}

/// No two pairs carry the same key.
pub open spec fn distinct_keys<V>(s: Seq<(SequencedMessageHash, V)>) -> bool {
    forall|i: int, j: int|
        0 <= i < j < s.len() ==> s[i].0.spec_bytes() != s[j].0.spec_bytes()
}

/// Some pair carries key `k`.
pub open spec fn has_key<V>(s: Seq<(SequencedMessageHash, V)>, k: Seq<u8>) -> bool {
    exists|i: int| 0 <= i < s.len() && s[i].0.spec_bytes() == k
}

pub proof fn lemma_pairs_map_domain<V>(s: Seq<(SequencedMessageHash, V)>)
    ensures
        forall|k: Seq<u8>| #[trigger] pairs_map(s).contains_key(k) <==> has_key(s, k),
    decreases s.len(),
{
    if s.len() == 0 {
    } else {
        lemma_pairs_map_domain(s.drop_last());
        assert forall|k: Seq<u8>| #[trigger] pairs_map(s).contains_key(k) <==> has_key(s, k) by {
            let lk = s.last().0.spec_bytes();
            if k == lk {
                assert(s[s.len() - 1].0.spec_bytes() == k);
                assert(has_key(s, k));
            } else {
                if pairs_map(s).contains_key(k) {
                    assert(pairs_map(s.drop_last()).contains_key(k));
                    assert(has_key(s.drop_last(), k));
                    let i = choose|i: int|
                        0 <= i < s.drop_last().len() && s.drop_last()[i].0.spec_bytes() == k;
                    assert(s[i].0.spec_bytes() == k);
                    assert(has_key(s, k));
                }
                if has_key(s, k) {
                    let i = choose|i: int| 0 <= i < s.len() && s[i].0.spec_bytes() == k;
                    assert(s[i].0.spec_bytes() == k);
                    assert(i != s.len() - 1);
                    assert(s.drop_last()[i].0.spec_bytes() == k);
                    assert(has_key(s.drop_last(), k));
                    assert(pairs_map(s.drop_last()).contains_key(k));
                    assert(pairs_map(s).contains_key(k));
                }
            }
        }
    }
}

pub proof fn lemma_pairs_map_at<V>(s: Seq<(SequencedMessageHash, V)>, i: int)
    requires
        distinct_keys(s),
        0 <= i < s.len(),
    ensures
        pairs_map(s).contains_key(s[i].0.spec_bytes()),
        pairs_map(s)[s[i].0.spec_bytes()] == s[i].1,
    decreases s.len(),
{
    if i == s.len() - 1 {
    } else {
        lemma_pairs_map_at(s.drop_last(), i);
        assert(s.drop_last()[i] == s[i]);
        assert(s[i].0.spec_bytes() != s[s.len() - 1].0.spec_bytes());
    }
}

pub proof fn lemma_pairs_map_update<V>(
    s: Seq<(SequencedMessageHash, V)>,
    i: int,
    x: (SequencedMessageHash, V),
)
    requires
        distinct_keys(s),
        0 <= i < s.len(),
        x.0.spec_bytes() == s[i].0.spec_bytes(),
    ensures
        pairs_map(s.update(i, x)) == pairs_map(s).insert(x.0.spec_bytes(), x.1),
    decreases s.len(),
{
    let t = s.update(i, x);
    if i == s.len() - 1 {
        assert(t.drop_last() =~= s.drop_last());
        assert(t.last() == x);
        assert(pairs_map(t) =~= pairs_map(s).insert(x.0.spec_bytes(), x.1));
    } else {
        lemma_pairs_map_update(s.drop_last(), i, x);
        assert(t.drop_last() =~= s.drop_last().update(i, x));
        assert(t.last() == s.last());
        assert(s[i].0.spec_bytes() != s[s.len() - 1].0.spec_bytes());
        assert(pairs_map(t) =~= pairs_map(s).insert(x.0.spec_bytes(), x.1));
    }
}

pub proof fn lemma_pairs_map_remove<V>(s: Seq<(SequencedMessageHash, V)>, i: int)
    requires
        distinct_keys(s),
        0 <= i < s.len(),
    ensures
        pairs_map(s.remove(i)) == pairs_map(s).remove(s[i].0.spec_bytes()),
    decreases s.len(),
{
    let k = s[i].0.spec_bytes();
    if i == s.len() - 1 {
        assert(s.remove(i) =~= s.drop_last());
        lemma_pairs_map_domain(s.drop_last());
        assert(!has_key(s.drop_last(), k));
        assert(pairs_map(s.remove(i)) =~= pairs_map(s).remove(k));
    } else {
        lemma_pairs_map_remove(s.drop_last(), i);
        let t = s.remove(i);
        assert(t.drop_last() =~= s.drop_last().remove(i));
        assert(t.last() == s.last());
        assert(k != s[s.len() - 1].0.spec_bytes());
        assert(pairs_map(t) =~= pairs_map(s).remove(k));
    }
}

/// Position of the pair carrying `key`, if any.
pub fn find_index<V>(pairs: &Vec<(SequencedMessageHash, V)>, key: &SequencedMessageHash) -> (r:
    Option<usize>)
    ensures
        match r {
            Some(i) => i < pairs@.len() && pairs@[i as int].0.spec_bytes() == key.spec_bytes(),
            None => !has_key(pairs@, key.spec_bytes()),
        },
{
    let mut i: usize = 0;
    while i < pairs.len()
        invariant
            i <= pairs@.len(),
            forall|j: int| 0 <= j < i ==> pairs@[j].0.spec_bytes() != key.spec_bytes(),
        decreases pairs@.len() - i,
    {
        if bytes_eq(pairs[i].0.as_bytes(), key.as_bytes()) {
            return Some(i);
        }
        i = i + 1;
    }
    None
}

} // verus!
