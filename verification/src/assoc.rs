//! Association lists of 32-bit words, viewed as maps.
//!
//! Small lookup tables of the crate — the in-memory bus stub, the
//! breakpoint table, the register cache — are plain vectors of
//! `(key, value)` pairs. Their mathematical meaning is the map in which a
//! later entry shadows an earlier one with the same key.

use vstd::prelude::*;

verus! {

/// The map an association list denotes: later entries shadow earlier ones.
pub open spec fn assoc_map(s: Seq<(u32, u32)>) -> Map<u32, u32>
    decreases s.len(),
{
    if s.len() == 0 {
        Map::empty()
    } else {
        assoc_map(s.drop_last()).insert(s.last().0, s.last().1)
    }
}

/// No two entries of the list share a key.
pub open spec fn unique_keys(s: Seq<(u32, u32)>) -> bool {
    forall|i: int, j: int| 0 <= i < j < s.len() ==> (#[trigger] s[i]).0 != (#[trigger] s[j]).0
}

/// Appending an entry inserts its binding into the denoted map.
pub proof fn lemma_assoc_push(s: Seq<(u32, u32)>, p: (u32, u32))
    ensures
        assoc_map(s.push(p)) == assoc_map(s).insert(p.0, p.1),
{
    assert(s.push(p).drop_last() =~= s);
    assert(s.push(p).last() == p);
}

/// An entry not shadowed by any later entry gives the key's binding.
pub proof fn lemma_assoc_match(s: Seq<(u32, u32)>, i: int)
    requires
        0 <= i < s.len(),
        forall|j: int| i < j < s.len() ==> (#[trigger] s[j]).0 != s[i].0,
    ensures
        assoc_map(s).contains_key(s[i].0),
        assoc_map(s)[s[i].0] == s[i].1,
    decreases s.len(),
{
    if i < s.len() - 1 {
        assert forall|j: int| i < j < s.drop_last().len() implies (#[trigger] s.drop_last()[j]).0
            != s.drop_last()[i].0 by {
            assert(s.drop_last()[j] == s[j]);
        }
        lemma_assoc_match(s.drop_last(), i);
        assert(s.last().0 != s[i].0);
    }
}

/// A key no entry carries is absent from the denoted map.
pub proof fn lemma_assoc_absent(s: Seq<(u32, u32)>, k: u32)
    requires
        forall|j: int| 0 <= j < s.len() ==> (#[trigger] s[j]).0 != k,
    ensures
        !assoc_map(s).contains_key(k),
    decreases s.len(),
{
    if s.len() > 0 {
        assert forall|j: int| 0 <= j < s.drop_last().len() implies (#[trigger] s.drop_last()[j]).0
            != k by {
            assert(s.drop_last()[j] == s[j]);
        }
        lemma_assoc_absent(s.drop_last(), k);
        assert(s.last().0 != k);
    }
}

/// Removing an entry keeps the remaining keys distinct.
pub proof fn lemma_unique_remove(s: Seq<(u32, u32)>, i: int)
    requires
        0 <= i < s.len(),
        unique_keys(s),
    ensures
        unique_keys(s.remove(i)),
{
    s.remove_ensures(i);
    assert forall|a: int, b: int| 0 <= a < b < s.remove(i).len() implies (#[trigger] s.remove(
        i,
    )[a]).0 != (#[trigger] s.remove(i)[b]).0 by {
        let oa = if a < i {
            a
        } else {
            a + 1
        };
        let ob = if b < i {
            b
        } else {
            b + 1
        };
        assert(s.remove(i)[a] == s[oa]);
        assert(s.remove(i)[b] == s[ob]);
    }
}

/// With distinct keys, removing an entry removes exactly its binding.
pub proof fn lemma_assoc_remove(s: Seq<(u32, u32)>, i: int)
    requires
        0 <= i < s.len(),
        unique_keys(s),
    ensures
        assoc_map(s.remove(i)) == assoc_map(s).remove(s[i].0),
    decreases s.len(),
{
    let k = s[i].0;
    s.remove_ensures(i);
    if i == s.len() - 1 {
        assert(s.remove(i) =~= s.drop_last());
        assert forall|j: int| 0 <= j < s.drop_last().len() implies (#[trigger] s.drop_last()[j]).0
            != k by {
            assert(s.drop_last()[j] == s[j]);
        }
        lemma_assoc_absent(s.drop_last(), k);
        assert(assoc_map(s.drop_last()) =~= assoc_map(s.drop_last()).insert(
            s.last().0,
            s.last().1,
        ).remove(k));
    } else {
        assert forall|a: int, b: int| 0 <= a < b < s.drop_last().len() implies (
        #[trigger] s.drop_last()[a]).0 != (#[trigger] s.drop_last()[b]).0 by {
            assert(s.drop_last()[a] == s[a]);
            assert(s.drop_last()[b] == s[b]);
        }
        assert(s.drop_last()[i] == s[i]);
        lemma_assoc_remove(s.drop_last(), i);
        s.drop_last().remove_ensures(i);
        assert(s.remove(i).drop_last() =~= s.drop_last().remove(i));
        assert(s.remove(i).last() == s.last());
        assert(s.last().0 != k);
        assert(assoc_map(s.drop_last()).remove(k).insert(s.last().0, s.last().1) =~= assoc_map(
            s.drop_last(),
        ).insert(s.last().0, s.last().1).remove(k));
    }
}

} // verus!
