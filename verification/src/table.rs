//! Small association tables: duplicate-free keyed rows kept in a vector,
//! viewed as a map from key to value. The storyboard stores its scenes,
//! authors and characters this way.

use vstd::prelude::*;

verus! {

/// No two rows share a key.
pub open spec fn keys_distinct<V>(s: Seq<(u128, V)>) -> bool {
    forall|i: int, j: int| 0 <= i < j < s.len() ==> (#[trigger] s[i]).0 != (#[trigger] s[j]).0
}

/// The map a table holds: each key of some row mapped to that row's value.
pub open spec fn assoc_map<V>(s: Seq<(u128, V)>) -> Map<u128, V> {
    Map::new(
        |k: u128| exists|i: int| 0 <= i < s.len() && (#[trigger] s[i]).0 == k,
        |k: u128| s[choose|i: int| 0 <= i < s.len() && (#[trigger] s[i]).0 == k].1,
    )
}

/// Each row of a duplicate-free table is what the map holds at its key.
pub proof fn lemma_assoc_row<V>(s: Seq<(u128, V)>, i: int)
    requires
        keys_distinct(s),
        0 <= i < s.len(),
    ensures
        assoc_map(s).dom().contains(s[i].0),
        assoc_map(s)[s[i].0] == s[i].1,
{
    let k = s[i].0;
    assert(assoc_map(s).dom().contains(k));
    let j = choose|j: int| 0 <= j < s.len() && (#[trigger] s[j]).0 == k;
    if j != i {
        assert(s[i].0 != s[j].0 || s[j].0 != s[i].0);
    }
}

/// The index of the row holding `k`, if the table has one.
pub fn assoc_index<V>(v: &Vec<(u128, V)>, k: u128) -> (r: Option<usize>)
    ensures
        match r {
            Some(i) => i < v@.len() && v@[i as int].0 == k && assoc_map(v@).dom().contains(k),
            None => !assoc_map(v@).dom().contains(k),
        },
{
    let mut i: usize = 0;
    while i < v.len()
        invariant
            i <= v@.len(),
            forall|j: int| 0 <= j < i ==> (#[trigger] v@[j]).0 != k,
        decreases v@.len() - i,
    {
        if v[i].0 == k {
            return Some(i);
        }
        i = i + 1;
    }
    proof {
        if assoc_map(v@).dom().contains(k) {
            let j = choose|j: int| 0 <= j < v@.len() && (#[trigger] v@[j]).0 == k;
            assert(false);
        }
    }
    None
}

/// Whether the table has a row for `k`.
pub fn assoc_contains<V>(v: &Vec<(u128, V)>, k: u128) -> (r: bool)
    ensures
        r == assoc_map(v@).dom().contains(k),
{
    assoc_index(v, k).is_some()
}

/// Inserts `val` under `k`, replacing the row that held `k` before, if any.
pub fn assoc_insert<V>(v: &mut Vec<(u128, V)>, k: u128, val: V)
    requires
        keys_distinct(old(v)@),
    ensures
        keys_distinct(final(v)@),
        assoc_map(final(v)@) == assoc_map(old(v)@).insert(k, val),
        forall|i: int| 0 <= i < final(v)@.len() ==> (#[trigger] final(v)@[i]).0 == k || old(
            v,
        )@.contains(final(v)@[i]),
{
    assoc_remove(v, k);
    let ghost mid = v@;
    v.push((k, val));
    proof {
        assert(v@[v@.len() - 1] == (k, val));
        assert(forall|i: int| 0 <= i < mid.len() ==> #[trigger] v@[i] == mid[i]);
        assert forall|p: int, q: int| 0 <= p < q < v@.len() implies (#[trigger] v@[p]).0 != (
        #[trigger] v@[q]).0 by {
            if q == v@.len() - 1 {
                if mid[p].0 == k {
                    assert(assoc_map(mid).dom().contains(k));
                    assert(false);
                }
            }
        }
        let m0 = assoc_map(old(v)@);
        let m1 = assoc_map(mid);
        let m2 = assoc_map(v@);
        assert forall|k2: u128| #[trigger] m2.dom().contains(k2) || m0.insert(
            k,
            val,
        ).dom().contains(k2) implies m2.dom().contains(k2) == m0.insert(k, val).dom().contains(
            k2,
        ) && (m2.dom().contains(k2) ==> m2[k2] == m0.insert(k, val)[k2]) by {
            if k2 == k {
                lemma_assoc_row(v@, v@.len() - 1);
            } else {
                if m2.dom().contains(k2) {
                    let i = choose|i: int| 0 <= i < v@.len() && (#[trigger] v@[i]).0 == k2;
                    assert(i < mid.len() && mid[i] == v@[i]);
                    lemma_assoc_row(v@, i);
                    lemma_assoc_row(mid, i);
                }
                if m1.dom().contains(k2) {
                    let i = choose|i: int| 0 <= i < mid.len() && (#[trigger] mid[i]).0 == k2;
                    assert(v@[i] == mid[i]);
                }
            }
        }
        assert(m2 =~= m0.insert(k, val));
    }
}

/// Removes the row holding `k`, if any.
pub fn assoc_remove<V>(v: &mut Vec<(u128, V)>, k: u128)
    requires
        keys_distinct(old(v)@),
    ensures
        keys_distinct(final(v)@),
        assoc_map(final(v)@) == assoc_map(old(v)@).remove(k),
        forall|i: int| 0 <= i < final(v)@.len() ==> old(v)@.contains(#[trigger] final(v)@[i]),
{
    let ghost pre = v@;
    let found = assoc_index(v, k);
    match found {
        Some(i) => {
            v.remove(i);
            proof {
                lemma_remove_row(pre, i as int);
            }
        },
        None => {
            proof {
                assert(assoc_map(v@) =~= assoc_map(pre).remove(k));
            }
        },
    }
}

/// Removing one row of a duplicate-free table removes exactly its key from
/// the map; every other row survives.
pub proof fn lemma_remove_row<V>(s: Seq<(u128, V)>, i: int)
    requires
        keys_distinct(s),
        0 <= i < s.len(),
    ensures
        keys_distinct(s.remove(i)),
        assoc_map(s.remove(i)) == assoc_map(s).remove(s[i].0),
        forall|p: int| 0 <= p < s.remove(i).len() ==> s.contains(#[trigger] s.remove(i)[p]),
{
    let k = s[i].0;
    let t = s.remove(i);
    s.remove_ensures(i);
    assert forall|p: int| 0 <= p < t.len() implies s.contains(#[trigger] t[p]) && t[p].0 != k by {
        if p < i {
            assert(t[p] == s[p]);
        } else {
            assert(t[p] == s[p + 1]);
        }
    }
    assert forall|p: int, q: int| 0 <= p < q < t.len() implies (#[trigger] t[p]).0 != (
    #[trigger] t[q]).0 by {
        if q < i {
            assert(t[p] == s[p] && t[q] == s[q]);
        } else if p < i {
            assert(t[p] == s[p] && t[q] == s[q + 1]);
        } else {
            assert(t[p] == s[p + 1] && t[q] == s[q + 1]);
        }
    }
    let m0 = assoc_map(s);
    let m1 = assoc_map(t);
    assert forall|k2: u128| #[trigger] m1.dom().contains(k2) || m0.remove(k).dom().contains(
        k2,
    ) implies m1.dom().contains(k2) == m0.remove(k).dom().contains(k2) && (m1.dom().contains(k2)
        ==> m1[k2] == m0.remove(k)[k2]) by {
        if m1.dom().contains(k2) {
            let p = choose|p: int| 0 <= p < t.len() && (#[trigger] t[p]).0 == k2;
            lemma_assoc_row(t, p);
            let q = choose|q: int| 0 <= q < s.len() && s[q] == t[p];
            lemma_assoc_row(s, q);
        } else if m0.remove(k).dom().contains(k2) {
            let q = choose|q: int| 0 <= q < s.len() && (#[trigger] s[q]).0 == k2;
            if q < i {
                assert(t[q] == s[q]);
                assert(m1.dom().contains(k2));
            } else if q > i {
                assert(t[q - 1] == s[q]);
                assert(m1.dom().contains(k2));
            }
        }
    }
    assert(m1 =~= m0.remove(k));
}

} // verus!
