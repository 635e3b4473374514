//! Ordered access to `BTreeMap`s keyed by integers, through the
//! specification vstd gives of their iteration order.
use std::collections::BTreeMap;
use vstd::prelude::*;
use vstd::std_specs::cmp::OrdSpec;
use vstd::std_specs::iter::IteratorSpec;

verus! {

broadcast use vstd::std_specs::btree::group_btree_axioms;

/// The entries of a map in increasing key order.
pub fn entries<'a, V>(m: &'a BTreeMap<u64, V>) -> (r: Vec<(u64, &'a V)>)
    ensures
        forall|i: int, j: int| 0 <= i < j < r@.len() ==> (#[trigger] r@[i]).0 < (#[trigger] r@[j]).0,
        forall|i: int| 0 <= i < r@.len() ==> m@.contains_key((#[trigger] r@[i]).0) && *r@[i].1 == m@[r@[i].0],
        forall|k: u64| #[trigger] m@.contains_key(k) ==> exists|i: int| 0 <= i < r@.len() && (#[trigger] r@[i]).0 == k,
{
    let mut r: Vec<(u64, &'a V)> = Vec::new();
    let ghost s = m.iter().remaining();
    for kv in it: m.iter()
        invariant
            it.seq() == s,
            r@.len() == it.index(),
            forall|i: int| 0 <= i < r@.len() ==> (#[trigger] r@[i]).0 == *s[i].0 && r@[i].1 == s[i].1,
    {
        let (k, l) = kv;
        r.push((*k, l));
    }
    proof {
        let keys = s.map_values(|kv: (&u64, &V)| *kv.0);
        assert(vstd::laws_cmp::obeys_cmp::<u64>());
        assert(vstd::std_specs::btree::increasing_seq(keys));
        assert forall|i: int, j: int| 0 <= i < j < r@.len() implies (#[trigger] r@[i]).0 < (
        #[trigger] r@[j]).0 by {
            assert(keys[i].cmp_spec(&keys[j]) is Less);
        }
        assert forall|i: int| 0 <= i < r@.len() implies m@.contains_key((#[trigger] r@[i]).0)
            && *r@[i].1 == m@[r@[i].0] by {
            assert(m@.contains_key(*s[i].0) && m@[*s[i].0] == *s[i].1);
        }
        assert forall|k: u64| #[trigger] m@.contains_key(k) implies exists|i: int|
            0 <= i < r@.len() && (#[trigger] r@[i]).0 == k by {
            assert(s.contains((&k, &m@[k])));
            let j = choose|j: int| 0 <= j < s.len() && s[j] == (&k, &m@[k]);
            assert(r@[j].0 == k);
        }
    }
    r
}

/// The smallest key of a map, if it has one.
pub fn first_key<V>(m: &BTreeMap<u64, V>) -> (r: Option<u64>)
    ensures
        match r {
            None => m@.dom().is_empty(),
            Some(k) => m@.contains_key(k) && forall|q: u64| m@.contains_key(q) ==> k <= q,
        },
{
    let mut r: Option<u64> = None;
    let ghost s = m.iter().remaining();
    for kv in it: m.iter()
        invariant_except_break
            it.index() == 0,
            r is None,
        invariant
            it.seq() == s,
        ensures
            r is None ==> s.len() == 0,
            r matches Some(k) ==> s.len() > 0 && k == *s[0].0,
    {
        let (k, _l) = kv;
        r = Some(*k);
        break;
    }
    proof {
        let keys = s.map_values(|kv: (&u64, &V)| *kv.0);
        assert(vstd::laws_cmp::obeys_cmp::<u64>());
        assert(vstd::std_specs::btree::increasing_seq(keys));
        assert forall|i: int, j: int| 0 <= i < j < keys.len() implies keys[i] < keys[j] by {
            assert(keys[i].cmp_spec(&keys[j]) is Less);
        }
        match r {
            Some(k) => {
                assert(keys[0] == k);
                assert forall|q: u64| m@.contains_key(q) implies k <= q by {
                    assert(s.contains((&q, &m@[q])));
                    let j = choose|j: int| 0 <= j < s.len() && s[j] == (&q, &m@[q]);
                    assert(keys[j] == q);
                }
                assert(m@.contains_key(*s[0].0));
            },
            None => {
                assert forall|q: u64| !m@.contains_key(q) by {
                    if m@.contains_key(q) {
                        assert(s.contains((&q, &m@[q])));
                    }
                }
            },
        }
    }
    r
}

} // verus!
