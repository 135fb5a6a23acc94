//! Key-ordered mappings.
use vstd::prelude::*;
use std::collections::BTreeMap;
use vstd::std_specs::iter::IteratorSpec;
use crate::composite::Composite;
use crate::expr::Expr;
use crate::getter::GetElem;
use crate::keyed::{
    keyed, keyed_combine, keyed_combine_elem, keyed_duplicate, keyed_elem_sort,
    keyed_invariants, keyed_num_elem, keyed_refs, keyed_same,
};
use crate::keyorder::{integer_order, lemma_integer_keys};
use crate::laws::{lemma_join_rising, lemma_merge_sorted, lemma_pattern_sides};
use crate::shape::{rising, Shape};
use crate::sort::Sort;

verus! {

/// `keys` are the keys of `map`, each once, in rising order.
pub open spec fn walks<T>(map: Map<u64, T>, keys: Seq<u64>) -> bool {
    &&& forall|a: int, b: int| 0 <= a < b < keys.len() ==> keys[a] < keys[b]
    &&& forall|key: u64| map.contains_key(key) <==> keys.contains(key)
}

/// The keys of `map` in rising order.
pub open spec fn ordered<T>(map: Map<u64, T>) -> Seq<u64> {
    choose|keys: Seq<u64>| walks(map, keys)
}

/// The keys of `map` and the shapes of its values, in the order of the
/// keys.
pub open spec fn mapped<T: Composite>(map: Map<u64, T>) -> Seq<(int, Shape)> {
    Seq::new(ordered(map).len(), |k: int| (ordered(map)[k] as int, map[ordered(map)[k]].shape()))
}

/// There is one way only to walk the keys of a map in rising order.
pub proof fn lemma_walk_unique<T>(map: Map<u64, T>, first: Seq<u64>, second: Seq<u64>)
    requires
        walks(map, first),
        walks(map, second),
    ensures
        first == second,
    decreases first.len(),
{
    if first.len() == 0 {
        if second.len() > 0 {
            assert(second.contains(second[0]));
            assert(first.contains(second[0]));
        }
        assert(first =~= second);
    } else {
        assert(first.contains(first[0]));
        assert(second.contains(first[0]));
        assert(second.len() > 0);
        assert(second.contains(second[0]));
        assert(first.contains(second[0]));
        let at = choose|at: int| 0 <= at < second.len() && second[at] == first[0];
        let back = choose|back: int| 0 <= back < first.len() && first[back] == second[0];
        assert(first[0] == second[0]) by {
            if at > 0 {
                assert(second[0] < second[at]);
            }
            if back > 0 {
                assert(first[0] < first[back]);
            }
        }
        let rest = map.remove(first[0]);
        let first_rest = first.skip(1);
        let second_rest = second.skip(1);
        assert forall|key: u64| rest.contains_key(key) <==> first_rest.contains(key) by {
            if first_rest.contains(key) {
                let k = choose|k: int| 0 <= k < first_rest.len() && first_rest[k] == key;
                assert(first[k + 1] == key);
                assert(first[0] < first[k + 1]);
                assert(first.contains(key));
            }
            if rest.contains_key(key) {
                assert(first.contains(key));
                let k = choose|k: int| 0 <= k < first.len() && first[k] == key;
                assert(first_rest[k - 1] == key);
            }
        }
        assert forall|key: u64| rest.contains_key(key) <==> second_rest.contains(key) by {
            if second_rest.contains(key) {
                let k = choose|k: int| 0 <= k < second_rest.len() && second_rest[k] == key;
                assert(second[k + 1] == key);
                assert(second[0] < second[k + 1]);
                assert(second.contains(key));
            }
            if rest.contains_key(key) {
                assert(second.contains(key));
                let k = choose|k: int| 0 <= k < second.len() && second[k] == key;
                assert(second_rest[k - 1] == key);
            }
        }
        assert forall|a: int, b: int| 0 <= a < b < first_rest.len() implies first_rest[a]
            < first_rest[b] by {
            assert(first[a + 1] < first[b + 1]);
        }
        assert forall|a: int, b: int| 0 <= a < b < second_rest.len() implies second_rest[a]
            < second_rest[b] by {
            assert(second[a + 1] < second[b + 1]);
        }
        lemma_walk_unique(rest, first_rest, second_rest);
        assert(first =~= seq![first[0]] + first_rest);
        assert(second =~= seq![second[0]] + second_rest);
    }
}

/// Parts whose keys rise and that are the entries of a map are the map's
/// keys and values in the order of the keys.
pub proof fn lemma_mapped<T: Composite>(map: Map<u64, T>, keys: Seq<u64>, parts: Seq<(int, Shape)>)
    requires
        walks(map, keys),
        parts.len() == keys.len(),
        forall|k: int|
            0 <= k < keys.len() ==> (#[trigger] parts[k]) == (keys[k] as int, map[keys[k]].shape()),
    ensures
        mapped(map) == parts,
        rising(parts),
{
    lemma_walk_unique(map, keys, ordered(map));
    assert(mapped(map) =~= parts);
    assert forall|a: int, b: int| 0 <= a < b < parts.len() implies parts[a].0 < parts[b].0 by {
        assert(keys[a] < keys[b]);
    }
}

/// The entries of `map`, borrowed, in the order of their keys.
pub fn entries<T: Composite>(map: &BTreeMap<u64, T>) -> (found: Vec<(u64, &T)>)
    ensures
        keyed_refs(found@) == mapped(map@),
        rising(mapped(map@)),
{
    proof {
        lemma_integer_keys(Seq::empty());
    }
    let mut found: Vec<(u64, &T)> = Vec::new();
    for entry in it: map.iter()
        invariant
            found@.len() == it.index(),
            forall|k: int|
                0 <= k < found@.len() ==> found@[k].0 == *it.seq()[k].0 && found@[k].1
                    == it.seq()[k].1,
    {
        found.push((*entry.0, entry.1));
    }
    proof {
        let all = map.iter().remaining();
        let keys = all.map_values(|kv: (&u64, &T)| *kv.0);
        lemma_integer_keys(keys);
        assert forall|key: u64| map@.contains_key(key) <==> keys.contains(key) by {
            if map@.contains_key(key) {
                assert(all.contains((&key, &map@[key])));
                let k = choose|k: int| 0 <= k < all.len() && all[k] == (&key, &map@[key]);
                assert(keys[k] == key);
            }
            if keys.contains(key) {
                let k = choose|k: int| 0 <= k < keys.len() && keys[k] == key;
                assert(map@.contains_key(*all[k].0));
            }
        }
        assert forall|k: int| 0 <= k < keys.len() implies (#[trigger] keyed_refs(found@)[k]) == (
            keys[k] as int,
            map@[keys[k]].shape(),
        ) by {
            assert(map@.contains_key(*all[k].0) && map@[*all[k].0] == *all[k].1);
        }
        lemma_mapped(map@, keys, keyed_refs(found@));
    }
    found
}

/// The map that holds `items`, whose keys rise.
pub fn collect<T: Composite>(items: Vec<(u64, T)>) -> (map: BTreeMap<u64, T>)
    requires
        rising(keyed(items@)),
    ensures
        mapped(map@) == keyed(items@),
{
    proof {
        lemma_integer_keys(Seq::empty());
    }
    let ghost all = items@;
    let ghost keys = Seq::new(all.len(), |k: int| all[k].0);
    let mut rest = items;
    let mut map: BTreeMap<u64, T> = BTreeMap::new();
    while rest.len() > 0
        invariant
            integer_order(),
            rising(keyed(all)),
            rest@.len() <= all.len(),
            rest@ == all.take(rest@.len() as int),
            forall|k: int|
                rest@.len() <= k < all.len() ==> map@.contains_key(#[trigger] all[k].0)
                    && map@[all[k].0] == all[k].1,
            forall|key: u64|
                map@.contains_key(key) ==> exists|k: int|
                    rest@.len() <= k < all.len() && #[trigger] all[k].0 == key,
        decreases rest@.len(),
    {
        let ghost before = map@;
        let ghost at = rest@.len() - 1;
        let ghost held = rest@;
        let entry = rest.pop().unwrap();
        let key = entry.0;
        let value = entry.1;
        proof {
            assert(held[at] == all[at]);
            assert(entry == held[at]);
            assert(all[at] == (key, value));
            assert forall|k: int| at < k < all.len() implies all[k].0 != key by {
                assert(keyed(all)[at].0 < keyed(all)[k].0);
            }
        }
        map.insert(key, value);
        proof {
            assert(rest@ =~= all.take(at));
            assert forall|other: u64| map@.contains_key(other) implies exists|k: int|
                at <= k < all.len() && #[trigger] all[k].0 == other by {
                if other == key {
                    assert(all[at].0 == other);
                } else {
                    assert(before.contains_key(other));
                    let k = choose|k: int| at + 1 <= k < all.len() && #[trigger] all[k].0 == other;
                    assert(all[k].0 == other);
                }
            }
        }
    }
    proof {
        assert forall|a: int, b: int| 0 <= a < b < keys.len() implies keys[a] < keys[b] by {
            assert(keyed(all)[a].0 < keyed(all)[b].0);
        }
        assert forall|key: u64| map@.contains_key(key) <==> keys.contains(key) by {
            if map@.contains_key(key) {
                let k = choose|k: int| 0 <= k < all.len() && #[trigger] all[k].0 == key;
                assert(keys[k] == key);
            }
            if keys.contains(key) {
                let k = choose|k: int| 0 <= k < keys.len() && keys[k] == key;
                assert(map@.contains_key(all[k].0));
            }
        }
        assert forall|k: int| 0 <= k < keys.len() implies (#[trigger] keyed(all)[k]) == (
            keys[k] as int,
            map@[keys[k]].shape(),
        ) by {
            assert(map@.contains_key(all[k].0) && map@[all[k].0] == all[k].1);
        }
        lemma_mapped(map@, keys, keyed(all));
    }
    map
}

/// A key-ordered mapping lays out its values in the order of their keys.
/// Two mappings are merged key by key: values under a key that both have
/// are merged, and values under a key that one has are taken as they are.
impl<T: Composite> Composite for BTreeMap<u64, T> {
    open spec fn shape(&self) -> Shape {
        Shape::Record(mapped(self@))
    }

    fn num_elem(&self) -> (count: usize) {
        let found = entries(self);
        keyed_num_elem(&found, 0)
    }

    fn elem_sort(&self, n: usize) -> (sort: Sort) {
        let found = entries(self);
        keyed_elem_sort(&found, 0, n)
    }

    fn combine(&self, other: &Self) -> (merged: Option<Self>) {
        let left = entries(self);
        let right = entries(other);
        proof {
            if self.shape().sorted() && other.shape().sorted() && self.shape().merge(
                other.shape(),
            ) is Some {
                lemma_merge_sorted(self.shape(), other.shape());
            }
        }
        match keyed_combine(&left, &right) {
            Some(items) => {
                proof {
                    let a = mapped(self@);
                    let b = mapped(other@);
                    lemma_join_rising(a, b, 0, 0, if a.len() > 0 && b.len() > 0 {
                        if a[0].0 <= b[0].0 {
                            a[0].0
                        } else {
                            b[0].0
                        }
                    } else if a.len() > 0 {
                        a[0].0
                    } else if b.len() > 0 {
                        b[0].0
                    } else {
                        0
                    });
                }
                Some(collect(items))
            },
            None => None,
        }
    }

    fn combine_elem<FComb, FL, FR, Acc>(
        &self,
        other: &Self,
        comb: &FComb,
        onlyl: &FL,
        onlyr: &FR,
        acc: Acc,
        offl: &mut usize,
        offr: &mut usize,
        offn: &mut usize,
    ) -> (res: Acc) where
        FComb: Fn(Acc, usize, usize, usize) -> Acc,
        FL: Fn(Acc, usize, usize) -> Acc,
        FR: Fn(Acc, usize, usize) -> Acc,
     {
        let left = entries(self);
        let right = entries(other);
        proof {
            lemma_pattern_sides(self.shape(), other.shape());
        }
        keyed_combine_elem(&left, &right, 0, comb, onlyl, onlyr, acc, offl, offr, offn)
    }

    fn invariants<G: GetElem>(&self, leaf: &G, off: &mut usize, out: &mut Vec<Expr>) {
        let found = entries(self);
        keyed_invariants(&found, leaf, off, out)
    }

    fn duplicate(&self) -> (copy: Self) {
        let found = entries(self);
        collect(keyed_duplicate(&found))
    }

    fn same_shape(&self, other: &Self) -> (same: bool) {
        let left = entries(self);
        let right = entries(other);
        keyed_same(&left, &right)
    }
}

} // verus!
