//! The order in which a key-ordered map of the standard library is walked.
use vstd::prelude::*;
use vstd::std_specs::btree::{increasing_seq, key_obeys_cmp_spec};
use vstd::std_specs::cmp::OrdSpec;

verus! {

/// Integer keys are compared as the numbers that they are.
pub open spec fn integer_order() -> bool {
    vstd::laws_cmp::obeys_cmp::<u64>()
}

/// Maps with integer keys are walked in the order of their keys: a walk
/// visits the keys in increasing order exactly when each key is less than
/// all keys behind it.
pub proof fn lemma_integer_keys(keys: Seq<u64>)
    ensures
        key_obeys_cmp_spec::<u64>(),
        integer_order(),
        increasing_seq(keys) <==> (forall|a: int, b: int|
            0 <= a < b < keys.len() ==> keys[a] < keys[b]),
{
    broadcast use vstd::std_specs::btree::group_btree_axioms;
    broadcast use vstd::laws_cmp::group_laws_cmp;

    assert(key_obeys_cmp_spec::<u64>());
    if increasing_seq(keys) {
        assert forall|a: int, b: int| 0 <= a < b < keys.len() implies keys[a] < keys[b] by {
            assert(keys[a].cmp_spec(&keys[b]) is Less);
        }
    }
    if forall|a: int, b: int| 0 <= a < b < keys.len() ==> keys[a] < keys[b] {
        assert forall|a: int, b: int| 0 <= a < b < keys.len() implies keys[a].cmp_spec(
            &keys[b],
        ) is Less by {
            assert(keys[a] < keys[b]);
        }
    }
}

} // verus!
