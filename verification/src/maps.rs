//! Maps keyed by hash.
use crate::types::H256;
use std::collections::BTreeMap;
use vstd::prelude::*;

verus! {

broadcast use {vstd::std_specs::btree::group_btree_axioms, vstd::laws_cmp::group_laws_cmp};

/// The error texts of a map, as sequences of characters.
pub open spec fn texts(m: Map<H256, String>) -> Map<H256, Seq<char>> {
    m.map_values(|s: String| s@)
}

/// Each hash keeps its error text, and no other hash has one.
pub proof fn texts_keep_every_entry(m: Map<H256, String>)
    ensures
        forall|h: H256| #[trigger] texts(m).contains_key(h) <==> m.contains_key(h),
        forall|h: H256| #[trigger] m.contains_key(h) ==> texts(m)[h] == m[h]@,
{
}

/// Moves what `source` holds into `target`. Where both have a value for a
/// hash, that of `source` stays.
pub fn extend<V>(target: &mut BTreeMap<H256, V>, source: BTreeMap<H256, V>)
    ensures
        final(target)@ == old(target)@.union_prefer_right(source@),
{
    let mut keys: Vec<H256> = Vec::new();
    let ghost listed = vstd::std_specs::iter::IteratorSpec::remaining(
        &source.keys(),
    ).unref();
    for key in it: source.keys()
        invariant
            it.seq().unref() == listed,
            keys@ == listed.take(it.index()),
    {
        keys.push(*key);
    }
    assert(keys@ == listed);
    assert(keys@.to_set() == source@.dom());
    let mut rest = source;
    for i in 0..keys.len()
        invariant
            target@.union_prefer_right(rest@) == old(target)@.union_prefer_right(source@),
            keys@.to_set() == source@.dom(),
            forall|k: H256| #[trigger] rest@.contains_key(k) ==> source@.contains_key(k),
            forall|j: int| 0 <= j < i ==> !rest@.contains_key(#[trigger] keys@[j]),
    {
        let key: H256 = keys[i];
        match rest.remove(&key) {
            Some(value) => {
                target.insert(key, value);
            },
            None => {},
        }
        assert(target@.union_prefer_right(rest@) =~= old(target)@.union_prefer_right(source@));
    }
    assert(rest@ =~= Map::empty()) by {
        assert forall|k: H256| !rest@.contains_key(k) by {
            if rest@.contains_key(k) {
                assert(keys@.to_set().contains(k));
            }
        }
    }
    assert(target@ =~= target@.union_prefer_right(rest@));
}

} // verus!
