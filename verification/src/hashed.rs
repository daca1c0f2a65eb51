//! Hash sets and maps keyed by integers, over the `rustc_hash` hasher.

use vstd::prelude::*;
use rustc_hash::{FxHashMap, FxHashSet};

verus! {

/// The hasher factory of `rustc_hash`.
#[verifier::external_type_specification]
#[verifier::external_body]
pub struct ExFxBuildHasher(rustc_hash::FxBuildHasher);

/// `FxHashSet::default`: the new set is empty.
#[verifier::external_body]
pub(crate) fn new_target_set() -> (r: FxHashSet<(u64, u16)>)
    ensures
        r@ == Set::<(u64, u16)>::empty(),
{
    FxHashSet::default()
}

/// `FxHashSet::insert`: adds the item and says whether it was new.
#[verifier::external_body]
pub(crate) fn target_set_insert(set: &mut FxHashSet<(u64, u16)>, item: (u64, u16)) -> (fresh: bool)
    ensures
        fresh == !old(set)@.contains(item),
        final(set)@ == old(set)@.insert(item),
{
    set.insert(item)
}

/// What a map from a type code and a raw name to a cluster number holds.
pub uninterp spec fn extents_seen(m: FxHashMap<(u32, Vec<u16>), u64>) -> Map<(u32, Seq<u16>), u64>;

/// `FxHashMap::default`: the new map is empty.
#[verifier::external_body]
pub(crate) fn new_extent_map() -> (r: FxHashMap<(u32, Vec<u16>), u64>)
    ensures
        forall|k: (u32, Seq<u16>)| !(#[trigger] extents_seen(r).contains_key(k)),
{
    FxHashMap::default()
}

/// `FxHashMap::insert`: binds the key to the value and returns the value it
/// was bound to before, if it was.
#[verifier::external_body]
pub(crate) fn extent_map_insert(
    map: &mut FxHashMap<(u32, Vec<u16>), u64>,
    type_id: u32,
    name: &Vec<u16>,
    vcn: u64,
) -> (previous: Option<u64>)
    ensures
        previous == (if extents_seen(*old(map)).contains_key((type_id, name@)) {
            Some(extents_seen(*old(map))[(type_id, name@)])
        } else {
            None
        }),
        extents_seen(*final(map)) == extents_seen(*old(map)).insert((type_id, name@), vcn),
{
    map.insert((type_id, name.clone()), vcn)
}

/// `FxHashMap::default`: the new map is empty.
#[verifier::external_body]
pub(crate) fn new_identity_map() -> (r: FxHashMap<(u64, u16), (u32, u8, u64)>)
    ensures
        r@.dom() == Set::<(u64, u16)>::empty(),
{
    FxHashMap::default()
}

/// `FxHashMap::get`: the value that the key is bound to, if it is.
#[verifier::external_body]
pub(crate) fn identity_map_get(
    map: &FxHashMap<(u64, u16), (u32, u8, u64)>,
    key: (u64, u16),
) -> (r: Option<(u32, u8, u64)>)
    ensures
        r == (if map@.contains_key(key) {
            Some(map@[key])
        } else {
            None
        }),
{
    map.get(&key).copied()
}

/// `FxHashMap::insert`: binds the key to the value.
#[verifier::external_body]
pub(crate) fn identity_map_insert(
    map: &mut FxHashMap<(u64, u16), (u32, u8, u64)>,
    key: (u64, u16),
    value: (u32, u8, u64),
)
    ensures
        final(map)@ == old(map)@.insert(key, value),
{
    map.insert(key, value);
}

/// `FxHashMap::len`: the number of keys that are bound.
#[verifier::external_body]
pub(crate) fn identity_map_len(map: &FxHashMap<(u64, u16), (u32, u8, u64)>) -> (r: usize)
    ensures
        r == map@.dom().len(),
{
    map.len()
}

/// `FxHashMap::default`: the new map is empty.
#[verifier::external_body]
pub(crate) fn new_size_map() -> (r: FxHashMap<u32, u64>)
    ensures
        r@.dom() == Set::<u32>::empty(),
{
    FxHashMap::default()
}

/// `FxHashMap::get`: the value that the key is bound to, if it is.
#[verifier::external_body]
pub(crate) fn size_map_get(map: &FxHashMap<u32, u64>, key: u32) -> (r: Option<u64>)
    ensures
        r == (if map@.contains_key(key) {
            Some(map@[key])
        } else {
            None
        }),
{
    map.get(&key).copied()
}

/// `FxHashMap::insert`: binds the key to the value.
#[verifier::external_body]
pub(crate) fn size_map_insert(map: &mut FxHashMap<u32, u64>, key: u32, value: u64)
    ensures
        final(map)@ == old(map)@.insert(key, value),
{
    map.insert(key, value);
}

/// `FxHashMap::remove`: unbinds the key, if it was bound.
#[verifier::external_body]
pub(crate) fn size_map_remove(map: &mut FxHashMap<u32, u64>, key: u32)
    ensures
        final(map)@ == old(map)@.remove(key),
{
    map.remove(&key);
}

/// `FxHashMap::shrink_to_fit`: the map holds what it held.
#[verifier::external_body]
pub(crate) fn size_map_shrink(map: &mut FxHashMap<u32, u64>)
    ensures
        final(map)@ == old(map)@,
{
    map.shrink_to_fit();
}

/// What a set of links (reference, parent entry and name bytes) holds.
pub uninterp spec fn links_seen(s: FxHashSet<(u64, u32, Vec<u8>)>) -> Set<(u64, u32, Seq<u8>)>;

/// `FxHashSet::default`: the new set is empty.
#[verifier::external_body]
pub(crate) fn new_link_set() -> (r: FxHashSet<(u64, u32, Vec<u8>)>)
    ensures
        forall|x: (u64, u32, Seq<u8>)| !(#[trigger] links_seen(r).contains(x)),
{
    FxHashSet::default()
}

/// `FxHashSet::insert`: adds the item and says whether it was new.
#[verifier::external_body]
pub(crate) fn link_set_insert(
    set: &mut FxHashSet<(u64, u32, Vec<u8>)>,
    frn: u64,
    parent: u32,
    name: &[u8],
) -> (fresh: bool)
    ensures
        fresh == !links_seen(*old(set)).contains((frn, parent, name@)),
        links_seen(*final(set)) == links_seen(*old(set)).insert((frn, parent, name@)),
{
    set.insert((frn, parent, name.to_vec()))
}

/// What a map from byte strings to numbers holds.
pub uninterp spec fn names_seen(m: FxHashMap<&[u8], u32>) -> Map<Seq<u8>, u32>;

/// `FxHashMap::default`: the new map is empty.
#[verifier::external_body]
pub(crate) fn new_name_map<'a>() -> (r: FxHashMap<&'a [u8], u32>)
    ensures
        forall|k: Seq<u8>| !(#[trigger] names_seen(r).contains_key(k)),
{
    FxHashMap::default()
}

/// `FxHashMap::get`: the number the bytes are bound to, if they are.
#[verifier::external_body]
pub(crate) fn name_map_get(map: &FxHashMap<&[u8], u32>, name: &[u8]) -> (r: Option<u32>)
    ensures
        r == (if names_seen(*map).contains_key(name@) {
            Some(names_seen(*map)[name@])
        } else {
            None
        }),
{
    map.get(name).copied()
}

/// `FxHashMap::insert`: binds the bytes to the number.
#[verifier::external_body]
pub(crate) fn name_map_insert<'a>(map: &mut FxHashMap<&'a [u8], u32>, name: &'a [u8], number: u32)
    ensures
        names_seen(*final(map)) == names_seen(*old(map)).insert(name@, number),
{
    map.insert(name, number);
}

} // verus!
