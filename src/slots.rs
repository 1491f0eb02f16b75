//! The slot maps of the `slotmap` crate that hold the graph's keys, seen
//! through their contents.
//!
//! A key is handed around as the 64-bit value of `KeyData::as_ffi`: the
//! slot's version in the high half, the slot's index in the low half.
use slotmap::{DefaultKey, Key, KeyData, SecondaryMap, SlotMap};
use vstd::prelude::*;

verus! {

/// Slots that hold nothing but their keys, kept in a `slotmap::SlotMap`.
#[verifier::external_body]
pub struct KeySlots {
    inner: SlotMap<DefaultKey, ()>,
}

/// Lists of keys under keys, kept in a `slotmap::SecondaryMap`.
#[verifier::external_body]
pub struct KeyLists {
    inner: SecondaryMap<DefaultKey, Vec<u64>>,
}

/// Pairs of keys under keys, kept in a `slotmap::SecondaryMap`.
#[verifier::external_body]
pub struct KeyPairs {
    inner: SecondaryMap<DefaultKey, (u64, u64)>,
}

/// The factor between a key's version and its value.
pub const HALF: u64 = 0x1_0000_0000;

/// Index of the slot that a key names.
pub open spec fn key_index(k: u64) -> u32 {
    (k % HALF) as u32
}

/// Version of the slot that a key names.
pub open spec fn key_version(k: u64) -> u32 {
    (k / HALF) as u32
}

/// A key can name an occupied slot only with an odd version.
pub open spec fn key_is_valid(k: u64) -> bool {
    key_version(k) % 2 == 1
}

/// For each slot of a slot map (but its unused slot 0), its current
/// version: odd while the slot is occupied, even while it is free.
pub uninterp spec fn slot_table(m: KeySlots) -> Map<u32, u32>;

/// What a secondary map of adjacency lists holds, by key.
pub uninterp spec fn list_table(m: KeyLists) -> Map<u64, Seq<u64>>;

/// What a secondary map of key pairs holds, by key.
pub uninterp spec fn pair_table(m: KeyPairs) -> Map<u64, (u64, u64)>;

/// `k` names an occupied slot of the table `t`.
pub open spec fn slot_live(t: Map<u32, u32>, k: u64) -> bool {
    &&& key_is_valid(k)
    &&& t.contains_key(key_index(k))
    &&& t[key_index(k)] == key_version(k)
}

/// The version that a slot gets when its occupant is removed.
pub open spec fn next_version(v: u32) -> u32 {
    if v == u32::MAX {
        0
    } else {
        (v + 1) as u32
    }
}

/// No key of `t` other than `k` names the slot that `k` names.
pub open spec fn slot_unclaimed<V>(t: Map<u64, V>, k: u64) -> bool {
    forall|j: u64| #[trigger] t.contains_key(j) && key_index(j) == key_index(k) ==> j == k
}

/// Relies on `SlotMap::new`: a new slot map has no slot.
#[verifier::external_body]
pub(crate) fn slots_new() -> (r: KeySlots)
    ensures
        slot_table(r).dom() == Set::<u32>::empty(),
{
    KeySlots { inner: SlotMap::new() }
}

/// Relies on `SlotMap::insert`: it fills a free slot, whose even version it
/// makes odd, or appends a slot of version 1; it panics only when the map
/// already has `u32::MAX` slots, counting its unused slot 0.
#[verifier::external_body]
pub(crate) fn slots_insert(m: &mut KeySlots) -> (k: u64)
    requires
        slot_table(*old(m)).dom().len() + 2 < u32::MAX,
    ensures
        key_is_valid(k),
        key_index(k) < u32::MAX,
        slot_table(*old(m)).contains_key(key_index(k)) ==> {
            &&& slot_table(*old(m))[key_index(k)] % 2 == 0
            &&& key_version(k) == slot_table(*old(m))[key_index(k)] + 1
        },
        !slot_table(*old(m)).contains_key(key_index(k)) ==> key_version(k) == 1,
        slot_table(*final(m)) == slot_table(*old(m)).insert(key_index(k), key_version(k)),
{
    m.inner.insert(()).data().as_ffi()
}

/// Relies on `SlotMap::remove`: when `k` names an occupied slot, the slot's
/// version is increased by one (wrapping) and the slot is freed; otherwise
/// nothing changes.
#[verifier::external_body]
pub(crate) fn slots_remove(m: &mut KeySlots, k: u64) -> (r: bool)
    requires
        key_is_valid(k),
    ensures
        r == slot_live(slot_table(*old(m)), k),
        r ==> slot_table(*final(m)) == slot_table(*old(m)).insert(
            key_index(k),
            next_version(key_version(k)),
        ),
        !r ==> slot_table(*final(m)) == slot_table(*old(m)),
{
    m.inner.remove(KeyData::from_ffi(k).into()).is_some()
}

/// Relies on `SlotMap::keys`: each key of an occupied slot, once.
#[verifier::external_body]
pub(crate) fn slots_keys(m: &KeySlots) -> (r: Vec<u64>)
    ensures
        r@.no_duplicates(),
        forall|k: u64| r@.contains(k) <==> slot_live(slot_table(*m), k),
{
    m.inner.keys().map(|k| k.data().as_ffi()).collect()
}

/// Relies on `SecondaryMap::new`: a new secondary map is empty.
#[verifier::external_body]
pub(crate) fn lists_new() -> (r: KeyLists)
    ensures
        list_table(r).dom() == Set::<u64>::empty(),
{
    KeyLists { inner: SecondaryMap::new() }
}

/// Relies on `SecondaryMap::get`: the value stored under exactly this key.
#[verifier::external_body]
pub(crate) fn lists_get(m: &KeyLists, k: u64) -> (r: Option<Vec<u64>>)
    requires
        key_is_valid(k),
    ensures
        match r {
            Some(v) => list_table(*m).contains_key(k) && v@ == list_table(*m)[k],
            None => !list_table(*m).contains_key(k),
        },
{
    m.inner.get(KeyData::from_ffi(k).into()).cloned()
}

/// Relies on `SecondaryMap::insert`: with no other key of the same slot
/// stored, the value is stored under the key.
#[verifier::external_body]
pub(crate) fn lists_insert(m: &mut KeyLists, k: u64, v: Vec<u64>)
    requires
        key_is_valid(k),
        key_index(k) < u32::MAX,
        slot_unclaimed(list_table(*old(m)), k),
    ensures
        list_table(*final(m)) == list_table(*old(m)).insert(k, v@),
{
    m.inner.insert(KeyData::from_ffi(k).into(), v);
}

/// Relies on `SecondaryMap::remove`: the value under exactly this key, if
/// any, is taken out.
#[verifier::external_body]
pub(crate) fn lists_remove(m: &mut KeyLists, k: u64)
    requires
        key_is_valid(k),
    ensures
        list_table(*final(m)) == list_table(*old(m)).remove(k),
{
    m.inner.remove(KeyData::from_ffi(k).into());
}

/// Relies on `SecondaryMap::new`: a new secondary map is empty.
#[verifier::external_body]
pub(crate) fn pairs_new() -> (r: KeyPairs)
    ensures
        pair_table(r).dom() == Set::<u64>::empty(),
{
    KeyPairs { inner: SecondaryMap::new() }
}

/// Relies on `SecondaryMap::get`: the value stored under exactly this key.
#[verifier::external_body]
pub(crate) fn pairs_get(m: &KeyPairs, k: u64) -> (r: Option<(u64, u64)>)
    requires
        key_is_valid(k),
    ensures
        match r {
            Some(v) => pair_table(*m).contains_key(k) && v == pair_table(*m)[k],
            None => !pair_table(*m).contains_key(k),
        },
{
    m.inner.get(KeyData::from_ffi(k).into()).copied()
}

/// Relies on `SecondaryMap::insert`: with no other key of the same slot
/// stored, the value is stored under the key.
#[verifier::external_body]
pub(crate) fn pairs_insert(m: &mut KeyPairs, k: u64, v: (u64, u64))
    requires
        key_is_valid(k),
        key_index(k) < u32::MAX,
        slot_unclaimed(pair_table(*old(m)), k),
    ensures
        pair_table(*final(m)) == pair_table(*old(m)).insert(k, v),
{
    m.inner.insert(KeyData::from_ffi(k).into(), v);
}

/// Relies on `SecondaryMap::remove`: the value under exactly this key, if
/// any, is taken out.
#[verifier::external_body]
pub(crate) fn pairs_remove(m: &mut KeyPairs, k: u64)
    requires
        key_is_valid(k),
    ensures
        pair_table(*final(m)) == pair_table(*old(m)).remove(k),
{
    m.inner.remove(KeyData::from_ffi(k).into());
}

/// Whether a key can name an occupied slot.
pub fn is_valid_key(k: u64) -> (r: bool)
    ensures
        r == key_is_valid(k),
{
    (k / HALF) % 2 == 1
}

} // verus!
