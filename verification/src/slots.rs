//! The generational key allocator behind every identifier.
//!
//! A [`KeySlots`] holds a `slotmap::SlotMap` whose values carry nothing, so
//! that what it holds is exactly its set of live keys, each in its 64-bit
//! form (`KeyData::as_ffi`): low 32 bits the slot index, high 32 bits the
//! slot version.

use slotmap::{DefaultKey, Key, KeyData, SlotMap};
use vstd::prelude::*;

verus! {

/// A key allocator: the slot map that issues the identifiers of one kind of
/// graph element.
#[verifier::external_body]
#[derive(Debug)]
pub struct KeySlots {
    map: SlotMap<DefaultKey, ()>,
}

/// The keys that are live in a key allocator, each in its 64-bit form.
pub uninterp spec fn slot_keys(s: KeySlots) -> Set<u64>;

/// The keys that a key allocator has issued, each in its 64-bit form: for
/// every slot, the keys of that slot's index whose version is odd and no
/// greater than the slot's current version. A freed slot's version goes up
/// by one and a reused slot takes the next odd version, so while no slot's
/// version has wrapped these are exactly the keys that `insert` returned,
/// live or removed.
pub uninterp spec fn slot_issued(s: KeySlots) -> Set<u64>;

/// How many slots a key allocator has, its sentinel slot 0 included.
pub uninterp spec fn slot_span(s: KeySlots) -> nat;

/// The most keys of one kind a graph issues in its lifetime. Below it no
/// slot's version can reach `u32::MAX` (a slot holding version `v` has
/// issued `(v + 1) / 2` keys), so no version wraps and no key is issued
/// twice.
pub const ISSUE_LIMIT: usize = 0x7fff_fffe;

/// The slot index of a key in its 64-bit form.
pub open spec fn slot_index(key: u64) -> int {
    (key as int) % 0x1_0000_0000
}

/// True of the 64-bit form of every key that a slot map issues: its version
/// (the high 32 bits) is odd.
pub open spec fn is_issued_shape(key: u64) -> bool {
    (key / 0x1_0000_0000) % 2 == 1
}

/// `SlotMap::new`: an allocator with no live key, holding only its
/// sentinel slot.
#[verifier::external_body]
pub(crate) fn slots_new() -> (s: KeySlots)
    ensures
        slot_keys(s) == Set::<u64>::empty(),
        slot_issued(s) == Set::<u64>::empty(),
        slot_span(s) == 1,
{
    KeySlots { map: SlotMap::new() }
}

/// `SlotMap::insert`: issues a key that was never issued before, makes it
/// live and returns its 64-bit form. A reused slot gets its version plus
/// one, which is above every version it issued; a new slot gets version 1
/// and is pushed after the others, so the slots grow by at most one.
/// With fewer than `ISSUE_LIMIT` keys issued no version is near wrapping,
/// and there are fewer than `u32::MAX` slots, so the slot map does not
/// panic for lack of room.
#[verifier::external_body]
pub(crate) fn slots_insert(s: &mut KeySlots) -> (key: u64)
    requires
        slot_keys(*old(s)).finite(),
        slot_keys(*old(s)).len() < 0xffff_fffe,
        slot_issued(*old(s)).finite(),
        slot_issued(*old(s)).len() < ISSUE_LIMIT,
    ensures
        !slot_keys(*old(s)).contains(key),
        !slot_issued(*old(s)).contains(key),
        is_issued_shape(key),
        slot_keys(*final(s)) == slot_keys(*old(s)).insert(key),
        slot_issued(*final(s)) == slot_issued(*old(s)).insert(key),
        slot_span(*old(s)) <= slot_span(*final(s)) <= slot_span(*old(s)) + 1,
{
    s.map.insert(()).data().as_ffi()
}

/// `SlotMap::remove`, on the key whose 64-bit form is `key`: afterwards that
/// key is not live and every other key is as before. For a key of issued
/// shape `KeyData::from_ffi` gives back exactly the key that was issued.
/// The freed slot's version goes up by one; it would wrap only for a live
/// version of `u32::MAX`, whose slot has issued `2^31` keys, which
/// `requires` leaves out, so the issued keys stay as they were. No slot is
/// added or dropped.
#[verifier::external_body]
pub(crate) fn slots_remove(s: &mut KeySlots, key: u64)
    requires
        is_issued_shape(key),
        slot_issued(*old(s)).finite(),
        slot_issued(*old(s)).len() < 0x8000_0000,
    ensures
        slot_keys(*final(s)) == slot_keys(*old(s)).remove(key),
        slot_issued(*final(s)) == slot_issued(*old(s)),
        slot_span(*final(s)) == slot_span(*old(s)),
{
    let k: DefaultKey = KeyData::from_ffi(key).into();
    s.map.remove(k);
}

/// `SlotMap::contains_key`: whether the key whose 64-bit form is `key` is
/// live.
#[verifier::external_body]
pub(crate) fn slots_contains(s: &KeySlots, key: u64) -> (live: bool)
    requires
        is_issued_shape(key),
    ensures
        live == slot_keys(*s).contains(key),
{
    let k: DefaultKey = KeyData::from_ffi(key).into();
    s.map.contains_key(k)
}

/// `SlotMap::len`: the number of live keys.
#[verifier::external_body]
pub(crate) fn slots_len(s: &KeySlots) -> (n: usize)
    ensures
        n == slot_keys(*s).len(),
{
    s.map.len()
}

/// `SlotMap::keys`: every live key once, in the order of their slot
/// indices (the slot map walks its slots from the first to the last).
#[verifier::external_body]
pub(crate) fn slots_keys(s: &KeySlots) -> (keys: Vec<u64>)
    ensures
        keys@.to_set() == slot_keys(*s),
        forall|i: int, j: int|
            0 <= i < j < keys@.len() ==> slot_index(#[trigger] keys@[i]) < slot_index(
                #[trigger] keys@[j],
            ),
{
    s.map.keys().map(|k| k.data().as_ffi()).collect()
}

/// `SlotMap::clear`: no key is live afterwards. Each occupied slot is freed
/// as by `remove`, its version going up by one; as there, `requires` leaves
/// out a version wrapping, so the issued keys stay as they were. The slots
/// themselves stay.
#[verifier::external_body]
pub(crate) fn slots_clear(s: &mut KeySlots)
    requires
        slot_issued(*old(s)).finite(),
        slot_issued(*old(s)).len() < 0x8000_0000,
    ensures
        slot_keys(*final(s)) == Set::<u64>::empty(),
        slot_issued(*final(s)) == slot_issued(*old(s)),
        slot_span(*final(s)) == slot_span(*old(s)),
{
    s.map.clear()
}

/// `SlotMap::clone`: a copy of every slot, its version and whether it is
/// occupied, and of the free list, so the copy has the same live keys and
/// the same issued keys as the allocator it copies.
#[verifier::external_body]
pub(crate) fn slots_clone(s: &KeySlots) -> (r: KeySlots)
    ensures
        slot_keys(r) == slot_keys(*s),
        slot_issued(r) == slot_issued(*s),
        slot_span(r) == slot_span(*s),
{
    KeySlots { map: s.map.clone() }
}

/// The 64-bit form of the key of slot `i` at version `v`.
pub open spec fn key_of(i: int, v: int) -> int {
    v * 0x1_0000_0000 + i
}

/// A list of slots that a slot map takes back: at least the sentinel and
/// fewer than `u32::MAX` slots, the sentinel at an even version, and every
/// slot occupied exactly when its version is odd.
pub open spec fn slots_acceptable(slots: Seq<(Option<()>, u32)>) -> bool {
    &&& 1 <= slots.len() < 0xffff_ffff
    &&& slots[0].1 % 2 == 0
    &&& forall|i: int| 0 <= i < slots.len() ==> (#[trigger] slots[i].0 is Some <==> slots[i].1 % 2 == 1)
}

/// `slots` lists, slot by slot, whether a slot map's slot is occupied and
/// its version, where the live keys are `keys` and the issued keys are
/// `issued`. Slot 0 is the slot map's sentinel: never occupied, never
/// issuing a key.
pub open spec fn slots_describe(slots: Seq<(Option<()>, u32)>, keys: Set<u64>, issued: Set<u64>) -> bool {
    &&& 1 <= slots.len()
    &&& forall|i: int| 1 <= i < slots.len() ==> (#[trigger] slots[i].0 is Some <==> slots[i].1 % 2 == 1)
    &&& forall|k: u64|
        #[trigger] keys.contains(k) <==> exists|i: int|
            1 <= i < slots.len() && #[trigger] slots[i].0 is Some && k == key_of(i, slots[i].1 as int)
    &&& forall|k: u64|
        #[trigger] issued.contains(k) <==> exists|i: int, v: int|
            1 <= i < slots.len() && 1 <= v <= slots[i].1 && v % 2 == 1 && k == #[trigger] key_of(i, v)
}

/// `SlotMap`'s serde form, read back as plain values: `bincode` writes the
/// slot map as its slots in order, each as whether it holds a value and
/// its version, and reads those back as pairs. With no size limit set,
/// writing a sequence of such records cannot fail, and reading it back as
/// pairs of the same layout succeeds. The list has one pair per slot and
/// describes the allocator's live and issued keys; its first pair is the
/// sentinel, vacant at version 0, which nothing ever changes.
#[verifier::external_body]
pub(crate) fn slots_dump(s: &KeySlots) -> (r: Option<Vec<(Option<()>, u32)>>)
    ensures
        r is Some,
        r matches Some(v) ==> {
            &&& v@.len() == slot_span(*s)
            &&& slots_describe(v@, slot_keys(*s), slot_issued(*s))
            &&& v@[0] == (None::<()>, 0u32)
        },
{
    bincode::serialize(&s.map).ok().and_then(|bytes| bincode::deserialize(&bytes).ok())
}

/// `SlotMap`'s serde deserialization from plain values: `bincode` writes
/// the pairs and reads them back as a slot map, which keeps each slot's
/// version and occupation and rebuilds the free list from the vacant
/// slots. It refuses exactly a list that is empty, that has `u32::MAX`
/// slots or more, whose first slot has an odd version, or with a slot whose
/// occupation disagrees with the parity of its version. A slot map it
/// returns has one slot per pair and is described by the list.
#[verifier::external_body]
pub(crate) fn slots_restore(slots: &Vec<(Option<()>, u32)>) -> (r: Option<KeySlots>)
    ensures
        r is Some <==> slots_acceptable(slots@),
        r matches Some(m) ==> slot_span(m) == slots@.len() && slots_describe(slots@, slot_keys(m), slot_issued(m)),
{
    bincode::serialize(slots).ok().and_then(|bytes| bincode::deserialize(&bytes).ok()).map(|map| KeySlots { map })
}

} // verus!
