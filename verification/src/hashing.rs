//! Hash maps and sets with a fast hasher.
//!
//! The collections are those of the standard library, with the hasher of the
//! `rustc_hash` crate. Their keys are numbers, truth values, and lists and tuples of
//! them, which are equal, and hash alike, exactly when their contents are equal.

use rustc_hash::{FxHashMap, FxHashSet};
use vstd::prelude::*;

use crate::character_set::{CharRange, CharacterSet};

verus! {

/// `rustc_hash::FxBuildHasher`, which makes the hashers.
#[verifier::external_type_specification]
#[verifier::external_body]
pub struct ExFxBuildHasher(rustc_hash::FxBuildHasher);

/// Numbers, by a list of numbers and a flag.
pub type StateIdMap = FxHashMap<(Vec<u32>, bool), u32>;

/// What a `StateIdMap` holds.
pub uninterp spec fn state_ids(m: StateIdMap) -> Map<(Seq<u32>, bool), u32>;

/// `FxHashMap::default`: the map is empty.
#[verifier::external_body]
pub(crate) fn new_state_ids() -> (m: StateIdMap)
    ensures
        state_ids(m) == (Map::<(Seq<u32>, bool), u32>::empty()),
{
    FxHashMap::default()
}

/// `HashMap::get`, copying what was found: the number under the key, if there is one.
#[verifier::external_body]
pub(crate) fn get_state_id(m: &StateIdMap, key: &(Vec<u32>, bool)) -> (r: Option<u32>)
    ensures
        r == (if state_ids(*m).contains_key((key.0@, key.1)) {
            Some(state_ids(*m)[(key.0@, key.1)])
        } else {
            None
        }),
{
    m.get(key).copied()
}

/// `HashMap::insert`: the number is put under the key, in place of what was there.
#[verifier::external_body]
pub(crate) fn insert_state_id(m: &mut StateIdMap, key: (Vec<u32>, bool), id: u32)
    ensures
        state_ids(*final(m)) == state_ids(*old(m)).insert((key.0@, key.1), id),
{
    m.insert(key, id);
}

/// `HashMap::clear`: the map is empty afterwards.
#[verifier::external_body]
pub(crate) fn clear_state_ids(m: &mut StateIdMap)
    ensures
        state_ids(*final(m)) == (Map::<(Seq<u32>, bool), u32>::empty()),
{
    m.clear();
}

/// A set of pairs of lists of numbers.
pub type PairSet = FxHashSet<(Vec<u32>, Vec<u32>)>;

/// What a `PairSet` holds.
pub uninterp spec fn pairs_in(s: PairSet) -> Set<(Seq<u32>, Seq<u32>)>;

/// `FxHashSet::default`: the set is empty.
#[verifier::external_body]
pub(crate) fn new_pair_set() -> (s: PairSet)
    ensures
        pairs_in(s) == (Set::<(Seq<u32>, Seq<u32>)>::empty()),
{
    FxHashSet::default()
}

/// `HashSet::insert`: the pair is in the set afterwards; the result says whether it was
/// not there before.
#[verifier::external_body]
pub(crate) fn insert_pair(s: &mut PairSet, pair: (Vec<u32>, Vec<u32>)) -> (added: bool)
    ensures
        pairs_in(*final(s)) == pairs_in(*old(s)).insert((pair.0@, pair.1@)),
        added == !pairs_in(*old(s)).contains((pair.0@, pair.1@)),
{
    s.insert(pair)
}

/// A set of pairs of numbers.
pub type NumberPairSet = FxHashSet<(u32, u32)>;

/// What a `NumberPairSet` holds.
pub uninterp spec fn number_pairs_in(s: NumberPairSet) -> Set<(u32, u32)>;

/// `FxHashSet::default`: the set is empty.
#[verifier::external_body]
pub(crate) fn new_number_pair_set() -> (s: NumberPairSet)
    ensures
        number_pairs_in(s) == (Set::<(u32, u32)>::empty()),
{
    FxHashSet::default()
}

/// `HashSet::insert`: the pair is in the set afterwards; the result says whether it was
/// not there before.
#[verifier::external_body]
pub(crate) fn insert_number_pair(s: &mut NumberPairSet, pair: (u32, u32)) -> (added: bool)
    ensures
        number_pairs_in(*final(s)) == number_pairs_in(*old(s)).insert(pair),
        added == !number_pairs_in(*old(s)).contains(pair),
{
    s.insert(pair)
}

/// Character sets, by number.
pub type CharacterSetMap = FxHashMap<usize, CharacterSet>;

/// What a `CharacterSetMap` holds.
pub uninterp spec fn character_sets_in(m: CharacterSetMap) -> Map<usize, Seq<CharRange>>;

/// `FxHashMap::default`: the map is empty.
#[verifier::external_body]
pub(crate) fn new_character_set_map() -> (m: CharacterSetMap)
    ensures
        character_sets_in(m) == (Map::<usize, Seq<CharRange>>::empty()),
{
    FxHashMap::default()
}

/// `HashMap::get`: the set under the number, if there is one.
#[verifier::external_body]
pub(crate) fn get_character_set(m: &CharacterSetMap, key: usize) -> (r: Option<&CharacterSet>)
    ensures
        r.is_some() == character_sets_in(*m).contains_key(key),
        r.is_some() ==> r.unwrap()@ == character_sets_in(*m)[key],
{
    m.get(&key)
}

/// `HashMap::insert`: the set is put under the number, in place of what was there.
#[verifier::external_body]
pub(crate) fn insert_character_set(m: &mut CharacterSetMap, key: usize, set: CharacterSet)
    ensures
        character_sets_in(*final(m)) == character_sets_in(*old(m)).insert(key, set@),
{
    m.insert(key, set);
}

/// Lists of numbers, by what the states that they are the numbers of have in common: a
/// flag, an optional pair of numbers, another flag, and a list of flagged lists of
/// pairs of numbers.
pub type SignatureMap = FxHashMap<SignatureKey, Vec<u32>>;

/// A key of a `SignatureMap`.
pub type SignatureKey = (bool, Option<(u32, u32)>, bool, Vec<(Vec<(u32, u32)>, bool)>);

/// The contents of a `SignatureKey`.
pub type Signature = (bool, Option<(u32, u32)>, bool, Seq<(Seq<(u32, u32)>, bool)>);

/// What a key stands for.
pub open spec fn signature_view(key: SignatureKey) -> Signature {
    (key.0, key.1, key.2, Seq::new(key.3@.len(), |i: int| (key.3@[i].0@, key.3@[i].1)))
}

/// What a `SignatureMap` holds.
pub uninterp spec fn lists_in(m: SignatureMap) -> Map<Signature, Seq<u32>>;

/// `FxHashMap::default`: the map is empty.
#[verifier::external_body]
pub(crate) fn new_signature_map() -> (m: SignatureMap)
    ensures
        lists_in(m) == (Map::<Signature, Seq<u32>>::empty()),
{
    FxHashMap::default()
}

/// `HashMap::remove`: the list under the key, if there is one, is taken out of the map
/// and returned.
#[verifier::external_body]
pub(crate) fn remove_list(m: &mut SignatureMap, key: &SignatureKey) -> (r: Option<Vec<u32>>)
    ensures
        lists_in(*final(m)) == lists_in(*old(m)).remove(signature_view(*key)),
        r.is_some() == lists_in(*old(m)).contains_key(signature_view(*key)),
        r.is_some() ==> r.unwrap()@ == lists_in(*old(m))[signature_view(*key)],
{
    m.remove(key)
}

/// `HashMap::insert`: the list is put under the key, in place of what was there.
#[verifier::external_body]
pub(crate) fn insert_list(m: &mut SignatureMap, key: SignatureKey, list: Vec<u32>)
    ensures
        lists_in(*final(m)) == lists_in(*old(m)).insert(signature_view(key), list@),
{
    m.insert(key, list);
}

/// The keys are those of the map, each once, and each list is the one under the key at
/// its place.
pub open spec fn is_walk(m: Map<Signature, Seq<u32>>, keys: Seq<Signature>, lists: Seq<Vec<u32>>) -> bool {
    &&& keys.len() == lists.len()
    &&& keys.no_duplicates()
    &&& forall|k: Signature| #[trigger] m.contains_key(k) <==> keys.contains(k)
    &&& forall|i: int| 0 <= i < lists.len() ==> (#[trigger] lists[i])@ == m[keys[i]]
}

/// `HashMap::into_values`, collected: the lists of all keys, in no particular order.
#[verifier::external_body]
pub(crate) fn into_lists(m: SignatureMap) -> (lists: Vec<Vec<u32>>)
    ensures
        exists|keys: Seq<Signature>| is_walk(lists_in(m), keys, lists@),
{
    m.into_values().collect()
}

} // verus!
