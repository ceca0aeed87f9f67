//! The inline vectors of the `smallvec` crate that corridors use: the pair
//! list (one pair inline) and the flags of used tracks (sixteen inline).
//! Verus cannot declare `SmallVec` itself (its parameter is bounded by an
//! outside trait), so each is held in a struct of this module, out of
//! Verus's sight, and described by a name for its contents.
use vstd::prelude::*;
use crate::corridor::VertexPair;
use smallvec::SmallVec;

verus! {

/// A list of pairs, stored inline while it holds at most one.
#[verifier::external_body]
pub struct PairList {
    items: SmallVec<[VertexPair; 1]>,
}

/// Flags of used tracks, stored inline up to sixteen tracks.
#[verifier::external_body]
pub struct TrackFlags {
    flags: SmallVec<[bool; 16]>,
}

/// The pairs of a list, in order.
pub uninterp spec fn pair_items(l: PairList) -> Seq<VertexPair>;

/// The flags, in order of track.
pub uninterp spec fn flag_items(f: TrackFlags) -> Seq<bool>;

/// Relies on `SmallVec::new`: an empty vector.
#[verifier::external_body]
pub(crate) fn pair_list_new() -> (r: PairList)
    ensures
        pair_items(r) == Seq::<VertexPair>::empty(),
{
    PairList { items: SmallVec::new() }
}

/// Relies on `SmallVec::push`: appends the item.
#[verifier::external_body]
pub(crate) fn pair_list_push(l: &mut PairList, p: VertexPair)
    requires
        pair_items(*old(l)).len() < usize::MAX,
    ensures
        pair_items(*final(l)) == pair_items(*old(l)).push(p),
{
    l.items.push(p)
}

/// Relies on `SmallVec::insert`: puts the item at `index`, shifting the
/// later ones right; it panics when `index` exceeds the length.
#[verifier::external_body]
pub(crate) fn pair_list_insert(l: &mut PairList, index: usize, p: VertexPair)
    requires
        index <= pair_items(*old(l)).len() < usize::MAX,
    ensures
        pair_items(*final(l)) == pair_items(*old(l)).insert(index as int, p),
{
    l.items.insert(index, p)
}

/// Relies on `SmallVec::len`: the number of items.
#[verifier::external_body]
pub(crate) fn pair_list_len(l: &PairList) -> (r: usize)
    ensures
        r == pair_items(*l).len(),
{
    l.items.len()
}

/// Relies on indexing a `SmallVec`, which panics out of bounds.
#[verifier::external_body]
pub(crate) fn pair_list_get(l: &PairList, i: usize) -> (r: VertexPair)
    requires
        i < pair_items(*l).len(),
    ensures
        r == pair_items(*l)[i as int],
{
    l.items[i]
}

/// Relies on indexing a `SmallVec` mutably, which panics out of bounds.
#[verifier::external_body]
pub(crate) fn pair_list_set(l: &mut PairList, i: usize, p: VertexPair)
    requires
        i < pair_items(*old(l)).len(),
    ensures
        pair_items(*final(l)) == pair_items(*old(l)).update(i as int, p),
{
    l.items[i] = p;
}

/// Relies on `SmallVec::new`: an empty vector.
#[verifier::external_body]
pub(crate) fn track_flags_new() -> (r: TrackFlags)
    ensures
        flag_items(r) == Seq::<bool>::empty(),
{
    TrackFlags { flags: SmallVec::new() }
}

/// Relies on `SmallVec::clear`: removes every item.
#[verifier::external_body]
pub(crate) fn track_flags_clear(f: &mut TrackFlags)
    ensures
        flag_items(*final(f)) == Seq::<bool>::empty(),
{
    f.flags.clear()
}

/// Relies on `SmallVec::len`: the number of items.
#[verifier::external_body]
pub(crate) fn track_flags_len(f: &TrackFlags) -> (r: usize)
    ensures
        r == flag_items(*f).len(),
{
    f.flags.len()
}

/// Relies on `SmallVec::resize`: a longer length appends `false` up to it.
#[verifier::external_body]
pub(crate) fn track_flags_grow(f: &mut TrackFlags, len: usize)
    requires
        flag_items(*old(f)).len() <= len,
    ensures
        flag_items(*final(f)) == flag_items(*old(f)) + Seq::new((len - flag_items(*old(f)).len()) as nat, |i: int| false),
{
    f.flags.resize(len, false)
}

/// Relies on indexing a `SmallVec`, which panics out of bounds.
#[verifier::external_body]
pub(crate) fn track_flags_get(f: &TrackFlags, i: usize) -> (r: bool)
    requires
        i < flag_items(*f).len(),
    ensures
        r == flag_items(*f)[i as int],
{
    f.flags[i]
}

/// Relies on indexing a `SmallVec` mutably, which panics out of bounds.
#[verifier::external_body]
pub(crate) fn track_flags_set(f: &mut TrackFlags, i: usize)
    requires
        i < flag_items(*old(f)).len(),
    ensures
        flag_items(*final(f)) == flag_items(*old(f)).update(i as int, true),
{
    f.flags[i] = true;
}

} // verus!
