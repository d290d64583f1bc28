//! Fixed-capacity strings: a fragment is a `str8`, a candidate word a `str32`.
//!
//! Both are opaque here. What they hold is named, as a sequence of bytes,
//! and the few operations that the search needs are given contracts over
//! those names.

use fixedstr::{str32, str8, tstr};
use vstd::prelude::*;

verus! {

/// The most bytes that a fragment holds.
pub const FRAGMENT_CAPACITY: usize = 7;

/// The most bytes that a candidate word holds.
pub const WORD_CAPACITY: usize = 31;

#[verifier::external_type_specification]
#[verifier::external_body]
pub struct ExTstr<const N: usize>(tstr<N>);

/// The bytes that a fragment holds.
pub uninterp spec fn fragment_bytes(s: str8) -> Seq<u8>;

/// The bytes that a candidate word holds.
pub uninterp spec fn word_bytes(s: str32) -> Seq<u8>;

/// The bytes that a fragment adds to a word: its own, or none where it
/// announces more bytes than a fragment has room for.
pub open spec fn fragment_text(fragment: str8) -> Seq<u8> {
    if fragment_bytes(fragment).len() <= FRAGMENT_CAPACITY {
        fragment_bytes(fragment)
    } else {
        Seq::empty()
    }
}

/// What each fragment of a puzzle adds to a word, in grid order.
pub open spec fn puzzle_bytes(fragments: [str8; 20]) -> Seq<Seq<u8>> {
    Seq::new(20, |i: int| fragment_text(fragments[i]))
}

/// The bytes that `path` spells on `puzzle`: those of its fragments, one
/// after the other.
pub open spec fn spelled(puzzle: Seq<Seq<u8>>, path: Seq<int>) -> Seq<u8>
    decreases path.len(),
{
    if path.len() == 0 {
        Seq::empty()
    } else {
        spelled(puzzle, path.drop_last()) + puzzle[path.last()]
    }
}

/// `tstr::new`: a word that holds no byte.
#[verifier::external_body]
pub(crate) fn empty_word() -> (word: str32)
    ensures
        word_bytes(word) == Seq::<u8>::empty(),
{
    str32::new()
}

/// `tstr::len`: how many bytes the fragment announces, which is what its
/// length byte says. A `str8` has room for seven, but nothing here claims
/// that the length byte keeps to that.
#[verifier::external_body]
pub(crate) fn fragment_len(fragment: &str8) -> (n: usize)
    ensures
        n == fragment_bytes(*fragment).len(),
{
    fragment.len()
}

/// `tstr::push`: the bytes of the fragment go behind those of the word.
/// Only called with a fragment that keeps to its room, and where the bytes
/// fit, so nothing is read past the fragment and nothing is cut off.
#[verifier::external_body]
pub(crate) fn push_fragment(word: &mut str32, fragment: &str8)
    requires
        fragment_bytes(*fragment).len() <= FRAGMENT_CAPACITY,
        word_bytes(*old(word)).len() + fragment_bytes(*fragment).len() <= WORD_CAPACITY,
    ensures
        word_bytes(*final(word)) == word_bytes(*old(word)) + fragment_bytes(*fragment),
{
    word.push(fragment);
}

/// `tstr::as_bytes`: the bytes that the word holds. Only called with a
/// word that keeps to its room.
#[verifier::external_body]
pub(crate) fn word_as_bytes(word: &str32) -> (bytes: &[u8])
    requires
        word_bytes(*word).len() <= WORD_CAPACITY,
    ensures
        bytes@ == word_bytes(*word),
{
    word.as_bytes()
}

/// What a path spells starts with what each shorter path that it extends
/// spells.
pub proof fn lemma_spelled_prefix(puzzle: Seq<Seq<u8>>, shorter: Seq<int>, longer: Seq<int>)
    requires
        shorter.len() <= longer.len(),
        forall|i: int| 0 <= i < shorter.len() ==> longer[i] == shorter[i],
    ensures
        spelled(puzzle, shorter).is_prefix_of(spelled(puzzle, longer)),
    decreases longer.len(),
{
    if shorter.len() == longer.len() {
        assert(shorter =~= longer);
    } else {
        lemma_spelled_prefix(puzzle, shorter, longer.drop_last());
    }
}

} // verus!
