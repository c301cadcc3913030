//! Sets of seasons, held in a `fixedbitset::FixedBitSet`.
//!
//! Bit `i` of a set is the season whose identifier is `i`. What the
//! library knows of a bitset is the sequence of its bits, named below;
//! the specifications of the bitset's methods that the library calls are
//! stated over that sequence. A bitset stores its bits in whole blocks; the
//! bits of the last block past the length are kept clear by the methods
//! used here, but other methods of the crate can set them, and some methods
//! (`is_disjoint`, `ones`, `intersection`) read them. Those methods are
//! specified only for bitsets whose bits past the length are clear.
use fixedbitset::FixedBitSet;
use vstd::prelude::*;

verus! {

#[verifier::external_type_specification]
#[verifier::external_body]
pub struct ExFixedBitSet(FixedBitSet);

/// A set of seasons.
pub type Seasons = FixedBitSet;

/// The bits of a `FixedBitSet`, one per position below its length
/// (`FixedBitSet::len`); `true` where the bit is enabled.
pub uninterp spec fn season_bits(s: FixedBitSet) -> Seq<bool>;

/// No bit of the blocks that hold the bitset is set past its length.
pub uninterp spec fn no_bit_past_length(s: FixedBitSet) -> bool;

/// `len` bits, all enabled.
pub open spec fn all_enabled(len: nat) -> Seq<bool> {
    Seq::new(len, |i: int| true)
}

/// The season `sid` belongs to the set `s`.
pub open spec fn has_season(s: Seasons, sid: int) -> bool {
    0 <= sid < season_bits(s).len() && season_bits(s)[sid]
}

/// Some season belongs to both sets.
pub open spec fn share_season(a: Seasons, b: Seasons) -> bool {
    exists|sid: int| has_season(a, sid) && #[trigger] has_season(b, sid)
}

/// No season belongs to the set.
pub open spec fn no_season(s: Seasons) -> bool {
    forall|sid: int| !#[trigger] has_season(s, sid)
}

/// `FixedBitSet::with_capacity` makes a bitset of `bits` bits, all disabled.
pub assume_specification[ FixedBitSet::with_capacity ](bits: usize) -> (r: FixedBitSet)
    ensures
        season_bits(r) == Seq::new(bits as nat, |i: int| false),
        no_bit_past_length(r),
;

/// `FixedBitSet::len` is the number of bits of the set, enabled or not.
pub assume_specification[ FixedBitSet::len ](s: &FixedBitSet) -> (r: usize)
    ensures
        r == season_bits(*s).len(),
;

/// `FixedBitSet::contains` tells whether a bit is enabled; bits past the
/// length are disabled.
pub assume_specification[ FixedBitSet::contains ](s: &FixedBitSet, bit: usize) -> (r: bool)
    ensures
        r == has_season(*s, bit as int),
;

/// `FixedBitSet::set` enables or disables one bit below the length (it
/// panics on a bit past the length), and touches no other bit.
pub assume_specification[ FixedBitSet::set ](s: &mut FixedBitSet, bit: usize, enabled: bool)
    requires
        bit < season_bits(*old(s)).len(),
    ensures
        season_bits(*final(s)) == season_bits(*old(s)).update(bit as int, enabled),
        no_bit_past_length(*old(s)) ==> no_bit_past_length(*final(s)),
;

/// `FixedBitSet::is_disjoint` tells whether no bit is enabled in both sets;
/// it compares whole blocks, so this holds when no bit past the length of
/// either set is set.
pub assume_specification[ FixedBitSet::is_disjoint ](
    s: &FixedBitSet,
    other: &FixedBitSet,
) -> (r: bool)
    requires
        no_bit_past_length(*s),
        no_bit_past_length(*other),
    ensures
        r == !share_season(*s, *other),
;

/// The seasons that belong to both sets, in increasing order, through
/// `FixedBitSet::intersection`, which walks the enabled bits of `a` from the
/// lowest up and keeps those that `b` contains (as `a` is walked through
/// its blocks, no bit of `a` past its length may be set).
#[verifier::external_body]
pub fn shared_seasons(a: &Seasons, b: &Seasons) -> (r: Vec<usize>)
    requires
        no_bit_past_length(*a),
    ensures
        forall|i: int, j: int| 0 <= i < j < r@.len() ==> r@[i] < r@[j],
        forall|i: int|
            0 <= i < r@.len() ==> has_season(*a, #[trigger] r@[i] as int) && has_season(
                *b,
                r@[i] as int,
            ),
        forall|sid: int|
            has_season(*a, sid) && #[trigger] has_season(*b, sid) ==> r@.contains(sid as usize),
{
    a.intersection(b).collect()
}

/// Whether some season belongs to the set, through `FixedBitSet::ones`,
/// which walks the enabled bits of the blocks from the lowest up (no bit
/// past the length may be set).
#[verifier::external_body]
pub fn any_season(s: &Seasons) -> (r: bool)
    requires
        no_bit_past_length(*s),
    ensures
        r == !no_season(*s),
{
    s.ones().next().is_some()
}

/// Enables every bit of the set, through `FixedBitSet::insert_range(..)`,
/// which sets only bits below the length.
#[verifier::external_body]
pub fn insert_all_seasons(s: &mut Seasons)
    ensures
        season_bits(*final(s)) == all_enabled(season_bits(*old(s)).len()),
        no_bit_past_length(*old(s)) ==> no_bit_past_length(*final(s)),
{
    s.insert_range(..);
}

} // verus!
