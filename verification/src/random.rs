//! The random draws of level generation, made by an `Isaac64Rng`.
//!
//! Verus does not look inside the generator. The functions here say what
//! holds of each draw whatever the generator's state, and are believed, not
//! proved.

use crate::rooms::Room;
use rand::seq::SliceRandom;
use rand::Rng;
use rand_isaac::Isaac64Rng;
use vstd::prelude::*;

verus! {

/// `rand_isaac::Isaac64Rng`, of which the verifier knows the name only.
#[verifier::external_type_specification]
#[verifier::external_body]
pub struct ExIsaac64Rng(rand_isaac::Isaac64Rng);

/// Whether `chosen` holds the items of `from` at `positions`, no position
/// taken twice.
pub open spec fn is_selection_at(chosen: Seq<Room>, from: Seq<Room>, positions: Seq<int>) -> bool {
    &&& positions.len() == chosen.len()
    &&& forall|i: int|
        0 <= i < chosen.len() ==> 0 <= #[trigger] positions[i] < from.len() && chosen[i]
            == from[positions[i]]
    &&& forall|i: int, j: int|
        0 <= i < j < chosen.len() ==> #[trigger] positions[i] != #[trigger] positions[j]
}

/// Whether `chosen` holds items of `from` taken from distinct positions.
pub open spec fn is_selection(chosen: Seq<Room>, from: Seq<Room>) -> bool {
    exists|positions: Seq<int>| is_selection_at(chosen, from, positions)
}

/// `Rng::gen_range` on the range `low..high`, which must not be empty: a
/// number of that range.
#[verifier::external_body]
pub(crate) fn gen_range(rng: &mut Isaac64Rng, low: u32, high: u32) -> (value: u32)
    requires
        low < high,
    ensures
        low <= value < high,
{
    rng.gen_range(low..high)
}

/// `Rng::gen` for `bool`: either value.
#[verifier::external_body]
pub(crate) fn gen_bool(rng: &mut Isaac64Rng) -> (flag: bool) {
    rng.gen::<bool>()
}

/// `SliceRandom::choose_multiple`: `amount` of the rooms, or all of them if
/// there are fewer, from distinct positions and in any order.
#[verifier::external_body]
pub(crate) fn choose_rooms(rooms: &Vec<Room>, rng: &mut Isaac64Rng, amount: usize) -> (chosen:
    Vec<Room>)
    ensures
        chosen.len() == if amount <= rooms.len() {
            amount
        } else {
            rooms.len()
        },
        is_selection(chosen@, rooms@),
{
    rooms.choose_multiple(rng, amount).copied().collect()
}

/// `SliceRandom::choose`: one of the rooms, or none if there is none.
#[verifier::external_body]
pub(crate) fn choose_room(rooms: &Vec<Room>, rng: &mut Isaac64Rng) -> (chosen: Option<Room>)
    ensures
        chosen is None <==> rooms.len() == 0,
        chosen is Some ==> rooms@.contains(chosen->0),
{
    rooms.choose(rng).copied()
}

} // verus!
