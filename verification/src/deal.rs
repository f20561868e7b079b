//! Dealing: rolling the dice of a hand and putting them in order.

use rand::rngs::ThreadRng;
use rand::Rng;
use vstd::prelude::*;
use vstd::relations::{sorted_by, total_ordering};
use vstd::seq_lib::*;

verus! {

/// `rand::rngs::ThreadRng`, the handle to a thread's generator; what it holds
/// stays hidden.
#[verifier::external_type_specification]
#[verifier::external_body]
pub struct ExThreadRng(rand::rngs::ThreadRng);

/// `rand::thread_rng`, the generator of the calling thread. Nothing is
/// claimed of it.
pub assume_specification[ rand::thread_rng ]() -> (rng: ThreadRng)
;

/// `Rng::gen_range` on an inclusive range of `u8`. Claimed: the value lies in
/// the range. Which value comes is left open.
#[verifier::external_body]
fn gen_range_inclusive(rng: &mut ThreadRng, low: u8, high: u8) -> (value: u8)
    requires
        low <= high,
    ensures
        low <= value <= high,
{
    rng.gen_range(low..=high)
}

/// The order of faces.
pub open spec fn face_leq() -> spec_fn(u8, u8) -> bool {
    |a: u8, b: u8| a <= b
}

/// `hand` with its dice in ascending order.
pub open spec fn in_order(hand: Seq<u8>) -> Seq<u8> {
    hand.sort_by(face_leq())
}

/// `in_order` keeps the dice and puts them in ascending order, and it is the
/// only arrangement of the hand that does.
pub proof fn lemma_in_order(hand: Seq<u8>)
    ensures
        in_order(hand).to_multiset() == hand.to_multiset(),
        in_order(hand).len() == hand.len(),
        sorted_by(in_order(hand), face_leq()),
        forall|other: Seq<u8>|
            sorted_by(other, face_leq()) && other.to_multiset() == hand.to_multiset() ==> other
                == in_order(hand),
{
    assert(total_ordering(face_leq()));
    hand.lemma_sort_by_ensures(face_leq());
    to_multiset_len(hand);
    to_multiset_len(in_order(hand));
    assert forall|other: Seq<u8>|
        sorted_by(other, face_leq()) && other.to_multiset() == hand.to_multiset() implies other
        == in_order(hand) by {
        lemma_sorted_unique(other, in_order(hand), face_leq());
    }
}

/// Rolls `count` dice.
pub(crate) fn roll_hand(rng: &mut ThreadRng, count: u8) -> (hand: Vec<u8>)
    ensures
        hand@.len() == count,
        forall|i: int| 0 <= i < hand@.len() ==> 1 <= #[trigger] hand@[i] <= 6,
{
    let mut hand: Vec<u8> = Vec::with_capacity(count as usize);
    let mut rolled: u8 = 0;
    while rolled < count
        invariant
            rolled <= count,
            hand@.len() == rolled,
            forall|i: int| 0 <= i < hand@.len() ==> 1 <= #[trigger] hand@[i] <= 6,
        decreases count - rolled,
    {
        let face = gen_range_inclusive(rng, 1, 6);
        hand.push(face);
        rolled = rolled + 1;
    }
    hand
}

/// Puts the dice of `hand` in ascending order.
pub fn sort_hand(hand: &Vec<u8>) -> (sorted: Vec<u8>)
    ensures
        sorted@ == in_order(hand@),
{
    let mut sorted: Vec<u8> = Vec::new();
    let mut i: usize = 0;
    assert(hand@.take(0) =~= sorted@);
    while i < hand.len()
        invariant
            i <= hand.len(),
            sorted_by(sorted@, face_leq()),
            sorted@.to_multiset() == hand@.take(i as int).to_multiset(),
        decreases hand.len() - i,
    {
        let die = hand[i];
        let mut at: usize = 0;
        while at < sorted.len() && sorted[at] <= die
            invariant
                at <= sorted.len(),
                forall|k: int| 0 <= k < at ==> sorted@[k] <= die,
            decreases sorted.len() - at,
        {
            at = at + 1;
        }
        let ghost before = sorted@;
        sorted.insert(at, die);
        proof {
            to_multiset_insert(before, at as int, die);
            assert(hand@.take(i + 1) =~= hand@.take(i as int).push(die));
            to_multiset_build(hand@.take(i as int), die);
            assert forall|a: int, b: int| 0 <= a < b < sorted@.len() implies #[trigger] face_leq()(
                sorted@[a],
                sorted@[b],
            ) by {
                if a != at && b != at {
                    let a0 = if a < at { a } else { a - 1 };
                    let b0 = if b < at { b } else { b - 1 };
                    assert(face_leq()(before[a0], before[b0]));
                } else if a == at {
                    assert(face_leq()(before[at as int], before[b - 1]));
                }
            }
        }
        i = i + 1;
    }
    proof {
        assert(hand@.take(i as int) =~= hand@);
        lemma_in_order(hand@);
    }
    sorted
}

} // verus!
