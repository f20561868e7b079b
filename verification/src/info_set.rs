//! Information sets: what a player knows at a decision point, and the text
//! key that stands for it.

use vstd::prelude::*;

use crate::game::{faces_in_range, legal_actions, legal_moves, Action};
use crate::text::{
    all_digits, decimal, digit_char, digits_end, is_digit, lemma_decimal, lemma_decimal_injective,
    parse_decimal, to_chars,
};

verus! {

/// The dice of `hand` written one after the other, each in decimal.
pub open spec fn hand_text(hand: Seq<u8>) -> Seq<char>
    decreases hand.len(),
{
    if hand.len() == 0 {
        Seq::empty()
    } else {
        hand_text(hand.drop_last()) + decimal(hand.last() as nat)
    }
}

/// A bid written as quantity, hyphen, face; the word `none` where there is no bid.
pub open spec fn bid_text(bid: Option<(u8, u8)>) -> Seq<char> {
    match bid {
        None => seq!['n', 'o', 'n', 'e'],
        Some((q, f)) => decimal(q as nat) + seq!['-'] + decimal(f as nat),
    }
}

/// The key of a decision point: the hand of the player to act, the
/// outstanding bid and the number of bids made so far, separated by `|`.
pub open spec fn key_text(hand: Seq<u8>, bid: Option<(u8, u8)>, bids_made: nat) -> Seq<char> {
    hand_text(hand) + seq!['|'] + bid_text(bid) + seq!['|'] + decimal(bids_made)
}

/// The mathematical model of an [`InformationSet`].
pub struct InformationSetView {
    pub hand: Seq<u8>,
    pub current_bid: Option<(u8, u8)>,
    pub bids_made: nat,
}

impl InformationSetView {
    /// The key that says what `self` holds.
    pub open spec fn key(self) -> Seq<char> {
        key_text(self.hand, self.current_bid, self.bids_made)
    }
}

/// What a key says.
#[derive(Clone, Debug, PartialEq, Eq)]
pub struct InformationSet {
    /// The dice of the player to act.
    pub hand: Vec<u8>,
    /// The outstanding bid as `(quantity, face)`.
    pub current_bid: Option<(u8, u8)>,
    /// How many bids were made so far.
    pub bids_made: usize,
}

impl View for InformationSet {
    type V = InformationSetView;

    open spec fn view(&self) -> InformationSetView {
        InformationSetView {
            hand: self.hand@,
            current_bid: self.current_bid,
            bids_made: self.bids_made as nat,
        }
    }
}

/// Whether `part` stands in `text` from `start` on.
pub open spec fn reads(text: Seq<char>, start: int, part: Seq<char>) -> bool {
    0 <= start && start + part.len() <= text.len() && text.subrange(
        start,
        start + part.len(),
    ) == part
}

/// Whether `c` is the digit of a face of a die.
pub open spec fn is_face_char(c: char) -> bool {
    '1' <= c <= '6'
}

impl InformationSet {
    /// The legal moves at this decision point when `total_dice` dice are on
    /// the table, in the order that numbers them.
    pub fn valid_actions(&self, total_dice: u8) -> (actions: Vec<Action>)
        ensures
            actions@ == legal_actions(total_dice as int, self@.current_bid),
    {
        legal_moves(total_dice, self.current_bid)
    }

    /// Reads a key. There is a result exactly where `key` is the key of some
    /// hand of rolled dice, some bid or none, and some number of bids made;
    /// the result then holds these.
    pub fn parse(key: &str) -> (parsed: Option<InformationSet>)
        ensures
            match parsed {
                Some(info) => faces_in_range(info@.hand) && key@ == info@.key(),
                None => forall|hand: Seq<u8>, bid: Option<(u8, u8)>, bids_made: nat|
                    faces_in_range(hand) && bids_made <= usize::MAX ==> key@ != #[trigger] key_text(
                        hand,
                        bid,
                        bids_made,
                    ),
            },
    {
        let chars = to_chars(key);
        let ghost text = key@;
        let ghost valid = exists|hand: Seq<u8>, bid: Option<(u8, u8)>, bids_made: nat|
            faces_in_range(hand) && bids_made <= usize::MAX && text == #[trigger] key_text(
                hand,
                bid,
                bids_made,
            );
        let ghost (w_hand, w_bid, w_made) = choose|
            hand: Seq<u8>,
            bid: Option<(u8, u8)>,
            bids_made: nat,
        |
            faces_in_range(hand) && bids_made <= usize::MAX && text == #[trigger] key_text(
                hand,
                bid,
                bids_made,
            );
        proof {
            if valid {
                lemma_key_parts(w_hand, w_bid, w_made);
            }
        }
        let len = chars.len();
        let (hand, hand_end) = scan_hand(&chars);
        proof {
            if valid {
                lemma_hand_end(text, w_hand, hand@);
            }
        }
        if hand_end >= len || chars[hand_end] != '|' {
            return None;
        }
        proof {
            lemma_hand_text(hand@);
            lemma_reads_char(text, hand_end as int);
            lemma_reads_join(text, 0, hand_text(hand@), seq!['|']);
            if valid {
                lemma_hand_unique(text, w_hand, hand@);
            }
        }
        let bid_start = hand_end + 1;
        let (bid, bid_end) = match scan_bid(&chars, bid_start) {
            Some(found) => found,
            None => {
                return None;
            },
        };
        if bid_end >= len || chars[bid_end] != '|' {
            proof {
                if valid {
                    lemma_reads_split(text, bid_start as int, bid_text(w_bid), seq!['|']);
                }
            }
            return None;
        }
        let made_start = bid_end + 1;
        let bids_made = match scan_count(&chars, made_start) {
            Some(n) => n,
            None => {
                return None;
            },
        };
        proof {
            lemma_reads_char(text, bid_end as int);
            lemma_reads_join(text, bid_start as int, bid_text(bid), seq!['|']);
            lemma_parts_key(text, hand@, bid, bids_made as nat);
        }
        Some(InformationSet { hand, current_bid: bid, bids_made })
    }
}

/// Reads the dice of a hand from the start of `chars`, as far as they go.
fn scan_hand(chars: &Vec<char>) -> (found: (Vec<u8>, usize))
    ensures
        faces_in_range(found.0@),
        found.1 == found.0@.len(),
        reads(chars@, 0, hand_text(found.0@)),
        found.1 < chars@.len() ==> !is_face_char(chars@[found.1 as int]),
{
    let mut hand: Vec<u8> = Vec::new();
    let mut i: usize = 0;
    while i < chars.len() && '1' <= chars[i] && chars[i] <= '6'
        invariant
            i <= chars@.len(),
            hand@.len() == i,
            faces_in_range(hand@),
            forall|k: int| 0 <= k < i ==> chars@[k] == digit_char(#[trigger] hand@[k] as int),
        decreases chars@.len() - i,
    {
        hand.push((chars[i] as u32 - 48) as u8);
        i = i + 1;
    }
    proof {
        lemma_hand_text(hand@);
        assert(hand_text(hand@) =~= chars@.subrange(0, i as int));
    }
    (hand, i)
}

/// Reads a bid, or the word that stands for none, from `start` on.
fn scan_bid(chars: &Vec<char>, start: usize) -> (found: Option<(Option<(u8, u8)>, usize)>)
    requires
        start <= chars@.len(),
    ensures
        match found {
            Some((bid, end)) => {
                &&& reads(chars@, start as int, bid_text(bid))
                &&& end == start + bid_text(bid).len()
                &&& forall|other: Option<(u8, u8)>|
                    reads(chars@, start as int, #[trigger] bid_text(other) + seq!['|']) ==> other
                        == bid
            },
            None => forall|other: Option<(u8, u8)>|
                !reads(chars@, start as int, #[trigger] bid_text(other) + seq!['|']),
        },
{
    let ghost text = chars@;
    let ghost valid = exists|other: Option<(u8, u8)>|
        reads(text, start as int, #[trigger] bid_text(other) + seq!['|']);
    let ghost witness = choose|other: Option<(u8, u8)>|
        reads(text, start as int, #[trigger] bid_text(other) + seq!['|']);
    proof {
        assert forall|other: Option<(u8, u8)>|
            reads(text, start as int, #[trigger] bid_text(other) + seq!['|']) implies other
            == witness by {
            lemma_bid_unique(text, start as int, other, witness);
        }
        if valid {
            lemma_bid_parts(text, start as int, witness);
        }
    }
    let len = chars.len();
    if start < len && chars[start] == 'n' {
        if len - start < 4 || chars[start + 1] != 'o' || chars[start + 2] != 'n' || chars[start
            + 3] != 'e' {
            return None;
        }
        assert(text.subrange(start as int, start + 4) =~= bid_text(None));
        return Some((None, start + 4));
    }
    let q_end = digits_end(chars, start);
    proof {
        if valid {
            let q = witness->Some_0.0;
            lemma_digit_run(text, start as int, q_end as int, start + decimal(q as nat).len());
        }
    }
    let q = match parse_decimal(chars, start, q_end) {
        Some(q) => q,
        None => {
            return None;
        },
    };
    proof {
        if valid {
            lemma_decimal_injective(q as nat, witness->Some_0.0 as nat);
        }
    }
    if q > 255 || q_end >= len || chars[q_end] != '-' {
        return None;
    }
    let f_start = q_end + 1;
    let f_end = digits_end(chars, f_start);
    proof {
        if valid {
            let f = witness->Some_0.1;
            lemma_digit_run(text, f_start as int, f_end as int, f_start + decimal(f as nat).len());
        }
    }
    let f = match parse_decimal(chars, f_start, f_end) {
        Some(f) => f,
        None => {
            return None;
        },
    };
    proof {
        if valid {
            lemma_decimal_injective(f as nat, witness->Some_0.1 as nat);
        }
    }
    if f > 255 {
        return None;
    }
    let bid = Some((q as u8, f as u8));
    assert(text.subrange(start as int, f_end as int) =~= bid_text(bid));
    Some((bid, f_end))
}

/// Reads the number that the rest of `chars` writes from `start` on.
fn scan_count(chars: &Vec<char>, start: usize) -> (count: Option<usize>)
    requires
        start <= chars@.len(),
    ensures
        match count {
            Some(n) => chars@.subrange(start as int, chars@.len() as int) == decimal(n as nat),
            None => forall|n: nat|
                n <= usize::MAX ==> chars@.subrange(start as int, chars@.len() as int)
                    != #[trigger] decimal(n),
        },
{
    let end = digits_end(chars, start);
    if end != chars.len() {
        proof {
            let rest = chars@.subrange(start as int, chars@.len() as int);
            assert forall|n: nat| rest != #[trigger] decimal(n) by {
                lemma_decimal(n);
                assert(rest[end - start] == chars@[end as int]);
            }
        }
        return None;
    }
    parse_decimal(chars, start, end)
}

/// The character at `at` stands at `at`.
pub proof fn lemma_reads_char(text: Seq<char>, at: int)
    requires
        0 <= at < text.len(),
    ensures
        reads(text, at, seq![text[at]]),
{
    assert(text.subrange(at, at + 1) =~= seq![text[at]]);
}

/// What stands from `start` on, part by part, stands there as a whole.
pub proof fn lemma_reads_join(text: Seq<char>, start: int, first: Seq<char>, second: Seq<char>)
    requires
        reads(text, start, first),
        reads(text, start + first.len(), second),
    ensures
        reads(text, start, first + second),
{
    assert(text.subrange(start, start + first.len() + second.len()) =~= first + second) by {
        assert forall|i: int| 0 <= i < first.len() + second.len() implies text[start + i] == (first
            + second)[i] by {
            if i < first.len() {
                assert(text.subrange(start, start + first.len())[i] == first[i]);
            } else {
                assert(text.subrange(
                    start + first.len(),
                    start + first.len() + second.len(),
                )[i - first.len()] == second[i - first.len()]);
            }
        }
    }
}

/// What stands from `start` on as a whole stands there part by part.
pub proof fn lemma_reads_split(text: Seq<char>, start: int, first: Seq<char>, second: Seq<char>)
    requires
        reads(text, start, first + second),
    ensures
        reads(text, start, first),
        reads(text, start + first.len(), second),
{
    let whole = text.subrange(start, start + first.len() + second.len());
    assert(text.subrange(start, start + first.len()) =~= whole.subrange(0, first.len() as int));
    assert(whole.subrange(0, first.len() as int) =~= first);
    assert(text.subrange(start + first.len(), start + first.len() + second.len())
        =~= whole.subrange(first.len() as int, whole.len() as int));
    assert(whole.subrange(first.len() as int, whole.len() as int) =~= second);
}

/// The text of a hand of rolled dice has one digit for each die.
pub proof fn lemma_hand_text(hand: Seq<u8>)
    requires
        faces_in_range(hand),
    ensures
        hand_text(hand).len() == hand.len(),
        forall|i: int|
            0 <= i < hand.len() ==> #[trigger] hand_text(hand)[i] == digit_char(hand[i] as int),
        forall|i: int| 0 <= i < hand.len() ==> is_face_char(#[trigger] hand_text(hand)[i]),
    decreases hand.len(),
{
    if hand.len() > 0 {
        let front = hand.drop_last();
        assert(faces_in_range(front)) by {
            assert forall|i: int| 0 <= i < front.len() implies 1 <= #[trigger] front[i] <= 6 by {
                assert(front[i] == hand[i]);
            }
        }
        lemma_hand_text(front);
        assert(1 <= hand[hand.len() - 1] <= 6);
        assert(decimal(hand.last() as nat) =~= seq![digit_char(hand.last() as int)]);
    }
}

/// A hand that stands at the start of `text` before a `|` has as many dice
/// as the longest hand that stands there.
proof fn lemma_hand_end(text: Seq<char>, hand: Seq<u8>, longest: Seq<u8>)
    requires
        faces_in_range(hand),
        faces_in_range(longest),
        reads(text, 0, hand_text(hand) + seq!['|']),
        reads(text, 0, hand_text(longest)),
        longest.len() < text.len() ==> !is_face_char(text[longest.len() as int]),
    ensures
        hand.len() == longest.len(),
        text[longest.len() as int] == '|',
{
    lemma_hand_text(hand);
    lemma_hand_text(longest);
    lemma_reads_split(text, 0, hand_text(hand), seq!['|']);
    let a = hand.len() as int;
    let b = longest.len() as int;
    assert(text.subrange(a, a + 1)[0] == '|');
    if a < b {
        assert(text.subrange(0, b)[a] == hand_text(longest)[a]);
    } else if b < a {
        assert(text.subrange(0, a)[b] == hand_text(hand)[b]);
    }
}

/// Only one hand of rolled dice stands at the start of a text before a `|`.
pub proof fn lemma_hand_unique(text: Seq<char>, hand: Seq<u8>, other: Seq<u8>)
    requires
        faces_in_range(hand),
        faces_in_range(other),
        reads(text, 0, hand_text(hand) + seq!['|']),
        reads(text, 0, hand_text(other) + seq!['|']),
    ensures
        hand == other,
{
    lemma_reads_split(text, 0, hand_text(other), seq!['|']);
    lemma_hand_text(other);
    let b = other.len() as int;
    assert(text.subrange(b, b + 1)[0] == '|');
    lemma_hand_end(text, hand, other);
    lemma_hand_text(hand);
    lemma_reads_split(text, 0, hand_text(hand), seq!['|']);
    assert forall|i: int| 0 <= i < hand.len() implies hand[i] == other[i] by {
        assert(text.subrange(0, b)[i] == hand_text(hand)[i]);
        assert(text.subrange(0, b)[i] == hand_text(other)[i]);
    }
    assert(hand =~= other);
}

/// Where the parts of a bid stand when the bid stands at `start` before a `|`.
proof fn lemma_bid_parts(text: Seq<char>, start: int, bid: Option<(u8, u8)>)
    requires
        reads(text, start, bid_text(bid) + seq!['|']),
    ensures
        match bid {
            None => {
                &&& start + 4 < text.len()
                &&& text[start] == 'n'
                &&& text[start + 1] == 'o'
                &&& text[start + 2] == 'n'
                &&& text[start + 3] == 'e'
            },
            Some((q, f)) => {
                let q_end = start + decimal(q as nat).len();
                let f_end = q_end + 1 + decimal(f as nat).len();
                &&& f_end < text.len()
                &&& is_digit(text[start])
                &&& reads(text, start, decimal(q as nat))
                &&& text[q_end] == '-'
                &&& reads(text, q_end + 1, decimal(f as nat))
                &&& text[f_end] == '|'
                &&& all_digits(text.subrange(start, q_end))
                &&& all_digits(text.subrange(q_end + 1, f_end))
            },
        },
{
    let whole = bid_text(bid) + seq!['|'];
    let there = text.subrange(start, start + whole.len());
    match bid {
        None => {
            assert(there[0] == 'n' && there[1] == 'o' && there[2] == 'n' && there[3] == 'e');
        },
        Some((q, f)) => {
            let dq = decimal(q as nat);
            let df = decimal(f as nat);
            lemma_decimal(q as nat);
            lemma_decimal(f as nat);
            lemma_reads_split(text, start, bid_text(bid), seq!['|']);
            lemma_reads_split(text, start, dq + seq!['-'], df);
            lemma_reads_split(text, start, dq, seq!['-']);
            let q_end = start + dq.len();
            let f_end = q_end + 1 + df.len();
            assert(text.subrange(q_end, q_end + 1)[0] == '-');
            assert(text.subrange(f_end, f_end + 1)[0] == '|');
            assert(text.subrange(start, q_end)[0] == dq[0]);
        },
    }
}

/// Only one bid, or none, stands at `start` before a `|`.
pub proof fn lemma_bid_unique(
    text: Seq<char>,
    start: int,
    bid: Option<(u8, u8)>,
    other: Option<(u8, u8)>,
)
    requires
        reads(text, start, bid_text(bid) + seq!['|']),
        reads(text, start, bid_text(other) + seq!['|']),
    ensures
        bid == other,
{
    lemma_bid_parts(text, start, bid);
    lemma_bid_parts(text, start, other);
    match (bid, other) {
        (Some((q1, f1)), Some((q2, f2))) => {
            let q_end1 = start + decimal(q1 as nat).len();
            let q_end2 = start + decimal(q2 as nat).len();
            lemma_digit_run(text, start, q_end1, q_end2);
            lemma_decimal_injective(q1 as nat, q2 as nat);
            let f_end1 = q_end1 + 1 + decimal(f1 as nat).len();
            let f_end2 = q_end1 + 1 + decimal(f2 as nat).len();
            lemma_digit_run(text, q_end1 + 1, f_end1, f_end2);
            lemma_decimal_injective(f1 as nat, f2 as nat);
        },
        _ => {},
    }
}

/// A run of digits that starts at `start` and cannot be made longer ends at
/// one place only.
pub proof fn lemma_digit_run(s: Seq<char>, start: int, end1: int, end2: int)
    requires
        0 <= start <= end1 <= s.len(),
        start <= end2 <= s.len(),
        all_digits(s.subrange(start, end1)),
        all_digits(s.subrange(start, end2)),
        end1 < s.len() ==> !is_digit(s[end1]),
        end2 < s.len() ==> !is_digit(s[end2]),
    ensures
        end1 == end2,
{
    if end1 < end2 {
        assert(s.subrange(start, end2)[end1 - start] == s[end1]);
    } else if end2 < end1 {
        assert(s.subrange(start, end1)[end2 - start] == s[end2]);
    }
}

/// Where the parts of a key stand in it.
pub proof fn lemma_key_parts(hand: Seq<u8>, bid: Option<(u8, u8)>, bids_made: nat)
    requires
        faces_in_range(hand),
    ensures
        ({
            let key = key_text(hand, bid, bids_made);
            let bid_start = hand.len() as int + 1;
            let made_start = bid_start + bid_text(bid).len() + 1;
            &&& hand_text(hand).len() == hand.len()
            &&& reads(key, 0, hand_text(hand) + seq!['|'])
            &&& reads(key, bid_start, bid_text(bid) + seq!['|'])
            &&& made_start <= key.len()
            &&& key.subrange(made_start, key.len() as int) == decimal(bids_made)
        }),
{
    let key = key_text(hand, bid, bids_made);
    lemma_hand_text(hand);
    let head = hand_text(hand) + seq!['|'];
    let middle = bid_text(bid) + seq!['|'];
    assert(key =~= head + middle + decimal(bids_made));
    assert(key.subrange(0, head.len() as int) =~= head);
    let middle_end = head.len() as int + middle.len();
    assert(key.subrange(head.len() as int, middle_end) =~= middle);
    assert(key.subrange(middle_end, key.len() as int) =~= decimal(bids_made));
}

/// A text in which the parts of a key stand in their places is that key.
pub proof fn lemma_parts_key(text: Seq<char>, hand: Seq<u8>, bid: Option<(u8, u8)>, bids_made: nat)
    requires
        faces_in_range(hand),
        reads(text, 0, hand_text(hand) + seq!['|']),
        reads(text, hand.len() as int + 1, bid_text(bid) + seq!['|']),
        hand.len() + bid_text(bid).len() + 2 <= text.len(),
        text.subrange(hand.len() as int + bid_text(bid).len() + 2, text.len() as int) == decimal(
            bids_made,
        ),
    ensures
        text == key_text(hand, bid, bids_made),
{
    lemma_hand_text(hand);
    let head = hand_text(hand) + seq!['|'];
    let middle = bid_text(bid) + seq!['|'];
    let tail = decimal(bids_made);
    let middle_end = head.len() as int + middle.len();
    assert(text =~= text.subrange(0, head.len() as int) + text.subrange(
        head.len() as int,
        middle_end,
    ) + text.subrange(middle_end, text.len() as int));
    assert(key_text(hand, bid, bids_made) =~= head + middle + tail);
}

/// A key says one thing only: two hands of rolled dice, bids and counts with
/// the same key are the same.
pub proof fn lemma_key_text_injective(
    hand: Seq<u8>,
    bid: Option<(u8, u8)>,
    bids_made: nat,
    other_hand: Seq<u8>,
    other_bid: Option<(u8, u8)>,
    other_made: nat,
)
    requires
        faces_in_range(hand),
        faces_in_range(other_hand),
        key_text(hand, bid, bids_made) == key_text(other_hand, other_bid, other_made),
    ensures
        hand == other_hand,
        bid == other_bid,
        bids_made == other_made,
{
    let key = key_text(hand, bid, bids_made);
    lemma_key_parts(hand, bid, bids_made);
    lemma_key_parts(other_hand, other_bid, other_made);
    lemma_hand_unique(key, hand, other_hand);
    lemma_bid_unique(key, hand.len() as int + 1, bid, other_bid);
    lemma_decimal_injective(bids_made, other_made);
}

} // verus!
