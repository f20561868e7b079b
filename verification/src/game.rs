//! The game model: actions, states, legal moves and payoffs.

use vstd::prelude::*;
use vstd::seq_lib::*;
use vstd::string::*;

use crate::deal::{face_leq, in_order, lemma_in_order, roll_hand, sort_hand};
use crate::info_set::{bid_text, hand_text, key_text, lemma_key_text_injective};
use crate::text::append_decimal;

verus! {

/// Number of faces of a die; faces are numbered from 1.
pub const DICE_FACES: u8 = 6;

/// A move: claim that at least `quantity` dice show `face`, or call the last claim.
#[derive(Clone, Copy, Debug, PartialEq, Eq, Hash, Structural)]
pub enum Action {
    /// `Bid(quantity, face)`.
    Bid(u8, u8),
    Challenge,
}

/// How a move is written in a report: a bid as quantity, hyphen, face.
pub open spec fn action_text(action: Action) -> Seq<char> {
    match action {
        Action::Challenge => seq!['C', 'h', 'a', 'l', 'l', 'e', 'n', 'g', 'e'],
        Action::Bid(q, f) => bid_text(Some((q, f))),
    }
}

/// The text of `action` for a report.
pub fn action_to_str(action: &Action) -> (text: String)
    ensures
        text@ == action_text(*action),
{
    let mut text = String::new();
    match action {
        Action::Challenge => {
            proof {
                reveal_strlit("Challenge");
            }
            text.append("Challenge");
            assert(text@ =~= action_text(*action));
        },
        Action::Bid(q, f) => {
            proof {
                reveal_strlit("-");
            }
            append_decimal(&mut text, *q as usize);
            text.append("-");
            append_decimal(&mut text, *f as usize);
            assert(text@ =~= action_text(*action));
        },
    }
    text
}

/// Every bid with a quantity in `lo..=hi`, quantity-major, faces ascending.
pub open spec fn bids_between(lo: int, hi: int) -> Seq<Action> {
    Seq::new(
        if hi >= lo { ((hi - lo + 1) * 6) as nat } else { 0 },
        |i: int| Action::Bid((lo + i / 6) as u8, (1 + i % 6) as u8),
    )
}

/// The bids that keep quantity `q` and name a face above `f`, faces ascending.
pub open spec fn face_raises(q: u8, f: u8) -> Seq<Action> {
    Seq::new(
        if f < 6 { (6 - f) as nat } else { 0 },
        |i: int| Action::Bid(q, (f + 1 + i) as u8),
    )
}

/// The legal moves when `total` dice are on the table and `bid` is outstanding.
pub open spec fn legal_actions(total: int, bid: Option<(u8, u8)>) -> Seq<Action> {
    match bid {
        None => bids_between(1, total),
        Some((q, f)) => seq![Action::Challenge] + face_raises(q, f) + bids_between(q + 1, total),
    }
}

/// Whether `action` is open to a player who faces `bid` with `total` dice on the
/// table: to call a bid that is there, or to bid a real face and a quantity
/// that the table can hold, above the outstanding bid.
pub open spec fn is_legal(total: int, bid: Option<(u8, u8)>, action: Action) -> bool {
    match action {
        Action::Challenge => bid is Some,
        Action::Bid(q2, f2) => 1 <= f2 <= DICE_FACES && match bid {
            None => 1 <= q2 <= total,
            Some((q, f)) => (q2 == q && f2 > f) || q < q2 <= total,
        },
    }
}

/// Whether `later` outbids `earlier`: a higher face at the same quantity, or a higher quantity.
pub open spec fn outbids(later: Action, earlier: Action) -> bool {
    match (later, earlier) {
        (Action::Bid(q2, f2), Action::Bid(q1, f1)) => q2 > q1 || (q2 == q1 && f2 > f1),
        _ => false,
    }
}

/// Whether `hand` is in ascending order.
pub open spec fn ascending(hand: Seq<u8>) -> bool {
    forall|i: int, j: int| 0 <= i < j < hand.len() ==> hand[i] <= hand[j]
}

/// Whether every die of `hand` shows a face of a real die.
pub open spec fn faces_in_range(hand: Seq<u8>) -> bool {
    forall|i: int| 0 <= i < hand.len() ==> 1 <= #[trigger] hand[i] <= DICE_FACES
}

/// Whether `hand` can come of rolling `count` dice.
pub open spec fn is_roll(hand: Seq<u8>, count: int) -> bool {
    hand.len() == count && faces_in_range(hand)
}

/// The mathematical model of a [`GameState`].
pub struct GameView {
    pub dice_p1: u8,
    pub dice_p2: u8,
    pub hand_p1: Seq<u8>,
    pub hand_p2: Seq<u8>,
    pub current_bid: Option<(u8, u8)>,
    pub history: Seq<Action>,
    pub current_player: u8,
}

impl GameView {
    /// The opening state of a game in which the two hands were rolled as
    /// given: each hand put in order, no bid yet, first player to act.
    pub open spec fn dealt(hand_p1: Seq<u8>, hand_p2: Seq<u8>) -> GameView {
        GameView {
            dice_p1: hand_p1.len() as u8,
            dice_p2: hand_p2.len() as u8,
            hand_p1: in_order(hand_p1),
            hand_p2: in_order(hand_p2),
            current_bid: None,
            history: Seq::empty(),
            current_player: 0,
        }
    }

    /// Number of dice on the table.
    pub open spec fn total_dice(self) -> int {
        self.dice_p1 + self.dice_p2
    }

    /// The legal moves of the player to act, in the order that numbers them.
    pub open spec fn valid_actions(self) -> Seq<Action> {
        legal_actions(self.total_dice(), self.current_bid)
    }

    /// The state after `action`: a challenge ends the game and changes nothing,
    /// a bid becomes the outstanding one and passes the turn.
    pub open spec fn apply(self, action: Action) -> GameView {
        match action {
            Action::Challenge => self,
            Action::Bid(q, f) => GameView {
                current_bid: Some((q, f)),
                history: self.history.push(action),
                current_player: (1 - self.current_player) as u8,
                ..self
            },
        }
    }

    /// Number of dice, over both hands, that show `face`.
    pub open spec fn matching_dice(self, face: u8) -> nat {
        (self.hand_p1 + self.hand_p2).to_multiset().count(face)
    }

    /// What the challenger wins when the outstanding bid is called: -1 if the
    /// bid holds, +1 if it does not, 0 if there is no bid to call.
    pub open spec fn payoff(self) -> int {
        match self.current_bid {
            Some((q, f)) => if self.matching_dice(f) >= q { -1 } else { 1 },
            None => 0,
        }
    }

    /// The hand of the player to act.
    pub open spec fn acting_hand(self) -> Seq<u8> {
        if self.current_player == 0 { self.hand_p1 } else { self.hand_p2 }
    }

    /// The key of the decision point that the player to act is at: the
    /// player's own hand, the outstanding bid and the number of bids made so
    /// far, separated by `|`. It holds nothing of the other hand, and of the
    /// earlier bids only how many there were.
    pub open spec fn information_set(self) -> Seq<char> {
        key_text(self.acting_hand(), self.current_bid, self.history.len())
    }

    /// How many further bids can follow at most: the bids above the outstanding one.
    pub open spec fn bids_left(self) -> int {
        match self.current_bid {
            None => 6 * self.total_dice(),
            Some((q, f)) => 6 * (self.total_dice() - q) + (6 - f),
        }
    }

    /// A state as play produces it: hands as dealt, and a history of bids in
    /// which each outbids the one before and the last is the outstanding one.
    pub open spec fn wf(self) -> bool {
        &&& self.total_dice() <= u8::MAX
        &&& self.hand_p1.len() == self.dice_p1
        &&& self.hand_p2.len() == self.dice_p2
        &&& faces_in_range(self.hand_p1)
        &&& faces_in_range(self.hand_p2)
        &&& ascending(self.hand_p1)
        &&& ascending(self.hand_p2)
        &&& self.current_player == self.history.len() % 2
        &&& forall|i: int|
            0 <= i < self.history.len() ==> (#[trigger] self.history[i] matches Action::Bid(q, f)
                && 1 <= q <= self.total_dice() && 1 <= f <= DICE_FACES)
        &&& forall|i: int|
            0 < i < self.history.len() ==> outbids(#[trigger] self.history[i], self.history[i - 1])
        &&& match self.current_bid {
            None => self.history.len() == 0,
            Some((q, f)) => self.history.len() > 0 && self.history.last() == Action::Bid(q, f),
        }
    }
}

/// Where a move leads.
#[derive(Clone, Debug)]
pub enum Branch {
    /// The game is over; the challenger wins this much.
    Terminal(i8),
    /// The game goes on from this state.
    Child(GameState),
}

/// One node of the game tree.
#[derive(Clone, Debug)]
pub struct GameState {
    pub dice_p1: u8,
    pub dice_p2: u8,
    /// First player's dice, ascending.
    pub hand_p1: Vec<u8>,
    /// Second player's dice, ascending.
    pub hand_p2: Vec<u8>,
    /// The outstanding bid as `(quantity, face)`.
    pub current_bid: Option<(u8, u8)>,
    /// The bids made so far, oldest first.
    pub history: Vec<Action>,
    /// The player to act: 0 or 1.
    pub current_player: u8,
}

impl View for GameState {
    type V = GameView;

    open spec fn view(&self) -> GameView {
        GameView {
            dice_p1: self.dice_p1,
            dice_p2: self.dice_p2,
            hand_p1: self.hand_p1@,
            hand_p2: self.hand_p2@,
            current_bid: self.current_bid,
            history: self.history@,
            current_player: self.current_player,
        }
    }
}

/// Appends to `actions` every bid with a quantity in `lo..=hi`.
fn push_bids_between(actions: &mut Vec<Action>, lo: u16, hi: u8)
    requires
        1 <= lo,
    ensures
        final(actions)@ == old(actions)@ + bids_between(lo as int, hi as int),
{
    let ghost before = actions@;
    let mut q: u16 = lo;
    while q <= hi as u16
        invariant
            1 <= lo <= q,
            q <= hi + 1 || q == lo,
            actions@ == before + bids_between(lo as int, q - 1),
        decreases hi + 1 - q,
    {
        let mut f: u8 = 0;
        while f < DICE_FACES
            invariant
                1 <= lo <= q <= hi,
                f <= 6,
                actions@.len() == before.len() + (q - lo) * 6 + f,
                forall|i: int| 0 <= i < before.len() ==> actions@[i] == before[i],
                forall|j: int|
                    before.len() <= j < actions@.len() ==> #[trigger] actions@[j] == bids_between(
                        lo as int,
                        q as int,
                    )[j - before.len()],
            decreases 6 - f,
        {
            f = f + 1;
            actions.push(Action::Bid(q as u8, f));
        }
        assert(actions@ =~= before + bids_between(lo as int, q as int));
        q = q + 1;
    }
}

/// Appends to `actions` every bid that keeps quantity `q` and names a face above `f`.
fn push_face_raises(actions: &mut Vec<Action>, q: u8, f: u8)
    ensures
        final(actions)@ == old(actions)@ + face_raises(q, f),
{
    let ghost before = actions@;
    let mut g: u8 = f;
    while g < DICE_FACES
        invariant
            f <= g,
            g <= 6 || g == f,
            actions@.len() == before.len() + (g - f),
            forall|j: int| 0 <= j < before.len() ==> actions@[j] == before[j],
            forall|j: int|
                before.len() <= j < actions@.len() ==> #[trigger] actions@[j] == Action::Bid(
                    q,
                    (f + 1 + (j - before.len())) as u8,
                ),
        decreases 6 - g,
    {
        g = g + 1;
        actions.push(Action::Bid(q, g));
    }
    assert(actions@ =~= before + face_raises(q, f));
}

/// The legal moves when `total_dice` dice are on the table and `bid` is
/// outstanding, in the order that numbers them.
pub fn legal_moves(total_dice: u8, bid: Option<(u8, u8)>) -> (actions: Vec<Action>)
    ensures
        actions@ == legal_actions(total_dice as int, bid),
{
    let mut actions: Vec<Action> = Vec::new();
    match bid {
        Some((curr_q, curr_f)) => {
            actions.push(Action::Challenge);
            push_face_raises(&mut actions, curr_q, curr_f);
            push_bids_between(&mut actions, curr_q as u16 + 1, total_dice);
        },
        None => {
            push_bids_between(&mut actions, 1, total_dice);
        },
    }
    assert(actions@ =~= legal_actions(total_dice as int, bid));
    actions
}

/// Number of dice in `hand` that show `face`.
fn count_face(hand: &Vec<u8>, face: u8) -> (count: usize)
    ensures
        count == hand@.to_multiset().count(face),
{
    let mut count: usize = 0;
    let mut i: usize = 0;
    proof {
        assert(hand@.take(0) =~= Seq::<u8>::empty());
        hand@.take(0).to_multiset_ensures();
    }
    while i < hand.len()
        invariant
            i <= hand.len(),
            count <= i,
            count == hand@.take(i as int).to_multiset().count(face),
        decreases hand.len() - i,
    {
        proof {
            assert(hand@.take(i + 1) =~= hand@.take(i as int).push(hand@[i as int]));
            to_multiset_build(hand@.take(i as int), hand@[i as int]);
        }
        if hand[i] == face {
            count = count + 1;
        }
        i = i + 1;
    }
    assert(hand@.take(i as int) =~= hand@);
    count
}

impl GameState {
    /// Opens a game: rolls `dice_p1` dice for the first player and `dice_p2`
    /// for the second, each die on its own, and puts each hand in order.
    pub fn new(dice_p1: u8, dice_p2: u8) -> (state: GameState)
        ensures
            exists|rolled_p1: Seq<u8>, rolled_p2: Seq<u8>|
                is_roll(rolled_p1, dice_p1 as int) && is_roll(rolled_p2, dice_p2 as int) && state@
                    == GameView::dealt(rolled_p1, rolled_p2),
            state@.dice_p1 == dice_p1,
            state@.dice_p2 == dice_p2,
            state@.current_bid is None,
            state@.history.len() == 0,
            state@.current_player == 0,
            dice_p1 + dice_p2 <= u8::MAX ==> state@.wf(),
    {
        let mut rng = rand::thread_rng();
        let rolled_p1 = roll_hand(&mut rng, dice_p1);
        let rolled_p2 = roll_hand(&mut rng, dice_p2);
        proof {
            assert(is_roll(rolled_p1@, dice_p1 as int));
            assert(is_roll(rolled_p2@, dice_p2 as int));
            if dice_p1 + dice_p2 <= u8::MAX {
                lemma_dealt_wf(rolled_p1@, rolled_p2@);
            }
        }
        GameState::from_hands(rolled_p1, rolled_p2)
    }

    /// Opens a game with the hands as given, whatever order their dice are in.
    pub fn from_hands(hand_p1: Vec<u8>, hand_p2: Vec<u8>) -> (state: GameState)
        requires
            hand_p1@.len() <= u8::MAX,
            hand_p2@.len() <= u8::MAX,
        ensures
            state@ == GameView::dealt(hand_p1@, hand_p2@),
            faces_in_range(hand_p1@) && faces_in_range(hand_p2@) && hand_p1@.len() + hand_p2@.len()
                <= u8::MAX ==> state@.wf(),
    {
        proof {
            lemma_in_order(hand_p1@);
            lemma_in_order(hand_p2@);
            if faces_in_range(hand_p1@) && faces_in_range(hand_p2@) && hand_p1@.len()
                + hand_p2@.len() <= u8::MAX {
                lemma_dealt_wf(hand_p1@, hand_p2@);
            }
        }
        let state = GameState {
            dice_p1: hand_p1.len() as u8,
            dice_p2: hand_p2.len() as u8,
            hand_p1: sort_hand(&hand_p1),
            hand_p2: sort_hand(&hand_p2),
            current_bid: None,
            history: Vec::new(),
            current_player: 0,
        };
        assert(state@.history =~= Seq::empty());
        state
    }

    /// The legal moves of the player to act. The position of a move in the
    /// result is its index in every per-decision table.
    pub fn get_valid_actions(&self) -> (actions: Vec<Action>)
        requires
            self@.total_dice() <= u8::MAX,
        ensures
            actions@ == self@.valid_actions(),
            self@.total_dice() >= 1 ==> actions@.len() > 0,
            forall|i: int|
                0 <= i < actions@.len() ==> (#[trigger] actions@[i] matches Action::Bid(_, f) ==> 1
                    <= f <= DICE_FACES),
            (self.current_bid matches Some((q, f)) ==> q <= self@.total_dice() || f >= DICE_FACES)
                ==> forall|i: int|
                0 <= i < actions@.len() ==> (#[trigger] actions@[i] matches Action::Bid(q, _) ==> q
                    <= self@.total_dice()),
    {
        proof {
            lemma_legal_actions_in_range(self@.total_dice(), self.current_bid);
        }
        legal_moves(self.dice_p1 + self.dice_p2, self.current_bid)
    }

    /// Plays `action`. A challenge ends the game: the state stays as it is and
    /// the result is `true`. A bid becomes the outstanding bid, is recorded,
    /// and passes the turn to the other player.
    pub fn apply_action(&mut self, action: Action) -> (terminal: bool)
        requires
            action is Bid ==> old(self).current_player <= 1,
        ensures
            terminal == (action == Action::Challenge),
            final(self)@ == old(self)@.apply(action),
            terminal ==> *final(self) == *old(self),
            old(self)@.wf() && is_legal(old(self)@.total_dice(), old(self).current_bid, action)
                ==> final(self)@.wf(),
    {
        proof {
            if self@.wf() && is_legal(self@.total_dice(), self.current_bid, action) {
                lemma_apply_legal(self@, action);
            }
        }
        match action {
            Action::Challenge => true,
            Action::Bid(q, f) => {
                self.current_bid = Some((q, f));
                self.history.push(action);
                self.current_player = 1 - self.current_player;
                false
            },
        }
    }

    /// The challenger's payoff when the outstanding bid is called: -1 if at
    /// least as many dice as the bid claims show its face, +1 otherwise.
    /// Without an outstanding bid there is nothing to call and the payoff is 0.
    pub fn get_payoff(&self) -> (payoff: i8)
        ensures
            payoff == self@.payoff(),
            self.current_bid is Some ==> payoff == 1 || payoff == -1,
            self.current_bid matches Some((q, f)) ==> (payoff == -1 <==> self@.matching_dice(f)
                >= q),
            self.current_bid is None ==> payoff == 0,
    {
        match self.current_bid {
            Some((bid_q, bid_f)) => {
                let in_p1 = count_face(&self.hand_p1, bid_f);
                let in_p2 = count_face(&self.hand_p2, bid_f);
                proof {
                    lemma_multiset_commutative(self.hand_p1@, self.hand_p2@);
                }
                let claimed: usize = bid_q as usize;
                let bidder_wins = in_p1 >= claimed || in_p2 >= claimed - in_p1;
                if bidder_wins { -1 } else { 1 }
            },
            None => 0,
        }
    }

    /// Follows `action` one step down the game tree and leaves `self` as it
    /// is. A challenge ends the game with the challenger's payoff; a bid
    /// leads to the state in which it is outstanding and the other player
    /// is to act.
    pub fn play(&self, action: Action) -> (branch: Branch)
        requires
            action is Bid ==> self.current_player <= 1,
        ensures
            match branch {
                Branch::Terminal(payoff) => action == Action::Challenge && payoff
                    == self@.payoff(),
                Branch::Child(next) => action != Action::Challenge && next@ == self@.apply(action),
            },
            self.current_bid is Some && action == Action::Challenge ==> (branch
                matches Branch::Terminal(payoff) && (payoff == 1 || payoff == -1)),
            self@.wf() && is_legal(self@.total_dice(), self.current_bid, action) ==> (
            branch matches Branch::Child(next) ==> next@.wf()),
    {
        let mut next = GameState {
            dice_p1: self.dice_p1,
            dice_p2: self.dice_p2,
            hand_p1: self.hand_p1.clone(),
            hand_p2: self.hand_p2.clone(),
            current_bid: self.current_bid,
            history: self.history.clone(),
            current_player: self.current_player,
        };
        assert(next@ == self@) by {
            assert(next.hand_p1@ =~= self.hand_p1@);
            assert(next.hand_p2@ =~= self.hand_p2@);
            assert(next.history@ =~= self.history@);
        }
        if next.apply_action(action) {
            Branch::Terminal(next.get_payoff())
        } else {
            Branch::Child(next)
        }
    }

    /// The key under which the decision point of the player to act is stored.
    pub fn get_information_set(&self) -> (key: String)
        ensures
            key@ == self@.information_set(),
    {
        let my_hand = if self.current_player == 0 {
            &self.hand_p1
        } else {
            &self.hand_p2
        };
        let mut key = String::new();
        let mut i: usize = 0;
        while i < my_hand.len()
            invariant
                i <= my_hand.len(),
                key@ == hand_text(my_hand@.take(i as int)),
            decreases my_hand.len() - i,
        {
            assert(my_hand@.take(i + 1).drop_last() =~= my_hand@.take(i as int));
            append_decimal(&mut key, my_hand[i] as usize);
            i = i + 1;
        }
        assert(my_hand@.take(i as int) =~= self@.acting_hand());
        key.append("|");
        match self.current_bid {
            Some((q, f)) => {
                append_decimal(&mut key, q as usize);
                key.append("-");
                append_decimal(&mut key, f as usize);
            },
            None => {
                key.append("none");
            },
        }
        key.append("|");
        append_decimal(&mut key, self.history.len());
        proof {
            reveal_strlit("|");
            reveal_strlit("-");
            reveal_strlit("none");
            assert("|"@ =~= seq!['|']);
            assert("-"@ =~= seq!['-']);
            assert("none"@ =~= seq!['n', 'o', 'n', 'e']);
            assert(key@ =~= self@.information_set());
        }
        key
    }
}

/// Every legal bid names a real face. Unless the outstanding bid claims more
/// dice than are on the table and can still be raised by face, no legal bid
/// claims more dice than are on the table. With a die on the table, or a bid to
/// call, there is a legal move.
pub proof fn lemma_legal_actions_in_range(total: int, bid: Option<(u8, u8)>)
    requires
        0 <= total <= u8::MAX,
    ensures
        total >= 1 || bid is Some ==> legal_actions(total, bid).len() > 0,
        forall|i: int|
            0 <= i < legal_actions(total, bid).len() ==> (#[trigger] legal_actions(
                total,
                bid,
            )[i] matches Action::Bid(_, f) ==> 1 <= f <= DICE_FACES),
        (bid matches Some((q, f)) ==> q <= total || f >= DICE_FACES) ==> forall|i: int|
            0 <= i < legal_actions(total, bid).len() ==> (#[trigger] legal_actions(
                total,
                bid,
            )[i] matches Action::Bid(q, _) ==> q <= total),
{
}

/// The legal moves are exactly the actions that `is_legal` admits, each once.
pub proof fn lemma_legal_actions_characterized(total: int, bid: Option<(u8, u8)>)
    requires
        0 <= total <= u8::MAX,
    ensures
        forall|action: Action| #[trigger]
            legal_actions(total, bid).contains(action) <==> is_legal(total, bid, action),
        legal_actions(total, bid).no_duplicates(),
{
    let all = legal_actions(total, bid);
    assert forall|action: Action| is_legal(total, bid, action) implies #[trigger] all.contains(
        action,
    ) by {
        match (action, bid) {
            (Action::Challenge, _) => {
                assert(all[0] == action);
            },
            (Action::Bid(q2, f2), None) => {
                assert(all[(q2 - 1) * 6 + (f2 - 1)] == action);
            },
            (Action::Bid(q2, f2), Some((q, f))) => {
                if q2 == q {
                    assert(all[1 + (f2 - f - 1)] == action);
                } else {
                    let raises = face_raises(q, f).len() as int;
                    assert(all[1 + raises + (q2 - q - 1) * 6 + (f2 - 1)] == action);
                }
            },
        }
    }
    assert forall|action: Action| #[trigger] all.contains(action) implies is_legal(
        total,
        bid,
        action,
    ) by {
        let i = choose|i: int| 0 <= i < all.len() && all[i] == action;
        assert(all[i] == action);
    }
}

/// A legal bid leaves a well-formed state well-formed and uses up at least one
/// of the bids that were left; a challenge leaves the state as it is.
pub proof fn lemma_apply_legal(state: GameView, action: Action)
    requires
        state.wf(),
        is_legal(state.total_dice(), state.current_bid, action),
    ensures
        state.apply(action).wf(),
        action is Bid ==> 0 <= state.apply(action).bids_left() < state.bids_left(),
        action is Challenge ==> state.apply(action) == state,
{
    let next = state.apply(action);
    if let Action::Bid(q2, f2) = action {
        assert(next.history.last() == action);
        assert forall|i: int| 0 < i < next.history.len() implies outbids(
            #[trigger] next.history[i],
            next.history[i - 1],
        ) by {
            if i == state.history.len() {
                assert(next.history[i - 1] == state.history.last());
            } else {
                assert(next.history[i] == state.history[i]);
                assert(next.history[i - 1] == state.history[i - 1]);
            }
        }
        assert forall|i: int| 0 <= i < next.history.len() implies (
        #[trigger] next.history[i] matches Action::Bid(q, f) && 1 <= q <= next.total_dice() && 1
            <= f <= DICE_FACES) by {
            if i < state.history.len() {
                assert(next.history[i] == state.history[i]);
            }
        }
        if state.history.len() > 0 {
            assert(state.history[state.history.len() - 1] == state.history.last());
        }
    }
}

/// A game cannot go on for ever: in a well-formed state the bids made and the
/// bids left together are at most six for each die on the table.
pub proof fn lemma_bids_bounded(state: GameView)
    requires
        state.wf(),
    ensures
        0 <= state.bids_left(),
        state.history.len() + state.bids_left() <= 6 * state.total_dice(),
{
    if state.history.len() > 0 {
        lemma_rank_grows(state.history, state.history.len() - 1);
    }
}

/// The place of a bid among all bids, counted from one.
pub open spec fn bid_rank(action: Action) -> int {
    match action {
        Action::Bid(q, f) => 6 * (q - 1) + f,
        Action::Challenge => 0,
    }
}

/// In a run of bids with faces from one to six, each outbidding the one
/// before, the bid at index `i` has at least rank `i + 1`.
pub proof fn lemma_rank_grows(history: Seq<Action>, i: int)
    requires
        0 <= i < history.len(),
        forall|k: int|
            0 <= k < history.len() ==> (#[trigger] history[k] matches Action::Bid(q, f) && 1 <= q
                && 1 <= f <= DICE_FACES),
        forall|k: int| 0 < k < history.len() ==> outbids(#[trigger] history[k], history[k - 1]),
    ensures
        bid_rank(history[i]) >= i + 1,
    decreases i,
{
    if i > 0 {
        lemma_rank_grows(history, i - 1);
        assert(outbids(history[i], history[i - 1]));
    }
}

/// The key of a decision point fixes what the player to act knows and can do:
/// two states with rolled dice in the acting hands and the same key agree on
/// the acting hand, the outstanding bid and the number of bids made, and, at
/// tables with the same number of dice, on the legal moves and their order.
pub proof fn lemma_information_set_fixes_moves(state: GameView, other: GameView)
    requires
        faces_in_range(state.acting_hand()),
        faces_in_range(other.acting_hand()),
        state.information_set() == other.information_set(),
    ensures
        state.acting_hand() == other.acting_hand(),
        state.current_bid == other.current_bid,
        state.history.len() == other.history.len(),
        state.total_dice() == other.total_dice() ==> state.valid_actions()
            == other.valid_actions(),
{
    lemma_key_text_injective(
        state.acting_hand(),
        state.current_bid,
        state.history.len(),
        other.acting_hand(),
        other.current_bid,
        other.history.len(),
    );
}

/// Putting the hands in order changes no payoff: the opening state shows each
/// face as often as the dice that were rolled.
pub proof fn lemma_dealt_keeps_the_dice(hand_p1: Seq<u8>, hand_p2: Seq<u8>, face: u8)
    ensures
        GameView::dealt(hand_p1, hand_p2).matching_dice(face) == (hand_p1
            + hand_p2).to_multiset().count(face),
{
    lemma_in_order(hand_p1);
    lemma_in_order(hand_p2);
    lemma_multiset_commutative(in_order(hand_p1), in_order(hand_p2));
    lemma_multiset_commutative(hand_p1, hand_p2);
}

/// A game opened on rolled hands that fit the table is well-formed.
pub proof fn lemma_dealt_wf(hand_p1: Seq<u8>, hand_p2: Seq<u8>)
    requires
        faces_in_range(hand_p1),
        faces_in_range(hand_p2),
        hand_p1.len() + hand_p2.len() <= u8::MAX,
    ensures
        GameView::dealt(hand_p1, hand_p2).wf(),
{
    lemma_in_order_of_roll(hand_p1);
    lemma_in_order_of_roll(hand_p2);
}

/// Putting rolled dice in order leaves them rolled dice, in ascending order.
pub proof fn lemma_in_order_of_roll(hand: Seq<u8>)
    requires
        faces_in_range(hand),
    ensures
        faces_in_range(in_order(hand)),
        ascending(in_order(hand)),
        in_order(hand).len() == hand.len(),
{
    lemma_in_order(hand);
    let sorted = in_order(hand);
    assert forall|i: int| 0 <= i < sorted.len() implies 1 <= #[trigger] sorted[i] <= DICE_FACES by {
        sorted.to_multiset_ensures();
        hand.to_multiset_ensures();
        assert(sorted.contains(sorted[i]));
        assert(hand.to_multiset().count(sorted[i]) > 0);
        assert(hand.contains(sorted[i]));
    }
    assert forall|i: int, j: int| 0 <= i < j < sorted.len() implies sorted[i] <= sorted[j] by {
        assert(face_leq()(sorted[i], sorted[j]));
    }
}

} // verus!
