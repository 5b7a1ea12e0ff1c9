//! The betting state machine: per-seat stacks, bets and flags, turn
//! advancement, round and hand completion, showdown payouts and elimination.

use vstd::prelude::*;
use core::cmp::Ordering;
use crate::board::{Board, is_subseq_of};
use crate::card::Card;
use crate::counts::{card_occurs, distinct_cards, lemma_occurs_concat, lemma_distinct_to_occurs,
    lemma_occurs_to_distinct};
use crate::deck::{Deck, full_deck, rng_from_seed};
use crate::hand::{PlayerHand, PokerHand, hand_cmp, valid_hand, lemma_compare_reflexive,
    lemma_compare_antisymmetric, lemma_compare_transitive};

verus! {

/// The one recoverable error: an illegal action is rejected with no state
/// change. Everything else is an internal invariant break.
#[derive(Clone, Copy, Debug, PartialEq, Eq, Structural)]
pub enum GameError {
    /// The submitted action is illegal for the current seat and state.
    InvalidAction,
    /// A round cannot be derived from the board's card count.
    InvalidRoundCardCount,
}

/// The four betting phases, keyed to the board size.
#[derive(Clone, Copy, Debug, PartialEq, Eq, Structural)]
pub enum Round {
    PreFlop,
    Flop,
    Turn,
    River,
}

/// The round that a board of `n` cards denotes (sizes other than 0, 3, 4, 5
/// are an invariant violation and rejected by `Round::from_card_count`).
pub open spec fn round_of_count(n: int) -> Round {
    if n == 3 {
        Round::Flop
    } else if n == 4 {
        Round::Turn
    } else if n == 5 {
        Round::River
    } else {
        Round::PreFlop
    }
}

/// The board size that belongs to a round.
pub open spec fn round_card_count(r: Round) -> int {
    match r {
        Round::PreFlop => 0,
        Round::Flop => 3,
        Round::Turn => 4,
        Round::River => 5,
    }
}

impl Round {
    /// How many community cards are on the board during this round.
    pub fn n_cards(&self) -> (r: usize)
        ensures
            r == round_card_count(*self),
    {
        match self {
            Round::PreFlop => 0,
            Round::Flop => 3,
            Round::Turn => 4,
            Round::River => 5,
        }
    }

    /// Derives the round from a board size; any size but 0, 3, 4 or 5 is an
    /// invariant violation.
    pub fn from_card_count(n: usize) -> (r: Result<Round, GameError>)
        ensures
            (n == 0 || n == 3 || n == 4 || n == 5) ==> (r matches Ok(rd) && rd == round_of_count(
                n as int,
            )),
            !(n == 0 || n == 3 || n == 4 || n == 5) ==> (r matches Err(e) && e
                == GameError::InvalidRoundCardCount),
    {
        match n {
            0 => Ok(Round::PreFlop),
            3 => Ok(Round::Flop),
            4 => Ok(Round::Turn),
            5 => Ok(Round::River),
            _ => Err(GameError::InvalidRoundCardCount),
        }
    }
}

/// A player action, always for the current seat.
#[derive(Clone, Copy, Debug, PartialEq, Eq, Structural)]
pub enum Action {
    Fold,
    Raise(usize),
    Call,
    Check,
}

/// One seat's state: its chip stack, the chips committed in the current
/// betting round, whether it folded this hand, whether it is eliminated for
/// good, and the action it last took this round.
#[derive(Clone, Copy, Debug)]
pub struct Seat {
    pub stack: usize,
    pub bet: usize,
    pub is_folded: bool,
    pub is_dead: bool,
    pub last_action_in_current_round: Option<Action>,
}

impl Seat {
    pub fn new(stack: usize) -> (r: Seat)
        ensures
            r == (Seat {
                stack,
                bet: 0,
                is_folded: false,
                is_dead: false,
                last_action_in_current_round: None::<Action>,
            }),
    {
        Seat { stack, bet: 0, is_folded: false, is_dead: false, last_action_in_current_round: None }
    }

    /// A seat takes part in the current hand when it neither folded nor is
    /// eliminated.
    pub fn is_valid(&self) -> (r: bool)
        ensures
            r == seat_valid(*self),
    {
        !self.is_dead && !self.is_folded
    }
}

/// In the hand: neither folded nor eliminated.
pub open spec fn seat_valid(s: Seat) -> bool {
    !s.is_dead && !s.is_folded
}

/// In the game: not eliminated.
pub open spec fn seat_alive(s: Seat) -> bool {
    !s.is_dead
}

/// Number of valid seats among the first `j`.
pub open spec fn n_valid_upto(seats: Seq<Seat>, j: int) -> nat
    decreases j,
{
    if j <= 0 {
        0
    } else {
        n_valid_upto(seats, j - 1) + if seat_valid(seats[j - 1]) {
            1nat
        } else {
            0nat
        }
    }
}

pub open spec fn n_valid(seats: Seq<Seat>) -> nat {
    n_valid_upto(seats, seats.len() as int)
}

/// Number of non-eliminated seats among the first `j`.
pub open spec fn n_alive_upto(seats: Seq<Seat>, j: int) -> nat
    decreases j,
{
    if j <= 0 {
        0
    } else {
        n_alive_upto(seats, j - 1) + if seat_alive(seats[j - 1]) {
            1nat
        } else {
            0nat
        }
    }
}

pub open spec fn n_alive(seats: Seq<Seat>) -> nat {
    n_alive_upto(seats, seats.len() as int)
}

/// The largest current-round bet among the first `j` valid seats.
pub open spec fn max_bet_upto(seats: Seq<Seat>, j: int) -> nat
    decreases j,
{
    if j <= 0 {
        0
    } else {
        let m = max_bet_upto(seats, j - 1);
        if seat_valid(seats[j - 1]) && seats[j - 1].bet > m {
            seats[j - 1].bet as nat
        } else {
            m
        }
    }
}

/// The maximum bet among valid seats (all-in seats included), 0 when no seat
/// is valid.
pub open spec fn max_bet(seats: Seq<Seat>) -> nat {
    max_bet_upto(seats, seats.len() as int)
}

/// Sum of all current-round bets among the first `j` seats (folded seats'
/// chips are committed too).
pub open spec fn bets_sum_upto(seats: Seq<Seat>, j: int) -> int
    decreases j,
{
    if j <= 0 {
        0
    } else {
        bets_sum_upto(seats, j - 1) + seats[j - 1].bet
    }
}

pub open spec fn bets_sum(seats: Seq<Seat>) -> int {
    bets_sum_upto(seats, seats.len() as int)
}

/// Sum of stack plus bet over the first `j` seats: the chips the seats hold.
pub open spec fn chips_upto(seats: Seq<Seat>, j: int) -> int
    decreases j,
{
    if j <= 0 {
        0
    } else {
        chips_upto(seats, j - 1) + seats[j - 1].stack + seats[j - 1].bet
    }
}

/// Every valid seat has acted in the current round.
pub open spec fn all_acted(seats: Seq<Seat>) -> bool {
    forall|i: int|
        0 <= i < seats.len() && seat_valid(#[trigger] seats[i])
            ==> seats[i].last_action_in_current_round is Some
}

/// Every valid seat either matches the maximum bet or is all-in (its stack
/// fully committed, so it cannot be asked to match).
pub open spec fn bets_matched(seats: Seq<Seat>) -> bool {
    forall|i: int|
        0 <= i < seats.len() && seat_valid(#[trigger] seats[i]) ==> (seats[i].bet == max_bet(seats)
            || seats[i].stack == 0)
}

// ---------------------------------------------------------------------------
// Counting lemmas over seat sequences
// ---------------------------------------------------------------------------

pub proof fn lemma_n_valid_witness(seats: Seq<Seat>, j: int)
    requires
        n_valid_upto(seats, j) >= 1,
        j <= seats.len(),
    ensures
        exists|i: int| 0 <= i < j && seat_valid(#[trigger] seats[i]),
    decreases j,
{
    if j > 0 {
        if seat_valid(seats[j - 1]) {
            assert(seat_valid(seats[j - 1]));
        } else {
            lemma_n_valid_witness(seats, j - 1);
        }
    }
}

pub proof fn lemma_n_valid_lower(seats: Seq<Seat>, i: int, j: int)
    requires
        0 <= i < j <= seats.len(),
        seat_valid(seats[i]),
    ensures
        n_valid_upto(seats, j) >= 1,
    decreases j,
{
    if i < j - 1 {
        lemma_n_valid_lower(seats, i, j - 1);
    }
}

/// Two valid seats bound the valid count from below by two.
pub proof fn lemma_n_valid_lower_two(seats: Seq<Seat>, i: int, j: int)
    requires
        0 <= i < j < seats.len(),
        seat_valid(seats[i]),
        seat_valid(seats[j]),
    ensures
        n_valid(seats) >= 2,
{
    lemma_n_valid_lower_two_upto(seats, i, j, seats.len() as int);
}

proof fn lemma_n_valid_lower_two_upto(seats: Seq<Seat>, i: int, j: int, upto: int)
    requires
        0 <= i < j < upto <= seats.len(),
        seat_valid(seats[i]),
        seat_valid(seats[j]),
    ensures
        n_valid_upto(seats, upto) >= 2,
    decreases upto,
{
    if j < upto - 1 {
        lemma_n_valid_lower_two_upto(seats, i, j, upto - 1);
    } else {
        lemma_n_valid_lower(seats, i, upto - 1);
    }
}

/// Counts agree on sequences whose seats are pointwise equally valid.
pub proof fn lemma_n_valid_congruent(s1: Seq<Seat>, s2: Seq<Seat>, j: int)
    requires
        j <= s1.len(),
        j <= s2.len(),
        forall|i: int| 0 <= i < j ==> seat_valid(#[trigger] s1[i]) == seat_valid(#[trigger] s2[i]),
    ensures
        n_valid_upto(s1, j) == n_valid_upto(s2, j),
    decreases j,
{
    if j > 0 {
        lemma_n_valid_congruent(s1, s2, j - 1);
    }
}

pub proof fn lemma_n_alive_congruent(s1: Seq<Seat>, s2: Seq<Seat>, j: int)
    requires
        j <= s1.len(),
        j <= s2.len(),
        forall|i: int| 0 <= i < j ==> seat_alive(#[trigger] s1[i]) == seat_alive(#[trigger] s2[i]),
    ensures
        n_alive_upto(s1, j) == n_alive_upto(s2, j),
    decreases j,
{
    if j > 0 {
        lemma_n_alive_congruent(s1, s2, j - 1);
    }
}




/// Updating one seat shifts the valid count by the two seats' contributions.
pub proof fn lemma_n_valid_update(seats: Seq<Seat>, i: int, s2: Seat, j: int)
    requires
        0 <= i < seats.len(),
        j <= seats.len(),
    ensures
        n_valid_upto(seats.update(i, s2), j) == n_valid_upto(seats, j) + (if i < j {
            (if seat_valid(s2) {
                1int
            } else {
                0int
            }) - (if seat_valid(seats[i]) {
                1int
            } else {
                0int
            })
        } else {
            0int
        }),
    decreases j,
{
    if j > 0 {
        lemma_n_valid_update(seats, i, s2, j - 1);
    }
}

/// Updating one seat shifts the chips sum by the chip difference.
pub proof fn lemma_chips_update(seats: Seq<Seat>, i: int, s2: Seat, j: int)
    requires
        0 <= i < seats.len(),
        j <= seats.len(),
    ensures
        chips_upto(seats.update(i, s2), j) == chips_upto(seats, j) + (if i < j {
            s2.stack + s2.bet - seats[i].stack - seats[i].bet
        } else {
            0int
        }),
    decreases j,
{
    if j > 0 {
        lemma_chips_update(seats, i, s2, j - 1);
    }
}

/// Chips sums are nonnegative and dominate each seat's part.
pub proof fn lemma_chips_nonneg(seats: Seq<Seat>, j: int)
    ensures
        chips_upto(seats, j) >= 0,
    decreases j,
{
    if j > 0 {
        lemma_chips_nonneg(seats, j - 1);
    }
}

pub proof fn lemma_chips_bound(seats: Seq<Seat>, i: int, j: int)
    requires
        0 <= i < j <= seats.len(),
    ensures
        chips_upto(seats, j) >= seats[i].stack + seats[i].bet,
    decreases j,
{
    if i < j - 1 {
        lemma_chips_bound(seats, i, j - 1);
    } else {
        lemma_chips_nonneg(seats, j - 1);
    }
}

pub proof fn lemma_bets_sum_nonneg(seats: Seq<Seat>, j: int)
    ensures
        bets_sum_upto(seats, j) >= 0,
    decreases j,
{
    if j > 0 {
        lemma_bets_sum_nonneg(seats, j - 1);
    }
}

/// The bets are part of the chips: collecting every bet into the pot and
/// zeroing it keeps the total.
pub proof fn lemma_chips_split_bets(s1: Seq<Seat>, s2: Seq<Seat>, j: int)
    requires
        j <= s1.len(),
        j <= s2.len(),
        forall|i: int|
            0 <= i < j ==> (#[trigger] s2[i]).stack == (#[trigger] s1[i]).stack && s2[i].bet == 0,
    ensures
        chips_upto(s2, j) + bets_sum_upto(s1, j) == chips_upto(s1, j),
    decreases j,
{
    if j > 0 {
        lemma_chips_split_bets(s1, s2, j - 1);
    }
}


/// When every valid seat bets `b`, the maximum is `b` (given one valid seat).
pub proof fn lemma_max_bet_all_equal(seats: Seq<Seat>, j: int, b: nat)
    requires
        j <= seats.len(),
        forall|i: int|
            0 <= i < seats.len() && seat_valid(#[trigger] seats[i]) ==> seats[i].bet == b,
    ensures
        n_valid_upto(seats, j) == 0 ==> max_bet_upto(seats, j) == 0,
        n_valid_upto(seats, j) >= 1 ==> max_bet_upto(seats, j) == b,
    decreases j,
{
    if j > 0 {
        lemma_max_bet_all_equal(seats, j - 1, b);
    }
}

} // verus!

verus! {

// ---------------------------------------------------------------------------
// State, model and invariant
// ---------------------------------------------------------------------------

/// The live state of one hand: acting seat, board, seats, small blind, pot
/// and round. Owned exclusively by one Game.
pub struct GameState {
    pub current_seat: usize,
    pub board: Board,
    pub seats: Vec<Seat>,
    pub sb_seat: usize,
    pub pot: usize,
    pub round: Round,
}

/// Bookkeeping across hands.
pub struct GameData {
    pub hand_count: usize,
}

/// Per-game immutable settings.
#[derive(Clone, Copy, Debug, Default)]
pub struct Settings {
    pub n_players: usize,
    pub initial_stack: usize,
}

/// A complete game: settings, hand state, per-seat private cards, the deck
/// the current hand draws from, and the generator that shuffles fresh decks.
pub struct Game {
    pub settings: Settings,
    pub game_state: GameState,
    pub game_data: GameData,
    pub hands: Vec<Option<PlayerHand>>,
    pub deck: Deck,
    pub rng: rand::rngs::StdRng,
}

/// Mathematical image of a GameState.
pub ghost struct GsModel {
    pub current_seat: int,
    pub board: Seq<Card>,
    pub seats: Seq<Seat>,
    pub sb_seat: int,
    pub pot: int,
    pub round: Round,
}

/// Mathematical image of a Game.
pub ghost struct GameModel {
    pub settings: Settings,
    pub gs: GsModel,
    pub hands: Seq<Option<Seq<Card>>>,
    pub deck: Seq<Card>,
    pub hand_count: int,
}

impl View for GameState {
    type V = GsModel;

    open spec fn view(&self) -> GsModel {
        GsModel {
            current_seat: self.current_seat as int,
            board: self.board@,
            seats: self.seats@,
            sb_seat: self.sb_seat as int,
            pot: self.pot as int,
            round: self.round,
        }
    }
}

/// The views of the per-seat private hands.
pub open spec fn hands_view(hands: Seq<Option<PlayerHand>>) -> Seq<Option<Seq<Card>>> {
    Seq::new(
        hands.len(),
        |i: int|
            match hands[i] {
                Some(h) => Some(h@),
                None => None,
            },
    )
}

impl View for Game {
    type V = GameModel;

    open spec fn view(&self) -> GameModel {
        GameModel {
            settings: self.settings,
            gs: self.game_state@,
            hands: hands_view(self.hands@),
            deck: self.deck@,
            hand_count: self.game_data.hand_count as int,
        }
    }
}

/// All chips ever in the game.
pub open spec fn total_chips(m: GameModel) -> int {
    m.settings.n_players * m.settings.initial_stack
}

/// Pot plus every seat's stack and bet.
pub open spec fn chips_total(gs: GsModel) -> int {
    gs.pot + chips_upto(gs.seats, gs.seats.len() as int)
}

/// The dealt cards of the first `j` seats, in seat order.
pub open spec fn hands_cards(hands: Seq<Option<Seq<Card>>>, j: int) -> Seq<Card>
    decreases j,
{
    if j <= 0 {
        Seq::empty()
    } else {
        hands_cards(hands, j - 1) + match hands[j - 1] {
            Some(h) => h,
            None => Seq::empty(),
        }
    }
}

/// Every card of the current hand: the board, the dealt private cards, and
/// what remains of the deck. The game keeps these pairwise distinct.
pub open spec fn cards_in_play(m: GameModel) -> Seq<Card> {
    m.gs.board + hands_cards(m.hands, m.hands.len() as int) + m.deck
}

/// The game is over once at most one seat remains un-eliminated.
pub open spec fn over_spec(seats: Seq<Seat>) -> bool {
    n_alive(seats) <= 1
}

/// The current betting round is over when at most one seat remains valid, or
/// every valid seat has acted and every valid seat not all-in matches the
/// maximum bet.
pub open spec fn round_over_spec(gs: GsModel) -> bool {
    n_valid(gs.seats) <= 1 || (all_acted(gs.seats) && bets_matched(gs.seats))
}

/// The hand is over when the betting round is over on a full board (River).
pub open spec fn hand_over_spec(gs: GsModel) -> bool {
    round_over_spec(gs) && gs.board.len() >= 5
}

// ---------------------------------------------------------------------------
// Actions
// ---------------------------------------------------------------------------

/// Whether the action is legal for the current seat: folding is always
/// allowed; checking only without an outstanding bet; calling always (capped
/// by the stack, going all-in); raising only with a positive amount within
/// the stack that lifts the seat's bet above the current maximum.
pub open spec fn action_valid(gs: GsModel, a: Action) -> bool {
    let s = gs.seats[gs.current_seat];
    match a {
        Action::Fold => true,
        Action::Check => s.bet == max_bet(gs.seats),
        Action::Call => true,
        Action::Raise(amount) => 0 < amount <= s.stack && s.bet + amount > max_bet(gs.seats),
    }
}

/// The current seat after applying a legal action: folding sets the flag;
/// checking only records the action; calling commits chips up to the maximum
/// bet, capped by the stack (all-in); raising commits the amount. Every
/// action records itself as the seat's last action this round.
pub open spec fn applied_seat(gs: GsModel, a: Action) -> Seat {
    let s = gs.seats[gs.current_seat];
    match a {
        Action::Fold => Seat { is_folded: true, last_action_in_current_round: Some(a), ..s },
        Action::Check => Seat { last_action_in_current_round: Some(a), ..s },
        Action::Call => {
            let need = if max_bet(gs.seats) > s.bet {
                max_bet(gs.seats) - s.bet
            } else {
                0int
            };
            let pay = if need <= s.stack {
                need
            } else {
                s.stack as int
            };
            Seat {
                stack: (s.stack - pay) as usize,
                bet: (s.bet + pay) as usize,
                last_action_in_current_round: Some(a),
                ..s
            }
        },
        Action::Raise(amount) => Seat {
            stack: (s.stack - amount) as usize,
            bet: (s.bet + amount) as usize,
            last_action_in_current_round: Some(a),
            ..s
        },
    }
}

/// The whole game after the current seat applies a legal action.
pub open spec fn apply_action_model(m: GameModel, a: Action) -> GameModel {
    GameModel {
        gs: GsModel {
            seats: m.gs.seats.update(m.gs.current_seat, applied_seat(m.gs, a)),
            ..m.gs
        },
        ..m
    }
}

// ---------------------------------------------------------------------------
// Turn advancement
// ---------------------------------------------------------------------------

/// The first valid seat after `start` (cyclic), scanning offsets from `k`;
/// `start` itself answers only after a full wrap.
pub open spec fn next_valid_from(seats: Seq<Seat>, start: int, k: int) -> int
    decreases seats.len() - k,
{
    if k >= seats.len() || seats.len() == 0 {
        start
    } else {
        let c = (start + 1 + k) % (seats.len() as int);
        if seat_valid(seats[c]) {
            c
        } else {
            next_valid_from(seats, start, k + 1)
        }
    }
}

/// The next valid seat after `start`, cycling with wraparound and skipping
/// folded and eliminated seats.
pub open spec fn next_valid_seat_spec(seats: Seq<Seat>, start: int) -> int {
    next_valid_from(seats, start, 0)
}

impl GameState {
    /// Advances from `seat` to the next valid seat, cyclically. Must not be
    /// called with no valid seat left.
    pub fn next_valid_seat(&self, seat: usize) -> (r: usize)
        requires
            n_valid(self@.seats) >= 1,
            seat < self@.seats.len(),
            self@.seats.len() < usize::MAX / 2,
        ensures
            r < self@.seats.len(),
            seat_valid(self@.seats[r as int]),
            r as int == next_valid_seat_spec(self@.seats, seat as int),
    {
        let n = self.seats.len();
        let mut k: usize = 0;
        while k < n
            invariant
                n == self@.seats.len(),
                0 < n < usize::MAX / 2,
                seat < n,
                k <= n,
                n_valid(self@.seats) >= 1,
                next_valid_seat_spec(self@.seats, seat as int) == next_valid_from(
                    self@.seats,
                    seat as int,
                    k as int,
                ),
                forall|k2: int|
                    0 <= k2 < k ==> !seat_valid(
                        self@.seats[#[trigger] ((seat + 1 + k2) % (n as int))],
                    ),
            decreases n - k,
        {
            let c = (seat + 1 + k) % n;
            if self.is_seat_valid(c) {
                return c;
            }
            k += 1;
        }
        proof {
            lemma_n_valid_witness(self@.seats, n as int);
            let i = choose|i: int| 0 <= i < n && seat_valid(#[trigger] self@.seats[i]);
            let k0 = if i > seat {
                i - seat - 1
            } else {
                i + n - seat - 1
            };
            assert(0 <= k0 < n);
            vstd::arithmetic::div_mod::lemma_fundamental_div_mod_converse(
                seat + 1 + k0,
                n as int,
                if i > seat {
                    0int
                } else {
                    1int
                },
                i,
            );
            assert((seat + 1 + k0) % (n as int) == i);
            assert(false);
        }
        0
    }

    /// Whether the given seat takes part in the current hand.
    pub fn is_seat_valid(&self, seat: usize) -> (r: bool)
        requires
            seat < self@.seats.len(),
        ensures
            r == seat_valid(self@.seats[seat as int]),
    {
        self.seats[seat].is_valid()
    }
}

// ---------------------------------------------------------------------------
// Exec counting helpers
// ---------------------------------------------------------------------------

/// Counts the seats still in the hand.
fn count_valid(seats: &Vec<Seat>) -> (r: usize)
    ensures
        r == n_valid(seats@),
{
    let mut r: usize = 0;
    let mut i: usize = 0;
    while i < seats.len()
        invariant
            i <= seats@.len(),
            r == n_valid_upto(seats@, i as int),
            r <= i,
        decreases seats@.len() - i,
    {
        if seats[i].is_valid() {
            r += 1;
        }
        i += 1;
    }
    r
}

/// Counts the seats not yet eliminated.
fn count_alive(seats: &Vec<Seat>) -> (r: usize)
    ensures
        r == n_alive(seats@),
{
    let mut r: usize = 0;
    let mut i: usize = 0;
    while i < seats.len()
        invariant
            i <= seats@.len(),
            r == n_alive_upto(seats@, i as int),
            r <= i,
        decreases seats@.len() - i,
    {
        if !seats[i].is_dead {
            r += 1;
        }
        i += 1;
    }
    r
}

/// The maximum bet among valid seats.
fn compute_max_bet(seats: &Vec<Seat>) -> (r: usize)
    ensures
        r == max_bet(seats@),
{
    let mut r: usize = 0;
    let mut i: usize = 0;
    while i < seats.len()
        invariant
            i <= seats@.len(),
            r == max_bet_upto(seats@, i as int),
        decreases seats@.len() - i,
    {
        if seats[i].is_valid() && seats[i].bet > r {
            r = seats[i].bet;
        }
        i += 1;
    }
    r
}

/// Sum of all current-round bets; bounded by the chips total.
fn compute_bets_sum(seats: &Vec<Seat>, total: Ghost<int>) -> (r: usize)
    requires
        chips_upto(seats@, seats@.len() as int) <= total@,
        total@ <= usize::MAX,
    ensures
        r == bets_sum_upto(seats@, seats@.len() as int),
{
    proof {
        lemma_bets_le_chips(seats@, seats@.len() as int);
    }
    let mut r: usize = 0;
    let mut i: usize = 0;
    while i < seats.len()
        invariant
            i <= seats@.len(),
            r == bets_sum_upto(seats@, i as int),
            bets_sum_upto(seats@, seats@.len() as int) <= total@,
            total@ <= usize::MAX,
        decreases seats@.len() - i,
    {
        proof {
            lemma_bets_sum_mono(seats@, i as int + 1, seats@.len() as int);
        }
        r = r + seats[i].bet;
        i += 1;
    }
    r
}

proof fn lemma_bets_le_chips(seats: Seq<Seat>, j: int)
    ensures
        bets_sum_upto(seats, j) <= chips_upto(seats, j),
    decreases j,
{
    if j > 0 {
        lemma_bets_le_chips(seats, j - 1);
    }
}

proof fn lemma_bets_sum_mono(seats: Seq<Seat>, i: int, j: int)
    requires
        0 <= i <= j <= seats.len(),
    ensures
        bets_sum_upto(seats, i) <= bets_sum_upto(seats, j),
    decreases j - i,
{
    if i < j {
        lemma_bets_sum_mono(seats, i, j - 1);
    }
}

} // verus!

verus! {

// ---------------------------------------------------------------------------
// Transition model
// ---------------------------------------------------------------------------

/// The invariant's per-field clauses, without the between-actions stability
/// clause: these hold also in the middle of a transition.
pub open spec fn base_wf(m: GameModel) -> bool {
    let gs = m.gs;
    let n = gs.seats.len() as int;
    &&& n == m.settings.n_players
    &&& 2 <= n <= 22
    &&& m.settings.initial_stack >= 1
    &&& m.settings.n_players * m.settings.initial_stack <= usize::MAX
    &&& 0 <= gs.current_seat < n
    &&& 0 <= gs.sb_seat < n
    &&& (gs.board.len() == 0 || gs.board.len() == 3 || gs.board.len() == 4 || gs.board.len() == 5)
    &&& gs.round == round_of_count(gs.board.len() as int)
    &&& m.hands.len() == n
    &&& chips_total(gs) == total_chips(m)
    &&& (!over_spec(gs.seats) ==> m.deck.len() >= 5 - gs.board.len())
    &&& distinct_cards(cards_in_play(m))
    &&& (forall|i: int|
        0 <= i < n && seat_alive(gs.seats[i]) ==> ((#[trigger] m.hands[i]) matches Some(h)
            && h.len() == 2))
    &&& (forall|i: int|
        0 <= i < n && !seat_alive(#[trigger] gs.seats[i]) ==> gs.seats[i].stack == 0
            && gs.seats[i].bet == 0 && !gs.seats[i].is_folded)
}

/// The full game invariant: between actions, a game that is not over awaits
/// a valid current seat in a round that is not yet complete.
pub open spec fn game_wf(m: GameModel) -> bool {
    &&& base_wf(m)
    &&& (!over_spec(m.gs.seats) ==> n_valid(m.gs.seats) >= 2 && seat_valid(
        m.gs.seats[m.gs.current_seat],
    ) && !round_over_spec(m.gs))
}

/// The round transition: all bets are collected into the pot, the next
/// street's cards are dealt from the back of the deck (3 on an empty board,
/// else 1), every seat's bet and last action reset, the round is re-derived
/// from the new board size, and the first valid seat after the small blind
/// acts next.
pub open spec fn next_round_model(m: GameModel) -> GameModel {
    let gs = m.gs;
    let k: int = if gs.board.len() == 0 {
        3
    } else {
        1
    };
    let drawn = Seq::new(k as nat, |i: int| m.deck[m.deck.len() - 1 - i]);
    let board2 = gs.board + drawn;
    let seats2 = Seq::new(
        gs.seats.len(),
        |i: int| Seat { bet: 0, last_action_in_current_round: None, ..gs.seats[i] },
    );
    GameModel {
        gs: GsModel {
            current_seat: next_valid_seat_spec(seats2, gs.sb_seat),
            board: board2,
            seats: seats2,
            sb_seat: gs.sb_seat,
            pot: gs.pot + bets_sum(gs.seats),
            round: round_of_count(board2.len() as int),
        },
        deck: m.deck.take(m.deck.len() - k),
        ..m
    }
}

// ---------------------------------------------------------------------------
// Showdown model
// ---------------------------------------------------------------------------

/// Seat `i` takes part in the showdown: it neither folded nor is eliminated.
pub open spec fn participant(m: GameModel, i: int) -> bool {
    0 <= i < m.gs.seats.len() && seat_valid(m.gs.seats[i])
}

/// The 7 cards seat `i` can build hands from: its private cards plus the board.
pub open spec fn seat_cards(m: GameModel, i: int) -> Seq<Card> {
    m.hands[i]->Some_0 + m.gs.board
}

/// Seat `i`'s cards admit, for every 5-card hand of seat `j`'s cards, a
/// 5-card hand at least as strong.
#[verifier::opaque]
pub open spec fn showdown_beats(m: GameModel, i: int, j: int) -> bool {
    forall|sb: Seq<Card>|
        sb.len() == 5 && is_subseq_of(sb, seat_cards(m, j)) ==> exists|sa: Seq<Card>|
            sa.len() == 5 && is_subseq_of(sa, seat_cards(m, i)) && hand_cmp(sa, sb)
                != Ordering::Less
}

/// A winner of the showdown: a participant whose cards beat every
/// participant's cards.
#[verifier::opaque]
pub open spec fn is_winner(m: GameModel, i: int) -> bool {
    participant(m, i) && forall|j: int| participant(m, j) ==> showdown_beats(m, i, j)
}

/// Number of winners among the first `j` seats.
pub open spec fn winners_upto(m: GameModel, j: int) -> nat
    decreases j,
{
    if j <= 0 {
        0
    } else {
        winners_upto(m, j - 1) + if is_winner(m, j - 1) {
            1nat
        } else {
            0nat
        }
    }
}

pub open spec fn winners_count(m: GameModel) -> nat {
    winners_upto(m, m.gs.seats.len() as int)
}

/// The lowest-numbered winning seat at or after `j` (the seat count when
/// there is none).
pub open spec fn first_winner_from(m: GameModel, j: int) -> int
    decreases m.gs.seats.len() - j,
{
    if j < 0 || j >= m.gs.seats.len() {
        m.gs.seats.len() as int
    } else if is_winner(m, j) {
        j
    } else {
        first_winner_from(m, j + 1)
    }
}

/// A seat after the showdown: each winner receives an equal share of the pot
/// (bets included), the lowest-numbered winner any odd remainder; a seat
/// whose stack reaches zero is eliminated for all future hands; bets, folds
/// and last actions reset for the next hand.
#[verifier::opaque]
pub open spec fn settled_seat(m: GameModel, i: int) -> Seat {
    let s = m.gs.seats[i];
    let pot_total = m.gs.pot + bets_sum(m.gs.seats);
    let w = winners_count(m) as int;
    let share = pot_total / w;
    let rem = pot_total % w;
    let stack2 = s.stack + if is_winner(m, i) {
        share + if i == first_winner_from(m, 0) {
            rem
        } else {
            0int
        }
    } else {
        0int
    };
    Seat {
        stack: stack2 as usize,
        bet: 0,
        is_folded: false,
        is_dead: s.is_dead || stack2 == 0,
        last_action_in_current_round: None,
    }
}

pub open spec fn settled_seats(m: GameModel) -> Seq<Seat> {
    Seq::new(m.gs.seats.len(), |i: int| settled_seat(m, i))
}

/// The hand transition at showdown: the pot is paid out and losers with
/// empty stacks eliminated (`settled_seats`); then, unless the game is over,
/// the small blind advances to the next seat in the game, a fresh shuffled
/// deck deals two cards to every such seat, and the first of them after the
/// small blind opens the new PreFlop round. What the shuffle dealt is
/// unknowable; that the dealt cards and the rest of the deck are exactly one
/// full deck is not.
pub open spec fn next_hand_rel(m: GameModel, m2: GameModel) -> bool {
    let seats2 = settled_seats(m);
    &&& m2.settings == m.settings
    &&& m2.hand_count == if m.hand_count < usize::MAX {
        m.hand_count + 1
    } else {
        m.hand_count
    }
    &&& m2.gs.seats == seats2
    &&& m2.gs.pot == 0
    &&& m2.gs.board == Seq::<Card>::empty()
    &&& m2.gs.round == Round::PreFlop
    &&& if over_spec(seats2) {
        m2.gs.sb_seat == m.gs.sb_seat && m2.gs.current_seat == m.gs.current_seat && m2.hands
            == m.hands && m2.deck == m.deck
    } else {
        &&& m2.gs.sb_seat == next_valid_seat_spec(seats2, m.gs.sb_seat)
        &&& m2.gs.current_seat == next_valid_seat_spec(seats2, m2.gs.sb_seat)
        &&& m2.hands.len() == seats2.len()
        &&& (forall|i: int|
            0 <= i < seats2.len() ==> if seat_alive(#[trigger] seats2[i]) {
                m2.hands[i] matches Some(h) && h.len() == 2
            } else {
                m2.hands[i] is None
            })
        &&& m2.deck.len() == 52 - 2 * n_alive(seats2)
        &&& (forall|c: Card| card_occurs(cards_in_play(m2), c) == card_occurs(full_deck(), c))
    }
}

/// What one submitted action does after it is applied to the current seat:
/// as long as the round is over the game advances (showdown and a new hand
/// on a full board, else the next street); otherwise the turn passes to the
/// next valid seat.
pub open spec fn logic_rel(m: GameModel, m2: GameModel) -> bool
    decreases 5 - m.gs.board.len()
        when m.gs.board.len() <= 5
{
    if round_over_spec(m.gs) {
        if m.gs.board.len() >= 5 {
            next_hand_rel(m, m2)
        } else {
            let m1 = next_round_model(m);
            if round_over_spec(m1.gs) {
                logic_rel(m1, m2)
            } else {
                m2 == m1
            }
        }
    } else {
        m2 == GameModel {
            gs: GsModel {
                current_seat: next_valid_seat_spec(m.gs.seats, m.gs.current_seat),
                ..m.gs
            },
            ..m
        }
    }
}

} // verus!

verus! {

/// The public snapshot of a game: per-seat public fields, the board, the
/// pot, the round and the acting seat. It holds no seat's private cards.
pub struct ObservableState {
    pub seats: Vec<Seat>,
    pub board: Vec<Card>,
    pub pot: usize,
    pub round: Round,
    pub current_seat: usize,
}

fn copy_seats(v: &Vec<Seat>) -> (r: Vec<Seat>)
    ensures
        r@ == v@,
{
    let mut r: Vec<Seat> = Vec::new();
    let mut i: usize = 0;
    while i < v.len()
        invariant
            i <= v@.len(),
            r@ == v@.take(i as int),
        decreases v@.len() - i,
    {
        r.push(v[i]);
        proof {
            assert(r@ =~= v@.take(i as int + 1));
        }
        i += 1;
    }
    proof {
        assert(v@.take(v@.len() as int) =~= v@);
    }
    r
}

fn copy_board_cards(v: &Vec<Card>) -> (r: Vec<Card>)
    ensures
        r@ == v@,
{
    let mut r: Vec<Card> = Vec::new();
    let mut i: usize = 0;
    while i < v.len()
        invariant
            i <= v@.len(),
            r@ == v@.take(i as int),
        decreases v@.len() - i,
    {
        r.push(v[i]);
        proof {
            assert(r@ =~= v@.take(i as int + 1));
        }
        i += 1;
    }
    proof {
        assert(v@.take(v@.len() as int) =~= v@);
    }
    r
}

impl Game {
    /// The current betting round is over when at most one valid seat remains,
    /// or every valid seat has acted and every valid seat not all-in matches
    /// the maximum bet.
    fn is_round_over(game_state: &GameState) -> (r: bool)
        ensures
            r == round_over_spec(game_state@),
    {
        let nv = count_valid(&game_state.seats);
        if nv <= 1 {
            return true;
        }
        let maxb = compute_max_bet(&game_state.seats);
        let n = game_state.seats.len();
        let mut i: usize = 0;
        while i < n
            invariant
                n == game_state@.seats.len(),
                i <= n,
                maxb == max_bet(game_state@.seats),
                nv == n_valid(game_state@.seats),
                nv > 1,
                forall|k: int|
                    0 <= k < i && seat_valid(#[trigger] game_state@.seats[k])
                        ==> game_state@.seats[k].last_action_in_current_round is Some && (
                    game_state@.seats[k].bet == maxb || game_state@.seats[k].stack == 0),
            decreases n - i,
        {
            let s = game_state.seats[i];
            if s.is_valid() {
                if s.last_action_in_current_round.is_none() {
                    return false;
                }
                if s.bet != maxb && s.stack != 0 {
                    return false;
                }
            }
            i += 1;
        }
        true
    }

    /// The hand is over when the betting round is over at the River.
    fn is_hand_over(&self) -> (r: bool)
        requires
            self@.gs.round == round_of_count(self@.gs.board.len() as int),
            self@.gs.board.len() == 0 || self@.gs.board.len() == 3 || self@.gs.board.len() == 4
                || self@.gs.board.len() == 5,
        ensures
            r == hand_over_spec(self@.gs),
    {
        Self::is_round_over(&self.game_state) && matches!(self.game_state.round, Round::River)
    }

    /// Re-derives the round from the board size; a size no round denotes is
    /// an internal invariant break.
    fn update_round(&mut self) -> (r: Result<(), GameError>)
        ensures
            (old(self)@.gs.board.len() == 0 || old(self)@.gs.board.len() == 3 || old(
                self,
            )@.gs.board.len() == 4 || old(self)@.gs.board.len() == 5) ==> (r matches Ok(u)
                && final(self)@ == (GameModel {
                gs: GsModel {
                    round: round_of_count(old(self)@.gs.board.len() as int),
                    ..old(self)@.gs
                },
                ..old(self)@
            })),
            !(old(self)@.gs.board.len() == 0 || old(self)@.gs.board.len() == 3 || old(
                self,
            )@.gs.board.len() == 4 || old(self)@.gs.board.len() == 5) ==> (r matches Err(e) && e
                == GameError::InvalidRoundCardCount && final(self)@ == old(self)@),
    {
        let card_count = self.game_state.board.card_count();
        match Round::from_card_count(card_count) {
            Ok(rd) => {
                self.game_state.round = rd;
                Ok(())
            },
            Err(e) => Err(e),
        }
    }

    /// Passes the turn to the next valid seat, cycling with wraparound.
    fn next_turn(&mut self)
        requires
            n_valid(old(self)@.gs.seats) >= 1,
            0 <= old(self)@.gs.current_seat < old(self)@.gs.seats.len(),
            old(self)@.gs.seats.len() <= 22,
        ensures
            final(self)@ == (GameModel {
                gs: GsModel {
                    current_seat: next_valid_seat_spec(
                        old(self)@.gs.seats,
                        old(self)@.gs.current_seat,
                    ),
                    ..old(self)@.gs
                },
                ..old(self)@
            }),
            seat_valid(final(self)@.gs.seats[final(self)@.gs.current_seat]),
            0 <= final(self)@.gs.current_seat < final(self)@.gs.seats.len(),
    {
        let c = self.game_state.next_valid_seat(self.game_state.current_seat);
        self.game_state.current_seat = c;
    }

    /// Applies one action of the current seat, after validating it: an
    /// illegal action is rejected with no state change.
    fn handle_action(&mut self, action: Action) -> (r: Result<(), GameError>)
        requires
            game_wf(old(self)@),
            !over_spec(old(self)@.gs.seats),
        ensures
            r is Ok <==> action_valid(old(self)@.gs, action),
            r is Err ==> (r matches Err(e) && e == GameError::InvalidAction) && final(self)@ == old(
                self,
            )@,
            r is Ok ==> final(self)@ == apply_action_model(old(self)@, action) && base_wf(
                final(self)@,
            ) && n_valid(final(self)@.gs.seats) >= 1 && !over_spec(final(self)@.gs.seats),
    {
        let ghost m0 = self@;
        let cur = self.game_state.current_seat;
        let maxb = compute_max_bet(&self.game_state.seats);
        let s = self.game_state.seats[cur];
        proof {
            lemma_chips_bound(m0.gs.seats, cur as int, m0.gs.seats.len() as int);
            lemma_chips_nonneg(m0.gs.seats, m0.gs.seats.len() as int);
            lemma_max_bet_in_chips(m0.gs.seats, m0.gs.seats.len() as int);
        }
        let s2 = match action {
            Action::Fold => Seat {
                is_folded: true,
                last_action_in_current_round: Some(action),
                ..s
            },
            Action::Check => {
                if s.bet != maxb {
                    return Err(GameError::InvalidAction);
                }
                Seat { last_action_in_current_round: Some(action), ..s }
            },
            Action::Call => {
                let need = if maxb > s.bet {
                    maxb - s.bet
                } else {
                    0
                };
                let pay = if need <= s.stack {
                    need
                } else {
                    s.stack
                };
                Seat {
                    stack: s.stack - pay,
                    bet: s.bet + pay,
                    last_action_in_current_round: Some(action),
                    ..s
                }
            },
            Action::Raise(amount) => {
                if amount == 0 || amount > s.stack {
                    return Err(GameError::InvalidAction);
                }
                if s.bet + amount <= maxb {
                    return Err(GameError::InvalidAction);
                }
                Seat {
                    stack: s.stack - amount,
                    bet: s.bet + amount,
                    last_action_in_current_round: Some(action),
                    ..s
                }
            },
        };
        self.game_state.seats[cur] = s2;
        proof {
            assert(s2 == applied_seat(m0.gs, action));
            assert(self@.gs.seats =~= m0.gs.seats.update(cur as int, s2));
            assert(self@ == apply_action_model(m0, action)) by {
                assert(self@.gs == apply_action_model(m0, action).gs);
            }
            lemma_chips_update(m0.gs.seats, cur as int, s2, m0.gs.seats.len() as int);
            lemma_n_valid_update(m0.gs.seats, cur as int, s2, m0.gs.seats.len() as int);
            lemma_n_alive_congruent(m0.gs.seats, self@.gs.seats, m0.gs.seats.len() as int);
            assert(cards_in_play(self@) =~= cards_in_play(m0));
            assert forall|i: int|
                0 <= i < self@.gs.seats.len() && seat_alive(self@.gs.seats[i]) implies (
            #[trigger] self@.hands[i]) matches Some(h) && h.len() == 2 by {
                assert(seat_alive(m0.gs.seats[i]));
            }
        }
        Ok(())
    }

    /// The index of the seat whose turn it is.
    pub fn current_seat(&self) -> (r: usize)
        ensures
            r == self@.gs.current_seat,
    {
        self.game_state.current_seat
    }

    /// The game is over once at most one seat remains un-eliminated.
    pub fn over(&self) -> (r: bool)
        ensures
            r == over_spec(self@.gs.seats),
    {
        count_alive(&self.game_state.seats) <= 1
    }

    /// The public snapshot handed to players and spectators: no private
    /// cards, only per-seat public fields, the board, pot, round and acting
    /// seat.
    pub fn get_observable_state(&self) -> (r: ObservableState)
        ensures
            r.seats@ == self@.gs.seats,
            r.board@ == self@.gs.board,
            r.pot == self@.gs.pot,
            r.round == self@.gs.round,
            r.current_seat == self@.gs.current_seat,
    {
        ObservableState {
            seats: copy_seats(&self.game_state.seats),
            board: copy_board_cards(self.game_state.board.cards()),
            pot: self.game_state.pot,
            round: self.game_state.round,
            current_seat: self.game_state.current_seat,
        }
    }
}

/// The maximum bet is a bet some valid seat holds (or zero), so it is
/// bounded by the chips in the seats.
proof fn lemma_max_bet_in_chips(seats: Seq<Seat>, j: int)
    requires
        j <= seats.len(),
    ensures
        max_bet_upto(seats, j) <= chips_upto(seats, j),
    decreases j,
{
    if j > 0 {
        lemma_max_bet_in_chips(seats, j - 1);
        lemma_chips_nonneg(seats, j - 1);
    }
}

} // verus!

verus! {

/// A sequence whose cards are dealt to the first `j` alive seats: two each.
proof fn lemma_hands_cards_congruent(h1: Seq<Option<Seq<Card>>>, h2: Seq<Option<Seq<Card>>>, j: int)
    requires
        j <= h1.len(),
        j <= h2.len(),
        forall|k: int| 0 <= k < j ==> h1[k] == h2[k],
    ensures
        hands_cards(h1, j) == hands_cards(h2, j),
    decreases j,
{
    if j > 0 {
        lemma_hands_cards_congruent(h1, h2, j - 1);
    }
}

impl Game {
    /// Ends the current betting round: collects every bet into the pot,
    /// deals the next street's community cards, resets bets and last
    /// actions, re-derives the round, and hands the turn to the first valid
    /// seat after the small blind.
    #[verifier::rlimit(60)]
    fn next_round(&mut self)
        requires
            base_wf(old(self)@),
            old(self)@.gs.board.len() < 5,
            n_valid(old(self)@.gs.seats) >= 1,
            !over_spec(old(self)@.gs.seats),
        ensures
            final(self)@ == next_round_model(old(self)@),
            base_wf(final(self)@),
            n_valid(final(self)@.gs.seats) >= 1,
            !over_spec(final(self)@.gs.seats),
            final(self)@.gs.board.len() > old(self)@.gs.board.len(),
            final(self)@.gs.board.len() <= 5,
            0 <= final(self)@.gs.current_seat < final(self)@.gs.seats.len(),
            seat_valid(final(self)@.gs.seats[final(self)@.gs.current_seat]),
    {
        let ghost m0 = self@;
        let ghost mgoal = next_round_model(m0);
        let n = self.game_state.seats.len();
        proof {
            lemma_bets_le_chips(m0.gs.seats, n as int);
            lemma_bets_sum_nonneg(m0.gs.seats, n as int);
        }
        let bets = compute_bets_sum(&self.game_state.seats, Ghost(total_chips(m0)));
        self.game_state.pot = self.game_state.pot + bets;
        let mut i: usize = 0;
        while i < n
            invariant
                n == self@.gs.seats.len(),
                i <= n,
                forall|k: int|
                    0 <= k < i ==> #[trigger] self@.gs.seats[k] == (Seat {
                        bet: 0,
                        last_action_in_current_round: None,
                        ..m0.gs.seats[k]
                    }),
                forall|k: int| i <= k < n ==> #[trigger] self@.gs.seats[k] == m0.gs.seats[k],
                self@.gs.board == m0.gs.board,
                self@.gs.pot == m0.gs.pot + bets_sum(m0.gs.seats),
                self@.gs.sb_seat == m0.gs.sb_seat,
                self@.gs.current_seat == m0.gs.current_seat,
                self@.gs.round == m0.gs.round,
                self@.hands == m0.hands,
                self@.deck == m0.deck,
                self@.settings == m0.settings,
                self@.hand_count == m0.hand_count,
            decreases n - i,
        {
            let s = self.game_state.seats[i];
            self.game_state.seats[i] = Seat { bet: 0, last_action_in_current_round: None, ..s };
            i += 1;
        }
        let ghost seats2 = Seq::new(
            m0.gs.seats.len(),
            |k: int| Seat { bet: 0, last_action_in_current_round: None, ..m0.gs.seats[k] },
        );
        proof {
            assert(self@.gs.seats =~= seats2);
            lemma_n_valid_congruent(seats2, m0.gs.seats, n as int);
            lemma_n_alive_congruent(seats2, m0.gs.seats, n as int);
        }
        let k: usize = if self.game_state.board.card_count() == 0 {
            3
        } else {
            1
        };
        let ghost drawn = Seq::new(k as nat, |d: int| m0.deck[m0.deck.len() - 1 - d]);
        let mut j: usize = 0;
        while j < k
            invariant
                j <= k,
                k == (if m0.gs.board.len() == 0 {
                    3int
                } else {
                    1int
                }),
                m0.gs.board.len() < 5,
                m0.gs.board.len() + k <= 5,
                m0.deck.len() >= k,
                drawn == Seq::new(k as nat, |d: int| m0.deck[m0.deck.len() - 1 - d]),
                self@.gs.board == m0.gs.board + drawn.take(j as int),
                self@.deck == m0.deck.take(m0.deck.len() - j),
                self@.gs.seats == seats2,
                self@.gs.pot == m0.gs.pot + bets_sum(m0.gs.seats),
                self@.gs.sb_seat == m0.gs.sb_seat,
                self@.gs.current_seat == m0.gs.current_seat,
                self@.gs.round == m0.gs.round,
                self@.hands == m0.hands,
                self@.settings == m0.settings,
                self@.hand_count == m0.hand_count,
            decreases k - j,
        {
            proof {
                assert(self@.deck.len() == m0.deck.len() - j);
                assert(self@.deck.last() == m0.deck[m0.deck.len() - 1 - j]);
            }
            let c = match self.deck.draw_card() {
                Ok(c) => c,
                Err(_) => {
                    proof {
                        assert(false);
                    }
                    Card::new(crate::card::Suit::Spades, crate::card::Value::Ace)
                },
            };
            let add = self.game_state.board.add_card(c);
            proof {
                assert(add is Ok);
                assert(self@.gs.board =~= m0.gs.board + drawn.take(j as int + 1));
                assert(m0.deck.take(m0.deck.len() - j).drop_last() =~= m0.deck.take(
                    m0.deck.len() - (j + 1),
                ));
            }
            j += 1;
        }
        proof {
            assert(self@.gs.board =~= m0.gs.board + drawn);
        }
        match self.update_round() {
            Ok(u) => {},
            Err(_) => {
                proof {
                    assert(false);
                }
            },
        }
        let cur = self.game_state.next_valid_seat(self.game_state.sb_seat);
        self.game_state.current_seat = cur;
        proof {
            assert(self@.gs == mgoal.gs);
            assert(self@ == mgoal);
            // the chips total is kept: the bets moved into the pot
            lemma_chips_split_bets(m0.gs.seats, seats2, n as int);
            // every card stays in play: the dealt cards moved from deck to board
            assert forall|c: Card| card_occurs(cards_in_play(self@), c) == card_occurs(
                cards_in_play(m0),
                c,
            ) by {
                lemma_occurs_board_deal(m0.gs.board, hands_cards(m0.hands, m0.hands.len() as int),
                    m0.deck, drawn, c);
            }
            assert(distinct_cards(cards_in_play(self@))) by {
                assert forall|c: Card| card_occurs(cards_in_play(self@), c) <= 1 by {
                    lemma_distinct_to_occurs(cards_in_play(m0), c);
                }
                lemma_occurs_to_distinct(cards_in_play(self@));
            }
        }
    }
}

/// Moving the last `drawn.len()` cards of the deck onto the end of the board
/// keeps every card's occurrence count in play.
proof fn lemma_occurs_board_deal(
    board: Seq<Card>,
    flat: Seq<Card>,
    deck: Seq<Card>,
    drawn: Seq<Card>,
    c: Card,
)
    requires
        drawn.len() <= deck.len(),
        forall|d: int| 0 <= d < drawn.len() ==> #[trigger] drawn[d] == deck[deck.len() - 1 - d],
    ensures
        card_occurs(board + drawn + flat + deck.take(deck.len() - drawn.len()), c) == card_occurs(
            board + flat + deck,
            c,
        ),
    decreases drawn.len(),
{
    let ll = deck.len() as int;
    let kk = drawn.len() as int;
    if kk == 0 {
        assert(board + drawn + flat + deck.take(ll - 0) =~= board + flat + deck);
    } else {
        let drawn1 = drawn.drop_last();
        let x = drawn.last();
        lemma_occurs_board_deal(board, flat, deck, drawn1, c);
        assert(x == deck[ll - kk]);
        let t_small = deck.take(ll - kk);
        let t_big = deck.take(ll - kk + 1);
        assert(t_big.drop_last() =~= t_small);
        assert(t_big.last() == deck[ll - kk]);
        lemma_occurs_concat(board, drawn, c);
        lemma_occurs_concat(board, drawn1, c);
        lemma_occurs_concat(board + drawn, flat, c);
        lemma_occurs_concat(board + drawn1, flat, c);
        lemma_occurs_concat(board + drawn + flat, t_small, c);
        lemma_occurs_concat(board + drawn1 + flat, t_big, c);
        assert(card_occurs(drawn, c) == card_occurs(drawn1, c) + (if x == c {
            1nat
        } else {
            0nat
        }));
        assert(card_occurs(t_big, c) == card_occurs(t_small, c) + (if t_big.last() == c {
            1nat
        } else {
            0nat
        }));
    }
}

} // verus!

verus! {

/// A fresh deck holds no card twice: block and offset decode the index.
proof fn lemma_full_deck_distinct()
    ensures
        distinct_cards(full_deck()),
{
    assert forall|k1: int, k2: int| 0 <= k1 < k2 < 52 implies full_deck()[k1] != full_deck()[k2] by {
        vstd::arithmetic::div_mod::lemma_fundamental_div_mod(k1, 13);
        vstd::arithmetic::div_mod::lemma_fundamental_div_mod(k2, 13);
        vstd::arithmetic::div_mod::lemma_mod_bound(k1, 13);
        vstd::arithmetic::div_mod::lemma_mod_bound(k2, 13);
        assert(0 <= k1 / 13 < 4 && 0 <= k2 / 13 < 4) by (nonlinear_arith)
            requires 0 <= k1 < 52 && 0 <= k2 < 52;
        lemma_value_index_bijective_local();
        if full_deck()[k1] == full_deck()[k2] {
            assert(crate::deck::deck_suit(k1 / 13) == crate::deck::deck_suit(k2 / 13));
            assert(k1 / 13 == k2 / 13);
            assert(crate::card::value_of_index(12 - (k1 % 13)) == crate::card::value_of_index(
                12 - (k2 % 13),
            ));
            assert(k1 % 13 == k2 % 13);
            assert(false);
        }
    }
}

proof fn lemma_value_index_bijective_local()
    ensures
        forall|i: int|
            0 <= i < 13 ==> crate::card::value_index(#[trigger] crate::card::value_of_index(i))
                == i,
{
    crate::card::lemma_value_index_bijective();
}

proof fn lemma_n_alive_upto_le(seats: Seq<Seat>, j: int)
    requires
        0 <= j,
    ensures
        n_alive_upto(seats, j) <= j,
    decreases j,
{
    if j > 0 {
        lemma_n_alive_upto_le(seats, j - 1);
    }
}

impl Game {
    /// Deals a new hand: builds a fresh 52-card deck, shuffles it through the
    /// game's generator, and deals two private cards to every seat still in
    /// the game. The dealt cards plus the rest of the deck are exactly one
    /// full deck.
    fn deal(&mut self)
        requires
            old(self)@.gs.board.len() == 0,
            old(self)@.gs.seats.len() <= 22,
        ensures
            final(self)@.gs == old(self)@.gs,
            final(self)@.settings == old(self)@.settings,
            final(self)@.hand_count == old(self)@.hand_count,
            final(self)@.hands.len() == final(self)@.gs.seats.len(),
            forall|i: int|
                0 <= i < final(self)@.gs.seats.len() ==> (if seat_alive(#[trigger] final(self)@.gs.seats[i]) {
                    final(self)@.hands[i] matches Some(h) && h.len() == 2
                } else {
                    final(self)@.hands[i] is None
                }),
            final(self)@.deck.len() == 52 - 2 * n_alive(final(self)@.gs.seats),
            forall|c: Card|
                card_occurs(cards_in_play(final(self)@), c) == card_occurs(full_deck(), c),
    {
        self.deck = Deck::new();
        self.deck.shuffle(&mut self.rng);
        let n = self.game_state.seats.len();
        let mut new_hands: Vec<Option<PlayerHand>> = Vec::new();
        let mut i: usize = 0;
        while i < n
            invariant
                n == self@.gs.seats.len() <= 22,
                i <= n,
                new_hands@.len() == i,
                self@.gs == old(self)@.gs,
                self@.settings == old(self)@.settings,
                self@.hand_count == old(self)@.hand_count,
                forall|j: int|
                    0 <= j < i ==> (if seat_alive(#[trigger] self@.gs.seats[j]) {
                        hands_view(new_hands@)[j] matches Some(h) && h.len() == 2
                    } else {
                        hands_view(new_hands@)[j] is None
                    }),
                self@.deck.len() == 52 - 2 * n_alive_upto(self@.gs.seats, i as int),
                forall|c: Card|
                    card_occurs(
                        hands_cards(hands_view(new_hands@), i as int) + self@.deck,
                        c,
                    ) == card_occurs(full_deck(), c),
            decreases n - i,
        {
            let ghost hv0 = hands_view(new_hands@);
            let ghost deck0 = self@.deck;
            proof {
                lemma_n_alive_upto_le(self@.gs.seats, i as int);
            }
            if self.game_state.seats[i].is_dead {
                new_hands.push(None);
                proof {
                    let hv1 = hands_view(new_hands@);
                    lemma_hands_cards_congruent(hv1, hv0, i as int);
                    assert(hands_cards(hv1, i as int + 1) =~= hands_cards(hv0, i as int));
                }
            } else {
                let h = match self.deck.draw_hand() {
                    Ok(h) => h,
                    Err(_) => {
                        proof {
                            assert(false);
                        }
                        PlayerHand::new(
                            Card::new(crate::card::Suit::Spades, crate::card::Value::Ace),
                            Card::new(crate::card::Suit::Spades, crate::card::Value::Ace),
                        )
                    },
                };
                let ghost c1 = deck0[deck0.len() - 1];
                let ghost c2 = deck0[deck0.len() - 2];
                new_hands.push(Some(h));
                proof {
                    let hv1 = hands_view(new_hands@);
                    lemma_hands_cards_congruent(hv1, hv0, i as int);
                    assert(hands_cards(hv1, i as int + 1) =~= hands_cards(hv0, i as int) + h@);
                    assert forall|c: Card|
                        card_occurs(
                            hands_cards(hv1, i as int + 1) + self@.deck,
                            c,
                        ) == card_occurs(full_deck(), c) by {
                        lemma_occurs_concat(hands_cards(hv0, i as int), deck0, c);
                        lemma_occurs_concat(hands_cards(hv0, i as int) + h@, self@.deck, c);
                        lemma_occurs_concat(hands_cards(hv0, i as int), h@, c);
                        assert(h@.drop_last() =~= seq![c1]);
                        assert(seq![c1].drop_last() =~= Seq::<Card>::empty());
                        assert(card_occurs(Seq::<Card>::empty(), c) == 0);
                        assert(card_occurs(seq![c1], c) == (if c1 == c {
                            1nat
                        } else {
                            0nat
                        }));
                        assert(card_occurs(h@, c) == (if c1 == c {
                            1nat
                        } else {
                            0nat
                        }) + (if c2 == c {
                            1nat
                        } else {
                            0nat
                        }));
                        assert(deck0.take(deck0.len() - 2) =~= deck0.drop_last().drop_last());
                        assert(card_occurs(deck0.drop_last(), c) == card_occurs(
                            deck0.drop_last().drop_last(),
                            c,
                        ) + (if c2 == c {
                            1nat
                        } else {
                            0nat
                        }));
                        assert(card_occurs(deck0, c) == card_occurs(self@.deck, c) + (if c1 == c {
                            1nat
                        } else {
                            0nat
                        }) + (if c2 == c {
                            1nat
                        } else {
                            0nat
                        }));
                    }
                }
            }
            i += 1;
        }
        self.hands = new_hands;
        proof {
            assert(self@.gs.board + hands_cards(self@.hands, n as int) + self@.deck =~= hands_cards(
                self@.hands,
                n as int,
            ) + self@.deck);
        }
    }
}

} // verus!

verus! {

/// `h` is a best 5-card hand of seat `i`: one of its subsets, ranked above
/// none of them.
pub open spec fn best_of(m: GameModel, i: int, h: Seq<Card>) -> bool {
    &&& valid_hand(h)
    &&& is_subseq_of(h, seat_cards(m, i))
    &&& forall|sub: Seq<Card>|
        sub.len() == 5 && is_subseq_of(sub, seat_cards(m, i)) ==> hand_cmp(sub, h)
            != Ordering::Greater
}

/// A dealt hand occurs within the cards dealt to all seats.
proof fn lemma_hands_part(hands: Seq<Option<Seq<Card>>>, i: int, j: int, c: Card)
    requires
        0 <= i < j <= hands.len(),
        hands[i] is Some,
    ensures
        card_occurs(hands_cards(hands, j), c) >= card_occurs(hands[i]->Some_0, c),
    decreases j,
{
    if i < j - 1 {
        lemma_hands_part(hands, i, j - 1, c);
        lemma_occurs_concat(
            hands_cards(hands, j - 1),
            match hands[j - 1] {
                Some(h) => h,
                None => Seq::empty(),
            },
            c,
        );
    } else {
        lemma_occurs_concat(hands_cards(hands, j - 1), hands[i]->Some_0, c);
    }
}

/// No card of the game repeats, so a seat's private cards plus the board are
/// pairwise distinct.
proof fn lemma_seat_cards_distinct(m: GameModel, i: int)
    requires
        distinct_cards(cards_in_play(m)),
        0 <= i < m.hands.len(),
        m.hands[i] is Some,
    ensures
        distinct_cards(m.hands[i]->Some_0 + m.gs.board),
{
    let h = m.hands[i]->Some_0;
    let flat = hands_cards(m.hands, m.hands.len() as int);
    assert forall|c: Card| card_occurs(h + m.gs.board, c) <= 1 by {
        lemma_distinct_to_occurs(cards_in_play(m), c);
        lemma_occurs_concat(m.gs.board + flat, m.deck, c);
        lemma_occurs_concat(m.gs.board, flat, c);
        lemma_occurs_concat(h, m.gs.board, c);
        lemma_hands_part(m.hands, i, m.hands.len() as int, c);
    }
    lemma_occurs_to_distinct(h + m.gs.board);
}

impl Game {
    /// Decides the showdown: exactly the participants whose cards admit a
    /// 5-card hand at least as strong as every 5-card hand any participant
    /// can build are marked winners, and at least one seat is.
    #[verifier::rlimit(60)]
    fn compute_winners(&self) -> (w: Vec<bool>)
        requires
            base_wf(self@),
            self@.gs.board.len() >= 3,
            n_valid(self@.gs.seats) >= 1,
        ensures
            w@.len() == self@.gs.seats.len(),
            forall|i: int| 0 <= i < w@.len() ==> w@[i] == is_winner(self@, i),
            exists|i: int| 0 <= i < w@.len() && w@[i],
    {
        let ghost m = self@;
        let n = self.game_state.seats.len();
        let mut bests: Vec<Option<PokerHand>> = Vec::new();
        let mut i: usize = 0;
        while i < n
            invariant
                m == self@,
                base_wf(m),
                m.gs.board.len() >= 3,
                n == m.gs.seats.len(),
                i <= n,
                bests@.len() == i,
                forall|j: int|
                    0 <= j < i && participant(m, j) ==> ((#[trigger] bests@[j]) matches Some(h)
                        && best_of(m, j, h@)),
            decreases n - i,
        {
            if self.game_state.seats[i].is_valid() {
                let b = match &self.hands[i] {
                    Some(ph) => {
                        proof {
                            assert(seat_alive(m.gs.seats[i as int]));
                            assert(m.hands[i as int] matches Some(hh) && hh.len() == 2);
                            lemma_seat_cards_distinct(m, i as int);
                        }
                        match self.game_state.board.best_poker_hand(ph) {
                            Ok(h) => Some(h),
                            Err(_) => {
                                proof {
                                    assert(false);
                                }
                                None
                            },
                        }
                    },
                    None => {
                        proof {
                            assert(seat_alive(m.gs.seats[i as int]));
                            assert(false);
                        }
                        None
                    },
                };
                bests.push(b);
            } else {
                bests.push(None);
            }
            i += 1;
        }
        let mut champ: usize = 0;
        let mut found = false;
        let mut i: usize = 0;
        while i < n
            invariant
                m == self@,
                n == m.gs.seats.len(),
                i <= n,
                bests@.len() == n,
                forall|j: int|
                    0 <= j < n && participant(m, j) ==> ((#[trigger] bests@[j]) matches Some(h)
                        && best_of(m, j, h@)),
                found ==> champ < n && participant(m, champ as int) && (forall|j: int|
                    0 <= j < i && participant(m, j) ==> hand_cmp(
                        (#[trigger] bests@[j])->Some_0@,
                        bests@[champ as int]->Some_0@,
                    ) != Ordering::Greater),
                !found ==> (forall|j: int| 0 <= j < i ==> !participant(m, j)),
            decreases n - i,
        {
            if self.game_state.seats[i].is_valid() {
                if !found {
                    champ = i;
                    found = true;
                    proof {
                        lemma_compare_reflexive(bests@[i as int]->Some_0@);
                    }
                } else {
                    let c_ord = match (&bests[champ], &bests[i]) {
                        (Some(a), Some(b)) => a.compare(b),
                        _ => {
                            proof {
                                assert(false);
                            }
                            Ordering::Equal
                        },
                    };
                    proof {
                        let bc = bests@[champ as int]->Some_0@;
                        let bi = bests@[i as int]->Some_0@;
                        if hand_cmp(bc, bi) == Ordering::Less {
                            assert forall|j: int| 0 <= j < i + 1 && participant(m, j) implies
                                hand_cmp(
                                (#[trigger] bests@[j])->Some_0@,
                                bi,
                            ) != Ordering::Greater by {
                                if j < i {
                                    lemma_compare_transitive(bests@[j]->Some_0@, bc, bi);
                                } else {
                                    lemma_compare_reflexive(bi);
                                }
                            }
                        } else {
                            lemma_compare_antisymmetric(bc, bi);
                        }
                    }
                    if matches!(c_ord, Ordering::Less) {
                        champ = i;
                    }
                }
            }
            i += 1;
        }
        proof {
            lemma_n_valid_witness(m.gs.seats, n as int);
            let jv = choose|j: int| 0 <= j < n && seat_valid(#[trigger] m.gs.seats[j]);
            assert(participant(m, jv));
            assert(found);
        }
        let ghost bc = bests@[champ as int]->Some_0@;
        let mut w: Vec<bool> = Vec::new();
        let mut i: usize = 0;
        while i < n
            invariant
                m == self@,
                n == m.gs.seats.len(),
                i <= n,
                w@.len() == i,
                bests@.len() == n,
                champ < n,
                participant(m, champ as int),
                bc == bests@[champ as int]->Some_0@,
                forall|j: int|
                    0 <= j < n && participant(m, j) ==> ((#[trigger] bests@[j]) matches Some(h)
                        && best_of(m, j, h@)),
                forall|j: int|
                    0 <= j < n && participant(m, j) ==> hand_cmp(
                        (#[trigger] bests@[j])->Some_0@,
                        bc,
                    ) != Ordering::Greater,
                forall|j: int| 0 <= j < i ==> w@[j] == is_winner(m, j),
            decreases n - i,
        {
            let win = if self.game_state.seats[i].is_valid() {
                let c_ord = match (&bests[i], &bests[champ]) {
                    (Some(a), Some(b)) => a.compare(b),
                    _ => {
                        proof {
                            assert(false);
                        }
                        Ordering::Equal
                    },
                };
                matches!(c_ord, Ordering::Equal)
            } else {
                false
            };
            proof {
                reveal(is_winner);
                reveal(showdown_beats);
                if participant(m, i as int) {
                    let bi = bests@[i as int]->Some_0@;
                    if hand_cmp(bi, bc) == Ordering::Equal {
                        assert forall|j: int| participant(m, j) implies showdown_beats(
                            m,
                            i as int,
                            j,
                        ) by {
                            let bj = bests@[j]->Some_0@;
                            assert forall|sb: Seq<Card>|
                                sb.len() == 5 && is_subseq_of(sb, seat_cards(m, j)) implies exists|
                                sa: Seq<Card>,
                            |
                                sa.len() == 5 && is_subseq_of(sa, seat_cards(m, i as int))
                                    && hand_cmp(sa, sb) != Ordering::Less by {
                                assert(hand_cmp(sb, bj) != Ordering::Greater);
                                lemma_compare_transitive(sb, bj, bc);
                                lemma_compare_antisymmetric(bi, bc);
                                lemma_compare_transitive(sb, bc, bi);
                                lemma_compare_antisymmetric(sb, bi);
                                assert(bi.len() == 5 && is_subseq_of(bi, seat_cards(m, i as int))
                                    && hand_cmp(bi, sb) != Ordering::Less);
                            }
                        }
                        assert(is_winner(m, i as int));
                        assert(win);
                    } else {
                        assert(hand_cmp(bi, bc) == Ordering::Less);
                        assert forall|sa: Seq<Card>|
                            sa.len() == 5 && is_subseq_of(sa, seat_cards(m, i as int)) implies
                            hand_cmp(sa, bc) == Ordering::Less by {
                            assert(hand_cmp(sa, bi) != Ordering::Greater);
                            lemma_compare_transitive(sa, bi, bc);
                        }
                        assert(bc.len() == 5 && is_subseq_of(bc, seat_cards(m, champ as int)));
                        assert(!showdown_beats(m, i as int, champ as int));
                        assert(!is_winner(m, i as int));
                        assert(!win);
                    }
                } else {
                    assert(!is_winner(m, i as int));
                }
            }
            w.push(win);
            i += 1;
        }
        proof {
            reveal(is_winner);
            reveal(showdown_beats);
            lemma_compare_reflexive(bc);
            assert(w@[champ as int] == is_winner(m, champ as int));
            assert forall|j: int| participant(m, j) implies showdown_beats(
                m,
                champ as int,
                j,
            ) by {
                let bj = bests@[j]->Some_0@;
                assert forall|sb: Seq<Card>|
                    sb.len() == 5 && is_subseq_of(sb, seat_cards(m, j)) implies exists|
                    sa: Seq<Card>,
                |
                    sa.len() == 5 && is_subseq_of(sa, seat_cards(m, champ as int)) && hand_cmp(
                        sa,
                        sb,
                    ) != Ordering::Less by {
                    assert(hand_cmp(sb, bj) != Ordering::Greater);
                    lemma_compare_transitive(sb, bj, bc);
                    lemma_compare_antisymmetric(sb, bc);
                    assert(bc.len() == 5 && is_subseq_of(bc, seat_cards(m, champ as int))
                        && hand_cmp(bc, sb) != Ordering::Less);
                }
            }
            assert(is_winner(m, champ as int));
            assert(w@[champ as int]);
        }
        w
    }
}

} // verus!

verus! {

/// Sum of the stacks of the first `j` seats.
pub open spec fn stacks_upto(seats: Seq<Seat>, j: int) -> int
    decreases j,
{
    if j <= 0 {
        0
    } else {
        stacks_upto(seats, j - 1) + seats[j - 1].stack
    }
}

proof fn lemma_chips_is_stacks_plus_bets(seats: Seq<Seat>, j: int)
    ensures
        chips_upto(seats, j) == stacks_upto(seats, j) + bets_sum_upto(seats, j),
    decreases j,
{
    if j > 0 {
        lemma_chips_is_stacks_plus_bets(seats, j - 1);
    }
}

proof fn lemma_stacks_nonneg(seats: Seq<Seat>, j: int)
    ensures
        stacks_upto(seats, j) >= 0,
    decreases j,
{
    if j > 0 {
        lemma_stacks_nonneg(seats, j - 1);
    }
}

proof fn lemma_stacks_bound(seats: Seq<Seat>, i: int, j: int)
    requires
        0 <= i < j <= seats.len(),
    ensures
        stacks_upto(seats, j) >= seats[i].stack,
    decreases j,
{
    if i < j - 1 {
        lemma_stacks_bound(seats, i, j - 1);
    } else {
        lemma_stacks_nonneg(seats, j - 1);
    }
}

proof fn lemma_winners_lower(m: GameModel, i: int, j: int)
    requires
        0 <= i < j,
        is_winner(m, i),
    ensures
        winners_upto(m, j) >= 1,
    decreases j,
{
    if i < j - 1 {
        lemma_winners_lower(m, i, j - 1);
    }
}

/// The lowest-numbered winner comes no later than any winner.
proof fn lemma_first_winner_le(m: GameModel, j: int)
    requires
        0 <= j < m.gs.seats.len(),
        is_winner(m, j),
    ensures
        first_winner_from(m, 0) <= j,
{
    lemma_first_winner_le_from(m, 0, j);
}

proof fn lemma_first_winner_le_from(m: GameModel, k: int, j: int)
    requires
        0 <= k <= j < m.gs.seats.len(),
        is_winner(m, j),
    ensures
        first_winner_from(m, k) <= j,
    decreases j - k,
{
    if k < j && !is_winner(m, k) {
        lemma_first_winner_le_from(m, k + 1, j);
    }
}

/// What a settled seat looks like, without opening the payout arithmetic:
/// bets, folds and last actions are reset, eliminated seats stay eliminated
/// and hold no chips, and a seat alive after the showdown was alive before.
proof fn lemma_settled_seat_fields(m: GameModel, i: int)
    requires
        0 <= i < m.gs.seats.len(),
        !seat_alive(m.gs.seats[i]) ==> m.gs.seats[i].stack == 0 && m.gs.seats[i].bet == 0,
    ensures
        settled_seat(m, i).bet == 0,
        !settled_seat(m, i).is_folded,
        settled_seat(m, i).last_action_in_current_round is None,
        seat_alive(settled_seat(m, i)) ==> seat_alive(m.gs.seats[i]),
        !seat_alive(settled_seat(m, i)) ==> settled_seat(m, i).stack == 0,
{
    reveal(settled_seat);
    reveal(is_winner);
    if m.gs.seats[i].is_dead {
        assert(!participant(m, i));
        assert(!is_winner(m, i));
    }
}

/// With no seat folded, being in the hand and being in the game coincide.
proof fn lemma_valid_eq_alive(seats: Seq<Seat>, j: int)
    requires
        forall|i: int| 0 <= i < seats.len() ==> !(#[trigger] seats[i]).is_folded,
        j <= seats.len(),
    ensures
        n_valid_upto(seats, j) == n_alive_upto(seats, j),
    decreases j,
{
    if j > 0 {
        lemma_valid_eq_alive(seats, j - 1);
    }
}

impl Game {
    /// Resolves the showdown and starts the next hand: the winners split the
    /// pot (bets included, remainder to the lowest-numbered winner), seats
    /// whose stacks reach zero are eliminated, and, unless at most one seat
    /// remains in the game, the small blind advances, a fresh shuffled deck
    /// deals two cards to every remaining seat, and the first of them after
    /// the small blind opens the PreFlop round.
    /// Pays the showdown out: winners split the pot and all bets, the
    /// remainder going to the lowest-numbered winner; bets, folds and last
    /// actions reset; stacks that reach zero mark their seats eliminated.
    #[verifier::rlimit(100)]
    #[verifier::spinoff_prover]
    fn settle_pot(&mut self)
        requires
            base_wf(old(self)@),
            old(self)@.gs.board.len() >= 3,
            n_valid(old(self)@.gs.seats) >= 1,
        ensures
            final(self)@.gs.seats == settled_seats(old(self)@),
            final(self)@.gs.pot == 0,
            final(self)@.gs.board == Seq::<Card>::empty(),
            final(self)@.gs.round == Round::PreFlop,
            final(self)@.gs.sb_seat == old(self)@.gs.sb_seat,
            final(self)@.gs.current_seat == old(self)@.gs.current_seat,
            final(self)@.hands == old(self)@.hands,
            final(self)@.deck == old(self)@.deck,
            final(self)@.settings == old(self)@.settings,
            final(self)@.hand_count == old(self)@.hand_count,
            chips_total(final(self)@.gs) == total_chips(old(self)@),
    {
        let ghost m0 = self@;
        let n = self.game_state.seats.len();
        let w = self.compute_winners();
        let ghost fw = first_winner_from(m0, 0);
        let mut wcount: usize = 0;
        let mut rem_seat: usize = n;
        let mut i: usize = 0;
        while i < n
            invariant
                m0 == self@,
                n == m0.gs.seats.len(),
                i <= n,
                w@.len() == n,
                forall|j: int| 0 <= j < n ==> w@[j] == is_winner(m0, j),
                wcount == winners_upto(m0, i as int),
                wcount <= i,
                fw == first_winner_from(m0, 0),
                rem_seat <= n,
                rem_seat == n ==> first_winner_from(m0, i as int) == fw,
                rem_seat < n ==> rem_seat as int == fw && w@[rem_seat as int],
            decreases n - i,
        {
            if w[i] {
                wcount += 1;
                if rem_seat == n {
                    rem_seat = i;
                }
            }
            i += 1;
        }
        proof {
            assert(exists|j: int| 0 <= j < n && w@[j]) by {
                let x = choose|i: int| 0 <= i < w@.len() && w@[i];
                assert(0 <= x < n && w@[x]);
            }
            let jw = choose|j: int| 0 <= j < n && w@[j];
            lemma_winners_lower(m0, jw, n as int);
            assert(first_winner_from(m0, n as int) == n as int);
            assert(wcount >= 1);
            assert(0 <= jw < n && w@[jw]);
            assert(is_winner(m0, jw));
            lemma_first_winner_le(m0, jw);
            assert(fw <= jw);
            if rem_seat == n {
                assert(first_winner_from(m0, n as int) == fw);
                assert(fw == n as int);
                assert(false);
            }
            assert(rem_seat < n);
            assert(w@[rem_seat as int]);
            lemma_bets_le_chips(m0.gs.seats, n as int);
            lemma_bets_sum_nonneg(m0.gs.seats, n as int);
            lemma_chips_nonneg(m0.gs.seats, n as int);
        }
        let bets = compute_bets_sum(&self.game_state.seats, Ghost(total_chips(m0)));
        let pot_total = self.game_state.pot + bets;
        let share = pot_total / wcount;
        let rem = pot_total % wcount;
        proof {
            vstd::arithmetic::div_mod::lemma_fundamental_div_mod(pot_total as int, wcount as int);
            assert(share + rem <= pot_total) by (nonlinear_arith)
                requires
                    pot_total as int == (wcount as int) * (share as int) + (rem as int),
                    wcount >= 1,
                    share >= 0,
                    rem >= 0,
            ;
        }
        let ghost pt = pot_total as int;
        let ghost shr = share as int;
        let ghost rm = rem as int;
        let mut new_seats: Vec<Seat> = Vec::new();
        proof {
            assert(winners_upto(m0, 0) == 0);
            assert(stacks_upto(m0.gs.seats, 0) == 0);
            assert(shr * (winners_upto(m0, 0) as int) == 0) by (nonlinear_arith)
                requires winners_upto(m0, 0) == 0;
        }
        let mut i: usize = 0;
        while i < n
            invariant
                m0 == self@,
                n == m0.gs.seats.len(),
                i <= n,
                w@.len() == n,
                forall|j: int| 0 <= j < n ==> w@[j] == is_winner(m0, j),
                wcount == winners_count(m0) >= 1,
                rem_seat as int == fw,
                fw == first_winner_from(m0, 0),
                0 <= fw < n,
                w@[fw],
                pt == m0.gs.pot + bets_sum(m0.gs.seats),
                pt <= total_chips(m0),
                m0.gs.pot >= 0,
                chips_total(m0.gs) == total_chips(m0),
                total_chips(m0) <= usize::MAX,
                share == pt / (wcount as int),
                rem == pt % (wcount as int),
                pt == (wcount as int) * (share as int) + (rem as int),
                share + rem <= pt,
                shr == share as int,
                rm == rem as int,
                new_seats@.len() == i,
                forall|k: int| 0 <= k < i ==> #[trigger] new_seats@[k] == settled_seat(m0, k),
                chips_upto(new_seats@, i as int) == stacks_upto(m0.gs.seats, i as int) + shr
                    * (winners_upto(m0, i as int) as int) + (if fw < i {
                    rm
                } else {
                    0int
                }),
            decreases n - i,
        {
            let s = self.game_state.seats[i];
            proof {
                lemma_stacks_bound(m0.gs.seats, i as int, n as int);
                lemma_chips_is_stacks_plus_bets(m0.gs.seats, n as int);
                lemma_stacks_upto_mono(m0.gs.seats, i as int + 1, n as int);
                lemma_bets_sum_nonneg(m0.gs.seats, n as int);
                assert(s.stack + pt <= chips_total(m0.gs));
            }
            let payout: usize = if w[i] {
                share + (if i == rem_seat {
                    rem
                } else {
                    0
                })
            } else {
                0
            };
            let stack2 = s.stack + payout;
            let ghost prev_seats = new_seats@;
            new_seats.push(
                Seat {
                    stack: stack2,
                    bet: 0,
                    is_folded: false,
                    is_dead: s.is_dead || stack2 == 0,
                    last_action_in_current_round: None,
                },
            );
            proof {
                lemma_chips_congruent(new_seats@, prev_seats, i as int);
                assert(new_seats@[i as int] == settled_seat(m0, i as int)) by {
                    reveal(settled_seat);
                }
                assert(chips_upto(new_seats@, i as int + 1) == chips_upto(new_seats@, i as int)
                    + stack2);
                assert(stacks_upto(m0.gs.seats, i as int + 1) == stacks_upto(m0.gs.seats, i as int)
                    + s.stack);
                if is_winner(m0, i as int) {
                    lemma_first_winner_le(m0, i as int);
                    assert(fw <= i as int);
                    assert(winners_upto(m0, i as int + 1) == winners_upto(m0, i as int) + 1);
                    assert(shr * ((winners_upto(m0, i as int) + 1) as int) == shr * (winners_upto(
                        m0,
                        i as int,
                    ) as int) + shr) by (nonlinear_arith);
                    assert(stack2 == s.stack + shr + (if i as int == fw { rm } else { 0int }));
                } else {
                    assert(winners_upto(m0, i as int + 1) == winners_upto(m0, i as int));
                    assert(i as int != fw);
                    assert(stack2 == s.stack);
                }
                assert(chips_upto(new_seats@, i as int + 1) == stacks_upto(m0.gs.seats, i as int + 1)
                    + shr * (winners_upto(m0, i as int + 1) as int) + (if fw < i + 1 { rm } else { 0int }));
            }
            i += 1;
        }
        self.game_state.seats = new_seats;
        self.game_state.pot = 0;
        self.game_state.board = Board::new();
        self.game_state.round = Round::PreFlop;
        proof {
            assert(self@.gs.seats =~= settled_seats(m0));
            assert(shr * (winners_upto(m0, n as int) as int) + rm == pt) by (nonlinear_arith)
                requires
                    pt == (wcount as int) * (share as int) + (rem as int),
                    winners_upto(m0, n as int) == wcount,
                    shr == share as int,
                    rm == rem as int,
            ;
            assert(chips_upto(self@.gs.seats, n as int) == stacks_upto(m0.gs.seats, n as int)
                + pt);
            lemma_chips_is_stacks_plus_bets(m0.gs.seats, n as int);
            assert(chips_total(self@.gs) == total_chips(m0));
        }
    }

    /// Resolves the showdown and starts the next hand: the winners split the
    /// pot and losers with empty stacks are eliminated; then, unless at most
    /// one seat remains in the game, the small blind advances, a fresh
    /// shuffled deck deals two cards to every remaining seat, and the first
    /// of them after the small blind opens the new PreFlop round.
    #[verifier::rlimit(100)]
    #[verifier::spinoff_prover]
    fn next_hand(&mut self)
        requires
            base_wf(old(self)@),
            round_over_spec(old(self)@.gs),
            old(self)@.gs.board.len() >= 5,
            n_valid(old(self)@.gs.seats) >= 1,
            !over_spec(old(self)@.gs.seats),
        ensures
            game_wf(final(self)@),
            next_hand_rel(old(self)@, final(self)@),
    {
        let ghost m0 = self@;
        let n = self.game_state.seats.len();
        self.settle_pot();
        let ghost seats2 = settled_seats(m0);
        if self.game_data.hand_count < usize::MAX {
            self.game_data.hand_count += 1;
        }
        let alive = count_alive(&self.game_state.seats);
        proof {
            assert forall|k: int| 0 <= k < n implies (#[trigger] seats2[k]).bet == 0
                && !seats2[k].is_folded && seats2[k].last_action_in_current_round is None && (
            seat_alive(seats2[k]) ==> seat_alive(m0.gs.seats[k])) && (!seat_alive(seats2[k])
                ==> seats2[k].stack == 0) by {
                lemma_settled_seat_fields(m0, k);
            }
            assert forall|k: int|
                0 <= k < n && seat_alive(#[trigger] self@.gs.seats[k]) implies self@.gs.seats[k].bet
                + self@.gs.seats[k].stack <= self@.settings.initial_stack * n by {
                lemma_chips_bound(seats2, k, n as int);
                lemma_chips_nonneg(seats2, n as int);
                assert(self@.settings.n_players * self@.settings.initial_stack
                    == self@.settings.initial_stack * n) by (nonlinear_arith)
                    requires n == self@.settings.n_players;
            }
        }
        if alive >= 2 {
            proof {
                lemma_valid_eq_alive(seats2, n as int);
            }
            let sb = self.game_state.next_valid_seat(self.game_state.sb_seat);
            self.game_state.sb_seat = sb;
            let cur = self.game_state.next_valid_seat(sb);
            self.game_state.current_seat = cur;
            self.deal();
            proof {
                lemma_full_deck_distinct();
                assert(distinct_cards(cards_in_play(self@))) by {
                    assert forall|c: Card| card_occurs(cards_in_play(self@), c) <= 1 by {
                        lemma_distinct_to_occurs(full_deck(), c);
                    }
                    lemma_occurs_to_distinct(cards_in_play(self@));
                }
                lemma_n_alive_upto_le(seats2, n as int);
                assert(game_wf(self@)) by {
                    lemma_n_valid_witness(self@.gs.seats, n as int);
                }
            }
        } else {
            proof {
                let flat = hands_cards(m0.hands, m0.hands.len() as int);
                assert(distinct_cards(cards_in_play(self@))) by {
                    assert(cards_in_play(self@) =~= flat + m0.deck);
                    assert forall|c: Card| card_occurs(flat + m0.deck, c) <= 1 by {
                        lemma_distinct_to_occurs(cards_in_play(m0), c);
                        lemma_occurs_concat(m0.gs.board + flat, m0.deck, c);
                        lemma_occurs_concat(m0.gs.board, flat, c);
                        lemma_occurs_concat(flat, m0.deck, c);
                    }
                    lemma_occurs_to_distinct(cards_in_play(self@));
                }
                assert(game_wf(self@));
            }
        }
    }
}

proof fn lemma_chips_congruent(s1: Seq<Seat>, s2: Seq<Seat>, j: int)
    requires
        j <= s1.len(),
        j <= s2.len(),
        forall|k: int| 0 <= k < j ==> #[trigger] s1[k] == #[trigger] s2[k],
    ensures
        chips_upto(s1, j) == chips_upto(s2, j),
    decreases j,
{
    if j > 0 {
        lemma_chips_congruent(s1, s2, j - 1);
    }
}

proof fn lemma_stacks_upto_mono(seats: Seq<Seat>, i: int, j: int)
    requires
        0 <= i <= j <= seats.len(),
    ensures
        stacks_upto(seats, i) <= stacks_upto(seats, j),
    decreases j - i,
{
    if i < j {
        lemma_stacks_upto_mono(seats, i, j - 1);
    }
}

} // verus!

verus! {

proof fn lemma_chips_const(seats: Seq<Seat>, j: int, v: int)
    requires
        j <= seats.len(),
        forall|i: int|
            0 <= i < seats.len() ==> (#[trigger] seats[i]).stack == v && seats[i].bet == 0,
    ensures
        chips_upto(seats, j) == if j >= 0 {
            j * v
        } else {
            0int
        },
    decreases j,
{
    if j > 0 {
        lemma_chips_const(seats, j - 1, v);
        assert(seats[j - 1].stack == v && seats[j - 1].bet == 0);
        assert(chips_upto(seats, j) == chips_upto(seats, j - 1) + v);
        assert(j * v == (j - 1) * v + v) by (nonlinear_arith);
    } else {
        assert(chips_upto(seats, j) == 0);
        if j == 0 {
            assert(j * v == 0) by (nonlinear_arith)
                requires j == 0;
        }
    }
}

proof fn lemma_n_alive_const(seats: Seq<Seat>, j: int)
    requires
        0 <= j <= seats.len(),
        forall|i: int| 0 <= i < seats.len() ==> seat_alive(#[trigger] seats[i]),
    ensures
        n_alive_upto(seats, j) == j,
    decreases j,
{
    if j > 0 {
        lemma_n_alive_const(seats, j - 1);
    }
}

impl Game {
    /// Advances the game after an action was applied: completed rounds deal
    /// the next street, a completed River round resolves the showdown and
    /// starts the next hand, and otherwise the turn passes on.
    fn state_logic(&mut self)
        requires
            base_wf(old(self)@),
            n_valid(old(self)@.gs.seats) >= 1,
            !over_spec(old(self)@.gs.seats),
        ensures
            game_wf(final(self)@),
            logic_rel(old(self)@, final(self)@),
        decreases 5 - old(self)@.gs.board.len(),
    {
        if self.is_hand_over() {
            self.next_hand();
            return ;
        }
        if Self::is_round_over(&self.game_state) {
            self.next_round();
            if Self::is_round_over(&self.game_state) {
                self.state_logic();
            }
            return ;
        }
        self.next_turn();
        proof {
            assert(round_over_spec(self@.gs) == round_over_spec(old(self)@.gs));
        }
    }

    /// Builds a new game: every seat starts with the configured stack, the
    /// small blind sits at seat 0, its left-hand neighbor acts first, and a
    /// fresh shuffled deck deals two private cards to every seat.
    pub fn new(settings: Settings) -> (r: Game)
        requires
            2 <= settings.n_players <= 22,
            settings.initial_stack >= 1,
            settings.n_players * settings.initial_stack <= usize::MAX,
        ensures
            game_wf(r@),
            r@.settings == settings,
            r@.gs.seats == Seq::new(
                settings.n_players as nat,
                |i: int| Seat {
                    stack: settings.initial_stack,
                    bet: 0,
                    is_folded: false,
                    is_dead: false,
                    last_action_in_current_round: None,
                },
            ),
            r@.gs.sb_seat == 0,
            r@.gs.pot == 0,
            r@.gs.board == Seq::<Card>::empty(),
            r@.gs.round == Round::PreFlop,
            r@.gs.current_seat == next_valid_seat_spec(r@.gs.seats, 0),
            r@.hand_count == 0,
            forall|i: int|
                0 <= i < settings.n_players ==> ((#[trigger] r@.hands[i]) matches Some(h) && h.len()
                    == 2),
            r@.deck.len() == 52 - 2 * settings.n_players,
    {
        let n = settings.n_players;
        let ghost fresh_seat = Seat {
            stack: settings.initial_stack,
            bet: 0,
            is_folded: false,
            is_dead: false,
            last_action_in_current_round: None,
        };
        let mut seats: Vec<Seat> = Vec::new();
        let mut i: usize = 0;
        while i < n
            invariant
                i <= n,
                seats@.len() == i,
                fresh_seat == (Seat {
                    stack: settings.initial_stack,
                    bet: 0,
                    is_folded: false,
                    is_dead: false,
                    last_action_in_current_round: None,
                }),
                forall|k: int| 0 <= k < i ==> #[trigger] seats@[k] == fresh_seat,
            decreases n - i,
        {
            let fs = Seat::new(settings.initial_stack);
            seats.push(fs);
            proof {
                assert(fs == fresh_seat);
                assert(seats@[i as int] == fresh_seat);
            }
            i += 1;
        }
        let hands: Vec<Option<PlayerHand>> = Vec::new();
        let mut game = Game {
            settings,
            game_state: GameState {
                current_seat: 0,
                board: Board::new(),
                seats,
                sb_seat: 0,
                pot: 0,
                round: Round::PreFlop,
            },
            game_data: GameData { hand_count: 0 },
            hands,
            deck: Deck::new(),
            rng: rng_from_seed(0x706f6b72),
        };
        game.deal();
        proof {
            lemma_n_valid_lower_two(game@.gs.seats, 0, 1);
        }
        let cur = game.game_state.next_valid_seat(0);
        game.game_state.current_seat = cur;
        proof {
            let seatsg = game@.gs.seats;
            assert(seatsg =~= Seq::new(
                settings.n_players as nat,
                |i: int| Seat {
                    stack: settings.initial_stack,
                    bet: 0,
                    is_folded: false,
                    is_dead: false,
                    last_action_in_current_round: None,
                },
            ));
            lemma_chips_const(seatsg, n as int, settings.initial_stack as int);
            lemma_n_alive_const(seatsg, n as int);
            lemma_valid_eq_alive(seatsg, n as int);
            lemma_n_alive_upto_le(seatsg, n as int);
            lemma_full_deck_distinct();
            assert(distinct_cards(cards_in_play(game@))) by {
                assert forall|c: Card| card_occurs(cards_in_play(game@), c) <= 1 by {
                    lemma_distinct_to_occurs(full_deck(), c);
                }
                lemma_occurs_to_distinct(cards_in_play(game@));
            }
            assert(game_wf(game@)) by {
                assert(settings.initial_stack + 0 <= settings.initial_stack * n)
                    by (nonlinear_arith)
                    requires n >= 2 && settings.initial_stack >= 1;
                assert(!all_acted(seatsg)) by {
                    assert(seat_valid(seatsg[0]));
                }
            }
        }
        game
    }

    /// Accepts one action of the current seat and advances the game. An
    /// illegal action, or one submitted after the game is over, is rejected
    /// with no state change; a legal one is applied and the game advanced
    /// (`logic_rel`) until a seat is awaited again.
    pub fn play_turn(&mut self, action: Action) -> (r: Result<(), GameError>)
        requires
            game_wf(old(self)@),
        ensures
            game_wf(final(self)@),
            r is Ok <==> (!over_spec(old(self)@.gs.seats) && action_valid(old(self)@.gs, action)),
            r is Err ==> (r matches Err(e) && e == GameError::InvalidAction) && final(self)@ == old(
                self,
            )@,
            r is Ok ==> logic_rel(apply_action_model(old(self)@, action), final(self)@),
    {
        if self.over() {
            return Err(GameError::InvalidAction);
        }
        match self.handle_action(action) {
            Ok(u) => {},
            Err(e) => {
                return Err(e);
            },
        }
        self.state_logic();
        Ok(())
    }
}

/// Round completion holds whenever every valid seat has acted once and all
/// valid seats' bets are equal.
pub proof fn lemma_round_completion(gs: GsModel, b: nat)
    requires
        forall|i: int|
            0 <= i < gs.seats.len() && seat_valid(#[trigger] gs.seats[i])
                ==> gs.seats[i].last_action_in_current_round is Some,
        forall|i: int|
            0 <= i < gs.seats.len() && seat_valid(#[trigger] gs.seats[i]) ==> gs.seats[i].bet == b,
    ensures
        round_over_spec(gs),
{
    if n_valid(gs.seats) >= 2 {
        lemma_max_bet_all_equal(gs.seats, gs.seats.len() as int, b);
    }
}

/// One valid seat whose bet differs from the maximum and that is not all-in
/// (chips behind) keeps the round open.
pub proof fn lemma_round_not_over(gs: GsModel, j: int)
    requires
        0 <= j < gs.seats.len(),
        seat_valid(gs.seats[j]),
        gs.seats[j].stack > 0,
        gs.seats[j].bet != max_bet(gs.seats),
        n_valid(gs.seats) >= 2,
    ensures
        !round_over_spec(gs),
{
}

} // verus!
