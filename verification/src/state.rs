//! The executable game state and its turn state machine.

use crate::model::{
    action_legal, artifact_bonus, can_move_any, can_move_any_other, can_play, color_pawn_slot,
    end_game_step, hands_multiset,
    end_turn_step, event_pool, first_index_of_card, first_unassigned_slot, full_deck,
    initial_board, initial_hands, initial_state, is_unique_max, move_color_step, num_players,
    choose_pawn_type_step, counters_ok, dims, discard_card_step, draw_from_deck_step,
    draw_from_discard_step, has_color_pawn, has_unassigned_of_type,
    discard_draw_actions_upto, legal_action_list, lemma_unassigned_exists, move_actions_upto,
    pawn_choice_actions_upto,
    pending_color, pile_sorted, play_actions_upto, play_card_step, points_bounded,
    lemma_position_bonus_upto_all, pawn_movable, pawn_position_bonus, pawn_type_of_slot,
    player_position_bonus, player_steps, pos_in_range, position_bonus, position_bonus_upto,
    final_scores, shuffle_of, shuffled_deck, slot_color, slot_movable, slot_position, step, wf,
    winner_of, zero_seed, GameView,
};
use crate::types::{color_idx, Action, Card, CardPile, Color, Event, PathPosition, PawnIndex,
    PawnType, PlayerIndex, Score};
use rand::prng::XorShiftRng;
use rand::{Rng, SeedableRng};
use vstd::multiset::Multiset;
use vstd::prelude::*;

verus! {

/// The phase of the current turn, governing which actions are legal.
#[derive(Clone, Copy, PartialEq, Eq, Structural, Debug)]
pub enum TurnState {
    /// The current player must play or discard one hand card.
    PlayingCard,
    /// The current player must draw back up to eight cards.
    DrawingCard,
    /// The current player just opened this color's expedition and must
    /// assign one of their unassigned pawns to it.
    PlayingPawn(Color),
    /// The current player must choose a pawn to advance.
    MovingPawn,
    /// Terminal: scores and winner are final.
    GameFinished,
}

/// Relies on rand's `XorShiftRng::from_seed` and `Rng::shuffle`: the shuffle
/// is an in-place Fisher-Yates permutation of the slice whose result depends
/// on the seed and the input alone, so it is named by `shuffle_of` and keeps
/// the multiset of cards.
#[verifier::external_body]
fn shuffle_cards(seed: [u8; 16], cards: &mut Vec<Card>)
    ensures
        final(cards)@ == shuffle_of(seed@, old(cards)@),
        final(cards)@.to_multiset() == old(cards)@.to_multiset(),
{
    let mut rng = XorShiftRng::from_seed(seed);
    rng.shuffle(cards);
}

/// Builds the 110-card deck in its fixed order and shuffles it with the
/// fixed all-zero seed, giving the same deck order for every game.
fn create_deck() -> (r: CardPile)
    ensures
        r@ == shuffled_deck(),
        r@.to_multiset() == full_deck().to_multiset(),
        r@.len() == 110,
{
    let mut cards: Vec<Card> = Vec::new();
    let mut ci: usize = 0;
    while ci < 5
        invariant
            ci <= 5,
            cards@.len() == 22 * ci,
            forall|k: int| 0 <= k < cards@.len() ==> #[trigger] cards@[k] == full_deck()[k],
        decreases 5 - ci,
    {
        let color = Color::from_index(ci);
        let mut number: i8 = 0;
        while number <= 10
            invariant
                0 <= number <= 11,
                ci < 5,
                color == crate::types::idx_color(ci as int),
                cards@.len() == 22 * ci + 2 * number,
                forall|k: int| 0 <= k < cards@.len() ==> #[trigger] cards@[k] == full_deck()[k],
            decreases 11 - number,
    {
            let card = Card::new(color, number);
            proof {
                let k = cards@.len() as int;
                assert(k / 22 == ci && (k % 22) / 2 == number) by (nonlinear_arith)
                    requires
                        k == 22 * ci + 2 * number,
                        0 <= number <= 10,
                        0 <= ci < 5,
                ;
                let k1 = k + 1;
                assert(k1 / 22 == ci && (k1 % 22) / 2 == number) by (nonlinear_arith)
                    requires
                        k1 == 22 * ci + 2 * number + 1,
                        0 <= number <= 10,
                        0 <= ci < 5,
                ;
            }
            cards.push(card);
            cards.push(card);
            number = number + 1;
        }
        ci = ci + 1;
    }
    assert(cards@ =~= full_deck());
    let mut seed: [u8; 16] = [0; 16];
    proof {
        assert(seed@ =~= zero_seed());
    }
    shuffle_cards(seed, &mut cards);
    proof {
        vstd::seq_lib::lemma_multiset_commutative(full_deck(), Seq::<Card>::empty());
        cards@.to_multiset_ensures();
        full_deck().to_multiset_ensures();
        assert(cards@.len() == full_deck().to_multiset().len());
    }
    cards
}

/// Builds the pool of 25 event tokens in its fixed order.
pub fn create_events() -> (r: Vec<Event>)
    ensures
        r@ == event_pool(),
{
    let mut events: Vec<Event> = Vec::new();
    let mut i: usize = 0;
    while i < 9
        invariant
            i <= 9,
            events@.len() == i,
            forall|k: int| 0 <= k < events@.len() ==> #[trigger] events@[k] == event_pool()[k],
        decreases 9 - i,
    {
        events.push(Event::Artifact);
        i = i + 1;
    }
    i = 0;
    while i < 9
        invariant
            i <= 9,
            events@.len() == 9 + i,
            forall|k: int| 0 <= k < events@.len() ==> #[trigger] events@[k] == event_pool()[k],
        decreases 9 - i,
    {
        events.push(Event::Arrow);
        i = i + 1;
    }
    events.push(Event::Points(5));
    events.push(Event::Points(5));
    events.push(Event::Points(10));
    events.push(Event::Points(10));
    events.push(Event::Points(10));
    events.push(Event::Points(15));
    events.push(Event::Points(15));
    assert(events@ =~= event_pool());
    events
}

/// The end-of-game bonus for an artifact count, from the fixed table.
pub fn score_for_artifact_count(count: u8) -> (r: Score)
    ensures
        r as int == artifact_bonus(count as int),
{
    match count {
        0 => -20,
        1 => -15,
        2 => -10,
        3 => 15,
        4 => 30,
        _ => 50,
    }
}

/// The end-of-game bonus for a pawn's final position, from the fixed table.
pub fn score_for_position(position: PathPosition) -> (r: Score)
    requires
        position <= 8,
    ensures
        r as int == position_bonus(position as int),
{
    match position {
        0 => -20,
        1 => -15,
        2 => -10,
        3 => 5,
        4 => 10,
        5 => 15,
        6 => 30,
        7 => 35,
        _ => 50,
    }
}

/// The aggregate game state.  Mutated only through `do_action`; all parallel
/// per-pawn vectors are indexed by the global pawn index `player * 5 + slot`.
pub struct GameState {
    pub player_hands: Vec<CardPile>,
    pub player_scores: Vec<Score>,
    pub player_artifacts: Vec<u8>,
    pub player_color_expeditions: Vec<Vec<CardPile>>,
    pub player_pawns: Vec<Vec<PawnIndex>>,

    pub pawn_types: Vec<PawnType>,
    pub pawn_colors: Vec<Option<Color>>,
    pub pawn_positions: Vec<Option<PathPosition>>,

    pub color_position_events: Vec<Vec<Option<Event>>>,
    pub color_discard_piles: Vec<CardPile>,

    pub deck: CardPile,
    pub turn_state: TurnState,
    pub current_player: PlayerIndex,
    pub winner: Option<PlayerIndex>,
}

/// The spec-level image of an optional path position.
pub open spec fn pos_view(p: Option<PathPosition>) -> Option<int> {
    match p {
        Some(q) => Some(q as int),
        None => None,
    }
}

/// The spec-level image of an optional winner index.
pub open spec fn winner_view(w: Option<PlayerIndex>) -> Option<int> {
    match w {
        Some(q) => Some(q as int),
        None => None,
    }
}

impl View for GameState {
    type V = GameView;

    open spec fn view(&self) -> GameView {
        GameView {
            hands: self.player_hands@.map_values(|h: CardPile| h@),
            scores: self.player_scores@.map_values(|s: Score| s as int),
            artifacts: self.player_artifacts@.map_values(|a: u8| a as int),
            expeditions: self.player_color_expeditions@.map_values(
                |pe: Vec<CardPile>| pe@.map_values(|e: CardPile| e@),
            ),
            pawn_colors: self.pawn_colors@,
            pawn_positions: self.pawn_positions@.map_values(|p: Option<PathPosition>| pos_view(p)),
            events: self.color_position_events@.map_values(|r: Vec<Option<Event>>| r@),
            discards: self.color_discard_piles@.map_values(|d: CardPile| d@),
            deck: self.deck@,
            turn: self.turn_state,
            current: self.current_player as int,
            winner: winner_view(self.winner),
        }
    }
}

/// The two bookkeeping vectors that the model does not carry: they are fixed
/// at construction and never change.
pub open spec fn same_meta(a: &GameState, b: &GameState) -> bool {
    &&& a.player_pawns@.map_values(|x: Vec<PawnIndex>| x@) == b.player_pawns@.map_values(
        |x: Vec<PawnIndex>| x@,
    )
    &&& a.pawn_types@ == b.pawn_types@
    &&& a.player_scores@.len() == b.player_scores@.len()
}

impl GameState {
    /// The full well-formedness invariant: the model invariant [`wf`] plus
    /// the fixed shape of the pawn bookkeeping vectors.
    pub open spec fn well_formed(&self) -> bool {
        &&& wf(self@)
        &&& self.player_pawns@.len() == num_players(self@)
        &&& (forall|p: int|
            0 <= p < self.player_pawns@.len() ==> (#[trigger] self.player_pawns@[p])@.len() == 5)
        &&& (forall|p: int, i: int|
            0 <= p < self.player_pawns@.len() && 0 <= i < 5 ==> #[trigger] self.player_pawns@[p]@[i]
                == p * 5 + i)
        &&& self.pawn_types@.len() == 5 * num_players(self@)
        &&& (forall|k: int|
            0 <= k < self.pawn_types@.len() ==> #[trigger] self.pawn_types@[k]
                == pawn_type_of_slot(k % 5))
    }

    /// Whether the game has reached its terminal state.
    pub fn is_finished(&self) -> (r: bool)
        ensures
            r == (self@.turn is GameFinished),
    {
        self.turn_state == TurnState::GameFinished
    }

    /// How many players the game was created with.
    pub fn player_count(&self) -> (r: usize)
        ensures
            r as int == num_players(self@),
    {
        self.player_scores.len()
    }

    /// Whether `card` may be played on its color's expedition: the pile is
    /// empty or its top card's number does not exceed the card's.
    pub fn can_play_card(&self, player: PlayerIndex, card: Card) -> (r: bool)
        requires
            dims(self@),
            player < num_players(self@),
        ensures
            r == can_play(self@, player as int, card),
    {
        let ci = card.color.index();
        proof {
            assert(self@.expeditions[player as int] == self.player_color_expeditions@[player as int]@.map_values(|e: CardPile| e@));
        }
        let exp = &self.player_color_expeditions[player][ci];
        proof {
            assert(exp@ == self@.expeditions[player as int][ci as int]);
        }
        if exp.len() == 0 {
            true
        } else {
            exp[exp.len() - 1].number <= card.number
        }
    }

    /// Whether a pawn has moved before and is not yet at the final position.
    pub fn can_move_pawn(&self, pawn: PawnIndex) -> (r: bool)
        requires
            pawn < self@.pawn_positions.len(),
        ensures
            r == pawn_movable(self@, pawn as int),
    {
        match self.pawn_positions[pawn] {
            Some(position) => position != 8,
            None => false,
        }
    }

    /// Whether any pawn of the player other than the one in `slot` can be
    /// chosen to move.
    fn player_can_move_other(&self, player: PlayerIndex, slot: usize) -> (r: bool)
        requires
            dims(self@),
            player < num_players(self@),
            slot < 5,
        ensures
            r == can_move_any_other(self@, player as int, slot as int),
    {
        let mut i: usize = 0;
        let mut found = false;
        while i < 5
            invariant
                dims(self@),
                player < num_players(self@),
                i <= 5,
                found == exists|j: int|
                    0 <= j < i && j != slot as int && slot_movable(self@, player as int, j),
            decreases 5 - i,
        {
            if i != slot {
                let pawn = player * 5 + i;
                proof {
                    assert(slot_movable(self@, player as int, i as int) == pawn_movable(
                        self@,
                        pawn as int,
                    ));
                }
                if self.can_move_pawn(pawn) {
                    found = true;
                }
            }
            i = i + 1;
        }
        found
    }

    /// Whether any of the player's pawns can be chosen to move.
    pub fn player_can_move_any(&self, player: PlayerIndex) -> (r: bool)
        requires
            dims(self@),
            player < num_players(self@),
        ensures
            r == can_move_any(self@, player as int),
    {
        let mut i: usize = 0;
        let mut found = false;
        while i < 5
            invariant
                dims(self@),
                player < num_players(self@),
                i <= 5,
                found == exists|j: int| 0 <= j < i && slot_movable(self@, player as int, j),
            decreases 5 - i,
        {
            let pawn = player * 5 + i;
            proof {
                assert(slot_movable(self@, player as int, i as int) == pawn_movable(
                    self@,
                    pawn as int,
                ));
            }
            if self.can_move_pawn(pawn) {
                found = true;
            }
            i = i + 1;
        }
        found
    }
}

/// Mapping a sequence pointwise commutes with updating one element.
proof fn lemma_map_update<A, B>(s: Seq<A>, i: int, x: A, f: spec_fn(A) -> B)
    requires
        0 <= i < s.len(),
    ensures
        s.update(i, x).map_values(f) =~= s.map_values(f).update(i, f(x)),
{
}

/// A loop that stops at the first hit finds `first_index_of_card`.
proof fn lemma_first_index(s: Seq<Card>, c: Card, i: int)
    requires
        0 <= i < s.len(),
        s[i] == c,
        forall|k: int| 0 <= k < i ==> s[k] != c,
    ensures
        first_index_of_card(s, c) == i,
    decreases i,
{
    if s[0] == c {
        assert(i == 0);
    } else {
        assert forall|k: int| 0 <= k < i - 1 implies s.drop_first()[k] != c by {
            assert(s.drop_first()[k] == s[k + 1]);
        }
        lemma_first_index(s.drop_first(), c, i - 1);
    }
}

/// Partial position-bonus sums stay within fixed bounds.
proof fn lemma_position_bonus_bounds(v: GameView, player: int, k: int)
    requires
        0 <= k <= 5,
    ensures
        -20 * k <= position_bonus_upto(v, player, k) <= 50 * k,
    decreases k,
{
    if k > 0 {
        lemma_position_bonus_bounds(v, player, k - 1);
    }
}

/// A player's five pawns have taken at most 45 steps in all.
proof fn lemma_player_steps_bound(v: GameView, player: int)
    requires
        dims(v),
        counters_ok(v),
        0 <= player < num_players(v),
    ensures
        0 <= player_steps(v, player) <= 45,
{
    assert(pos_in_range(v.pawn_positions[player * 5]));
    assert(pos_in_range(v.pawn_positions[player * 5 + 1]));
    assert(pos_in_range(v.pawn_positions[player * 5 + 2]));
    assert(pos_in_range(v.pawn_positions[player * 5 + 3]));
    assert(pos_in_range(v.pawn_positions[player * 5 + 4]));
}

impl GameState {
    /// Removes the first copy of `card` from the player's hand.
    fn remove_card_from_hand(&mut self, player: PlayerIndex, card: Card)
        requires
            old(self).well_formed(),
            player < num_players(old(self)@),
            old(self)@.hands[player as int].contains(card),
        ensures
            final(self)@ == (GameView {
                hands: old(self)@.hands.update(
                    player as int,
                    old(self)@.hands[player as int].remove(
                        first_index_of_card(old(self)@.hands[player as int], card),
                    ),
                ),
                ..old(self)@
            }),
            final(self).player_pawns == old(self).player_pawns,
            final(self).pawn_types == old(self).pawn_types,
    {
        let ghost hand0 = self@.hands[player as int];
        let hand_len = self.player_hands[player].len();
        let mut index: usize = 0;
        while self.player_hands[player][index] != card
            invariant
                *self == *old(self),
                old(self).well_formed(),
                player < num_players(self@),
                hand0 == self@.hands[player as int],
                hand_len == hand0.len(),
                index <= hand_len,
                forall|k: int| 0 <= k < index ==> hand0[k] != card,
                exists|j: int| index <= j < hand0.len() && hand0[j] == card,
            decreases hand_len - index,
        {
            index = index + 1;
            proof {
                let j = choose|j: int| index - 1 <= j < hand0.len() && hand0[j] == card;
                assert(index <= j < hand0.len());
            }
        }
        proof {
            lemma_first_index(hand0, card, index as int);
            lemma_map_update(
                old(self).player_hands@,
                player as int,
                old(self).player_hands@[player as int],
                |h: CardPile| h@,
            );
        }
        self.player_hands[player].remove(index);
        proof {
            lemma_map_update(
                old(self).player_hands@,
                player as int,
                self.player_hands@[player as int],
                |h: CardPile| h@,
            );
            assert(self@.hands =~= old(self)@.hands.update(
                player as int,
                hand0.remove(index as int),
            ));
        }
    }

    /// End-of-turn resolution: a short hand means the same player must still
    /// draw; otherwise the turn passes round-robin.
    pub fn end_turn(&mut self) -> (r: TurnState)
        requires
            2 <= num_players(old(self)@) <= 4,
            old(self)@.hands.len() == num_players(old(self)@),
            0 <= old(self)@.current < num_players(old(self)@),
        ensures
            final(self)@ == (GameView { turn: old(self)@.turn, ..end_turn_step(old(self)@) }),
            r == end_turn_step(old(self)@).turn,
            final(self).player_pawns == old(self).player_pawns,
            final(self).pawn_types == old(self).pawn_types,
    {
        let player = self.current_player;
        if self.player_hands[player].len() < 8 {
            return TurnState::DrawingCard;
        }
        if self.current_player == self.player_count() - 1 {
            self.current_player = 0;
        } else {
            self.current_player = self.current_player + 1;
        }
        TurnState::PlayingCard
    }

    /// Adds every player's artifact and pawn-position bonuses to their score.
    fn calculate_scores(&mut self)
        requires
            dims(old(self)@),
            counters_ok(old(self)@),
        ensures
            final(self)@ == (GameView { scores: final_scores(old(self)@), ..old(self)@ }),
            final(self).player_pawns == old(self).player_pawns,
            final(self).pawn_types == old(self).pawn_types,
    {
        let n = self.player_count();
        let mut player: usize = 0;
        while player < n
            invariant
                dims(old(self)@),
                counters_ok(old(self)@),
                n == num_players(old(self)@),
                player <= n,
                self.player_pawns == old(self).player_pawns,
                self.pawn_types == old(self).pawn_types,
                (GameView { scores: old(self)@.scores, ..self@ }) == old(self)@,
                self@.scores.len() == n,
                forall|p: int|
                    0 <= p < player ==> self@.scores[p] == final_scores(old(self)@)[p],
                forall|p: int|
                    player <= p < n ==> self@.scores[p] == old(self)@.scores[p],
            decreases n - player,
        {
            proof {
                lemma_player_steps_bound(old(self)@, player as int);
                assert(0 <= old(self)@.scores[player as int] <= 15 * player_steps(
                    old(self)@,
                    player as int,
                ));
            }
            let bonus = score_for_artifact_count(self.player_artifacts[player]);
            let base = self.player_scores[player];
            let ghost pv = self.player_scores@;
            let ghost scores_at_top = self@.scores;
            let updated = base + bonus;
            self.player_scores[player] = updated;
            proof {
                lemma_map_update(pv, player as int, updated, |x: Score| x as int);
                assert(self@.scores =~= scores_at_top.update(
                    player as int,
                    old(self)@.scores[player as int] + artifact_bonus(
                        old(self)@.artifacts[player as int],
                    ),
                ));
            }
            let mut slot: usize = 0;
            while slot < 5
                invariant
                    dims(old(self)@),
                    counters_ok(old(self)@),
                    n == num_players(old(self)@),
                    player < n,
                    slot <= 5,
                    self.player_pawns == old(self).player_pawns,
                    self.pawn_types == old(self).pawn_types,
                    (GameView { scores: old(self)@.scores, ..self@ }) == old(self)@,
                    self@.scores.len() == n,
                    forall|p: int|
                        0 <= p < player ==> self@.scores[p] == final_scores(old(self)@)[p],
                    forall|p: int|
                        player < p < n ==> self@.scores[p] == old(self)@.scores[p],
                    self@.scores[player as int] == old(self)@.scores[player as int]
                        + artifact_bonus(old(self)@.artifacts[player as int])
                        + position_bonus_upto(old(self)@, player as int, slot as int),
                decreases 5 - slot,
            {
                let pawn = player * 5 + slot;
                proof {
                    assert(pos_in_range(old(self)@.pawn_positions[pawn as int]));
                    assert(slot_position(old(self)@, player as int, slot as int)
                        == old(self)@.pawn_positions[pawn as int]);
                    lemma_player_steps_bound(old(self)@, player as int);
                }
                match self.pawn_positions[pawn] {
                    Some(position) => {
                        proof {
                            lemma_position_bonus_bounds(old(self)@, player as int, slot as int);
                        }
                        let b = score_for_position(position);
                        let ghost scores_before = self@.scores;
                        let ghost pv2 = self.player_scores@;
                        let base2 = self.player_scores[player];
                        let updated2 = base2 + b;
                        self.player_scores[player] = updated2;
                        proof {
                            lemma_map_update(pv2, player as int, updated2, |x: Score| x as int);
                            assert(self@.scores =~= scores_before.update(
                                player as int,
                                scores_before[player as int] + position_bonus(position as int),
                            ));
                        }
                    },
                    None => {},
                }
                slot = slot + 1;
            }
            proof {
                lemma_position_bonus_upto_all(old(self)@, player as int);
            }
            player = player + 1;
        }
        proof {
            assert(self@.scores =~= final_scores(old(self)@));
            assert(self@ == (GameView { scores: final_scores(old(self)@), ..old(self)@ }));
        }
    }

    /// End-of-game resolution: add the bonuses and determine the winner, the
    /// player with the strictly unique maximum score.
    pub fn end_game(&mut self) -> (r: TurnState)
        requires
            dims(old(self)@),
            counters_ok(old(self)@),
        ensures
            final(self)@ == (GameView { turn: old(self)@.turn, ..end_game_step(old(self)@) }),
            r == end_game_step(old(self)@).turn,
            final(self).player_pawns == old(self).player_pawns,
            final(self).pawn_types == old(self).pawn_types,
    {
        self.calculate_scores();
        let ghost scores = final_scores(old(self)@);
        let n = self.player_count();
        let mut best: usize = 0;
        let mut tie = false;
        let mut p: usize = 1;
        while p < n
            invariant
                self@.scores == scores,
                scores.len() == n,
                2 <= n,
                1 <= p <= n,
                (best as int) < p,
                self@.scores == self.player_scores@.map_values(|x: Score| x as int),
                forall|j: int| 0 <= j < p ==> scores[j] <= scores[best as int],
                tie ==> exists|j: int|
                    0 <= j < p && j != best as int && scores[j] == scores[best as int],
                !tie ==> forall|j: int|
                    0 <= j < p && j != best as int ==> scores[j] < scores[best as int],
            decreases n - p,
        {
            let sp = self.player_scores[p];
            let sb = self.player_scores[best];
            if sp > sb {
                best = p;
                tie = false;
            } else if sp == sb {
                tie = true;
                proof {
                    assert(scores[p as int] == scores[best as int]);
                }
            }
            p = p + 1;
        }
        proof {
            if tie {
                let j = choose|j: int|
                    0 <= j < n && j != best as int && scores[j] == scores[best as int];
                assert forall|i: int| !is_unique_max(scores, i) by {
                    if is_unique_max(scores, i) {
                        if i != best as int {
                            assert(scores[best as int] < scores[i]);
                            assert(scores[i] <= scores[best as int]);
                        } else {
                            assert(scores[j] < scores[i]);
                            assert(scores[j] == scores[best as int]);
                        }
                    }
                }
            } else {
                assert(is_unique_max(scores, best as int));
            }
        }
        self.winner = if tie {
            None
        } else {
            Some(best)
        };
        proof {
            if !tie {
                let k = choose|i: int| is_unique_max(scores, i);
                if k != best as int {
                    assert(scores[best as int] < scores[k]);
                    assert(scores[k] < scores[best as int]);
                }
                assert(winner_of(scores) == Some(best as int));
            } else {
                assert(winner_of(scores) is None);
            }
        }
        TurnState::GameFinished
    }
}

/// Whether an optional pawn color is exactly `color`.
fn option_color_is(c: &Option<Color>, color: Color) -> (r: bool)
    ensures
        r == (*c == Some(color)),
{
    match c {
        Some(c2) => *c2 == color,
        None => false,
    }
}

impl GameState {
    /// Advances the player's pawn on `color` by one position and resolves
    /// the event it lands on.  An Arrow forces another move only when some
    /// other pawn of the player can move.  A pawn already at the final
    /// position is left alone (defensive; unreachable through legal
    /// actions).
    #[verifier::rlimit(60)]
    pub fn move_color(&mut self, player: PlayerIndex, color: Color) -> (r: TurnState)
        requires
            dims(old(self)@),
            counters_ok(old(self)@),
            player as int == old(self)@.current,
            has_color_pawn(old(self)@, player as int, color),
        ensures
            final(self)@ == (GameView {
                turn: old(self)@.turn,
                ..move_color_step(old(self)@, color)
            }),
            r == move_color_step(old(self)@, color).turn,
            final(self).player_pawns == old(self).player_pawns,
            final(self).pawn_types == old(self).pawn_types,
    {
        let mut slot: usize = 0;
        while !option_color_is(&self.pawn_colors[player * 5 + slot], color)
            invariant
                *self == *old(self),
                dims(self@),
                player as int == self@.current,
                slot < 5,
                forall|k: int| 0 <= k < slot ==> slot_color(self@, player as int, k) != Some(color),
                exists|i: int|
                    slot <= i < 5 && slot_color(self@, player as int, i) == Some(color),
            decreases 5 - slot,
        {
            proof {
                let i = choose|i: int|
                    slot <= i < 5 && slot_color(self@, player as int, i) == Some(color);
                assert(slot_color(self@, player as int, slot as int) == self@.pawn_colors[player
                    * 5 + slot]);
                assert(i > slot);
            }
            slot = slot + 1;
        }
        proof {
            let v = old(self)@;
            let pl = player as int;
            assert(slot_color(v, pl, 0) == v.pawn_colors[pl * 5]);
            assert(slot_color(v, pl, 1) == v.pawn_colors[pl * 5 + 1]);
            assert(slot_color(v, pl, 2) == v.pawn_colors[pl * 5 + 2]);
            assert(slot_color(v, pl, 3) == v.pawn_colors[pl * 5 + 3]);
            assert(slot_color(v, pl, 4) == v.pawn_colors[pl * 5 + 4]);
            assert(slot_color(v, pl, slot as int) == self@.pawn_colors[player * 5 + slot]);
            assert(slot as int == color_pawn_slot(v, pl, color));
        }
        let pawn = player * 5 + slot;
        let newpos: u8;
        match self.pawn_positions[pawn] {
            Some(position) => {
                proof {
                    assert(pos_in_range(old(self)@.pawn_positions[pawn as int]));
                }
                if position == 8 {
                    return TurnState::MovingPawn;
                }
                newpos = position + 1;
            },
            None => {
                newpos = 0;
            },
        }
        let ghost v1 = GameView {
            pawn_positions: old(self)@.pawn_positions.update(pawn as int, Some(newpos as int)),
            ..old(self)@
        };
        let ghost pp = self.pawn_positions@;
        self.pawn_positions[pawn] = Some(newpos);
        proof {
            lemma_map_update(pp, pawn as int, Some(newpos), |p: Option<PathPosition>| pos_view(p));
            assert(self@.pawn_positions =~= v1.pawn_positions);
            assert(self@ == v1);
        }
        let ci = color.index();
        let event = self.color_position_events[ci][newpos as usize];
        proof {
            assert(self@.events[ci as int] == self.color_position_events@[ci as int]@);
            assert(event == old(self)@.events[ci as int][newpos as int]);
            assert(points_bounded(old(self)@.events[ci as int][newpos as int]));
            lemma_player_steps_bound(old(self)@, player as int);
            assert(player_steps(v1, player as int) == player_steps(old(self)@, player as int)
                + 1);
        }
        match event {
            Some(Event::Points(points)) => {
                let ghost pv = self.player_scores@;
                let base = self.player_scores[player];
                let updated = base + points;
                self.player_scores[player] = updated;
                proof {
                    lemma_map_update(pv, player as int, updated, |x: Score| x as int);
                    assert(self@.scores =~= v1.scores.update(
                        player as int,
                        v1.scores[player as int] + points as int,
                    ));
                }
                self.end_turn()
            },
            Some(Event::Artifact) => {
                let ghost pa = self.player_artifacts@;
                let arts = self.player_artifacts[player];
                let updated = arts + 1;
                self.player_artifacts[player] = updated;
                proof {
                    lemma_map_update(pa, player as int, updated, |x: u8| x as int);
                    assert(self@.artifacts =~= v1.artifacts.update(
                        player as int,
                        v1.artifacts[player as int] + 1,
                    ));
                }
                self.end_turn()
            },
            Some(Event::Arrow) => {
                if self.player_can_move_other(player, slot) {
                    TurnState::MovingPawn
                } else {
                    self.end_turn()
                }
            },
            None => self.end_turn(),
        }
    }

    /// Assigns the first unassigned pawn of the chosen type to the pending
    /// color of the `PlayingPawn` phase, then advances it.
    pub fn choose_pawn_type(&mut self, player: PlayerIndex, pawn_type: PawnType) -> (r: TurnState)
        requires
            old(self).well_formed(),
            old(self)@.turn is PlayingPawn,
            player as int == old(self)@.current,
            has_unassigned_of_type(old(self)@, player as int, pawn_type),
        ensures
            final(self)@ == (GameView {
                turn: old(self)@.turn,
                ..choose_pawn_type_step(old(self)@, pawn_type)
            }),
            r == choose_pawn_type_step(old(self)@, pawn_type).turn,
            final(self).player_pawns == old(self).player_pawns,
            final(self).pawn_types == old(self).pawn_types,
    {
        let color = match self.turn_state {
            TurnState::PlayingPawn(c) => c,
            _ => vstd::pervasive::unreached(),
        };
        proof {
            assert(color == pending_color(old(self)@));
        }
        let mut slot: usize = 0;
        while !(self.pawn_types[player * 5 + slot] == pawn_type && self.pawn_colors[player * 5
            + slot].is_none())
            invariant
                *self == *old(self),
                old(self).well_formed(),
                player as int == self@.current,
                slot < 5,
                forall|k: int|
                    0 <= k < slot ==> !(slot_color(self@, player as int, k) is None
                        && pawn_type_of_slot(k) == pawn_type),
                exists|i: int|
                    slot <= i < 5 && slot_color(self@, player as int, i) is None
                        && pawn_type_of_slot(i) == pawn_type,
            decreases 5 - slot,
        {
            proof {
                let i = choose|i: int|
                    slot <= i < 5 && slot_color(self@, player as int, i) is None
                        && pawn_type_of_slot(i) == pawn_type;
                assert(slot_color(self@, player as int, slot as int) == self@.pawn_colors[player
                    * 5 + slot]);
                assert(self.pawn_types@[player as int * 5 + slot as int] == pawn_type_of_slot(
                    (player as int * 5 + slot as int) % 5,
                ));
                assert((player as int * 5 + slot as int) % 5 == slot as int) by (nonlinear_arith)
                    requires
                        0 <= slot < 5,
                ;
                assert(i > slot);
            }
            slot = slot + 1;
        }
        proof {
            assert(slot_color(self@, player as int, slot as int) == self@.pawn_colors[player * 5
                + slot]);
            assert(self.pawn_types@[player as int * 5 + slot as int] == pawn_type_of_slot(
                (player as int * 5 + slot as int) % 5,
            ));
            assert((player as int * 5 + slot as int) % 5 == slot as int) by (nonlinear_arith)
                requires
                    0 <= slot < 5,
            ;
            assert(slot as int == first_unassigned_slot(old(self)@, player as int, pawn_type));
        }
        let pawn = player * 5 + slot;
        self.pawn_colors[pawn] = Some(color);
        let ghost v1 = GameView {
            pawn_colors: old(self)@.pawn_colors.update(pawn as int, Some(color)),
            ..old(self)@
        };
        proof {
            assert(self@.pawn_colors =~= v1.pawn_colors);
            assert(self@ == v1);
            assert(slot_color(v1, player as int, slot as int) == Some(color));
            assert(has_color_pawn(v1, player as int, color));
        }
        self.move_color(player, color)
    }

    /// Plays a card onto its color's expedition.  Opening the expedition
    /// demands a pawn assignment; otherwise the assigned pawn advances.
    pub fn play_card(&mut self, player: PlayerIndex, card: Card) -> (r: TurnState)
        requires
            old(self).well_formed(),
            old(self)@.turn is PlayingCard,
            player as int == old(self)@.current,
            old(self)@.hands[player as int].contains(card),
            can_play(old(self)@, player as int, card),
        ensures
            final(self)@ == (GameView {
                turn: old(self)@.turn,
                ..play_card_step(old(self)@, card)
            }),
            r == play_card_step(old(self)@, card).turn,
            final(self).player_pawns == old(self).player_pawns,
            final(self).pawn_types == old(self).pawn_types,
    {
        self.remove_card_from_hand(player, card);
        let ci = card.color.index();
        proof {
            assert(self@.expeditions[player as int] == self.player_color_expeditions@[player
                as int]@.map_values(|e: CardPile| e@));
        }
        let is_empty = self.player_color_expeditions[player][ci].len() == 0;
        let ghost pe = self.player_color_expeditions@;
        let ghost inner0 = self.player_color_expeditions@[player as int]@;
        let ghost mid = self@;
        self.player_color_expeditions[player][ci].push(card);
        let ghost v1 = GameView {
            hands: mid.hands,
            expeditions: old(self)@.expeditions.update(
                player as int,
                old(self)@.expeditions[player as int].update(
                    ci as int,
                    old(self)@.expeditions[player as int][ci as int].push(card),
                ),
            ),
            ..old(self)@
        };
        proof {
            let f = |e: CardPile| e@;
            let g = |pv: Vec<CardPile>| pv@.map_values(|e: CardPile| e@);
            lemma_map_update(inner0, ci as int, self.player_color_expeditions@[player as int]@[ci as int], f);
            lemma_map_update(pe, player as int, self.player_color_expeditions@[player as int], g);
            assert(self@.expeditions[player as int] =~= v1.expeditions[player as int]);
            assert(self@.expeditions =~= v1.expeditions);
            assert(self@ == v1);
        }
        if is_empty {
            TurnState::PlayingPawn(card.color)
        } else {
            proof {
                assert(crate::types::idx_color(ci as int) == card.color);
                assert(old(self)@.expeditions[player as int][ci as int].len() > 0);
                assert(has_color_pawn(old(self)@, player as int, card.color));
                assert(has_color_pawn(v1, player as int, card.color)) by {
                    let i = choose|i: int|
                        0 <= i < 5 && slot_color(old(self)@, player as int, i) == Some(card.color);
                    assert(slot_color(v1, player as int, i) == Some(card.color));
                }
                lemma_player_steps_bound(old(self)@, player as int);
            }
            self.move_color(player, card.color)
        }
    }

    /// Discards a hand card onto its color's discard pile.
    pub fn discard_card(&mut self, player: PlayerIndex, card: Card) -> (r: TurnState)
        requires
            old(self).well_formed(),
            player as int == old(self)@.current,
            old(self)@.hands[player as int].contains(card),
        ensures
            final(self)@ == (GameView {
                turn: old(self)@.turn,
                ..discard_card_step(old(self)@, card)
            }),
            r == discard_card_step(old(self)@, card).turn,
            final(self).player_pawns == old(self).player_pawns,
            final(self).pawn_types == old(self).pawn_types,
    {
        self.remove_card_from_hand(player, card);
        let ci = card.color.index();
        let ghost dp = self.color_discard_piles@;
        let ghost mid = self@;
        self.color_discard_piles[ci].push(card);
        proof {
            lemma_map_update(dp, ci as int, self.color_discard_piles@[ci as int], |d: CardPile| d@);
            assert(self@.discards =~= mid.discards.update(
                ci as int,
                mid.discards[ci as int].push(card),
            ));
            assert(self@.discards =~= old(self)@.discards.update(
                ci as int,
                old(self)@.discards[ci as int].push(card),
            ));
        }
        TurnState::DrawingCard
    }

    /// Draws the top deck card into the hand; emptying the deck ends the
    /// game.
    pub fn draw_from_deck(&mut self, player: PlayerIndex) -> (r: TurnState)
        requires
            old(self).well_formed(),
            !(old(self)@.turn is GameFinished),
            player as int == old(self)@.current,
        ensures
            final(self)@ == (GameView {
                turn: old(self)@.turn,
                ..draw_from_deck_step(old(self)@)
            }),
            r == draw_from_deck_step(old(self)@).turn,
            final(self).player_pawns == old(self).player_pawns,
            final(self).pawn_types == old(self).pawn_types,
    {
        let card_opt = self.deck.pop();
        let card = card_opt.unwrap();
        let ghost ph = self.player_hands@;
        self.player_hands[player].push(card);
        proof {
            lemma_map_update(ph, player as int, self.player_hands@[player as int], |h: CardPile| h@);
            assert(self@.hands =~= old(self)@.hands.update(
                player as int,
                old(self)@.hands[player as int].push(old(self)@.deck.last()),
            ));
        }
        if self.deck.len() == 0 {
            self.end_game()
        } else {
            self.end_turn()
        }
    }

    /// Draws the top card of a color's discard pile into the hand.
    pub fn draw_from_discard(&mut self, player: PlayerIndex, color: Color) -> (r: TurnState)
        requires
            old(self).well_formed(),
            player as int == old(self)@.current,
            old(self)@.discards[color_idx(color)].len() > 0,
        ensures
            final(self)@ == (GameView {
                turn: old(self)@.turn,
                ..draw_from_discard_step(old(self)@, color)
            }),
            r == draw_from_discard_step(old(self)@, color).turn,
            final(self).player_pawns == old(self).player_pawns,
            final(self).pawn_types == old(self).pawn_types,
    {
        let ci = color.index();
        let ghost dp = self.color_discard_piles@;
        proof {
            assert(self@.discards[ci as int] == self.color_discard_piles@[ci as int]@);
        }
        let card_opt = self.color_discard_piles[ci].pop();
        let card = card_opt.unwrap();
        proof {
            lemma_map_update(dp, ci as int, self.color_discard_piles@[ci as int], |d: CardPile| d@);
            assert(self@.discards =~= old(self)@.discards.update(
                ci as int,
                old(self)@.discards[ci as int].drop_last(),
            ));
        }
        let ghost ph = self.player_hands@;
        self.player_hands[player].push(card);
        proof {
            lemma_map_update(ph, player as int, self.player_hands@[player as int], |h: CardPile| h@);
            assert(self@.hands =~= old(self)@.hands.update(
                player as int,
                old(self)@.hands[player as int].push(
                    old(self)@.discards[color_idx(color)].last(),
                ),
            ));
        }
        self.end_turn()
    }
}

/// Everything a sequence contains it still contains after a push.
proof fn lemma_contains_after_push(s: Seq<Action>, x: Action)
    ensures
        forall|a: Action| s.contains(a) ==> #[trigger] s.push(x).contains(a),
        s.push(x).contains(x),
{
    assert forall|a: Action| s.contains(a) implies #[trigger] s.push(x).contains(a) by {
        let k = choose|k: int| 0 <= k < s.len() && s[k] == a;
        assert(s.push(x)[k] == a);
    }
    assert(s.push(x)[s.len() as int] == x);
}

impl GameState {
    /// Every action that is legal right now, and nothing else: exactly the
    /// sequence `legal_action_list` fixes, a pure function of the state.
    /// The list is empty exactly when the game is finished or a forced pawn
    /// move has no pawn able to move.
    pub fn available_actions(&self) -> (r: Vec<Action>)
        requires
            self.well_formed(),
        ensures
            r@ == legal_action_list(self@),
            forall|k: int| 0 <= k < r@.len() ==> action_legal(self@, #[trigger] r@[k]),
            forall|a: Action| action_legal(self@, a) ==> r@.contains(a),
            (r@.len() == 0) == (self@.turn is GameFinished || (self@.turn is MovingPawn
                && !can_move_any(self@, self@.current))),
    {
        let player = self.current_player;
        match self.turn_state {
            TurnState::PlayingCard => {
                let mut actions: Vec<Action> = Vec::new();
                let ghost hand = self@.hands[player as int];
                let hand_len = self.player_hands[player].len();
                let mut i: usize = 0;
                while i < hand_len
                    invariant
                        self.well_formed(),
                        self@.turn is PlayingCard,
                        player == self.current_player,
                        hand == self@.hands[player as int],
                        hand_len == hand.len(),
                        i <= hand_len,
                        forall|k: int|
                            0 <= k < actions@.len() ==> action_legal(self@, #[trigger] actions@[k]),
                        forall|j: int|
                            0 <= j < i && can_play(self@, player as int, hand[j])
                                ==> actions@.contains(Action::PlayCard(hand[j])),
                        actions@ == play_actions_upto(self@, hand, i as int),
                    decreases hand_len - i,
                {
                    let card = self.player_hands[player][i];
                    if self.can_play_card(player, card) {
                        let ghost pre = actions@;
                        actions.push(Action::PlayCard(card));
                        proof {
                            lemma_contains_after_push(pre, Action::PlayCard(card));
                        }
                    }
                    proof {
                        assert(actions@ =~= play_actions_upto(self@, hand, i as int + 1));
                    }
                    i = i + 1;
                }
                let mut i2: usize = 0;
                while i2 < hand_len
                    invariant
                        self.well_formed(),
                        self@.turn is PlayingCard,
                        player == self.current_player,
                        hand == self@.hands[player as int],
                        hand_len == hand.len(),
                        i2 <= hand_len,
                        forall|k: int|
                            0 <= k < actions@.len() ==> action_legal(self@, #[trigger] actions@[k]),
                        forall|j: int|
                            0 <= j < hand.len() && can_play(self@, player as int, hand[j])
                                ==> actions@.contains(Action::PlayCard(hand[j])),
                        forall|j: int|
                            0 <= j < i2 ==> actions@.contains(Action::DiscardCard(hand[j])),
                        actions@ == play_actions_upto(self@, hand, hand.len() as int)
                            + hand.take(i2 as int).map_values(
                            |c: Card| Action::DiscardCard(c),
                        ),
                    decreases hand_len - i2,
                {
                    let card = self.player_hands[player][i2];
                    let ghost pre = actions@;
                    actions.push(Action::DiscardCard(card));
                    proof {
                        lemma_contains_after_push(pre, Action::DiscardCard(card));
                        assert(hand.take(i2 as int + 1).map_values(
                            |c: Card| Action::DiscardCard(c),
                        ) =~= hand.take(i2 as int).map_values(
                            |c: Card| Action::DiscardCard(c),
                        ).push(Action::DiscardCard(hand[i2 as int])));
                        assert(actions@ =~= play_actions_upto(self@, hand, hand.len() as int)
                            + hand.take(i2 as int + 1).map_values(
                            |c: Card| Action::DiscardCard(c),
                        ));
                    }
                    i2 = i2 + 1;
                }
                proof {
                    assert forall|a: Action| action_legal(self@, a) implies actions@.contains(
                        a,
                    ) by {
                        match a {
                            Action::PlayCard(c) => {
                                let j = choose|j: int| 0 <= j < hand.len() && hand[j] == c;
                                assert(actions@.contains(Action::PlayCard(hand[j])));
                            },
                            Action::DiscardCard(c) => {
                                let j = choose|j: int| 0 <= j < hand.len() && hand[j] == c;
                                assert(actions@.contains(Action::DiscardCard(hand[j])));
                            },
                            _ => {},
                        }
                    }
                    assert(hand.len() == 8);
                    assert(actions@.contains(Action::DiscardCard(hand[0])));
                    assert(actions@.len() > 0);
                    assert(hand.take(hand.len() as int) =~= hand);
                    assert(actions@ == legal_action_list(self@));
                }
                actions
            },
            TurnState::DrawingCard => {
                let mut actions: Vec<Action> = Vec::new();
                actions.push(Action::DrawFromDeck);
                proof {
                    assert(actions@ =~= seq![Action::DrawFromDeck] + discard_draw_actions_upto(
                        self@,
                        0,
                    ));
                }
                let mut c: usize = 0;
                while c < 5
                    invariant
                        self.well_formed(),
                        self@.turn is DrawingCard,
                        c <= 5,
                        actions@[0] == Action::DrawFromDeck,
                        actions@.len() > 0,
                        forall|k: int|
                            0 <= k < actions@.len() ==> action_legal(self@, #[trigger] actions@[k]),
                        forall|j: int|
                            0 <= j < c && self@.discards[j].len() > 0 ==> actions@.contains(
                                Action::DrawFromDiscard(crate::types::idx_color(j)),
                            ),
                        actions@ == seq![Action::DrawFromDeck] + discard_draw_actions_upto(
                            self@,
                            c as int,
                        ),
                    decreases 5 - c,
                {
                    proof {
                        assert(self@.discards[c as int] == self.color_discard_piles@[c as int]@);
                    }
                    if self.color_discard_piles[c].len() > 0 {
                        let color = Color::from_index(c);
                        let ghost pre = actions@;
                        actions.push(Action::DrawFromDiscard(color));
                        proof {
                            lemma_contains_after_push(pre, Action::DrawFromDiscard(color));
                        }
                    }
                    proof {
                        assert(actions@ =~= seq![Action::DrawFromDeck]
                            + discard_draw_actions_upto(self@, c as int + 1));
                    }
                    c = c + 1;
                }
                proof {
                    assert forall|a: Action| action_legal(self@, a) implies actions@.contains(
                        a,
                    ) by {
                        match a {
                            Action::DrawFromDeck => {
                                assert(actions@.contains(actions@[0]));
                            },
                            Action::DrawFromDiscard(col) => {
                                assert(crate::types::idx_color(color_idx(col)) == col);
                            },
                            _ => {},
                        }
                    }
                }
                actions
            },
            TurnState::PlayingPawn(_) => {
                let mut actions: Vec<Action> = Vec::new();
                let mut i: usize = 0;
                while i < 5
                    invariant
                        self.well_formed(),
                        self@.turn is PlayingPawn,
                        player == self.current_player,
                        i <= 5,
                        forall|k: int|
                            0 <= k < actions@.len() ==> action_legal(self@, #[trigger] actions@[k]),
                        forall|j: int|
                            0 <= j < i && slot_color(self@, player as int, j) is None
                                ==> actions@.contains(
                                Action::ChoosePawnType(pawn_type_of_slot(j)),
                            ),
                        actions@ == pawn_choice_actions_upto(self@, i as int),
                    decreases 5 - i,
                {
                    let pawn = player * 5 + i;
                    proof {
                        assert(slot_color(self@, player as int, i as int) == self@.pawn_colors[
                            player * 5 + i]);
                        assert(self.pawn_types@[pawn as int] == pawn_type_of_slot(
                            pawn as int % 5,
                        ));
                        assert(pawn as int % 5 == i as int) by (nonlinear_arith)
                            requires
                                pawn as int == player as int * 5 + i as int,
                                0 <= i < 5,
                                0 <= player,
                        ;
                    }
                    if self.pawn_colors[pawn].is_none() {
                        let t = self.pawn_types[pawn];
                        let ghost pre = actions@;
                        actions.push(Action::ChoosePawnType(t));
                        proof {
                            lemma_contains_after_push(pre, Action::ChoosePawnType(t));
                        }
                    }
                    proof {
                        assert(actions@ =~= pawn_choice_actions_upto(self@, i as int + 1));
                    }
                    i = i + 1;
                }
                proof {
                    assert forall|a: Action| action_legal(self@, a) implies actions@.contains(
                        a,
                    ) by {
                        match a {
                            Action::ChoosePawnType(t) => {
                                let j = choose|j: int|
                                    0 <= j < 5 && slot_color(self@, player as int, j) is None
                                        && pawn_type_of_slot(j) == t;
                                assert(actions@.contains(
                                    Action::ChoosePawnType(pawn_type_of_slot(j)),
                                ));
                            },
                            _ => {},
                        }
                    }
                    lemma_unassigned_exists(self@);
                    let j = choose|j: int| 0 <= j < 5 && slot_color(self@, player as int, j)
                        is None;
                    assert(actions@.contains(Action::ChoosePawnType(pawn_type_of_slot(j))));
                    assert(actions@.len() > 0);
                }
                actions
            },
            TurnState::MovingPawn => {
                let mut actions: Vec<Action> = Vec::new();
                let mut i: usize = 0;
                while i < 5
                    invariant
                        self.well_formed(),
                        self@.turn is MovingPawn,
                        player == self.current_player,
                        i <= 5,
                        forall|k: int|
                            0 <= k < actions@.len() ==> action_legal(self@, #[trigger] actions@[k]),
                        forall|j: int|
                            0 <= j < i && slot_movable(self@, player as int, j)
                                ==> (slot_color(self@, player as int, j) matches Some(col)
                                && actions@.contains(Action::MoveColor(col))),
                        actions@ == move_actions_upto(self@, i as int),
                    decreases 5 - i,
                {
                    let pawn = player * 5 + i;
                    proof {
                        assert(slot_color(self@, player as int, i as int) == self@.pawn_colors[
                            player * 5 + i]);
                        assert(slot_movable(self@, player as int, i as int) == pawn_movable(
                            self@,
                            pawn as int,
                        ));
                    }
                    if self.can_move_pawn(pawn) {
                        match self.pawn_colors[pawn] {
                            Some(col) => {
                                let ghost pre = actions@;
                                actions.push(Action::MoveColor(col));
                                proof {
                                    lemma_contains_after_push(pre, Action::MoveColor(col));
                                }
                            },
                            None => {
                                proof {
                                    assert(self@.pawn_positions[pawn as int] is Some);
                                    assert(false);
                                }
                            },
                        }
                    }
                    proof {
                        assert(actions@ =~= move_actions_upto(self@, i as int + 1));
                    }
                    i = i + 1;
                }
                proof {
                    assert forall|a: Action| action_legal(self@, a) implies actions@.contains(
                        a,
                    ) by {
                        match a {
                            Action::MoveColor(col) => {
                                let j = choose|j: int|
                                    0 <= j < 5 && slot_movable(self@, player as int, j)
                                        && slot_color(self@, player as int, j) == Some(col);
                                assert(actions@.contains(Action::MoveColor(col)));
                            },
                            _ => {},
                        }
                    }
                    if can_move_any(self@, self@.current) {
                        let j = choose|j: int|
                            0 <= j < 5 && slot_movable(self@, self@.current, j);
                        assert(slot_color(self@, player as int, j) is Some);
                        let col = slot_color(self@, player as int, j)->0;
                        assert(actions@.contains(Action::MoveColor(col)));
                        assert(actions@.len() > 0);
                    } else {
                        assert(forall|k: int|
                            0 <= k < actions@.len() ==> !action_legal(
                                self@,
                                #[trigger] actions@[k],
                            ));
                        assert(actions@.len() == 0) by {
                            if actions@.len() > 0 {
                                assert(action_legal(self@, actions@[0]));
                            }
                        }
                    }
                }
                actions
            },
            TurnState::GameFinished => {
                let actions: Vec<Action> = Vec::new();
                proof {
                    assert(actions@ =~= legal_action_list(self@));
                }
                actions
            },
        }
    }

    /// Applies one legal action, driving the state machine one transition.
    pub fn do_action(&mut self, action: Action)
        requires
            old(self).well_formed(),
            !(old(self)@.turn is GameFinished),
            action_legal(old(self)@, action),
        ensures
            final(self).well_formed(),
            final(self)@ == step(old(self)@, action),
            final(self).player_pawns == old(self).player_pawns,
            final(self).pawn_types == old(self).pawn_types,
    {
        proof {
            crate::model::lemma_step_preserves_wf(old(self)@, action);
        }
        let player = self.current_player;
        let next = match action {
            Action::PlayCard(card) => self.play_card(player, card),
            Action::DiscardCard(card) => self.discard_card(player, card),
            Action::DrawFromDeck => self.draw_from_deck(player),
            Action::DrawFromDiscard(color) => self.draw_from_discard(player, color),
            Action::ChoosePawnType(pawn_type) => self.choose_pawn_type(player, pawn_type),
            Action::MoveColor(color) => self.move_color(player, color),
        };
        self.turn_state = next;
    }
}

impl GameState {
    /// Builds the whole starting position for `num_players` players (2 to
    /// 4): the fixed shuffled deck, eight cards dealt to each player from
    /// its tail, empty expeditions and discard piles, five fresh pawns per
    /// player, and the fixed event board.
    pub fn new(num_players: i8) -> (r: GameState)
        requires
            2 <= num_players <= 4,
        ensures
            r.well_formed(),
            r@ == initial_state(num_players as int),
            crate::model::num_players(r@) == num_players as int,
            forall|p: int| 0 <= p < num_players as int ==> r@.hands[p].len() == 8,
            r@.deck.len() == 110 - 8 * num_players as int,
            r@.deck.to_multiset().add(hands_multiset(r@.hands)) == full_deck().to_multiset(),
    {
        let n = num_players as usize;
        let mut deck = create_deck();
        proof {
            assert(deck@ =~= shuffled_deck().take(110));
        }
        let mut player_hands: Vec<CardPile> = Vec::new();
        proof {
            broadcast use vstd::seq_lib::group_to_multiset_ensures;
            broadcast use vstd::multiset::group_multiset_axioms;

            assert(player_hands@.map_values(|h: CardPile| h@) =~= Seq::<Seq<Card>>::empty());
            assert(deck@.to_multiset().add(
                hands_multiset(player_hands@.map_values(|h: CardPile| h@)),
            ) =~= full_deck().to_multiset());
        }
        let mut p: usize = 0;
        while p < n
            invariant
                p <= n,
                n <= 4,
                shuffled_deck().len() == 110,
                deck@ == shuffled_deck().take(110 - 8 * p),
                player_hands@.len() == p,
                forall|q: int|
                    0 <= q < p ==> (#[trigger] player_hands@[q])@ == initial_hands(n as int)[q],
                deck@.to_multiset().add(
                    hands_multiset(player_hands@.map_values(|h: CardPile| h@)),
                ) == full_deck().to_multiset(),
            decreases n - p,
        {
            let mut hand: CardPile = Vec::new();
            proof {
                broadcast use vstd::seq_lib::group_to_multiset_ensures;
                broadcast use vstd::multiset::group_multiset_axioms;

                assert(hand@.to_multiset().len() == 0);
                assert(deck@.to_multiset().add(
                    hands_multiset(player_hands@.map_values(|h: CardPile| h@)),
                ).add(hand@.to_multiset()) =~= full_deck().to_multiset());
            }
            let mut k: usize = 0;
            while k < 8
                invariant
                    p < n <= 4,
                    k <= 8,
                    shuffled_deck().len() == 110,
                    deck@ == shuffled_deck().take(110 - 8 * p - k),
                    hand@.len() == k,
                    forall|m: int|
                        0 <= m < k ==> #[trigger] hand@[m] == shuffled_deck()[109 - (p * 8 + m)],
                    deck@.to_multiset().add(
                        hands_multiset(player_hands@.map_values(|h: CardPile| h@)),
                    ).add(hand@.to_multiset()) == full_deck().to_multiset(),
                decreases 8 - k,
            {
                let ghost d0 = deck@;
                let ghost h0 = hand@;
                let card = deck.pop().unwrap();
                proof {
                    assert(deck@ =~= shuffled_deck().take(110 - 8 * p - k - 1));
                }
                hand.push(card);
                proof {
                    broadcast use vstd::seq_lib::group_to_multiset_ensures;
                    broadcast use vstd::multiset::group_multiset_axioms;

                    assert(d0 =~= deck@.push(card));
                    assert((deck@.push(card)).to_multiset() =~= deck@.to_multiset().insert(card));
                    assert(hand@.to_multiset() =~= h0.to_multiset().insert(card));
                    assert(deck@.to_multiset().add(
                        hands_multiset(player_hands@.map_values(|h: CardPile| h@)),
                    ).add(hand@.to_multiset()) =~= full_deck().to_multiset());
                }
                k = k + 1;
            }
            proof {
                assert(hand@ =~= initial_hands(n as int)[p as int]);
            }
            let ghost hv0 = player_hands@.map_values(|h: CardPile| h@);
            player_hands.push(hand);
            proof {
                broadcast use vstd::seq_lib::group_to_multiset_ensures;
                broadcast use vstd::multiset::group_multiset_axioms;

                let hv = player_hands@.map_values(|h: CardPile| h@);
                assert(hv =~= hv0.push(hand@));
                assert(hv.drop_last() =~= hv0);
                assert(hv.last() == hand@);
                assert(hands_multiset(hv) == hands_multiset(hv0).add(hand@.to_multiset()));
                assert(deck@.to_multiset().add(hands_multiset(hv)) =~= full_deck().to_multiset());
            }
            p = p + 1;
        }
        let mut player_scores: Vec<Score> = Vec::new();
        let mut player_artifacts: Vec<u8> = Vec::new();
        let mut player_color_expeditions: Vec<Vec<CardPile>> = Vec::new();
        let mut player_pawns: Vec<Vec<PawnIndex>> = Vec::new();
        let mut pawn_types: Vec<PawnType> = Vec::new();
        let mut pawn_colors: Vec<Option<Color>> = Vec::new();
        let mut pawn_positions: Vec<Option<PathPosition>> = Vec::new();
        let mut pi: usize = 0;
        while pi < n
            invariant
                pi <= n,
                n <= 4,
                player_scores@.len() == pi,
                player_artifacts@.len() == pi,
                player_color_expeditions@.len() == pi,
                player_pawns@.len() == pi,
                pawn_types@.len() == 5 * pi,
                pawn_colors@.len() == 5 * pi,
                pawn_positions@.len() == 5 * pi,
                forall|q: int| 0 <= q < pi ==> #[trigger] player_scores@[q] == 0i16,
                forall|q: int| 0 <= q < pi ==> #[trigger] player_artifacts@[q] == 0u8,
                forall|q: int|
                    0 <= q < pi ==> (#[trigger] player_color_expeditions@[q])@.len() == 5,
                forall|q: int, c: int|
                    0 <= q < pi && 0 <= c < 5 ==> (#[trigger] player_color_expeditions@[q]@[c])@
                        =~= Seq::<Card>::empty(),
                forall|q: int| 0 <= q < pi ==> (#[trigger] player_pawns@[q])@.len() == 5,
                forall|q: int, i: int|
                    0 <= q < pi && 0 <= i < 5 ==> #[trigger] player_pawns@[q]@[i] == q * 5 + i,
                forall|k: int| 0 <= k < 5 * pi ==> #[trigger] pawn_colors@[k] is None,
                forall|k: int| 0 <= k < 5 * pi ==> #[trigger] pawn_positions@[k] is None,
                forall|k: int|
                    0 <= k < 5 * pi ==> #[trigger] pawn_types@[k] == pawn_type_of_slot(k % 5),
            decreases n - pi,
        {
            player_scores.push(0);
            player_artifacts.push(0);
            let mut piles: Vec<CardPile> = Vec::new();
            let mut pawns: Vec<PawnIndex> = Vec::new();
            let mut slot: usize = 0;
            while slot < 5
                invariant
                    pi < n <= 4,
                    slot <= 5,
                    piles@.len() == slot,
                    pawns@.len() == slot,
                    pawn_types@.len() == 5 * pi + slot,
                    pawn_colors@.len() == 5 * pi + slot,
                    pawn_positions@.len() == 5 * pi + slot,
                    forall|c: int| 0 <= c < slot ==> (#[trigger] piles@[c])@ =~= Seq::<
                        Card,
                    >::empty(),
                    forall|i: int| 0 <= i < slot ==> #[trigger] pawns@[i] == pi * 5 + i,
                    forall|k: int| 0 <= k < 5 * pi + slot ==> #[trigger] pawn_colors@[k] is None,
                    forall|k: int|
                        0 <= k < 5 * pi + slot ==> #[trigger] pawn_positions@[k] is None,
                    forall|k: int|
                        0 <= k < 5 * pi + slot ==> #[trigger] pawn_types@[k] == pawn_type_of_slot(
                            k % 5,
                        ),
                decreases 5 - slot,
            {
                piles.push(Vec::new());
                pawns.push(pi * 5 + slot);
                let t = if slot == 4 {
                    PawnType::Researcher
                } else {
                    PawnType::Adventurer
                };
                proof {
                    assert((5 * pi + slot) as int % 5 == slot as int) by (nonlinear_arith)
                        requires
                            0 <= slot < 5,
                            0 <= pi,
                    ;
                }
                pawn_types.push(t);
                pawn_colors.push(None);
                pawn_positions.push(None);
                slot = slot + 1;
            }
            player_color_expeditions.push(piles);
            player_pawns.push(pawns);
            pi = pi + 1;
        }
        let mut pool = create_events();
        let mut color_discard_piles: Vec<CardPile> = Vec::new();
        let mut dc: usize = 0;
        while dc < 5
            invariant
                dc <= 5,
                color_discard_piles@.len() == dc,
                forall|c: int| 0 <= c < dc ==> (#[trigger] color_discard_piles@[c])@ =~= Seq::<
                    Card,
                >::empty(),
            decreases 5 - dc,
        {
            color_discard_piles.push(Vec::new());
            dc = dc + 1;
        }
        let mut board: Vec<Vec<Option<Event>>> = Vec::new();
        let mut row0: Vec<Option<Event>> = Vec::new();
        row0.push(None);
        row0.push(pool.pop());
        row0.push(pool.pop());
        row0.push(None);
        row0.push(pool.pop());
        row0.push(None);
        row0.push(pool.pop());
        row0.push(None);
        row0.push(pool.pop());
        proof {
            assert(row0@ =~= initial_board()[0]);
        }
        board.push(row0);
        let mut row1: Vec<Option<Event>> = Vec::new();
        row1.push(None);
        row1.push(pool.pop());
        row1.push(None);
        row1.push(pool.pop());
        row1.push(pool.pop());
        row1.push(None);
        row1.push(pool.pop());
        row1.push(None);
        row1.push(pool.pop());
        proof {
            assert(row1@ =~= initial_board()[1]);
        }
        board.push(row1);
        let mut row2: Vec<Option<Event>> = Vec::new();
        row2.push(None);
        row2.push(None);
        row2.push(pool.pop());
        row2.push(pool.pop());
        row2.push(None);
        row2.push(pool.pop());
        row2.push(pool.pop());
        row2.push(None);
        row2.push(pool.pop());
        proof {
            assert(row2@ =~= initial_board()[2]);
        }
        board.push(row2);
        let mut row3: Vec<Option<Event>> = Vec::new();
        row3.push(None);
        row3.push(None);
        row3.push(pool.pop());
        row3.push(None);
        row3.push(pool.pop());
        row3.push(pool.pop());
        row3.push(pool.pop());
        row3.push(None);
        row3.push(pool.pop());
        proof {
            assert(row3@ =~= initial_board()[3]);
        }
        board.push(row3);
        let mut row4: Vec<Option<Event>> = Vec::new();
        row4.push(None);
        row4.push(pool.pop());
        row4.push(None);
        row4.push(pool.pop());
        row4.push(None);
        row4.push(pool.pop());
        row4.push(pool.pop());
        row4.push(None);
        row4.push(pool.pop());
        proof {
            assert(row4@ =~= initial_board()[4]);
        }
        board.push(row4);
        let state = GameState {
            player_hands,
            player_scores,
            player_artifacts,
            player_color_expeditions,
            player_pawns,
            pawn_types,
            pawn_colors,
            pawn_positions,
            color_position_events: board,
            color_discard_piles,
            deck,
            turn_state: TurnState::PlayingCard,
            current_player: 0,
            winner: None,
        };
        proof {
            let ghost v = initial_state(n as int);
            assert(state@.hands =~= v.hands);
            assert(state@.scores =~= v.scores);
            assert(state@.artifacts =~= v.artifacts);
            assert forall|q: int| 0 <= q < n as int implies #[trigger] state@.expeditions[q]
                =~= v.expeditions[q] by {
                assert(state@.expeditions[q] == state.player_color_expeditions@[q]@.map_values(
                    |e: CardPile| e@,
                ));
            }
            assert(state@.expeditions =~= v.expeditions);
            assert(state@.pawn_colors =~= v.pawn_colors);
            assert(state@.pawn_positions =~= v.pawn_positions);
            assert(state@.events =~= v.events);
            assert(state@.discards =~= v.discards);
            assert(state@.deck =~= v.deck);
            assert(state@ == v);
            assert(wf(state@)) by {
                assert(dims(state@));
                assert forall|pq: int, cq: int|
                    0 <= pq < n as int && 0 <= cq < 5 implies pile_sorted(
                    #[trigger] state@.expeditions[pq][cq],
                ) by {
                    assert(state@.expeditions[pq][cq].len() == 0);
                }
            }
        }
        state
    }
}

} // verus!
