//! The mathematical model of a game in progress.
//!
//! [`GameView`] is the spec-level image of an executable
//! [`crate::state::GameState`]; the functions here say, over that image, which
//! actions are legal in a state ([`action_legal`]), what each action does
//! ([`step`]), and what the scoring rules are.  The executable state machine
//! is specified and proved against these definitions.

use crate::state::TurnState;
use crate::types::{color_idx, idx_color, Action, Card, Color, Event, PawnType};
use vstd::multiset::Multiset;
use vstd::prelude::*;

verus! {

/// The spec-level image of a game state.  Piles are sequences whose logical
/// top is the tail; parallel per-pawn sequences are indexed by the global
/// pawn index `player * 5 + slot`.
pub ghost struct GameView {
    /// Per player: the cards in hand.
    pub hands: Seq<Seq<Card>>,
    /// Per player: the current score.
    pub scores: Seq<int>,
    /// Per player: how many artifacts have been collected.
    pub artifacts: Seq<int>,
    /// Per player, per color index: the expedition pile of played cards.
    pub expeditions: Seq<Seq<Seq<Card>>>,
    /// Per pawn: the color it is assigned to, if any.
    pub pawn_colors: Seq<Option<Color>>,
    /// Per pawn: its path position, `None` until it has moved.
    pub pawn_positions: Seq<Option<int>>,
    /// Per color index, per path position: the event there, if any.
    pub events: Seq<Seq<Option<Event>>>,
    /// Per color index: the discard pile.
    pub discards: Seq<Seq<Card>>,
    /// The draw deck; cards are drawn from the tail.
    pub deck: Seq<Card>,
    /// The phase of the current turn.
    pub turn: TurnState,
    /// The player whose turn it is.
    pub current: int,
    /// The winning player, set only when the game is finished.
    pub winner: Option<int>,
}

/// How many players the game has.
pub open spec fn num_players(v: GameView) -> int {
    v.scores.len() as int
}

/// The pawn type sitting at a player-local slot: slot 4 is the researcher,
/// slots 0 to 3 are adventurers.
pub open spec fn pawn_type_of_slot(slot: int) -> PawnType {
    if slot == 4 {
        PawnType::Researcher
    } else {
        PawnType::Adventurer
    }
}

/// How many forward steps a pawn with this position has taken
/// (entering position 0 is the first step).
pub open spec fn pawn_steps(p: Option<int>) -> int {
    match p {
        Some(q) => q + 1,
        None => 0,
    }
}

/// Total forward steps taken by a player's five pawns.  Bounds the score and
/// artifact count a player can have accumulated.
pub open spec fn player_steps(v: GameView, player: int) -> int {
    pawn_steps(v.pawn_positions[player * 5]) + pawn_steps(v.pawn_positions[player * 5 + 1])
        + pawn_steps(v.pawn_positions[player * 5 + 2]) + pawn_steps(
        v.pawn_positions[player * 5 + 3],
    ) + pawn_steps(v.pawn_positions[player * 5 + 4])
}

/// The end-of-game bonus for a player's artifact count.
pub open spec fn artifact_bonus(count: int) -> int {
    if count == 0 {
        -20
    } else if count == 1 {
        -15
    } else if count == 2 {
        -10
    } else if count == 3 {
        15
    } else if count == 4 {
        30
    } else {
        50
    }
}

/// The end-of-game bonus for a pawn's final path position in `0 ..= 8`.
pub open spec fn position_bonus(position: int) -> int {
    if position == 0 {
        -20
    } else if position == 1 {
        -15
    } else if position == 2 {
        -10
    } else if position == 3 {
        5
    } else if position == 4 {
        10
    } else if position == 5 {
        15
    } else if position == 6 {
        30
    } else if position == 7 {
        35
    } else if position == 8 {
        50
    } else {
        0
    }
}

/// The end-of-game bonus a pawn contributes: nothing if it never moved,
/// else the bonus for its final position.
pub open spec fn pawn_position_bonus(p: Option<int>) -> int {
    match p {
        Some(q) => position_bonus(q),
        None => 0,
    }
}

/// The sum of the position bonuses of a player's five pawns.
pub open spec fn player_position_bonus(v: GameView, player: int) -> int {
    pawn_position_bonus(v.pawn_positions[player * 5]) + pawn_position_bonus(
        v.pawn_positions[player * 5 + 1],
    ) + pawn_position_bonus(v.pawn_positions[player * 5 + 2]) + pawn_position_bonus(
        v.pawn_positions[player * 5 + 3],
    ) + pawn_position_bonus(v.pawn_positions[player * 5 + 4])
}

/// Every player's score after the end-of-game bonuses are added.
pub open spec fn final_scores(v: GameView) -> Seq<int> {
    Seq::new(
        v.scores.len(),
        |p: int| v.scores[p] + artifact_bonus(v.artifacts[p]) + player_position_bonus(v, p),
    )
}

/// `i` attains the maximum of `scores` (not necessarily alone).
pub open spec fn is_max_score(scores: Seq<int>, i: int) -> bool {
    &&& 0 <= i < scores.len()
    &&& forall|j: int| 0 <= j < scores.len() ==> scores[j] <= scores[i]
}

/// `i` holds the strictly unique maximum of `scores`.
pub open spec fn is_unique_max(scores: Seq<int>, i: int) -> bool {
    &&& 0 <= i < scores.len()
    &&& forall|j: int| 0 <= j < scores.len() && j != i ==> scores[j] < scores[i]
}

/// The winner for a final score table: the player with the strictly unique
/// maximum score, or `None` when two or more players tie for the maximum.
pub open spec fn winner_of(scores: Seq<int>) -> Option<int> {
    if exists|i: int| is_unique_max(scores, i) {
        Some(choose|i: int| is_unique_max(scores, i))
    } else {
        None
    }
}

/// A card may be played on an expedition pile iff the pile is empty or its
/// top card's number does not exceed the new card's number.
pub open spec fn can_play(v: GameView, player: int, card: Card) -> bool {
    let exp = v.expeditions[player][color_idx(card.color)];
    exp.len() == 0 || exp.last().number <= card.number
}

/// A pawn can be chosen to move iff it has moved before and is not yet at
/// the final position 8.
pub open spec fn pawn_movable(v: GameView, pawn: int) -> bool {
    match v.pawn_positions[pawn] {
        Some(q) => q != 8,
        None => false,
    }
}

/// The color assignment of the pawn in a player-local slot.
pub open spec fn slot_color(v: GameView, player: int, slot: int) -> Option<Color> {
    v.pawn_colors[player * 5 + slot]
}

/// The path position of the pawn in a player-local slot.
pub open spec fn slot_position(v: GameView, player: int, slot: int) -> Option<int> {
    v.pawn_positions[player * 5 + slot]
}

/// Whether the pawn in a player-local slot can be chosen to move.
pub open spec fn slot_movable(v: GameView, player: int, slot: int) -> bool {
    pawn_movable(v, player * 5 + slot)
}

/// Whether any of the player's pawns can be chosen to move.
pub open spec fn can_move_any(v: GameView, player: int) -> bool {
    exists|i: int| 0 <= i < 5 && slot_movable(v, player, i)
}

/// Whether any pawn of the player other than the one in `slot` can be
/// chosen to move.  After an Arrow event, only the *other* pawns count.
pub open spec fn can_move_any_other(v: GameView, player: int, slot: int) -> bool {
    exists|i: int| 0 <= i < 5 && i != slot && slot_movable(v, player, i)
}

/// Whether the player still owns an unassigned pawn of the given type.
pub open spec fn has_unassigned_of_type(v: GameView, player: int, t: PawnType) -> bool {
    exists|i: int| 0 <= i < 5 && slot_color(v, player, i) is None && pawn_type_of_slot(i) == t
}

/// Which actions `do_action` accepts, state by state.  This is exactly the
/// set that `available_actions` enumerates.
pub open spec fn action_legal(v: GameView, a: Action) -> bool {
    match v.turn {
        TurnState::PlayingCard => match a {
            Action::PlayCard(c) => v.hands[v.current].contains(c) && can_play(v, v.current, c),
            Action::DiscardCard(c) => v.hands[v.current].contains(c),
            _ => false,
        },
        TurnState::DrawingCard => match a {
            Action::DrawFromDeck => true,
            Action::DrawFromDiscard(col) => v.discards[color_idx(col)].len() > 0,
            _ => false,
        },
        TurnState::PlayingPawn(_) => match a {
            Action::ChoosePawnType(t) => has_unassigned_of_type(v, v.current, t),
            _ => false,
        },
        TurnState::MovingPawn => match a {
            Action::MoveColor(col) => exists|i: int|
                0 <= i < 5 && slot_movable(v, v.current, i) && slot_color(v, v.current, i)
                    == Some(col),
            _ => false,
        },
        TurnState::GameFinished => false,
    }
}

/// The play actions offered for the first `k` hand cards, in hand order:
/// one `PlayCard` entry per playable card occurrence.
pub open spec fn play_actions_upto(v: GameView, hand: Seq<Card>, k: int) -> Seq<Action>
    decreases k,
{
    if k <= 0 {
        Seq::empty()
    } else {
        play_actions_upto(v, hand, k - 1) + (if can_play(v, v.current, hand[k - 1]) {
            seq![Action::PlayCard(hand[k - 1])]
        } else {
            Seq::<Action>::empty()
        })
    }
}

/// The discard-pile draw actions for the first `k` color indexes: one
/// `DrawFromDiscard` entry per non-empty pile, in color order.
pub open spec fn discard_draw_actions_upto(v: GameView, k: int) -> Seq<Action>
    decreases k,
{
    if k <= 0 {
        Seq::empty()
    } else {
        discard_draw_actions_upto(v, k - 1) + (if v.discards[k - 1].len() > 0 {
            seq![Action::DrawFromDiscard(idx_color(k - 1))]
        } else {
            Seq::<Action>::empty()
        })
    }
}

/// The pawn-choice actions for the first `k` slots: one `ChoosePawnType`
/// entry per unassigned pawn, in slot order.
pub open spec fn pawn_choice_actions_upto(v: GameView, k: int) -> Seq<Action>
    decreases k,
{
    if k <= 0 {
        Seq::empty()
    } else {
        pawn_choice_actions_upto(v, k - 1) + (if slot_color(v, v.current, k - 1) is None {
            seq![Action::ChoosePawnType(pawn_type_of_slot(k - 1))]
        } else {
            Seq::<Action>::empty()
        })
    }
}

/// The forced-move actions for the first `k` slots: one `MoveColor` entry
/// per movable pawn, in slot order.
pub open spec fn move_actions_upto(v: GameView, k: int) -> Seq<Action>
    decreases k,
{
    if k <= 0 {
        Seq::empty()
    } else {
        move_actions_upto(v, k - 1) + (if slot_movable(v, v.current, k - 1) {
            seq![Action::MoveColor(slot_color(v, v.current, k - 1)->0)]
        } else {
            Seq::<Action>::empty()
        })
    }
}

/// The exact sequence of actions `available_actions` returns: a pure
/// function of the state, fixing order and multiplicity.
pub open spec fn legal_action_list(v: GameView) -> Seq<Action> {
    match v.turn {
        TurnState::PlayingCard => play_actions_upto(v, v.hands[v.current], v.hands[v.current].len() as int)
            + v.hands[v.current].map_values(|c: Card| Action::DiscardCard(c)),
        TurnState::DrawingCard => seq![Action::DrawFromDeck] + discard_draw_actions_upto(v, 5),
        TurnState::PlayingPawn(_) => pawn_choice_actions_upto(v, 5),
        TurnState::MovingPawn => move_actions_upto(v, 5),
        TurnState::GameFinished => Seq::empty(),
    }
}

/// The first player-local slot whose pawn is unassigned and of type `t`
/// (meaningful only when such a slot exists).
pub open spec fn first_unassigned_slot(v: GameView, player: int, t: PawnType) -> int {
    if v.pawn_colors[player * 5] is None && pawn_type_of_slot(0) == t {
        0
    } else if v.pawn_colors[player * 5 + 1] is None && pawn_type_of_slot(1) == t {
        1
    } else if v.pawn_colors[player * 5 + 2] is None && pawn_type_of_slot(2) == t {
        2
    } else if v.pawn_colors[player * 5 + 3] is None && pawn_type_of_slot(3) == t {
        3
    } else {
        4
    }
}

/// The first player-local slot whose pawn is assigned to `c`
/// (meaningful only when such a slot exists).
pub open spec fn color_pawn_slot(v: GameView, player: int, c: Color) -> int {
    if v.pawn_colors[player * 5] == Some(c) {
        0
    } else if v.pawn_colors[player * 5 + 1] == Some(c) {
        1
    } else if v.pawn_colors[player * 5 + 2] == Some(c) {
        2
    } else if v.pawn_colors[player * 5 + 3] == Some(c) {
        3
    } else {
        4
    }
}

/// The index of the first occurrence of `c` in `s`
/// (meaningful only when `s` contains `c`).
pub open spec fn first_index_of_card(s: Seq<Card>, c: Card) -> int
    decreases s.len(),
{
    if s.len() == 0 {
        0
    } else if s[0] == c {
        0
    } else {
        1 + first_index_of_card(s.drop_first(), c)
    }
}

/// The color a pending pawn assignment is for
/// (meaningful only in the `PlayingPawn` phase).
pub open spec fn pending_color(v: GameView) -> Color {
    match v.turn {
        TurnState::PlayingPawn(c) => c,
        _ => arbitrary(),
    }
}

/// End-of-turn resolution: if the current player's hand is short they must
/// still draw; otherwise the turn passes round-robin to the next player.
pub open spec fn end_turn_step(v: GameView) -> GameView {
    if v.hands[v.current].len() < 8 {
        GameView { turn: TurnState::DrawingCard, ..v }
    } else {
        let next = if v.current == num_players(v) - 1 {
            0
        } else {
            v.current + 1
        };
        GameView { turn: TurnState::PlayingCard, current: next, ..v }
    }
}

/// End-of-game resolution: add every player's bonuses, pick the winner,
/// and finish.
pub open spec fn end_game_step(v: GameView) -> GameView {
    let scores = final_scores(v);
    GameView {
        scores,
        winner: winner_of(scores),
        turn: TurnState::GameFinished,
        ..v
    }
}

/// Advancing the current player's pawn on `color` by one position and
/// resolving the event it lands on.  An Arrow forces another move only when
/// some *other* pawn of the player is able to move.  A pawn already at the
/// final position is left alone (a defensive no-op; unreachable through
/// legal actions).
pub open spec fn move_color_step(v: GameView, color: Color) -> GameView {
    let pawn = v.current * 5 + color_pawn_slot(v, v.current, color);
    if v.pawn_positions[pawn] is Some && !pawn_movable(v, pawn) {
        GameView { turn: TurnState::MovingPawn, ..v }
    } else {
        let newpos: int = match v.pawn_positions[pawn] {
            Some(q) => q + 1,
            None => 0,
        };
        let v1 = GameView { pawn_positions: v.pawn_positions.update(pawn, Some(newpos)), ..v };
        match v.events[color_idx(color)][newpos] {
            Some(Event::Points(p)) => end_turn_step(
                GameView {
                    scores: v1.scores.update(v1.current, v1.scores[v1.current] + p as int),
                    ..v1
                },
            ),
            Some(Event::Artifact) => end_turn_step(
                GameView {
                    artifacts: v1.artifacts.update(v1.current, v1.artifacts[v1.current] + 1),
                    ..v1
                },
            ),
            Some(Event::Arrow) => if can_move_any_other(
                v1,
                v1.current,
                color_pawn_slot(v, v.current, color),
            ) {
                GameView { turn: TurnState::MovingPawn, ..v1 }
            } else {
                end_turn_step(v1)
            },
            None => end_turn_step(v1),
        }
    }
}

/// Playing a card: it leaves the hand for the color's expedition pile.
/// Opening the expedition demands a pawn assignment; otherwise the assigned
/// pawn advances at once.
pub open spec fn play_card_step(v: GameView, card: Card) -> GameView {
    let p = v.current;
    let ci = color_idx(card.color);
    let was_empty = v.expeditions[p][ci].len() == 0;
    let v1 = GameView {
        hands: v.hands.update(p, v.hands[p].remove(first_index_of_card(v.hands[p], card))),
        expeditions: v.expeditions.update(p, v.expeditions[p].update(ci, v.expeditions[p][ci].push(card))),
        ..v
    };
    if was_empty {
        GameView { turn: TurnState::PlayingPawn(card.color), ..v1 }
    } else {
        move_color_step(v1, card.color)
    }
}

/// Discarding a card: it leaves the hand for the color's discard pile.
pub open spec fn discard_card_step(v: GameView, card: Card) -> GameView {
    let p = v.current;
    let ci = color_idx(card.color);
    let v1 = GameView {
        hands: v.hands.update(p, v.hands[p].remove(first_index_of_card(v.hands[p], card))),
        discards: v.discards.update(ci, v.discards[ci].push(card)),
        ..v
    };
    GameView { turn: TurnState::DrawingCard, ..v1 }
}

/// Drawing from the deck; emptying the deck ends the game.
pub open spec fn draw_from_deck_step(v: GameView) -> GameView {
    let card = v.deck.last();
    let v1 = GameView {
        deck: v.deck.drop_last(),
        hands: v.hands.update(v.current, v.hands[v.current].push(card)),
        ..v
    };
    if v1.deck.len() == 0 {
        end_game_step(v1)
    } else {
        end_turn_step(v1)
    }
}

/// Drawing the top card of a color's discard pile.
pub open spec fn draw_from_discard_step(v: GameView, color: Color) -> GameView {
    let ci = color_idx(color);
    let card = v.discards[ci].last();
    let v1 = GameView {
        discards: v.discards.update(ci, v.discards[ci].drop_last()),
        hands: v.hands.update(v.current, v.hands[v.current].push(card)),
        ..v
    };
    end_turn_step(v1)
}

/// Assigning the first unassigned pawn of the chosen type to the pending
/// color, then advancing it.
pub open spec fn choose_pawn_type_step(v: GameView, t: PawnType) -> GameView {
    let color = pending_color(v);
    let pawn = v.current * 5 + first_unassigned_slot(v, v.current, t);
    let v1 = GameView { pawn_colors: v.pawn_colors.update(pawn, Some(color)), ..v };
    move_color_step(v1, color)
}

/// The full transition relation of the state machine: what `do_action`
/// does for each action.
pub open spec fn step(v: GameView, a: Action) -> GameView {
    match a {
        Action::PlayCard(c) => play_card_step(v, c),
        Action::DiscardCard(c) => discard_card_step(v, c),
        Action::DrawFromDeck => draw_from_deck_step(v),
        Action::DrawFromDiscard(col) => draw_from_discard_step(v, col),
        Action::ChoosePawnType(t) => choose_pawn_type_step(v, t),
        Action::MoveColor(col) => move_color_step(v, col),
    }
}

/// An expedition pile is kept non-decreasing in card number.
pub open spec fn pile_sorted(s: Seq<Card>) -> bool {
    forall|i: int, j: int| 0 <= i <= j < s.len() ==> s[i].number <= s[j].number
}

/// The hand sizes each turn phase guarantees: everyone holds 8 cards except
/// the current player mid-turn, who holds 7 until they redraw.
pub open spec fn hand_sizes_ok(v: GameView) -> bool {
    match v.turn {
        TurnState::PlayingCard => forall|p: int|
            0 <= p < num_players(v) ==> v.hands[p].len() == 8,
        TurnState::GameFinished => forall|p: int|
            0 <= p < num_players(v) ==> v.hands[p].len() == 8,
        _ => v.hands[v.current].len() == 7 && forall|p: int|
            0 <= p < num_players(v) && p != v.current ==> v.hands[p].len() == 8,
    }
}

/// A path position option is in range when it is `None` or within `0 ..= 8`.
pub open spec fn pos_in_range(p: Option<int>) -> bool {
    match p {
        Some(q) => 0 <= q <= 8,
        None => true,
    }
}

/// A board slot's points are bounded (only 5, 10 and 15 point events exist).
pub open spec fn points_bounded(e: Option<Event>) -> bool {
    match e {
        Some(Event::Points(p)) => 0 <= p <= 15,
        _ => true,
    }
}

/// A pawn is only ever assigned to a color whose expedition has been opened.
pub open spec fn slot_opened(v: GameView, player: int, slot: int) -> bool {
    match slot_color(v, player, slot) {
        Some(col) => v.expeditions[player][color_idx(col)].len() > 0,
        None => true,
    }
}

/// The structural dimensions of a game state: every parallel container has
/// the length the player count dictates.
pub open spec fn dims(v: GameView) -> bool {
    let n = num_players(v);
    &&& 2 <= n <= 4
    &&& v.hands.len() == n
    &&& v.artifacts.len() == n
    &&& v.expeditions.len() == n
    &&& (forall|p: int| 0 <= p < n ==> v.expeditions[p].len() == 5)
    &&& v.pawn_colors.len() == 5 * n
    &&& v.pawn_positions.len() == 5 * n
    &&& v.events.len() == 5
    &&& (forall|c: int| 0 <= c < 5 ==> v.events[c].len() == 9)
    &&& v.discards.len() == 5
    &&& 0 <= v.current < n
}

/// The numeric bounds an unfinished game maintains: positions within the
/// path, board point values within the token pool's range, and scores and
/// artifact counts bounded by the steps the player's pawns have taken.
pub open spec fn counters_ok(v: GameView) -> bool {
    &&& (forall|k: int|
        0 <= k < v.pawn_positions.len() ==> pos_in_range(#[trigger] v.pawn_positions[k]))
    &&& (forall|c: int, q: int|
        0 <= c < 5 && 0 <= q < 9 ==> points_bounded(#[trigger] v.events[c][q]))
    &&& (forall|p: int|
        0 <= p < num_players(v) ==> 0 <= #[trigger] v.scores[p] <= 15 * player_steps(v, p) && 0
            <= v.artifacts[p] <= player_steps(v, p))
}

/// Whether the player owns a pawn assigned to `color`.
pub open spec fn has_color_pawn(v: GameView, player: int, color: Color) -> bool {
    exists|i: int| 0 <= i < 5 && slot_color(v, player, i) == Some(color)
}

/// The invariant of a reachable game state.
pub open spec fn wf(v: GameView) -> bool {
    let n = num_players(v);
    &&& dims(v)
    &&& (forall|k: int|
        0 <= k < 5 * n ==> (v.pawn_positions[k] is Some ==> v.pawn_colors[k] is Some))
    &&& hand_sizes_ok(v)
    &&& (forall|p: int, i: int, j: int|
        0 <= p < n && 0 <= i < 5 && 0 <= j < 5 && i != j && slot_color(v, p, i) is Some
            ==> slot_color(v, p, i) != slot_color(v, p, j))
    &&& (forall|p: int, i: int| 0 <= p < n && 0 <= i < 5 ==> slot_opened(v, p, i))
    &&& (forall|p: int, c: int|
        0 <= p < n && 0 <= c < 5 && (#[trigger] v.expeditions[p][c]).len() > 0
            ==> has_color_pawn(v, p, idx_color(c)) || (p == v.current && v.turn
            == TurnState::PlayingPawn(idx_color(c))))
    &&& (match v.turn {
        TurnState::PlayingPawn(c) => {
            &&& (forall|i: int| 0 <= i < 5 ==> slot_color(v, v.current, i) != Some(c))
            &&& v.expeditions[v.current][color_idx(c)].len() > 0
        },
        _ => true,
    })
    &&& (!(v.turn is GameFinished) ==> v.deck.len() > 0)
    &&& (!(v.turn is GameFinished) ==> v.winner is None)
    &&& (match v.winner {
        Some(w) => 0 <= w < n,
        None => true,
    })
    &&& (!(v.turn is GameFinished) ==> counters_ok(v))
    &&& (forall|p: int, c: int| 0 <= p < n && 0 <= c < 5 ==> pile_sorted(v.expeditions[p][c]))
}


/// What rand's seeded Fisher-Yates shuffle returns for a seed and a card
/// sequence.  The shuffle depends on nothing else, so this is one fixed
/// function; the trusted wrapper around the call applies it.
pub uninterp spec fn shuffle_of(seed: Seq<u8>, cards: Seq<Card>) -> Seq<Card>;

/// The all-zero sixteen-byte seed every game is built with.
pub open spec fn zero_seed() -> Seq<u8> {
    Seq::new(16, |i: int| 0u8)
}

/// The 110 cards in the order they are built: two of each number 0 to 10,
/// color by color.
pub open spec fn full_deck() -> Seq<Card> {
    Seq::new(110, |i: int| Card { color: idx_color(i / 22), number: ((i % 22) / 2) as i8 })
}

/// The deck every game starts from: the full deck shuffled with the fixed
/// all-zero seed.  One constant sequence, identical across games.
pub open spec fn shuffled_deck() -> Seq<Card> {
    shuffle_of(zero_seed(), full_deck())
}

/// The pool of 25 event tokens in build order: 9 artifacts, 9 arrows, then
/// two 5-point, three 10-point and two 15-point tokens.
pub open spec fn event_pool() -> Seq<Event> {
    Seq::new(
        25,
        |i: int|
            if i < 9 {
                Event::Artifact
            } else if i < 18 {
                Event::Arrow
            } else if i < 20 {
                Event::Points(5)
            } else if i < 23 {
                Event::Points(10)
            } else {
                Event::Points(15)
            },
    )
}

/// The event board every game starts with: each color's fixed slot pattern,
/// filled by taking tokens from the tail of the pool.
pub open spec fn initial_board() -> Seq<Seq<Option<Event>>> {
    seq![
        seq![
            None,
            Some(Event::Points(15)),
            Some(Event::Points(15)),
            None,
            Some(Event::Points(10)),
            None,
            Some(Event::Points(10)),
            None,
            Some(Event::Points(10)),
        ],
        seq![
            None,
            Some(Event::Points(5)),
            None,
            Some(Event::Points(5)),
            Some(Event::Arrow),
            None,
            Some(Event::Arrow),
            None,
            Some(Event::Arrow),
        ],
        seq![
            None,
            None,
            Some(Event::Arrow),
            Some(Event::Arrow),
            None,
            Some(Event::Arrow),
            Some(Event::Arrow),
            None,
            Some(Event::Arrow),
        ],
        seq![
            None,
            None,
            Some(Event::Arrow),
            None,
            Some(Event::Artifact),
            Some(Event::Artifact),
            Some(Event::Artifact),
            None,
            Some(Event::Artifact),
        ],
        seq![
            None,
            Some(Event::Artifact),
            None,
            Some(Event::Artifact),
            None,
            Some(Event::Artifact),
            Some(Event::Artifact),
            None,
            Some(Event::Artifact),
        ],
    ]
}

/// The hands dealt to `n` players: eight cards each, popped from the tail of
/// the shuffled deck, player by player.
pub open spec fn initial_hands(n: int) -> Seq<Seq<Card>> {
    Seq::new(n as nat, |p: int| Seq::new(8, |k: int| shuffled_deck()[109 - (p * 8 + k)]))
}

/// The whole starting state for an `n`-player game: a pure function of the
/// player count, so construction is deterministic.
pub open spec fn initial_state(n: int) -> GameView {
    GameView {
        hands: initial_hands(n),
        scores: Seq::new(n as nat, |p: int| 0),
        artifacts: Seq::new(n as nat, |p: int| 0),
        expeditions: Seq::new(n as nat, |p: int| Seq::new(5, |c: int| Seq::<Card>::empty())),
        pawn_colors: Seq::new((5 * n) as nat, |k: int| None),
        pawn_positions: Seq::new((5 * n) as nat, |k: int| None),
        events: initial_board(),
        discards: Seq::new(5, |c: int| Seq::<Card>::empty()),
        deck: shuffled_deck().take(110 - 8 * n),
        turn: TurnState::PlayingCard,
        current: 0,
        winner: None,
    }
}


/// The position bonuses of the first `k` of a player's five pawn slots.
pub open spec fn position_bonus_upto(v: GameView, player: int, k: int) -> int
    decreases k,
{
    if k <= 0 {
        0
    } else {
        position_bonus_upto(v, player, k - 1) + pawn_position_bonus(slot_position(v, player, k - 1))
    }
}

/// All five slots together give exactly the player's position bonus.
pub proof fn lemma_position_bonus_upto_all(v: GameView, player: int)
    ensures
        position_bonus_upto(v, player, 5) == player_position_bonus(v, player),
{
    reveal_with_fuel(position_bonus_upto, 6);
}

/// Pushing a card whose number is at least the pile's top keeps the pile
/// sorted.
pub proof fn lemma_sorted_push(s: Seq<Card>, c: Card)
    requires
        pile_sorted(s),
        s.len() == 0 || s.last().number <= c.number,
    ensures
        pile_sorted(s.push(c)),
{
    assert forall|i: int, j: int|
        0 <= i <= j < s.push(c).len() implies s.push(c)[i].number <= s.push(c)[j].number by {
        if j < s.len() {
            assert(s.push(c)[i] == s[i]);
            assert(s.push(c)[j] == s[j]);
        } else if i < s.len() {
            assert(s.push(c)[i] == s[i]);
            assert(s[i].number <= s[s.len() - 1].number);
        }
    }
}

/// Playing any legal card leaves every expedition pile non-decreasing in
/// card number: legality admits only cards at least as high as the pile's
/// top, and no other pile changes.
pub proof fn lemma_play_card_keeps_sorted(v: GameView, card: Card)
    requires
        wf(v),
        v.turn is PlayingCard,
        action_legal(v, Action::PlayCard(card)),
    ensures
        forall|p: int, c: int|
            0 <= p < num_players(v) && 0 <= c < 5 ==> pile_sorted(
                #[trigger] play_card_step(v, card).expeditions[p][c],
            ),
{
    let w = play_card_step(v, card);
    let cur = v.current;
    let ci = color_idx(card.color);
    let grown = v.expeditions[cur][ci].push(card);
    lemma_sorted_push(v.expeditions[cur][ci], card);
    assert(w.expeditions == v.expeditions.update(
        cur,
        v.expeditions[cur].update(ci, grown),
    ));
    assert forall|p: int, c: int|
        0 <= p < num_players(v) && 0 <= c < 5 implies pile_sorted(
        #[trigger] w.expeditions[p][c],
    ) by {
        if p == cur && c == ci {
            assert(w.expeditions[p][c] == grown);
        } else {
            assert(w.expeditions[p][c] == v.expeditions[p][c]);
            assert(pile_sorted(v.expeditions[p][c]));
        }
    }
}

/// The winner rules: a player holding the strictly unique maximum score
/// wins; any tie for the maximum leaves the game without a winner.
pub proof fn lemma_winner_rules(scores: Seq<int>)
    ensures
        forall|i: int| is_unique_max(scores, i) ==> winner_of(scores) == Some(i),
        forall|i: int, j: int|
            0 <= i < scores.len() && 0 <= j < scores.len() && i != j && scores[i] == scores[j]
                && is_max_score(scores, i) ==> winner_of(scores) is None,
{
    assert forall|i: int| is_unique_max(scores, i) implies winner_of(scores) == Some(i) by {
        let k = choose|k: int| is_unique_max(scores, k);
        if k != i {
            assert(scores[i] < scores[k]);
            assert(scores[k] < scores[i]);
        }
    }
    assert forall|i: int, j: int|
        0 <= i < scores.len() && 0 <= j < scores.len() && i != j && scores[i] == scores[j]
            && is_max_score(scores, i) implies winner_of(scores) is None by {
        if winner_of(scores) is Some {
            let k = choose|k: int| is_unique_max(scores, k);
            if k == i {
                assert(scores[j] < scores[k]);
            } else {
                assert(scores[i] < scores[k]);
                assert(scores[k] <= scores[i]);
            }
        }
    }
}

/// Determinism of construction: two starting states for the same player
/// count agree on the deck order, the event board, and the dealt hands.
pub proof fn lemma_construction_deterministic(a: GameView, b: GameView, n: int)
    requires
        a == initial_state(n),
        b == initial_state(n),
    ensures
        a.deck == b.deck,
        a.events == b.events,
        a.hands == b.hands,
{
}

/// The turn-independent part of the invariant: dimensions, bounds, and the
/// pawn/expedition relationships, with the expedition-to-pawn link
/// unconditional.
pub open spec fn base_ok(v: GameView) -> bool {
    let n = num_players(v);
    &&& dims(v)
    &&& counters_ok(v)
    &&& v.deck.len() > 0
    &&& v.winner is None
    &&& (forall|k: int|
        0 <= k < 5 * n ==> (v.pawn_positions[k] is Some ==> v.pawn_colors[k] is Some))
    &&& (forall|p: int, i: int, j: int|
        0 <= p < n && 0 <= i < 5 && 0 <= j < 5 && i != j && slot_color(v, p, i) is Some
            ==> slot_color(v, p, i) != slot_color(v, p, j))
    &&& (forall|p: int, i: int| 0 <= p < n && 0 <= i < 5 ==> slot_opened(v, p, i))
    &&& (forall|p: int, c: int|
        0 <= p < n && 0 <= c < 5 && (#[trigger] v.expeditions[p][c]).len() > 0
            ==> has_color_pawn(v, p, idx_color(c)))
    &&& (forall|p: int, c: int| 0 <= p < n && 0 <= c < 5 ==> pile_sorted(v.expeditions[p][c]))
}

/// Hand sizes mid-turn: the current player is one card short, all others
/// hold eight.
pub open spec fn mid_hands(v: GameView) -> bool {
    &&& v.hands[v.current].len() == 7
    &&& (forall|p: int|
        0 <= p < num_players(v) && p != v.current ==> #[trigger] v.hands[p].len() == 8)
}

/// The first occurrence of a contained card is a real index.
pub proof fn lemma_first_index_in_range(s: Seq<Card>, c: Card)
    requires
        s.contains(c),
    ensures
        0 <= first_index_of_card(s, c) < s.len(),
        s[first_index_of_card(s, c)] == c,
    decreases s.len(),
{
    if s[0] == c {
    } else {
        assert(s.drop_first().contains(c)) by {
            let j = choose|j: int| 0 <= j < s.len() && s[j] == c;
            assert(s.drop_first()[j - 1] == c);
        }
        lemma_first_index_in_range(s.drop_first(), c);
    }
}

/// The slot the color-lookup picks really holds the color, when one does.
pub proof fn lemma_color_pawn_slot_found(v: GameView, player: int, color: Color)
    requires
        has_color_pawn(v, player, color),
    ensures
        0 <= color_pawn_slot(v, player, color) < 5,
        slot_color(v, player, color_pawn_slot(v, player, color)) == Some(color),
{
    let i = choose|i: int| 0 <= i < 5 && slot_color(v, player, i) == Some(color);
    assert(slot_color(v, player, 0) == v.pawn_colors[player * 5]);
    assert(slot_color(v, player, 1) == v.pawn_colors[player * 5 + 1]);
    assert(slot_color(v, player, 2) == v.pawn_colors[player * 5 + 2]);
    assert(slot_color(v, player, 3) == v.pawn_colors[player * 5 + 3]);
    assert(slot_color(v, player, 4) == v.pawn_colors[player * 5 + 4]);
}

/// The winner a score table yields is a real player index, when there is
/// one.
pub proof fn lemma_winner_in_range(scores: Seq<int>)
    ensures
        match winner_of(scores) {
            Some(w) => 0 <= w < scores.len(),
            None => true,
        },
{
    if exists|i: int| is_unique_max(scores, i) {
        let k = choose|i: int| is_unique_max(scores, i);
        assert(0 <= k < scores.len());
    }
}

/// The pawn- and expedition-shaped clauses carry over to any state with the
/// same pawns and expeditions.
proof fn lemma_pawn_clauses_transfer(v: GameView, w: GameView)
    requires
        w.pawn_colors == v.pawn_colors,
        w.pawn_positions == v.pawn_positions,
        w.expeditions == v.expeditions,
        num_players(w) == num_players(v),
        forall|p: int, i: int, j: int|
            0 <= p < num_players(v) && 0 <= i < 5 && 0 <= j < 5 && i != j && slot_color(v, p, i)
                is Some ==> slot_color(v, p, i) != slot_color(v, p, j),
        forall|p: int, i: int| 0 <= p < num_players(v) && 0 <= i < 5 ==> slot_opened(v, p, i),
        forall|p: int, c: int|
            0 <= p < num_players(v) && 0 <= c < 5 && (#[trigger] v.expeditions[p][c]).len() > 0
                ==> has_color_pawn(v, p, idx_color(c)),
    ensures
        forall|p: int, i: int, j: int|
            0 <= p < num_players(w) && 0 <= i < 5 && 0 <= j < 5 && i != j && slot_color(w, p, i)
                is Some ==> slot_color(w, p, i) != slot_color(w, p, j),
        forall|p: int, i: int| 0 <= p < num_players(w) && 0 <= i < 5 ==> slot_opened(w, p, i),
        forall|p: int, c: int|
            0 <= p < num_players(w) && 0 <= c < 5 && (#[trigger] w.expeditions[p][c]).len() > 0
                ==> has_color_pawn(w, p, idx_color(c)),
{
    assert forall|p: int, i: int, j: int|
        0 <= p < num_players(w) && 0 <= i < 5 && 0 <= j < 5 && i != j && slot_color(w, p, i)
            is Some implies slot_color(w, p, i) != slot_color(w, p, j) by {
        assert(slot_color(w, p, i) == slot_color(v, p, i));
        assert(slot_color(w, p, j) == slot_color(v, p, j));
    }
    assert forall|p: int, i: int|
        0 <= p < num_players(w) && 0 <= i < 5 implies slot_opened(w, p, i) by {
        assert(slot_opened(v, p, i));
        assert(slot_color(w, p, i) == slot_color(v, p, i));
    }
    assert forall|p: int, c: int|
        0 <= p < num_players(w) && 0 <= c < 5 && (#[trigger] w.expeditions[p][c]).len() > 0
            implies has_color_pawn(w, p, idx_color(c)) by {
        assert(v.expeditions[p][c].len() > 0);
        let i = choose|i: int| 0 <= i < 5 && slot_color(v, p, i) == Some(idx_color(c));
        assert(slot_color(w, p, i) == slot_color(v, p, i));
        assert(slot_color(w, p, i) == Some(idx_color(c)));
    }
}

/// End-of-turn resolution preserves the invariant whenever the hand counts
/// are as a turn leaves them.
proof fn lemma_end_turn_wf(v: GameView)
    requires
        base_ok(v),
        forall|p: int|
            0 <= p < num_players(v) && p != v.current ==> #[trigger] v.hands[p].len() == 8,
        v.hands[v.current].len() == 7 || v.hands[v.current].len() == 8,
    ensures
        wf(end_turn_step(v)),
        num_players(end_turn_step(v)) == num_players(v),
{
    let w = end_turn_step(v);
    assert(w.pawn_colors == v.pawn_colors && w.pawn_positions == v.pawn_positions
        && w.expeditions == v.expeditions && w.hands == v.hands && w.scores == v.scores
        && w.artifacts == v.artifacts && w.events == v.events && w.deck == v.deck);
    lemma_pawn_clauses_transfer(v, w);
    assert(wf(w));
}

/// End-of-game resolution preserves the invariant once every hand is back
/// to eight cards.
proof fn lemma_end_game_wf(v: GameView)
    requires
        dims(v),
        counters_ok(v),
        v.winner is None,
        forall|p: int| 0 <= p < num_players(v) ==> #[trigger] v.hands[p].len() == 8,
        forall|k: int|
            0 <= k < 5 * num_players(v) ==> (v.pawn_positions[k] is Some ==> v.pawn_colors[k]
                is Some),
        forall|p: int, i: int, j: int|
            0 <= p < num_players(v) && 0 <= i < 5 && 0 <= j < 5 && i != j && slot_color(v, p, i)
                is Some ==> slot_color(v, p, i) != slot_color(v, p, j),
        forall|p: int, i: int| 0 <= p < num_players(v) && 0 <= i < 5 ==> slot_opened(v, p, i),
        forall|p: int, c: int|
            0 <= p < num_players(v) && 0 <= c < 5 && (#[trigger] v.expeditions[p][c]).len() > 0
                ==> has_color_pawn(v, p, idx_color(c)),
        forall|p: int, c: int|
            0 <= p < num_players(v) && 0 <= c < 5 ==> pile_sorted(v.expeditions[p][c]),
    ensures
        wf(end_game_step(v)),
        num_players(end_game_step(v)) == num_players(v),
{
    let w = end_game_step(v);
    lemma_winner_in_range(final_scores(v));
    lemma_pawn_clauses_transfer(v, w);
    assert(wf(w));
}

/// The position and board-point bounds carry over to any state with the
/// same pawn positions and events.
proof fn lemma_pos_points_transfer(a: GameView, b: GameView)
    requires
        b.pawn_positions == a.pawn_positions,
        b.events == a.events,
        forall|k: int|
            0 <= k < a.pawn_positions.len() ==> pos_in_range(#[trigger] a.pawn_positions[k]),
        forall|c: int, q: int|
            0 <= c < 5 && 0 <= q < 9 ==> points_bounded(#[trigger] a.events[c][q]),
    ensures
        forall|k: int|
            0 <= k < b.pawn_positions.len() ==> pos_in_range(#[trigger] b.pawn_positions[k]),
        forall|c: int, q: int|
            0 <= c < 5 && 0 <= q < 9 ==> points_bounded(#[trigger] b.events[c][q]),
{
    assert forall|k: int|
        0 <= k < b.pawn_positions.len() implies pos_in_range(#[trigger] b.pawn_positions[k]) by {
        assert(pos_in_range(a.pawn_positions[k]));
    }
    assert forall|c: int, q: int|
        0 <= c < 5 && 0 <= q < 9 implies points_bounded(#[trigger] b.events[c][q]) by {
        assert(points_bounded(a.events[c][q]));
    }
}

/// Adding a bounded number of points to the current player and ending the
/// turn preserves the invariant.
proof fn lemma_score_bump_wf(v1: GameView, pts: int)
    requires
        base_ok(v1),
        mid_hands(v1),
        0 <= pts,
        v1.scores[v1.current] + pts <= 15 * player_steps(v1, v1.current),
    ensures
        wf(
            end_turn_step(
                GameView {
                    scores: v1.scores.update(v1.current, v1.scores[v1.current] + pts),
                    ..v1
                },
            ),
        ),
        num_players(
            end_turn_step(
                GameView {
                    scores: v1.scores.update(v1.current, v1.scores[v1.current] + pts),
                    ..v1
                },
            ),
        ) == num_players(v1),
{
    let n = num_players(v1);
    let cur = v1.current;
    let v2 = GameView { scores: v1.scores.update(cur, v1.scores[cur] + pts), ..v1 };
    lemma_pos_points_transfer(v1, v2);
    assert forall|p: int|
        0 <= p < n implies 0 <= #[trigger] v2.scores[p] <= 15 * player_steps(v2, p) && 0
            <= v2.artifacts[p] <= player_steps(v2, p) by {
        assert(0 <= v1.scores[p] <= 15 * player_steps(v1, p));
        assert(0 <= v1.artifacts[p] <= player_steps(v1, p));
        assert(player_steps(v2, p) == player_steps(v1, p));
    }
    lemma_pawn_clauses_transfer(v1, v2);
    lemma_end_turn_wf(v2);
}

/// Granting the current player one artifact and ending the turn preserves
/// the invariant.
proof fn lemma_artifact_bump_wf(v1: GameView)
    requires
        base_ok(v1),
        mid_hands(v1),
        v1.artifacts[v1.current] + 1 <= player_steps(v1, v1.current),
    ensures
        wf(
            end_turn_step(
                GameView {
                    artifacts: v1.artifacts.update(v1.current, v1.artifacts[v1.current] + 1),
                    ..v1
                },
            ),
        ),
        num_players(
            end_turn_step(
                GameView {
                    artifacts: v1.artifacts.update(v1.current, v1.artifacts[v1.current] + 1),
                    ..v1
                },
            ),
        ) == num_players(v1),
{
    let n = num_players(v1);
    let cur = v1.current;
    let v2 = GameView { artifacts: v1.artifacts.update(cur, v1.artifacts[cur] + 1), ..v1 };
    lemma_pos_points_transfer(v1, v2);
    assert forall|p: int|
        0 <= p < n implies 0 <= #[trigger] v2.scores[p] <= 15 * player_steps(v2, p) && 0
            <= v2.artifacts[p] <= player_steps(v2, p) by {
        assert(0 <= v1.scores[p] <= 15 * player_steps(v1, p));
        assert(0 <= v1.artifacts[p] <= player_steps(v1, p));
        assert(player_steps(v2, p) == player_steps(v1, p));
    }
    lemma_pawn_clauses_transfer(v1, v2);
    lemma_end_turn_wf(v2);
}

/// Moving the pawn of a color the player owns preserves the invariant.
#[verifier::rlimit(100)]
proof fn lemma_move_color_wf(v: GameView, color: Color)
    requires
        base_ok(v),
        mid_hands(v),
        !(v.turn is GameFinished),
        has_color_pawn(v, v.current, color),
    ensures
        wf(move_color_step(v, color)),
        num_players(move_color_step(v, color)) == num_players(v),
{
    let cur = v.current;
    let n = num_players(v);
    lemma_color_pawn_slot_found(v, cur, color);
    let sl = color_pawn_slot(v, cur, color);
    let pawn = cur * 5 + sl;
    if v.pawn_positions[pawn] is Some && !pawn_movable(v, pawn) {
        let w = move_color_step(v, color);
        lemma_pawn_clauses_transfer(v, w);
        assert(wf(w));
    } else {
        assert(pos_in_range(v.pawn_positions[pawn]));
        let newpos: int = match v.pawn_positions[pawn] {
            Some(q) => q + 1,
            None => 0,
        };
        assert(0 <= newpos <= 8);
        let v1 = GameView {
            pawn_positions: v.pawn_positions.update(pawn, Some(newpos)),
            ..v
        };
        assert forall|p: int, i: int|
            0 <= p < n && 0 <= i < 5 implies slot_opened(v1, p, i) by {
            assert(slot_opened(v, p, i));
            assert(slot_color(v1, p, i) == slot_color(v, p, i));
        }
        assert forall|p: int, i: int, j: int|
            0 <= p < n && 0 <= i < 5 && 0 <= j < 5 && i != j && slot_color(v1, p, i)
                is Some implies slot_color(v1, p, i) != slot_color(v1, p, j) by {
            assert(slot_color(v1, p, i) == slot_color(v, p, i));
            assert(slot_color(v1, p, j) == slot_color(v, p, j));
        }
        assert forall|p: int, c: int|
            0 <= p < n && 0 <= c < 5 && (#[trigger] v1.expeditions[p][c]).len() > 0
                implies has_color_pawn(v1, p, idx_color(c)) by {
            let i = choose|i: int| 0 <= i < 5 && slot_color(v, p, i) == Some(idx_color(c));
            assert(slot_color(v1, p, i) == slot_color(v, p, i));
        }
        assert forall|k: int|
            0 <= k < 5 * n implies pos_in_range(#[trigger] v1.pawn_positions[k]) by {
            if k != pawn {
                assert(pos_in_range(v.pawn_positions[k]));
            }
        }
        assert forall|k: int|
            0 <= k < 5 * n implies (v1.pawn_positions[k] is Some ==> v1.pawn_colors[k]
                is Some) by {
            if k != pawn {
                assert(v.pawn_positions[k] is Some ==> v.pawn_colors[k] is Some);
            } else {
                assert(v1.pawn_colors[pawn] == Some(color));
            }
        }
        assert forall|p: int|
            0 <= p < n implies player_steps(v1, p) == player_steps(v, p) + (if p == cur {
            1int
        } else {
            0int
        }) by {
            assert(pawn_steps(v1.pawn_positions[p * 5]) == pawn_steps(v.pawn_positions[p * 5])
                + (if p * 5 == pawn { 1int } else { 0int }));
            assert(pawn_steps(v1.pawn_positions[p * 5 + 1]) == pawn_steps(
                v.pawn_positions[p * 5 + 1],
            ) + (if p * 5 + 1 == pawn { 1int } else { 0int }));
            assert(pawn_steps(v1.pawn_positions[p * 5 + 2]) == pawn_steps(
                v.pawn_positions[p * 5 + 2],
            ) + (if p * 5 + 2 == pawn { 1int } else { 0int }));
            assert(pawn_steps(v1.pawn_positions[p * 5 + 3]) == pawn_steps(
                v.pawn_positions[p * 5 + 3],
            ) + (if p * 5 + 3 == pawn { 1int } else { 0int }));
            assert(pawn_steps(v1.pawn_positions[p * 5 + 4]) == pawn_steps(
                v.pawn_positions[p * 5 + 4],
            ) + (if p * 5 + 4 == pawn { 1int } else { 0int }));
        }
        assert(counters_ok(v1)) by {
            assert forall|p: int|
                0 <= p < n implies 0 <= #[trigger] v1.scores[p] <= 15 * player_steps(v1, p) && 0
                    <= v1.artifacts[p] <= player_steps(v1, p) by {
                assert(0 <= v.scores[p] <= 15 * player_steps(v, p));
                assert(0 <= v.artifacts[p] <= player_steps(v, p));
            }
        }
        assert(base_ok(v1));
        assert(mid_hands(v1));
        match v.events[color_idx(color)][newpos] {
            Some(Event::Points(pts)) => {
                assert(points_bounded(v.events[color_idx(color)][newpos]));
                assert(v1.scores[cur] + pts as int <= 15 * player_steps(v1, cur)) by {
                    assert(0 <= v.scores[cur] <= 15 * player_steps(v, cur));
                    assert(player_steps(v1, cur) == player_steps(v, cur) + 1);
                }
                lemma_score_bump_wf(v1, pts as int);
            },
            Some(Event::Artifact) => {
                assert(v1.artifacts[cur] + 1 <= player_steps(v1, cur)) by {
                    assert(0 <= v.artifacts[cur] <= player_steps(v, cur));
                    assert(player_steps(v1, cur) == player_steps(v, cur) + 1);
                }
                lemma_artifact_bump_wf(v1);
            },
            Some(Event::Arrow) => {
                if can_move_any_other(v1, cur, sl) {
                    let w = GameView { turn: TurnState::MovingPawn, ..v1 };
                    lemma_pawn_clauses_transfer(v1, w);
                    assert(counters_ok(w)) by {
                        lemma_pos_points_transfer(v1, w);
                        assert forall|p: int|
                            0 <= p < n implies 0 <= #[trigger] w.scores[p] <= 15 * player_steps(
                            w,
                            p,
                        ) && 0 <= w.artifacts[p] <= player_steps(w, p) by {
                            assert(0 <= v1.scores[p] <= 15 * player_steps(v1, p));
                            assert(0 <= v1.artifacts[p] <= player_steps(v1, p));
                            assert(player_steps(w, p) == player_steps(v1, p));
                        }
                    }
                    assert(wf(w));
                } else {
                    lemma_end_turn_wf(v1);
                }
            },
            None => {
                lemma_end_turn_wf(v1);
            },
        }
    }
}

/// The slot the unassigned-pawn lookup picks is really free and of the
/// requested type, when one is.
proof fn lemma_first_unassigned_found(v: GameView, player: int, t: PawnType)
    requires
        has_unassigned_of_type(v, player, t),
    ensures
        0 <= first_unassigned_slot(v, player, t) < 5,
        slot_color(v, player, first_unassigned_slot(v, player, t)) is None,
        pawn_type_of_slot(first_unassigned_slot(v, player, t)) == t,
{
    let i = choose|i: int|
        0 <= i < 5 && slot_color(v, player, i) is None && pawn_type_of_slot(i) == t;
    assert(slot_color(v, player, 0) == v.pawn_colors[player * 5]);
    assert(slot_color(v, player, 1) == v.pawn_colors[player * 5 + 1]);
    assert(slot_color(v, player, 2) == v.pawn_colors[player * 5 + 2]);
    assert(slot_color(v, player, 3) == v.pawn_colors[player * 5 + 3]);
    assert(slot_color(v, player, 4) == v.pawn_colors[player * 5 + 4]);
}

/// In any unfinished state outside a pending pawn assignment, every opened
/// expedition has a pawn.
proof fn lemma_full_link(v: GameView)
    requires
        wf(v),
        !(v.turn is PlayingPawn),
    ensures
        forall|p: int, c: int|
            0 <= p < num_players(v) && 0 <= c < 5 && (#[trigger] v.expeditions[p][c]).len() > 0
                ==> has_color_pawn(v, p, idx_color(c)),
{
}

/// Discarding a legal hand card preserves the invariant.
proof fn lemma_discard_wf(v: GameView, card: Card)
    requires
        wf(v),
        v.turn is PlayingCard,
        v.hands[v.current].contains(card),
    ensures
        wf(discard_card_step(v, card)),
        num_players(discard_card_step(v, card)) == num_players(v),
{
    let n = num_players(v);
    let w = discard_card_step(v, card);
    lemma_first_index_in_range(v.hands[v.current], card);
    lemma_full_link(v);
    lemma_pawn_clauses_transfer(v, w);
    lemma_pos_points_transfer(v, w);
    assert forall|p: int|
        0 <= p < n implies 0 <= #[trigger] w.scores[p] <= 15 * player_steps(w, p) && 0
            <= w.artifacts[p] <= player_steps(w, p) by {
        assert(0 <= v.scores[p] <= 15 * player_steps(v, p));
        assert(0 <= v.artifacts[p] <= player_steps(v, p));
        assert(player_steps(w, p) == player_steps(v, p));
    }
    assert(w.hands[w.current].len() == 7);
    assert(wf(w));
}

/// Drawing from the deck preserves the invariant, whether the game goes on
/// or ends.
proof fn lemma_draw_deck_wf(v: GameView)
    requires
        wf(v),
        v.turn is DrawingCard,
    ensures
        wf(draw_from_deck_step(v)),
        num_players(draw_from_deck_step(v)) == num_players(v),
{
    let n = num_players(v);
    let v1 = GameView {
        deck: v.deck.drop_last(),
        hands: v.hands.update(v.current, v.hands[v.current].push(v.deck.last())),
        ..v
    };
    lemma_full_link(v);
    lemma_pawn_clauses_transfer(v, v1);
    lemma_pos_points_transfer(v, v1);
    assert forall|p: int|
        0 <= p < n implies 0 <= #[trigger] v1.scores[p] <= 15 * player_steps(v1, p) && 0
            <= v1.artifacts[p] <= player_steps(v1, p) by {
        assert(0 <= v.scores[p] <= 15 * player_steps(v, p));
        assert(0 <= v.artifacts[p] <= player_steps(v, p));
        assert(player_steps(v1, p) == player_steps(v, p));
    }
    assert(v1.hands[v1.current].len() == 8);
    if v1.deck.len() == 0 {
        lemma_end_game_wf(v1);
    } else {
        lemma_end_turn_wf(v1);
    }
}

/// Drawing the top of a discard pile preserves the invariant.
proof fn lemma_draw_discard_wf(v: GameView, color: Color)
    requires
        wf(v),
        v.turn is DrawingCard,
        v.discards[color_idx(color)].len() > 0,
    ensures
        wf(draw_from_discard_step(v, color)),
        num_players(draw_from_discard_step(v, color)) == num_players(v),
{
    let n = num_players(v);
    let ci = color_idx(color);
    let v1 = GameView {
        discards: v.discards.update(ci, v.discards[ci].drop_last()),
        hands: v.hands.update(v.current, v.hands[v.current].push(v.discards[ci].last())),
        ..v
    };
    lemma_full_link(v);
    lemma_pawn_clauses_transfer(v, v1);
    lemma_pos_points_transfer(v, v1);
    assert forall|p: int|
        0 <= p < n implies 0 <= #[trigger] v1.scores[p] <= 15 * player_steps(v1, p) && 0
            <= v1.artifacts[p] <= player_steps(v1, p) by {
        assert(0 <= v.scores[p] <= 15 * player_steps(v, p));
        assert(0 <= v.artifacts[p] <= player_steps(v, p));
        assert(player_steps(v1, p) == player_steps(v, p));
    }
    assert(v1.hands[v1.current].len() == 8);
    lemma_end_turn_wf(v1);
}

/// Assigning a free pawn of the chosen type to the pending color and
/// advancing it preserves the invariant.
proof fn lemma_choose_wf(v: GameView, t: PawnType)
    requires
        wf(v),
        v.turn is PlayingPawn,
        has_unassigned_of_type(v, v.current, t),
    ensures
        wf(choose_pawn_type_step(v, t)),
        num_players(choose_pawn_type_step(v, t)) == num_players(v),
{
    let n = num_players(v);
    let cur = v.current;
    let color = pending_color(v);
    lemma_first_unassigned_found(v, cur, t);
    let sl = first_unassigned_slot(v, cur, t);
    let pawn = cur * 5 + sl;
    let v1 = GameView { pawn_colors: v.pawn_colors.update(pawn, Some(color)), ..v };
    assert(slot_color(v1, cur, sl) == Some(color));
    assert(has_color_pawn(v1, cur, color));
    assert forall|p: int, i: int, j: int|
        0 <= p < n && 0 <= i < 5 && 0 <= j < 5 && i != j && slot_color(v1, p, i)
            is Some implies slot_color(v1, p, i) != slot_color(v1, p, j) by {
        if p * 5 + i != pawn && p * 5 + j != pawn {
            assert(slot_color(v1, p, i) == slot_color(v, p, i));
            assert(slot_color(v1, p, j) == slot_color(v, p, j));
            assert(slot_color(v, p, i) is Some ==> slot_color(v, p, i) != slot_color(v, p, j));
        } else if p * 5 + i == pawn {
            assert(p == cur && i == sl);
            assert(slot_color(v1, p, j) == slot_color(v, p, j));
            assert(slot_color(v, cur, j) != Some(color));
        } else {
            assert(p == cur && j == sl);
            assert(slot_color(v1, p, i) == slot_color(v, p, i));
            assert(slot_color(v, cur, i) != Some(color));
        }
    }
    assert forall|p: int, i: int|
        0 <= p < n && 0 <= i < 5 implies slot_opened(v1, p, i) by {
        if p * 5 + i != pawn {
            assert(slot_opened(v, p, i));
            assert(slot_color(v1, p, i) == slot_color(v, p, i));
        } else {
            assert(v.expeditions[cur][color_idx(color)].len() > 0);
        }
    }
    assert forall|p: int, c: int|
        0 <= p < n && 0 <= c < 5 && (#[trigger] v1.expeditions[p][c]).len() > 0
            implies has_color_pawn(v1, p, idx_color(c)) by {
        if p == cur && c == color_idx(color) {
            assert(idx_color(color_idx(color)) == color);
            assert(slot_color(v1, cur, sl) == Some(idx_color(c)));
        } else {
            assert(v.expeditions[p][c].len() > 0);
            assert(!(p == v.current && v.turn == TurnState::PlayingPawn(idx_color(c)))) by {
                assert(idx_color(color_idx(color)) == color);
                if p == v.current && v.turn == TurnState::PlayingPawn(idx_color(c)) {
                    assert(idx_color(c) == color);
                    assert(color_idx(idx_color(c)) == c);
                }
            }
            assert(has_color_pawn(v, p, idx_color(c)));
            let i = choose|i: int| 0 <= i < 5 && slot_color(v, p, i) == Some(idx_color(c));
            assert(slot_color(v, cur, sl) is None);
            assert(p * 5 + i != pawn);
            assert(slot_color(v1, p, i) == slot_color(v, p, i));
        }
    }
    assert forall|k: int|
        0 <= k < 5 * n implies (v1.pawn_positions[k] is Some ==> v1.pawn_colors[k]
            is Some) by {
        if k != pawn {
            assert(v.pawn_positions[k] is Some ==> v.pawn_colors[k] is Some);
        }
    }
    lemma_pos_points_transfer(v, v1);
    assert forall|p: int|
        0 <= p < n implies 0 <= #[trigger] v1.scores[p] <= 15 * player_steps(v1, p) && 0
            <= v1.artifacts[p] <= player_steps(v1, p) by {
        assert(0 <= v.scores[p] <= 15 * player_steps(v, p));
        assert(0 <= v.artifacts[p] <= player_steps(v, p));
        assert(player_steps(v1, p) == player_steps(v, p));
    }
    assert(base_ok(v1));
    assert(mid_hands(v1));
    lemma_move_color_wf(v1, color);
}

/// Playing a legal card preserves the invariant.
#[verifier::rlimit(100)]
proof fn lemma_play_wf(v: GameView, card: Card)
    requires
        wf(v),
        v.turn is PlayingCard,
        v.hands[v.current].contains(card),
        can_play(v, v.current, card),
    ensures
        wf(play_card_step(v, card)),
        num_players(play_card_step(v, card)) == num_players(v),
{
    let n = num_players(v);
    let cur = v.current;
    let ci = color_idx(card.color);
    lemma_first_index_in_range(v.hands[cur], card);
    lemma_full_link(v);
    let was_empty = v.expeditions[cur][ci].len() == 0;
    let v1 = GameView {
        hands: v.hands.update(cur, v.hands[cur].remove(first_index_of_card(v.hands[cur], card))),
        expeditions: v.expeditions.update(
            cur,
            v.expeditions[cur].update(ci, v.expeditions[cur][ci].push(card)),
        ),
        ..v
    };
    lemma_sorted_push(v.expeditions[cur][ci], card);
    assert forall|p: int, c: int|
        0 <= p < n && 0 <= c < 5 implies pile_sorted(v1.expeditions[p][c]) by {
        if p == cur && c == ci {
            assert(v1.expeditions[p][c] == v.expeditions[cur][ci].push(card));
        } else {
            assert(v1.expeditions[p][c] == v.expeditions[p][c]);
            assert(pile_sorted(v.expeditions[p][c]));
        }
    }
    assert forall|p: int, i: int, j: int|
        0 <= p < n && 0 <= i < 5 && 0 <= j < 5 && i != j && slot_color(v1, p, i)
            is Some implies slot_color(v1, p, i) != slot_color(v1, p, j) by {
        assert(slot_color(v1, p, i) == slot_color(v, p, i));
        assert(slot_color(v1, p, j) == slot_color(v, p, j));
    }
    assert forall|p: int, i: int|
        0 <= p < n && 0 <= i < 5 implies slot_opened(v1, p, i) by {
        assert(slot_opened(v, p, i));
        assert(slot_color(v1, p, i) == slot_color(v, p, i));
        match slot_color(v, p, i) {
            Some(col) => {
                if p == cur && color_idx(col) == ci {
                    assert(v1.expeditions[p][color_idx(col)].len() == v.expeditions[p][
                        color_idx(col)].len() + 1);
                } else {
                    assert(v1.expeditions[p][color_idx(col)] == v.expeditions[p][
                        color_idx(col)]);
                }
            },
            None => {},
        }
    }
    assert forall|p: int, c: int|
        0 <= p < n && 0 <= c < 5 && (#[trigger] v1.expeditions[p][c]).len() > 0 && !(p == cur
            && c == ci) implies has_color_pawn(v1, p, idx_color(c)) by {
        assert(v1.expeditions[p][c] == v.expeditions[p][c]);
        assert(has_color_pawn(v, p, idx_color(c)));
        let i = choose|i: int| 0 <= i < 5 && slot_color(v, p, i) == Some(idx_color(c));
        assert(slot_color(v1, p, i) == slot_color(v, p, i));
    }
    lemma_pos_points_transfer(v, v1);
    assert forall|p: int|
        0 <= p < n implies 0 <= #[trigger] v1.scores[p] <= 15 * player_steps(v1, p) && 0
            <= v1.artifacts[p] <= player_steps(v1, p) by {
        assert(0 <= v.scores[p] <= 15 * player_steps(v, p));
        assert(0 <= v.artifacts[p] <= player_steps(v, p));
        assert(player_steps(v1, p) == player_steps(v, p));
    }
    assert(v1.hands[cur].len() == 7);
    if was_empty {
        let w = GameView { turn: TurnState::PlayingPawn(card.color), ..v1 };
        assert(idx_color(color_idx(card.color)) == card.color);
        assert forall|i: int| 0 <= i < 5 implies slot_color(w, cur, i) != Some(card.color) by {
            assert(slot_opened(v, cur, i));
            assert(slot_color(w, cur, i) == slot_color(v, cur, i));
            match slot_color(v, cur, i) {
                Some(col) => {
                    if col == card.color {
                        assert(v.expeditions[cur][ci].len() > 0);
                    }
                },
                None => {},
            }
        }
        assert(dims(w)) by {
            assert forall|p: int| 0 <= p < n implies (#[trigger] w.expeditions[p]).len() == 5 by {
                if p != cur {
                    assert(w.expeditions[p] == v.expeditions[p]);
                }
            }
        }
        assert(hand_sizes_ok(w)) by {
            assert(w.hands[cur].len() == 7);
            assert forall|p: int|
                0 <= p < n && p != cur implies (#[trigger] w.hands[p]).len() == 8 by {
                assert(w.hands[p] == v.hands[p]);
            }
        }
        assert(w.expeditions[cur][ci].len() > 0);
        assert forall|p: int, i: int, j: int|
            0 <= p < n && 0 <= i < 5 && 0 <= j < 5 && i != j && slot_color(w, p, i)
                is Some implies slot_color(w, p, i) != slot_color(w, p, j) by {
            assert(slot_color(w, p, i) == slot_color(v, p, i));
            assert(slot_color(w, p, j) == slot_color(v, p, j));
            assert(slot_color(v, p, i) is Some ==> slot_color(v, p, i) != slot_color(v, p, j));
        }
        assert forall|p: int, i: int|
            0 <= p < n && 0 <= i < 5 implies slot_opened(w, p, i) by {
            assert(slot_opened(v1, p, i));
            assert(slot_color(w, p, i) == slot_color(v1, p, i));
        }
        assert forall|p: int, c: int|
            0 <= p < n && 0 <= c < 5 && (#[trigger] w.expeditions[p][c]).len() > 0
                implies (has_color_pawn(w, p, idx_color(c)) || (p == w.current && w.turn
                == TurnState::PlayingPawn(idx_color(c)))) by {
            if p == cur && c == ci {
                assert(w.turn == TurnState::PlayingPawn(idx_color(c)));
            } else {
                assert(v1.expeditions[p][c].len() > 0);
                assert(has_color_pawn(v1, p, idx_color(c)));
                let i2 = choose|i2: int|
                    0 <= i2 < 5 && slot_color(v1, p, i2) == Some(idx_color(c));
                assert(slot_color(w, p, i2) == slot_color(v1, p, i2));
            }
        }
        assert(wf(w));
    } else {
        assert(has_color_pawn(v1, cur, card.color)) by {
            assert(v.expeditions[cur][ci].len() > 0);
            assert(idx_color(color_idx(card.color)) == card.color);
            assert(has_color_pawn(v, cur, card.color));
            let i = choose|i: int| 0 <= i < 5 && slot_color(v, cur, i) == Some(card.color);
            assert(slot_color(v1, cur, i) == slot_color(v, cur, i));
        }
        assert(base_ok(v1));
        assert(mid_hands(v1));
        lemma_move_color_wf(v1, card.color);
    }
}

/// Every legal action applied to a reachable state leads to a reachable
/// state: the full invariant is preserved by the transition relation.
pub proof fn lemma_step_preserves_wf(v: GameView, a: Action)
    requires
        wf(v),
        !(v.turn is GameFinished),
        action_legal(v, a),
    ensures
        wf(step(v, a)),
        num_players(step(v, a)) == num_players(v),
{
    match a {
        Action::PlayCard(c) => lemma_play_wf(v, c),
        Action::DiscardCard(c) => lemma_discard_wf(v, c),
        Action::DrawFromDeck => lemma_draw_deck_wf(v),
        Action::DrawFromDiscard(col) => lemma_draw_discard_wf(v, col),
        Action::ChoosePawnType(t) => lemma_choose_wf(v, t),
        Action::MoveColor(col) => {
            let i = choose|i: int|
                0 <= i < 5 && slot_movable(v, v.current, i) && slot_color(v, v.current, i)
                    == Some(col);
            lemma_full_link(v);
            lemma_move_color_wf(v, col);
        },
    }
}

/// The multiset of all cards held in a sequence of hands.
pub open spec fn hands_multiset(hands: Seq<Seq<Card>>) -> Multiset<Card>
    decreases hands.len(),
{
    if hands.len() == 0 {
        Multiset::empty()
    } else {
        hands_multiset(hands.drop_last()).add(hands.last().to_multiset())
    }
}

/// End-of-game scoring decomposes, player by player, into the running
/// score plus the artifact-count bonus plus the position bonus of each
/// pawn that has moved (pawns that never moved contribute nothing).
pub proof fn lemma_final_score_decomposition(v: GameView, p: int)
    requires
        0 <= p < num_players(v),
    ensures
        final_scores(v)[p] == v.scores[p] + artifact_bonus(v.artifacts[p])
            + player_position_bonus(v, p),
        end_game_step(v).scores == final_scores(v),
{
}

/// While a pawn assignment is pending, the player still has a free pawn:
/// at most four of their five pawns can be assigned, since assigned colors
/// are distinct and the pending color is not among them.
pub proof fn lemma_unassigned_exists(v: GameView)
    requires
        wf(v),
        v.turn is PlayingPawn,
    ensures
        exists|i: int| 0 <= i < 5 && slot_color(v, v.current, i) is None,
{
    let c = pending_color(v);
    let cur = v.current;
    let c0 = slot_color(v, cur, 0);
    let c1 = slot_color(v, cur, 1);
    let c2 = slot_color(v, cur, 2);
    let c3 = slot_color(v, cur, 3);
    let c4 = slot_color(v, cur, 4);
    if c0 is Some && c1 is Some && c2 is Some && c3 is Some && c4 is Some {
        assert(c0 != Some(c) && c1 != Some(c) && c2 != Some(c) && c3 != Some(c) && c4 != Some(c));
        assert(c0 != c1 && c0 != c2 && c0 != c3 && c0 != c4);
        assert(c1 != c2 && c1 != c3 && c1 != c4);
        assert(c2 != c3 && c2 != c4);
        assert(c3 != c4);
        let x0 = c0->0;
        let x1 = c1->0;
        let x2 = c2->0;
        let x3 = c3->0;
        let x4 = c4->0;
        assert(idx_color(color_idx(x0)) == x0);
        assert(idx_color(color_idx(x1)) == x1);
        assert(idx_color(color_idx(x2)) == x2);
        assert(idx_color(color_idx(x3)) == x3);
        assert(idx_color(color_idx(x4)) == x4);
        assert(idx_color(color_idx(c)) == c);
        assert(0 <= color_idx(x0) < 5 && 0 <= color_idx(x1) < 5 && 0 <= color_idx(x2) < 5 && 0
            <= color_idx(x3) < 5 && 0 <= color_idx(x4) < 5 && 0 <= color_idx(c) < 5);
        assert(false);
    } else {
        assert(exists|i: int| 0 <= i < 5 && slot_color(v, cur, i) is None) by {
            if c0 is None {
                assert(slot_color(v, cur, 0) is None);
            } else if c1 is None {
                assert(slot_color(v, cur, 1) is None);
            } else if c2 is None {
                assert(slot_color(v, cur, 2) is None);
            } else if c3 is None {
                assert(slot_color(v, cur, 3) is None);
            } else {
                assert(slot_color(v, cur, 4) is None);
            }
        }
    }
}

/// A prefix of the pawn-choice list is non-empty as soon as it covers an
/// unassigned slot.
proof fn lemma_pawn_choice_len_pos(v: GameView, k: int)
    requires
        0 <= k <= 5,
        exists|i: int| 0 <= i < k && slot_color(v, v.current, i) is None,
    ensures
        pawn_choice_actions_upto(v, k).len() > 0,
    decreases k,
{
    let i = choose|i: int| 0 <= i < k && slot_color(v, v.current, i) is None;
    if i < k - 1 {
        assert(0 <= i < k - 1 && slot_color(v, v.current, i) is None);
        lemma_pawn_choice_len_pos(v, k - 1);
    }
}

/// A prefix of the forced-move list is non-empty as soon as it covers a
/// movable slot.
proof fn lemma_move_actions_len_pos(v: GameView, k: int)
    requires
        0 <= k <= 5,
        exists|i: int| 0 <= i < k && slot_movable(v, v.current, i),
    ensures
        move_actions_upto(v, k).len() > 0,
    decreases k,
{
    let i = choose|i: int| 0 <= i < k && slot_movable(v, v.current, i);
    if i < k - 1 {
        assert(0 <= i < k - 1 && slot_movable(v, v.current, i));
        lemma_move_actions_len_pos(v, k - 1);
    }
}

/// No action is available exactly in the finished state: every other phase
/// of a well-formed state offers at least one action, granted that a
/// forced-move phase has a movable pawn (true of every state the machine
/// reaches, since an Arrow forces the phase only when another pawn can
/// move).
pub proof fn lemma_actions_empty_iff_finished(v: GameView)
    requires
        wf(v),
        v.turn is MovingPawn ==> can_move_any(v, v.current),
    ensures
        (legal_action_list(v).len() == 0) <==> (v.turn is GameFinished),
{
    match v.turn {
        TurnState::PlayingCard => {
            assert(v.hands[v.current].map_values(|c: Card| Action::DiscardCard(c)).len() == 8);
            assert(legal_action_list(v).len() > 0);
        },
        TurnState::DrawingCard => {
            assert(legal_action_list(v).len() > 0);
        },
        TurnState::PlayingPawn(_) => {
            lemma_unassigned_exists(v);
            lemma_pawn_choice_len_pos(v, 5);
        },
        TurnState::MovingPawn => {
            lemma_move_actions_len_pos(v, 5);
        },
        TurnState::GameFinished => {
        },
    }
}

} // verus!
