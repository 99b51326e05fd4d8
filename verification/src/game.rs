//! The finished-game record handed to the serialization driver.

use crate::state::GameState;
use crate::types::{Action, Card, CardPile, Event};
use vstd::prelude::*;

verus! {

/// What is persisted for one play: each player's starting hand as dealt,
/// the never-drawn remainder of the deck, the full event board, and the
/// ordered log of every action applied.
pub struct FinishedGame {
    pub starting_player_hands: Vec<CardPile>,
    pub deck: CardPile,
    pub color_position_events: Vec<Vec<Option<Event>>>,
    pub action_log: Vec<Action>,
}

impl FinishedGame {
    /// Captures the hands, deck and event board of a (freshly constructed)
    /// game state, with an empty action log for the driver to fill.
    pub fn from_game_state(state: &GameState) -> (r: FinishedGame)
        ensures
            r.starting_player_hands@.map_values(|h: CardPile| h@) == state@.hands,
            r.deck@ == state@.deck,
            r.color_position_events@.map_values(|e: Vec<Option<Event>>| e@) == state@.events,
            r.action_log@ == Seq::<Action>::empty(),
    {
        let mut hands: Vec<CardPile> = Vec::new();
        let mut p: usize = 0;
        let hands_len = state.player_hands.len();
        while p < hands_len
            invariant
                p <= hands_len,
                hands_len == state.player_hands@.len(),
                hands@.len() == p,
                forall|q: int| 0 <= q < p ==> (#[trigger] hands@[q])@ == state@.hands[q],
            decreases hands_len - p,
        {
            let mut hand: CardPile = Vec::new();
            let mut k: usize = 0;
            let hand_len = state.player_hands[p].len();
            while k < hand_len
                invariant
                    p < hands_len,
                    hands_len == state.player_hands@.len(),
                    k <= hand_len,
                    hand_len == state.player_hands@[p as int]@.len(),
                    hand@.len() == k,
                    forall|m: int|
                        0 <= m < k ==> #[trigger] hand@[m] == state.player_hands@[p as int]@[m],
                decreases hand_len - k,
            {
                hand.push(state.player_hands[p][k]);
                k = k + 1;
            }
            proof {
                assert(hand@ =~= state@.hands[p as int]);
            }
            hands.push(hand);
            p = p + 1;
        }
        proof {
            assert(hands@.map_values(|h: CardPile| h@) =~= state@.hands);
        }
        let mut board: Vec<Vec<Option<Event>>> = Vec::new();
        let mut c: usize = 0;
        let rows = state.color_position_events.len();
        while c < rows
            invariant
                c <= rows,
                rows == state.color_position_events@.len(),
                board@.len() == c,
                forall|q: int| 0 <= q < c ==> (#[trigger] board@[q])@ == state@.events[q],
            decreases rows - c,
        {
            let mut row: Vec<Option<Event>> = Vec::new();
            let mut k: usize = 0;
            let row_len = state.color_position_events[c].len();
            while k < row_len
                invariant
                    c < rows,
                    rows == state.color_position_events@.len(),
                    k <= row_len,
                    row_len == state.color_position_events@[c as int]@.len(),
                    row@.len() == k,
                    forall|m: int|
                        0 <= m < k ==> #[trigger] row@[m] == state.color_position_events@[
                            c as int]@[m],
                decreases row_len - k,
            {
                row.push(state.color_position_events[c][k]);
                k = k + 1;
            }
            proof {
                assert(row@ =~= state@.events[c as int]);
            }
            board.push(row);
            c = c + 1;
        }
        proof {
            assert(board@.map_values(|e: Vec<Option<Event>>| e@) =~= state@.events);
        }
        let mut deck: CardPile = Vec::new();
        let mut d: usize = 0;
        let deck_len = state.deck.len();
        while d < deck_len
            invariant
                d <= deck_len,
                deck_len == state.deck@.len(),
                deck@.len() == d,
                forall|m: int| 0 <= m < d ==> #[trigger] deck@[m] == state.deck@[m],
            decreases deck_len - d,
        {
            deck.push(state.deck[d]);
            d = d + 1;
        }
        proof {
            assert(deck@ =~= state@.deck);
        }
        FinishedGame {
            starting_player_hands: hands,
            deck,
            color_position_events: board,
            action_log: Vec::new(),
        }
    }
}

} // verus!
