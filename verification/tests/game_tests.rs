use lost_cities::game::FinishedGame;
use lost_cities::state::{GameState, TurnState};
use lost_cities::state::{score_for_artifact_count, score_for_position};
use lost_cities::types::{Action, Card, Color, Event, PawnType};

fn colors() -> Vec<Color> {
    vec![Color::Yellow, Color::Green, Color::White, Color::Red, Color::Blue]
}

/// Drives a game to the end by always discarding the first hand card and
/// drawing from the deck: no pawn is ever played, so the game ends when the
/// deck runs out.
fn drive_discard_only(state: &mut GameState) {
    let mut guard = 0;
    while !state.is_finished() {
        let actions = state.available_actions();
        assert!(!actions.is_empty());
        let action = actions
            .iter()
            .find(|a| {
                matches!(a, Action::DiscardCard(_)) || matches!(a, Action::DrawFromDeck)
            })
            .unwrap()
            .clone();
        state.do_action(action);
        guard += 1;
        assert!(guard < 10000);
    }
}

#[test]
fn new_deals_eight_cards_each_and_the_rest_stays_in_the_deck() {
    for n in 2..=4 {
        let state = GameState::new(n);
        assert_eq!(state.player_hands.len(), n as usize);
        for hand in &state.player_hands {
            assert_eq!(hand.len(), 8);
        }
        assert_eq!(state.deck.len(), 110 - 8 * n as usize);
    }
}

#[test]
fn two_player_game_starts_in_playing_card_with_player_zero() {
    let state = GameState::new(2);
    assert_eq!(state.player_hands.len(), 2);
    assert_eq!(state.player_hands[0].len(), 8);
    assert_eq!(state.player_hands[1].len(), 8);
    assert_eq!(state.deck.len(), 94);
    assert!(state.turn_state == TurnState::PlayingCard);
    assert_eq!(state.current_player, 0);
    assert_eq!(state.winner, None);
}

#[test]
fn construction_is_deterministic() {
    let a = GameState::new(2);
    let b = GameState::new(2);
    assert_eq!(a.deck, b.deck);
    assert_eq!(a.player_hands, b.player_hands);
    assert_eq!(a.color_position_events, b.color_position_events);
}

#[test]
fn the_deck_is_shuffled_but_remains_a_permutation() {
    let state = GameState::new(2);
    // The unshuffled build order: two of each number, color by color.
    let mut build_order: Vec<Card> = Vec::new();
    for color in colors() {
        for number in 0..=10 {
            build_order.push(Card::new(color, number));
            build_order.push(Card::new(color, number));
        }
    }
    // If the shuffle handed its input back unchanged, the remaining deck
    // would be exactly the first 94 cards of the build order.
    assert_ne!(state.deck, build_order[..94].to_vec());
    // Every (color, number) pair appears exactly twice across deck + hands.
    let mut counts = [[0usize; 11]; 5];
    let mut seen = |c: &Card| {
        let ci = colors().iter().position(|x| *x == c.color).unwrap();
        counts[ci][c.number as usize] += 1;
    };
    for c in &state.deck {
        seen(c);
    }
    for hand in &state.player_hands {
        for c in hand {
            seen(c);
        }
    }
    for row in counts.iter() {
        for count in row.iter() {
            assert_eq!(*count, 2);
        }
    }
}

#[test]
fn available_actions_nonempty_until_finished_then_empty() {
    let mut state = GameState::new(2);
    assert!(!state.is_finished());
    assert!(!state.available_actions().is_empty());
    drive_discard_only(&mut state);
    assert!(state.is_finished());
    assert!(state.available_actions().is_empty());
}

#[test]
fn playing_into_an_empty_expedition_asks_for_a_pawn() {
    let mut state = GameState::new(2);
    // The lowest-numbered hand card; its color's expedition is empty.
    let card = *state.player_hands[0]
        .iter()
        .min_by_key(|c| c.number)
        .unwrap();
    state.do_action(Action::PlayCard(card));
    assert!(state.turn_state == TurnState::PlayingPawn(card.color));
    let ci = colors().iter().position(|x| *x == card.color).unwrap();
    assert_eq!(state.player_color_expeditions[0][ci], vec![card]);
    assert_eq!(state.player_hands[0].len(), 7);
}

#[test]
fn choosing_a_pawn_type_assigns_an_unassigned_pawn() {
    let mut state = GameState::new(2);
    let card = *state.player_hands[0]
        .iter()
        .min_by_key(|c| c.number)
        .unwrap();
    state.do_action(Action::PlayCard(card));
    assert!(state.turn_state == TurnState::PlayingPawn(card.color));
    state.do_action(Action::ChoosePawnType(PawnType::Researcher));
    // Player 0's researcher is pawn 4; it gets the color and moves to 0.
    assert_eq!(state.pawn_colors[4], Some(card.color));
    assert_eq!(state.pawn_positions[4], Some(0));
    // Position 0 holds no event on any color, so the turn resolves; the
    // player is a card short and must draw.
    assert!(state.turn_state == TurnState::DrawingCard);
    assert_eq!(state.current_player, 0);
}

#[test]
fn draining_the_deck_finishes_the_game_with_bonuses_applied() {
    let mut state = GameState::new(2);
    drive_discard_only(&mut state);
    assert!(state.turn_state == TurnState::GameFinished);
    // Nobody moved a pawn or collected an artifact: each player scores the
    // zero-artifact penalty alone, and the tie leaves no winner.
    assert_eq!(state.player_scores, vec![-20, -20]);
    assert_eq!(state.winner, None);
}

#[test]
fn a_unique_maximum_score_names_the_winner() {
    let mut state = GameState::new(2);
    // Player 0 opens one expedition and places a pawn at position 0, which
    // costs 20 points at scoring time; player 1 never plays a card.
    let card = *state.player_hands[0]
        .iter()
        .min_by_key(|c| c.number)
        .unwrap();
    state.do_action(Action::PlayCard(card));
    state.do_action(Action::ChoosePawnType(PawnType::Adventurer));
    assert!(state.turn_state == TurnState::DrawingCard);
    state.do_action(Action::DrawFromDeck);
    drive_discard_only(&mut state);
    assert!(state.is_finished());
    assert_eq!(state.player_scores, vec![-40, -20]);
    assert_eq!(state.winner, Some(1));
}

#[test]
fn drawing_back_a_discarded_card_refills_the_hand() {
    let mut state = GameState::new(2);
    let card = state.player_hands[0][0];
    state.do_action(Action::DiscardCard(card));
    assert!(state.turn_state == TurnState::DrawingCard);
    let ci = colors().iter().position(|x| *x == card.color).unwrap();
    assert_eq!(state.color_discard_piles[ci], vec![card]);
    let actions = state.available_actions();
    assert!(actions.contains(&Action::DrawFromDeck));
    assert!(actions.contains(&Action::DrawFromDiscard(card.color)));
    state.do_action(Action::DrawFromDiscard(card.color));
    assert!(state.color_discard_piles[ci].is_empty());
    assert_eq!(state.player_hands[0].len(), 8);
    assert!(state.turn_state == TurnState::PlayingCard);
    assert_eq!(state.current_player, 1);
}

#[test]
fn the_artifact_bonus_table_is_exact() {
    assert_eq!(score_for_artifact_count(0), -20);
    assert_eq!(score_for_artifact_count(1), -15);
    assert_eq!(score_for_artifact_count(2), -10);
    assert_eq!(score_for_artifact_count(3), 15);
    assert_eq!(score_for_artifact_count(4), 30);
    assert_eq!(score_for_artifact_count(5), 50);
    assert_eq!(score_for_artifact_count(17), 50);
}

#[test]
fn the_position_bonus_table_is_exact() {
    let expected = [-20, -15, -10, 5, 10, 15, 30, 35, 50];
    for position in 0..=8u8 {
        assert_eq!(score_for_position(position), expected[position as usize]);
    }
}

#[test]
fn the_event_board_layout_is_fixed() {
    let state = GameState::new(3);
    let board = &state.color_position_events;
    assert_eq!(board.len(), 5);
    for row in board {
        assert_eq!(row.len(), 9);
        assert_eq!(row[0], None);
        assert_eq!(row[7], None);
    }
    // The highest-value point tokens land on the first color's path.
    assert_eq!(board[0][1], Some(Event::Points(15)));
    assert_eq!(board[0][2], Some(Event::Points(15)));
    assert_eq!(board[0][4], Some(Event::Points(10)));
    assert_eq!(board[1][1], Some(Event::Points(5)));
    assert_eq!(board[2][2], Some(Event::Arrow));
    assert_eq!(board[3][4], Some(Event::Artifact));
    assert_eq!(board[4][8], Some(Event::Artifact));
}

#[test]
fn a_finished_game_record_captures_the_start() {
    let state = GameState::new(2);
    let record = FinishedGame::from_game_state(&state);
    assert_eq!(record.starting_player_hands, state.player_hands);
    assert_eq!(record.deck, state.deck);
    assert_eq!(record.color_position_events, state.color_position_events);
    assert!(record.action_log.is_empty());
}

#[test]
fn played_cards_keep_expeditions_sorted() {
    let mut state = GameState::new(2);
    // Walk a few turns, always playing the first playable card if any;
    // after every play each expedition pile must be non-decreasing.
    for _ in 0..200 {
        if state.is_finished() {
            break;
        }
        let actions = state.available_actions();
        if actions.is_empty() {
            break;
        }
        let action = actions[0].clone();
        state.do_action(action);
        for player in 0..state.player_hands.len() {
            for pile in &state.player_color_expeditions[player] {
                for w in pile.windows(2) {
                    assert!(w[0].number <= w[1].number);
                }
            }
        }
    }
}

#[test]
fn the_action_list_is_exact_in_order_and_multiplicity() {
    let mut state = GameState::new(2);
    // Every expedition is empty, so every hand card is playable: the list
    // is each hand card as a play, in hand order, then each as a discard.
    let hand = state.player_hands[0].clone();
    let mut expected: Vec<Action> = hand.iter().map(|c| Action::PlayCard(*c)).collect();
    expected.extend(hand.iter().map(|c| Action::DiscardCard(*c)));
    assert_eq!(state.available_actions(), expected);

    // While drawing after a discard, the list is the deck draw followed by
    // one discard-pile draw per non-empty pile.
    let card = hand[0];
    state.do_action(Action::DiscardCard(card));
    assert_eq!(
        state.available_actions(),
        vec![Action::DrawFromDeck, Action::DrawFromDiscard(card.color)]
    );
}

#[test]
fn the_pawn_choice_list_has_one_entry_per_unassigned_pawn() {
    let mut state = GameState::new(2);
    let card = state.player_hands[0][0];
    state.do_action(Action::PlayCard(card));
    assert!(state.turn_state == TurnState::PlayingPawn(card.color));
    // All five pawns are unassigned: four adventurers, then the researcher.
    assert_eq!(
        state.available_actions(),
        vec![
            Action::ChoosePawnType(PawnType::Adventurer),
            Action::ChoosePawnType(PawnType::Adventurer),
            Action::ChoosePawnType(PawnType::Adventurer),
            Action::ChoosePawnType(PawnType::Adventurer),
            Action::ChoosePawnType(PawnType::Researcher),
        ]
    );
}
