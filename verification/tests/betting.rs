use pokr::{Action, Game, GameError, Player, Round, Settings};

#[test]
fn functional_test() -> Result<(), GameError> {
    let n = 3;
    let settings = Settings {
        n_players: n,
        initial_stack: 1000,
    };
    let players = vec![Player::new(); n];
    let mut game = Game::new(settings);

    let mut turns = 0;
    while !game.over() && turns < 120 {
        let seat_number = game.current_seat();

        let mut player = players[seat_number];
        let action = player.choose_action();
        game.play_turn(action)?;
        turns += 1;
    }

    Ok(())
}

#[test]
fn round_from_card_count() {
    assert_eq!(Round::from_card_count(0), Ok(Round::PreFlop));
    assert_eq!(Round::from_card_count(3), Ok(Round::Flop));
    assert_eq!(Round::from_card_count(4), Ok(Round::Turn));
    assert_eq!(Round::from_card_count(5), Ok(Round::River));
    assert_eq!(
        Round::from_card_count(2),
        Err(GameError::InvalidRoundCardCount)
    );
    assert_eq!(Round::PreFlop.n_cards(), 0);
    assert_eq!(Round::River.n_cards(), 5);
}

#[test]
fn preflop_round_completion_scenario() {
    let mut game = Game::new(Settings {
        n_players: 3,
        initial_stack: 1000,
    });
    assert_eq!(game.get_observable_state().round, Round::PreFlop);
    game.play_turn(Action::Check).unwrap();
    game.play_turn(Action::Raise(20)).unwrap();
    game.play_turn(Action::Call).unwrap();
    game.play_turn(Action::Call).unwrap();
    let st = game.get_observable_state();
    assert_eq!(st.round, Round::Flop);
    assert_eq!(st.board.len(), 3);
    for s in &st.seats {
        assert_eq!(s.bet, 0);
    }
    assert_eq!(st.pot, 60);
    for s in &st.seats {
        assert_eq!(s.stack, 980);
    }
    // the fresh street starts at the first valid seat after the small blind
    assert_eq!(st.current_seat, 1);
}

#[test]
fn round_not_over_while_a_bet_is_unmatched() {
    let mut game = Game::new(Settings {
        n_players: 2,
        initial_stack: 100,
    });
    game.play_turn(Action::Check).unwrap();
    assert_eq!(game.get_observable_state().round, Round::PreFlop);
    game.play_turn(Action::Raise(10)).unwrap();
    // the raise is unmatched, so the round is still open
    assert_eq!(game.get_observable_state().round, Round::PreFlop);
    game.play_turn(Action::Call).unwrap();
    assert_eq!(game.get_observable_state().round, Round::Flop);
}

#[test]
fn illegal_actions_are_rejected_without_state_change() {
    let mut game = Game::new(Settings {
        n_players: 2,
        initial_stack: 100,
    });
    let before = game.get_observable_state();
    assert_eq!(game.play_turn(Action::Raise(0)), Err(GameError::InvalidAction));
    assert_eq!(game.play_turn(Action::Raise(101)), Err(GameError::InvalidAction));
    let after = game.get_observable_state();
    assert_eq!(before.pot, after.pot);
    assert_eq!(before.current_seat, after.current_seat);
    for (a, b) in before.seats.iter().zip(after.seats.iter()) {
        assert_eq!(a.stack, b.stack);
        assert_eq!(a.bet, b.bet);
    }

    // checking while facing a bet is illegal too
    game.play_turn(Action::Raise(10)).unwrap();
    assert_eq!(game.play_turn(Action::Check), Err(GameError::InvalidAction));
    game.play_turn(Action::Call).unwrap();
    assert_eq!(game.get_observable_state().round, Round::Flop);
}

#[test]
fn fold_ends_the_hand_and_pays_the_raiser() {
    let mut game = Game::new(Settings {
        n_players: 2,
        initial_stack: 100,
    });
    let raiser = game.current_seat();
    game.play_turn(Action::Raise(10)).unwrap();
    game.play_turn(Action::Fold).unwrap();
    // the hand fast-forwarded to showdown: the lone seat took its bet back
    let st = game.get_observable_state();
    assert_eq!(st.round, Round::PreFlop);
    assert_eq!(st.pot, 0);
    assert_eq!(st.seats[raiser].stack, 100);
    assert!(!st.seats[raiser].is_folded);
}

#[test]
fn elimination_after_lost_showdown() {
    let mut game = Game::new(Settings {
        n_players: 2,
        initial_stack: 50,
    });
    let mut turns = 0;
    while !game.over() && turns < 400 {
        let st = game.get_observable_state();
        let cur = game.current_seat();
        let seat = st.seats[cur];
        let maxb = st
            .seats
            .iter()
            .filter(|s| !s.is_dead && !s.is_folded)
            .map(|s| s.bet)
            .max()
            .unwrap();
        let action = if seat.bet < maxb || seat.stack == 0 {
            Action::Call
        } else {
            Action::Raise(seat.stack)
        };
        game.play_turn(action).unwrap();
        turns += 1;
    }
    assert!(game.over());
    let st = game.get_observable_state();
    let alive: Vec<_> = st.seats.iter().filter(|s| !s.is_dead).collect();
    let dead: Vec<_> = st.seats.iter().filter(|s| s.is_dead).collect();
    assert_eq!(alive.len(), 1);
    assert_eq!(alive[0].stack, 100);
    assert_eq!(dead.len(), 1);
    assert_eq!(dead[0].stack, 0);
    // the game rejects further actions once over
    assert_eq!(game.play_turn(Action::Check), Err(GameError::InvalidAction));
}

#[test]
fn observable_state_hides_private_cards() {
    let game = Game::new(Settings {
        n_players: 3,
        initial_stack: 100,
    });
    let st = game.get_observable_state();
    assert_eq!(st.seats.len(), 3);
    assert_eq!(st.board.len(), 0);
    assert_eq!(st.pot, 0);
    assert_eq!(st.round, Round::PreFlop);
    // the first seat to act is the small blind's left-hand neighbor
    assert_eq!(st.current_seat, 1);
}
