use blackjack::outcomes::{find_state, get_hand_outcome, judge_hand, resolve_outcomes};
use blackjack::types::{HandOutcome, HandState, Outcome, State};

#[test]
fn a_dealer_blackjack_beats_every_hand() {
    assert_eq!(judge_hand(State::BlackJack, State::Holding(20)), Outcome::Lost(0));
    assert_eq!(judge_hand(State::BlackJack, State::BlackJack), Outcome::Lost(0));
    assert_eq!(judge_hand(State::BlackJack, State::Bust(25)), Outcome::Lost(0));
}

#[test]
fn a_dealer_bust_loses_to_every_hand() {
    assert_eq!(judge_hand(State::Bust(23), State::Holding(12)), Outcome::Won(22));
    assert_eq!(judge_hand(State::Bust(23), State::BlackJack), Outcome::Won(22));
    assert_eq!(judge_hand(State::Bust(23), State::Bust(30)), Outcome::Won(22));
}

#[test]
fn a_holding_dealer_is_compared_by_value() {
    assert_eq!(judge_hand(State::Holding(18), State::BlackJack), Outcome::Won(21));
    assert_eq!(judge_hand(State::Holding(18), State::Bust(24)), Outcome::Lost(24));
    assert_eq!(judge_hand(State::Holding(18), State::Holding(19)), Outcome::Won(19));
    assert_eq!(judge_hand(State::Holding(18), State::Holding(18)), Outcome::Lost(18));
    assert_eq!(judge_hand(State::Holding(18), State::Holding(17)), Outcome::Lost(17));
}

#[test]
fn outcomes_wait_for_the_dealer() {
    let states: Vec<HandState> = vec![(10, 1, State::Holding(19)), (20, 2, State::BlackJack)];
    assert_eq!(resolve_outcomes(&states, &[]), vec![]);
    assert_eq!(find_state(1, &states), None);
    assert_eq!(find_state(10, &states), Some(State::Holding(19)));
}

#[test]
fn the_dealer_is_never_compared_with_itself() {
    let states: Vec<HandState> = vec![
        (10, 1, State::Holding(19)),
        (1, 1, State::Holding(20)),
        (11, 1, State::BlackJack),
        (20, 2, State::Holding(20)),
    ];
    assert_eq!(
        resolve_outcomes(&states, &[]),
        vec![(10, Outcome::Lost(19)), (11, Outcome::Won(21))]
    );
}

#[test]
fn a_hand_with_an_outcome_is_passed_over() {
    let states: Vec<HandState> = vec![
        (10, 1, State::Holding(19)),
        (1, 1, State::Bust(26)),
        (11, 1, State::Bust(22)),
    ];
    let recorded: Vec<HandOutcome> = vec![(10, Outcome::Lost(19))];
    assert_eq!(resolve_outcomes(&states, &recorded), vec![(11, Outcome::Won(22))]);
    assert_eq!(get_hand_outcome(10, &recorded), Some(Outcome::Lost(19)));
    assert_eq!(get_hand_outcome(11, &recorded), None);
}

#[test]
fn resolving_twice_adds_nothing() {
    let states: Vec<HandState> = vec![
        (10, 1, State::Holding(19)),
        (1, 1, State::Holding(17)),
        (11, 1, State::Bust(22)),
        (20, 2, State::Holding(20)),
        (21, 2, State::BlackJack),
    ];
    let mut outcomes: Vec<HandOutcome> = vec![(11, Outcome::Lost(22))];
    let first = resolve_outcomes(&states, &outcomes);
    assert_eq!(first, vec![(10, Outcome::Won(19))]);
    outcomes.extend(first);
    assert_eq!(resolve_outcomes(&states, &outcomes), vec![]);
}

#[test]
fn against_a_dealer_blackjack_no_value_is_compared() {
    let states: Vec<HandState> = vec![
        (10, 1, State::Holding(20)),
        (11, 1, State::Bust(25)),
        (1, 1, State::BlackJack),
        (12, 1, State::BlackJack),
    ];
    assert_eq!(
        resolve_outcomes(&states, &[]),
        vec![(10, Outcome::Lost(0)), (11, Outcome::Lost(0)), (12, Outcome::Lost(0))]
    );
}

#[test]
fn against_a_dealer_gone_bust_every_hand_wins_with_the_sentinel() {
    let states: Vec<HandState> = vec![
        (10, 1, State::Holding(12)),
        (1, 1, State::Bust(23)),
        (11, 1, State::BlackJack),
    ];
    assert_eq!(
        resolve_outcomes(&states, &[]),
        vec![(10, Outcome::Won(22)), (11, Outcome::Won(22))]
    );
}
