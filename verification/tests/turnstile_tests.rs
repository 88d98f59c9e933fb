use regexp::turnstile::{next_state, state_to_str, Event, State};

#[test]
fn test() {
    let lines = ["coin", "push", "coin", "coin", "push", "push"];
    let states = [
        "Unlocked", "Locked", "Unlocked", "Unlocked", "Locked", "Locked",
    ];

    let mut state = State::Locked;
    for (i, &line) in lines.iter().enumerate() {
        match line {
            "coin" => state = next_state(state, Event::Coin),
            "push" => state = next_state(state, Event::Push),
            _ => assert!(false),
        }
        assert_eq!(state_to_str(&state), states[i]);
    }
}

#[test]
fn coin_always_unlocks() {
    assert_eq!(next_state(State::Locked, Event::Coin), State::Unlocked);
    assert_eq!(next_state(State::Unlocked, Event::Coin), State::Unlocked);
    assert_eq!(next_state(State::Locked, Event::Push), State::Locked);
    assert_eq!(next_state(State::Unlocked, Event::Push), State::Locked);
}

#[test]
fn guess_round_trip() {
    let g = regexp::guess::Guess::new(42);
    assert_eq!(g.value(), 42);
    assert_eq!(regexp::guess::Guess::new(1).value(), 1);
    assert_eq!(regexp::guess::Guess::new(100).value(), 100);
}
