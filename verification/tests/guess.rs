use bit_templates::guess::{Game, Hint, HIGHEST, LOWEST};

#[test]
fn a_guess_is_too_small_too_big_or_right() {
    let game = Game::with_secret(42).unwrap();
    assert_eq!(game.secret(), 42);
    assert_eq!(game.judge(0), Hint::TooSmall);
    assert_eq!(game.judge(41), Hint::TooSmall);
    assert_eq!(game.judge(42), Hint::YouWin);
    assert_eq!(game.judge(43), Hint::TooBig);
    assert_eq!(game.judge(u32::MAX), Hint::TooBig);
}

#[test]
fn the_secret_is_a_number_from_one_to_a_hundred() {
    assert_eq!((LOWEST, HIGHEST), (1, 100));
    assert!(Game::with_secret(0).is_none());
    assert!(Game::with_secret(1).is_some());
    assert!(Game::with_secret(100).is_some());
    assert!(Game::with_secret(101).is_none());
}

#[test]
fn a_drawn_secret_is_in_range_and_varies() {
    let secrets: Vec<u32> = (0..400).map(|_| Game::start().secret()).collect();
    assert!(secrets.iter().all(|s| LOWEST <= *s && *s <= HIGHEST));
    assert!(secrets.iter().any(|s| *s != secrets[0]));
    assert!(secrets.iter().any(|s| *s != LOWEST));
    assert!(secrets.iter().any(|s| *s != HIGHEST + 1));
}
