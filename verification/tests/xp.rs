use labyrinth_tournament::Difficulty;

#[test]
fn base_xp_per_difficulty() {
    assert_eq!(Difficulty::Easy.base_xp(), 75);
    assert_eq!(Difficulty::Medium.base_xp(), 100);
    assert_eq!(Difficulty::Hard.base_xp(), 125);
    assert_eq!(Difficulty::Nightmare.base_xp(), 150);
}

#[test]
fn medium_one_minute_no_deaths() {
    assert_eq!(Difficulty::Medium.calculate_xp(60_000, 0, true), 250);
}

#[test]
fn hard_slow_with_capped_deaths() {
    assert_eq!(Difficulty::Hard.calculate_xp(180_000, 10, true), 125);
}

#[test]
fn easy_unfinished_run() {
    assert_eq!(Difficulty::Easy.calculate_xp(500_000, 0, false), 75);
    assert_eq!(Difficulty::Easy.calculate_xp(500_000, 6, false), 37);
}

#[test]
fn xp_is_bounded() {
    assert_eq!(Difficulty::Nightmare.calculate_xp(0, 0, true), 450);
    assert_eq!(Difficulty::Nightmare.calculate_xp(999, 0, true), 450);
    assert_eq!(Difficulty::Easy.calculate_xp(u64::MAX, u32::MAX, false), 37);
    assert_eq!(Difficulty::Easy.calculate_xp(119_999, 1, true), 135);
}
