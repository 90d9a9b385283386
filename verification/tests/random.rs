use minesweeper::random::distinct_below;

#[test]
fn distinct_below_draws_different_numbers_in_range() {
    for count in 0..=20usize {
        let mut chosen = distinct_below(count, 20);
        assert_eq!(chosen.len(), count);
        assert!(chosen.iter().all(|&n| n < 20));
        chosen.sort_unstable();
        chosen.dedup();
        assert_eq!(chosen.len(), count);
    }
}

#[test]
fn distinct_below_draws_everything_when_asked_for_all() {
    let mut chosen = distinct_below(7, 7);
    chosen.sort_unstable();
    assert_eq!(chosen, vec![0, 1, 2, 3, 4, 5, 6]);
    assert_eq!(distinct_below(0, 0), vec![]);
}

#[test]
fn distinct_below_reaches_every_number() {
    let mut seen = [false; 6];
    for _ in 0..400 {
        for n in distinct_below(2, 6) {
            seen[n] = true;
        }
    }
    assert_eq!(seen, [true; 6]);
}
