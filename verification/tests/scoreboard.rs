use uwubot::store::Leaderboard;

#[test]
fn empty_board_reads_zero() {
    let b = Leaderboard::new();
    assert_eq!(b.total(), 0);
    assert_eq!(b.get(7), 0);
    assert_eq!(b.len(), 0);
    let (total, entries) = b.snapshot();
    assert_eq!(total, 0);
    assert!(entries.is_empty());
}

#[test]
fn total_tracks_sum_of_counts() {
    let mut b = Leaderboard::new();
    b.update_score(1, 1);
    b.update_score(2, 4);
    b.update_score(1, 2);
    b.update_score(3, 0);
    assert_eq!(b.get(1), 3);
    assert_eq!(b.get(2), 4);
    assert_eq!(b.get(3), 0);
    assert_eq!(b.total(), b.get(1) + b.get(2) + b.get(3));
    assert_eq!(b.total(), 7);
}

#[test]
fn increment_scenario_two_users() {
    let mut b = Leaderboard::new();
    let user_a = 10;
    let user_b = 20;
    b.update_score(user_a, 1);
    b.update_score(user_a, 1);
    b.update_score(user_a, 1);
    b.update_score(user_b, 1);
    assert_eq!(b.get(user_a), 3);
    assert_eq!(b.get(user_b), 1);
    assert_eq!(b.total(), 4);
    assert_eq!(b.top_n(1), vec![(user_a, 3)]);
}

#[test]
fn replace_all_installs_exactly_the_new_mapping() {
    let mut b = Leaderboard::new();
    b.update_score(1, 9);
    b.update_score(2, 9);
    b.replace_all(vec![(42, 5), (99, 2)]);
    let (total, entries) = b.snapshot();
    assert_eq!(total, 7);
    assert_eq!(entries, vec![(42, 5), (99, 2)]);
    assert_eq!(b.get(1), 0);
    assert_eq!(b.get(42), 5);
}

#[test]
fn top_n_sorts_by_count_then_user() {
    let mut b = Leaderboard::new();
    b.update_score(5, 2);
    b.update_score(3, 2);
    b.update_score(7, 1);
    b.update_score(1, 4);
    assert_eq!(b.top_n(10), vec![(1, 4), (3, 2), (5, 2), (7, 1)]);
    assert_eq!(b.top_n(2), vec![(1, 4), (3, 2)]);
    assert_eq!(b.top_n(0), vec![]);
}

#[test]
fn top_n_is_deterministic_on_ties() {
    let mut a = Leaderboard::new();
    a.update_score(9, 1);
    a.update_score(4, 1);
    a.update_score(6, 1);
    // Equal counts always come out by ascending user identifier.
    assert_eq!(a.top_n(3), vec![(4, 1), (6, 1), (9, 1)]);
}

#[test]
fn snapshot_does_not_alias_live_state() {
    let mut b = Leaderboard::new();
    b.update_score(1, 2);
    let (_, mut entries) = b.snapshot();
    entries.push((8, 8));
    assert_eq!(b.len(), 1);
    assert_eq!(b.get(8), 0);
}
