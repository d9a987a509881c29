use uwubot::codec::{
    encode_scores_text, encode_snapshot_text, load_snapshot, parse_scores_text,
    parse_snapshot_text, save_snapshot, SnapshotError,
};
use uwubot::store::Leaderboard;

#[test]
fn encodes_empty_and_simple_mappings() {
    assert_eq!(encode_scores_text(&vec![]), "{}");
    assert_eq!(encode_scores_text(&vec![(1, 2)]), "{\"1\":2}");
    assert_eq!(encode_scores_text(&vec![(1234, 4), (5678, 2)]), "{\"1234\":4,\"5678\":2}");
    assert_eq!(encode_snapshot_text(&vec![(1, 2)]), "{\"scores\":{\"1\":2}}");
}

#[test]
fn parses_canonical_and_spaced_text() {
    assert_eq!(parse_scores_text("{}"), Some(vec![]));
    assert_eq!(parse_scores_text("{\"1234\":4,\"5678\":2}"), Some(vec![(1234, 4), (5678, 2)]));
    assert_eq!(parse_scores_text(" { \"42\" : 5 , \"99\" : 2 } "), Some(vec![(42, 5), (99, 2)]));
    assert_eq!(parse_scores_text("{\"007\":1}"), Some(vec![(7, 1)]));
}

#[test]
fn parses_the_largest_count() {
    assert_eq!(
        parse_scores_text("{\"1\":18446744073709551615}"),
        Some(vec![(1, 18446744073709551615)])
    );
    assert_eq!(parse_scores_text("{\"1\":18446744073709551616}"), None);
    assert_eq!(parse_scores_text("{\"18446744073709551616\":1}"), None);
}

#[test]
fn rejects_malformed_text() {
    assert_eq!(parse_scores_text(""), None);
    assert_eq!(parse_scores_text("{"), None);
    assert_eq!(parse_scores_text("{\"1\":2"), None);
    assert_eq!(parse_scores_text("{\"1\":2}}"), None);
    assert_eq!(parse_scores_text("{\"1\":-2}"), None);
    assert_eq!(parse_scores_text("{\"1\":2.5}"), None);
    assert_eq!(parse_scores_text("{\"a\":2}"), None);
    assert_eq!(parse_scores_text("{1:2}"), None);
    assert_eq!(parse_scores_text("{\"1\":2,}"), None);
    assert_eq!(parse_scores_text("{\"\":2}"), None);
    assert_eq!(parse_scores_text("not json at all"), None);
}

#[test]
fn rejects_duplicate_users() {
    assert_eq!(parse_scores_text("{\"1\":2,\"1\":3}"), None);
    assert_eq!(parse_scores_text("{\"1\":2,\"01\":3}"), None);
}

#[test]
fn snapshot_text_needs_the_scores_wrapper() {
    assert_eq!(parse_snapshot_text("{\"scores\":{\"1\":2}}"), Some(vec![(1, 2)]));
    assert_eq!(parse_snapshot_text(" { \"scores\" : { } } "), Some(vec![]));
    assert_eq!(parse_snapshot_text("{\"1\":2}"), None);
    assert_eq!(parse_snapshot_text("{\"score\":{\"1\":2}}"), None);
    assert_eq!(parse_snapshot_text("{\"scores\":{\"1\":2}} trailing"), None);
}

#[test]
fn save_then_load_reproduces_the_board() {
    let mut b = Leaderboard::new();
    b.update_score(3, 4);
    b.update_score(1, 1);
    let (count_text, board_text) = save_snapshot(&b);
    assert_eq!(count_text, "5");
    let loaded = load_snapshot(Some(board_text.as_str())).unwrap();
    assert_eq!(loaded.snapshot(), b.snapshot());
    assert_eq!(loaded.total(), 5);
}

#[test]
fn save_then_load_reproduces_the_empty_board() {
    let b = Leaderboard::new();
    let (count_text, board_text) = save_snapshot(&b);
    assert_eq!(count_text, "0");
    assert_eq!(board_text, "{\"scores\":{}}");
    let loaded = load_snapshot(Some(board_text.as_str())).unwrap();
    assert_eq!(loaded.snapshot(), b.snapshot());
}

#[test]
fn missing_storage_starts_empty() {
    let loaded = load_snapshot(None).unwrap();
    assert_eq!(loaded.total(), 0);
    assert_eq!(loaded.len(), 0);
}

#[test]
fn load_reports_each_failure() {
    match load_snapshot(Some("nonsense")) {
        Err(e) => assert_eq!(e, SnapshotError::Malformed),
        Ok(_) => panic!("malformed text must not load"),
    }
    match load_snapshot(Some("{\"scores\":{\"1\":18446744073709551615,\"2\":1}}")) {
        Err(e) => assert_eq!(e, SnapshotError::TotalOverflow),
        Ok(_) => panic!("an overflowing total must not load"),
    }
}
