use uwubot::commands::{uwuexport, uwulead, uwume, uwumeeter, uwureset};
use uwubot::store::Leaderboard;

#[test]
fn meter_shows_the_total() {
    let mut b = Leaderboard::new();
    assert_eq!(uwumeeter::run(&b), "UwU meter: 0");
    b.update_score(1, 3);
    b.update_score(2, 1);
    assert_eq!(uwumeeter::run(&b), "UwU meter: 4");
}

#[test]
fn leaderboard_lists_ranked_mentions() {
    let mut b = Leaderboard::new();
    assert_eq!(uwulead::run(&b), "UwU Leaderboard:\n");
    b.update_score(2, 1);
    b.update_score(1, 3);
    assert_eq!(uwulead::run(&b), "UwU Leaderboard:\n<@1>: 3\n<@2>: 1\n");
}

#[test]
fn leaderboard_shows_at_most_ten() {
    let mut b = Leaderboard::new();
    for user in 1..=12u64 {
        b.update_score(user, user);
    }
    let text = uwulead::run(&b);
    assert_eq!(text.matches("<@").count(), 10);
    assert!(text.starts_with("UwU Leaderboard:\n<@12>: 12\n<@11>: 11\n"));
    assert!(!text.contains("<@2>: 2\n"));
}

#[test]
fn personal_score_mentions_the_invoker() {
    let mut b = Leaderboard::new();
    assert_eq!(uwume::run(&b, 9), "<@9>: 0\n");
    b.update_score(9, 2);
    assert_eq!(uwume::run(&b, 9), "<@9>: 2\n");
}

#[test]
fn export_writes_the_mapping_as_json() {
    let mut b = Leaderboard::new();
    assert_eq!(uwuexport::run(&b), "{}");
    b.update_score(1, 3);
    b.update_score(2, 1);
    assert_eq!(uwuexport::run(&b), "{\"1\":3,\"2\":1}");
}

#[test]
fn reset_replaces_the_board_and_confirms() {
    let mut b = Leaderboard::new();
    b.update_score(1, 9);
    let (reply, changed) = uwureset::run(&mut b, Some("{\"42\": 5, \"99\": 2}"), true);
    assert!(changed);
    assert_eq!(reply, "New Uwu meeter: 7");
    assert_eq!(b.total(), 7);
    assert_eq!(b.get(42), 5);
    assert_eq!(b.get(1), 0);
    assert_eq!(b.top_n(2), vec![(42, 5), (99, 2)]);
}

#[test]
fn reset_with_an_export_reproduces_the_board() {
    let mut b = Leaderboard::new();
    b.update_score(8, 2);
    b.update_score(3, 6);
    let exported = uwuexport::run(&b);
    let mut copy = Leaderboard::new();
    let (_, changed) = uwureset::run(&mut copy, Some(exported.as_str()), true);
    assert!(changed);
    assert_eq!(copy.snapshot(), b.snapshot());
}

#[test]
fn reset_with_invalid_json_changes_nothing() {
    let mut b = Leaderboard::new();
    b.update_score(1, 3);
    let before = b.snapshot();
    let before_text = uwuexport::run(&b);
    let (reply, changed) = uwureset::run(&mut b, Some("{\"1\":"), true);
    assert!(!changed);
    assert_eq!(reply, "Error parsing the leaderboard. Nothing changed.");
    assert_eq!(b.snapshot(), before);
    assert_eq!(uwuexport::run(&b), before_text);
}

#[test]
fn reset_without_option_changes_nothing() {
    let mut b = Leaderboard::new();
    b.update_score(1, 3);
    let before = b.snapshot();
    let (reply, changed) = uwureset::run(&mut b, None, true);
    assert!(!changed);
    assert_eq!(reply, "The leaderboard must be a string in the command's argument. Nothing changed.");
    assert_eq!(b.snapshot(), before);
}

#[test]
fn reset_requires_an_administrator() {
    let mut b = Leaderboard::new();
    b.update_score(1, 3);
    let before = b.snapshot();
    let (reply, changed) = uwureset::run(&mut b, Some("{\"42\":5}"), false);
    assert!(!changed);
    assert_eq!(reply, "You must be an admin to run this command.");
    assert_eq!(b.snapshot(), before);
}

#[test]
fn reset_rejects_an_overflowing_total() {
    let mut b = Leaderboard::new();
    b.update_score(1, 3);
    let before = b.snapshot();
    let (reply, changed) =
        uwureset::run(&mut b, Some("{\"1\":18446744073709551615,\"2\":1}"), true);
    assert!(!changed);
    assert_eq!(reply, "The new counts sum beyond the counter's range. Nothing changed.");
    assert_eq!(b.snapshot(), before);
}

#[test]
fn registrations_carry_the_command_surface() {
    let meter = uwumeeter::register();
    assert_eq!(meter.name, "uwumeeter");
    assert_eq!(meter.description, "Display the total of UwU");
    assert!(meter.options.is_empty());

    let lead = uwulead::register();
    assert_eq!(lead.name, "uwulead");
    assert_eq!(lead.description, "Display the UwU leaderboard");
    assert!(lead.options.is_empty());

    let me = uwume::register();
    assert_eq!(me.name, "uwume");
    assert_eq!(me.description, "Display your UwU count");
    assert!(me.options.is_empty());

    let export = uwuexport::register();
    assert_eq!(export.name, "uwuexport");
    assert_eq!(export.description, "Export the leaderbord to the chat.");
    assert!(export.options.is_empty());

    let reset = uwureset::register();
    assert_eq!(reset.name, "uwureset");
    assert_eq!(reset.description, "Reset the current ladder with the given leaderbord (JSON)");
    assert_eq!(reset.options.len(), 1);
    assert_eq!(reset.options[0].name, "newleaderboard");
    assert_eq!(
        reset.options[0].description,
        "A JSON file. Must be in this structure: {\"1234\":4, \"5678\":2}"
    );
    assert!(reset.options[0].required);
}
