use uwubot::events::{contains_keyword, handle_event, GatewayEvent};
use uwubot::store::Leaderboard;

fn message(author: u64, author_is_bot: bool, content: &str) -> GatewayEvent {
    GatewayEvent::Message {
        author,
        author_is_bot,
        content: String::from(content),
    }
}

fn command(name: &str, invoker: u64, invoker_is_admin: bool, option: Option<&str>) -> GatewayEvent {
    GatewayEvent::Command {
        name: String::from(name),
        invoker,
        invoker_is_admin,
        option: option.map(String::from),
    }
}

#[test]
fn keyword_matching_is_case_insensitive_substring() {
    assert!(contains_keyword("uwu"));
    assert!(contains_keyword("UwU"));
    assert!(contains_keyword("UWU!!"));
    assert!(contains_keyword("what an uWu moment"));
    assert!(!contains_keyword(""));
    assert!(!contains_keyword("uw"));
    assert!(!contains_keyword("u w u"));
    assert!(!contains_keyword("owo"));
    assert!(!contains_keyword("ÜwÜ"));
    assert!(contains_keyword("ünuwu"));
}

#[test]
fn matching_message_counts_once_and_saves() {
    let mut b = Leaderboard::new();
    let out = handle_event(&mut b, &message(5, false, "uwu uwu UWU"));
    assert_eq!(b.total(), 1);
    assert_eq!(b.get(5), 1);
    assert!(out.reply.is_none());
    let saved = out.save.expect("a mutation must be persisted");
    assert_eq!(saved.count_text, "1");
    assert_eq!(saved.board_text, "{\"scores\":{\"5\":1}}");
}

#[test]
fn bot_message_with_keyword_changes_nothing() {
    let mut b = Leaderboard::new();
    b.update_score(1, 2);
    let before = b.snapshot();
    let out = handle_event(&mut b, &message(5, true, "uwu"));
    assert_eq!(b.snapshot(), before);
    assert_eq!(b.total(), 2);
    assert!(out.reply.is_none());
    assert!(out.save.is_none());
}

#[test]
fn message_without_keyword_changes_nothing() {
    let mut b = Leaderboard::new();
    let out = handle_event(&mut b, &message(5, false, "hello there"));
    assert_eq!(b.total(), 0);
    assert!(out.reply.is_none());
    assert!(out.save.is_none());
}

#[test]
fn commands_are_routed_to_their_handlers() {
    let mut b = Leaderboard::new();
    handle_event(&mut b, &message(5, false, "uwu"));
    handle_event(&mut b, &message(6, false, "uwu"));
    handle_event(&mut b, &message(5, false, "uwu"));

    let out = handle_event(&mut b, &command("uwumeeter", 9, false, None));
    assert_eq!(out.reply.unwrap(), "UwU meter: 3");

    let out = handle_event(&mut b, &command("uwulead", 9, false, None));
    assert_eq!(out.reply.unwrap(), "UwU Leaderboard:\n<@5>: 2\n<@6>: 1\n");

    let out = handle_event(&mut b, &command("uwume", 6, false, None));
    assert_eq!(out.reply.unwrap(), "<@6>: 1\n");

    let out = handle_event(&mut b, &command("uwuexport", 9, false, None));
    assert_eq!(out.reply.unwrap(), "{\"5\":2,\"6\":1}");
}

#[test]
fn read_only_commands_do_not_save() {
    let mut b = Leaderboard::new();
    handle_event(&mut b, &message(5, false, "uwu"));
    for name in ["uwumeeter", "uwulead", "uwume", "uwuexport"] {
        let out = handle_event(&mut b, &command(name, 9, false, None));
        assert!(out.save.is_none());
    }
    assert_eq!(b.total(), 1);
}

#[test]
fn reset_command_saves_the_new_board() {
    let mut b = Leaderboard::new();
    let out = handle_event(&mut b, &command("uwureset", 9, true, Some("{\"42\": 5, \"99\": 2}")));
    assert_eq!(out.reply.unwrap(), "New Uwu meeter: 7");
    let saved = out.save.expect("a successful reset must be persisted");
    assert_eq!(saved.count_text, "7");
    assert_eq!(saved.board_text, "{\"scores\":{\"42\":5,\"99\":2}}");
    assert_eq!(b.top_n(2), vec![(42, 5), (99, 2)]);
}

#[test]
fn failed_reset_neither_changes_nor_saves() {
    let mut b = Leaderboard::new();
    b.update_score(1, 2);
    let before = b.snapshot();

    let out = handle_event(&mut b, &command("uwureset", 9, true, Some("broken{")));
    assert_eq!(out.reply.unwrap(), "Error parsing the leaderboard. Nothing changed.");
    assert!(out.save.is_none());
    assert_eq!(b.snapshot(), before);

    let out = handle_event(&mut b, &command("uwureset", 9, false, Some("{\"1\":1}")));
    assert_eq!(out.reply.unwrap(), "You must be an admin to run this command.");
    assert!(out.save.is_none());
    assert_eq!(b.snapshot(), before);
}

#[test]
fn unknown_commands_get_a_graceful_reply() {
    let mut b = Leaderboard::new();
    let before = b.snapshot();
    let out = handle_event(&mut b, &command("uwudance", 9, true, None));
    assert_eq!(out.reply.unwrap(), "Unsupported command.");
    assert!(out.save.is_none());
    assert_eq!(b.snapshot(), before);
}
