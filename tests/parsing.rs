use socialgraph::mention::{channel_mention, direct_mention, direct_mention_command, parse_direct_mention, Command};
use socialgraph::text::{display_name, get_label, label_from_graphemes, sanitize_name_for_attachment};

#[test]
fn test_sanitize_name_for_attachment() {
    assert_eq!(sanitize_name_for_attachment("Name_ With & Spaces"), "Name_With_Spaces");
}

#[test]
fn sanitize_keeps_dots_and_dashes() {
    assert_eq!(sanitize_name_for_attachment("my-guild.v2"), "my-guild.v2");
    assert_eq!(sanitize_name_for_attachment("&&a"), "_a");
    assert_eq!(sanitize_name_for_attachment(""), "");
}

#[test]
fn no_command() {
    let id = 735929260073549854u64;
    let input = "wow, check out <@!735929260073549854>!";
    assert_eq!(Command::new_from_message(id, input), None);
}

#[test]
fn basic() {
    let id = 735929260073549854u64;
    let input = "<@!735929260073549854> stats";
    assert_eq!(Command::new_from_message(id, input), Some(Command::Stats));
}

#[test]
fn quoted() {
    let id = 735929260073549854u64;
    let input = "> hello\n<@!735929260073549854> stats";
    assert_eq!(Command::new_from_message(id, input), Some(Command::Stats));
}

#[test]
fn unknown() {
    let id = 735929260073549854u64;
    let input = "<@!735929260073549854> foobar";
    assert_eq!(
        Command::new_from_message(id, input),
        Some(Command::Unknown("foobar".to_string()))
    );
}

#[test]
fn graph_channel() {
    let id = 735929260073549854u64;
    let input = "<@!735929260073549854> graph <#335290997317697536>";
    assert_eq!(
        Command::new_from_message(id, input),
        Some(Command::Graph(Some(335290997317697536)))
    );
}

#[test]
fn command_words() {
    let id = 7u64;
    assert_eq!(Command::new_from_message(id, "<@7> help"), Some(Command::Help));
    assert_eq!(Command::new_from_message(id, "<@7> about"), Some(Command::Help));
    assert_eq!(Command::new_from_message(id, "<@7> invite"), Some(Command::Help));
    assert_eq!(Command::new_from_message(id, "<@7> link"), Some(Command::Link));
    assert_eq!(Command::new_from_message(id, "<@7> dump"), Some(Command::Dump));
    assert_eq!(Command::new_from_message(id, "<@7> graph"), Some(Command::Graph(None)));
    assert_eq!(Command::new_from_message(id, "<@7>"), Some(Command::Unknown(String::new())));
    assert_eq!(Command::new_from_message(8, "<@7> help"), None);
}

#[test]
fn user_mention() {
    let result = socialgraph::mention::user_mention("<@735929260073549854>");
    assert_eq!(result, Some(("", 735929260073549854u64)));
}

#[test]
fn user_nickname_mention() {
    let result = socialgraph::mention::user_mention("<@!735929260073549854>");
    assert_eq!(result, Some(("", 735929260073549854u64)));
}

#[test]
fn consume_quote() {
    let result = socialgraph::mention::consume_quote("> foo\n> bar\nfoobar");
    assert_eq!(result, "foobar");
}

#[test]
fn simple_command() {
    let id = 735929260073549854u64;
    let result = direct_mention_command("<@!735929260073549854> cache", id);
    assert_eq!(result, Some(("", "cache")));
}

#[test]
fn simple_command_args() {
    let id = 735929260073549854u64;
    let result = direct_mention_command("<@!735929260073549854> cache status check", id);
    assert_eq!(result, Some(("status check", "cache")));
}

#[test]
fn reply_command() {
    let id = 735929260073549854u64;
    let result = direct_mention_command("> foo\n<@!735929260073549854> cache", id);
    assert_eq!(result, Some(("", "cache")));
}

#[test]
fn wrong_user() {
    let id = 735929260073549854u64;
    let result = direct_mention_command("<@!298220148647526402> hello!", id);
    assert!(result.is_none());
}

#[test]
fn command_trailing_lines() {
    let id = 735929260073549854u64;
    let result = direct_mention_command("<@!735929260073549854> cache\nfoobar", id);
    assert!(result.is_none());
}

#[test]
fn test_simple() {
    let message = "<@!766407857851072512> hello";
    let mention = parse_direct_mention(message);
    assert_eq!(mention, Some(766407857851072512));
}

#[test]
fn test_quoted() {
    let message = "> <@!766407857851072512> hello\n<@298220148647526402> test";
    let mention = parse_direct_mention(message);
    assert_eq!(mention, Some(298220148647526402));
}

#[test]
fn test_multi_quote() {
    let message = "> test\n> test\n<@!766407857851072512> test";
    let mention = parse_direct_mention(message);
    assert_eq!(mention, Some(766407857851072512));
}

#[test]
fn mention_edge_cases() {
    assert_eq!(parse_direct_mention("<@0> hi"), None);
    assert_eq!(parse_direct_mention("<@99999999999999999999> hi"), None);
    assert_eq!(parse_direct_mention("hi <@5>"), None);
    assert_eq!(parse_direct_mention("> quote\r\n<@5> hi"), Some(5));
    assert_eq!(parse_direct_mention("<@!!5>"), None);
    assert_eq!(channel_mention("<#12> rest"), Some((" rest", 12)));
    assert_eq!(channel_mention("<#!12>"), None);
    assert_eq!(direct_mention("> a\n<@3>x"), Some(("x", 3)));
}

#[test]
fn labels() {
    assert_eq!(get_label("short".to_string()), "short");
    assert_eq!(get_label("ninechars".to_string()), "ninechars");
    assert_eq!(get_label("tencharsxx".to_string()), "tencha...");
    assert_eq!(get_label("e\u{301}e\u{301}e\u{301}e\u{301}e\u{301}e\u{301}e\u{301}e\u{301}e\u{301}".to_string()).chars().count(), 18);
    let graphemes: Vec<String> = "abcdefghij".chars().map(|c| c.to_string()).collect();
    assert_eq!(label_from_graphemes("abcdefghij".to_string(), &graphemes), "abcdef...");
}

#[test]
fn display_names() {
    assert_eq!(display_name(Some("Nick"), "name", 42), "\"Nick\" (name#0042)");
    assert_eq!(display_name(None, "name", 12345), "\"name\" (name#12345)");
    assert_eq!(display_name(None, "x", 0), "\"x\" (x#0000)");
}
