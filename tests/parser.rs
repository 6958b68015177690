use mudcode::chunk::{split_message_for_discord, DISCORD_MAX_MESSAGE_LENGTH};
use mudcode::paths::extract_file_paths;
use mudcode::strip::strip_file_paths;

#[test]
fn split_short_message_under_limit() {
    let msg = "Hello, world!";
    let chunks = split_message_for_discord(msg);
    assert_eq!(chunks, vec![msg]);
}

#[test]
fn split_message_exactly_2000_chars() {
    let msg = "a".repeat(DISCORD_MAX_MESSAGE_LENGTH);
    let chunks = split_message_for_discord(&msg);
    assert_eq!(chunks.len(), 1);
    assert_eq!(chunks[0].chars().count(), DISCORD_MAX_MESSAGE_LENGTH);
}

#[test]
fn split_message_just_over_limit() {
    let msg = "a".repeat(DISCORD_MAX_MESSAGE_LENGTH + 1);
    let chunks = split_message_for_discord(&msg);
    assert_eq!(chunks.len(), 2);
    assert_eq!(chunks[0].chars().count(), DISCORD_MAX_MESSAGE_LENGTH);
    assert_eq!(chunks[1].chars().count(), 1);
}

#[test]
fn split_multibyte_only_content_without_panics() {
    let msg = "🦀".repeat(2500);
    let chunks = split_message_for_discord(&msg);
    assert_eq!(chunks.len(), 2);
    assert_eq!(chunks[0].chars().count(), DISCORD_MAX_MESSAGE_LENGTH);
    assert_eq!(chunks[1].chars().count(), 500);
    assert_eq!(chunks.concat(), msg);
}

#[test]
fn split_prefer_newline_break() {
    let msg = format!("{}\n{}", "a".repeat(1500), "b".repeat(500));
    let chunks = split_message_for_discord(&msg);
    assert_eq!(chunks.len(), 2);
    assert!(chunks[0].ends_with('\n'));
    assert!(chunks[1].starts_with('b'));
}

#[test]
fn extract_file_paths_deduplicates() {
    let text = "See `/tmp/a.png` and again /tmp/a.png and /tmp/b.pdf";
    let paths = extract_file_paths(text);
    assert_eq!(
        paths,
        vec!["/tmp/a.png".to_string(), "/tmp/b.pdf".to_string()]
    );
}

#[test]
fn strip_file_paths_removes_backticks_and_plain_paths() {
    let path = "/tmp/project/.mudcode/files/out.png".to_string();
    let text = format!("Result: `{}` then {}", path, path);
    let stripped = strip_file_paths(&text, std::slice::from_ref(&path));
    assert!(!stripped.contains(&path));
    assert!(stripped.contains("Result:"));
}
