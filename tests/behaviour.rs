use mudcode::chunk::split_message_for_discord;
use mudcode::config::{choose_port, choose_token, normalize_discord_token};
use mudcode::confine::select_confined;
use mudcode::dispatch::{
    attachment_content, check_valid_files, event_action, idle_messages, route_event, route_send_files, EventAction,
};
use mudcode::event::{OpencodeEvent, SendFilesEvent};
use mudcode::paths::extract_file_paths;
use mudcode::state::{BridgeState, ProjectInstance, ProjectState};
use mudcode::strip::strip_file_paths;
use mudcode::text::trimmed;

fn event(kind: Option<&str>, text: Option<&str>, message: Option<&str>, turn: Option<&str>) -> OpencodeEvent {
    OpencodeEvent {
        project_name: Some(" proj ".to_string()),
        agent_type: Some("gemini".to_string()),
        instance_id: None,
        event_type: kind.map(|s| s.to_string()),
        text: text.map(|s| s.to_string()),
        message: message.map(|s| s.to_string()),
        turn_text: turn.map(|s| s.to_string()),
    }
}

fn state() -> BridgeState {
    BridgeState {
        projects: vec![(
            "proj".to_string(),
            ProjectState {
                project_path: Some("/work/proj".to_string()),
                instances: vec![(
                    "gemini".to_string(),
                    ProjectInstance {
                        instance_id: None,
                        agent_type: Some("gemini".to_string()),
                        channel_id: Some("ch-1".to_string()),
                    },
                )],
                discord_channels: vec![],
            },
        )],
    }
}

#[test]
fn chunks_rebuild_long_text_within_limit() {
    let mut msg = String::new();
    for i in 0..700 {
        msg.push_str(&format!("word{} ", i));
        if i % 37 == 0 {
            msg.push('\n');
        }
    }
    let chunks = split_message_for_discord(&msg);
    assert!(chunks.len() >= 3);
    assert_eq!(chunks.concat(), msg);
    for c in &chunks {
        assert!(c.chars().count() <= 2000);
        assert!(!c.is_empty());
    }
}

#[test]
fn short_text_is_one_chunk_and_empty_text_none() {
    let msg = "line one\nline two";
    assert_eq!(split_message_for_discord(msg), vec![msg]);
    assert!(split_message_for_discord("").is_empty());
}

#[test]
fn early_newline_gives_way_to_last_space() {
    let msg = format!("{}\n{} {}", "a".repeat(10), "b".repeat(1500), "c".repeat(1000));
    let chunks = split_message_for_discord(&msg);
    assert_eq!(chunks.len(), 2);
    assert_eq!(chunks[0].chars().count(), 10 + 1 + 1500 + 1);
    assert!(chunks[0].ends_with(' '));
    assert_eq!(chunks[1], "c".repeat(1000));
}

#[test]
fn extraction_recognises_delimiters_and_case() {
    let text = "Saved (/tmp/Shot.PNG). Report: \"/data/r.pdf\", raw /x/y.txt!";
    assert_eq!(
        extract_file_paths(text),
        vec!["/tmp/Shot.PNG".to_string(), "/data/r.pdf".to_string(), "/x/y.txt".to_string()]
    );
}

#[test]
fn extraction_skips_unknown_types_and_relative_paths() {
    assert!(extract_file_paths("see /tmp/a.exe and tmp/b.png and x/c.png").is_empty());
    assert_eq!(extract_file_paths("/a.b.png.json"), vec!["/a.b.png.json".to_string()]);
}

#[test]
fn extraction_shares_a_delimiter_between_paths() {
    assert_eq!(
        extract_file_paths("/tmp/a.png /tmp/b.png"),
        vec!["/tmp/a.png".to_string(), "/tmp/b.png".to_string()]
    );
}

#[test]
fn extraction_folds_long_s() {
    assert_eq!(extract_file_paths("/t/x.\u{17f}vg"), vec!["/t/x.\u{17f}vg".to_string()]);
}

#[test]
fn extraction_paths_are_unique_and_in_text() {
    let text = "/a/1.png /a/2.png  /a/1.png\n[/a/3.csv]";
    let paths = extract_file_paths(text);
    assert_eq!(
        paths,
        vec!["/a/1.png".to_string(), "/a/2.png".to_string(), "/a/3.csv".to_string()]
    );
    for p in &paths {
        assert!(text.contains(p.as_str()));
    }
}

#[test]
fn strip_removes_image_references() {
    let path = "/tmp/a.png".to_string();
    let out = strip_file_paths("Look: ![shot](/tmp/a.png) done", std::slice::from_ref(&path));
    assert_eq!(out, "Look:  done");
}

#[test]
fn strip_collapses_newlines_and_empties_blank_lines() {
    let path = "/tmp/a.png".to_string();
    let out = strip_file_paths("top\n/tmp/a.png\n\n\nbottom\n  \t\nend", std::slice::from_ref(&path));
    assert_eq!(out, "top\n\nbottom\n\nend");
}

#[test]
fn strip_of_extracted_paths_leaves_none() {
    let text = "Made `/w/out.png` and /w/data.csv.\n\n\n![p](/w/out.png)";
    let paths = extract_file_paths(text);
    let out = strip_file_paths(text, &paths);
    for p in &paths {
        assert!(!out.contains(p.as_str()));
    }
    assert!(!out.contains("\n\n\n"));
}

#[test]
fn confinement_keeps_only_files_under_root() {
    let cands = vec![
        "a.png".to_string(),
        "/elsewhere/b.png".to_string(),
        "/work/projx/c.png".to_string(),
        "missing.png".to_string(),
        "/work/proj".to_string(),
    ];
    let canon = vec![
        Some("/work/proj/a.png".to_string()),
        Some("/elsewhere/b.png".to_string()),
        Some("/work/projx/c.png".to_string()),
        None,
        Some("/work/proj".to_string()),
    ];
    assert_eq!(
        select_confined(&cands, &canon, Some("/work/proj")),
        vec!["a.png".to_string(), "/work/proj".to_string()]
    );
    assert!(select_confined(&cands, &canon, None).is_empty());
    assert_eq!(select_confined(&cands, &canon, Some("/")).len(), 4);
}

#[test]
fn token_normalization_variants() {
    assert_eq!(normalize_discord_token("  \"Bearer  a b\tc\"  "), "abc");
    assert_eq!(normalize_discord_token("BOT x.y"), "x.y");
    assert_eq!(normalize_discord_token("'unbalanced\""), "'unbalanced\"");
    assert_eq!(normalize_discord_token("robot x"), "robotx");
}

#[test]
fn trimming_uses_unicode_whitespace() {
    assert_eq!(trimmed("\u{3000} a b\u{a0}\n"), "a b");
}

#[test]
fn send_files_routing_errors() {
    let st = state();
    let mut ev = SendFilesEvent {
        project_name: Some("  ".to_string()),
        agent_type: None,
        instance_id: None,
        files: vec!["/work/proj/a.png".to_string()],
    };
    let e = route_send_files(&ev, &st).err().unwrap();
    assert_eq!((e.status, e.body.as_str()), (400, "Missing projectName"));
    ev.project_name = Some("proj".to_string());
    let e = route_send_files(&ev, &st).err().unwrap();
    assert_eq!((e.status, e.body.as_str()), (404, "No channel found for project/agent"));
    ev.agent_type = Some("gemini".to_string());
    let t = route_send_files(&ev, &st).ok().unwrap();
    assert_eq!(t.channel_id, "ch-1");
    assert_eq!(t.project_path.as_deref(), Some("/work/proj"));
    ev.project_name = Some("other".to_string());
    let e = route_send_files(&ev, &st).err().unwrap();
    assert_eq!((e.status, e.body.as_str()), (404, "Project not found"));
    ev.files = vec![];
    let e = route_send_files(&ev, &st).err().unwrap();
    assert_eq!((e.status, e.body.as_str()), (400, "No files provided"));
    let e = check_valid_files(&[]).err().unwrap();
    assert_eq!((e.status, e.body.as_str()), (400, "No valid files"));
    assert!(check_valid_files(&["x".to_string()]).is_ok());
}

#[test]
fn event_routing() {
    let st = state();
    assert_eq!(route_event(&event(None, None, None, None), &st).ok().unwrap(), "ch-1");
    let mut ev = event(None, None, None, None);
    ev.agent_type = None;
    let e = route_event(&ev, &st).err().unwrap();
    assert_eq!((e.status, e.body.as_str()), (400, "Invalid event payload"));
}

#[test]
fn event_actions() {
    match event_action(&event(Some("session.error"), None, Some(" boom "), None)) {
        EventAction::ReportError { content } => {
            assert_eq!(content, "⚠️ OpenCode session error: boom")
        }
        _ => panic!("expected an error report"),
    }
    match event_action(&event(Some("session.error"), None, None, None)) {
        EventAction::ReportError { content } => {
            assert_eq!(content, "⚠️ OpenCode session error: unknown error")
        }
        _ => panic!("expected an error report"),
    }
    match event_action(&event(Some(" session.idle "), Some(" hi "), None, Some("turn /a.png"))) {
        EventAction::Deliver { visible, search } => {
            assert_eq!(visible, "hi");
            assert_eq!(search, "turn /a.png");
        }
        _ => panic!("expected a delivery"),
    }
    assert!(matches!(
        event_action(&event(Some("session.idle"), Some("  "), None, None)),
        EventAction::Ignore
    ));
    assert!(matches!(
        event_action(&event(Some("session.start"), Some("x"), None, None)),
        EventAction::Ignore
    ));
}

#[test]
fn idle_messages_strip_files_and_skip_blank_chunks() {
    let files = vec!["/w/a.png".to_string()];
    assert!(idle_messages("/w/a.png", &files).is_empty());
    assert_eq!(idle_messages("Done: /w/a.png", &files), vec!["Done: ".to_string()]);
    assert_eq!(idle_messages("Done: /w/a.png", &[]), vec!["Done: /w/a.png".to_string()]);
}

#[test]
fn strip_removes_a_path_rebuilt_from_its_pieces() {
    // removing the bare path once joins the text around it into the same path
    let text = "/a.png x/a/a.png.png";
    let paths = extract_file_paths(text);
    assert_eq!(paths, vec!["/a.png".to_string()]);
    assert_eq!(strip_file_paths(text, &paths), " x");
}

#[test]
fn strip_collapses_newlines_left_by_emptied_lines() {
    assert_eq!(strip_file_paths("a\n\n \n\nb", &[]), "a\n\nb");
    let path = "/p/x.png".to_string();
    let out = strip_file_paths("a\n\n   /p/x.png\n\nb", std::slice::from_ref(&path));
    assert_eq!(out, "a\n\nb");
}

#[test]
fn accessors_trim_and_default() {
    let ev = event(Some("  "), None, None, Some("  "));
    assert_eq!(ev.project_name(), Some("proj"));
    assert_eq!(ev.event_type(), None);
    assert_eq!(ev.turn_text(), None);
    assert_eq!(ev.instance_id(), None);
    let files = SendFilesEvent {
        project_name: None,
        agent_type: Some(" \t".to_string()),
        instance_id: Some(" i-1 ".to_string()),
        files: vec![],
    };
    assert_eq!(files.project_name(), None);
    assert_eq!(files.agent_type(), "opencode");
    assert_eq!(files.instance_id(), Some("i-1"));
}

#[test]
fn token_and_port_choice() {
    assert_eq!(choose_token("a", "b").as_deref(), Some("a"));
    assert_eq!(choose_token("", "b").as_deref(), Some("b"));
    assert_eq!(choose_token("", ""), None);
    assert_eq!(choose_port(Some(1), Some(2)), 1);
    assert_eq!(choose_port(None, Some(2)), 2);
    assert_eq!(choose_port(None, None), 18470);
}

#[test]
fn attachment_content_omits_blank_text() {
    assert_eq!(attachment_content(" \n"), None);
    assert_eq!(attachment_content(" hi "), Some(" hi "));
}
