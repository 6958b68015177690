use mudcode::state::{BridgeState, ProjectInstance, ProjectState};

fn instance(id: &str, agent: &str, channel: &str) -> ProjectInstance {
    ProjectInstance {
        instance_id: Some(id.to_string()),
        agent_type: Some(agent.to_string()),
        channel_id: Some(channel.to_string()),
    }
}

fn project(instances: Vec<(String, ProjectInstance)>, legacy: Vec<(String, Option<String>)>) -> ProjectState {
    ProjectState {
        project_path: None,
        instances,
        discord_channels: legacy,
    }
}

#[test]
fn finds_channel_by_exact_instance_first() {
    let state = BridgeState {
        projects: vec![(
            "proj".to_string(),
            project(
                vec![
                    ("gemini".to_string(), instance("gemini", "gemini", "ch-1")),
                    ("gemini-2".to_string(), instance("gemini-2", "gemini", "ch-2")),
                ],
                vec![],
            ),
        )],
    };

    let found = state.find_channel_id("proj", "gemini", Some("gemini-2"));
    assert_eq!(found.as_deref(), Some("ch-2"));
}

#[test]
fn falls_back_to_primary_instance_when_instance_not_given() {
    let state = BridgeState {
        projects: vec![(
            "proj".to_string(),
            project(
                vec![
                    ("gemini-2".to_string(), instance("gemini-2", "gemini", "ch-2")),
                    ("gemini".to_string(), instance("gemini", "gemini", "ch-1")),
                ],
                vec![],
            ),
        )],
    };

    let found = state.find_channel_id("proj", "gemini", None);
    assert_eq!(found.as_deref(), Some("ch-1"));
}

#[test]
fn falls_back_to_legacy_discord_channels() {
    let state = BridgeState {
        projects: vec![(
            "proj".to_string(),
            project(
                vec![],
                vec![("gemini".to_string(), Some("legacy-1".to_string()))],
            ),
        )],
    };

    let found = state.find_channel_id("proj", "gemini", None);
    assert_eq!(found.as_deref(), Some("legacy-1"));
}

#[test]
fn unknown_project_resolves_nothing() {
    let state = BridgeState { projects: vec![] };
    assert_eq!(state.find_channel_id("proj", "gemini", None), None);
    assert!(!state.has_project("proj"));
}

#[test]
fn exact_instance_channel_is_kept_untrimmed_and_blank_is_skipped() {
    let state = BridgeState {
        projects: vec![(
            "proj".to_string(),
            project(
                vec![
                    ("a".to_string(), instance("a", "gemini", "  ")),
                    ("b".to_string(), instance("b", "gemini", " ch-b ")),
                ],
                vec![],
            ),
        )],
    };
    assert_eq!(state.find_channel_id("proj", "gemini", Some("b")).as_deref(), Some(" ch-b "));
    // blank exact channel: falls back to the primary instance, trimmed
    assert_eq!(state.find_channel_id("proj", "gemini", Some("a")).as_deref(), Some("ch-b"));
}

#[test]
fn primary_instance_uses_instance_id_over_key_and_matches_agent() {
    let mut first = instance("  ", "codex", "c-1");
    first.instance_id = None;
    let state = BridgeState {
        projects: vec![(
            "proj".to_string(),
            project(
                vec![
                    ("zz".to_string(), instance("aa", "gemini", "ch-z")),
                    ("bb".to_string(), instance("", "gemini", "ch-b")),
                    ("a0".to_string(), first),
                ],
                vec![("gemini".to_string(), Some("legacy".to_string()))],
            ),
        )],
    };
    assert_eq!(state.find_channel_id("proj", "gemini", None).as_deref(), Some("ch-z"));
    assert_eq!(state.find_channel_id("proj", "codex", None).as_deref(), Some("c-1"));
    assert_eq!(state.find_channel_id("proj", "mistral", None), None);
}

#[test]
fn legacy_channel_blank_is_absent() {
    let state = BridgeState {
        projects: vec![(
            "proj".to_string(),
            ProjectState {
                project_path: Some("/work/proj".to_string()),
                instances: vec![],
                discord_channels: vec![
                    ("gemini".to_string(), Some(" ".to_string())),
                    ("codex".to_string(), None),
                ],
            },
        )],
    };
    assert_eq!(state.find_channel_id("proj", "gemini", None), None);
    assert_eq!(state.find_channel_id("proj", "codex", None), None);
    assert_eq!(state.project_path("proj").as_deref(), Some("/work/proj"));
    assert_eq!(state.project_path("other"), None);
}

#[test]
fn shadowed_instance_entries_do_not_count() {
    let state = BridgeState {
        projects: vec![(
            "proj".to_string(),
            project(
                vec![
                    ("k".to_string(), instance("z", "gemini", "ch-first")),
                    ("k".to_string(), instance("a", "gemini", "ch-shadowed")),
                ],
                vec![],
            ),
        )],
    };
    assert_eq!(state.find_channel_id("proj", "gemini", None).as_deref(), Some("ch-first"));
}
