use mudcode::event::OpencodeEvent;

#[test]
fn event_text_prefers_text_over_message() {
    let event = OpencodeEvent {
        project_name: Some("proj".to_string()),
        agent_type: None,
        instance_id: None,
        event_type: Some("session.idle".to_string()),
        text: Some("text value".to_string()),
        message: Some("message value".to_string()),
        turn_text: None,
    };

    assert_eq!(event.event_text().as_deref(), Some("text value"));
}

#[test]
fn event_type_defaults_are_applied() {
    let event = OpencodeEvent {
        project_name: Some("proj".to_string()),
        agent_type: None,
        instance_id: None,
        event_type: None,
        text: None,
        message: None,
        turn_text: None,
    };

    assert_eq!(event.agent_type(), "opencode");
    assert_eq!(event.event_type(), None);
}
