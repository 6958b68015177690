use vstd::prelude::*;

use crate::chunk::{chunks_of, split_for_discord, views};
use crate::event::{agent_or_default, OpencodeEvent, SendFilesEvent};
use crate::state::{lookup, resolve_channel, BridgeState};
use crate::strip::{strip_file_paths, stripped};
use crate::text::{is_blank, non_blank, opt_view, trimmed};

verus! {

/// An HTTP reply: status code and body text.
pub struct Reply {
    pub status: u16,
    pub body: String,
}

/// Where a `send-files` request goes: the channel, and the project root
/// against which the files are checked.
pub struct FileTarget {
    pub channel_id: String,
    pub project_path: Option<String>,
}

/// What an assistant event asks for.
pub enum EventAction {
    /// Acknowledge and do nothing.
    Ignore,
    /// Send this text as one message.
    ReportError { content: String },
    /// Deliver `visible`, with the files named in `search`.
    Deliver { visible: String, search: String },
}

fn reply(status: u16, body: &str) -> (r: Reply)
    ensures
        r.status == status,
        r.body@ == body@,
{
    Reply { status, body: String::from_str(body) }
}

/// 200 `OK`.
pub fn ok_reply() -> (r: Reply)
    ensures
        r.status == 200,
        r.body@ == "OK"@,
{
    reply(200, "OK")
}

/// 500 `Internal error`: the chat service failed.
pub fn internal_error_reply() -> (r: Reply)
    ensures
        r.status == 500,
        r.body@ == "Internal error"@,
{
    reply(500, "Internal error")
}

/// 400 `Invalid payload`: a `send-files` body that is no such request.
pub fn invalid_payload_reply() -> (r: Reply)
    ensures
        r.status == 400,
        r.body@ == "Invalid payload"@,
{
    reply(400, "Invalid payload")
}

/// 400 `Invalid event payload`: an event that is malformed or has no channel.
pub fn invalid_event_reply() -> (r: Reply)
    ensures
        r.status == 400,
        r.body@ == "Invalid event payload"@,
{
    reply(400, "Invalid event payload")
}

/// Where a `send-files` request goes, or the reply that refuses it.
pub open spec fn send_files_plan(e: SendFilesEvent, st: BridgeState) -> Result<
    (Seq<char>, Option<Seq<char>>),
    (u16, Seq<char>),
> {
    match non_blank(opt_view(e.project_name)) {
        None => Err((400u16, "Missing projectName"@)),
        Some(p) => if e.files@.len() == 0 {
            Err((400u16, "No files provided"@))
        } else {
            match lookup(st.projects@, p) {
                None => Err((404u16, "Project not found"@)),
                Some(proj) => match resolve_channel(
                    st,
                    p,
                    agent_or_default(e.agent_type),
                    non_blank(opt_view(e.instance_id)),
                ) {
                    None => Err((404u16, "No channel found for project/agent"@)),
                    Some(c) => Ok((c, opt_view(proj.project_path))),
                },
            }
        },
    }
}

/// Routes a `send-files` request: 400 without project name or files, 404
/// for an unknown project or one with no channel for the agent.
pub fn route_send_files(event: &SendFilesEvent, state: &BridgeState) -> (r: Result<FileTarget, Reply>)
    ensures
        match r {
            Ok(t) => send_files_plan(*event, *state) == Ok::<_, (u16, Seq<char>)>(
                (t.channel_id@, opt_view(t.project_path)),
            ),
            Err(e) => send_files_plan(*event, *state) == Err::<(Seq<char>, Option<Seq<char>>), _>(
                (e.status, e.body@),
            ),
        },
{
    let project = match event.project_name() {
        Some(p) => p,
        None => {
            return Err(reply(400, "Missing projectName"));
        },
    };
    if event.files.len() == 0 {
        return Err(reply(400, "No files provided"));
    }
    if !state.has_project(project) {
        return Err(reply(404, "Project not found"));
    }
    match state.find_channel_id(project, event.agent_type(), event.instance_id()) {
        Some(c) => Ok(FileTarget { channel_id: c, project_path: state.project_path(project) }),
        None => Err(reply(404, "No channel found for project/agent")),
    }
}

/// 400 `No valid files` where no file passed the check.
pub fn check_valid_files(valid: &[String]) -> (r: Result<(), Reply>)
    ensures
        r is Ok <==> valid@.len() > 0,
        r matches Err(e) ==> e.status == 400 && e.body@ == "No valid files"@,
{
    if valid.len() == 0 {
        Err(reply(400, "No valid files"))
    } else {
        Ok(())
    }
}

/// The channel of an assistant event, where it names a project and one resolves.
pub open spec fn event_channel(e: OpencodeEvent, st: BridgeState) -> Option<Seq<char>> {
    match non_blank(opt_view(e.project_name)) {
        None => None,
        Some(p) => resolve_channel(
            st,
            p,
            agent_or_default(e.agent_type),
            non_blank(opt_view(e.instance_id)),
        ),
    }
}

/// Routes an assistant event to its channel; 400 `Invalid event payload`
/// without project name or without a channel.
pub fn route_event(event: &OpencodeEvent, state: &BridgeState) -> (r: Result<String, Reply>)
    ensures
        match r {
            Ok(c) => event_channel(*event, *state) == Some(c@),
            Err(e) => event_channel(*event, *state) is None && e.status == 400 && e.body@
                == "Invalid event payload"@,
        },
{
    let project = match event.project_name() {
        Some(p) => p,
        None => {
            return Err(invalid_event_reply());
        },
    };
    match state.find_channel_id(project, event.agent_type(), event.instance_id()) {
        Some(c) => Ok(c),
        None => Err(invalid_event_reply()),
    }
}

/// The visible text of an event: trimmed `text`, else trimmed `message`.
pub open spec fn event_text_of(e: OpencodeEvent) -> Option<Seq<char>> {
    match non_blank(opt_view(e.text)) {
        Some(t) => Some(t),
        None => non_blank(opt_view(e.message)),
    }
}

/// The text that opens a session error message.
pub open spec fn error_prefix() -> Seq<char> {
    "\u{26a0}\u{fe0f} OpenCode session error: "@
}

/// What an event asks for: a `session.error` is reported with its text (or
/// `unknown error`); a `session.idle` with visible text is delivered, its
/// files searched in the turn's transcript where there is one; anything else
/// is ignored.
pub fn event_action(event: &OpencodeEvent) -> (r: EventAction)
    ensures
        match non_blank(opt_view(event.event_type)) {
            Some(t) => if t == "session.error"@ {
                r matches EventAction::ReportError { content } && content@ == error_prefix() + match event_text_of(*event) {
                    Some(m) => m,
                    None => "unknown error"@,
                }
            } else if t == "session.idle"@ {
                match event_text_of(*event) {
                    Some(v) => r matches EventAction::Deliver { visible, search } && visible@ == v
                        && search@ == match non_blank(opt_view(event.turn_text)) {
                        Some(tt) => tt,
                        None => v,
                    },
                    None => r is Ignore,
                }
            } else {
                r is Ignore
            },
            None => r is Ignore,
        },
{
    let kind = match event.event_type() {
        Some(k) => k,
        None => {
            return EventAction::Ignore;
        },
    };
    let kind = String::from_str(kind);
    if kind == String::from_str("session.error") {
        let msg = match event.event_text() {
            Some(m) => m,
            None => String::from_str("unknown error"),
        };
        let content = String::from_str("\u{26a0}\u{fe0f} OpenCode session error: ").concat(msg.as_str());
        EventAction::ReportError { content }
    } else if kind == String::from_str("session.idle") {
        match event.event_text() {
            Some(v) => {
                let search = match event.turn_text() {
                    Some(t) => String::from_str(t),
                    None => v.clone(),
                };
                EventAction::Deliver { visible: v, search }
            },
            None => EventAction::Ignore,
        }
    } else {
        EventAction::Ignore
    }
}

/// The text that goes with an attachment upload: none where `content` is blank.
pub fn attachment_content(content: &str) -> (r: Option<&str>)
    ensures
        match r {
            Some(c) => !is_blank(content@) && c@ == content@,
            None => is_blank(content@),
        },
{
    if crate::text::trim_str(content).unicode_len() == 0 {
        None
    } else {
        Some(content)
    }
}

/// `parts` without the blank ones.
pub open spec fn keep_non_blank(parts: Seq<Seq<char>>) -> Seq<Seq<char>>
    decreases parts.len(),
{
    if parts.len() == 0 {
        parts
    } else if is_blank(parts.last()) {
        keep_non_blank(parts.drop_last())
    } else {
        keep_non_blank(parts.drop_last()).push(parts.last())
    }
}

/// The text shown for an idle event: the visible text, with the delivered
/// files' paths stripped where there are any.
pub open spec fn idle_display(visible: Seq<char>, files: Seq<Seq<char>>) -> Seq<char> {
    if files.len() == 0 {
        visible
    } else {
        stripped(visible, files)
    }
}

/// The messages sent for an idle event whose valid attachments are `files`:
/// the non-blank chunks of its display text, in order.
pub fn idle_messages(visible: &str, files: &[String]) -> (r: Vec<String>)
    ensures
        views(r@) == keep_non_blank(chunks_of(idle_display(visible@, views(files@)))),
{
    let display = if files.len() == 0 {
        String::from_str(visible)
    } else {
        strip_file_paths(visible, files)
    };
    let chunks = split_for_discord(display.as_str());
    let mut out: Vec<String> = Vec::new();
    let mut k: usize = 0;
    assert(views(chunks@).subrange(0, 0) =~= Seq::<Seq<char>>::empty());
    while k < chunks.len()
        invariant
            k <= chunks@.len(),
            views(chunks@) == chunks_of(display@),
            views(out@) == keep_non_blank(views(chunks@).subrange(0, k as int)),
        decreases chunks@.len() - k,
    {
        let ghost pre = views(chunks@).subrange(0, k + 1);
        assert(pre.drop_last() =~= views(chunks@).subrange(0, k as int));
        assert(pre.last() == chunks@[k as int]@);
        let t = trimmed(chunks[k].as_str());
        if t.unicode_len() != 0 {
            let c = chunks[k].clone();
            assert(views(out@.push(c)) =~= views(out@).push(c@));
            out.push(c);
        }
        k = k + 1;
    }
    assert(views(chunks@).subrange(0, chunks@.len() as int) =~= views(chunks@));
    out
}

} // verus!
