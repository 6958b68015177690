use vstd::prelude::*;

use crate::text::{non_blank, non_blank_str, opt_str_view, opt_view, trimmed_non_blank};

verus! {

/// A session signal as the assistant posts it; every field may be missing.
pub struct OpencodeEvent {
    pub project_name: Option<String>,
    pub agent_type: Option<String>,
    pub instance_id: Option<String>,
    pub event_type: Option<String>,
    pub text: Option<String>,
    pub message: Option<String>,
    pub turn_text: Option<String>,
}

/// An explicit request to deliver files.
pub struct SendFilesEvent {
    pub project_name: Option<String>,
    pub agent_type: Option<String>,
    pub instance_id: Option<String>,
    pub files: Vec<String>,
}

/// The agent type that applies when none is given.
pub open spec fn default_agent() -> Seq<char> {
    seq!['o', 'p', 'e', 'n', 'c', 'o', 'd', 'e']
}

/// The trimmed agent type, or `opencode` where it is missing or blank.
pub open spec fn agent_or_default(o: Option<String>) -> Seq<char> {
    match non_blank(opt_view(o)) {
        Some(a) => a,
        None => default_agent(),
    }
}

fn agent_or_default_str<'a>(o: &'a Option<String>) -> (r: &'a str)
    ensures
        r@ == agent_or_default(*o),
{
    match non_blank_str(o) {
        Some(a) => a,
        None => {
            let d = "opencode";
            proof {
                reveal_strlit("opencode");
                assert(d@ =~= default_agent());
            }
            d
        },
    }
}

impl OpencodeEvent {
    /// The trimmed project name, if not blank.
    pub fn project_name(&self) -> (r: Option<&str>)
        ensures
            opt_str_view(r) == non_blank(opt_view(self.project_name)),
    {
        non_blank_str(&self.project_name)
    }

    /// The trimmed agent type, `opencode` where missing or blank.
    pub fn agent_type(&self) -> (r: &str)
        ensures
            r@ == agent_or_default(self.agent_type),
    {
        agent_or_default_str(&self.agent_type)
    }

    /// The trimmed instance identifier, if not blank.
    pub fn instance_id(&self) -> (r: Option<&str>)
        ensures
            opt_str_view(r) == non_blank(opt_view(self.instance_id)),
    {
        non_blank_str(&self.instance_id)
    }

    /// The trimmed event type, if not blank.
    pub fn event_type(&self) -> (r: Option<&str>)
        ensures
            opt_str_view(r) == non_blank(opt_view(self.event_type)),
    {
        non_blank_str(&self.event_type)
    }

    /// The trimmed `text` if not blank, else the trimmed `message` if not blank.
    pub fn event_text(&self) -> (r: Option<String>)
        ensures
            opt_view(r) == match non_blank(opt_view(self.text)) {
                Some(t) => Some(t),
                None => non_blank(opt_view(self.message)),
            },
    {
        match trimmed_non_blank(&self.text) {
            Some(t) => Some(t),
            None => trimmed_non_blank(&self.message),
        }
    }

    /// The trimmed transcript of the turn, if not blank.
    pub fn turn_text(&self) -> (r: Option<&str>)
        ensures
            opt_str_view(r) == non_blank(opt_view(self.turn_text)),
    {
        non_blank_str(&self.turn_text)
    }
}

impl SendFilesEvent {
    /// The trimmed project name, if not blank.
    pub fn project_name(&self) -> (r: Option<&str>)
        ensures
            opt_str_view(r) == non_blank(opt_view(self.project_name)),
    {
        non_blank_str(&self.project_name)
    }

    /// The trimmed agent type, `opencode` where missing or blank.
    pub fn agent_type(&self) -> (r: &str)
        ensures
            r@ == agent_or_default(self.agent_type),
    {
        agent_or_default_str(&self.agent_type)
    }

    /// The trimmed instance identifier, if not blank.
    pub fn instance_id(&self) -> (r: Option<&str>)
        ensures
            opt_str_view(r) == non_blank(opt_view(self.instance_id)),
    {
        non_blank_str(&self.instance_id)
    }
}

} // verus!
