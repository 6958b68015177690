use vstd::prelude::*;

use crate::text::{is_blank, non_blank, non_blank_str, opt_str_view, opt_view, trimmed_non_blank};

verus! {

/// One agent instance of a project, as the state document records it.
pub struct ProjectInstance {
    pub instance_id: Option<String>,
    pub agent_type: Option<String>,
    pub channel_id: Option<String>,
}

/// A project of the state document. Each map is a list of entries; where a
/// key occurs twice, its first entry counts.
pub struct ProjectState {
    pub project_path: Option<String>,
    pub instances: Vec<(String, ProjectInstance)>,
    pub discord_channels: Vec<(String, Option<String>)>,
}

/// The state document: the projects by name (first entry of a name counts).
pub struct BridgeState {
    pub projects: Vec<(String, ProjectState)>,
}

/// The value of the first entry of `es` under key `k`.
pub open spec fn lookup<V>(es: Seq<(String, V)>, k: Seq<char>) -> Option<V>
    decreases es.len(),
{
    if es.len() == 0 {
        None
    } else if es[0].0@ == k {
        Some(es[0].1)
    } else {
        lookup(es.drop_first(), k)
    }
}

/// Code-point order of strings, which is also the byte order of their UTF-8 forms.
pub open spec fn str_lt(a: Seq<char>, b: Seq<char>) -> bool
    decreases a.len(),
{
    if b.len() == 0 {
        false
    } else if a.len() == 0 {
        true
    } else if a[0] != b[0] {
        a[0] < b[0]
    } else {
        str_lt(a.drop_first(), b.drop_first())
    }
}

/// The identifier an instance entry is known by: its non-blank `instance_id`,
/// else its key.
pub open spec fn effective_id(key: Seq<char>, r: ProjectInstance) -> Seq<char> {
    match non_blank(opt_view(r.instance_id)) {
        Some(id) => id,
        None => key,
    }
}

/// An instance entry of agent `agent` with both agent type and channel non-blank.
pub open spec fn is_candidate(r: ProjectInstance, agent: Seq<char>) -> bool {
    non_blank(opt_view(r.agent_type)) == Some(agent) && non_blank(opt_view(r.channel_id)) is Some
}

/// Entry `i` of `es` is the first under its key (a later one is shadowed).
pub open spec fn first_of_key(es: Seq<(String, ProjectInstance)>, i: int) -> bool {
    forall|j: int| 0 <= j < i ==> #[trigger] es[j].0@ != es[i].0@
}

/// Entry `i` of `es` takes part in choosing the primary instance of `agent`.
pub open spec fn counts(es: Seq<(String, ProjectInstance)>, i: int, agent: Seq<char>) -> bool {
    is_candidate(es[i].1, agent) && first_of_key(es, i)
}

/// Among the candidates of `es` for `agent` that are not shadowed, the one with the least effective
/// identifier (the earliest of equals), as (identifier, trimmed channel).
pub open spec fn primary_of(es: Seq<(String, ProjectInstance)>, agent: Seq<char>) -> Option<
    (Seq<char>, Seq<char>),
>
    decreases es.len(),
{
    if es.len() == 0 {
        None
    } else {
        let before = primary_of(es.drop_last(), agent);
        let e = es.last();
        if counts(es, es.len() - 1, agent) {
            let id = effective_id(e.0@, e.1);
            let ch = non_blank(opt_view(e.1.channel_id))->0;
            match before {
                Some(b) => if str_lt(id, b.0) {
                    Some((id, ch))
                } else {
                    before
                },
                None => Some((id, ch)),
            }
        } else {
            before
        }
    }
}

proof fn lemma_str_lt_irreflexive(a: Seq<char>)
    ensures
        !str_lt(a, a),
    decreases a.len(),
{
    if a.len() > 0 {
        lemma_str_lt_irreflexive(a.drop_first());
    }
}

proof fn lemma_str_lt_transitive(a: Seq<char>, b: Seq<char>, c: Seq<char>)
    requires
        str_lt(a, b),
        str_lt(b, c),
    ensures
        str_lt(a, c),
    decreases a.len(),
{
    if a.len() > 0 && b.len() > 0 && c.len() > 0 && a[0] == b[0] && b[0] == c[0] {
        lemma_str_lt_transitive(a.drop_first(), b.drop_first(), c.drop_first());
    }
}

/// The primary instance of an agent is one of its candidates (an entry not
/// shadowed by an earlier one of the same key), and no candidate has a
/// smaller identifier; without candidates there is none.
pub proof fn lemma_primary_is_least(es: Seq<(String, ProjectInstance)>, agent: Seq<char>)
    ensures
        match primary_of(es, agent) {
            Some(b) => (exists|i: int|
                0 <= i < es.len() && #[trigger] counts(es, i, agent) && effective_id(
                    es[i].0@,
                    es[i].1,
                ) == b.0 && non_blank(opt_view(es[i].1.channel_id)) == Some(b.1)) && forall|i: int|
                0 <= i < es.len() && #[trigger] counts(es, i, agent) ==> !str_lt(
                    effective_id(es[i].0@, es[i].1),
                    b.0,
                ),
            None => forall|i: int| 0 <= i < es.len() ==> !#[trigger] counts(es, i, agent),
        },
    decreases es.len(),
{
    if es.len() > 0 {
        let pre = es.drop_last();
        lemma_primary_is_least(pre, agent);
        let n = es.len() - 1;
        let e = es[n];
        assert(e == es.last());
        assert forall|i: int| 0 <= i < n implies #[trigger] es[i] == pre[i] by {}
        assert forall|i: int| 0 <= i < n implies counts(es, i, agent) == #[trigger] counts(pre, i, agent) by {
            assert forall|j: int| 0 <= j < i implies #[trigger] es[j] == pre[j] by {}
        }
        if counts(es, n, agent) {
            let id = effective_id(e.0@, e.1);
            lemma_str_lt_irreflexive(id);
            match primary_of(pre, agent) {
                Some(b) => {
                    lemma_str_lt_irreflexive(b.0);
                    if str_lt(id, b.0) {
                        assert forall|i: int| 0 <= i < es.len() && #[trigger] counts(es, i, agent) implies !str_lt(effective_id(es[i].0@, es[i].1), id) by {
                            if i < n {
                                assert(pre[i] == es[i]);
                                assert(counts(es, i, agent) == counts(pre, i, agent));
                                if str_lt(effective_id(es[i].0@, es[i].1), id) {
                                    lemma_str_lt_transitive(
                                        effective_id(es[i].0@, es[i].1),
                                        id,
                                        b.0,
                                    );
                                }
                            }
                        }
                        assert(counts(es, n, agent));
                    } else {
                        let i0 = choose|i: int|
                            0 <= i < pre.len() && #[trigger] counts(pre, i, agent)
                                && effective_id(pre[i].0@, pre[i].1) == b.0 && non_blank(
                                opt_view(pre[i].1.channel_id),
                            ) == Some(b.1);
                        assert(es[i0] == pre[i0]);
                        assert forall|i: int| 0 <= i < es.len() && #[trigger] counts(es, i, agent) implies !str_lt(effective_id(es[i].0@, es[i].1), b.0) by {
                            if i < n {
                                assert(pre[i] == es[i]);
                                assert(counts(es, i, agent) == counts(pre, i, agent));
                            }
                        }
                    }
                },
                None => {
                    assert(counts(es, n, agent));
                    assert forall|i: int| 0 <= i < es.len() && #[trigger] counts(es, i, agent) implies !str_lt(effective_id(es[i].0@, es[i].1), id) by {
                        if i < n {
                            assert(pre[i] == es[i]);
                                assert(counts(es, i, agent) == counts(pre, i, agent));
                        }
                    }
                },
            }
        } else {
            match primary_of(pre, agent) {
                Some(b) => {
                    let i0 = choose|i: int|
                        0 <= i < pre.len() && #[trigger] counts(pre, i, agent)
                            && effective_id(pre[i].0@, pre[i].1) == b.0 && non_blank(
                            opt_view(pre[i].1.channel_id),
                        ) == Some(b.1);
                    assert(es[i0] == pre[i0]);
                    assert forall|i: int| 0 <= i < es.len() && #[trigger] counts(es, i, agent) implies !str_lt(effective_id(es[i].0@, es[i].1), b.0) by {
                        if i < n {
                            assert(pre[i] == es[i]);
                                assert(counts(es, i, agent) == counts(pre, i, agent));
                        }
                    }
                },
                None => {
                    assert forall|i: int| 0 <= i < es.len() implies !#[trigger] counts(es, i, agent) by {
                        if i < n {
                            assert(pre[i] == es[i]);
                                assert(counts(es, i, agent) == counts(pre, i, agent));
                        }
                    }
                },
            }
        }
    }
}

/// The channel of instance `inst` itself, if it names a non-blank one.
pub open spec fn exact_channel(p: ProjectState, inst: Option<Seq<char>>) -> Option<Seq<char>> {
    match inst {
        Some(k) => match lookup(p.instances@, k) {
            Some(r) => match r.channel_id {
                Some(c) => if is_blank(c@) {
                    None
                } else {
                    Some(c@)
                },
                None => None,
            },
            None => None,
        },
        None => None,
    }
}

/// The channel of the primary instance of `agent`.
pub open spec fn primary_channel(p: ProjectState, agent: Seq<char>) -> Option<Seq<char>> {
    match primary_of(p.instances@, agent) {
        Some(b) => Some(b.1),
        None => None,
    }
}

/// The channel that the legacy per-agent map gives `agent`.
pub open spec fn legacy_channel(p: ProjectState, agent: Seq<char>) -> Option<Seq<char>> {
    match lookup(p.discord_channels@, agent) {
        Some(c) => non_blank(opt_view(c)),
        None => None,
    }
}

/// The channel for (project, agent, instance): the exact instance, else the
/// primary instance of the agent, else the legacy map.
pub open spec fn resolve_channel(
    st: BridgeState,
    project: Seq<char>,
    agent: Seq<char>,
    inst: Option<Seq<char>>,
) -> Option<Seq<char>> {
    match lookup(st.projects@, project) {
        None => None,
        Some(p) => if exact_channel(p, inst) is Some {
            exact_channel(p, inst)
        } else if primary_channel(p, agent) is Some {
            primary_channel(p, agent)
        } else {
            legacy_channel(p, agent)
        },
    }
}

/// Index of the first entry of `es` under key `k`.
fn find_entry<V>(es: &Vec<(String, V)>, k: &String) -> (r: Option<usize>)
    ensures
        match r {
            Some(i) => i < es@.len() && lookup(es@, k@) == Some(es@[i as int].1),
            None => lookup(es@, k@) is None,
        },
{
    let n = es.len();
    let mut i: usize = 0;
    assert(es@.subrange(0, n as int) =~= es@);
    while i < n
        invariant
            i <= n == es@.len(),
            lookup(es@, k@) == lookup(es@.subrange(i as int, n as int), k@),
        decreases n - i,
    {
        if es[i].0 == *k {
            return Some(i);
        }
        assert(es@.subrange(i as int, n as int).drop_first() =~= es@.subrange(i + 1, n as int));
        i = i + 1;
    }
    None
}

/// Whether `a` comes before `b` in code-point order.
fn string_less(a: &String, b: &String) -> (r: bool)
    ensures
        r == str_lt(a@, b@),
{
    let x = crate::text::chars_of(a.as_str());
    let y = crate::text::chars_of(b.as_str());
    let mut i: usize = 0;
    assert(x@.subrange(0, x@.len() as int) =~= x@);
    assert(y@.subrange(0, y@.len() as int) =~= y@);
    while i < x.len() && i < y.len() && x[i] == y[i]
        invariant
            i <= x@.len(),
            i <= y@.len(),
            x@ == a@,
            y@ == b@,
            str_lt(a@, b@) == str_lt(
                x@.subrange(i as int, x@.len() as int),
                y@.subrange(i as int, y@.len() as int),
            ),
        decreases x@.len() - i,
    {
        assert(x@.subrange(i as int, x@.len() as int).drop_first() =~= x@.subrange(
            i + 1,
            x@.len() as int,
        ));
        assert(y@.subrange(i as int, y@.len() as int).drop_first() =~= y@.subrange(
            i + 1,
            y@.len() as int,
        ));
        i = i + 1;
    }
    if i == y.len() {
        false
    } else if i == x.len() {
        true
    } else {
        x[i] < y[i]
    }
}

/// The primary instance of `agent` among `es`, as (identifier, channel).
fn primary_instance(es: &Vec<(String, ProjectInstance)>, agent: &String) -> (r: Option<
    (String, String),
>)
    ensures
        match r {
            Some(b) => primary_of(es@, agent@) == Some((b.0@, b.1@)),
            None => primary_of(es@, agent@) is None,
        },
{
    let n = es.len();
    let mut best: Option<(String, String)> = None;
    let mut i: usize = 0;
    while i < n
        invariant
            i <= n == es@.len(),
            match best {
                Some(b) => primary_of(es@.subrange(0, i as int), agent@) == Some((b.0@, b.1@)),
                None => primary_of(es@.subrange(0, i as int), agent@) is None,
            },
        decreases n - i,
    {
        let ghost pre = es@.subrange(0, i + 1);
        assert(pre.drop_last() =~= es@.subrange(0, i as int));
        let key = &es[i].0;
        let rec = &es[i].1;
        let a = trimmed_non_blank(&rec.agent_type);
        let c = trimmed_non_blank(&rec.channel_id);
        let mut first = true;
        let mut j: usize = 0;
        while j < i
            invariant
                j <= i < n == es@.len(),
                pre == es@.subrange(0, i + 1),
                first == forall|m: int| 0 <= m < j ==> #[trigger] es@[m].0@ != es@[i as int].0@,
            decreases i - j,
        {
            if es[j].0 == es[i].0 {
                first = false;
            }
            j = j + 1;
        }
        proof {
            assert(pre[i as int] == es@[i as int]);
            if first {
                assert forall|m: int| 0 <= m < i implies #[trigger] pre[m].0@ != pre[i as int].0@ by {
                    assert(pre[m] == es@[m]);
                }
            } else {
                let m = choose|m: int| 0 <= m < i && #[trigger] es@[m].0@ == es@[i as int].0@;
                assert(pre[m] == es@[m]);
            }
        }
        let is_cand = first && match (&a, &c) {
            (Some(a), Some(_)) => *a == *agent,
            _ => false,
        };
        if is_cand {
            let id = match trimmed_non_blank(&rec.instance_id) {
                Some(v) => v,
                None => key.clone(),
            };
            let ch = match c {
                Some(v) => v,
                None => String::new(),
            };
            let better = match &best {
                Some(b) => string_less(&id, &b.0),
                None => true,
            };
            if better {
                best = Some((id, ch));
            }
        }
        i = i + 1;
    }
    assert(es@.subrange(0, n as int) =~= es@);
    best
}

impl BridgeState {
    /// The state's entry for a project name, if any.
    pub fn project(&self, project_name: &str) -> (r: Option<&ProjectState>)
        ensures
            match r {
                Some(p) => lookup(self.projects@, project_name@) == Some(*p),
                None => lookup(self.projects@, project_name@) is None,
            },
    {
        let k = String::from_str(project_name);
        match find_entry(&self.projects, &k) {
            Some(i) => Some(&self.projects[i].1),
            None => None,
        }
    }

    /// Whether the state has a project of that name.
    pub fn has_project(&self, project_name: &str) -> (r: bool)
        ensures
            r == lookup(self.projects@, project_name@) is Some,
    {
        self.project(project_name).is_some()
    }

    /// The chat channel for an agent of a project: the requested instance's
    /// own channel, else that of the agent's primary instance (least
    /// identifier), else the legacy per-agent channel.
    pub fn find_channel_id(&self, project_name: &str, agent_type: &str, instance_id: Option<&str>) -> (r:
        Option<String>)
        ensures
            opt_view(r) == resolve_channel(
                *self,
                project_name@,
                agent_type@,
                opt_str_view(instance_id),
            ),
    {
        let project = match self.project(project_name) {
            Some(p) => p,
            None => {
                return None;
            },
        };
        if let Some(requested) = instance_id {
            let k = String::from_str(requested);
            if let Some(i) = find_entry(&project.instances, &k) {
                let rec = &project.instances[i].1;
                if non_blank_str(&rec.channel_id).is_some() {
                    if let Some(channel) = &rec.channel_id {
                        return Some(channel.clone());
                    }
                }
            }
        }
        let agent = String::from_str(agent_type);
        if let Some(b) = primary_instance(&project.instances, &agent) {
            return Some(b.1);
        }
        match find_entry(&project.discord_channels, &agent) {
            Some(i) => trimmed_non_blank(&project.discord_channels[i].1),
            None => None,
        }
    }

    /// The project's root directory as recorded, if any.
    pub fn project_path(&self, project_name: &str) -> (r: Option<String>)
        ensures
            opt_view(r) == match lookup(self.projects@, project_name@) {
                Some(p) => opt_view(p.project_path),
                None => None,
            },
    {
        match self.project(project_name) {
            Some(p) => match &p.project_path {
                Some(s) => Some(s.clone()),
                None => None,
            },
            None => None,
        }
    }
}

} // verus!
