use vstd::prelude::*;

use crate::text::{chars_of, is_whitespace, is_ws, push_char, trim, trim_bounds};

verus! {

/// Settings the bridge runs with.
pub struct RuntimeConfig {
    pub discord_token: String,
    pub hook_server_port: u16,
    pub config_path: String,
    pub state_path: String,
}

/// The port the receiver listens on when none is configured.
pub const DEFAULT_HOOK_SERVER_PORT: u16 = 18470;

/// The bot token to use, from the stored configuration's (normalized) token
/// if it is not empty, else from the environment's; `None` where both are empty.
pub fn choose_token(stored: &str, env: &str) -> (r: Option<String>)
    ensures
        match r {
            Some(t) => t@ == (if stored@.len() > 0 {
                stored@
            } else {
                env@
            }) && t@.len() > 0,
            None => stored@.len() == 0 && env@.len() == 0,
        },
{
    if stored.unicode_len() > 0 {
        Some(String::from_str(stored))
    } else if env.unicode_len() > 0 {
        Some(String::from_str(env))
    } else {
        None
    }
}

/// The receiver's port: the stored one, else the environment's, else the default.
pub fn choose_port(stored: Option<u16>, env: Option<u16>) -> (r: u16)
    ensures
        r == match stored {
            Some(p) => p,
            None => match env {
                Some(p) => p,
                None => DEFAULT_HOOK_SERVER_PORT,
            },
        },
{
    match stored {
        Some(p) => p,
        None => match env {
            Some(p) => p,
            None => DEFAULT_HOOK_SERVER_PORT,
        },
    }
}

/// Enclosed in a matching pair of single or double quotes.
pub open spec fn is_quoted(s: Seq<char>) -> bool {
    s.len() >= 2 && ((s[0] == '"' && s.last() == '"') || (s[0] == '\'' && s.last() == '\''))
}

/// Starts with `bot ` or `bearer `, ASCII letters in either case.
pub open spec fn has_scheme(s: Seq<char>) -> bool {
    (s.len() >= 4 && (s[0] == 'b' || s[0] == 'B') && (s[1] == 'o' || s[1] == 'O') && (s[2] == 't'
        || s[2] == 'T') && s[3] == ' ') || (s.len() >= 7 && (s[0] == 'b' || s[0] == 'B') && (s[1]
        == 'e' || s[1] == 'E') && (s[2] == 'a' || s[2] == 'A') && (s[3] == 'r' || s[3] == 'R')
        && (s[4] == 'e' || s[4] == 'E') && (s[5] == 'r' || s[5] == 'R') && s[6] == ' ')
}

/// Length of the scheme word and its space.
pub open spec fn scheme_len(s: Seq<char>) -> int {
    if s.len() >= 4 && s[3] == ' ' {
        4
    } else {
        7
    }
}

/// `s` with every whitespace character left out.
pub open spec fn without_ws(s: Seq<char>) -> Seq<char>
    decreases s.len(),
{
    if s.len() == 0 {
        s
    } else if is_ws(s.last()) {
        without_ws(s.drop_last())
    } else {
        without_ws(s.drop_last()).push(s.last())
    }
}

/// A pasted bot token in its bare form: trimmed, a matching pair of quotes
/// removed, a leading `Bot `/`Bearer ` removed, all whitespace left out.
pub open spec fn normalized_token(input: Seq<char>) -> Seq<char> {
    let t0 = trim(input);
    let t1 = if is_quoted(t0) {
        trim(t0.subrange(1, t0.len() - 1))
    } else {
        t0
    };
    let t2 = if has_scheme(t1) {
        trim(t1.subrange(scheme_len(t1), t1.len() as int))
    } else {
        t1
    };
    without_ws(t2)
}

proof fn lemma_without_ws_has_none(s: Seq<char>)
    ensures
        forall|i: int| 0 <= i < without_ws(s).len() ==> !is_ws(#[trigger] without_ws(s)[i]),
    decreases s.len(),
{
    if s.len() > 0 {
        lemma_without_ws_has_none(s.drop_last());
        let w = without_ws(s.drop_last());
        if !is_ws(s.last()) {
            assert forall|i: int| 0 <= i < w.push(s.last()).len() implies !is_ws(
                #[trigger] w.push(s.last())[i],
            ) by {
                if i < w.len() {
                    assert(w.push(s.last())[i] == w[i]);
                }
            }
        }
    }
}

fn sub_chars(cs: &Vec<char>, from: usize, to: usize) -> (r: Vec<char>)
    requires
        from <= to <= cs@.len(),
    ensures
        r@ == cs@.subrange(from as int, to as int),
{
    let mut r: Vec<char> = Vec::new();
    let mut i: usize = from;
    while i < to
        invariant
            from <= i <= to <= cs@.len(),
            r@ == cs@.subrange(from as int, i as int),
        decreases to - i,
    {
        r.push(cs[i]);
        assert(r@ =~= cs@.subrange(from as int, i + 1));
        i = i + 1;
    }
    r
}

fn trim_chars(cs: &Vec<char>) -> (r: Vec<char>)
    ensures
        r@ == trim(cs@),
{
    let (i, j) = trim_bounds(cs);
    sub_chars(cs, i, j)
}

fn ci(c: char, lower: char, upper: char) -> (r: bool)
    ensures
        r == (c == lower || c == upper),
{
    c == lower || c == upper
}

/// Bare form of a pasted bot token: surrounding whitespace, a matching pair of
/// quotes and a leading `Bot `/`Bearer ` (any case) are removed, and all
/// whitespace inside is left out.
pub fn normalize_discord_token(input: &str) -> (r: String)
    ensures
        r@ == normalized_token(input@),
        forall|i: int| 0 <= i < r@.len() ==> !is_ws(#[trigger] r@[i]),
{
    let cs = chars_of(input);
    let t0 = trim_chars(&cs);
    let n0 = t0.len();
    let t1 = if n0 >= 2 && ((t0[0] == '"' && t0[n0 - 1] == '"') || (t0[0] == '\'' && t0[n0 - 1]
        == '\'')) {
        let inner = sub_chars(&t0, 1, n0 - 1);
        trim_chars(&inner)
    } else {
        t0
    };
    let n1 = t1.len();
    let bot = n1 >= 4 && ci(t1[0], 'b', 'B') && ci(t1[1], 'o', 'O') && ci(t1[2], 't', 'T') && t1[3]
        == ' ';
    let bearer = n1 >= 7 && ci(t1[0], 'b', 'B') && ci(t1[1], 'e', 'E') && ci(t1[2], 'a', 'A') && ci(
        t1[3],
        'r',
        'R',
    ) && ci(t1[4], 'e', 'E') && ci(t1[5], 'r', 'R') && t1[6] == ' ';
    let t2 = if bot || bearer {
        let k: usize = if n1 >= 4 && t1[3] == ' ' {
            4
        } else {
            7
        };
        let rest = sub_chars(&t1, k, n1);
        trim_chars(&rest)
    } else {
        t1
    };
    let mut r = String::new();
    let mut i: usize = 0;
    while i < t2.len()
        invariant
            i <= t2@.len(),
            r@ == without_ws(t2@.subrange(0, i as int)),
        decreases t2@.len() - i,
    {
        assert(t2@.subrange(0, i + 1).drop_last() =~= t2@.subrange(0, i as int));
        if !is_whitespace(t2[i]) {
            push_char(&mut r, t2[i]);
        }
        i = i + 1;
    }
    assert(t2@.subrange(0, t2@.len() as int) =~= t2@);
    proof {
        lemma_without_ws_has_none(t2@);
    }
    r
}

} // verus!
