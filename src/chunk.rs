use vstd::prelude::*;

use crate::text::{chars_of, string_from};

verus! {

/// The most characters (Unicode scalar values) one chat message may hold.
pub const DISCORD_MAX_MESSAGE_LENGTH: usize = 2000;

/// Index of the last `c` in `s[0..end)`, or -1.
pub open spec fn last_index_of(s: Seq<char>, c: char, end: int) -> int
    decreases end,
{
    if end <= 0 {
        -1
    } else if s[end - 1] == c {
        end - 1
    } else {
        last_index_of(s, c, end - 1)
    }
}

/// Where a message longer than the limit is cut: after the last newline of its
/// first `DISCORD_MAX_MESSAGE_LENGTH` characters if at least half the limit
/// precedes it, else after the last space there, else at the limit.
pub open spec fn cut_point(s: Seq<char>) -> int {
    let lim = DISCORD_MAX_MESSAGE_LENGTH as int;
    let nl = last_index_of(s, '\n', lim);
    if nl >= lim / 2 {
        nl + 1
    } else {
        let sp = last_index_of(s, ' ', lim);
        if sp >= 0 {
            sp + 1
        } else {
            lim
        }
    }
}

/// The chunks of a message, in order.
pub open spec fn chunks_of(s: Seq<char>) -> Seq<Seq<char>>
    decreases s.len(),
    via chunks_of_decreases
{
    if s.len() == 0 {
        seq![]
    } else if s.len() <= DISCORD_MAX_MESSAGE_LENGTH {
        seq![s]
    } else {
        let c = cut_point(s);
        seq![s.subrange(0, c)] + chunks_of(s.subrange(c, s.len() as int))
    }
}

#[via_fn]
proof fn chunks_of_decreases(s: Seq<char>) {
    if s.len() > DISCORD_MAX_MESSAGE_LENGTH {
        lemma_cut_point_bounds(s);
    }
}

proof fn lemma_last_index_bounds(s: Seq<char>, c: char, end: int)
    ensures
        -1 <= last_index_of(s, c, end) < end || end <= 0,
        last_index_of(s, c, end) >= 0 ==> s[last_index_of(s, c, end)] == c,
    decreases end,
{
    if end > 0 && s[end - 1] != c {
        lemma_last_index_bounds(s, c, end - 1);
    }
}

/// A long message is cut after at least one and at most the limit characters.
pub proof fn lemma_cut_point_bounds(s: Seq<char>)
    requires
        s.len() > DISCORD_MAX_MESSAGE_LENGTH,
    ensures
        1 <= cut_point(s) <= DISCORD_MAX_MESSAGE_LENGTH,
{
    lemma_last_index_bounds(s, '\n', DISCORD_MAX_MESSAGE_LENGTH as int);
    lemma_last_index_bounds(s, ' ', DISCORD_MAX_MESSAGE_LENGTH as int);
}

/// The concatenation of `parts`.
pub open spec fn concat(parts: Seq<Seq<char>>) -> Seq<char>
    decreases parts.len(),
{
    if parts.len() == 0 {
        Seq::empty()
    } else {
        parts[0] + concat(parts.drop_first())
    }
}

/// The views of a sequence of strings.
pub open spec fn views(v: Seq<String>) -> Seq<Seq<char>> {
    v.map_values(|x: String| x@)
}

/// The chunks put back together give the message, and none is longer than the
/// limit or empty.
pub proof fn lemma_chunks_rebuild_message(s: Seq<char>)
    ensures
        concat(chunks_of(s)) == s,
        forall|i: int|
            0 <= i < chunks_of(s).len() ==> 0 < #[trigger] chunks_of(s)[i].len()
                <= DISCORD_MAX_MESSAGE_LENGTH,
    decreases s.len(),
{
    let parts = chunks_of(s);
    if s.len() == 0 {
    } else if s.len() <= DISCORD_MAX_MESSAGE_LENGTH {
        assert(parts.drop_first() =~= Seq::<Seq<char>>::empty());
        assert(concat(parts.drop_first()) == Seq::<char>::empty());
        assert(s + Seq::<char>::empty() =~= s);
    } else {
        lemma_cut_point_bounds(s);
        let c = cut_point(s);
        let rest = s.subrange(c, s.len() as int);
        lemma_chunks_rebuild_message(rest);
        assert(parts.drop_first() =~= chunks_of(rest));
        assert(s.subrange(0, c) + rest =~= s);
        assert(parts[0] == s.subrange(0, c));
        assert forall|i: int| 0 <= i < parts.len() implies 0 < #[trigger] parts[i].len()
            <= DISCORD_MAX_MESSAGE_LENGTH by {
            if i > 0 {
                assert(parts[i] == chunks_of(rest)[i - 1]);
            }
        }
    }
}

/// Where part `k` begins in the concatenation of `parts`.
pub open spec fn offset(parts: Seq<Seq<char>>, k: int) -> int {
    concat(parts.subrange(0, k)).len() as int
}

proof fn lemma_concat_piece(parts: Seq<Seq<char>>, k: int)
    requires
        0 <= k < parts.len(),
    ensures
        0 <= offset(parts, k),
        offset(parts, k) + parts[k].len() <= concat(parts).len(),
        concat(parts).subrange(offset(parts, k), offset(parts, k) + parts[k].len()) == parts[k],
    decreases k,
{
    let rest = parts.drop_first();
    assert(concat(parts) == parts[0] + concat(rest));
    if k == 0 {
        assert(parts.subrange(0, 0) =~= Seq::<Seq<char>>::empty());
        assert(concat(parts).subrange(0, parts[0].len() as int) =~= parts[0]);
    } else {
        lemma_concat_piece(rest, k - 1);
        let pre = parts.subrange(0, k);
        assert(pre[0] == parts[0]);
        assert(pre.drop_first() =~= rest.subrange(0, k - 1));
        assert(concat(pre) == parts[0] + concat(rest.subrange(0, k - 1)));
        assert(offset(parts, k) == parts[0].len() + offset(rest, k - 1));
        assert(rest[k - 1] == parts[k]);
        let o = offset(rest, k - 1);
        assert(concat(parts).subrange(offset(parts, k), offset(parts, k) + parts[k].len())
            =~= concat(rest).subrange(o, o + rest[k - 1].len()));
    }
}

/// Each chunk is a run of whole characters of the message: the one that
/// starts where the chunks before it end.
pub proof fn lemma_chunks_are_runs_of_message(s: Seq<char>)
    ensures
        forall|k: int|
            0 <= k < chunks_of(s).len() ==> s.subrange(
                offset(chunks_of(s), k),
                offset(chunks_of(s), k) + chunks_of(s)[k].len(),
            ) == #[trigger] chunks_of(s)[k],
{
    lemma_chunks_rebuild_message(s);
    assert forall|k: int| 0 <= k < chunks_of(s).len() implies s.subrange(
        offset(chunks_of(s), k),
        offset(chunks_of(s), k) + chunks_of(s)[k].len(),
    ) == #[trigger] chunks_of(s)[k] by {
        lemma_concat_piece(chunks_of(s), k);
    }
}

/// A non-empty message within the limit is sent as it is, in one chunk.
pub proof fn lemma_short_message_single_chunk(s: Seq<char>)
    requires
        0 < s.len() <= DISCORD_MAX_MESSAGE_LENGTH,
    ensures
        chunks_of(s) == seq![s],
{
}

/// Where the last `c` of `cs[start..start + end)` stands, relative to `start`.
fn rfind_from(cs: &Vec<char>, start: usize, end: usize, c: char) -> (r: Option<usize>)
    requires
        start + end <= cs@.len(),
    ensures
        match r {
            Some(i) => i < end && i as int == last_index_of(cs@.subrange(start as int, cs@.len() as int), c, end as int),
            None => last_index_of(cs@.subrange(start as int, cs@.len() as int), c, end as int) == -1,
        },
{
    let ghost s = cs@.subrange(start as int, cs@.len() as int);
    let n = cs.len();
    let mut k: usize = end;
    while k > 0
        invariant
            k <= end,
            n == cs@.len(),
            start + end <= cs@.len(),
            s == cs@.subrange(start as int, cs@.len() as int),
            last_index_of(s, c, end as int) == last_index_of(s, c, k as int),
        decreases k,
    {
        if cs[start + (k - 1)] == c {
            return Some(k - 1);
        }
        k = k - 1;
    }
    None
}

/// `cut_point` of `cs[start..]`.
fn cut_from(cs: &Vec<char>, start: usize) -> (r: usize)
    requires
        start + DISCORD_MAX_MESSAGE_LENGTH < cs@.len(),
    ensures
        r as int == cut_point(cs@.subrange(start as int, cs@.len() as int)),
{
    let lim = DISCORD_MAX_MESSAGE_LENGTH;
    if let Some(nl) = rfind_from(cs, start, lim, '\n') {
        if nl >= lim / 2 {
            return nl + 1;
        }
    }
    match rfind_from(cs, start, lim, ' ') {
        Some(sp) => sp + 1,
        None => lim,
    }
}

/// Splits a message into chunks that each fit one chat message, cutting
/// preferably after a newline, else after a space, else inside a word.
pub fn split_message_for_discord(message: &str) -> (r: Vec<String>)
    ensures
        views(r@) == chunks_of(message@),
{
    let cs = chars_of(message);
    let n = cs.len();
    let mut out: Vec<String> = Vec::new();
    let mut start: usize = 0;
    assert(cs@.subrange(0, n as int) =~= cs@);
    while start < n
        invariant
            start <= n == cs@.len(),
            cs@ == message@,
            views(out@) + chunks_of(cs@.subrange(start as int, n as int)) == chunks_of(message@),
        decreases n - start,
    {
        let ghost rest = cs@.subrange(start as int, n as int);
        let cut = if n - start <= DISCORD_MAX_MESSAGE_LENGTH {
            n - start
        } else {
            proof {
                lemma_cut_point_bounds(rest);
            }
            cut_from(&cs, start)
        };
        let piece = string_from(&cs, start, start + cut);
        proof {
            assert(rest.subrange(0, cut as int) =~= piece@);
            assert(rest.subrange(cut as int, rest.len() as int) =~= cs@.subrange(
                start + cut,
                n as int,
            ));
            assert(chunks_of(rest) == seq![piece@] + chunks_of(
                cs@.subrange(start + cut, n as int),
            ));
            assert(views(out@.push(piece)) =~= views(out@).push(piece@));
            assert(views(out@) + chunks_of(rest) =~= views(out@).push(piece@) + chunks_of(
                cs@.subrange(start + cut, n as int),
            ));
        }
        out.push(piece);
        start = start + cut;
    }
    assert(chunks_of(cs@.subrange(n as int, n as int)) =~= Seq::<Seq<char>>::empty());
    assert(views(out@) + Seq::<Seq<char>>::empty() =~= views(out@));
    out
}

/// Same as `split_message_for_discord`.
pub fn split_for_discord(message: &str) -> (r: Vec<String>)
    ensures
        views(r@) == chunks_of(message@),
{
    split_message_for_discord(message)
}

} // verus!
