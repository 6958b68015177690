use vstd::prelude::*;

use crate::chunk::views;
use crate::paths::occurs_in;
use crate::text::chars_of;

verus! {

/// `s` begins with `w`.
pub open spec fn starts_with(s: Seq<char>, w: Seq<char>) -> bool {
    w.len() <= s.len() && s.subrange(0, w.len() as int) == w
}

/// `s` with the occurrences of `w` removed, leftmost first, without overlap.
pub open spec fn remove_all(s: Seq<char>, w: Seq<char>) -> Seq<char>
    decreases s.len(),
{
    if s.len() == 0 || w.len() == 0 {
        s
    } else if starts_with(s, w) {
        remove_all(s.subrange(w.len() as int, s.len() as int), w)
    } else {
        seq![s[0]] + remove_all(s.drop_first(), w)
    }
}

/// Index of the first `]` in `s` from `j` on, or the length of `s`.
pub open spec fn close_at(s: Seq<char>, j: int) -> int
    decreases s.len() - j,
{
    if j < 0 || j >= s.len() || s[j] == ']' {
        j
    } else {
        close_at(s, j + 1)
    }
}

/// Length of the image reference `![alt](w)` that `s` begins with, or 0.
pub open spec fn image_len(s: Seq<char>, w: Seq<char>) -> int {
    if s.len() >= 2 && s[0] == '!' && s[1] == '[' {
        let j = close_at(s, 2);
        let m = j + 2 + w.len();
        if 0 <= j && m < s.len() && s[j + 1] == '(' && s.subrange(j + 2, m) == w && s[m] == ')' {
            m + 1
        } else {
            0
        }
    } else {
        0
    }
}

/// `s` with the image references to `w` removed.
pub open spec fn remove_images(s: Seq<char>, w: Seq<char>) -> Seq<char>
    decreases s.len(),
{
    if s.len() == 0 {
        s
    } else if image_len(s, w) > 0 {
        remove_images(s.subrange(image_len(s, w), s.len() as int), w)
    } else {
        seq![s[0]] + remove_images(s.drop_first(), w)
    }
}

/// `w` between backticks.
pub open spec fn ticked(w: Seq<char>) -> Seq<char> {
    seq!['`'] + w + seq!['`']
}

/// `s` with the image references to `w`, then `w` in backticks, then `w` itself removed.
pub open spec fn strip_one(s: Seq<char>, w: Seq<char>) -> Seq<char> {
    remove_all(remove_all(remove_images(s, w), ticked(w)), w)
}

/// `s` with each of `ps` removed in turn.
pub open spec fn strip_each(s: Seq<char>, ps: Seq<Seq<char>>) -> Seq<char>
    decreases ps.len(),
{
    if ps.len() == 0 {
        s
    } else {
        strip_one(strip_each(s, ps.drop_last()), ps.last())
    }
}

/// Number of `c` that `s` begins with.
pub open spec fn lead_count(s: Seq<char>, c: char) -> int
    decreases s.len(),
{
    if s.len() > 0 && s[0] == c {
        1 + lead_count(s.drop_first(), c)
    } else {
        0
    }
}

proof fn lemma_lead_count_bounds(s: Seq<char>, c: char)
    ensures
        0 <= lead_count(s, c) <= s.len(),
        forall|k: int| 0 <= k < lead_count(s, c) ==> s[k] == c,
        lead_count(s, c) < s.len() ==> s[lead_count(s, c)] != c,
    decreases s.len(),
{
    if s.len() > 0 && s[0] == c {
        lemma_lead_count_bounds(s.drop_first(), c);
        assert forall|k: int| 0 <= k < lead_count(s, c) implies s[k] == c by {
            if k > 0 {
                assert(s[k] == s.drop_first()[k - 1]);
            }
        }
    }
}

/// `s` with each run of three or more newlines made two.
pub open spec fn collapse(s: Seq<char>) -> Seq<char>
    decreases s.len(),
    via collapse_decreases
{
    if s.len() == 0 {
        s
    } else if lead_count(s, '\n') >= 3 {
        seq!['\n', '\n'] + collapse(s.subrange(lead_count(s, '\n'), s.len() as int))
    } else {
        seq![s[0]] + collapse(s.drop_first())
    }
}

#[via_fn]
proof fn collapse_decreases(s: Seq<char>) {
    lemma_lead_count_bounds(s, '\n');
}

/// A space or a tab.
pub open spec fn is_blank_char(c: char) -> bool {
    c == ' ' || c == '\t'
}

/// Number of spaces and tabs that `s` begins with.
pub open spec fn lead_blank(s: Seq<char>) -> int
    decreases s.len(),
{
    if s.len() > 0 && is_blank_char(s[0]) {
        1 + lead_blank(s.drop_first())
    } else {
        0
    }
}

proof fn lemma_lead_blank_bounds(s: Seq<char>)
    ensures
        0 <= lead_blank(s) <= s.len(),
        forall|k: int| 0 <= k < lead_blank(s) ==> is_blank_char(s[k]),
        lead_blank(s) < s.len() ==> !is_blank_char(s[lead_blank(s)]),
    decreases s.len(),
{
    if s.len() > 0 && is_blank_char(s[0]) {
        lemma_lead_blank_bounds(s.drop_first());
        assert forall|k: int| 0 <= k < lead_blank(s) implies is_blank_char(s[k]) by {
            if k > 0 {
                assert(s[k] == s.drop_first()[k - 1]);
            }
        }
    }
}

/// The line of `s` that starts here (where `at_start`) consists of spaces
/// and tabs only.
pub open spec fn blank_line_here(s: Seq<char>, at_start: bool) -> bool {
    at_start && lead_blank(s) > 0 && (lead_blank(s) == s.len() || s[lead_blank(s)] == '\n')
}

/// `s` with every line of spaces and tabs only emptied; `at_start` says
/// whether `s` begins a line.
pub open spec fn drop_blank_lines(s: Seq<char>, at_start: bool) -> Seq<char>
    decreases s.len(),
    via drop_blank_lines_decreases
{
    if s.len() == 0 {
        s
    } else if blank_line_here(s, at_start) {
        drop_blank_lines(s.subrange(lead_blank(s), s.len() as int), false)
    } else {
        seq![s[0]] + drop_blank_lines(s.drop_first(), s[0] == '\n')
    }
}

#[via_fn]
proof fn drop_blank_lines_decreases(s: Seq<char>, at_start: bool) {
    lemma_lead_blank_bounds(s);
}

/// `s` with lines of spaces and tabs only emptied, then runs of three or
/// more newlines made two.
pub open spec fn tidy(s: Seq<char>) -> Seq<char> {
    collapse(drop_blank_lines(s, true))
}

/// Some non-empty path of `ps` occurs in `s`.
pub open spec fn any_occurs(s: Seq<char>, ps: Seq<Seq<char>>) -> bool {
    exists|k: int| 0 <= k < ps.len() && ps[k].len() > 0 && occurs_in(#[trigger] ps[k], s)
}

/// Further rounds of removal and tidying, while a path still occurs.
pub open spec fn strip_rounds(s: Seq<char>, ps: Seq<Seq<char>>) -> Seq<char>
    decreases s.len(),
    via strip_rounds_decreases
{
    if any_occurs(s, ps) {
        strip_rounds(tidy(strip_each(s, ps)), ps)
    } else {
        s
    }
}

#[via_fn]
proof fn strip_rounds_decreases(s: Seq<char>, ps: Seq<Seq<char>>) {
    if any_occurs(s, ps) {
        lemma_round_shrinks(s, ps);
    }
}

/// `t` with the paths `ps` removed and the blank space they leave tidied;
/// removal is repeated until none of the paths occurs.
pub open spec fn stripped(t: Seq<char>, ps: Seq<Seq<char>>) -> Seq<char> {
    strip_rounds(tidy(strip_each(t, ps)), ps)
}

/// `s` holds three newlines in a row.
pub open spec fn has_triple_newline(s: Seq<char>) -> bool {
    exists|k: int|
        0 <= k && k + 2 < s.len() && #[trigger] s[k] == '\n' && s[k + 1] == '\n' && s[k + 2] == '\n'
}

proof fn lemma_remove_all_len(s: Seq<char>, w: Seq<char>)
    ensures
        remove_all(s, w).len() <= s.len(),
        remove_all(s, w).len() == s.len() ==> remove_all(s, w) == s,
        w.len() > 0 && occurs_in(w, s) ==> remove_all(s, w).len() < s.len(),
    decreases s.len(),
{
    if s.len() == 0 || w.len() == 0 {
    } else if starts_with(s, w) {
        lemma_remove_all_len(s.subrange(w.len() as int, s.len() as int), w);
    } else {
        let s1 = s.drop_first();
        lemma_remove_all_len(s1, w);
        assert(remove_all(s, w) == seq![s[0]] + remove_all(s1, w));
        if remove_all(s, w).len() == s.len() {
            assert(seq![s[0]] + s1 =~= s);
        }
        if occurs_in(w, s) {
            let a = choose|a: int|
                0 <= a && a + w.len() <= s.len() && #[trigger] s.subrange(a, a + w.len()) == w;
            if a == 0 {
                assert(s.subrange(0, w.len() as int) == w);
            } else {
                assert(s1.subrange(a - 1, a - 1 + w.len()) =~= s.subrange(a, a + w.len()));
                assert(occurs_in(w, s1));
            }
        }
    }
}

proof fn lemma_remove_images_len(s: Seq<char>, w: Seq<char>)
    ensures
        remove_images(s, w).len() <= s.len(),
        remove_images(s, w).len() == s.len() ==> remove_images(s, w) == s,
    decreases s.len(),
{
    if s.len() == 0 {
    } else if image_len(s, w) > 0 {
        lemma_remove_images_len(s.subrange(image_len(s, w), s.len() as int), w);
    } else {
        let s1 = s.drop_first();
        lemma_remove_images_len(s1, w);
        if remove_images(s, w).len() == s.len() {
            assert(seq![s[0]] + s1 =~= s);
        }
    }
}

proof fn lemma_collapse_len(s: Seq<char>)
    ensures
        collapse(s).len() <= s.len(),
    decreases s.len(),
{
    lemma_lead_count_bounds(s, '\n');
    if s.len() == 0 {
    } else if lead_count(s, '\n') >= 3 {
        lemma_collapse_len(s.subrange(lead_count(s, '\n'), s.len() as int));
    } else {
        lemma_collapse_len(s.drop_first());
    }
}

proof fn lemma_drop_blank_lines_len(s: Seq<char>, at_start: bool)
    ensures
        drop_blank_lines(s, at_start).len() <= s.len(),
    decreases s.len(),
{
    lemma_lead_blank_bounds(s);
    if s.len() == 0 {
    } else if blank_line_here(s, at_start) {
        lemma_drop_blank_lines_len(s.subrange(lead_blank(s), s.len() as int), false);
    } else {
        lemma_drop_blank_lines_len(s.drop_first(), s[0] == '\n');
    }
}

proof fn lemma_strip_one_len(s: Seq<char>, w: Seq<char>)
    ensures
        strip_one(s, w).len() <= s.len(),
        strip_one(s, w).len() == s.len() ==> strip_one(s, w) == s,
        w.len() > 0 && occurs_in(w, s) ==> strip_one(s, w).len() < s.len(),
{
    let a = remove_images(s, w);
    let b = remove_all(a, ticked(w));
    lemma_remove_images_len(s, w);
    lemma_remove_all_len(a, ticked(w));
    lemma_remove_all_len(b, w);
}

proof fn lemma_strip_each_len(s: Seq<char>, ps: Seq<Seq<char>>)
    ensures
        strip_each(s, ps).len() <= s.len(),
        strip_each(s, ps).len() == s.len() ==> strip_each(s, ps) == s,
        any_occurs(s, ps) ==> strip_each(s, ps).len() < s.len(),
    decreases ps.len(),
{
    if ps.len() > 0 {
        let pre = ps.drop_last();
        let x = strip_each(s, pre);
        lemma_strip_each_len(s, pre);
        lemma_strip_one_len(x, ps.last());
        if any_occurs(s, ps) {
            let k = choose|k: int| 0 <= k < ps.len() && ps[k].len() > 0 && occurs_in(#[trigger] ps[k], s);
            if k < pre.len() {
                assert(pre[k] == ps[k]);
                assert(any_occurs(s, pre));
            }
        }
    }
}

proof fn lemma_round_shrinks(s: Seq<char>, ps: Seq<Seq<char>>)
    requires
        any_occurs(s, ps),
    ensures
        tidy(strip_each(s, ps)).len() < s.len(),
{
    let x = strip_each(s, ps);
    lemma_strip_each_len(s, ps);
    lemma_drop_blank_lines_len(x, true);
    lemma_collapse_len(drop_blank_lines(x, true));
}

/// A blank line of `s` at `[a, b)`, where a line at the very start counts
/// only if `at_start`.
pub open spec fn blank_line_at(s: Seq<char>, a: int, b: int, at_start: bool) -> bool {
    blank_segment(s, a, b) && (a > 0 || at_start)
}

proof fn lemma_collapse_prefix(s: Seq<char>, j: int)
    requires
        0 <= j < s.len(),
        forall|k: int| 0 <= k <= j ==> #[trigger] s[k] != '\n',
    ensures
        collapse(s).len() > j,
        forall|k: int| 0 <= k <= j ==> #[trigger] collapse(s)[k] == s[k],
    decreases j,
{
    let s1 = s.drop_first();
    assert(lead_count(s, '\n') == 0);
    assert(collapse(s) == seq![s[0]] + collapse(s1));
    if j > 0 {
        assert forall|k: int| 0 <= k <= j - 1 implies #[trigger] s1[k] != '\n' by {
            assert(s1[k] == s[k + 1]);
        }
        lemma_collapse_prefix(s1, j - 1);
        assert forall|k: int| 0 <= k <= j implies #[trigger] collapse(s)[k] == s[k] by {
            if k > 0 {
                assert(collapse(s)[k] == collapse(s1)[k - 1]);
            }
        }
    }
}

proof fn lemma_collapse_keeps_no_blank_line(s: Seq<char>, at_start: bool)
    requires
        forall|a: int, b: int| !blank_line_at(s, a, b, at_start),
    ensures
        forall|a: int, b: int| !blank_line_at(collapse(s), a, b, at_start),
    decreases s.len(),
{
    let o = collapse(s);
    lemma_lead_count_bounds(s, '\n');
    lemma_lead_blank_bounds(s);
    if s.len() == 0 {
    } else if lead_count(s, '\n') >= 3 {
        let l = lead_count(s, '\n');
        let rest = s.subrange(l, s.len() as int);
        assert forall|a: int, b: int| !blank_line_at(rest, a, b, true) by {
            if blank_line_at(rest, a, b, true) {
                assert forall|k: int| a + l <= k < b + l implies is_blank_char(#[trigger] s[k]) by {
                    assert(s[k] == rest[k - l]);
                }
                if a > 0 {
                    assert(s[a + l - 1] == rest[a - 1]);
                }
                if b < rest.len() {
                    assert(s[b + l] == rest[b]);
                }
                assert(blank_line_at(s, a + l, b + l, at_start));
            }
        }
        lemma_collapse_keeps_no_blank_line(rest, true);
        let c = collapse(rest);
        assert(o == seq!['\n', '\n'] + c);
        assert forall|a: int, b: int| !blank_line_at(o, a, b, at_start) by {
            if blank_line_at(o, a, b, at_start) {
                if a < 2 {
                    assert(o[a] == '\n');
                } else {
                    assert forall|k: int| a - 2 <= k < b - 2 implies is_blank_char(#[trigger] c[k]) by {
                        assert(c[k] == o[k + 2]);
                        assert(is_blank_char(o[k + 2]));
                    }
                    if a > 2 {
                        assert(c[a - 3] == o[a - 1]);
                    }
                    if b < o.len() {
                        assert(c[b - 2] == o[b]);
                    }
                    assert(blank_line_at(c, a - 2, b - 2, true));
                }
            }
        }
    } else {
        let s1 = s.drop_first();
        let at1 = s[0] == '\n';
        assert forall|a: int, b: int| !blank_line_at(s1, a, b, at1) by {
            if blank_line_at(s1, a, b, at1) {
                assert forall|k: int| a + 1 <= k < b + 1 implies is_blank_char(#[trigger] s[k]) by {
                    assert(s[k] == s1[k - 1]);
                }
                if a > 0 {
                    assert(s[a] == s1[a - 1]);
                }
                if b < s1.len() {
                    assert(s[b + 1] == s1[b]);
                }
                assert(blank_line_at(s, a + 1, b + 1, at_start));
            }
        }
        lemma_collapse_keeps_no_blank_line(s1, at1);
        let c1 = collapse(s1);
        assert(o == seq![s[0]] + c1);
        assert forall|a: int, b: int| !blank_line_at(o, a, b, at_start) by {
            if blank_line_at(o, a, b, at_start) {
                if a > 0 {
                    assert forall|k: int| a - 1 <= k < b - 1 implies is_blank_char(#[trigger] c1[k]) by {
                        assert(c1[k] == o[k + 1]);
                        assert(is_blank_char(o[k + 1]));
                    }
                    if a > 1 {
                        assert(c1[a - 2] == o[a - 1]);
                    }
                    if b < o.len() {
                        assert(c1[b - 1] == o[b]);
                    }
                    assert(blank_line_at(c1, a - 1, b - 1, at1));
                } else {
                    assert(is_blank_char(o[0]));
                    let j = lead_blank(s);
                    if j == s.len() {
                        assert(blank_line_at(s, 0, j, at_start));
                    } else if s[j] == '\n' {
                        assert(blank_line_at(s, 0, j, at_start));
                    } else {
                        assert forall|k: int| 0 <= k <= j implies #[trigger] s[k] != '\n' by {
                            if k < j {
                                assert(is_blank_char(s[k]));
                            }
                        }
                        lemma_collapse_prefix(s, j);
                        if b <= j {
                            if b < j {
                                assert(o[b] == s[b]);
                                assert(is_blank_char(s[b]));
                            } else {
                                assert(o[b] == s[j]);
                            }
                        } else {
                            assert(is_blank_char(o[j]));
                            assert(o[j] == s[j]);
                        }
                    }
                }
            }
        }
    }
}

proof fn lemma_collapse_no_triple(s: Seq<char>)
    ensures
        !has_triple_newline(collapse(s)),
        lead_count(collapse(s), '\n') == if lead_count(s, '\n') >= 3 {
            2
        } else {
            lead_count(s, '\n')
        },
    decreases s.len(),
{
    let o = collapse(s);
    lemma_lead_count_bounds(s, '\n');
    if s.len() == 0 {
    } else if lead_count(s, '\n') >= 3 {
        let l = lead_count(s, '\n');
        let rest = s.subrange(l, s.len() as int);
        if rest.len() > 0 {
            assert(rest[0] == s[l]);
        }
        assert(lead_count(rest, '\n') == 0);
        lemma_collapse_no_triple(rest);
        let c = collapse(rest);
        lemma_lead_count_bounds(c, '\n');
        assert(o == seq!['\n', '\n'] + c);
        if c.len() > 0 {
            assert(o[2] == c[0]);
        }
        lemma_lead_count_run(o, '\n', 2);
        assert forall|k: int| 0 <= k && k + 2 < o.len() implies !(#[trigger] o[k] == '\n' && o[k
            + 1] == '\n' && o[k + 2] == '\n') by {
            if k >= 2 {
                assert(o[k] == c[k - 2] && o[k + 1] == c[k - 1] && o[k + 2] == c[k]);
            }
        }
    } else {
        let s1 = s.drop_first();
        lemma_collapse_no_triple(s1);
        let c1 = collapse(s1);
        lemma_lead_count_bounds(c1, '\n');
        assert(o == seq![s[0]] + c1);
        assert(o.drop_first() =~= c1);
        assert forall|k: int| 0 <= k && k + 2 < o.len() implies !(#[trigger] o[k] == '\n' && o[k
            + 1] == '\n' && o[k + 2] == '\n') by {
            if k >= 1 {
                assert(o[k] == c1[k - 1] && o[k + 1] == c1[k] && o[k + 2] == c1[k + 1]);
            } else if o[0] == '\n' && o[1] == '\n' && o[2] == '\n' {
                assert(c1[0] == '\n' && c1[1] == '\n');
                assert(lead_count(c1, '\n') >= 2);
            }
        }
    }
}

/// The tidied text has neither a line of spaces and tabs only nor three
/// newlines in a row.
pub proof fn lemma_tidy_is_tidy(x: Seq<char>)
    ensures
        !has_blank_line(tidy(x)),
        !has_triple_newline(tidy(x)),
{
    let d = drop_blank_lines(x, true);
    lemma_no_blank_line_from(x, true);
    lemma_collapse_keeps_no_blank_line(d, true);
    lemma_collapse_no_triple(d);
    assert forall|a: int, b: int| !blank_segment(tidy(x), a, b) by {
        assert(!blank_line_at(tidy(x), a, b, true));
    }
}

proof fn lemma_strip_rounds(s: Seq<char>, ps: Seq<Seq<char>>)
    requires
        !has_blank_line(s),
        !has_triple_newline(s),
    ensures
        !has_blank_line(strip_rounds(s, ps)),
        !has_triple_newline(strip_rounds(s, ps)),
        !any_occurs(strip_rounds(s, ps), ps),
    decreases s.len(),
{
    if any_occurs(s, ps) {
        lemma_round_shrinks(s, ps);
        lemma_tidy_is_tidy(strip_each(s, ps));
        lemma_strip_rounds(tidy(strip_each(s, ps)), ps);
    }
}

/// The stripped text holds none of the non-empty paths, no line of spaces
/// and tabs only, and no three newlines in a row.
pub proof fn lemma_stripped_is_clean(t: Seq<char>, ps: Seq<Seq<char>>)
    ensures
        !any_occurs(stripped(t, ps), ps),
        !has_blank_line(stripped(t, ps)),
        !has_triple_newline(stripped(t, ps)),
{
    lemma_tidy_is_tidy(strip_each(t, ps));
    lemma_strip_rounds(tidy(strip_each(t, ps)), ps);
}

/// `s[a..b)` is a whole line of `s` made of spaces and tabs only.
pub open spec fn blank_segment(s: Seq<char>, a: int, b: int) -> bool {
    &&& 0 <= a < b <= s.len()
    &&& (a == 0 || s[a - 1] == '\n')
    &&& (b == s.len() || s[b] == '\n')
    &&& forall|k: int| a <= k < b ==> is_blank_char(#[trigger] s[k])
}

/// `s` has a line made of spaces and tabs only.
pub open spec fn has_blank_line(s: Seq<char>) -> bool {
    exists|a: int, b: int| blank_segment(s, a, b)
}

proof fn lemma_prefix_kept(s: Seq<char>, at_start: bool, j: int)
    requires
        0 <= j < s.len(),
        forall|k: int| 0 <= k < j ==> is_blank_char(#[trigger] s[k]),
        !is_blank_char(s[j]),
        s[j] != '\n',
        !blank_line_here(s, at_start),
    ensures
        drop_blank_lines(s, at_start).len() > j,
        forall|k: int| 0 <= k <= j ==> #[trigger] drop_blank_lines(s, at_start)[k] == s[k],
    decreases j,
{
    let o = drop_blank_lines(s, at_start);
    let s1 = s.drop_first();
    assert(o == seq![s[0]] + drop_blank_lines(s1, s[0] == '\n'));
    if j > 0 {
        assert(is_blank_char(s[0]));
        assert forall|k: int| 0 <= k < j - 1 implies is_blank_char(#[trigger] s1[k]) by {
            assert(s1[k] == s[k + 1]);
        }
        lemma_prefix_kept(s1, false, j - 1);
        assert forall|k: int| 0 <= k <= j implies #[trigger] o[k] == s[k] by {
            if k > 0 {
                assert(o[k] == drop_blank_lines(s1, false)[k - 1]);
            }
        }
    }
}

proof fn lemma_no_blank_line_from(s: Seq<char>, at_start: bool)
    ensures
        forall|a: int, b: int|
            blank_segment(drop_blank_lines(s, at_start), a, b) ==> a == 0 && !at_start,
    decreases s.len(),
{
    let o = drop_blank_lines(s, at_start);
    lemma_lead_blank_bounds(s);
    if s.len() == 0 {
    } else if blank_line_here(s, at_start) {
        let s1 = s.subrange(lead_blank(s), s.len() as int);
        lemma_no_blank_line_from(s1, false);
        assert(o == drop_blank_lines(s1, false));
        if s1.len() > 0 {
            assert(s1[0] == '\n');
            assert(o == seq![s1[0]] + drop_blank_lines(s1.drop_first(), true));
            assert(o[0] == '\n');
        }
        assert forall|a: int, b: int| blank_segment(o, a, b) implies a == 0 && !at_start by {
            if a == 0 {
                assert(is_blank_char(o[0]));
            }
        }
    } else {
        let s1 = s.drop_first();
        let o1 = drop_blank_lines(s1, s[0] == '\n');
        lemma_no_blank_line_from(s1, s[0] == '\n');
        assert(o == seq![s[0]] + o1);
        assert forall|a: int, b: int| blank_segment(o, a, b) implies a == 0 && !at_start by {
            if a > 0 {
                assert forall|k: int| a - 1 <= k < b - 1 implies is_blank_char(#[trigger] o1[k]) by {
                    assert(o1[k] == o[k + 1]);
                    assert(is_blank_char(o[k + 1]));
                }
                if a > 1 {
                    assert(o1[a - 2] == o[a - 1]);
                }
                if b < o.len() {
                    assert(o1[b - 1] == o[b]);
                }
                assert(blank_segment(o1, a - 1, b - 1));
            } else if at_start {
                assert(is_blank_char(o[0]));
                let j = lead_blank(s);
                assert(j > 0);
                lemma_prefix_kept(s, at_start, j);
                if b <= j {
                    if b < j {
                        assert(o[b] == s[b]);
                        assert(is_blank_char(s[b]));
                    } else {
                        assert(o[b] == s[j]);
                    }
                } else {
                    assert(is_blank_char(o[j]));
                    assert(o[j] == s[j]);
                }
            }
        }
    }
}

/// Whether `s[i..]` begins with `w`.
fn starts_at(s: &Vec<char>, i: usize, w: &Vec<char>) -> (r: bool)
    requires
        i <= s@.len(),
    ensures
        r == starts_with(s@.subrange(i as int, s@.len() as int), w@),
{
    let n = s.len();
    if w.len() > n - i {
        return false;
    }
    let mut k: usize = 0;
    while k < w.len()
        invariant
            n == s@.len(),
            i + w@.len() <= n,
            k <= w@.len(),
            forall|m: int| 0 <= m < k ==> s@[i + m] == w@[m],
        decreases w@.len() - k,
    {
        if s[i + k] != w[k] {
            assert(s@.subrange(i as int, n as int).subrange(0, w@.len() as int)[k as int] != w@[k as int]);
            return false;
        }
        k = k + 1;
    }
    assert(s@.subrange(i as int, n as int).subrange(0, w@.len() as int) =~= w@);
    true
}

fn remove_all_chars(s: &Vec<char>, w: &Vec<char>) -> (r: Vec<char>)
    ensures
        r@ == remove_all(s@, w@),
{
    let n = s.len();
    let mut out: Vec<char> = Vec::new();
    let mut i: usize = 0;
    assert(s@.subrange(0, n as int) =~= s@);
    while i < n
        invariant
            i <= n == s@.len(),
            out@ + remove_all(s@.subrange(i as int, n as int), w@) == remove_all(s@, w@),
        decreases n - i,
    {
        let ghost sub = s@.subrange(i as int, n as int);
        if w.len() > 0 && starts_at(s, i, w) {
            assert(sub.subrange(w@.len() as int, sub.len() as int) =~= s@.subrange(
                i + w@.len(),
                n as int,
            ));
            i = i + w.len();
        } else {
            assert(sub.drop_first() =~= s@.subrange(i + 1, n as int));
            assert(out@.push(s@[i as int]) + remove_all(s@.subrange(i + 1, n as int), w@) =~= out@
                + remove_all(sub, w@));
            out.push(s[i]);
            i = i + 1;
        }
    }
    assert(out@ + remove_all(s@.subrange(n as int, n as int), w@) =~= out@);
    out
}

/// Length of the image reference to `w` at `s[i..]`, or 0.
fn image_len_at(s: &Vec<char>, i: usize, w: &Vec<char>) -> (r: usize)
    requires
        i <= s@.len(),
    ensures
        r as int == image_len(s@.subrange(i as int, s@.len() as int), w@),
{
    let n = s.len();
    let ghost sub = s@.subrange(i as int, n as int);
    if n - i < 2 || s[i] != '!' || s[i + 1] != '[' {
        return 0;
    }
    let mut j: usize = 2;
    while j < n - i && s[i + j] != ']'
        invariant
            2 <= j <= n - i,
            n == s@.len(),
            sub == s@.subrange(i as int, n as int),
            close_at(sub, 2) == close_at(sub, j as int),
        decreases n - i - j,
    {
        j = j + 1;
    }
    if n - i - j < 2 || w.len() > n - i - j - 2 {
        return 0;
    }
    let m = j + 2 + w.len();
    if m < n - i && s[i + j + 1] == '(' && starts_at(s, i + j + 2, w) && s[i + m] == ')' {
        assert(s@.subrange(i + j + 2, n as int).subrange(0, w@.len() as int) =~= sub.subrange(
            j + 2,
            m as int,
        ));
        m + 1
    } else {
        if m < n - i && s[i + j + 1] == '(' && s[i + m] == ')' {
            assert(s@.subrange(i + j + 2, n as int).subrange(0, w@.len() as int) =~= sub.subrange(
                j + 2,
                m as int,
            ));
        }
        0
    }
}

fn remove_images_chars(s: &Vec<char>, w: &Vec<char>) -> (r: Vec<char>)
    ensures
        r@ == remove_images(s@, w@),
{
    let n = s.len();
    let mut out: Vec<char> = Vec::new();
    let mut i: usize = 0;
    assert(s@.subrange(0, n as int) =~= s@);
    while i < n
        invariant
            i <= n == s@.len(),
            out@ + remove_images(s@.subrange(i as int, n as int), w@) == remove_images(s@, w@),
        decreases n - i,
    {
        let ghost sub = s@.subrange(i as int, n as int);
        let k = image_len_at(s, i, w);
        if k > 0 {
            assert(sub.subrange(k as int, sub.len() as int) =~= s@.subrange(i + k, n as int));
            i = i + k;
        } else {
            assert(sub.drop_first() =~= s@.subrange(i + 1, n as int));
            assert(out@.push(s@[i as int]) + remove_images(s@.subrange(i + 1, n as int), w@)
                =~= out@ + remove_images(sub, w@));
            out.push(s[i]);
            i = i + 1;
        }
    }
    assert(out@ + remove_images(s@.subrange(n as int, n as int), w@) =~= out@);
    out
}

fn ticked_chars(w: &Vec<char>) -> (r: Vec<char>)
    ensures
        r@ == ticked(w@),
{
    let mut r: Vec<char> = Vec::new();
    r.push('`');
    let mut k: usize = 0;
    while k < w.len()
        invariant
            k <= w@.len(),
            r@ == seq!['`'] + w@.subrange(0, k as int),
        decreases w@.len() - k,
    {
        r.push(w[k]);
        assert(r@ =~= seq!['`'] + w@.subrange(0, k + 1));
        k = k + 1;
    }
    r.push('`');
    assert(r@ =~= ticked(w@));
    r
}

/// Length of the run of `c` at `s[i..]`.
fn run_len(s: &Vec<char>, i: usize, c: char) -> (r: usize)
    requires
        i <= s@.len(),
    ensures
        i + r <= s@.len(),
        r as int == lead_count(s@.subrange(i as int, s@.len() as int), c),
{
    let n = s.len();
    let mut j: usize = i;
    while j < n && s[j] == c
        invariant
            i <= j <= n == s@.len(),
            forall|k: int| i <= k < j ==> s@[k] == c,
        decreases n - j,
    {
        j = j + 1;
    }
    proof {
        lemma_lead_count_run(s@.subrange(i as int, n as int), c, j - i);
    }
    j - i
}

proof fn lemma_lead_count_run(s: Seq<char>, c: char, k: int)
    requires
        0 <= k <= s.len(),
        forall|m: int| 0 <= m < k ==> s[m] == c,
        k == s.len() || s[k] != c,
    ensures
        lead_count(s, c) == k,
    decreases k,
{
    if k > 0 {
        lemma_lead_count_run(s.drop_first(), c, k - 1);
    }
}

proof fn lemma_lead_blank_run(s: Seq<char>, k: int)
    requires
        0 <= k <= s.len(),
        forall|m: int| 0 <= m < k ==> is_blank_char(s[m]),
        k == s.len() || !is_blank_char(s[k]),
    ensures
        lead_blank(s) == k,
    decreases k,
{
    if k > 0 {
        lemma_lead_blank_run(s.drop_first(), k - 1);
    }
}

fn collapse_chars(s: &Vec<char>) -> (r: Vec<char>)
    ensures
        r@ == collapse(s@),
{
    let n = s.len();
    let mut out: Vec<char> = Vec::new();
    let mut i: usize = 0;
    assert(s@.subrange(0, n as int) =~= s@);
    while i < n
        invariant
            i <= n == s@.len(),
            out@ + collapse(s@.subrange(i as int, n as int)) == collapse(s@),
        decreases n - i,
    {
        let ghost sub = s@.subrange(i as int, n as int);
        let k = run_len(s, i, '\n');
        if k >= 3 {
            assert(sub.subrange(k as int, sub.len() as int) =~= s@.subrange(i + k, n as int));
            assert(out@.push('\n').push('\n') + collapse(s@.subrange(i + k, n as int)) =~= out@
                + collapse(sub));
            out.push('\n');
            out.push('\n');
            i = i + k;
        } else {
            assert(sub.drop_first() =~= s@.subrange(i + 1, n as int));
            assert(out@.push(s@[i as int]) + collapse(s@.subrange(i + 1, n as int)) =~= out@
                + collapse(sub));
            out.push(s[i]);
            i = i + 1;
        }
    }
    assert(out@ + collapse(s@.subrange(n as int, n as int)) =~= out@);
    out
}

fn drop_blank_lines_chars(s: &Vec<char>) -> (r: Vec<char>)
    ensures
        r@ == drop_blank_lines(s@, true),
{
    let n = s.len();
    let mut out: Vec<char> = Vec::new();
    let mut i: usize = 0;
    let mut at_start = true;
    assert(s@.subrange(0, n as int) =~= s@);
    while i < n
        invariant
            i <= n == s@.len(),
            out@ + drop_blank_lines(s@.subrange(i as int, n as int), at_start) == drop_blank_lines(
                s@,
                true,
            ),
        decreases n - i,
    {
        let ghost sub = s@.subrange(i as int, n as int);
        let mut j: usize = i;
        while j < n && (s[j] == ' ' || s[j] == '\t')
            invariant
                i <= j <= n == s@.len(),
                forall|k: int| i <= k < j ==> is_blank_char(s@[k]),
            decreases n - j,
        {
            j = j + 1;
        }
        proof {
            lemma_lead_blank_run(sub, j - i);
        }
        if at_start && j > i && (j == n || s[j] == '\n') {
            assert(sub.subrange(j - i, sub.len() as int) =~= s@.subrange(j as int, n as int));
            i = j;
            at_start = false;
        } else {
            assert(sub.drop_first() =~= s@.subrange(i + 1, n as int));
            assert(out@.push(s@[i as int]) + drop_blank_lines(
                s@.subrange(i + 1, n as int),
                s@[i as int] == '\n',
            ) =~= out@ + drop_blank_lines(sub, at_start));
            at_start = s[i] == '\n';
            out.push(s[i]);
            i = i + 1;
        }
    }
    assert(out@ + drop_blank_lines(s@.subrange(n as int, n as int), at_start) =~= out@);
    out
}

fn string_of_chars(cs: &Vec<char>) -> (r: String)
    ensures
        r@ == cs@,
{
    let s = crate::text::string_from(cs, 0, cs.len());
    assert(cs@.subrange(0, cs@.len() as int) =~= cs@);
    s
}

/// The character sequences of a sequence of character vectors.
pub open spec fn char_views(ws: Seq<Vec<char>>) -> Seq<Seq<char>> {
    ws.map_values(|w: Vec<char>| w@)
}

fn strip_each_chars(s: &Vec<char>, ws: &Vec<Vec<char>>) -> (r: Vec<char>)
    ensures
        r@ == strip_each(s@, char_views(ws@)),
{
    let mut cur = s.clone();
    assert(cur@ =~= s@);
    let mut k: usize = 0;
    assert(char_views(ws@).subrange(0, 0) =~= Seq::<Seq<char>>::empty());
    while k < ws.len()
        invariant
            k <= ws@.len(),
            cur@ == strip_each(s@, char_views(ws@).subrange(0, k as int)),
        decreases ws@.len() - k,
    {
        let ghost pre = char_views(ws@).subrange(0, k + 1);
        assert(pre.drop_last() =~= char_views(ws@).subrange(0, k as int));
        let w = &ws[k];
        let a = remove_images_chars(&cur, w);
        let t = ticked_chars(w);
        let b = remove_all_chars(&a, &t);
        cur = remove_all_chars(&b, w);
        k = k + 1;
    }
    assert(char_views(ws@).subrange(0, ws@.len() as int) =~= char_views(ws@));
    cur
}

fn tidy_chars(s: &Vec<char>) -> (r: Vec<char>)
    ensures
        r@ == tidy(s@),
{
    let d = drop_blank_lines_chars(s);
    collapse_chars(&d)
}

fn occurs_chars(s: &Vec<char>, w: &Vec<char>) -> (r: bool)
    ensures
        r == occurs_in(w@, s@),
{
    let n = s.len();
    if w.len() > n {
        return false;
    }
    if w.len() == 0 {
        assert(s@.subrange(0int, 0int + w@.len()) =~= w@);
        return true;
    }
    let mut a: usize = 0;
    while w.len() <= n - a
        invariant
            n == s@.len(),
            a <= n,
            0 < w@.len() <= n,
            forall|b: int| 0 <= b < a ==> #[trigger] s@.subrange(b, b + w@.len()) != w@,
        decreases n - a,
    {
        if starts_at(s, a, w) {
            assert(s@.subrange(a as int, n as int).subrange(0, w@.len() as int) =~= s@.subrange(
                a as int,
                a + w@.len(),
            ));
            return true;
        }
        assert(s@.subrange(a as int, n as int).subrange(0, w@.len() as int) =~= s@.subrange(
            a as int,
            a + w@.len(),
        ));
        a = a + 1;
    }
    false
}

fn any_occurs_chars(s: &Vec<char>, ws: &Vec<Vec<char>>) -> (r: bool)
    ensures
        r == any_occurs(s@, char_views(ws@)),
{
    let mut k: usize = 0;
    while k < ws.len()
        invariant
            k <= ws@.len(),
            forall|m: int|
                0 <= m < k ==> !(char_views(ws@)[m].len() > 0 && occurs_in(
                    #[trigger] char_views(ws@)[m],
                    s@,
                )),
        decreases ws@.len() - k,
    {
        assert(char_views(ws@)[k as int] == ws@[k as int]@);
        if ws[k].len() > 0 && occurs_chars(s, &ws[k]) {
            return true;
        }
        k = k + 1;
    }
    false
}

/// Removes the given paths from user-visible text: for each path in turn,
/// image references `![alt](path)`, then `` `path` ``, then the bare path;
/// then lines of spaces and tabs only are emptied and runs of three or more
/// newlines become two. Where a removal has joined text into one of the
/// paths again, the whole is repeated until none occurs.
pub fn strip_file_paths(text: &str, file_paths: &[String]) -> (r: String)
    ensures
        r@ == stripped(text@, views(file_paths@)),
        !any_occurs(r@, views(file_paths@)),
        !has_blank_line(r@),
        !has_triple_newline(r@),
{
    let mut ws: Vec<Vec<char>> = Vec::new();
    let mut k: usize = 0;
    while k < file_paths.len()
        invariant
            k <= file_paths@.len(),
            ws@.len() == k,
            forall|m: int| 0 <= m < k ==> (#[trigger] ws@[m])@ == file_paths@[m]@,
        decreases file_paths@.len() - k,
    {
        ws.push(chars_of(file_paths[k].as_str()));
        k = k + 1;
    }
    let ghost ps = views(file_paths@);
    assert(char_views(ws@) =~= ps);
    let start = chars_of(text);
    let first = strip_each_chars(&start, &ws);
    let mut cur = tidy_chars(&first);
    while any_occurs_chars(&cur, &ws)
        invariant
            char_views(ws@) == ps,
            strip_rounds(cur@, ps) == stripped(text@, ps),
        decreases cur@.len(),
    {
        proof {
            lemma_round_shrinks(cur@, ps);
        }
        let next = strip_each_chars(&cur, &ws);
        cur = tidy_chars(&next);
    }
    proof {
        lemma_stripped_is_clean(text@, ps);
    }
    string_of_chars(&cur)
}

} // verus!
