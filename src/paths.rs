use vstd::prelude::*;

use crate::chunk::views;
use crate::text::{chars_of, is_whitespace, is_ws, string_from};

verus! {

/// May stand right before a path.
pub open spec fn is_left_delim(c: char) -> bool {
    is_ws(c) || c == '`' || c == '"' || c == '\'' || c == '(' || c == '['
}

/// May not stand inside a path.
pub open spec fn is_excluded(c: char) -> bool {
    is_ws(c) || c == '`' || c == '"' || c == '\'' || c == ')' || c == ']'
}

/// May stand right after a path.
pub open spec fn is_right_delim(c: char) -> bool {
    is_excluded(c) || c == '.' || c == ',' || c == ';' || c == ':' || c == '!' || c == '?'
}

/// The recognised file extensions, in lower case.
pub open spec fn extensions() -> Seq<Seq<char>> {
    seq![
        seq!['p', 'n', 'g'],
        seq!['j', 'p', 'g'],
        seq!['j', 'p', 'e', 'g'],
        seq!['g', 'i', 'f'],
        seq!['w', 'e', 'b', 'p'],
        seq!['s', 'v', 'g'],
        seq!['b', 'm', 'p'],
        seq!['p', 'd', 'f'],
        seq!['d', 'o', 'c', 'x'],
        seq!['p', 'p', 't', 'x'],
        seq!['x', 'l', 's', 'x'],
        seq!['c', 's', 'v'],
        seq!['j', 's', 'o', 'n'],
        seq!['t', 'x', 't'],
    ]
}

/// `c` is the lower-case ASCII letter `l`, its upper-case form, or (for `s`)
/// the long s that folds to it.
pub open spec fn eq_ci(c: char, l: char) -> bool {
    c == l || (c as u32) + 32 == (l as u32) || (l == 's' && c == '\u{17f}')
}

/// `w` stands at `t[q..]`, ignoring ASCII case.
pub open spec fn word_at(t: Seq<char>, q: int, w: Seq<char>) -> bool {
    0 <= q && q + w.len() <= t.len() && forall|k: int| 0 <= k < w.len() ==> eq_ci(t[q + k], w[k])
}

/// Length of the first extension of the list from index `k` on that stands at `t[q..]`, or 0.
pub open spec fn ext_from(t: Seq<char>, q: int, k: int) -> int
    decreases extensions().len() - k,
{
    if k < 0 || k >= extensions().len() {
        0
    } else if word_at(t, q, extensions()[k]) {
        extensions()[k].len() as int
    } else {
        ext_from(t, q, k + 1)
    }
}

/// End of the run of characters that may stand inside a path, from `i` on.
pub open spec fn run_end(t: Seq<char>, i: int) -> int
    decreases t.len() - i,
{
    if i < 0 || i >= t.len() || is_excluded(t[i]) {
        i
    } else {
        run_end(t, i + 1)
    }
}

/// A path may end at `e`: the text ends there, or a right delimiter follows.
pub open spec fn ends_ok(t: Seq<char>, e: int) -> bool {
    e == t.len() || (0 <= e < t.len() && is_right_delim(t[e]))
}

/// End of the path that starts at `p` and whose extension dot is at `d` or
/// before (the latest such dot wins), or -1.
pub open spec fn dot_end(t: Seq<char>, p: int, d: int) -> int
    decreases d - p,
{
    if d < p + 2 {
        -1
    } else {
        let k = ext_from(t, d + 1, 0);
        if t[d] == '.' && k > 0 && ends_ok(t, d + 1 + k) {
            d + 1 + k
        } else {
            dot_end(t, p, d - 1)
        }
    }
}

/// End of the path that starts at `p`, or -1 where none does.
pub open spec fn path_end(t: Seq<char>, p: int) -> int {
    if 0 <= p < t.len() && t[p] == '/' {
        dot_end(t, p, run_end(t, p + 1) - 1)
    } else {
        -1
    }
}

/// Where the search goes on after a path that ends at `e`: at the delimiter
/// that ended it, which may also begin the next path.
pub open spec fn resume_at(t: Seq<char>, e: int) -> int {
    e
}

/// The paths found from position `i` on, left to right, duplicates kept.
pub open spec fn scan(t: Seq<char>, i: int) -> Seq<Seq<char>>
    decreases t.len() - i,
    via scan_decreases
{
    if i < 0 || i >= t.len() {
        seq![]
    } else if i == 0 && path_end(t, 0) >= 0 {
        let e = path_end(t, 0);
        seq![t.subrange(0, e)] + scan(t, resume_at(t, e))
    } else if is_left_delim(t[i]) && path_end(t, i + 1) >= 0 {
        let e = path_end(t, i + 1);
        seq![t.subrange(i + 1, e)] + scan(t, resume_at(t, e))
    } else {
        scan(t, i + 1)
    }
}

#[via_fn]
proof fn scan_decreases(t: Seq<char>, i: int) {
    lemma_path_end_bounds(t, 0);
    lemma_path_end_bounds(t, i + 1);
}

proof fn lemma_ext_from_bounds(t: Seq<char>, q: int, k: int)
    ensures
        ext_from(t, q, k) == 0 || (ext_from(t, q, k) > 0 && q + ext_from(t, q, k) <= t.len()),
    decreases extensions().len() - k,
{
    if 0 <= k < extensions().len() && !word_at(t, q, extensions()[k]) {
        lemma_ext_from_bounds(t, q, k + 1);
    }
}

proof fn lemma_dot_end_bounds(t: Seq<char>, p: int, d: int)
    ensures
        dot_end(t, p, d) == -1 || (p + 2 < dot_end(t, p, d) <= t.len()),
    decreases d - p,
{
    if d >= p + 2 {
        lemma_ext_from_bounds(t, d + 1, 0);
        lemma_dot_end_bounds(t, p, d - 1);
    }
}

/// A path found at `p` ends after it, within the text.
pub proof fn lemma_path_end_bounds(t: Seq<char>, p: int)
    ensures
        path_end(t, p) == -1 || (p + 2 < path_end(t, p) <= t.len()),
{
    if 0 <= p < t.len() && t[p] == '/' {
        lemma_dot_end_bounds(t, p, run_end(t, p + 1) - 1);
    }
}

/// `s` with every repeat of an earlier element left out.
pub open spec fn dedup(s: Seq<Seq<char>>) -> Seq<Seq<char>>
    decreases s.len(),
{
    if s.len() == 0 {
        s
    } else {
        let d = dedup(s.drop_last());
        if d.contains(s.last()) {
            d
        } else {
            d.push(s.last())
        }
    }
}

/// The distinct paths of `t`, in the order of their first occurrence.
pub open spec fn extracted(t: Seq<char>) -> Seq<Seq<char>> {
    dedup(scan(t, 0))
}

/// `w` occurs in `t` as a contiguous piece.
pub open spec fn occurs_in(w: Seq<char>, t: Seq<char>) -> bool {
    exists|a: int| 0 <= a && a + w.len() <= t.len() && #[trigger] t.subrange(a, a + w.len()) == w
}

proof fn lemma_dedup(s: Seq<Seq<char>>)
    ensures
        forall|i: int, j: int|
            0 <= i < j < dedup(s).len() ==> #[trigger] dedup(s)[i] != #[trigger] dedup(s)[j],
        forall|x: Seq<char>| dedup(s).contains(x) <==> s.contains(x),
    decreases s.len(),
{
    if s.len() > 0 {
        let d = dedup(s.drop_last());
        lemma_dedup(s.drop_last());
        assert forall|x: Seq<char>| s.contains(x) <==> (s.drop_last().contains(x) || x == s.last()) by {
            if s.contains(x) {
                let k = choose|k: int| 0 <= k < s.len() && s[k] == x;
                if k < s.len() - 1 {
                    assert(s.drop_last()[k] == x);
                }
            }
            if s.drop_last().contains(x) {
                let k = choose|k: int| 0 <= k < s.drop_last().len() && s.drop_last()[k] == x;
                assert(s[k] == x);
            }
        }
        if !d.contains(s.last()) {
            let e = d.push(s.last());
            assert forall|x: Seq<char>| e.contains(x) <==> (d.contains(x) || x == s.last()) by {
                if e.contains(x) {
                    let k = choose|k: int| 0 <= k < e.len() && e[k] == x;
                    if k < d.len() {
                        assert(d[k] == x);
                    }
                }
                if d.contains(x) {
                    let k = choose|k: int| 0 <= k < d.len() && d[k] == x;
                    assert(e[k] == x);
                }
                if x == s.last() {
                    assert(e[d.len() as int] == x);
                }
            }
            assert forall|i: int, j: int| 0 <= i < j < e.len() implies #[trigger] e[i] != #[trigger] e[j] by {
                if j == d.len() {
                    assert(e[i] == d[i]);
                    assert(d.contains(d[i]));
                }
            }
        }
    }
}

proof fn lemma_found_occurs(t: Seq<char>, p: int, i: int)
    requires
        0 <= p,
        path_end(t, p) >= 0,
        forall|k: int| 0 <= k < scan(t, i).len() ==> occurs_in(#[trigger] scan(t, i)[k], t),
    ensures
        forall|k: int|
            0 <= k < (seq![t.subrange(p, path_end(t, p))] + scan(t, i)).len() ==> occurs_in(
                #[trigger] (seq![t.subrange(p, path_end(t, p))] + scan(t, i))[k],
                t,
            ),
{
    lemma_path_end_bounds(t, p);
    let e = path_end(t, p);
    let w = t.subrange(p, e);
    let sc = seq![w] + scan(t, i);
    assert forall|k: int| 0 <= k < sc.len() implies occurs_in(#[trigger] sc[k], t) by {
        if k == 0 {
            assert(t.subrange(p, p + w.len()) == w);
        } else {
            assert(sc[k] == scan(t, i)[k - 1]);
        }
    }
}

proof fn lemma_scan_occurs(t: Seq<char>, i: int)
    ensures
        forall|k: int| 0 <= k < scan(t, i).len() ==> occurs_in(#[trigger] scan(t, i)[k], t),
    decreases t.len() - i,
{
    lemma_path_end_bounds(t, 0);
    lemma_path_end_bounds(t, i + 1);
    if i < 0 || i >= t.len() {
    } else if i == 0 && path_end(t, 0) >= 0 {
        let e = path_end(t, 0);
        lemma_scan_occurs(t, resume_at(t, e));
        lemma_found_occurs(t, 0, resume_at(t, e));
        assert(scan(t, i) == seq![t.subrange(0, e)] + scan(t, resume_at(t, e)));
    } else if is_left_delim(t[i]) && path_end(t, i + 1) >= 0 {
        let e = path_end(t, i + 1);
        lemma_scan_occurs(t, resume_at(t, e));
        lemma_found_occurs(t, i + 1, resume_at(t, e));
        assert(scan(t, i) == seq![t.subrange(i + 1, e)] + scan(t, resume_at(t, e)));
    } else {
        lemma_scan_occurs(t, i + 1);
        assert(scan(t, i) == scan(t, i + 1));
    }
}

/// The extracted paths are distinct, each occurs in the text, and they are
/// exactly the paths that the scan of the text finds.
pub proof fn lemma_extracted_paths(t: Seq<char>)
    ensures
        forall|i: int, j: int|
            0 <= i < j < extracted(t).len() ==> #[trigger] extracted(t)[i] != #[trigger] extracted(
                t,
            )[j],
        forall|k: int| 0 <= k < extracted(t).len() ==> occurs_in(#[trigger] extracted(t)[k], t),
        forall|x: Seq<char>| extracted(t).contains(x) <==> scan(t, 0).contains(x),
{
    lemma_dedup(scan(t, 0));
    lemma_scan_occurs(t, 0);
    assert forall|k: int| 0 <= k < extracted(t).len() implies occurs_in(#[trigger] extracted(t)[k], t) by {
        assert(extracted(t).contains(extracted(t)[k]));
        assert(scan(t, 0).contains(extracted(t)[k]));
        let m = choose|m: int| 0 <= m < scan(t, 0).len() && scan(t, 0)[m] == extracted(t)[k];
    }
}

/// Index of the first `x` in `s`, or -1.
pub open spec fn first_index(s: Seq<Seq<char>>, x: Seq<char>) -> int
    decreases s.len(),
{
    if s.len() == 0 {
        -1
    } else if s.drop_last().contains(x) {
        first_index(s.drop_last(), x)
    } else if s.last() == x {
        s.len() - 1
    } else {
        -1
    }
}

proof fn lemma_first_index(s: Seq<Seq<char>>, x: Seq<char>)
    ensures
        s.contains(x) ==> 0 <= first_index(s, x) < s.len() && s[first_index(s, x)] == x && forall|
            m: int,
        | 0 <= m < first_index(s, x) ==> #[trigger] s[m] != x,
        !s.contains(x) ==> first_index(s, x) == -1,
    decreases s.len(),
{
    if s.len() > 0 {
        let p = s.drop_last();
        lemma_first_index(p, x);
        if p.contains(x) {
            let fi = first_index(p, x);
            assert(s[fi] == p[fi]);
            assert forall|m: int| 0 <= m < fi implies #[trigger] s[m] != x by {
                assert(s[m] == p[m]);
            }
        } else if s.last() == x {
            assert forall|m: int| 0 <= m < s.len() - 1 implies #[trigger] s[m] != x by {
                assert(s[m] == p[m]);
            }
        } else {
            if s.contains(x) {
                let k = choose|k: int| 0 <= k < s.len() && s[k] == x;
                assert(p[k] == x);
            }
        }
    }
}

proof fn lemma_dedup_order(s: Seq<Seq<char>>)
    ensures
        forall|i: int, j: int|
            0 <= i < j < dedup(s).len() ==> first_index(s, #[trigger] dedup(s)[i]) < first_index(
                s,
                #[trigger] dedup(s)[j],
            ),
    decreases s.len(),
{
    if s.len() > 0 {
        let p = s.drop_last();
        let d = dedup(p);
        lemma_dedup_order(p);
        lemma_dedup(p);
        lemma_dedup(s);
        assert forall|k: int| 0 <= k < d.len() implies first_index(s, #[trigger] d[k]) == first_index(p, d[k])
            && first_index(p, d[k]) < p.len() by {
            assert(d.contains(d[k]));
            lemma_first_index(p, d[k]);
        }
        if !d.contains(s.last()) {
            let e = d.push(s.last());
            assert forall|i: int, j: int| 0 <= i < j < e.len() implies first_index(s, #[trigger] e[i])
                < first_index(s, #[trigger] e[j]) by {
                assert(e[i] == d[i]);
                if j < d.len() {
                    assert(e[j] == d[j]);
                } else {
                    assert(!p.contains(s.last()));
                    assert(first_index(s, e[j]) == s.len() - 1);
                }
            }
        }
    }
}

/// The extracted paths come in the order of their first match in the text:
/// each stands at its first place among the matches, and for `i < j` the
/// first match of path `i` comes before that of path `j`.
pub proof fn lemma_extracted_in_first_match_order(t: Seq<char>)
    ensures
        forall|i: int|
            0 <= i < extracted(t).len() ==> 0 <= first_index(scan(t, 0), #[trigger] extracted(t)[i])
                && scan(t, 0)[first_index(scan(t, 0), extracted(t)[i])] == extracted(t)[i]
                && forall|m: int|
                0 <= m < first_index(scan(t, 0), extracted(t)[i]) ==> scan(t, 0)[m]
                    != extracted(t)[i],
        forall|i: int, j: int|
            0 <= i < j < extracted(t).len() ==> first_index(scan(t, 0), #[trigger] extracted(t)[i])
                < first_index(scan(t, 0), #[trigger] extracted(t)[j]),
{
    let s = scan(t, 0);
    lemma_dedup(s);
    lemma_dedup_order(s);
    assert forall|i: int| 0 <= i < extracted(t).len() implies 0 <= first_index(
        s,
        #[trigger] extracted(t)[i],
    ) && s[first_index(s, extracted(t)[i])] == extracted(t)[i] && forall|m: int|
        0 <= m < first_index(s, extracted(t)[i]) ==> s[m] != extracted(t)[i] by {
        assert(extracted(t).contains(extracted(t)[i]));
        lemma_first_index(s, extracted(t)[i]);
    }
}

fn is_left_delim_char(c: char) -> (r: bool)
    ensures
        r == is_left_delim(c),
{
    is_whitespace(c) || c == '`' || c == '"' || c == '\'' || c == '(' || c == '['
}

fn is_excluded_char(c: char) -> (r: bool)
    ensures
        r == is_excluded(c),
{
    is_whitespace(c) || c == '`' || c == '"' || c == '\'' || c == ')' || c == ']'
}

fn is_right_delim_char(c: char) -> (r: bool)
    ensures
        r == is_right_delim(c),
{
    is_excluded_char(c) || c == '.' || c == ',' || c == ';' || c == ':' || c == '!' || c == '?'
}

fn extension_words() -> (r: Vec<Vec<char>>)
    ensures
        r@.len() == extensions().len(),
        forall|k: int| 0 <= k < r@.len() ==> (#[trigger] r@[k])@ == extensions()[k],
{
    let r = vec![
        vec!['p', 'n', 'g'],
        vec!['j', 'p', 'g'],
        vec!['j', 'p', 'e', 'g'],
        vec!['g', 'i', 'f'],
        vec!['w', 'e', 'b', 'p'],
        vec!['s', 'v', 'g'],
        vec!['b', 'm', 'p'],
        vec!['p', 'd', 'f'],
        vec!['d', 'o', 'c', 'x'],
        vec!['p', 'p', 't', 'x'],
        vec!['x', 'l', 's', 'x'],
        vec!['c', 's', 'v'],
        vec!['j', 's', 'o', 'n'],
        vec!['t', 'x', 't'],
    ];
    assert(r@[0]@ =~= extensions()[0]);
    assert(r@[1]@ =~= extensions()[1]);
    assert(r@[2]@ =~= extensions()[2]);
    assert(r@[3]@ =~= extensions()[3]);
    assert(r@[4]@ =~= extensions()[4]);
    assert(r@[5]@ =~= extensions()[5]);
    assert(r@[6]@ =~= extensions()[6]);
    assert(r@[7]@ =~= extensions()[7]);
    assert(r@[8]@ =~= extensions()[8]);
    assert(r@[9]@ =~= extensions()[9]);
    assert(r@[10]@ =~= extensions()[10]);
    assert(r@[11]@ =~= extensions()[11]);
    assert(r@[12]@ =~= extensions()[12]);
    assert(r@[13]@ =~= extensions()[13]);
    r
}

fn word_at_pos(t: &Vec<char>, q: usize, w: &Vec<char>) -> (r: bool)
    requires
        forall|k: int| 0 <= k < w@.len() ==> 'a' <= #[trigger] w@[k] <= 'z',
    ensures
        r == word_at(t@, q as int, w@),
{
    if w.len() > t.len() || q > t.len() - w.len() {
        return false;
    }
    let n = t.len();
    let mut k: usize = 0;
    while k < w.len()
        invariant
            n == t@.len(),
            k <= w@.len(),
            q + w@.len() <= t@.len(),
            forall|m: int| 0 <= m < w@.len() ==> 'a' <= #[trigger] w@[m] <= 'z',
            forall|m: int| 0 <= m < k ==> eq_ci(t@[q + m], #[trigger] w@[m]),
        decreases w@.len() - k,
    {
        let c = t[q + k];
        let l = w[k];
        if !(c == l || (c as u32) == (l as u32) - 32 || (l == 's' && c == '\u{17f}')) {
            return false;
        }
        k = k + 1;
    }
    true
}

fn ext_len_at(t: &Vec<char>, q: usize) -> (r: usize)
    ensures
        r as int == ext_from(t@, q as int, 0),
{
    let words = extension_words();
    let mut k: usize = 0;
    while k < words.len()
        invariant
            k <= words@.len() == extensions().len(),
            forall|m: int| 0 <= m < words@.len() ==> (#[trigger] words@[m])@ == extensions()[m],
            ext_from(t@, q as int, 0) == ext_from(t@, q as int, k as int),
        decreases words@.len() - k,
    {
        assert(forall|m: int| 0 <= m < words@[k as int]@.len() ==> 'a' <= #[trigger] words@[k as int]@[m] <= 'z');
        if word_at_pos(t, q, &words[k]) {
            return words[k].len();
        }
        k = k + 1;
    }
    0
}

fn path_end_at(t: &Vec<char>, p: usize) -> (r: Option<usize>)
    ensures
        match r {
            Some(e) => e as int == path_end(t@, p as int) && e >= 0,
            None => path_end(t@, p as int) == -1,
        },
{
    let n = t.len();
    if p >= n || t[p] != '/' {
        return None;
    }
    let mut r: usize = p + 1;
    while r < n && !is_excluded_char(t[r])
        invariant
            p < r <= n == t@.len(),
            run_end(t@, p + 1) == run_end(t@, r as int),
        decreases n - r,
    {
        r = r + 1;
    }
    // `k` is one past the dot candidate
    let mut k: usize = r;
    while k - p >= 3
        invariant
            p < k <= r <= n == t@.len(),
            path_end(t@, p as int) == dot_end(t@, p as int, k - 1),
        decreases k,
    {
        let d = k - 1;
        if t[d] == '.' {
            let e = ext_len_at(t, d + 1);
            proof {
                lemma_ext_from_bounds(t@, d + 1, 0);
            }
            if e > 0 && (d + 1 + e == n || is_right_delim_char(t[d + 1 + e])) {
                return Some(d + 1 + e);
            }
        }
        k = k - 1;
    }
    None
}

/// The paths of `t` from position `i` on, duplicates kept.
fn scan_all(t: &Vec<char>) -> (r: Vec<String>)
    ensures
        views(r@) == scan(t@, 0),
{
    let n = t.len();
    let mut out: Vec<String> = Vec::new();
    let mut i: usize = 0;
    while i < n
        invariant
            i <= n == t@.len(),
            views(out@) + scan(t@, i as int) == scan(t@, 0),
        decreases n - i,
    {
        let mut found: Option<(usize, usize)> = None;
        if i == 0 {
            if let Some(e) = path_end_at(t, 0) {
                found = Some((0, e));
            }
        }
        if found.is_none() && is_left_delim_char(t[i]) {
            if let Some(e) = path_end_at(t, i + 1) {
                found = Some((i + 1, e));
            }
        }
        match found {
            Some((p, e)) => {
                proof {
                    lemma_path_end_bounds(t@, p as int);
                }
                let s = string_from(t, p, e);
                let next = e;
                proof {
                    assert(views(out@.push(s)) =~= views(out@).push(s@));
                    assert(views(out@) + scan(t@, i as int) =~= views(out@).push(s@) + scan(
                        t@,
                        next as int,
                    ));
                }
                out.push(s);
                i = next;
            },
            None => {
                i = i + 1;
            },
        }
    }
    assert(views(out@) + scan(t@, i as int) =~= views(out@));
    out
}

fn contains_string(v: &Vec<String>, s: &String) -> (r: bool)
    ensures
        r == views(v@).contains(s@),
{
    let mut k: usize = 0;
    while k < v.len()
        invariant
            k <= v@.len(),
            forall|m: int| 0 <= m < k ==> (#[trigger] v@[m])@ != s@,
        decreases v@.len() - k,
    {
        if v[k] == *s {
            assert(views(v@)[k as int] == s@);
            return true;
        }
        k = k + 1;
    }
    assert(!views(v@).contains(s@)) by {
        if views(v@).contains(s@) {
            let m = choose|m: int| 0 <= m < views(v@).len() && views(v@)[m] == s@;
            assert(v@[m]@ == s@);
        }
    }
    false
}

/// Absolute paths of recognised file types that `text` mentions, each once,
/// in the order of first mention.
pub fn extract_file_paths(text: &str) -> (r: Vec<String>)
    ensures
        views(r@) == extracted(text@),
{
    let t = chars_of(text);
    let all = scan_all(&t);
    let mut out: Vec<String> = Vec::new();
    let mut k: usize = 0;
    assert(views(all@).subrange(0, 0) =~= Seq::<Seq<char>>::empty());
    while k < all.len()
        invariant
            k <= all@.len(),
            t@ == text@,
            views(all@) == scan(t@, 0),
            views(out@) == dedup(views(all@).subrange(0, k as int)),
        decreases all@.len() - k,
    {
        let ghost pre = views(all@).subrange(0, k + 1);
        assert(pre.drop_last() =~= views(all@).subrange(0, k as int));
        assert(pre.last() == all@[k as int]@);
        if !contains_string(&out, &all[k]) {
            let s = all[k].clone();
            assert(views(out@.push(s)) =~= views(out@).push(s@));
            out.push(s);
        }
        k = k + 1;
    }
    assert(views(all@).subrange(0, all@.len() as int) =~= views(all@));
    out
}

} // verus!
