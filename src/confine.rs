use vstd::prelude::*;

use crate::chunk::views;
use crate::strip::starts_with;
use crate::text::opt_view;

verus! {

/// `path` is `root` or lies below it. Both are canonical paths (no repeated
/// separators, no `.` or `..` parts, no trailing separator but on `/`), where
/// this agrees with a comparison by path components.
pub open spec fn within(path: Seq<char>, root: Seq<char>) -> bool {
    path == root || (root.len() > 0 && root.last() == '/' && starts_with(path, root)) || starts_with(
        path,
        root.push('/'),
    )
}

/// The candidates whose canonical form (`None`: missing or unresolvable) lies
/// within `root`, in their order and spelling.
pub open spec fn confined(
    cands: Seq<Seq<char>>,
    reals: Seq<Option<Seq<char>>>,
    root: Seq<char>,
) -> Seq<Seq<char>>
    decreases cands.len(),
{
    if cands.len() == 0 {
        seq![]
    } else {
        let prev = confined(cands.drop_last(), reals.drop_last(), root);
        match reals[cands.len() - 1] {
            Some(r) => if within(r, root) {
                prev.push(cands.last())
            } else {
                prev
            },
            None => prev,
        }
    }
}

/// The views of a sequence of optional strings.
pub open spec fn opt_views(v: Seq<Option<String>>) -> Seq<Option<Seq<char>>> {
    v.map_values(|o: Option<String>| opt_view(o))
}

/// Each confined candidate is one of the candidates, and its canonical form
/// lies within the root.
pub proof fn lemma_confined_safe(
    cands: Seq<Seq<char>>,
    reals: Seq<Option<Seq<char>>>,
    root: Seq<char>,
)
    requires
        cands.len() == reals.len(),
    ensures
        forall|k: int|
            0 <= k < confined(cands, reals, root).len() ==> exists|i: int|
                0 <= i < cands.len() && cands[i] == #[trigger] confined(cands, reals, root)[k]
                    && reals[i] is Some && within(reals[i]->0, root),
    decreases cands.len(),
{
    if cands.len() > 0 {
        let c0 = cands.drop_last();
        let r0 = reals.drop_last();
        lemma_confined_safe(c0, r0, root);
        let prev = confined(c0, r0, root);
        let res = confined(cands, reals, root);
        assert forall|k: int| 0 <= k < res.len() implies exists|i: int|
            0 <= i < cands.len() && cands[i] == #[trigger] res[k] && reals[i] is Some && within(
                reals[i]->0,
                root,
            ) by {
            if k < prev.len() {
                assert(res[k] == prev[k]);
                let i = choose|i: int|
                    0 <= i < c0.len() && c0[i] == #[trigger] prev[k] && r0[i] is Some && within(
                        r0[i]->0,
                        root,
                    );
                assert(cands[i] == c0[i] && reals[i] == r0[i]);
            } else {
                assert(res[k] == cands[cands.len() - 1]);
            }
        }
    }
}

fn ends_with_slash(s: &Vec<char>) -> (r: bool)
    ensures
        r == (s@.len() > 0 && s@.last() == '/'),
{
    s.len() > 0 && s[s.len() - 1] == '/'
}

fn has_prefix(s: &Vec<char>, p: &Vec<char>) -> (r: bool)
    ensures
        r == starts_with(s@, p@),
{
    if p.len() > s.len() {
        return false;
    }
    let mut k: usize = 0;
    while k < p.len()
        invariant
            p@.len() <= s@.len(),
            k <= p@.len(),
            forall|m: int| 0 <= m < k ==> s@[m] == p@[m],
        decreases p@.len() - k,
    {
        if s[k] != p[k] {
            assert(s@.subrange(0, p@.len() as int)[k as int] != p@[k as int]);
            return false;
        }
        k = k + 1;
    }
    assert(s@.subrange(0, p@.len() as int) =~= p@);
    true
}

fn is_within(path: &Vec<char>, root: &Vec<char>) -> (r: bool)
    ensures
        r == within(path@, root@),
{
    assert(path@.subrange(0, path@.len() as int) =~= path@);
    let mut root_sep = root.clone();
    assert(root_sep@ =~= root@);
    root_sep.push('/');
    (path.len() == root.len() && has_prefix(path, root)) || (ends_with_slash(root) && has_prefix(
        path,
        root,
    )) || has_prefix(path, &root_sep)
}

/// Of the candidate files, those whose canonical path (`canonical[i]` for
/// `candidates[i]`; `None` where the file is missing or cannot be resolved)
/// is the canonical project root or lies below it. The candidates keep their
/// own spelling. Without a project root nothing is accepted.
pub fn select_confined(candidates: &[String], canonical: &[Option<String>], root: Option<&str>) -> (r:
    Vec<String>)
    requires
        candidates@.len() == canonical@.len(),
    ensures
        views(r@) == match root {
            Some(rt) => confined(views(candidates@), opt_views(canonical@), rt@),
            None => seq![],
        },
{
    let mut out: Vec<String> = Vec::new();
    let rt = match root {
        Some(rt) => rt,
        None => {
            return out;
        },
    };
    let rc = crate::text::chars_of(rt);
    let n = candidates.len();
    let mut i: usize = 0;
    assert(views(out@) =~= confined(
        views(candidates@).subrange(0, 0),
        opt_views(canonical@).subrange(0, 0),
        rt@,
    ));
    while i < n
        invariant
            i <= n == candidates@.len() == canonical@.len(),
            rc@ == rt@,
            views(out@) == confined(
                views(candidates@).subrange(0, i as int),
                opt_views(canonical@).subrange(0, i as int),
                rt@,
            ),
        decreases n - i,
    {
        let ghost cs = views(candidates@).subrange(0, i + 1);
        let ghost rs = opt_views(canonical@).subrange(0, i + 1);
        assert(cs.drop_last() =~= views(candidates@).subrange(0, i as int));
        assert(rs.drop_last() =~= opt_views(canonical@).subrange(0, i as int));
        assert(rs[i as int] == opt_view(canonical@[i as int]));
        let keep = match &canonical[i] {
            Some(resolved) => {
                let path = crate::text::chars_of(resolved.as_str());
                is_within(&path, &rc)
            },
            None => false,
        };
        if keep {
            let c = candidates[i].clone();
            assert(views(out@.push(c)) =~= views(out@).push(c@));
            out.push(c);
        }
        i = i + 1;
    }
    assert(views(candidates@).subrange(0, n as int) =~= views(candidates@));
    assert(opt_views(canonical@).subrange(0, n as int) =~= opt_views(canonical@));
    out
}

} // verus!
