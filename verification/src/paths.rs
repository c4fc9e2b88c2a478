//! Path safety: a caller-supplied relative path is split into segments,
//! normalized (`.` and empty segments dropped, `..` popping a segment), and
//! rejected when it would escape the template root; only then is it joined
//! under the root. Containment is decided before any filesystem access.

use vstd::prelude::*;

use crate::errors::ScaffoldError;

verus! {

/// The segments of `s` split on `'/'`; always at least one segment.
pub open spec fn split_slash(s: Seq<char>) -> Seq<Seq<char>>
    decreases s.len(),
{
    if s.len() == 0 {
        seq![Seq::<char>::empty()]
    } else if s[0] == '/' {
        seq![Seq::<char>::empty()] + split_slash(s.drop_first())
    } else {
        let r = split_slash(s.drop_first());
        seq![seq![s[0]] + r[0]] + r.drop_first()
    }
}

pub proof fn lemma_split_nonempty(s: Seq<char>)
    ensures
        split_slash(s).len() >= 1,
    decreases s.len(),
{
    if s.len() == 0 {
    } else {
        lemma_split_nonempty(s.drop_first());
    }
}

/// Splitting at the first slash: when `s` has no slash before `k` and either
/// ends at `k` or carries a slash there, the split is the prefix up to `k`
/// followed by the split of what comes after the slash.
pub proof fn lemma_split_at_first(s: Seq<char>, k: int)
    requires
        0 <= k <= s.len(),
        forall|j: int| 0 <= j < k ==> s[j] != '/',
        k == s.len() || s[k] == '/',
    ensures
        k == s.len() ==> split_slash(s) == seq![s],
        k < s.len() ==> split_slash(s) == seq![s.take(k)] + split_slash(s.skip(k + 1)),
    decreases k,
{
    lemma_split_nonempty(s);
    if k == 0 {
        if s.len() == 0 {
            assert(split_slash(s) =~~= seq![s]);
        } else {
            assert(s[0] == '/');
            assert(s.take(0) =~= Seq::<char>::empty());
            assert(s.drop_first() =~= s.skip(1));
            assert(split_slash(s) =~= seq![s.take(0)] + split_slash(s.skip(1)));
        }
    } else {
        let t = s.drop_first();
        lemma_split_nonempty(t);
        assert(forall|j: int| 0 <= j < k - 1 ==> t[j] == s[j + 1] && t[j] != '/');
        lemma_split_at_first(t, k - 1);
        let r = split_slash(t);
        if k == s.len() {
            assert(r == seq![t]);
            assert(seq![s[0]] + r[0] =~= s);
            assert(r.drop_first() =~= Seq::<Seq<char>>::empty());
            assert(split_slash(s) =~= seq![s]);
        } else {
            assert(r == seq![t.take(k - 1)] + split_slash(t.skip(k)));
            assert(r[0] == t.take(k - 1));
            assert(seq![s[0]] + t.take(k - 1) =~= s.take(k));
            assert(r.drop_first() =~= split_slash(t.skip(k)));
            assert(t.skip(k) =~= s.skip(k + 1));
            assert(split_slash(s) =~= seq![s.take(k)] + split_slash(s.skip(k + 1)));
        }
    }
}

/// The images of a vector of segments.
pub open spec fn seg_views(s: Seq<String>) -> Seq<Seq<char>> {
    s.map_values(|x: String| x@)
}

/// Splits a string on `'/'`.
pub fn split_slash_exec(s: &str) -> (segs: Vec<String>)
    ensures
        seg_views(segs@) == split_slash(s@),
{
    let n: usize = s.unicode_len();
    let mut segs: Vec<String> = Vec::new();
    let mut start: usize = 0;
    let mut i: usize = 0;
    proof {
        assert(s@.skip(0) =~= s@);
    }
    while i < n
        invariant
            start <= i <= n,
            n == s@.len(),
            split_slash(s@) == seg_views(segs@) + split_slash(s@.skip(start as int)),
            forall|j: int| start <= j < i ==> s@[j] != '/',
        decreases n - i,
    {
        let c = s.get_char(i);
        if c == '/' {
            let seg = String::from_str(s.substring_char(start, i));
            proof {
                let rem = s@.skip(start as int);
                assert(forall|j: int| 0 <= j < i - start ==> rem[j] == s@[j + start]
                    && rem[j] != '/');
                assert(rem[i - start] == s@[i as int]);
                lemma_split_at_first(rem, i - start);
                assert(rem.take(i - start) =~= s@.subrange(start as int, i as int));
                assert(rem.skip(i - start + 1) =~= s@.skip(i as int + 1));
                assert(seg_views(segs@.push(seg)) =~= seg_views(segs@) + seq![seg@]);
                assert(seg_views(segs@) + (seq![seg@] + split_slash(s@.skip(i as int + 1)))
                    =~= (seg_views(segs@) + seq![seg@]) + split_slash(s@.skip(i as int + 1)));
            }
            segs.push(seg);
            start = i + 1;
        }
        i = i + 1;
    }
    let seg = String::from_str(s.substring_char(start, n));
    proof {
        let rem = s@.skip(start as int);
        assert(forall|j: int| 0 <= j < rem.len() ==> rem[j] == s@[j + start] && rem[j] != '/');
        lemma_split_at_first(rem, rem.len() as int);
        assert(rem =~= s@.subrange(start as int, n as int));
        assert(seg_views(segs@.push(seg)) =~= seg_views(segs@) + seq![seg@]);
        assert(seg_views(segs@) + seq![rem] =~= seg_views(segs@.push(seg)));
    }
    segs.push(seg);
    segs
}

/// Normalization of a segment list: empty and `.` segments are dropped, `..`
/// pops the last kept segment, and a `..` with nothing left to pop means the
/// path escapes the root: no result.
pub open spec fn normalize_segs(segs: Seq<Seq<char>>) -> Option<Seq<Seq<char>>>
    decreases segs.len(),
{
    if segs.len() == 0 {
        Option::Some(Seq::<Seq<char>>::empty())
    } else {
        match normalize_segs(segs.drop_last()) {
            Option::None => Option::None,
            Option::Some(st) => {
                let last = segs.last();
                if last == Seq::<char>::empty() || last == "."@ {
                    Option::Some(st)
                } else if last == ".."@ {
                    if st.len() == 0 {
                        Option::None
                    } else {
                        Option::Some(st.drop_last())
                    }
                } else {
                    Option::Some(st.push(last))
                }
            },
        }
    }
}

/// Once a prefix of the segments escapes, the whole path escapes.
pub proof fn lemma_normalize_prefix_none(segs: Seq<Seq<char>>, m: int)
    requires
        0 <= m <= segs.len(),
        normalize_segs(segs.take(m)) is None,
    ensures
        normalize_segs(segs) is None,
    decreases segs.len() - m,
{
    if m == segs.len() {
        assert(segs.take(m) =~= segs);
    } else {
        assert(segs.take(m + 1).drop_last() =~= segs.take(m));
        lemma_normalize_prefix_none(segs, m + 1);
    }
}

/// What normalization keeps is clean: no kept segment is empty, `.` or `..`.
pub proof fn lemma_normalized_segs_clean(segs: Seq<Seq<char>>)
    ensures
        normalize_segs(segs) matches Some(st) ==> forall|k: int|
            0 <= k < st.len() ==> #[trigger] st[k] != Seq::<char>::empty() && st[k] != "."@
                && st[k] != ".."@,
    decreases segs.len(),
{
    if segs.len() == 0 {
    } else {
        lemma_normalized_segs_clean(segs.drop_last());
    }
}

/// Runs `normalize_segs` on concrete segments.
pub fn normalize_segments(segs: &Vec<String>) -> (r: Option<Vec<String>>)
    ensures
        match r {
            Option::Some(st) => normalize_segs(seg_views(segs@)) == Option::Some(
                seg_views(st@),
            ),
            Option::None => normalize_segs(seg_views(segs@)) is None,
        },
{
    let ghost svs = seg_views(segs@);
    let mut stack: Vec<String> = Vec::new();
    let mut i: usize = 0;
    proof {
        assert(svs.take(0) =~= Seq::<Seq<char>>::empty());
        assert(seg_views(stack@) =~= Seq::<Seq<char>>::empty());
    }
    while i < segs.len()
        invariant
            i <= segs.len(),
            svs == seg_views(segs@),
            normalize_segs(svs.take(i as int)) == Option::Some(seg_views(stack@)),
        decreases segs.len() - i,
    {
        proof {
            assert(svs.take(i as int + 1).drop_last() =~= svs.take(i as int));
            assert(svs.take(i as int + 1).last() == svs[i as int]);
        }
        let seg = &segs[i];
        if crate::text::str_eq(seg.as_str(), "") || crate::text::str_eq(seg.as_str(), ".") {
            proof {
                assert(("")@ =~= Seq::<char>::empty()) by {
                    reveal_strlit("");
                }
            }
        } else if crate::text::str_eq(seg.as_str(), "..") {
            proof {
                reveal_strlit("");
                reveal_strlit(".");
                reveal_strlit("..");
                assert(("")@ =~= Seq::<char>::empty());
                assert((".")@.len() == 1);
                assert(("..")@.len() == 2);
            }
            if stack.len() == 0 {
                proof {
                    assert(seg_views(stack@).len() == 0);
                    assert(normalize_segs(svs.take(i as int + 1)) is None);
                    lemma_normalize_prefix_none(svs, i as int + 1);
                }
                return Option::None;
            }
            proof {
                assert(seg_views(stack@).len() > 0);
                assert(seg_views(stack@.drop_last()) =~= seg_views(stack@).drop_last());
            }
            stack.pop();
        } else {
            proof {
                assert(("")@ =~= Seq::<char>::empty()) by {
                    reveal_strlit("");
                }
                assert(seg_views(stack@.push(segs@[i as int])) =~= seg_views(stack@).push(
                    svs[i as int]));
            }
            let kept = seg.clone();
            stack.push(kept);
        }
        i = i + 1;
    }
    proof {
        assert(svs.take(segs@.len() as int) =~= svs);
    }
    Option::Some(stack)
}

/// The segments joined with `'/'` between them.
pub open spec fn join_segs(segs: Seq<Seq<char>>) -> Seq<char>
    decreases segs.len(),
{
    if segs.len() == 0 {
        Seq::<char>::empty()
    } else if segs.len() == 1 {
        segs[0]
    } else {
        join_segs(segs.drop_last()) + seq!['/'] + segs.last()
    }
}

/// Where a relative path resolves under a root: nowhere when it is absolute
/// or escapes the root, else at the root joined with the normalized path.
pub open spec fn resolved_path(root: Seq<char>, rel: Seq<char>) -> Option<Seq<char>> {
    if rel.len() > 0 && rel[0] == '/' {
        Option::None
    } else {
        match normalize_segs(split_slash(rel)) {
            Option::Some(st) => Option::Some(root + seq!['/'] + join_segs(st)),
            Option::None => Option::None,
        }
    }
}

/// Containment: whenever a relative path resolves at all, the resolved path
/// lies under the root — it begins with the root followed by a separator,
/// and what follows is built from clean segments only, so no traversal
/// survives resolution.
pub proof fn lemma_resolved_path_contained(root: Seq<char>, rel: Seq<char>)
    ensures
        resolved_path(root, rel) matches Some(p) ==> p.len() >= root.len() + 1 && p.take(
            root.len() as int + 1,
        ) == root + seq!['/'],
        resolved_path(root, rel) matches Some(p) ==> exists|st: Seq<Seq<char>>|
            p == root + seq!['/'] + join_segs(st) && (forall|k: int|
                0 <= k < st.len() ==> #[trigger] st[k] != Seq::<char>::empty() && st[k] != "."@
                    && st[k] != ".."@),
{
    if resolved_path(root, rel) is Some {
        let st = normalize_segs(split_slash(rel))->Some_0;
        lemma_normalized_segs_clean(split_slash(rel));
        let p = root + seq!['/'] + join_segs(st);
        assert(p.take(root.len() as int + 1) =~= root + seq!['/']);
        assert(p == root + seq!['/'] + join_segs(st));
    }
}

/// Resolves a caller-supplied relative path against a template root,
/// rejecting any path that is absolute or escapes the root before any
/// filesystem access can happen.
pub fn resolve_template_file(template_path: &str, file_path: &str) -> (r: Result<
    String,
    ScaffoldError,
>)
    ensures
        r matches Ok(p) ==> resolved_path(template_path@, file_path@) == Option::Some(p@),
        r matches Err(e) ==> e == ScaffoldError::FileReadError && resolved_path(
            template_path@,
            file_path@,
        ) is None,
{
    if file_path.unicode_len() > 0 && file_path.get_char(0) == '/' {
        return Err(ScaffoldError::FileReadError);
    }
    let segs = split_slash_exec(file_path);
    let st = match normalize_segments(&segs) {
        Option::Some(st) => st,
        Option::None => {
            return Err(ScaffoldError::FileReadError);
        },
    };
    let mut out = String::from_str(template_path);
    out.append("/");
    proof {
        reveal_strlit("/");
        assert(("/")@ =~= seq!['/']);
        assert(join_segs(seg_views(st@).take(0)) =~= Seq::<char>::empty());
        assert(template_path@ + seq!['/'] + Seq::<char>::empty() =~= template_path@
            + seq!['/']);
    }
    let mut i: usize = 0;
    while i < st.len()
        invariant
            i <= st.len(),
            out@ == template_path@ + seq!['/'] + join_segs(seg_views(st@).take(i as int)),
        decreases st.len() - i,
    {
        let ghost jvs = seg_views(st@);
        proof {
            assert(jvs.take(i as int + 1).drop_last() =~= jvs.take(i as int));
            assert(jvs.take(i as int + 1).last() == jvs[i as int]);
        }
        if i > 0 {
            out.append("/");
            proof {
                reveal_strlit("/");
                assert(("/")@ =~= seq!['/']);
            }
        }
        out.append(st[i].as_str());
        proof {
            if i == 0 {
                assert(jvs.take(1).len() == 1);
                assert(join_segs(jvs.take(1)) == jvs[0]);
                assert(template_path@ + seq!['/'] + Seq::<char>::empty() + jvs[0]
                    =~= template_path@ + seq!['/'] + jvs[0]);
            } else {
                assert(jvs.take(i as int + 1).len() >= 2);
                assert(join_segs(jvs.take(i as int + 1)) == join_segs(jvs.take(i as int))
                    + seq!['/'] + jvs[i as int]);
                assert(template_path@ + seq!['/'] + join_segs(jvs.take(i as int)) + seq!['/']
                    + jvs[i as int] =~= template_path@ + seq!['/'] + (join_segs(
                    jvs.take(i as int),
                ) + seq!['/'] + jvs[i as int]));
            }
        }
        i = i + 1;
    }
    proof {
        assert(seg_views(st@).take(st@.len() as int) =~= seg_views(st@));
    }
    Ok(out)
}

} // verus!
