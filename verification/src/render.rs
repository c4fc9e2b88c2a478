//! Placeholder rendering: every occurrence of the fixed project-name token
//! in a template file's text is replaced, left to right and without
//! re-scanning what was substituted, by the project name taken verbatim.

use vstd::prelude::*;

verus! {

/// The fixed project-name placeholder token.
pub open spec fn placeholder() -> Seq<char> {
    "{{PROJECT_NAME}}"@
}

/// `s` with every occurrence of `pat` replaced by `rep`, scanning left to
/// right; an occurrence is consumed whole, and `rep` is never re-scanned.
pub open spec fn replaced(s: Seq<char>, pat: Seq<char>, rep: Seq<char>) -> Seq<char>
    decreases s.len(),
{
    if pat.len() == 0 || s.len() < pat.len() {
        s
    } else if s.take(pat.len() as int) == pat {
        rep + replaced(s.skip(pat.len() as int), pat, rep)
    } else {
        seq![s[0]] + replaced(s.drop_first(), pat, rep)
    }
}

/// Whether `pat` occurs in `content` starting at `at`.
fn match_at(content: &str, at: usize, pat: &str) -> (r: bool)
    requires
        at + pat@.len() <= content@.len(),
        content@.len() <= usize::MAX,
    ensures
        r == (content@.subrange(at as int, at + pat@.len()) == pat@),
{
    let plen: usize = pat.unicode_len();
    let mut j: usize = 0;
    while j < plen
        invariant
            j <= plen,
            plen == pat@.len(),
            at + plen <= content@.len(),
            content@.len() <= usize::MAX,
            forall|k: int| 0 <= k < j ==> content@[at + k] == pat@[k],
        decreases plen - j,
    {
        if content.get_char(at + j) != pat.get_char(j) {
            proof {
                assert(content@.subrange(at as int, at + pat@.len())[j as int]
                    == content@[at + j]);
            }
            return false;
        }
        j = j + 1;
    }
    proof {
        assert(content@.subrange(at as int, at + pat@.len()) =~= pat@);
    }
    true
}

/// Renders one template file's text: replaces every occurrence of the
/// project-name placeholder with `project_name`, as plain text.
pub fn render_template_content(content: &str, project_name: &str) -> (r: String)
    ensures
        r@ == replaced(content@, placeholder(), project_name@),
{
    let pat: &str = "{{PROJECT_NAME}}";
    proof {
        reveal_strlit("{{PROJECT_NAME}}");
    }
    let plen: usize = pat.unicode_len();
    let n: usize = content.unicode_len();
    let mut out = String::new();
    let mut i: usize = 0;
    proof {
        assert(content@.skip(0) =~= content@);
    }
    while i < n
        invariant
            i <= n,
            n == content@.len(),
            plen == pat@.len(),
            plen >= 1,
            pat@ == placeholder(),
            replaced(content@, placeholder(), project_name@) == out@ + replaced(
                content@.skip(i as int),
                placeholder(),
                project_name@,
            ),
        decreases n - i,
    {
        let ghost rem = content@.skip(i as int);
        if plen <= n - i && match_at(content, i, pat) {
            proof {
                assert(rem.take(plen as int) =~= content@.subrange(i as int, i + plen));
                assert(rem.skip(plen as int) =~= content@.skip(i as int + plen));
            }
            out.append(project_name);
            i = i + plen;
        } else {
            proof {
                assert(rem[0] == content@[i as int]);
                assert(rem.drop_first() =~= content@.skip(i as int + 1));
                if i + plen <= n {
                    assert(rem.take(plen as int) =~= content@.subrange(i as int, i + plen));
                    assert(rem.take(plen as int) != pat@);
                } else {
                    assert(rem.len() < plen);
                    assert(replaced(rem, placeholder(), project_name@) == rem);
                    assert(rem.drop_first().len() < plen);
                    assert(replaced(rem.drop_first(), placeholder(), project_name@)
                        == rem.drop_first());
                    assert(seq![rem[0]] + rem.drop_first() =~= rem);
                }
                assert(replaced(rem, placeholder(), project_name@) == seq![content@[i as int]]
                    + replaced(content@.skip(i as int + 1), placeholder(), project_name@));
            }
            let piece = content.substring_char(i, i + 1);
            proof {
                assert(piece@ =~= seq![content@[i as int]]);
            }
            out.append(piece);
            i = i + 1;
        }
        proof {
            assert(out@ + (replaced(content@.skip(i as int), placeholder(), project_name@))
                == replaced(content@, placeholder(), project_name@));
        }
    }
    proof {
        assert(content@.skip(n as int).len() == 0);
        assert(replaced(content@.skip(n as int), placeholder(), project_name@)
            == content@.skip(n as int));
        assert(out@ + content@.skip(n as int) =~= out@);
    }
    out
}

} // verus!
