//! Builds the set of excluded path prefixes from explicit exclusion arguments
//! and from the lines of an ignore file, and decides whether a path falls
//! under one of the prefixes.
//!
//! Ignore-file handling is literal: each non-empty line is taken verbatim as
//! a path prefix, resolved against the working directory the same way an
//! explicit exclusion is. There is no glob, negation, or nested-file
//! semantics; matching is a starts-with test, so duplicate prefixes are
//! harmless and are not deduplicated.

use vstd::prelude::*;
use vstd::string::StringExecFns;
use vstd::string::StrSliceExecFns;

verus! {

/// The `./` prefix every exclusion string is joined with.
pub open spec fn dot_slash() -> Seq<char> {
    seq!['.', '/']
}

/// An exclusion string resolved relative to the working directory.
pub open spec fn spec_join_dot_slash(p: Seq<char>) -> Seq<char> {
    dot_slash() + p
}

/// Joins a path with `./`, the way every exclusion entry is normalized.
pub fn join_dot_slash(p: &str) -> (r: String)
    ensures
        r@ == spec_join_dot_slash(p@),
{
    proof {
        reveal_strlit("./");
    }
    let mut s = String::from_str("./");
    s.append(p);
    proof {
        assert(s@ =~= spec_join_dot_slash(p@));
    }
    s
}

/// The exclusion arguments, each normalized with a `./` prefix; no arguments
/// yield the empty set.
pub open spec fn spec_exluded_files(paths: Option<Seq<Seq<char>>>) -> Seq<Seq<char>> {
    match paths {
        None => Seq::empty(),
        Some(ps) => ps.map_values(|p: Seq<char>| spec_join_dot_slash(p)),
    }
}

/// Resolves the explicit exclusion arguments into ignore-set prefixes.
pub fn get_exluded_files(paths: Option<Vec<String>>) -> (r: Vec<String>)
    ensures
        r.deep_view() == spec_exluded_files(paths.deep_view()),
{
    match paths {
        None => {
            let r: Vec<String> = Vec::new();
            proof {
                assert(r.deep_view() =~= spec_exluded_files(None));
            }
            r
        },
        Some(ps) => {
            let mut r: Vec<String> = Vec::new();
            let mut i: usize = 0;
            while i < ps.len()
                invariant
                    i <= ps.len(),
                    r@.len() == i,
                    forall|j: int| 0 <= j < i ==> r@[j]@ == spec_join_dot_slash(ps@[j]@),
                decreases ps.len() - i,
            {
                let joined = join_dot_slash(ps[i].as_str());
                r.push(joined);
                i += 1;
            }
            proof {
                assert(r.deep_view() =~= spec_exluded_files(Some(ps).deep_view()));
            }
            r
        },
    }
}

/// Whether some member of the ignore set is a prefix of `p`.
pub open spec fn spec_is_excluded(p: Seq<char>, ignore: Seq<Seq<char>>) -> bool {
    exists|i: int| 0 <= i < ignore.len() && (#[trigger] ignore[i]).is_prefix_of(p)
}

/// Character-for-character prefix test between two strings.
fn starts_with_str(s: &str, prefix: &str) -> (r: bool)
    ensures
        r == prefix@.is_prefix_of(s@),
{
    let n = prefix.unicode_len();
    let m = s.unicode_len();
    if n > m {
        return false;
    }
    let mut i: usize = 0;
    while i < n
        invariant
            i <= n,
            n <= m,
            n == prefix@.len(),
            m == s@.len(),
            forall|j: int| 0 <= j < i ==> s@[j] == prefix@[j],
        decreases n - i,
    {
        if s.get_char(i) != prefix.get_char(i) {
            proof {
                if prefix@.is_prefix_of(s@) {
                    assert(prefix@[i as int] == s@.subrange(0, n as int)[i as int]);
                }
            }
            return false;
        }
        i += 1;
    }
    proof {
        assert(prefix@ =~= s@.subrange(0, n as int));
    }
    true
}

/// Prefix test of a path against every member of the ignore set.
pub fn is_excluded(path: &str, ignore: &Vec<String>) -> (r: bool)
    ensures
        r == spec_is_excluded(path@, ignore.deep_view()),
{
    let mut i: usize = 0;
    while i < ignore.len()
        invariant
            i <= ignore@.len(),
            forall|j: int| 0 <= j < i ==> !(#[trigger] ignore.deep_view()[j]).is_prefix_of(path@),
        decreases ignore@.len() - i,
    {
        if starts_with_str(path, ignore[i].as_str()) {
            proof {
                assert(ignore.deep_view()[i as int].is_prefix_of(path@));
            }
            return true;
        }
        i += 1;
    }
    false
}

/// The content split at every `'\n'`; always at least one (possibly empty)
/// line, and a trailing `'\n'` opens a final empty line.
pub open spec fn spec_split_lines(s: Seq<char>) -> Seq<Seq<char>>
    decreases s.len(),
{
    if s.len() == 0 {
        seq![Seq::<char>::empty()]
    } else {
        let prev = spec_split_lines(s.drop_last());
        if s.last() == '\n' {
            prev.push(Seq::<char>::empty())
        } else {
            prev.drop_last().push(prev.last().push(s.last()))
        }
    }
}

pub proof fn lemma_split_lines_len(s: Seq<char>)
    ensures
        spec_split_lines(s).len() >= 1,
    decreases s.len(),
{
    if s.len() > 0 {
        lemma_split_lines_len(s.drop_last());
    }
}

/// Every non-empty line, joined with `./`, in line order.
pub open spec fn spec_keep_join(lines: Seq<Seq<char>>) -> Seq<Seq<char>>
    decreases lines.len(),
{
    if lines.len() == 0 {
        Seq::empty()
    } else {
        spec_keep_join(lines.drop_last()) + (if lines.last().len() > 0 {
            seq![spec_join_dot_slash(lines.last())]
        } else {
            Seq::<Seq<char>>::empty()
        })
    }
}

/// The ignore-set prefixes an ignore file's content contributes: each
/// non-empty line, resolved with a `./` prefix, in line order.
pub open spec fn spec_gitignore_paths(contents: Seq<char>) -> Seq<Seq<char>> {
    spec_keep_join(spec_split_lines(contents))
}

/// Parses an ignore file's content into ignore-set prefixes.
pub fn get_paths_from_gitignore(contents: &str) -> (r: Vec<String>)
    ensures
        r.deep_view() == spec_gitignore_paths(contents@),
{
    let n = contents.unicode_len();
    let mut r: Vec<String> = Vec::new();
    let mut st: usize = 0;
    let mut i: usize = 0;
    proof {
        assert(contents@.take(0) =~= Seq::<char>::empty());
        assert(r.deep_view() =~= Seq::<Seq<char>>::empty());
    }
    while i < n
        invariant
            st <= i <= n,
            n == contents@.len(),
            spec_split_lines(contents@.take(i as int)).last() == contents@.subrange(
                st as int,
                i as int,
            ),
            r.deep_view() == spec_keep_join(
                spec_split_lines(contents@.take(i as int)).drop_last(),
            ),
        decreases n - i,
    {
        proof {
            lemma_split_lines_len(contents@.take(i as int));
            assert(contents@.take(i + 1).drop_last() =~= contents@.take(i as int));
        }
        let ghost prev = spec_split_lines(contents@.take(i as int));
        let c = contents.get_char(i);
        if c == '\n' {
            if i > st {
                let line = contents.substring_char(st, i);
                let joined = join_dot_slash(line);
                r.push(joined);
                proof {
                    assert(prev.push(Seq::<char>::empty()).drop_last() =~= prev);
                    assert(prev.drop_last().push(prev.last()) =~= prev);
                    assert(r.deep_view() =~= spec_keep_join(prev.drop_last()) + seq![
                        spec_join_dot_slash(prev.last()),
                    ]);
                }
            } else {
                proof {
                    assert(contents@.subrange(st as int, i as int) =~= Seq::<char>::empty());
                    assert(prev.push(Seq::<char>::empty()).drop_last() =~= prev);
                    assert(prev.drop_last().push(prev.last()) =~= prev);
                    assert(spec_keep_join(prev) == spec_keep_join(prev.drop_last()));
                }
            }
            st = i + 1;
            proof {
                assert(spec_split_lines(contents@.take(i + 1)).last() =~= contents@.subrange(
                    i + 1,
                    i + 1,
                ));
            }
        } else {
            proof {
                assert(prev.drop_last().push(prev.last().push(contents@[i as int])).drop_last()
                    =~= prev.drop_last());
                assert(contents@.subrange(st as int, i as int).push(contents@[i as int])
                    =~= contents@.subrange(st as int, i + 1));
            }
        }
        i += 1;
    }
    proof {
        lemma_split_lines_len(contents@.take(n as int));
        assert(contents@.take(n as int) =~= contents@);
    }
    let ghost whole = spec_split_lines(contents@);
    if n > st {
        let line = contents.substring_char(st, n);
        let joined = join_dot_slash(line);
        r.push(joined);
        proof {
            assert(whole.drop_last().push(whole.last()) =~= whole);
            assert(r.deep_view() =~= spec_keep_join(whole.drop_last()) + seq![
                spec_join_dot_slash(whole.last()),
            ]);
        }
    } else {
        proof {
            assert(contents@.subrange(st as int, n as int) =~= Seq::<char>::empty());
            assert(whole.drop_last().push(whole.last()) =~= whole);
            assert(spec_keep_join(whole) == spec_keep_join(whole.drop_last()));
        }
    }
    r
}

} // verus!
