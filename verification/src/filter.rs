//! Narrows a file list to the paths whose extension is in an allow-list.
//!
//! A path's extension is the text after the final `.` of its file name (the
//! text after the final `/`), case-sensitive and without the dot. A file
//! whose name has no dot has no extension and never passes an allow-list.
//! Without an allow-list the list passes through unchanged.

use vstd::prelude::*;
use vstd::seq_lib::*;
use vstd::string::StringExecFns;
use vstd::string::StrSliceExecFns;

verus! {

/// The file name: the text after the final `/`, or the whole path.
pub open spec fn spec_file_name(p: Seq<char>) -> Seq<char> {
    match p.index_of_last('/') {
        Some(k) => p.subrange(k + 1, p.len() as int),
        None => p,
    }
}

/// The extension: the text after the final `.` of the file name, or nothing
/// when the file name has no dot.
pub open spec fn spec_extension(p: Seq<char>) -> Option<Seq<char>> {
    let name = spec_file_name(p);
    match name.index_of_last('.') {
        Some(k) => Some(name.subrange(k + 1, name.len() as int)),
        None => None,
    }
}

/// Whether the path's extension is a member of the allow-list.
pub open spec fn ext_in_list(p: Seq<char>, exts: Seq<Seq<char>>) -> bool {
    match spec_extension(p) {
        Some(e) => exts.contains(e),
        None => false,
    }
}

/// The allow-list test as a predicate on paths.
pub open spec fn allowed_pred(exts: Seq<Seq<char>>) -> spec_fn(Seq<char>) -> bool {
    |p: Seq<char>| ext_in_list(p, exts)
}

/// The filtered file list: unchanged without an allow-list, otherwise the
/// subsequence of paths whose extension is in the list.
pub open spec fn spec_filter_files(
    ps: Seq<Seq<char>>,
    exts: Option<Seq<Seq<char>>>,
) -> Seq<Seq<char>> {
    match exts {
        None => ps,
        Some(es) => ps.filter(allowed_pred(es)),
    }
}

/// Extracts the extension of a path, as `spec_extension` describes it.
pub fn path_extension(p: &str) -> (r: Option<String>)
    ensures
        r.deep_view() == spec_extension(p@),
{
    let n = p.unicode_len();
    let mut i: usize = n;
    while i > 0
        invariant
            i <= n,
            n == p@.len(),
            forall|j: int| i <= j < n ==> p@[j] != '.' && p@[j] != '/',
        decreases i,
    {
        let c = p.get_char(i - 1);
        if c == '/' {
            proof {
                lemma_extension_no_dot_after_slash(p@, i as int);
            }
            return None;
        }
        if c == '.' {
            let e = p.substring_char(i, n);
            proof {
                lemma_extension_at_last_dot(p@, i as int);
            }
            return Some(String::from_str(e));
        }
        i -= 1;
    }
    proof {
        p@.index_of_last_ensures('/');
        if p@.index_of_last('/') is Some {
            let m = p@.index_of_last('/').unwrap();
            assert(p@[m] != '/');
        }
        p@.index_of_last_ensures('.');
        if p@.index_of_last('.') is Some {
            let m = p@.index_of_last('.').unwrap();
            assert(p@[m] != '.');
        }
    }
    None
}

/// When the scan from the end meets `/` before any `.`, the file name holds
/// no dot, so the path has no extension.
proof fn lemma_extension_no_dot_after_slash(p: Seq<char>, i: int)
    requires
        1 <= i <= p.len(),
        p[i - 1] == '/',
        forall|j: int| i <= j < p.len() ==> p[j] != '.' && p[j] != '/',
    ensures
        spec_extension(p) is None,
{
    let n = p.len() as int;
    p.index_of_last_ensures('/');
    assert(p.contains('/')) by {
        assert(p[i - 1] == '/');
    }
    let m = p.index_of_last('/').unwrap();
    assert(m == i - 1) by {
        if m < i - 1 {
            assert(p[i - 1] != '/');
        }
        if m > i - 1 {
            assert(p[m] != '/');
        }
    }
    let name = p.subrange(i, n);
    assert(spec_file_name(p) == name);
    name.index_of_last_ensures('.');
    if name.index_of_last('.') is Some {
        let d = name.index_of_last('.').unwrap();
        assert(name[d] == p[d + i]);
        assert(false);
    }
}

/// When the scan from the end meets `.` before any `/`, that dot is the last
/// dot of the file name and the extension is everything after it.
proof fn lemma_extension_at_last_dot(p: Seq<char>, i: int)
    requires
        1 <= i <= p.len(),
        p[i - 1] == '.',
        forall|j: int| i <= j < p.len() ==> p[j] != '.' && p[j] != '/',
    ensures
        spec_extension(p) == Some(p.subrange(i, p.len() as int)),
{
    let n = p.len() as int;
    let k = i - 1;
    p.index_of_last_ensures('/');
    match p.index_of_last('/') {
        Some(m) => {
            assert(m != k);
            assert(m < k) by {
                if m > k {
                    assert(p[m] != '/');
                }
            }
            let name = p.subrange(m + 1, n);
            assert(spec_file_name(p) == name);
            lemma_last_dot_in_name(p, name, m + 1, k);
            assert(name.subrange(k - m, name.len() as int) =~= p.subrange(i, n));
        },
        None => {
            let name = p;
            assert(spec_file_name(p) == name);
            assert(name =~= p.subrange(0, n));
            lemma_last_dot_in_name(p, name, 0, k);
            assert(name.subrange(k + 1, name.len() as int) =~= p.subrange(i, n));
        },
    }
}

/// Inside the file name that starts at `off` in `p`, the dot at `k` (absolute
/// in `p`, with no later dot) is the last dot.
proof fn lemma_last_dot_in_name(p: Seq<char>, name: Seq<char>, off: int, k: int)
    requires
        0 <= off <= k < p.len(),
        name == p.subrange(off, p.len() as int),
        p[k] == '.',
        forall|j: int| k < j < p.len() ==> p[j] != '.',
    ensures
        name.index_of_last('.') == Some(k - off),
{
    let rel = k - off;
    assert(name[rel] == '.');
    assert(name.contains('.')) by {
        assert(name[rel] == '.');
    }
    name.index_of_last_ensures('.');
    let d = name.index_of_last('.').unwrap();
    assert(d == rel) by {
        if d < rel {
            assert(name[rel] != '.');
        }
        if d > rel {
            assert(name[d] == p[d + off]);
            assert(p[d + off] != '.');
        }
    }
}

/// Membership test of a string in a list of strings.
fn contains_string(list: &Vec<String>, x: &String) -> (r: bool)
    ensures
        r == list.deep_view().contains(x@),
{
    let mut i: usize = 0;
    while i < list.len()
        invariant
            i <= list@.len(),
            forall|j: int| 0 <= j < i ==> list.deep_view()[j] != x@,
        decreases list@.len() - i,
    {
        if list[i] == *x {
            proof {
                assert(list.deep_view()[i as int] == x@);
            }
            return true;
        }
        i += 1;
    }
    proof {
        if list.deep_view().contains(x@) {
            let j = choose|j: int|
                0 <= j < list.deep_view().len() && list.deep_view()[j] == x@;
            assert(list.deep_view()[j] != x@);
        }
    }
    false
}

/// Filters the file list by the optional extension allow-list; without one,
/// the list is returned unchanged.
pub fn filter_files(pathes: Vec<String>, file_extensions: Option<Vec<String>>) -> (r: Vec<String>)
    ensures
        r.deep_view() == spec_filter_files(pathes.deep_view(), file_extensions.deep_view()),
{
    let exts = match file_extensions {
        None => {
            return pathes;
        },
        Some(es) => es,
    };
    let ghost pred = allowed_pred(exts.deep_view());
    let mut r: Vec<String> = Vec::new();
    let mut i: usize = 0;
    proof {
        reveal(Seq::filter);
        assert(pathes.deep_view().take(0) =~= Seq::<Seq<char>>::empty());
        assert(r.deep_view() =~= pathes.deep_view().take(0).filter(pred));
    }
    while i < pathes.len()
        invariant
            i <= pathes@.len(),
            pred == allowed_pred(exts.deep_view()),
            r.deep_view() == pathes.deep_view().take(i as int).filter(pred),
        decreases pathes@.len() - i,
    {
        let keep = match path_extension(pathes[i].as_str()) {
            None => false,
            Some(e) => contains_string(&exts, &e),
        };
        proof {
            assert(keep == pred(pathes@[i as int]@));
        }
        if keep {
            r.push(pathes[i].clone());
        }
        proof {
            reveal(Seq::filter);
            let pre = pathes.deep_view().take(i as int);
            let cur = pathes.deep_view().take(i + 1);
            assert(cur.drop_last() =~= pre);
            assert(cur.last() == pathes@[i as int]@);
            if keep {
                assert(r.deep_view() =~= pre.filter(pred).push(pathes@[i as int]@));
            }
        }
        i += 1;
    }
    proof {
        assert(pathes.deep_view().take(pathes@.len() as int) =~= pathes.deep_view());
    }
    r
}

/// `s` can be read off `t` by deleting elements and keeping the order of the
/// rest.
pub open spec fn is_subsequence_of<A>(s: Seq<A>, t: Seq<A>) -> bool
    decreases t.len(),
{
    if s.len() == 0 {
        true
    } else if t.len() == 0 {
        false
    } else if s.last() == t.last() {
        is_subsequence_of(s.drop_last(), t.drop_last())
    } else {
        is_subsequence_of(s, t.drop_last())
    }
}

/// A subsequence stays one after its last element is dropped.
proof fn lemma_subsequence_drop_last<A>(s: Seq<A>, t: Seq<A>)
    requires
        is_subsequence_of(s, t),
        s.len() > 0,
    ensures
        is_subsequence_of(s.drop_last(), t),
    decreases t.len(),
{
    if t.len() == 0 {
    } else if s.last() == t.last() {
        if s.len() > 1 {
            lemma_subsequence_drop_last(s.drop_last(), t.drop_last());
        }
    } else {
        lemma_subsequence_drop_last(s, t.drop_last());
        if s.drop_last().len() > 0 && s.drop_last().last() == t.last() {
            lemma_subsequence_drop_last(s.drop_last(), t.drop_last());
        }
    }
}

/// What a filter keeps is an order-preserving subsequence of its input.
pub proof fn lemma_filter_is_subsequence<A>(t: Seq<A>, pred: spec_fn(A) -> bool)
    ensures
        is_subsequence_of(t.filter(pred), t),
    decreases t.len(),
{
    reveal(Seq::filter);
    if t.len() > 0 {
        let t0 = t.drop_last();
        lemma_filter_is_subsequence(t0, pred);
        if pred(t.last()) {
            assert(t.filter(pred).drop_last() =~= t0.filter(pred));
        } else {
            let f = t.filter(pred);
            if f.len() > 0 && f.last() == t.last() {
                lemma_subsequence_drop_last(f, t0);
            }
        }
    }
}

/// Each value occurs in a filter's output exactly as often as in the input
/// when it passes the predicate, and never when it does not.
proof fn lemma_filter_count<A>(t: Seq<A>, pred: spec_fn(A) -> bool, x: A)
    ensures
        t.filter(pred).to_multiset().count(x) == if pred(x) {
            t.to_multiset().count(x)
        } else {
            0nat
        },
    decreases t.len(),
{
    broadcast use vstd::seq_lib::group_to_multiset_ensures;

    reveal(Seq::filter);
    if t.len() == 0 {
        assert(!t.filter(pred).contains(x));
        assert(!t.contains(x));
    } else {
        lemma_filter_count(t.drop_last(), pred, x);
        assert(t.drop_last().push(t.last()) =~= t);
    }
}

/// The filtered output is an order-preserving subsequence of the file list:
/// every path it holds passes the allow-list, every path of the input that
/// passes the allow-list is in it, and each passing path keeps exactly the
/// number of occurrences it had.
pub proof fn lemma_filter_files_subsequence(ps: Seq<Seq<char>>, es: Seq<Seq<char>>)
    ensures
        is_subsequence_of(spec_filter_files(ps, Some(es)), ps),
        forall|i: int|
            0 <= i < spec_filter_files(ps, Some(es)).len() ==> ext_in_list(
                #[trigger] spec_filter_files(ps, Some(es))[i],
                es,
            ),
        forall|i: int|
            0 <= i < ps.len() && ext_in_list(#[trigger] ps[i], es) ==> spec_filter_files(
                ps,
                Some(es),
            ).contains(ps[i]),
        forall|x: Seq<char>|
            #[trigger] spec_filter_files(ps, Some(es)).to_multiset().count(x) == if ext_in_list(
                x,
                es,
            ) {
                ps.to_multiset().count(x)
            } else {
                0nat
            },
{
    let pred = allowed_pred(es);
    let out = ps.filter(pred);
    lemma_filter_is_subsequence(ps, pred);
    assert forall|i: int| 0 <= i < out.len() implies ext_in_list(#[trigger] out[i], es) by {
        ps.lemma_filter_pred(pred, i);
    }
    assert forall|i: int| 0 <= i < ps.len() && ext_in_list(#[trigger] ps[i], es) implies out.contains(
        ps[i],
    ) by {
        ps.lemma_filter_contains(pred, i);
    }
    assert forall|x: Seq<char>|
        #[trigger] out.to_multiset().count(x) == if ext_in_list(x, es) {
            ps.to_multiset().count(x)
        } else {
            0nat
        } by {
        lemma_filter_count(ps, pred, x);
    }
}

} // verus!
