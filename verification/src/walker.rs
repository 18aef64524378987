//! Walks a directory tree depth-first, pruning every entry whose path falls
//! under an excluded prefix, and collects the paths of the surviving files.
//!
//! The tree is a snapshot of the filesystem: each node carries the full path
//! it was reached under. A pruned directory is dropped whole — nothing below
//! it is visited — and directories themselves never appear in the file list.

use vstd::prelude::*;
use vstd::seq_lib::lemma_multiset_commutative;
use crate::ignore_rules::spec_is_excluded;
use crate::ignore_rules::is_excluded;

verus! {

/// A snapshot of one filesystem entry: a regular file, or a directory with
/// the entries read from it. Each node holds the full path it is reached by.
pub enum FsTree {
    File { path: String },
    Dir { path: String, entries: Vec<FsTree> },
}

/// The file list of a walk from `t`: nothing if `t` is excluded, the file's
/// own path for a surviving file, and the concatenation of the entries' walks
/// in order for a surviving directory.
pub open spec fn spec_walk(t: FsTree, ignore: Seq<Seq<char>>) -> Seq<Seq<char>>
    decreases t,
{
    match t {
        FsTree::File { path } => {
            if spec_is_excluded(path@, ignore) {
                Seq::empty()
            } else {
                seq![path@]
            }
        },
        FsTree::Dir { path, entries } => {
            if spec_is_excluded(path@, ignore) {
                Seq::empty()
            } else {
                spec_walk_upto(entries@, ignore, entries@.len() as int)
            }
        },
    }
}

/// The concatenated walks of the first `n` entries of a directory.
pub open spec fn spec_walk_upto(es: Seq<FsTree>, ignore: Seq<Seq<char>>, n: int) -> Seq<Seq<char>>
    decreases es, n,
{
    if n <= 0 || n > es.len() {
        Seq::empty()
    } else {
        spec_walk_upto(es, ignore, n - 1) + spec_walk(es[n - 1], ignore)
    }
}

/// The number of nodes in the tree; the measure the walk's recursion
/// shrinks.
pub open spec fn tree_size(t: FsTree) -> nat
    decreases t,
{
    match t {
        FsTree::File { path } => 1,
        FsTree::Dir { path, entries } => 1 + tree_size_upto(entries@, entries@.len() as int),
    }
}

/// The combined size of the first `n` entries of a directory.
pub open spec fn tree_size_upto(es: Seq<FsTree>, n: int) -> nat
    decreases es, n,
{
    if n <= 0 || n > es.len() {
        0
    } else {
        tree_size_upto(es, n - 1) + tree_size(es[n - 1])
    }
}

proof fn lemma_tree_size_upto_ge(es: Seq<FsTree>, i: int, n: int)
    requires
        0 <= i < n <= es.len(),
    ensures
        tree_size(es[i]) <= tree_size_upto(es, n),
    decreases n,
{
    if i < n - 1 {
        lemma_tree_size_upto_ge(es, i, n - 1);
    }
}

/// Walks the tree and returns the paths of all files that are reachable
/// without passing through an excluded entry, in depth-first order.
pub fn walk_tree(t: &FsTree, ignore: &Vec<String>) -> (r: Vec<String>)
    ensures
        r.deep_view() == spec_walk(*t, ignore.deep_view()),
    decreases tree_size(*t),
{
    match t {
        FsTree::File { path } => {
            let mut r: Vec<String> = Vec::new();
            if !is_excluded(path.as_str(), ignore) {
                r.push(path.clone());
                proof {
                    assert(r.deep_view() =~= seq![path@]);
                }
            } else {
                proof {
                    assert(r.deep_view() =~= Seq::<Seq<char>>::empty());
                }
            }
            r
        },
        FsTree::Dir { path, entries } => {
            let mut r: Vec<String> = Vec::new();
            if is_excluded(path.as_str(), ignore) {
                proof {
                    assert(r.deep_view() =~= Seq::<Seq<char>>::empty());
                }
                return r;
            }
            let mut i: usize = 0;
            proof {
                assert(r.deep_view() =~= spec_walk_upto(entries@, ignore.deep_view(), 0));
            }
            while i < entries.len()
                invariant
                    i <= entries@.len(),
                    *t is Dir,
                    (*t)->entries@ == entries@,
                    r.deep_view() == spec_walk_upto(entries@, ignore.deep_view(), i as int),
                decreases entries@.len() - i,
            {
                proof {
                    lemma_tree_size_upto_ge(entries@, i as int, entries@.len() as int);
                }
                let mut sub = walk_tree(&entries[i], ignore);
                let ghost old_r = r.deep_view();
                let ghost sub_v = sub.deep_view();
                r.append(&mut sub);
                proof {
                    assert(r.deep_view() =~= old_r + sub_v);
                }
                i += 1;
            }
            r
        },
    }
}

/// No file under an excluded prefix ever appears in the file list: every path
/// the walk returns fails the ignore-set test.
pub proof fn lemma_walk_excludes(t: FsTree, ignore: Seq<Seq<char>>)
    ensures
        forall|i: int|
            0 <= i < spec_walk(t, ignore).len() ==> !spec_is_excluded(
                #[trigger] spec_walk(t, ignore)[i],
                ignore,
            ),
    decreases t,
{
    match t {
        FsTree::File { path } => {
            if spec_is_excluded(path@, ignore) {
                assert(spec_walk(t, ignore).len() == 0);
            } else {
                assert forall|i: int| 0 <= i < spec_walk(t, ignore).len() implies !spec_is_excluded(
                    #[trigger] spec_walk(t, ignore)[i],
                    ignore,
                ) by {
                    assert(spec_walk(t, ignore)[i] == path@);
                }
            }
        },
        FsTree::Dir { path, entries } => {
            if spec_is_excluded(path@, ignore) {
                assert(spec_walk(t, ignore).len() == 0);
            } else {
                lemma_walk_upto_excludes(entries@, ignore, entries@.len() as int);
                assert(spec_walk(t, ignore) == spec_walk_upto(
                    entries@,
                    ignore,
                    entries@.len() as int,
                ));
            }
        },
    }
}

proof fn lemma_walk_upto_excludes(es: Seq<FsTree>, ignore: Seq<Seq<char>>, n: int)
    ensures
        forall|i: int|
            0 <= i < spec_walk_upto(es, ignore, n).len() ==> !spec_is_excluded(
                #[trigger] spec_walk_upto(es, ignore, n)[i],
                ignore,
            ),
    decreases es, n,
{
    if n <= 0 || n > es.len() {
    } else {
        lemma_walk_upto_excludes(es, ignore, n - 1);
        lemma_walk_excludes(es[n - 1], ignore);
        let left = spec_walk_upto(es, ignore, n - 1);
        let right = spec_walk(es[n - 1], ignore);
        assert forall|i: int| 0 <= i < spec_walk_upto(es, ignore, n).len() implies !spec_is_excluded(
            #[trigger] spec_walk_upto(es, ignore, n)[i],
            ignore,
        ) by {
            if i < left.len() {
                assert(spec_walk_upto(es, ignore, n)[i] == left[i]);
            } else {
                assert(spec_walk_upto(es, ignore, n)[i] == right[i - left.len()]);
            }
        }
    }
}

/// The paths of all nodes of the tree, directories included, in visit order.
pub open spec fn tree_paths(t: FsTree) -> Seq<Seq<char>>
    decreases t,
{
    match t {
        FsTree::File { path } => seq![path@],
        FsTree::Dir { path, entries } => seq![path@] + tree_paths_upto(
            entries@,
            entries@.len() as int,
        ),
    }
}

/// The node paths of the first `n` entries of a directory.
pub open spec fn tree_paths_upto(es: Seq<FsTree>, n: int) -> Seq<Seq<char>>
    decreases es, n,
{
    if n <= 0 || n > es.len() {
        Seq::empty()
    } else {
        tree_paths_upto(es, n - 1) + tree_paths(es[n - 1])
    }
}

proof fn lemma_walk_counts(t: FsTree, ignore: Seq<Seq<char>>, x: Seq<char>)
    ensures
        spec_walk(t, ignore).to_multiset().count(x) <= tree_paths(t).to_multiset().count(x),
    decreases t,
{
    broadcast use vstd::seq_lib::group_to_multiset_ensures;

    match t {
        FsTree::File { path } => {
            assert(seq![path@] =~= Seq::<Seq<char>>::empty().push(path@));
            if spec_is_excluded(path@, ignore) {
                assert(!spec_walk(t, ignore).contains(x));
            }
        },
        FsTree::Dir { path, entries } => {
            let inner = tree_paths_upto(entries@, entries@.len() as int);
            lemma_multiset_commutative(seq![path@], inner);
            assert(seq![path@] =~= Seq::<Seq<char>>::empty().push(path@));
            if spec_is_excluded(path@, ignore) {
                assert(!spec_walk(t, ignore).contains(x));
            } else {
                lemma_walk_upto_counts(entries@, ignore, entries@.len() as int, x);
            }
        },
    }
}

proof fn lemma_walk_upto_counts(es: Seq<FsTree>, ignore: Seq<Seq<char>>, n: int, x: Seq<char>)
    ensures
        spec_walk_upto(es, ignore, n).to_multiset().count(x) <= tree_paths_upto(
            es,
            n,
        ).to_multiset().count(x),
    decreases es, n,
{
    broadcast use vstd::seq_lib::group_to_multiset_ensures;

    if n <= 0 || n > es.len() {
        assert(!spec_walk_upto(es, ignore, n).contains(x));
    } else {
        lemma_walk_upto_counts(es, ignore, n - 1, x);
        lemma_walk_counts(es[n - 1], ignore, x);
        lemma_multiset_commutative(spec_walk_upto(es, ignore, n - 1), spec_walk(es[n - 1], ignore));
        lemma_multiset_commutative(tree_paths_upto(es, n - 1), tree_paths(es[n - 1]));
    }
}

/// A tree whose node paths are pairwise distinct yields a file list without
/// duplicates: the walk reaches each entry at most once.
pub proof fn lemma_walk_no_duplicates(t: FsTree, ignore: Seq<Seq<char>>)
    requires
        tree_paths(t).no_duplicates(),
    ensures
        spec_walk(t, ignore).no_duplicates(),
{
    broadcast use vstd::seq_lib::group_to_multiset_ensures;

    let walk = spec_walk(t, ignore);
    let paths = tree_paths(t);
    paths.lemma_multiset_has_no_duplicates();
    assert forall|x: Seq<char>| walk.to_multiset().contains(x) implies walk.to_multiset().count(x)
        == 1 by {
        lemma_walk_counts(t, ignore, x);
        assert(paths.to_multiset().count(x) > 0);
        assert(paths.to_multiset().count(x) == 1);
    }
    walk.lemma_multiset_has_no_duplicates_conv();
}

/// Walking an unchanged tree twice yields the same file list: the walk's
/// contract pins the result, so any two runs agree element for element.
pub proof fn lemma_walk_idempotent(
    t: FsTree,
    ignore: Seq<Seq<char>>,
    r1: Seq<Seq<char>>,
    r2: Seq<Seq<char>>,
)
    requires
        r1 == spec_walk(t, ignore),
        r2 == spec_walk(t, ignore),
    ensures
        r1 == r2,
{
}

} // verus!
