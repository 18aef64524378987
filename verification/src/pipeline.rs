//! The compute path of one run: the explicit exclusions and the ignore-file
//! lines become one ignore set, the tree is walked under it, and the
//! surviving files are narrowed by the extension allow-list.

use vstd::prelude::*;
use crate::ignore_rules::get_exluded_files;
use crate::ignore_rules::get_paths_from_gitignore;
use crate::ignore_rules::spec_exluded_files;
use crate::ignore_rules::spec_gitignore_paths;
use crate::ignore_rules::spec_is_excluded;
use crate::filter::allowed_pred;
use crate::filter::filter_files;
use crate::filter::spec_filter_files;
use crate::walker::FsTree;
use crate::walker::lemma_walk_excludes;
use crate::walker::spec_walk;
use crate::walker::walk_tree;

verus! {

/// The combined ignore set: the normalized exclusion arguments followed by
/// the prefixes of the ignore file's lines, when one was read.
pub open spec fn spec_ignore_set(
    exclude: Option<Seq<Seq<char>>>,
    gitignore: Option<Seq<char>>,
) -> Seq<Seq<char>> {
    spec_exluded_files(exclude) + match gitignore {
        Some(c) => spec_gitignore_paths(c),
        None => Seq::empty(),
    }
}

/// Resolves the exclusion arguments and the ignore file's content (absent
/// when ignore-file rules are off or the file was unreadable) into the
/// ignore set of the run.
pub fn build_ignore_set(exclude: Option<Vec<String>>, gitignore_contents: Option<&str>) -> (r: Vec<
    String,
>)
    ensures
        r.deep_view() == spec_ignore_set(exclude.deep_view(), gitignore_contents.deep_view()),
{
    let mut r = get_exluded_files(exclude);
    match gitignore_contents {
        Some(c) => {
            let mut g = get_paths_from_gitignore(c);
            let ghost r0 = r.deep_view();
            let ghost g0 = g.deep_view();
            r.append(&mut g);
            proof {
                assert(r.deep_view() =~= r0 + g0);
            }
        },
        None => {
            proof {
                assert(r.deep_view() =~= r.deep_view() + Seq::<Seq<char>>::empty());
            }
        },
    }
    r
}

/// The file list of one run: the walk of the tree under the combined ignore
/// set, narrowed by the allow-list.
pub open spec fn spec_plan_files(
    t: FsTree,
    exclude: Option<Seq<Seq<char>>>,
    gitignore: Option<Seq<char>>,
    exts: Option<Seq<Seq<char>>>,
) -> Seq<Seq<char>> {
    spec_filter_files(spec_walk(t, spec_ignore_set(exclude, gitignore)), exts)
}

/// Selects the files of one run from a tree snapshot, the exclusion
/// arguments, the ignore file's content, and the extension allow-list.
pub fn plan_files(
    tree: &FsTree,
    exclude: Option<Vec<String>>,
    gitignore_contents: Option<&str>,
    file_types: Option<Vec<String>>,
) -> (r: Vec<String>)
    ensures
        r.deep_view() == spec_plan_files(
            *tree,
            exclude.deep_view(),
            gitignore_contents.deep_view(),
            file_types.deep_view(),
        ),
{
    let ignore = build_ignore_set(exclude, gitignore_contents);
    let files = walk_tree(tree, &ignore);
    filter_files(files, file_types)
}

/// No file under an excluded prefix ever reaches the run's file list: every
/// planned path fails the combined ignore-set test.
pub proof fn lemma_plan_files_excludes(
    t: FsTree,
    exclude: Option<Seq<Seq<char>>>,
    gitignore: Option<Seq<char>>,
    exts: Option<Seq<Seq<char>>>,
)
    ensures
        forall|i: int|
            0 <= i < spec_plan_files(t, exclude, gitignore, exts).len() ==> !spec_is_excluded(
                #[trigger] spec_plan_files(t, exclude, gitignore, exts)[i],
                spec_ignore_set(exclude, gitignore),
            ),
{
    let ignore = spec_ignore_set(exclude, gitignore);
    let walked = spec_walk(t, ignore);
    let out = spec_plan_files(t, exclude, gitignore, exts);
    lemma_walk_excludes(t, ignore);
    match exts {
        None => {},
        Some(es) => {
            let pred = allowed_pred(es);
            assert forall|i: int| 0 <= i < out.len() implies !spec_is_excluded(out[i], ignore) by {
                assert(out.contains(out[i]));
                walked.lemma_filter_contains_rev(pred, out[i]);
                let j = choose|j: int| 0 <= j < walked.len() && walked[j] == out[i];
                assert(!spec_is_excluded(walked[j], ignore));
            }
        },
    }
}

} // verus!
