use codeclip::filter::filter_files;
use codeclip::filter::path_extension;
use codeclip::ignore_rules::get_exluded_files;
use codeclip::ignore_rules::get_paths_from_gitignore;
use codeclip::ignore_rules::is_excluded;
use codeclip::ignore_rules::join_dot_slash;
use codeclip::pipeline::build_ignore_set;
use codeclip::pipeline::plan_files;
use codeclip::render::parse_block;
use codeclip::render::render_all;
use codeclip::render::render_block;
use codeclip::walker::walk_tree;
use codeclip::walker::FsTree;

fn s(x: &str) -> String {
    String::from(x)
}

fn sample_tree() -> FsTree {
    FsTree::Dir {
        path: s("."),
        entries: vec![
            FsTree::File { path: s("./a.txt") },
            FsTree::File { path: s("./b.md") },
        ],
    }
}

#[test]
fn join_prepends_dot_slash() {
    assert_eq!(join_dot_slash("b.md"), "./b.md");
    assert_eq!(join_dot_slash(""), "./");
}

#[test]
fn excluded_files_none_is_empty() {
    assert_eq!(get_exluded_files(None), Vec::<String>::new());
}

#[test]
fn excluded_files_are_joined_in_order() {
    let r = get_exluded_files(Some(vec![s("b.md"), s("target")]));
    assert_eq!(r, vec![s("./b.md"), s("./target")]);
}

#[test]
fn gitignore_empty_content_gives_no_prefixes() {
    assert_eq!(get_paths_from_gitignore(""), Vec::<String>::new());
}

#[test]
fn gitignore_single_line_without_newline() {
    assert_eq!(get_paths_from_gitignore("target"), vec![s("./target")]);
}

#[test]
fn gitignore_lines_keep_order_and_skip_empty() {
    let r = get_paths_from_gitignore("target\n\n.env\nbuild\n");
    assert_eq!(r, vec![s("./target"), s("./.env"), s("./build")]);
}

#[test]
fn is_excluded_matches_prefixes_only() {
    let ignore = vec![s("./target")];
    assert!(is_excluded("./target", &ignore));
    assert!(is_excluded("./target/debug/app", &ignore));
    assert!(!is_excluded("./src/main.rs", &ignore));
    assert!(!is_excluded("./tar", &ignore));
    assert!(!is_excluded("", &ignore));
}

#[test]
fn walk_lists_files_in_discovery_order() {
    let tree = sample_tree();
    let files = walk_tree(&tree, &Vec::new());
    assert_eq!(files, vec![s("./a.txt"), s("./b.md")]);
}

#[test]
fn walk_twice_gives_the_same_list() {
    let tree = sample_tree();
    let first = walk_tree(&tree, &Vec::new());
    let second = walk_tree(&tree, &Vec::new());
    assert_eq!(first, second);
}

#[test]
fn walk_omits_an_excluded_file() {
    let tree = sample_tree();
    let files = walk_tree(&tree, &vec![s("./b.md")]);
    assert_eq!(files, vec![s("./a.txt")]);
}

#[test]
fn walk_prunes_an_excluded_directory_whole() {
    let tree = FsTree::Dir {
        path: s("."),
        entries: vec![
            FsTree::Dir {
                path: s("./target"),
                entries: vec![FsTree::File { path: s("./target/out.bin") }],
            },
            FsTree::File { path: s("./keep.rs") },
        ],
    };
    let files = walk_tree(&tree, &vec![s("./target")]);
    assert_eq!(files, vec![s("./keep.rs")]);
}

#[test]
fn walk_descends_nested_directories_depth_first() {
    let tree = FsTree::Dir {
        path: s("."),
        entries: vec![
            FsTree::Dir {
                path: s("./src"),
                entries: vec![
                    FsTree::File { path: s("./src/lib.rs") },
                    FsTree::Dir {
                        path: s("./src/bin"),
                        entries: vec![FsTree::File { path: s("./src/bin/tool.rs") }],
                    },
                ],
            },
            FsTree::File { path: s("./README.md") },
        ],
    };
    let files = walk_tree(&tree, &Vec::new());
    assert_eq!(
        files,
        vec![s("./src/lib.rs"), s("./src/bin/tool.rs"), s("./README.md")]
    );
}

#[test]
fn extension_is_text_after_last_dot_of_file_name() {
    assert_eq!(path_extension("./a.txt"), Some(s("txt")));
    assert_eq!(path_extension("./dir.d/archive.tar.gz"), Some(s("gz")));
    assert_eq!(path_extension("./dir.d/noext"), None);
    assert_eq!(path_extension("noext"), None);
    assert_eq!(path_extension("./trailing."), Some(s("")));
}

#[test]
fn filter_without_allow_list_is_identity() {
    let files = vec![s("./a.txt"), s("./b.md"), s("./noext")];
    assert_eq!(filter_files(files.clone(), None), files);
}

#[test]
fn filter_keeps_only_allowed_extensions() {
    let files = vec![s("./a.txt"), s("./b.md")];
    let r = filter_files(files, Some(vec![s("txt")]));
    assert_eq!(r, vec![s("./a.txt")]);
}

#[test]
fn filter_preserves_input_order() {
    let files = vec![s("./b.md"), s("./a.txt"), s("./c.md"), s("./d.rs")];
    let r = filter_files(files, Some(vec![s("md"), s("rs")]));
    assert_eq!(r, vec![s("./b.md"), s("./c.md"), s("./d.rs")]);
}

#[test]
fn filter_never_passes_a_file_without_extension() {
    let files = vec![s("./noext"), s("./also.no/ext")];
    let r = filter_files(files, Some(vec![s("noext"), s("ext"), s("")]));
    assert_eq!(r, Vec::<String>::new());
}

#[test]
fn filter_is_case_sensitive() {
    let files = vec![s("./a.TXT"), s("./b.txt")];
    let r = filter_files(files, Some(vec![s("txt")]));
    assert_eq!(r, vec![s("./b.txt")]);
}

#[test]
fn block_is_fence_path_newline_content_fence() {
    let block = render_block("./a.txt", "hello");
    assert_eq!(block, "```./a.txt\nhello```\n");
}

#[test]
fn two_blocks_in_discovery_order() {
    let items = vec![
        (s("./a.txt"), Some(s("hello"))),
        (s("./b.md"), Some(s("world"))),
    ];
    let out = render_all(&items);
    assert_eq!(out, "```./a.txt\nhello```\n```./b.md\nworld```\n");
}

#[test]
fn unreadable_file_is_skipped_in_the_aggregate() {
    let items = vec![
        (s("./a.txt"), Some(s("hello"))),
        (s("./gone.md"), None),
        (s("./b.md"), Some(s("world"))),
    ];
    let out = render_all(&items);
    assert_eq!(out, "```./a.txt\nhello```\n```./b.md\nworld```\n");
}

#[test]
fn parse_recovers_path_and_content() {
    let block = render_block("./a.txt", "hello");
    assert_eq!(parse_block(&block), Some((s("./a.txt"), s("hello"))));
}

#[test]
fn parse_passes_embedded_fences_through_unescaped() {
    let content = "before\n```inner\nfenced```\nafter\n";
    let block = render_block("./doc.md", content);
    assert_eq!(parse_block(&block), Some((s("./doc.md"), s(content))));
}

#[test]
fn parse_recovers_empty_path_and_content() {
    let block = render_block("", "");
    assert_eq!(block, "```\n```\n");
    assert_eq!(parse_block(&block), Some((s(""), s(""))));
}

#[test]
fn parse_rejects_text_that_is_not_a_block() {
    assert_eq!(parse_block(""), None);
    assert_eq!(parse_block("no fences at all"), None);
    assert_eq!(parse_block("```only.a.fence.line\n"), None);
    assert_eq!(parse_block("--./a.txt\nhello```\n"), None);
    assert_eq!(parse_block("```./a.txt\nhello```"), None);
}

#[test]
fn ignore_set_combines_excludes_then_gitignore_lines() {
    let r = build_ignore_set(Some(vec![s("b.md")]), Some("target\n"));
    assert_eq!(r, vec![s("./b.md"), s("./target")]);
    let no_file = build_ignore_set(Some(vec![s("b.md")]), None);
    assert_eq!(no_file, vec![s("./b.md")]);
}

#[test]
fn plan_walks_filters_and_honors_the_ignore_file() {
    let tree = FsTree::Dir {
        path: s("."),
        entries: vec![
            FsTree::File { path: s("./a.txt") },
            FsTree::File { path: s("./b.md") },
            FsTree::Dir {
                path: s("./target"),
                entries: vec![FsTree::File { path: s("./target/out.txt") }],
            },
        ],
    };
    let files = plan_files(&tree, None, Some("target\n"), Some(vec![s("txt"), s("md")]));
    assert_eq!(files, vec![s("./a.txt"), s("./b.md")]);
}

#[test]
fn whole_run_renders_two_blocks() {
    let tree = sample_tree();
    let files = plan_files(&tree, None, None, None);
    assert_eq!(files, vec![s("./a.txt"), s("./b.md")]);
    let contents = vec![s("hello"), s("world")];
    let items: Vec<(String, Option<String>)> = files
        .into_iter()
        .zip(contents.into_iter().map(Some))
        .collect();
    let out = render_all(&items);
    assert_eq!(out, "```./a.txt\nhello```\n```./b.md\nworld```\n");
}

#[test]
fn allow_list_narrows_the_same_tree_to_one_block() {
    let tree = sample_tree();
    let files = plan_files(&tree, None, None, Some(vec![s("txt")]));
    assert_eq!(files, vec![s("./a.txt")]);
    let items = vec![(s("./a.txt"), Some(s("hello")))];
    assert_eq!(render_all(&items), "```./a.txt\nhello```\n");
}

#[test]
fn explicit_exclusion_keeps_the_file_out_of_the_list() {
    let tree = sample_tree();
    let files = plan_files(&tree, Some(vec![s("b.md")]), None, None);
    assert_eq!(files, vec![s("./a.txt")]);
}
