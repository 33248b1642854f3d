use obsidian_vault::index::{build_index, title_of, NoteFile, VaultIndex};
use obsidian_vault::listing::usize_to_string;
use obsidian_vault::lists::{normalize_list_opt, parse_string_list, parse_string_list_opt};
use obsidian_vault::query::{QueryError, QueryNoteParams};
use obsidian_vault::tree::{render_file_tree, FsNode};

fn note(path: &str, content: &str) -> NoteFile {
    NoteFile {
        rel_path: path.to_string(),
        content: content.to_string(),
    }
}

fn sample_index() -> VaultIndex {
    build_index(&vec![
        note(
            "tech/alpha.md",
            "---\ntags:\n  - x\n  - y\naliases:\n  - First Note\nstatus: active\n---\nbody a",
        ),
        note("tech/beta.md", "---\ntags:\n  - x\n---\nbody b"),
        note("ideas/gamma.md", "no block here"),
    ])
}

fn query(
    idx: &VaultIndex,
    tags: Option<Vec<&str>>,
    exact_name: Option<&str>,
    keyword: Option<&str>,
) -> Result<Vec<usize>, QueryError> {
    let params = QueryNoteParams {
        tags: tags.map(|v| v.into_iter().map(|s| s.to_string()).collect()),
        exact_name: exact_name.map(|s| s.to_string()),
        keyword: keyword.map(|s| s.to_string()),
    };
    idx.query_note(&params)
}

#[test]
fn title_comes_from_file_stem() {
    assert_eq!(title_of("tech/docker-guide.md"), "docker-guide");
    assert_eq!(title_of("plain.md"), "plain");
    assert_eq!(title_of("a/b/c.tar.gz"), "c.tar");
}

#[test]
fn build_collects_entries_in_walk_order() {
    let idx = sample_index();
    assert_eq!(idx.entries.len(), 3);
    assert_eq!(idx.entries[0].title, "alpha");
    assert_eq!(idx.entries[0].tags, vec!["x".to_string(), "y".to_string()]);
    assert_eq!(idx.entries[2].status, "active");
    assert!(idx.entries[2].tags.is_empty());
}

#[test]
fn query_without_filters_is_invalid_input() {
    let idx = sample_index();
    assert_eq!(query(&idx, None, None, None), Err(QueryError::NoFilter));
}

#[test]
fn query_unmatched_name_is_empty_not_error() {
    let idx = sample_index();
    assert_eq!(query(&idx, None, Some("missing-note"), None), Ok(vec![]));
}

#[test]
fn two_tags_intersect() {
    let idx = sample_index();
    assert_eq!(query(&idx, Some(vec!["x", "y"]), None, None), Ok(vec![0]));
    assert_eq!(query(&idx, Some(vec!["x"]), None, None), Ok(vec![0, 1]));
}

#[test]
fn repeating_a_tag_does_not_change_the_result() {
    let idx = sample_index();
    assert_eq!(
        query(&idx, Some(vec!["x"]), None, None),
        query(&idx, Some(vec!["x", "x"]), None, None)
    );
    assert_eq!(
        query(&idx, Some(vec!["x", "y"]), None, None),
        query(&idx, Some(vec!["x", "y", "x", "y"]), None, None)
    );
    // a repeat in the middle of the list changes nothing either
    assert_eq!(
        query(&idx, Some(vec!["x", "y"]), None, None),
        query(&idx, Some(vec!["x", "X", "y"]), None, None)
    );
}

#[test]
fn unknown_tag_empties_candidates() {
    let idx = sample_index();
    assert_eq!(query(&idx, Some(vec!["x", "nosuch"]), None, None), Ok(vec![]));
}

#[test]
fn tag_lookup_is_case_insensitive() {
    let idx = sample_index();
    assert_eq!(query(&idx, Some(vec!["X"]), None, None), Ok(vec![0, 1]));
}

#[test]
fn exact_name_is_case_insensitive_and_drops_extension() {
    let idx = sample_index();
    assert_eq!(query(&idx, None, Some("Alpha.md"), None), Ok(vec![0]));
    assert_eq!(query(&idx, None, Some("beta"), None), Ok(vec![1]));
}

#[test]
fn exact_name_strips_only_one_trailing_extension() {
    let idx = build_index(&vec![note("a/x.mdy.md", "no block")]);
    assert_eq!(query(&idx, None, Some("x.mdy"), None), Ok(vec![0]));
    assert_eq!(query(&idx, None, Some("X.MDY.md"), None), Ok(vec![0]));
    // a `.md` inside the name is kept, and only one trailing one is removed
    assert_eq!(query(&idx, None, Some("xy"), None), Ok(vec![]));
    assert_eq!(query(&idx, None, Some("x.mdy.md.md"), None), Ok(vec![]));
}

#[test]
fn keyword_matches_title_alias_tag_or_path() {
    let idx = sample_index();
    assert_eq!(query(&idx, None, None, Some("ALPH")), Ok(vec![0]));
    assert_eq!(query(&idx, None, None, Some("first note")), Ok(vec![0]));
    assert_eq!(query(&idx, None, None, Some("Y")), Ok(vec![0]));
    assert_eq!(query(&idx, None, None, Some("ideas/")), Ok(vec![2]));
}

#[test]
fn filters_compose_in_order() {
    let idx = sample_index();
    assert_eq!(
        query(&idx, Some(vec!["x"]), Some("beta"), Some("tech")),
        Ok(vec![1])
    );
    assert_eq!(
        query(&idx, Some(vec!["y"]), Some("beta"), None),
        Ok(vec![])
    );
}

#[test]
fn duplicate_titles_resolve_to_last_walked() {
    let idx = build_index(&vec![
        note("a/same.md", "---\ntags:\n  - one\n---\n"),
        note("b/same.md", "---\ntags:\n  - two\n---\n"),
    ]);
    assert_eq!(query(&idx, None, Some("same"), None), Ok(vec![1]));
}

#[test]
fn tree_renders_fixture_with_branch_markers() {
    let roots = vec![
        FsNode::Dir {
            name: "sub".to_string(),
            children: vec![FsNode::File {
                name: "b.md".to_string(),
            }],
        },
        FsNode::File {
            name: "a.md".to_string(),
        },
    ];
    let rendered = render_file_tree(&roots);
    assert_eq!(rendered, "├── a.md\n└── sub/\n    └── b.md");
}

#[test]
fn tree_hides_dot_entries_and_sorts() {
    let roots = vec![
        FsNode::File {
            name: "zeta.md".to_string(),
        },
        FsNode::File {
            name: ".hidden".to_string(),
        },
        FsNode::File {
            name: "alpha.md".to_string(),
        },
    ];
    let rendered = render_file_tree(&roots);
    assert_eq!(rendered, "├── alpha.md\n└── zeta.md");
}

#[test]
fn tree_of_empty_dir_is_empty() {
    let roots = vec![FsNode::Dir {
        name: "empty".to_string(),
        children: vec![],
    }];
    assert_eq!(render_file_tree(&roots), "└── empty/");
}

#[test]
fn tag_summary_counts_positions() {
    let idx = sample_index();
    let rows = idx.tag_summary();
    assert_eq!(
        rows,
        vec![("x".to_string(), 2usize), ("y".to_string(), 1usize)]
    );
}

#[test]
fn distinct_tags_sorted_unique() {
    let idx = build_index(&vec![
        note("a.md", "---\ntags:\n  - Beta\n  - alpha\n---\n"),
        note("b.md", "---\ntags:\n  - alpha\n---\n"),
    ]);
    assert_eq!(
        idx.distinct_tags(),
        vec!["Beta".to_string(), "alpha".to_string()]
    );
}

#[test]
fn numbers_print_in_decimal() {
    assert_eq!(usize_to_string(0), "0");
    assert_eq!(usize_to_string(7), "7");
    assert_eq!(usize_to_string(42), "42");
    assert_eq!(usize_to_string(1000), "1000");
}

#[test]
fn flexible_list_comma_form() {
    assert_eq!(
        parse_string_list("docker, linux , , "),
        vec!["docker".to_string(), "linux".to_string()]
    );
}

#[test]
fn flexible_list_json_form() {
    assert_eq!(
        parse_string_list("[\"a\", \"b c\"]"),
        vec!["a".to_string(), "b c".to_string()]
    );
}

#[test]
fn flexible_list_bad_json_falls_back_to_commas() {
    assert_eq!(
        parse_string_list("[not json, here]"),
        vec!["[not json".to_string(), "here]".to_string()]
    );
}

#[test]
fn flexible_list_empty_forms() {
    assert!(parse_string_list("").is_empty());
    assert!(parse_string_list("   ").is_empty());
    assert_eq!(parse_string_list_opt("  "), None);
    assert_eq!(parse_string_list_opt(" , "), None);
    assert_eq!(
        parse_string_list_opt("a"),
        Some(vec!["a".to_string()])
    );
    assert_eq!(normalize_list_opt(vec![]), None);
    assert_eq!(
        normalize_list_opt(vec!["k".to_string()]),
        Some(vec!["k".to_string()])
    );
}

#[test]
fn query_results_render_as_table() {
    let idx = sample_index();
    let c = query(&idx, Some(vec!["x"]), None, None).unwrap();
    let text = idx.render_query_results(&c);
    assert_eq!(
        text,
        "Found 2 matching notes:\n\n\
         | Title | Path | Tags | Aliases | Status |\n\
         |------|------|------|------|------|\n\
         | `alpha` | `tech/alpha.md` | x, y | First Note | active |\n\
         | `beta` | `tech/beta.md` | x |  | active |\n"
    );
    assert_eq!(idx.render_query_results(&vec![]), "No matching notes.");
}

#[test]
fn index_summary_renders_counts() {
    let idx = sample_index();
    let text = idx.render_index_summary("├── tech/");
    assert_eq!(
        text,
        "## File tree\n\n```\n├── tech/\n```\n\n\
         ## Tags (2)\n\n\
         | Tag | Notes |\n|------|--------|\n\
         | `x` | 2 |\n\
         | `y` | 1 |\n\
         \n## Totals\n\n- Notes: 3\n- Tags: 2\n"
    );
}

#[test]
fn tag_map_keys_come_from_entry_tags() {
    let idx = build_index(&vec![
        note("a.md", "---\ntags:\n  - Alpha\n  - BETA\n---\n"),
        note("b.md", "---\ntags:\n  - beta\n---\n"),
    ]);
    for (key, positions) in &idx.tag_map {
        assert!(!positions.is_empty());
        for &p in positions {
            let lowered: Vec<String> = idx.entries[p]
                .tags
                .iter()
                .map(|t| t.to_lowercase())
                .collect();
            assert!(lowered.contains(key));
        }
    }
    let keys: Vec<&String> = idx.tag_map.iter().map(|kv| &kv.0).collect();
    assert_eq!(keys, vec!["alpha", "beta"]);
}
