use obsidian_vault::frontmatter::{
    merged_note_content, new_note_content, parse_frontmatter, update_frontmatter_date,
};
use obsidian_vault::store::{
    make_appended_message, make_created_message, make_note_rel_path, today_ymd, validate_read_path,
    validate_write_request, write_note_content, ReadError, WriteError,
};

#[test]
fn parse_no_block_is_default() {
    let (tags, aliases, status) = parse_frontmatter("just some text\nwith lines\n");
    assert!(tags.is_empty());
    assert!(aliases.is_empty());
    assert_eq!(status, "active");
}

#[test]
fn parse_empty_text_is_default() {
    let (tags, aliases, status) = parse_frontmatter("");
    assert!(tags.is_empty());
    assert!(aliases.is_empty());
    assert_eq!(status, "active");
}

#[test]
fn parse_unclosed_block_is_default() {
    let (tags, aliases, status) = parse_frontmatter("---\ntags:\n  - x\nno closer here");
    assert!(tags.is_empty());
    assert!(aliases.is_empty());
    assert_eq!(status, "active");
}

#[test]
fn parse_full_block() {
    let text = "---\ntags:\n  - docker\n  - Linux\naliases:\n  - Docker Guide\nstatus: draft\n---\nbody";
    let (tags, aliases, status) = parse_frontmatter(text);
    assert_eq!(tags, vec!["docker".to_string(), "Linux".to_string()]);
    assert_eq!(aliases, vec!["Docker Guide".to_string()]);
    assert_eq!(status, "draft");
}

#[test]
fn parse_status_comment_stripped() {
    let text = "---\nstatus: active # still in use\n---\n";
    let (_, _, status) = parse_frontmatter(text);
    assert_eq!(status, "active");
}

#[test]
fn parse_bom_is_skipped() {
    let text = "\u{feff}---\ntags:\n  - a\n---\n";
    let (tags, _, _) = parse_frontmatter(text);
    assert_eq!(tags, vec!["a".to_string()]);
}

#[test]
fn parse_stray_line_closes_list() {
    let text = "---\ntags:\n  - a\nsomething else\n  - b\n---\n";
    let (tags, aliases, _) = parse_frontmatter(text);
    assert_eq!(tags, vec!["a".to_string()]);
    assert!(aliases.is_empty());
}

#[test]
fn parse_blank_line_keeps_list_open() {
    let text = "---\ntags:\n  - a\n\n  - b\n---\n";
    let (tags, _, _) = parse_frontmatter(text);
    assert_eq!(tags, vec!["a".to_string(), "b".to_string()]);
}

#[test]
fn update_date_rewrites_only_updated_line() {
    let fm = "---\ntags:\n  - x\ncreated: 2019-05-05\nupdated: 2020-01-01\nstatus: active\n---";
    let out = update_frontmatter_date(fm, "2024-06-30");
    assert_eq!(
        out,
        "---\ntags:\n  - x\ncreated: 2019-05-05\nupdated: 2024-06-30\nstatus: active\n---"
    );
}

#[test]
fn merge_appends_after_blank_line() {
    let existing = "---\nupdated: 2020-01-01\n---\nold body";
    let merged = merged_note_content(existing, "2024-06-30", "new body");
    assert_eq!(merged, "---\nupdated: 2024-06-30\n---\nold body\n\nnew body");
}

#[test]
fn merge_without_block_keeps_text() {
    let existing = "plain note without a block";
    let merged = merged_note_content(existing, "2024-06-30", "more");
    assert_eq!(merged, "plain note without a block\n\nmore");
}

#[test]
fn new_note_has_exact_block() {
    let tags = vec!["docker".to_string()];
    let aliases = vec!["Docker Guide".to_string()];
    let text = new_note_content(&tags, &aliases, "active", "2024-06-30", "the body");
    assert_eq!(
        text,
        "---\ntags:\n  - docker\naliases:\n  - Docker Guide\ncreated: 2024-06-30\nupdated: 2024-06-30\nstatus: active\n---\n\nthe body"
    );
}

#[test]
fn roundtrip_new_note_parses_back() {
    let tags = vec!["alpha".to_string(), "Beta".to_string()];
    let aliases = vec!["First Alias".to_string()];
    let text = new_note_content(&tags, &aliases, "draft", "2024-06-30", "body text");
    let (ptags, paliases, pstatus) = parse_frontmatter(&text);
    assert_eq!(ptags, tags);
    assert_eq!(paliases, aliases);
    assert_eq!(pstatus, "draft");
    assert!(text.ends_with("\n\nbody text"));
}

#[test]
fn read_path_traversal_rejected() {
    assert_eq!(
        validate_read_path("../../etc/passwd"),
        Err(ReadError::PathTraversal)
    );
}

#[test]
fn read_path_empty_rejected() {
    assert_eq!(validate_read_path("   "), Err(ReadError::EmptyPath));
    assert_eq!(validate_read_path(""), Err(ReadError::EmptyPath));
}

#[test]
fn read_path_normalized() {
    assert_eq!(
        validate_read_path(" /tech/docker.md ").unwrap(),
        "tech/docker.md"
    );
}

#[test]
fn write_invalid_directory() {
    assert_eq!(
        validate_write_request("notes", "docker-guide", "active"),
        Err(WriteError::InvalidDirectory)
    );
}

#[test]
fn write_empty_filename() {
    assert_eq!(
        validate_write_request("tech", " .md", "active"),
        Err(WriteError::EmptyFilename)
    );
}

#[test]
fn write_filename_with_space() {
    assert_eq!(
        validate_write_request("tech", "docker guide", "active"),
        Err(WriteError::FilenameNotSimple)
    );
}

#[test]
fn write_filename_non_ascii() {
    assert_eq!(
        validate_write_request("tech", "d\u{00e9}j\u{00e0}", "active"),
        Err(WriteError::FilenameNotSimple)
    );
}

#[test]
fn write_filename_not_lower() {
    assert_eq!(
        validate_write_request("tech", "Docker-Guide", "active"),
        Err(WriteError::FilenameNotLower)
    );
}

#[test]
fn write_invalid_status() {
    assert_eq!(
        validate_write_request("tech", "docker-guide", "done"),
        Err(WriteError::InvalidStatus)
    );
}

#[test]
fn write_normalizes_dir_and_filename() {
    let (d, f) = validate_write_request(" /tech/ ", "docker-guide.md", "archived").unwrap();
    assert_eq!(d, "tech");
    assert_eq!(f, "docker-guide");
}

#[test]
fn write_content_create_and_append() {
    let tags = vec!["x".to_string()];
    let aliases: Vec<String> = Vec::new();
    let (text, created) = write_note_content(None, &tags, &aliases, "active", "2024-01-02", "b");
    assert!(created);
    assert!(text.starts_with("---\ntags:\n  - x\n"));
    let existing = text.clone();
    let (text2, created2) = write_note_content(
        Some(&existing),
        &tags,
        &aliases,
        "active",
        "2025-03-04",
        "c",
    );
    assert!(!created2);
    assert!(text2.contains("updated: 2025-03-04"));
    assert!(text2.contains("created: 2024-01-02"));
    assert!(text2.ends_with("\n\nc"));
}

#[test]
fn rel_path_and_messages() {
    let rel = make_note_rel_path("tech", "docker-guide");
    assert_eq!(rel, "tech/docker-guide.md");
    assert_eq!(
        make_created_message(&rel),
        "Created note `tech/docker-guide.md`."
    );
    assert_eq!(
        make_appended_message(&rel, "2024-06-30"),
        "Appended to `tech/docker-guide.md`; updated date set to 2024-06-30."
    );
}

#[test]
fn today_is_date_shaped() {
    let t = today_ymd();
    assert!(t.len() >= 10);
    assert!(t.chars().all(|c| c.is_ascii_digit() || c == '-'));
}
