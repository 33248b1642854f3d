use vstd::prelude::*;

use crate::frontmatter::{
    merged_note_content, merged_note_spec, new_note_content, new_note_content_spec,
};
use crate::text::{
    contains_spec, contains_sub, lower_of, str_eq, strip_all_suffix, strip_all_suffix_spec,
    strip_leading_char, to_lower, trim, trim_char, trim_char_spec, trim_char_start, trim_spec,
};

verus! {

/// The request to read one document by its relative path.
pub struct ReadNoteParams {
    pub path: String,
}

/// The request to create or append to one document.
pub struct WriteNoteParams {
    pub directory: String,
    pub filename: String,
    pub tags: Vec<String>,
    pub aliases: Vec<String>,
    pub status: String,
    pub content: String,
}

/// Why a read request is rejected before touching any file.
#[derive(Clone, Copy, Debug, PartialEq, Eq, Structural)]
pub enum ReadError {
    EmptyPath,
    PathTraversal,
}

/// Why a write request is rejected before touching any file.
#[derive(Clone, Copy, Debug, PartialEq, Eq, Structural)]
pub enum WriteError {
    InvalidDirectory,
    EmptyFilename,
    FilenameNotSimple,
    FilenameNotLower,
    InvalidStatus,
}

/// A read path as it is resolved: trimmed, with leading slashes removed.
pub open spec fn normalized_read_path(path: Seq<char>) -> Seq<char> {
    trim_char_start(trim_spec(path), '/')
}

/// Checks a read path: empty paths and paths holding a `..` segment are
/// rejected, in that order, before any filesystem access; an accepted path is
/// returned in normalized form.
pub fn validate_read_path(path: &str) -> (r: Result<String, ReadError>)
    ensures
        ({
            let p = normalized_read_path(path@);
            match r {
                Ok(q) => q@ == p && p.len() > 0 && !contains_spec(p, ".."@),
                Err(ReadError::EmptyPath) => p.len() == 0,
                Err(ReadError::PathTraversal) => p.len() > 0 && contains_spec(p, ".."@),
            }
        }),
{
    let t = trim(path);
    let p = strip_leading_char(t, '/');
    if p.unicode_len() == 0 {
        return Err(ReadError::EmptyPath);
    }
    if contains_sub(p, "..") {
        return Err(ReadError::PathTraversal);
    }
    Ok(p.to_owned())
}

/// The categories a document may be filed under.
pub open spec fn is_valid_dir(d: Seq<char>) -> bool {
    ||| d == "tech"@
    ||| d == "ai"@
    ||| d == "projects"@
    ||| d == "methods"@
    ||| d == "career"@
    ||| d == "ideas"@
    ||| d == "cheatsheet"@
    ||| d == "journal"@
}

/// The statuses a written document may carry.
pub open spec fn is_valid_status(s: Seq<char>) -> bool {
    ||| s == "active"@
    ||| s == "archived"@
    ||| s == "draft"@
}

/// A directory name as it is resolved: trimmed, with surrounding slashes
/// removed.
pub open spec fn normalized_dir(directory: Seq<char>) -> Seq<char> {
    trim_char_spec(trim_spec(directory), '/')
}

/// A file name as it is resolved: trimmed, with every trailing `.md`
/// removed.
pub open spec fn normalized_filename(filename: Seq<char>) -> Seq<char> {
    strip_all_suffix_spec(trim_spec(filename), ".md"@)
}

/// A file name that holds a space or a character outside ASCII.
pub open spec fn has_space_or_nonascii(f: Seq<char>) -> bool {
    exists|i: int| 0 <= i < f.len() && (f[i] == ' ' || (f[i] as u32) > 0x7f)
}

/// Category membership, per `is_valid_dir`.
pub fn check_valid_dir(d: &str) -> (r: bool)
    ensures
        r == is_valid_dir(d@),
{
    str_eq(d, "tech") || str_eq(d, "ai") || str_eq(d, "projects") || str_eq(d, "methods")
        || str_eq(d, "career") || str_eq(d, "ideas") || str_eq(d, "cheatsheet") || str_eq(
        d,
        "journal",
    )
}

/// Status membership, per `is_valid_status`.
pub fn check_valid_status(s: &str) -> (r: bool)
    ensures
        r == is_valid_status(s@),
{
    str_eq(s, "active") || str_eq(s, "archived") || str_eq(s, "draft")
}

fn check_space_or_nonascii(f: &str) -> (r: bool)
    ensures
        r == has_space_or_nonascii(f@),
{
    let n = f.unicode_len();
    let mut i: usize = 0;
    while i < n
        invariant
            0 <= i <= n,
            n == f@.len(),
            forall|j: int| 0 <= j < i ==> !(f@[j] == ' ' || (f@[j] as u32) > 0x7f),
        decreases n - i,
    {
        let ch = f.get_char(i);
        if ch == ' ' || (ch as u32) > 0x7f {
            assert(has_space_or_nonascii(f@));
            return true;
        }
        i += 1;
    }
    false
}

/// Checks the directory, file name and status of a write request, in that
/// order: the directory must be a known category; the normalized file name
/// must be non-empty, free of spaces and non-ASCII characters, and already
/// lowercase; the status must be a known status. An accepted request yields
/// the normalized directory and file name.
pub fn validate_write_request(directory: &str, filename: &str, status: &str) -> (r: Result<
    (String, String),
    WriteError,
>)
    ensures
        ({
            let d = normalized_dir(directory@);
            let f = normalized_filename(filename@);
            match r {
                Ok(pair) => pair.0@ == d && pair.1@ == f && is_valid_dir(d) && f.len() > 0
                    && !has_space_or_nonascii(f) && f == lower_of(f) && is_valid_status(status@),
                Err(WriteError::InvalidDirectory) => !is_valid_dir(d),
                Err(WriteError::EmptyFilename) => is_valid_dir(d) && f.len() == 0,
                Err(WriteError::FilenameNotSimple) => is_valid_dir(d) && f.len() > 0
                    && has_space_or_nonascii(f),
                Err(WriteError::FilenameNotLower) => is_valid_dir(d) && f.len() > 0
                    && !has_space_or_nonascii(f) && f != lower_of(f),
                Err(WriteError::InvalidStatus) => is_valid_dir(d) && f.len() > 0
                    && !has_space_or_nonascii(f) && f == lower_of(f) && !is_valid_status(status@),
            }
        }),
{
    let d = trim_char(trim(directory), '/');
    if !check_valid_dir(d) {
        return Err(WriteError::InvalidDirectory);
    }
    let f = strip_all_suffix(trim(filename), ".md");
    if f.unicode_len() == 0 {
        return Err(WriteError::EmptyFilename);
    }
    if check_space_or_nonascii(f) {
        return Err(WriteError::FilenameNotSimple);
    }
    let f_owned = f.to_owned();
    let f_lower = to_lower(f);
    if !(f_owned == f_lower) {
        return Err(WriteError::FilenameNotLower);
    }
    if !check_valid_status(status) {
        return Err(WriteError::InvalidStatus);
    }
    Ok((d.to_owned(), f_owned))
}

/// Checks a read request, per `validate_read_path`.
pub fn validate_read_params(params: &ReadNoteParams) -> (r: Result<String, ReadError>)
    ensures
        ({
            let p = normalized_read_path(params.path@);
            match r {
                Ok(q) => q@ == p && p.len() > 0 && !contains_spec(p, ".."@),
                Err(ReadError::EmptyPath) => p.len() == 0,
                Err(ReadError::PathTraversal) => p.len() > 0 && contains_spec(p, ".."@),
            }
        }),
{
    validate_read_path(params.path.as_str())
}

/// Checks a write request, per `validate_write_request`.
pub fn validate_write_params(params: &WriteNoteParams) -> (r: Result<(String, String), WriteError>)
    ensures
        ({
            let d = normalized_dir(params.directory@);
            let f = normalized_filename(params.filename@);
            match r {
                Ok(pair) => pair.0@ == d && pair.1@ == f && is_valid_dir(d) && f.len() > 0
                    && !has_space_or_nonascii(f) && f == lower_of(f) && is_valid_status(
                    params.status@,
                ),
                Err(WriteError::InvalidDirectory) => !is_valid_dir(d),
                Err(WriteError::EmptyFilename) => is_valid_dir(d) && f.len() == 0,
                Err(WriteError::FilenameNotSimple) => is_valid_dir(d) && f.len() > 0
                    && has_space_or_nonascii(f),
                Err(WriteError::FilenameNotLower) => is_valid_dir(d) && f.len() > 0
                    && !has_space_or_nonascii(f) && f != lower_of(f),
                Err(WriteError::InvalidStatus) => is_valid_dir(d) && f.len() > 0
                    && !has_space_or_nonascii(f) && f == lower_of(f) && !is_valid_status(
                    params.status@,
                ),
            }
        }),
{
    validate_write_request(
        params.directory.as_str(),
        params.filename.as_str(),
        params.status.as_str(),
    )
}

/// The root-relative path a write lands at: `directory/filename.md`.
pub open spec fn note_rel_path(d: Seq<char>, f: Seq<char>) -> Seq<char> {
    d + "/"@ + f + ".md"@
}

/// Builds the relative path of a note, per `note_rel_path`.
pub fn make_note_rel_path(d: &str, f: &str) -> (r: String)
    ensures
        r@ == note_rel_path(d@, f@),
{
    let mut out = d.to_owned();
    out.append("/");
    out.append(f);
    out.append(".md");
    out
}

/// Relies on chrono::Local::now and its `%Y-%m-%d` formatting: the local
/// date as year, month and day, the year zero-padded to four digits and
/// carrying an explicit sign outside `0..=9999`; every character is an ASCII
/// digit, `-` or `+`, and at least `YYYY-MM-DD` long.
#[verifier::external_body]
pub fn today_ymd() -> (r: String)
    ensures
        r@.len() >= 10,
        forall|i: int|
            0 <= i < r@.len() ==> ((0x30 <= (r@[i] as u32) && (r@[i] as u32) <= 0x39) || r@[i]
                == '-' || r@[i] == '+'),
{
    chrono::Local::now().format("%Y-%m-%d").to_string()
}

/// The text a write stores: a fresh document synthesized from the request
/// when none exists, or the existing text merged with the appended content;
/// the flag tells which happened (`true` for a creation).
pub fn write_note_content(
    existing: Option<&String>,
    tags: &Vec<String>,
    aliases: &Vec<String>,
    status: &str,
    today: &str,
    content: &str,
) -> (r: (String, bool))
    ensures
        match existing {
            Some(e) => r.0@ == merged_note_spec(e@, today@, content@) && r.1 == false,
            None => r.0@ == new_note_content_spec(
                tags.deep_view(),
                aliases.deep_view(),
                status@,
                today@,
                content@,
            ) && r.1 == true,
        },
{
    match existing {
        Some(e) => (merged_note_content(e.as_str(), today, content), false),
        None => (new_note_content(tags, aliases, status, today, content), true),
    }
}

/// The confirmation a creation reports, naming the new path.
pub open spec fn created_message(rel: Seq<char>) -> Seq<char> {
    "Created note `"@ + rel + "`."@
}

/// The confirmation an append reports, naming the path and the new date.
pub open spec fn appended_message(rel: Seq<char>, today: Seq<char>) -> Seq<char> {
    "Appended to `"@ + rel + "`; updated date set to "@ + today + "."@
}

/// Builds the creation confirmation, per `created_message`.
pub fn make_created_message(rel: &str) -> (r: String)
    ensures
        r@ == created_message(rel@),
{
    let mut out = "Created note `".to_owned();
    out.append(rel);
    out.append("`.");
    out
}

/// Builds the append confirmation, per `appended_message`.
pub fn make_appended_message(rel: &str, today: &str) -> (r: String)
    ensures
        r@ == appended_message(rel@, today@),
{
    let mut out = "Appended to `".to_owned();
    out.append(rel);
    out.append("`; updated date set to ");
    out.append(today);
    out.append(".");
    out
}

} // verus!
