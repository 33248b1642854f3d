use vstd::prelude::*;

use crate::text::{
    find_first, find_sub, is_wspace, join_lines, lemma_find_first, lemma_find_first_is,
    lemma_join_lines_snoc, lemma_match_at_single, lemma_trim_noop, lemma_trim_start_subrange,
    lemma_trimmed_ends, lines_of, match_at, split_lines, starts_with, starts_with_spec,
    strip_all_prefix, strip_all_prefix_spec, trim, trim_end_spec, trim_spec, up_to_char,
    up_to_char_spec,
};

verus! {

/// Which metadata list, if any, the line scan is currently appending to.
#[derive(Clone, Copy, Debug)]
pub enum OpenList {
    Closed,
    Tags,
    Aliases,
}

/// The accumulating result of a metadata-block scan: the collected tags and
/// aliases, the status, and the currently open list.
pub struct FmState {
    pub tags: Seq<Seq<char>>,
    pub aliases: Seq<Seq<char>>,
    pub status: Seq<char>,
    pub open: OpenList,
}

/// The scan starts with no tags, no aliases, the default status, and no open
/// list.
pub open spec fn fm_init() -> FmState {
    FmState { tags: Seq::empty(), aliases: Seq::empty(), status: "active"@, open: OpenList::Closed }
}

/// How one line of the metadata block changes the scan state: `tags:` and
/// `aliases:` open their list, `- ` appends to the open list, `status:` sets
/// the status (up to a `#` comment) and closes any list, and any other
/// non-empty line closes the open list.
pub open spec fn fm_step(st: FmState, line: Seq<char>) -> FmState {
    let t = trim_spec(line);
    if starts_with_spec(t, "tags:"@) {
        FmState { open: OpenList::Tags, ..st }
    } else if starts_with_spec(t, "aliases:"@) {
        FmState { open: OpenList::Aliases, ..st }
    } else if starts_with_spec(t, "- "@) && !(st.open is Closed) {
        let val = trim_spec(strip_all_prefix_spec(t, "- "@));
        match st.open {
            OpenList::Tags => FmState { tags: st.tags.push(val), ..st },
            OpenList::Aliases => FmState { aliases: st.aliases.push(val), ..st },
            OpenList::Closed => st,
        }
    } else if starts_with_spec(t, "status:"@) {
        FmState {
            status: trim_spec(up_to_char_spec(trim_spec(strip_all_prefix_spec(t, "status:"@)), '#')),
            open: OpenList::Closed,
            ..st
        }
    } else if !starts_with_spec(t, "- "@) && t.len() > 0 {
        FmState { open: OpenList::Closed, ..st }
    } else {
        st
    }
}

/// The scan state after folding `fm_step` over the given lines.
pub open spec fn fm_scan(lines: Seq<Seq<char>>, st: FmState) -> FmState
    decreases lines.len(),
{
    if lines.len() == 0 {
        st
    } else {
        fm_scan(lines.drop_first(), fm_step(st, lines[0]))
    }
}

/// `s` without any leading byte-order marks.
pub open spec fn strip_bom(s: Seq<char>) -> Seq<char>
    decreases s.len(),
{
    if s.len() > 0 && (s[0] as u32) == 0xfeff {
        strip_bom(s.drop_first())
    } else {
        s
    }
}

/// The metadata of a document without a usable block: no tags, no aliases,
/// status `active`.
pub open spec fn default_meta() -> (Seq<Seq<char>>, Seq<Seq<char>>, Seq<char>) {
    (Seq::empty(), Seq::empty(), "active"@)
}

/// The tags, aliases and status of a document. A document that does not open
/// with `---` (after any byte-order mark), or whose opening marker is never
/// closed by a line starting with `---`, has the default metadata.
pub open spec fn parse_frontmatter_spec(content: Seq<char>) -> (
    Seq<Seq<char>>,
    Seq<Seq<char>>,
    Seq<char>,
) {
    let t = strip_bom(content);
    if !starts_with_spec(t, "---"@) {
        default_meta()
    } else {
        let after = t.skip(3);
        match find_first(after, "\n---"@) {
            Some(e) => {
                let st = fm_scan(lines_of(after.subrange(0, e)), fm_init());
                (st.tags, st.aliases, st.status)
            },
            None => default_meta(),
        }
    }
}

proof fn lemma_strip_bom_subrange(s: Seq<char>, a: int)
    requires
        0 <= a <= s.len(),
        forall|j: int| 0 <= j < a ==> (s[j] as u32) == 0xfeff,
        a < s.len() ==> (s[a] as u32) != 0xfeff,
    ensures
        strip_bom(s) == s.subrange(a, s.len() as int),
    decreases a,
{
    if a == 0 {
        assert(s.subrange(0, s.len() as int) =~= s);
    } else {
        let d = s.drop_first();
        lemma_strip_bom_subrange(d, a - 1);
        assert(d.subrange(a - 1, d.len() as int) =~= s.subrange(a, s.len() as int));
    }
}

proof fn lemma_fm_scan_unfold(lines: Seq<Seq<char>>, st: FmState, k: int)
    requires
        0 <= k < lines.len(),
    ensures
        fm_scan(lines.skip(k), st) == fm_scan(lines.skip(k + 1), fm_step(st, lines[k])),
{
    assert(lines.skip(k).len() > 0);
    assert(lines.skip(k)[0] == lines[k]);
    assert(lines.skip(k).drop_first() =~= lines.skip(k + 1));
}

/// Extracts `(tags, aliases, status)` from the leading metadata block of a
/// document, per `parse_frontmatter_spec`. Malformed or missing blocks yield
/// the defaults; no input is rejected.
pub fn parse_frontmatter(content: &str) -> (r: (Vec<String>, Vec<String>, String))
    ensures
        r.0.deep_view() == parse_frontmatter_spec(content@).0,
        r.1.deep_view() == parse_frontmatter_spec(content@).1,
        r.2@ == parse_frontmatter_spec(content@).2,
{
    let n = content.unicode_len();
    let mut a: usize = 0;
    while a < n && (content.get_char(a) as u32) == 0xfeff
        invariant
            0 <= a <= n,
            n == content@.len(),
            forall|j: int| 0 <= j < a ==> (content@[j] as u32) == 0xfeff,
        decreases n - a,
    {
        a += 1;
    }
    proof {
        lemma_strip_bom_subrange(content@, a as int);
    }
    let t = content.substring_char(a, n);
    let ghost tv = strip_bom(content@);
    assert(t@ == tv);

    if !starts_with(t, "---") {
        let r = (Vec::<String>::new(), Vec::<String>::new(), "active".to_owned());
        proof {
            assert(r.0.deep_view() =~= default_meta().0);
            assert(r.1.deep_view() =~= default_meta().1);
        }
        return r;
    }

    let tn = t.unicode_len();
    proof {
        reveal_strlit("---");
    }
    let after = t.substring_char(3, tn);
    proof {
        assert(after@ =~= tv.skip(3));
        lemma_find_first(after@, "\n---"@);
    }

    let e = match find_sub(after, "\n---") {
        Some(e) => e,
        None => {
            let r = (Vec::<String>::new(), Vec::<String>::new(), "active".to_owned());
            proof {
                assert(r.0.deep_view() =~= default_meta().0);
                assert(r.1.deep_view() =~= default_meta().1);
            }
            return r;
        },
    };

    let block = after.substring_char(0, e);
    let lines = split_lines(block);
    let ghost lv = lines.deep_view();
    assert(lv == lines_of(after@.subrange(0, e as int)));

    let mut tags: Vec<String> = Vec::new();
    let mut aliases: Vec<String> = Vec::new();
    let mut status: String = "active".to_owned();
    let mut open = OpenList::Closed;

    proof {
        assert(tags.deep_view() =~= fm_init().tags);
        assert(aliases.deep_view() =~= fm_init().aliases);
        assert(lv.skip(0) =~= lv);
    }

    let ghost goal = fm_scan(lv, fm_init());
    let mut k: usize = 0;
    while k < lines.len()
        invariant
            0 <= k <= lines.len(),
            lv == lines.deep_view(),
            lv.len() == lines.len(),
            goal == fm_scan(
                lv.skip(k as int),
                FmState {
                    tags: tags.deep_view(),
                    aliases: aliases.deep_view(),
                    status: status@,
                    open: open,
                },
            ),
        decreases lines.len() - k,
    {
        let ghost st_pre = FmState {
            tags: tags.deep_view(),
            aliases: aliases.deep_view(),
            status: status@,
            open: open,
        };
        let line: &String = &lines[k];
        assert(line@ == lv[k as int]);
        let lt = trim(line.as_str());
        if starts_with(lt, "tags:") {
            open = OpenList::Tags;
        } else if starts_with(lt, "aliases:") {
            open = OpenList::Aliases;
        } else if starts_with(lt, "- ") && !matches!(open, OpenList::Closed) {
            let val = trim(strip_all_prefix(lt, "- ")).to_owned();
            match open {
                OpenList::Tags => {
                    let ghost pre = tags.deep_view();
                    tags.push(val);
                    proof {
                        assert(tags.deep_view() =~= pre.push(val@));
                    }
                },
                OpenList::Aliases => {
                    let ghost pre = aliases.deep_view();
                    aliases.push(val);
                    proof {
                        assert(aliases.deep_view() =~= pre.push(val@));
                    }
                },
                OpenList::Closed => {},
            }
        } else if starts_with(lt, "status:") {
            status = trim(up_to_char(trim(strip_all_prefix(lt, "status:")), '#')).to_owned();
            open = OpenList::Closed;
        } else if !starts_with(lt, "- ") && lt.unicode_len() > 0 {
            open = OpenList::Closed;
        }
        proof {
            let st_post = FmState {
                tags: tags.deep_view(),
                aliases: aliases.deep_view(),
                status: status@,
                open: open,
            };
            assert(st_post == fm_step(st_pre, lv[k as int]));
            lemma_fm_scan_unfold(lv, st_pre, k as int);
        }
        k += 1;
    }
    proof {
        assert(lv.skip(lv.len() as int) =~= Seq::<Seq<char>>::empty());
    }
    (tags, aliases, status)
}

/// A document that does not open with the block marker (after any byte-order
/// mark), or whose opening marker is never closed, parses to no tags, no
/// aliases, and the default status `active`.
pub proof fn lemma_no_block_default(content: Seq<char>)
    requires
        !starts_with_spec(strip_bom(content), "---"@) || find_first(
            strip_bom(content).skip(3),
            "\n---"@,
        ) is None,
    ensures
        parse_frontmatter_spec(content) == default_meta(),
{
}

/// How one metadata line changes under a date refresh: a line whose trimmed
/// form starts with `updated:` becomes `updated: <today>`; any other line is
/// kept.
pub open spec fn updated_line_rewrite(line: Seq<char>, today: Seq<char>) -> Seq<char> {
    if starts_with_spec(trim_spec(line), "updated:"@) {
        "updated: "@ + today
    } else {
        line
    }
}

/// A metadata block with its `updated:` lines rewritten to today's date and
/// all other lines kept, rejoined with `\n`.
pub open spec fn update_frontmatter_date_spec(fm: Seq<char>, today: Seq<char>) -> Seq<char> {
    join_lines(lines_of(fm).map_values(|l: Seq<char>| updated_line_rewrite(l, today)))
}

/// Rewrites every `updated:` line of a metadata block to today's date, per
/// `update_frontmatter_date_spec`.
pub fn update_frontmatter_date(fm: &str, today: &str) -> (r: String)
    ensures
        r@ == update_frontmatter_date_spec(fm@, today@),
{
    let lines = split_lines(fm);
    let ghost mapped = lines_of(fm@).map_values(
        |l: Seq<char>| updated_line_rewrite(l, today@),
    );
    let mut out = String::new();
    proof {
        assert(mapped.take(0) =~= Seq::<Seq<char>>::empty());
    }
    let mut k: usize = 0;
    while k < lines.len()
        invariant
            0 <= k <= lines.len(),
            lines.deep_view() == lines_of(fm@),
            mapped == lines_of(fm@).map_values(|l: Seq<char>| updated_line_rewrite(l, today@)),
            mapped.len() == lines.len(),
            out@ == join_lines(mapped.take(k as int)),
        decreases lines.len() - k,
    {
        if k > 0 {
            out.append("\n");
        }
        let line: &String = &lines[k];
        assert(line@ == lines_of(fm@)[k as int]);
        let lt = trim(line.as_str());
        if starts_with(lt, "updated:") {
            out.append("updated: ");
            out.append(today);
        } else {
            out.append(line.as_str());
        }
        proof {
            reveal_strlit("\n");
            assert(mapped.take(k + 1) =~= mapped.take(k as int).push(mapped[k as int]));
            lemma_join_lines_snoc(mapped.take(k as int), mapped[k as int]);
            assert(out@ =~= join_lines(mapped.take(k + 1)));
        }
        k += 1;
    }
    proof {
        assert(mapped.take(mapped.len() as int) =~= mapped);
    }
    out
}

/// A metadata list: one `  - item` line per item.
pub open spec fn list_block(items: Seq<Seq<char>>) -> Seq<char>
    decreases items.len(),
{
    if items.len() == 0 {
        Seq::empty()
    } else {
        "  - "@ + items[0] + seq!['\n'] + list_block(items.drop_first())
    }
}

proof fn lemma_list_block_snoc(items: Seq<Seq<char>>, x: Seq<char>)
    ensures
        list_block(items.push(x)) == list_block(items) + "  - "@ + x + seq!['\n'],
    decreases items.len(),
{
    if items.len() == 0 {
        assert(items.push(x)[0] == x);
        assert(items.push(x).len() == 1);
        assert(items.push(x).drop_first() =~= Seq::<Seq<char>>::empty());
        assert(list_block(items.push(x).drop_first()) == Seq::<char>::empty());
        assert(list_block(items.push(x)) == "  - "@ + x + seq!['\n'] + Seq::<char>::empty());
        assert(list_block(items) == Seq::<char>::empty());
        assert(("  - "@ + x + seq!['\n'] + Seq::<char>::empty()) =~= (Seq::<char>::empty()
            + "  - "@ + x + seq!['\n']));
    } else {
        lemma_list_block_snoc(items.drop_first(), x);
        assert(items.push(x).drop_first() =~= items.drop_first().push(x));
        assert(items.push(x)[0] == items[0]);
        assert(items.push(x).len() == items.len() + 1 > 0);
        assert(list_block(items.push(x)) == "  - "@ + items[0] + seq!['\n'] + list_block(
            items.drop_first().push(x),
        ));
        assert(list_block(items) == "  - "@ + items[0] + seq!['\n'] + list_block(
            items.drop_first(),
        ));
        assert(list_block(items.push(x)) =~= list_block(items) + "  - "@ + x + seq!['\n']);
    }
}

/// The full text of a freshly created document: a synthesized metadata block
/// with the given tags, aliases, creation and update date, and status,
/// followed by a blank line and the body verbatim.
pub open spec fn new_note_content_spec(
    tags: Seq<Seq<char>>,
    aliases: Seq<Seq<char>>,
    status: Seq<char>,
    today: Seq<char>,
    body: Seq<char>,
) -> Seq<char> {
    "---\ntags:\n"@ + list_block(tags) + "aliases:\n"@ + list_block(aliases) + "created: "@ + today
        + seq!['\n'] + "updated: "@ + today + seq!['\n'] + "status: "@ + status + seq!['\n']
        + "---\n\n"@ + body
}

fn append_list_block(out: &mut String, items: &Vec<String>)
    ensures
        final(out)@ == old(out)@ + list_block(items.deep_view()),
{
    let ghost iv = items.deep_view();
    let ghost base = out@;
    proof {
        assert(iv.take(0) =~= Seq::<Seq<char>>::empty());
    }
    let mut k: usize = 0;
    while k < items.len()
        invariant
            0 <= k <= items.len(),
            iv == items.deep_view(),
            iv.len() == items.len(),
            out@ == base + list_block(iv.take(k as int)),
        decreases items.len() - k,
    {
        out.append("  - ");
        out.append(items[k].as_str());
        out.append("\n");
        proof {
            reveal_strlit("\n");
            assert(iv.take(k + 1) =~= iv.take(k as int).push(iv[k as int]));
            lemma_list_block_snoc(iv.take(k as int), iv[k as int]);
            assert(out@ =~= base + list_block(iv.take(k + 1)));
        }
        k += 1;
    }
    proof {
        assert(iv.take(iv.len() as int) =~= iv);
    }
}

/// Synthesizes the text of a new document, per `new_note_content_spec`.
pub fn new_note_content(
    tags: &Vec<String>,
    aliases: &Vec<String>,
    status: &str,
    today: &str,
    body: &str,
) -> (r: String)
    ensures
        r@ == new_note_content_spec(tags.deep_view(), aliases.deep_view(), status@, today@, body@),
{
    let mut out = String::new();
    out.append("---\ntags:\n");
    append_list_block(&mut out, tags);
    out.append("aliases:\n");
    append_list_block(&mut out, aliases);
    out.append("created: ");
    out.append(today);
    out.append("\n");
    out.append("updated: ");
    out.append(today);
    out.append("\n");
    out.append("status: ");
    out.append(status);
    out.append("\n");
    out.append("---\n\n");
    out.append(body);
    proof {
        reveal_strlit("\n");
        assert(out@ =~= new_note_content_spec(
            tags.deep_view(),
            aliases.deep_view(),
            status@,
            today@,
            body@,
        ));
    }
    out
}

/// The full text of an existing document after an append: when the document
/// has a well-formed metadata block, that block gets its date refreshed and
/// keeps the old body; otherwise the old text is kept unchanged. The new body
/// follows after a blank line in either case.
pub open spec fn merged_note_spec(existing: Seq<char>, today: Seq<char>, body: Seq<char>) -> Seq<
    char,
> {
    if starts_with_spec(existing, "---"@) {
        match find_first(existing.skip(3), "\n---"@) {
            Some(e) => if 0 <= e && 3 + e + "\n---"@.len() <= existing.len() {
                let cut = 3 + e + "\n---"@.len();
                update_frontmatter_date_spec(existing.subrange(0, cut), today)
                    + existing.subrange(cut, existing.len() as int) + "\n\n"@ + body
            } else {
                existing + "\n\n"@ + body
            },
            None => existing + "\n\n"@ + body,
        }
    } else {
        existing + "\n\n"@ + body
    }
}

/// Merges appended content into an existing document, per `merged_note_spec`.
pub fn merged_note_content(existing: &str, today: &str, body: &str) -> (r: String)
    ensures
        r@ == merged_note_spec(existing@, today@, body@),
{
    let en = existing.unicode_len();
    if starts_with(existing, "---") {
        proof {
            reveal_strlit("---");
        }
        let after = existing.substring_char(3, en);
        proof {
            assert(after@ =~= existing@.skip(3));
            lemma_find_first(after@, "\n---"@);
        }
        match find_sub(after, "\n---") {
            Some(e) => {
                proof {
                    reveal_strlit("\n---");
                }
                let cut = 3 + e + 4;
                let fm = existing.substring_char(0, cut);
                let rest = existing.substring_char(cut, en);
                let mut out = update_frontmatter_date(fm, today);
                out.append(rest);
                out.append("\n\n");
                out.append(body);
                proof {
                    assert(fm@ =~= existing@.subrange(0, cut as int));
                    assert(rest@ =~= existing@.subrange(cut as int, existing@.len() as int));
                }
                out
            },
            None => {
                let mut out = existing.to_owned();
                out.append("\n\n");
                out.append(body);
                out
            },
        }
    } else {
        let mut out = existing.to_owned();
        out.append("\n\n");
        out.append(body);
        out
    }
}

} // verus!

use vstd::prelude::*;

verus! {

/// No line break anywhere in `s`.
pub open spec fn no_newline(s: Seq<char>) -> bool {
    forall|i: int| 0 <= i < s.len() ==> s[i] != '\n'
}

/// A list item that a synthesized block hands back unchanged: trimmed,
/// non-empty, on one line, and not itself shaped like a list marker.
pub open spec fn clean_item(x: Seq<char>) -> bool {
    &&& trim_spec(x) == x
    &&& x.len() > 0
    &&& no_newline(x)
    &&& !starts_with_spec(x, "- "@)
}

/// A scalar value that a synthesized block hands back unchanged: trimmed,
/// non-empty, on one line.
pub open spec fn clean_scalar(x: Seq<char>) -> bool {
    &&& trim_spec(x) == x
    &&& x.len() > 0
    &&& no_newline(x)
}

proof fn lemma_match_at_shift(a: Seq<char>, b: Seq<char>, needle: Seq<char>, q: int)
    requires
        q >= 0,
    ensures
        match_at(a + b, needle, a.len() + q) == match_at(b, needle, q),
{
    if q + needle.len() <= b.len() {
        assert((a + b).subrange(a.len() + q, a.len() + q + needle.len()) =~= b.subrange(
            q,
            q + needle.len(),
        ));
    }
}

/// Splitting off one full line: the text before the first `\n` is the first
/// line, the rest split on their own.
proof fn lemma_lines_decomp(line: Seq<char>, rest: Seq<char>)
    requires
        no_newline(line),
        line.len() > 0 ==> line[line.len() - 1] != '\r',
    ensures
        lines_of(line + seq!['\n'] + rest) == seq![line] + lines_of(rest),
{
    let s = line + seq!['\n'] + rest;
    assert(s[line.len() as int] == '\n');
    lemma_match_at_single(s, '\n', line.len() as int);
    assert forall|q: int| 0 <= q < line.len() implies !match_at(s, seq!['\n'], q) by {
        lemma_match_at_single(s, '\n', q);
        assert(s[q] == line[q]);
    }
    lemma_find_first_is(s, seq!['\n'], line.len() as int);
    assert(s.subrange(0, line.len() as int) =~= line);
    assert(s.subrange(line.len() as int + 1, s.len() as int) =~= rest);
    assert(lines_of(s) =~= seq![line] + lines_of(rest));
}

/// The lines of a metadata list block, followed by anything: one line per
/// item, marker included.
pub open spec fn item_lines(items: Seq<Seq<char>>) -> Seq<Seq<char>> {
    items.map_values(|x: Seq<char>| "  - "@ + x)
}

proof fn lemma_lines_of_items(items: Seq<Seq<char>>, tail: Seq<char>)
    requires
        forall|i: int| 0 <= i < items.len() ==> clean_item(#[trigger] items[i]),
    ensures
        lines_of(list_block(items) + tail) == item_lines(items) + lines_of(tail),
    decreases items.len(),
{
    reveal_strlit("  - ");
    if items.len() == 0 {
        assert(list_block(items) + tail =~= tail);
        assert(item_lines(items) + lines_of(tail) =~= lines_of(tail));
    } else {
        let x = items[0];
        let line = "  - "@ + x;
        lemma_trimmed_ends(x);
        assert(no_newline(line)) by {
            assert(forall|i: int| 0 <= i < 4 ==> "  - "@[i] != '\n');
            assert(forall|i: int| 4 <= i < line.len() ==> line[i] == x[i - 4]);
        }
        assert(line[line.len() - 1] == x[x.len() - 1]);
        assert(line[line.len() - 1] != '\r') by {
            assert(!is_wspace(x[x.len() - 1]));
        }
        assert(list_block(items) + tail =~= line + seq!['\n'] + (list_block(items.drop_first())
            + tail));
        lemma_lines_decomp(line, list_block(items.drop_first()) + tail);
        assert(forall|i: int|
            0 <= i < items.drop_first().len() ==> clean_item(#[trigger] items.drop_first()[i]));
        lemma_lines_of_items(items.drop_first(), tail);
        assert(item_lines(items) =~= seq![line] + item_lines(items.drop_first()));
        assert(lines_of(list_block(items) + tail) =~= item_lines(items) + lines_of(tail));
    }
}

/// The first character of a joined line list is never a dash when no line
/// begins with one.
proof fn lemma_join_first_char(ls: Seq<Seq<char>>)
    requires
        forall|l: int| 0 <= l < ls.len() ==> (#[trigger] ls[l]).len() > 0 ==> ls[l][0] != '-',
    ensures
        join_lines(ls).len() > 0 ==> join_lines(ls)[0] != '-',
{
    if ls.len() == 1 {
        if ls[0].len() > 0 {
            assert(join_lines(ls)[0] == ls[0][0]);
        }
    } else if ls.len() > 1 {
        if ls[0].len() > 0 {
            assert(join_lines(ls)[0] == ls[0][0]);
        } else {
            assert(join_lines(ls)[0] == '\n');
        }
    }
}

/// Between a joined list of one-line texts that never begin with a dash and a
/// following separator, the closing marker is the first `\n---` of the whole.
proof fn lemma_closer_first(ls: Seq<Seq<char>>, sfx: Seq<char>)
    requires
        forall|l: int|
            0 <= l < ls.len() ==> no_newline(#[trigger] ls[l]) && (ls[l].len() > 0 ==> ls[l][0]
                != '-'),
        sfx.len() >= 3,
        sfx[0] == '-' && sfx[1] == '-' && sfx[2] == '-',
    ensures
        find_first(join_lines(ls) + seq!['\n'] + sfx, "\n---"@) == Some(join_lines(ls).len() as int),
    decreases ls.len(),
{
    reveal_strlit("\n---");
    let jl = join_lines(ls);
    let s = jl + seq!['\n'] + sfx;
    assert(match_at(s, "\n---"@, jl.len() as int)) by {
        assert("\n---"@.len() == 4);
        assert(s.subrange(jl.len() as int, jl.len() as int + 4) =~= "\n---"@) by {
            assert(s[jl.len() as int] == '\n');
            assert(s[jl.len() as int + 1] == sfx[0]);
            assert(s[jl.len() as int + 2] == sfx[1]);
            assert(s[jl.len() as int + 3] == sfx[2]);
        }
    }
    assert forall|q: int| 0 <= q < jl.len() implies !match_at(s, "\n---"@, q) by {
        lemma_no_early_match(ls, sfx, q);
    }
    lemma_find_first_is(s, "\n---"@, jl.len() as int);
}

proof fn lemma_no_early_match(ls: Seq<Seq<char>>, sfx: Seq<char>, q: int)
    requires
        forall|l: int|
            0 <= l < ls.len() ==> no_newline(#[trigger] ls[l]) && (ls[l].len() > 0 ==> ls[l][0]
                != '-'),
        0 <= q < join_lines(ls).len(),
    ensures
        !match_at(join_lines(ls) + seq!['\n'] + sfx, "\n---"@, q),
    decreases ls.len(),
{
    reveal_strlit("\n---");
    let jl = join_lines(ls);
    let s = jl + seq!['\n'] + sfx;
    if ls.len() == 1 {
        assert(jl == ls[0]);
        assert(s[q] == ls[0][q]);
        assert(s[q] != '\n');
        if match_at(s, "\n---"@, q) {
            assert(s.subrange(q, q + 4)[0] == '\n');
            assert(false);
        }
    } else {
        let l0 = ls[0];
        let rest = ls.drop_first();
        assert(jl == l0 + seq!['\n'] + join_lines(rest));
        let jr = join_lines(rest);
        if q < l0.len() {
            assert(s[q] == l0[q]);
            assert(s[q] != '\n');
            if match_at(s, "\n---"@, q) {
                assert(s.subrange(q, q + 4)[0] == '\n');
                assert(false);
            }
        } else if q == l0.len() {
            assert(s[q] == '\n');
            let next = s[q + 1];
            assert(forall|l: int|
                0 <= l < rest.len() ==> no_newline(#[trigger] rest[l]) && (rest[l].len() > 0
                    ==> rest[l][0] != '-'));
            if jr.len() > 0 {
                lemma_join_first_char(rest);
                assert(next == jr[0]);
                assert(next != '-');
            } else {
                assert(next == '\n');
            }
            if match_at(s, "\n---"@, q) {
                assert(s.subrange(q, q + 4)[1] == '-');
                assert(false);
            }
        } else {
            let a = l0 + seq!['\n'];
            let s2 = jr + seq!['\n'] + sfx;
            assert(s =~= a + s2);
            let q2 = q - a.len();
            lemma_match_at_shift(a, s2, "\n---"@, q2);
            assert(q2 < jr.len());
            lemma_no_early_match(rest, sfx, q2);
        }
    }
}

/// Joining then splitting a list of one-line texts gives the list back, as
/// long as the last line is non-empty.
proof fn lemma_lines_of_join(ls: Seq<Seq<char>>)
    requires
        ls.len() > 0,
        forall|l: int|
            0 <= l < ls.len() ==> no_newline(#[trigger] ls[l]) && (ls[l].len() > 0 ==> ls[l][ls[l].len()
                - 1] != '\r'),
        ls.last().len() > 0,
    ensures
        lines_of(join_lines(ls)) == ls,
    decreases ls.len(),
{
    if ls.len() == 1 {
        let l0 = ls[0];
        assert(join_lines(ls) == l0);
        assert(l0.len() > 0);
        lemma_find_first(l0, seq!['\n']);
        assert forall|j: int| !match_at(l0, seq!['\n'], j) by {
            if 0 <= j < l0.len() {
                lemma_match_at_single(l0, '\n', j);
            } else {
                reveal_strlit("x");
            }
        }
        assert(find_first(l0, seq!['\n']) is None);
        assert(lines_of(l0) =~= ls);
    } else {
        let l0 = ls[0];
        let rest = ls.drop_first();
        assert(join_lines(ls) == l0 + seq!['\n'] + join_lines(rest));
        lemma_lines_decomp(l0, join_lines(rest));
        assert(rest.last() == ls.last());
        lemma_lines_of_join(rest);
        assert(lines_of(join_lines(ls)) =~= ls);
    }
}

} // verus!

verus! {

proof fn lemma_scan_cons(l: Seq<char>, rest: Seq<Seq<char>>, st: FmState)
    ensures
        fm_scan(seq![l] + rest, st) == fm_scan(rest, fm_step(st, l)),
{
    assert((seq![l] + rest).len() > 0);
    assert((seq![l] + rest)[0] == l);
    assert((seq![l] + rest).drop_first() =~= rest);
}

proof fn lemma_step_empty(st: FmState)
    ensures
        fm_step(st, Seq::<char>::empty()) == st,
{
    reveal_strlit("tags:");
    reveal_strlit("aliases:");
    reveal_strlit("status:");
    reveal_strlit("- ");
    let t = trim_spec(Seq::<char>::empty());
    assert(t =~= Seq::<char>::empty());
    assert(!starts_with_spec(t, "tags:"@));
    assert(!starts_with_spec(t, "aliases:"@));
    assert(!starts_with_spec(t, "- "@));
    assert(!starts_with_spec(t, "status:"@));
}

proof fn lemma_step_tags(st: FmState)
    ensures
        fm_step(st, "tags:"@) == (FmState { open: OpenList::Tags, ..st }),
{
    reveal_strlit("tags:");
    let line = "tags:"@;
    lemma_trim_noop(line);
    assert(starts_with_spec(line, "tags:"@)) by {
        assert(line.subrange(0, 5) =~= "tags:"@);
    }
}

proof fn lemma_step_aliases(st: FmState)
    ensures
        fm_step(st, "aliases:"@) == (FmState { open: OpenList::Aliases, ..st }),
{
    reveal_strlit("aliases:");
    reveal_strlit("tags:");
    let line = "aliases:"@;
    lemma_trim_noop(line);
    assert(!starts_with_spec(line, "tags:"@)) by {
        if starts_with_spec(line, "tags:"@) {
            assert(line.subrange(0, 5)[0] == "tags:"@[0]);
            assert(false);
        }
    }
    assert(starts_with_spec(line, "aliases:"@)) by {
        assert(line.subrange(0, 8) =~= "aliases:"@);
    }
}

proof fn lemma_step_item(st: FmState, x: Seq<char>)
    requires
        clean_item(x),
        !(st.open is Closed),
    ensures
        fm_step(st, "  - "@ + x) == match st.open {
            OpenList::Tags => FmState { tags: st.tags.push(x), ..st },
            OpenList::Aliases => FmState { aliases: st.aliases.push(x), ..st },
            OpenList::Closed => st,
        },
{
    reveal_strlit("  - ");
    reveal_strlit("- ");
    reveal_strlit("tags:");
    reveal_strlit("aliases:");
    reveal_strlit("status:");
    let line = "  - "@ + x;
    lemma_trimmed_ends(x);
    assert(line[0] == ' ' && line[1] == ' ' && line[2] == '-');
    lemma_trim_start_subrange(line, 2);
    let t0 = "- "@ + x;
    assert(line.subrange(2, line.len() as int) =~= t0);
    assert(t0[t0.len() - 1] == x[x.len() - 1]);
    assert(trim_end_spec(t0) == t0);
    assert(trim_spec(line) == t0);
    assert(!starts_with_spec(t0, "tags:"@)) by {
        if starts_with_spec(t0, "tags:"@) {
            assert(t0.subrange(0, 5)[0] == "tags:"@[0]);
            assert(false);
        }
    }
    assert(!starts_with_spec(t0, "aliases:"@)) by {
        if starts_with_spec(t0, "aliases:"@) {
            assert(t0.subrange(0, 8)[0] == "aliases:"@[0]);
            assert(false);
        }
    }
    assert(starts_with_spec(t0, "- "@)) by {
        assert(t0.subrange(0, 2) =~= "- "@);
    }
    assert(strip_all_prefix_spec(t0, "- "@) == x) by {
        assert(t0.skip(2) =~= x);
        assert(strip_all_prefix_spec(x, "- "@) == x);
    }
    assert(trim_spec(strip_all_prefix_spec(t0, "- "@)) == x);
}

proof fn lemma_step_close(st: FmState, line: Seq<char>)
    requires
        trim_spec(line) == line,
        line.len() > 0,
        line[0] != 't' && line[0] != 'a' && line[0] != '-' && line[0] != 's',
    ensures
        fm_step(st, line) == (FmState { open: OpenList::Closed, ..st }),
{
    reveal_strlit("tags:");
    reveal_strlit("aliases:");
    reveal_strlit("status:");
    reveal_strlit("- ");
    assert(!starts_with_spec(line, "tags:"@)) by {
        if starts_with_spec(line, "tags:"@) {
            assert(line.subrange(0, 5)[0] == "tags:"@[0]);
            assert(false);
        }
    }
    assert(!starts_with_spec(line, "aliases:"@)) by {
        if starts_with_spec(line, "aliases:"@) {
            assert(line.subrange(0, 8)[0] == "aliases:"@[0]);
            assert(false);
        }
    }
    assert(!starts_with_spec(line, "- "@)) by {
        if starts_with_spec(line, "- "@) {
            assert(line.subrange(0, 2)[0] == "- "@[0]);
            assert(false);
        }
    }
    assert(!starts_with_spec(line, "status:"@)) by {
        if starts_with_spec(line, "status:"@) {
            assert(line.subrange(0, 7)[0] == "status:"@[0]);
            assert(false);
        }
    }
}

proof fn lemma_step_status(st: FmState, status: Seq<char>)
    requires
        clean_scalar(status),
        forall|i: int| 0 <= i < status.len() ==> status[i] != '#',
    ensures
        fm_step(st, "status: "@ + status) == (FmState {
            status: status,
            open: OpenList::Closed,
            ..st
        }),
{
    reveal_strlit("status: ");
    reveal_strlit("status:");
    reveal_strlit("tags:");
    reveal_strlit("aliases:");
    reveal_strlit("- ");
    let line = "status: "@ + status;
    lemma_trimmed_ends(status);
    assert(line[0] == 's');
    assert(line[line.len() - 1] == status[status.len() - 1]);
    lemma_trim_noop(line);
    assert(!starts_with_spec(line, "tags:"@)) by {
        if starts_with_spec(line, "tags:"@) {
            assert(line.subrange(0, 5)[0] == "tags:"@[0]);
            assert(false);
        }
    }
    assert(!starts_with_spec(line, "aliases:"@)) by {
        if starts_with_spec(line, "aliases:"@) {
            assert(line.subrange(0, 8)[0] == "aliases:"@[0]);
            assert(false);
        }
    }
    assert(!starts_with_spec(line, "- "@)) by {
        if starts_with_spec(line, "- "@) {
            assert(line.subrange(0, 2)[1] == "- "@[1]);
            assert(line[1] == 't');
            assert(false);
        }
    }
    assert(starts_with_spec(line, "status:"@)) by {
        assert(line.subrange(0, 7) =~= "status:"@);
    }
    let r1 = seq![' '] + status;
    assert(!starts_with_spec(r1, "status:"@)) by {
        if starts_with_spec(r1, "status:"@) {
            assert(r1.subrange(0, 7)[0] == "status:"@[0]);
            assert(false);
        }
    }
    assert(strip_all_prefix_spec(r1, "status:"@) == r1);
    assert(strip_all_prefix_spec(line, "status:"@) == strip_all_prefix_spec(
        line.skip("status:"@.len() as int),
        "status:"@,
    ));
    assert(line.skip("status:"@.len() as int) =~= r1);
    assert(strip_all_prefix_spec(line, "status:"@) == r1);
    assert(trim_spec(r1) == status) by {
        assert(r1[0] == ' ');
        assert(r1[1] == status[0]);
        lemma_trim_start_subrange(r1, 1);
        assert(r1.subrange(1, r1.len() as int) =~= status);
        assert(trim_end_spec(status) == status);
    }
    assert(up_to_char_spec(status, '#') == status) by {
        lemma_find_first(status, seq!['#']);
        assert forall|j: int| !match_at(status, seq!['#'], j) by {
            if 0 <= j < status.len() {
                lemma_match_at_single(status, '#', j);
            }
        }
        match find_first(status, seq!['#']) {
            Some(i) => {
                assert(false);
            },
            None => {},
        }
    }
}

proof fn lemma_scan_items(items: Seq<Seq<char>>, tail: Seq<Seq<char>>, st: FmState)
    requires
        forall|i: int| 0 <= i < items.len() ==> clean_item(#[trigger] items[i]),
        !(st.open is Closed),
    ensures
        fm_scan(item_lines(items) + tail, st) == fm_scan(
            tail,
            match st.open {
                OpenList::Tags => FmState { tags: st.tags + items, ..st },
                OpenList::Aliases => FmState { aliases: st.aliases + items, ..st },
                OpenList::Closed => st,
            },
        ),
    decreases items.len(),
{
    if items.len() == 0 {
        assert(item_lines(items) + tail =~= tail);
        match st.open {
            OpenList::Tags => {
                assert(st.tags + items =~= st.tags);
                assert(FmState { tags: st.tags + items, ..st } == st);
            },
            OpenList::Aliases => {
                assert(st.aliases + items =~= st.aliases);
                assert(FmState { aliases: st.aliases + items, ..st } == st);
            },
            OpenList::Closed => {},
        }
    } else {
        let x = items[0];
        let line = "  - "@ + x;
        assert(item_lines(items) + tail =~= seq![line] + (item_lines(items.drop_first()) + tail));
        lemma_scan_cons(line, item_lines(items.drop_first()) + tail, st);
        lemma_step_item(st, x);
        let st1 = fm_step(st, line);
        assert(!(st1.open is Closed));
        assert(forall|i: int|
            0 <= i < items.drop_first().len() ==> clean_item(#[trigger] items.drop_first()[i]));
        lemma_scan_items(items.drop_first(), tail, st1);
        match st.open {
            OpenList::Tags => {
                assert(st.tags.push(x) + items.drop_first() =~= st.tags + items);
            },
            OpenList::Aliases => {
                assert(st.aliases.push(x) + items.drop_first() =~= st.aliases + items);
            },
            OpenList::Closed => {},
        }
    }
}

} // verus!

verus! {

proof fn lemma_join_cons(l: Seq<char>, rest: Seq<Seq<char>>)
    requires
        rest.len() > 0,
    ensures
        join_lines(seq![l] + rest) == l + seq!['\n'] + join_lines(rest),
{
    let ls = seq![l] + rest;
    assert(ls.len() >= 2);
    assert(ls[0] == l);
    assert(ls.drop_first() =~= rest);
}

proof fn lemma_join_items(items: Seq<Seq<char>>, rest: Seq<Seq<char>>)
    requires
        rest.len() > 0,
    ensures
        join_lines(item_lines(items) + rest) == list_block(items) + join_lines(rest),
    decreases items.len(),
{
    if items.len() == 0 {
        assert(item_lines(items) + rest =~= rest);
        assert(list_block(items) + join_lines(rest) =~= join_lines(rest));
    } else {
        let x = items[0];
        let line = "  - "@ + x;
        assert(item_lines(items) + rest =~= seq![line] + (item_lines(items.drop_first()) + rest));
        assert((item_lines(items.drop_first()) + rest).len() >= rest.len());
        lemma_join_cons(line, item_lines(items.drop_first()) + rest);
        lemma_join_items(items.drop_first(), rest);
        assert(list_block(items) =~= line + seq!['\n'] + list_block(items.drop_first()));
        assert(join_lines(item_lines(items) + rest) =~= list_block(items) + join_lines(rest)) by {
            assert(join_lines(item_lines(items) + rest) == line + seq!['\n'] + (list_block(
                items.drop_first(),
            ) + join_lines(rest)));
        }
    }
}

} // verus!

verus! {

/// Round trip of a freshly created document: parsing the synthesized text
/// back yields exactly the supplied tags, aliases and status, and the text
/// ends with a blank line followed by the supplied body verbatim. The items
/// must be clean in the sense of `clean_item`, and the status and date clean
/// scalars, the status without a comment marker.
#[verifier::rlimit(50)]
pub proof fn lemma_new_note_round_trip(
    tags: Seq<Seq<char>>,
    aliases: Seq<Seq<char>>,
    status: Seq<char>,
    today: Seq<char>,
    body: Seq<char>,
)
    requires
        forall|i: int| 0 <= i < tags.len() ==> clean_item(#[trigger] tags[i]),
        forall|i: int| 0 <= i < aliases.len() ==> clean_item(#[trigger] aliases[i]),
        clean_scalar(status),
        forall|i: int| 0 <= i < status.len() ==> status[i] != '#',
        clean_scalar(today),
    ensures
        parse_frontmatter_spec(new_note_content_spec(tags, aliases, status, today, body)).0
            == tags,
        parse_frontmatter_spec(new_note_content_spec(tags, aliases, status, today, body)).1
            == aliases,
        parse_frontmatter_spec(new_note_content_spec(tags, aliases, status, today, body)).2
            == status,
        new_note_content_spec(tags, aliases, status, today, body).subrange(
            new_note_content_spec(tags, aliases, status, today, body).len() - body.len() - 2,
            new_note_content_spec(tags, aliases, status, today, body).len() as int,
        ) == "\n\n"@ + body,
{
    reveal_strlit("---\ntags:\n");
    reveal_strlit("aliases:\n");
    reveal_strlit("created: ");
    reveal_strlit("updated: ");
    reveal_strlit("status: ");
    reveal_strlit("---\n\n");
    reveal_strlit("---");
    reveal_strlit("\n---");
    reveal_strlit("tags:");
    reveal_strlit("aliases:");
    reveal_strlit("  - ");
    reveal_strlit("\n\n");
    let text = new_note_content_spec(tags, aliases, status, today, body);
    lemma_trimmed_ends(today);
    lemma_trimmed_ends(status);

    let lcreated = "created: "@ + today;
    let lupdated = "updated: "@ + today;
    let lstatus = "status: "@ + status;
    let l_rest3: Seq<Seq<char>> = seq![lstatus];
    let l_rest2 = seq![lupdated] + l_rest3;
    let l_rest1 = seq![lcreated] + l_rest2;
    let l_aliases_items = item_lines(aliases) + l_rest1;
    let l_from_aliases = seq!["aliases:"@] + l_aliases_items;
    let l_tags_items = item_lines(tags) + l_from_aliases;
    let l_from_tags = seq!["tags:"@] + l_tags_items;
    let ls = seq![Seq::<char>::empty()] + l_from_tags;

    // the joined lines are exactly the header block of the synthesized text
    lemma_join_cons(Seq::<char>::empty(), l_from_tags);
    lemma_join_cons("tags:"@, l_tags_items);
    lemma_join_items(tags, l_from_aliases);
    lemma_join_cons("aliases:"@, l_aliases_items);
    lemma_join_items(aliases, l_rest1);
    lemma_join_cons(lcreated, l_rest2);
    lemma_join_cons(lupdated, l_rest3);
    assert(join_lines(l_rest3) == lstatus);
    let jl = join_lines(ls);
    let sfx = "---\n\n"@ + body;
    assert(text =~= "---"@ + (jl + seq!['\n'] + sfx));

    // every header line sits on one line, never starts with a dash, and never
    // ends with a carriage return
    let tn = tags.len() as int;
    let an = aliases.len() as int;
    assert(ls.len() == 6 + tn + an);
    assert forall|l: int| 0 <= l < ls.len() implies no_newline(#[trigger] ls[l]) && (ls[l].len() > 0
        ==> ls[l][0] != '-') && (ls[l].len() > 0 ==> ls[l][ls[l].len() - 1] != '\r') by {
        if l == 0 {
            assert(ls[0] =~= Seq::<char>::empty());
        } else if l == 1 {
            assert(ls[1] == "tags:"@);
        } else if 2 <= l < 2 + tn {
            assert(ls[l] == item_lines(tags)[l - 2]);
            let x = tags[l - 2];
            lemma_trimmed_ends(x);
            assert(ls[l] == "  - "@ + x);
            assert(ls[l][0] == ' ');
            assert(ls[l][ls[l].len() - 1] == x[x.len() - 1]);
        } else if l == 2 + tn {
            assert(ls[l] == "aliases:"@);
        } else if 3 + tn <= l < 3 + tn + an {
            assert(ls[l] == item_lines(aliases)[l - 3 - tn]);
            let x = aliases[l - 3 - tn];
            lemma_trimmed_ends(x);
            assert(ls[l] == "  - "@ + x);
            assert(ls[l][0] == ' ');
            assert(ls[l][ls[l].len() - 1] == x[x.len() - 1]);
        } else if l == 3 + tn + an {
            assert(ls[l] == lcreated);
            assert(ls[l][0] == 'c');
            assert(ls[l][ls[l].len() - 1] == today[today.len() - 1]);
        } else if l == 4 + tn + an {
            assert(ls[l] == lupdated);
            assert(ls[l][0] == 'u');
            assert(ls[l][ls[l].len() - 1] == today[today.len() - 1]);
        } else {
            assert(ls[l] == lstatus);
            assert(ls[l][0] == 's');
            assert(ls[l][ls[l].len() - 1] == status[status.len() - 1]);
        }
    }

    // the closing marker is the first `\n---`, so the block is exactly `jl`
    lemma_closer_first(ls, sfx);
    assert(strip_bom(text) == text) by {
        assert(text[0] == '-');
    }
    assert(starts_with_spec(text, "---"@)) by {
        assert(text.subrange(0, 3) =~= "---"@);
    }
    let after = text.skip(3);
    assert(after =~= jl + seq!['\n'] + sfx);
    assert(find_first(after, "\n---"@) == Some(jl.len() as int));
    assert(after.subrange(0, jl.len() as int) =~= jl);
    assert(ls.last() == lstatus);
    lemma_lines_of_join(ls);
    assert(lines_of(after.subrange(0, jl.len() as int)) == ls);

    // scanning the lines collects exactly the supplied metadata
    let st0 = fm_init();
    assert(ls.drop_first() =~= l_from_tags);
    lemma_scan_cons(Seq::<char>::empty(), l_from_tags, st0);
    lemma_step_empty(st0);
    lemma_scan_cons("tags:"@, l_tags_items, st0);
    lemma_step_tags(st0);
    let st1 = FmState { open: OpenList::Tags, ..st0 };
    lemma_scan_items(tags, l_from_aliases, st1);
    let st2 = FmState { tags: st0.tags + tags, ..st1 };
    assert(st0.tags + tags =~= tags);
    lemma_scan_cons("aliases:"@, l_aliases_items, st2);
    lemma_step_aliases(st2);
    let st3 = FmState { open: OpenList::Aliases, ..st2 };
    lemma_scan_items(aliases, l_rest1, st3);
    let st4 = FmState { aliases: st3.aliases + aliases, ..st3 };
    assert(st3.aliases + aliases =~= aliases);
    assert(lcreated[0] == 'c');
    assert(lcreated[lcreated.len() - 1] == today[today.len() - 1]);
    lemma_trim_noop(lcreated);
    lemma_scan_cons(lcreated, l_rest2, st4);
    lemma_step_close(st4, lcreated);
    let st5 = FmState { open: OpenList::Closed, ..st4 };
    assert(lupdated[0] == 'u');
    assert(lupdated[lupdated.len() - 1] == today[today.len() - 1]);
    lemma_trim_noop(lupdated);
    lemma_scan_cons(lupdated, l_rest3, st5);
    lemma_step_close(st5, lupdated);
    let st6 = FmState { open: OpenList::Closed, ..st5 };
    assert(l_rest3 =~= seq![lstatus] + Seq::<Seq<char>>::empty());
    lemma_scan_cons(lstatus, Seq::<Seq<char>>::empty(), st6);
    lemma_step_status(st6, status);
    let st7 = FmState { status: status, open: OpenList::Closed, ..st6 };
    assert(fm_scan(ls, st0) == st7);
    assert(st7.tags == tags);
    assert(st7.aliases == aliases);
    assert(st7.status == status);

    // the text ends with a blank line and the body
    assert(text.subrange(text.len() - body.len() - 2, text.len() as int) =~= "\n\n"@ + body);
}

} // verus!
