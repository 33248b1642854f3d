use vstd::prelude::*;

use crate::index::VaultIndex;
use crate::text::{lemma_lex_le_refl, lex_le, str_le};

verus! {

/// The character of one decimal digit.
pub open spec fn digit_char(d: nat) -> char {
    if d == 0 {
        '0'
    } else if d == 1 {
        '1'
    } else if d == 2 {
        '2'
    } else if d == 3 {
        '3'
    } else if d == 4 {
        '4'
    } else if d == 5 {
        '5'
    } else if d == 6 {
        '6'
    } else if d == 7 {
        '7'
    } else if d == 8 {
        '8'
    } else {
        '9'
    }
}

/// The decimal numeral of `n`, most significant digit first.
pub open spec fn dec_digits(n: nat) -> Seq<char>
    decreases n,
{
    if n < 10 {
        seq![digit_char(n)]
    } else {
        dec_digits(n / 10).push(digit_char(n % 10))
    }
}

fn digit_str(d: usize) -> (r: &'static str)
    requires
        d < 10,
    ensures
        r@ == seq![digit_char(d as nat)],
{
    let r: &'static str = match d {
        0 => "0",
        1 => "1",
        2 => "2",
        3 => "3",
        4 => "4",
        5 => "5",
        6 => "6",
        7 => "7",
        8 => "8",
        _ => "9",
    };
    proof {
        reveal_strlit("0");
        reveal_strlit("1");
        reveal_strlit("2");
        reveal_strlit("3");
        reveal_strlit("4");
        reveal_strlit("5");
        reveal_strlit("6");
        reveal_strlit("7");
        reveal_strlit("8");
        reveal_strlit("9");
        assert(r@ =~= seq![digit_char(d as nat)]);
    }
    r
}

/// Writes `n` in decimal, per `dec_digits`.
pub fn usize_to_string(n: usize) -> (r: String)
    ensures
        r@ == dec_digits(n as nat),
    decreases n,
{
    if n < 10 {
        digit_str(n).to_owned()
    } else {
        let mut s = usize_to_string(n / 10);
        s.append(digit_str(n % 10));
        proof {
            assert(s@ =~= dec_digits((n / 10) as nat).push(digit_char((n % 10) as nat)));
        }
        s
    }
}

/// Stable insertion of a key/count row into a key-sorted table.
pub open spec fn insert_pair(sorted: Seq<(Seq<char>, int)>, x: (Seq<char>, int)) -> Seq<
    (Seq<char>, int),
>
    decreases sorted.len(),
{
    if sorted.len() == 0 {
        seq![x]
    } else if lex_le(sorted[0].0, x.0) {
        seq![sorted[0]] + insert_pair(sorted.drop_first(), x)
    } else {
        seq![x] + sorted
    }
}

/// Key-sorted rows, built by stable insertion.
pub open spec fn sort_pairs(rows: Seq<(Seq<char>, int)>) -> Seq<(Seq<char>, int)>
    decreases rows.len(),
{
    if rows.len() == 0 {
        Seq::empty()
    } else {
        insert_pair(sort_pairs(rows.drop_last()), rows.last())
    }
}

/// The tag/count rows of a snapshot, keyed by lowercased tag, sorted by key:
/// each tag table row contributes its key and how many positions it lists.
pub open spec fn summary_rows(tm: Seq<(Seq<char>, Seq<int>)>) -> Seq<(Seq<char>, int)> {
    sort_pairs(tm.map_values(|kv: (Seq<char>, Seq<int>)| (kv.0, kv.1.len() as int)))
}

proof fn lemma_insert_pair_at(sorted: Seq<(Seq<char>, int)>, x: (Seq<char>, int), p: int)
    requires
        0 <= p <= sorted.len(),
        forall|l: int| 0 <= l < p ==> lex_le(#[trigger] sorted[l].0, x.0),
        p < sorted.len() ==> !lex_le(sorted[p].0, x.0),
    ensures
        insert_pair(sorted, x) == sorted.take(p) + seq![x] + sorted.skip(p),
    decreases sorted.len(),
{
    if sorted.len() == 0 || p == 0 {
        assert(sorted.take(0) =~= Seq::<(Seq<char>, int)>::empty());
        assert(sorted.skip(0) =~= sorted);
        assert(insert_pair(sorted, x) =~= sorted.take(0) + seq![x] + sorted.skip(0));
    } else {
        let d = sorted.drop_first();
        assert(forall|l: int| 0 <= l < p - 1 ==> lex_le(#[trigger] d[l].0, x.0));
        lemma_insert_pair_at(d, x, p - 1);
        assert(d.take(p - 1) =~= sorted.take(p).drop_first());
        assert(d.skip(p - 1) =~= sorted.skip(p));
        assert(insert_pair(sorted, x) =~= sorted.take(p) + seq![x] + sorted.skip(p));
    }
}

/// The view of stored summary rows.
pub open spec fn rows_view(rows: Seq<(String, usize)>) -> Seq<(Seq<char>, int)> {
    rows.map_values(|kv: (String, usize)| (kv.0@, kv.1 as int))
}

impl VaultIndex {
    /// The tag/count table of this snapshot, sorted by lowercased tag, per
    /// `summary_rows`.
    pub fn tag_summary(&self) -> (r: Vec<(String, usize)>)
        ensures
            rows_view(r@) == summary_rows(self.tm()),
    {
        let ghost raw = self.tm().map_values(
            |kv: (Seq<char>, Seq<int>)| (kv.0, kv.1.len() as int),
        );
        let mut out: Vec<(String, usize)> = Vec::new();
        proof {
            assert(raw.take(0) =~= Seq::<(Seq<char>, int)>::empty());
            assert(rows_view(out@) =~= sort_pairs(raw.take(0)));
        }
        let mut k: usize = 0;
        while k < self.tag_map.len()
            invariant
                0 <= k <= self.tag_map@.len(),
                raw == self.tm().map_values(
                    |kv: (Seq<char>, Seq<int>)| (kv.0, kv.1.len() as int),
                ),
                raw.len() == self.tag_map@.len(),
                rows_view(out@) == sort_pairs(raw.take(k as int)),
            decreases self.tag_map@.len() - k,
        {
            let row = &self.tag_map[k];
            let key = row.0.clone();
            let cnt = row.1.len();
            proof {
                assert(raw[k as int] == (self.tag_map@[k as int].0@, self.tag_map@[k as int].1@.map_values(
                    |u: usize| u as int,
                ).len() as int));
                assert(raw[k as int].0 == key@);
                assert(raw[k as int].1 == cnt as int);
            }
            let ghost sorted = rows_view(out@);
            let p = summary_insert_pos(&out, key.as_str());
            proof {
                lemma_insert_pair_at(sorted, (key@, cnt as int), p as int);
            }
            out.insert(p, (key, cnt));
            proof {
                assert(rows_view(out@) =~= sorted.take(p as int) + seq![raw[k as int]]
                    + sorted.skip(p as int));
                assert(raw.take(k + 1).drop_last() =~= raw.take(k as int));
                assert(raw.take(k + 1).last() == raw[k as int]);
                assert(rows_view(out@) == sort_pairs(raw.take(k + 1)));
            }
            k += 1;
        }
        proof {
            assert(raw.take(raw.len() as int) =~= raw);
        }
        out
    }
}

/// The position a new key belongs at in a key-sorted row table: after every
/// row whose key is not greater.
fn summary_insert_pos(out: &Vec<(String, usize)>, key: &str) -> (p: usize)
    ensures
        0 <= p <= out@.len(),
        forall|l: int| 0 <= l < p ==> lex_le(#[trigger] rows_view(out@)[l].0, key@),
        p < out@.len() ==> !lex_le(rows_view(out@)[p as int].0, key@),
{
    let mut p: usize = 0;
    while p < out.len()
        invariant
            0 <= p <= out@.len(),
            forall|l: int| 0 <= l < p ==> lex_le(#[trigger] rows_view(out@)[l].0, key@),
        decreases out@.len() - p,
    {
        assert(rows_view(out@)[p as int].0 == out@[p as int].0@);
        if !str_le(out[p].0.as_str(), key) {
            return p;
        }
        p += 1;
    }
    p
}

/// Stable insertion of a tag into a sorted list of distinct tags: an already
/// listed tag changes nothing.
pub open spec fn insert_uniq(sorted: Seq<Seq<char>>, x: Seq<char>) -> Seq<Seq<char>>
    decreases sorted.len(),
{
    if sorted.len() == 0 {
        seq![x]
    } else if sorted[0] == x {
        sorted
    } else if lex_le(sorted[0], x) {
        seq![sorted[0]] + insert_uniq(sorted.drop_first(), x)
    } else {
        seq![x] + sorted
    }
}

/// The distinct tags of the first `t` tags of one entry, folded into `acc`.
pub open spec fn add_tags(acc: Seq<Seq<char>>, tags: Seq<Seq<char>>, t: int) -> Seq<Seq<char>>
    decreases t,
{
    if t <= 0 {
        acc
    } else {
        insert_uniq(add_tags(acc, tags, t - 1), tags[t - 1])
    }
}

/// The distinct tags of the first `n` entries, sorted.
pub open spec fn all_tags(es: Seq<crate::index::EntryModel>, n: int) -> Seq<Seq<char>>
    decreases n,
{
    if n <= 0 {
        Seq::empty()
    } else {
        add_tags(all_tags(es, n - 1), es[n - 1].tags, es[n - 1].tags.len() as int)
    }
}

proof fn lemma_insert_uniq_at(sorted: Seq<Seq<char>>, x: Seq<char>, p: int, found: bool)
    requires
        0 <= p <= sorted.len(),
        forall|l: int| 0 <= l < p ==> (lex_le(#[trigger] sorted[l], x) && sorted[l] != x),
        found ==> p < sorted.len() && sorted[p] == x,
        !found ==> (p < sorted.len() ==> !lex_le(sorted[p], x)),
    ensures
        insert_uniq(sorted, x) == if found {
            sorted
        } else {
            sorted.take(p) + seq![x] + sorted.skip(p)
        },
    decreases sorted.len(),
{
    if p == 0 {
        if found {
        } else {
            if sorted.len() > 0 {
                lemma_lex_le_refl(x);
                assert(sorted[0] != x);
            }
            assert(sorted.take(0) =~= Seq::<Seq<char>>::empty());
            assert(sorted.skip(0) =~= sorted);
            assert(insert_uniq(sorted, x) =~= sorted.take(0) + seq![x] + sorted.skip(0));
        }
    } else {
        let d = sorted.drop_first();
        assert(forall|l: int| 0 <= l < p - 1 ==> (lex_le(#[trigger] d[l], x) && d[l] != x));
        lemma_insert_uniq_at(d, x, p - 1, found);
        if found {
            assert(insert_uniq(sorted, x) =~= sorted);
        } else {
            assert(d.take(p - 1) =~= sorted.take(p).drop_first());
            assert(d.skip(p - 1) =~= sorted.skip(p));
            assert(insert_uniq(sorted, x) =~= sorted.take(p) + seq![x] + sorted.skip(p));
        }
    }
}

/// Inserts one tag into the sorted distinct list, per `insert_uniq`.
fn insert_uniq_exec(out: &mut Vec<String>, x: &String)
    ensures
        final(out).deep_view() == insert_uniq(old(out).deep_view(), x@),
{
    let ghost sorted = out.deep_view();
    let mut p: usize = 0;
    while p < out.len()
        invariant
            0 <= p <= out@.len(),
            sorted == out.deep_view(),
            sorted == old(out).deep_view(),
            out == old(out),
            sorted.len() == out@.len(),
            forall|l: int| 0 <= l < p ==> (lex_le(#[trigger] sorted[l], x@) && sorted[l] != x@),
        decreases out@.len() - p,
    {
        assert(sorted[p as int] == out@[p as int]@);
        if out[p] == *x {
            proof {
                lemma_insert_uniq_at(sorted, x@, p as int, true);
            }
            return;
        }
        if !str_le(out[p].as_str(), x.as_str()) {
            proof {
                lemma_insert_uniq_at(sorted, x@, p as int, false);
            }
            let ghost pp = p as int;
            out.insert(p, x.clone());
            proof {
                assert(out.deep_view() =~= sorted.take(pp) + seq![x@] + sorted.skip(pp));
            }
            return;
        }
        p += 1;
    }
    proof {
        lemma_insert_uniq_at(sorted, x@, sorted.len() as int, false);
    }
    let ghost pp = out@.len() as int;
    out.insert(out.len(), x.clone());
    proof {
        assert(out.deep_view() =~= sorted.take(pp) + seq![x@] + sorted.skip(pp));
    }
}

impl VaultIndex {
    /// The distinct tags of this snapshot's entries, case preserved, sorted,
    /// per `all_tags`.
    pub fn distinct_tags(&self) -> (r: Vec<String>)
        ensures
            r.deep_view() == all_tags(self.es(), self.es().len() as int),
    {
        let ghost es = self.es();
        let mut out: Vec<String> = Vec::new();
        proof {
            assert(out.deep_view() =~= all_tags(es, 0));
        }
        let mut i: usize = 0;
        while i < self.entries.len()
            invariant
                0 <= i <= self.entries@.len(),
                es == self.es(),
                es.len() == self.entries@.len(),
                out.deep_view() == all_tags(es, i as int),
            decreases self.entries@.len() - i,
        {
            let entry = &self.entries[i];
            let ghost tagsm = es[i as int].tags;
            proof {
                assert(es[i as int] == self.entries@[i as int]@);
            }
            let mut t: usize = 0;
            while t < entry.tags.len()
                invariant
                    0 <= t <= entry.tags@.len(),
                    tagsm == entry.tags.deep_view(),
                    tagsm.len() == entry.tags@.len(),
                    out.deep_view() == add_tags(all_tags(es, i as int), tagsm, t as int),
                decreases entry.tags@.len() - t,
            {
                assert(entry.tags@[t as int]@ == tagsm[t as int]);
                insert_uniq_exec(&mut out, &entry.tags[t]);
                t += 1;
            }
            i += 1;
        }
        out
    }
}

} // verus!

use crate::index::{EntryModel, NoteEntry};
use crate::query::iview;
use crate::text::{join_strings, join_with};

verus! {

/// One table row of a query result: title, path, tags, aliases and status.
pub open spec fn match_row(e: EntryModel) -> Seq<char> {
    "| `"@ + e.title + "` | `"@ + e.rel_path + "` | "@ + join_with(e.tags, ", "@) + " | "@
        + join_with(e.aliases, ", "@) + " | "@ + e.status + " |\n"@
}

/// The table rows for the matched positions from `j` on, in result order.
pub open spec fn match_rows(es: Seq<EntryModel>, ps: Seq<int>, j: int) -> Seq<char>
    decreases ps.len() - j,
{
    if j < 0 || j >= ps.len() {
        Seq::empty()
    } else if 0 <= ps[j] < es.len() {
        match_row(es[ps[j]]) + match_rows(es, ps, j + 1)
    } else {
        match_rows(es, ps, j + 1)
    }
}

/// The text a query reports: a distinct no-match message for an empty
/// result, else a count line and one table row per match, in result order.
pub open spec fn query_results_spec(es: Seq<EntryModel>, ps: Seq<int>) -> Seq<char> {
    if ps.len() == 0 {
        "No matching notes."@
    } else {
        "Found "@ + dec_digits(ps.len() as nat)
            + " matching notes:\n\n| Title | Path | Tags | Aliases | Status |\n|------|------|------|------|------|\n"@
            + match_rows(es, ps, 0)
    }
}

impl VaultIndex {
    /// Renders a query result as a table of matches, per
    /// `query_results_spec`.
    pub fn render_query_results(&self, c: &Vec<usize>) -> (r: String)
        requires
            forall|l: int| 0 <= l < c@.len() ==> c@[l] < self.entries@.len(),
        ensures
            r@ == query_results_spec(self.es(), iview(c@)),
    {
        let ghost ps = iview(c@);
        let ghost es = self.es();
        if c.len() == 0 {
            return "No matching notes.".to_owned();
        }
        let mut out = "Found ".to_owned();
        out.append(usize_to_string(c.len()).as_str());
        out.append(
            " matching notes:\n\n| Title | Path | Tags | Aliases | Status |\n|------|------|------|------|------|\n",
        );
        let ghost head = out@;
        let mut j: usize = 0;
        while j < c.len()
            invariant
                0 <= j <= c@.len(),
                ps == iview(c@),
                ps.len() == c@.len(),
                es == self.es(),
                forall|l: int| 0 <= l < c@.len() ==> c@[l] < self.entries@.len(),
                head + match_rows(es, ps, 0) == out@ + match_rows(es, ps, j as int),
            decreases c@.len() - j,
        {
            let i = c[j];
            assert(ps[j as int] == i as int);
            let e: &NoteEntry = &self.entries[i];
            proof {
                assert(es[i as int] == self.entries@[i as int]@);
            }
            let ghost pre = out@;
            out.append("| `");
            out.append(e.title.as_str());
            out.append("` | `");
            out.append(e.rel_path.as_str());
            out.append("` | ");
            out.append(join_strings(&e.tags, ", ").as_str());
            out.append(" | ");
            out.append(join_strings(&e.aliases, ", ").as_str());
            out.append(" | ");
            out.append(e.status.as_str());
            out.append(" |\n");
            proof {
                assert(out@ =~= pre + match_row(es[i as int]));
                assert(match_rows(es, ps, j as int) == match_row(es[ps[j as int]]) + match_rows(
                    es,
                    ps,
                    j + 1,
                ));
                assert(head + match_rows(es, ps, 0) =~= out@ + match_rows(es, ps, j + 1));
            }
            j += 1;
        }
        proof {
            assert(match_rows(es, ps, ps.len() as int) == Seq::<char>::empty());
            assert(head + match_rows(es, ps, 0) =~= out@);
        }
        out
    }
}

/// The table body of the tag summary, one row per key, in table order.
pub open spec fn summary_table(rows: Seq<(Seq<char>, int)>) -> Seq<char>
    decreases rows.len(),
{
    if rows.len() == 0 {
        Seq::empty()
    } else {
        "| `"@ + rows[0].0 + "` | "@ + dec_digits(rows[0].1 as nat) + " |\n"@ + summary_table(
            rows.drop_first(),
        )
    }
}

proof fn lemma_summary_table_unfold(rows: Seq<(Seq<char>, int)>, k: int)
    requires
        0 <= k < rows.len(),
    ensures
        summary_table(rows.skip(k)) == "| `"@ + rows[k].0 + "` | "@ + dec_digits(
            rows[k].1 as nat,
        ) + " |\n"@ + summary_table(rows.skip(k + 1)),
{
    assert(rows.skip(k).len() > 0);
    assert(rows.skip(k)[0] == rows[k]);
    assert(rows.skip(k).drop_first() =~= rows.skip(k + 1));
}

/// The listing a vault overview reports: the rendered tree, the tag/count
/// table sorted by tag, and the note and distinct-tag totals.
pub open spec fn index_summary_spec(
    tree: Seq<char>,
    tm: Seq<(Seq<char>, Seq<int>)>,
    es: Seq<EntryModel>,
) -> Seq<char> {
    "## File tree\n\n```\n"@ + tree + "\n```\n\n## Tags ("@ + dec_digits(
        all_tags(es, es.len() as int).len() as nat,
    ) + ")\n\n| Tag | Notes |\n|------|--------|\n"@ + summary_table(summary_rows(tm))
        + "\n## Totals\n\n- Notes: "@ + dec_digits(es.len() as nat) + "\n- Tags: "@ + dec_digits(
        all_tags(es, es.len() as int).len() as nat,
    ) + seq!['\n']
}

impl VaultIndex {
    /// Renders the vault overview around an already rendered tree, per
    /// `index_summary_spec`.
    pub fn render_index_summary(&self, tree_text: &str) -> (r: String)
        ensures
            r@ == index_summary_spec(tree_text@, self.tm(), self.es()),
    {
        let all = self.distinct_tags();
        let rows = self.tag_summary();
        let ghost rv = rows_view(rows@);
        let mut out = "## File tree\n\n```\n".to_owned();
        out.append(tree_text);
        out.append("\n```\n\n## Tags (");
        out.append(usize_to_string(all.len()).as_str());
        out.append(")\n\n| Tag | Notes |\n|------|--------|\n");
        let ghost head = out@;
        proof {
            assert(rv.skip(0) =~= rv);
        }
        let mut k: usize = 0;
        while k < rows.len()
            invariant
                0 <= k <= rows@.len(),
                rv == rows_view(rows@),
                rv.len() == rows@.len(),
                head + summary_table(rv) == out@ + summary_table(rv.skip(k as int)),
            decreases rows@.len() - k,
        {
            let row = &rows[k];
            proof {
                assert(rv[k as int] == (rows@[k as int].0@, rows@[k as int].1 as int));
            }
            let ghost pre = out@;
            out.append("| `");
            out.append(row.0.as_str());
            out.append("` | ");
            out.append(usize_to_string(row.1).as_str());
            out.append(" |\n");
            proof {
                lemma_summary_table_unfold(rv, k as int);
                assert(out@ =~= pre + ("| `"@ + rv[k as int].0 + "` | "@ + dec_digits(
                    rv[k as int].1 as nat,
                ) + " |\n"@));
                assert(head + summary_table(rv) =~= out@ + summary_table(rv.skip(k + 1)));
            }
            k += 1;
        }
        proof {
            assert(rv.skip(rv.len() as int) =~= Seq::<(Seq<char>, int)>::empty());
            assert(head + summary_table(rv) =~= out@);
        }
        out.append("\n## Totals\n\n- Notes: ");
        out.append(usize_to_string(self.entries.len()).as_str());
        out.append("\n- Tags: ");
        out.append(usize_to_string(all.len()).as_str());
        out.append("\n");
        proof {
            reveal_strlit("\n");
            assert(out@ =~= index_summary_spec(tree_text@, self.tm(), self.es()));
        }
        out
    }
}

} // verus!
