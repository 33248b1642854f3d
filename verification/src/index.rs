use vstd::prelude::*;

use crate::frontmatter::{parse_frontmatter, parse_frontmatter_spec};
use crate::text::{find_last_char, last_index_of, lemma_last_index_of, lower_of, to_lower};

verus! {

/// One file handed to the index builder: its root-relative path with `/`
/// separators, and its full text.
pub struct NoteFile {
    pub rel_path: String,
    pub content: String,
}

/// One indexed document: the metadata derived from one file.
pub struct NoteEntry {
    pub rel_path: String,
    pub tags: Vec<String>,
    pub aliases: Vec<String>,
    pub status: String,
    pub title: String,
}

/// The mathematical image of one indexed document.
pub struct EntryModel {
    pub rel_path: Seq<char>,
    pub tags: Seq<Seq<char>>,
    pub aliases: Seq<Seq<char>>,
    pub status: Seq<char>,
    pub title: Seq<char>,
}

impl View for NoteEntry {
    type V = EntryModel;

    open spec fn view(&self) -> EntryModel {
        EntryModel {
            rel_path: self.rel_path@,
            tags: self.tags.deep_view(),
            aliases: self.aliases.deep_view(),
            status: self.status@,
            title: self.title@,
        }
    }
}

/// The file name part of a `/`-separated relative path.
pub open spec fn file_name_of(p: Seq<char>) -> Seq<char> {
    match last_index_of(p, '/') {
        Some(i) => p.subrange(i + 1, p.len() as int),
        None => p,
    }
}

/// The file name without its last extension, as `Path::file_stem` derives it:
/// everything before the final `.`, unless that dot is the leading character.
pub open spec fn stem_of(name: Seq<char>) -> Seq<char> {
    match last_index_of(name, '.') {
        Some(i) => if i > 0 {
            name.subrange(0, i)
        } else {
            name
        },
        None => name,
    }
}

/// The display title of a document: the stem of its file name.
pub open spec fn title_spec(rel_path: Seq<char>) -> Seq<char> {
    stem_of(file_name_of(rel_path))
}

/// Derives the title from a relative path, per `title_spec`.
pub fn title_of(rel_path: &str) -> (r: String)
    ensures
        r@ == title_spec(rel_path@),
{
    proof {
        lemma_last_index_of(rel_path@, '/');
    }
    let n = rel_path.unicode_len();
    let name = match find_last_char(rel_path, '/') {
        Some(i) => rel_path.substring_char(i + 1, n),
        None => rel_path,
    };
    assert(name@ == file_name_of(rel_path@));
    proof {
        lemma_last_index_of(name@, '.');
    }
    let stem = match find_last_char(name, '.') {
        Some(i) => if i > 0 {
            name.substring_char(0, i)
        } else {
            name
        },
        None => name,
    };
    assert(stem@ == stem_of(name@));
    stem.to_owned()
}

/// The metadata an index derives from one file: parsed tags, aliases and
/// status, and the title from the file name.
pub open spec fn entry_model_of(rel_path: Seq<char>, content: Seq<char>) -> EntryModel {
    EntryModel {
        rel_path: rel_path,
        tags: parse_frontmatter_spec(content).0,
        aliases: parse_frontmatter_spec(content).1,
        status: parse_frontmatter_spec(content).2,
        title: title_spec(rel_path),
    }
}

/// The entry models derived from a list of files, in walk order.
pub open spec fn entries_model(files: Seq<(Seq<char>, Seq<char>)>) -> Seq<EntryModel> {
    files.map_values(|f: (Seq<char>, Seq<char>)| entry_model_of(f.0, f.1))
}

/// First-match lookup in the tag table.
pub open spec fn tag_lookup(m: Seq<(Seq<char>, Seq<int>)>, k: Seq<char>) -> Option<Seq<int>>
    decreases m.len(),
{
    if m.len() == 0 {
        None
    } else if m[0].0 == k {
        Some(m[0].1)
    } else {
        tag_lookup(m.drop_first(), k)
    }
}

/// First-match lookup in the title table.
pub open spec fn name_lookup(m: Seq<(Seq<char>, int)>, k: Seq<char>) -> Option<int>
    decreases m.len(),
{
    if m.len() == 0 {
        None
    } else if m[0].0 == k {
        Some(m[0].1)
    } else {
        name_lookup(m.drop_first(), k)
    }
}

/// How many of the first `t` tags of `tags` lower to `k`.
pub open spec fn tag_count(tags: Seq<Seq<char>>, k: Seq<char>, t: int) -> int
    decreases t,
{
    if t <= 0 {
        0
    } else {
        tag_count(tags, k, t - 1) + if lower_of(tags[t - 1]) == k {
            1int
        } else {
            0int
        }
    }
}

/// The walk-order positions, among the first `n` entries, carrying tag `k`
/// (lowercased), one occurrence per matching tag of each entry.
pub open spec fn tag_positions(es: Seq<EntryModel>, k: Seq<char>, n: int) -> Seq<int>
    decreases n,
{
    if n <= 0 {
        Seq::empty()
    } else {
        tag_positions(es, k, n - 1) + Seq::new(
            tag_count(es[n - 1].tags, k, es[n - 1].tags.len() as int) as nat,
            |x: int| n - 1,
        )
    }
}

/// The position of the last entry among the first `n` whose lowercased title
/// is `k`, if any.
pub open spec fn last_title_pos(es: Seq<EntryModel>, k: Seq<char>, n: int) -> Option<int>
    decreases n,
{
    if n <= 0 {
        None
    } else if lower_of(es[n - 1].title) == k {
        Some(n - 1)
    } else {
        last_title_pos(es, k, n - 1)
    }
}

/// The view of the stored tag table as key/positions pairs.
pub open spec fn tag_table_view(m: Seq<(String, Vec<usize>)>) -> Seq<(Seq<char>, Seq<int>)> {
    m.map_values(|kv: (String, Vec<usize>)| (kv.0@, kv.1@.map_values(|u: usize| u as int)))
}

/// The view of the stored title table as key/position pairs.
pub open spec fn name_table_view(m: Seq<(String, usize)>) -> Seq<(Seq<char>, int)> {
    m.map_values(|kv: (String, usize)| (kv.0@, kv.1 as int))
}

/// No two rows of the tag table share a key.
pub open spec fn distinct_tag_keys(m: Seq<(Seq<char>, Seq<int>)>) -> bool {
    forall|i: int, j: int| 0 <= i < j < m.len() ==> m[i].0 != m[j].0
}

/// No two rows of the title table share a key.
pub open spec fn distinct_name_keys(m: Seq<(Seq<char>, int)>) -> bool {
    forall|i: int, j: int| 0 <= i < j < m.len() ==> m[i].0 != m[j].0
}

/// The in-memory index snapshot: the entries in walk order, the tag table
/// from lowercased tag to the walk-order positions carrying it, and the title
/// table from lowercased title to the last position carrying it.
pub struct VaultIndex {
    pub entries: Vec<NoteEntry>,
    pub tag_map: Vec<(String, Vec<usize>)>,
    pub name_map: Vec<(String, usize)>,
}

impl VaultIndex {
    /// The entry models of this snapshot, in walk order.
    pub open spec fn es(&self) -> Seq<EntryModel> {
        self.entries@.map_values(|e: NoteEntry| e@)
    }

    /// The tag table as a sequence of key/positions pairs.
    pub open spec fn tm(&self) -> Seq<(Seq<char>, Seq<int>)> {
        tag_table_view(self.tag_map@)
    }

    /// The title table as a sequence of key/position pairs.
    pub open spec fn nm(&self) -> Seq<(Seq<char>, int)> {
        name_table_view(self.name_map@)
    }

    /// A well-formed snapshot: both tables hold pairwise-distinct keys and
    /// answer lookups exactly as the entry list dictates.
    pub open spec fn wf(&self) -> bool {
        &&& distinct_tag_keys(self.tm())
        &&& distinct_name_keys(self.nm())
        &&& forall|k: Seq<char>|
            #![trigger tag_lookup(self.tm(), k)]
            tag_lookup(self.tm(), k) == if tag_positions(self.es(), k, self.es().len() as int).len()
                > 0 {
                Some(tag_positions(self.es(), k, self.es().len() as int))
            } else {
                None::<Seq<int>>
            }
        &&& forall|k: Seq<char>|
            #![trigger name_lookup(self.nm(), k)]
            name_lookup(self.nm(), k) == last_title_pos(self.es(), k, self.es().len() as int)
    }
}

proof fn lemma_tag_count_exists(tags: Seq<Seq<char>>, k: Seq<char>, t: int)
    requires
        tag_count(tags, k, t) > 0,
    ensures
        exists|u: int| 0 <= u < t && lower_of(tags[u]) == k,
    decreases t,
{
    if t > 0 {
        if lower_of(tags[t - 1]) == k {
            assert(0 <= t - 1 < t && lower_of(tags[t - 1]) == k);
        } else {
            lemma_tag_count_exists(tags, k, t - 1);
        }
    }
}

proof fn lemma_tag_positions_sound(es: Seq<EntryModel>, k: Seq<char>, n: int, l: int)
    requires
        0 <= l < tag_positions(es, k, n).len(),
    ensures
        0 <= tag_positions(es, k, n)[l] < n,
        exists|u: int|
            0 <= u < es[tag_positions(es, k, n)[l]].tags.len() && lower_of(
                es[tag_positions(es, k, n)[l]].tags[u],
            ) == k,
    decreases n,
{
    if n > 0 {
        let prev = tag_positions(es, k, n - 1);
        let cnt = tag_count(es[n - 1].tags, k, es[n - 1].tags.len() as int);
        if l < prev.len() {
            lemma_tag_positions_sound(es, k, n - 1, l);
        } else {
            lemma_tag_count_nonneg(es[n - 1].tags, k, es[n - 1].tags.len() as int);
            assert(tag_positions(es, k, n)[l] == n - 1);
            assert(cnt > 0);
            lemma_tag_count_exists(es[n - 1].tags, k, es[n - 1].tags.len() as int);
        }
    }
}

/// Soundness of the tag table of a well-formed snapshot: a key is listed only
/// when some entry carries a tag lowering to it, and every position under a
/// key belongs to an entry carrying such a tag — so the table's keys are a
/// subset of the lowercased tags of the entries.
pub proof fn lemma_tag_map_sound(idx: VaultIndex, k: Seq<char>, ps: Seq<int>, l: int)
    requires
        idx.wf(),
        tag_lookup(idx.tm(), k) == Some(ps),
        0 <= l < ps.len(),
    ensures
        ps.len() > 0,
        0 <= ps[l] < idx.es().len(),
        exists|u: int|
            0 <= u < idx.es()[ps[l]].tags.len() && lower_of(idx.es()[ps[l]].tags[u]) == k,
{
    let es = idx.es();
    assert(tag_lookup(idx.tm(), k) == if tag_positions(es, k, es.len() as int).len() > 0 {
        Some(tag_positions(es, k, es.len() as int))
    } else {
        None::<Seq<int>>
    });
    assert(ps == tag_positions(es, k, es.len() as int));
    lemma_tag_positions_sound(es, k, es.len() as int, l);
}

/// A position list wrapped the way the tag table answers: present only when
/// non-empty.
pub open spec fn opt_positions(s: Seq<int>) -> Option<Seq<int>> {
    if s.len() > 0 {
        Some(s)
    } else {
        None
    }
}

proof fn lemma_tag_count_nonneg(tags: Seq<Seq<char>>, k: Seq<char>, t: int)
    ensures
        tag_count(tags, k, t) >= 0,
    decreases t,
{
    if t > 0 {
        lemma_tag_count_nonneg(tags, k, t - 1);
    }
}

proof fn lemma_tag_lookup_first_match(m: Seq<(Seq<char>, Seq<int>)>, k: Seq<char>, pos: int)
    requires
        0 <= pos < m.len(),
        m[pos].0 == k,
        forall|l: int| 0 <= l < pos ==> m[l].0 != k,
    ensures
        tag_lookup(m, k) == Some(m[pos].1),
    decreases pos,
{
    if pos > 0 {
        lemma_tag_lookup_first_match(m.drop_first(), k, pos - 1);
    }
}

proof fn lemma_tag_lookup_no_match(m: Seq<(Seq<char>, Seq<int>)>, k: Seq<char>)
    requires
        forall|l: int| 0 <= l < m.len() ==> m[l].0 != k,
    ensures
        tag_lookup(m, k) is None,
    decreases m.len(),
{
    if m.len() > 0 {
        lemma_tag_lookup_no_match(m.drop_first(), k);
    }
}

proof fn lemma_tag_lookup_update(m: Seq<(Seq<char>, Seq<int>)>, pos: int, v2: Seq<int>, k: Seq<char>)
    requires
        0 <= pos < m.len(),
        forall|l: int| 0 <= l < pos ==> m[l].0 != m[pos].0,
    ensures
        tag_lookup(m.update(pos, (m[pos].0, v2)), k) == if k == m[pos].0 {
            Some(v2)
        } else {
            tag_lookup(m, k)
        },
    decreases pos,
{
    let m2 = m.update(pos, (m[pos].0, v2));
    if pos == 0 {
        assert(m2[0] == (m[0].0, v2));
        if k != m[0].0 {
            assert(m2.drop_first() =~= m.drop_first());
        }
    } else {
        assert(m2[0] == m[0]);
        if k != m[0].0 {
            let d = m.drop_first();
            lemma_tag_lookup_update(d, pos - 1, v2, k);
            assert(d[pos - 1] == m[pos]);
            assert(m2.drop_first() =~= d.update(pos - 1, (d[pos - 1].0, v2)));
            assert(tag_lookup(m2.drop_first(), k) == tag_lookup(
                d.update(pos - 1, (d[pos - 1].0, v2)),
                k,
            ));
        }
    }
}

proof fn lemma_tag_lookup_push(m: Seq<(Seq<char>, Seq<int>)>, k0: Seq<char>, v: Seq<int>, k: Seq<char>)
    ensures
        tag_lookup(m.push((k0, v)), k) == if tag_lookup(m, k) is Some {
            tag_lookup(m, k)
        } else if k == k0 {
            Some(v)
        } else {
            None::<Seq<int>>
        },
    decreases m.len(),
{
    if m.len() == 0 {
        assert(m.push((k0, v))[0] == (k0, v));
        assert(m.push((k0, v)).drop_first() =~= Seq::<(Seq<char>, Seq<int>)>::empty());
    } else {
        lemma_tag_lookup_push(m.drop_first(), k0, v, k);
        assert(m.push((k0, v))[0] == m[0]);
        assert(m.push((k0, v)).drop_first() =~= m.drop_first().push((k0, v)));
        assert(tag_lookup(m.push((k0, v)).drop_first(), k) == tag_lookup(
            m.drop_first().push((k0, v)),
            k,
        ));
    }
}

proof fn lemma_name_lookup_update(m: Seq<(Seq<char>, int)>, pos: int, v2: int, k: Seq<char>)
    requires
        0 <= pos < m.len(),
        forall|l: int| 0 <= l < pos ==> m[l].0 != m[pos].0,
    ensures
        name_lookup(m.update(pos, (m[pos].0, v2)), k) == if k == m[pos].0 {
            Some(v2)
        } else {
            name_lookup(m, k)
        },
    decreases pos,
{
    let m2 = m.update(pos, (m[pos].0, v2));
    if pos == 0 {
        assert(m2[0] == (m[0].0, v2));
        if k != m[0].0 {
            assert(m2.drop_first() =~= m.drop_first());
        }
    } else {
        assert(m2[0] == m[0]);
        if k != m[0].0 {
            let d = m.drop_first();
            lemma_name_lookup_update(d, pos - 1, v2, k);
            assert(d[pos - 1] == m[pos]);
            assert(m2.drop_first() =~= d.update(pos - 1, (d[pos - 1].0, v2)));
            assert(name_lookup(m2.drop_first(), k) == name_lookup(
                d.update(pos - 1, (d[pos - 1].0, v2)),
                k,
            ));
        }
    }
}

proof fn lemma_name_lookup_push(m: Seq<(Seq<char>, int)>, k0: Seq<char>, v: int, k: Seq<char>)
    ensures
        name_lookup(m.push((k0, v)), k) == if name_lookup(m, k) is Some {
            name_lookup(m, k)
        } else if k == k0 {
            Some(v)
        } else {
            None::<int>
        },
    decreases m.len(),
{
    if m.len() == 0 {
        assert(m.push((k0, v))[0] == (k0, v));
        assert(m.push((k0, v)).drop_first() =~= Seq::<(Seq<char>, int)>::empty());
    } else {
        lemma_name_lookup_push(m.drop_first(), k0, v, k);
        assert(m.push((k0, v))[0] == m[0]);
        assert(m.push((k0, v)).drop_first() =~= m.drop_first().push((k0, v)));
        assert(name_lookup(m.push((k0, v)).drop_first(), k) == name_lookup(
            m.drop_first().push((k0, v)),
            k,
        ));
    }
}

proof fn lemma_name_lookup_first_match(m: Seq<(Seq<char>, int)>, k: Seq<char>, pos: int)
    requires
        0 <= pos < m.len(),
        m[pos].0 == k,
        forall|l: int| 0 <= l < pos ==> m[l].0 != k,
    ensures
        name_lookup(m, k) == Some(m[pos].1),
    decreases pos,
{
    if pos > 0 {
        lemma_name_lookup_first_match(m.drop_first(), k, pos - 1);
    }
}

proof fn lemma_name_lookup_no_match(m: Seq<(Seq<char>, int)>, k: Seq<char>)
    requires
        forall|l: int| 0 <= l < m.len() ==> m[l].0 != k,
    ensures
        name_lookup(m, k) is None,
    decreases m.len(),
{
    if m.len() > 0 {
        lemma_name_lookup_no_match(m.drop_first(), k);
    }
}

fn tm_find(tag_map: &Vec<(String, Vec<usize>)>, key: &String) -> (r: Option<usize>)
    ensures
        match r {
            Some(j) => 0 <= j < tag_map@.len() && tag_map@[j as int].0@ == key@ && (forall|l: int|
                0 <= l < j ==> tag_map@[l].0@ != key@),
            None => forall|l: int| 0 <= l < tag_map@.len() ==> tag_map@[l].0@ != key@,
        },
{
    let mut j: usize = 0;
    while j < tag_map.len()
        invariant
            0 <= j <= tag_map@.len(),
            forall|l: int| 0 <= l < j ==> tag_map@[l].0@ != key@,
        decreases tag_map@.len() - j,
    {
        if tag_map[j].0 == *key {
            return Some(j);
        }
        j += 1;
    }
    None
}

/// The first row of the title table whose key is `key`, if any.
fn nm_find(name_map: &Vec<(String, usize)>, key: &String) -> (r: Option<usize>)
    ensures
        match r {
            Some(j) => 0 <= j < name_map@.len() && name_map@[j as int].0@ == key@ && (forall|l: int|
                0 <= l < j ==> name_map@[l].0@ != key@),
            None => forall|l: int| 0 <= l < name_map@.len() ==> name_map@[l].0@ != key@,
        },
{
    let mut j: usize = 0;
    while j < name_map.len()
        invariant
            0 <= j <= name_map@.len(),
            forall|l: int| 0 <= l < j ==> name_map@[l].0@ != key@,
        decreases name_map@.len() - j,
    {
        if name_map[j].0 == *key {
            return Some(j);
        }
        j += 1;
    }
    None
}

/// Looks a lowercased tag up in the tag table, returning the row index of
/// its position list, if any.
pub fn tag_map_get(tag_map: &Vec<(String, Vec<usize>)>, key: &String) -> (r: Option<usize>)
    ensures
        match r {
            Some(j) => 0 <= j < tag_map@.len() && tag_lookup(tag_table_view(tag_map@), key@)
                == Some(tag_table_view(tag_map@)[j as int].1),
            None => tag_lookup(tag_table_view(tag_map@), key@) is None,
        },
{
    let ghost tv = tag_table_view(tag_map@);
    proof {
        assert(forall|l: int| 0 <= l < tv.len() ==> tv[l].0 == tag_map@[l].0@);
    }
    match tm_find(tag_map, key) {
        Some(j) => {
            proof {
                lemma_tag_lookup_first_match(tv, key@, j as int);
            }
            Some(j)
        },
        None => {
            proof {
                lemma_tag_lookup_no_match(tv, key@);
            }
            None
        },
    }
}

/// Looks a lowercased title up in the title table, returning the stored
/// position, if any.
pub fn name_map_get(name_map: &Vec<(String, usize)>, key: &String) -> (r: Option<usize>)
    ensures
        match r {
            Some(v) => name_lookup(name_table_view(name_map@), key@) == Some(v as int),
            None => name_lookup(name_table_view(name_map@), key@) is None,
        },
{
    let ghost nv = name_table_view(name_map@);
    proof {
        assert(forall|l: int| 0 <= l < nv.len() ==> nv[l].0 == name_map@[l].0@);
    }
    match nm_find(name_map, key) {
        Some(j) => {
            proof {
                lemma_name_lookup_first_match(nv, key@, j as int);
            }
            Some(name_map[j].1)
        },
        None => {
            proof {
                lemma_name_lookup_no_match(nv, key@);
            }
            None
        },
    }
}

/// The view of a file list as path/content pairs.
pub open spec fn files_model(files: Seq<NoteFile>) -> Seq<(Seq<char>, Seq<char>)> {
    files.map_values(|f: NoteFile| (f.rel_path@, f.content@))
}

fn clone_strings(v: &Vec<String>) -> (r: Vec<String>)
    ensures
        r.deep_view() == v.deep_view(),
{
    let mut r: Vec<String> = Vec::new();
    let mut j: usize = 0;
    while j < v.len()
        invariant
            0 <= j <= v@.len(),
            r.deep_view() == v.deep_view().take(j as int),
        decreases v@.len() - j,
    {
        let ghost pre = r.deep_view();
        r.push(v[j].clone());
        proof {
            assert(r.deep_view() =~= pre.push(v@[j as int]@));
            assert(v.deep_view().take(j + 1) =~= v.deep_view().take(j as int).push(
                v.deep_view()[j as int],
            ));
        }
        j += 1;
    }
    proof {
        assert(v.deep_view().take(v.deep_view().len() as int) =~= v.deep_view());
    }
    r
}

/// Builds a fresh index snapshot from the walked files: one entry per file in
/// walk order, and well-formed tag and title tables over them.
pub fn build_index(files: &Vec<NoteFile>) -> (r: VaultIndex)
    ensures
        r.es() == entries_model(files_model(files@)),
        r.wf(),
{
    let ghost es_goal = entries_model(files_model(files@));
    let mut idx = VaultIndex { entries: Vec::new(), tag_map: Vec::new(), name_map: Vec::new() };
    proof {
        assert(idx.es() =~= es_goal.take(0));
        assert(idx.tm() =~= Seq::<(Seq<char>, Seq<int>)>::empty());
        assert(idx.nm() =~= Seq::<(Seq<char>, int)>::empty());
        assert(distinct_tag_keys(idx.tm()));
        assert(distinct_name_keys(idx.nm()));
    }
    let mut i: usize = 0;
    while i < files.len()
        invariant
            0 <= i <= files@.len(),
            es_goal == entries_model(files_model(files@)),
            es_goal.len() == files@.len(),
            idx.entries@.len() == i,
            idx.es() == es_goal.take(i as int),
            distinct_tag_keys(idx.tm()),
            distinct_name_keys(idx.nm()),
            forall|k: Seq<char>|
                #![trigger tag_lookup(idx.tm(), k)]
                tag_lookup(idx.tm(), k) == opt_positions(tag_positions(es_goal, k, i as int)),
            forall|k: Seq<char>|
                #![trigger name_lookup(idx.nm(), k)]
                name_lookup(idx.nm(), k) == last_title_pos(es_goal, k, i as int),
        decreases files@.len() - i,
    {
        let ghost nm_pre = idx.nm();
        let ghost tm0 = idx.tm();
        proof {
            assert(distinct_name_keys(nm_pre));
            assert(distinct_tag_keys(tm0));
        }
        let f = &files[i];
        let ghost em = es_goal[i as int];
        let (tags, aliases, status) = parse_frontmatter(f.content.as_str());
        let title = title_of(f.rel_path.as_str());
        let tag_list = clone_strings(&tags);
        let title_key = to_lower(title.as_str());
        let entry = NoteEntry {
            rel_path: f.rel_path.clone(),
            tags,
            aliases,
            status,
            title,
        };
        proof {
            assert(files_model(files@)[i as int] == (f.rel_path@, f.content@));
            assert(em == entry_model_of(f.rel_path@, f.content@));
            assert(entry@ == em);
        }
        let ghost es_pre = idx.es();
        idx.entries.push(entry);
        proof {
            assert(idx.es() =~= es_pre.push(em));
            assert(es_goal.take(i + 1) =~= es_goal.take(i as int).push(em));
        }

        // Title table: last write wins for a repeated lowercased title.
        proof {
            assert(idx.nm() == nm_pre);
            assert(forall|l: int|
                0 <= l < nm_pre.len() ==> nm_pre[l].0 == idx.name_map@[l].0@);
        }
        match nm_find(&idx.name_map, &title_key) {
            Some(j) => {
                proof {
                    assert(nm_pre[j as int].0 == title_key@);
                }
                let _old_row = idx.name_map.remove(j);
                idx.name_map.insert(j, (title_key, i));
                proof {
                    assert(idx.nm() =~= nm_pre.update(j as int, (nm_pre[j as int].0, i as int)));
                    assert(distinct_name_keys(idx.nm())) by {
                        assert(forall|l: int|
                            0 <= l < idx.nm().len() ==> idx.nm()[l].0 == nm_pre[l].0);
                    }
                    assert(title_key@ == lower_of(em.title));
                    assert forall|k: Seq<char>|
                        name_lookup(idx.nm(), k) == last_title_pos(es_goal, k, i + 1) by {
                        lemma_name_lookup_update(nm_pre, j as int, i as int, k);
                        if k == nm_pre[j as int].0 {
                            assert(name_lookup(idx.nm(), k) == Some(i as int));
                            assert(last_title_pos(es_goal, k, i + 1) == Some(i as int));
                        } else {
                            assert(name_lookup(idx.nm(), k) == name_lookup(nm_pre, k));
                            assert(name_lookup(nm_pre, k) == last_title_pos(es_goal, k, i as int));
                            assert(last_title_pos(es_goal, k, i + 1) == last_title_pos(
                                es_goal,
                                k,
                                i as int,
                            ));
                        }
                    }
                }
            },
            None => {
                proof {
                    assert forall|l: int| 0 <= l < nm_pre.len() implies nm_pre[l].0 != title_key@ by {
                        assert(nm_pre[l].0 == idx.name_map@[l].0@);
                    }
                    lemma_name_lookup_no_match(nm_pre, title_key@);
                }
                idx.name_map.push((title_key, i));
                proof {
                    assert(idx.nm() =~= nm_pre.push((lower_of(em.title), i as int)));
                    assert(title_key@ == lower_of(em.title));
                    assert(distinct_name_keys(idx.nm())) by {
                        assert(forall|l: int|
                            0 <= l < nm_pre.len() ==> idx.nm()[l] == nm_pre[l]);
                        assert(idx.nm()[nm_pre.len() as int].0 == title_key@);
                    }
                    assert forall|k: Seq<char>|
                        name_lookup(idx.nm(), k) == last_title_pos(es_goal, k, i + 1) by {
                        lemma_name_lookup_push(nm_pre, lower_of(em.title), i as int, k);
                        assert(name_lookup(nm_pre, k) == last_title_pos(es_goal, k, i as int));
                        if k == lower_of(em.title) {
                            assert(name_lookup(nm_pre, k) is None);
                            assert(name_lookup(idx.nm(), k) == Some(i as int));
                            assert(last_title_pos(es_goal, k, i + 1) == Some(i as int));
                        } else {
                            assert(name_lookup(idx.nm(), k) == name_lookup(nm_pre, k));
                            assert(last_title_pos(es_goal, k, i + 1) == last_title_pos(
                                es_goal,
                                k,
                                i as int,
                            ));
                        }
                    }
                }
            },
        }

        // Tag table: one appended position per matching tag occurrence.
        let ghost tagsm = em.tags;
        assert(tag_list.deep_view() == tagsm);
        proof {
            assert(idx.tm() == tm0);
            assert forall|k: Seq<char>|
                tag_lookup(idx.tm(), k) == opt_positions(
                    tag_positions(es_goal, k, i as int) + Seq::new(
                        tag_count(tagsm, k, 0) as nat,
                        |x: int| i as int,
                    ),
                ) by {
                assert(tag_lookup(tm0, k) == opt_positions(tag_positions(es_goal, k, i as int)));
                assert(tag_positions(es_goal, k, i as int) + Seq::new(
                    tag_count(tagsm, k, 0) as nat,
                    |x: int| i as int,
                ) =~= tag_positions(es_goal, k, i as int));
            }
        }
        let mut t: usize = 0;
        while t < tag_list.len()
            invariant
                0 <= t <= tag_list@.len(),
                tag_list.deep_view() == tagsm,
                tag_list@.len() == tagsm.len(),
                i < es_goal.len(),
                em == es_goal[i as int],
                tagsm == em.tags,
                idx.entries@.len() == i + 1,
                idx.es() == es_goal.take(i + 1),
                distinct_tag_keys(idx.tm()),
                distinct_name_keys(idx.nm()),
                forall|k: Seq<char>|
                    #![trigger name_lookup(idx.nm(), k)]
                    name_lookup(idx.nm(), k) == last_title_pos(es_goal, k, i + 1),
                forall|k: Seq<char>|
                    #![trigger tag_lookup(idx.tm(), k)]
                    tag_lookup(idx.tm(), k) == opt_positions(
                        tag_positions(es_goal, k, i as int) + Seq::new(
                            tag_count(tagsm, k, t as int) as nat,
                            |x: int| i as int,
                        ),
                    ),
            decreases tag_list@.len() - t,
        {
            let ghost nm_in = idx.nm();
            let tl = to_lower(tag_list[t].as_str());
            let ghost key = lower_of(tagsm[t as int]);
            assert(tl@ == key);
            let ghost tm_pre = idx.tm();
            proof {
                assert(distinct_tag_keys(tm_pre));
                assert(forall|l: int|
                    0 <= l < tm_pre.len() ==> tm_pre[l].0 == idx.tag_map@[l].0@);
                lemma_tag_count_nonneg(tagsm, key, t as int);
            }
            match tm_find(&idx.tag_map, &tl) {
                Some(j) => {
                    proof {
                        assert(tm_pre[j as int].0 == key);
                        assert forall|l: int| 0 <= l < j implies tm_pre[l].0 != key by {
                            assert(tm_pre[l].0 == idx.tag_map@[l].0@);
                        }
                        lemma_tag_lookup_first_match(tm_pre, key, j as int);
                    }
                    let mut row = idx.tag_map.remove(j);
                    let ghost row_ps = tm_pre[j as int].1;
                    row.1.push(i);
                    idx.tag_map.insert(j, row);
                    proof {
                        assert(idx.tm() =~= tm_pre.update(
                            j as int,
                            (tm_pre[j as int].0, row_ps.push(i as int)),
                        )) by {
                            assert(row.1@.map_values(|u: usize| u as int) =~= row_ps.push(
                                i as int,
                            ));
                        }
                        assert(distinct_tag_keys(idx.tm())) by {
                            assert(forall|l: int|
                                0 <= l < idx.tm().len() ==> idx.tm()[l].0 == tm_pre[l].0);
                        }
                        assert forall|k: Seq<char>|
                            tag_lookup(idx.tm(), k) == opt_positions(
                                tag_positions(es_goal, k, i as int) + Seq::new(
                                    tag_count(tagsm, k, t + 1) as nat,
                                    |x: int| i as int,
                                ),
                            ) by {
                            lemma_tag_lookup_update(tm_pre, j as int, row_ps.push(i as int), k);
                            lemma_tag_count_nonneg(tagsm, k, t as int);
                            let base = tag_positions(es_goal, k, i as int);
                            let prev = base + Seq::new(
                                tag_count(tagsm, k, t as int) as nat,
                                |x: int| i as int,
                            );
                            let next = base + Seq::new(
                                tag_count(tagsm, k, t + 1) as nat,
                                |x: int| i as int,
                            );
                            if k == key {
                                assert(tag_lookup(tm_pre, key) == Some(row_ps));
                                assert(opt_positions(prev) == Some(row_ps));
                                assert(prev == row_ps);
                                assert(tag_count(tagsm, k, t + 1) == tag_count(tagsm, k, t as int)
                                    + 1);
                                assert(next =~= prev.push(i as int));
                                assert(tag_lookup(idx.tm(), k) == Some(row_ps.push(i as int)));
                                assert(opt_positions(next) == Some(next));
                            } else {
                                assert(tag_count(tagsm, k, t + 1) == tag_count(tagsm, k, t as int));
                                assert(next =~= prev);
                                assert(tag_lookup(idx.tm(), k) == tag_lookup(tm_pre, k));
                            }
                        }
                    }
                },
                None => {
                    proof {
                        assert forall|l: int| 0 <= l < tm_pre.len() implies tm_pre[l].0 != key by {
                            assert(tm_pre[l].0 == idx.tag_map@[l].0@);
                        }
                        lemma_tag_lookup_no_match(tm_pre, key);
                    }
                    let mut ps: Vec<usize> = Vec::new();
                    ps.push(i);
                    idx.tag_map.push((tl, ps));
                    proof {
                        assert(idx.tm() =~= tm_pre.push((key, seq![i as int]))) by {
                            assert(idx.tag_map@[tm_pre.len() as int].1@.map_values(
                                |u: usize| u as int,
                            ) =~= seq![i as int]);
                        }
                        assert(distinct_tag_keys(idx.tm())) by {
                            assert(forall|l: int|
                                0 <= l < tm_pre.len() ==> idx.tm()[l] == tm_pre[l]);
                            assert(idx.tm()[tm_pre.len() as int].0 == key);
                        }
                        assert forall|k: Seq<char>|
                            tag_lookup(idx.tm(), k) == opt_positions(
                                tag_positions(es_goal, k, i as int) + Seq::new(
                                    tag_count(tagsm, k, t + 1) as nat,
                                    |x: int| i as int,
                                ),
                            ) by {
                            lemma_tag_lookup_push(tm_pre, key, seq![i as int], k);
                            lemma_tag_count_nonneg(tagsm, k, t as int);
                            let base = tag_positions(es_goal, k, i as int);
                            let prev = base + Seq::new(
                                tag_count(tagsm, k, t as int) as nat,
                                |x: int| i as int,
                            );
                            let next = base + Seq::new(
                                tag_count(tagsm, k, t + 1) as nat,
                                |x: int| i as int,
                            );
                            if k == key {
                                assert(tag_lookup(tm_pre, key) is None);
                                assert(opt_positions(prev) == None::<Seq<int>>);
                                assert(prev.len() == 0);
                                assert(base.len() == 0);
                                assert(tag_count(tagsm, k, t as int) == 0);
                                assert(tag_count(tagsm, k, t + 1) == 1);
                                assert(next =~= seq![i as int]);
                                assert(tag_lookup(idx.tm(), k) == Some(seq![i as int]));
                                assert(opt_positions(next) == Some(next));
                            } else {
                                assert(tag_count(tagsm, k, t + 1) == tag_count(tagsm, k, t as int));
                                assert(next =~= prev);
                                assert(tag_lookup(idx.tm(), k) == tag_lookup(tm_pre, k));
                            }
                        }
                    }
                },
            }
            proof {
                assert(idx.nm() == nm_in);
                assert(distinct_name_keys(idx.nm())) by {
                    assert(distinct_name_keys(nm_in));
                }
                assert forall|k: Seq<char>|
                    name_lookup(idx.nm(), k) == last_title_pos(es_goal, k, i + 1) by {
                    assert(name_lookup(nm_in, k) == last_title_pos(es_goal, k, i + 1));
                }
            }
            t += 1;
        }
        proof {
            assert(t == tagsm.len());
            assert forall|k: Seq<char>|
                tag_lookup(idx.tm(), k) == opt_positions(tag_positions(es_goal, k, i + 1)) by {
                assert(tag_positions(es_goal, k, i + 1) == tag_positions(es_goal, k, i as int)
                    + Seq::new(
                    tag_count(es_goal[i as int].tags, k, es_goal[i as int].tags.len() as int) as nat,
                    |x: int| i as int,
                ));
            }
        }
        i += 1;
    }
    proof {
        assert(es_goal.take(es_goal.len() as int) =~= es_goal);
    }
    idx
}

} // verus!
