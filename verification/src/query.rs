use vstd::prelude::*;

use crate::index::{
    name_lookup, name_map_get, tag_lookup, tag_map_get, EntryModel, NoteEntry, VaultIndex,
};
use crate::text::{
    contains_spec, contains_sub, lower_of, strip_one_suffix, strip_one_suffix_spec, to_lower,
};

verus! {

/// The view of a position vector as mathematical integers.
pub open spec fn iview(v: Seq<usize>) -> Seq<int> {
    v.map_values(|u: usize| u as int)
}

/// The request of a query: any combination of a tag filter, an exact-name
/// filter, and a keyword filter.
pub struct QueryNoteParams {
    pub tags: Option<Vec<String>>,
    pub exact_name: Option<String>,
    pub keyword: Option<String>,
}

impl QueryNoteParams {
    /// The requested tags, if a tag filter is present.
    pub open spec fn tags_view(&self) -> Option<Seq<Seq<char>>> {
        match self.tags {
            Some(v) => Some(v.deep_view()),
            None => None,
        }
    }

    /// The requested exact name, if present.
    pub open spec fn exact_name_view(&self) -> Option<Seq<char>> {
        match self.exact_name {
            Some(s) => Some(s@),
            None => None,
        }
    }

    /// The requested keyword, if present.
    pub open spec fn keyword_view(&self) -> Option<Seq<char>> {
        match self.keyword {
            Some(s) => Some(s@),
            None => None,
        }
    }
}

/// A query with no filter at all is invalid input.
#[derive(Clone, Copy, Debug, PartialEq, Eq, Structural)]
pub enum QueryError {
    NoFilter,
}

/// Every entry position of a snapshot of `n` entries, in walk order.
pub open spec fn all_positions(n: int) -> Seq<int> {
    Seq::new(n as nat, |j: int| j)
}

/// Membership in a fixed position list, as a predicate on positions.
pub open spec fn member_pred(ps: Seq<int>) -> spec_fn(int) -> bool {
    |p: int| ps.contains(p)
}

/// Equality with a fixed position, as a predicate on positions.
pub open spec fn eq_pred(i: int) -> spec_fn(int) -> bool {
    |p: int| p == i
}

/// One step of the tag filter: keep the candidates listed under the
/// lowercased tag; a tag with no entry empties the candidates.
pub open spec fn tag_filter_step(
    c: Seq<int>,
    tm: Seq<(Seq<char>, Seq<int>)>,
    tag: Seq<char>,
) -> Seq<int> {
    match tag_lookup(tm, lower_of(tag)) {
        Some(ps) => c.filter(member_pred(ps)),
        None => Seq::empty(),
    }
}

/// The tag filter: each requested tag narrows the candidates in turn, so a
/// surviving candidate is listed under every requested tag.
pub open spec fn tag_filter(
    c: Seq<int>,
    tm: Seq<(Seq<char>, Seq<int>)>,
    tags: Seq<Seq<char>>,
) -> Seq<int>
    decreases tags.len(),
{
    if tags.len() == 0 {
        c
    } else {
        tag_filter(tag_filter_step(c, tm, tags[0]), tm, tags.drop_first())
    }
}

/// The key an exact-name filter looks up: the name lowercased, with one
/// trailing `.md` extension removed when supplied.
pub open spec fn name_key_of(name: Seq<char>) -> Seq<char> {
    strip_one_suffix_spec(lower_of(name), ".md"@)
}

/// The exact-name filter: narrow to the position registered under the name,
/// or to nothing when the name is unknown.
pub open spec fn name_filter(c: Seq<int>, nm: Seq<(Seq<char>, int)>, name: Seq<char>) -> Seq<int> {
    match name_lookup(nm, name_key_of(name)) {
        Some(i) => c.filter(eq_pred(i)),
        None => Seq::empty(),
    }
}

/// Does an entry match an (already lowercased) keyword? The keyword may occur
/// in the lowercased title, any alias, any tag, or the relative path.
pub open spec fn entry_matches_kw(e: EntryModel, kw: Seq<char>) -> bool {
    ||| contains_spec(lower_of(e.title), kw)
    ||| exists|a: int| 0 <= a < e.aliases.len() && contains_spec(lower_of(e.aliases[a]), kw)
    ||| exists|t: int| 0 <= t < e.tags.len() && contains_spec(lower_of(e.tags[t]), kw)
    ||| contains_spec(lower_of(e.rel_path), kw)
}

/// Matching the lowercased form of `kw` against the entry at a position, as a
/// predicate on positions.
pub open spec fn kw_pred(es: Seq<EntryModel>, kw: Seq<char>) -> spec_fn(int) -> bool {
    |p: int| 0 <= p < es.len() && entry_matches_kw(es[p], lower_of(kw))
}

/// The keyword filter: keep the candidates whose entry matches the lowercased
/// keyword.
pub open spec fn kw_filter(c: Seq<int>, es: Seq<EntryModel>, kw: Seq<char>) -> Seq<int> {
    c.filter(kw_pred(es, kw))
}

/// The whole query: starting from every position in walk order, the tag,
/// exact-name and keyword filters narrow the candidates in that order; an
/// absent filter changes nothing.
pub open spec fn query_spec(
    es: Seq<EntryModel>,
    tm: Seq<(Seq<char>, Seq<int>)>,
    nm: Seq<(Seq<char>, int)>,
    tags: Option<Seq<Seq<char>>>,
    name: Option<Seq<char>>,
    kw: Option<Seq<char>>,
) -> Seq<int> {
    let c0 = all_positions(es.len() as int);
    let c1 = match tags {
        Some(ts) => tag_filter(c0, tm, ts),
        None => c0,
    };
    let c2 = match name {
        Some(n) => name_filter(c1, nm, n),
        None => c1,
    };
    match kw {
        Some(k) => kw_filter(c2, es, k),
        None => c2,
    }
}

proof fn lemma_tag_filter_unfold(
    c: Seq<int>,
    tm: Seq<(Seq<char>, Seq<int>)>,
    tags: Seq<Seq<char>>,
    g: int,
)
    requires
        0 <= g < tags.len(),
    ensures
        tag_filter(c, tm, tags.skip(g)) == tag_filter(
            tag_filter_step(c, tm, tags[g]),
            tm,
            tags.skip(g + 1),
        ),
{
    assert(tags.skip(g).len() > 0);
    assert(tags.skip(g)[0] == tags[g]);
    assert(tags.skip(g).drop_first() =~= tags.skip(g + 1));
}

proof fn lemma_filter_membership<A>(s: Seq<A>, pred: spec_fn(A) -> bool, x: A)
    ensures
        s.filter(pred).contains(x) <==> (s.contains(x) && pred(x)),
    decreases s.len(),
{
    reveal(Seq::filter);
    if s.len() == 0 {
    } else {
        let dl = s.drop_last();
        let last = s.last();
        lemma_filter_membership(dl, pred, x);
        if pred(last) {
            assert(s.filter(pred) =~= dl.filter(pred).push(last));
        } else {
            assert(s.filter(pred) =~= dl.filter(pred));
        }
        assert(s.contains(x) <==> (dl.contains(x) || x == last)) by {
            if s.contains(x) {
                let i = choose|i: int| 0 <= i < s.len() && s[i] == x;
                if i < s.len() - 1 {
                    assert(dl[i] == x);
                }
            }
            if dl.contains(x) {
                let i = choose|i: int| 0 <= i < dl.len() && dl[i] == x;
                assert(s[i] == x);
            }
            if x == last {
                assert(s[s.len() - 1] == x);
            }
        }
        let f = dl.filter(pred);
        assert(f.push(last).contains(x) <==> (f.contains(x) || x == last)) by {
            if f.push(last).contains(x) {
                let i = choose|i: int| 0 <= i < f.push(last).len() && f.push(last)[i] == x;
                if i < f.len() {
                    assert(f[i] == x);
                }
            }
            if f.contains(x) {
                let i = choose|i: int| 0 <= i < f.len() && f[i] == x;
                assert(f.push(last)[i] == x);
            }
            if x == last {
                assert(f.push(last)[f.len() as int] == x);
            }
        }
    }
}

proof fn lemma_filter_all<A>(s: Seq<A>, pred: spec_fn(A) -> bool)
    requires
        forall|i: int| 0 <= i < s.len() ==> pred(#[trigger] s[i]),
    ensures
        s.filter(pred) == s,
    decreases s.len(),
{
    reveal(Seq::filter);
    if s.len() > 0 {
        let dl = s.drop_last();
        assert(forall|i: int| 0 <= i < dl.len() ==> pred(#[trigger] dl[i])) by {
            assert(forall|i: int| 0 <= i < dl.len() ==> dl[i] == s[i]);
        }
        lemma_filter_all(dl, pred);
        assert(pred(s[s.len() - 1]));
        assert(s.filter(pred) =~= s);
    }
}

proof fn lemma_filter_idempotent<A>(s: Seq<A>, pred: spec_fn(A) -> bool)
    ensures
        s.filter(pred).filter(pred) == s.filter(pred),
{
    let f = s.filter(pred);
    assert forall|i: int| 0 <= i < f.len() implies pred(#[trigger] f[i]) by {
        s.lemma_filter_pred(pred, i);
    }
    lemma_filter_all(f, pred);
}

/// Narrowing by one tag a second time yields what one narrowing yields: the
/// tag-filter step is idempotent.
pub proof fn lemma_tag_step_idempotent(c: Seq<int>, tm: Seq<(Seq<char>, Seq<int>)>, tag: Seq<char>)
    ensures
        tag_filter_step(tag_filter_step(c, tm, tag), tm, tag) == tag_filter_step(c, tm, tag),
{
    match tag_lookup(tm, lower_of(tag)) {
        Some(ps) => {
            lemma_filter_idempotent(c, member_pred(ps));
        },
        None => {
            assert(tag_filter_step(Seq::<int>::empty(), tm, tag) =~= Seq::<int>::empty()) by {
                reveal(Seq::filter);
            }
        },
    }
}

/// Narrowing by an exact name a second time yields what one narrowing yields:
/// the name filter is idempotent.
pub proof fn lemma_name_filter_idempotent(
    c: Seq<int>,
    nm: Seq<(Seq<char>, int)>,
    name: Seq<char>,
)
    ensures
        name_filter(name_filter(c, nm, name), nm, name) == name_filter(c, nm, name),
{
    match name_lookup(nm, name_key_of(name)) {
        Some(i) => {
            lemma_filter_idempotent(c, eq_pred(i));
        },
        None => {
            assert(name_filter(Seq::<int>::empty(), nm, name) =~= Seq::<int>::empty()) by {
                reveal(Seq::filter);
            }
        },
    }
}

/// Narrowing by a keyword a second time yields what one narrowing yields: the
/// keyword filter is idempotent.
pub proof fn lemma_kw_filter_idempotent(c: Seq<int>, es: Seq<EntryModel>, kw: Seq<char>)
    ensures
        kw_filter(kw_filter(c, es, kw), es, kw) == kw_filter(c, es, kw),
{
    lemma_filter_idempotent(c, kw_pred(es, kw));
}

proof fn lemma_tag_filter_app(
    c: Seq<int>,
    tm: Seq<(Seq<char>, Seq<int>)>,
    xs: Seq<Seq<char>>,
    ys: Seq<Seq<char>>,
)
    ensures
        tag_filter(c, tm, xs + ys) == tag_filter(tag_filter(c, tm, xs), tm, ys),
    decreases xs.len(),
{
    if xs.len() == 0 {
        assert(xs + ys =~= ys);
    } else {
        assert((xs + ys)[0] == xs[0]);
        assert((xs + ys).drop_first() =~= xs.drop_first() + ys);
        lemma_tag_filter_app(tag_filter_step(c, tm, xs[0]), tm, xs.drop_first(), ys);
        assert(tag_filter(c, tm, xs + ys) == tag_filter(
            tag_filter_step(c, tm, xs[0]),
            tm,
            xs.drop_first() + ys,
        ));
    }
}

proof fn lemma_tag_filter_of_empty(tm: Seq<(Seq<char>, Seq<int>)>, ts: Seq<Seq<char>>)
    ensures
        tag_filter(Seq::<int>::empty(), tm, ts) == Seq::<int>::empty(),
    decreases ts.len(),
{
    reveal(Seq::filter);
    if ts.len() > 0 {
        assert(tag_filter_step(Seq::<int>::empty(), tm, ts[0]) =~= Seq::<int>::empty());
        lemma_tag_filter_of_empty(tm, ts.drop_first());
    }
}

proof fn lemma_step_noop_on_chain(
    c0: Seq<int>,
    tm: Seq<(Seq<char>, Seq<int>)>,
    t: Seq<char>,
    mids: Seq<Seq<char>>,
    t2: Seq<char>,
)
    requires
        lower_of(t2) == lower_of(t),
    ensures
        tag_filter_step(tag_filter(tag_filter_step(c0, tm, t), tm, mids), tm, t2) == tag_filter(
            tag_filter_step(c0, tm, t),
            tm,
            mids,
        ),
{
    let c1 = tag_filter_step(c0, tm, t);
    let mid = tag_filter(c1, tm, mids);
    match tag_lookup(tm, lower_of(t)) {
        Some(ps) => {
            assert forall|i: int| 0 <= i < mid.len() implies member_pred(ps)(#[trigger] mid[i]) by {
                assert(mid.contains(mid[i]));
                lemma_tag_filter_member(c1, tm, mids, mid[i]);
                lemma_filter_membership(c0, member_pred(ps), mid[i]);
            }
            lemma_filter_all(mid, member_pred(ps));
        },
        None => {
            assert(c1 =~= Seq::<int>::empty());
            lemma_tag_filter_of_empty(tm, mids);
            assert(mid =~= Seq::<int>::empty());
            reveal(Seq::filter);
            match tag_lookup(tm, lower_of(t2)) {
                Some(ps2) => {
                    assert(tag_filter_step(mid, tm, t2) =~= Seq::<int>::empty());
                },
                None => {},
            }
        },
    }
}

/// Idempotent narrowing anywhere in the tag list: a query whose tag list
/// repeats, at any later position, a tag already requested (compared after
/// lowercasing) yields exactly what the list without that repeat yields.
pub proof fn lemma_tag_filter_duplicate(
    c: Seq<int>,
    tm: Seq<(Seq<char>, Seq<int>)>,
    ts: Seq<Seq<char>>,
    k: int,
    l: int,
)
    requires
        0 <= k < l < ts.len(),
        lower_of(ts[l]) == lower_of(ts[k]),
    ensures
        tag_filter(c, tm, ts) == tag_filter(c, tm, ts.remove(l)),
{
    let a = ts.take(k);
    let b = ts.subrange(k + 1, l);
    let rest = ts.skip(l + 1);
    let tk = seq![ts[k]];
    let tl = seq![ts[l]];
    assert(ts =~= a + tk + b + tl + rest);
    assert(ts.remove(l) =~= a + tk + b + rest);

    let c1 = tag_filter(c, tm, a);
    let c2 = tag_filter_step(c1, tm, ts[k]);
    let mid = tag_filter(c2, tm, b);

    assert(tag_filter(c1, tm, tk) == c2) by {
        assert(tk[0] == ts[k]);
        assert(tk.drop_first() =~= Seq::<Seq<char>>::empty());
        assert(tag_filter(c2, tm, Seq::<Seq<char>>::empty()) == c2);
        assert(tag_filter(c1, tm, tk) == tag_filter(
            tag_filter_step(c1, tm, tk[0]),
            tm,
            tk.drop_first(),
        ));
    }
    assert(tag_filter(mid, tm, tl) == tag_filter_step(mid, tm, ts[l])) by {
        assert(tl[0] == ts[l]);
        assert(tl.drop_first() =~= Seq::<Seq<char>>::empty());
        assert(tag_filter(tag_filter_step(mid, tm, ts[l]), tm, Seq::<Seq<char>>::empty())
            == tag_filter_step(mid, tm, ts[l]));
        assert(tag_filter(mid, tm, tl) == tag_filter(
            tag_filter_step(mid, tm, tl[0]),
            tm,
            tl.drop_first(),
        ));
    }
    lemma_step_noop_on_chain(c1, tm, ts[k], b, ts[l]);

    assert(tag_filter(c, tm, ts) == tag_filter(mid, tm, rest)) by {
        lemma_tag_filter_app(c, tm, a, tk + b + tl + rest);
        assert(a + (tk + b + tl + rest) =~= ts);
        lemma_tag_filter_app(c1, tm, tk, b + tl + rest);
        assert(tk + (b + tl + rest) =~= tk + b + tl + rest);
        lemma_tag_filter_app(c2, tm, b, tl + rest);
        assert(b + (tl + rest) =~= b + tl + rest);
        lemma_tag_filter_app(mid, tm, tl, rest);
        assert(tl + rest =~= tl + rest);
    }
    assert(tag_filter(c, tm, ts.remove(l)) == tag_filter(mid, tm, rest)) by {
        lemma_tag_filter_app(c, tm, a, tk + b + rest);
        assert(a + (tk + b + rest) =~= ts.remove(l));
        lemma_tag_filter_app(c1, tm, tk, b + rest);
        assert(tk + (b + rest) =~= tk + b + rest);
        lemma_tag_filter_app(c2, tm, b, rest);
    }
}

/// The same at the level of a whole query: repeating an already requested tag
/// anywhere later in the tag list leaves the result rows unchanged.
pub proof fn lemma_query_duplicate_tag(
    es: Seq<EntryModel>,
    tm: Seq<(Seq<char>, Seq<int>)>,
    nm: Seq<(Seq<char>, int)>,
    ts: Seq<Seq<char>>,
    k: int,
    l: int,
    name: Option<Seq<char>>,
    kw: Option<Seq<char>>,
)
    requires
        0 <= k < l < ts.len(),
        lower_of(ts[l]) == lower_of(ts[k]),
    ensures
        query_spec(es, tm, nm, Some(ts), name, kw) == query_spec(
            es,
            tm,
            nm,
            Some(ts.remove(l)),
            name,
            kw,
        ),
{
    lemma_tag_filter_duplicate(all_positions(es.len() as int), tm, ts, k, l);
}

proof fn lemma_tag_filter_member(
    c: Seq<int>,
    tm: Seq<(Seq<char>, Seq<int>)>,
    tags: Seq<Seq<char>>,
    p: int,
)
    requires
        tag_filter(c, tm, tags).contains(p),
    ensures
        c.contains(p),
        forall|g: int|
            #![trigger tags[g]]
            0 <= g < tags.len() ==> match tag_lookup(tm, lower_of(tags[g])) {
                Some(ps) => ps.contains(p),
                None => false,
            },
    decreases tags.len(),
{
    if tags.len() > 0 {
        lemma_tag_filter_member(tag_filter_step(c, tm, tags[0]), tm, tags.drop_first(), p);
        match tag_lookup(tm, lower_of(tags[0])) {
            Some(ps) => {
                lemma_filter_membership(c, member_pred(ps), p);
                assert(member_pred(ps)(p));
            },
            None => {
                assert(!tag_filter_step(c, tm, tags[0]).contains(p));
            },
        }
        assert forall|g: int|
            #![trigger tags[g]]
            0 <= g < tags.len() implies match tag_lookup(tm, lower_of(tags[g])) {
            Some(ps) => ps.contains(p),
            None => false,
        } by {
            if g > 0 {
                assert(tags.drop_first()[g - 1] == tags[g]);
            }
        }
    }
}

/// AND semantics of the tag filter on a well-formed snapshot: an entry that
/// survives a tag filter listing several tags carries, case-insensitively,
/// every one of them.
pub proof fn lemma_tag_filter_and(idx: VaultIndex, tags: Seq<Seq<char>>, p: int, g: int)
    requires
        idx.wf(),
        tag_filter(all_positions(idx.es().len() as int), idx.tm(), tags).contains(p),
        0 <= g < tags.len(),
    ensures
        0 <= p < idx.es().len(),
        exists|u: int|
            0 <= u < idx.es()[p].tags.len() && lower_of(idx.es()[p].tags[u]) == lower_of(tags[g]),
{
    lemma_tag_filter_member(all_positions(idx.es().len() as int), idx.tm(), tags, p);
    let k = lower_of(tags[g]);
    match tag_lookup(idx.tm(), k) {
        Some(ps) => {
            let l = choose|l: int| 0 <= l < ps.len() && ps[l] == p;
            crate::index::lemma_tag_map_sound(idx, k, ps, l);
        },
        None => {
            assert(false);
        },
    }
}

/// Membership of `x` in the position vector `v`.
fn vec_contains(v: &Vec<usize>, x: usize) -> (r: bool)
    ensures
        r == iview(v@).contains(x as int),
{
    let mut l: usize = 0;
    while l < v.len()
        invariant
            0 <= l <= v@.len(),
            forall|j: int| 0 <= j < l ==> iview(v@)[j] != x as int,
        decreases v@.len() - l,
    {
        if v[l] == x {
            assert(iview(v@)[l as int] == x as int);
            return true;
        }
        l += 1;
    }
    assert(!iview(v@).contains(x as int)) by {
        assert(forall|j: int| 0 <= j < iview(v@).len() ==> iview(v@)[j] != x as int);
    }
    false
}

/// Keeps the candidates that are members of `ps`, in order.
fn filter_by_membership(c: &Vec<usize>, ps: &Vec<usize>) -> (r: Vec<usize>)
    ensures
        iview(r@) == iview(c@).filter(member_pred(iview(ps@))),
        forall|l: int| 0 <= l < r@.len() ==> c@.contains(r@[l]),
{
    let ghost cv = iview(c@);
    let ghost pred = member_pred(iview(ps@));
    let mut out: Vec<usize> = Vec::new();
    proof {
        reveal(Seq::filter);
        assert(cv.take(0) =~= Seq::<int>::empty());
    }
    let mut k: usize = 0;
    while k < c.len()
        invariant
            0 <= k <= c@.len(),
            cv == iview(c@),
            pred == member_pred(iview(ps@)),
            iview(out@) == cv.take(k as int).filter(pred),
            forall|l: int| 0 <= l < out@.len() ==> c@.contains(out@[l]),
        decreases c@.len() - k,
    {
        let x = c[k];
        assert(cv[k as int] == x as int);
        let ghost pre = out@;
        if vec_contains(ps, x) {
            out.push(x);
            proof {
                assert(iview(out@) =~= iview(pre).push(x as int));
                assert(c@.contains(c@[k as int]));
            }
        }
        proof {
            reveal(Seq::filter);
            assert(cv.take(k + 1).drop_last() =~= cv.take(k as int));
            assert(cv.take(k + 1).last() == x as int);
            assert(pred(x as int) == iview(ps@).contains(x as int));
            assert(iview(out@) =~= cv.take(k + 1).filter(pred));
        }
        k += 1;
    }
    proof {
        assert(cv.take(cv.len() as int) =~= cv);
    }
    out
}

/// Keeps the candidates equal to `i0`, in order.
fn filter_by_equal(c: &Vec<usize>, i0: usize) -> (r: Vec<usize>)
    ensures
        iview(r@) == iview(c@).filter(eq_pred(i0 as int)),
        forall|l: int| 0 <= l < r@.len() ==> c@.contains(r@[l]),
{
    let ghost cv = iview(c@);
    let ghost pred = eq_pred(i0 as int);
    let mut out: Vec<usize> = Vec::new();
    proof {
        reveal(Seq::filter);
        assert(cv.take(0) =~= Seq::<int>::empty());
    }
    let mut k: usize = 0;
    while k < c.len()
        invariant
            0 <= k <= c@.len(),
            cv == iview(c@),
            pred == eq_pred(i0 as int),
            iview(out@) == cv.take(k as int).filter(pred),
            forall|l: int| 0 <= l < out@.len() ==> c@.contains(out@[l]),
        decreases c@.len() - k,
    {
        let x = c[k];
        assert(cv[k as int] == x as int);
        let ghost pre = out@;
        if x == i0 {
            out.push(x);
            proof {
                assert(iview(out@) =~= iview(pre).push(x as int));
                assert(c@.contains(c@[k as int]));
            }
        }
        proof {
            reveal(Seq::filter);
            assert(cv.take(k + 1).drop_last() =~= cv.take(k as int));
            assert(cv.take(k + 1).last() == x as int);
            assert(pred(x as int) == (x as int == i0 as int));
            assert(iview(out@) =~= cv.take(k + 1).filter(pred));
        }
        k += 1;
    }
    proof {
        assert(cv.take(cv.len() as int) =~= cv);
    }
    out
}

/// Does this entry match the lowercased keyword, per `entry_matches_kw`?
fn entry_matches_keyword(e: &NoteEntry, kw_lower: &str) -> (r: bool)
    ensures
        r == entry_matches_kw(e@, kw_lower@),
{
    let tl = to_lower(e.title.as_str());
    if contains_sub(tl.as_str(), kw_lower) {
        return true;
    }
    let mut a: usize = 0;
    while a < e.aliases.len()
        invariant
            0 <= a <= e.aliases@.len(),
            forall|j: int| 0 <= j < a ==> !contains_spec(lower_of(e@.aliases[j]), kw_lower@),
        decreases e.aliases@.len() - a,
    {
        let al = to_lower(e.aliases[a].as_str());
        if contains_sub(al.as_str(), kw_lower) {
            assert(contains_spec(lower_of(e@.aliases[a as int]), kw_lower@));
            return true;
        }
        a += 1;
    }
    let mut t: usize = 0;
    while t < e.tags.len()
        invariant
            0 <= t <= e.tags@.len(),
            forall|j: int| 0 <= j < t ==> !contains_spec(lower_of(e@.tags[j]), kw_lower@),
        decreases e.tags@.len() - t,
    {
        let tg = to_lower(e.tags[t].as_str());
        if contains_sub(tg.as_str(), kw_lower) {
            assert(contains_spec(lower_of(e@.tags[t as int]), kw_lower@));
            return true;
        }
        t += 1;
    }
    let pl = to_lower(e.rel_path.as_str());
    if contains_sub(pl.as_str(), kw_lower) {
        return true;
    }
    assert(!entry_matches_kw(e@, kw_lower@));
    false
}

impl VaultIndex {
    /// Resolves a query against this snapshot: fails with `NoFilter` exactly
    /// when no filter is supplied; otherwise returns the positions of
    /// `query_spec`, each a valid index into `entries`. An empty result is a
    /// normal outcome, distinct from the no-filter error.
    pub fn query_note(&self, params: &QueryNoteParams) -> (r: Result<Vec<usize>, QueryError>)
        ensures
            r is Err <==> (params.tags is None && params.exact_name is None && params.keyword
                is None),
            r matches Err(e) ==> e == QueryError::NoFilter,
            r matches Ok(c) ==> iview(c@) == query_spec(
                self.es(),
                self.tm(),
                self.nm(),
                params.tags_view(),
                params.exact_name_view(),
                params.keyword_view(),
            ) && (forall|l: int| 0 <= l < c@.len() ==> c@[l] < self.entries@.len()),
    {
        if matches!(params.tags, None) && matches!(params.exact_name, None) && matches!(
            params.keyword,
            None,
        ) {
            return Err(QueryError::NoFilter);
        }

        let n = self.entries.len();
        let mut c: Vec<usize> = Vec::new();
        let mut k: usize = 0;
        proof {
            assert(iview(c@) =~= all_positions(n as int).take(0));
        }
        while k < n
            invariant
                0 <= k <= n,
                n == self.entries@.len(),
                iview(c@) == all_positions(n as int).take(k as int),
                forall|l: int| 0 <= l < c@.len() ==> c@[l] < n,
            decreases n - k,
        {
            let ghost pre = c@;
            c.push(k);
            proof {
                assert(iview(c@) =~= iview(pre).push(k as int));
                assert(all_positions(n as int).take(k + 1) =~= all_positions(n as int).take(
                    k as int,
                ).push(k as int));
            }
            k += 1;
        }
        proof {
            assert(all_positions(n as int).take(n as int) =~= all_positions(n as int));
        }

        let ghost c0 = all_positions(n as int);
        let ghost c1 = match params.tags_view() {
            Some(ts) => tag_filter(c0, self.tm(), ts),
            None => c0,
        };

        if let Some(tags) = &params.tags {
            let ghost ts = tags.deep_view();
            let mut g: usize = 0;
            proof {
                assert(ts.skip(0) =~= ts);
            }
            while g < tags.len()
                invariant
                    0 <= g <= tags@.len(),
                    ts == tags.deep_view(),
                    ts.len() == tags@.len(),
                    n == self.entries@.len(),
                    c1 == tag_filter(iview(c@), self.tm(), ts.skip(g as int)),
                    forall|l: int| 0 <= l < c@.len() ==> c@[l] < n,
                decreases tags@.len() - g,
            {
                let ghost c_pre = iview(c@);
                let ghost c_pre_v = c@;
                let tl = to_lower(tags[g].as_str());
                assert(tl@ == lower_of(ts[g as int]));
                match tag_map_get(&self.tag_map, &tl) {
                    Some(j) => {
                        let ghost ps = self.tm()[j as int].1;
                        assert(tag_lookup(self.tm(), tl@) == Some(ps));
                        let next = filter_by_membership(&c, &self.tag_map[j].1);
                        proof {
                            assert(iview(self.tag_map@[j as int].1@) == ps);
                            assert(iview(next@) == c_pre.filter(member_pred(ps)));
                            assert(tag_filter_step(c_pre, self.tm(), ts[g as int]) == c_pre.filter(
                                member_pred(ps),
                            ));
                        }
                        c = next;
                        proof {
                            assert forall|l: int| 0 <= l < c@.len() implies c@[l] < n by {
                                assert(c_pre_v.contains(c@[l]));
                            }
                        }
                    },
                    None => {
                        assert(tag_lookup(self.tm(), tl@) is None);
                        c = Vec::new();
                        proof {
                            assert(iview(c@) =~= Seq::<int>::empty());
                            assert(tag_filter_step(c_pre, self.tm(), ts[g as int]) == Seq::<
                                int,
                            >::empty());
                        }
                    },
                }
                proof {
                    lemma_tag_filter_unfold(c_pre, self.tm(), ts, g as int);
                }
                g += 1;
            }
            proof {
                assert(ts.skip(ts.len() as int) =~= Seq::<Seq<char>>::empty());
            }
        }
        proof {
            assert(iview(c@) == c1);
        }

        let ghost c2 = match params.exact_name_view() {
            Some(nmv) => name_filter(c1, self.nm(), nmv),
            None => c1,
        };

        if let Some(name) = &params.exact_name {
            let ghost c_pre = iview(c@);
            let ghost c_pre_v = c@;
            let low = to_lower(name.as_str());
            let key = strip_one_suffix(low.as_str(), ".md").to_owned();
            assert(key@ == name_key_of(name@));
            match name_map_get(&self.name_map, &key) {
                Some(i0) => {
                    assert(name_lookup(self.nm(), key@) == Some(i0 as int));
                    let next = filter_by_equal(&c, i0);
                    proof {
                        assert(name_filter(c_pre, self.nm(), name@) == c_pre.filter(
                            eq_pred(i0 as int),
                        ));
                        assert(iview(next@) == c2);
                    }
                    c = next;
                    proof {
                        assert forall|l: int| 0 <= l < c@.len() implies c@[l] < n by {
                            assert(c_pre_v.contains(c@[l]));
                        }
                    }
                },
                None => {
                    assert(name_lookup(self.nm(), key@) is None);
                    c = Vec::new();
                    proof {
                        assert(iview(c@) =~= Seq::<int>::empty());
                        assert(c2 == Seq::<int>::empty());
                    }
                },
            }
        }
        proof {
            assert(iview(c@) == c2);
        }

        let ghost c3 = match params.keyword_view() {
            Some(kv) => kw_filter(c2, self.es(), kv),
            None => c2,
        };

        if let Some(kw) = &params.keyword {
            let ghost c_pre = iview(c@);
            let ghost es = self.es();
            let kw_lower = to_lower(kw.as_str());
            assert(kw_lower@ == lower_of(kw@));
            let ghost pred = kw_pred(es, kw@);
            let mut out: Vec<usize> = Vec::new();
            proof {
                reveal(Seq::filter);
                assert(c_pre.take(0) =~= Seq::<int>::empty());
            }
            let mut k2: usize = 0;
            while k2 < c.len()
                invariant
                    0 <= k2 <= c@.len(),
                    c_pre == iview(c@),
                    es == self.es(),
                    n == self.entries@.len(),
                    kw_lower@ == lower_of(kw@),
                    pred == kw_pred(es, kw@),
                    forall|l: int| 0 <= l < c@.len() ==> c@[l] < n,
                    iview(out@) == c_pre.take(k2 as int).filter(pred),
                    forall|l: int| 0 <= l < out@.len() ==> c@.contains(out@[l]),
                decreases c@.len() - k2,
            {
                let x = c[k2];
                assert(c_pre[k2 as int] == x as int);
                let ghost pre = out@;
                let keep = entry_matches_keyword(&self.entries[x], kw_lower.as_str());
                proof {
                    assert(es[x as int] == self.entries@[x as int]@);
                    assert(pred(x as int) == entry_matches_kw(es[x as int], lower_of(kw@)));
                }
                if keep {
                    out.push(x);
                    proof {
                        assert(iview(out@) =~= iview(pre).push(x as int));
                        assert(c@.contains(c@[k2 as int]));
                    }
                }
                proof {
                    reveal(Seq::filter);
                    assert(c_pre.take(k2 + 1).drop_last() =~= c_pre.take(k2 as int));
                    assert(c_pre.take(k2 + 1).last() == x as int);
                    assert(iview(out@) =~= c_pre.take(k2 + 1).filter(pred));
                }
                k2 += 1;
            }
            proof {
                assert(c_pre.take(c_pre.len() as int) =~= c_pre);
                assert(iview(out@) == kw_filter(c_pre, es, kw@));
            }
            let ghost out_bound_src = c@;
            c = out;
            proof {
                assert forall|l: int| 0 <= l < c@.len() implies c@[l] < n by {
                    assert(out_bound_src.contains(c@[l]));
                }
            }
        }
        proof {
            assert(iview(c@) == c3);
        }
        Ok(c)
    }
}

} // verus!
