use vstd::prelude::*;

verus! {

/// True when `p` is a prefix of `s`.
pub open spec fn starts_with_spec(s: Seq<char>, p: Seq<char>) -> bool {
    p.len() <= s.len() && s.subrange(0, p.len() as int) == p
}

/// Prefix test on string slices, character by character.
pub fn starts_with(s: &str, p: &str) -> (r: bool)
    ensures
        r == starts_with_spec(s@, p@),
{
    let sn = s.unicode_len();
    let pn = p.unicode_len();
    if pn > sn {
        assert(!starts_with_spec(s@, p@));
        return false;
    }
    let mut i: usize = 0;
    while i < pn
        invariant
            0 <= i <= pn <= sn,
            sn == s@.len(),
            pn == p@.len(),
            forall|j: int| 0 <= j < i ==> s@[j] == p@[j],
        decreases pn - i,
    {
        if s.get_char(i) != p.get_char(i) {
            assert(s@.subrange(0, pn as int) != p@) by {
                assert(s@.subrange(0, pn as int)[i as int] != p@[i as int]);
            }
            return false;
        }
        i += 1;
    }
    assert(s@.subrange(0, pn as int) =~= p@);
    true
}

/// True when `p` is a suffix of `s`.
pub open spec fn ends_with_spec(s: Seq<char>, p: Seq<char>) -> bool {
    p.len() <= s.len() && s.subrange(s.len() - p.len(), s.len() as int) == p
}

/// Suffix test on string slices, character by character.
pub fn ends_with(s: &str, p: &str) -> (r: bool)
    ensures
        r == ends_with_spec(s@, p@),
{
    let sn = s.unicode_len();
    let pn = p.unicode_len();
    if pn > sn {
        assert(!ends_with_spec(s@, p@));
        return false;
    }
    let base = sn - pn;
    let mut i: usize = 0;
    while i < pn
        invariant
            0 <= i <= pn <= sn,
            sn == s@.len(),
            pn == p@.len(),
            base == sn - pn,
            forall|j: int| 0 <= j < i ==> s@[base + j] == p@[j],
        decreases pn - i,
    {
        if s.get_char(base + i) != p.get_char(i) {
            assert(s@.subrange(sn - pn, sn as int) != p@) by {
                assert(s@.subrange(sn - pn, sn as int)[i as int] != p@[i as int]);
            }
            return false;
        }
        i += 1;
    }
    assert(s@.subrange(sn - pn, sn as int) =~= p@);
    true
}

/// Whitespace in the sense of the Unicode `White_Space` property.
pub open spec fn is_wspace(c: char) -> bool {
    c == ' ' || c == '\t' || c == '\n' || c == '\r' || (c as u32) == 0xb || (c as u32) == 0xc
        || (c as u32) == 0x85 || (c as u32) == 0xa0 || (c as u32) == 0x1680
        || (0x2000 <= (c as u32) && (c as u32) <= 0x200a)
        || (c as u32) == 0x2028 || (c as u32) == 0x2029 || (c as u32) == 0x202f
        || (c as u32) == 0x205f || (c as u32) == 0x3000
}

/// Executable whitespace test matching `is_wspace`.
pub fn is_wspace_char(c: char) -> (r: bool)
    ensures
        r == is_wspace(c),
{
    let u = c as u32;
    u == 0x20 || u == 0x9 || u == 0xa || u == 0xd || u == 0xb || u == 0xc || u == 0x85
        || u == 0xa0 || u == 0x1680 || (0x2000 <= u && u <= 0x200a) || u == 0x2028
        || u == 0x2029 || u == 0x202f || u == 0x205f || u == 0x3000
}

/// `needle` occurs in `hay` at position `i`.
pub open spec fn match_at(hay: Seq<char>, needle: Seq<char>, i: int) -> bool {
    0 <= i && i + needle.len() <= hay.len() && hay.subrange(i, i + needle.len()) == needle
}

/// `needle` occurs somewhere in `hay`.
pub open spec fn contains_spec(hay: Seq<char>, needle: Seq<char>) -> bool {
    exists|i: int| match_at(hay, needle, i)
}

/// Position of the first occurrence of `needle` in `hay`, if any.
pub open spec fn find_first(hay: Seq<char>, needle: Seq<char>) -> Option<int>
    decreases hay.len(),
{
    if needle.len() > hay.len() {
        None
    } else if hay.subrange(0, needle.len() as int) == needle {
        Some(0)
    } else if hay.len() == 0 {
        None
    } else {
        match find_first(hay.drop_first(), needle) {
            Some(i) => Some(i + 1),
            None => None,
        }
    }
}

proof fn lemma_match_at_drop(hay: Seq<char>, needle: Seq<char>, j: int)
    requires
        hay.len() > 0,
        j >= 0,
    ensures
        match_at(hay.drop_first(), needle, j) == match_at(hay, needle, j + 1),
{
    if 0 <= j && j + needle.len() <= hay.len() - 1 {
        assert(hay.drop_first().subrange(j, j + needle.len()) =~= hay.subrange(
            j + 1,
            j + 1 + needle.len(),
        ));
    }
}

/// `find_first` returns the least matching position, or `None` when no
/// position matches.
pub proof fn lemma_find_first(hay: Seq<char>, needle: Seq<char>)
    ensures
        match find_first(hay, needle) {
            Some(i) => match_at(hay, needle, i) && (forall|j: int|
                0 <= j < i ==> !match_at(hay, needle, j)),
            None => forall|j: int| !match_at(hay, needle, j),
        },
    decreases hay.len(),
{
    if needle.len() > hay.len() {
        assert(forall|j: int| !match_at(hay, needle, j));
    } else if hay.subrange(0, needle.len() as int) == needle {
        assert(match_at(hay, needle, 0));
    } else if hay.len() == 0 {
        assert(forall|j: int| !match_at(hay, needle, j));
    } else {
        lemma_find_first(hay.drop_first(), needle);
        assert forall|j: int| 0 <= j implies match_at(hay.drop_first(), needle, j) == match_at(
            hay,
            needle,
            j + 1,
        ) by {
            lemma_match_at_drop(hay, needle, j);
        }
        match find_first(hay.drop_first(), needle) {
            Some(i) => {
                lemma_match_at_drop(hay, needle, i);
                assert(match_at(hay, needle, i + 1));
                assert forall|j: int| 0 <= j < i + 1 implies !match_at(hay, needle, j) by {
                    if j > 0 {
                        lemma_match_at_drop(hay, needle, j - 1);
                    }
                }
            },
            None => {
                assert forall|j: int| !match_at(hay, needle, j) by {
                    if j > 0 {
                        lemma_match_at_drop(hay, needle, j - 1);
                    }
                }
            },
        }
    }
}

/// A position that matches, with none before it, is where `find_first`
/// points.
pub proof fn lemma_find_first_is(hay: Seq<char>, needle: Seq<char>, i: int)
    requires
        match_at(hay, needle, i),
        forall|j: int| 0 <= j < i ==> !match_at(hay, needle, j),
    ensures
        find_first(hay, needle) == Some(i),
{
    lemma_find_first(hay, needle);
    match find_first(hay, needle) {
        Some(k) => {
            assert(k == i);
        },
        None => {
            assert(false);
        },
    }
}

/// Trimming never lengthens.
pub proof fn lemma_trim_end_len(s: Seq<char>)
    ensures
        trim_end_spec(s).len() <= s.len(),
    decreases s.len(),
{
    if s.len() > 0 && is_wspace(s[s.len() - 1]) {
        lemma_trim_end_len(s.drop_last());
    }
}

/// Trimming never lengthens.
pub proof fn lemma_trim_start_len(s: Seq<char>)
    ensures
        trim_start_spec(s).len() <= s.len(),
    decreases s.len(),
{
    if s.len() > 0 && is_wspace(s[0]) {
        lemma_trim_start_len(s.drop_first());
    }
}

/// A trimmed, non-empty text neither begins nor ends with whitespace.
pub proof fn lemma_trimmed_ends(s: Seq<char>)
    requires
        trim_spec(s) == s,
        s.len() > 0,
    ensures
        !is_wspace(s[0]),
        !is_wspace(s[s.len() - 1]),
        trim_start_spec(s) == s,
        trim_end_spec(s) == s,
{
    lemma_trim_start_len(s);
    lemma_trim_end_len(trim_start_spec(s));
    if trim_start_spec(s).len() < s.len() {
        assert(trim_spec(s).len() < s.len());
    }
    assert(trim_start_spec(s).len() == s.len());
    if is_wspace(s[0]) {
        lemma_trim_start_len(s.drop_first());
        assert(trim_start_spec(s).len() <= s.len() - 1);
    }
    assert(trim_start_spec(s) == s);
    assert(trim_end_spec(s) == s);
    if is_wspace(s[s.len() - 1]) {
        lemma_trim_end_len(s.drop_last());
        assert(trim_end_spec(s).len() <= s.len() - 1);
    }
}

/// A text that neither begins nor ends with whitespace trims to itself.
pub proof fn lemma_trim_noop(s: Seq<char>)
    requires
        s.len() > 0,
        !is_wspace(s[0]),
        !is_wspace(s[s.len() - 1]),
    ensures
        trim_spec(s) == s,
{
    assert(trim_start_spec(s) == s);
    assert(trim_end_spec(s) == s);
}

/// Equality of two string slices, character by character.
pub fn str_eq(a: &str, b: &str) -> (r: bool)
    ensures
        r == (a@ == b@),
{
    let an = a.unicode_len();
    let bn = b.unicode_len();
    if an != bn {
        return false;
    }
    let mut i: usize = 0;
    while i < an
        invariant
            0 <= i <= an,
            an == a@.len(),
            an == b@.len(),
            forall|j: int| 0 <= j < i ==> a@[j] == b@[j],
        decreases an - i,
    {
        if a.get_char(i) != b.get_char(i) {
            assert(a@ != b@) by {
                assert(a@[i as int] != b@[i as int]);
            }
            return false;
        }
        i += 1;
    }
    assert(a@ =~= b@);
    true
}

/// Does `needle` occur in `hay` starting at `at`? (executable form of `match_at`)
fn match_at_exec(hay: &str, needle: &str, at: usize) -> (r: bool)
    requires
        at + needle@.len() <= hay@.len(),
    ensures
        r == match_at(hay@, needle@, at as int),
{
    let hn = hay.unicode_len();
    let pn = needle.unicode_len();
    let mut i: usize = 0;
    while i < pn
        invariant
            0 <= i <= pn,
            pn == needle@.len(),
            hn == hay@.len(),
            at + pn <= hn,
            forall|j: int| 0 <= j < i ==> hay@[at + j] == needle@[j],
        decreases pn - i,
    {
        if hay.get_char(at + i) != needle.get_char(i) {
            assert(!match_at(hay@, needle@, at as int)) by {
                assert(hay@.subrange(at as int, at + needle@.len())[i as int] != needle@[i as int]);
            }
            return false;
        }
        i += 1;
    }
    assert(hay@.subrange(at as int, at + needle@.len()) =~= needle@);
    true
}

/// First occurrence of `needle` in `hay`, per `find_first`.
pub fn find_sub(hay: &str, needle: &str) -> (r: Option<usize>)
    ensures
        match find_first(hay@, needle@) {
            Some(i) => r matches Some(u) && u == i,
            None => r is None,
        },
{
    proof {
        lemma_find_first(hay@, needle@);
    }
    let hn = hay.unicode_len();
    let pn = needle.unicode_len();
    if pn > hn {
        return None;
    }
    let last = hn - pn;
    let mut i: usize = 0;
    loop
        invariant
            0 <= i <= last,
            last == hn - pn,
            hn == hay@.len(),
            pn == needle@.len(),
            pn <= hn,
            forall|j: int| 0 <= j < i ==> !match_at(hay@, needle@, j),
        decreases last - i,
    {
        if match_at_exec(hay, needle, i) {
            proof {
                lemma_find_first(hay@, needle@);
                match find_first(hay@, needle@) {
                    Some(k) => {
                        assert(k == i);
                    },
                    None => {
                        assert(false);
                    },
                }
            }
            return Some(i);
        }
        if i == last {
            proof {
                assert(forall|j: int| j > last ==> !match_at(hay@, needle@, j));
                lemma_find_first(hay@, needle@);
            }
            return None;
        }
        i += 1;
    }
}

/// `s` without its leading whitespace.
pub open spec fn trim_start_spec(s: Seq<char>) -> Seq<char>
    decreases s.len(),
{
    if s.len() > 0 && is_wspace(s[0]) {
        trim_start_spec(s.drop_first())
    } else {
        s
    }
}

/// `s` without its trailing whitespace.
pub open spec fn trim_end_spec(s: Seq<char>) -> Seq<char>
    decreases s.len(),
{
    if s.len() > 0 && is_wspace(s[s.len() - 1]) {
        trim_end_spec(s.drop_last())
    } else {
        s
    }
}

/// `s` without leading and trailing whitespace.
pub open spec fn trim_spec(s: Seq<char>) -> Seq<char> {
    trim_end_spec(trim_start_spec(s))
}

pub proof fn lemma_trim_start_subrange(s: Seq<char>, a: int)
    requires
        0 <= a <= s.len(),
        forall|j: int| 0 <= j < a ==> is_wspace(s[j]),
        a < s.len() ==> !is_wspace(s[a]),
    ensures
        trim_start_spec(s) == s.subrange(a, s.len() as int),
    decreases a,
{
    if a == 0 {
        assert(s.subrange(0, s.len() as int) =~= s);
    } else {
        let d = s.drop_first();
        assert(forall|j: int| 0 <= j < a - 1 ==> is_wspace(d[j]));
        lemma_trim_start_subrange(d, a - 1);
        assert(d.subrange(a - 1, d.len() as int) =~= s.subrange(a, s.len() as int));
    }
}

pub proof fn lemma_trim_end_subrange(s: Seq<char>, b: int)
    requires
        0 <= b <= s.len(),
        forall|j: int| b <= j < s.len() ==> is_wspace(s[j]),
        b > 0 ==> !is_wspace(s[b - 1]),
    ensures
        trim_end_spec(s) == s.subrange(0, b),
    decreases s.len() - b,
{
    if b == s.len() {
        assert(s.subrange(0, s.len() as int) =~= s);
    } else {
        let d = s.drop_last();
        assert(forall|j: int| b <= j < d.len() ==> d[j] == s[j]);
        lemma_trim_end_subrange(d, b);
        assert(d.subrange(0, b) =~= s.subrange(0, b));
    }
}

/// `s` without leading and trailing whitespace, per `trim_spec`.
pub fn trim<'a>(s: &'a str) -> (r: &'a str)
    ensures
        r@ == trim_spec(s@),
{
    let n = s.unicode_len();
    let mut a: usize = 0;
    while a < n && is_wspace_char(s.get_char(a))
        invariant
            0 <= a <= n,
            n == s@.len(),
            forall|j: int| 0 <= j < a ==> is_wspace(s@[j]),
        decreases n - a,
    {
        a += 1;
    }
    proof {
        lemma_trim_start_subrange(s@, a as int);
    }
    let mut b: usize = n;
    while b > a && is_wspace_char(s.get_char(b - 1))
        invariant
            a <= b <= n,
            n == s@.len(),
            forall|j: int| b <= j < n ==> is_wspace(s@[j]),
        decreases b,
    {
        b -= 1;
    }
    proof {
        let t = s@.subrange(a as int, s@.len() as int);
        assert(forall|j: int| b - a <= j < t.len() ==> is_wspace(t[j]));
        if b > a {
            assert(!is_wspace(t[b - a - 1]));
        }
        lemma_trim_end_subrange(t, b - a);
        assert(t.subrange(0, b - a) =~= s@.subrange(a as int, b as int));
    }
    s.substring_char(a, b)
}

/// `s` with every copy of the prefix `p` removed from its front, as
/// `str::trim_start_matches` does.
pub open spec fn strip_all_prefix_spec(s: Seq<char>, p: Seq<char>) -> Seq<char>
    decreases s.len(),
{
    if p.len() > 0 && starts_with_spec(s, p) {
        strip_all_prefix_spec(s.skip(p.len() as int), p)
    } else {
        s
    }
}

/// Removes every leading copy of `p` from `s`, per `strip_all_prefix_spec`.
pub fn strip_all_prefix<'a>(s: &'a str, p: &str) -> (r: &'a str)
    ensures
        r@ == strip_all_prefix_spec(s@, p@),
{
    let pn = p.unicode_len();
    if pn == 0 {
        return s;
    }
    let mut cur: &str = s;
    while starts_with(cur, p)
        invariant
            pn == p@.len(),
            pn > 0,
            strip_all_prefix_spec(s@, p@) == strip_all_prefix_spec(cur@, p@),
        decreases cur@.len(),
    {
        let cn = cur.unicode_len();
        let next = cur.substring_char(pn, cn);
        proof {
            assert(next@ =~= cur@.skip(pn as int));
        }
        cur = next;
    }
    cur
}

/// `s` with every copy of the suffix `p` removed from its end, as
/// `str::trim_end_matches` does.
pub open spec fn strip_all_suffix_spec(s: Seq<char>, p: Seq<char>) -> Seq<char>
    decreases s.len(),
{
    if p.len() > 0 && ends_with_spec(s, p) {
        strip_all_suffix_spec(s.take(s.len() - p.len()), p)
    } else {
        s
    }
}

/// Removes every trailing copy of `p` from `s`, per `strip_all_suffix_spec`.
pub fn strip_all_suffix<'a>(s: &'a str, p: &str) -> (r: &'a str)
    ensures
        r@ == strip_all_suffix_spec(s@, p@),
{
    let pn = p.unicode_len();
    if pn == 0 {
        return s;
    }
    let mut cur: &str = s;
    while ends_with(cur, p)
        invariant
            pn == p@.len(),
            pn > 0,
            strip_all_suffix_spec(s@, p@) == strip_all_suffix_spec(cur@, p@),
        decreases cur@.len(),
    {
        let cn = cur.unicode_len();
        let next = cur.substring_char(0, cn - pn);
        proof {
            assert(next@ =~= cur@.take(cur@.len() - pn));
        }
        cur = next;
    }
    cur
}

/// `s` with every leading and trailing `c` removed, as `str::trim_matches`
/// does with a single pattern character.
pub open spec fn trim_char_spec(s: Seq<char>, c: char) -> Seq<char> {
    trim_char_end(trim_char_start(s, c), c)
}

/// `s` without its leading copies of `c`.
pub open spec fn trim_char_start(s: Seq<char>, c: char) -> Seq<char>
    decreases s.len(),
{
    if s.len() > 0 && s[0] == c {
        trim_char_start(s.drop_first(), c)
    } else {
        s
    }
}

/// `s` without its trailing copies of `c`.
pub open spec fn trim_char_end(s: Seq<char>, c: char) -> Seq<char>
    decreases s.len(),
{
    if s.len() > 0 && s[s.len() - 1] == c {
        trim_char_end(s.drop_last(), c)
    } else {
        s
    }
}

proof fn lemma_trim_char_start_subrange(s: Seq<char>, c: char, a: int)
    requires
        0 <= a <= s.len(),
        forall|j: int| 0 <= j < a ==> s[j] == c,
        a < s.len() ==> s[a] != c,
    ensures
        trim_char_start(s, c) == s.subrange(a, s.len() as int),
    decreases a,
{
    if a == 0 {
        assert(s.subrange(0, s.len() as int) =~= s);
    } else {
        let d = s.drop_first();
        lemma_trim_char_start_subrange(d, c, a - 1);
        assert(d.subrange(a - 1, d.len() as int) =~= s.subrange(a, s.len() as int));
    }
}

proof fn lemma_trim_char_end_subrange(s: Seq<char>, c: char, b: int)
    requires
        0 <= b <= s.len(),
        forall|j: int| b <= j < s.len() ==> s[j] == c,
        b > 0 ==> s[b - 1] != c,
    ensures
        trim_char_end(s, c) == s.subrange(0, b),
    decreases s.len() - b,
{
    if b == s.len() {
        assert(s.subrange(0, s.len() as int) =~= s);
    } else {
        let d = s.drop_last();
        assert(forall|j: int| b <= j < d.len() ==> d[j] == s[j]);
        lemma_trim_char_end_subrange(d, c, b);
        assert(d.subrange(0, b) =~= s.subrange(0, b));
    }
}

/// Removes leading and trailing copies of `c`, per `trim_char_spec`.
pub fn trim_char<'a>(s: &'a str, c: char) -> (r: &'a str)
    ensures
        r@ == trim_char_spec(s@, c),
{
    let n = s.unicode_len();
    let mut a: usize = 0;
    while a < n && s.get_char(a) == c
        invariant
            0 <= a <= n,
            n == s@.len(),
            forall|j: int| 0 <= j < a ==> s@[j] == c,
        decreases n - a,
    {
        a += 1;
    }
    proof {
        lemma_trim_char_start_subrange(s@, c, a as int);
    }
    let mut b: usize = n;
    while b > a && s.get_char(b - 1) == c
        invariant
            a <= b <= n,
            n == s@.len(),
            forall|j: int| b <= j < n ==> s@[j] == c,
        decreases b,
    {
        b -= 1;
    }
    proof {
        let t = s@.subrange(a as int, s@.len() as int);
        assert(forall|j: int| b - a <= j < t.len() ==> t[j] == c);
        if b > a {
            assert(t[b - a - 1] != c);
        }
        lemma_trim_char_end_subrange(t, c, b - a);
        assert(t.subrange(0, b - a) =~= s@.subrange(a as int, b as int));
    }
    s.substring_char(a, b)
}

/// Substring test, per `contains_spec`.
pub fn contains_sub(hay: &str, needle: &str) -> (r: bool)
    ensures
        r == contains_spec(hay@, needle@),
{
    proof {
        lemma_find_first(hay@, needle@);
    }
    match find_sub(hay, needle) {
        Some(_) => true,
        None => false,
    }
}

/// The Unicode lowercase form of a sequence of characters, as
/// `str::to_lowercase` computes it.
pub uninterp spec fn lower_of(s: Seq<char>) -> Seq<char>;

/// Relies on str::to_lowercase: the result is a function of the characters
/// alone, here named `lower_of`; the empty string stays empty.
#[verifier::external_body]
pub fn to_lower(s: &str) -> (r: String)
    ensures
        r@ == lower_of(s@),
        s@.len() == 0 ==> r@.len() == 0,
{
    s.to_lowercase()
}

/// The part of `s` before the first `c`, or all of `s` when `c` does not
/// occur, as `s.split(c).next()` yields it.
pub open spec fn up_to_char_spec(s: Seq<char>, c: char) -> Seq<char> {
    match find_first(s, seq![c]) {
        Some(i) => s.subrange(0, i),
        None => s,
    }
}

pub proof fn lemma_match_at_single(s: Seq<char>, c: char, j: int)
    requires
        0 <= j < s.len(),
    ensures
        match_at(s, seq![c], j) == (s[j] == c),
{
    if s[j] == c {
        assert(s.subrange(j, j + 1) =~= seq![c]);
    } else {
        assert(s.subrange(j, j + 1)[0] != seq![c][0]);
    }
}

/// The prefix of `s` before the first `c`, per `up_to_char_spec`.
pub fn up_to_char<'a>(s: &'a str, c: char) -> (r: &'a str)
    ensures
        r@ == up_to_char_spec(s@, c),
{
    let n = s.unicode_len();
    let mut i: usize = 0;
    while i < n && s.get_char(i) != c
        invariant
            0 <= i <= n,
            n == s@.len(),
            forall|j: int| 0 <= j < i ==> s@[j] != c,
        decreases n - i,
    {
        i += 1;
    }
    proof {
        lemma_find_first(s@, seq![c]);
        assert forall|j: int| 0 <= j < i implies !match_at(s@, seq![c], j) by {
            lemma_match_at_single(s@, c, j);
        }
        if i < n {
            lemma_match_at_single(s@, c, i as int);
            assert(match_at(s@, seq![c], i as int));
            assert(find_first(s@, seq![c]) == Some(i as int));
        } else {
            assert forall|j: int| !match_at(s@, seq![c], j) by {
                if 0 <= j < s@.len() {
                    lemma_match_at_single(s@, c, j);
                }
            }
            assert(find_first(s@, seq![c]) is None);
            assert(s@.subrange(0, i as int) =~= s@);
        }
    }
    s.substring_char(0, i)
}

/// `s` with one trailing copy of `p` removed, as `str::strip_suffix` yields
/// it, or `s` unchanged when `p` is not a suffix.
pub open spec fn strip_one_suffix_spec(s: Seq<char>, p: Seq<char>) -> Seq<char> {
    if ends_with_spec(s, p) {
        s.take(s.len() - p.len())
    } else {
        s
    }
}

/// Removes one trailing copy of `p` from `s`, per `strip_one_suffix_spec`.
pub fn strip_one_suffix<'a>(s: &'a str, p: &str) -> (r: &'a str)
    ensures
        r@ == strip_one_suffix_spec(s@, p@),
{
    let sn = s.unicode_len();
    let pn = p.unicode_len();
    if ends_with(s, p) {
        let r = s.substring_char(0, sn - pn);
        proof {
            assert(r@ =~= s@.take(s@.len() - p@.len()));
        }
        r
    } else {
        s
    }
}

/// `s` without a single trailing carriage return, the way a `\r\n` line
/// terminator loses its `\r`.
pub open spec fn chop_cr(s: Seq<char>) -> Seq<char> {
    if s.len() > 0 && s[s.len() - 1] == '\r' {
        s.drop_last()
    } else {
        s
    }
}

/// The lines of `s`, split at `\n` or `\r\n`, with an optional final
/// terminator, as `str::lines` yields them.
pub open spec fn lines_of(s: Seq<char>) -> Seq<Seq<char>>
    decreases s.len(),
{
    if s.len() == 0 {
        Seq::empty()
    } else {
        match find_first(s, seq!['\n']) {
            Some(i) => if 0 <= i < s.len() {
                seq![chop_cr(s.subrange(0, i))] + lines_of(s.subrange(i + 1, s.len() as int))
            } else {
                seq![s]
            },
            None => seq![s],
        }
    }
}

/// Splits `s` into its lines, per `lines_of`.
pub fn split_lines(s: &str) -> (r: Vec<String>)
    ensures
        r.deep_view() == lines_of(s@),
{
    let mut out: Vec<String> = Vec::new();
    let mut cur: &str = s;
    proof {
        assert(out.deep_view() =~= Seq::<Seq<char>>::empty());
    }
    loop
        invariant
            lines_of(s@) == out.deep_view() + lines_of(cur@),
        decreases cur@.len(),
    {
        let cn = cur.unicode_len();
        if cn == 0 {
            proof {
                assert(lines_of(s@) =~= out.deep_view());
            }
            return out;
        }
        proof {
            lemma_find_first(cur@, seq!['\n']);
        }
        let ghost old_out = out.deep_view();
        match find_sub(cur, "\n") {
            Some(i) => {
                proof {
                    reveal_strlit("\n");
                    assert("\n"@ =~= seq!['\n']);
                    lemma_match_at_single(cur@, '\n', i as int);
                }
                let line_end = if i > 0 && cur.get_char(i - 1) == '\r' {
                    i - 1
                } else {
                    i
                };
                let line = cur.substring_char(0, line_end);
                proof {
                    assert(line@ =~= chop_cr(cur@.subrange(0, i as int))) by {
                        if i > 0 && cur@[i - 1] == '\r' {
                            assert(cur@.subrange(0, i as int).drop_last() =~= cur@.subrange(
                                0,
                                i - 1,
                            ));
                        }
                    }
                }
                out.push(line.to_owned());
                let rest = cur.substring_char(i + 1, cn);
                proof {
                    assert(lines_of(cur@) == seq![chop_cr(cur@.subrange(0, i as int))] + lines_of(
                        cur@.subrange(i + 1, cur@.len() as int),
                    ));
                    assert(out.deep_view() =~= old_out + seq![line@]);
                    assert(out.deep_view() + lines_of(rest@) =~= old_out + lines_of(cur@));
                }
                cur = rest;
            },
            None => {
                proof {
                    reveal_strlit("\n");
                    assert("\n"@ =~= seq!['\n']);
                    assert(lines_of(cur@) == seq![cur@]);
                }
                out.push(cur.to_owned());
                proof {
                    assert(out.deep_view() =~= old_out + seq![cur@]);
                    assert(lines_of(s@) =~= out.deep_view());
                }
                return out;
            },
        }
    }
}

/// Removes every leading copy of `c` from `s`, per `trim_char_start`.
pub fn strip_leading_char<'a>(s: &'a str, c: char) -> (r: &'a str)
    ensures
        r@ == trim_char_start(s@, c),
{
    let n = s.unicode_len();
    let mut a: usize = 0;
    while a < n && s.get_char(a) == c
        invariant
            0 <= a <= n,
            n == s@.len(),
            forall|j: int| 0 <= j < a ==> s@[j] == c,
        decreases n - a,
    {
        a += 1;
    }
    proof {
        lemma_trim_char_start_subrange(s@, c, a as int);
    }
    s.substring_char(a, n)
}

/// The position of the last occurrence of `c` in `s`, if any.
pub open spec fn last_index_of(s: Seq<char>, c: char) -> Option<int>
    decreases s.len(),
{
    if s.len() == 0 {
        None
    } else if s[s.len() - 1] == c {
        Some(s.len() - 1)
    } else {
        last_index_of(s.drop_last(), c)
    }
}

/// `last_index_of` returns the greatest position holding `c`, or `None` when
/// `c` does not occur.
pub proof fn lemma_last_index_of(s: Seq<char>, c: char)
    ensures
        match last_index_of(s, c) {
            Some(i) => 0 <= i < s.len() && s[i] == c && (forall|j: int|
                i < j < s.len() ==> s[j] != c),
            None => forall|j: int| 0 <= j < s.len() ==> s[j] != c,
        },
    decreases s.len(),
{
    if s.len() > 0 && s[s.len() - 1] != c {
        lemma_last_index_of(s.drop_last(), c);
        assert(forall|j: int| 0 <= j < s.len() - 1 ==> s.drop_last()[j] == s[j]);
    }
}

/// The position of the last `c` in `s`, per `last_index_of`.
pub fn find_last_char(s: &str, c: char) -> (r: Option<usize>)
    ensures
        match last_index_of(s@, c) {
            Some(i) => r matches Some(u) && u == i,
            None => r is None,
        },
{
    proof {
        lemma_last_index_of(s@, c);
    }
    let n = s.unicode_len();
    let mut b: usize = n;
    while b > 0
        invariant
            0 <= b <= n,
            n == s@.len(),
            forall|j: int| b <= j < n ==> s@[j] != c,
        decreases b,
    {
        if s.get_char(b - 1) == c {
            proof {
                lemma_last_index_of(s@, c);
                match last_index_of(s@, c) {
                    Some(i) => {
                        assert(i == b - 1);
                    },
                    None => {
                        assert(false);
                    },
                }
            }
            return Some(b - 1);
        }
        b -= 1;
    }
    None
}

/// The given lines joined with single `\n` separators, as
/// `[&str]::join("\n")` yields them.
pub open spec fn join_lines(lines: Seq<Seq<char>>) -> Seq<char>
    decreases lines.len(),
{
    if lines.len() == 0 {
        Seq::empty()
    } else if lines.len() == 1 {
        lines[0]
    } else {
        lines[0] + seq!['\n'] + join_lines(lines.drop_first())
    }
}

/// Joining one more line appends a separator and that line.
pub proof fn lemma_join_lines_snoc(lines: Seq<Seq<char>>, x: Seq<char>)
    ensures
        join_lines(lines.push(x)) == if lines.len() == 0 {
            x
        } else {
            join_lines(lines) + seq!['\n'] + x
        },
    decreases lines.len(),
{
    if lines.len() == 0 {
        assert(lines.push(x)[0] == x);
        assert(join_lines(lines.push(x)) == x);
    } else {
        lemma_join_lines_snoc(lines.drop_first(), x);
        assert(lines.push(x).drop_first() =~= lines.drop_first().push(x));
        if lines.len() == 1 {
            assert(lines.drop_first().len() == 0);
            assert(join_lines(lines.push(x)) == lines[0] + seq!['\n'] + x);
            assert(join_lines(lines) == lines[0]);
        }
    }
}

/// Joins the given lines with `\n`, per `join_lines`.
pub fn join_with_newlines(lines: &Vec<String>) -> (r: String)
    ensures
        r@ == join_lines(lines.deep_view()),
{
    let ghost lv = lines.deep_view();
    let mut out = String::new();
    proof {
        assert(lv.take(0) =~= Seq::<Seq<char>>::empty());
    }
    let mut k: usize = 0;
    while k < lines.len()
        invariant
            0 <= k <= lines@.len(),
            lv == lines.deep_view(),
            lv.len() == lines@.len(),
            out@ == join_lines(lv.take(k as int)),
        decreases lines@.len() - k,
    {
        if k > 0 {
            out.append("\n");
        }
        out.append(lines[k].as_str());
        proof {
            reveal_strlit("\n");
            assert(lines@[k as int]@ == lv[k as int]);
            assert(lv.take(k + 1) =~= lv.take(k as int).push(lv[k as int]));
            lemma_join_lines_snoc(lv.take(k as int), lv[k as int]);
            assert(out@ =~= join_lines(lv.take(k + 1)));
        }
        k += 1;
    }
    proof {
        assert(lv.take(lv.len() as int) =~= lv);
    }
    out
}

/// Lexicographic order on character sequences by Unicode scalar value; the
/// order in which `str` comparison and sorted map iteration present keys.
pub open spec fn lex_le(a: Seq<char>, b: Seq<char>) -> bool
    decreases a.len(),
{
    if a.len() == 0 {
        true
    } else if b.len() == 0 {
        false
    } else if (a[0] as u32) < (b[0] as u32) {
        true
    } else if (a[0] as u32) == (b[0] as u32) {
        lex_le(a.drop_first(), b.drop_first())
    } else {
        false
    }
}

/// The given items joined with a separator, as `[&str]::join` yields them.
pub open spec fn join_with(items: Seq<Seq<char>>, sep: Seq<char>) -> Seq<char>
    decreases items.len(),
{
    if items.len() == 0 {
        Seq::empty()
    } else if items.len() == 1 {
        items[0]
    } else {
        items[0] + sep + join_with(items.drop_first(), sep)
    }
}

/// Joining one more item appends a separator and that item.
pub proof fn lemma_join_with_snoc(items: Seq<Seq<char>>, sep: Seq<char>, x: Seq<char>)
    ensures
        join_with(items.push(x), sep) == if items.len() == 0 {
            x
        } else {
            join_with(items, sep) + sep + x
        },
    decreases items.len(),
{
    if items.len() == 0 {
        assert(items.push(x)[0] == x);
        assert(join_with(items.push(x), sep) == x);
    } else {
        lemma_join_with_snoc(items.drop_first(), sep, x);
        assert(items.push(x).drop_first() =~= items.drop_first().push(x));
        if items.len() == 1 {
            assert(items.drop_first().len() == 0);
            assert(join_with(items.push(x), sep) == items[0] + sep + x);
            assert(join_with(items, sep) == items[0]);
        }
    }
}

/// Joins the given items with a separator, per `join_with`.
pub fn join_strings(items: &Vec<String>, sep: &str) -> (r: String)
    ensures
        r@ == join_with(items.deep_view(), sep@),
{
    let ghost iv = items.deep_view();
    let mut out = String::new();
    proof {
        assert(iv.take(0) =~= Seq::<Seq<char>>::empty());
    }
    let mut k: usize = 0;
    while k < items.len()
        invariant
            0 <= k <= items@.len(),
            iv == items.deep_view(),
            iv.len() == items@.len(),
            out@ == join_with(iv.take(k as int), sep@),
        decreases items@.len() - k,
    {
        if k > 0 {
            out.append(sep);
        }
        out.append(items[k].as_str());
        proof {
            assert(items@[k as int]@ == iv[k as int]);
            assert(iv.take(k + 1) =~= iv.take(k as int).push(iv[k as int]));
            lemma_join_with_snoc(iv.take(k as int), sep@, iv[k as int]);
            assert(out@ =~= join_with(iv.take(k + 1), sep@));
        }
        k += 1;
    }
    proof {
        assert(iv.take(iv.len() as int) =~= iv);
    }
    out
}

/// `lex_le` is reflexive.
pub proof fn lemma_lex_le_refl(a: Seq<char>)
    ensures
        lex_le(a, a),
    decreases a.len(),
{
    if a.len() > 0 {
        lemma_lex_le_refl(a.drop_first());
    }
}

/// Lexicographic comparison of string slices, per `lex_le`.
pub fn str_le(a: &str, b: &str) -> (r: bool)
    ensures
        r == lex_le(a@, b@),
    decreases a@.len(),
{
    let an = a.unicode_len();
    let bn = b.unicode_len();
    if an == 0 {
        true
    } else if bn == 0 {
        false
    } else {
        let ca = a.get_char(0) as u32;
        let cb = b.get_char(0) as u32;
        if ca < cb {
            true
        } else if ca == cb {
            let ra = a.substring_char(1, an);
            let rb = b.substring_char(1, bn);
            proof {
                assert(ra@ =~= a@.drop_first());
                assert(rb@ =~= b@.drop_first());
            }
            str_le(ra, rb)
        } else {
            false
        }
    }
}

} // verus!
