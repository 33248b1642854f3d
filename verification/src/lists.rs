use vstd::prelude::*;

use crate::text::{find_first, find_sub, lemma_find_first, trim, trim_spec};

verus! {

/// What serde_json makes of a text as a JSON array of strings, when it parses
/// as one: a function of the text alone.
pub uninterp spec fn json_string_list(s: Seq<char>) -> Option<Seq<Seq<char>>>;

/// Relies on serde_json::from_str::<Vec<String>>: whether the text parses as
/// a JSON array of strings, and which strings it holds, depend on the text
/// alone; `json_string_list` names the outcome.
#[verifier::external_body]
fn parse_json_string_list(s: &str) -> (r: Option<Vec<String>>)
    ensures
        match r {
            Some(v) => json_string_list(s@) == Some(v.deep_view()),
            None => json_string_list(s@) is None,
        },
{
    match serde_json::from_str::<Vec<String>>(s) {
        Ok(v) => Some(v),
        Err(_) => None,
    }
}

/// The pieces of `s` between commas, as `str::split(',')` yields them.
pub open spec fn split_commas(s: Seq<char>) -> Seq<Seq<char>>
    decreases s.len(),
{
    match find_first(s, seq![',']) {
        Some(i) => if 0 <= i < s.len() {
            seq![s.subrange(0, i)] + split_commas(s.subrange(i + 1, s.len() as int))
        } else {
            seq![s]
        },
        None => seq![s],
    }
}

/// Keeping only non-empty items.
pub open spec fn nonempty_pred() -> spec_fn(Seq<char>) -> bool {
    |t: Seq<char>| t.len() > 0
}

/// A comma-separated list: the pieces between commas, trimmed, empty ones
/// dropped.
pub open spec fn comma_list(s: Seq<char>) -> Seq<Seq<char>> {
    split_commas(s).map_values(|t: Seq<char>| trim_spec(t)).filter(nonempty_pred())
}

/// A flexible string list: an empty trimmed text is the empty list; a text
/// that opens with `[` and parses as a JSON array of strings is that array;
/// anything else is read as a comma-separated list.
pub open spec fn flexible_list_spec(s: Seq<char>) -> Seq<Seq<char>> {
    let t = trim_spec(s);
    if t.len() == 0 {
        Seq::empty()
    } else if t[0] == '[' {
        match json_string_list(t) {
            Some(v) => v,
            None => comma_list(t),
        }
    } else {
        comma_list(t)
    }
}

/// Splits `s` at commas, trims each piece, and keeps the non-empty ones,
/// per `comma_list`.
fn parse_comma_list(s: &str) -> (r: Vec<String>)
    ensures
        r.deep_view() == comma_list(s@),
{
    broadcast use vstd::prelude::Seq::filter_distributes_over_add;

    let mut out: Vec<String> = Vec::new();
    let mut cur: &str = s;
    proof {
        reveal(Seq::filter);
        assert(out.deep_view() =~= Seq::<Seq<char>>::empty());
        assert(comma_list(s@) =~= out.deep_view() + comma_list(cur@));
    }
    loop
        invariant
            comma_list(s@) == out.deep_view() + comma_list(cur@),
        decreases cur@.len(),
    {
        proof {
            lemma_find_first(cur@, seq![',']);
        }
        let cn = cur.unicode_len();
        let ghost pre = out.deep_view();
        match find_sub(cur, ",") {
            Some(i) => {
                proof {
                    reveal_strlit(",");
                    assert(","@ =~= seq![',']);
                }
                let piece = trim(cur.substring_char(0, i));
                if piece.unicode_len() > 0 {
                    out.push(piece.to_owned());
                }
                let rest = cur.substring_char(i + 1, cn);
                proof {
                    reveal(Seq::filter);
                    let raw = cur@.subrange(0, i as int);
                    assert(split_commas(cur@) == seq![raw] + split_commas(rest@));
                    let mapped_single = seq![raw].map_values(|t: Seq<char>| trim_spec(t));
                    assert(mapped_single =~= seq![trim_spec(raw)]);
                    assert(split_commas(cur@).map_values(|t: Seq<char>| trim_spec(t)) =~= seq![
                        trim_spec(raw),
                    ] + split_commas(rest@).map_values(|t: Seq<char>| trim_spec(t)));
                    assert(seq![trim_spec(raw)].drop_last() =~= Seq::<Seq<char>>::empty());
                    assert(Seq::<Seq<char>>::empty().filter(nonempty_pred()) =~= Seq::<
                        Seq<char>,
                    >::empty());
                    assert(nonempty_pred()(trim_spec(raw)) == (trim_spec(raw).len() > 0));
                    assert(seq![trim_spec(raw)].last() == trim_spec(raw));
                    assert(seq![trim_spec(raw)].filter(nonempty_pred()) =~= if trim_spec(
                        raw,
                    ).len() > 0 {
                        seq![trim_spec(raw)]
                    } else {
                        Seq::<Seq<char>>::empty()
                    });
                    assert(comma_list(cur@) =~= seq![trim_spec(raw)].filter(nonempty_pred())
                        + comma_list(rest@));
                    if piece@.len() > 0 {
                        assert(out.deep_view() =~= pre.push(trim_spec(raw)));
                    }
                    assert(pre + comma_list(cur@) =~= out.deep_view() + comma_list(rest@));
                }
                cur = rest;
            },
            None => {
                proof {
                    reveal_strlit(",");
                    assert(","@ =~= seq![',']);
                }
                let piece = trim(cur);
                if piece.unicode_len() > 0 {
                    out.push(piece.to_owned());
                }
                proof {
                    reveal(Seq::filter);
                    assert(split_commas(cur@) == seq![cur@]);
                    let mapped = split_commas(cur@).map_values(|t: Seq<char>| trim_spec(t));
                    assert(mapped =~= seq![trim_spec(cur@)]);
                    assert(seq![trim_spec(cur@)].drop_last() =~= Seq::<Seq<char>>::empty());
                    assert(Seq::<Seq<char>>::empty().filter(nonempty_pred()) =~= Seq::<
                        Seq<char>,
                    >::empty());
                    assert(nonempty_pred()(trim_spec(cur@)) == (trim_spec(cur@).len() > 0));
                    assert(seq![trim_spec(cur@)].last() == trim_spec(cur@));
                    assert(comma_list(cur@) =~= if trim_spec(cur@).len() > 0 {
                        seq![trim_spec(cur@)]
                    } else {
                        Seq::<Seq<char>>::empty()
                    });
                    if piece@.len() > 0 {
                        assert(out.deep_view() =~= pre.push(trim_spec(cur@)));
                    }
                    assert(comma_list(s@) =~= out.deep_view());
                }
                return out;
            },
        }
    }
}

/// Reads a flexible string list, per `flexible_list_spec`: empty text gives
/// no items; a JSON array of strings gives its items; anything else is a
/// comma-separated list, items trimmed, empty ones dropped.
pub fn parse_string_list(s: &str) -> (r: Vec<String>)
    ensures
        r.deep_view() == flexible_list_spec(s@),
{
    let t = trim(s);
    if t.unicode_len() == 0 {
        let r: Vec<String> = Vec::new();
        proof {
            assert(r.deep_view() =~= Seq::<Seq<char>>::empty());
        }
        return r;
    }
    if t.get_char(0) == '[' {
        if let Some(v) = parse_json_string_list(t) {
            return v;
        }
        return parse_comma_list(t);
    }
    parse_comma_list(t)
}

/// Reads a flexible string list, dropping an empty result to `None`.
pub fn parse_string_list_opt(s: &str) -> (r: Option<Vec<String>>)
    ensures
        match r {
            Some(v) => v.deep_view() == flexible_list_spec(s@) && v@.len() > 0,
            None => flexible_list_spec(s@).len() == 0,
        },
{
    let v = parse_string_list(s);
    if v.len() == 0 {
        None
    } else {
        Some(v)
    }
}

/// Drops an empty list to `None`, keeping any other unchanged.
pub fn normalize_list_opt(v: Vec<String>) -> (r: Option<Vec<String>>)
    ensures
        match r {
            Some(w) => w == v && v@.len() > 0,
            None => v@.len() == 0,
        },
{
    if v.len() == 0 {
        None
    } else {
        Some(v)
    }
}

} // verus!
