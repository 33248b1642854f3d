use vstd::prelude::*;

use crate::query::iview;
use crate::text::{join_lines, join_with_newlines, lex_le, str_le};

verus! {

broadcast use vstd::seq::axiom_seq_index_decreases, vstd::std_specs::vec::axiom_vec_decreases_to_view;

/// One node of the directory model handed to the renderer: a file, or a
/// directory with its children in any order. An unreadable directory is
/// modelled as one with no children.
pub enum FsNode {
    File { name: String },
    Dir { name: String, children: Vec<FsNode> },
}

/// The display name of a node.
pub open spec fn spec_name(n: FsNode) -> Seq<char> {
    match n {
        FsNode::File { name } => name@,
        FsNode::Dir { name, .. } => name@,
    }
}

/// A node whose name begins with the hidden-file marker.
pub open spec fn is_hidden(n: FsNode) -> bool {
    spec_name(n).len() > 0 && spec_name(n)[0] == '.'
}

/// The positions of the visible children among the first `n`, in order.
pub open spec fn visible_idx(children: Seq<FsNode>, n: int) -> Seq<int>
    decreases n,
{
    if n <= 0 {
        Seq::empty()
    } else {
        visible_idx(children, n - 1) + if is_hidden(children[n - 1]) {
            Seq::empty()
        } else {
            seq![n - 1]
        }
    }
}

/// Stable insertion of position `x` into a name-sorted position list: `x`
/// goes after every position whose name is not greater.
pub open spec fn insert_idx(children: Seq<FsNode>, sorted: Seq<int>, x: int) -> Seq<int>
    decreases sorted.len(),
{
    if sorted.len() == 0 {
        seq![x]
    } else if lex_le(spec_name(children[sorted[0]]), spec_name(children[x])) {
        seq![sorted[0]] + insert_idx(children, sorted.drop_first(), x)
    } else {
        seq![x] + sorted
    }
}

/// Stable insertion sort of positions by node name.
pub open spec fn sort_idx(children: Seq<FsNode>, ix: Seq<int>) -> Seq<int>
    decreases ix.len(),
{
    if ix.len() == 0 {
        Seq::empty()
    } else {
        insert_idx(children, sort_idx(children, ix.drop_last()), ix.last())
    }
}

/// The order a directory's children are listed in: visible ones only, sorted
/// by name, ties kept in input order.
pub open spec fn child_order(children: Seq<FsNode>) -> Seq<int> {
    sort_idx(children, visible_idx(children, children.len() as int))
}

/// The rendered lines for the listed children from position `j` of `order`
/// on: each child gets a connector line (the last sibling a closing one), and
/// a directory nests its own listing under an extended prefix.
pub open spec fn render_items(
    children: Seq<FsNode>,
    order: Seq<int>,
    j: int,
    prefix: Seq<char>,
) -> Seq<Seq<char>>
    decreases children, order.len() - j,
{
    if j < 0 || j >= order.len() {
        Seq::empty()
    } else if !(0 <= order[j] < children.len()) {
        render_items(children, order, j + 1, prefix)
    } else {
        let k = order[j];
        let is_last = j == order.len() - 1;
        let conn: Seq<char> = if is_last {
            "└── "@
        } else {
            "├── "@
        };
        match children[k] {
            FsNode::File { name } => seq![prefix + conn + name@] + render_items(
                children,
                order,
                j + 1,
                prefix,
            ),
            FsNode::Dir { name, children: sub } => {
                let child_prefix = prefix + (if is_last {
                    "    "@
                } else {
                    "│   "@
                });
                seq![prefix + conn + name@ + "/"@] + render_items(
                    sub@,
                    child_order(sub@),
                    0,
                    child_prefix,
                ) + render_items(children, order, j + 1, prefix)
            },
        }
    }
}

/// The whole rendered tree: the root's listing joined with newlines.
pub open spec fn render_tree_spec(roots: Seq<FsNode>) -> Seq<char> {
    join_lines(render_items(roots, child_order(roots), 0, Seq::empty()))
}

/// The display name of a node, per `spec_name`.
fn node_name(n: &FsNode) -> (r: &String)
    ensures
        r@ == spec_name(*n),
{
    match n {
        FsNode::File { name } => name,
        FsNode::Dir { name, .. } => name,
    }
}

fn is_hidden_exec(n: &FsNode) -> (r: bool)
    ensures
        r == is_hidden(*n),
{
    let name = node_name(n);
    let s = name.as_str();
    s.unicode_len() > 0 && s.get_char(0) == '.'
}

proof fn lemma_insert_idx_at(children: Seq<FsNode>, sorted: Seq<int>, x: int, p: int)
    requires
        0 <= p <= sorted.len(),
        forall|l: int|
            0 <= l < p ==> lex_le(spec_name(children[#[trigger] sorted[l]]), spec_name(children[x])),
        p < sorted.len() ==> !lex_le(spec_name(children[sorted[p]]), spec_name(children[x])),
    ensures
        insert_idx(children, sorted, x) == sorted.take(p) + seq![x] + sorted.skip(p),
    decreases sorted.len(),
{
    if sorted.len() == 0 {
        assert(sorted.take(0) =~= Seq::<int>::empty());
        assert(sorted.skip(0) =~= Seq::<int>::empty());
        assert(insert_idx(children, sorted, x) =~= sorted.take(0) + seq![x] + sorted.skip(0));
    } else if p == 0 {
        assert(sorted.take(0) =~= Seq::<int>::empty());
        assert(sorted.skip(0) =~= sorted);
        assert(insert_idx(children, sorted, x) =~= sorted.take(0) + seq![x] + sorted.skip(0));
    } else {
        let d = sorted.drop_first();
        assert(forall|l: int|
            0 <= l < p - 1 ==> lex_le(spec_name(children[#[trigger] d[l]]), spec_name(children[x])));
        lemma_insert_idx_at(children, d, x, p - 1);
        assert(d.take(p - 1) =~= sorted.take(p).drop_first());
        assert(d.skip(p - 1) =~= sorted.skip(p));
        assert(insert_idx(children, sorted, x) =~= sorted.take(p) + seq![x] + sorted.skip(p));
    }
}

/// The position a new child belongs at in a name-sorted position list: after
/// every position whose name is not greater.
fn find_insert_pos(children: &Vec<FsNode>, out: &Vec<usize>, x: usize) -> (p: usize)
    requires
        x < children@.len(),
        forall|l: int| 0 <= l < out@.len() ==> out@[l] < children@.len(),
    ensures
        0 <= p <= out@.len(),
        forall|l: int|
            0 <= l < p ==> lex_le(
                spec_name(children@[#[trigger] iview(out@)[l]]),
                spec_name(children@[x as int]),
            ),
        p < out@.len() ==> !lex_le(
            spec_name(children@[iview(out@)[p as int]]),
            spec_name(children@[x as int]),
        ),
{
    let xname = node_name(&children[x]);
    let mut p: usize = 0;
    while p < out.len()
        invariant
            0 <= p <= out@.len(),
            x < children@.len(),
            forall|l: int| 0 <= l < out@.len() ==> out@[l] < children@.len(),
            xname@ == spec_name(children@[x as int]),
            forall|l: int|
                0 <= l < p ==> lex_le(
                    spec_name(children@[#[trigger] iview(out@)[l]]),
                    spec_name(children@[x as int]),
                ),
        decreases out@.len() - p,
    {
        let cand = node_name(&children[out[p]]);
        assert(iview(out@)[p as int] == out@[p as int] as int);
        if !str_le(cand.as_str(), xname.as_str()) {
            return p;
        }
        assert(lex_le(
            spec_name(children@[iview(out@)[p as int]]),
            spec_name(children@[x as int]),
        ));
        p += 1;
    }
    p
}

/// Computes `child_order`: the visible children's positions, name-sorted.
fn compute_order(children: &Vec<FsNode>) -> (r: Vec<usize>)
    ensures
        iview(r@) == child_order(children@),
        forall|l: int| 0 <= l < r@.len() ==> r@[l] < children@.len(),
{
    let n = children.len();
    let mut vis: Vec<usize> = Vec::new();
    proof {
        assert(iview(vis@) =~= visible_idx(children@, 0));
    }
    let mut k: usize = 0;
    while k < n
        invariant
            0 <= k <= n,
            n == children@.len(),
            iview(vis@) == visible_idx(children@, k as int),
            forall|l: int| 0 <= l < vis@.len() ==> vis@[l] < n,
        decreases n - k,
    {
        let ghost pre = vis@;
        if !is_hidden_exec(&children[k]) {
            vis.push(k);
            proof {
                assert(iview(vis@) =~= iview(pre).push(k as int));
                assert(visible_idx(children@, k + 1) =~= visible_idx(children@, k as int).push(
                    k as int,
                ));
            }
        } else {
            proof {
                assert(visible_idx(children@, k + 1) =~= visible_idx(children@, k as int));
            }
        }
        k += 1;
    }

    let ghost vv = iview(vis@);
    let mut out: Vec<usize> = Vec::new();
    proof {
        assert(vv.take(0) =~= Seq::<int>::empty());
        assert(iview(out@) =~= sort_idx(children@, vv.take(0)));
    }
    let mut t: usize = 0;
    while t < vis.len()
        invariant
            0 <= t <= vis@.len(),
            vv == iview(vis@),
            vv.len() == vis@.len(),
            n == children@.len(),
            forall|l: int| 0 <= l < vis@.len() ==> vis@[l] < n,
            iview(out@) == sort_idx(children@, vv.take(t as int)),
            forall|l: int| 0 <= l < out@.len() ==> out@[l] < n,
        decreases vis@.len() - t,
    {
        let x = vis[t];
        assert(vv[t as int] == x as int);
        let ghost sorted = iview(out@);
        let p = find_insert_pos(children, &out, x);
        proof {
            lemma_insert_idx_at(children@, sorted, x as int, p as int);
        }
        out.insert(p, x);
        proof {
            assert(iview(out@) =~= sorted.take(p as int) + seq![x as int] + sorted.skip(p as int));
            assert(vv.take(t + 1).drop_last() =~= vv.take(t as int));
            assert(vv.take(t + 1).last() == x as int);
            assert(iview(out@) == sort_idx(children@, vv.take(t + 1)));
        }
        t += 1;
    }
    proof {
        assert(vv.take(vv.len() as int) =~= vv);
        assert(visible_idx(children@, n as int) == vv);
    }
    out
}

/// Appends the rendered listing of `children` to `out`, per `render_items`.
fn render_into(children: &Vec<FsNode>, prefix: &str, out: &mut Vec<String>)
    ensures
        final(out).deep_view() == old(out).deep_view() + render_items(
            children@,
            child_order(children@),
            0,
            prefix@,
        ),
    decreases children@,
{
    let order = compute_order(children);
    let ghost ord = iview(order@);
    let total = order.len();
    let ghost base = out.deep_view();
    let mut j: usize = 0;
    proof {
        assert(base + render_items(children@, ord, 0, prefix@) =~= out.deep_view()
            + render_items(children@, ord, 0, prefix@));
    }
    while j < total
        invariant
            0 <= j <= total,
            total == order@.len(),
            ord == iview(order@),
            ord.len() == total,
            forall|l: int| 0 <= l < order@.len() ==> order@[l] < children@.len(),
            base + render_items(children@, ord, 0, prefix@) == out.deep_view() + render_items(
                children@,
                ord,
                j as int,
                prefix@,
            ),
        decreases total - j,
    {
        let k = order[j];
        assert(ord[j as int] == k as int);
        assert(0 <= ord[j as int] < children@.len());
        let is_last = j == total - 1;
        let conn: &str = if is_last {
            "└── "
        } else {
            "├── "
        };
        let ghost dv_pre = out.deep_view();
        match &children[k] {
            FsNode::File { name } => {
                let mut line = prefix.to_owned();
                line.append(conn);
                line.append(name.as_str());
                out.push(line);
                proof {
                    assert(out.deep_view() =~= dv_pre.push(
                        prefix@ + (if is_last {
                            "└── "@
                        } else {
                            "├── "@
                        }) + name@,
                    ));
                    assert(render_items(children@, ord, j as int, prefix@) == seq![
                        prefix@ + (if is_last {
                            "└── "@
                        } else {
                            "├── "@
                        }) + name@,
                    ] + render_items(children@, ord, j + 1, prefix@));
                    assert(base + render_items(children@, ord, 0, prefix@) =~= out.deep_view()
                        + render_items(children@, ord, j + 1, prefix@));
                }
            },
            FsNode::Dir { name, children: sub } => {
                let mut line = prefix.to_owned();
                line.append(conn);
                line.append(name.as_str());
                line.append("/");
                out.push(line);
                let mut child_prefix = prefix.to_owned();
                if is_last {
                    child_prefix.append("    ");
                } else {
                    child_prefix.append("│   ");
                }
                proof {
                    assert(decreases_to!(children@ => children@[k as int]));
                }
                render_into(sub, child_prefix.as_str(), out);
                proof {
                    let connv: Seq<char> = if is_last {
                        "└── "@
                    } else {
                        "├── "@
                    };
                    let cpv: Seq<char> = prefix@ + (if is_last {
                        "    "@
                    } else {
                        "│   "@
                    });
                    assert(child_prefix@ == cpv);
                    assert(out.deep_view() =~= dv_pre.push(prefix@ + connv + name@ + "/"@)
                        + render_items(sub@, child_order(sub@), 0, cpv));
                    assert(render_items(children@, ord, j as int, prefix@) == seq![
                        prefix@ + connv + name@ + "/"@,
                    ] + render_items(sub@, child_order(sub@), 0, cpv) + render_items(
                        children@,
                        ord,
                        j + 1,
                        prefix@,
                    ));
                    assert(base + render_items(children@, ord, 0, prefix@) =~= out.deep_view()
                        + render_items(children@, ord, j + 1, prefix@));
                }
            },
        }
        j += 1;
    }
    proof {
        assert(render_items(children@, ord, total as int, prefix@) == Seq::<Seq<char>>::empty());
        assert(base + render_items(children@, ord, 0, prefix@) =~= out.deep_view());
    }
}

/// Renders the whole directory model as a connector-drawn tree, one line per
/// visible entry, siblings in name order, per `render_tree_spec`.
pub fn render_file_tree(roots: &Vec<FsNode>) -> (r: String)
    ensures
        r@ == render_tree_spec(roots@),
{
    let mut lines: Vec<String> = Vec::new();
    proof {
        reveal_strlit("");
        assert(""@ =~= Seq::<char>::empty());
        assert(lines.deep_view() =~= Seq::<Seq<char>>::empty());
    }
    render_into(roots, "", &mut lines);
    proof {
        assert(lines.deep_view() =~= render_items(roots@, child_order(roots@), 0, Seq::empty()));
    }
    join_with_newlines(&lines)
}

} // verus!
