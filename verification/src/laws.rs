//! Laws of the tree builder, proved against `forest_matches`, the
//! builder's output specification.

use vstd::prelude::*;

use crate::model::{children_of, rank, rows_wf, unique_ids, CategoryNode, CategoryRow};
use crate::tree::{
    forest_matches, lemma_child_rank, lemma_children_contains, lemma_children_empty,
    lemma_children_membership, lemma_children_single, lemma_wf_drop_last, node_matches,
};

verus! {

/// The two nodes show the same content: same display data and, recursively,
/// structurally identical children. This is structural identity of the
/// materialized trees, which carry no other data.
pub open spec fn node_like(a: CategoryNode, b: CategoryNode) -> bool
    decreases a,
{
    &&& a.name@ == b.name@
    &&& a.display_name@ == b.display_name@
    &&& forest_like(a.children@, b.children@)
}

/// The two forests are structurally identical, node by node.
pub open spec fn forest_like(a: Seq<CategoryNode>, b: Seq<CategoryNode>) -> bool
    decreases a,
{
    &&& a.len() == b.len()
    &&& forall|k: int| 0 <= k < a.len() ==> node_like(#[trigger] a[k], b[k])
}

/// Law: the row set pins the forest down. Any two forests that present
/// the same rows under the same parent are structurally identical; so two
/// builder calls with no intervening writes yield identical output.
pub proof fn lemma_forest_deterministic(
    rows: Seq<CategoryRow>,
    parent_id: Option<i64>,
    f1: Seq<CategoryNode>,
    f2: Seq<CategoryNode>,
)
    requires
        forest_matches(rows, parent_id, f1),
        forest_matches(rows, parent_id, f2),
    ensures
        forest_like(f1, f2),
    decreases f1,
{
    assert forall|k: int| 0 <= k < f1.len() implies node_like(#[trigger] f1[k], f2[k]) by {
        lemma_node_deterministic(rows, children_of(rows, parent_id)[k], f1[k], f2[k]);
    }
}

/// Two nodes that present the same row are structurally identical.
pub proof fn lemma_node_deterministic(
    rows: Seq<CategoryRow>,
    row: CategoryRow,
    n1: CategoryNode,
    n2: CategoryNode,
)
    requires
        node_matches(rows, row, n1),
        node_matches(rows, row, n2),
    ensures
        node_like(n1, n2),
    decreases n1,
{
    lemma_forest_deterministic(rows, Option::Some(row.id), n1.children@, n2.children@);
}

/// Law: an empty store yields an empty forest.
pub proof fn lemma_empty_store(rows: Seq<CategoryRow>, forest: Seq<CategoryNode>)
    requires
        rows.len() == 0,
        forest_matches(rows, Option::None, forest),
    ensures
        forest.len() == 0,
{
}

/// The rows form a single descending chain: the first row is the only
/// root and every later row's parent is the row before it.
pub open spec fn is_chain(rows: Seq<CategoryRow>) -> bool {
    &&& rows.len() > 0 ==> rows[0].parent_id is None
    &&& forall|i: int|
        1 <= i < rows.len() ==> #[trigger] rows[i].parent_id == Option::Some(rows[i - 1].id)
}

/// The forest is one straight line of the given depth: a single node at
/// every level, and nothing below the last.
pub open spec fn unary_forest(forest: Seq<CategoryNode>, depth: nat) -> bool
    decreases depth,
{
    if depth == 0 {
        forest.len() == 0
    } else {
        forest.len() == 1 && unary_forest(forest[0].children@, (depth - 1) as nat)
    }
}

/// Under a chain, each node built for the row at `i` continues the line:
/// one child per remaining row.
proof fn lemma_chain_node(rows: Seq<CategoryRow>, i: int, node: CategoryNode)
    requires
        rows_wf(rows),
        is_chain(rows),
        0 <= i < rows.len(),
        node_matches(rows, rows[i], node),
    ensures
        unary_forest(node.children@, (rows.len() - 1 - i) as nat),
    decreases rows.len() - i,
{
    let q = Option::Some(rows[i].id);
    if i == rows.len() - 1 {
        assert forall|m: int| 0 <= m < rows.len() implies (#[trigger] rows[m]).parent_id
            != q by {
            if m == 0 {
            } else {
                assert(rows[m].parent_id == Option::Some(rows[m - 1].id));
                if rows[m - 1].id == rows[i].id && m - 1 != i {
                    assert(false);
                }
            }
        }
        lemma_children_empty(rows, q);
    } else {
        assert(rows[i + 1].parent_id == q);
        assert forall|m: int| 0 <= m < rows.len() && m != i + 1 implies (
        #[trigger] rows[m]).parent_id != q by {
            if m == 0 {
            } else {
                assert(rows[m].parent_id == Option::Some(rows[m - 1].id));
                if rows[m - 1].id == rows[i].id && m - 1 != i {
                    assert(false);
                }
            }
        }
        lemma_children_single(rows, q, i + 1);
        assert(children_of(rows, q)[0] == rows[i + 1]);
        assert(node_matches(rows, rows[i + 1], node.children@[0]));
        lemma_chain_node(rows, i + 1, node.children@[0]);
    }
}

/// Law: a chain of depth N materializes as a single root with exactly one
/// nested child per level, to depth N.
pub proof fn lemma_chain_shape(rows: Seq<CategoryRow>, forest: Seq<CategoryNode>)
    requires
        rows_wf(rows),
        is_chain(rows),
        forest_matches(rows, Option::None, forest),
    ensures
        unary_forest(forest, rows.len() as nat),
{
    if rows.len() == 0 {
    } else {
        assert(rows[0].parent_id is None);
        assert forall|m: int| 0 <= m < rows.len() && m != 0 implies (
        #[trigger] rows[m]).parent_id != Option::<i64>::None by {
            assert(rows[m].parent_id == Option::Some(rows[m - 1].id));
        }
        lemma_children_single(rows, Option::None, 0);
        assert(children_of(rows, Option::<i64>::None)[0] == rows[0]);
        assert(node_matches(rows, rows[0], forest[0]));
        lemma_chain_node(rows, 0, forest[0]);
    }
}

/// The number of nodes in this node's subtree, the node itself included.
pub open spec fn node_size(node: CategoryNode) -> nat
    decreases node, 0nat,
{
    1 + forest_size_upto(node.children@, node.children@.len() as int)
}

/// The number of nodes in the subtrees of the first `j` trees of the forest.
pub open spec fn forest_size_upto(forest: Seq<CategoryNode>, j: int) -> nat
    decreases forest, j,
        when j <= forest.len()
{
    if j <= 0 {
        0
    } else {
        forest_size_upto(forest, j - 1) + node_size(forest[j - 1])
    }
}

/// The total number of nodes in the forest.
pub open spec fn forest_size(forest: Seq<CategoryNode>) -> nat {
    forest_size_upto(forest, forest.len() as int)
}

/// The number of rows a listing walk starting at `parent_id` would visit:
/// each direct child once, plus its own subtree in turn.
pub open spec fn subtree_count(rows: Seq<CategoryRow>, parent_id: Option<i64>) -> nat
    decreases rows.len() + 1 - rank(rows, parent_id), children_of(rows, parent_id).len() + 1,
        when rows_wf(rows)
{
    kids_count(rows, parent_id, children_of(rows, parent_id).len() as int)
}

/// As `subtree_count`, restricted to the first `j` direct children.
pub open spec fn kids_count(rows: Seq<CategoryRow>, parent_id: Option<i64>, j: int) -> nat
    decreases rows.len() + 1 - rank(rows, parent_id), j,
        when rows_wf(rows) && 0 <= j <= children_of(rows, parent_id).len()
{
    if j <= 0 {
        0
    } else {
        proof {
            lemma_child_rank(rows, parent_id, j - 1);
        }
        let kid = children_of(rows, parent_id)[j - 1];
        kids_count(rows, parent_id, j - 1) + 1 + subtree_count(rows, Option::Some(kid.id))
    }
}

/// How many times the walk starting at `parent_id` issues the listing
/// query `target`, the starting query itself included.
pub open spec fn visits(
    rows: Seq<CategoryRow>,
    parent_id: Option<i64>,
    target: Option<i64>,
) -> nat
    decreases rows.len() + 1 - rank(rows, parent_id), children_of(rows, parent_id).len() + 1,
        when rows_wf(rows)
{
    (if parent_id == target {
        1nat
    } else {
        0nat
    }) + visits_kids(rows, parent_id, target, children_of(rows, parent_id).len() as int)
}

/// As `visits`, restricted to the walks below the first `j` direct children.
pub open spec fn visits_kids(
    rows: Seq<CategoryRow>,
    parent_id: Option<i64>,
    target: Option<i64>,
    j: int,
) -> nat
    decreases rows.len() + 1 - rank(rows, parent_id), j,
        when rows_wf(rows) && 0 <= j <= children_of(rows, parent_id).len()
{
    if j <= 0 {
        0
    } else {
        proof {
            lemma_child_rank(rows, parent_id, j - 1);
        }
        let kid = children_of(rows, parent_id)[j - 1];
        visits_kids(rows, parent_id, target, j - 1) + visits(rows, Option::Some(kid.id), target)
    }
}

/// How many of the first `j` rows carry this id.
pub open spec fn cnt_id(kids: Seq<CategoryRow>, j: int, id: i64) -> nat
    decreases j,
{
    if j <= 0 {
        0
    } else {
        cnt_id(kids, j - 1, id) + (if kids[j - 1].id == id {
            1nat
        } else {
            0nat
        })
    }
}

/// A matching forest has as many nodes over its first `j` trees as the
/// walk counts over the first `j` child rows.
proof fn lemma_size_matches(
    rows: Seq<CategoryRow>,
    parent_id: Option<i64>,
    forest: Seq<CategoryNode>,
    j: int,
)
    requires
        rows_wf(rows),
        forest_matches(rows, parent_id, forest),
        0 <= j <= forest.len(),
    ensures
        forest_size_upto(forest, j) == kids_count(rows, parent_id, j),
    decreases forest, j,
{
    if j > 0 {
        lemma_size_matches(rows, parent_id, forest, j - 1);
        lemma_node_size(rows, children_of(rows, parent_id)[j - 1], forest[j - 1]);
    }
}

/// A matching node's subtree has one node for itself plus what the walk
/// counts below its row.
proof fn lemma_node_size(rows: Seq<CategoryRow>, row: CategoryRow, node: CategoryNode)
    requires
        rows_wf(rows),
        node_matches(rows, row, node),
    ensures
        node_size(node) == 1 + subtree_count(rows, Option::Some(row.id)),
    decreases node, 0nat,
{
    lemma_size_matches(
        rows,
        Option::Some(row.id),
        node.children@,
        node.children@.len() as int,
    );
}

/// A listing keeps the ids distinct.
proof fn lemma_children_no_dup(rows: Seq<CategoryRow>, parent_id: Option<i64>)
    requires
        unique_ids(rows),
    ensures
        unique_ids(children_of(rows, parent_id)),
    decreases rows.len(),
{
    if rows.len() > 0 {
        let prev = rows.drop_last();
        assert forall|i: int, j: int| 0 <= i < j < prev.len() implies #[trigger] prev[i].id
            != #[trigger] prev[j].id by {
            assert(prev[i] == rows[i]);
            assert(prev[j] == rows[j]);
        }
        lemma_children_no_dup(prev, parent_id);
        let kids = children_of(rows, parent_id);
        let rest = children_of(prev, parent_id);
        if rows.last().parent_id == parent_id {
            lemma_children_membership(prev, parent_id);
            assert forall|i: int, j: int| 0 <= i < j < kids.len() implies #[trigger] kids[i].id
                != #[trigger] kids[j].id by {
                if j < rest.len() {
                    assert(kids[i] == rest[i]);
                    assert(kids[j] == rest[j]);
                } else {
                    assert(kids[j] == rows.last());
                    assert(kids[i] == rest[i]);
                    let m = choose|m: int| 0 <= m < prev.len() && prev[m] == rest[i];
                    assert(rows[m] == prev[m]);
                    assert(rows[m].id != rows[rows.len() - 1].id);
                }
            }
        }
    }
}

/// When none of the first `j` rows carries the id, the count is zero.
proof fn lemma_cnt_zero(kids: Seq<CategoryRow>, j: int, id: i64)
    requires
        forall|k: int| 0 <= k < j ==> (#[trigger] kids[k]).id != id,
    ensures
        cnt_id(kids, j, id) == 0,
    decreases j,
{
    if j > 0 {
        lemma_cnt_zero(kids, j - 1, id);
    }
}

/// When exactly one of the first `j` rows carries the id, the count is one.
proof fn lemma_cnt_one(kids: Seq<CategoryRow>, j: int, id: i64, t: int)
    requires
        0 <= t < j,
        kids[t].id == id,
        forall|k: int| 0 <= k < j && k != t ==> (#[trigger] kids[k]).id != id,
    ensures
        cnt_id(kids, j, id) == 1,
    decreases j,
{
    if j - 1 == t {
        lemma_cnt_zero(kids, j - 1, id);
    } else {
        lemma_cnt_one(kids, j - 1, id, t);
    }
}

/// Among the direct children of `parent_id`, the id of the row at `i`
/// occurs exactly once when that row is such a child, else not at all.
proof fn lemma_cnt_children(rows: Seq<CategoryRow>, parent_id: Option<i64>, i: int)
    requires
        rows_wf(rows),
        0 <= i < rows.len(),
    ensures
        cnt_id(children_of(rows, parent_id), children_of(rows, parent_id).len() as int, rows[i].id)
            == (if parent_id == rows[i].parent_id {
            1nat
        } else {
            0nat
        }),
{
    let kids = children_of(rows, parent_id);
    let id = rows[i].id;
    lemma_children_membership(rows, parent_id);
    lemma_children_no_dup(rows, parent_id);
    if parent_id == rows[i].parent_id {
        lemma_children_contains(rows, parent_id, i);
        let t = choose|t: int| 0 <= t < kids.len() && #[trigger] kids[t] == rows[i];
        assert forall|k: int| 0 <= k < kids.len() && k != t implies (#[trigger] kids[k]).id
            != id by {
            if k < t {
                assert(kids[k].id != kids[t].id);
            } else {
                assert(kids[t].id != kids[k].id);
            }
        }
        lemma_cnt_one(kids, kids.len() as int, id, t);
    } else {
        assert forall|k: int| 0 <= k < kids.len() implies (#[trigger] kids[k]).id != id by {
            let m = choose|m: int| 0 <= m < rows.len() && rows[m] == kids[k];
            if m == i {
                assert(kids[k].parent_id == parent_id);
            } else if m < i {
                assert(rows[m].id != rows[i].id);
            } else {
                assert(rows[i].id != rows[m].id);
            }
        }
        lemma_cnt_zero(kids, kids.len() as int, id);
    }
}

/// The root query is the only one a walk ever issues for `None`.
proof fn lemma_visits_none(rows: Seq<CategoryRow>, parent_id: Option<i64>)
    requires
        rows_wf(rows),
    ensures
        visits(rows, parent_id, Option::None) == (if parent_id is None {
            1nat
        } else {
            0nat
        }),
    decreases rows.len() + 1 - rank(rows, parent_id), children_of(rows, parent_id).len() + 1,
{
    lemma_visits_none_kids(rows, parent_id, children_of(rows, parent_id).len() as int);
}

/// No walk below a child ever issues the query `None`.
proof fn lemma_visits_none_kids(rows: Seq<CategoryRow>, parent_id: Option<i64>, j: int)
    requires
        rows_wf(rows),
        0 <= j <= children_of(rows, parent_id).len(),
    ensures
        visits_kids(rows, parent_id, Option::None, j) == 0,
    decreases rows.len() + 1 - rank(rows, parent_id), j,
{
    if j > 0 {
        lemma_visits_none_kids(rows, parent_id, j - 1);
        lemma_child_rank(rows, parent_id, j - 1);
        let kid = children_of(rows, parent_id)[j - 1];
        lemma_visits_none(rows, Option::Some(kid.id));
    }
}

/// A walk issues the query of the row at `i` exactly as often as it
/// issues the query of that row's parent — plus once when the walk
/// starts at the row's own query.
proof fn lemma_push_up(rows: Seq<CategoryRow>, parent_id: Option<i64>, i: int)
    requires
        rows_wf(rows),
        0 <= i < rows.len(),
    ensures
        visits(rows, parent_id, Option::Some(rows[i].id)) == (if parent_id == Option::Some(
            rows[i].id,
        ) {
            1nat
        } else {
            0nat
        }) + visits(rows, parent_id, rows[i].parent_id),
    decreases rows.len() + 1 - rank(rows, parent_id), children_of(rows, parent_id).len() + 1,
{
    lemma_cnt_children(rows, parent_id, i);
    lemma_push_up_kids(rows, parent_id, i, children_of(rows, parent_id).len() as int);
}

/// As `lemma_push_up`, for the walks below the first `j` children: the
/// occurrences of the row's own query below them are the occurrences of
/// the row itself among and below them.
proof fn lemma_push_up_kids(rows: Seq<CategoryRow>, parent_id: Option<i64>, i: int, j: int)
    requires
        rows_wf(rows),
        0 <= i < rows.len(),
        0 <= j <= children_of(rows, parent_id).len(),
    ensures
        visits_kids(rows, parent_id, Option::Some(rows[i].id), j) == cnt_id(
            children_of(rows, parent_id),
            j,
            rows[i].id,
        ) + visits_kids(rows, parent_id, rows[i].parent_id, j),
    decreases rows.len() + 1 - rank(rows, parent_id), j,
{
    if j > 0 {
        lemma_push_up_kids(rows, parent_id, i, j - 1);
        lemma_child_rank(rows, parent_id, j - 1);
        let kid = children_of(rows, parent_id)[j - 1];
        lemma_push_up(rows, Option::Some(kid.id), i);
    }
}

/// In a well-formed row set, the whole walk from the roots issues each
/// row's query exactly once: every row is materialized exactly once.
proof fn lemma_mult_one(rows: Seq<CategoryRow>, i: int)
    requires
        rows_wf(rows),
        0 <= i < rows.len(),
    ensures
        visits(rows, Option::None, Option::Some(rows[i].id)) == 1,
    decreases i,
{
    lemma_push_up(rows, Option::None, i);
    match rows[i].parent_id {
        Option::None => {
            lemma_visits_none(rows, Option::None);
        },
        Option::Some(p) => {
            let j = choose|j: int| 0 <= j < i && #[trigger] rows[j].id == p;
            lemma_mult_one(rows, j);
        },
    }
}

/// Removing the last row removes exactly one visited row from the walk
/// at `parent_id`: the last row is a leaf, visited once per issue of its
/// parent's query.
proof fn lemma_drop_count(rows: Seq<CategoryRow>, parent_id: Option<i64>)
    requires
        rows_wf(rows),
        rows.len() >= 1,
    ensures
        subtree_count(rows, parent_id) == subtree_count(rows.drop_last(), parent_id) + visits(
            rows.drop_last(),
            parent_id,
            rows.last().parent_id,
        ),
    decreases rows.drop_last().len() + 1 - rank(rows.drop_last(), parent_id),
        children_of(rows.drop_last(), parent_id).len() + 1,
{
    let prev = rows.drop_last();
    lemma_wf_drop_last(rows);
    let r = rows.last();
    let kp = children_of(prev, parent_id);
    lemma_drop_count_kids(rows, parent_id, kp.len() as int);
    if r.parent_id == parent_id {
        assert(children_of(rows, parent_id) == kp.push(r));
        assert(children_of(rows, parent_id)[kp.len() as int] == r);
        assert forall|m: int| 0 <= m < rows.len() implies (#[trigger] rows[m]).parent_id
            != Option::Some(r.id) by {
            if rows[m].parent_id == Option::Some(r.id) {
                let j = choose|j: int| 0 <= j < m && #[trigger] rows[j].id == r.id;
                assert(rows[rows.len() - 1] == r);
                assert(rows[j].id != rows[rows.len() - 1].id);
            }
        }
        lemma_children_empty(rows, Option::Some(r.id));
        assert(subtree_count(rows, Option::Some(r.id)) == 0);
    } else {
        assert(children_of(rows, parent_id) == kp);
    }
}

/// As `lemma_drop_count`, for the walks below the first `j` children,
/// which the removal leaves in place.
proof fn lemma_drop_count_kids(rows: Seq<CategoryRow>, parent_id: Option<i64>, j: int)
    requires
        rows_wf(rows),
        rows.len() >= 1,
        0 <= j <= children_of(rows.drop_last(), parent_id).len(),
    ensures
        kids_count(rows, parent_id, j) == kids_count(rows.drop_last(), parent_id, j)
            + visits_kids(rows.drop_last(), parent_id, rows.last().parent_id, j),
    decreases rows.drop_last().len() + 1 - rank(rows.drop_last(), parent_id), j,
{
    let prev = rows.drop_last();
    lemma_wf_drop_last(rows);
    if j > 0 {
        lemma_drop_count_kids(rows, parent_id, j - 1);
        let kid = children_of(prev, parent_id)[j - 1];
        if rows.last().parent_id == parent_id {
            assert(children_of(rows, parent_id) == children_of(prev, parent_id).push(
                rows.last(),
            ));
            assert(children_of(rows, parent_id)[j - 1] == kid);
        } else {
            assert(children_of(rows, parent_id) == children_of(prev, parent_id));
        }
        lemma_child_rank(prev, parent_id, j - 1);
        lemma_drop_count(rows, Option::Some(kid.id));
    }
}

/// The whole walk from the roots of a well-formed row set visits every
/// stored row exactly once.
proof fn lemma_total(rows: Seq<CategoryRow>)
    requires
        rows_wf(rows),
    ensures
        subtree_count(rows, Option::None) == rows.len(),
    decreases rows.len(),
{
    if rows.len() > 0 {
        let prev = rows.drop_last();
        lemma_wf_drop_last(rows);
        lemma_drop_count(rows, Option::None);
        lemma_total(prev);
        let n = rows.len() - 1;
        assert(rows.last() == rows[n]);
        match rows.last().parent_id {
            Option::None => {
                lemma_visits_none(prev, Option::None);
            },
            Option::Some(p) => {
                let j = choose|j: int| 0 <= j < n && #[trigger] rows[j].id == p;
                assert(prev[j] == rows[j]);
                lemma_mult_one(prev, j);
            },
        }
    }
}

/// Law: for a well-formed row set, materializing the whole store yields
/// a forest with exactly one node per stored row. Together with
/// `forest_matches` — the builder's postcondition, which makes each
/// node's children exactly the rows referencing that node's row — this
/// pins the forest to the stored parent and child relationships.
pub proof fn lemma_node_count(rows: Seq<CategoryRow>, forest: Seq<CategoryNode>)
    requires
        rows_wf(rows),
        forest_matches(rows, Option::None, forest),
    ensures
        forest_size(forest) == rows.len(),
{
    lemma_size_matches(rows, Option::None, forest, forest.len() as int);
    lemma_total(rows);
}

} // verus!
