//! The tree builder: materializes the nested category forest from the
//! flat rows of a category store.
//!
//! `forest_matches` is the specification of the builder's output: the
//! forest under a parent has one node per direct child row, in store
//! order, and each node carries that row's display data and, recursively,
//! the forest of the row's own children.

use vstd::prelude::*;

use crate::model::{
    children_of, has_id, idx_of_id, rank, rows_wf, unique_ids, CategoryNode, CategoryRow,
    StoreError,
};
use crate::store::CategoryStore;

verus! {

/// The node presents exactly this row: same display data, and children
/// that present exactly the rows whose parent reference is this row's id.
pub open spec fn node_matches(rows: Seq<CategoryRow>, row: CategoryRow, node: CategoryNode) -> bool
    decreases node,
{
    &&& node.name@ == row.name@
    &&& node.display_name@ == row.display_name@
    &&& forest_matches(rows, Option::Some(row.id), node.children@)
}

/// The forest presents exactly the direct children of `parent_id`:
/// equal length, and the k-th node presents the k-th child row.
pub open spec fn forest_matches(
    rows: Seq<CategoryRow>,
    parent_id: Option<i64>,
    forest: Seq<CategoryNode>,
) -> bool
    decreases forest,
{
    &&& forest.len() == children_of(rows, parent_id).len()
    &&& forall|k: int|
        0 <= k < forest.len() ==> node_matches(
            rows,
            children_of(rows, parent_id)[k],
            #[trigger] forest[k],
        )
}

/// Every entry of a children listing is a stored row carrying the queried
/// parent reference.
pub proof fn lemma_children_membership(rows: Seq<CategoryRow>, parent_id: Option<i64>)
    ensures
        forall|k: int|
            0 <= k < children_of(rows, parent_id).len() ==> exists|m: int|
                0 <= m < rows.len() && rows[m] == #[trigger] children_of(rows, parent_id)[k],
        forall|k: int|
            0 <= k < children_of(rows, parent_id).len() ==> (#[trigger] children_of(
                rows,
                parent_id,
            )[k]).parent_id == parent_id,
    decreases rows.len(),
{
    if rows.len() > 0 {
        let prev = rows.drop_last();
        lemma_children_membership(prev, parent_id);
        let kids = children_of(rows, parent_id);
        let rest = children_of(prev, parent_id);
        assert forall|k: int| 0 <= k < kids.len() implies exists|m: int|
            0 <= m < rows.len() && rows[m] == #[trigger] kids[k] by {
            if k < rest.len() {
                let m = choose|m: int| 0 <= m < prev.len() && prev[m] == rest[k];
                assert(rows[m] == prev[m]);
                assert(kids[k] == rest[k]);
            } else {
                assert(kids[k] == rows.last());
                assert(rows[rows.len() - 1] == rows.last());
            }
        }
        assert forall|k: int| 0 <= k < kids.len() implies (#[trigger] kids[k]).parent_id
            == parent_id by {
            if k < rest.len() {
                assert(kids[k] == rest[k]);
            } else {
                assert(kids[k] == rows.last());
            }
        }
    }
}

/// A stored row with the queried parent reference appears in the listing.
pub proof fn lemma_children_contains(rows: Seq<CategoryRow>, parent_id: Option<i64>, i: int)
    requires
        0 <= i < rows.len(),
        rows[i].parent_id == parent_id,
    ensures
        exists|t: int|
            0 <= t < children_of(rows, parent_id).len() && #[trigger] children_of(
                rows,
                parent_id,
            )[t] == rows[i],
    decreases rows.len(),
{
    let kids = children_of(rows, parent_id);
    let prev = rows.drop_last();
    let rest = children_of(prev, parent_id);
    if i == rows.len() - 1 {
        assert(rows.last() == rows[i]);
        assert(kids[rest.len() as int] == rows[i]);
    } else {
        assert(prev[i] == rows[i]);
        lemma_children_contains(prev, parent_id, i);
        let t = choose|t: int| 0 <= t < rest.len() && #[trigger] rest[t] == prev[i];
        assert(kids[t] == rest[t]);
    }
}

/// When no stored row carries the queried parent reference, the listing
/// is empty.
pub proof fn lemma_children_empty(rows: Seq<CategoryRow>, parent_id: Option<i64>)
    requires
        forall|m: int| 0 <= m < rows.len() ==> (#[trigger] rows[m]).parent_id != parent_id,
    ensures
        children_of(rows, parent_id).len() == 0,
    decreases rows.len(),
{
    if rows.len() > 0 {
        let prev = rows.drop_last();
        assert forall|m: int| 0 <= m < prev.len() implies (#[trigger] prev[m]).parent_id
            != parent_id by {
            assert(prev[m] == rows[m]);
        }
        lemma_children_empty(prev, parent_id);
        assert(rows.last() == rows[rows.len() - 1]);
    }
}

/// When exactly one stored row carries the queried parent reference, the
/// listing holds exactly that row.
pub proof fn lemma_children_single(rows: Seq<CategoryRow>, parent_id: Option<i64>, t: int)
    requires
        0 <= t < rows.len(),
        rows[t].parent_id == parent_id,
        forall|m: int|
            0 <= m < rows.len() && m != t ==> (#[trigger] rows[m]).parent_id != parent_id,
    ensures
        children_of(rows, parent_id) == seq![rows[t]],
    decreases rows.len(),
{
    let prev = rows.drop_last();
    if t == rows.len() - 1 {
        assert forall|m: int| 0 <= m < prev.len() implies (#[trigger] prev[m]).parent_id
            != parent_id by {
            assert(prev[m] == rows[m]);
        }
        lemma_children_empty(prev, parent_id);
        assert(rows.last() == rows[t]);
        assert(children_of(rows, parent_id) =~= seq![rows[t]]);
    } else {
        assert(prev[t] == rows[t]);
        assert forall|m: int| 0 <= m < prev.len() && m != t implies (#[trigger] prev[m]).parent_id
            != parent_id by {
            assert(prev[m] == rows[m]);
        }
        lemma_children_single(prev, parent_id, t);
        assert(rows.last() == rows[rows.len() - 1]);
        assert(children_of(rows, parent_id) == children_of(prev, parent_id));
    }
}

/// In a set of rows with distinct ids, the position of a row's id is the
/// row's own index.
pub proof fn lemma_idx_of_own_id(rows: Seq<CategoryRow>, i: int)
    requires
        unique_ids(rows),
        0 <= i < rows.len(),
    ensures
        idx_of_id(rows, rows[i].id) == i,
{
    assert(has_id(rows, rows[i].id));
    let j = choose|j: int| 0 <= j < rows.len() && #[trigger] rows[j].id == rows[i].id;
    if j < i {
        assert(rows[j].id != rows[i].id);
    } else if i < j {
        assert(rows[i].id != rows[j].id);
    }
}

/// In a well-formed row set, the listing query of a child ranks strictly
/// above its parent's query, and no query ranks above the row count.
/// This bounds the recursion of the tree builder.
pub proof fn lemma_child_rank(rows: Seq<CategoryRow>, parent_id: Option<i64>, k: int)
    requires
        rows_wf(rows),
        0 <= k < children_of(rows, parent_id).len(),
    ensures
        rank(rows, parent_id) < rank(
            rows,
            Option::Some(children_of(rows, parent_id)[k].id),
        ) <= rows.len(),
{
    lemma_children_membership(rows, parent_id);
    let kid = children_of(rows, parent_id)[k];
    let m = choose|m: int| 0 <= m < rows.len() && rows[m] == kid;
    lemma_idx_of_own_id(rows, m);
    assert(rank(rows, Option::Some(kid.id)) == m + 1);
    match parent_id {
        Option::None => {},
        Option::Some(p) => {
            assert(rows[m].parent_id == Option::Some(p));
            let j = choose|j: int| 0 <= j < m && #[trigger] rows[j].id == p;
            lemma_idx_of_own_id(rows, j);
            assert(rank(rows, parent_id) == j + 1);
        },
    }
}

/// Dropping the last row keeps a row set well formed.
pub proof fn lemma_wf_drop_last(rows: Seq<CategoryRow>)
    requires
        rows_wf(rows),
        rows.len() > 0,
    ensures
        rows_wf(rows.drop_last()),
{
    let prev = rows.drop_last();
    assert forall|i: int| 0 <= i < prev.len() implies match #[trigger] prev[i].parent_id {
        Option::None => true,
        Option::Some(p) => exists|j: int| 0 <= j < i && #[trigger] prev[j].id == p,
    } by {
        assert(prev[i] == rows[i]);
        match prev[i].parent_id {
            Option::None => {},
            Option::Some(p) => {
                let j = choose|j: int| 0 <= j < i && #[trigger] rows[j].id == p;
                assert(prev[j] == rows[j]);
                assert(0 <= j < i && prev[j].id == p);
            },
        }
    }
}

/// Builds the category forest under `parent_id` (the full forest for
/// `None`), reading the store once per node, depth first. The output
/// presents exactly the live parent and child relationships: see
/// `forest_matches`. A storage failure aborts the whole listing with
/// `StoreUnavailable` and no partial output is returned.
pub fn build_tree(store: &CategoryStore, parent_id: Option<i64>) -> (r: Result<
    Vec<CategoryNode>,
    StoreError,
>)
    requires
        store.wf(),
    ensures
        match r {
            Ok(forest) => store.is_available() && forest_matches(
                store.rows(),
                parent_id,
                forest@,
            ),
            Err(e) => !store.is_available() && e == StoreError::StoreUnavailable,
        },
    decreases store.rows().len() + 1 - rank(store.rows(), parent_id),
{
    let kids = match store.list_by_parent(parent_id) {
        Ok(kids) => kids,
        Err(e) => {
            return Err(e);
        },
    };
    let mut forest: Vec<CategoryNode> = Vec::new();
    let mut i: usize = 0;
    while i < kids.len()
        invariant
            store.wf(),
            store.is_available(),
            kids@ == children_of(store.rows(), parent_id),
            i <= kids@.len(),
            forest@.len() == i,
            forall|k: int|
                0 <= k < i ==> node_matches(store.rows(), kids@[k], #[trigger] forest@[k]),
        decreases kids@.len() - i,
    {
        proof {
            store.lemma_wf_rows();
            lemma_child_rank(store.rows(), parent_id, i as int);
        }
        let row = &kids[i];
        let children = match build_tree(store, Some(row.id)) {
            Ok(children) => children,
            Err(e) => {
                return Err(e);
            },
        };
        let node = CategoryNode {
            name: row.name.clone(),
            display_name: row.display_name.clone(),
            children,
        };
        forest.push(node);
        i = i + 1;
    }
    Ok(forest)
}

} // verus!
