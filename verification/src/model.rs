//! Data model: persisted rows, transient tree nodes, users, and the
//! spec-level view of a row set.

use vstd::prelude::*;

verus! {

/// One persisted category: a flat row with a nullable parent reference.
/// `parent_id == None` marks a root category. The store assigns `id`.
pub struct CategoryRow {
    pub id: i64,
    pub name: String,
    pub display_name: String,
    pub parent_id: Option<i64>,
}

impl CategoryRow {
    /// Copies the row field by field; the copy equals the original.
    pub fn duplicate(&self) -> (r: CategoryRow)
        ensures
            r == *self,
    {
        CategoryRow {
            id: self.id,
            name: self.name.clone(),
            display_name: self.display_name.clone(),
            parent_id: self.parent_id,
        }
    }
}

/// One node of the materialized category tree. Built fresh per listing;
/// carries no identifiers, only the display data and the nested children.
#[derive(PartialEq, Eq)]
pub struct CategoryNode {
    pub name: String,
    pub display_name: String,
    pub children: Vec<CategoryNode>,
}

/// A flat user record; created once, no lifecycle beyond the insert.
/// `id` is assigned by the store; `user_id` is the caller-supplied
/// business identifier and is kept apart from the store id.
#[derive(PartialEq, Eq)]
pub struct User {
    pub id: Option<i64>,
    pub email: String,
    pub first_name: String,
    pub last_name: String,
    pub access_token: String,
    pub user_id: i64,
}

/// The error kinds of the persistence boundary.
#[derive(Clone, Copy, Debug, PartialEq, Eq, Structural)]
pub enum StoreError {
    /// Connection or query failure while reading.
    StoreUnavailable,
    /// An insert failed, e.g. an unknown parent row was referenced.
    PersistenceError,
}

/// All row ids are pairwise distinct.
pub open spec fn unique_ids(rows: Seq<CategoryRow>) -> bool {
    forall|i: int, j: int|
        0 <= i < j < rows.len() ==> #[trigger] rows[i].id != #[trigger] rows[j].id
}

/// Every non-root row references a parent that stands earlier in the row
/// sequence. Rows enter the store in insertion order, so this holds exactly
/// when every insert referenced an already existing parent; it rules out
/// cycles in the parent graph.
pub open spec fn parents_linked(rows: Seq<CategoryRow>) -> bool {
    forall|i: int|
        0 <= i < rows.len() ==> match #[trigger] rows[i].parent_id {
            Option::None => true,
            Option::Some(p) => exists|j: int| 0 <= j < i && #[trigger] rows[j].id == p,
        }
}

/// A well-formed row set: distinct ids, and an acyclic parent graph given
/// by parents standing earlier than their children.
pub open spec fn rows_wf(rows: Seq<CategoryRow>) -> bool {
    unique_ids(rows) && parents_linked(rows)
}

/// The direct children of `parent_id`, in row (insertion) order.
pub open spec fn children_of(rows: Seq<CategoryRow>, parent_id: Option<i64>) -> Seq<CategoryRow>
    decreases rows.len(),
{
    if rows.len() == 0 {
        Seq::empty()
    } else {
        let rest = children_of(rows.drop_last(), parent_id);
        if rows.last().parent_id == parent_id {
            rest.push(rows.last())
        } else {
            rest
        }
    }
}

/// Some row carries this id.
pub open spec fn has_id(rows: Seq<CategoryRow>, id: i64) -> bool {
    exists|j: int| 0 <= j < rows.len() && #[trigger] rows[j].id == id
}

/// The index of the row with this id; `rows.len()` when no row has it.
/// With `unique_ids` the witness is unique, so this is the row's position.
pub open spec fn idx_of_id(rows: Seq<CategoryRow>, id: i64) -> int {
    if has_id(rows, id) {
        choose|j: int| 0 <= j < rows.len() && #[trigger] rows[j].id == id
    } else {
        rows.len() as int
    }
}

/// A well-founded rank for listing queries: roots first, then each row's
/// query ranked one past the row's position. In a well-formed row set every
/// child query ranks strictly above its parent's query, which bounds the
/// recursion of the tree builder.
pub open spec fn rank(rows: Seq<CategoryRow>, parent_id: Option<i64>) -> int {
    match parent_id {
        Option::None => 0,
        Option::Some(p) => idx_of_id(rows, p) + 1,
    }
}

/// The referenced parent exists (vacuously true for roots).
pub open spec fn parent_ok(rows: Seq<CategoryRow>, parent_id: Option<i64>) -> bool {
    match parent_id {
        Option::None => true,
        Option::Some(p) => has_id(rows, p),
    }
}

} // verus!
