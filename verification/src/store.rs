//! The persistence boundary: an in-memory category store and user store.
//!
//! The stores assign ids on insert and keep insertion order, and the
//! category store refuses an insert whose parent reference matches no
//! existing row, so a category store is well formed by construction.
//! An availability flag models connectivity loss: while a store is
//! unavailable every read and insert fails with `StoreUnavailable`.

use vstd::prelude::*;

use crate::model::{
    children_of, has_id, parent_ok, rows_wf, CategoryRow, StoreError, User,
};

verus! {

/// In-memory category store: rows in insertion order, a fresh-id counter,
/// and an availability flag.
pub struct CategoryStore {
    rows: Vec<CategoryRow>,
    next_id: i64,
    available: bool,
}

impl CategoryStore {
    /// The stored rows, in insertion order.
    pub closed spec fn rows(self) -> Seq<CategoryRow> {
        self.rows@
    }

    /// Whether the store can currently be reached.
    pub closed spec fn is_available(self) -> bool {
        self.available
    }

    /// The next id the store will assign.
    pub closed spec fn id_ceiling(self) -> i64 {
        self.next_id
    }

    /// A fresh id can still be assigned.
    pub open spec fn has_capacity(self) -> bool {
        self.id_ceiling() < i64::MAX
    }

    /// Store invariant: the rows are well formed and every id lies below
    /// the fresh-id counter.
    pub closed spec fn wf(self) -> bool {
        &&& rows_wf(self.rows@)
        &&& forall|i: int| 0 <= i < self.rows@.len() ==> #[trigger] self.rows@[i].id < self.next_id
        &&& 0 < self.next_id
    }

    /// A well-formed store holds a well-formed row set.
    pub proof fn lemma_wf_rows(self)
        requires
            self.wf(),
        ensures
            rows_wf(self.rows()),
    {
    }

    /// An empty, reachable store.
    pub fn new() -> (s: CategoryStore)
        ensures
            s.wf(),
            s.rows().len() == 0,
            s.is_available(),
            s.id_ceiling() == 1,
    {
        CategoryStore { rows: Vec::new(), next_id: 1, available: true }
    }

    /// Models gaining or losing store connectivity; the rows are untouched.
    pub fn set_available(&mut self, available: bool)
        ensures
            final(self).rows() == old(self).rows(),
            final(self).is_available() == available,
            final(self).wf() == old(self).wf(),
            final(self).id_ceiling() == old(self).id_ceiling(),
    {
        self.available = available;
    }

    /// Whether some row carries this id.
    pub fn contains_id(&self, id: i64) -> (found: bool)
        ensures
            found == has_id(self.rows(), id),
    {
        let mut i: usize = 0;
        while i < self.rows.len()
            invariant
                i <= self.rows@.len(),
                forall|j: int| 0 <= j < i ==> #[trigger] self.rows@[j].id != id,
            decreases self.rows@.len() - i,
        {
            if self.rows[i].id == id {
                return true;
            }
            i = i + 1;
        }
        false
    }

    /// Inserts one category row. Assigns and returns a fresh id; the new
    /// row is appended behind the existing rows. Fails with
    /// `StoreUnavailable` when the store cannot be reached, and with
    /// `PersistenceError` when the parent reference matches no row or no
    /// fresh id is left.
    pub fn create(
        &mut self,
        name: String,
        display_name: String,
        parent_id: Option<i64>,
    ) -> (r: Result<i64, StoreError>)
        requires
            old(self).wf(),
        ensures
            final(self).wf(),
            final(self).is_available() == old(self).is_available(),
            r is Ok <==> (old(self).is_available() && parent_ok(old(self).rows(), parent_id)
                && old(self).has_capacity()),
            match r {
                Ok(id) => {
                    &&& id == old(self).id_ceiling()
                    &&& final(self).id_ceiling() == old(self).id_ceiling() + 1
                    &&& !has_id(old(self).rows(), id)
                    &&& final(self).rows() == old(self).rows().push(
                        CategoryRow { id, name, display_name, parent_id },
                    )
                },
                Err(e) => {
                    &&& final(self).rows() == old(self).rows()
                    &&& final(self).id_ceiling() == old(self).id_ceiling()
                    &&& (e == StoreError::StoreUnavailable <==> !old(self).is_available())
                },
            },
    {
        if !self.available {
            return Err(StoreError::StoreUnavailable);
        }
        if self.next_id == i64::MAX {
            return Err(StoreError::PersistenceError);
        }
        let ok = match parent_id {
            Option::Some(p) => self.contains_id(p),
            Option::None => true,
        };
        if !ok {
            return Err(StoreError::PersistenceError);
        }
        let id = self.next_id;
        self.next_id = self.next_id + 1;
        proof {
            assert forall|j: int| 0 <= j < self.rows@.len() implies #[trigger] self.rows@[j].id
                != id by {}
        }
        let row = CategoryRow { id, name, display_name, parent_id };
        self.rows.push(row);
        proof {
            let prev = old(self).rows();
            let rows = self.rows@;
            let n = rows.len() - 1;
            assert(rows == prev.push(row));
            assert forall|i: int| 0 <= i < rows.len() implies match #[trigger] rows[i].parent_id {
                Option::None => true,
                Option::Some(p) => exists|j: int| 0 <= j < i && #[trigger] rows[j].id == p,
            } by {
                if i < n {
                    assert(rows[i] == prev[i]);
                    match rows[i].parent_id {
                        Option::None => {},
                        Option::Some(p) => {
                            let j = choose|j: int| 0 <= j < i && #[trigger] prev[j].id == p;
                            assert(rows[j] == prev[j]);
                            assert(0 <= j < i && rows[j].id == p);
                        },
                    }
                } else {
                    assert(rows[n] == row);
                    match rows[n].parent_id {
                        Option::None => {},
                        Option::Some(p) => {
                            assert(has_id(prev, p));
                            let j = choose|j: int|
                                0 <= j < prev.len() && #[trigger] prev[j].id == p;
                            assert(rows[j] == prev[j]);
                            assert(0 <= j < n && rows[j].id == p);
                        },
                    }
                }
            }
        }
        Ok(id)
    }

    /// Returns the direct children of `parent_id` (all roots for `None`),
    /// in store order. Fails with `StoreUnavailable` exactly when the
    /// store cannot be reached; an empty result is not an error.
    pub fn list_by_parent(&self, parent_id: Option<i64>) -> (r: Result<
        Vec<CategoryRow>,
        StoreError,
    >)
        ensures
            match r {
                Ok(kids) => self.is_available() && kids@ == children_of(self.rows(), parent_id),
                Err(e) => !self.is_available() && e == StoreError::StoreUnavailable,
            },
    {
        if !self.available {
            return Err(StoreError::StoreUnavailable);
        }
        let mut kids: Vec<CategoryRow> = Vec::new();
        let mut i: usize = 0;
        while i < self.rows.len()
            invariant
                i <= self.rows@.len(),
                kids@ == children_of(self.rows@.take(i as int), parent_id),
            decreases self.rows@.len() - i,
        {
            proof {
                assert(self.rows@.take(i + 1 as int).drop_last() =~= self.rows@.take(i as int));
                assert(self.rows@.take(i + 1 as int).last() == self.rows@[i as int]);
            }
            let row = &self.rows[i];
            let same_parent = match (row.parent_id, parent_id) {
                (Option::None, Option::None) => true,
                (Option::Some(a), Option::Some(b)) => a == b,
                _ => false,
            };
            if same_parent {
                kids.push(row.duplicate());
            }
            i = i + 1;
        }
        proof {
            assert(self.rows@.take(self.rows@.len() as int) =~= self.rows@);
        }
        Ok(kids)
    }
}

/// In-memory user store: flat records in insertion order.
pub struct UserStore {
    users: Vec<User>,
    next_id: i64,
    available: bool,
}

impl UserStore {
    /// The stored users, in insertion order.
    pub closed spec fn users(self) -> Seq<User> {
        self.users@
    }

    /// Whether the store can currently be reached.
    pub closed spec fn is_available(self) -> bool {
        self.available
    }

    /// The next id the store will assign.
    pub closed spec fn id_ceiling(self) -> i64 {
        self.next_id
    }

    /// A fresh id can still be assigned.
    pub open spec fn has_capacity(self) -> bool {
        self.id_ceiling() < i64::MAX
    }

    /// An empty, reachable store.
    pub fn new() -> (s: UserStore)
        ensures
            s.users().len() == 0,
            s.is_available(),
            s.id_ceiling() == 1,
    {
        UserStore { users: Vec::new(), next_id: 1, available: true }
    }

    /// Models gaining or losing store connectivity; the users are untouched.
    pub fn set_available(&mut self, available: bool)
        ensures
            final(self).users() == old(self).users(),
            final(self).is_available() == available,
            final(self).id_ceiling() == old(self).id_ceiling(),
    {
        self.available = available;
    }

    /// Inserts one user built from the given fields, with a fresh store id;
    /// returns that id. The caller-supplied business `user_id` is stored as
    /// given, apart from the assigned id. Fails with `StoreUnavailable`
    /// when the store cannot be reached, and with `PersistenceError` when
    /// no fresh id is left.
    pub fn create_user(
        &mut self,
        email: String,
        first_name: String,
        last_name: String,
        access_token: String,
        user_id: i64,
    ) -> (r: Result<i64, StoreError>)
        ensures
            final(self).is_available() == old(self).is_available(),
            r is Ok <==> (old(self).is_available() && old(self).has_capacity()),
            match r {
                Ok(id) => {
                    &&& id == old(self).id_ceiling()
                    &&& final(self).id_ceiling() == old(self).id_ceiling() + 1
                    &&& final(self).users() == old(self).users().push(
                        User {
                            id: Some(id),
                            email,
                            first_name,
                            last_name,
                            access_token,
                            user_id,
                        },
                    )
                },
                Err(e) => {
                    &&& final(self).users() == old(self).users()
                    &&& final(self).id_ceiling() == old(self).id_ceiling()
                    &&& (e == StoreError::StoreUnavailable <==> !old(self).is_available())
                },
            },
    {
        if !self.available {
            return Err(StoreError::StoreUnavailable);
        }
        if self.next_id == i64::MAX {
            return Err(StoreError::PersistenceError);
        }
        let id = self.next_id;
        self.next_id = self.next_id + 1;
        self.users.push(
            User { id: Some(id), email, first_name, last_name, access_token, user_id },
        );
        Ok(id)
    }
}

} // verus!
