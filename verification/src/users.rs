//! The owning principal and its repository.

use vstd::prelude::*;

use crate::store::StoreError;

verus! {

/// The identity anchor: rows are created with store-assigned identifiers and
/// never change afterwards.
#[derive(Debug, Clone, Copy, PartialEq, Eq, Structural)]
pub struct User {
    pub id: i32,
}

/// The users table. Identifiers are assigned serially from 1, so the row
/// with identifier `i` sits at index `i - 1`.
pub struct UsersRepo {
    pub rows: Vec<User>,
}

impl UsersRepo {
    pub open spec fn wf(self) -> bool {
        &&& self.rows@.len() <= i32::MAX as int
        &&& forall|i: int|
            0 <= i < self.rows@.len() ==> (#[trigger] self.rows@[i]).id as int == i + 1
    }

    pub fn new() -> (r: UsersRepo)
        ensures
            r.wf(),
            r.rows@.len() == 0,
    {
        UsersRepo { rows: Vec::new() }
    }

    /// Insert a new user; the store assigns the next serial identifier.
    pub fn create(&mut self) -> (r: Result<User, StoreError>)
        requires
            old(self).wf(),
        ensures
            final(self).wf(),
            r is Ok <==> old(self).rows@.len() < i32::MAX as int,
            match r {
                Ok(u) => {
                    &&& final(self).rows@ == old(self).rows@.push(u)
                    &&& u.id as int == old(self).rows@.len() + 1
                },
                Err(e) => {
                    &&& final(self).rows@ == old(self).rows@
                    &&& e == StoreError::Full
                },
            },
    {
        if self.rows.len() < i32::MAX as usize {
            let id = self.rows.len() as i32 + 1;
            let u = User { id };
            self.rows.push(u);
            Ok(u)
        } else {
            Err(StoreError::Full)
        }
    }

    /// Look a user up by identifier; absent rows surface as `NotFound`.
    pub fn find(&self, id: i32) -> (r: Result<User, StoreError>)
        requires
            self.wf(),
        ensures
            r is Ok <==> 1 <= id as int <= self.rows@.len(),
            match r {
                Ok(u) => u.id == id && self.rows@.contains(u),
                Err(e) => e == StoreError::NotFound,
            },
    {
        if id >= 1 && id as usize <= self.rows.len() {
            let u = self.rows[id as usize - 1];
            proof {
                assert(self.rows@[id as int - 1] == u);
            }
            Ok(u)
        } else {
            Err(StoreError::NotFound)
        }
    }
}

} // verus!
