//! Activities: named categories owned by a user, optionally nested under a
//! parent activity, with an idempotent find-or-create entry point.
//!
//! Within one `(user, parent)` scope, normalized names are unique: that
//! uniqueness is the constraint every insert is checked against, and the
//! backstop that makes `find_or_create` converge to a single row.

use vstd::prelude::*;

use crate::store::{lemma_filter_push, opt_id_eq, StoreError};
use crate::text::{norm, norm_eq, trim_seq, trimmed};
use crate::users::User;

verus! {

/// A named category. `parent_id`, when present, references another activity
/// row with a smaller identifier, so the rows form a forest.
#[derive(Debug)]
pub struct Activity {
    pub id: i32,
    pub user_id: i32,
    pub name: String,
    pub parent_id: Option<i32>,
}

impl Activity {
    /// A field-for-field copy of the row.
    pub fn duplicate(&self) -> (r: Activity)
        ensures
            r == *self,
    {
        Activity {
            id: self.id,
            user_id: self.user_id,
            name: self.name.clone(),
            parent_id: self.parent_id,
        }
    }
}

/// What a caller supplies for an insert: the owner and the (not yet trimmed)
/// name.
#[derive(Debug)]
pub struct NewActivity {
    pub user_id: i32,
    pub name: String,
}

impl NewActivity {
    pub fn with(user_id: i32, name: &str) -> (r: NewActivity)
        ensures
            r.user_id == user_id,
            r.name@ == name@,
    {
        NewActivity { user_id, name: name.to_owned() }
    }
}

/// The identifier a given optional parent row contributes to a child.
pub open spec fn pid_of(parent: Option<&Activity>) -> Option<i32> {
    match parent {
        Some(p) => Some(p.id),
        None => None,
    }
}

/// Whether a row sits in the scope `(user_id, parent_id)` under the
/// normalized name `key`.
pub open spec fn matches_scope(
    a: Activity,
    user_id: i32,
    parent_id: Option<i32>,
    key: Seq<char>,
) -> bool {
    a.user_id == user_id && a.parent_id == parent_id && norm(a.name@) == key
}

/// Whether some row occupies the scope under the normalized name `key`.
pub open spec fn has_key(
    rows: Seq<Activity>,
    user_id: i32,
    parent_id: Option<i32>,
    key: Seq<char>,
) -> bool {
    exists|i: int|
        0 <= i < rows.len() && matches_scope(#[trigger] rows[i], user_id, parent_id, key)
}

/// Whether an optional parent reference is satisfiable against `len` rows:
/// serial identifiers make `1 ..= len` exactly the stored identifiers.
pub open spec fn parent_ok(parent_id: Option<i32>, len: int) -> bool {
    match parent_id {
        Some(p) => 1 <= p as int <= len,
        None => true,
    }
}

/// Well-formed activity rows: serial identifiers, parents that reference
/// earlier rows, and normalized-name uniqueness per `(user, parent)` scope.
pub open spec fn wf_rows(rows: Seq<Activity>) -> bool {
    &&& rows.len() <= i32::MAX as int
    &&& forall|i: int| 0 <= i < rows.len() ==> (#[trigger] rows[i]).id as int == i + 1
    &&& forall|i: int|
        0 <= i < rows.len() ==> parent_ok((#[trigger] rows[i]).parent_id, i)
    &&& forall|i: int, j: int|
        0 <= i < j < rows.len() && (#[trigger] rows[i]).user_id == (#[trigger] rows[j]).user_id
            && rows[i].parent_id == rows[j].parent_id ==> norm(rows[i].name@) != norm(
            rows[j].name@,
        )
}

/// What one successful `find_or_create` call does to the rows: either the
/// scope was occupied and nothing changes, or one trimmed row is appended.
pub open spec fn foc_post(
    rows0: Seq<Activity>,
    rows1: Seq<Activity>,
    name: Seq<char>,
    parent_id: Option<i32>,
    user_id: i32,
    a: Activity,
) -> bool {
    if has_key(rows0, user_id, parent_id, norm(name)) {
        &&& rows1 == rows0
        &&& rows0.contains(a)
        &&& matches_scope(a, user_id, parent_id, norm(name))
    } else {
        &&& rows1 == rows0.push(a)
        &&& a.id as int == rows0.len() + 1
        &&& a.user_id == user_id
        &&& a.name@ == trim_seq(name)
        &&& a.parent_id == parent_id
        &&& parent_ok(parent_id, rows0.len() as int)
    }
}

/// Index of the row occupying a scope, when one does; unique under
/// well-formed rows.
pub open spec fn key_idx(
    rows: Seq<Activity>,
    user_id: i32,
    parent_id: Option<i32>,
    key: Seq<char>,
) -> int {
    choose|i: int| 0 <= i < rows.len() && matches_scope(rows[i], user_id, parent_id, key)
}

/// Under well-formed rows, `key_idx` names the one row of its scope.
pub proof fn lemma_key_idx(rows: Seq<Activity>, user_id: i32, parent_id: Option<i32>, key: Seq<char>)
    requires
        wf_rows(rows),
        has_key(rows, user_id, parent_id, key),
    ensures
        0 <= key_idx(rows, user_id, parent_id, key) < rows.len(),
        matches_scope(rows[key_idx(rows, user_id, parent_id, key)], user_id, parent_id, key),
        forall|i: int|
            0 <= i < rows.len() && matches_scope(#[trigger] rows[i], user_id, parent_id, key)
                ==> i == key_idx(rows, user_id, parent_id, key),
{
    let i0 = choose|i: int|
        0 <= i < rows.len() && matches_scope(rows[i], user_id, parent_id, key);
    assert(0 <= i0 < rows.len() && matches_scope(rows[i0], user_id, parent_id, key));
}

/// Prefix extension of well-formed rows keeps a scope's row and its index.
pub proof fn lemma_key_idx_frame(
    rows: Seq<Activity>,
    rows2: Seq<Activity>,
    user_id: i32,
    parent_id: Option<i32>,
    key: Seq<char>,
)
    requires
        wf_rows(rows2),
        rows.is_prefix_of(rows2),
        has_key(rows, user_id, parent_id, key),
    ensures
        has_key(rows2, user_id, parent_id, key),
        key_idx(rows2, user_id, parent_id, key) == key_idx(rows, user_id, parent_id, key),
{
    let i0 = choose|i: int|
        0 <= i < rows.len() && matches_scope(rows[i], user_id, parent_id, key);
    assert(rows[i0] == rows2.subrange(0, rows.len() as int)[i0]);
    assert(matches_scope(rows2[i0], user_id, parent_id, key));
    lemma_key_idx(rows2, user_id, parent_id, key);
}

/// A key present in a prefix is present in the whole.
pub proof fn lemma_has_key_prefix(
    rows: Seq<Activity>,
    rows2: Seq<Activity>,
    user_id: i32,
    parent_id: Option<i32>,
    key: Seq<char>,
)
    requires
        rows.is_prefix_of(rows2),
        has_key(rows, user_id, parent_id, key),
    ensures
        has_key(rows2, user_id, parent_id, key),
{
    let i0 = choose|i: int|
        0 <= i < rows.len() && matches_scope(rows[i], user_id, parent_id, key);
    assert(rows[i0] == rows2.subrange(0, rows.len() as int)[i0]);
    assert(matches_scope(rows2[i0], user_id, parent_id, key));
}

/// One `find_or_create` step keeps the rows well formed.
pub proof fn lemma_foc_wf(
    rows0: Seq<Activity>,
    rows1: Seq<Activity>,
    name: Seq<char>,
    pid: Option<i32>,
    uid: i32,
    a: Activity,
)
    requires
        wf_rows(rows0),
        rows0.len() < i32::MAX as int,
        foc_post(rows0, rows1, name, pid, uid, a),
    ensures
        wf_rows(rows1),
{
    crate::text::lemma_norm_trim(name);
    if !has_key(rows0, uid, pid, norm(name)) {
        assert forall|i: int, j: int|
            0 <= i < j < rows1.len() && (#[trigger] rows1[i]).user_id == (
            #[trigger] rows1[j]).user_id && rows1[i].parent_id == rows1[j].parent_id implies norm(
            rows1[i].name@,
        ) != norm(rows1[j].name@) by {
            if j == rows1.len() - 1 {
                assert(rows1[j] == a);
                assert(!matches_scope(rows0[i], uid, pid, norm(name)));
            }
        }
    }
}

/// Law: within one `(user, parent)` scope, repeated `find_or_create` calls
/// whose names normalize alike return the very same activity and leave the
/// rows unchanged after the first call, with exactly one row occupying the
/// scope — the returned one.
pub proof fn lemma_find_or_create_idempotent(
    rows0: Seq<Activity>,
    rows1: Seq<Activity>,
    rows2: Seq<Activity>,
    name1: Seq<char>,
    name2: Seq<char>,
    pid: Option<i32>,
    uid: i32,
    a1: Activity,
    a2: Activity,
)
    requires
        wf_rows(rows0),
        rows0.len() < i32::MAX as int,
        norm(name1) == norm(name2),
        foc_post(rows0, rows1, name1, pid, uid, a1),
        foc_post(rows1, rows2, name2, pid, uid, a2),
    ensures
        rows2 == rows1,
        a2 == a1,
        has_key(rows1, uid, pid, norm(name1)),
        forall|i: int|
            0 <= i < rows1.len() && matches_scope(#[trigger] rows1[i], uid, pid, norm(name1))
                ==> rows1[i] == a1,
{
    lemma_foc_wf(rows0, rows1, name1, pid, uid, a1);
    lemma_foc_row(rows0, rows1, name1, pid, uid, a1);
    lemma_key_idx(rows1, uid, pid, norm(name1));
    assert(has_key(rows1, uid, pid, norm(name2)));
    let i2 = choose|i: int| 0 <= i < rows1.len() && rows1[i] == a2;
    assert(matches_scope(rows1[i2], uid, pid, norm(name1)));
}

/// The returned row sits in the rows, at the index its identifier names.
proof fn lemma_foc_row(
    rows0: Seq<Activity>,
    rows1: Seq<Activity>,
    name: Seq<char>,
    pid: Option<i32>,
    uid: i32,
    a: Activity,
)
    requires
        wf_rows(rows1),
        foc_post(rows0, rows1, name, pid, uid, a),
    ensures
        has_key(rows1, uid, pid, norm(name)),
        matches_scope(a, uid, pid, norm(name)),
        0 <= a.id as int - 1 < rows1.len(),
        rows1[a.id as int - 1] == a,
{
    crate::text::lemma_norm_trim(name);
    if has_key(rows0, uid, pid, norm(name)) {
        let i = choose|i: int| 0 <= i < rows1.len() && rows1[i] == a;
        assert(matches_scope(rows1[i], uid, pid, norm(name)));
        assert(rows1[i].id as int == i + 1);
    } else {
        assert(rows1[rows0.len() as int] == a);
        assert(matches_scope(rows1[rows0.len() as int], uid, pid, norm(name)));
    }
}

/// Law: the same name under distinct parents never collides — the two
/// `find_or_create` results are distinct rows with distinct identifiers.
pub proof fn lemma_find_or_create_scoped(
    rows0: Seq<Activity>,
    rows1: Seq<Activity>,
    rows2: Seq<Activity>,
    name1: Seq<char>,
    name2: Seq<char>,
    pid_a: Option<i32>,
    pid_b: Option<i32>,
    uid: i32,
    a1: Activity,
    a2: Activity,
)
    requires
        wf_rows(rows0),
        rows0.len() + 1 < i32::MAX as int,
        pid_a != pid_b,
        foc_post(rows0, rows1, name1, pid_a, uid, a1),
        foc_post(rows1, rows2, name2, pid_b, uid, a2),
    ensures
        a1.parent_id == pid_a,
        a2.parent_id == pid_b,
        a1 != a2,
        a1.id != a2.id,
{
    lemma_foc_wf(rows0, rows1, name1, pid_a, uid, a1);
    lemma_foc_wf(rows1, rows2, name2, pid_b, uid, a2);
    lemma_foc_row(rows0, rows1, name1, pid_a, uid, a1);
    lemma_foc_row(rows1, rows2, name2, pid_b, uid, a2);
    assert(rows2[a1.id as int - 1] == a1) by {
        if has_key(rows1, uid, pid_b, norm(name2)) {
        } else {
            assert(rows2[a1.id as int - 1] == rows1[a1.id as int - 1]);
        }
    }
    assert(rows2[a2.id as int - 1] == a2);
}

/// The activities table.
pub struct ActivitiesRepo {
    pub rows: Vec<Activity>,
}

impl ActivitiesRepo {
    pub open spec fn wf(self) -> bool {
        wf_rows(self.rows@)
    }

    pub fn new() -> (r: ActivitiesRepo)
        ensures
            r.wf(),
            r.rows@.len() == 0,
    {
        ActivitiesRepo { rows: Vec::new() }
    }

    /// The row occupying the scope `(user, parent)` under the normalized
    /// form of `name`, if any; unique when the rows are well formed.
    fn find_by_user_and_name(
        &self,
        user: &User,
        parent: Option<&Activity>,
        name: &str,
    ) -> (r: Option<Activity>)
        requires
            self.wf(),
        ensures
            r is Some <==> has_key(self.rows@, user.id, pid_of(parent), norm(name@)),
            match r {
                Some(a) => self.rows@.contains(a) && matches_scope(
                    a,
                    user.id,
                    pid_of(parent),
                    norm(name@),
                ),
                None => true,
            },
    {
        let pid = match parent {
            Some(p) => Some(p.id),
            None => None,
        };
        let n = self.rows.len();
        let mut i: usize = 0;
        while i < n
            invariant
                i <= n,
                n == self.rows@.len(),
                pid == pid_of(parent),
                forall|j: int|
                    0 <= j < i ==> !matches_scope(
                        #[trigger] self.rows@[j],
                        user.id,
                        pid_of(parent),
                        norm(name@),
                    ),
            decreases n - i,
        {
            let row = &self.rows[i];
            if row.user_id == user.id && opt_id_eq(row.parent_id, pid)
                && norm_eq(row.name.as_str(), name) {
                let a = row.duplicate();
                proof {
                    assert(self.rows@[i as int] == a);
                }
                return Some(a);
            }
            i = i + 1;
        }
        None
    }

    /// Unconditional insert, checked against the scope-uniqueness and
    /// parent-reference constraints the schema enforces.
    pub fn create(&mut self, activity: NewActivity, parent: Option<&Activity>) -> (r: Result<
        Activity,
        StoreError,
    >)
        requires
            old(self).wf(),
        ensures
            final(self).wf(),
            ({
                let dup = has_key(
                    old(self).rows@,
                    activity.user_id,
                    pid_of(parent),
                    norm(activity.name@),
                );
                let pok = parent_ok(pid_of(parent), old(self).rows@.len() as int);
                let full = old(self).rows@.len() == i32::MAX as int;
                &&& (r is Ok <==> (!dup && pok && !full))
                &&& match r {
                    Ok(a) => {
                        &&& !dup && pok && !full
                        &&& final(self).rows@ == old(self).rows@.push(a)
                        &&& a.id as int == old(self).rows@.len() + 1
                        &&& a.user_id == activity.user_id
                        &&& a.name == activity.name
                        &&& a.parent_id == pid_of(parent)
                    },
                    Err(e) => {
                        &&& final(self).rows@ == old(self).rows@
                        &&& (e == StoreError::Conflict <==> (dup || !pok))
                        &&& (e == StoreError::Full <==> (!dup && pok && full))
                    },
                }
            }),
    {
        let pid = match parent {
            Some(p) => {
                if !(p.id >= 1 && p.id as usize <= self.rows.len()) {
                    return Err(StoreError::Conflict);
                }
                Some(p.id)
            },
            None => None,
        };
        if self.find_by_user_and_name(
            &User { id: activity.user_id },
            parent,
            activity.name.as_str(),
        ).is_some() {
            return Err(StoreError::Conflict);
        }
        if self.rows.len() == i32::MAX as usize {
            return Err(StoreError::Full);
        }
        let a = Activity {
            id: self.rows.len() as i32 + 1,
            user_id: activity.user_id,
            name: activity.name,
            parent_id: pid,
        };
        let r = a.duplicate();
        self.rows.push(a);
        proof {
            assert forall|i: int, j: int|
                0 <= i < j < self.rows@.len() && (#[trigger] self.rows@[i]).user_id == (
                #[trigger] self.rows@[j]).user_id && self.rows@[i].parent_id
                    == self.rows@[j].parent_id implies norm(self.rows@[i].name@) != norm(
                self.rows@[j].name@,
            ) by {
                if j == self.rows@.len() - 1 {
                    assert(!matches_scope(
                        old(self).rows@[i],
                        r.user_id,
                        r.parent_id,
                        norm(r.name@),
                    ));
                }
            }
        }
        Ok(r)
    }

    /// Trim `name`; return the row already occupying the scope, or insert a
    /// fresh one. Repeated calls with names that normalize alike converge to
    /// the same single row.
    pub fn find_or_create(&mut self, name: &str, parent: Option<&Activity>, user: &User) -> (r:
        Result<Activity, StoreError>)
        requires
            old(self).wf(),
        ensures
            final(self).wf(),
            old(self).rows@.is_prefix_of(final(self).rows@),
            r is Ok <==> (has_key(old(self).rows@, user.id, pid_of(parent), norm(name@)) || (
            parent_ok(pid_of(parent), old(self).rows@.len() as int) && old(self).rows@.len()
                < i32::MAX as int)),
            match r {
                Ok(a) => foc_post(
                    old(self).rows@,
                    final(self).rows@,
                    name@,
                    pid_of(parent),
                    user.id,
                    a,
                ),
                Err(e) => {
                    &&& final(self).rows@ == old(self).rows@
                    &&& (e == StoreError::Conflict <==> !parent_ok(
                        pid_of(parent),
                        old(self).rows@.len() as int,
                    ))
                    &&& (e == StoreError::Full <==> (parent_ok(
                        pid_of(parent),
                        old(self).rows@.len() as int,
                    ) && old(self).rows@.len() == i32::MAX as int))
                },
            },
    {
        match self.find_by_user_and_name(user, parent, name) {
            Some(a) => Ok(a),
            None => {
                proof {
                    crate::text::lemma_norm_trim(name@);
                }
                let activity = NewActivity { user_id: user.id, name: trimmed(name) };
                self.create(activity, parent)
            },
        }
    }

    /// Every activity the user owns, in storage order.
    pub fn fetch_for(&self, user: &User) -> (r: Vec<Activity>)
        requires
            self.wf(),
        ensures
            r@ == self.rows@.filter(|a: Activity| a.user_id == user.id),
            forall|i: int| 0 <= i < r@.len() ==> (#[trigger] r@[i]).user_id == user.id,
    {
        broadcast use vstd::seq_lib::group_filter_ensures;

        let ghost pred = |a: Activity| a.user_id == user.id;
        let mut r: Vec<Activity> = Vec::new();
        let n = self.rows.len();
        let mut i: usize = 0;
        while i < n
            invariant
                i <= n,
                n == self.rows@.len(),
                r@ == self.rows@.subrange(0, i as int).filter(pred),
                pred == (|a: Activity| a.user_id == user.id),
            decreases n - i,
        {
            let ghost prefix = self.rows@.subrange(0, i as int);
            let row = &self.rows[i];
            if row.user_id == user.id {
                r.push(row.duplicate());
            }
            proof {
                lemma_filter_push(prefix, pred, self.rows@[i as int]);
                assert(self.rows@.subrange(0, i as int + 1) =~= prefix.push(
                    self.rows@[i as int],
                ));
            }
            i = i + 1;
        }
        proof {
            assert(self.rows@.subrange(0, n as int) =~= self.rows@);
        }
        r
    }
}

} // verus!
