//! The store as a whole: the three tables, the failure taxonomy every
//! repository shares, and the administrative reset.

use vstd::prelude::*;

use crate::activities::ActivitiesRepo;
use crate::activity_events::ActivityEventsRepo;
use crate::users::{User, UsersRepo};

verus! {

/// How a repository operation can fail.
#[derive(Debug, Clone, Copy, PartialEq, Eq, Structural)]
pub enum StoreError {
    /// A lookup matched no row.
    NotFound,
    /// An insert would break a uniqueness or reference constraint.
    Conflict,
    /// The store has no identifier left to assign.
    Full,
}

/// Filtering one more element keeps it exactly when it satisfies the
/// predicate.
pub proof fn lemma_filter_push<A>(s: Seq<A>, pred: spec_fn(A) -> bool, x: A)
    ensures
        s.push(x).filter(pred) == if pred(x) {
            s.filter(pred).push(x)
        } else {
            s.filter(pred)
        },
{
    reveal(Seq::filter);
    assert(s.push(x).drop_last() =~= s);
    assert(s.push(x).last() == x);
}

/// Being a prefix is transitive.
pub proof fn lemma_prefix_trans<A>(a: Seq<A>, b: Seq<A>, c: Seq<A>)
    requires
        a.is_prefix_of(b),
        b.is_prefix_of(c),
    ensures
        a.is_prefix_of(c),
{
    assert forall|i: int| 0 <= i < a.len() implies a[i] == c[i] by {
        assert(a[i] == b.subrange(0, a.len() as int)[i]);
        assert(b[i] == c.subrange(0, b.len() as int)[i]);
    }
    assert(a =~= c.subrange(0, a.len() as int));
}

pub(crate) fn opt_id_eq(x: Option<i32>, y: Option<i32>) -> (r: bool)
    ensures
        r == (x == y),
{
    match (x, y) {
        (None, None) => true,
        (Some(a), Some(b)) => a == b,
        _ => false,
    }
}

/// The three tables together.
pub struct Store {
    pub users: UsersRepo,
    pub activities: ActivitiesRepo,
    pub activity_events: ActivityEventsRepo,
}

impl Store {
    pub open spec fn wf(self) -> bool {
        &&& self.users.wf()
        &&& self.activities.wf()
        &&& self.activity_events.wf()
    }

    pub fn new() -> (r: Store)
        ensures
            r.wf(),
            r.users.rows@.len() == 0,
            r.activities.rows@.len() == 0,
            r.activity_events.rows@.len() == 0,
    {
        Store {
            users: UsersRepo::new(),
            activities: ActivitiesRepo::new(),
            activity_events: ActivityEventsRepo::new(),
        }
    }

    /// Administrative reset: truncate every table, restart the identifier
    /// sequences, and create one fresh user, whose identifier is 1.
    pub fn reset(&mut self) -> (u: User)
        ensures
            final(self).wf(),
            u.id == 1,
            final(self).users.rows@ =~= seq![u],
            final(self).activities.rows@.len() == 0,
            final(self).activity_events.rows@.len() == 0,
    {
        self.users = UsersRepo::new();
        self.activities = ActivitiesRepo::new();
        self.activity_events = ActivityEventsRepo::new();
        match self.users.create() {
            Ok(u) => u,
            Err(_) => vstd::pervasive::unreached(),
        }
    }
}

} // verus!
