//! Activity events: append-only timestamped occurrences tied to an activity,
//! optionally nested under a parent event.

use vstd::prelude::*;

use crate::activities::Activity;
use crate::store::StoreError;

verus! {

/// One occurrence. `notes` carries the free-text payload (set counts, or a
/// date label for a day's anchor event); `parent_id`, when present,
/// references an earlier event row, so the rows form a forest.
#[derive(Debug)]
pub struct ActivityEvent {
    pub id: i32,
    pub activity_id: i32,
    pub notes: String,
    pub parent_id: Option<i32>,
}

impl ActivityEvent {
    /// A field-for-field copy of the row.
    pub fn duplicate(&self) -> (r: ActivityEvent)
        ensures
            r == *self,
    {
        ActivityEvent {
            id: self.id,
            activity_id: self.activity_id,
            notes: self.notes.clone(),
            parent_id: self.parent_id,
        }
    }
}

/// The identifier an optional parent event contributes to a child.
pub open spec fn epid_of(parent: Option<&ActivityEvent>) -> Option<i32> {
    match parent {
        Some(p) => Some(p.id),
        None => None,
    }
}

/// Whether an optional parent-event reference is satisfiable against `len`
/// rows.
pub open spec fn eparent_ok(parent_id: Option<i32>, len: int) -> bool {
    match parent_id {
        Some(p) => 1 <= p as int <= len,
        None => true,
    }
}

/// Well-formed event rows: serial identifiers and parents that reference
/// earlier rows.
pub open spec fn wf_events(rows: Seq<ActivityEvent>) -> bool {
    &&& rows.len() <= i32::MAX as int
    &&& forall|i: int| 0 <= i < rows.len() ==> (#[trigger] rows[i]).id as int == i + 1
    &&& forall|i: int|
        0 <= i < rows.len() ==> eparent_ok((#[trigger] rows[i]).parent_id, i)
}

/// The activity-events table. Events are facts about occurrences: they are
/// inserted, never merged, updated or deleted.
pub struct ActivityEventsRepo {
    pub rows: Vec<ActivityEvent>,
}

impl ActivityEventsRepo {
    pub open spec fn wf(self) -> bool {
        wf_events(self.rows@)
    }

    pub fn new() -> (r: ActivityEventsRepo)
        ensures
            r.wf(),
            r.rows@.len() == 0,
    {
        ActivityEventsRepo { rows: Vec::new() }
    }

    /// Append one event under `activity`, with the given notes and optional
    /// parent event. No deduplication: equal rows may pile up.
    pub fn create(
        &mut self,
        activity: &Activity,
        notes: &str,
        parent: Option<&ActivityEvent>,
    ) -> (r: Result<ActivityEvent, StoreError>)
        requires
            old(self).wf(),
        ensures
            final(self).wf(),
            ({
                let pok = eparent_ok(epid_of(parent), old(self).rows@.len() as int);
                let full = old(self).rows@.len() == i32::MAX as int;
                &&& (r is Ok <==> (pok && !full))
                &&& match r {
                    Ok(e) => {
                        &&& final(self).rows@ == old(self).rows@.push(e)
                        &&& e.id as int == old(self).rows@.len() + 1
                        &&& e.activity_id == activity.id
                        &&& e.notes@ == notes@
                        &&& e.parent_id == epid_of(parent)
                    },
                    Err(e) => {
                        &&& final(self).rows@ == old(self).rows@
                        &&& (e == StoreError::Conflict <==> !pok)
                        &&& (e == StoreError::Full <==> (pok && full))
                    },
                }
            }),
    {
        let pid = match parent {
            Some(p) => {
                if !(p.id >= 1 && p.id as usize <= self.rows.len()) {
                    return Err(StoreError::Conflict);
                }
                Some(p.id)
            },
            None => None,
        };
        if self.rows.len() == i32::MAX as usize {
            return Err(StoreError::Full);
        }
        let e = ActivityEvent {
            id: self.rows.len() as i32 + 1,
            activity_id: activity.id,
            notes: notes.to_owned(),
            parent_id: pid,
        };
        let r = e.duplicate();
        self.rows.push(e);
        Ok(r)
    }

    /// Every event, in storage order.
    pub fn fetch(&self) -> (r: Vec<ActivityEvent>)
        ensures
            r@ == self.rows@,
    {
        let mut r: Vec<ActivityEvent> = Vec::new();
        let n = self.rows.len();
        let mut i: usize = 0;
        while i < n
            invariant
                i <= n,
                n == self.rows@.len(),
                r@ == self.rows@.subrange(0, i as int),
            decreases n - i,
        {
            r.push(self.rows[i].duplicate());
            proof {
                assert(self.rows@.subrange(0, i as int + 1) =~= self.rows@.subrange(
                    0,
                    i as int,
                ).push(self.rows@[i as int]));
            }
            i = i + 1;
        }
        proof {
            assert(self.rows@.subrange(0, n as int) =~= self.rows@);
        }
        r
    }
}

} // verus!
