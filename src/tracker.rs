use vstd::prelude::*;
use crate::calendar::{local_day, local_day_of, local_offset_secs, utc_now_secs};
use crate::dashboard::{Dashboard, build_dashboard, describes};
use crate::tally::Tally;

verus! {

/// One logged activity: when it was logged (seconds since the epoch, UTC),
/// the time spent in hundredths of an hour, and what was done.
#[derive(Clone, Debug, PartialEq, Eq)]
pub struct Activity {
    pub timestamp: i64,
    pub centihours: i32,
    pub description: String,
}

/// The append-only log of activities, oldest first.
pub struct HabitTracker {
    activities: Vec<Activity>,
}

impl View for HabitTracker {
    type V = Seq<Activity>;

    closed spec fn view(&self) -> Seq<Activity> {
        self.activities@
    }
}

/// Whether the timestamps of `s` never decrease.
pub open spec fn timestamps_ordered(s: Seq<Activity>) -> bool {
    forall|i: int, j: int| 0 <= i <= j < s.len() ==> s[i].timestamp <= s[j].timestamp
}

/// The log `start` after appending each record of `added` in turn.
pub open spec fn appended(start: Seq<Activity>, added: Seq<Activity>) -> Seq<Activity>
    decreases added.len(),
{
    if added.len() == 0 {
        start
    } else {
        appended(start, added.drop_last()).push(added.last())
    }
}

/// `ts` places each activity of `acts`, in order, on its local calendar day
/// under some time zone offset of less than a day.
pub open spec fn are_local_tallies(ts: Seq<Tally>, acts: Seq<Activity>) -> bool {
    &&& ts.len() == acts.len()
    &&& forall|i: int|
        0 <= i < ts.len() ==> (#[trigger] ts[i]).amount == acts[i].centihours && exists|off: int|
            -86400 < off < 86400 && ts[i].key == local_day_of(acts[i].timestamp as int, off)
}

impl HabitTracker {
    /// A log that holds `activities`, as read back from storage.
    pub fn new(activities: Vec<Activity>) -> (r: Self)
        ensures
            r@ == activities@,
    {
        HabitTracker { activities }
    }

    /// The activities logged so far, oldest first.
    pub fn activities(&self) -> (r: &Vec<Activity>)
        ensures
            r@ == self@,
    {
        &self.activities
    }

    /// Appends an activity logged at instant `now`.
    pub fn log_activity_at(&mut self, now: i64, centihours: i32, description: String)
        ensures
            final(self)@ == old(self)@.push(Activity { timestamp: now, centihours, description }),
    {
        self.activities.push(Activity { timestamp: now, centihours, description });
    }

    /// Appends an activity logged now.
    pub fn log_activity(&mut self, centihours: i32, description: String)
        ensures
            exists|now: i64|
                final(self)@ == old(self)@.push(
                    (Activity { timestamp: now, centihours, description }),
                ),
    {
        let now = utc_now_secs();
        self.log_activity_at(now, centihours, description);
    }

    /// Each activity placed on its local calendar day.
    pub fn day_tallies(&self) -> (r: Vec<Tally>)
        ensures
            are_local_tallies(r@, self@),
    {
        let mut r: Vec<Tally> = Vec::new();
        let mut i: usize = 0;
        while i < self.activities.len()
            invariant
                i <= self.activities.len(),
                r@.len() == i,
                forall|j: int|
                    0 <= j < i ==> (#[trigger] r@[j]).amount == self.activities@[j].centihours
                        && exists|off: int|
                        -86400 < off < 86400 && r@[j].key == local_day_of(
                            self.activities@[j].timestamp as int,
                            off,
                        ),
            decreases self.activities.len() - i,
        {
            let a = &self.activities[i];
            let off: i32 = match local_offset_secs(a.timestamp) {
                Some(o) => o,
                None => 0,
            };
            let day = local_day(a.timestamp, off);
            let ghost old_r = r@;
            r.push(Tally { key: day, amount: a.centihours });
            proof {
                assert forall|j: int| 0 <= j <= i implies (#[trigger] r@[j]).amount
                    == self.activities@[j].centihours && exists|o: int|
                    -86400 < o < 86400 && r@[j].key == local_day_of(
                        self.activities@[j].timestamp as int,
                        o,
                    ) by {
                    if j < i {
                        assert(r@[j] == old_r[j]);
                    } else {
                        assert(local_day_of(a.timestamp as int, off as int) == r@[j].key);
                    }
                }
            }
            i = i + 1;
        }
        r
    }

    /// The dashboard of the log as seen now in the local time zone, with a
    /// streak window of `days` days.
    pub fn view_contributions(&self, days: i64) -> (d: Dashboard)
        ensures
            exists|ts: Seq<Tally>, today: int|
                are_local_tallies(ts, self@) && describes(d, ts, today, days as int),
    {
        let now = utc_now_secs();
        let off: i32 = match local_offset_secs(now) {
            Some(o) => o,
            None => 0,
        };
        let today = local_day(now, off);
        let ts = self.day_tallies();
        build_dashboard(&ts, today, days)
    }
}

/// Appending records one after another keeps every earlier record and adds
/// exactly the new ones, in the order appended; when no record is logged
/// before the one that precedes it, the timestamps never decrease.
pub proof fn lemma_appends_kept_in_order(start: Seq<Activity>, added: Seq<Activity>)
    requires
        timestamps_ordered(start),
        timestamps_ordered(added),
        start.len() > 0 && added.len() > 0 ==> start.last().timestamp <= added[0].timestamp,
    ensures
        appended(start, added) == start + added,
        timestamps_ordered(appended(start, added)),
    decreases added.len(),
{
    if added.len() > 0 {
        let p = added.drop_last();
        assert forall|i: int, j: int| 0 <= i <= j < p.len() implies p[i].timestamp <= p[j].timestamp by {
            assert(p[i] == added[i] && p[j] == added[j]);
        }
        if p.len() > 0 {
            assert(p[0] == added[0]);
        }
        lemma_appends_kept_in_order(start, p);
        assert(start + added == (start + p).push(added.last()));
        let s = start + added;
        assert forall|i: int, j: int| 0 <= i <= j < s.len() implies s[i].timestamp <= s[j].timestamp by {
            if j >= start.len() && i < start.len() {
                assert(start[i].timestamp <= start.last().timestamp);
                assert(added[0].timestamp <= added[j - start.len()].timestamp);
            }
        }
    }
}

} // verus!
