//! The tracker thread's decision logic, one tick at a time.
//!
//! The tracker owns the duration accumulator. At each tick boundary it reads
//! the two shared flags — `update_requested`, set by the control listener,
//! and `terminating`, set by the signal handlers — and decides which flush
//! batches to append to the log before it sleeps and samples again. The
//! blocking work (sleeping, sampling, file writes, the socket unblock) stays
//! with the caller; this module fixes exactly what each tick must do.

use crate::accumulator::{
    contains_app, keys_unique, rows_of, seconds_of, spec_accumulate, spec_add_one, Accumulator,
    sample_model,
};
use crate::protocol::{spec_directive, Command, Reply};
use crate::rows::{row_models, Row, RowModel};
use vstd::prelude::*;

verus! {

/// What the tracker must do after reading the control flags at the top of
/// one tick.
#[derive(Debug)]
pub enum FlushStep {
    /// Neither flag was set: sleep one second, sample, and go on.
    Continue,
    /// `update_requested` was set: append `batch` to the log, clear the
    /// flag, then sleep and sample as usual.
    Update { batch: Vec<Row> },
    /// `terminating` was set: append the pending update flush first, then
    /// the final shutdown flush, unblock the listener, join it, and exit.
    Shutdown { update_batch: Vec<Row>, final_batch: Vec<Row> },
}

/// The rows of the ordinary update flush a terminating tick still owes.
pub open spec fn spec_update_batch(
    totals: Seq<(Seq<char>, u64)>,
    update_requested: bool,
    timestamp: u64,
) -> Seq<RowModel> {
    if update_requested {
        rows_of(totals, timestamp)
    } else {
        Seq::<RowModel>::empty()
    }
}

/// The rows of the final shutdown flush: whatever the update flush of the
/// same tick did not already drain.
pub open spec fn spec_final_batch(
    totals: Seq<(Seq<char>, u64)>,
    update_requested: bool,
    timestamp: u64,
) -> Seq<RowModel> {
    if update_requested {
        Seq::<RowModel>::empty()
    } else {
        rows_of(totals, timestamp)
    }
}

/// The tracker: the accumulator plus the tick-boundary decisions.
#[derive(Debug)]
pub struct Tracker {
    times: Accumulator,
}

impl View for Tracker {
    type V = Seq<(Seq<char>, u64)>;

    closed spec fn view(&self) -> Seq<(Seq<char>, u64)> {
        self.times@
    }
}

impl Tracker {
    pub open spec fn wf(&self) -> bool {
        keys_unique(self@)
    }

    pub fn new() -> (t: Tracker)
        ensures
            t@ == Seq::<(Seq<char>, u64)>::empty(),
            t.wf(),
    {
        Tracker { times: Accumulator::new() }
    }

    /// Reads the flags at one tick boundary and decides this tick's
    /// flushes. An update flush empties the accumulator; on a terminating
    /// tick with a pending update, the update flush runs first and the
    /// final flush appends nothing more, so no duration is lost or written
    /// twice.
    pub fn flush_step(
        &mut self,
        terminating: bool,
        update_requested: bool,
        timestamp: u64,
    ) -> (step: FlushStep)
        requires
            old(self).wf(),
        ensures
            final(self).wf(),
            terminating ==> (step matches FlushStep::Shutdown { update_batch, final_batch }
                && row_models(update_batch@) == spec_update_batch(
                old(self)@,
                update_requested,
                timestamp,
            ) && row_models(final_batch@) == spec_final_batch(
                old(self)@,
                update_requested,
                timestamp,
            ) && final(self)@ == Seq::<(Seq<char>, u64)>::empty()),
            !terminating && update_requested ==> (step matches FlushStep::Update { batch }
                && row_models(batch@) == rows_of(old(self)@, timestamp) && final(self)@
                == Seq::<(Seq<char>, u64)>::empty()),
            !terminating && !update_requested ==> (step matches FlushStep::Continue && final(self)@
                == old(self)@),
    {
        if terminating {
            if update_requested {
                let update_batch = self.times.to_rows(timestamp);
                self.times.clear();
                let final_batch = self.times.to_rows(timestamp);
                proof {
                    assert(rows_of(Seq::<(Seq<char>, u64)>::empty(), timestamp)
                        =~= Seq::<RowModel>::empty());
                }
                FlushStep::Shutdown { update_batch, final_batch }
            } else {
                let update_batch: Vec<Row> = Vec::new();
                let final_batch = self.times.to_rows(timestamp);
                self.times.clear();
                proof {
                    assert(row_models(Seq::<Row>::empty()) =~= Seq::<RowModel>::empty());
                }
                FlushStep::Shutdown { update_batch, final_batch }
            }
        } else if update_requested {
            let batch = self.times.to_rows(timestamp);
            self.times.clear();
            FlushStep::Update { batch }
        } else {
            FlushStep::Continue
        }
    }

    /// Records one tick's sample, after the tick's one-second sleep: the
    /// sampled application gains one second; a benign sampling failure
    /// contributes nothing.
    pub fn record_sample(&mut self, sample: &Option<String>)
        requires
            old(self).wf(),
        ensures
            final(self).wf(),
            final(self)@ == spec_accumulate(old(self)@, sample_model(*sample)),
    {
        self.times.record(sample);
    }

    /// The seconds accumulated so far for one application.
    pub fn get_seconds(&self, application: &String) -> (r: Option<u64>)
        requires
            self.wf(),
        ensures
            r == if contains_app(self@, application@) {
                Some(seconds_of(self@, application@))
            } else {
                None::<u64>
            },
    {
        self.times.get_seconds(application)
    }

    pub fn is_empty(&self) -> (e: bool)
        ensures
            e == (self@.len() == 0),
    {
        self.times.is_empty()
    }
}

/// The accumulator contents after a sequence of sampled ticks, starting
/// from the empty accumulator of a fresh flush.
pub open spec fn run_samples(samples: Seq<Option<Seq<char>>>) -> Seq<(Seq<char>, u64)>
    decreases samples.len(),
{
    if samples.len() == 0 {
        Seq::<(Seq<char>, u64)>::empty()
    } else {
        spec_accumulate(run_samples(samples.drop_last()), samples.last())
    }
}

/// How many of the ticks in `samples` observed `app` in the foreground.
pub open spec fn tick_count(samples: Seq<Option<Seq<char>>>, app: Seq<char>) -> nat
    decreases samples.len(),
{
    if samples.len() == 0 {
        0
    } else {
        tick_count(samples.drop_last(), app) + if samples.last() == Some(app) {
            1nat
        } else {
            0nat
        }
    }
}

/// Adding a second for `app` leaves every other application's count alone.
proof fn lemma_add_one_other(s: Seq<(Seq<char>, u64)>, app: Seq<char>, other: Seq<char>)
    requires
        other != app,
    ensures
        seconds_of(spec_add_one(s, app), other) == seconds_of(s, other),
        contains_app(spec_add_one(s, app), other) == contains_app(s, other),
    decreases s.len(),
{
    let t = spec_add_one(s, app);
    if s.len() == 0 {
        assert(t == seq![(app, 1u64)]);
        assert(t[0].0 == app);
        assert(t.drop_first() =~= Seq::<(Seq<char>, u64)>::empty());
        assert(!contains_app(t.drop_first(), other));
        assert(seconds_of(t.drop_first(), other) == 0);
    } else if s[0].0 == app {
        if s[0].1 < u64::MAX {
            assert(t == seq![(app, (s[0].1 + 1) as u64)] + s.drop_first());
            assert(t[0].0 == app);
            assert(t.drop_first() =~= s.drop_first());
            assert(seconds_of(t, other) == seconds_of(s.drop_first(), other));
            assert(seconds_of(s, other) == seconds_of(s.drop_first(), other));
            assert(contains_app(t, other) == contains_app(s.drop_first(), other));
            assert(contains_app(s, other) == contains_app(s.drop_first(), other));
        }
    } else {
        lemma_add_one_other(s.drop_first(), app, other);
        assert(t == seq![s[0]] + spec_add_one(s.drop_first(), app));
        assert(t[0] == s[0]);
        assert(t.len() > 0);
        assert(t.drop_first() =~= spec_add_one(s.drop_first(), app));
        if s[0].0 == other {
            assert(seconds_of(t, other) == t[0].1);
            assert(seconds_of(s, other) == s[0].1);
        } else {
            assert(seconds_of(t, other) == seconds_of(t.drop_first(), other));
            assert(seconds_of(s, other) == seconds_of(s.drop_first(), other));
        }
    }
}

/// A missing application has a zero count.
proof fn lemma_absent_zero(s: Seq<(Seq<char>, u64)>, app: Seq<char>)
    requires
        !contains_app(s, app),
    ensures
        seconds_of(s, app) == 0,
    decreases s.len(),
{
    if s.len() > 0 {
        lemma_absent_zero(s.drop_first(), app);
    }
}

/// Adding a second for `app` does exactly that, as long as its count has
/// room to grow.
proof fn lemma_add_one_effect(s: Seq<(Seq<char>, u64)>, app: Seq<char>)
    requires
        seconds_of(s, app) < u64::MAX,
    ensures
        seconds_of(spec_add_one(s, app), app) == seconds_of(s, app) + 1,
        contains_app(spec_add_one(s, app), app),
    decreases s.len(),
{
    if s.len() == 0 {
        let t = spec_add_one(s, app);
        assert(t[0].0 == app && t[0].1 == 1u64);
    } else if s[0].0 == app {
        let t = spec_add_one(s, app);
        assert(t[0].0 == app && t[0].1 == s[0].1 + 1);
    } else {
        if !contains_app(s, app) {
            lemma_absent_zero(s, app);
        }
        lemma_add_one_effect(s.drop_first(), app);
        let t = spec_add_one(s, app);
        assert(t.drop_first() =~= spec_add_one(s.drop_first(), app));
    }
}

/// The seconds recorded for an application when the accumulator is flushed
/// equal the number of ticks since the previous flush in which that
/// application was the sampled foreground application.
pub proof fn lemma_flush_counts_ticks(samples: Seq<Option<Seq<char>>>, app: Seq<char>)
    requires
        tick_count(samples, app) <= u64::MAX,
    ensures
        seconds_of(run_samples(samples), app) == tick_count(samples, app),
    decreases samples.len(),
{
    if samples.len() > 0 {
        let prev = samples.drop_last();
        assert(tick_count(prev, app) <= tick_count(samples, app));
        lemma_flush_counts_ticks(prev, app);
        let acc = run_samples(prev);
        match samples.last() {
            Option::None => {},
            Option::Some(a) => {
                if a == app {
                    lemma_add_one_effect(acc, app);
                } else {
                    lemma_add_one_other(acc, a, app);
                }
            },
        }
    }
}

/// An `UPDATE_CSV` command answers `Success` and asks the tracker to flush:
/// the next tick's batch holds exactly one row per distinct accumulated
/// application, each carrying that application's seconds; once the
/// accumulator has been drained, a second `UPDATE_CSV` flushes zero rows
/// and still answers `Success`.
pub proof fn lemma_update_csv_flush(totals: Seq<(Seq<char>, u64)>, timestamp: u64, later: u64)
    requires
        keys_unique(totals),
    ensures
        spec_directive(Command::UpdateCsv).set_update_requested,
        spec_directive(Command::UpdateCsv).reply == Reply::Success,
        rows_of(totals, timestamp).len() == totals.len(),
        forall|i: int, j: int|
            0 <= i < j < totals.len() ==> (#[trigger] rows_of(totals, timestamp)[i]).application
                != (#[trigger] rows_of(totals, timestamp)[j]).application,
        forall|i: int|
            0 <= i < totals.len() ==> (#[trigger] rows_of(totals, timestamp)[i]) == (RowModel {
                timestamp,
                application: totals[i].0,
                duration: totals[i].1,
            }),
        rows_of(Seq::<(Seq<char>, u64)>::empty(), later).len() == 0,
{
}

/// A termination signal observed on the same tick as a pending update: the
/// ordinary update flush runs first and drains the accumulator, the final
/// shutdown flush appends nothing more, and the two batches together write
/// each accumulated duration exactly once.
pub proof fn lemma_shutdown_preserves_durations(
    totals: Seq<(Seq<char>, u64)>,
    update_requested: bool,
    timestamp: u64,
)
    ensures
        spec_update_batch(totals, update_requested, timestamp) + spec_final_batch(
            totals,
            update_requested,
            timestamp,
        ) == rows_of(totals, timestamp),
        update_requested ==> spec_final_batch(totals, update_requested, timestamp).len() == 0,
{
    if update_requested {
        assert(rows_of(totals, timestamp) + Seq::<RowModel>::empty() =~= rows_of(
            totals,
            timestamp,
        ));
    } else {
        assert(Seq::<RowModel>::empty() + rows_of(totals, timestamp) =~= rows_of(
            totals,
            timestamp,
        ));
    }
}

} // verus!
