//! The in-memory duration accumulator: per-application active seconds since
//! the last flush, owned exclusively by the tracker thread.
//!
//! The original held these totals in a hash map. Here they live in a vector
//! of unique keys, so that contracts can speak about insertion order and
//! tests see a deterministic flush.

use crate::rows::{Row, RowModel};
use vstd::prelude::*;

verus! {

/// One accumulator entry: an application and its active seconds since the
/// last flush.
#[derive(Debug, Clone)]
pub struct AppTotal {
    pub application: String,
    pub seconds: u64,
}

/// Per-application active seconds since the last flush.
#[derive(Debug)]
pub struct Accumulator {
    entries: Vec<AppTotal>,
}

/// No application occurs under two entries.
pub open spec fn keys_unique(s: Seq<(Seq<char>, u64)>) -> bool {
    forall|i: int, j: int| 0 <= i < j < s.len() ==> (#[trigger] s[i]).0 != (#[trigger] s[j]).0
}

/// Whether `app` has an entry.
pub open spec fn contains_app(s: Seq<(Seq<char>, u64)>, app: Seq<char>) -> bool
    decreases s.len(),
{
    s.len() > 0 && (s[0].0 == app || contains_app(s.drop_first(), app))
}

/// The seconds recorded for `app`; zero when it has no entry.
pub open spec fn seconds_of(s: Seq<(Seq<char>, u64)>, app: Seq<char>) -> u64
    decreases s.len(),
{
    if s.len() == 0 {
        0
    } else if s[0].0 == app {
        s[0].1
    } else {
        seconds_of(s.drop_first(), app)
    }
}

/// The accumulator contents after one tick whose sampled foreground
/// application was `app`: its entry gains one second (stopping at the
/// largest representable count), a missing entry is created with one
/// second.
pub open spec fn spec_add_one(s: Seq<(Seq<char>, u64)>, app: Seq<char>) -> Seq<(Seq<char>, u64)>
    decreases s.len(),
{
    if s.len() == 0 {
        seq![(app, 1u64)]
    } else if s[0].0 == app {
        if s[0].1 < u64::MAX {
            seq![(app, (s[0].1 + 1) as u64)] + s.drop_first()
        } else {
            s
        }
    } else {
        seq![s[0]] + spec_add_one(s.drop_first(), app)
    }
}

/// The accumulator contents after one tick: a failed sample contributes no
/// duration to any key.
pub open spec fn spec_accumulate(
    s: Seq<(Seq<char>, u64)>,
    sample: Option<Seq<char>>,
) -> Seq<(Seq<char>, u64)> {
    match sample {
        Option::None => s,
        Option::Some(app) => spec_add_one(s, app),
    }
}

/// The rows of one flush: one per entry, in entry order, all sharing the
/// flush timestamp.
pub open spec fn rows_of(s: Seq<(Seq<char>, u64)>, timestamp: u64) -> Seq<RowModel> {
    s.map_values(
        |e: (Seq<char>, u64)| RowModel { timestamp, application: e.0, duration: e.1 },
    )
}

/// A map-like replacement: an existing entry for the key is overwritten in
/// place, a missing one is appended.
pub open spec fn spec_insert(
    s: Seq<(Seq<char>, u64)>,
    app: Seq<char>,
    secs: u64,
) -> Seq<(Seq<char>, u64)>
    decreases s.len(),
{
    if s.len() == 0 {
        seq![(app, secs)]
    } else if s[0].0 == app {
        seq![(app, secs)] + s.drop_first()
    } else {
        seq![s[0]] + spec_insert(s.drop_first(), app, secs)
    }
}

impl View for Accumulator {
    type V = Seq<(Seq<char>, u64)>;

    closed spec fn view(&self) -> Seq<(Seq<char>, u64)> {
        self.entries@.map_values(|e: AppTotal| (e.application@, e.seconds))
    }
}

impl Accumulator {
    pub open spec fn wf(&self) -> bool {
        keys_unique(self@)
    }

    pub fn new() -> (a: Accumulator)
        ensures
            a@ == Seq::<(Seq<char>, u64)>::empty(),
            a.wf(),
    {
        let a = Accumulator { entries: Vec::new() };
        proof {
            assert(a@ =~= Seq::<(Seq<char>, u64)>::empty());
        }
        a
    }

    pub fn len(&self) -> (n: usize)
        ensures
            n == self@.len(),
    {
        self.entries.len()
    }

    pub fn is_empty(&self) -> (e: bool)
        ensures
            e == (self@.len() == 0),
    {
        self.entries.len() == 0
    }

    /// Empties the accumulator, as the tracker does right after a
    /// successful flush.
    pub fn clear(&mut self)
        ensures
            final(self)@ == Seq::<(Seq<char>, u64)>::empty(),
            final(self).wf(),
    {
        self.entries.clear();
        proof {
            assert(self@ =~= Seq::<(Seq<char>, u64)>::empty());
        }
    }

    /// Adds one second of active time to `application`, creating its entry
    /// if absent. A count already at the largest representable value stays
    /// there.
    pub fn accumulate(&mut self, application: &String)
        requires
            old(self).wf(),
        ensures
            final(self)@ == spec_add_one(old(self)@, application@),
            final(self).wf(),
    {
        let ghost s = self@;
        let mut i: usize = 0;
        while i < self.entries.len()
            invariant
                self == old(self),
                s == self@,
                keys_unique(s),
                0 <= i <= s.len(),
                s.len() == self.entries@.len(),
                forall|j: int| 0 <= j < i ==> (#[trigger] s[j]).0 != application@,
            decreases self.entries.len() - i,
        {
            proof {
                assert(s[i as int] == (self.entries@[i as int].application@,
                self.entries@[i as int].seconds));
            }
            if self.entries[i].application == *application {
                let cur = self.entries[i].seconds;
                let bumped: u64 = if cur < u64::MAX {
                    cur + 1
                } else {
                    cur
                };
                let name = self.entries[i].application.clone();
                self.entries[i] = AppTotal { application: name, seconds: bumped };
                proof {
                    assert(self@ =~= s.update(i as int, (application@, bumped)));
                    lemma_add_one_at(s, application@, i as int);
                    if cur < u64::MAX {
                        assert(self@ =~= s.take(i as int) + (seq![(application@, bumped)]
                            + s.skip(i as int).drop_first()));
                    } else {
                        assert(self@ =~= s.take(i as int) + s.skip(i as int));
                    }
                    assert(keys_unique(self@)) by {
                        assert(forall|k: int|
                            0 <= k < s.len() && k != i ==> (#[trigger] self@[k]) == s[k]);
                    }
                }
                return ;
            }
            i = i + 1;
        }
        self.entries.push(AppTotal { application: application.clone(), seconds: 1 });
        proof {
            assert(self@ =~= s + seq![(application@, 1u64)]);
            lemma_add_one_at(s, application@, s.len() as int);
            assert(s.skip(s.len() as int) =~= Seq::<(Seq<char>, u64)>::empty());
            assert(self@ =~= s.take(s.len() as int) + spec_add_one(
                s.skip(s.len() as int),
                application@,
            ));
            assert(keys_unique(self@)) by {
                assert(forall|k: int| 0 <= k < s.len() ==> (#[trigger] self@[k]) == s[k]);
                assert(self@[s.len() as int].0 == application@);
            }
        }
    }

    /// Records one tick's sample: a benign sampling failure leaves every
    /// entry unchanged.
    pub fn record(&mut self, sample: &Option<String>)
        requires
            old(self).wf(),
        ensures
            final(self)@ == spec_accumulate(old(self)@, sample_model(*sample)),
            final(self).wf(),
    {
        match sample {
            Option::Some(app) => self.accumulate(app),
            Option::None => {},
        }
    }

    /// Sets the seconds for `application`, overwriting an existing entry as
    /// a map insertion would.
    pub fn insert(&mut self, application: String, seconds: u64)
        requires
            old(self).wf(),
        ensures
            final(self)@ == spec_insert(old(self)@, application@, seconds),
            final(self).wf(),
    {
        let ghost s = self@;
        let mut i: usize = 0;
        while i < self.entries.len()
            invariant
                self == old(self),
                s == self@,
                keys_unique(s),
                0 <= i <= s.len(),
                s.len() == self.entries@.len(),
                forall|j: int| 0 <= j < i ==> (#[trigger] s[j]).0 != application@,
            decreases self.entries.len() - i,
        {
            proof {
                assert(s[i as int] == (self.entries@[i as int].application@,
                self.entries@[i as int].seconds));
            }
            if self.entries[i].application == application {
                self.entries[i] = AppTotal { application, seconds };
                proof {
                    assert(self@ =~= s.update(i as int, (self@[i as int].0, seconds)));
                    lemma_insert_at(s, self@[i as int].0, seconds, i as int);
                    assert(self@ =~= s.take(i as int) + (seq![(self@[i as int].0, seconds)]
                        + s.skip(i as int).drop_first()));
                    assert(keys_unique(self@)) by {
                        assert(forall|k: int|
                            0 <= k < s.len() && k != i ==> (#[trigger] self@[k]) == s[k]);
                    }
                }
                return ;
            }
            i = i + 1;
        }
        proof {
            lemma_insert_at(s, application@, seconds, s.len() as int);
            assert(s.skip(s.len() as int) =~= Seq::<(Seq<char>, u64)>::empty());
        }
        self.entries.push(AppTotal { application, seconds });
        proof {
            assert(self@ =~= s + seq![(self@[s.len() as int].0, seconds)]);
            assert(self@ =~= s.take(s.len() as int) + spec_insert(
                s.skip(s.len() as int),
                self@[s.len() as int].0,
                seconds,
            ));
            assert(keys_unique(self@)) by {
                assert(forall|k: int| 0 <= k < s.len() ==> (#[trigger] self@[k]) == s[k]);
            }
        }
    }

    /// The seconds recorded for `application`, if it has an entry.
    pub fn get_seconds(&self, application: &String) -> (r: Option<u64>)
        requires
            self.wf(),
        ensures
            r == if contains_app(self@, application@) {
                Some(seconds_of(self@, application@))
            } else {
                None::<u64>
            },
    {
        let ghost s = self@;
        let mut i: usize = 0;
        while i < self.entries.len()
            invariant
                s == self@,
                0 <= i <= s.len(),
                s.len() == self.entries@.len(),
                forall|j: int| 0 <= j < i ==> (#[trigger] s[j]).0 != application@,
            decreases self.entries.len() - i,
        {
            proof {
                assert(s[i as int] == (self.entries@[i as int].application@,
                self.entries@[i as int].seconds));
            }
            if self.entries[i].application == *application {
                proof {
                    lemma_lookup_at(s, application@, i as int);
                }
                return Some(self.entries[i].seconds);
            }
            i = i + 1;
        }
        proof {
            lemma_absent(s, application@, s.len() as int);
        }
        None
    }

    /// One flush batch: one row per entry, in entry order, sharing the
    /// flush timestamp.
    pub fn to_rows(&self, timestamp: u64) -> (rows: Vec<Row>)
        ensures
            crate::rows::row_models(rows@) == rows_of(self@, timestamp),
    {
        let mut rows: Vec<Row> = Vec::new();
        let mut i: usize = 0;
        while i < self.entries.len()
            invariant
                0 <= i <= self.entries@.len(),
                self@.len() == self.entries@.len(),
                crate::rows::row_models(rows@) == rows_of(self@.take(i as int), timestamp),
            decreases self.entries.len() - i,
        {
            proof {
                assert(self@[i as int] == (self.entries@[i as int].application@,
                self.entries@[i as int].seconds));
            }
            let ghost prev = rows@;
            let e = &self.entries[i];
            let row = Row { timestamp, application: e.application.clone(), duration: e.seconds };
            proof {
                assert(row@ == rows_of(self@, timestamp)[i as int]);
            }
            rows.push(row);
            proof {
                assert(crate::rows::row_models(rows@) =~= crate::rows::row_models(prev).push(
                    row@,
                ));
                assert(rows_of(self@.take(i + 1), timestamp) =~= rows_of(
                    self@.take(i as int),
                    timestamp,
                ).push(row@));
            }
            i = i + 1;
        }
        proof {
            assert(self@.take(self@.len() as int) =~= self@);
        }
        rows
    }
}

/// The model of one tick's sample.
pub open spec fn sample_model(sample: Option<String>) -> Option<Seq<char>> {
    match sample {
        Option::None => Option::None,
        Option::Some(app) => Option::Some(app@),
    }
}

/// Splits `spec_add_one` at the first index whose key matches (or at the
/// end, when none does): everything before is kept as it is.
proof fn lemma_add_one_at(s: Seq<(Seq<char>, u64)>, app: Seq<char>, i: int)
    requires
        0 <= i <= s.len(),
        forall|j: int| 0 <= j < i ==> (#[trigger] s[j]).0 != app,
    ensures
        spec_add_one(s, app) == s.take(i) + spec_add_one(s.skip(i), app),
    decreases i,
{
    if i == 0 {
        assert(s.take(0) =~= Seq::<(Seq<char>, u64)>::empty());
        assert(s.skip(0) =~= s);
        assert(s.take(0) + spec_add_one(s, app) =~= spec_add_one(s, app));
    } else {
        assert(s[0].0 != app);
        assert(spec_add_one(s, app) == seq![s[0]] + spec_add_one(s.drop_first(), app));
        lemma_add_one_at(s.drop_first(), app, i - 1);
        assert(s.drop_first().take(i - 1) =~= s.take(i).drop_first());
        assert(s.drop_first().skip(i - 1) =~= s.skip(i));
        assert(seq![s[0]] + (s.drop_first().take(i - 1) + spec_add_one(s.skip(i), app)) =~= s.take(
            i,
        ) + spec_add_one(s.skip(i), app));
    }
}

/// The same split for `spec_insert`.
proof fn lemma_insert_at(s: Seq<(Seq<char>, u64)>, app: Seq<char>, secs: u64, i: int)
    requires
        0 <= i <= s.len(),
        forall|j: int| 0 <= j < i ==> (#[trigger] s[j]).0 != app,
    ensures
        spec_insert(s, app, secs) == s.take(i) + spec_insert(s.skip(i), app, secs),
    decreases i,
{
    if i == 0 {
        assert(s.take(0) =~= Seq::<(Seq<char>, u64)>::empty());
        assert(s.skip(0) =~= s);
        assert(s.take(0) + spec_insert(s, app, secs) =~= spec_insert(s, app, secs));
    } else {
        assert(s[0].0 != app);
        lemma_insert_at(s.drop_first(), app, secs, i - 1);
        assert(s.drop_first().take(i - 1) =~= s.take(i).drop_first());
        assert(s.drop_first().skip(i - 1) =~= s.skip(i));
        assert(seq![s[0]] + (s.drop_first().take(i - 1) + spec_insert(s.skip(i), app, secs))
            =~= s.take(i) + spec_insert(s.skip(i), app, secs));
    }
}

/// A key found at index `i`, with no earlier match, is what the recursive
/// lookup answers.
proof fn lemma_lookup_at(s: Seq<(Seq<char>, u64)>, app: Seq<char>, i: int)
    requires
        0 <= i < s.len(),
        s[i].0 == app,
        forall|j: int| 0 <= j < i ==> (#[trigger] s[j]).0 != app,
    ensures
        contains_app(s, app),
        seconds_of(s, app) == s[i].1,
    decreases i,
{
    if i > 0 {
        lemma_lookup_at(s.drop_first(), app, i - 1);
    }
}

/// A key matching no entry is absent from the lookup.
proof fn lemma_absent(s: Seq<(Seq<char>, u64)>, app: Seq<char>, n: int)
    requires
        n == s.len(),
        forall|j: int| 0 <= j < n ==> (#[trigger] s[j]).0 != app,
    ensures
        !contains_app(s, app),
        seconds_of(s, app) == 0,
    decreases s.len(),
{
    if s.len() > 0 {
        lemma_absent(s.drop_first(), app, n - 1);
    }
}

} // verus!
