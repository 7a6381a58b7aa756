use vstd::prelude::*;

verus! {

/// Whether a record taken at `t` is within `duration` of `now`.
pub open spec fn recent(now: u64, t: u64, duration: u64) -> bool {
    (if now >= t { now - t } else { 0 }) < duration
}

/// The index of the first record within `duration` of `now`, if any.
pub open spec fn first_recent(buf: Seq<(u64, u64)>, now: u64, duration: u64) -> Option<int> {
    if exists|i: int| 0 <= i < buf.len() && recent(now, #[trigger] buf[i].0, duration) {
        Some(
            choose|i: int|
                0 <= i < buf.len() && recent(now, #[trigger] buf[i].0, duration) && forall|j: int|
                    0 <= j < i ==> !recent(now, #[trigger] buf[j].0, duration),
        )
    } else {
        None
    }
}

/// The records kept after recording: those within the period, and the one
/// just before it, so that the speed spans the whole period.
pub open spec fn trimmed(buf: Seq<(u64, u64)>, now: u64, duration: u64) -> Seq<(u64, u64)> {
    match first_recent(buf, now, duration) {
        Some(i) => if i >= 1 {
            buf.subrange(i - 1, buf.len() as int)
        } else {
            buf
        },
        None => buf,
    }
}

fn is_recent(now: u64, t: u64, duration: u64) -> (r: bool)
    ensures
        r == recent(now, t, duration),
{
    let age = if now >= t {
        now - t
    } else {
        0
    };
    age < duration
}

/// Progress values with the times they were reached, over a period, from
/// which the average speed is computed. Times are in nanoseconds of a
/// monotonic clock.
#[derive(Clone, Debug)]
pub struct SpeedTracker {
    duration: u64,
    buf: Vec<(u64, u64)>,
}

impl SpeedTracker {
    pub closed spec fn records(&self) -> Seq<(u64, u64)> {
        self.buf@
    }

    pub closed spec fn period(&self) -> u64 {
        self.duration
    }

    /// A tracker over a period of `duration` nanoseconds.
    pub fn new(duration: u64) -> (r: Self)
        ensures
            r.period() == duration,
            r.records() == Seq::<(u64, u64)>::empty(),
    {
        SpeedTracker { duration, buf: Vec::new() }
    }

    /// Forget all records.
    pub fn reset(&mut self)
        ensures
            final(self).period() == old(self).period(),
            final(self).records() == Seq::<(u64, u64)>::empty(),
    {
        self.buf = Vec::new();
    }

    /// Record progress `value` reached at time `now`. A zero value, the
    /// initial jump of a progress bar, is ignored.
    pub fn record_value(&mut self, value: u64, now: u64)
        ensures
            final(self).period() == old(self).period(),
            value == 0 ==> final(self).records() == old(self).records(),
            value != 0 ==> final(self).records() == trimmed(old(self).records().push((now, value)), now, old(self).period()),
    {
        if value == 0 {
            return;
        }
        self.buf.push((now, value));
        let ghost all = self.buf@;
        let mut i: usize = 0;
        while i < self.buf.len() && !is_recent(now, self.buf[i].0, self.duration)
            invariant
                self.buf@ == all,
                i <= all.len(),
                forall|j: int| 0 <= j < i ==> !recent(now, #[trigger] all[j].0, self.duration),
            decreases all.len() - i,
        {
            i += 1;
        }
        proof {
            if i < all.len() {
                assert(recent(now, all[i as int].0, self.duration));
                let k = first_recent(all, now, self.duration).unwrap();
                assert(0 <= k < all.len() && recent(now, all[k].0, self.duration));
                if k < i {
                    assert(!recent(now, all[k].0, self.duration));
                }
                if (i as int) < k {
                    assert(!recent(now, all[i as int].0, self.duration));
                }
            } else {
                assert(!exists|j: int| 0 <= j < all.len() && recent(now, #[trigger] all[j].0, self.duration));
            }
        }
        if i < self.buf.len() && i >= 1 {
            let mut kept: Vec<(u64, u64)> = Vec::new();
            let mut k: usize = i - 1;
            while k < self.buf.len()
                invariant
                    self.buf@ == all,
                    1 <= i < all.len(),
                    i - 1 <= k <= all.len(),
                    kept@ == all.subrange(i - 1, k as int),
                decreases all.len() - k,
            {
                kept.push(self.buf[k]);
                k += 1;
                assert(kept@ =~= all.subrange(i - 1, k as int));
            }
            self.buf = kept;
        }
    }

    /// The time and progress between the first and the last record, if
    /// they differ; the speed is their ratio.
    pub fn span(&self) -> (r: Option<(u64, u64)>)
        ensures
            self.records().len() < 2 ==> r is None,
            self.records().len() >= 2 && self.records()[0] != self.records().last() ==> r is Some,
            r matches Some((dt, dv)) ==> self.records().len() >= 2 && {
                let f = self.records()[0];
                let b = self.records().last();
                &&& f != b
                &&& dt == (if b.0 >= f.0 { b.0 - f.0 } else { 0 })
                &&& dv == (if b.1 >= f.1 { b.1 - f.1 } else { 0 })
            },
    {
        if self.buf.len() < 2 {
            return None;
        }
        let f = self.buf[0];
        let b = self.buf[self.buf.len() - 1];
        if f.0 == b.0 && f.1 == b.1 {
            return None;
        }
        let dt = if b.0 >= f.0 {
            b.0 - f.0
        } else {
            0
        };
        let dv = if b.1 >= f.1 {
            b.1 - f.1
        } else {
            0
        };
        Some((dt, dv))
    }
}

} // verus!
