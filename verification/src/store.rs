//! The time-bucketed store: a container partitioned by source identifier and
//! ordered internally by timestamp at a fixed bucketing granularity.
//!
//! Each source's readings are kept sorted non-decreasing by timestamp, so an
//! ordered range query reads a partition straight out. The bucketing
//! granularity fixes the width of the time buckets that group neighbouring
//! readings; readings of one bucket always sit contiguously in a partition.

use vstd::prelude::*;
use vstd::arithmetic::div_mod::lemma_div_is_ordered;
use crate::codec::ReadingModel;
use crate::codec::SensorReading;
use crate::codec::reading_valid;

verus! {

/// The width of the time buckets the store groups readings by.
#[derive(Clone, Copy, PartialEq, Eq, Structural, Debug)]
pub enum Granularity {
    Seconds,
    Minutes,
    Hours,
}

/// The bucket width in milliseconds.
pub open spec fn bucket_width_millis(g: Granularity) -> int {
    match g {
        Granularity::Seconds => 1000,
        Granularity::Minutes => 60000,
        Granularity::Hours => 3600000,
    }
}

/// A timestamp shifted out of the signed range, so buckets can be cut by
/// plain integer division. The bucket grid has the requested width; its
/// origin is a fixed point of the shifted scale, not the epoch.
pub open spec fn shifted_millis(t: i64) -> int {
    t + 0x8000_0000_0000_0000
}

/// The bucket a timestamp falls in at a given granularity.
pub open spec fn bucket_of(t: i64, g: Granularity) -> int {
    shifted_millis(t) / bucket_width_millis(g)
}

fn bucket_width(g: Granularity) -> (w: u64)
    ensures
        w == bucket_width_millis(g),
{
    match g {
        Granularity::Seconds => 1000,
        Granularity::Minutes => 60000,
        Granularity::Hours => 3600000,
    }
}

/// Computes the bucket a timestamp falls in.
pub fn bucket_index(t: i64, g: Granularity) -> (b: u64)
    ensures
        b == bucket_of(t, g),
{
    let shifted: u64 = ((t as i128) + 0x8000_0000_0000_0000i128) as u64;
    assert(shifted == shifted_millis(t));
    shifted / bucket_width(g)
}

/// Buckets never order against time: a later reading falls in the same or a
/// later bucket.
pub proof fn lemma_bucket_monotone(t1: i64, t2: i64, g: Granularity)
    requires
        t1 <= t2,
    ensures
        bucket_of(t1, g) <= bucket_of(t2, g),
{
    lemma_div_is_ordered(shifted_millis(t1), shifted_millis(t2), bucket_width_millis(g));
}

/// The models of a run of readings, in order.
pub open spec fn models_of(s: Seq<SensorReading>) -> Seq<ReadingModel> {
    Seq::new(s.len(), |i: int| s[i]@)
}

/// Sorted non-decreasing by timestamp.
pub open spec fn sorted_by_time(s: Seq<ReadingModel>) -> bool {
    forall|i: int, j: int| 0 <= i <= j < s.len() ==> s[i].time_millis <= s[j].time_millis
}

/// Where a new reading with timestamp `t` goes in a sorted series: after
/// every reading no later than `t`, before the rest. Duplicate timestamps are
/// permitted and kept in arrival order.
pub open spec fn time_insert_pos(s: Seq<ReadingModel>, t: i64) -> int
    decreases s.len(),
{
    if s.len() == 0 {
        0
    } else if s[0].time_millis <= t {
        1 + time_insert_pos(s.drop_first(), t)
    } else {
        0
    }
}

pub proof fn lemma_time_insert_pos(s: Seq<ReadingModel>, t: i64)
    ensures
        0 <= time_insert_pos(s, t) <= s.len(),
        forall|i: int| 0 <= i < time_insert_pos(s, t) ==> #[trigger] s[i].time_millis <= t,
        time_insert_pos(s, t) < s.len() ==> s[time_insert_pos(s, t)].time_millis > t,
    decreases s.len(),
{
    if s.len() > 0 && s[0].time_millis <= t {
        lemma_time_insert_pos(s.drop_first(), t);
        assert forall|i: int| 0 <= i < time_insert_pos(s, t) implies #[trigger] s[i].time_millis
            <= t by {
            if i > 0 {
                assert(s.drop_first()[i - 1] == s[i]);
            }
        }
        if time_insert_pos(s, t) < s.len() {
            assert(s.drop_first()[time_insert_pos(s, t) - 1] == s[time_insert_pos(s, t)]);
        }
    }
}

/// One source's partition: its identifier and its readings, sorted by time.
pub struct Partition {
    pub source_id: String,
    pub readings: Vec<SensorReading>,
}

impl Partition {
    pub open spec fn model(self) -> Seq<ReadingModel> {
        models_of(self.readings@)
    }

    pub open spec fn inv(self) -> bool {
        &&& self.readings@.len() > 0
        &&& sorted_by_time(self.model())
        &&& forall|i: int|
            0 <= i < self.model().len() ==> (#[trigger] self.model()[i]).source_id
                == self.source_id@
        &&& forall|i: int| 0 <= i < self.model().len() ==> reading_valid(#[trigger] self.model()[i])
    }
}

/// The first partition holding a source, or -1.
pub(crate) open spec fn find_partition(ps: Seq<Partition>, src: Seq<char>) -> int
    decreases ps.len(),
{
    if ps.len() == 0 {
        -1
    } else if ps[0].source_id@ == src {
        0
    } else {
        let r = find_partition(ps.drop_first(), src);
        if r == -1 {
            -1
        } else {
            r + 1
        }
    }
}

pub(crate) proof fn lemma_find_partition(ps: Seq<Partition>, src: Seq<char>)
    ensures
        (find_partition(ps, src) == -1) <==> (forall|k: int|
            0 <= k < ps.len() ==> (#[trigger] ps[k]).source_id@ != src),
        find_partition(ps, src) != -1 ==> 0 <= find_partition(ps, src) < ps.len()
            && ps[find_partition(ps, src)].source_id@ == src,
        find_partition(ps, src) != -1 ==> forall|k: int|
            0 <= k < find_partition(ps, src) ==> (#[trigger] ps[k]).source_id@ != src,
    decreases ps.len(),
{
    if ps.len() > 0 && ps[0].source_id@ != src {
        lemma_find_partition(ps.drop_first(), src);
        let r = find_partition(ps.drop_first(), src);
        if r == -1 {
            assert forall|k: int| 0 <= k < ps.len() implies (#[trigger] ps[k]).source_id@
                != src by {
                if k > 0 {
                    assert(ps.drop_first()[k - 1] == ps[k]);
                }
            }
        } else {
            assert(ps.drop_first()[r] == ps[r + 1]);
            assert forall|k: int| 0 <= k < r + 1 implies (#[trigger] ps[k]).source_id@ != src by {
                if k > 0 {
                    assert(ps.drop_first()[k - 1] == ps[k]);
                }
            }
        }
    }
}

/// The number of readings across a run of partitions.
pub(crate) open spec fn total_of(ps: Seq<Partition>) -> nat
    decreases ps.len(),
{
    if ps.len() == 0 {
        0
    } else {
        ps[0].readings@.len() + total_of(ps.drop_first())
    }
}

pub(crate) proof fn lemma_total_update(ps: Seq<Partition>, i: int, p: Partition)
    requires
        0 <= i < ps.len(),
    ensures
        total_of(ps.update(i, p)) + ps[i].readings@.len() == total_of(ps) + p.readings@.len(),
    decreases ps.len(),
{
    if i == 0 {
        assert(ps.update(0, p).drop_first() =~= ps.drop_first());
    } else {
        assert(ps.update(i, p).drop_first() =~= ps.drop_first().update(i - 1, p));
        lemma_total_update(ps.drop_first(), i - 1, p);
    }
}

pub(crate) proof fn lemma_total_push(ps: Seq<Partition>, p: Partition)
    ensures
        total_of(ps.push(p)) == total_of(ps) + p.readings@.len(),
    decreases ps.len(),
{
    if ps.len() == 0 {
        assert(ps.push(p).drop_first() =~= Seq::<Partition>::empty());
        assert(total_of(Seq::<Partition>::empty()) == 0);
    } else {
        assert(ps.push(p).drop_first() =~= ps.drop_first().push(p));
        lemma_total_push(ps.drop_first(), p);
    }
}

pub(crate) proof fn lemma_total_remove(ps: Seq<Partition>, i: int)
    requires
        0 <= i < ps.len(),
    ensures
        total_of(ps.remove(i)) + ps[i].readings@.len() == total_of(ps),
    decreases ps.len(),
{
    if i == 0 {
        assert(ps.remove(0) =~= ps.drop_first());
    } else {
        assert(ps.remove(i).drop_first() =~= ps.drop_first().remove(i - 1));
        lemma_total_remove(ps.drop_first(), i - 1);
    }
}

/// The time-partitioned container: one partition per source currently
/// present, each sorted by timestamp, bucketed at `granularity`.
pub struct TimeSeriesStore {
    name: String,
    granularity: Granularity,
    partitions: Vec<Partition>,
}

impl TimeSeriesStore {
    /// The container's invariant: partitions are internally sorted, hold only
    /// their own source's validated readings, are never empty, and no two
    /// partitions share a source.
    pub closed spec fn well_formed(self) -> bool {
        &&& forall|i: int| 0 <= i < self.partitions@.len() ==> (#[trigger] self.partitions@[i]).inv()
        &&& forall|i: int, j: int|
            0 <= i < j < self.partitions@.len() ==> self.partitions@[i].source_id@
                != self.partitions@[j].source_id@
    }

    pub closed spec fn spec_name(self) -> Seq<char> {
        self.name@
    }

    pub closed spec fn spec_granularity(self) -> Granularity {
        self.granularity
    }

    /// Every source currently present.
    pub closed spec fn sources(self) -> Set<Seq<char>> {
        Set::new(|src: Seq<char>| find_partition(self.partitions@, src) != -1)
    }

    /// One source's readings in stored (time) order; empty for an unknown or
    /// purged source.
    pub closed spec fn series(self, src: Seq<char>) -> Seq<ReadingModel> {
        let f = find_partition(self.partitions@, src);
        if f == -1 {
            Seq::empty()
        } else {
            self.partitions@[f].model()
        }
    }

    /// The number of readings currently held, over all sources.
    pub closed spec fn total(self) -> nat {
        total_of(self.partitions@)
    }

    /// Creates a fresh, empty container with the given name and bucketing
    /// granularity. Repeated calls with the same name each yield a fresh
    /// container; a previous container of that name is discarded with the
    /// handle that owned it.
    pub fn initialize(name: String, granularity: Granularity) -> (s: TimeSeriesStore)
        ensures
            s.well_formed(),
            s.spec_name() == name@,
            s.spec_granularity() == granularity,
            s.sources() =~= Set::<Seq<char>>::empty(),
            forall|src: Seq<char>| #[trigger] s.series(src) == Seq::<ReadingModel>::empty(),
            s.total() == 0,
    {
        let s = TimeSeriesStore { name, granularity, partitions: Vec::new() };
        proof {
            assert forall|src: Seq<char>| #[trigger]
                s.series(src) == Seq::<ReadingModel>::empty() by {
                lemma_find_partition(s.partitions@, src);
            }
            assert(s.sources() =~= Set::<Seq<char>>::empty());
        }
        s
    }

    /// The container's name.
    pub fn name(&self) -> (n: &str)
        ensures
            n@ == self.spec_name(),
    {
        self.name.as_str()
    }

    /// The container's bucketing granularity.
    pub fn granularity(&self) -> (g: Granularity)
        ensures
            g == self.spec_granularity(),
    {
        self.granularity
    }

    /// The bucket a timestamp falls in at this container's granularity.
    pub fn bucket_of_millis(&self, t: i64) -> (b: u64)
        ensures
            b == bucket_of(t, self.spec_granularity()),
    {
        bucket_index(t, self.granularity)
    }
}

pub(crate) proof fn lemma_find_same_ids(ps1: Seq<Partition>, ps2: Seq<Partition>, src: Seq<char>)
    requires
        ps1.len() == ps2.len(),
        forall|k: int| 0 <= k < ps1.len() ==> (#[trigger] ps1[k]).source_id@ == ps2[k].source_id@,
    ensures
        find_partition(ps1, src) == find_partition(ps2, src),
    decreases ps1.len(),
{
    if ps1.len() > 0 {
        assert(ps1[0].source_id@ == ps2[0].source_id@);
        assert forall|k: int| 0 <= k < ps1.drop_first().len() implies (#[trigger] ps1.drop_first()[k]).source_id@
            == ps2.drop_first()[k].source_id@ by {
            assert(ps1.drop_first()[k] == ps1[k + 1]);
            assert(ps2.drop_first()[k] == ps2[k + 1]);
        }
        lemma_find_same_ids(ps1.drop_first(), ps2.drop_first(), src);
    }
}

/// Inserting a reading at its time-ordered position keeps a series sorted.
pub proof fn lemma_sorted_insert(s: Seq<ReadingModel>, r: ReadingModel)
    requires
        sorted_by_time(s),
    ensures
        sorted_by_time(s.insert(time_insert_pos(s, r.time_millis), r)),
{
    let p = time_insert_pos(s, r.time_millis);
    lemma_time_insert_pos(s, r.time_millis);
    let s2 = s.insert(p, r);
    assert forall|i: int, j: int| 0 <= i <= j < s2.len() implies s2[i].time_millis
        <= s2[j].time_millis by {
        if i < p {
            assert(s2[i] == s[i]);
        } else if i == p {
            assert(s2[i] == r);
        } else {
            assert(s2[i] == s[i - 1]);
        }
        if j < p {
            assert(s2[j] == s[j]);
        } else if j == p {
            assert(s2[j] == r);
        } else {
            assert(s2[j] == s[j - 1]);
        }
    }
}

pub(crate) proof fn lemma_models_insert(v: Seq<SensorReading>, j: int, r: SensorReading)
    requires
        0 <= j <= v.len(),
    ensures
        models_of(v.insert(j, r)) =~= models_of(v).insert(j, r@),
{
}

impl TimeSeriesStore {
    /// Appends one reading at its time-ordered place in its source's
    /// partition; a first reading opens the partition. Never overwrites:
    /// every other series is left exactly as it was, and the container grows
    /// by one.
    pub fn insert(&mut self, reading: SensorReading)
        requires
            old(self).well_formed(),
            reading_valid(reading@),
        ensures
            final(self).well_formed(),
            final(self).spec_name() == old(self).spec_name(),
            final(self).spec_granularity() == old(self).spec_granularity(),
            final(self).sources() == old(self).sources().insert(reading@.source_id),
            final(self).series(reading@.source_id) == old(self).series(
                reading@.source_id,
            ).insert(
                time_insert_pos(old(self).series(reading@.source_id), reading@.time_millis),
                reading@,
            ),
            forall|src: Seq<char>|
                src != reading@.source_id ==> #[trigger] final(self).series(src) == old(
                    self,
                ).series(src),
            final(self).total() == old(self).total() + 1,
    {
        let ghost ps0 = self.partitions@;
        let ghost src = reading@.source_id;
        let ghost t = reading@.time_millis;
        match find_index(&self.partitions, reading.source_id.as_str()) {
            Some(i) => {
                let mut part = self.partitions.remove(i);
                let ghost part0 = part;
                let pos = lower_insert_pos(&part.readings, reading.time_millis);
                part.readings.insert(pos, reading);
                let ghost part1 = part;
                self.partitions.insert(i, part);
                proof {
                    lemma_find_partition(ps0, src);
                    let ps2 = self.partitions@;
                    assert(ps2 =~= ps0.update(i as int, part1));
                    lemma_models_insert(part0.readings@, pos as int, reading);
                    assert(part1.model() == part0.model().insert(pos as int, reading@));
                    lemma_sorted_insert(part0.model(), reading@);
                    lemma_time_insert_pos(part0.model(), t);
                    assert(part1.inv()) by {
                        assert forall|k: int| 0 <= k < part1.model().len() implies (
                        #[trigger] part1.model()[k]).source_id == part1.source_id@ && reading_valid(
                            part1.model()[k],
                        ) by {
                            if k < pos {
                                assert(part1.model()[k] == part0.model()[k]);
                            } else if k == pos {
                                assert(part1.model()[k] == reading@);
                            } else {
                                assert(part1.model()[k] == part0.model()[k - 1]);
                            }
                        }
                    }
                    assert(final(self).well_formed());
                    assert forall|q: Seq<char>| true implies find_partition(ps2, q)
                        == find_partition(ps0, q) by {
                        lemma_find_same_ids(ps0, ps2, q);
                    }
                    assert(final(self).sources() =~= old(self).sources().insert(src));
                    assert(final(self).series(src) == old(self).series(src).insert(
                        time_insert_pos(old(self).series(src), t),
                        reading@,
                    ));
                    assert forall|q: Seq<char>| q != src implies #[trigger] final(self).series(q)
                        == old(self).series(q) by {
                        let f = find_partition(ps0, q);
                        if f != -1 {
                            lemma_find_partition(ps0, q);
                            assert(f != i as int);
                            assert(ps2[f] == ps0[f]);
                        }
                    }
                    lemma_total_update(ps0, i as int, part1);
                }
            },
            None => {
                let source_id = reading.source_id.clone();
                let mut readings: Vec<SensorReading> = Vec::new();
                readings.push(reading);
                let part = Partition { source_id, readings };
                let ghost part1 = part;
                self.partitions.push(part);
                proof {
                    lemma_find_partition(ps0, src);
                    let ps2 = self.partitions@;
                    assert(ps2 =~= ps0.push(part1));
                    assert(part1.model() =~= Seq::<ReadingModel>::empty().push(reading@));
                    assert(part1.inv());
                    assert(final(self).well_formed()) by {
                        assert forall|a: int, b: int|
                            0 <= a < b < ps2.len() implies ps2[a].source_id@
                            != ps2[b].source_id@ by {
                            if b == ps2.len() - 1 {
                                assert(ps2[a] == ps0[a]);
                            }
                        }
                    }
                    assert forall|q: Seq<char>| true implies (find_partition(ps2, q) != -1 <==> (
                    find_partition(ps0, q) != -1 || q == src)) by {
                        lemma_find_partition(ps2, q);
                        lemma_find_partition(ps0, q);
                        let f2 = find_partition(ps2, q);
                        let f0 = find_partition(ps0, q);
                        if f2 != -1 {
                            if f2 < ps0.len() {
                                assert(ps2[f2] == ps0[f2]);
                            } else {
                                assert(ps2[f2] == part1);
                            }
                        }
                        if f0 != -1 {
                            assert(ps2[f0] == ps0[f0]);
                        }
                        if q == src {
                            assert(ps2[ps0.len() as int] == part1);
                        }
                    }
                    assert(final(self).sources() =~= old(self).sources().insert(src));
                    assert(old(self).series(src) == Seq::<ReadingModel>::empty());
                    assert(final(self).series(src) =~= old(self).series(src).insert(
                        time_insert_pos(old(self).series(src), t),
                        reading@,
                    )) by {
                        lemma_find_partition(ps2, src);
                        let f2 = find_partition(ps2, src);
                        assert(ps2[ps0.len() as int] == part1);
                        assert(f2 != -1);
                        if f2 < ps0.len() {
                            assert(ps2[f2] == ps0[f2]);
                        }
                        assert(f2 == ps0.len() as int);
                    }
                    assert forall|q: Seq<char>| q != src implies #[trigger] final(self).series(q)
                        == old(self).series(q) by {
                        lemma_find_partition(ps2, q);
                        lemma_find_partition(ps0, q);
                        let f2 = find_partition(ps2, q);
                        let f0 = find_partition(ps0, q);
                        if f0 != -1 {
                            assert(ps2[f0] == ps0[f0]);
                            assert(f2 != -1);
                            assert(ps2[f2].source_id@ == q);
                            assert(f2 != ps0.len() as int);
                            assert(ps2[f2] == ps0[f2]);
                            if f2 != f0 {
                                assert(ps0[f2].source_id@ != ps0[f0].source_id@);
                            }
                            assert(f2 == f0);
                        } else {
                            if f2 != -1 {
                                assert(ps2[f2].source_id@ == q);
                                if f2 < ps0.len() {
                                    assert(ps2[f2] == ps0[f2]);
                                    assert(ps0[f2].source_id@ != q);
                                } else {
                                    assert(ps2[f2] == part1);
                                }
                                assert(false);
                            }
                        }
                    }
                    lemma_total_push(ps0, part1);
                }
            },
        }
    }

    /// Removes every reading of one source, returning how many went; a no-op
    /// (and a zero count) for a source with no readings. No other series is
    /// touched.
    pub fn delete_by_source(&mut self, source: &str) -> (removed: usize)
        requires
            old(self).well_formed(),
        ensures
            final(self).well_formed(),
            final(self).spec_name() == old(self).spec_name(),
            final(self).spec_granularity() == old(self).spec_granularity(),
            final(self).sources() == old(self).sources().remove(source@),
            final(self).series(source@) == Seq::<ReadingModel>::empty(),
            forall|src: Seq<char>|
                src != source@ ==> #[trigger] final(self).series(src) == old(self).series(src),
            removed == old(self).series(source@).len(),
            final(self).total() + removed == old(self).total(),
    {
        let ghost ps0 = self.partitions@;
        match find_index(&self.partitions, source) {
            Some(i) => {
                let part = self.partitions.remove(i);
                let removed = part.readings.len();
                proof {
                    lemma_find_partition(ps0, source@);
                    let ps2 = self.partitions@;
                    assert(final(self).well_formed()) by {
                        assert forall|k: int| 0 <= k < ps2.len() implies (
                        #[trigger] ps2[k]).inv() by {
                            if k < i {
                                assert(ps2[k] == ps0[k]);
                            } else {
                                assert(ps2[k] == ps0[k + 1]);
                            }
                        }
                        assert forall|a: int, b: int|
                            0 <= a < b < ps2.len() implies ps2[a].source_id@
                            != ps2[b].source_id@ by {
                            let a0 = if a < i { a } else { a + 1 };
                            let b0 = if b < i { b } else { b + 1 };
                            assert(ps2[a] == ps0[a0]);
                            assert(ps2[b] == ps0[b0]);
                        }
                    }
                    assert forall|q: Seq<char>| true implies (find_partition(ps2, q) != -1 <==> (
                    find_partition(ps0, q) != -1 && q != source@)) by {
                        lemma_find_partition(ps2, q);
                        lemma_find_partition(ps0, q);
                        let f2 = find_partition(ps2, q);
                        let f0 = find_partition(ps0, q);
                        if f2 != -1 {
                            let h = if f2 < i { f2 } else { f2 + 1 };
                            assert(ps2[f2] == ps0[h]);
                            assert(f0 != -1);
                            assert(q != source@);
                        }
                        if f0 != -1 && q != source@ {
                            let h2 = if f0 < i { f0 } else { f0 - 1 };
                            assert(f0 != i as int);
                            assert(ps2[h2] == ps0[f0]);
                            assert(f2 != -1);
                        }
                    }
                    assert(final(self).sources() =~= old(self).sources().remove(source@));
                    assert(final(self).series(source@) == Seq::<ReadingModel>::empty());
                    assert forall|q: Seq<char>| q != source@ implies #[trigger] final(self).series(
                        q,
                    ) == old(self).series(q) by {
                        lemma_find_partition(ps2, q);
                        lemma_find_partition(ps0, q);
                        let f2 = find_partition(ps2, q);
                        let f0 = find_partition(ps0, q);
                        if f0 != -1 {
                            assert(f2 != -1);
                            let h = if f2 < i { f2 } else { f2 + 1 };
                            assert(ps2[f2] == ps0[h]);
                            assert(h != i as int);
                            assert(ps0[h].source_id@ == q);
                            if h != f0 {
                                assert(ps0[h].source_id@ != ps0[f0].source_id@);
                            }
                            assert(h == f0);
                        } else {
                            assert(f2 == -1);
                        }
                    }
                    lemma_total_remove(ps0, i as int);
                }
                removed
            },
            None => {
                proof {
                    lemma_find_partition(ps0, source@);
                    assert(final(self).sources() =~= old(self).sources().remove(source@));
                    assert(old(self).series(source@) == Seq::<ReadingModel>::empty());
                }
                0
            },
        }
    }

    /// Every source currently present, duplicate-free, in no promised order.
    pub fn distinct_sources(&self) -> (r: Vec<String>)
        requires
            self.well_formed(),
        ensures
            forall|a: int, b: int| 0 <= a < b < r@.len() ==> r@[a]@ != r@[b]@,
            forall|src: Seq<char>|
                #[trigger] self.sources().contains(src) <==> exists|k: int|
                    0 <= k < r@.len() && #[trigger] r@[k]@ == src,
    {
        let n = self.partitions.len();
        let mut r: Vec<String> = Vec::new();
        let mut i: usize = 0;
        while i < n
            invariant
                0 <= i <= n,
                n == self.partitions@.len(),
                r@.len() == i,
                forall|k: int| 0 <= k < i ==> #[trigger] r@[k]@ == self.partitions@[k].source_id@,
            decreases n - i,
        {
            r.push(self.partitions[i].source_id.clone());
            i = i + 1;
        }
        proof {
            assert forall|a: int, b: int| 0 <= a < b < r@.len() implies r@[a]@ != r@[b]@ by {
                assert(self.partitions@[a].source_id@ != self.partitions@[b].source_id@);
            }
            assert forall|src: Seq<char>| #[trigger]
                self.sources().contains(src) <==> exists|k: int|
                    0 <= k < r@.len() && #[trigger] r@[k]@ == src by {
                lemma_find_partition(self.partitions@, src);
                if self.sources().contains(src) {
                    let f = find_partition(self.partitions@, src);
                    assert(r@[f]@ == src);
                }
                if exists|k: int| 0 <= k < r@.len() && #[trigger] r@[k]@ == src {
                    let k = choose|k: int| 0 <= k < r@.len() && #[trigger] r@[k]@ == src;
                    assert(self.partitions@[k].source_id@ == src);
                }
            }
        }
        r
    }

    /// All readings of one source, sorted ascending by timestamp; an unknown
    /// or purged source yields the empty sequence, never an error.
    pub fn query_ordered(&self, source: &str) -> (r: Vec<SensorReading>)
        requires
            self.well_formed(),
        ensures
            models_of(r@) == self.series(source@),
    {
        match find_index(&self.partitions, source) {
            Some(i) => {
                let part = &self.partitions[i];
                let n = part.readings.len();
                let mut out: Vec<SensorReading> = Vec::new();
                let mut j: usize = 0;
                while j < n
                    invariant
                        0 <= j <= n,
                        n == part.readings@.len(),
                        out@.len() == j,
                        forall|k: int| 0 <= k < j ==> #[trigger] out@[k]@ == part.readings@[k]@,
                    decreases n - j,
                {
                    out.push(part.readings[j].duplicate());
                    j = j + 1;
                }
                proof {
                    assert(models_of(out@) =~= part.model());
                }
                out
            },
            None => {
                let out: Vec<SensorReading> = Vec::new();
                proof {
                    assert(models_of(out@) =~= Seq::<ReadingModel>::empty());
                }
                out
            },
        }
    }

    /// The readings of one source in a well-formed container are sorted
    /// non-decreasing by timestamp.
    pub proof fn lemma_series_sorted(self, src: Seq<char>)
        requires
            self.well_formed(),
        ensures
            sorted_by_time(self.series(src)),
    {
        lemma_find_partition(self.partitions@, src);
    }

    /// Every reading a series hands back belongs to the queried source and
    /// passed validation when it was decoded.
    pub proof fn lemma_series_well_formed(self, src: Seq<char>)
        requires
            self.well_formed(),
        ensures
            forall|i: int|
                0 <= i < self.series(src).len() ==> (#[trigger] self.series(src)[i]).source_id
                    == src && reading_valid(self.series(src)[i]),
    {
        lemma_find_partition(self.partitions@, src);
    }

    /// A source is present exactly when it has readings: `distinct_sources`
    /// lists a source if and only if its series is non-empty.
    pub proof fn lemma_sources_series(self, src: Seq<char>)
        requires
            self.well_formed(),
        ensures
            self.sources().contains(src) <==> self.series(src).len() > 0,
    {
        lemma_find_partition(self.partitions@, src);
        let f = find_partition(self.partitions@, src);
        if f != -1 {
            assert(self.partitions@[f].inv());
        }
    }

    /// Readings of one time bucket sit contiguously in a series: between two
    /// readings of a bucket no reading of another bucket appears.
    pub proof fn lemma_series_buckets_contiguous(
        self,
        src: Seq<char>,
        i: int,
        j: int,
        k: int,
    )
        requires
            self.well_formed(),
            0 <= i <= j <= k < self.series(src).len(),
            bucket_of(self.series(src)[i].time_millis, self.spec_granularity()) == bucket_of(
                self.series(src)[k].time_millis,
                self.spec_granularity(),
            ),
        ensures
            bucket_of(self.series(src)[j].time_millis, self.spec_granularity()) == bucket_of(
                self.series(src)[i].time_millis,
                self.spec_granularity(),
            ),
    {
        self.lemma_series_sorted(src);
        lemma_bucket_monotone(
            self.series(src)[i].time_millis,
            self.series(src)[j].time_millis,
            self.spec_granularity(),
        );
        lemma_bucket_monotone(
            self.series(src)[j].time_millis,
            self.series(src)[k].time_millis,
            self.spec_granularity(),
        );
    }
}

/// Finds where a reading with timestamp `t` goes in a sorted run of readings.
fn lower_insert_pos(readings: &Vec<SensorReading>, t: i64) -> (pos: usize)
    ensures
        pos == time_insert_pos(models_of(readings@), t),
        pos <= readings@.len(),
{
    let n = readings.len();
    let mut j: usize = 0;
    while j < n && readings[j].time_millis <= t
        invariant
            0 <= j <= n,
            n == readings@.len(),
            forall|k: int| 0 <= k < j ==> #[trigger] models_of(readings@)[k].time_millis <= t,
        decreases n - j,
    {
        j = j + 1;
    }
    proof {
        let s = models_of(readings@);
        lemma_time_insert_pos(s, t);
        let p = time_insert_pos(s, t);
        if p < j {
            assert(s[p].time_millis <= t);
        }
        if j < p {
            assert(s[j as int].time_millis <= t);
            assert(readings@[j as int]@.time_millis > t);
        }
    }
    j
}

/// Finds the partition holding a source, if one is present.
pub(crate) fn find_index(partitions: &Vec<Partition>, src: &str) -> (r: Option<usize>)
    ensures
        r is Some ==> r->Some_0 == find_partition(partitions@, src@)
            && find_partition(partitions@, src@) != -1 && r->Some_0 < partitions@.len()
            && partitions@[r->Some_0 as int].source_id@ == src@,
        r is None ==> find_partition(partitions@, src@) == -1,
{
    let n = partitions.len();
    let mut i: usize = 0;
    while i < n
        invariant
            0 <= i <= n,
            n == partitions@.len(),
            forall|k: int| 0 <= k < i ==> (#[trigger] partitions@[k]).source_id@ != src@,
        decreases n - i,
    {
        if string_eq_str(&partitions[i].source_id, src) {
            proof {
                lemma_find_partition(partitions@, src@);
                assert(partitions@[i as int].source_id@ == src@);
                let f = find_partition(partitions@, src@);
                if f == -1 {
                    assert(partitions@[i as int].source_id@ != src@);
                }
                assert(f != -1);
                if f < i {
                    assert(partitions@[f].source_id@ != src@);
                }
                assert(f == i);
            }
            return Some(i);
        }
        i = i + 1;
    }
    proof {
        lemma_find_partition(partitions@, src@);
    }
    None
}

/// Compares a stored identifier against borrowed text.
fn string_eq_str(a: &String, b: &str) -> (r: bool)
    ensures
        r == (a@ == b@),
{
    let owned: String = b.to_owned();
    a.eq(&owned)
}

} // verus!
