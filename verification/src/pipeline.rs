//! The ingestion pipeline: one bounded pass over raw tuples, decoding each
//! and inserting what decodes, aggregating per-record failures without
//! aborting the load.

use vstd::prelude::*;
use crate::codec::DecodeError;
use crate::codec::DecodeErrorModel;
use crate::codec::ReadingModel;
use crate::codec::decode;
use crate::codec::error_of_row;
use crate::codec::reading_of_row;
use crate::codec::row_valid;
use crate::store::TimeSeriesStore;
use crate::store::time_insert_pos;

verus! {

/// What one run ingested: how many records went in, and, for each rejected
/// record, its position in the input and the cause.
pub struct IngestSummary {
    pub accepted: usize,
    pub rejected: Vec<(usize, DecodeError)>,
}

/// The models of the collected rejections.
pub open spec fn rejects_model(v: Seq<(usize, DecodeError)>) -> Seq<(int, DecodeErrorModel)> {
    Seq::new(v.len(), |i: int| (v[i].0 as int, v[i].1@))
}

/// How many of the rows decode.
pub open spec fn count_valid(rows: Seq<Seq<Seq<char>>>) -> int
    decreases rows.len(),
{
    if rows.len() == 0 {
        0
    } else {
        count_valid(rows.drop_last()) + if row_valid(rows.last()) {
            1int
        } else {
            0int
        }
    }
}

/// The rejections a run over the rows reports: one entry per invalid row, in
/// row order, carrying the row's position and its decode error.
pub open spec fn rejects_of(rows: Seq<Seq<Seq<char>>>) -> Seq<(int, DecodeErrorModel)>
    decreases rows.len(),
{
    if rows.len() == 0 {
        Seq::empty()
    } else {
        rejects_of(rows.drop_last()) + if row_valid(rows.last()) {
            Seq::empty()
        } else {
            seq![(rows.len() - 1, error_of_row(rows.last()))]
        }
    }
}

/// What one source's series becomes after the valid rows are ingested in row
/// order, each at its time-ordered position.
pub open spec fn ingest_series(
    start: Seq<ReadingModel>,
    rows: Seq<Seq<Seq<char>>>,
    src: Seq<char>,
) -> Seq<ReadingModel>
    decreases rows.len(),
{
    if rows.len() == 0 {
        start
    } else {
        let prefix = ingest_series(start, rows.drop_last(), src);
        if row_valid(rows.last()) && reading_of_row(rows.last()).source_id == src {
            prefix.insert(
                time_insert_pos(prefix, reading_of_row(rows.last()).time_millis),
                reading_of_row(rows.last()),
            )
        } else {
            prefix
        }
    }
}

/// The sources present after the valid rows are ingested.
pub open spec fn ingest_sources(start: Set<Seq<char>>, rows: Seq<Seq<Seq<char>>>) -> Set<Seq<char>>
    decreases rows.len(),
{
    if rows.len() == 0 {
        start
    } else {
        let prefix = ingest_sources(start, rows.drop_last());
        if row_valid(rows.last()) {
            prefix.insert(reading_of_row(rows.last()).source_id)
        } else {
            prefix
        }
    }
}

/// How many of the rows decode to a reading of the given source.
pub open spec fn count_valid_for(rows: Seq<Seq<Seq<char>>>, src: Seq<char>) -> int
    decreases rows.len(),
{
    if rows.len() == 0 {
        0
    } else {
        count_valid_for(rows.drop_last(), src) + if row_valid(rows.last()) && reading_of_row(
            rows.last(),
        ).source_id == src {
            1int
        } else {
            0int
        }
    }
}

/// Ingesting rows grows one source's series by exactly one reading per valid
/// row of that source.
pub proof fn lemma_ingest_series_len(
    start: Seq<ReadingModel>,
    rows: Seq<Seq<Seq<char>>>,
    src: Seq<char>,
)
    ensures
        ingest_series(start, rows, src).len() == start.len() + count_valid_for(rows, src),
    decreases rows.len(),
{
    if rows.len() > 0 {
        lemma_ingest_series_len(start, rows.drop_last(), src);
        if row_valid(rows.last()) && reading_of_row(rows.last()).source_id == src {
            let prefix = ingest_series(start, rows.drop_last(), src);
            crate::store::lemma_time_insert_pos(prefix, reading_of_row(rows.last()).time_millis);
        }
    }
}

/// After ingesting rows that are all valid and all of one source into a
/// fresh container, that source's series holds one reading per row, and the
/// source set is exactly that one source, or empty when there are no rows.
pub proof fn lemma_ingest_single_source(rows: Seq<Seq<Seq<char>>>, src: Seq<char>)
    requires
        forall|k: int|
            0 <= k < rows.len() ==> row_valid(#[trigger] rows[k]) && reading_of_row(
                rows[k],
            ).source_id == src,
    ensures
        ingest_series(Seq::<ReadingModel>::empty(), rows, src).len() == rows.len(),
        rows.len() == 0 ==> ingest_sources(Set::<Seq<char>>::empty(), rows) == Set::<
            Seq<char>,
        >::empty(),
        rows.len() > 0 ==> ingest_sources(Set::<Seq<char>>::empty(), rows) == Set::<
            Seq<char>,
        >::empty().insert(src),
    decreases rows.len(),
{
    lemma_ingest_series_len(Seq::<ReadingModel>::empty(), rows, src);
    assert(count_valid_for(rows, src) == rows.len() as int) by {
        lemma_count_valid_for_all(rows, src);
    }
    if rows.len() > 0 {
        assert forall|k: int|
            0 <= k < rows.drop_last().len() implies row_valid(#[trigger] rows.drop_last()[k])
            && reading_of_row(rows.drop_last()[k]).source_id == src by {
            assert(rows.drop_last()[k] == rows[k]);
        }
        lemma_ingest_single_source(rows.drop_last(), src);
        assert(rows.last() == rows[rows.len() - 1]);
        assert(ingest_sources(Set::<Seq<char>>::empty(), rows) =~= Set::<
            Seq<char>,
        >::empty().insert(src));
    }
}

proof fn lemma_count_valid_for_all(rows: Seq<Seq<Seq<char>>>, src: Seq<char>)
    requires
        forall|k: int|
            0 <= k < rows.len() ==> row_valid(#[trigger] rows[k]) && reading_of_row(
                rows[k],
            ).source_id == src,
    ensures
        count_valid_for(rows, src) == rows.len() as int,
    decreases rows.len(),
{
    if rows.len() > 0 {
        assert forall|k: int|
            0 <= k < rows.drop_last().len() implies row_valid(#[trigger] rows.drop_last()[k])
            && reading_of_row(rows.drop_last()[k]).source_id == src by {
            assert(rows.drop_last()[k] == rows[k]);
        }
        lemma_count_valid_for_all(rows.drop_last(), src);
        assert(rows.last() == rows[rows.len() - 1]);
    }
}

/// Streams the raw tuples into the store in order: each valid record is
/// inserted, each malformed record is collected with its position and cause,
/// and the run never aborts on a malformed record.
pub fn run(rows: &Vec<Vec<String>>, store: &mut TimeSeriesStore) -> (summary: IngestSummary)
    requires
        old(store).well_formed(),
    ensures
        final(store).well_formed(),
        final(store).spec_name() == old(store).spec_name(),
        final(store).spec_granularity() == old(store).spec_granularity(),
        summary.accepted == count_valid(rows.deep_view()),
        summary.accepted + summary.rejected@.len() == rows@.len(),
        rejects_model(summary.rejected@) == rejects_of(rows.deep_view()),
        forall|src: Seq<char>| #[trigger]
            final(store).series(src) == ingest_series(old(store).series(src), rows.deep_view(), src),
        final(store).sources() == ingest_sources(old(store).sources(), rows.deep_view()),
        final(store).total() == old(store).total() + summary.accepted,
{
    let ghost rv = rows.deep_view();
    let n = rows.len();
    let mut accepted: usize = 0;
    let mut rejected: Vec<(usize, DecodeError)> = Vec::new();
    let mut i: usize = 0;
    proof {
        assert(rv.take(0) =~= Seq::<Seq<Seq<char>>>::empty());
        assert(rejects_model(rejected@) =~= rejects_of(rv.take(0)));
        assert forall|src: Seq<char>| #[trigger]
            store.series(src) == ingest_series(old(store).series(src), rv.take(0), src) by {
        }
        assert(store.sources() =~= ingest_sources(old(store).sources(), rv.take(0)));
    }
    while i < n
        invariant
            0 <= i <= n,
            n == rows@.len(),
            rv == rows.deep_view(),
            store.well_formed(),
            store.spec_name() == old(store).spec_name(),
            store.spec_granularity() == old(store).spec_granularity(),
            accepted == count_valid(rv.take(i as int)),
            accepted + rejected@.len() == i,
            rejects_model(rejected@) == rejects_of(rv.take(i as int)),
            forall|src: Seq<char>| #[trigger]
                store.series(src) == ingest_series(old(store).series(src), rv.take(i as int), src),
            store.sources() == ingest_sources(old(store).sources(), rv.take(i as int)),
            store.total() == old(store).total() + accepted,
        decreases n - i,
    {
        let row = &rows[i];
        proof {
            assert(rv[i as int] == rows@[i as int].deep_view());
            assert(rv.take(i + 1).drop_last() =~= rv.take(i as int));
            assert(rv.take(i + 1).last() == rv[i as int]);
        }
        let ghost series_before = *store;
        match decode(row) {
            Ok(reading) => {
                let ghost r_model = reading@;
                store.insert(reading);
                accepted = accepted + 1;
                proof {
                    assert(r_model == reading_of_row(rv[i as int]));
                    assert forall|src: Seq<char>| #[trigger]
                        store.series(src) == ingest_series(
                            old(store).series(src),
                            rv.take(i + 1),
                            src,
                        ) by {
                        if src == r_model.source_id {
                            assert(store.series(src) == series_before.series(src).insert(
                                time_insert_pos(series_before.series(src), r_model.time_millis),
                                r_model,
                            ));
                        } else {
                            assert(store.series(src) == series_before.series(src));
                        }
                    }
                    assert(store.sources() =~= ingest_sources(
                        old(store).sources(),
                        rv.take(i + 1),
                    ));
                    assert(rejects_model(rejected@) =~= rejects_of(rv.take(i + 1)));
                }
            },
            Err(cause) => {
                let ghost cause_model = cause@;
                rejected.push((i, cause));
                proof {
                    assert(cause_model == error_of_row(rv[i as int]));
                    assert(rejects_model(rejected@) =~= rejects_of(rv.take(i + 1)));
                    assert forall|src: Seq<char>| #[trigger]
                        store.series(src) == ingest_series(
                            old(store).series(src),
                            rv.take(i + 1),
                            src,
                        ) by {
                    }
                    assert(store.sources() =~= ingest_sources(
                        old(store).sources(),
                        rv.take(i + 1),
                    ));
                }
            },
        }
        i = i + 1;
    }
    proof {
        assert(rv.take(n as int) =~= rv);
    }
    IngestSummary { accepted, rejected }
}

} // verus!
