use buoy_series::codec::{decode, DecodeError, NumericField};
use buoy_series::facade::{list_sources, series_for};
use buoy_series::numeric::check_numeric;
use buoy_series::pipeline::run;
use buoy_series::store::{bucket_index, Granularity, TimeSeriesStore};

fn row(fields: &[&str]) -> Vec<String> {
    fields.iter().map(|f| f.to_string()).collect()
}

fn valid_row(time: &str, source: &str, swh: &str) -> Vec<String> {
    row(&[time, "-10.55", "54.27", source, swh, "6.0", "201.0", "20.29", "11.71", "7.62"])
}

fn fresh_store() -> TimeSeriesStore {
    TimeSeriesStore::initialize("coll".to_string(), Granularity::Minutes)
}

#[test]
fn decode_valid_tuple_preserves_every_field() {
    let r = decode(&valid_row("2017-01-01T00:00:00Z", "Belmullet_Inner", "1.0")).unwrap();
    assert_eq!(r.time_millis, 1483228800000);
    assert_eq!(r.longitude, "-10.55");
    assert_eq!(r.latitude, "54.27");
    assert_eq!(r.source_id, "Belmullet_Inner");
    assert_eq!(r.significant_wave_height, "1.0");
    assert_eq!(r.mean_wave_period, "6.0");
    assert_eq!(r.mean_wave_direction, "201.0");
    assert_eq!(r.wave_power, "20.29");
    assert_eq!(r.peak_period, "11.71");
    assert_eq!(r.energy_period, "7.62");
}

#[test]
fn decode_round_trips_numeric_values() {
    let r = decode(&valid_row("2017-01-01T06:30:00Z", "M4", "2.25")).unwrap();
    let swh: f64 = r.significant_wave_height.parse().unwrap();
    assert!((swh - 2.25).abs() < 1e-12);
    let lon: f64 = r.longitude.parse().unwrap();
    assert!((lon - (-10.55)).abs() < 1e-12);
}

#[test]
fn decode_rejects_unparseable_timestamp() {
    let r = decode(&valid_row("yesterday", "M4", "1.0"));
    match r {
        Err(DecodeError::InvalidTimestamp { text }) => assert_eq!(text, "yesterday"),
        _ => panic!("expected an invalid-timestamp rejection"),
    }
}

#[test]
fn decode_rejects_non_numeric_measurement() {
    let mut fields = valid_row("2017-01-01T00:00:00Z", "M4", "1.0");
    fields[7] = "n/a".to_string();
    match decode(&fields) {
        Err(DecodeError::InvalidNumber { field, value }) => {
            assert_eq!(field, NumericField::WavePower);
            assert_eq!(value, "n/a");
        }
        _ => panic!("expected an invalid-number rejection"),
    }
}

#[test]
fn decode_rejects_empty_source_id() {
    let mut fields = valid_row("2017-01-01T00:00:00Z", "M4", "1.0");
    fields[3] = "".to_string();
    assert!(matches!(decode(&fields), Err(DecodeError::MissingSourceId)));
}

#[test]
fn decode_rejects_whitespace_only_source_id() {
    let mut fields = valid_row("2017-01-01T00:00:00Z", "M4", "1.0");
    fields[3] = "  \t ".to_string();
    assert!(matches!(decode(&fields), Err(DecodeError::MissingSourceId)));
}

#[test]
fn decode_keeps_source_id_verbatim_when_it_has_content() {
    let r = decode(&valid_row("2017-01-01T00:00:00Z", " M4 ", "1.0")).unwrap();
    assert_eq!(r.source_id, " M4 ");
}

#[test]
fn scientific_notation_ingests_and_projects() {
    let mut store = fresh_store();
    store.insert(decode(&valid_row("2017-01-01T00:00:00Z", "M4", "1e-2")).unwrap());
    let series = series_for(&store, "M4", NumericField::SignificantWaveHeight);
    assert_eq!(series, vec![(0, "1e-2".to_string())]);
    let value: f64 = series[0].1.parse().unwrap();
    assert!((value - 0.01).abs() < 1e-12);
}

#[test]
fn decode_reads_missing_trailing_columns_as_empty() {
    // A short row fails on its first empty numeric column, not with a panic.
    let fields = row(&["2017-01-01T00:00:00Z", "-10.55", "54.27", "M4", "1.0"]);
    match decode(&fields) {
        Err(DecodeError::InvalidNumber { field, value }) => {
            assert_eq!(field, NumericField::MeanWavePeriod);
            assert_eq!(value, "");
        }
        _ => panic!("expected an invalid-number rejection"),
    }
}

#[test]
fn decode_reports_first_bad_column_in_order() {
    let mut fields = valid_row("bad-time", "M4", "oops");
    fields[1] = "east".to_string();
    match decode(&fields) {
        Err(DecodeError::InvalidTimestamp { text }) => assert_eq!(text, "bad-time"),
        _ => panic!("the timestamp column is checked first"),
    }
}

#[test]
fn numeric_grammar_accepts_and_rejects() {
    for ok in [
        "0", "7", "54.27", "-10.55", "+3.25", "000.5", "12345", "1.", "5.", ".5", "-.5", "1e5",
        "1E5", "1.5e-3", "2E+4", "5.e2", "inf", "INF", "-inf", "+inf", "infinity", "Infinity",
        "nan", "NaN", "-NAN",
    ] {
        assert!(check_numeric(ok), "{ok} should be accepted");
    }
    for bad in [
        "", "-", "+", ".", "1.2.3", " 1", "1 ", "--1", "5-", "e5", "1e", "1e+", "1e5.2", "infx",
        "in", "n/a", "0x10", "1,5",
    ] {
        assert!(!check_numeric(bad), "{bad} should be rejected");
    }
}

#[test]
fn fresh_container_lists_no_sources() {
    let store = fresh_store();
    assert!(store.distinct_sources().is_empty());
    assert!(list_sources(&store).is_empty());
}

#[test]
fn initialize_again_yields_fresh_empty_container() {
    let mut store = fresh_store();
    store.insert(decode(&valid_row("2017-01-01T00:00:00Z", "M4", "1.0")).unwrap());
    let store = TimeSeriesStore::initialize("coll".to_string(), Granularity::Minutes);
    assert!(store.distinct_sources().is_empty());
    assert!(store.query_ordered("M4").is_empty());
}

#[test]
fn inserts_for_one_source_query_back_sorted() {
    let mut store = fresh_store();
    // Deliberately out of order.
    for time in [
        "2017-01-01T00:05:00Z",
        "2017-01-01T00:01:00Z",
        "2017-01-01T00:03:00Z",
        "2017-01-01T00:01:30Z",
    ] {
        store.insert(decode(&valid_row(time, "M4", "1.0")).unwrap());
    }
    let sources = store.distinct_sources();
    assert_eq!(sources, vec!["M4".to_string()]);
    let series = store.query_ordered("M4");
    assert_eq!(series.len(), 4);
    for w in series.windows(2) {
        assert!(w[0].time_millis <= w[1].time_millis);
    }
}

#[test]
fn duplicate_timestamps_are_kept_as_distinct_readings() {
    let mut store = fresh_store();
    store.insert(decode(&valid_row("2017-01-01T00:00:00Z", "M4", "1.0")).unwrap());
    store.insert(decode(&valid_row("2017-01-01T00:00:00Z", "M4", "2.0")).unwrap());
    let series = store.query_ordered("M4");
    assert_eq!(series.len(), 2);
    assert_eq!(series[0].significant_wave_height, "1.0");
    assert_eq!(series[1].significant_wave_height, "2.0");
}

#[test]
fn unknown_source_queries_empty_not_error() {
    let store = fresh_store();
    assert!(store.query_ordered("Nowhere").is_empty());
}

#[test]
fn delete_by_source_purges_only_that_source() {
    let mut store = fresh_store();
    store.insert(decode(&valid_row("2017-01-01T00:00:00Z", "M4", "1.0")).unwrap());
    store.insert(decode(&valid_row("2017-01-01T00:01:00Z", "M4", "1.2")).unwrap());
    store.insert(decode(&valid_row("2017-01-01T00:00:00Z", "M5", "0.8")).unwrap());
    let removed = store.delete_by_source("M4");
    assert_eq!(removed, 2);
    assert!(store.query_ordered("M4").is_empty());
    assert_eq!(store.distinct_sources(), vec!["M5".to_string()]);
    assert_eq!(store.query_ordered("M5").len(), 1);
    // Deleting an absent source is a no-op, not an error.
    assert_eq!(store.delete_by_source("M4"), 0);
}

#[test]
fn run_counts_accepted_and_rejected_with_positions() {
    let rows = vec![
        valid_row("2017-01-01T00:00:00Z", "M4", "1.0"),
        valid_row("not-a-time", "M4", "1.0"),
        valid_row("2017-01-01T00:02:00Z", "M5", "2.0"),
        valid_row("2017-01-01T00:03:00Z", "", "2.0"),
        valid_row("2017-01-01T00:04:00Z", "M4", "1.5"),
    ];
    let mut store = fresh_store();
    let summary = run(&rows, &mut store);
    assert_eq!(summary.accepted, 3);
    assert_eq!(summary.rejected.len(), 2);
    assert_eq!(summary.rejected[0].0, 1);
    assert!(matches!(summary.rejected[0].1, DecodeError::InvalidTimestamp { .. }));
    assert_eq!(summary.rejected[1].0, 3);
    assert!(matches!(summary.rejected[1].1, DecodeError::MissingSourceId));
    let total: usize = store
        .distinct_sources()
        .iter()
        .map(|s| store.query_ordered(s).len())
        .sum();
    assert_eq!(total, 3);
}

#[test]
fn list_sources_is_lexicographically_sorted() {
    let mut store = fresh_store();
    for source in ["M6", "Belmullet_Inner", "M4", "AMETS", "M5"] {
        store.insert(decode(&valid_row("2017-01-01T00:00:00Z", source, "1.0")).unwrap());
    }
    let listed = list_sources(&store);
    assert_eq!(listed, vec!["AMETS", "Belmullet_Inner", "M4", "M5", "M6"]);
    // Deterministic across calls on unchanged data.
    assert_eq!(list_sources(&store), listed);
}

#[test]
fn three_row_scenario_plots_and_purges() {
    let rows = vec![
        valid_row("2017-01-01T00:00:00Z", "Belmullet_Inner", "1.0"),
        valid_row("2017-01-01T00:01:00Z", "Belmullet_Inner", "2.0"),
        valid_row("2017-01-01T00:02:00Z", "Belmullet_Inner", "1.5"),
    ];
    let mut store = fresh_store();
    let summary = run(&rows, &mut store);
    assert_eq!(summary.accepted, 3);
    assert!(summary.rejected.is_empty());
    let series = series_for(&store, "Belmullet_Inner", NumericField::SignificantWaveHeight);
    let plotted: Vec<(usize, f64)> =
        series.iter().map(|(i, v)| (*i, v.parse().unwrap())).collect();
    assert_eq!(plotted, vec![(0, 1.0), (1, 2.0), (2, 1.5)]);
    store.delete_by_source("Belmullet_Inner");
    let series = series_for(&store, "Belmullet_Inner", NumericField::SignificantWaveHeight);
    assert!(series.is_empty());
}

#[test]
fn series_for_projects_the_chosen_dimension() {
    let mut store = fresh_store();
    store.insert(decode(&valid_row("2017-01-01T00:00:00Z", "M4", "1.0")).unwrap());
    let lat = series_for(&store, "M4", NumericField::Latitude);
    assert_eq!(lat, vec![(0, "54.27".to_string())]);
    let peak = series_for(&store, "M4", NumericField::PeakPeriod);
    assert_eq!(peak, vec![(0, "11.71".to_string())]);
}

#[test]
fn timestamps_parse_to_epoch_milliseconds() {
    let r = decode(&valid_row("1970-01-01T00:00:00Z", "M4", "1.0")).unwrap();
    assert_eq!(r.time_millis, 0);
    let r = decode(&valid_row("1969-12-31T23:59:59Z", "M4", "1.0")).unwrap();
    assert_eq!(r.time_millis, -1000);
    let r = decode(&valid_row("2017-01-01T00:00:00.250Z", "M4", "1.0")).unwrap();
    assert_eq!(r.time_millis, 1483228800250);
    let r = decode(&valid_row("2017-01-01T01:00:00+01:00", "M4", "1.0")).unwrap();
    assert_eq!(r.time_millis, 1483228800000);
}

#[test]
fn bucket_width_orders_with_time() {
    // Two instants one second apart share a minute bucket here but not a
    // second bucket; a later instant never falls in an earlier bucket.
    let t1 = 1483228800000i64;
    let t2 = t1 + 1000;
    assert_eq!(bucket_index(t1, Granularity::Minutes), bucket_index(t2, Granularity::Minutes));
    assert!(bucket_index(t1, Granularity::Seconds) < bucket_index(t2, Granularity::Seconds));
    assert!(bucket_index(t1, Granularity::Hours) <= bucket_index(t2, Granularity::Hours));
}
