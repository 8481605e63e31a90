//! The user-facing read operations: a deterministic, lexicographically
//! sorted listing of sources, and one measurement dimension of one source's
//! series, paired with display indices for plotting.

use vstd::prelude::*;
use crate::codec::NumericField;
use crate::codec::ReadingModel;
use crate::store::TimeSeriesStore;

verus! {

/// Lexicographic order on character sequences: a prefix comes first, and
/// otherwise the first differing character decides.
pub open spec fn lex_le(a: Seq<char>, b: Seq<char>) -> bool
    decreases a.len(),
{
    if a.len() == 0 {
        true
    } else if b.len() == 0 {
        false
    } else if a[0] < b[0] {
        true
    } else if b[0] < a[0] {
        false
    } else {
        lex_le(a.drop_first(), b.drop_first())
    }
}

/// Any two texts are ordered one way or the other.
pub proof fn lemma_lex_total(a: Seq<char>, b: Seq<char>)
    ensures
        lex_le(a, b) || lex_le(b, a),
    decreases a.len(),
{
    if a.len() > 0 && b.len() > 0 && !(a[0] < b[0]) && !(b[0] < a[0]) {
        lemma_lex_total(a.drop_first(), b.drop_first());
    }
}

/// The order is transitive.
pub proof fn lemma_lex_trans(a: Seq<char>, b: Seq<char>, c: Seq<char>)
    requires
        lex_le(a, b),
        lex_le(b, c),
    ensures
        lex_le(a, c),
    decreases a.len(),
{
    if a.len() > 0 && b.len() > 0 && c.len() > 0 && !(a[0] < c[0]) && !(c[0] < a[0]) {
        lemma_lex_trans(a.drop_first(), b.drop_first(), c.drop_first());
    }
}

/// The order has no ties between distinct texts.
pub proof fn lemma_lex_antisymmetric(a: Seq<char>, b: Seq<char>)
    requires
        lex_le(a, b),
        lex_le(b, a),
    ensures
        a == b,
    decreases a.len(),
{
    if a.len() == 0 {
        assert(a =~= b);
    } else {
        lemma_lex_antisymmetric(a.drop_first(), b.drop_first());
        assert forall|i: int| 0 <= i < a.len() implies a[i] == b[i] by {
            if i > 0 {
                assert(a.drop_first()[i - 1] == a[i]);
                assert(b.drop_first()[i - 1] == b[i]);
            }
        }
        assert(a =~= b);
    }
}

/// Two sorted, duplicate-free listings that carry the same sources are the
/// same listing: what `list_sources` promises determines its result, so the
/// listing of unchanged data is deterministic across calls.
pub proof fn lemma_sorted_listing_unique(a: Seq<String>, b: Seq<String>)
    requires
        forall|i: int, j: int| 0 <= i <= j < a.len() ==> lex_le(#[trigger] a[i]@, #[trigger] a[j]@),
        forall|i: int, j: int| 0 <= i < j < a.len() ==> a[i]@ != a[j]@,
        forall|i: int, j: int| 0 <= i <= j < b.len() ==> lex_le(#[trigger] b[i]@, #[trigger] b[j]@),
        forall|i: int, j: int| 0 <= i < j < b.len() ==> b[i]@ != b[j]@,
        forall|src: Seq<char>|
            #![trigger lists(a, src)]
            #![trigger lists(b, src)]
            lists(a, src) <==> lists(b, src),
    ensures
        a.len() == b.len(),
        forall|i: int| 0 <= i < a.len() ==> #[trigger] a[i]@ == b[i]@,
    decreases a.len(),
{
    if a.len() == 0 {
        if b.len() > 0 {
            assert(lists(b, b[0]@));
            let k = choose|k: int| 0 <= k < a.len() && #[trigger] a[k]@ == b[0]@;
            assert(false);
        }
    } else {
        assert(lists(a, a[0]@));
        if b.len() == 0 {
            let k = choose|k: int| 0 <= k < b.len() && #[trigger] b[k]@ == a[0]@;
            assert(false);
        }
        assert(lists(b, b[0]@));
        let m = choose|m: int| 0 <= m < b.len() && #[trigger] b[m]@ == a[0]@;
        let k = choose|k: int| 0 <= k < a.len() && #[trigger] a[k]@ == b[0]@;
        assert(lex_le(b[0]@, b[m]@));
        assert(lex_le(a[0]@, a[k]@));
        lemma_lex_antisymmetric(a[0]@, b[0]@);
        let ta = a.drop_first();
        let tb = b.drop_first();
        assert forall|i: int, j: int| 0 <= i <= j < ta.len() implies lex_le(
            #[trigger] ta[i]@,
            #[trigger] ta[j]@,
        ) by {
            assert(ta[i] == a[i + 1]);
            assert(ta[j] == a[j + 1]);
        }
        assert forall|i: int, j: int| 0 <= i < j < ta.len() implies ta[i]@ != ta[j]@ by {
            assert(ta[i] == a[i + 1]);
            assert(ta[j] == a[j + 1]);
        }
        assert forall|i: int, j: int| 0 <= i <= j < tb.len() implies lex_le(
            #[trigger] tb[i]@,
            #[trigger] tb[j]@,
        ) by {
            assert(tb[i] == b[i + 1]);
            assert(tb[j] == b[j + 1]);
        }
        assert forall|i: int, j: int| 0 <= i < j < tb.len() implies tb[i]@ != tb[j]@ by {
            assert(tb[i] == b[i + 1]);
            assert(tb[j] == b[j + 1]);
        }
        assert forall|src: Seq<char>|
            #![trigger lists(ta, src)]
            #![trigger lists(tb, src)]
            lists(ta, src) <==> lists(tb, src) by {
            if lists(ta, src) {
                let q = choose|q: int| 0 <= q < ta.len() && #[trigger] ta[q]@ == src;
                assert(ta[q] == a[q + 1]);
                assert(lists(a, src));
                let w = choose|w: int| 0 <= w < b.len() && #[trigger] b[w]@ == src;
                assert(a[q + 1]@ != a[0]@);
                assert(w != 0);
                assert(tb[w - 1]@ == src);
                assert(lists(tb, src));
            }
            if lists(tb, src) {
                let q = choose|q: int| 0 <= q < tb.len() && #[trigger] tb[q]@ == src;
                assert(tb[q] == b[q + 1]);
                assert(lists(b, src));
                let w = choose|w: int| 0 <= w < a.len() && #[trigger] a[w]@ == src;
                assert(b[q + 1]@ != b[0]@);
                assert(w != 0);
                assert(ta[w - 1]@ == src);
                assert(lists(ta, src));
            }
        }
        lemma_sorted_listing_unique(ta, tb);
        assert forall|i: int| 0 <= i < a.len() implies #[trigger] a[i]@ == b[i]@ by {
            if i > 0 {
                assert(ta[i - 1]@ == tb[i - 1]@);
                assert(ta[i - 1] == a[i]);
                assert(tb[i - 1] == b[i]);
            }
        }
    }
}

/// Compares two texts in lexicographic order.
fn str_lex_le(a: &str, b: &str) -> (r: bool)
    ensures
        r == lex_le(a@, b@),
{
    let an = a.unicode_len();
    let bn = b.unicode_len();
    let mut i: usize = 0;
    proof {
        assert(a@.skip(0) =~= a@);
        assert(b@.skip(0) =~= b@);
    }
    loop
        invariant
            0 <= i <= an,
            i <= bn,
            an == a@.len(),
            bn == b@.len(),
            lex_le(a@, b@) == lex_le(a@.skip(i as int), b@.skip(i as int)),
            forall|k: int| 0 <= k < i ==> a@[k] == b@[k],
        decreases an - i,
    {
        if i == an {
            proof {
                assert(a@.skip(i as int).len() == 0);
            }
            return true;
        }
        if i == bn {
            proof {
                assert(b@.skip(i as int).len() == 0);
                assert(a@.skip(i as int).len() > 0);
            }
            return false;
        }
        let ca = a.get_char(i);
        let cb = b.get_char(i);
        proof {
            assert(a@.skip(i as int)[0] == a@[i as int]);
            assert(b@.skip(i as int)[0] == b@[i as int]);
        }
        if ca < cb {
            return true;
        }
        if cb < ca {
            return false;
        }
        proof {
            assert(a@.skip(i as int).drop_first() =~= a@.skip(i + 1));
            assert(b@.skip(i as int).drop_first() =~= b@.skip(i + 1));
        }
        i = i + 1;
    }
}

/// Whether a listing carries a source.
pub open spec fn lists(s: Seq<String>, src: Seq<char>) -> bool {
    exists|k: int| 0 <= k < s.len() && #[trigger] s[k]@ == src
}

/// Every source currently present, lexicographically sorted and
/// duplicate-free: the same container state always lists the same way.
pub fn list_sources(store: &TimeSeriesStore) -> (r: Vec<String>)
    requires
        store.well_formed(),
    ensures
        forall|a: int, b: int| 0 <= a <= b < r@.len() ==> lex_le(#[trigger] r@[a]@, #[trigger] r@[b]@),
        forall|a: int, b: int| 0 <= a < b < r@.len() ==> r@[a]@ != r@[b]@,
        forall|src: Seq<char>|
            #![trigger store.sources().contains(src)]
            #![trigger lists(r@, src)]
            store.sources().contains(src) <==> lists(r@, src),
{
    let unsorted = store.distinct_sources();
    let n = unsorted.len();
    let mut out: Vec<String> = Vec::new();
    let mut i: usize = 0;
    proof {
        assert forall|src: Seq<char>|
            #![trigger lists(out@, src)]
            #![trigger lists(unsorted@.take(0), src)]
            lists(out@, src) <==> lists(unsorted@.take(0), src) by {
            assert(out@.len() == 0);
            assert(unsorted@.take(0).len() == 0);
        }
    }
    while i < n
        invariant
            0 <= i <= n,
            n == unsorted@.len(),
            out@.len() == i,
            forall|a: int, b: int|
                0 <= a <= b < out@.len() ==> lex_le(#[trigger] out@[a]@, #[trigger] out@[b]@),
            forall|src: Seq<char>|
                #![trigger lists(out@, src)]
                #![trigger lists(unsorted@.take(i as int), src)]
                lists(out@, src) <==> lists(unsorted@.take(i as int), src),
            forall|a: int, b: int| 0 <= a < b < unsorted@.len() ==> unsorted@[a]@ != unsorted@[b]@,
            forall|a: int, b: int| 0 <= a < b < out@.len() ==> out@[a]@ != out@[b]@,
        decreases n - i,
    {
        let s = unsorted[i].clone();
        let ghost sv = s@;
        let m = out.len();
        let mut j: usize = 0;
        while j < m && !str_lex_le(s.as_str(), out[j].as_str())
            invariant
                0 <= j <= m,
                m == out@.len(),
                s@ == sv,
                forall|k: int| 0 <= k < j ==> !lex_le(sv, #[trigger] out@[k]@),
            decreases m - j,
        {
            j = j + 1;
        }
        proof {
            assert forall|k: int| 0 <= k < j implies lex_le(#[trigger] out@[k]@, sv) by {
                lemma_lex_total(sv, out@[k]@);
            }
        }
        let ghost out_before = out@;
        let ghost s_snap = s;
        out.insert(j, s);
        proof {
            assert(out@ == out_before.insert(j as int, s_snap));
            assert(out@[j as int]@ == sv);
            assert forall|a: int, b: int|
                0 <= a <= b < out@.len() implies lex_le(
                #[trigger] out@[a]@,
                #[trigger] out@[b]@,
            ) by {
                let av = if a < j {
                    out_before[a]
                } else if a == j {
                    out@[j as int]
                } else {
                    out_before[a - 1]
                };
                assert(out@[a] == av);
                let bv = if b < j {
                    out_before[b]
                } else if b == j {
                    out@[j as int]
                } else {
                    out_before[b - 1]
                };
                assert(out@[b] == bv);
                if a == j && b > j {
                    if j < m {
                        lemma_lex_trans(sv, out_before[j as int]@, out_before[b - 1]@);
                    }
                }
                if b == j && a < j {
                    assert(lex_le(out_before[a]@, sv));
                }
                if a < j && b > j {
                    assert(lex_le(out_before[a]@, out_before[b - 1]@));
                }
                if a == b {
                    lemma_lex_total(out@[a]@, out@[a]@);
                }
            }
            assert forall|a: int, b: int| 0 <= a < b < out@.len() implies out@[a]@ != out@[b]@ by {
                if out@[a]@ == out@[b]@ {
                    let av = if a < j {
                        a
                    } else {
                        a - 1
                    };
                    let bv = if b < j {
                        b
                    } else {
                        b - 1
                    };
                    if a != j && b != j {
                        assert(out@[a] == out_before[av]);
                        assert(out@[b] == out_before[bv]);
                        assert(out_before[av]@ != out_before[bv]@);
                    } else {
                        let other = if a == j {
                            bv
                        } else {
                            av
                        };
                        assert(out_before[other]@ == sv);
                        assert(lists(out_before, sv));
                        assert(lists(unsorted@.take(i as int), sv));
                        let k0 = choose|k: int|
                            0 <= k < unsorted@.take(i as int).len() && #[trigger] unsorted@.take(
                                i as int,
                            )[k]@ == sv;
                        assert(unsorted@[k0]@ == unsorted@[i as int]@);
                    }
                }
            }
            assert forall|src: Seq<char>|
                #![trigger lists(out@, src)]
                #![trigger lists(unsorted@.take(i + 1), src)]
                lists(out@, src) <==> lists(unsorted@.take(i + 1), src) by {
                assert(lists(out_before, src) <==> lists(unsorted@.take(i as int), src));
                if lists(out@, src) {
                    let k = choose|k: int| 0 <= k < out@.len() && #[trigger] out@[k]@ == src;
                    if k == j {
                        assert(unsorted@.take(i + 1)[i as int]@ == src);
                    } else {
                        let k2 = if k < j {
                            k
                        } else {
                            k - 1
                        };
                        assert(out_before[k2]@ == src);
                        assert(lists(out_before, src));
                        assert(unsorted@.take(i as int) =~= unsorted@.take(i + 1).take(i as int));
                        let q = choose|q: int|
                            0 <= q < unsorted@.take(i as int).len()
                                && #[trigger] unsorted@.take(i as int)[q]@ == src;
                        assert(unsorted@.take(i + 1)[q]@ == src);
                    }
                }
                if lists(unsorted@.take(i + 1), src) {
                    let k = choose|k: int|
                        0 <= k < unsorted@.take(i + 1).len() && #[trigger] unsorted@.take(
                            i + 1,
                        )[k]@ == src;
                    if k == i {
                        assert(out@[j as int]@ == src);
                    } else {
                        assert(unsorted@.take(i as int)[k]@ == src);
                        assert(lists(unsorted@.take(i as int), src));
                        let k2 = choose|q: int|
                            0 <= q < out_before.len() && #[trigger] out_before[q]@ == src;
                        if k2 < j {
                            assert(out@[k2]@ == src);
                        } else {
                            assert(out@[k2 + 1]@ == src);
                        }
                    }
                }
            }
        }
        i = i + 1;
    }
    proof {
        assert(unsorted@.take(n as int) =~= unsorted@);
        assert forall|src: Seq<char>|
            #![trigger store.sources().contains(src)]
            #![trigger lists(out@, src)]
            store.sources().contains(src) <==> lists(out@, src) by {
            assert(lists(out@, src) <==> lists(unsorted@.take(n as int), src));
            if store.sources().contains(src) {
                let k = choose|k: int|
                    0 <= k < unsorted@.len() && #[trigger] unsorted@[k]@ == src;
                assert(unsorted@.take(n as int)[k]@ == src);
                assert(lists(unsorted@.take(n as int), src));
            }
            if lists(unsorted@, src) {
                let k = choose|k: int| 0 <= k < unsorted@.len() && #[trigger] unsorted@[k]@ == src;
                assert(exists|q: int| 0 <= q < unsorted@.len() && #[trigger] unsorted@[q]@ == src);
            }
        }
    }
    out
}

/// The text a reading shows for one numeric dimension.
pub open spec fn project(r: ReadingModel, f: NumericField) -> Seq<char> {
    match f {
        NumericField::Longitude => r.longitude,
        NumericField::Latitude => r.latitude,
        NumericField::SignificantWaveHeight => r.significant_wave_height,
        NumericField::MeanWavePeriod => r.mean_wave_period,
        NumericField::MeanWaveDirection => r.mean_wave_direction,
        NumericField::WavePower => r.wave_power,
        NumericField::PeakPeriod => r.peak_period,
        NumericField::EnergyPeriod => r.energy_period,
    }
}

/// One source's series projected onto one measurement dimension: the values
/// in chronological order, each paired with its zero-based display index.
pub fn series_for(store: &TimeSeriesStore, source: &str, field: NumericField) -> (r: Vec<
    (usize, String),
>)
    requires
        store.well_formed(),
    ensures
        r@.len() == store.series(source@).len(),
        forall|k: int|
            0 <= k < r@.len() ==> (#[trigger] r@[k]).0 == k && r@[k].1@ == project(
                store.series(source@)[k],
                field,
            ),
{
    let readings = store.query_ordered(source);
    let n = readings.len();
    let mut r: Vec<(usize, String)> = Vec::new();
    let mut i: usize = 0;
    while i < n
        invariant
            0 <= i <= n,
            n == readings@.len(),
            crate::store::models_of(readings@) == store.series(source@),
            r@.len() == i,
            forall|k: int|
                0 <= k < i ==> (#[trigger] r@[k]).0 == k && r@[k].1@ == project(
                    store.series(source@)[k],
                    field,
                ),
        decreases n - i,
    {
        let reading = &readings[i];
        let value: String = match field {
            NumericField::Longitude => reading.longitude.clone(),
            NumericField::Latitude => reading.latitude.clone(),
            NumericField::SignificantWaveHeight => reading.significant_wave_height.clone(),
            NumericField::MeanWavePeriod => reading.mean_wave_period.clone(),
            NumericField::MeanWaveDirection => reading.mean_wave_direction.clone(),
            NumericField::WavePower => reading.wave_power.clone(),
            NumericField::PeakPeriod => reading.peak_period.clone(),
            NumericField::EnergyPeriod => reading.energy_period.clone(),
        };
        proof {
            assert(crate::store::models_of(readings@)[i as int] == readings@[i as int]@);
        }
        r.push((i, value));
        i = i + 1;
    }
    r
}

} // verus!
