//! The canonical sensor-reading shape, and the codec that converts one raw
//! field tuple into a validated record or rejects it.
//!
//! A raw tuple carries ten positional fields: timestamp, longitude, latitude,
//! source identifier, and six wave measurements. A missing trailing field is
//! read as empty text, as the raw-tuple producer would hand it over.

use vstd::prelude::*;
use crate::numeric::is_numeric_text;
use crate::numeric::check_numeric;
use crate::timefmt::rfc3339_instant;
use crate::timefmt::parse_rfc3339_millis;

verus! {

/// The numeric columns of a raw tuple, named for error reporting and for
/// selecting a measurement dimension to project.
#[derive(Clone, Copy, PartialEq, Eq, Structural, Debug)]
pub enum NumericField {
    Longitude,
    Latitude,
    SignificantWaveHeight,
    MeanWavePeriod,
    MeanWaveDirection,
    WavePower,
    PeakPeriod,
    EnergyPeriod,
}

/// One validated sensor reading. The timestamp is held as milliseconds since
/// the Unix epoch; each numeric field is held as its validated numeric text.
pub struct SensorReading {
    pub time_millis: i64,
    pub longitude: String,
    pub latitude: String,
    pub source_id: String,
    pub significant_wave_height: String,
    pub mean_wave_period: String,
    pub mean_wave_direction: String,
    pub wave_power: String,
    pub peak_period: String,
    pub energy_period: String,
}

/// The mathematical shape of a reading.
pub ghost struct ReadingModel {
    pub time_millis: i64,
    pub longitude: Seq<char>,
    pub latitude: Seq<char>,
    pub source_id: Seq<char>,
    pub significant_wave_height: Seq<char>,
    pub mean_wave_period: Seq<char>,
    pub mean_wave_direction: Seq<char>,
    pub wave_power: Seq<char>,
    pub peak_period: Seq<char>,
    pub energy_period: Seq<char>,
}

impl View for SensorReading {
    type V = ReadingModel;

    open spec fn view(&self) -> ReadingModel {
        ReadingModel {
            time_millis: self.time_millis,
            longitude: self.longitude@,
            latitude: self.latitude@,
            source_id: self.source_id@,
            significant_wave_height: self.significant_wave_height@,
            mean_wave_period: self.mean_wave_period@,
            mean_wave_direction: self.mean_wave_direction@,
            wave_power: self.wave_power@,
            peak_period: self.peak_period@,
            energy_period: self.energy_period@,
        }
    }
}

impl DeepView for SensorReading {
    type V = ReadingModel;

    open spec fn deep_view(&self) -> ReadingModel {
        self@
    }
}

impl SensorReading {
    /// A field-for-field copy of the reading.
    pub fn duplicate(&self) -> (r: SensorReading)
        ensures
            r == *self,
    {
        SensorReading {
            time_millis: self.time_millis,
            longitude: self.longitude.clone(),
            latitude: self.latitude.clone(),
            source_id: self.source_id.clone(),
            significant_wave_height: self.significant_wave_height.clone(),
            mean_wave_period: self.mean_wave_period.clone(),
            mean_wave_direction: self.mean_wave_direction.clone(),
            wave_power: self.wave_power.clone(),
            peak_period: self.peak_period.clone(),
            energy_period: self.energy_period.clone(),
        }
    }
}

/// The whitespace that trimming a source identifier would strip.
pub open spec fn is_space_char(c: char) -> bool {
    c == ' ' || c == '\t' || c == '\n' || c == '\r'
}

/// Empty after trimming surrounding whitespace: nothing but whitespace.
pub open spec fn all_whitespace(s: Seq<char>) -> bool {
    forall|i: int| 0 <= i < s.len() ==> is_space_char(#[trigger] s[i])
}

/// A persisted reading always has a source identifier that is non-empty
/// after trimming, and numeric text in each numeric field; records failing
/// validation are never persisted.
pub open spec fn reading_valid(r: ReadingModel) -> bool {
    &&& !all_whitespace(r.source_id)
    &&& is_numeric_text(r.longitude)
    &&& is_numeric_text(r.latitude)
    &&& is_numeric_text(r.significant_wave_height)
    &&& is_numeric_text(r.mean_wave_period)
    &&& is_numeric_text(r.mean_wave_direction)
    &&& is_numeric_text(r.wave_power)
    &&& is_numeric_text(r.peak_period)
    &&& is_numeric_text(r.energy_period)
}

/// Why one raw tuple was rejected. Rejection is all-or-nothing per record:
/// any bad field rejects the whole tuple.
#[derive(Debug)]
pub enum DecodeError {
    InvalidTimestamp { text: String },
    InvalidNumber { field: NumericField, value: String },
    MissingSourceId,
}

/// The mathematical shape of a rejection.
pub ghost enum DecodeErrorModel {
    InvalidTimestamp { text: Seq<char> },
    InvalidNumber { field: NumericField, value: Seq<char> },
    MissingSourceId,
}

impl View for DecodeError {
    type V = DecodeErrorModel;

    open spec fn view(&self) -> DecodeErrorModel {
        match self {
            DecodeError::InvalidTimestamp { text } => DecodeErrorModel::InvalidTimestamp {
                text: text@,
            },
            DecodeError::InvalidNumber { field, value } => DecodeErrorModel::InvalidNumber {
                field: *field,
                value: value@,
            },
            DecodeError::MissingSourceId => DecodeErrorModel::MissingSourceId,
        }
    }
}

impl DeepView for DecodeError {
    type V = DecodeErrorModel;

    open spec fn deep_view(&self) -> DecodeErrorModel {
        self@
    }
}

impl DecodeError {
    /// A short description of the rejection, for logs and summaries.
    pub fn describe(&self) -> String {
        match self {
            DecodeError::InvalidTimestamp { .. } => "invalid timestamp".to_owned(),
            DecodeError::InvalidNumber { .. } => "invalid number".to_owned(),
            DecodeError::MissingSourceId => "missing source id".to_owned(),
        }
    }
}

/// The field at a column of a raw tuple; a missing column reads as empty text.
pub open spec fn field_at(row: Seq<Seq<char>>, i: int) -> Seq<char> {
    if 0 <= i < row.len() {
        row[i]
    } else {
        Seq::empty()
    }
}

/// The column a numeric field is read from.
pub open spec fn column_of(f: NumericField) -> int {
    match f {
        NumericField::Longitude => 1,
        NumericField::Latitude => 2,
        NumericField::SignificantWaveHeight => 4,
        NumericField::MeanWavePeriod => 5,
        NumericField::MeanWaveDirection => 6,
        NumericField::WavePower => 7,
        NumericField::PeakPeriod => 8,
        NumericField::EnergyPeriod => 9,
    }
}

/// A raw tuple decodes exactly when its timestamp is a valid RFC 3339
/// date-time, its source identifier is non-empty after trimming surrounding
/// whitespace, and each of the eight numeric columns matches the numeric
/// grammar.
pub open spec fn row_valid(row: Seq<Seq<char>>) -> bool {
    &&& rfc3339_instant(field_at(row, 0)) is Some
    &&& is_numeric_text(field_at(row, 1))
    &&& is_numeric_text(field_at(row, 2))
    &&& !all_whitespace(field_at(row, 3))
    &&& is_numeric_text(field_at(row, 4))
    &&& is_numeric_text(field_at(row, 5))
    &&& is_numeric_text(field_at(row, 6))
    &&& is_numeric_text(field_at(row, 7))
    &&& is_numeric_text(field_at(row, 8))
    &&& is_numeric_text(field_at(row, 9))
}

/// The reading a valid raw tuple decodes to: every field value equals the
/// parsed value of the corresponding input column.
pub open spec fn reading_of_row(row: Seq<Seq<char>>) -> ReadingModel
    recommends
        row_valid(row),
{
    ReadingModel {
        time_millis: rfc3339_instant(field_at(row, 0))->Some_0,
        longitude: field_at(row, 1),
        latitude: field_at(row, 2),
        source_id: field_at(row, 3),
        significant_wave_height: field_at(row, 4),
        mean_wave_period: field_at(row, 5),
        mean_wave_direction: field_at(row, 6),
        wave_power: field_at(row, 7),
        peak_period: field_at(row, 8),
        energy_period: field_at(row, 9),
    }
}

/// The rejection an invalid raw tuple decodes to: the first failing check in
/// column order.
pub open spec fn error_of_row(row: Seq<Seq<char>>) -> DecodeErrorModel
    recommends
        !row_valid(row),
{
    if rfc3339_instant(field_at(row, 0)) is None {
        DecodeErrorModel::InvalidTimestamp { text: field_at(row, 0) }
    } else if !is_numeric_text(field_at(row, 1)) {
        DecodeErrorModel::InvalidNumber { field: NumericField::Longitude, value: field_at(row, 1) }
    } else if !is_numeric_text(field_at(row, 2)) {
        DecodeErrorModel::InvalidNumber { field: NumericField::Latitude, value: field_at(row, 2) }
    } else if all_whitespace(field_at(row, 3)) {
        DecodeErrorModel::MissingSourceId
    } else if !is_numeric_text(field_at(row, 4)) {
        DecodeErrorModel::InvalidNumber {
            field: NumericField::SignificantWaveHeight,
            value: field_at(row, 4),
        }
    } else if !is_numeric_text(field_at(row, 5)) {
        DecodeErrorModel::InvalidNumber {
            field: NumericField::MeanWavePeriod,
            value: field_at(row, 5),
        }
    } else if !is_numeric_text(field_at(row, 6)) {
        DecodeErrorModel::InvalidNumber {
            field: NumericField::MeanWaveDirection,
            value: field_at(row, 6),
        }
    } else if !is_numeric_text(field_at(row, 7)) {
        DecodeErrorModel::InvalidNumber { field: NumericField::WavePower, value: field_at(row, 7) }
    } else if !is_numeric_text(field_at(row, 8)) {
        DecodeErrorModel::InvalidNumber { field: NumericField::PeakPeriod, value: field_at(row, 8) }
    } else {
        DecodeErrorModel::InvalidNumber {
            field: NumericField::EnergyPeriod,
            value: field_at(row, 9),
        }
    }
}

/// Reads one column of a raw tuple; a missing column reads as empty text.
fn field_str<'a>(row: &'a Vec<String>, i: usize) -> (r: &'a str)
    ensures
        r@ == field_at(row.deep_view(), i as int),
{
    if i < row.len() {
        row[i].as_str()
    } else {
        proof {
            reveal_strlit("");
            assert(""@ =~= Seq::<char>::empty());
        }
        ""
    }
}

/// Validates one numeric column, handing back its text or the rejection.
fn numeric_field(row: &Vec<String>, f: NumericField) -> (r: Result<String, DecodeError>)
    ensures
        r is Ok <==> is_numeric_text(field_at(row.deep_view(), column_of(f))),
        r is Ok ==> r->Ok_0@ == field_at(row.deep_view(), column_of(f)),
        r is Err ==> r->Err_0@ == (DecodeErrorModel::InvalidNumber {
            field: f,
            value: field_at(row.deep_view(), column_of(f)),
        }),
{
    let i: usize = match f {
        NumericField::Longitude => 1,
        NumericField::Latitude => 2,
        NumericField::SignificantWaveHeight => 4,
        NumericField::MeanWavePeriod => 5,
        NumericField::MeanWaveDirection => 6,
        NumericField::WavePower => 7,
        NumericField::PeakPeriod => 8,
        NumericField::EnergyPeriod => 9,
    };
    let s = field_str(row, i);
    if check_numeric(s) {
        Ok(s.to_owned())
    } else {
        Err(DecodeError::InvalidNumber { field: f, value: s.to_owned() })
    }
}

/// Decides whether any character survives trimming surrounding whitespace.
fn has_content(s: &str) -> (r: bool)
    ensures
        r == !all_whitespace(s@),
{
    let n = s.unicode_len();
    let mut i: usize = 0;
    while i < n
        invariant
            0 <= i <= n,
            n == s@.len(),
            forall|k: int| 0 <= k < i ==> is_space_char(#[trigger] s@[k]),
        decreases n - i,
    {
        let c = s.get_char(i);
        if !(c == ' ' || c == '\t' || c == '\n' || c == '\r') {
            return true;
        }
        i = i + 1;
    }
    false
}

/// Converts one raw field tuple into a validated reading, or rejects it with
/// the first failing check in column order. The identifier is stored
/// verbatim; one that is empty after trimming surrounding whitespace is
/// rejected. A pure function: it touches no store.
pub fn decode(row: &Vec<String>) -> (r: Result<SensorReading, DecodeError>)
    ensures
        r is Ok <==> row_valid(row.deep_view()),
        r is Ok ==> r->Ok_0@ == reading_of_row(row.deep_view()),
        r is Ok ==> reading_valid(r->Ok_0@),
        r is Err ==> r->Err_0@ == error_of_row(row.deep_view()),
{
    let time_text = field_str(row, 0);
    let time_millis = match parse_rfc3339_millis(time_text) {
        Some(t) => t,
        None => {
            return Err(DecodeError::InvalidTimestamp { text: time_text.to_owned() });
        },
    };
    let longitude = match numeric_field(row, NumericField::Longitude) {
        Ok(v) => v,
        Err(e) => { return Err(e); },
    };
    let latitude = match numeric_field(row, NumericField::Latitude) {
        Ok(v) => v,
        Err(e) => { return Err(e); },
    };
    let source = field_str(row, 3);
    if !has_content(source) {
        return Err(DecodeError::MissingSourceId);
    }
    let source_id = source.to_owned();
    let significant_wave_height = match numeric_field(row, NumericField::SignificantWaveHeight) {
        Ok(v) => v,
        Err(e) => { return Err(e); },
    };
    let mean_wave_period = match numeric_field(row, NumericField::MeanWavePeriod) {
        Ok(v) => v,
        Err(e) => { return Err(e); },
    };
    let mean_wave_direction = match numeric_field(row, NumericField::MeanWaveDirection) {
        Ok(v) => v,
        Err(e) => { return Err(e); },
    };
    let wave_power = match numeric_field(row, NumericField::WavePower) {
        Ok(v) => v,
        Err(e) => { return Err(e); },
    };
    let peak_period = match numeric_field(row, NumericField::PeakPeriod) {
        Ok(v) => v,
        Err(e) => { return Err(e); },
    };
    let energy_period = match numeric_field(row, NumericField::EnergyPeriod) {
        Ok(v) => v,
        Err(e) => { return Err(e); },
    };
    Ok(
        SensorReading {
            time_millis,
            longitude,
            latitude,
            source_id,
            significant_wave_height,
            mean_wave_period,
            mean_wave_direction,
            wave_power,
            peak_period,
            energy_period,
        },
    )
}

} // verus!
