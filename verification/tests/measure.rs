//! Validation, batching and caching contracts of the measurement client,
//! driven through a scripted measurement program.

use ctypst::measure::{
    char_budget, leading_em, utf16_len, validate, MeasureBatch, MeasureCalibration, MeasureClient, MeasureFormat,
    MeasureItem, MeasureResult, MeasureStep, QueryRecord, RatioRow, ResultRow, RunOutcome, Weight,
};
use ctypst::Error;

/// Budget kernel: round(units * (usable / width - 1)).
fn scale(units: u64, width: u64, usable: u64) -> i64 {
    let ratio = f64::from_bits(usable) / f64::from_bits(width) - 1.0;
    (units as f64 * ratio).round() as i64
}

/// Leading kernel: value / base rounded half away from zero to four decimals.
fn to_em(value: u64, base: u64) -> u64 {
    ((f64::from_bits(value) / f64::from_bits(base) * 10_000.0).round() / 10_000.0).to_bits()
}

fn bits(value: f64) -> u64 {
    value.to_bits()
}

fn assert_ulp_eq(left: u64, right: f64, what: &str) {
    let distance = left.abs_diff(right.to_bits());
    assert!(
        distance <= 1,
        "{what} differs by {distance} ulp: {} vs {right}",
        f64::from_bits(left)
    );
}

type Client = MeasureClient<fn(u64, u64, u64) -> i64>;

fn client() -> Client {
    let fonts: [&[u8]; 2] = [b"regular face", b"bold face"];
    MeasureClient::new(&fonts, &[1, 1], scale as fn(u64, u64, u64) -> i64).expect("the pack holds font faces")
}

fn fixture_format() -> MeasureFormat {
    MeasureFormat {
        font: "Archivo".to_owned(),
        base_font_size: bits(9.5),
        entry_heading_size: bits(11.0),
        leading_value: bits(0.66),
        leading_relative: true,
        margin_left: bits(19.0),
        margin_right: bits(19.0),
        page_size: "a4".to_owned(),
    }
}

fn fixture_item(id: &str) -> MeasureItem {
    MeasureItem {
        id: id.to_owned(),
        text: "Evidence.".to_owned(),
        font_size: bits(10.5),
        weight: Weight::Regular,
        usable_width_pt: bits(400.0),
    }
}

fn fragment(id: &str, w: f64, h: f64, lines: u64) -> QueryRecord {
    QueryRecord {
        id: Some(id.to_owned()),
        row: Ok(ResultRow { w: bits(w), h: bits(h), lines }),
        ratios: Err("missing field `ratios`".to_owned()),
    }
}

fn calibration_record() -> QueryRecord {
    QueryRecord {
        id: Some("__calibration".to_owned()),
        row: Err("missing field `w`".to_owned()),
        ratios: Ok(RatioRow {
            cap_reg: bits(0.7),
            adv_reg: bits(1.2),
            cap_bold: bits(0.72),
            adv_bold: bits(1.25),
        }),
    }
}

/// What the measurement program answers for a batch: one row per miss, and
/// the calibration record.
fn answer(batch: &MeasureBatch) -> RunOutcome {
    let mut records: Vec<QueryRecord> = batch
        .request
        .items
        .iter()
        .map(|item| fragment(&item.id, 40.0, 12.0, 1))
        .collect();
    records.push(calibration_record());
    RunOutcome::Answered(records)
}


/// Measure `items`, running whatever batch the client asks for.
fn measure(
    client: &mut Client,
    format: &MeasureFormat,
    items: &[MeasureItem],
) -> Result<Vec<MeasureResult>, Error> {
    match client.measure_all(format, items, &to_em)? {
        MeasureStep::Measured(results) => Ok(results),
        MeasureStep::Run(batch) => {
            let outcome = answer(&batch);
            client.absorb(&batch, outcome)
        }
    }
}

/// Start a measurement of `items` that must need a run, and hand back its batch.
fn batch_for(client: &mut Client, items: &[MeasureItem]) -> MeasureBatch {
    let format = fixture_format();
    match client.measure_all(&format, items, &to_em) {
        Ok(MeasureStep::Run(batch)) => batch,
        other => panic!("expected a batch to run, got {other:?}"),
    }
}

fn measure_failure(answer: Result<Vec<MeasureResult>, Error>) -> String {
    match answer {
        Err(Error::Measure(message)) => message,
        other => panic!("expected a measurement failure, got {other:?}"),
    }
}

fn ids(results: &[MeasureResult]) -> Vec<&str> {
    results.iter().map(|result| result.id.as_str()).collect()
}

#[test]
fn budgets_follow_the_frozen_formula() {
    assert_eq!(char_budget("", bits(10.0), bits(20.0), &scale), None);
    assert_eq!(char_budget("text", bits(0.0), bits(20.0), &scale), None);
    assert_eq!(char_budget("😀 done", bits(32.8545), bits(400.0), &scale), Some(78));
    assert_eq!(char_budget("Evidence.", bits(100.0), bits(200.0), &scale), Some(9));
}

#[test]
fn leading_normalization_matches_the_legacy_rule() {
    assert_ulp_eq(leading_em(bits(0.6), true, bits(10.5), &to_em), 0.6, "relative leading");
    assert_ulp_eq(leading_em(bits(0.66), true, bits(9.5), &to_em), 0.66, "relative leading");
    assert_ulp_eq(leading_em(bits(7.0), false, bits(10.5), &to_em), 0.6667, "absolute leading");
    assert_ulp_eq(leading_em(bits(6.93), false, bits(10.5), &to_em), 0.66, "absolute leading");
}

#[test]
fn invalid_requests_fail_loudly() {
    let format = fixture_format();
    let mut bad_item = fixture_item("x");
    let mut client = client();
    assert!(measure(&mut client, &format, &[]).expect("empty is fine").is_empty());
    assert_eq!(client.compile_count(), 0, "empty request never compiles");

    bad_item.id.clear();
    assert!(measure(&mut client, &format, &[bad_item.clone()]).is_err());

    let duplicates = vec![fixture_item("dup"), fixture_item("dup")];
    assert!(measure(&mut client, &format, &duplicates).is_err());

    bad_item = fixture_item("x");
    bad_item.font_size = bits(0.0);
    assert!(measure(&mut client, &format, &[bad_item.clone()]).is_err());
    bad_item.font_size = bits(f64::NAN);
    assert!(measure(&mut client, &format, &[bad_item.clone()]).is_err());
    bad_item.font_size = bits(10.5);
    bad_item.usable_width_pt = bits(-1.0);
    assert!(measure(&mut client, &format, &[bad_item]).is_err());

    let mut bad_format = format.clone();
    bad_format.base_font_size = bits(0.0);
    assert!(measure(&mut client, &bad_format, &[fixture_item("x")]).is_err());
    bad_format = format.clone();
    bad_format.margin_left = bits(-1.0);
    assert!(measure(&mut client, &bad_format, &[fixture_item("x")]).is_err());
}

#[test]
fn cache_batches_misses_and_never_recompiles_hits() {
    let format = fixture_format();
    let mut client = client();
    let first = vec![fixture_item("a"), fixture_item("b")];
    let results = measure(&mut client, &format, &first).expect("cold measures");
    assert_eq!(ids(&results), ["a", "b"]);
    assert_eq!(client.compile_count(), 1);

    let reordered = vec![fixture_item("b"), fixture_item("a")];
    let results = measure(&mut client, &format, &reordered).expect("hits assemble");
    assert_eq!(ids(&results), ["b", "a"]);
    assert_eq!(client.compile_count(), 1, "full hits never recompile");

    let grown = vec![fixture_item("a"), fixture_item("b"), fixture_item("c")];
    measure(&mut client, &format, &grown).expect("one miss compiles");
    assert_eq!(client.compile_count(), 2, "one compile per miss batch");

    let mut changed = format.clone();
    changed.margin_left = bits(12.0);
    measure(&mut client, &changed, &first).expect("format change recompiles");
    assert_eq!(client.compile_count(), 3, "format change purges the cache");
}

#[test]
fn request_failures_name_the_rule() {
    let format = fixture_format();
    let mut client = client();
    let mut item = fixture_item("");
    assert_eq!(
        measure_failure(measure(&mut client, &format, &[item.clone()])),
        "invalid ctypst-measure-v1 request: item id is empty"
    );
    item = fixture_item("dup");
    assert_eq!(
        measure_failure(measure(&mut client, &format, &[item.clone(), item.clone()])),
        "invalid ctypst-measure-v1 request: duplicate item id dup"
    );
    item.font_size = bits(f64::INFINITY);
    assert_eq!(
        measure_failure(measure(&mut client, &format, &[item.clone()])),
        "invalid ctypst-measure-v1 request: item dup has no positive font size"
    );
    item = fixture_item("w");
    item.usable_width_pt = bits(-0.0);
    assert_eq!(
        measure_failure(measure(&mut client, &format, &[item])),
        "invalid ctypst-measure-v1 request: item w has no positive width"
    );

    let mut bad = format.clone();
    bad.entry_heading_size = bits(f64::NAN);
    assert_eq!(
        measure_failure(measure(&mut client, &bad, &[])),
        "invalid ctypst-measure-v1 request: entry_heading_size is not finite"
    );
    bad = format.clone();
    bad.entry_heading_size = bits(-2.0);
    assert_eq!(
        measure_failure(measure(&mut client, &bad, &[])),
        "invalid ctypst-measure-v1 request: font sizes must be positive"
    );
    bad = format.clone();
    bad.leading_value = bits(-0.5);
    assert_eq!(
        measure_failure(measure(&mut client, &bad, &[])),
        "invalid ctypst-measure-v1 request: leading must not be negative"
    );
    bad = format.clone();
    bad.margin_right = bits(-1.0);
    assert_eq!(
        measure_failure(measure(&mut client, &bad, &[])),
        "invalid ctypst-measure-v1 request: margins must not be negative"
    );
    bad = format.clone();
    bad.leading_value = bits(0.0);
    assert_eq!(
        measure_failure(measure(&mut client, &bad, &[])),
        "invalid ctypst-measure-v1 request: resolved leading must be positive"
    );
    bad.leading_relative = false;
    bad.leading_value = bits(0.0001);
    assert_eq!(
        measure_failure(measure(&mut client, &bad, &[])),
        "invalid ctypst-measure-v1 request: resolved leading must be positive"
    );
    assert_eq!(client.compile_count(), 0, "rejected requests never compile");
}

#[test]
fn results_carry_rows_and_budgets() {
    let format = fixture_format();
    let mut client = client();
    let mut item = fixture_item("a");
    item.text = "😀 done".to_owned();
    let mut empty = fixture_item("e");
    empty.text = String::new();
    let batch = batch_for(&mut client, &[item.clone(), empty.clone()]);
    assert_eq!(batch.request.items.len(), 2);
    assert_eq!(batch.request.format.font, "Archivo");
    assert_eq!(batch.request.format.leading_em, bits(0.66));
    let outcome = RunOutcome::Answered(vec![
        calibration_record(),
        fragment("e", 0.0, 12.0, 1),
        fragment("a", 32.8545, 24.0, 2),
    ]);
    let results = client.absorb(&batch, outcome).expect("answered");
    assert_eq!(ids(&results), ["a", "e"]);
    assert_eq!(results[0].width_pt, bits(32.8545));
    assert_eq!(results[0].height_pt, bits(24.0));
    assert_eq!(results[0].lines, 2);
    assert_eq!(results[0].char_budget, Some(78));
    assert_eq!(results[1].char_budget, None);
    assert_eq!(
        client.calibration(),
        Some(MeasureCalibration {
            cap_ratio_regular: bits(0.7),
            advance_ratio_regular: bits(1.2),
            cap_ratio_bold: bits(0.72),
            advance_ratio_bold: bits(1.25),
        })
    );
    client.cache_is_consistent();
    let again = measure(&mut client, &format, &[empty, item]).expect("hits");
    assert_eq!(ids(&again), ["e", "a"]);
    assert_eq!(again[1].char_budget, Some(78));
    assert_eq!(client.compile_count(), 1);
}

#[test]
fn only_misses_travel_in_a_batch() {
    let format = fixture_format();
    let mut client = client();
    measure(&mut client, &format, &[fixture_item("a")]).expect("warm");
    let batch = batch_for(&mut client, &[fixture_item("a"), fixture_item("b"), fixture_item("c")]);
    let misses: Vec<&str> = batch.request.items.iter().map(|item| item.id.as_str()).collect();
    assert_eq!(misses, ["b", "c"]);
    let order: Vec<&str> = batch.order.iter().map(|item| item.id.as_str()).collect();
    assert_eq!(order, ["a", "b", "c"]);
}

#[test]
fn broken_runs_fail_loudly() {
    let mut client = client();
    let batch = batch_for(&mut client, &[fixture_item("a")]);
    let message = measure_failure(client.absorb(&batch, RunOutcome::Unserializable("bad".to_owned())));
    assert_eq!(message, "cannot serialize request: bad");
    assert_eq!(client.compile_count(), 0, "an unserializable request never runs");
    let message = measure_failure(client.absorb(&batch, RunOutcome::RunFailed("boom".to_owned())));
    assert_eq!(message, "ctypst-measure-v1 run failed: boom");
    assert_eq!(client.compile_count(), 0, "a failed run is not counted");
    let message = measure_failure(client.absorb(&batch, RunOutcome::QueryFailed("gone".to_owned())));
    assert_eq!(message, "ctypst-measure-v1 query failed: gone");
    assert_eq!(client.compile_count(), 1, "a run that started counts");
}

#[test]
fn malformed_answers_fail_loudly() {
    let mut client = client();
    let batch = batch_for(&mut client, &[fixture_item("a"), fixture_item("b")]);

    let no_id = QueryRecord { id: None, row: Err("no".to_owned()), ratios: Err("no".to_owned()) };
    let outcome = RunOutcome::Answered(vec![fragment("a", 1.0, 1.0, 1), no_id, calibration_record()]);
    assert_eq!(
        measure_failure(client.absorb(&batch, outcome)),
        "ctypst-measure-v1 result has no id"
    );

    let outcome = RunOutcome::Answered(vec![
        fragment("a", 1.0, 1.0, 1),
        fragment("a", 1.0, 1.0, 1),
        fragment("b", 1.0, 1.0, 1),
        calibration_record(),
    ]);
    assert_eq!(
        measure_failure(client.absorb(&batch, outcome)),
        "ctypst-measure-v1 duplicated fragment a"
    );

    let outcome = RunOutcome::Answered(vec![fragment("a", 1.0, 1.0, 1), fragment("z", 1.0, 1.0, 1), calibration_record()]);
    assert_eq!(
        measure_failure(client.absorb(&batch, outcome)),
        "ctypst-measure-v1 returned an incomplete fragment set (missing [\"b\"], unexpected [\"z\"])"
    );

    let outcome = RunOutcome::Answered(vec![
        fragment("a", 1.0, 1.0, 1),
        QueryRecord { id: Some("b".to_owned()), row: Err("missing field `w`".to_owned()), ratios: Err("no".to_owned()) },
        calibration_record(),
    ]);
    assert_eq!(
        measure_failure(client.absorb(&batch, outcome)),
        "fragment b is malformed: missing field `w`"
    );

    let outcome = RunOutcome::Answered(vec![fragment("a", -1.0, 1.0, 1), fragment("b", 1.0, 1.0, 1), calibration_record()]);
    assert_eq!(
        measure_failure(client.absorb(&batch, outcome)),
        "fragment a has invalid dimensions"
    );

    let outcome = RunOutcome::Answered(vec![fragment("a", 1.0, f64::INFINITY, 1), fragment("b", 1.0, 1.0, 1), calibration_record()]);
    assert_eq!(
        measure_failure(client.absorb(&batch, outcome)),
        "fragment a has invalid dimensions"
    );

    let outcome = RunOutcome::Answered(vec![fragment("a", 1.0, 1.0, 1), fragment("b", 1.0, 1.0, 0), calibration_record()]);
    assert_eq!(
        measure_failure(client.absorb(&batch, outcome)),
        "fragment b reports no lines"
    );

    let outcome = RunOutcome::Answered(vec![fragment("a", 1.0, 1.0, 1), fragment("b", 1.0, 1.0, 1)]);
    assert_eq!(
        measure_failure(client.absorb(&batch, outcome)),
        "ctypst-measure-v1 omitted calibration"
    );

    let outcome = RunOutcome::Answered(vec![
        calibration_record(),
        fragment("a", 1.0, 1.0, 1),
        fragment("b", 1.0, 1.0, 1),
        calibration_record(),
    ]);
    assert_eq!(
        measure_failure(client.absorb(&batch, outcome)),
        "ctypst-measure-v1 duplicated calibration"
    );

    let mut odd = calibration_record();
    odd.ratios = Ok(RatioRow { cap_reg: bits(0.7), adv_reg: bits(f64::NAN), cap_bold: bits(0.7), adv_bold: bits(1.0) });
    let outcome = RunOutcome::Answered(vec![fragment("a", 1.0, 1.0, 1), fragment("b", 1.0, 1.0, 1), odd]);
    assert_eq!(
        measure_failure(client.absorb(&batch, outcome)),
        "ctypst-measure-v1 calibration is not finite"
    );

    let mut broken = calibration_record();
    broken.ratios = Err("missing field `ratios`".to_owned());
    let outcome = RunOutcome::Answered(vec![fragment("a", 1.0, 1.0, 1), fragment("b", 1.0, 1.0, 1), broken]);
    assert_eq!(
        measure_failure(client.absorb(&batch, outcome)),
        "calibration is malformed: missing field `ratios`"
    );

    assert_eq!(client.calibration(), None, "no failed answer reports a calibration");
    assert_eq!(client.compile_count(), 11, "every answered run counts once");
}

#[test]
fn rows_that_pass_stay_cached_when_a_later_row_fails() {
    let format = fixture_format();
    let mut client = client();
    let batch = batch_for(&mut client, &[fixture_item("a"), fixture_item("b")]);
    let outcome = RunOutcome::Answered(vec![fragment("a", 5.0, 6.0, 1), fragment("b", 1.0, 1.0, 0), calibration_record()]);
    assert!(client.absorb(&batch, outcome).is_err());
    let cached = measure(&mut client, &format, &[fixture_item("a")]).expect("a was cached");
    assert_eq!(cached[0].width_pt, bits(5.0));
    assert_eq!(client.compile_count(), 1);
}

#[test]
fn page_size_and_font_fall_back_to_the_defaults() {
    let mut format = fixture_format();
    format.font = String::new();
    format.page_size = String::new();
    let mut client = client();
    match client.measure_all(&format, &[fixture_item("a")], &to_em) {
        Ok(MeasureStep::Run(batch)) => {
            assert_eq!(batch.request.format.font, "Archivo");
            assert_eq!(batch.request.format.page_size, "a4");
        }
        other => panic!("expected a batch, got {other:?}"),
    }
}

#[test]
fn utf16_length_counts_surrogate_pairs() {
    assert_eq!(utf16_len("😀 done"), 7);
    assert_eq!(utf16_len(""), 0);
    assert_eq!(utf16_len("é"), 1);
}

#[test]
fn weights_have_protocol_labels() {
    assert_eq!(Weight::Regular.as_label(), "regular");
    assert_eq!(Weight::Bold.as_label(), "bold");
    assert_eq!(Weight::from_label("bold"), Some(Weight::Bold));
    assert_eq!(Weight::from_label("regular"), Some(Weight::Regular));
    assert_eq!(Weight::from_label("Bold"), None);
}

#[test]
fn font_packs_without_faces_are_refused() {
    let none: [&[u8]; 0] = [];
    assert!(matches!(MeasureClient::new(&none, &[], scale), Err(Error::NoValidFont)));
    let unparsable: [&[u8]; 1] = [b"not a font"];
    assert!(matches!(MeasureClient::new(&unparsable, &[0], scale), Err(Error::NoValidFont)));
    let blank: [&[u8]; 2] = [b"", b""];
    assert!(matches!(MeasureClient::new(&blank, &[0, 0], scale), Err(Error::NoValidFont)));
    let first: [&[u8]; 3] = [b"not a font", b"face", b""];
    assert!(matches!(MeasureClient::new(&first, &[0, 1, 0], scale), Err(Error::InvalidFont { index: 0 })));
    let good: [&[u8]; 1] = [b"face"];
    let client = MeasureClient::new(&good, &[1], scale).expect("a pack with a face is accepted");
    assert_eq!(client.compile_count(), 0);
    assert_eq!(client.calibration(), None);
}

#[test]
fn malformed_font_is_rejected_even_beside_valid_fonts() {
    let fonts: [&[u8]; 2] = [b"a parsed face", b"not a font"];
    let error = MeasureClient::new(&fonts, &[1, 0], scale).err().unwrap();
    assert!(matches!(error, Error::InvalidFont { index: 1 }));
}

#[test]
fn answered_measurements_repeat_from_the_cache() {
    let format = fixture_format();
    let mut client = client();
    let items = vec![fixture_item("a"), fixture_item("b")];
    let first = measure(&mut client, &format, &items).expect("cold");
    let again = measure(&mut client, &format, &items).expect("warm");
    assert_eq!(first, again);
    assert_eq!(client.compile_count(), 1);
    let mut fresh = self::client();
    let cold = measure(&mut fresh, &format, &items).expect("fresh");
    assert_eq!(cold, again, "a warm client answers as a fresh one");
}

#[test]
fn validation_resolves_the_leading_itself() {
    let mut format = fixture_format();
    assert!(validate(&format, &[fixture_item("a")], &to_em).is_ok());
    format.leading_relative = false;
    format.leading_value = bits(0.0001);
    match validate(&format, &[fixture_item("a")], &to_em) {
        Err(Error::Measure(message)) => {
            assert_eq!(message, "invalid ctypst-measure-v1 request: resolved leading must be positive")
        }
        other => panic!("expected a leading failure, got {other:?}"),
    }
}
