//! The versioned measurement protocol: request validation, the result cache,
//! and decoding of the measurement program's answers.
//!
//! Dimensions (font sizes, widths, margins, leading) are IEEE-754 binary64
//! values carried as their raw 64-bit patterns; see [`crate::float_bits`].
//! The two pieces of arithmetic on them that the protocol fixes (the leading
//! rescale and the character-budget formula) are supplied by the caller as
//! kernels, and every decision around them is made here.

use vstd::prelude::*;

use crate::error::Error;
use crate::float_bits::{is_at_most_zero, is_below_zero, is_finite, is_positive_finite, bits_is_finite, bits_is_at_most_zero, bits_is_below_zero};

verus! {

/// Versioned measurement contract served by this adapter.
pub const PROTOCOL_VERSION: &'static str = "ctypst-measure-v1";

/// Metadata label carrying every measurement result (bare name; the
/// program attaches it as `<ctypst-measure-v1>`).
pub const QUERY_LABEL: &'static str = "ctypst-measure-v1";

/// Response id carrying the calibration record.
pub const CALIBRATION_ID: &'static str = "__calibration";

// ---------------------------------------------------------------------------
// Text helpers
// ---------------------------------------------------------------------------

/// Whether two texts hold the same characters.
pub fn text_eq(a: &str, b: &str) -> (result: bool)
    ensures
        result == (a@ == b@),
{
    a.to_owned() == b.to_owned()
}

/// `prefix` followed by `rest`, as a new string.
pub fn concat2(prefix: &str, rest: &str) -> (result: String)
    ensures
        result@ == prefix@ + rest@,
{
    let mut text = prefix.to_owned();
    text.append(rest);
    text
}

/// `a`, then `b`, then `c`, as a new string.
pub fn concat3(a: &str, b: &str, c: &str) -> (result: String)
    ensures
        result@ == a@ + b@ + c@,
{
    let mut text = a.to_owned();
    text.append(b);
    text.append(c);
    text
}

/// The text of a `Measure` error, if that is what `error` is.
pub open spec fn measure_message(error: Error) -> Option<Seq<char>> {
    match error {
        Error::Measure(message) => Some(message@),
        _ => None,
    }
}

// ---------------------------------------------------------------------------
// UTF-16 length
// ---------------------------------------------------------------------------

/// Number of UTF-16 code units a character occupies.
pub open spec fn utf16_width(c: char) -> nat {
    if (c as u32) >= 0x10000 {
        2
    } else {
        1
    }
}

/// Number of UTF-16 code units that encode `text`.
pub open spec fn utf16_units(text: Seq<char>) -> nat
    decreases text.len(),
{
    if text.len() == 0 {
        0
    } else {
        utf16_width(text[0]) + utf16_units(text.drop_first())
    }
}

/// A text never needs more UTF-16 units than UTF-8 bytes.
pub proof fn lemma_utf16_units_at_most_utf8_bytes(text: Seq<char>)
    ensures
        utf16_units(text) <= vstd::utf8::encode_utf8(text).len(),
    decreases text.len(),
{
    if text.len() > 0 {
        lemma_utf16_units_at_most_utf8_bytes(text.drop_first());
    }
}

/// Count the UTF-16 code units of `text`.
pub fn utf16_len(text: &str) -> (units: usize)
    ensures
        units == utf16_units(text@),
{
    broadcast use vstd::string::group_string_axioms;

    let bytes = text.as_bytes();
    proof {
        lemma_utf16_units_at_most_utf8_bytes(text@);
    }
    let ghost total = utf16_units(text@);
    let byte_count = bytes.len();
    assert(byte_count == bytes@.len());
    assert(text@.skip(0) =~= text@);
    let mut units: usize = 0;
    for c in iter: text.chars()
        invariant
            iter.seq() == text@,
            total == utf16_units(text@),
            total <= bytes@.len(),
            bytes@.len() <= usize::MAX,
            units + utf16_units(text@.skip(iter.index() as int)) == total,
    {
        assert(text@.skip(iter.index() as int).drop_first() =~= text@.skip(iter.index() + 1));
        units = units + (if (c as u32) >= 0x10000 { 2 } else { 1 });
    }
    proof {
        assert(text@.skip(text@.len() as int) =~= Seq::<char>::empty());
    }
    units
}


// ---------------------------------------------------------------------------
// Protocol arithmetic
// ---------------------------------------------------------------------------

/// The budget a fragment gets: none for empty text or a width that is not
/// positive, otherwise whatever the scale kernel answers for the text's
/// UTF-16 length, the natural width and the usable width.
pub open spec fn budget_matches<F: Fn(u64, u64, u64) -> i64>(
    scale: F,
    text: Seq<char>,
    width_pt: u64,
    usable_width_pt: u64,
    budget: Option<i64>,
) -> bool {
    if text.len() == 0 || is_at_most_zero(width_pt) {
        budget is None
    } else {
        budget matches Some(value) && call_ensures(
            scale,
            (utf16_units(text) as u64, width_pt, usable_width_pt),
            value,
        )
    }
}

/// A kernel that accepts every argument triple.
pub open spec fn total_scale<F: Fn(u64, u64, u64) -> i64>(scale: F) -> bool {
    forall|units: u64, width: u64, usable: u64| #[trigger]
        call_requires(scale, (units, width, usable))
}

/// A kernel that accepts every argument pair.
pub open spec fn total_rescale<F: Fn(u64, u64) -> u64>(rescale: F) -> bool {
    forall|value: u64, base: u64| #[trigger] call_requires(rescale, (value, base))
}

/// Fragment-level character budget: positive room left, negative overflow,
/// none when the fragment is empty or has no measurable width.
///
/// `scale` turns the fragment's UTF-16 length, its natural width and the
/// usable width into the rounded budget.
pub fn char_budget<F: Fn(u64, u64, u64) -> i64>(
    text: &str,
    width_pt: u64,
    usable_width_pt: u64,
    scale: &F,
) -> (budget: Option<i64>)
    requires
        total_scale(*scale),
    ensures
        budget_matches(*scale, text@, width_pt, usable_width_pt, budget),
{
    if text.is_empty() || bits_is_at_most_zero(width_pt) {
        return None;
    }
    let units = utf16_len(text);
    Some(scale(units as u64, width_pt, usable_width_pt))
}

/// Canonical em multiplier: relative values pass through unchanged, point
/// values go through `to_em` together with the base size.
pub fn leading_em<F: Fn(u64, u64) -> u64>(
    leading_value: u64,
    leading_relative: bool,
    base_font_size: u64,
    to_em: &F,
) -> (em: u64)
    requires
        total_rescale(*to_em),
    ensures
        leading_relative ==> em == leading_value,
        !leading_relative ==> call_ensures(*to_em, (leading_value, base_font_size), em),
{
    if leading_relative {
        leading_value
    } else {
        to_em(leading_value, base_font_size)
    }
}

// ---------------------------------------------------------------------------
// Request data
// ---------------------------------------------------------------------------

/// Text weight carried by a measurement item.
#[derive(Clone, Copy, Debug, PartialEq, Eq, Structural)]
pub enum Weight {
    /// Regular text weight.
    Regular,
    /// Bold text weight.
    Bold,
}

/// The protocol's lower-case name of a weight.
pub open spec fn weight_label(weight: Weight) -> Seq<char> {
    match weight {
        Weight::Regular => "regular"@,
        Weight::Bold => "bold"@,
    }
}

impl Weight {
    /// The protocol's lower-case name of this weight.
    pub fn as_label(&self) -> (label: &'static str)
        ensures
            label@ == weight_label(*self),
    {
        match self {
            Weight::Regular => "regular",
            Weight::Bold => "bold",
        }
    }

    /// The weight a protocol name denotes, if any.
    pub fn from_label(label: &str) -> (weight: Option<Weight>)
        ensures
            weight matches Some(w) ==> weight_label(w) == label@,
            weight is None ==> label@ != "regular"@ && label@ != "bold"@,
    {
        if text_eq(label, "regular") {
            Some(Weight::Regular)
        } else if text_eq(label, "bold") {
            Some(Weight::Bold)
        } else {
            None
        }
    }
}

/// One fragment to measure: opaque id, raw text, style, available width.
///
/// Text travels verbatim; the measurement program owns escaping and the
/// supported `*`/`_` markup policy. `font_size` and `usable_width_pt` are
/// binary64 bit patterns.
#[derive(Clone, Debug, PartialEq)]
pub struct MeasureItem {
    /// Opaque caller id, echoed back on the result. Must be unique per call.
    pub id: String,
    /// Raw fragment text, possibly empty.
    pub text: String,
    /// Font size in points. Must be finite and positive.
    pub font_size: u64,
    /// Text weight.
    pub weight: Weight,
    /// Available wrap width in points. Must be finite and positive.
    pub usable_width_pt: u64,
}

/// Mathematical content of a [`MeasureItem`].
pub struct ItemView {
    pub id: Seq<char>,
    pub text: Seq<char>,
    pub font_size: u64,
    pub weight: Weight,
    pub usable_width_pt: u64,
}

impl View for MeasureItem {
    type V = ItemView;

    open spec fn view(&self) -> ItemView {
        ItemView {
            id: self.id@,
            text: self.text@,
            font_size: self.font_size,
            weight: self.weight,
            usable_width_pt: self.usable_width_pt,
        }
    }
}

/// The views of a sequence of items.
pub open spec fn item_views(items: Seq<MeasureItem>) -> Seq<ItemView> {
    items.map_values(|item: MeasureItem| item@)
}

/// Measurement format: the shared page and font geometry.
///
/// Numeric fields are binary64 bit patterns.
#[derive(Clone, Debug, PartialEq)]
pub struct MeasureFormat {
    /// Font family name, for example `"Archivo"`. Empty falls back to Archivo.
    pub font: String,
    /// Base font size in points. Must be finite and positive.
    pub base_font_size: u64,
    /// Entry heading size in points (bold calibration). Must be finite and positive.
    pub entry_heading_size: u64,
    /// Leading value: em multiplier when `leading_relative`, points otherwise.
    pub leading_value: u64,
    /// Whether `leading_value` is already an em multiplier.
    pub leading_relative: bool,
    /// Left page margin in millimetres. Must be finite and non-negative.
    pub margin_left: u64,
    /// Right page margin in millimetres. Must be finite and non-negative.
    pub margin_right: u64,
    /// Page size name; `"us-letter"` selects 215.9mm, anything else is A4 width.
    pub page_size: String,
}

/// Mathematical content of a [`MeasureFormat`].
pub struct FormatView {
    pub font: Seq<char>,
    pub base_font_size: u64,
    pub entry_heading_size: u64,
    pub leading_value: u64,
    pub leading_relative: bool,
    pub margin_left: u64,
    pub margin_right: u64,
    pub page_size: Seq<char>,
}

impl View for MeasureFormat {
    type V = FormatView;

    open spec fn view(&self) -> FormatView {
        FormatView {
            font: self.font@,
            base_font_size: self.base_font_size,
            entry_heading_size: self.entry_heading_size,
            leading_value: self.leading_value,
            leading_relative: self.leading_relative,
            margin_left: self.margin_left,
            margin_right: self.margin_right,
            page_size: self.page_size@,
        }
    }
}

// ---------------------------------------------------------------------------
// Validation
// ---------------------------------------------------------------------------

/// The text of a request rejection.
pub open spec fn request_failure(what: Seq<char>) -> Seq<char> {
    "invalid ctypst-measure-v1 request: "@ + what
}

/// Why a format is rejected, given the leading (in em) it resolves to; none
/// when it is accepted. Checks run in the order the protocol fixes.
pub open spec fn format_fault(format: FormatView, leading_em: u64) -> Option<Seq<char>> {
    if !is_finite(format.base_font_size) {
        Some(request_failure("base_font_size is not finite"@))
    } else if !is_finite(format.entry_heading_size) {
        Some(request_failure("entry_heading_size is not finite"@))
    } else if !is_finite(format.leading_value) {
        Some(request_failure("leading_value is not finite"@))
    } else if !is_finite(format.margin_left) {
        Some(request_failure("margin_left is not finite"@))
    } else if !is_finite(format.margin_right) {
        Some(request_failure("margin_right is not finite"@))
    } else if is_at_most_zero(format.base_font_size) || is_at_most_zero(format.entry_heading_size) {
        Some(request_failure("font sizes must be positive"@))
    } else if is_below_zero(format.leading_value) {
        Some(request_failure("leading must not be negative"@))
    } else if is_below_zero(format.margin_left) || is_below_zero(format.margin_right) {
        Some(request_failure("margins must not be negative"@))
    } else if !is_positive_finite(leading_em) {
        Some(request_failure("resolved leading must be positive"@))
    } else {
        None
    }
}

/// Why item `index` is rejected, given the items before it; none when it
/// is accepted.
pub open spec fn item_fault(items: Seq<ItemView>, index: int) -> Option<Seq<char>> {
    let item = items[index];
    if item.id.len() == 0 {
        Some(request_failure("item id is empty"@))
    } else if exists|earlier: int| 0 <= earlier < index && #[trigger] items[earlier].id == item.id {
        Some(request_failure("duplicate item id "@ + item.id))
    } else if !is_positive_finite(item.font_size) {
        Some(request_failure("item "@ + item.id + " has no positive font size"@))
    } else if !is_positive_finite(item.usable_width_pt) {
        Some(request_failure("item "@ + item.id + " has no positive width"@))
    } else {
        None
    }
}

/// Some of the first `count` checks fails.
pub open spec fn fault_exists(count: int, fault: spec_fn(int) -> Option<Seq<char>>) -> bool {
    exists|k: int| 0 <= k < count && (#[trigger] fault(k)) is Some
}

/// Position of the first of `count` checks that fails, or `count` when none does.
pub open spec fn first_fault_index(count: int, fault: spec_fn(int) -> Option<Seq<char>>) -> int {
    if fault_exists(count, fault) {
        choose|k: int|
            0 <= k < count && (#[trigger] fault(k)) is Some && forall|j: int|
                0 <= j < k ==> (#[trigger] fault(j)) is None
    } else {
        count
    }
}

/// The fault of the first of `count` checks that fails, if any.
pub open spec fn first_fault(count: int, fault: spec_fn(int) -> Option<Seq<char>>) -> Option<Seq<char>> {
    if fault_exists(count, fault) {
        fault(first_fault_index(count, fault))
    } else {
        None
    }
}

/// When check `index` is the first to fail, its fault is the first fault.
pub proof fn lemma_first_fault_at(count: int, fault: spec_fn(int) -> Option<Seq<char>>, index: int)
    requires
        0 <= index < count,
        fault(index) is Some,
        forall|j: int| 0 <= j < index ==> (#[trigger] fault(j)) is None,
    ensures
        first_fault_index(count, fault) == index,
        first_fault(count, fault) == fault(index),
{
    assert(fault_exists(count, fault));
    let k = first_fault_index(count, fault);
    assert(0 <= k < count && fault(k) is Some && forall|j: int| 0 <= j < k ==> (#[trigger] fault(j)) is None);
    if k < index {
        assert(fault(k) is None);
    } else if k > index {
        assert(fault(index) is None);
    }
}

/// When no check fails there is no first fault.
pub proof fn lemma_first_fault_none(count: int, fault: spec_fn(int) -> Option<Seq<char>>)
    requires
        forall|j: int| 0 <= j < count ==> (#[trigger] fault(j)) is None,
    ensures
        first_fault(count, fault) is None,
        first_fault_index(count, fault) == count,
{
}

/// The item checks, as a family indexed by position.
pub open spec fn item_faults(items: Seq<ItemView>) -> spec_fn(int) -> Option<Seq<char>> {
    |index: int| item_fault(items, index)
}

/// Why a request is rejected, given the leading its format resolves to;
/// none when it is accepted.
pub open spec fn request_fault(
    format: FormatView,
    leading_em: u64,
    items: Seq<ItemView>,
) -> Option<Seq<char>> {
    match format_fault(format, leading_em) {
        Some(message) => Some(message),
        None => first_fault(items.len() as int, item_faults(items)),
    }
}

fn request_error(what: &str) -> (error: Error)
    ensures
        measure_message(error) == Some(request_failure(what@)),
{
    Error::Measure(concat2("invalid ctypst-measure-v1 request: ", what))
}

fn format_check(format: &MeasureFormat, leading_em: u64) -> (result: Result<(), Error>)
    ensures
        match format_fault(format@, leading_em) {
            None => result is Ok,
            Some(message) => result matches Err(error) && measure_message(error) == Some(message),
        },
{
    if !bits_is_finite(format.base_font_size) {
        return Err(request_error("base_font_size is not finite"));
    }
    if !bits_is_finite(format.entry_heading_size) {
        return Err(request_error("entry_heading_size is not finite"));
    }
    if !bits_is_finite(format.leading_value) {
        return Err(request_error("leading_value is not finite"));
    }
    if !bits_is_finite(format.margin_left) {
        return Err(request_error("margin_left is not finite"));
    }
    if !bits_is_finite(format.margin_right) {
        return Err(request_error("margin_right is not finite"));
    }
    if bits_is_at_most_zero(format.base_font_size) || bits_is_at_most_zero(format.entry_heading_size) {
        return Err(request_error("font sizes must be positive"));
    }
    if bits_is_below_zero(format.leading_value) {
        return Err(request_error("leading must not be negative"));
    }
    if bits_is_below_zero(format.margin_left) || bits_is_below_zero(format.margin_right) {
        return Err(request_error("margins must not be negative"));
    }
    if !bits_is_finite(leading_em) || bits_is_at_most_zero(leading_em) {
        return Err(request_error("resolved leading must be positive"));
    }
    Ok(())
}

/// Whether an item before position `index` carries the same id.
fn id_seen_before(items: &[MeasureItem], index: usize) -> (seen: bool)
    requires
        index < items@.len(),
    ensures
        seen == exists|earlier: int|
            0 <= earlier < index && #[trigger] items@[earlier].id@ == items@[index as int].id@,
{
    let mut earlier: usize = 0;
    while earlier < index
        invariant
            index < items@.len(),
            earlier <= index,
            forall|j: int| 0 <= j < earlier ==> #[trigger] items@[j].id@ != items@[index as int].id@,
        decreases index - earlier,
    {
        if items[earlier].id == items[index].id {
            return true;
        }
        earlier += 1;
    }
    false
}

fn item_check(items: &[MeasureItem], index: usize) -> (failure: Option<Error>)
    requires
        index < items@.len(),
    ensures
        match item_fault(item_views(items@), index as int) {
            None => failure is None,
            Some(message) => failure matches Some(error) && measure_message(error) == Some(message),
        },
{
    let ghost views = item_views(items@);
    let item = &items[index];
    assert(views[index as int] == item@);
    assert(forall|j: int| 0 <= j < items@.len() ==> #[trigger] views[j] == items@[j]@);
    let failure: Option<Error> = if item.id.as_str().is_empty() {
        Some(request_error("item id is empty"))
    } else if id_seen_before(items, index) {
        proof {
            let earlier = choose|earlier: int|
                0 <= earlier < index && #[trigger] items@[earlier].id@ == items@[index as int].id@;
            assert(views[earlier].id == views[index as int].id);
        }
        Some(Error::Measure(concat2("invalid ctypst-measure-v1 request: duplicate item id ", item.id.as_str())))
    } else if !bits_is_finite(item.font_size) || bits_is_at_most_zero(item.font_size) {
        Some(Error::Measure(concat3("invalid ctypst-measure-v1 request: item ", item.id.as_str(), " has no positive font size")))
    } else if !bits_is_finite(item.usable_width_pt) || bits_is_at_most_zero(item.usable_width_pt) {
        Some(Error::Measure(concat3("invalid ctypst-measure-v1 request: item ", item.id.as_str(), " has no positive width")))
    } else {
        proof {
            assert forall|earlier: int| 0 <= earlier < index implies #[trigger] views[earlier].id != views[index as int].id by {
                assert(items@[earlier].id@ != items@[index as int].id@);
            }
        }
        None
    };
    proof {
        reveal_strlit("invalid ctypst-measure-v1 request: ");
        reveal_strlit("invalid ctypst-measure-v1 request: duplicate item id ");
        reveal_strlit("duplicate item id ");
        reveal_strlit("invalid ctypst-measure-v1 request: item ");
        reveal_strlit("item ");
    }
    assert(match item_fault(views, index as int) {
        None => failure is None,
        Some(message) => failure matches Some(error) && measure_message(error) == Some(message),
    });
    failure
}

/// Check a request before anything is measured.
///
/// `leading_em` is the em multiplier the format's leading resolves to
/// (see [`leading_em`]).
fn validate_resolved(
    format: &MeasureFormat,
    leading_em: u64,
    items: &[MeasureItem],
) -> (result: Result<(), Error>)
    ensures
        match request_fault(format@, leading_em, item_views(items@)) {
            None => result is Ok,
            Some(message) => result matches Err(error) && measure_message(error) == Some(message),
        },
{
    format_check(format, leading_em)?;
    let ghost views = item_views(items@);
    let mut index: usize = 0;
    while index < items.len()
        invariant
            index <= items@.len(),
            views == item_views(items@),
            format_fault(format@, leading_em) is None,
            forall|j: int| 0 <= j < index ==> (#[trigger] item_fault(views, j)) is None,
        decreases items.len() - index,
    {
        let failure = item_check(items, index);
        assert(views == item_views(items@));
        assert(item_faults(views)(index as int) == item_fault(views, index as int));
        match failure {
            Some(error) => {
                proof {
                    lemma_first_fault_at(views.len() as int, item_faults(views), index as int);
                }
                return Err(error);
            },
            None => {},
        }
        index += 1;
    }
    proof {
        lemma_first_fault_none(views.len() as int, item_faults(views));
    }
    Ok(())
}


/// `em` is what the format's leading resolves to under the leading kernel
/// `to_em` (see [`leading_em`]).
pub open spec fn resolves_leading<G: Fn(u64, u64) -> u64>(to_em: G, format: FormatView, em: u64) -> bool {
    &&& format.leading_relative ==> em == format.leading_value
    &&& !format.leading_relative ==> call_ensures(to_em, (format.leading_value, format.base_font_size), em)
}

/// Check a request: the format's numbers, its leading as `to_em` resolves
/// it, and every item. The first failing check is reported.
pub fn validate<G: Fn(u64, u64) -> u64>(
    format: &MeasureFormat,
    items: &[MeasureItem],
    to_em: &G,
) -> (result: Result<(), Error>)
    requires
        total_rescale(*to_em),
    ensures
        exists|em: u64|
            #[trigger] resolves_leading(*to_em, format@, em) && match request_fault(
                format@,
                em,
                item_views(items@),
            ) {
                None => result is Ok,
                Some(message) => result matches Err(error) && measure_message(error) == Some(message),
            },
{
    let em = leading_em(format.leading_value, format.leading_relative, format.base_font_size, to_em);
    let result = validate_resolved(format, em, items);
    assert(resolves_leading(*to_em, format@, em));
    result
}



// ---------------------------------------------------------------------------
// Requests and results
// ---------------------------------------------------------------------------

/// The font family a format selects: Archivo when none is named.
pub open spec fn effective_font(font: Seq<char>) -> Seq<char> {
    if font.len() == 0 {
        "Archivo"@
    } else {
        font
    }
}

/// The page size a format selects: A4 when none is named.
pub open spec fn effective_page_size(page_size: Seq<char>) -> Seq<char> {
    if page_size.len() == 0 {
        "a4"@
    } else {
        page_size
    }
}

/// The format object a measurement request carries: defaults applied and
/// the leading resolved to an em multiplier. Numeric fields are binary64
/// bit patterns.
#[derive(Clone, Debug, PartialEq)]
pub struct NormalizedFormat {
    /// Font family, never empty.
    pub font: String,
    /// Base font size in points.
    pub base_font_size: u64,
    /// Entry heading size in points.
    pub entry_heading_size: u64,
    /// Leading as an em multiplier.
    pub leading_em: u64,
    /// Left page margin in millimetres.
    pub margin_left: u64,
    /// Right page margin in millimetres.
    pub margin_right: u64,
    /// Page size name, never empty.
    pub page_size: String,
}

/// Mathematical content of a [`NormalizedFormat`].
pub struct NormalizedView {
    pub font: Seq<char>,
    pub base_font_size: u64,
    pub entry_heading_size: u64,
    pub leading_em: u64,
    pub margin_left: u64,
    pub margin_right: u64,
    pub page_size: Seq<char>,
}

impl View for NormalizedFormat {
    type V = NormalizedView;

    open spec fn view(&self) -> NormalizedView {
        NormalizedView {
            font: self.font@,
            base_font_size: self.base_font_size,
            entry_heading_size: self.entry_heading_size,
            leading_em: self.leading_em,
            margin_left: self.margin_left,
            margin_right: self.margin_right,
            page_size: self.page_size@,
        }
    }
}

/// The request format for `format` whose leading resolves to `leading_em`.
pub open spec fn normalized(format: FormatView, leading_em: u64) -> NormalizedView {
    NormalizedView {
        font: effective_font(format.font),
        base_font_size: format.base_font_size,
        entry_heading_size: format.entry_heading_size,
        leading_em,
        margin_left: format.margin_left,
        margin_right: format.margin_right,
        page_size: effective_page_size(format.page_size),
    }
}

/// The request format for `format` whose leading resolves to `leading_em`.
pub fn normalized_format(format: &MeasureFormat, leading_em: u64) -> (normal: NormalizedFormat)
    ensures
        normal@ == normalized(format@, leading_em),
        format.font@.len() > 0 ==> normal.font@ == format.font@,
        format.page_size@.len() > 0 ==> normal.page_size@ == format.page_size@,
        normal.base_font_size == format.base_font_size && normal.entry_heading_size == format.entry_heading_size,
        normal.margin_left == format.margin_left && normal.margin_right == format.margin_right,
        normal.leading_em == leading_em,
{
    let font = if format.font.as_str().is_empty() {
        "Archivo".to_owned()
    } else {
        format.font.clone()
    };
    let page_size = if format.page_size.as_str().is_empty() {
        "a4".to_owned()
    } else {
        format.page_size.clone()
    };
    NormalizedFormat {
        font,
        base_font_size: format.base_font_size,
        entry_heading_size: format.entry_heading_size,
        leading_em,
        margin_left: format.margin_left,
        margin_right: format.margin_right,
        page_size,
    }
}

fn same_normalized(a: &NormalizedFormat, b: &NormalizedFormat) -> (same: bool)
    ensures
        same == (a@ == b@),
{
    a.font == b.font && a.base_font_size == b.base_font_size && a.entry_heading_size
        == b.entry_heading_size && a.leading_em == b.leading_em && a.margin_left == b.margin_left
        && a.margin_right == b.margin_right && a.page_size == b.page_size
}

fn copy_normalized(a: &NormalizedFormat) -> (copy: NormalizedFormat)
    ensures
        copy@ == a@,
{
    NormalizedFormat {
        font: a.font.clone(),
        base_font_size: a.base_font_size,
        entry_heading_size: a.entry_heading_size,
        leading_em: a.leading_em,
        margin_left: a.margin_left,
        margin_right: a.margin_right,
        page_size: a.page_size.clone(),
    }
}

/// Whether two items are the same fragment request.
pub fn same_item(a: &MeasureItem, b: &MeasureItem) -> (same: bool)
    ensures
        same == (a@ == b@),
{
    a.id == b.id && a.text == b.text && a.font_size == b.font_size && a.weight == b.weight
        && a.usable_width_pt == b.usable_width_pt
}

/// A field-for-field copy of an item.
pub fn copy_item(item: &MeasureItem) -> (copy: MeasureItem)
    ensures
        copy@ == item@,
{
    MeasureItem {
        id: item.id.clone(),
        text: item.text.clone(),
        font_size: item.font_size,
        weight: item.weight,
        usable_width_pt: item.usable_width_pt,
    }
}

/// A measurement request: the normalized format and the items to measure.
/// Serialized with `"version": PROTOCOL_VERSION` beside them.
#[derive(Clone, Debug)]
pub struct MeasureRequest {
    /// Normalized format geometry.
    pub format: NormalizedFormat,
    /// Items to measure, in request order.
    pub items: Vec<MeasureItem>,
}

/// Calibration ratios from the four Typst probes (binary64 bit patterns).
///
/// Observability only: line derivation already ran inside the program.
#[derive(Clone, Copy, Debug, PartialEq, Eq, Structural)]
pub struct MeasureCalibration {
    /// Cap-height ratio for regular text.
    pub cap_ratio_regular: u64,
    /// Line-advance ratio for regular text.
    pub advance_ratio_regular: u64,
    /// Cap-height ratio for bold text.
    pub cap_ratio_bold: u64,
    /// Line-advance ratio for bold text.
    pub advance_ratio_bold: u64,
}

/// One measured fragment: exact Typst facts plus the host-side budget.
/// Dimensions are binary64 bit patterns.
#[derive(Clone, Debug, PartialEq)]
pub struct MeasureResult {
    /// Echoed opaque caller id.
    pub id: String,
    /// Natural (unwrapped) width in points.
    pub width_pt: u64,
    /// Wrapped height in points.
    pub height_pt: u64,
    /// Derived integer line count, at least one.
    pub lines: u64,
    /// Character budget: positive room left, negative overflow, none when
    /// the fragment is empty or has no measurable width.
    pub char_budget: Option<i64>,
}

/// Mathematical content of a [`MeasureResult`].
pub struct ResultView {
    pub id: Seq<char>,
    pub width_pt: u64,
    pub height_pt: u64,
    pub lines: u64,
    pub char_budget: Option<i64>,
}

impl View for MeasureResult {
    type V = ResultView;

    open spec fn view(&self) -> ResultView {
        ResultView {
            id: self.id@,
            width_pt: self.width_pt,
            height_pt: self.height_pt,
            lines: self.lines,
            char_budget: self.char_budget,
        }
    }
}

/// The views of a sequence of results.
pub open spec fn result_views(results: Seq<MeasureResult>) -> Seq<ResultView> {
    results.map_values(|result: MeasureResult| result@)
}

/// A field-for-field copy of a result.
pub fn copy_result(result: &MeasureResult) -> (copy: MeasureResult)
    ensures
        copy@ == result@,
{
    MeasureResult {
        id: result.id.clone(),
        width_pt: result.width_pt,
        height_pt: result.height_pt,
        lines: result.lines,
        char_budget: result.char_budget,
    }
}

// ---------------------------------------------------------------------------
// Result cache
// ---------------------------------------------------------------------------

struct CacheEntry {
    item: MeasureItem,
    result: MeasureResult,
}

/// No two entries are for the same item, and each result carries its
/// item's id.
spec fn entries_valid(entries: Seq<CacheEntry>) -> bool {
    &&& forall|i: int, j: int|
        0 <= i < entries.len() && 0 <= j < entries.len() && i != j ==> #[trigger] entries[i].item@
            != #[trigger] entries[j].item@
    &&& forall|i: int| 0 <= i < entries.len() ==> (#[trigger] entries[i]).result.id@ == entries[i].item.id@
}

spec fn entries_map(entries: Seq<CacheEntry>) -> Map<ItemView, ResultView> {
    Map::new(
        |key: ItemView| exists|i: int| 0 <= i < entries.len() && #[trigger] entries[i].item@ == key,
        |key: ItemView|
            entries[choose|i: int| 0 <= i < entries.len() && #[trigger] entries[i].item@ == key].result@,
    )
}

proof fn lemma_entries_map_at(entries: Seq<CacheEntry>, index: int)
    requires
        entries_valid(entries),
        0 <= index < entries.len(),
    ensures
        entries_map(entries).contains_key(entries[index].item@),
        entries_map(entries)[entries[index].item@] == entries[index].result@,
{
    let key = entries[index].item@;
    assert(entries[index].item@ == key);
    let chosen = choose|i: int| 0 <= i < entries.len() && #[trigger] entries[i].item@ == key;
    assert(0 <= chosen < entries.len() && entries[chosen].item@ == key);
    assert(chosen == index);
}

proof fn lemma_entries_map_push(entries: Seq<CacheEntry>, entry: CacheEntry)
    requires
        entries_valid(entries),
        !entries_map(entries).contains_key(entry.item@),
        entry.result.id@ == entry.item.id@,
    ensures
        entries_valid(entries.push(entry)),
        entries_map(entries.push(entry)) == entries_map(entries).insert(entry.item@, entry.result@),
{
    let grown = entries.push(entry);
    assert forall|i: int| 0 <= i < entries.len() implies #[trigger] grown[i].item@ != entry.item@ by {
        if grown[i].item@ == entry.item@ {
            assert(entries[i].item@ == entry.item@);
        }
    }
    assert(entries_valid(grown));
    let old_map = entries_map(entries).insert(entry.item@, entry.result@);
    let new_map = entries_map(grown);
    assert forall|key: ItemView| new_map.contains_key(key) <==> old_map.contains_key(key) by {
        if old_map.contains_key(key) && key != entry.item@ {
            let i = choose|i: int| 0 <= i < entries.len() && #[trigger] entries[i].item@ == key;
            assert(grown[i].item@ == key);
        }
        if new_map.contains_key(key) && key != entry.item@ {
            let i = choose|i: int| 0 <= i < grown.len() && #[trigger] grown[i].item@ == key;
            assert(i < entries.len());
            assert(entries[i].item@ == key);
        }
        if key == entry.item@ {
            assert(grown[entries.len() as int].item@ == key);
        }
    }
    assert forall|key: ItemView| new_map.contains_key(key) implies new_map[key] == old_map[key] by {
        let i = choose|i: int| 0 <= i < grown.len() && #[trigger] grown[i].item@ == key;
        lemma_entries_map_at(grown, i);
        if i < entries.len() {
            assert(entries[i] == grown[i]);
            lemma_entries_map_at(entries, i);
        }
    }
    assert(new_map =~= old_map);
}

proof fn lemma_entries_map_update(entries: Seq<CacheEntry>, index: int, entry: CacheEntry)
    requires
        entries_valid(entries),
        0 <= index < entries.len(),
        entries[index].item@ == entry.item@,
        entry.result.id@ == entry.item.id@,
    ensures
        entries_valid(entries.update(index, entry)),
        entries_map(entries.update(index, entry)) == entries_map(entries).insert(
            entry.item@,
            entry.result@,
        ),
{
    let changed = entries.update(index, entry);
    assert forall|i: int, j: int|
        0 <= i < changed.len() && 0 <= j < changed.len() && i != j implies #[trigger] changed[i].item@
        != #[trigger] changed[j].item@ by {
        assert(entries[i].item@ != entries[j].item@);
    }
    assert(entries_valid(changed));
    let old_map = entries_map(entries).insert(entry.item@, entry.result@);
    let new_map = entries_map(changed);
    assert forall|key: ItemView| new_map.contains_key(key) <==> old_map.contains_key(key) by {
        if old_map.contains_key(key) {
            if key == entry.item@ {
                assert(changed[index].item@ == key);
            } else {
                let i = choose|i: int| 0 <= i < entries.len() && #[trigger] entries[i].item@ == key;
                assert(changed[i].item@ == key);
            }
        }
        if new_map.contains_key(key) {
            let i = choose|i: int| 0 <= i < changed.len() && #[trigger] changed[i].item@ == key;
            if i != index {
                assert(entries[i].item@ == key);
            }
        }
    }
    assert forall|key: ItemView| new_map.contains_key(key) implies new_map[key] == old_map[key] by {
        let i = choose|i: int| 0 <= i < changed.len() && #[trigger] changed[i].item@ == key;
        lemma_entries_map_at(changed, i);
        if i != index {
            lemma_entries_map_at(entries, i);
        }
    }
    assert(new_map =~= old_map);
}

fn entries_find(entries: &Vec<CacheEntry>, item: &MeasureItem) -> (found: Option<usize>)
    requires
        entries_valid(entries@),
    ensures
        match found {
            Some(index) => index < entries@.len() && entries@[index as int].item@ == item@,
            None => !entries_map(entries@).contains_key(item@),
        },
{
    let mut index: usize = 0;
    while index < entries.len()
        invariant
            index <= entries@.len(),
            forall|j: int| 0 <= j < index ==> #[trigger] entries@[j].item@ != item@,
        decreases entries.len() - index,
    {
        if same_item(&entries[index].item, item) {
            return Some(index);
        }
        index += 1;
    }
    None
}

fn entries_insert(entries: &mut Vec<CacheEntry>, item: &MeasureItem, result: MeasureResult)
    requires
        entries_valid(old(entries)@),
        result.id@ == item.id@,
    ensures
        entries_valid(final(entries)@),
        entries_map(final(entries)@) == entries_map(old(entries)@).insert(item@, result@),
{
    let entry = CacheEntry { item: copy_item(item), result };
    match entries_find(entries, item) {
        Some(index) => {
            proof {
                lemma_entries_map_update(entries@, index as int, entry);
            }
            entries.set(index, entry);
        },
        None => {
            proof {
                lemma_entries_map_push(entries@, entry);
            }
            entries.push(entry);
        },
    }
}


// ---------------------------------------------------------------------------
// Result assembly
// ---------------------------------------------------------------------------

/// The cached results of `order`, in that order.
pub open spec fn lookup_all(order: Seq<ItemView>, cache: Map<ItemView, ResultView>) -> Seq<ResultView> {
    order.map_values(|item: ItemView| cache[item])
}

/// Why item `index` of `order` cannot be served from `cache`.
pub open spec fn omission_fault(cache: Map<ItemView, ResultView>, order: Seq<ItemView>, index: int) -> Option<Seq<char>> {
    if cache.contains_key(order[index]) {
        None
    } else {
        Some("cache omitted fragment "@ + order[index].id)
    }
}

/// The omission checks, as a family indexed by position.
pub open spec fn omission_faults(cache: Map<ItemView, ResultView>, order: Seq<ItemView>) -> spec_fn(int) -> Option<Seq<char>> {
    |index: int| omission_fault(cache, order, index)
}

/// Results of `order` served from `cache`, or the first omission.
pub open spec fn assembled(cache: Map<ItemView, ResultView>, order: Seq<ItemView>) -> Result<Seq<ResultView>, Seq<char>> {
    match first_fault(order.len() as int, omission_faults(cache, order)) {
        Some(message) => Err(message),
        None => Ok(lookup_all(order, cache)),
    }
}

fn assemble(entries: &Vec<CacheEntry>, order: &[MeasureItem]) -> (assembly: Result<Vec<MeasureResult>, Error>)
    requires
        entries_valid(entries@),
    ensures
        match assembled(entries_map(entries@), item_views(order@)) {
            Ok(results) => assembly matches Ok(found) && result_views(found@) == results,
            Err(message) => assembly matches Err(error) && measure_message(error) == Some(message),
        },
{
    let ghost cache = entries_map(entries@);
    let ghost views = item_views(order@);
    let mut found: Vec<MeasureResult> = Vec::new();
    let mut index: usize = 0;
    while index < order.len()
        invariant
            index <= order@.len(),
            entries_valid(entries@),
            cache == entries_map(entries@),
            views == item_views(order@),
            forall|j: int| 0 <= j < index ==> (#[trigger] omission_fault(cache, views, j)) is None,
            result_views(found@) == lookup_all(views, cache).take(index as int),
        decreases order.len() - index,
    {
        assert(views[index as int] == order@[index as int]@);
        assert(omission_faults(cache, views)(index as int) == omission_fault(cache, views, index as int));
        match entries_find(entries, &order[index]) {
            Some(position) => {
                proof {
                    lemma_entries_map_at(entries@, position as int);
                }
                let ghost before = found@;
                let copied = copy_result(&entries[position].result);
                found.push(copied);
                assert(found@ == before.push(copied));
                assert(result_views(before).len() == index);
                assert forall|j: int| 0 <= j < index + 1 implies #[trigger] result_views(found@)[j]
                    == lookup_all(views, cache).take(index + 1)[j] by {
                    if j < index {
                        assert(found@[j] == before[j]);
                        assert(result_views(before)[j] == lookup_all(views, cache).take(index as int)[j]);
                    }
                }
                assert(result_views(found@) =~= lookup_all(views, cache).take(index + 1));
            },
            None => {
                proof {
                    lemma_first_fault_at(views.len() as int, omission_faults(cache, views), index as int);
                }
                return Err(Error::Measure(concat2("cache omitted fragment ", order[index].id.as_str())));
            },
        }
        index += 1;
    }
    proof {
        lemma_first_fault_none(views.len() as int, omission_faults(cache, views));
        assert(lookup_all(views, cache).take(views.len() as int) =~= lookup_all(views, cache));
    }
    Ok(found)
}

// ---------------------------------------------------------------------------
// The client
// ---------------------------------------------------------------------------

/// The bytes of every font file, one after another.
pub open spec fn font_bytes(fonts: Seq<&[u8]>) -> Seq<u8>
    decreases fonts.len(),
{
    if fonts.len() == 0 {
        Seq::empty()
    } else {
        font_bytes(fonts.drop_last()) + fonts.last()@
    }
}

/// No file of the pack holds a font face that parses (`faces[i]` is how
/// many faces file `i` holds).
pub open spec fn pack_has_no_face(faces: Seq<usize>) -> bool {
    forall|i: int| 0 <= i < faces.len() ==> #[trigger] faces[i] == 0
}

/// File `index` is the first file of the pack in which no font face parses.
pub open spec fn first_faceless_font(faces: Seq<usize>, index: int) -> bool {
    &&& 0 <= index < faces.len()
    &&& faces[index] == 0
    &&& forall|j: int| 0 <= j < index ==> #[trigger] faces[j] > 0
}

/// What a [`MeasureClient`] holds.
pub struct ClientView {
    /// FNV-1a hash of the font pack, part of every cache identity.
    pub font_hash: u64,
    /// The normalized format the cache currently answers for.
    pub tag: Option<NormalizedView>,
    /// Cached results by request item.
    pub cache: Map<ItemView, ResultView>,
    /// Calibration ratios from the latest run, if any ran.
    pub calibration: Option<MeasureCalibration>,
    /// Program runs performed so far.
    pub compiles: u64,
}

/// Every cached result carries the id of the item it answers.
pub open spec fn cache_consistent(client: ClientView) -> bool {
    forall|item: ItemView| #[trigger] client.cache.contains_key(item) ==> client.cache[item].id == item.id
}

/// A cached result is sound for its item under the budget kernel `scale`:
/// it carries the item's id, at least one line, finite non-negative
/// dimensions, and the budget the kernel gives.
pub open spec fn sound_result<F: Fn(u64, u64, u64) -> i64>(scale: F, item: ItemView, result: ResultView) -> bool {
    &&& result.id == item.id
    &&& result.lines >= 1
    &&& is_finite(result.width_pt) && !is_below_zero(result.width_pt)
    &&& is_finite(result.height_pt) && !is_below_zero(result.height_pt)
    &&& budget_matches(scale, item.text, result.width_pt, item.usable_width_pt, result.char_budget)
}

/// Every cached result is sound for the item it answers.
pub open spec fn cache_sound<F: Fn(u64, u64, u64) -> i64>(scale: F, cache: Map<ItemView, ResultView>) -> bool {
    forall|item: ItemView| #[trigger] cache.contains_key(item) ==> sound_result(scale, item, cache[item])
}

/// Native measurement client with result caching.
///
/// The client answers full cache hits and empty requests itself; for a
/// batch of misses it hands the caller one request to run through the
/// measurement program, then absorbs the program's answer.
pub struct MeasureClient<F: Fn(u64, u64, u64) -> i64> {
    scale: F,
    font_hash: u64,
    tag: Option<NormalizedFormat>,
    entries: Vec<CacheEntry>,
    calibration: Option<MeasureCalibration>,
    compiles: u64,
}

impl<F: Fn(u64, u64, u64) -> i64> MeasureClient<F> {
    #[verifier::type_invariant]
    spec fn entries_ok(&self) -> bool {
        &&& entries_valid(self.entries@)
        &&& total_scale(self.scale)
        &&& cache_sound(self.scale, entries_map(self.entries@))
    }

    /// The budget kernel the client computes character budgets with.
    pub closed spec fn kernel(&self) -> F {
        self.scale
    }
}

impl<F: Fn(u64, u64, u64) -> i64> View for MeasureClient<F> {
    type V = ClientView;

    closed spec fn view(&self) -> ClientView {
        ClientView {
            font_hash: self.font_hash,
            tag: match self.tag {
                Some(format) => Some(format@),
                None => None,
            },
            cache: entries_map(self.entries@),
            calibration: self.calibration,
            compiles: self.compiles,
        }
    }
}

/// A batch of misses the caller runs through the measurement program.
#[derive(Debug)]
pub struct MeasureBatch {
    /// The request to run.
    pub request: MeasureRequest,
    /// Every item of the measurement, in the caller's order.
    pub order: Vec<MeasureItem>,
}

/// Mathematical content of a [`MeasureBatch`].
pub struct BatchView {
    pub format: NormalizedView,
    pub items: Seq<ItemView>,
    pub order: Seq<ItemView>,
}

impl View for MeasureBatch {
    type V = BatchView;

    open spec fn view(&self) -> BatchView {
        BatchView {
            format: self.request.format@,
            items: item_views(self.request.items@),
            order: item_views(self.order@),
        }
    }
}

/// What a measurement asks for next.
#[derive(Debug)]
pub enum MeasureStep {
    /// Every item was answered from the cache (or there were none).
    Measured(Vec<MeasureResult>),
    /// These misses must run through the measurement program first.
    Run(MeasureBatch),
}

/// Mathematical content of a [`MeasureStep`].
pub enum StepView {
    Measured(Seq<ResultView>),
    Run(BatchView),
}

/// The view of a step.
pub open spec fn step_view(step: MeasureStep) -> StepView {
    match step {
        MeasureStep::Measured(results) => StepView::Measured(result_views(results@)),
        MeasureStep::Run(batch) => StepView::Run(batch@),
    }
}

/// The client after it starts answering for `tag`: unchanged when it
/// already does, otherwise with an empty cache and no calibration.
pub open spec fn retag(client: ClientView, tag: NormalizedView) -> ClientView {
    if client.tag == Some(tag) {
        client
    } else {
        ClientView {
            font_hash: client.font_hash,
            tag: Some(tag),
            cache: Map::empty(),
            calibration: None,
            compiles: client.compiles,
        }
    }
}

/// The items of `items` that `cache` cannot answer, in order.
pub open spec fn missing_items(items: Seq<ItemView>, cache: Map<ItemView, ResultView>) -> Seq<ItemView> {
    items.filter(|item: ItemView| !cache.contains_key(item))
}

/// What measuring `items` in `format` (whose leading resolves to
/// `leading_em`) does: the client afterwards, and the next step or the
/// rejection.
pub open spec fn plan(
    client: ClientView,
    format: FormatView,
    leading_em: u64,
    items: Seq<ItemView>,
) -> (ClientView, Result<StepView, Seq<char>>) {
    match request_fault(format, leading_em, items) {
        Some(message) => (client, Err(message)),
        None => if items.len() == 0 {
            (client, Ok(StepView::Measured(Seq::empty())))
        } else {
            let tag = normalized(format, leading_em);
            let next = retag(client, tag);
            let misses = missing_items(items, next.cache);
            if misses.len() == 0 {
                (next, Ok(StepView::Measured(lookup_all(items, next.cache))))
            } else {
                (next, Ok(StepView::Run(BatchView { format: tag, items: misses, order: items })))
            }
        },
    }
}

proof fn lemma_no_misses(items: Seq<ItemView>, cache: Map<ItemView, ResultView>)
    requires
        missing_items(items, cache).len() == 0,
    ensures
        forall|i: int| 0 <= i < items.len() ==> cache.contains_key(#[trigger] items[i]),
{
    broadcast use vstd::seq_lib::group_filter_ensures;
    let pred = |item: ItemView| !cache.contains_key(item);
    assert forall|i: int| 0 <= i < items.len() implies cache.contains_key(#[trigger] items[i]) by {
        if !cache.contains_key(items[i]) {
            assert(pred(items[i]));
            assert(items.filter(pred).contains(items[i]));
        }
    }
}

impl<F: Fn(u64, u64, u64) -> i64> MeasureClient<F> {
    /// Build a client for a font pack, identified by the FNV-1a hash of
    /// its bytes, computing character budgets with `scale` (see
    /// [`char_budget`]).
    ///
    /// `faces[i]` is the number of font faces that parse in file `i` (the
    /// font parser runs on the host). A pack in which no file holds a face
    /// is refused with `Error::NoValidFont`; otherwise a file without a face
    /// is refused with `Error::InvalidFont` naming the first such file.
    pub fn new(fonts: &[&[u8]], faces: &[usize], scale: F) -> (client: Result<Self, Error>)
        requires
            faces@.len() == fonts@.len(),
            total_scale(scale),
        ensures
            pack_has_no_face(faces@) ==> (client matches Err(error) && error is NoValidFont),
            !pack_has_no_face(faces@) && (exists|i: int| first_faceless_font(faces@, i)) ==> (client matches Err(
                Error::InvalidFont { index },
            ) && first_faceless_font(faces@, index as int)),
            !pack_has_no_face(faces@) && !(exists|i: int| first_faceless_font(faces@, i)) ==> (client matches Ok(
                made,
            ) && made.kernel() == scale && made@.font_hash == crate::fnv::fnv1a_fold(
                crate::fnv::FNV_OFFSET_BASIS,
                font_bytes(fonts@),
            ) && made@.tag is None && made@.cache == Map::<ItemView, ResultView>::empty()
                && made@.calibration is None && made@.compiles == 0),
    {
        let mut any_face = false;
        let mut first_faceless: Option<usize> = None;
        let mut scan: usize = 0;
        while scan < faces.len()
            invariant
                scan <= faces@.len(),
                any_face <==> exists|j: int| 0 <= j < scan && #[trigger] faces@[j] > 0,
                first_faceless matches Some(k) ==> k < scan && first_faceless_font(faces@, k as int),
                first_faceless is None ==> forall|j: int| 0 <= j < scan ==> #[trigger] faces@[j] > 0,
            decreases faces.len() - scan,
        {
            if faces[scan] > 0 {
                any_face = true;
            } else if first_faceless.is_none() {
                first_faceless = Some(scan);
            }
            scan += 1;
        }
        if !any_face {
            return Err(Error::NoValidFont);
        }
        match first_faceless {
            Some(index) => {
                return Err(Error::InvalidFont { index });
            },
            None => {},
        }
        proof {
            assert forall|i: int| !first_faceless_font(faces@, i) by {
                if first_faceless_font(faces@, i) {
                    assert(faces@[i] > 0);
                }
            }
        }
        let mut font_hash = crate::fnv::FNV_OFFSET_BASIS;
        let mut index: usize = 0;
        while index < fonts.len()
            invariant
                index <= fonts@.len(),
                font_hash == crate::fnv::fnv1a_fold(
                    crate::fnv::FNV_OFFSET_BASIS,
                    font_bytes(fonts@.take(index as int)),
                ),
            decreases fonts.len() - index,
        {
            proof {
                assert(fonts@.take(index + 1).drop_last() =~= fonts@.take(index as int));
                crate::fnv::lemma_fnv1a_fold_concat(
                    crate::fnv::FNV_OFFSET_BASIS,
                    font_bytes(fonts@.take(index as int)),
                    fonts@[index as int]@,
                );
            }
            font_hash = crate::fnv::fnv1a64_update(font_hash, fonts[index]);
            index += 1;
        }
        proof {
            assert(fonts@.take(fonts@.len() as int) =~= fonts@);
        }
        let client = MeasureClient {
            scale,
            font_hash,
            tag: None,
            entries: Vec::new(),
            calibration: None,
            compiles: 0,
        };
        assert(entries_map(client.entries@) =~= Map::<ItemView, ResultView>::empty());
        Ok(client)
    }

    /// Calibration ratios from the latest run, if any ran.
    pub fn calibration(&self) -> (calibration: Option<MeasureCalibration>)
        ensures
            calibration == self@.calibration,
    {
        self.calibration
    }

    /// Program runs performed so far. Guards the batching contract: one
    /// run per miss batch, none on full hits or empty requests.
    pub fn compile_count(&self) -> (count: u64)
        ensures
            count == self@.compiles,
    {
        self.compiles
    }

    /// Every cached result carries the id of the item it answers, at least
    /// one line, finite non-negative dimensions, and the budget the client's
    /// kernel gives.
    pub fn cache_is_consistent(&self)
        ensures
            cache_consistent(self@),
            cache_sound(self.kernel(), self@.cache),
    {
        proof {
            use_type_invariant(self);
            let entries = self.entries@;
            assert forall|item: ItemView| #[trigger] self@.cache.contains_key(item) implies self@.cache[item].id == item.id by {
                let i = choose|i: int| 0 <= i < entries.len() && #[trigger] entries[i].item@ == item;
                lemma_entries_map_at(entries, i);
            }
        }
    }

    /// Start measuring `items` in `format`, whose leading `to_em` resolves
    /// (see [`leading_em`]).
    ///
    /// Results follow request order. An empty item list, and a request the
    /// cache answers in full, are measured at once; otherwise the step names
    /// the batch of misses to run, whose answer goes to
    /// [`MeasureClient::absorb`]. A changed format empties the cache.
    pub fn measure_all<G: Fn(u64, u64) -> u64>(
        &mut self,
        format: &MeasureFormat,
        items: &[MeasureItem],
        to_em: &G,
    ) -> (step: Result<MeasureStep, Error>)
        requires
            total_rescale(*to_em),
        ensures
            exists|em: u64|
                #[trigger] resolves_leading(*to_em, format@, em) && final(self)@ == plan(
                    old(self)@,
                    format@,
                    em,
                    item_views(items@),
                ).0 && match plan(old(self)@, format@, em, item_views(items@)).1 {
                    Ok(next) => step matches Ok(taken) && step_view(taken) == next,
                    Err(message) => step matches Err(error) && measure_message(error) == Some(message),
                },
            final(self).kernel() == old(self).kernel(),
            step matches Ok(MeasureStep::Measured(results)) ==> results@.len() == items@.len() && forall|
                i: int,
            |
                0 <= i < results@.len() ==> sound_result(
                    old(self).kernel(),
                    items@[i]@,
                    #[trigger] results@[i]@,
                ),
    {
        let em = leading_em(format.leading_value, format.leading_relative, format.base_font_size, to_em);
        let step = self.measure_resolved(format, em, items);
        assert(resolves_leading(*to_em, format@, em));
        step
    }

    fn measure_resolved(
        &mut self,
        format: &MeasureFormat,
        leading_em: u64,
        items: &[MeasureItem],
    ) -> (step: Result<MeasureStep, Error>)
        ensures
            final(self)@ == plan(old(self)@, format@, leading_em, item_views(items@)).0,
            match plan(old(self)@, format@, leading_em, item_views(items@)).1 {
                Ok(next) => step matches Ok(taken) && step_view(taken) == next,
                Err(message) => step matches Err(error) && measure_message(error) == Some(message),
            },
            final(self).kernel() == old(self).kernel(),
            step matches Ok(MeasureStep::Measured(results)) ==> results@.len() == items@.len() && forall|
                i: int,
            |
                0 <= i < results@.len() ==> sound_result(
                    old(self).kernel(),
                    items@[i]@,
                    #[trigger] results@[i]@,
                ),
    {
        proof {
            use_type_invariant(&*self);
        }
        let ghost views = item_views(items@);
        match validate_resolved(format, leading_em, items) {
            Err(error) => return Err(error),
            Ok(()) => {},
        }
        if items.len() == 0 {
            let none: Vec<MeasureResult> = Vec::new();
            assert(result_views(none@) =~= Seq::<ResultView>::empty());
            return Ok(MeasureStep::Measured(none));
        }
        let normal = normalized_format(format, leading_em);
        let current = match &self.tag {
            Some(tag) => same_normalized(tag, &normal),
            None => false,
        };
        if !current {
            self.entries = Vec::new();
            self.calibration = None;
            self.tag = Some(copy_normalized(&normal));
            assert(entries_map(self.entries@) =~= Map::<ItemView, ResultView>::empty());
        }
        let ghost cache = entries_map(self.entries@);
        assert(self@ == retag(old(self)@, normal@));
        let ghost pred = |item: ItemView| !cache.contains_key(item);
        let mut misses: Vec<MeasureItem> = Vec::new();
        let mut index: usize = 0;
        while index < items.len()
            invariant
                index <= items@.len(),
                views == item_views(items@),
                cache == entries_map(self.entries@),
                entries_valid(self.entries@),
                pred == (|item: ItemView| !cache.contains_key(item)),
                item_views(misses@) == views.take(index as int).filter(pred),
            decreases items.len() - index,
        {
            proof {
                reveal_with_fuel(Seq::<_>::filter, 1);
                assert(views.take(index + 1).drop_last() =~= views.take(index as int));
                assert(views[index as int] == items@[index as int]@);
            }
            match entries_find(&self.entries, &items[index]) {
                Some(_) => {},
                None => {
                    misses.push(copy_item(&items[index]));
                    assert(item_views(misses@) =~= views.take(index as int).filter(pred).push(views[index as int]));
                },
            }
            index += 1;
        }
        proof {
            assert(views.take(views.len() as int) =~= views);
        }
        if misses.len() == 0 {
            proof {
                lemma_no_misses(views, cache);
                assert forall|j: int| 0 <= j < views.len() implies (#[trigger] omission_fault(cache, views, j)) is None by {}
                lemma_first_fault_none(views.len() as int, omission_faults(cache, views));
            }
            let assembly = assemble(&self.entries, items);
            proof {
                use_type_invariant(&*self);
                if assembly is Ok {
                    lemma_assembled_sound(self.scale, cache, views);
                    let results = assembly->Ok_0;
                    assert(result_views(results@) == lookup_all(views, cache));
                    assert(result_views(results@).len() == results@.len());
                    assert(results@.len() == items@.len());
                    assert forall|i: int| 0 <= i < results@.len() implies sound_result(
                        self.scale,
                        items@[i]@,
                        #[trigger] results@[i]@,
                    ) by {
                        assert(result_views(results@)[i] == results@[i]@);
                        assert(views[i] == items@[i]@);
                    }
                }
            }
            match assembly {
                Ok(found) => Ok(MeasureStep::Measured(found)),
                Err(error) => Err(error),
            }
        } else {
            let mut order: Vec<MeasureItem> = Vec::new();
            let mut position: usize = 0;
            while position < items.len()
                invariant
                    position <= items@.len(),
                    views == item_views(items@),
                    item_views(order@) == views.take(position as int),
                decreases items.len() - position,
            {
                let ghost before = order@;
                let copied = copy_item(&items[position]);
                order.push(copied);
                assert(order@ == before.push(copied));
                assert(item_views(before).len() == position);
                assert forall|j: int| 0 <= j < position + 1 implies #[trigger] item_views(order@)[j]
                    == views.take(position + 1)[j] by {
                    if j < position {
                        assert(order@[j] == before[j]);
                        assert(item_views(before)[j] == views.take(position as int)[j]);
                    }
                }
                assert(item_views(order@) =~= views.take(position + 1));
                position += 1;
            }
            assert(views.take(views.len() as int) =~= views);
            Ok(MeasureStep::Run(MeasureBatch { request: MeasureRequest { format: normal, items: misses }, order }))
        }
    }
}


// ---------------------------------------------------------------------------
// The measurement program's answer
// ---------------------------------------------------------------------------

/// One fragment row as the measurement program reports it (`w` and `h` as
/// binary64 bit patterns).
#[derive(Clone, Copy, Debug, PartialEq, Eq, Structural)]
pub struct ResultRow {
    /// Natural width in points.
    pub w: u64,
    /// Wrapped height in points.
    pub h: u64,
    /// Derived line count.
    pub lines: u64,
}

/// The four calibration ratios of the calibration record (binary64 bit
/// patterns).
#[derive(Clone, Copy, Debug, PartialEq, Eq, Structural)]
pub struct RatioRow {
    /// `cap-reg`.
    pub cap_reg: u64,
    /// `adv-reg`.
    pub adv_reg: u64,
    /// `cap-bold`.
    pub cap_bold: u64,
    /// `adv-bold`.
    pub adv_bold: u64,
}

/// One metadata value of the measurement query, as the host read it.
#[derive(Debug)]
pub struct QueryRecord {
    /// The value's `id` field, when it is a string.
    pub id: Option<String>,
    /// The value read as a fragment row, or why it is not one.
    pub row: Result<ResultRow, String>,
    /// The value's `ratios` read as a calibration record, or why they are not one.
    pub ratios: Result<RatioRow, String>,
}

/// Mathematical content of a [`QueryRecord`].
pub struct RecordView {
    pub id: Option<Seq<char>>,
    pub row: Result<ResultRow, Seq<char>>,
    pub ratios: Result<RatioRow, Seq<char>>,
}

impl View for QueryRecord {
    type V = RecordView;

    open spec fn view(&self) -> RecordView {
        RecordView {
            id: match self.id {
                Some(id) => Some(id@),
                None => None,
            },
            row: match self.row {
                Ok(row) => Ok(row),
                Err(why) => Err(why@),
            },
            ratios: match self.ratios {
                Ok(ratios) => Ok(ratios),
                Err(why) => Err(why@),
            },
        }
    }
}

/// The views of a sequence of records.
pub open spec fn record_views(records: Seq<QueryRecord>) -> Seq<RecordView> {
    records.map_values(|record: QueryRecord| record@)
}

/// The record reports the fragment `id`.
pub open spec fn is_fragment_with(record: RecordView, id: Seq<char>) -> bool {
    record.id == Some(id) && id != "__calibration"@
}

/// Why record `index` is rejected while fragment rows are collected: it
/// has no id, or it repeats an earlier fragment id.
pub open spec fn record_fault(records: Seq<RecordView>, index: int) -> Option<Seq<char>> {
    match records[index].id {
        None => Some("ctypst-measure-v1 result has no id"@),
        Some(id) => if id != "__calibration"@ && exists|earlier: int|
            0 <= earlier < index && #[trigger] records[earlier].id == Some(id) {
            Some("ctypst-measure-v1 duplicated fragment "@ + id)
        } else {
            None
        },
    }
}

/// The record checks, as a family indexed by position.
pub open spec fn record_faults(records: Seq<RecordView>) -> spec_fn(int) -> Option<Seq<char>> {
    |index: int| record_fault(records, index)
}

/// Ids of the fragments the records report.
pub open spec fn fragment_ids(records: Seq<RecordView>) -> Set<Seq<char>> {
    Set::new(|id: Seq<char>| exists|i: int| 0 <= i < records.len() && is_fragment_with(#[trigger] records[i], id))
}

/// Ids of the items of a batch.
pub open spec fn miss_ids(misses: Seq<ItemView>) -> Set<Seq<char>> {
    Set::new(|id: Seq<char>| exists|i: int| 0 <= i < misses.len() && (#[trigger] misses[i]).id == id)
}

/// Ids of `misses` outside `found`, each once, in batch order.
pub open spec fn missing_ids(misses: Seq<ItemView>, found: Set<Seq<char>>) -> Seq<Seq<char>>
    decreases misses.len(),
{
    if misses.len() == 0 {
        Seq::empty()
    } else {
        let earlier = missing_ids(misses.drop_last(), found);
        let id = misses.last().id;
        if found.contains(id) || earlier.contains(id) {
            earlier
        } else {
            earlier.push(id)
        }
    }
}

/// Ids of reported fragments outside `wanted`, in record order.
pub open spec fn extra_ids(records: Seq<RecordView>, wanted: Set<Seq<char>>) -> Seq<Seq<char>>
    decreases records.len(),
{
    if records.len() == 0 {
        Seq::empty()
    } else {
        let earlier = extra_ids(records.drop_last(), wanted);
        match records.last().id {
            Some(id) => if id != "__calibration"@ && !wanted.contains(id) {
                earlier.push(id)
            } else {
                earlier
            },
            None => earlier,
        }
    }
}

/// The contents of a sequence of strings.
pub open spec fn text_views(texts: Seq<String>) -> Seq<Seq<char>> {
    texts.map_values(|text: String| text@)
}

/// Debug rendering of a list of texts (`["a", "b"]`), as Rust's standard
/// formatting writes it.
pub uninterp spec fn debug_list_text(items: Seq<Seq<char>>) -> Seq<char>;

/// Render a list of texts with Rust's standard `Debug` formatting.
#[verifier::external_body]
fn debug_list(items: &Vec<String>) -> (text: String)
    ensures
        text@ == debug_list_text(text_views(items@)),
{
    format!("{items:?}")
}

/// The text of an incomplete answer.
pub open spec fn incomplete_message(missing: Seq<Seq<char>>, extra: Seq<Seq<char>>) -> Seq<char> {
    "ctypst-measure-v1 returned an incomplete fragment set (missing "@ + debug_list_text(missing)
        + ", unexpected "@ + debug_list_text(extra) + ")"@
}

/// Why the fragment rows of an answer are rejected for a batch: a bad
/// record, or a fragment set other than the batch's ids.
pub open spec fn fragment_failure(misses: Seq<ItemView>, records: Seq<RecordView>) -> Option<Seq<char>> {
    match first_fault(records.len() as int, record_faults(records)) {
        Some(message) => Some(message),
        None => if fragment_ids(records) != miss_ids(misses) {
            Some(
                incomplete_message(
                    missing_ids(misses, fragment_ids(records)),
                    extra_ids(records, miss_ids(misses)),
                ),
            )
        } else {
            None
        },
    }
}

/// The record reporting fragment `id`.
pub open spec fn fragment_record(records: Seq<RecordView>, id: Seq<char>) -> RecordView {
    records[choose|i: int| 0 <= i < records.len() && is_fragment_with(#[trigger] records[i], id)]
}

/// Why the row answering batch item `index` is rejected.
pub open spec fn miss_fault(misses: Seq<ItemView>, records: Seq<RecordView>, index: int) -> Option<Seq<char>> {
    match row_check(misses[index], fragment_record(records, misses[index].id)) {
        Ok(_) => None,
        Err(message) => Some(message),
    }
}

/// The row checks, as a family indexed by batch position.
pub open spec fn miss_faults(misses: Seq<ItemView>, records: Seq<RecordView>) -> spec_fn(int) -> Option<Seq<char>> {
    |index: int| miss_fault(misses, records, index)
}

/// `result` is what item `miss` measured as `row`.
pub open spec fn result_for<F: Fn(u64, u64, u64) -> i64>(scale: F, miss: ItemView, row: ResultRow, result: ResultView) -> bool {
    &&& result.id == miss.id
    &&& result.width_pt == row.w
    &&& result.height_pt == row.h
    &&& result.lines == row.lines
    &&& budget_matches(scale, miss.text, row.w, miss.usable_width_pt, result.char_budget)
}

/// `after` is `before` with the first `count` batch items' rows added.
pub open spec fn decoded_into<F: Fn(u64, u64, u64) -> i64>(
    before: Map<ItemView, ResultView>,
    after: Map<ItemView, ResultView>,
    misses: Seq<ItemView>,
    records: Seq<RecordView>,
    count: int,
    scale: F,
) -> bool {
    &&& forall|key: ItemView| #[trigger] after.contains_key(key) <==> (before.contains_key(key)
        || exists|i: int| 0 <= i < count && misses[i] == key)
    &&& forall|i: int| 0 <= i < count ==> (fragment_record(records, misses[i].id).row matches Ok(row)
        && result_for(scale, misses[i], row, after[#[trigger] misses[i]]))
    &&& forall|key: ItemView| #[trigger] before.contains_key(key) && !(exists|i: int| 0 <= i < count && misses[i] == key)
        ==> after[key] == before[key]
}

/// The record is the calibration record.
pub open spec fn is_calibration(record: RecordView) -> bool {
    record.id == Some("__calibration"@)
}

/// All four ratios are finite.
pub open spec fn ratios_finite(ratios: RatioRow) -> bool {
    is_finite(ratios.cap_reg) && is_finite(ratios.adv_reg) && is_finite(ratios.cap_bold) && is_finite(ratios.adv_bold)
}

/// The calibration a ratio row reports.
pub open spec fn calibration_of(ratios: RatioRow) -> MeasureCalibration {
    MeasureCalibration {
        cap_ratio_regular: ratios.cap_reg,
        advance_ratio_regular: ratios.adv_reg,
        cap_ratio_bold: ratios.cap_bold,
        advance_ratio_bold: ratios.adv_bold,
    }
}

/// Why record `index` is rejected while the calibration is read.
pub open spec fn calibration_fault(records: Seq<RecordView>, index: int) -> Option<Seq<char>> {
    if !is_calibration(records[index]) {
        None
    } else if exists|earlier: int| 0 <= earlier < index && is_calibration(#[trigger] records[earlier]) {
        Some("ctypst-measure-v1 duplicated calibration"@)
    } else {
        match records[index].ratios {
            Err(why) => Some("calibration is malformed: "@ + why),
            Ok(ratios) => if ratios_finite(ratios) {
                None
            } else {
                Some("ctypst-measure-v1 calibration is not finite"@)
            },
        }
    }
}

/// The calibration checks, as a family indexed by position.
pub open spec fn calibration_faults(records: Seq<RecordView>) -> spec_fn(int) -> Option<Seq<char>> {
    |index: int| calibration_fault(records, index)
}

/// The calibration an answer reports, or why it has none.
pub open spec fn calibration_outcome(records: Seq<RecordView>) -> Result<MeasureCalibration, Seq<char>> {
    match first_fault(records.len() as int, calibration_faults(records)) {
        Some(message) => Err(message),
        None => if exists|i: int| 0 <= i < records.len() && is_calibration(#[trigger] records[i]) {
            match records[choose|i: int| 0 <= i < records.len() && is_calibration(#[trigger] records[i])].ratios {
                Ok(ratios) => Ok(calibration_of(ratios)),
                Err(why) => Err(why),
            }
        } else {
            Err("ctypst-measure-v1 omitted calibration"@)
        },
    }
}

fn id_reported_before(records: &[QueryRecord], index: usize, id: &String) -> (seen: bool)
    requires
        index < records@.len(),
    ensures
        seen == exists|earlier: int|
            0 <= earlier < index && #[trigger] record_views(records@)[earlier].id == Some(id@),
{
    let ghost views = record_views(records@);
    let mut earlier: usize = 0;
    while earlier < index
        invariant
            earlier <= index,
            index < records@.len(),
            views == record_views(records@),
            forall|j: int| 0 <= j < earlier ==> (#[trigger] views[j]).id != Some(id@),
        decreases index - earlier,
    {
        assert(views[earlier as int] == records@[earlier as int]@);
        let repeated = match &records[earlier].id {
            Some(other) => *other == *id,
            None => false,
        };
        if repeated {
            return true;
        }
        earlier += 1;
    }
    false
}

fn check_records(records: &[QueryRecord]) -> (checked: Result<(), Error>)
    ensures
        match first_fault(records@.len() as int, record_faults(record_views(records@))) {
            None => checked is Ok,
            Some(message) => checked matches Err(error) && measure_message(error) == Some(message),
        },
        checked is Ok ==> forall|j: int| 0 <= j < records@.len() ==> (#[trigger] record_fault(record_views(records@), j)) is None,
{
    let ghost views = record_views(records@);
    let mut index: usize = 0;
    while index < records.len()
        invariant
            index <= records@.len(),
            views == record_views(records@),
            forall|j: int| 0 <= j < index ==> (#[trigger] record_fault(views, j)) is None,
        decreases records.len() - index,
    {
        assert(views[index as int] == records@[index as int]@);
        assert(record_faults(views)(index as int) == record_fault(views, index as int));
        match &records[index].id {
            None => {
                proof {
                    lemma_first_fault_at(views.len() as int, record_faults(views), index as int);
                }
                return Err(Error::Measure("ctypst-measure-v1 result has no id".to_owned()));
            },
            Some(id) => {
                if !text_eq(id.as_str(), "__calibration") && id_reported_before(records, index, id) {
                    proof {
                        assert(record_fault(views, index as int) == Some(
                            "ctypst-measure-v1 duplicated fragment "@ + id@,
                        ));
                        lemma_first_fault_at(views.len() as int, record_faults(views), index as int);
                    }
                    return Err(Error::Measure(concat2("ctypst-measure-v1 duplicated fragment ", id.as_str())));
                }
                assert(record_fault(views, index as int) is None);
            },
        }
        index += 1;
    }
    proof {
        lemma_first_fault_none(views.len() as int, record_faults(views));
    }
    Ok(())
}


fn find_fragment(records: &[QueryRecord], id: &String) -> (found: Option<usize>)
    ensures
        match found {
            Some(index) => index < records@.len() && is_fragment_with(record_views(records@)[index as int], id@),
            None => !fragment_ids(record_views(records@)).contains(id@),
        },
{
    let ghost views = record_views(records@);
    if text_eq(id.as_str(), "__calibration") {
        return None;
    }
    let mut index: usize = 0;
    while index < records.len()
        invariant
            index <= records@.len(),
            views == record_views(records@),
            id@ != "__calibration"@,
            forall|j: int| 0 <= j < index ==> !is_fragment_with(#[trigger] views[j], id@),
        decreases records.len() - index,
    {
        assert(views[index as int] == records@[index as int]@);
        let matches = match &records[index].id {
            Some(other) => *other == *id,
            None => false,
        };
        if matches {
            return Some(index);
        }
        index += 1;
    }
    None
}

fn batch_has_id(misses: &[MeasureItem], id: &String) -> (has: bool)
    ensures
        has == miss_ids(item_views(misses@)).contains(id@),
{
    let ghost views = item_views(misses@);
    let mut index: usize = 0;
    while index < misses.len()
        invariant
            index <= misses@.len(),
            views == item_views(misses@),
            forall|j: int| 0 <= j < index ==> (#[trigger] views[j]).id != id@,
        decreases misses.len() - index,
    {
        assert(views[index as int] == misses@[index as int]@);
        if misses[index].id == *id {
            return true;
        }
        index += 1;
    }
    false
}

fn list_has(list: &Vec<String>, id: &String) -> (has: bool)
    ensures
        has == text_views(list@).contains(id@),
{
    let ghost views = text_views(list@);
    let mut index: usize = 0;
    while index < list.len()
        invariant
            index <= list@.len(),
            views == text_views(list@),
            forall|j: int| 0 <= j < index ==> #[trigger] views[j] != id@,
        decreases list.len() - index,
    {
        assert(views[index as int] == list@[index as int]@);
        if list[index] == *id {
            assert(views[index as int] == id@);
            return true;
        }
        index += 1;
    }
    false
}

proof fn lemma_missing_ids_empty(misses: Seq<ItemView>, found: Set<Seq<char>>)
    ensures
        (missing_ids(misses, found).len() == 0) == (forall|i: int| 0 <= i < misses.len() ==> found.contains(#[trigger] misses[i].id)),
    decreases misses.len(),
{
    if misses.len() > 0 {
        let earlier = misses.drop_last();
        lemma_missing_ids_empty(earlier, found);
        if missing_ids(misses, found).len() == 0 {
            assert(missing_ids(earlier, found).len() == 0);
            assert forall|i: int| 0 <= i < misses.len() implies found.contains(#[trigger] misses[i].id) by {
                if i < misses.len() - 1 {
                    assert(misses[i] == earlier[i]);
                }
            }
        } else if forall|i: int| 0 <= i < misses.len() ==> found.contains(#[trigger] misses[i].id) {
            assert forall|i: int| 0 <= i < earlier.len() implies found.contains(#[trigger] earlier[i].id) by {
                assert(earlier[i] == misses[i]);
            }
            assert(found.contains(misses[misses.len() - 1].id));
        }
    }
}

proof fn lemma_extra_ids_empty(records: Seq<RecordView>, wanted: Set<Seq<char>>)
    ensures
        (extra_ids(records, wanted).len() == 0) == (forall|i: int, id: Seq<char>|
            0 <= i < records.len() && #[trigger] is_fragment_with(records[i], id) ==> wanted.contains(id)),
    decreases records.len(),
{
    if records.len() > 0 {
        let earlier = records.drop_last();
        lemma_extra_ids_empty(earlier, wanted);
        let last = records.len() - 1;
        if extra_ids(records, wanted).len() == 0 {
            assert(extra_ids(earlier, wanted).len() == 0);
            assert forall|i: int, id: Seq<char>|
                0 <= i < records.len() && #[trigger] is_fragment_with(records[i], id) implies wanted.contains(id) by {
                if i < last {
                    assert(records[i] == earlier[i]);
                }
            }
        } else if forall|i: int, id: Seq<char>|
            0 <= i < records.len() && #[trigger] is_fragment_with(records[i], id) ==> wanted.contains(id) {
            assert forall|i: int, id: Seq<char>|
                0 <= i < earlier.len() && #[trigger] is_fragment_with(earlier[i], id) implies wanted.contains(id) by {
                assert(earlier[i] == records[i]);
            }
            match records[last].id {
                Some(id) => {
                    if id != "__calibration"@ {
                        assert(is_fragment_with(records[last], id));
                    }
                },
                None => {},
            }
        }
    }
}

fn check_fragment_set(misses: &[MeasureItem], records: &[QueryRecord]) -> (checked: Result<(), Error>)
    ensures
        fragment_ids(record_views(records@)) != miss_ids(item_views(misses@)) ==> (checked matches Err(error)
            && measure_message(error) == Some(
            incomplete_message(
                missing_ids(item_views(misses@), fragment_ids(record_views(records@))),
                extra_ids(record_views(records@), miss_ids(item_views(misses@))),
            ),
        )),
        fragment_ids(record_views(records@)) == miss_ids(item_views(misses@)) ==> checked is Ok,
{
    let ghost miss_views = item_views(misses@);
    let ghost views = record_views(records@);
    let ghost found = fragment_ids(views);
    let ghost wanted = miss_ids(miss_views);
    let mut missing: Vec<String> = Vec::new();
    let mut index: usize = 0;
    while index < misses.len()
        invariant
            index <= misses@.len(),
            miss_views == item_views(misses@),
            views == record_views(records@),
            found == fragment_ids(views),
            text_views(missing@) == missing_ids(miss_views.take(index as int), found),
        decreases misses.len() - index,
    {
        assert(miss_views.take(index + 1).drop_last() =~= miss_views.take(index as int));
        assert(miss_views[index as int] == misses@[index as int]@);
        let id = &misses[index].id;
        let absent = find_fragment(records, id).is_none();
        if absent && !list_has(&missing, id) {
            let ghost before = missing@;
            missing.push(id.clone());
            assert(text_views(missing@) =~= text_views(before).push(id@));
        }
        index += 1;
    }
    assert(miss_views.take(miss_views.len() as int) =~= miss_views);
    let mut extra: Vec<String> = Vec::new();
    let mut position: usize = 0;
    while position < records.len()
        invariant
            position <= records@.len(),
            miss_views == item_views(misses@),
            views == record_views(records@),
            wanted == miss_ids(miss_views),
            text_views(extra@) == extra_ids(views.take(position as int), wanted),
        decreases records.len() - position,
    {
        assert(views.take(position + 1).drop_last() =~= views.take(position as int));
        assert(views[position as int] == records@[position as int]@);
        assert(views.take(position + 1).last() == views[position as int]);
        match &records[position].id {
            Some(id) => {
                if !text_eq(id.as_str(), "__calibration") && !batch_has_id(misses, id) {
                    let ghost before = extra@;
                    extra.push(id.clone());
                    assert(text_views(extra@) =~= text_views(before).push(id@));
                }
            },
            None => {},
        }
        position += 1;
    }
    assert(views.take(views.len() as int) =~= views);
    proof {
        lemma_missing_ids_empty(miss_views, found);
        lemma_extra_ids_empty(views, wanted);
    }
    if missing.len() == 0 && extra.len() == 0 {
        proof {
            assert forall|id: Seq<char>| found.contains(id) <==> wanted.contains(id) by {
                if wanted.contains(id) {
                    let i = choose|i: int| 0 <= i < miss_views.len() && (#[trigger] miss_views[i]).id == id;
                    assert(found.contains(miss_views[i].id));
                }
                if found.contains(id) {
                    let i = choose|i: int| 0 <= i < views.len() && is_fragment_with(#[trigger] views[i], id);
                }
            }
            assert(found =~= wanted);
        }
        return Ok(());
    }
    proof {
        if found == wanted {
            assert forall|i: int| 0 <= i < miss_views.len() implies found.contains(#[trigger] miss_views[i].id) by {
                assert(wanted.contains(miss_views[i].id));
            }
            assert forall|i: int, id: Seq<char>|
                0 <= i < views.len() && #[trigger] is_fragment_with(views[i], id) implies wanted.contains(id) by {
                assert(found.contains(id));
            }
        }
    }
    let missing_text = debug_list(&missing);
    let extra_text = debug_list(&extra);
    let mut message = "ctypst-measure-v1 returned an incomplete fragment set (missing ".to_owned();
    message.append(missing_text.as_str());
    message.append(", unexpected ");
    message.append(extra_text.as_str());
    message.append(")");
    Err(Error::Measure(message))
}


proof fn lemma_fragment_record(records: Seq<RecordView>, index: int, id: Seq<char>)
    requires
        forall|j: int| 0 <= j < records.len() ==> (#[trigger] record_fault(records, j)) is None,
        0 <= index < records.len(),
        is_fragment_with(records[index], id),
    ensures
        fragment_record(records, id) == records[index],
{
    let k = choose|i: int| 0 <= i < records.len() && is_fragment_with(#[trigger] records[i], id);
    assert(0 <= k < records.len() && is_fragment_with(records[k], id));
    if k < index {
        assert(records[k].id == Some(id));
        assert(record_fault(records, index) is Some);
    } else if k > index {
        assert(records[index].id == Some(id));
        assert(record_fault(records, k) is Some);
    }
}

/// Why the row a record reports for `miss` is rejected, or the row.
pub open spec fn row_check(miss: ItemView, record: RecordView) -> Result<ResultRow, Seq<char>> {
    let id = miss.id;
    match record.row {
        Err(why) => Err("fragment "@ + id + " is malformed: "@ + why),
        Ok(row) => if !is_finite(row.w) || is_below_zero(row.w) || !is_finite(row.h) || is_below_zero(row.h) {
            Err("fragment "@ + id + " has invalid dimensions"@)
        } else if row.lines < 1 {
            Err("fragment "@ + id + " reports no lines"@)
        } else {
            Ok(row)
        },
    }
}

fn checked_row(miss: &MeasureItem, record: &QueryRecord) -> (checked: Result<ResultRow, String>)
    ensures
        match row_check(miss@, record@) {
            Ok(row) => checked == Ok::<ResultRow, String>(row),
            Err(message) => checked matches Err(text) && text@ == message,
        },
{
    match &record.row {
        Err(why) => {
            let mut message = concat3("fragment ", miss.id.as_str(), " is malformed: ");
            message.append(why.as_str());
            Err(message)
        },
        Ok(row) => {
            if !bits_is_finite(row.w) || bits_is_below_zero(row.w) || !bits_is_finite(row.h) || bits_is_below_zero(row.h) {
                Err(concat3("fragment ", miss.id.as_str(), " has invalid dimensions"))
            } else if row.lines < 1 {
                Err(concat3("fragment ", miss.id.as_str(), " reports no lines"))
            } else {
                Ok(*row)
            }
        },
    }
}

fn decode_misses<F: Fn(u64, u64, u64) -> i64>(
    entries: &mut Vec<CacheEntry>,
    misses: &[MeasureItem],
    records: &[QueryRecord],
    scale: &F,
) -> (decoded: Result<(), Error>)
    requires
        entries_valid(old(entries)@),
        total_scale(*scale),
        cache_sound(*scale, entries_map(old(entries)@)),
        forall|j: int| 0 <= j < records@.len() ==> (#[trigger] record_fault(record_views(records@), j)) is None,
        fragment_ids(record_views(records@)) == miss_ids(item_views(misses@)),
    ensures
        entries_valid(final(entries)@),
        cache_sound(*scale, entries_map(final(entries)@)),
        decoded_into(
            entries_map(old(entries)@),
            entries_map(final(entries)@),
            item_views(misses@),
            record_views(records@),
            first_fault_index(misses@.len() as int, miss_faults(item_views(misses@), record_views(records@))),
            *scale,
        ),
        match first_fault(misses@.len() as int, miss_faults(item_views(misses@), record_views(records@))) {
            None => decoded is Ok,
            Some(message) => decoded matches Err(error) && measure_message(error) == Some(message),
        },
{
    let ghost before = entries_map(entries@);
    let ghost miss_views = item_views(misses@);
    let ghost views = record_views(records@);
    let mut index: usize = 0;
    while index < misses.len()
        invariant
            index <= misses@.len(),
            miss_views == item_views(misses@),
            views == record_views(records@),
            total_scale(*scale),
            forall|j: int| 0 <= j < records@.len() ==> (#[trigger] record_fault(views, j)) is None,
            fragment_ids(views) == miss_ids(miss_views),
            entries_valid(entries@),
            cache_sound(*scale, entries_map(entries@)),
            before == entries_map(old(entries)@),
            decoded_into(before, entries_map(entries@), miss_views, views, index as int, *scale),
            forall|j: int| 0 <= j < index ==> (#[trigger] miss_fault(miss_views, views, j)) is None,
        decreases misses.len() - index,
    {
        let miss = &misses[index];
        assert(miss_views[index as int] == miss@);
        assert(miss_faults(miss_views, views)(index as int) == miss_fault(miss_views, views, index as int));
        assert(miss_ids(miss_views).contains(miss.id@));
        let position = match find_fragment(records, &miss.id) {
            Some(position) => position,
            None => {
                assert(false);
                return Err(Error::Measure(concat2("ctypst-measure-v1 omitted fragment ", miss.id.as_str())));
            },
        };
        proof {
            lemma_fragment_record(views, position as int, miss.id@);
            assert(views[position as int] == records@[position as int]@);
        }
        let row = match checked_row(miss, &records[position]) {
            Ok(row) => row,
            Err(message) => {
                proof {
                    lemma_first_fault_at(miss_views.len() as int, miss_faults(miss_views, views), index as int);
                    assert(misses@.len() == miss_views.len());
                }
                return Err(Error::Measure(message));
            },
        };
        let budget = char_budget(miss.text.as_str(), row.w, miss.usable_width_pt, scale);
        let result = MeasureResult {
            id: miss.id.clone(),
            width_pt: row.w,
            height_pt: row.h,
            lines: row.lines,
            char_budget: budget,
        };
        let ghost current = entries_map(entries@);
        entries_insert(entries, miss, result);
        proof {
            let after = entries_map(entries@);
            assert(after == current.insert(miss@, result@));
            assert(result_for(*scale, miss@, row, result@));
            assert(sound_result(*scale, miss@, result@));
            assert forall|key: ItemView| #[trigger] after.contains_key(key) implies sound_result(*scale, key, after[key]) by {
                if key != miss@ {
                    assert(current.contains_key(key));
                }
            }
            assert forall|key: ItemView| #[trigger] after.contains_key(key) <==> (before.contains_key(key)
                || exists|i: int| 0 <= i < index + 1 && miss_views[i] == key) by {
                if key == miss@ {
                    assert(miss_views[index as int] == key);
                } else if exists|i: int| 0 <= i < index + 1 && miss_views[i] == key {
                    let i = choose|i: int| 0 <= i < index + 1 && miss_views[i] == key;
                    assert(i < index);
                }
            }
            assert forall|i: int| 0 <= i < index + 1 implies (fragment_record(views, miss_views[i].id).row matches Ok(r)
                && result_for(*scale, miss_views[i], r, after[#[trigger] miss_views[i]])) by {
                if miss_views[i] != miss@ {
                    assert(i < index);
                }
            }
            assert forall|key: ItemView| #[trigger] before.contains_key(key) && !(exists|i: int| 0 <= i < index + 1 && miss_views[i] == key)
                implies after[key] == before[key] by {
                assert(key != miss_views[index as int]);
                if exists|i: int| 0 <= i < index && miss_views[i] == key {
                    let i = choose|i: int| 0 <= i < index && miss_views[i] == key;
                    assert(miss_views[i] == key);
                }
            }
        }
        index += 1;
    }
    proof {
        lemma_first_fault_none(miss_views.len() as int, miss_faults(miss_views, views));
    }
    Ok(())
}

fn read_calibration(records: &[QueryRecord]) -> (read: Result<MeasureCalibration, Error>)
    ensures
        match calibration_outcome(record_views(records@)) {
            Ok(calibration) => read == Ok::<MeasureCalibration, Error>(calibration),
            Err(message) => read matches Err(error) && measure_message(error) == Some(message),
        },
{
    let ghost views = record_views(records@);
    let mut found: Option<MeasureCalibration> = None;
    let ghost mut found_at: int = 0;
    let mut index: usize = 0;
    while index < records.len()
        invariant
            index <= records@.len(),
            views == record_views(records@),
            forall|j: int| 0 <= j < index ==> (#[trigger] calibration_fault(views, j)) is None,
            found is Some <==> exists|j: int| 0 <= j < index && is_calibration(#[trigger] views[j]),
            found matches Some(calibration) ==> {
                &&& 0 <= found_at < index
                &&& is_calibration(views[found_at])
                &&& views[found_at].ratios matches Ok(ratios) && calibration == calibration_of(ratios)
                &&& forall|j: int| 0 <= j < index && is_calibration(#[trigger] views[j]) ==> j == found_at
            },
        decreases records.len() - index,
    {
        assert(views[index as int] == records@[index as int]@);
        assert(calibration_faults(views)(index as int) == calibration_fault(views, index as int));
        let calibrating = match &records[index].id {
            Some(id) => text_eq(id.as_str(), "__calibration"),
            None => false,
        };
        if calibrating {
            if found.is_some() {
                proof {
                    assert(is_calibration(views[found_at]));
                    lemma_first_fault_at(views.len() as int, calibration_faults(views), index as int);
                }
                return Err(Error::Measure("ctypst-measure-v1 duplicated calibration".to_owned()));
            }
            match &records[index].ratios {
                Err(why) => {
                    proof {
                        lemma_first_fault_at(views.len() as int, calibration_faults(views), index as int);
                    }
                    return Err(Error::Measure(concat2("calibration is malformed: ", why.as_str())));
                },
                Ok(ratios) => {
                    if !bits_is_finite(ratios.cap_reg) || !bits_is_finite(ratios.adv_reg) || !bits_is_finite(ratios.cap_bold)
                        || !bits_is_finite(ratios.adv_bold) {
                        proof {
                            lemma_first_fault_at(views.len() as int, calibration_faults(views), index as int);
                        }
                        return Err(Error::Measure("ctypst-measure-v1 calibration is not finite".to_owned()));
                    }
                    found = Some(MeasureCalibration {
                        cap_ratio_regular: ratios.cap_reg,
                        advance_ratio_regular: ratios.adv_reg,
                        cap_ratio_bold: ratios.cap_bold,
                        advance_ratio_bold: ratios.adv_bold,
                    });
                    proof {
                        found_at = index as int;
                    }
                },
            }
        }
        index += 1;
    }
    proof {
        lemma_first_fault_none(views.len() as int, calibration_faults(views));
    }
    match found {
        Some(calibration) => {
            proof {
                let k = choose|i: int| 0 <= i < views.len() && is_calibration(#[trigger] views[i]);
                assert(k == found_at);
            }
            Ok(calibration)
        },
        None => Err(Error::Measure("ctypst-measure-v1 omitted calibration".to_owned())),
    }
}


// ---------------------------------------------------------------------------
// Absorbing a run
// ---------------------------------------------------------------------------

/// How running a batch through the measurement program went.
#[derive(Debug)]
pub enum RunOutcome {
    /// The request could not be serialized; nothing ran.
    Unserializable(String),
    /// The program did not compile or run.
    RunFailed(String),
    /// The program ran but its metadata could not be queried.
    QueryFailed(String),
    /// The program ran and answered with these metadata records.
    Answered(Vec<QueryRecord>),
}

/// Mathematical content of a [`RunOutcome`].
pub enum OutcomeView {
    Unserializable(Seq<char>),
    RunFailed(Seq<char>),
    QueryFailed(Seq<char>),
    Answered(Seq<RecordView>),
}

impl View for RunOutcome {
    type V = OutcomeView;

    open spec fn view(&self) -> OutcomeView {
        match self {
            RunOutcome::Unserializable(why) => OutcomeView::Unserializable(why@),
            RunOutcome::RunFailed(why) => OutcomeView::RunFailed(why@),
            RunOutcome::QueryFailed(why) => OutcomeView::QueryFailed(why@),
            RunOutcome::Answered(records) => OutcomeView::Answered(record_views(records@)),
        }
    }
}

/// What a measurement answered: the results, or the text of the failure
/// (none for a failure that is not a measurement failure).
pub open spec fn answer_view(answer: Result<Vec<MeasureResult>, Error>) -> Result<Seq<ResultView>, Option<Seq<char>>> {
    match answer {
        Ok(results) => Ok(result_views(results@)),
        Err(error) => Err(measure_message(error)),
    }
}

/// The client with one more program run counted.
pub open spec fn counted(client: ClientView) -> ClientView {
    ClientView {
        font_hash: client.font_hash,
        tag: client.tag,
        cache: client.cache,
        calibration: client.calibration,
        compiles: (client.compiles + 1) as u64,
    }
}

/// Absorbing `outcome` for `batch` takes the client from `before` to
/// `after` and answers `answer`; `scale` is the budget kernel.
pub open spec fn absorbed<F: Fn(u64, u64, u64) -> i64>(
    before: ClientView,
    after: ClientView,
    batch: BatchView,
    outcome: OutcomeView,
    scale: F,
    answer: Result<Seq<ResultView>, Option<Seq<char>>>,
) -> bool {
    match outcome {
        OutcomeView::Unserializable(why) => after == before && answer == Err::<Seq<ResultView>, Option<Seq<char>>>(
            Some("cannot serialize request: "@ + why),
        ),
        OutcomeView::RunFailed(why) => after == before && answer == Err::<Seq<ResultView>, Option<Seq<char>>>(
            Some("ctypst-measure-v1 run failed: "@ + why),
        ),
        OutcomeView::QueryFailed(why) => after == counted(before) && answer == Err::<
            Seq<ResultView>,
            Option<Seq<char>>,
        >(Some("ctypst-measure-v1 query failed: "@ + why)),
        OutcomeView::Answered(records) => took_answer(counted(before), after, batch, records, scale, answer),
    }
}

/// Taking the answer `records` for `batch` takes the client from `before`
/// to `after` and answers `answer`; `scale` is the budget kernel.
pub open spec fn took_answer<F: Fn(u64, u64, u64) -> i64>(
    before: ClientView,
    after: ClientView,
    batch: BatchView,
    records: Seq<RecordView>,
    scale: F,
    answer: Result<Seq<ResultView>, Option<Seq<char>>>,
) -> bool {
    &&& after.font_hash == before.font_hash
    &&& after.tag == before.tag
    &&& after.compiles == before.compiles
    &&& match fragment_failure(batch.items, records) {
        Some(message) => {
            &&& after.cache == before.cache
            &&& after.calibration == before.calibration
            &&& answer == Err::<Seq<ResultView>, Option<Seq<char>>>(Some(message))
        },
        None => {
            &&& decoded_into(
                before.cache,
                after.cache,
                batch.items,
                records,
                first_fault_index(batch.items.len() as int, miss_faults(batch.items, records)),
                scale,
            )
            &&& match first_fault(batch.items.len() as int, miss_faults(batch.items, records)) {
                Some(message) => {
                    &&& after.calibration == before.calibration
                    &&& answer == Err::<Seq<ResultView>, Option<Seq<char>>>(Some(message))
                },
                None => match calibration_outcome(records) {
                    Err(message) => {
                        &&& after.calibration == before.calibration
                        &&& answer == Err::<Seq<ResultView>, Option<Seq<char>>>(Some(message))
                    },
                    Ok(calibration) => {
                        &&& after.calibration == Some(calibration)
                        &&& answer == match assembled(after.cache, batch.order) {
                            Ok(results) => Ok::<Seq<ResultView>, Option<Seq<char>>>(results),
                            Err(message) => Err(Some(message)),
                        }
                    },
                },
            }
        },
    }
}

impl<F: Fn(u64, u64, u64) -> i64> MeasureClient<F> {
    /// Absorb the outcome of running `batch` through the measurement
    /// program, and answer the measurement that produced the batch.
    ///
    /// A run that started counts once, whatever it answered. Answered rows
    /// are validated (every record names its fragment, no fragment twice,
    /// exactly the batch's fragments, finite non-negative dimensions, at
    /// least one line) and cached in batch order as they pass; the
    /// calibration record must appear exactly once with finite ratios.
    /// Budgets come from the client's kernel. The results answered are
    /// sound for the items they answer.
    pub fn absorb(&mut self, batch: &MeasureBatch, outcome: RunOutcome) -> (answer: Result<
        Vec<MeasureResult>,
        Error,
    >)
        requires
            old(self)@.compiles < u64::MAX,
        ensures
            absorbed(old(self)@, final(self)@, batch@, outcome@, old(self).kernel(), answer_view(answer)),
            final(self).kernel() == old(self).kernel(),
            answer matches Ok(results) ==> results@.len() == batch.order@.len() && forall|i: int|
                0 <= i < results@.len() ==> sound_result(
                    old(self).kernel(),
                    batch.order@[i]@,
                    #[trigger] results@[i]@,
                ),
    {
        proof {
            use_type_invariant(&*self);
        }
        let records = match outcome {
            RunOutcome::Unserializable(why) => {
                return Err(Error::Measure(concat2("cannot serialize request: ", why.as_str())));
            },
            RunOutcome::RunFailed(why) => {
                return Err(Error::Measure(concat2("ctypst-measure-v1 run failed: ", why.as_str())));
            },
            RunOutcome::QueryFailed(why) => {
                self.compiles = self.compiles + 1;
                return Err(Error::Measure(concat2("ctypst-measure-v1 query failed: ", why.as_str())));
            },
            RunOutcome::Answered(records) => records,
        };
        self.compiles = self.compiles + 1;
        self.take_answer(batch, records)
    }

    /// Validate and cache the metadata records a run answered with, then
    /// answer the measurement.
    fn take_answer(&mut self, batch: &MeasureBatch, records: Vec<QueryRecord>) -> (answer: Result<
        Vec<MeasureResult>,
        Error,
    >)
        ensures
            took_answer(
                old(self)@,
                final(self)@,
                batch@,
                record_views(records@),
                old(self).kernel(),
                answer_view(answer),
            ),
            final(self).kernel() == old(self).kernel(),
            answer matches Ok(results) ==> results@.len() == batch.order@.len() && forall|i: int|
                0 <= i < results@.len() ==> sound_result(
                    old(self).kernel(),
                    batch.order@[i]@,
                    #[trigger] results@[i]@,
                ),
    {
        proof {
            use_type_invariant(&*self);
        }
        let mut entries: Vec<CacheEntry> = Vec::new();
        proof {
            assert(entries_map(entries@) =~= Map::<ItemView, ResultView>::empty());
        }
        std::mem::swap(&mut entries, &mut self.entries);
        let decoded = decode_answer(&mut entries, batch.request.items.as_slice(), records.as_slice(), &self.scale);
        self.entries = entries;
        match decoded {
            Err(error) => return Err(error),
            Ok(()) => {},
        }
        match read_calibration(records.as_slice()) {
            Err(error) => Err(error),
            Ok(calibration) => {
                self.calibration = Some(calibration);
                let assembly = assemble(&self.entries, batch.order.as_slice());
                proof {
                    use_type_invariant(&*self);
                    if assembly is Ok {
                        let cache = entries_map(self.entries@);
                        let order = item_views(batch.order@);
                        lemma_assembled_sound(self.scale, cache, order);
                        let results = assembly->Ok_0;
                        assert(result_views(results@) == lookup_all(order, cache));
                        assert forall|i: int| 0 <= i < results@.len() implies sound_result(
                            self.scale,
                            batch.order@[i]@,
                            #[trigger] results@[i]@,
                        ) by {
                            assert(result_views(results@)[i] == results@[i]@);
                            assert(order[i] == batch.order@[i]@);
                        }
                    }
                }
                assembly
            },
        }
    }
}

/// Check the records a run answered with and cache the batch's rows as
/// they pass.
fn decode_answer<F: Fn(u64, u64, u64) -> i64>(
    entries: &mut Vec<CacheEntry>,
    misses: &[MeasureItem],
    records: &[QueryRecord],
    scale: &F,
) -> (decoded: Result<(), Error>)
    requires
        entries_valid(old(entries)@),
        total_scale(*scale),
        cache_sound(*scale, entries_map(old(entries)@)),
    ensures
        entries_valid(final(entries)@),
        cache_sound(*scale, entries_map(final(entries)@)),
        match fragment_failure(item_views(misses@), record_views(records@)) {
            Some(message) => {
                &&& entries_map(final(entries)@) == entries_map(old(entries)@)
                &&& decoded matches Err(error) && measure_message(error) == Some(message)
            },
            None => {
                &&& decoded_into(
                    entries_map(old(entries)@),
                    entries_map(final(entries)@),
                    item_views(misses@),
                    record_views(records@),
                    first_fault_index(misses@.len() as int, miss_faults(item_views(misses@), record_views(records@))),
                    *scale,
                )
                &&& match first_fault(misses@.len() as int, miss_faults(item_views(misses@), record_views(records@))) {
                    None => decoded is Ok,
                    Some(message) => decoded matches Err(error) && measure_message(error) == Some(message),
                }
            },
        },
{
    match check_records(records) {
        Err(error) => return Err(error),
        Ok(()) => {},
    }
    match check_fragment_set(misses, records) {
        Err(error) => return Err(error),
        Ok(()) => {},
    }
    decode_misses(entries, misses, records, scale)
}

/// Results assembled from a sound cache are sound for the items they answer.
proof fn lemma_assembled_sound<F: Fn(u64, u64, u64) -> i64>(
    scale: F,
    cache: Map<ItemView, ResultView>,
    order: Seq<ItemView>,
)
    requires
        cache_sound(scale, cache),
        assembled(cache, order) is Ok,
    ensures
        assembled(cache, order) == Ok::<Seq<ResultView>, Seq<char>>(lookup_all(order, cache)),
        forall|i: int| 0 <= i < order.len() ==> cache.contains_key(#[trigger] order[i]),
        forall|i: int| 0 <= i < order.len() ==> sound_result(scale, order[i], #[trigger] lookup_all(order, cache)[i]),
{
    let faults = omission_faults(cache, order);
    assert forall|i: int| 0 <= i < order.len() implies cache.contains_key(#[trigger] order[i]) by {
        if !cache.contains_key(order[i]) {
            assert(faults(i) is Some);
            lemma_first_fault_exists(order.len() as int, faults, i);
        }
    }
    assert forall|i: int| 0 <= i < order.len() implies sound_result(scale, order[i], #[trigger] lookup_all(order, cache)[i]) by {
        assert(cache.contains_key(order[i]));
    }
}


// ---------------------------------------------------------------------------
// Laws
// ---------------------------------------------------------------------------

proof fn lemma_filter_keeps_none<A>(items: Seq<A>, pred: spec_fn(A) -> bool)
    requires
        forall|i: int| 0 <= i < items.len() ==> !pred(#[trigger] items[i]),
    ensures
        items.filter(pred).len() == 0,
    decreases items.len(),
{
    reveal_with_fuel(Seq::<_>::filter, 1);
    if items.len() > 0 {
        let earlier = items.drop_last();
        assert forall|i: int| 0 <= i < earlier.len() implies !pred(#[trigger] earlier[i]) by {
            assert(earlier[i] == items[i]);
        }
        lemma_filter_keeps_none(earlier, pred);
        assert(!pred(items[items.len() - 1]));
    }
}

proof fn lemma_filter_keeps_all<A>(items: Seq<A>, pred: spec_fn(A) -> bool)
    requires
        forall|i: int| 0 <= i < items.len() ==> pred(#[trigger] items[i]),
    ensures
        items.filter(pred) == items,
    decreases items.len(),
{
    reveal_with_fuel(Seq::<_>::filter, 1);
    if items.len() > 0 {
        let earlier = items.drop_last();
        assert forall|i: int| 0 <= i < earlier.len() implies pred(#[trigger] earlier[i]) by {
            assert(earlier[i] == items[i]);
        }
        lemma_filter_keeps_all(earlier, pred);
        assert(pred(items[items.len() - 1]));
        assert(earlier.push(items.last()) =~= items);
    }
}

/// Among failing checks there is a first one.
pub proof fn lemma_first_fault_exists(count: int, fault: spec_fn(int) -> Option<Seq<char>>, index: int)
    requires
        0 <= index < count,
        fault(index) is Some,
    ensures
        first_fault(count, fault) is Some,
        0 <= first_fault_index(count, fault) < count,
        forall|j: int| 0 <= j < first_fault_index(count, fault) ==> (#[trigger] fault(j)) is None,
    decreases index,
{
    if forall|j: int| 0 <= j < index ==> (#[trigger] fault(j)) is None {
        lemma_first_fault_at(count, fault, index);
    } else {
        let earlier = choose|j: int| 0 <= j < index && (#[trigger] fault(j)) is Some;
        lemma_first_fault_exists(count, fault, earlier);
    }
}

/// A rejected request changes nothing and answers with its rejection.
pub proof fn lemma_rejected_request_changes_nothing(
    client: ClientView,
    format: FormatView,
    leading_em: u64,
    items: Seq<ItemView>,
)
    requires
        request_fault(format, leading_em, items) is Some,
    ensures
        plan(client, format, leading_em, items).0 == client,
        plan(client, format, leading_em, items).1 == Err::<StepView, Seq<char>>(
            request_fault(format, leading_em, items).unwrap(),
        ),
{
}

/// An accepted empty request is measured at once, as nothing, without
/// touching the client.
pub proof fn lemma_empty_request_runs_nothing(client: ClientView, format: FormatView, leading_em: u64)
    requires
        request_fault(format, leading_em, Seq::<ItemView>::empty()) is None,
    ensures
        plan(client, format, leading_em, Seq::<ItemView>::empty()) == (
            client,
            Ok::<StepView, Seq<char>>(StepView::Measured(Seq::<ResultView>::empty())),
        ),
{
}

/// Planning a measurement never runs the program and never changes the
/// font identity.
pub proof fn lemma_planning_never_runs(client: ClientView, format: FormatView, leading_em: u64, items: Seq<ItemView>)
    ensures
        plan(client, format, leading_em, items).0.compiles == client.compiles,
        plan(client, format, leading_em, items).0.font_hash == client.font_hash,
{
}

/// Results served from a consistent cache carry the ids of the items they
/// answer, in request order.
pub proof fn lemma_results_follow_request_order(cache: Map<ItemView, ResultView>, order: Seq<ItemView>)
    requires
        forall|item: ItemView| #[trigger] cache.contains_key(item) ==> cache[item].id == item.id,
        forall|i: int| 0 <= i < order.len() ==> cache.contains_key(#[trigger] order[i]),
    ensures
        lookup_all(order, cache).len() == order.len(),
        forall|i: int| 0 <= i < order.len() ==> (#[trigger] lookup_all(order, cache)[i]).id == order[i].id,
{
    assert forall|i: int| 0 <= i < order.len() implies (#[trigger] lookup_all(order, cache)[i]).id == order[i].id by {
        assert(cache.contains_key(order[i]));
    }
}

/// A request the cache fully answers for the current format is measured at
/// once, in request order, without running the program or touching the
/// client.
pub proof fn lemma_cached_request_needs_no_run(
    client: ClientView,
    format: FormatView,
    leading_em: u64,
    items: Seq<ItemView>,
)
    requires
        request_fault(format, leading_em, items) is None,
        items.len() > 0,
        client.tag == Some(normalized(format, leading_em)),
        forall|i: int| 0 <= i < items.len() ==> client.cache.contains_key(#[trigger] items[i]),
        cache_consistent(client),
    ensures
        plan(client, format, leading_em, items) == (
            client,
            Ok::<StepView, Seq<char>>(StepView::Measured(lookup_all(items, client.cache))),
        ),
        forall|i: int| 0 <= i < items.len() ==> (#[trigger] lookup_all(items, client.cache)[i]).id == items[i].id,
{
    let pred = |item: ItemView| !client.cache.contains_key(item);
    lemma_filter_keeps_none(items, pred);
    assert(missing_items(items, client.cache).len() == 0);
    lemma_results_follow_request_order(client.cache, items);
}

/// A request in another format purges the cache and the calibration, and
/// runs every item.
pub proof fn lemma_format_change_purges_cache(
    client: ClientView,
    format: FormatView,
    leading_em: u64,
    items: Seq<ItemView>,
)
    requires
        request_fault(format, leading_em, items) is None,
        items.len() > 0,
        client.tag != Some(normalized(format, leading_em)),
    ensures
        plan(client, format, leading_em, items).0 == (ClientView {
            font_hash: client.font_hash,
            tag: Some(normalized(format, leading_em)),
            cache: Map::empty(),
            calibration: None,
            compiles: client.compiles,
        }),
        plan(client, format, leading_em, items).1 == Ok::<StepView, Seq<char>>(
            StepView::Run((BatchView { format: normalized(format, leading_em), items, order: items })),
        ),
{
    let empty = Map::<ItemView, ResultView>::empty();
    let pred = |item: ItemView| !empty.contains_key(item);
    lemma_filter_keeps_all(items, pred);
    assert(missing_items(items, empty) == items);
}

/// A run that started counts exactly once; a run that never started
/// changes nothing.
pub proof fn lemma_one_count_per_run<F: Fn(u64, u64, u64) -> i64>(
    before: ClientView,
    after: ClientView,
    batch: BatchView,
    outcome: OutcomeView,
    scale: F,
    answer: Result<Seq<ResultView>, Option<Seq<char>>>,
)
    requires
        before.compiles < u64::MAX,
        absorbed(before, after, batch, outcome, scale, answer),
    ensures
        (outcome is QueryFailed || outcome is Answered) ==> after.compiles == before.compiles + 1,
        (outcome is Unserializable || outcome is RunFailed) ==> after == before,
        after.tag == before.tag,
        after.font_hash == before.font_hash,
{
}

/// A measured batch answers every item of its measurement in order, and
/// leaves all of them cached, so the same measurement again needs no run.
pub proof fn lemma_measured_batch_is_cached<F: Fn(u64, u64, u64) -> i64>(
    before: ClientView,
    after: ClientView,
    batch: BatchView,
    outcome: OutcomeView,
    scale: F,
    results: Seq<ResultView>,
)
    requires
        absorbed(before, after, batch, outcome, scale, Ok(results)),
        cache_consistent(after),
    ensures
        (outcome is Answered),
        after.tag == before.tag,
        forall|i: int| 0 <= i < batch.order.len() ==> after.cache.contains_key(#[trigger] batch.order[i]),
        results == lookup_all(batch.order, after.cache),
        forall|i: int| 0 <= i < batch.order.len() ==> (#[trigger] results[i]).id == batch.order[i].id,
{
    let faults = omission_faults(after.cache, batch.order);
    assert forall|i: int| 0 <= i < batch.order.len() implies after.cache.contains_key(#[trigger] batch.order[i]) by {
        if !after.cache.contains_key(batch.order[i]) {
            assert(faults(i) is Some);
            lemma_first_fault_exists(batch.order.len() as int, faults, i);
        }
    }
    lemma_results_follow_request_order(after.cache, batch.order);
}

/// An accepted, non-empty request asks for a run exactly when some item is
/// not cached for its format; otherwise it is measured at once.
pub proof fn lemma_runs_exactly_on_a_miss(client: ClientView, format: FormatView, leading_em: u64, items: Seq<ItemView>)
    requires
        request_fault(format, leading_em, items) is None,
        items.len() > 0,
    ensures
        plan(client, format, leading_em, items).1 matches Ok(StepView::Run(_)) <==> exists|i: int|
            0 <= i < items.len() && !retag(client, normalized(format, leading_em)).cache.contains_key(
                #[trigger] items[i],
            ),
        plan(client, format, leading_em, items).1 matches Ok(StepView::Measured(_)) <==> forall|i: int|
            0 <= i < items.len() ==> retag(client, normalized(format, leading_em)).cache.contains_key(
                #[trigger] items[i],
            ),
{
    let cache = retag(client, normalized(format, leading_em)).cache;
    let pred = |item: ItemView| !cache.contains_key(item);
    if forall|i: int| 0 <= i < items.len() ==> cache.contains_key(#[trigger] items[i]) {
        lemma_filter_keeps_none(items, pred);
    } else {
        let i = choose|i: int| 0 <= i < items.len() && !cache.contains_key(#[trigger] items[i]);
        if missing_items(items, cache).len() == 0 {
            lemma_no_misses(items, cache);
            assert(cache.contains_key(items[i]));
        }
    }
}

/// Once a run has answered a measurement, the same measurement again is
/// answered from the cache, with the same results, without a run.
pub proof fn lemma_answered_measurement_repeats_without_run<F: Fn(u64, u64, u64) -> i64>(
    client: ClientView,
    format: FormatView,
    leading_em: u64,
    items: Seq<ItemView>,
    batch: BatchView,
    outcome: OutcomeView,
    scale: F,
    after: ClientView,
    results: Seq<ResultView>,
)
    requires
        client.compiles < u64::MAX,
        plan(client, format, leading_em, items).1 == Ok::<StepView, Seq<char>>(StepView::Run(batch)),
        absorbed(plan(client, format, leading_em, items).0, after, batch, outcome, scale, Ok(results)),
        cache_consistent(after),
    ensures
        plan(after, format, leading_em, items) == (
            after,
            Ok::<StepView, Seq<char>>(StepView::Measured(results)),
        ),
        after.compiles == client.compiles + 1,
{
    let tag = normalized(format, leading_em);
    let next = plan(client, format, leading_em, items).0;
    assert(request_fault(format, leading_em, items) is None && items.len() > 0 && next == retag(client, tag)
        && batch.order == items);
    assert(next.tag == Some(tag) && next.compiles == client.compiles);
    lemma_measured_batch_is_cached(next, after, batch, outcome, scale, results);
    lemma_one_count_per_run(next, after, batch, outcome, scale, Ok(results));
    lemma_cached_request_needs_no_run(after, format, leading_em, items);
}

/// The budget kernel answers every argument triple with one value.
pub open spec fn deterministic_scale<F: Fn(u64, u64, u64) -> i64>(scale: F) -> bool {
    forall|args: (u64, u64, u64), a: i64, b: i64|
        #[trigger] call_ensures(scale, args, a) && #[trigger] call_ensures(scale, args, b) ==> a == b
}

/// A result served for an item is fixed by the item and the row the
/// program measured for it: whether it comes from a warm cache or a fresh
/// client, the same row gives the same result.
pub proof fn lemma_same_row_same_result<F: Fn(u64, u64, u64) -> i64>(
    scale: F,
    item: ItemView,
    warm: ResultView,
    fresh: ResultView,
)
    requires
        deterministic_scale(scale),
        sound_result(scale, item, warm),
        sound_result(scale, item, fresh),
        warm.width_pt == fresh.width_pt,
        warm.height_pt == fresh.height_pt,
        warm.lines == fresh.lines,
    ensures
        warm == fresh,
{
    if item.text.len() > 0 && !is_at_most_zero(warm.width_pt) {
        let args = (utf16_units(item.text) as u64, warm.width_pt, item.usable_width_pt);
        assert(call_ensures(scale, args, warm.char_budget->Some_0));
        assert(call_ensures(scale, args, fresh.char_budget->Some_0));
    }
}

/// One measurement request: a format, what its leading resolves to, and
/// the items.
pub struct Request {
    pub format: FormatView,
    pub leading_em: u64,
    pub items: Seq<ItemView>,
}

/// One measurement takes the client from `before` to `after`: where
/// planning asks for a run, the client either drops the batch or absorbs
/// some outcome of running it; otherwise it is where planning left it.
pub open spec fn measurement_step<F: Fn(u64, u64, u64) -> i64>(
    before: ClientView,
    after: ClientView,
    request: Request,
    scale: F,
) -> bool {
    let next = plan(before, request.format, request.leading_em, request.items).0;
    match plan(before, request.format, request.leading_em, request.items).1 {
        Ok(StepView::Run(batch)) => after == next || exists|
            outcome: OutcomeView,
            answer: Result<Seq<ResultView>, Option<Seq<char>>>,
        | #[trigger] absorbed(next, after, batch, outcome, scale, answer),
        _ => after == next,
    }
}

/// `clients[i + 1]` is what measuring `requests[i]` made of `clients[i]`.
pub open spec fn measurement_history<F: Fn(u64, u64, u64) -> i64>(
    clients: Seq<ClientView>,
    requests: Seq<Request>,
    scale: F,
) -> bool {
    &&& clients.len() == requests.len() + 1
    &&& forall|i: int|
        0 <= i < requests.len() ==> #[trigger] measurement_step(clients[i], clients[i + 1], requests[i], scale)
}

/// The request leaves a cache that answers for `tag` answering for it: it
/// is rejected, empty, or in a format that normalizes to `tag`.
pub open spec fn keeps_tag(request: Request, tag: NormalizedView) -> bool {
    ||| request_fault(request.format, request.leading_em, request.items) is Some
    ||| request.items.len() == 0
    ||| normalized(request.format, request.leading_em) == tag
}

/// A measurement counts at most one run, and counts none unless planning
/// asked for one.
pub proof fn lemma_step_counts_at_most_one_run<F: Fn(u64, u64, u64) -> i64>(
    before: ClientView,
    after: ClientView,
    request: Request,
    scale: F,
)
    requires
        before.compiles < u64::MAX,
        measurement_step(before, after, request, scale),
    ensures
        after.compiles == before.compiles || after.compiles == before.compiles + 1,
        !(plan(before, request.format, request.leading_em, request.items).1 matches Ok(StepView::Run(_)))
            ==> after.compiles == before.compiles,
        after.font_hash == before.font_hash,
{
    lemma_planning_never_runs(before, request.format, request.leading_em, request.items);
    let next = plan(before, request.format, request.leading_em, request.items).0;
    if let Ok(StepView::Run(batch)) = plan(before, request.format, request.leading_em, request.items).1 {
        if after != next {
            let (outcome, answer) = choose|outcome: OutcomeView, answer: Result<Seq<ResultView>, Option<Seq<char>>>|
                #[trigger] absorbed(next, after, batch, outcome, scale, answer);
            lemma_one_count_per_run(next, after, batch, outcome, scale, answer);
        }
    }
}

/// A measurement that keeps the tag keeps every cached item cached.
pub proof fn lemma_step_keeps_cache<F: Fn(u64, u64, u64) -> i64>(
    before: ClientView,
    after: ClientView,
    request: Request,
    tag: NormalizedView,
    scale: F,
)
    requires
        measurement_step(before, after, request, scale),
        before.tag == Some(tag),
        keeps_tag(request, tag),
    ensures
        after.tag == Some(tag),
        forall|key: ItemView| #[trigger] before.cache.contains_key(key) ==> after.cache.contains_key(key),
{
    let next = plan(before, request.format, request.leading_em, request.items).0;
    assert(next == before);
    if let Ok(StepView::Run(batch)) = plan(before, request.format, request.leading_em, request.items).1 {
        if after != next {
            let (outcome, answer) = choose|outcome: OutcomeView, answer: Result<Seq<ResultView>, Option<Seq<char>>>|
                #[trigger] absorbed(next, after, batch, outcome, scale, answer);
            if let OutcomeView::Answered(records) = outcome {
                assert forall|key: ItemView| #[trigger] before.cache.contains_key(key) implies after.cache.contains_key(key) by {
                    if fragment_failure(batch.items, records) is None {
                        assert(counted(before).cache.contains_key(key));
                    }
                }
            }
        }
    }
}

proof fn lemma_cache_persists<F: Fn(u64, u64, u64) -> i64>(
    clients: Seq<ClientView>,
    requests: Seq<Request>,
    scale: F,
    tag: NormalizedView,
    start: int,
    end: int,
)
    requires
        measurement_history(clients, requests, scale),
        0 <= start <= end < clients.len(),
        clients[start].tag == Some(tag),
        forall|j: int| start <= j < end ==> keeps_tag(#[trigger] requests[j], tag),
    ensures
        clients[end].tag == Some(tag),
        forall|key: ItemView| #[trigger] clients[start].cache.contains_key(key) ==> clients[end].cache.contains_key(key),
    decreases end - start,
{
    if start < end {
        assert(keeps_tag(requests[start], tag));
        assert(measurement_step(clients[start], clients[start + 1], requests[start], scale));
        lemma_step_keeps_cache(clients[start], clients[start + 1], requests[start], tag, scale);
        lemma_cache_persists(clients, requests, scale, tag, start + 1, end);
    }
}

/// Over any history of measurements: once a measurement has left its items
/// cached for its format, a later accepted request in a format that
/// normalizes alike, for items among those, runs nothing and counts no run,
/// as long as no request in between switched the cache to another format.
pub proof fn lemma_measured_items_need_no_later_run<F: Fn(u64, u64, u64) -> i64>(
    clients: Seq<ClientView>,
    requests: Seq<Request>,
    scale: F,
    earlier: int,
    later: int,
)
    requires
        measurement_history(clients, requests, scale),
        0 <= earlier < later < requests.len(),
        clients[earlier + 1].tag == Some(normalized(requests[earlier].format, requests[earlier].leading_em)),
        forall|i: int|
            0 <= i < requests[earlier].items.len() ==> clients[earlier + 1].cache.contains_key(
                #[trigger] requests[earlier].items[i],
            ),
        forall|j: int|
            earlier < j < later ==> keeps_tag(
                #[trigger] requests[j],
                normalized(requests[earlier].format, requests[earlier].leading_em),
            ),
        normalized(requests[later].format, requests[later].leading_em) == normalized(
            requests[earlier].format,
            requests[earlier].leading_em,
        ),
        requests[later].items.len() > 0,
        request_fault(requests[later].format, requests[later].leading_em, requests[later].items) is None,
        forall|i: int|
            0 <= i < requests[later].items.len() ==> requests[earlier].items.contains(
                #[trigger] requests[later].items[i],
            ),
    ensures
        plan(clients[later], requests[later].format, requests[later].leading_em, requests[later].items).1 matches Ok(
            StepView::Measured(_),
        ),
        clients[later + 1] == clients[later],
{
    let tag = normalized(requests[earlier].format, requests[earlier].leading_em);
    lemma_cache_persists(clients, requests, scale, tag, earlier + 1, later);
    let request = requests[later];
    assert forall|i: int| 0 <= i < request.items.len() implies retag(clients[later], tag).cache.contains_key(
        #[trigger] request.items[i],
    ) by {
        let k = choose|k: int| 0 <= k < requests[earlier].items.len() && requests[earlier].items[k] == request.items[i];
        assert(clients[earlier + 1].cache.contains_key(requests[earlier].items[k]));
    }
    lemma_runs_exactly_on_a_miss(clients[later], request.format, request.leading_em, request.items);
    assert(measurement_step(clients[later], clients[later + 1], requests[later], scale));
}

/// What a format must satisfy to be accepted: all five numbers finite,
/// both font sizes above zero, a leading value and both margins that do
/// not compare below zero (zero is accepted), and a resolved leading that
/// is finite and above zero. When every earlier rule holds, the margin rule
/// fires exactly when a margin compares below zero.
pub proof fn lemma_format_rules(format: FormatView, leading_em: u64)
    ensures
        format_fault(format, leading_em) is None <==> {
            &&& is_finite(format.base_font_size) && !is_at_most_zero(format.base_font_size)
            &&& is_finite(format.entry_heading_size) && !is_at_most_zero(format.entry_heading_size)
            &&& is_finite(format.leading_value) && !is_below_zero(format.leading_value)
            &&& is_finite(format.margin_left) && !is_below_zero(format.margin_left)
            &&& is_finite(format.margin_right) && !is_below_zero(format.margin_right)
            &&& is_finite(leading_em) && !is_at_most_zero(leading_em)
        },
        ({
            &&& is_finite(format.base_font_size) && !is_at_most_zero(format.base_font_size)
            &&& is_finite(format.entry_heading_size) && !is_at_most_zero(format.entry_heading_size)
            &&& is_finite(format.leading_value) && !is_below_zero(format.leading_value)
            &&& is_finite(format.margin_left) && is_finite(format.margin_right)
        }) ==> (format_fault(format, leading_em) == Some(
            request_failure("margins must not be negative"@),
        ) <==> (is_below_zero(format.margin_left) || is_below_zero(format.margin_right))),
        crate::float_bits::is_zero(format.margin_left) ==> !is_below_zero(format.margin_left),
{
    crate::float_bits::lemma_float_classes(format.margin_left);
    crate::float_bits::lemma_float_classes(format.margin_right);
    crate::float_bits::lemma_float_classes(leading_em);
    reveal_strlit("margins must not be negative");
    reveal_strlit("resolved leading must be positive");
    let prefix = "invalid ctypst-measure-v1 request: "@;
    let margins = request_failure("margins must not be negative"@);
    let leading = request_failure("resolved leading must be positive"@);
    assert(margins[prefix.len() as int] == "margins must not be negative"@[0]);
    assert(leading[prefix.len() as int] == "resolved leading must be positive"@[0]);
    assert(margins != leading);
}

/// What an item must satisfy to be accepted, given the items before it: a
/// non-empty id that no earlier item carries, and a font size and usable
/// width that are finite and above zero.
pub proof fn lemma_item_rules(items: Seq<ItemView>, index: int)
    requires
        0 <= index < items.len(),
    ensures
        item_fault(items, index) is None <==> {
            &&& items[index].id.len() > 0
            &&& forall|earlier: int| 0 <= earlier < index ==> #[trigger] items[earlier].id != items[index].id
            &&& is_finite(items[index].font_size) && !is_at_most_zero(items[index].font_size)
            &&& is_finite(items[index].usable_width_pt) && !is_at_most_zero(items[index].usable_width_pt)
        },
{
}

/// A request is accepted exactly when its format and every one of its items
/// are.
pub proof fn lemma_request_rules(format: FormatView, leading_em: u64, items: Seq<ItemView>)
    ensures
        request_fault(format, leading_em, items) is None <==> format_fault(format, leading_em) is None
            && forall|i: int| 0 <= i < items.len() ==> (#[trigger] item_fault(items, i)) is None,
{
    if format_fault(format, leading_em) is None {
        if forall|i: int| 0 <= i < items.len() ==> (#[trigger] item_fault(items, i)) is None {
            assert forall|j: int| 0 <= j < items.len() implies (#[trigger] item_faults(items)(j)) is None by {
                assert(item_fault(items, j) is None);
            }
            lemma_first_fault_none(items.len() as int, item_faults(items));
        } else {
            let i = choose|i: int| 0 <= i < items.len() && (#[trigger] item_fault(items, i)) is Some;
            assert(item_faults(items)(i) is Some);
            lemma_first_fault_exists(items.len() as int, item_faults(items), i);
            let k = first_fault_index(items.len() as int, item_faults(items));
            assert(item_faults(items)(k) is Some);
        }
    }
}

/// The request format carries the caller's own font and page size when
/// they are named (Archivo and A4 only replace empty names), the caller's
/// numbers unchanged, and the resolved leading.
pub proof fn lemma_normalized_keeps_the_format(format: FormatView, leading_em: u64)
    ensures
        format.font.len() > 0 ==> normalized(format, leading_em).font == format.font,
        format.font.len() == 0 ==> normalized(format, leading_em).font == "Archivo"@,
        format.page_size.len() > 0 ==> normalized(format, leading_em).page_size == format.page_size,
        format.page_size.len() == 0 ==> normalized(format, leading_em).page_size == "a4"@,
        normalized(format, leading_em).base_font_size == format.base_font_size,
        normalized(format, leading_em).entry_heading_size == format.entry_heading_size,
        normalized(format, leading_em).margin_left == format.margin_left,
        normalized(format, leading_em).margin_right == format.margin_right,
        normalized(format, leading_em).leading_em == leading_em,
{
}

/// UTF-16 length: one unit for every character of the Basic Multilingual
/// Plane (below U+10000), two for every character above it, and the
/// length of a concatenation is the sum of the lengths.
pub proof fn lemma_utf16_units_rules(text: Seq<char>, more: Seq<char>)
    ensures
        (forall|i: int| 0 <= i < text.len() ==> (#[trigger] text[i] as u32) < 0x10000) ==> utf16_units(text)
            == text.len(),
        (forall|i: int| 0 <= i < text.len() ==> (#[trigger] text[i] as u32) >= 0x10000) ==> utf16_units(text)
            == 2 * text.len(),
        utf16_units(text + more) == utf16_units(text) + utf16_units(more),
        text.len() <= utf16_units(text) <= 2 * text.len(),
    decreases text.len(),
{
    if text.len() > 0 {
        lemma_utf16_units_rules(text.drop_first(), more);
        assert((text + more).drop_first() =~= text.drop_first() + more);
        assert((text + more)[0] == text[0]);
        if forall|i: int| 0 <= i < text.len() ==> (#[trigger] text[i] as u32) < 0x10000 {
            assert forall|i: int| 0 <= i < text.drop_first().len() implies (#[trigger] text.drop_first()[i] as u32)
                < 0x10000 by {
                assert(text.drop_first()[i] == text[i + 1]);
            }
            assert((text[0] as u32) < 0x10000);
        }
        if forall|i: int| 0 <= i < text.len() ==> (#[trigger] text[i] as u32) >= 0x10000 {
            assert forall|i: int| 0 <= i < text.drop_first().len() implies (#[trigger] text.drop_first()[i] as u32)
                >= 0x10000 by {
                assert(text.drop_first()[i] == text[i + 1]);
            }
            assert((text[0] as u32) >= 0x10000);
        }
    } else {
        assert(text + more =~= more);
    }
}

/// A fragment row is accepted exactly when both dimensions are finite and
/// do not compare below zero and it reports at least one line; the row is
/// then taken as reported.
pub proof fn lemma_row_rules(miss: ItemView, record: RecordView)
    ensures
        row_check(miss, record) is Ok <==> (record.row matches Ok(row) && is_finite(row.w) && !is_below_zero(
            row.w,
        ) && is_finite(row.h) && !is_below_zero(row.h) && row.lines >= 1),
        row_check(miss, record) matches Ok(row) ==> record.row == Ok::<ResultRow, Seq<char>>(row),
{
}

/// A fragment gets no budget when its text is empty or its natural width
/// is zero or below; otherwise it gets the kernel's answer for its UTF-16
/// length, its natural width and its usable width.
pub proof fn lemma_budget_rules<F: Fn(u64, u64, u64) -> i64>(
    scale: F,
    text: Seq<char>,
    width_pt: u64,
    usable_width_pt: u64,
    budget: Option<i64>,
)
    ensures
        text.len() == 0 ==> (budget_matches(scale, text, width_pt, usable_width_pt, budget) <==> budget is None),
        crate::float_bits::is_zero(width_pt) ==> (budget_matches(scale, text, width_pt, usable_width_pt, budget)
            <==> budget is None),
        text.len() > 0 && is_finite(width_pt) && !is_at_most_zero(width_pt) ==> (budget_matches(
            scale,
            text,
            width_pt,
            usable_width_pt,
            budget,
        ) <==> (budget matches Some(value) && call_ensures(
            scale,
            (utf16_units(text) as u64, width_pt, usable_width_pt),
            value,
        ))),
{
    crate::float_bits::lemma_float_classes(width_pt);
}

/// A result is sound for its item exactly when it answers with the item's
/// id, at least one line, finite dimensions that do not compare below zero,
/// and the budget the kernel gives for the item's text and usable width.
pub proof fn lemma_sound_result_rules<F: Fn(u64, u64, u64) -> i64>(scale: F, item: ItemView, result: ResultView)
    ensures
        sound_result(scale, item, result) <==> {
            &&& result.id == item.id
            &&& result.lines >= 1
            &&& is_finite(result.width_pt) && !is_below_zero(result.width_pt)
            &&& is_finite(result.height_pt) && !is_below_zero(result.height_pt)
            &&& budget_matches(scale, item.text, result.width_pt, item.usable_width_pt, result.char_budget)
        },
        sound_result(scale, item, result) ==> result_for(
            scale,
            item,
            ResultRow { w: result.width_pt, h: result.height_pt, lines: result.lines },
            result,
        ),
{
}

/// The bytes hashed for a font pack are its files' bytes in pack order.
pub proof fn lemma_font_bytes_in_order(fonts: Seq<&[u8]>, more: Seq<&[u8]>)
    ensures
        font_bytes(fonts + more) == font_bytes(fonts) + font_bytes(more),
        fonts.len() == 1 ==> font_bytes(fonts) == fonts[0]@,
    decreases more.len(),
{
    if more.len() == 0 {
        assert(fonts + more =~= fonts);
        assert(font_bytes(more) == Seq::<u8>::empty());
        assert(font_bytes(fonts) + font_bytes(more) =~= font_bytes(fonts));
    } else {
        lemma_font_bytes_in_order(fonts, more.drop_last());
        assert((fonts + more).drop_last() =~= fonts + more.drop_last());
        assert((fonts + more).last() == more.last());
        assert(font_bytes(fonts + more) == font_bytes((fonts + more).drop_last()) + (fonts + more).last()@);
        assert(font_bytes(more) == font_bytes(more.drop_last()) + more.last()@);
        assert(font_bytes(fonts) + font_bytes(more.drop_last()) + more.last()@ =~= font_bytes(fonts) + (font_bytes(
            more.drop_last(),
        ) + more.last()@));
    }
    if fonts.len() == 1 {
        assert(fonts.drop_last().len() == 0);
        assert(font_bytes(fonts.drop_last()) == Seq::<u8>::empty());
        assert(fonts.last() == fonts[0]);
        assert(font_bytes(fonts) == font_bytes(fonts.drop_last()) + fonts.last()@);
        assert(Seq::<u8>::empty() + fonts[0]@ =~= fonts[0]@);
    }
}

/// A calibration record is usable exactly when all four ratios are finite.
pub proof fn lemma_ratio_rules(ratios: RatioRow)
    ensures
        ratios_finite(ratios) <==> is_finite(ratios.cap_reg) && is_finite(ratios.adv_reg) && is_finite(
            ratios.cap_bold,
        ) && is_finite(ratios.adv_bold),
        calibration_of(ratios) == (MeasureCalibration {
            cap_ratio_regular: ratios.cap_reg,
            advance_ratio_regular: ratios.adv_reg,
            cap_ratio_bold: ratios.cap_bold,
            advance_ratio_bold: ratios.adv_bold,
        }),
{
}

/// A relative leading is already in em and is taken as it is; a leading in
/// points is what the leading kernel answers for it and the base size.
pub proof fn lemma_leading_rules<G: Fn(u64, u64) -> u64>(to_em: G, format: FormatView, em: u64)
    ensures
        format.leading_relative ==> (resolves_leading(to_em, format, em) <==> em == format.leading_value),
        !format.leading_relative ==> (resolves_leading(to_em, format, em) <==> call_ensures(
            to_em,
            (format.leading_value, format.base_font_size),
            em,
        )),
{
}

} // verus!
