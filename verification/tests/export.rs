//! Export-side contracts: timestamps, PDF and raster checks, page
//! selection, query labels, hashing and the bundled font pack.

use ctypst::fnv::{fnv1a64, fnv1a64_update};
use ctypst::fonts::{documents, LICENSE};
use ctypst::pdf::{check_pdf, pdf_timestamp, PdfTimestamp, UNIX_TIMESTAMP_MAX, UNIX_TIMESTAMP_MIN};
use ctypst::query::check_query_label;
use ctypst::raster::{decimal_text, pixel_count, rgba_page, select_page};
use ctypst::{Error, RasterPage};

fn instant(year: i32, month: u8, day: u8, hour: u8, minute: u8, second: u8) -> PdfTimestamp {
    PdfTimestamp { year, month, day, hour, minute, second }
}

#[test]
fn timestamps_are_utc_calendar_instants() {
    assert_eq!(pdf_timestamp(0).unwrap(), instant(1970, 1, 1, 0, 0, 0));
    assert_eq!(pdf_timestamp(1_700_000_000).unwrap(), instant(2023, 11, 14, 22, 13, 20));
    assert_eq!(pdf_timestamp(-1).unwrap(), instant(1969, 12, 31, 23, 59, 59));
    assert_eq!(pdf_timestamp(UNIX_TIMESTAMP_MIN).unwrap(), instant(-9999, 1, 1, 0, 0, 0));
    assert_eq!(pdf_timestamp(UNIX_TIMESTAMP_MAX).unwrap(), instant(9999, 12, 31, 23, 59, 59));
}

#[test]
fn timestamps_outside_the_calendar_are_refused() {
    assert!(matches!(pdf_timestamp(UNIX_TIMESTAMP_MAX + 1), Err(Error::Timestamp(t)) if t == UNIX_TIMESTAMP_MAX + 1));
    assert!(matches!(pdf_timestamp(UNIX_TIMESTAMP_MIN - 1), Err(Error::Timestamp(t)) if t == UNIX_TIMESTAMP_MIN - 1));
    assert!(matches!(pdf_timestamp(i64::MAX), Err(Error::Timestamp(i64::MAX))));
}

#[test]
fn only_pdf_bytes_pass_the_export_check() {
    let pdf = b"%PDF-1.7\n%...".to_vec();
    assert_eq!(check_pdf(pdf.clone()).unwrap(), pdf);
    for bytes in [b"%PDF".to_vec(), b"<svg".to_vec(), Vec::new(), b"%pdf-1.7".to_vec()] {
        match check_pdf(bytes) {
            Err(Error::Pdf(message)) => assert_eq!(message, "export did not return a PDF"),
            other => panic!("expected a PDF failure, got {other:?}"),
        }
    }
}

#[test]
fn pages_are_selected_in_range_only() {
    assert_eq!(select_page(0, 1).unwrap(), 0);
    assert_eq!(select_page(2, 3).unwrap(), 2);
    assert!(matches!(select_page(1, 1), Err(Error::MissingPage { page: 1, pages: 1 })));
    assert!(matches!(select_page(0, 0), Err(Error::MissingPage { page: 0, pages: 0 })));
}

#[test]
fn raster_buffers_hold_four_bytes_per_pixel() {
    let page = rgba_page(40, 60, vec![7; 40 * 60 * 4]).unwrap();
    assert_eq!(page, RasterPage { width: 40, height: 60, pixels: vec![7; 40 * 60 * 4] });
    match rgba_page(2, 2, vec![0; 15]) {
        Err(Error::Raster(message)) => assert_eq!(message, "RGBA buffer has 15 bytes; expected 16"),
        other => panic!("expected a raster failure, got {other:?}"),
    }
    match rgba_page(u32::MAX, u32::MAX, Vec::new()) {
        Err(Error::Raster(message)) => {
            assert_eq!(message, "RGBA buffer size overflows the platform integer")
        }
        other => panic!("expected a raster failure, got {other:?}"),
    }
    assert_eq!(pixel_count(40, 60), 2400);
}

#[test]
fn blank_query_labels_are_refused() {
    for label in ["", " ", "\t\n", "\u{3000}\u{2009}", "\u{85}"] {
        assert!(matches!(check_query_label(label), Err(Error::EmptyLabel)), "{label:?}");
    }
    for label in ["probe", " a ", "ctypst-measure-v1", "\u{200b}"] {
        assert!(check_query_label(label).is_ok(), "{label:?}");
    }
}

#[test]
fn fnv1a_matches_reference_values() {
    assert_eq!(fnv1a64(b""), 0xcbf2_9ce4_8422_2325);
    assert_eq!(fnv1a64(b"a"), 0xaf63_dc4c_8601_ec8c);
    assert_eq!(fnv1a64(b"foobar"), 0x8594_4171_f739_67e8);
    assert_eq!(fnv1a64_update(fnv1a64(b"foo"), b"bar"), fnv1a64(b"foobar"));
    assert_eq!(fnv1a64_update(12345, b""), 12345);
}

#[test]
fn the_font_pack_lists_four_archivo_faces() {
    assert_eq!(LICENSE, "OFL-1.1");
    assert_eq!(
        documents(),
        ["Archivo-Bold.ttf", "Archivo-Italic.ttf", "Archivo-Medium.ttf", "Archivo-Regular.ttf"]
    );
}

#[test]
fn input_errors_are_told_apart_from_engine_errors() {
    assert!(Error::Measure("bad".to_owned()).is_input_error());
    assert!(Error::NoValidFont.is_input_error());
    assert!(Error::InvalidFont { index: 1 }.is_input_error());
    assert!(Error::InvalidVirtualPath("../x".to_owned()).is_input_error());
    assert!(!Error::Pdf("x".to_owned()).is_input_error());
    assert!(!Error::EmptyLabel.is_input_error());
    assert!(!Error::Poisoned.is_input_error());
}

#[test]
fn sizes_are_written_in_decimal() {
    assert_eq!(decimal_text(0), "0");
    assert_eq!(decimal_text(7), "7");
    assert_eq!(decimal_text(10), "10");
    assert_eq!(decimal_text(9600), "9600");
    assert_eq!(decimal_text(usize::MAX), usize::MAX.to_string());
}
