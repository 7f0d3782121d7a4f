//! Source formatting contracts.

use ctypst::format::finish_formatted;
use ctypst::{format_source, Error};

#[test]
fn formatting_has_one_final_newline() {
    let formatted = format_source("#let   x=1\n#x", 120).unwrap();
    assert!(formatted.ends_with('\n'));
    assert!(!formatted.ends_with("\n\n"));
}

#[test]
fn formatting_normalizes_spacing() {
    assert_eq!(format_source("#let   x=1\n#x", 120).unwrap(), "#let x = 1\n#x\n");
}

#[test]
fn formatting_width_is_clamped() {
    let source = "#let values = (1, 2, 3, 4, 5, 6, 7, 8, 9, 10, 11, 12, 13, 14, 15, 16, 17, 18, 19, 20)\n";
    assert_eq!(format_source(source, 0).unwrap(), format_source(source, 40).unwrap());
    assert_eq!(format_source(source, 100_000).unwrap(), format_source(source, 240).unwrap());
}

#[test]
fn syntax_errors_are_format_failures() {
    match format_source("#let x = (", 80) {
        Err(Error::Format(message)) => assert_eq!(message, "The document has syntax errors"),
        other => panic!("expected a format failure, got {other:?}"),
    }
}

#[test]
fn final_newline_is_added_once() {
    assert_eq!(finish_formatted("a".to_owned()), "a\n");
    assert_eq!(finish_formatted("a\n".to_owned()), "a\n");
    assert_eq!(finish_formatted(String::new()), "\n");
    assert_eq!(finish_formatted("a\n\n".to_owned()), "a\n\n");
}

#[test]
fn failures_do_not_depend_on_the_width() {
    for width in [0, 40, 80, 240, 100_000] {
        match format_source("#let x = (", width) {
            Err(Error::Format(message)) => assert_eq!(message, "The document has syntax errors"),
            other => panic!("expected a format failure, got {other:?}"),
        }
    }
}
