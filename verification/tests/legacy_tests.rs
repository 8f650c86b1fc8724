use ansimark::markup::{AnsiError, AnsiString, Markup, MarkupKind};

#[test]
fn flat_run_becomes_one_node() {
    let d = AnsiString::from_codes("rr   ", "hello").unwrap();
    assert_eq!(d.clean, "hello");
    assert_eq!(d.markups.len(), 1);
    assert_eq!(d.markups[0].start_text, "red");
    assert_eq!(d.markups[0].start, 0);
    assert_eq!(d.markups[0].span, 2);
    assert_eq!(d.map, vec![Some(0), Some(0), None, None, None]);
}

#[test]
fn code_change_opens_new_flat_node() {
    let d = AnsiString::from_codes("rrbb", "abcd").unwrap();
    assert_eq!(d.markups.len(), 2);
    assert_eq!(d.markups[0].start_text, "red");
    assert_eq!(d.markups[1].start_text, "blue");
    assert_eq!(d.markups[0].parent, None);
    assert_eq!(d.markups[1].parent, None);
    assert_eq!(d.map, vec![Some(0), Some(0), Some(1), Some(1)]);
}

#[test]
fn uppercase_code_adds_bold() {
    let d = AnsiString::from_codes("RR", "hi").unwrap();
    assert_eq!(d.markups[0].start_text, "bold red");
    assert_eq!(d.markups[0].ansi_bits & 1, 1);
    assert_eq!(d.render_telnet(true, false, false), "\x1b[1m\x1b[31mhi\x1b[22m\x1b[39m");
}

#[test]
fn default_codes_leave_text_unowned() {
    let d = AnsiString::from_codes("nn", "ab").unwrap();
    assert_eq!(d.markups.len(), 0);
    assert_eq!(d.map, vec![None, None]);
}

#[test]
fn unknown_code_fails() {
    assert_eq!(
        AnsiString::from_codes("q", "a").unwrap_err(),
        AnsiError::InvalidLegacyCode
    );
}

#[test]
fn length_mismatch_fails() {
    assert_eq!(
        AnsiString::from_codes("rr", "abc").unwrap_err(),
        AnsiError::InvalidLegacyCode
    );
}

#[test]
fn legacy_document_round_trips_through_encode() {
    let d = AnsiString::from_codes("gg n", "abcd").unwrap();
    let encoded = d.encode();
    let d2 = AnsiString::from_markup(&encoded).unwrap();
    assert_eq!(d2.clean, "abcd");
    assert_eq!(d2.markups.len(), 1);
    assert!(matches!(d2.markups[0].mode, MarkupKind::Color));
}

#[test]
fn markup_new_starts_blank() {
    let m = Markup::new(3, Some(1), MarkupKind::Color);
    assert_eq!(m.order, 3);
    assert_eq!(m.parent, Some(1));
    assert_eq!(m.start_text, "");
    assert_eq!(m.end_text, "");
    assert_eq!(m.ansi_bits, 0);
    assert!(!m.ansi_reset);
}
