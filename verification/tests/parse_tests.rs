use ansimark::markup::{AnsiError, AnsiString, MarkupKind};

const OPEN: char = '\x02';
const CLOSE: char = '\x03';

fn tag(body: &str) -> String {
    format!("{}{}{}", OPEN, body, CLOSE)
}

#[test]
fn parse_single_color_node() {
    let src = format!("{}hi{}", tag("c bold red"), tag("c/"));
    let d = AnsiString::from_markup(&src).unwrap();
    assert_eq!(d.clean, "hi");
    assert_eq!(d.markups.len(), 1);
    assert!(matches!(d.markups[0].mode, MarkupKind::Color));
    assert_eq!(d.markups[0].parent, None);
    assert_eq!(d.map, vec![Some(0), Some(0)]);
}

#[test]
fn parse_text_outside_tags() {
    let src = format!("ab{}cd{}ef", tag("c red"), tag("c/"));
    let d = AnsiString::from_markup(&src).unwrap();
    assert_eq!(d.clean, "abcdef");
    assert_eq!(
        d.map,
        vec![None, None, Some(0), Some(0), None, None]
    );
    assert_eq!(d.markups[0].start, 2);
    assert_eq!(d.markups[0].span, 2);
}

#[test]
fn parse_nested_nodes() {
    let src = format!(
        "{}a{}b{}c{}d{}e",
        tag("p b"),
        tag("c red"),
        tag("c/"),
        tag("p/"),
        ""
    );
    let d = AnsiString::from_markup(&src).unwrap();
    assert_eq!(d.clean, "abcde");
    assert_eq!(d.markups.len(), 2);
    assert!(matches!(d.markups[0].mode, MarkupKind::Html));
    assert!(matches!(d.markups[1].mode, MarkupKind::Color));
    assert_eq!(d.markups[0].parent, None);
    assert_eq!(d.markups[1].parent, Some(0));
    assert_eq!(d.map, vec![Some(0), Some(1), Some(0), None, None]);
}

#[test]
fn parse_raw_texts_kept() {
    let src = format!("{}x{}", tag("c bold red"), tag("c/ tail"));
    let d = AnsiString::from_markup(&src).unwrap();
    assert_eq!(d.markups[0].start_text, " bold red");
    assert_eq!(d.markups[0].end_text, " tail");
}

#[test]
fn unbalanced_close_fails() {
    let src = tag("c/");
    assert_eq!(AnsiString::from_markup(&src).unwrap_err(), AnsiError::UnbalancedTag);
    let src2 = format!("hi{}", tag("p/"));
    assert_eq!(AnsiString::from_markup(&src2).unwrap_err(), AnsiError::UnbalancedTag);
}

#[test]
fn more_closes_than_opens_fails() {
    let src = format!("{}x{}{}", tag("c red"), tag("c/"), tag("c/"));
    assert_eq!(AnsiString::from_markup(&src).unwrap_err(), AnsiError::UnbalancedTag);
}

#[test]
fn unclosed_tag_fails() {
    let src = format!("{}hi", tag("c red"));
    assert_eq!(AnsiString::from_markup(&src).unwrap_err(), AnsiError::UnclosedTag);
}

#[test]
fn unclosed_nested_fails() {
    let src = format!("{}a{}b", tag("p b"), tag("c red"));
    assert_eq!(AnsiString::from_markup(&src).unwrap_err(), AnsiError::UnclosedTag);
}

#[test]
fn malformed_kind_letter_fails() {
    let src = format!("{}x{}", tag("z red"), tag("z/"));
    assert_eq!(AnsiString::from_markup(&src).unwrap_err(), AnsiError::MalformedTag);
}

#[test]
fn invalid_color_spec_fails_whole_parse() {
    let src = format!("{}x{}", tag("c ???"), tag("c/"));
    assert_eq!(AnsiString::from_markup(&src).unwrap_err(), AnsiError::InvalidColorSpec);
}

#[test]
fn empty_input_is_empty_document() {
    let d = AnsiString::from_markup("").unwrap();
    assert_eq!(d.clean, "");
    assert!(d.markups.is_empty());
    assert!(d.map.is_empty());
}

#[test]
fn upper_case_kind_letters_accepted() {
    let src = format!("{}x{}y{}z{}", tag("C red"), tag("P i"), tag("P/"), tag("C/"));
    let d = AnsiString::from_markup(&src).unwrap();
    assert_eq!(d.clean, "xyz");
    assert!(matches!(d.markups[0].mode, MarkupKind::Color));
    assert!(matches!(d.markups[1].mode, MarkupKind::Html));
}
