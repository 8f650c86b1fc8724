use ansimark::markup::{AnsiString, MarkupKind};

const OPEN: char = '\x02';
const CLOSE: char = '\x03';

fn tag(body: &str) -> String {
    format!("{}{}{}", OPEN, body, CLOSE)
}

fn structure(d: &AnsiString) -> Vec<(Option<usize>, bool)> {
    d.markups
        .iter()
        .map(|m| (m.parent, matches!(m.mode, MarkupKind::Color)))
        .collect()
}

#[test]
fn encode_reproduces_simple_source() {
    let src = format!("{}hi{}", tag("c red"), tag("c/"));
    let d = AnsiString::from_markup(&src).unwrap();
    assert_eq!(d.encode(), src);
}

#[test]
fn round_trip_preserves_structure() {
    let src = format!(
        "ab{}c{}d{}e{}f",
        tag("p b"),
        tag("c bold red"),
        tag("c/"),
        tag("p/")
    );
    let d1 = AnsiString::from_markup(&src).unwrap();
    let encoded = d1.encode();
    let d2 = AnsiString::from_markup(&encoded).unwrap();
    assert_eq!(d1.clean, d2.clean);
    assert_eq!(structure(&d1), structure(&d2));
    assert_eq!(d1.map, d2.map);
    assert_eq!(d2.encode(), encoded);
}

#[test]
fn round_trip_keeps_empty_span_nodes() {
    let src = format!("ab{}{}cd", tag("c clear"), tag("c/"));
    let d1 = AnsiString::from_markup(&src).unwrap();
    let encoded = d1.encode();
    let d2 = AnsiString::from_markup(&encoded).unwrap();
    assert_eq!(d2.markups.len(), 1);
    assert_eq!(d2.markups[0].span, 0);
    assert_eq!(d1.clean, d2.clean);
}

#[test]
fn encode_uses_lowercase_kind_letters() {
    let src = format!("{}x{}", tag("C red"), tag("C/"));
    let d = AnsiString::from_markup(&src).unwrap();
    let encoded = d.encode();
    assert_eq!(encoded, format!("{}x{}", tag("c red"), tag("c/")));
    let d2 = AnsiString::from_markup(&encoded).unwrap();
    assert_eq!(d.clean, d2.clean);
}

#[test]
fn parsed_documents_are_well_formed() {
    let srcs = [
        format!("{}hi{}", tag("c bold red"), tag("c/")),
        format!("ab{}c{}d{}e{}f", tag("p b"), tag("c red"), tag("c/"), tag("p/")),
        format!("ab{}{}cd", tag("c clear"), tag("c/")),
        "plain".to_string(),
        String::new(),
    ];
    for src in srcs.iter() {
        let d = AnsiString::from_markup(src).unwrap();
        assert!(d.well_formed());
    }
    let legacy = AnsiString::from_codes("rr n", "abcd").unwrap();
    assert!(legacy.well_formed());
}

#[test]
fn mangled_document_is_not_well_formed() {
    let src = format!("{}hi{}", tag("c red"), tag("c/"));
    let mut d = AnsiString::from_markup(&src).unwrap();
    d.markups[0].span = 7;
    assert!(!d.well_formed());
}
