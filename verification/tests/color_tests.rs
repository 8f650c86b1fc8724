use ansimark::markup::{AnsiError, AnsiString, ColorDirective, Ground};

#[test]
fn letters_form_collects_words() {
    let v = AnsiString::validate_color_codes("bold red").unwrap();
    assert_eq!(v.len(), 1);
    match &v[0] {
        (ColorDirective::NamedAttributes(ws), g) => {
            assert_eq!(ws, &vec!["bold".to_string(), "red".to_string()]);
            assert_eq!(*g, Ground::Foreground);
        }
        other => panic!("unexpected directive {:?}", other),
    }
}

#[test]
fn letters_form_is_case_insensitive() {
    let v = AnsiString::validate_color_codes("Bold RED").unwrap();
    match &v[0] {
        (ColorDirective::NamedAttributes(ws), _) => {
            assert_eq!(ws, &vec!["bold".to_string(), "red".to_string()]);
        }
        other => panic!("unexpected directive {:?}", other),
    }
}

#[test]
fn numbers_form_is_palette_index() {
    let v = AnsiString::validate_color_codes("12").unwrap();
    assert_eq!(v, vec![(ColorDirective::PaletteIndex(12), Ground::Foreground)]);
}

#[test]
fn numbers_over_255_fail() {
    assert_eq!(
        AnsiString::validate_color_codes("300").unwrap_err(),
        AnsiError::InvalidColorSpec
    );
}

#[test]
fn rgb_form() {
    let v = AnsiString::validate_color_codes("<255 0 0>").unwrap();
    assert_eq!(v, vec![(ColorDirective::Rgb(255, 0, 0), Ground::Foreground)]);
}

#[test]
fn rgb_component_over_255_fails() {
    assert_eq!(
        AnsiString::validate_color_codes("<256 0 0>").unwrap_err(),
        AnsiError::InvalidColorSpec
    );
}

#[test]
fn hex_form() {
    let v = AnsiString::validate_color_codes("#ff00aa").unwrap();
    assert_eq!(v, vec![(ColorDirective::LongHex(255, 0, 170), Ground::Foreground)]);
}

#[test]
fn bracketed_hex_form() {
    let v = AnsiString::validate_color_codes("<#00FF00>").unwrap();
    assert_eq!(v, vec![(ColorDirective::LongHex(0, 255, 0), Ground::Foreground)]);
}

#[test]
fn named_color_form() {
    let v = AnsiString::validate_color_codes("+dodgerblue").unwrap();
    assert_eq!(
        v,
        vec![(ColorDirective::NamedColor("dodgerblue".to_string()), Ground::Foreground)]
    );
}

#[test]
fn slash_switches_ground_to_background() {
    let v = AnsiString::validate_color_codes("red / blue").unwrap();
    assert_eq!(v.len(), 2);
    assert_eq!(v[0].1, Ground::Foreground);
    assert_eq!(v[1].1, Ground::Background);
    match &v[1].0 {
        ColorDirective::NamedAttributes(ws) => assert_eq!(ws, &vec!["blue".to_string()]),
        other => panic!("unexpected directive {:?}", other),
    }
}

#[test]
fn clear_collapses_to_clear_all() {
    let v = AnsiString::validate_color_codes("clear").unwrap();
    assert_eq!(v, vec![(ColorDirective::ClearAll, Ground::Unset)]);
    let v2 = AnsiString::validate_color_codes("bold reset red").unwrap();
    assert_eq!(v2, vec![(ColorDirective::ClearAll, Ground::Unset)]);
}

#[test]
fn mixed_directives_accumulate_in_order() {
    let v = AnsiString::validate_color_codes("bold <255 0 0> / 17").unwrap();
    assert_eq!(v.len(), 3);
    assert_eq!(v[1], (ColorDirective::Rgb(255, 0, 0), Ground::Foreground));
    assert_eq!(v[2], (ColorDirective::PaletteIndex(17), Ground::Background));
}

#[test]
fn unknown_token_fails() {
    assert_eq!(
        AnsiString::validate_color_codes("???").unwrap_err(),
        AnsiError::InvalidColorSpec
    );
    assert_eq!(
        AnsiString::validate_color_codes("<12>").unwrap_err(),
        AnsiError::InvalidColorSpec
    );
    assert_eq!(
        AnsiString::validate_color_codes("#ff00").unwrap_err(),
        AnsiError::InvalidColorSpec
    );
}

#[test]
fn empty_spec_is_empty_directive_list() {
    let v = AnsiString::validate_color_codes("").unwrap();
    assert!(v.is_empty());
    let v2 = AnsiString::validate_color_codes("   ").unwrap();
    assert!(v2.is_empty());
}
