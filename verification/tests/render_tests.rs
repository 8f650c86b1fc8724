use ansimark::markup::{AnsiString, ColorDirective, MarkupKind};
use ansimark::render::lookup_named_color;

const OPEN: char = '\x02';
const CLOSE: char = '\x03';

fn tag(body: &str) -> String {
    format!("{}{}{}", OPEN, body, CLOSE)
}

#[test]
fn all_capabilities_off_returns_plain_text() {
    let src = format!(
        "ab{}cd{}e{}f{}g",
        tag("p b"),
        tag("c bold red"),
        tag("c/"),
        tag("p/")
    );
    let d = AnsiString::from_markup(&src).unwrap();
    assert_eq!(d.render_telnet(false, false, false), d.clean);
    assert_eq!(d.render_telnet(false, false, false), "abcdefg");
}

#[test]
fn bold_red_node_renders_ansi() {
    let src = format!("{}hi{}", tag("c bold red"), tag("c/"));
    let d = AnsiString::from_markup(&src).unwrap();
    assert_eq!(d.markups[0].ansi_bits & 1, 1);
    assert!(matches!(&d.markups[0].ansi_fg_mode, ColorDirective::NamedColor(n) if n == "red"));
    let out = d.render_telnet(true, false, false);
    assert_eq!(out, "\x1b[1m\x1b[31mhi\x1b[22m\x1b[39m");
}

#[test]
fn bold_red_mask_holds_regardless_of_xterm() {
    let src = format!("{}hi{}", tag("c bold red"), tag("c/"));
    let d = AnsiString::from_markup(&src).unwrap();
    let plain16 = d.render_telnet(true, false, false);
    let ext256 = d.render_telnet(true, true, false);
    assert!(plain16.starts_with("\x1b[1m"));
    assert!(ext256.starts_with("\x1b[1m"));
    assert_eq!(ext256, "\x1b[1m\x1b[38;5;196mhi\x1b[22m\x1b[39m");
}

#[test]
fn rgb_red_renders_nearest_codes() {
    let src = format!("{}X{}", tag("c <255 0 0>"), tag("c/"));
    let d = AnsiString::from_markup(&src).unwrap();
    assert!(matches!(d.markups[0].ansi_fg_mode, ColorDirective::Rgb(255, 0, 0)));
    assert_eq!(d.render_telnet(true, true, false), "\x1b[38;5;196mX\x1b[39m");
    assert_eq!(d.render_telnet(true, false, false), "\x1b[31mX\x1b[39m");
}

#[test]
fn ansi_disabled_overrides_xterm_and_mxp() {
    let src = format!("{}hi{}", tag("c bold red"), tag("c/"));
    let d = AnsiString::from_markup(&src).unwrap();
    assert_eq!(d.render_telnet(false, true, true), "hi");
}

#[test]
fn html_node_renders_only_under_mxp() {
    let src = format!("{}bold{}", tag("p b"), tag("p/"));
    let d = AnsiString::from_markup(&src).unwrap();
    assert!(matches!(d.markups[0].mode, MarkupKind::Html));
    assert_eq!(d.markups[0].html_start, "<b>");
    assert_eq!(d.markups[0].html_end, "</b>");
    assert_eq!(d.render_telnet(false, false, false), "bold");
    assert_eq!(d.render_telnet(false, false, true), "<b>bold</b>");
}

#[test]
fn html_attributes_kept_in_open_tag_only() {
    let src = format!("{}link{}", tag("p a href=x"), tag("p/"));
    let d = AnsiString::from_markup(&src).unwrap();
    assert_eq!(d.markups[0].html_start, "<a href=x>");
    assert_eq!(d.markups[0].html_end, "</a>");
}

#[test]
fn empty_span_clear_node_still_emits_reset() {
    let src = format!("ab{}{}cd", tag("c clear"), tag("c/"));
    let d = AnsiString::from_markup(&src).unwrap();
    assert!(d.markups[0].ansi_reset);
    assert_eq!(d.markups[0].span, 0);
    assert_eq!(d.render_telnet(true, false, false), "ab\x1b[0mcd");
    assert_eq!(d.render_telnet(false, false, false), "abcd");
}

#[test]
fn background_ground_uses_background_codes() {
    let src = format!("{}x{}", tag("c red / blue"), tag("c/"));
    let d = AnsiString::from_markup(&src).unwrap();
    assert_eq!(
        d.render_telnet(true, false, false),
        "\x1b[31m\x1b[44mx\x1b[39m\x1b[49m"
    );
}

#[test]
fn palette_index_renders_both_ways() {
    let src = format!("{}x{}", tag("c 1"), tag("c/"));
    let d = AnsiString::from_markup(&src).unwrap();
    assert_eq!(d.render_telnet(true, false, false), "\x1b[31mx\x1b[39m");
    assert_eq!(d.render_telnet(true, true, false), "\x1b[38;5;1mx\x1b[39m");
}

#[test]
fn unknown_named_color_degrades_to_reset() {
    let src = format!("{}x{}", tag("c +nosuch"), tag("c/"));
    let d = AnsiString::from_markup(&src).unwrap();
    assert_eq!(d.render_telnet(true, false, false), "\x1b[0mx\x1b[39m");
}

#[test]
fn nested_scopes_close_inner_first() {
    let src = format!(
        "{}a{}b{}c{}",
        tag("p i"),
        tag("p b"),
        tag("p/"),
        tag("p/")
    );
    let d = AnsiString::from_markup(&src).unwrap();
    assert_eq!(d.render_telnet(false, false, true), "<i>a<b>b</b>c</i>");
}

#[test]
fn palette_lookup_names() {
    assert_eq!(lookup_named_color("red"), Some((255, 0, 0)));
    assert_eq!(lookup_named_color("black"), Some((0, 0, 0)));
    assert_eq!(lookup_named_color("white"), Some((255, 255, 255)));
    assert_eq!(lookup_named_color("nosuch"), None);
}
