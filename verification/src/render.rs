use vstd::prelude::*;

use crate::markup::{
    AnsiString, ColorDirective, DirModel, DocModel, Markup, MarkupKind, NodeModel, TAG_END,
    TAG_START, BIT_BLINK, BIT_BOLD, BIT_ITALIC, BIT_REVERSE, BIT_STRIKE, BIT_UNDERLINE,
};
use crate::parse::stack_top;
use crate::util::{dec_chars, push_char, push_dec, str_eq};

verus! {

// ---------------------------------------------------------------------------
// Escape sequences, as functions of the resolved node data.
// ---------------------------------------------------------------------------
/// One SGR escape sequence with a single numeric parameter.
pub open spec fn esc(n: u32) -> Seq<char> {
    seq!['\u{1b}', '['] + dec_chars(n) + seq!['m']
}

/// A 256-color escape sequence; `bg` selects the background channel.
pub open spec fn esc256(n: u32, bg: bool) -> Seq<char> {
    if bg {
        seq!['\u{1b}', '[', '4', '8', ';', '5', ';'] + dec_chars(n) + seq!['m']
    } else {
        seq!['\u{1b}', '[', '3', '8', ';', '5', ';'] + dec_chars(n) + seq!['m']
    }
}

/// The escape sequence one attribute bit contributes, when set.
pub open spec fn attr_seq(bits: u32, bit: u32, code: u32) -> Seq<char> {
    if bits & bit != 0 {
        esc(code)
    } else {
        Seq::empty()
    }
}

/// Attribute-on codes for every bit set, in a fixed order.
pub open spec fn attrs_on(bits: u32) -> Seq<char> {
    attr_seq(bits, BIT_BOLD, 1) + attr_seq(bits, BIT_ITALIC, 3) + attr_seq(bits, BIT_UNDERLINE, 4)
        + attr_seq(bits, BIT_BLINK, 5) + attr_seq(bits, BIT_REVERSE, 7) + attr_seq(
        bits,
        BIT_STRIKE,
        9,
    )
}

/// Attribute-off codes for every bit set, in the same order.
pub open spec fn attrs_off(bits: u32) -> Seq<char> {
    attr_seq(bits, BIT_BOLD, 22) + attr_seq(bits, BIT_ITALIC, 23) + attr_seq(
        bits,
        BIT_UNDERLINE,
        24,
    ) + attr_seq(bits, BIT_BLINK, 25) + attr_seq(bits, BIT_REVERSE, 27) + attr_seq(
        bits,
        BIT_STRIKE,
        29,
    )
}

/// One channel of the 6x6x6 color cube of the 256-color palette.
pub open spec fn cube_component(c: u8) -> u32 {
    if c < 48 {
        0
    } else if c < 115 {
        1
    } else {
        ((c - 35) / 40) as u32
    }
}

/// Nearest 256-color palette index of an RGB value, via the color cube.
pub open spec fn cube_index(r: u8, g: u8, b: u8) -> u32 {
    (16 + 36 * cube_component(r) + 6 * cube_component(g) + cube_component(b)) as u32
}

/// Nearest of the eight basic colors: one bit per bright channel.
pub open spec fn basic_index(r: u8, g: u8, b: u8) -> u32 {
    ((if r >= 128 {
        1u32
    } else {
        0u32
    }) + (if g >= 128 {
        2u32
    } else {
        0u32
    }) + (if b >= 128 {
        4u32
    } else {
        0u32
    })) as u32
}

/// The palette of base color names.
pub open spec fn named_rgb(w: Seq<char>) -> Option<(u8, u8, u8)> {
    if w == "black"@ {
        Some((0u8, 0u8, 0u8))
    } else if w == "red"@ {
        Some((255u8, 0u8, 0u8))
    } else if w == "green"@ {
        Some((0u8, 255u8, 0u8))
    } else if w == "yellow"@ {
        Some((255u8, 255u8, 0u8))
    } else if w == "blue"@ {
        Some((0u8, 0u8, 255u8))
    } else if w == "magenta"@ {
        Some((255u8, 0u8, 255u8))
    } else if w == "cyan"@ {
        Some((0u8, 255u8, 255u8))
    } else if w == "white"@ {
        Some((255u8, 255u8, 255u8))
    } else {
        None
    }
}

/// The 16-color index of a base color name.
pub open spec fn named_index(w: Seq<char>) -> Option<u32> {
    if w == "black"@ {
        Some(0u32)
    } else if w == "red"@ {
        Some(1u32)
    } else if w == "green"@ {
        Some(2u32)
    } else if w == "yellow"@ {
        Some(3u32)
    } else if w == "blue"@ {
        Some(4u32)
    } else if w == "magenta"@ {
        Some(5u32)
    } else if w == "cyan"@ {
        Some(6u32)
    } else if w == "white"@ {
        Some(7u32)
    } else {
        None
    }
}

/// The 16-color SGR parameter for a palette index: the base and bright
/// ranges directly, higher indexes folded onto the base colors.
pub open spec fn code16(n: u8, bg: bool) -> u32 {
    let base: u32 = if bg {
        40
    } else {
        30
    };
    let bright: u32 = if bg {
        100
    } else {
        90
    };
    if n < 8 {
        (base + n as u32) as u32
    } else if n < 16 {
        (bright + (n - 8) as u32) as u32
    } else {
        (base + (n as u32) % 8) as u32
    }
}

/// Whether a directive sets a concrete color on its channel.
pub open spec fn sets_color(d: DirModel) -> bool {
    match d {
        DirModel::PaletteIndex(_) => true,
        DirModel::Rgb(_, _, _) => true,
        DirModel::ShortHex(_, _, _) => true,
        DirModel::LongHex(_, _, _) => true,
        DirModel::NamedColor(_) => true,
        _ => false,
    }
}

/// The escape sequence a ground directive opens with.  An unknown color name
/// degrades to the full reset sequence instead of aborting the render.
pub open spec fn ground_code(d: DirModel, xterm: bool, bg: bool) -> Seq<char> {
    match d {
        DirModel::PaletteIndex(n) => if xterm {
            esc256(n as u32, bg)
        } else {
            esc(code16(n, bg))
        },
        DirModel::Rgb(r, g, b) => rgb_code(r, g, b, xterm, bg),
        DirModel::LongHex(r, g, b) => rgb_code(r, g, b, xterm, bg),
        DirModel::ShortHex(r, g, b) => rgb_code(
            (r as u32 * 17) as u8,
            (g as u32 * 17) as u8,
            (b as u32 * 17) as u8,
            xterm,
            bg,
        ),
        DirModel::NamedColor(w) => match named_rgb(w) {
            Some(rgb) => if xterm {
                esc256(cube_index(rgb.0, rgb.1, rgb.2), bg)
            } else {
                match named_index(w) {
                    Some(k) => esc(
                        ((if bg {
                            40u32
                        } else {
                            30u32
                        }) + k) as u32,
                    ),
                    None => esc(0),
                }
            },
            None => esc(0),
        },
        _ => Seq::empty(),
    }
}

pub open spec fn rgb_code(r: u8, g: u8, b: u8, xterm: bool, bg: bool) -> Seq<char> {
    if xterm {
        esc256(cube_index(r, g, b), bg)
    } else {
        esc(
            ((if bg {
                40u32
            } else {
                30u32
            }) + basic_index(r, g, b)) as u32,
        )
    }
}

/// Everything a node emits when its span opens.
pub open spec fn open_seq(n: NodeModel, ansi: bool, xterm: bool, mxp: bool) -> Seq<char> {
    match n.kind {
        MarkupKind::Html => if mxp {
            n.html_start
        } else {
            Seq::empty()
        },
        MarkupKind::Color => if !ansi || n.reset {
            Seq::empty()
        } else {
            attrs_on(n.bits) + ground_code(n.fg, xterm, false) + ground_code(n.bg, xterm, true)
        },
    }
}

/// Everything a node emits when its span closes: attribute-off codes and a
/// targeted per-channel reset, or the hard reset for `forces_reset` nodes.
pub open spec fn close_seq(n: NodeModel, ansi: bool, xterm: bool, mxp: bool) -> Seq<char> {
    match n.kind {
        MarkupKind::Html => if mxp {
            n.html_end
        } else {
            Seq::empty()
        },
        MarkupKind::Color => if !ansi {
            Seq::empty()
        } else if n.reset {
            esc(0)
        } else {
            attrs_off(n.off_bits) + (if sets_color(n.fg) {
                esc(39)
            } else {
                Seq::empty()
            }) + (if sets_color(n.bg) {
                esc(49)
            } else {
                Seq::empty()
            })
        },
    }
}

pub open spec fn node_end(n: NodeModel) -> int {
    n.start + n.span
}


// ---------------------------------------------------------------------------
// The document walk, shared by the renderer and the encoder.
// ---------------------------------------------------------------------------
/// The kind letter a node encodes with.
pub open spec fn kind_char(k: MarkupKind) -> char {
    match k {
        MarkupKind::Color => 'c',
        MarkupKind::Html => 'p',
    }
}

/// The opening tag of a node, reconstructed.
pub open spec fn open_tag(n: NodeModel) -> Seq<char> {
    seq![TAG_START, kind_char(n.kind)] + n.start_text + seq![TAG_END]
}

/// The closing tag of a node, reconstructed.
pub open spec fn close_tag(n: NodeModel) -> Seq<char> {
    seq![TAG_START, kind_char(n.kind), '/'] + n.end_text + seq![TAG_END]
}

/// What a walk over the document emits at node boundaries: escape sequences
/// for a capability set, or reconstructed tag syntax.
#[derive(Clone, Copy, Debug, PartialEq, Eq, Structural)]
pub enum EmitKind {
    Render { ansi: bool, xterm: bool, mxp: bool },
    Encode,
}

pub open spec fn emit_open(n: NodeModel, em: EmitKind) -> Seq<char> {
    match em {
        EmitKind::Render { ansi, xterm, mxp } => open_seq(n, ansi, xterm, mxp),
        EmitKind::Encode => open_tag(n),
    }
}

pub open spec fn emit_close(n: NodeModel, em: EmitKind) -> Seq<char> {
    match em {
        EmitKind::Render { ansi, xterm, mxp } => close_seq(n, ansi, xterm, mxp),
        EmitKind::Encode => close_tag(n),
    }
}

/// Output from position `p` on, with `next` the first node not yet opened and
/// `stack` the open nodes: a node starting here under the innermost open node
/// opens; otherwise an innermost open node ending here closes; otherwise one
/// plain character is emitted.
pub open spec fn walk_from(d: DocModel, p: int, next: int, stack: Seq<usize>, em: EmitKind) -> Seq<
    char,
>
    decreases d.plain.len() - p, d.nodes.len() - next, stack.len(),
{
    if 0 <= next < d.nodes.len() && d.nodes[next].start == p && d.nodes[next].parent == stack_top(
        stack,
    ) {
        emit_open(d.nodes[next], em) + walk_from(d, p, next + 1, stack.push(next as usize), em)
    } else if stack.len() > 0 && stack.last() < d.nodes.len() && node_end(
        d.nodes[stack.last() as int],
    ) == p {
        emit_close(d.nodes[stack.last() as int], em) + walk_from(d, p, next, stack.drop_last(), em)
    } else if 0 <= p < d.plain.len() {
        seq![d.plain[p]] + walk_from(d, p + 1, next, stack, em)
    } else {
        Seq::empty()
    }
}

/// What rendering a document for the requested capabilities yields.
pub open spec fn render_spec(d: DocModel, ansi: bool, xterm: bool, mxp: bool) -> Seq<char> {
    walk_from(d, 0, 0, Seq::empty(), EmitKind::Render { ansi, xterm, mxp })
}

/// What encoding a document back to tagged source text yields.
pub open spec fn encode_spec(d: DocModel) -> Seq<char> {
    walk_from(d, 0, 0, Seq::empty(), EmitKind::Encode)
}

pub proof fn lemma_walk_plain(d: DocModel, p: int, next: int, stack: Seq<usize>)
    requires
        0 <= p <= d.plain.len(),
        0 <= next,
    ensures
        walk_from(d, p, next, stack, EmitKind::Render { ansi: false, xterm: false, mxp: false })
            == d.plain.skip(p),
    decreases d.plain.len() - p, d.nodes.len() - next, stack.len(),
{
    let em = EmitKind::Render { ansi: false, xterm: false, mxp: false };
    if 0 <= next < d.nodes.len() && d.nodes[next].start == p && d.nodes[next].parent == stack_top(
        stack,
    ) {
        lemma_walk_plain(d, p, next + 1, stack.push(next as usize));
        assert(emit_open(d.nodes[next], em) =~= Seq::<char>::empty());
        assert(Seq::<char>::empty() + d.plain.skip(p) =~= d.plain.skip(p));
    } else if stack.len() > 0 && stack.last() < d.nodes.len() && node_end(
        d.nodes[stack.last() as int],
    ) == p {
        lemma_walk_plain(d, p, next, stack.drop_last());
        assert(emit_close(d.nodes[stack.last() as int], em) =~= Seq::<char>::empty());
        assert(Seq::<char>::empty() + d.plain.skip(p) =~= d.plain.skip(p));
    } else if 0 <= p < d.plain.len() {
        lemma_walk_plain(d, p + 1, next, stack);
        assert(seq![d.plain[p]] + d.plain.skip(p + 1) =~= d.plain.skip(p));
    } else {
        assert(d.plain.skip(p) =~= Seq::<char>::empty());
    }
}

/// Rendering with every capability switched off returns the plain text
/// unchanged, for every document.
pub proof fn lemma_render_plain_text(d: DocModel)
    ensures
        render_spec(d, false, false, false) == d.plain,
{
    lemma_walk_plain(d, 0, 0, Seq::empty());
    assert(d.plain.skip(0) =~= d.plain);
}

// ---------------------------------------------------------------------------
// Executable emission.
// ---------------------------------------------------------------------------
fn push_esc(out: &mut String, n: u32)
    ensures
        final(out)@ == old(out)@ + esc(n),
{
    push_char(out, '\u{1b}');
    push_char(out, '[');
    push_dec(out, n);
    push_char(out, 'm');
    proof {
        assert(out@ =~= old(out)@ + esc(n));
    }
}

fn push_esc256(out: &mut String, n: u32, bg: bool)
    ensures
        final(out)@ == old(out)@ + esc256(n, bg),
{
    push_char(out, '\u{1b}');
    push_char(out, '[');
    if bg {
        push_char(out, '4');
    } else {
        push_char(out, '3');
    }
    push_char(out, '8');
    push_char(out, ';');
    push_char(out, '5');
    push_char(out, ';');
    push_dec(out, n);
    push_char(out, 'm');
    proof {
        assert(out@ =~= old(out)@ + esc256(n, bg));
    }
}

fn push_attr(out: &mut String, bits: u32, bit: u32, code: u32)
    ensures
        final(out)@ == old(out)@ + attr_seq(bits, bit, code),
{
    if bits & bit != 0 {
        push_esc(out, code);
    } else {
        proof {
            assert(out@ =~= old(out)@ + attr_seq(bits, bit, code));
        }
    }
}

fn push_attrs(out: &mut String, bits: u32, on: bool)
    ensures
        on ==> final(out)@ == old(out)@ + attrs_on(bits),
        !on ==> final(out)@ == old(out)@ + attrs_off(bits),
{
    let ghost base = out@;
    push_attr(out, bits, BIT_BOLD, if on { 1 } else { 22 });
    push_attr(out, bits, BIT_ITALIC, if on { 3 } else { 23 });
    proof {
        assert(out@ =~= base + (attr_seq(bits, BIT_BOLD, if on { 1 } else { 22 }) + attr_seq(
            bits,
            BIT_ITALIC,
            if on { 3 } else { 23 },
        )));
    }
    push_attr(out, bits, BIT_UNDERLINE, if on { 4 } else { 24 });
    push_attr(out, bits, BIT_BLINK, if on { 5 } else { 25 });
    proof {
        assert(out@ =~= base + (attr_seq(bits, BIT_BOLD, if on { 1 } else { 22 }) + attr_seq(
            bits,
            BIT_ITALIC,
            if on { 3 } else { 23 },
        ) + attr_seq(bits, BIT_UNDERLINE, if on { 4 } else { 24 }) + attr_seq(
            bits,
            BIT_BLINK,
            if on { 5 } else { 25 },
        )));
    }
    push_attr(out, bits, BIT_REVERSE, if on { 7 } else { 27 });
    push_attr(out, bits, BIT_STRIKE, if on { 9 } else { 29 });
    proof {
        if on {
            assert(out@ =~= base + attrs_on(bits));
        } else {
            assert(out@ =~= base + attrs_off(bits));
        }
    }
}

/// The palette collaborator: RGB values of the base color names.  Absence of
/// a name is not an error; callers degrade to a reset.
pub fn lookup_named_color(name: &str) -> (r: Option<(u8, u8, u8)>)
    ensures
        r == named_rgb(name@),
{
    if str_eq(name, "black") {
        Some((0, 0, 0))
    } else if str_eq(name, "red") {
        Some((255, 0, 0))
    } else if str_eq(name, "green") {
        Some((0, 255, 0))
    } else if str_eq(name, "yellow") {
        Some((255, 255, 0))
    } else if str_eq(name, "blue") {
        Some((0, 0, 255))
    } else if str_eq(name, "magenta") {
        Some((255, 0, 255))
    } else if str_eq(name, "cyan") {
        Some((0, 255, 255))
    } else if str_eq(name, "white") {
        Some((255, 255, 255))
    } else {
        None
    }
}

fn named_index_exec(name: &str) -> (r: Option<u32>)
    ensures
        r == named_index(name@),
{
    if str_eq(name, "black") {
        Some(0)
    } else if str_eq(name, "red") {
        Some(1)
    } else if str_eq(name, "green") {
        Some(2)
    } else if str_eq(name, "yellow") {
        Some(3)
    } else if str_eq(name, "blue") {
        Some(4)
    } else if str_eq(name, "magenta") {
        Some(5)
    } else if str_eq(name, "cyan") {
        Some(6)
    } else if str_eq(name, "white") {
        Some(7)
    } else {
        None
    }
}

fn cube_component_exec(c: u8) -> (r: u32)
    ensures
        r == cube_component(c),
        r <= 5,
{
    if c < 48 {
        0
    } else if c < 115 {
        1
    } else {
        ((c - 35) / 40) as u32
    }
}

fn push_rgb_code(out: &mut String, r: u8, g: u8, b: u8, xterm: bool, bg: bool)
    ensures
        final(out)@ == old(out)@ + rgb_code(r, g, b, xterm, bg),
{
    if xterm {
        let idx = 16 + 36 * cube_component_exec(r) + 6 * cube_component_exec(g)
            + cube_component_exec(b);
        push_esc256(out, idx, bg);
    } else {
        let base: u32 = if bg {
            40
        } else {
            30
        };
        let idx = (if r >= 128 {
            1u32
        } else {
            0u32
        }) + (if g >= 128 {
            2u32
        } else {
            0u32
        }) + (if b >= 128 {
            4u32
        } else {
            0u32
        });
        push_esc(out, base + idx);
    }
}

fn push_ground(out: &mut String, d: &ColorDirective, xterm: bool, bg: bool)
    ensures
        final(out)@ == old(out)@ + ground_code(d@, xterm, bg),
{
    match d {
        ColorDirective::PaletteIndex(n) => {
            if xterm {
                push_esc256(out, *n as u32, bg);
            } else {
                let base: u32 = if bg {
                    40
                } else {
                    30
                };
                let bright: u32 = if bg {
                    100
                } else {
                    90
                };
                let code = if *n < 8 {
                    base + *n as u32
                } else if *n < 16 {
                    bright + (*n - 8) as u32
                } else {
                    base + (*n as u32) % 8
                };
                push_esc(out, code);
            }
        },
        ColorDirective::Rgb(r, g, b) => {
            push_rgb_code(out, *r, *g, *b, xterm, bg);
        },
        ColorDirective::LongHex(r, g, b) => {
            push_rgb_code(out, *r, *g, *b, xterm, bg);
        },
        ColorDirective::ShortHex(r, g, b) => {
            push_rgb_code(
                out,
                (*r as u32 * 17) as u8,
                (*g as u32 * 17) as u8,
                (*b as u32 * 17) as u8,
                xterm,
                bg,
            );
        },
        ColorDirective::NamedColor(w) => {
            match lookup_named_color(w.as_str()) {
                Some(rgb) => {
                    if xterm {
                        let idx = 16 + 36 * cube_component_exec(rgb.0) + 6 * cube_component_exec(
                            rgb.1,
                        ) + cube_component_exec(rgb.2);
                        push_esc256(out, idx, bg);
                    } else {
                        match named_index_exec(w.as_str()) {
                            Some(k) => {
                                let base: u32 = if bg {
                                    40
                                } else {
                                    30
                                };
                                push_esc(out, base + k);
                            },
                            None => {
                                push_esc(out, 0);
                            },
                        }
                    }
                },
                None => {
                    push_esc(out, 0);
                },
            }
        },
        _ => {},
    }
}

fn sets_color_exec(d: &ColorDirective) -> (r: bool)
    ensures
        r == sets_color(d@),
{
    match d {
        ColorDirective::PaletteIndex(_) => true,
        ColorDirective::Rgb(_, _, _) => true,
        ColorDirective::ShortHex(_, _, _) => true,
        ColorDirective::LongHex(_, _, _) => true,
        ColorDirective::NamedColor(_) => true,
        _ => false,
    }
}

fn push_emit_open(out: &mut String, m: &Markup, em: EmitKind)
    ensures
        final(out)@ == old(out)@ + emit_open(m@, em),
{
    match em {
        EmitKind::Render { ansi, xterm, mxp } => {
            match m.mode {
                MarkupKind::Html => {
                    if mxp {
                        out.append(m.html_start.as_str());
                    }
                },
                MarkupKind::Color => {
                    if ansi && !m.ansi_reset {
                        push_attrs(out, m.ansi_bits, true);
                        push_ground(out, &m.ansi_fg_mode, xterm, false);
                        push_ground(out, &m.ansi_bg_mode, xterm, true);
                        proof {
                            assert(out@ =~= old(out)@ + emit_open(m@, em));
                        }
                    }
                },
            }
        },
        EmitKind::Encode => {
            push_char(out, TAG_START);
            match m.mode {
                MarkupKind::Color => push_char(out, 'c'),
                MarkupKind::Html => push_char(out, 'p'),
            }
            out.append(m.start_text.as_str());
            push_char(out, TAG_END);
            proof {
                assert(out@ =~= old(out)@ + open_tag(m@));
            }
        },
    }
    proof {
        assert(out@ =~= old(out)@ + emit_open(m@, em));
    }
}

fn push_emit_close(out: &mut String, m: &Markup, em: EmitKind)
    ensures
        final(out)@ == old(out)@ + emit_close(m@, em),
{
    match em {
        EmitKind::Render { ansi, xterm, mxp } => {
            match m.mode {
                MarkupKind::Html => {
                    if mxp {
                        out.append(m.html_end.as_str());
                    }
                },
                MarkupKind::Color => {
                    if ansi {
                        if m.ansi_reset {
                            push_esc(out, 0);
                        } else {
                            push_attrs(out, m.ansi_off_bits, false);
                            if sets_color_exec(&m.ansi_fg_mode) {
                                push_esc(out, 39);
                            }
                            if sets_color_exec(&m.ansi_bg_mode) {
                                push_esc(out, 49);
                            }
                            proof {
                                assert(out@ =~= old(out)@ + emit_close(m@, em));
                            }
                        }
                    }
                },
            }
        },
        EmitKind::Encode => {
            push_char(out, TAG_START);
            match m.mode {
                MarkupKind::Color => push_char(out, 'c'),
                MarkupKind::Html => push_char(out, 'p'),
            }
            push_char(out, '/');
            out.append(m.end_text.as_str());
            push_char(out, TAG_END);
            proof {
                assert(out@ =~= old(out)@ + close_tag(m@));
            }
        },
    }
    proof {
        assert(out@ =~= old(out)@ + emit_close(m@, em));
    }
}

/// Walks the whole document, emitting node boundaries per `em` and the plain
/// text in between.
fn walk_exec(doc: &AnsiString, em: EmitKind) -> (r: String)
    ensures
        r@ == walk_from(doc@, 0, 0, Seq::empty(), em),
{
    let ghost d = doc@;
    let plain_len = doc.clean.as_str().unicode_len();
    let mut out = String::new();
    let mut p: usize = 0;
    let mut next: usize = 0;
    let mut stack: Vec<usize> = Vec::new();
    loop
        invariant
            d == doc@,
            plain_len == d.plain.len(),
            next <= doc.markups@.len(),
            p <= plain_len,
            forall|j: int| 0 <= j < stack@.len() ==> stack@[j] < doc.markups@.len(),
            out@ + walk_from(d, p as int, next as int, stack@, em) == walk_from(
                d,
                0,
                0,
                Seq::empty(),
                em,
            ),
        ensures
            out@ == walk_from(d, 0, 0, Seq::empty(), em),
        decreases d.plain.len() - p, d.nodes.len() - next, stack@.len(),
    {
        let top = if stack.len() > 0 {
            Some(stack[stack.len() - 1])
        } else {
            None
        };
        let ghost out0 = out@;
        let ghost stack0 = stack@;
        let ghost next0 = next as int;
        proof {
            assert(stack_top(stack0) == top);
            if next < doc.markups@.len() {
                assert(d.nodes[next as int] == doc.markups@[next as int]@);
            }
        }
        let opening = next < doc.markups.len() && doc.markups[next].start == p && crate::util::opt_usize_eq(
            doc.markups[next].parent,
            top,
        );
        if opening {
            push_emit_open(&mut out, &doc.markups[next], em);
            stack.push(next);
            next = next + 1;
            proof {
                assert(walk_from(d, p as int, next0, stack0, em) == emit_open(
                    d.nodes[next0],
                    em,
                ) + walk_from(d, p as int, next as int, stack@, em));
                assert(out@ + walk_from(d, p as int, next as int, stack@, em) =~= out0 + walk_from(
                    d,
                    p as int,
                    next0,
                    stack0,
                    em,
                ));
            }
        } else {
            let closing = if stack.len() > 0 {
                let t = stack[stack.len() - 1];
                doc.markups[t].start <= p && p - doc.markups[t].start == doc.markups[t].span
            } else {
                false
            };
            proof {
                if stack0.len() > 0 {
                    assert(d.nodes[stack0.last() as int] == doc.markups@[stack0.last() as int]@);
                    assert(closing == (node_end(d.nodes[stack0.last() as int]) == p as int));
                }
            }
            if closing {
                let t = stack[stack.len() - 1];
                push_emit_close(&mut out, &doc.markups[t], em);
                stack.pop();
                proof {
                    assert(walk_from(d, p as int, next0, stack0, em) == emit_close(
                        d.nodes[stack0.last() as int],
                        em,
                    ) + walk_from(d, p as int, next as int, stack@, em));
                    assert(out@ + walk_from(d, p as int, next as int, stack@, em) =~= out0
                        + walk_from(d, p as int, next0, stack0, em));
                }
            } else if p < plain_len {
                let c = doc.clean.as_str().get_char(p);
                push_char(&mut out, c);
                p = p + 1;
                proof {
                    assert(walk_from(d, p - 1, next0, stack0, em) == seq![d.plain[p - 1]]
                        + walk_from(d, p as int, next as int, stack@, em));
                    assert(out@ + walk_from(d, p as int, next as int, stack@, em) =~= out0
                        + walk_from(d, p - 1, next0, stack0, em));
                }
            } else {
                proof {
                    assert(walk_from(d, p as int, next as int, stack@, em) =~= Seq::<
                        char,
                    >::empty());
                    assert(out@ =~= out@ + walk_from(d, p as int, next as int, stack@, em));
                }
                break;
            }
        }
    }
    out
}

impl AnsiString {
    /// Renders the document for the requested capabilities: Html nodes emit
    /// their tag strings only under `mxp`, Color nodes their escape
    /// sequences only under `ansi` (256-color sequences under `xterm`), and
    /// the plain text always.  With every capability off the result is the
    /// plain text itself.
    pub fn render_telnet(&self, ansi: bool, xterm: bool, mxp: bool) -> (r: String)
        ensures
            r@ == render_spec(self@, ansi, xterm, mxp),
            !ansi && !xterm && !mxp ==> r@ == self@.plain,
    {
        proof {
            lemma_render_plain_text(self@);
        }
        walk_exec(self, EmitKind::Render { ansi, xterm, mxp })
    }

    /// Encodes the document back to tagged source text, reproducing the tag
    /// nesting exactly.
    pub fn encode(&self) -> (r: String)
        ensures
            r@ == encode_spec(self@),
    {
        walk_exec(self, EmitKind::Encode)
    }
}

} // verus!
