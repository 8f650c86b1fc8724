use vstd::prelude::*;

verus! {

/// Open marker that starts a tag in tagged source text.
pub const TAG_START: char = '\x02';

/// Close marker that ends a tag in tagged source text.
pub const TAG_END: char = '\x03';

/// Attribute bits used in `Markup::ansi_bits` / `Markup::ansi_off_bits`.
pub const BIT_BOLD: u32 = 1;

pub const BIT_UNDERLINE: u32 = 2;

pub const BIT_BLINK: u32 = 4;

pub const BIT_REVERSE: u32 = 8;

pub const BIT_ITALIC: u32 = 16;

pub const BIT_STRIKE: u32 = 32;

/// Which rendering path a parsed tag uses: `c` tags carry color
/// specifications, `p` tags carry pseudo-HTML markup.
#[derive(Clone, Copy, Debug, PartialEq, Eq, Structural)]
pub enum MarkupKind {
    Color,
    Html,
}

/// Whether a color directive targets the foreground or the background.
/// `Unset` is used before a ground has been determined (only `ClearAll`
/// directives keep it).
#[derive(Clone, Copy, Debug, PartialEq, Eq, Structural)]
pub enum Ground {
    Unset,
    Foreground,
    Background,
}

/// Everything that can go wrong while building or resolving a document.
#[derive(Clone, Copy, Debug, PartialEq, Eq, Structural)]
pub enum AnsiError {
    MalformedTag,
    UnbalancedTag,
    UnclosedTag,
    InvalidColorSpec,
    InvalidLegacyCode,
}

/// One color instruction produced by the color-specification grammar.
#[derive(Clone, Debug, PartialEq, Eq)]
pub enum ColorDirective {
    Unspecified,
    ClearAll,
    NamedAttributes(Vec<String>),
    PaletteIndex(u8),
    Rgb(u8, u8, u8),
    ShortHex(u8, u8, u8),
    LongHex(u8, u8, u8),
    NamedColor(String),
}

/// Mathematical model of a `ColorDirective`: word lists and names become
/// character sequences.
#[verifier::ext_equal]
pub enum DirModel {
    Unspecified,
    ClearAll,
    NamedAttributes(Seq<Seq<char>>),
    PaletteIndex(u8),
    Rgb(u8, u8, u8),
    ShortHex(u8, u8, u8),
    LongHex(u8, u8, u8),
    NamedColor(Seq<char>),
}

impl View for ColorDirective {
    type V = DirModel;

    open spec fn view(&self) -> DirModel {
        match self {
            ColorDirective::Unspecified => DirModel::Unspecified,
            ColorDirective::ClearAll => DirModel::ClearAll,
            ColorDirective::NamedAttributes(ws) => DirModel::NamedAttributes(
                ws@.map_values(|w: String| w@),
            ),
            ColorDirective::PaletteIndex(n) => DirModel::PaletteIndex(*n),
            ColorDirective::Rgb(r, g, b) => DirModel::Rgb(*r, *g, *b),
            ColorDirective::ShortHex(r, g, b) => DirModel::ShortHex(*r, *g, *b),
            ColorDirective::LongHex(r, g, b) => DirModel::LongHex(*r, *g, *b),
            ColorDirective::NamedColor(n) => DirModel::NamedColor(n@),
        }
    }
}

/// One parsed tag occurrence.  `order`, `parent`, `mode`, the raw texts and
/// the span are filled by the tag parser; the remaining fields are filled by
/// the markup resolver.
#[derive(Clone, Debug)]
pub struct Markup {
    /// Creation-order index of this node in the arena.
    pub order: usize,
    /// Arena index of the immediately enclosing node, if any.
    pub parent: Option<usize>,
    pub mode: MarkupKind,
    /// Verbatim text between the open marker (after the kind letter) and the
    /// close marker of the opening tag.
    pub start_text: String,
    /// Verbatim text between the `/` and the close marker of the closing tag.
    pub end_text: String,
    /// First plain-text position covered by this node.
    pub start: usize,
    /// Number of plain-text positions covered by this node.
    pub span: usize,
    /// Html nodes: synthesized opening tag string.
    pub html_start: String,
    /// Html nodes: synthesized closing tag string.
    pub html_end: String,
    /// Color nodes: attribute bits switched on when the node opens.
    pub ansi_bits: u32,
    /// Color nodes: attribute bits switched off when the node closes.
    pub ansi_off_bits: u32,
    /// Color nodes: resolved foreground directive.
    pub ansi_fg_mode: ColorDirective,
    /// Color nodes: resolved background directive.
    pub ansi_bg_mode: ColorDirective,
    /// Color nodes: true when the spec asked for a full reset.
    pub ansi_reset: bool,
}

/// Mathematical model of one node of the arena.
#[verifier::ext_equal]
pub struct NodeModel {
    pub order: int,
    pub parent: Option<usize>,
    pub kind: MarkupKind,
    pub start_text: Seq<char>,
    pub end_text: Seq<char>,
    pub start: int,
    pub span: int,
    pub html_start: Seq<char>,
    pub html_end: Seq<char>,
    pub bits: u32,
    pub off_bits: u32,
    pub fg: DirModel,
    pub bg: DirModel,
    pub reset: bool,
}

impl View for Markup {
    type V = NodeModel;

    open spec fn view(&self) -> NodeModel {
        NodeModel {
            order: self.order as int,
            parent: self.parent,
            kind: self.mode,
            start_text: self.start_text@,
            end_text: self.end_text@,
            start: self.start as int,
            span: self.span as int,
            html_start: self.html_start@,
            html_end: self.html_end@,
            bits: self.ansi_bits,
            off_bits: self.ansi_off_bits,
            fg: self.ansi_fg_mode@,
            bg: self.ansi_bg_mode@,
            reset: self.ansi_reset,
        }
    }
}

impl Markup {
    /// A fresh, unresolved node: raw texts empty, span empty, resolved
    /// fields at their defaults.
    pub fn new(order: usize, parent: Option<usize>, mode: MarkupKind) -> (r: Markup)
        ensures
            r@ == blank_node(order as int, parent, mode),
    {
        Markup {
            order,
            parent,
            mode,
            start_text: String::new(),
            end_text: String::new(),
            start: 0,
            span: 0,
            html_start: String::new(),
            html_end: String::new(),
            ansi_bits: 0,
            ansi_off_bits: 0,
            ansi_fg_mode: ColorDirective::Unspecified,
            ansi_bg_mode: ColorDirective::Unspecified,
            ansi_reset: false,
        }
    }
}

/// Model of a node as the tag parser first creates it.
pub open spec fn blank_node(order: int, parent: Option<usize>, kind: MarkupKind) -> NodeModel {
    NodeModel {
        order: order,
        parent: parent,
        kind: kind,
        start_text: Seq::empty(),
        end_text: Seq::empty(),
        start: 0,
        span: 0,
        html_start: Seq::empty(),
        html_end: Seq::empty(),
        bits: 0,
        off_bits: 0,
        fg: DirModel::Unspecified,
        bg: DirModel::Unspecified,
        reset: false,
    }
}

/// Mathematical model of a parsed document: the plain-text projection, the
/// node arena and the per-character ownership map.
#[verifier::ext_equal]
pub struct DocModel {
    pub plain: Seq<char>,
    pub nodes: Seq<NodeModel>,
    pub map: Seq<Option<usize>>,
}

/// A parsed document: the plain text with all tag syntax stripped, the node
/// arena in creation order, and for every plain-text position the innermost
/// node covering it.
#[derive(Clone, Debug)]
pub struct AnsiString {
    pub clean: String,
    pub markups: Vec<Markup>,
    pub map: Vec<Option<usize>>,
}

impl View for AnsiString {
    type V = DocModel;

    open spec fn view(&self) -> DocModel {
        DocModel {
            plain: self.clean@,
            nodes: self.markups@.map_values(|m: Markup| m@),
            map: self.map@,
        }
    }
}

} // verus!
