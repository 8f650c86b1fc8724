use vstd::prelude::*;

use crate::color::{color_directives, dirs_view, skip_spaces, skip_spaces_exec};
use crate::markup::{
    AnsiError, AnsiString, ColorDirective, DirModel, DocModel, Ground, Markup, MarkupKind,
    NodeModel, BIT_BLINK, BIT_BOLD, BIT_ITALIC, BIT_REVERSE, BIT_STRIKE, BIT_UNDERLINE,
};
use crate::util::{is_space, push_char, space, str_eq, str_to_chars};

verus! {

// ---------------------------------------------------------------------------
// Markup resolution: raw tag text becomes renderable data, exactly once.
// ---------------------------------------------------------------------------
/// First position at or after `i` holding a space.
pub open spec fn name_end(s: Seq<char>, i: int) -> int
    decreases s.len() - i,
{
    if i < 0 || i >= s.len() || is_space(s[i]) {
        i
    } else {
        name_end(s, i + 1)
    }
}

pub(crate) fn name_end_exec(s: &Vec<char>, i: usize) -> (r: usize)
    requires
        i <= s@.len(),
    ensures
        r == name_end(s@, i as int),
        i <= r <= s@.len(),
    decreases s@.len() - i,
{
    if i < s.len() && !space(s[i]) {
        name_end_exec(s, i + 1)
    } else {
        i
    }
}

/// The synthesized opening tag of an Html node: the raw text without leading
/// whitespace, in angle brackets.
pub open spec fn html_open_of(t: Seq<char>) -> Seq<char> {
    let a = skip_spaces(t, 0);
    seq!['<'] + t.subrange(a, t.len() as int) + seq!['>']
}

/// The synthesized closing tag of an Html node: `</` plus the tag name — the
/// raw text up to its first whitespace — plus `>`.
pub open spec fn html_close_of(t: Seq<char>) -> Seq<char> {
    let a = skip_spaces(t, 0);
    let b = name_end(t, a);
    seq!['<', '/'] + t.subrange(a, b) + seq!['>']
}

/// The renderable data a color specification resolves to.
#[verifier::ext_equal]
pub struct RState {
    pub bits: u32,
    pub fg: DirModel,
    pub bg: DirModel,
    pub reset: bool,
}

pub open spec fn init_rstate() -> RState {
    RState { bits: 0, fg: DirModel::Unspecified, bg: DirModel::Unspecified, reset: false }
}

/// The attribute bit a recognized attribute word switches on, 0 otherwise.
pub open spec fn attr_bit(w: Seq<char>) -> u32 {
    if w == "bold"@ {
        BIT_BOLD
    } else if w == "underline"@ {
        BIT_UNDERLINE
    } else if w == "blink"@ {
        BIT_BLINK
    } else if w == "reverse"@ {
        BIT_REVERSE
    } else if w == "italic"@ {
        BIT_ITALIC
    } else if w == "strike"@ {
        BIT_STRIKE
    } else {
        0
    }
}

/// The base color names a `NamedAttributes` word may set as a ground color.
pub open spec fn is_color_name(w: Seq<char>) -> bool {
    w == "black"@ || w == "red"@ || w == "green"@ || w == "yellow"@ || w == "blue"@ || w
        == "magenta"@ || w == "cyan"@ || w == "white"@
}

pub open spec fn set_ground(st: RState, d: DirModel, g: Ground) -> RState {
    match g {
        Ground::Background => RState { bg: d, ..st },
        _ => RState { fg: d, ..st },
    }
}

/// One attribute word: a recognized attribute switches its bit on, a color
/// name becomes the current ground's color, anything else is ignored.
pub open spec fn apply_word(st: RState, w: Seq<char>, g: Ground) -> RState {
    if attr_bit(w) != 0 {
        RState { bits: st.bits | attr_bit(w), ..st }
    } else if is_color_name(w) {
        set_ground(st, DirModel::NamedColor(w), g)
    } else {
        st
    }
}

pub open spec fn apply_words(ws: Seq<Seq<char>>, st: RState, g: Ground) -> RState
    decreases ws.len(),
{
    if ws.len() == 0 {
        st
    } else {
        apply_words(ws.drop_first(), apply_word(st, ws[0], g), g)
    }
}

/// One directive of the resolved specification.
pub open spec fn apply_one(st: RState, d: DirModel, g: Ground) -> RState {
    match d {
        DirModel::Unspecified => st,
        DirModel::ClearAll => RState { reset: true, ..st },
        DirModel::NamedAttributes(ws) => apply_words(ws, st, g),
        _ => set_ground(st, d, g),
    }
}

pub open spec fn apply_dirs(ds: Seq<(DirModel, Ground)>, st: RState) -> RState
    decreases ds.len(),
{
    if ds.len() == 0 {
        st
    } else {
        apply_dirs(ds.drop_first(), apply_one(st, ds[0].0, ds[0].1))
    }
}

/// What resolving one node yields.  Html nodes get their synthesized tag
/// strings; Color nodes get the attribute bits, ground directives and reset
/// flag of their specification, or fail with `InvalidColorSpec`.  Raw fields
/// are untouched, so resolution is idempotent.
pub open spec fn resolve_node(n: NodeModel) -> Result<NodeModel, AnsiError> {
    match n.kind {
        MarkupKind::Html => Ok(
            NodeModel {
                html_start: html_open_of(n.start_text),
                html_end: html_close_of(n.start_text),
                ..n
            },
        ),
        MarkupKind::Color => match color_directives(n.start_text) {
            Err(e) => Err(e),
            Ok(ds) => {
                let r = apply_dirs(ds, init_rstate());
                Ok(
                    NodeModel {
                        bits: r.bits,
                        off_bits: r.bits,
                        fg: r.fg,
                        bg: r.bg,
                        reset: r.reset,
                        ..n
                    },
                )
            },
        },
    }
}

/// All nodes resolved in order, or the first failure.
pub open spec fn resolve_nodes(ns: Seq<NodeModel>) -> Result<Seq<NodeModel>, AnsiError>
    decreases ns.len(),
{
    if ns.len() == 0 {
        Ok(Seq::empty())
    } else {
        match resolve_node(ns[0]) {
            Err(e) => Err(e),
            Ok(h) => match resolve_nodes(ns.drop_first()) {
                Err(e) => Err(e),
                Ok(t) => Ok(seq![h] + t),
            },
        }
    }
}

/// Resolving an already resolved node changes nothing: resolution reads only
/// the raw fields, which it never writes.
pub proof fn lemma_resolve_idempotent(n: NodeModel, r: NodeModel)
    requires
        resolve_node(n) == Ok::<NodeModel, AnsiError>(r),
    ensures
        resolve_node(r) == Ok::<NodeModel, AnsiError>(r),
{
    assert(r.kind == n.kind && r.start_text == n.start_text);
    match resolve_node(r) {
        Ok(r2) => {
            assert(r2 =~= r);
        },
        Err(_) => {
            assert(false);
        },
    }
}

pub proof fn lemma_resolve_nodes_pointwise(ns: Seq<NodeModel>, rs: Seq<NodeModel>)
    requires
        ns.len() == rs.len(),
        forall|j: int| 0 <= j < ns.len() ==> resolve_node(#[trigger] ns[j]) == Ok::<
            NodeModel,
            AnsiError,
        >(rs[j]),
    ensures
        resolve_nodes(ns) == Ok::<Seq<NodeModel>, AnsiError>(rs),
    decreases ns.len(),
{
    if ns.len() > 0 {
        lemma_resolve_nodes_pointwise(ns.drop_first(), rs.drop_first());
        assert(seq![rs[0]] + rs.drop_first() =~= rs);
    } else {
        assert(rs =~= Seq::<NodeModel>::empty());
    }
}

pub proof fn lemma_resolve_nodes_err(ns: Seq<NodeModel>, i: int, e: AnsiError)
    requires
        0 <= i < ns.len(),
        forall|j: int| 0 <= j < i ==> resolve_node(#[trigger] ns[j]) is Ok,
        resolve_node(ns[i]) == Err::<NodeModel, AnsiError>(e),
    ensures
        resolve_nodes(ns) == Err::<Seq<NodeModel>, AnsiError>(e),
    decreases i,
{
    if i > 0 {
        lemma_resolve_nodes_err(ns.drop_first(), i - 1, e);
    }
}

fn attr_bit_exec(w: &String) -> (r: u32)
    ensures
        r == attr_bit(w@),
{
    let s = w.as_str();
    if str_eq(s, "bold") {
        BIT_BOLD
    } else if str_eq(s, "underline") {
        BIT_UNDERLINE
    } else if str_eq(s, "blink") {
        BIT_BLINK
    } else if str_eq(s, "reverse") {
        BIT_REVERSE
    } else if str_eq(s, "italic") {
        BIT_ITALIC
    } else if str_eq(s, "strike") {
        BIT_STRIKE
    } else {
        0
    }
}

fn is_color_name_exec(w: &String) -> (r: bool)
    ensures
        r == is_color_name(w@),
{
    let s = w.as_str();
    str_eq(s, "black") || str_eq(s, "red") || str_eq(s, "green") || str_eq(s, "yellow") || str_eq(
        s,
        "blue",
    ) || str_eq(s, "magenta") || str_eq(s, "cyan") || str_eq(s, "white")
}

/// Builds `'<'/prefix + t[a, b) + '>'` into a fresh string.
fn bracket_text(t: &Vec<char>, a: usize, b: usize, close_slash: bool) -> (r: String)
    requires
        a <= b <= t@.len(),
    ensures
        close_slash ==> r@ == seq!['<', '/'] + t@.subrange(a as int, b as int) + seq!['>'],
        !close_slash ==> r@ == seq!['<'] + t@.subrange(a as int, b as int) + seq!['>'],
{
    let mut out = String::new();
    push_char(&mut out, '<');
    if close_slash {
        push_char(&mut out, '/');
    }
    let ghost prefix: Seq<char> = if close_slash {
        seq!['<', '/']
    } else {
        seq!['<']
    };
    proof {
        assert(out@ =~= prefix);
    }
    let mut p = a;
    while p < b
        invariant
            a <= p <= b <= t@.len(),
            out@ == prefix + t@.subrange(a as int, p as int),
        decreases b - p,
    {
        push_char(&mut out, t[p]);
        proof {
            assert(t@.subrange(a as int, p + 1) =~= t@.subrange(a as int, p as int).push(
                t@[p as int],
            ));
            assert(out@ =~= prefix + t@.subrange(a as int, p + 1));
        }
        p = p + 1;
    }
    push_char(&mut out, '>');
    proof {
        assert(out@ =~= prefix + t@.subrange(a as int, b as int) + seq!['>']);
    }
    out
}

impl AnsiString {
    /// Resolves one node in place: Html nodes get `html_start`/`html_end`,
    /// Color nodes their attribute bits, ground directives and reset flag.
    /// Fails with `InvalidColorSpec`, leaving the node untouched, exactly
    /// when the color grammar rejects the node's raw text.
    pub fn setup_markup(m: &mut Markup) -> (r: Result<(), AnsiError>)
        ensures
            match r {
                Ok(()) => resolve_node(old(m)@) == Ok::<NodeModel, AnsiError>(final(m)@),
                Err(e) => resolve_node(old(m)@) == Err::<NodeModel, AnsiError>(e) && *final(m)
                    == *old(m),
            },
    {
        match m.mode {
            MarkupKind::Html => {
                let t = str_to_chars(m.start_text.as_str());
                let a = skip_spaces_exec(&t, 0);
                let b = name_end_exec(&t, a);
                m.html_start = bracket_text(&t, a, t.len(), false);
                m.html_end = bracket_text(&t, a, b, true);
                proof {
                    assert(m@ =~= NodeModel {
                        html_start: html_open_of(old(m)@.start_text),
                        html_end: html_close_of(old(m)@.start_text),
                        ..old(m)@
                    });
                }
                Ok(())
            },
            MarkupKind::Color => {
                let mut ds = match Self::validate_color_codes(m.start_text.as_str()) {
                    Err(e) => {
                        return Err(e);
                    },
                    Ok(v) => v,
                };
                let ghost ds0 = dirs_view(ds@);
                let mut bits: u32 = 0;
                let mut fg = ColorDirective::Unspecified;
                let mut bg = ColorDirective::Unspecified;
                let mut reset = false;
                while ds.len() > 0
                    invariant
                        apply_dirs(ds0, init_rstate()) == apply_dirs(
                            dirs_view(ds@),
                            RState { bits, fg: fg@, bg: bg@, reset },
                        ),
                    decreases ds@.len(),
                {
                    let ghost dv = dirs_view(ds@);
                    let ghost st = RState { bits, fg: fg@, bg: bg@, reset };
                    let pair = ds.remove(0);
                    proof {
                        assert(dirs_view(ds@) =~= dv.drop_first());
                        assert((pair.0@, pair.1) == dv[0]);
                    }
                    let g = pair.1;
                    match pair.0 {
                        ColorDirective::Unspecified => {},
                        ColorDirective::ClearAll => {
                            reset = true;
                        },
                        ColorDirective::NamedAttributes(mut ws) => {
                            let ghost g2 = g;
                            while ws.len() > 0
                                invariant
                                    g2 == g,
                                    apply_words(
                                        ws@.map_values(|w: String| w@),
                                        RState { bits, fg: fg@, bg: bg@, reset },
                                        g,
                                    ) == apply_one(st, dv[0].0, dv[0].1),
                                decreases ws@.len(),
                            {
                                let ghost wsv = ws@.map_values(|w: String| w@);
                                let w = ws.remove(0);
                                proof {
                                    assert(ws@.map_values(|ww: String| ww@) =~= wsv.drop_first());
                                    assert(w@ == wsv[0]);
                                }
                                let bit = attr_bit_exec(&w);
                                if bit != 0 {
                                    bits = bits | bit;
                                } else if is_color_name_exec(&w) {
                                    match g {
                                        Ground::Background => {
                                            bg = ColorDirective::NamedColor(w);
                                        },
                                        _ => {
                                            fg = ColorDirective::NamedColor(w);
                                        },
                                    }
                                }
                            }
                        },
                        other => {
                            match g {
                                Ground::Background => {
                                    bg = other;
                                },
                                _ => {
                                    fg = other;
                                },
                            }
                        },
                    }
                }
                m.ansi_bits = bits;
                m.ansi_off_bits = bits;
                m.ansi_fg_mode = fg;
                m.ansi_bg_mode = bg;
                m.ansi_reset = reset;
                proof {
                    let r = apply_dirs(ds0, init_rstate());
                    assert(dirs_view(ds@) =~= Seq::<(DirModel, Ground)>::empty());
                    assert(r == RState { bits, fg: fg@, bg: bg@, reset });
                    assert(m@ =~= NodeModel {
                        bits: r.bits,
                        off_bits: r.bits,
                        fg: r.fg,
                        bg: r.bg,
                        reset: r.reset,
                        ..old(m)@
                    });
                }
                Ok(())
            },
        }
    }
}

/// What building a document from tagged source text yields: the parsed model
/// with every node resolved, or the first parse or resolution error.
pub open spec fn from_markup_spec(s: Seq<char>) -> Result<DocModel, AnsiError> {
    match crate::parse::parse_markup_spec(s) {
        Err(e) => Err(e),
        Ok(m) => match resolve_nodes(m.nodes) {
            Err(e) => Err(e),
            Ok(ns) => Ok(DocModel { nodes: ns, ..m }),
        },
    }
}

/// Resolves every node of `d` in place, or fails with the first node's
/// error.
pub(crate) fn resolve_all(d: &mut AnsiString) -> (r: Result<(), AnsiError>)
    ensures
        match r {
            Ok(()) => resolve_nodes(old(d)@.nodes) == Ok::<Seq<NodeModel>, AnsiError>(
                final(d)@.nodes,
            ) && final(d)@.plain == old(d)@.plain && final(d)@.map == old(d)@.map,
            Err(e) => resolve_nodes(old(d)@.nodes) == Err::<Seq<NodeModel>, AnsiError>(e),
        },
{
    let ghost doc0 = d@;
    let ghost orig: Seq<Markup> = d.markups@;
    let ghost clean0 = d.clean@;
    let ghost map0 = d.map@;
    let n = d.markups.len();
    let mut i: usize = 0;
    while i < n
        invariant
            i <= n,
            n == d.markups@.len(),
            doc0 == old(d)@,
            doc0.nodes == orig.map_values(|mm: Markup| mm@),
            doc0.plain == clean0,
            doc0.map == map0,
            d.clean@ == clean0,
            d.map@ == map0,
            d.markups@.len() == orig.len(),
            forall|j: int| i <= j < orig.len() ==> d.markups@[j] == orig[j],
            forall|j: int|
                0 <= j < i ==> resolve_node(#[trigger] orig[j]@) == Ok::<NodeModel, AnsiError>(
                    d.markups@[j]@,
                ),
        decreases n - i,
    {
        match AnsiString::setup_markup(&mut d.markups[i]) {
            Ok(()) => {},
            Err(e) => {
                proof {
                    let ns = orig.map_values(|mm: Markup| mm@);
                    assert forall|j: int| 0 <= j < i implies resolve_node(
                        #[trigger] ns[j],
                    ) is Ok by {
                        assert(ns[j] == orig[j]@);
                    }
                    assert(ns[i as int] == orig[i as int]@);
                    assert(resolve_node(ns[i as int]) == Err::<NodeModel, AnsiError>(e));
                    lemma_resolve_nodes_err(ns, i as int, e);
                    assert(resolve_nodes(doc0.nodes) == Err::<Seq<NodeModel>, AnsiError>(e));
                }
                return Err(e);
            },
        }
        i = i + 1;
    }
    proof {
        let ns = orig.map_values(|mm: Markup| mm@);
        let rs = d.markups@.map_values(|mm: Markup| mm@);
        assert forall|j: int| 0 <= j < ns.len() implies resolve_node(#[trigger] ns[j]) == Ok::<
            NodeModel,
            AnsiError,
        >(rs[j]) by {
            assert(ns[j] == orig[j]@);
            assert(rs[j] == d.markups@[j]@);
        }
        lemma_resolve_nodes_pointwise(ns, rs);
        assert(resolve_nodes(doc0.nodes) == Ok::<Seq<NodeModel>, AnsiError>(rs));
    }
    Ok(())
}

impl AnsiString {
    /// Parses tagged source text and resolves every node.
    pub fn from_markup(src: &str) -> (r: Result<AnsiString, AnsiError>)
        ensures
            match r {
                Ok(d) => from_markup_spec(src@) == Ok::<DocModel, AnsiError>(d@),
                Err(e) => from_markup_spec(src@) == Err::<DocModel, AnsiError>(e),
            },
    {
        let mut d = match crate::parse::parse_tags(src) {
            Err(e) => {
                return Err(e);
            },
            Ok(d) => d,
        };
        let ghost doc0 = d@;
        match resolve_all(&mut d) {
            Ok(()) => {
                proof {
                    assert(d@ =~= DocModel { nodes: d@.nodes, ..doc0 });
                }
                Ok(d)
            },
            Err(e) => Err(e),
        }
    }
}

} // verus!
