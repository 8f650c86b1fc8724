use vstd::prelude::*;

use crate::markup::{
    AnsiError, AnsiString, DocModel, Markup, MarkupKind, NodeModel, blank_node,
};
use crate::resolve::{resolve_all, resolve_nodes};
use crate::util::push_char;

verus! {

// ---------------------------------------------------------------------------
// Legacy ingestion: a plain text plus a same-length stream of one-character
// color codes, turned into a flat document of Color nodes.
// ---------------------------------------------------------------------------
/// The default (uncolored) code and its space alias collapse to `'n'`.
pub open spec fn norm_code(c: char) -> char {
    if c == ' ' {
        'n'
    } else {
        c
    }
}

/// The color specification a known legacy code stands for: lowercase letters
/// are the base colors, uppercase letters the same colors with bold.
pub open spec fn legacy_body(c: char) -> Option<Seq<char>> {
    if c == 'x' {
        Some("black"@)
    } else if c == 'r' {
        Some("red"@)
    } else if c == 'g' {
        Some("green"@)
    } else if c == 'y' {
        Some("yellow"@)
    } else if c == 'b' {
        Some("blue"@)
    } else if c == 'm' {
        Some("magenta"@)
    } else if c == 'c' {
        Some("cyan"@)
    } else if c == 'w' {
        Some("white"@)
    } else if c == 'X' {
        Some("bold black"@)
    } else if c == 'R' {
        Some("bold red"@)
    } else if c == 'G' {
        Some("bold green"@)
    } else if c == 'Y' {
        Some("bold yellow"@)
    } else if c == 'B' {
        Some("bold blue"@)
    } else if c == 'M' {
        Some("bold magenta"@)
    } else if c == 'C' {
        Some("bold cyan"@)
    } else if c == 'W' {
        Some("bold white"@)
    } else {
        None
    }
}

/// State of the legacy scanner: the document built so far, the open node if
/// any, and the code in force.
#[verifier::ext_equal]
pub struct LState {
    pub nodes: Seq<NodeModel>,
    pub plain: Seq<char>,
    pub map: Seq<Option<usize>>,
    pub cur: Option<usize>,
    pub code: char,
    pub err: Option<AnsiError>,
}

pub open spec fn init_lstate() -> LState {
    LState {
        nodes: Seq::empty(),
        plain: Seq::empty(),
        map: Seq::empty(),
        cur: None,
        code: 'n',
        err: None,
    }
}

/// Closes the open node, fixing its span.
pub open spec fn lclose(st: LState) -> LState {
    match st.cur {
        None => st,
        Some(t) => if t >= st.nodes.len() {
            st
        } else {
            let n = st.nodes[t as int];
            LState {
                cur: None,
                nodes: st.nodes.update(t as int, NodeModel { span: st.map.len() - n.start, ..n }),
                ..st
            }
        },
    }
}

/// One position of the legacy streams: an unchanged code appends the text
/// character under the open node; a changed code closes the open node and,
/// unless the new code is the default, opens a fresh flat Color node; an
/// unknown code fails.
pub open spec fn lstep(st: LState, cc: char, tc: char) -> LState {
    if st.err is Some {
        st
    } else {
        let c = norm_code(cc);
        if c == st.code {
            LState { plain: st.plain.push(tc), map: st.map.push(st.cur), ..st }
        } else if c == 'n' {
            let st1 = lclose(st);
            LState { plain: st1.plain.push(tc), map: st1.map.push(None), code: 'n', ..st1 }
        } else {
            match legacy_body(c) {
                None => LState { err: Some(AnsiError::InvalidLegacyCode), ..st },
                Some(body) => {
                    let st1 = lclose(st);
                    let node = NodeModel {
                        start_text: body,
                        start: st1.map.len() as int,
                        ..blank_node(st1.nodes.len() as int, None, MarkupKind::Color)
                    };
                    let id = st1.nodes.len() as usize;
                    LState {
                        nodes: st1.nodes.push(node),
                        plain: st1.plain.push(tc),
                        map: st1.map.push(Some(id)),
                        cur: Some(id),
                        code: c,
                        ..st1
                    }
                },
            }
        }
    }
}

/// The scanner state after the first `n` positions.
pub open spec fn lrun(codes: Seq<char>, text: Seq<char>, n: int) -> LState
    decreases n,
{
    if n <= 0 {
        init_lstate()
    } else {
        lstep(lrun(codes, text, n - 1), codes[n - 1], text[n - 1])
    }
}

/// What building a document from the legacy streams yields: the flat Color
/// nodes resolved, or `InvalidLegacyCode` for a length mismatch or an
/// unknown code character.
pub open spec fn from_codes_spec(codes: Seq<char>, text: Seq<char>) -> Result<
    DocModel,
    AnsiError,
> {
    if codes.len() != text.len() {
        Err(AnsiError::InvalidLegacyCode)
    } else {
        let st = lrun(codes, text, codes.len() as int);
        match st.err {
            Some(e) => Err(e),
            None => {
                let st2 = lclose(st);
                match resolve_nodes(st2.nodes) {
                    Err(e) => Err(e),
                    Ok(ns) => Ok(DocModel { plain: st2.plain, nodes: ns, map: st2.map }),
                }
            },
        }
    }
}

/// Once the legacy scanner has failed, every longer prefix fails the same
/// way.
pub proof fn lemma_lerr_persists(codes: Seq<char>, text: Seq<char>, i: int, j: int)
    requires
        0 <= i <= j,
        lrun(codes, text, i).err is Some,
    ensures
        lrun(codes, text, j).err == lrun(codes, text, i).err,
    decreases j - i,
{
    if j > i {
        lemma_lerr_persists(codes, text, i, j - 1);
    }
}

fn legacy_body_exec(c: char) -> (r: Option<String>)
    ensures
        match r {
            Some(s) => legacy_body(c) == Some(s@),
            None => legacy_body(c) is None,
        },
{
    if c == 'x' {
        Some(String::from_str("black"))
    } else if c == 'r' {
        Some(String::from_str("red"))
    } else if c == 'g' {
        Some(String::from_str("green"))
    } else if c == 'y' {
        Some(String::from_str("yellow"))
    } else if c == 'b' {
        Some(String::from_str("blue"))
    } else if c == 'm' {
        Some(String::from_str("magenta"))
    } else if c == 'c' {
        Some(String::from_str("cyan"))
    } else if c == 'w' {
        Some(String::from_str("white"))
    } else if c == 'X' {
        Some(String::from_str("bold black"))
    } else if c == 'R' {
        Some(String::from_str("bold red"))
    } else if c == 'G' {
        Some(String::from_str("bold green"))
    } else if c == 'Y' {
        Some(String::from_str("bold yellow"))
    } else if c == 'B' {
        Some(String::from_str("bold blue"))
    } else if c == 'M' {
        Some(String::from_str("bold magenta"))
    } else if c == 'C' {
        Some(String::from_str("bold cyan"))
    } else if c == 'W' {
        Some(String::from_str("bold white"))
    } else {
        None
    }
}

impl AnsiString {
    /// Builds a document from a legacy fixed-width code stream: `text` is the
    /// plain text, `codes` holds one color code character per position.
    pub fn from_codes(codes: &str, text: &str) -> (r: Result<AnsiString, AnsiError>)
        ensures
            match r {
                Ok(d) => from_codes_spec(codes@, text@) == Ok::<DocModel, AnsiError>(d@),
                Err(e) => from_codes_spec(codes@, text@) == Err::<DocModel, AnsiError>(e),
            },
    {
        let n = codes.unicode_len();
        if text.unicode_len() != n {
            return Err(AnsiError::InvalidLegacyCode);
        }
        let mut markups: Vec<Markup> = Vec::new();
        let mut clean = String::new();
        let mut map: Vec<Option<usize>> = Vec::new();
        let mut cur: Option<usize> = None;
        let mut code: char = 'n';
        let mut i: usize = 0;
        while i < n
            invariant
                i <= n,
                n == codes@.len(),
                n == text@.len(),
                lrun(codes@, text@, i as int).err is None,
                lrun(codes@, text@, i as int).nodes == markups@.map_values(|m: Markup| m@),
                lrun(codes@, text@, i as int).plain == clean@,
                lrun(codes@, text@, i as int).map == map@,
                lrun(codes@, text@, i as int).cur == cur,
                lrun(codes@, text@, i as int).code == code,
                match cur {
                    Some(t) => t < markups@.len() && markups@[t as int].start <= map@.len(),
                    None => true,
                },
            decreases n - i,
        {
            let ghost pre = lrun(codes@, text@, i as int);
            let cc = codes.get_char(i);
            let tc = text.get_char(i);
            proof {
                assert(lrun(codes@, text@, i + 1) == lstep(pre, cc, tc));
            }
            let c = if cc == ' ' {
                'n'
            } else {
                cc
            };
            if c == code {
                push_char(&mut clean, tc);
                map.push(cur);
            } else {
                // close the open node, if any
                match cur {
                    Some(t) => {
                        let start = markups[t].start;
                        markups[t].span = map.len() - start;
                        cur = None;
                        proof {
                            assert(markups@.map_values(|m: Markup| m@) =~= lclose(pre).nodes);
                        }
                    },
                    None => {},
                }
                if c == 'n' {
                    push_char(&mut clean, tc);
                    map.push(None);
                    code = 'n';
                } else {
                    match legacy_body_exec(c) {
                        None => {
                            proof {
                                lemma_lerr_persists(codes@, text@, i + 1, n as int);
                            }
                            return Err(AnsiError::InvalidLegacyCode);
                        },
                        Some(body) => {
                            let id = markups.len();
                            let mut m = Markup::new(id, None, MarkupKind::Color);
                            m.start_text = body;
                            m.start = map.len();
                            markups.push(m);
                            push_char(&mut clean, tc);
                            map.push(Some(id));
                            cur = Some(id);
                            code = c;
                            proof {
                                assert(markups@.map_values(|mm: Markup| mm@) =~= lclose(
                                    pre,
                                ).nodes.push(markups@[markups@.len() - 1]@));
                            }
                        },
                    }
                }
            }
            i = i + 1;
        }
        let ghost fin = lrun(codes@, text@, n as int);
        match cur {
            Some(t) => {
                let start = markups[t].start;
                markups[t].span = map.len() - start;
                proof {
                    assert(markups@.map_values(|m: Markup| m@) =~= lclose(fin).nodes);
                }
            },
            None => {},
        }
        let mut d = AnsiString { clean, markups, map };
        let ghost doc0 = d@;
        proof {
            assert(doc0.nodes =~= lclose(fin).nodes);
            assert(doc0.plain == lclose(fin).plain);
            assert(doc0.map == lclose(fin).map);
        }
        match resolve_all(&mut d) {
            Ok(()) => {
                proof {
                    assert(from_codes_spec(codes@, text@) == Ok::<DocModel, AnsiError>(
                        DocModel { plain: doc0.plain, nodes: d@.nodes, map: doc0.map },
                    ));
                    assert(d@ =~= DocModel { plain: doc0.plain, nodes: d@.nodes, map: doc0.map });
                }
                Ok(d)
            },
            Err(e) => Err(e),
        }
    }
}

} // verus!
