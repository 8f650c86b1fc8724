use vstd::prelude::*;

use crate::markup::{
    AnsiError, AnsiString, DocModel, Markup, MarkupKind, NodeModel, TAG_END, TAG_START, blank_node,
};
use crate::util::push_char;

verus! {

/// The five scanner states of the tag parser: ordinary text, the kind letter
/// right after an open marker, the character deciding between opening payload
/// and `/`, the body of an opening tag, and the body of a closing tag.
#[derive(Clone, Copy, Debug, PartialEq, Eq, Structural)]
pub enum ScanState {
    Text,
    Kind,
    Decide,
    OpenBody,
    CloseBody,
}

pub open spec fn kind_of(c: char) -> Option<MarkupKind> {
    if c == 'c' || c == 'C' {
        Some(MarkupKind::Color)
    } else if c == 'p' || c == 'P' {
        Some(MarkupKind::Html)
    } else {
        None
    }
}

/// Full state of the tag scanner after some prefix of the input.
#[verifier::ext_equal]
pub struct PState {
    pub mode: ScanState,
    pub plain: Seq<char>,
    pub map: Seq<Option<usize>>,
    pub nodes: Seq<NodeModel>,
    pub stack: Seq<usize>,
    pub kind: MarkupKind,
    pub acc: Seq<char>,
    pub err: Option<AnsiError>,
}

pub open spec fn init_pstate() -> PState {
    PState {
        mode: ScanState::Text,
        plain: Seq::empty(),
        map: Seq::empty(),
        nodes: Seq::empty(),
        stack: Seq::empty(),
        kind: MarkupKind::Color,
        acc: Seq::empty(),
        err: None,
    }
}

/// The innermost open node, if any.
pub open spec fn stack_top(stack: Seq<usize>) -> Option<usize> {
    if stack.len() > 0 {
        Some(stack.last())
    } else {
        None
    }
}

/// State after an opening tag with payload `text` completed.
pub open spec fn opened(st: PState, text: Seq<char>) -> PState {
    let node = NodeModel {
        start_text: text,
        start: st.map.len() as int,
        ..blank_node(st.nodes.len() as int, stack_top(st.stack), st.kind)
    };
    PState {
        mode: ScanState::Text,
        nodes: st.nodes.push(node),
        stack: st.stack.push(st.nodes.len() as usize),
        acc: Seq::empty(),
        ..st
    }
}

/// State after a closing tag completed: the innermost open node receives its
/// closing text and its span, and its parent becomes current again.
pub open spec fn closed(st: PState) -> PState {
    if st.stack.len() == 0 || st.stack.last() >= st.nodes.len() {
        st
    } else {
        let t = st.stack.last() as int;
        let n = st.nodes[t];
        PState {
            mode: ScanState::Text,
            stack: st.stack.drop_last(),
            nodes: st.nodes.update(t, NodeModel { end_text: st.acc, span: st.map.len() - n.start, ..n }),
            acc: Seq::empty(),
            ..st
        }
    }
}

/// One step of the tag scanner.  A state that already failed is final.
pub open spec fn pstep(st: PState, c: char) -> PState {
    if st.err is Some {
        st
    } else {
        match st.mode {
            ScanState::Text => if c == TAG_START {
                PState { mode: ScanState::Kind, ..st }
            } else {
                PState { plain: st.plain.push(c), map: st.map.push(stack_top(st.stack)), ..st }
            },
            ScanState::Kind => match kind_of(c) {
                Some(k) => PState { mode: ScanState::Decide, kind: k, acc: Seq::empty(), ..st },
                None => PState { err: Some(AnsiError::MalformedTag), ..st },
            },
            ScanState::Decide => if c == '/' {
                if st.stack.len() == 0 {
                    PState { err: Some(AnsiError::UnbalancedTag), ..st }
                } else {
                    PState { mode: ScanState::CloseBody, acc: Seq::empty(), ..st }
                }
            } else if c == TAG_END {
                opened(st, Seq::empty())
            } else {
                PState { mode: ScanState::OpenBody, acc: seq![c], ..st }
            },
            ScanState::OpenBody => if c == TAG_END {
                opened(st, st.acc)
            } else {
                PState { acc: st.acc.push(c), ..st }
            },
            ScanState::CloseBody => if c == TAG_END {
                closed(st)
            } else {
                PState { acc: st.acc.push(c), ..st }
            },
        }
    }
}

/// The scanner state after the first `n` characters of `s`.
pub open spec fn prun(s: Seq<char>, n: int) -> PState
    decreases n,
{
    if n <= 0 {
        init_pstate()
    } else {
        pstep(prun(s, n - 1), s[n - 1])
    }
}

/// What parsing tagged source text yields: the document model, or the first
/// error — `MalformedTag` for an unknown kind letter, `UnbalancedTag` for a
/// closing tag with no node open, `UnclosedTag` when input ends with a node
/// (or a tag construct) still open.
pub open spec fn parse_markup_spec(s: Seq<char>) -> Result<DocModel, AnsiError> {
    let st = prun(s, s.len() as int);
    match st.err {
        Some(e) => Err(e),
        None => if st.mode == ScanState::Text && st.stack.len() == 0 {
            Ok(DocModel { plain: st.plain, nodes: st.nodes, map: st.map })
        } else {
            Err(AnsiError::UnclosedTag)
        },
    }
}

/// Once the scanner has failed, every longer prefix fails the same way.
pub proof fn lemma_err_persists(s: Seq<char>, i: int, j: int)
    requires
        0 <= i <= j,
        prun(s, i).err is Some,
    ensures
        prun(s, j).err == prun(s, i).err,
    decreases j - i,
{
    if j > i {
        lemma_err_persists(s, i, j - 1);
    }
}

/// An input with more closing tags than open tags at some point — a closing
/// tag met while no node is open — makes the whole parse, and with it the
/// whole document construction, fail with `UnbalancedTag`.
pub proof fn lemma_unbalanced(s: Seq<char>, i: int)
    requires
        0 <= i < s.len(),
        prun(s, i).err is None,
        prun(s, i).mode == ScanState::Decide,
        prun(s, i).stack.len() == 0,
        s[i] == '/',
    ensures
        parse_markup_spec(s) == Err::<DocModel, AnsiError>(AnsiError::UnbalancedTag),
        crate::resolve::from_markup_spec(s) == Err::<DocModel, AnsiError>(
            AnsiError::UnbalancedTag,
        ),
{
    assert(prun(s, i + 1).err == Some(AnsiError::UnbalancedTag));
    lemma_err_persists(s, i + 1, s.len() as int);
}

/// An input that ends with an open tag never closed makes the whole parse,
/// and with it the whole document construction, fail with `UnclosedTag`.
pub proof fn lemma_unclosed(s: Seq<char>)
    requires
        prun(s, s.len() as int).err is None,
        prun(s, s.len() as int).stack.len() > 0 || prun(s, s.len() as int).mode != ScanState::Text,
    ensures
        parse_markup_spec(s) == Err::<DocModel, AnsiError>(AnsiError::UnclosedTag),
        crate::resolve::from_markup_spec(s) == Err::<DocModel, AnsiError>(AnsiError::UnclosedTag),
{
}

fn kind_of_exec(c: char) -> (r: Option<MarkupKind>)
    ensures
        r == kind_of(c),
{
    if c == 'c' || c == 'C' {
        Some(MarkupKind::Color)
    } else if c == 'p' || c == 'P' {
        Some(MarkupKind::Html)
    } else {
        None
    }
}

/// Runs the tag scanner over `src` and builds the unresolved document.
pub(crate) fn parse_tags(src: &str) -> (r: Result<AnsiString, AnsiError>)
    ensures
        match r {
            Ok(d) => parse_markup_spec(src@) == Ok::<DocModel, AnsiError>(d@),
            Err(e) => parse_markup_spec(src@) == Err::<DocModel, AnsiError>(e),
        },
{
    let n = src.unicode_len();
    let mut mode = ScanState::Text;
    let mut clean = String::new();
    let mut map: Vec<Option<usize>> = Vec::new();
    let mut markups: Vec<Markup> = Vec::new();
    let mut stack: Vec<usize> = Vec::new();
    let mut kind = MarkupKind::Color;
    let mut acc = String::new();
    let mut i: usize = 0;
    while i < n
        invariant
            i <= n,
            n == src@.len(),
            prun(src@, i as int).err is None,
            prun(src@, i as int).mode == mode,
            prun(src@, i as int).plain == clean@,
            prun(src@, i as int).map == map@,
            prun(src@, i as int).nodes == markups@.map_values(|m: Markup| m@),
            prun(src@, i as int).stack == stack@,
            prun(src@, i as int).kind == kind,
            prun(src@, i as int).acc == acc@,
            clean@.len() == map@.len(),
            mode == ScanState::CloseBody ==> stack@.len() > 0,
            forall|j: int|
                0 <= j < stack@.len() ==> stack@[j] < markups@.len() && markups@[stack@[j] as int].start
                    <= map@.len(),
        decreases n - i,
    {
        let ghost pre = prun(src@, i as int);
        let c = src.get_char(i);
        proof {
            assert(prun(src@, i + 1) == pstep(pre, c));
        }
        match mode {
            ScanState::Text => {
                if c == TAG_START {
                    mode = ScanState::Kind;
                } else {
                    push_char(&mut clean, c);
                    if stack.len() > 0 {
                        map.push(Some(stack[stack.len() - 1]));
                    } else {
                        map.push(None);
                    }
                }
            },
            ScanState::Kind => {
                match kind_of_exec(c) {
                    Some(k) => {
                        mode = ScanState::Decide;
                        kind = k;
                        acc = String::new();
                    },
                    None => {
                        proof {
                            lemma_err_persists(src@, i + 1, n as int);
                        }
                        return Err(AnsiError::MalformedTag);
                    },
                }
            },
            ScanState::Decide => {
                if c == '/' {
                    if stack.len() == 0 {
                        proof {
                            lemma_err_persists(src@, i + 1, n as int);
                        }
                        return Err(AnsiError::UnbalancedTag);
                    } else {
                        mode = ScanState::CloseBody;
                        acc = String::new();
                    }
                } else if c == TAG_END {
                    let parent = if stack.len() > 0 {
                        Some(stack[stack.len() - 1])
                    } else {
                        None
                    };
                    let order = markups.len();
                    let mut m = Markup::new(order, parent, kind);
                    m.start = map.len();
                    stack.push(order);
                    markups.push(m);
                    mode = ScanState::Text;
                    acc = String::new();
                    proof {
                        assert(markups@.map_values(|mm: Markup| mm@) =~= pre.nodes.push(
                            markups@[markups@.len() - 1]@,
                        ));
                    }
                } else {
                    mode = ScanState::OpenBody;
                    acc = String::new();
                    push_char(&mut acc, c);
                    proof {
                        assert(acc@ =~= seq![c]);
                    }
                }
            },
            ScanState::OpenBody => {
                if c == TAG_END {
                    let parent = if stack.len() > 0 {
                        Some(stack[stack.len() - 1])
                    } else {
                        None
                    };
                    let order = markups.len();
                    let mut m = Markup::new(order, parent, kind);
                    m.start_text = acc;
                    m.start = map.len();
                    stack.push(order);
                    markups.push(m);
                    mode = ScanState::Text;
                    acc = String::new();
                    proof {
                        assert(markups@.map_values(|mm: Markup| mm@) =~= pre.nodes.push(
                            markups@[markups@.len() - 1]@,
                        ));
                    }
                } else {
                    push_char(&mut acc, c);
                }
            },
            ScanState::CloseBody => {
                if c == TAG_END {
                    let ghost acc0 = acc@;
                    let t = stack[stack.len() - 1];
                    let start = markups[t].start;
                    markups[t].end_text = acc;
                    markups[t].span = map.len() - start;
                    acc = String::new();
                    stack.pop();
                    mode = ScanState::Text;
                    proof {
                        let ti = t as int;
                        assert(markups@[ti]@ =~= NodeModel {
                            end_text: acc0,
                            span: pre.map.len() - pre.nodes[ti].start,
                            ..pre.nodes[ti]
                        });
                        assert(markups@.map_values(|mm: Markup| mm@) =~= pre.nodes.update(
                            ti,
                            markups@[ti]@,
                        ));
                        assert(prun(src@, i + 1).nodes =~= markups@.map_values(|mm: Markup| mm@));
                    }
                } else {
                    push_char(&mut acc, c);
                }
            },
        }
        i = i + 1;
    }
    let ghost fin = prun(src@, n as int);
    if stack.len() == 0 {
        match mode {
            ScanState::Text => {
                let d = AnsiString { clean, markups, map };
                proof {
                    assert(parse_markup_spec(src@) == Ok::<DocModel, AnsiError>(
                        DocModel { plain: fin.plain, nodes: fin.nodes, map: fin.map },
                    ));
                    assert(d@ =~= DocModel { plain: fin.plain, nodes: fin.nodes, map: fin.map });
                }
                Ok(d)
            },
            _ => Err(AnsiError::UnclosedTag),
        }
    } else {
        Err(AnsiError::UnclosedTag)
    }
}

} // verus!
