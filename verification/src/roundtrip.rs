use vstd::prelude::*;

use crate::markup::{AnsiError, DocModel, NodeModel, TAG_END, TAG_START};
use crate::parse::{
    PState, ScanState, closed, init_pstate, kind_of, lemma_err_persists, opened,
    parse_markup_spec, prun, pstep, stack_top,
};
use crate::render::{EmitKind, close_tag, encode_spec, kind_char, node_end, open_tag, walk_from};
use crate::resolve::{resolve_node, resolve_nodes};

verus! {

// ---------------------------------------------------------------------------
// The structural round trip: encoding a well-formed document and parsing the
// result reproduces its plain text, ownership map and node shapes.
// ---------------------------------------------------------------------------
/// The parser state after consuming `s` from state `st`.
pub open spec fn prun_from(st: PState, s: Seq<char>) -> PState
    decreases s.len(),
{
    if s.len() == 0 {
        st
    } else {
        prun_from(pstep(st, s[0]), s.drop_first())
    }
}

pub proof fn lemma_prun_from_concat(st: PState, a: Seq<char>, b: Seq<char>)
    ensures
        prun_from(st, a + b) == prun_from(prun_from(st, a), b),
    decreases a.len(),
{
    if a.len() == 0 {
        assert(a + b =~= b);
    } else {
        lemma_prun_from_concat(pstep(st, a[0]), a.drop_first(), b);
        assert((a + b).drop_first() =~= a.drop_first() + b);
    }
}

proof fn lemma_prun_from_one(st: PState, c: char)
    ensures
        prun_from(st, seq![c]) == pstep(st, c),
{
    reveal_with_fuel(prun_from, 2);
    assert(seq![c].drop_first() =~= Seq::<char>::empty());
    assert(prun_from(st, seq![c]) == prun_from(pstep(st, c), seq![c].drop_first()));
    assert(prun_from(pstep(st, c), Seq::<char>::empty()) == pstep(st, c));
}

pub proof fn lemma_prun_is_prun_from(s: Seq<char>, n: int)
    requires
        0 <= n <= s.len(),
    ensures
        prun(s, n) == prun_from(init_pstate(), s.take(n)),
    decreases n,
{
    if n == 0 {
        assert(s.take(0) =~= Seq::<char>::empty());
    } else {
        lemma_prun_is_prun_from(s, n - 1);
        lemma_prun_from_concat(init_pstate(), s.take(n - 1), seq![s[n - 1]]);
        assert(s.take(n) =~= s.take(n - 1) + seq![s[n - 1]]);
        lemma_prun_from_one(prun_from(init_pstate(), s.take(n - 1)), s[n - 1]);
    }
}

/// Raw tag text that can sit between the tag markers.
pub open spec fn wf_text(t: Seq<char>) -> bool {
    forall|i: int| 0 <= i < t.len() ==> t[i] != TAG_END
}

/// Raw opening-tag text: additionally must not begin with the closing slash.
pub open spec fn wf_open_text(t: Seq<char>) -> bool {
    wf_text(t) && (t.len() > 0 ==> t[0] != '/')
}

/// A well-formed document, phrased along the walk the encoder makes: every
/// node is opened at its start position under its parent, closed at its end
/// position, its raw texts fit between tag markers, the ownership map names
/// the innermost open node at every position, the plain text holds no open
/// marker, and the walk ends with everything closed.
pub open spec fn wf_walk(m: DocModel, p: int, next: int, stack: Seq<usize>) -> bool
    decreases m.plain.len() - p, m.nodes.len() - next, stack.len(),
{
    if 0 <= next < m.nodes.len() && m.nodes[next].start == p && m.nodes[next].parent == stack_top(
        stack,
    ) {
        &&& wf_open_text(m.nodes[next].start_text)
        &&& m.nodes[next].order == next
        &&& wf_walk(m, p, next + 1, stack.push(next as usize))
    } else if stack.len() > 0 && stack.last() < m.nodes.len() && node_end(
        m.nodes[stack.last() as int],
    ) == p {
        &&& wf_text(m.nodes[stack.last() as int].end_text)
        &&& wf_walk(m, p, next, stack.drop_last())
    } else if 0 <= p < m.plain.len() {
        &&& m.plain[p] != TAG_START
        &&& 0 <= p < m.map.len()
        &&& m.map[p] == stack_top(stack)
        &&& wf_walk(m, p + 1, next, stack)
    } else {
        &&& p == m.plain.len()
        &&& next == m.nodes.len()
        &&& stack.len() == 0
        &&& m.map.len() == m.plain.len()
    }
}

/// A document is well-formed when the walk from the start is.
pub open spec fn wf_doc(m: DocModel) -> bool {
    wf_walk(m, 0, 0, Seq::empty())
}

/// Equality of everything the parser produces: the resolved fields are not
/// part of a node's shape.
pub open spec fn same_shape(a: NodeModel, b: NodeModel) -> bool {
    a.order == b.order && a.parent == b.parent && a.kind == b.kind && a.start_text == b.start_text
        && a.end_text == b.end_text && a.start == b.start && a.span == b.span
}

/// Consuming tag-body characters accumulates them, in either tag-body state.
proof fn lemma_body_chars(st: PState, t: Seq<char>)
    requires
        st.err is None,
        st.mode == ScanState::OpenBody || st.mode == ScanState::CloseBody,
        wf_text(t),
    ensures
        prun_from(st, t) == (PState { acc: st.acc + t, ..st }),
    decreases t.len(),
{
    if t.len() == 0 {
        assert(st.acc + t =~= st.acc);
        assert(PState { acc: st.acc + t, ..st } =~= st);
    } else {
        assert(t[0] != TAG_END);
        let st1 = pstep(st, t[0]);
        assert(st1 == PState { acc: st.acc.push(t[0]), ..st });
        assert(wf_text(t.drop_first()));
        lemma_body_chars(st1, t.drop_first());
        assert(st.acc.push(t[0]) + t.drop_first() =~= st.acc + t);
    }
}

/// Parsing a reconstructed opening tag from outside-tag state opens exactly
/// one node, holding the tag's raw text, at the current position.
proof fn lemma_parse_open_tag(st: PState, n: NodeModel)
    requires
        st.err is None,
        st.mode == ScanState::Text,
        wf_open_text(n.start_text),
    ensures
        prun_from(st, open_tag(n)) == opened(PState { kind: n.kind, ..st }, n.start_text),
{
    let t = n.start_text;
    let kc = kind_char(n.kind);
    assert(kind_of(kc) == Some(n.kind));
    let st1 = pstep(st, TAG_START);
    let st2 = pstep(st1, kc);
    assert(st2 == PState { mode: ScanState::Decide, kind: n.kind, acc: Seq::empty(), ..st });
    let head = seq![TAG_START, kc];
    lemma_prun_from_concat(st, head + t, seq![TAG_END]);
    lemma_prun_from_concat(st, head, t);
    assert(open_tag(n) =~= (head + t) + seq![TAG_END]);
    assert(head =~= seq![TAG_START] + seq![kc]);
    lemma_prun_from_concat(st, seq![TAG_START], seq![kc]);
    lemma_prun_from_one(st, TAG_START);
    lemma_prun_from_one(st1, kc);
    assert(prun_from(st, head) == st2);
    if t.len() == 0 {
        assert(prun_from(st2, t) == st2);
        lemma_prun_from_one(st2, TAG_END);
        assert(prun_from(st, open_tag(n)) == pstep(st2, TAG_END));
        assert(t =~= Seq::<char>::empty());
        assert(pstep(st2, TAG_END) =~= opened(PState { kind: n.kind, ..st }, t));
    } else {
        assert(t[0] != '/' && t[0] != TAG_END);
        let st3 = pstep(st2, t[0]);
        assert(st3 == PState { mode: ScanState::OpenBody, acc: seq![t[0]], ..st2 });
        assert(wf_text(t.drop_first()));
        assert(t =~= seq![t[0]] + t.drop_first());
        lemma_prun_from_concat(st2, seq![t[0]], t.drop_first());
        lemma_prun_from_one(st2, t[0]);
        lemma_body_chars(st3, t.drop_first());
        assert(seq![t[0]] + t.drop_first() =~= t);
        assert(prun_from(st2, t) == (PState { mode: ScanState::OpenBody, acc: t, ..st2 }));
        lemma_prun_from_one(prun_from(st2, t), TAG_END);
        assert(prun_from(st, open_tag(n)) == pstep(prun_from(st2, t), TAG_END));
        assert(pstep(prun_from(st2, t), TAG_END) =~= opened(PState { kind: n.kind, ..st }, t));
    }
}

/// Parsing a reconstructed closing tag from outside-tag state closes exactly
/// the innermost open node, giving it the tag's raw text and its span.
proof fn lemma_parse_close_tag(st: PState, n: NodeModel)
    requires
        st.err is None,
        st.mode == ScanState::Text,
        st.stack.len() > 0,
        st.stack.last() < st.nodes.len(),
        wf_text(n.end_text),
    ensures
        prun_from(st, close_tag(n)) == closed(
            PState { kind: n.kind, acc: n.end_text, mode: ScanState::CloseBody, ..st },
        ),
{
    let t = n.end_text;
    let kc = kind_char(n.kind);
    assert(kind_of(kc) == Some(n.kind));
    let st1 = pstep(st, TAG_START);
    let st2 = pstep(st1, kc);
    let st3 = pstep(st2, '/');
    assert(st3 == PState {
        mode: ScanState::CloseBody,
        kind: n.kind,
        acc: Seq::empty(),
        ..st
    });
    let head = seq![TAG_START, kc, '/'];
    assert(close_tag(n) =~= (head + t) + seq![TAG_END]);
    lemma_prun_from_concat(st, head + t, seq![TAG_END]);
    lemma_prun_from_concat(st, head, t);
    assert(head =~= (seq![TAG_START] + seq![kc]) + seq!['/']);
    lemma_prun_from_concat(st, seq![TAG_START] + seq![kc], seq!['/']);
    lemma_prun_from_concat(st, seq![TAG_START], seq![kc]);
    lemma_prun_from_one(st, TAG_START);
    lemma_prun_from_one(st1, kc);
    lemma_prun_from_one(st2, '/');
    assert(prun_from(st, head) == st3);
    lemma_body_chars(st3, t);
    assert(Seq::<char>::empty() + t =~= t);
    assert(prun_from(st3, t) == (PState { acc: t, ..st3 }));
    lemma_prun_from_one(prun_from(st3, t), TAG_END);
    assert(prun_from(st, close_tag(n)) == pstep(prun_from(st3, t), TAG_END));
    assert(pstep(prun_from(st3, t), TAG_END) =~= closed(
        PState { kind: n.kind, acc: n.end_text, mode: ScanState::CloseBody, ..st },
    ));
}

/// The simulation: from matching states, parsing everything the encoder
/// emits ends outside any tag with everything closed and every node of the
/// document's shape.
proof fn lemma_encode_parse_sim(m: DocModel, p: int, next: int, stack: Seq<usize>, st: PState)
    requires
        0 <= p,
        0 <= next <= m.nodes.len(),
        m.nodes.len() <= usize::MAX,
        wf_walk(m, p, next, stack),
        st.err is None,
        st.mode == ScanState::Text,
        st.plain == m.plain.take(p),
        st.map == m.map.take(p),
        st.plain.len() == p,
        st.map.len() == p,
        st.stack == stack,
        st.nodes.len() == next,
        forall|k1: int, k2: int| 0 <= k1 < k2 < stack.len() ==> stack[k1] < stack[k2],
        forall|k: int| 0 <= k < stack.len() ==> stack[k] < next,
        forall|j: int|
            0 <= j < next && !stack.contains(j as usize) ==> same_shape(
                #[trigger] st.nodes[j],
                m.nodes[j],
            ),
        forall|j: int|
            0 <= j < next && stack.contains(j as usize) ==> {
                &&& (#[trigger] st.nodes[j]).order == m.nodes[j].order
                &&& st.nodes[j].parent == m.nodes[j].parent
                &&& st.nodes[j].kind == m.nodes[j].kind
                &&& st.nodes[j].start_text == m.nodes[j].start_text
                &&& st.nodes[j].start == m.nodes[j].start
                &&& st.nodes[j].end_text == Seq::<char>::empty()
                &&& st.nodes[j].span == 0
            },
    ensures
        ({
            let fin = prun_from(st, walk_from(m, p, next, stack, EmitKind::Encode));
            &&& fin.err is None
            &&& fin.mode == ScanState::Text
            &&& fin.stack.len() == 0
            &&& fin.plain == m.plain
            &&& fin.map == m.map
            &&& fin.nodes.len() == m.nodes.len()
            &&& forall|j: int|
                0 <= j < m.nodes.len() ==> same_shape(#[trigger] fin.nodes[j], m.nodes[j])
        }),
    decreases m.plain.len() - p, m.nodes.len() - next, stack.len(),
{
    if 0 <= next < m.nodes.len() && m.nodes[next].start == p && m.nodes[next].parent == stack_top(
        stack,
    ) {
        let n = m.nodes[next];
        lemma_parse_open_tag(st, n);
        let st2 = prun_from(st, open_tag(n));
        lemma_prun_from_concat(st, open_tag(n), walk_from(
            m,
            p,
            next + 1,
            stack.push(next as usize),
            EmitKind::Encode,
        ));
        let stk2 = stack.push(next as usize);
        assert(stk2[stack.len() as int] == next as usize);
        assert(stk2.contains(next as usize));
        assert(st2.nodes[next as int].start == n.start);
        assert forall|k1: int, k2: int| 0 <= k1 < k2 < stk2.len() implies stk2[k1] < stk2[k2] by {
            if k2 < stack.len() {
                assert(stack[k1] < stack[k2]);
            } else {
                assert(stk2[k1] == stack[k1]);
                assert(stack[k1] < next);
            }
        }
        assert forall|j: int|
            0 <= j < next + 1 && stk2.contains(j as usize) implies {
            &&& (#[trigger] st2.nodes[j]).order == m.nodes[j].order
            &&& st2.nodes[j].parent == m.nodes[j].parent
            &&& st2.nodes[j].kind == m.nodes[j].kind
            &&& st2.nodes[j].start_text == m.nodes[j].start_text
            &&& st2.nodes[j].start == m.nodes[j].start
            &&& st2.nodes[j].end_text == Seq::<char>::empty()
            &&& st2.nodes[j].span == 0
        } by {
            if j < next {
                let k = choose|k: int| 0 <= k < stk2.len() && stk2[k] == (j as usize);
                assert(k < stack.len()) by {
                    if k == stack.len() {
                        assert(stk2[k] == next as usize);
                    }
                }
                assert(stack[k] == (j as usize));
                assert(stack.contains(j as usize));
            }
        }
        assert forall|j: int|
            0 <= j < next + 1 && !stk2.contains(j as usize) implies same_shape(
            #[trigger] st2.nodes[j],
            m.nodes[j],
        ) by {
            assert(j != next);
            assert(!stack.contains(j as usize)) by {
                if stack.contains(j as usize) {
                    let k = choose|k: int| 0 <= k < stack.len() && stack[k] == (j as usize);
                    assert(stk2[k] == (j as usize));
                    assert(stk2.contains(j as usize));
                }
            }
        }
        lemma_encode_parse_sim(m, p, next + 1, stk2, st2);
    } else if stack.len() > 0 && stack.last() < m.nodes.len() && node_end(
        m.nodes[stack.last() as int],
    ) == p {
        let t = stack.last();
        let n = m.nodes[t as int];
        assert(stack[stack.len() - 1] == t);
        assert(t < next);
        assert(stack.contains(t));
        lemma_parse_close_tag(st, n);
        let st2 = prun_from(st, close_tag(n));
        lemma_prun_from_concat(st, close_tag(n), walk_from(
            m,
            p,
            next,
            stack.drop_last(),
            EmitKind::Encode,
        ));
        assert(st.map.len() == p);
        assert(st2.nodes[t as int].span == p - n.start);
        assert(same_shape(st2.nodes[t as int], m.nodes[t as int]));
        assert forall|j: int|
            0 <= j < next && stack.drop_last().contains(j as usize) implies {
            &&& (#[trigger] st2.nodes[j]).order == m.nodes[j].order
            &&& st2.nodes[j].parent == m.nodes[j].parent
            &&& st2.nodes[j].kind == m.nodes[j].kind
            &&& st2.nodes[j].start_text == m.nodes[j].start_text
            &&& st2.nodes[j].start == m.nodes[j].start
            &&& st2.nodes[j].end_text == Seq::<char>::empty()
            &&& st2.nodes[j].span == 0
        } by {
            let k = choose|k: int| 0 <= k < stack.drop_last().len() && stack.drop_last()[k] == (
            j as usize);
            assert(stack[k] == j as usize);
            assert(stack.contains(j as usize));
            assert((j as usize) != t) by {
                assert(k < stack.len() - 1);
                assert(stack[k] < stack[stack.len() - 1]);
            }
            assert(st2.nodes[j] == st.nodes[j]);
        }
        assert forall|j: int|
            0 <= j < next && !stack.drop_last().contains(j as usize) implies same_shape(
            #[trigger] st2.nodes[j],
            m.nodes[j],
        ) by {
            if (j as usize) == t {
                assert(j == t as int);
                assert(same_shape(st2.nodes[j], m.nodes[j]));
            } else {
                assert(!stack.contains(j as usize)) by {
                    if stack.contains(j as usize) {
                        let k = choose|k: int|
                            0 <= k < stack.len() && stack[k] == (j as usize);
                        if k == stack.len() - 1 {
                            assert(stack[k] == t);
                        } else {
                            assert(stack.drop_last()[k] == (j as usize));
                            assert(stack.drop_last().contains(j as usize));
                        }
                    }
                }
                assert(st2.nodes[j] == st.nodes[j]);
            }
        }
        lemma_encode_parse_sim(m, p, next, stack.drop_last(), st2);
    } else if 0 <= p < m.plain.len() {
        let c = m.plain[p];
        let st2 = pstep(st, c);
        assert(walk_from(m, p, next, stack, EmitKind::Encode) == seq![c] + walk_from(
            m,
            p + 1,
            next,
            stack,
            EmitKind::Encode,
        ));
        lemma_prun_from_concat(st, seq![c], walk_from(m, p + 1, next, stack, EmitKind::Encode));
        lemma_prun_from_one(st, c);
        assert(st2.plain =~= m.plain.take(p + 1));
        assert(st2.map =~= m.map.take(p + 1));
        lemma_encode_parse_sim(m, p + 1, next, stack, st2);
    } else {
        assert(walk_from(m, p, next, stack, EmitKind::Encode) =~= Seq::<char>::empty());
        assert(prun_from(st, walk_from(m, p, next, stack, EmitKind::Encode)) == st);
        assert(st.plain =~= m.plain);
        assert(st.map =~= m.map);
        assert forall|j: int| 0 <= j < m.nodes.len() implies same_shape(
            #[trigger] st.nodes[j],
            m.nodes[j],
        ) by {
            assert(stack.len() == 0);
            assert(!stack.contains(j as usize)) by {
                if stack.contains(j as usize) {
                    let k = choose|k: int| 0 <= k < stack.len() && stack[k] == (j as usize);
                }
            }
        }
    }
}

/// Decides well-formedness of a document, walking it exactly as the encoder
/// does.
fn wf_walk_exec(doc: &crate::markup::AnsiString) -> (r: bool)
    ensures
        r == wf_doc(doc@),
{
    let ghost d = doc@;
    let plain_len = doc.clean.as_str().unicode_len();
    let mut ok = true;
    let mut p: usize = 0;
    let mut next: usize = 0;
    let mut stack: Vec<usize> = Vec::new();
    loop
        invariant
            d == doc@,
            plain_len == d.plain.len(),
            next <= doc.markups@.len(),
            p <= plain_len,
            forall|j: int| 0 <= j < stack@.len() ==> stack@[j] < doc.markups@.len(),
            wf_doc(d) == (ok && wf_walk(d, p as int, next as int, stack@)),
        ensures
            ok == wf_doc(d),
        decreases d.plain.len() - p, d.nodes.len() - next, stack@.len(),
    {
        let top = if stack.len() > 0 {
            Some(stack[stack.len() - 1])
        } else {
            None
        };
        proof {
            assert(stack_top(stack@) == top);
            if next < doc.markups@.len() {
                assert(d.nodes[next as int] == doc.markups@[next as int]@);
            }
        }
        let opening = next < doc.markups.len() && doc.markups[next].start == p && crate::util::opt_usize_eq(
            doc.markups[next].parent,
            top,
        );
        if opening {
            let m = &doc.markups[next];
            let tlen = m.start_text.as_str().unicode_len();
            let mut local = true;
            let mut q: usize = 0;
            while q < tlen
                invariant
                    tlen == m.start_text@.len(),
                    q <= tlen,
                    m == doc.markups@[next as int],
                    local == (forall|i: int| 0 <= i < q ==> m.start_text@[i] != TAG_END),
                decreases tlen - q,
            {
                if m.start_text.as_str().get_char(q) == TAG_END {
                    local = false;
                }
                q = q + 1;
            }
            if tlen > 0 && m.start_text.as_str().get_char(0) == '/' {
                local = false;
            }
            if m.order != next {
                local = false;
            }
            ok = ok && local;
            proof {
                assert(local == (wf_open_text(d.nodes[next as int].start_text) && d.nodes[
                next as int].order == next));
            }
            stack.push(next);
            next = next + 1;
        } else {
            let closing = if stack.len() > 0 {
                let t = stack[stack.len() - 1];
                doc.markups[t].start <= p && p - doc.markups[t].start == doc.markups[t].span
            } else {
                false
            };
            proof {
                if stack@.len() > 0 {
                    assert(d.nodes[stack@.last() as int] == doc.markups@[stack@.last() as int]@);
                    assert(closing == (node_end(d.nodes[stack@.last() as int]) == p as int));
                }
            }
            if closing {
                let t = stack[stack.len() - 1];
                let m = &doc.markups[t];
                let tlen = m.end_text.as_str().unicode_len();
                let mut local = true;
                let mut q: usize = 0;
                while q < tlen
                    invariant
                        tlen == m.end_text@.len(),
                        q <= tlen,
                        m == doc.markups@[t as int],
                        local == (forall|i: int| 0 <= i < q ==> m.end_text@[i] != TAG_END),
                    decreases tlen - q,
                {
                    if m.end_text.as_str().get_char(q) == TAG_END {
                        local = false;
                    }
                    q = q + 1;
                }
                ok = ok && local;
                proof {
                    assert(local == wf_text(d.nodes[stack@.last() as int].end_text));
                }
                stack.pop();
            } else if p < plain_len {
                let c = doc.clean.as_str().get_char(p);
                let mut local = c != TAG_START;
                if p >= doc.map.len() {
                    local = false;
                } else {
                    let owner = doc.map[p];
                    if !crate::util::opt_usize_eq(owner, top) {
                        local = false;
                    }
                }
                ok = ok && local;
                proof {
                    assert(local == (d.plain[p as int] != TAG_START && 0 <= (p as int)
                        < d.map.len() && d.map[p as int] == stack_top(stack@)));
                }
                p = p + 1;
            } else {
                let fin = next == doc.markups.len() && stack.len() == 0 && doc.map.len()
                    == plain_len;
                ok = ok && fin;
                proof {
                    assert(wf_walk(d, p as int, next as int, stack@) == (p == d.plain.len()
                        && next == d.nodes.len() && stack@.len() == 0 && d.map.len()
                        == d.plain.len()));
                }
                break;
            }
        }
    }
    ok
}

impl crate::markup::AnsiString {
    /// Whether the document is well-formed: every node opens at its start
    /// position under its parent and closes at its end position, the raw tag
    /// texts fit between the tag markers, and the ownership map names the
    /// innermost covering node everywhere.  Documents built by this library's
    /// constructors satisfy this; the structural round-trip law holds of
    /// every document that does.
    pub fn well_formed(&self) -> (r: bool)
        ensures
            r == wf_doc(self@),
    {
        wf_walk_exec(self)
    }
}

/// Structural round trip: encoding a well-formed document and parsing the
/// result succeeds and yields the same plain text, the same ownership map,
/// and nodes of the same shape — order, parent, kind, raw texts and span.
pub proof fn lemma_parse_encode_round_trip(m: DocModel)
    requires
        wf_doc(m),
        m.nodes.len() <= usize::MAX,
    ensures
        match parse_markup_spec(encode_spec(m)) {
            Ok(m2) => {
                &&& m2.plain == m.plain
                &&& m2.map == m.map
                &&& m2.nodes.len() == m.nodes.len()
                &&& forall|j: int|
                    0 <= j < m.nodes.len() ==> same_shape(#[trigger] m2.nodes[j], m.nodes[j])
            },
            Err(_) => false,
        },
{
    let s = encode_spec(m);
    assert(init_pstate().plain.len() == 0);
    assert(init_pstate().map.len() == 0);
    assert(init_pstate().plain =~= m.plain.take(0));
    assert(init_pstate().map =~= m.map.take(0));
    lemma_encode_parse_sim(m, 0, 0, Seq::empty(), init_pstate());
    lemma_prun_is_prun_from(s, s.len() as int);
    assert(s.take(s.len() as int) =~= s);
    assert(init_pstate().plain =~= m.plain.take(0));
    assert(init_pstate().map =~= m.map.take(0));
}


// ---------------------------------------------------------------------------
// Every document the parser builds is well-formed, which closes the round
// trip: parse, encode, parse again reproduces the structure.
// ---------------------------------------------------------------------------
/// Facts that hold of every reachable scanner state: plain text and map grow
/// together, the stack of open nodes is strictly increasing and in range,
/// node ids match arena positions, and open nodes are still blank at the end.
pub open spec fn minv(st: PState) -> bool {
    &&& st.plain.len() == st.map.len()
    &&& forall|k: int| 0 <= k < st.stack.len() ==> (#[trigger] st.stack[k]) < st.nodes.len()
    &&& forall|k1: int, k2: int| 0 <= k1 < k2 < st.stack.len() ==> st.stack[k1] < st.stack[k2]
    &&& (st.mode == ScanState::CloseBody ==> st.stack.len() > 0)
    &&& forall|t: int| 0 <= t < st.nodes.len() ==> (#[trigger] st.nodes[t]).order == t
    &&& forall|t: int| 0 <= t < st.nodes.len() ==> (#[trigger] st.nodes[t]).start <= st.map.len()
    &&& forall|k: int|
        0 <= k < st.stack.len() ==> {
            let n = st.nodes[#[trigger] st.stack[k] as int];
            n.span == 0 && n.end_text == Seq::<char>::empty()
        }
}

proof fn lemma_minv_step(st: PState, c: char)
    requires
        minv(st),
        st.nodes.len() < usize::MAX,
    ensures
        minv(pstep(st, c)),
        pstep(st, c).nodes.len() <= st.nodes.len() + 1,
{
    let b = pstep(st, c);
    if st.err is None && (st.mode == ScanState::Decide && c != '/' && c == TAG_END || st.mode
        == ScanState::OpenBody && c == TAG_END) {
        assert(st.nodes.len() as usize as int == st.nodes.len());
        assert forall|k: int| 0 <= k < b.stack.len() implies {
            let n = b.nodes[#[trigger] b.stack[k] as int];
            n.span == 0 && n.end_text == Seq::<char>::empty()
        } by {
            if k < st.stack.len() {
                assert(b.stack[k] == st.stack[k]);
                assert(b.nodes[st.stack[k] as int] == st.nodes[st.stack[k] as int]);
            } else {
                assert(b.stack[k] == st.nodes.len() as usize);
            }
        }
        assert forall|k1: int, k2: int| 0 <= k1 < k2 < b.stack.len() implies b.stack[k1]
            < b.stack[k2] by {
            if k2 < st.stack.len() {
                assert(st.stack[k1] < st.stack[k2]);
            } else {
                assert(b.stack[k2] == st.nodes.len() as usize);
                assert(st.stack[k1] < st.nodes.len());
            }
        }
    } else if st.err is None && st.mode == ScanState::CloseBody && c == TAG_END {
        let t = st.stack.last();
        assert(st.stack[st.stack.len() - 1] == t);
        assert forall|k: int| 0 <= k < b.stack.len() implies {
            let n = b.nodes[#[trigger] b.stack[k] as int];
            n.span == 0 && n.end_text == Seq::<char>::empty()
        } by {
            assert(b.stack[k] == st.stack[k]);
            assert(st.stack[k] < st.stack[st.stack.len() - 1]);
        }
    }
}

proof fn lemma_minv(s: Seq<char>, i: int)
    requires
        0 <= i <= usize::MAX,
    ensures
        minv(prun(s, i)),
        prun(s, i).nodes.len() <= i,
    decreases i,
{
    if i > 0 {
        lemma_minv(s, i - 1);
        lemma_minv_step(prun(s, i - 1), s[i - 1]);
    }
}

/// How a later scanner state extends an earlier one: text and map grow by
/// appending, created nodes keep their identity fields, closed nodes never
/// change again, nodes created later start at later positions and never name
/// an already closed node as parent, and a node open earlier is either still
/// open and untouched or was closed at or after the earlier position.
pub open spec fn evolves(a: PState, b: PState) -> bool {
    &&& a.plain.len() <= b.plain.len()
    &&& b.plain.take(a.plain.len() as int) == a.plain
    &&& a.map.len() <= b.map.len()
    &&& b.map.take(a.map.len() as int) == a.map
    &&& a.nodes.len() <= b.nodes.len()
    &&& forall|t: int|
        0 <= t < a.nodes.len() ==> {
            let x = #[trigger] b.nodes[t];
            let y = a.nodes[t];
            x.order == y.order && x.parent == y.parent && x.kind == y.kind && x.start_text
                == y.start_text && x.start == y.start
        }
    &&& forall|t: int|
        0 <= t < a.nodes.len() && !a.stack.contains(t as usize) ==> (#[trigger] b.nodes[t])
            == a.nodes[t] && !b.stack.contains(t as usize)
    &&& forall|t: int|
        0 <= t < a.nodes.len() && a.stack.contains(t as usize) ==> ((b.stack.contains(t as usize)
            && #[trigger] b.nodes[t] == a.nodes[t]) || (!b.stack.contains(t as usize) && node_end(
            b.nodes[t],
        ) >= a.map.len()))
    &&& forall|u: int|
        a.nodes.len() <= u < b.nodes.len() ==> (#[trigger] b.nodes[u]).start >= a.map.len()
    &&& forall|u: int|
        a.nodes.len() <= u < b.nodes.len() ==> match (#[trigger] b.nodes[u]).parent {
            Some(w) => w < a.nodes.len() ==> a.stack.contains(w),
            None => true,
        }
}

proof fn lemma_evolves_refl(a: PState)
    ensures
        evolves(a, a),
{
    assert(a.plain.take(a.plain.len() as int) =~= a.plain);
    assert(a.map.take(a.map.len() as int) =~= a.map);
}

proof fn lemma_evolves_trans(a: PState, b: PState, c: PState)
    requires
        evolves(a, b),
        evolves(b, c),
    ensures
        evolves(a, c),
{
    assert(c.plain.take(a.plain.len() as int) =~= b.plain.take(a.plain.len() as int));
    assert(c.map.take(a.map.len() as int) =~= b.map.take(a.map.len() as int));
    assert forall|t: int|
        0 <= t < a.nodes.len() && a.stack.contains(t as usize) implies ((c.stack.contains(
        t as usize,
    ) && #[trigger] c.nodes[t] == a.nodes[t]) || (!c.stack.contains(t as usize) && node_end(
        c.nodes[t],
    ) >= a.map.len())) by {
        if b.stack.contains(t as usize) && b.nodes[t] == a.nodes[t] {
        } else {
            assert(!b.stack.contains(t as usize) && node_end(b.nodes[t]) >= a.map.len());
            assert(c.nodes[t] == b.nodes[t]);
        }
    }
    assert forall|u: int|
        a.nodes.len() <= u < c.nodes.len() implies match (#[trigger] c.nodes[u]).parent {
        Some(w) => w < a.nodes.len() ==> a.stack.contains(w),
        None => true,
    } by {
        if u < b.nodes.len() {
            assert(c.nodes[u].parent == b.nodes[u].parent);
        } else {
            match c.nodes[u].parent {
                Some(w) => {
                    if w < a.nodes.len() && !a.stack.contains(w) {
                        assert(b.nodes[w as int] == a.nodes[w as int]);
                        assert(!b.stack.contains(w));
                        assert(w < b.nodes.len() ==> b.stack.contains(w));
                        assert(false);
                    }
                },
                None => {},
            }
        }
    }
}

proof fn lemma_evolves_step(st: PState, c: char)
    requires
        minv(st),
        st.nodes.len() < usize::MAX,
    ensures
        evolves(st, pstep(st, c)),
{
    let b = pstep(st, c);
    lemma_evolves_refl(st);
    if st.err is Some {
    } else {
        match st.mode {
            ScanState::Text => {
                if c == TAG_START {
                } else {
                    assert(b.plain.take(st.plain.len() as int) =~= st.plain);
                    assert(b.map.take(st.map.len() as int) =~= st.map);
                }
            },
            ScanState::Kind => {},
            ScanState::Decide => {
                if c == '/' {
                } else if c == TAG_END {
                    lemma_evolves_open(st, c);
                }
            },
            ScanState::OpenBody => {
                if c == TAG_END {
                    lemma_evolves_open(st, c);
                }
            },
            ScanState::CloseBody => {
                if c == TAG_END {
                    lemma_evolves_close(st);
                }
            },
        }
    }
}

/// The opening transitions extend the arena by one blank node.
proof fn lemma_evolves_open(st: PState, c: char)
    requires
        minv(st),
        st.nodes.len() < usize::MAX,
        st.err is None,
        st.mode == ScanState::Decide && c != '/' && c == TAG_END || st.mode == ScanState::OpenBody
            && c == TAG_END,
    ensures
        evolves(st, pstep(st, c)),
{
    let b = pstep(st, c);
    lemma_evolves_refl(st);
    assert(st.nodes.len() as usize as int == st.nodes.len());
    assert(b.stack[st.stack.len() as int] == st.nodes.len() as usize);
    assert forall|t: int|
        0 <= t < st.nodes.len() && !st.stack.contains(t as usize) implies (#[trigger] b.nodes[t])
        == st.nodes[t] && !b.stack.contains(t as usize) by {
        if b.stack.contains(t as usize) {
            let k = choose|k: int| 0 <= k < b.stack.len() && b.stack[k] == (t as usize);
            if k < st.stack.len() {
                assert(st.stack[k] == (t as usize));
                assert(st.stack.contains(t as usize));
            } else {
                assert(b.stack[k] == st.nodes.len() as usize);
            }
        }
    }
    assert forall|t: int|
        0 <= t < st.nodes.len() && st.stack.contains(t as usize) implies ((b.stack.contains(
        t as usize,
    ) && #[trigger] b.nodes[t] == st.nodes[t]) || (!b.stack.contains(t as usize) && node_end(
        b.nodes[t],
    ) >= st.map.len())) by {
        let k = choose|k: int| 0 <= k < st.stack.len() && st.stack[k] == (t as usize);
        assert(b.stack[k] == (t as usize));
        assert(b.stack.contains(t as usize));
    }
    assert forall|u: int|
        st.nodes.len() <= u < b.nodes.len() implies match (#[trigger] b.nodes[u]).parent {
        Some(w) => w < st.nodes.len() ==> st.stack.contains(w),
        None => true,
    } by {
        assert(u == st.nodes.len());
        if st.stack.len() > 0 {
            assert(st.stack[st.stack.len() - 1] == st.stack.last());
            assert(st.stack.contains(st.stack.last()));
            assert(b.nodes[u].parent == Some(st.stack.last()));
        } else {
            assert(b.nodes[u].parent is None);
        }
    }
}

/// The closing transition fixes the innermost open node and pops it.
proof fn lemma_evolves_close(st: PState)
    requires
        minv(st),
        st.nodes.len() < usize::MAX,
        st.err is None,
        st.mode == ScanState::CloseBody,
    ensures
        evolves(st, pstep(st, TAG_END)),
{
    let b = pstep(st, TAG_END);
    lemma_evolves_refl(st);
    let top = st.stack.last();
    assert(st.stack[st.stack.len() - 1] == top);
    assert(top < st.nodes.len());
    assert(st.nodes[top as int].start <= st.map.len());
    assert forall|t: int|
        0 <= t < st.nodes.len() && !st.stack.contains(t as usize) implies (#[trigger] b.nodes[t])
        == st.nodes[t] && !b.stack.contains(t as usize) by {
        assert(t != top as int) by {
            if t == top as int {
                assert(st.stack.contains(t as usize));
            }
        }
        if b.stack.contains(t as usize) {
            let k = choose|k: int| 0 <= k < b.stack.len() && b.stack[k] == (t as usize);
            assert(st.stack[k] == (t as usize));
            assert(st.stack.contains(t as usize));
        }
    }
    assert forall|t: int|
        0 <= t < st.nodes.len() && st.stack.contains(t as usize) implies ((b.stack.contains(
        t as usize,
    ) && #[trigger] b.nodes[t] == st.nodes[t]) || (!b.stack.contains(t as usize) && node_end(
        b.nodes[t],
    ) >= st.map.len())) by {
        if t == top as int {
            assert(!b.stack.contains(t as usize)) by {
                if b.stack.contains(t as usize) {
                    let k = choose|k: int| 0 <= k < b.stack.len() && b.stack[k] == (t as usize);
                    assert(st.stack[k] == (t as usize));
                    assert(k < st.stack.len() - 1);
                    assert(st.stack[k] < st.stack[st.stack.len() - 1]);
                }
            }
            assert(node_end(b.nodes[t]) == st.map.len());
        } else {
            let k = choose|k: int| 0 <= k < st.stack.len() && st.stack[k] == (t as usize);
            assert(t as usize as int == t);
            assert(k < st.stack.len() - 1) by {
                if k == st.stack.len() - 1 {
                    assert(st.stack[k] == top);
                    assert(t == top as int);
                }
            }
            assert(b.stack[k] == (t as usize));
            assert(b.stack.contains(t as usize));
            assert(b.nodes[t] == st.nodes[t]);
        }
    }
}

proof fn lemma_evolves_range(s: Seq<char>, i: int, j: int)
    requires
        0 <= i <= j <= usize::MAX,
    ensures
        evolves(prun(s, i), prun(s, j)),
    decreases j - i,
{
    lemma_minv(s, i);
    if j == i {
        lemma_evolves_refl(prun(s, i));
    } else {
        lemma_evolves_range(s, i, j - 1);
        lemma_minv(s, j - 1);
        lemma_evolves_step(prun(s, j - 1), s[j - 1]);
        lemma_evolves_trans(prun(s, i), prun(s, j - 1), prun(s, j));
    }
}

/// In a run that ends cleanly, a tag body that starts at `k` reaches a close
/// marker, and the scanner simply accumulates the characters before it.
proof fn find_tag_end(s: Seq<char>, k: int) -> (e: int)
    requires
        0 <= k <= s.len(),
        prun(s, k).err is None,
        prun(s, k).mode == ScanState::OpenBody || prun(s, k).mode == ScanState::CloseBody,
        prun(s, s.len() as int).err is None,
        prun(s, s.len() as int).mode == ScanState::Text,
    ensures
        k <= e < s.len(),
        s[e] == TAG_END,
        forall|l: int| k <= l < e ==> s[l] != TAG_END,
        prun(s, e) == (PState { acc: prun(s, k).acc + s.subrange(k, e), ..prun(s, k) }),
    decreases s.len() - k,
{
    let a = prun(s, k);
    if k == s.len() {
        assert(false);
        0
    } else if s[k] == TAG_END {
        assert(a.acc + s.subrange(k, k) =~= a.acc);
        assert((PState { acc: a.acc + s.subrange(k, k), ..a }) =~= a);
        k
    } else {
        assert(prun(s, k + 1) == pstep(a, s[k]));
        let b = prun(s, k + 1);
        assert(b == (PState { acc: a.acc.push(s[k]), ..a }));
        let e = find_tag_end(s, k + 1);
        assert(a.acc.push(s[k]) + s.subrange(k + 1, e) =~= a.acc + s.subrange(k, e));
        assert((PState { acc: b.acc + s.subrange(k + 1, e), ..b }) =~= (PState {
            acc: a.acc + s.subrange(k, e),
            ..a
        }));
        e
    }
}

/// In a run that parses to `m`, the walk of `m` is well-formed from every
/// point where the scanner stands outside a tag.
proof fn lemma_run_wf(s: Seq<char>, i: int, m: DocModel)
    requires
        0 <= i <= s.len(),
        s.len() <= usize::MAX,
        prun(s, i).err is None,
        prun(s, i).mode == ScanState::Text,
        parse_markup_spec(s) == Ok::<DocModel, AnsiError>(m),
    ensures
        wf_walk(m, prun(s, i).plain.len() as int, prun(s, i).nodes.len() as int, prun(s, i).stack),
    decreases s.len() - i,
{
    let n = s.len() as int;
    let a = prun(s, i);
    let fin = prun(s, n);
    let p = a.plain.len() as int;
    let next = a.nodes.len() as int;
    lemma_minv(s, i);
    lemma_minv(s, n);
    lemma_evolves_range(s, i, n);
    assert(m.plain == fin.plain && m.nodes == fin.nodes && m.map == fin.map);
    assert(m.plain.take(p) == a.plain);
    assert(m.map.take(p) == a.map);
    if i == n {
        assert(a == fin);
        assert(next == m.nodes.len());
        assert(a.stack.len() == 0);
        assert(p == m.plain.len());
        assert(m.map.len() == m.plain.len());
        assert(!(0 <= next < m.nodes.len()));
        assert(wf_walk(m, p, next, a.stack));
    } else if s[i] != TAG_START {
        let c = s[i];
        assert(prun(s, i + 1) == pstep(a, c));
        let b = prun(s, i + 1);
        assert(b.plain == a.plain.push(c));
        assert(b.map == a.map.push(stack_top(a.stack)));
        assert(b.stack == a.stack);
        lemma_run_wf(s, i + 1, m);
        lemma_minv(s, i + 1);
        lemma_evolves_range(s, i + 1, n);
        // the walk takes the plain-character branch
        assert(m.plain.take(p + 1) == b.plain);
        assert(m.plain[p] == c) by {
            assert(m.plain.take(p + 1)[p] == c);
        }
        assert(m.map[p] == stack_top(a.stack)) by {
            assert(m.map.take(p + 1)[p] == stack_top(a.stack));
        }
        if 0 <= next < m.nodes.len() {
            assert(m.nodes[next].start >= b.map.len());
        }
        if a.stack.len() > 0 {
            let t = a.stack.last();
            assert(a.stack[a.stack.len() - 1] == t);
            assert(a.stack.contains(t));
            assert(b.stack.contains(t));
            assert(t < next);
            if fin.stack.contains(t) {
                let k = choose|k: int| 0 <= k < fin.stack.len() && fin.stack[k] == t;
                assert(false);
            }
            assert(node_end(m.nodes[t as int]) >= b.map.len());
            assert(node_end(m.nodes[t as int]) != p);
        }
        assert(wf_walk(m, p, next, a.stack));
    } else {
        // a tag begins: kind letter, then an opening payload or a closing slash
        assert(prun(s, i + 1) == pstep(a, s[i]));
        let b1 = prun(s, i + 1);
        assert(b1 == (PState { mode: ScanState::Kind, ..a }));
        if i + 1 == n {
            assert(false);
        }
        assert(prun(s, i + 2) == pstep(b1, s[i + 1]));
        if kind_of(s[i + 1]) is None {
            lemma_err_persists(s, i + 2, n);
            assert(false);
        }
        let kind = kind_of(s[i + 1])->Some_0;
        let b2 = prun(s, i + 2);
        assert(b2 == (PState { mode: ScanState::Decide, kind, acc: Seq::empty(), ..a }));
        if i + 2 == n {
            assert(false);
        }
        assert(prun(s, i + 3) == pstep(b2, s[i + 2]));
        if s[i + 2] == '/' {
            // a closing tag
            if a.stack.len() == 0 {
                lemma_err_persists(s, i + 3, n);
                assert(false);
            }
            let t = a.stack.last();
            assert(a.stack[a.stack.len() - 1] == t);
            assert(a.stack.contains(t));
            let b3 = prun(s, i + 3);
            assert(b3 == (PState { mode: ScanState::CloseBody, acc: Seq::empty(), kind, ..a }));
            let e = find_tag_end(s, i + 3);
            let b4 = prun(s, e);
            assert(b4 == (PState { acc: s.subrange(i + 3, e), ..b3 })) by {
                assert(Seq::<char>::empty() + s.subrange(i + 3, e) =~= s.subrange(i + 3, e));
            }
            assert(prun(s, e + 1) == pstep(b4, TAG_END));
            let b5 = prun(s, e + 1);
            assert(t < a.nodes.len());
            let closed_node = NodeModel {
                end_text: s.subrange(i + 3, e),
                span: a.map.len() - a.nodes[t as int].start,
                ..a.nodes[t as int]
            };
            assert(b5 == (PState {
                mode: ScanState::Text,
                stack: a.stack.drop_last(),
                nodes: a.nodes.update(t as int, closed_node),
                acc: Seq::empty(),
                kind,
                ..a
            }));
            lemma_run_wf(s, e + 1, m);
            lemma_minv(s, e + 1);
            lemma_evolves_range(s, e + 1, n);
            // the closed node keeps its final value
            assert(!b5.stack.contains(t)) by {
                if b5.stack.contains(t) {
                    let k = choose|k: int| 0 <= k < b5.stack.len() && b5.stack[k] == t;
                    assert(a.stack[k] == t);
                    assert(k < a.stack.len() - 1);
                    assert(a.stack[k] < a.stack[a.stack.len() - 1]);
                }
            }
            assert(m.nodes[t as int] == closed_node);
            assert(node_end(m.nodes[t as int]) == p) by {
                assert(a.nodes[t as int].span == 0 && a.nodes[t as int].end_text == Seq::<
                    char,
                >::empty());
            }
            // the walk cannot open a node here: a later node never names the
            // node just closed as its parent
            if 0 <= next < m.nodes.len() {
                assert(m.nodes[next].parent != Some(t)) by {
                    assert(b5.nodes.len() == next);
                    assert(t < b5.nodes.len());
                    match m.nodes[next].parent {
                        Some(w) => {
                            if w == t {
                                assert(b5.stack.contains(t));
                            }
                        },
                        None => {},
                    }
                }
                assert(stack_top(a.stack) == Some(t));
            }
            assert(wf_text(m.nodes[t as int].end_text));
            assert(wf_walk(m, p, next, a.stack.drop_last()));
            assert(wf_walk(m, p, next, a.stack));
        } else {
            // an opening tag, with an empty or a non-empty payload
            let text: Seq<char>;
            let j: int;
            if s[i + 2] == TAG_END {
                text = Seq::empty();
                j = i + 3;
            } else {
                let e0 = find_tag_end(s, i + 3);
                text = s.subrange(i + 2, e0);
                j = e0 + 1;
            }
            let new_node = NodeModel {
                start_text: text,
                start: a.map.len() as int,
                ..crate::markup::blank_node(next, stack_top(a.stack), kind)
            };
            assert(prun(s, j) == (PState {
                mode: ScanState::Text,
                nodes: a.nodes.push(new_node),
                stack: a.stack.push(next as usize),
                acc: Seq::empty(),
                kind,
                ..a
            })) by {
                if s[i + 2] == TAG_END {
                    assert(prun(s, i + 3) == opened(b2, Seq::empty()));
                } else {
                    let b3 = prun(s, i + 3);
                    assert(b3 == (PState {
                        mode: ScanState::OpenBody,
                        acc: seq![s[i + 2]],
                        kind,
                        ..a
                    }));
                    let e = find_tag_end(s, i + 3);
                    let b4 = prun(s, e);
                    assert(b4 == (PState { acc: seq![s[i + 2]] + s.subrange(i + 3, e), ..b3 }));
                    assert(seq![s[i + 2]] + s.subrange(i + 3, e) =~= s.subrange(i + 2, e));
                    assert(prun(s, e + 1) == pstep(b4, TAG_END));
                    assert(pstep(b4, TAG_END) == opened(b4, b4.acc));
                }
            }
            let b5 = prun(s, j);
            assert(wf_open_text(text)) by {
                if s[i + 2] != TAG_END {
                    let e = find_tag_end(s, i + 3);
                    assert forall|l: int| 0 <= l < text.len() implies text[l] != TAG_END by {
                        assert(text[l] == s[i + 2 + l]);
                    }
                    assert(text[0] == s[i + 2]);
                }
            }
            lemma_run_wf(s, j, m);
            lemma_minv(s, j);
            lemma_evolves_range(s, j, n);
            // the new node keeps its identity fields in the final document
            assert(b5.nodes[next] == new_node);
            assert(m.nodes[next].start == p);
            assert(m.nodes[next].parent == stack_top(a.stack));
            assert(m.nodes[next].start_text == text);
            assert(m.nodes[next].order == next);
            assert(next < m.nodes.len());
            assert(wf_walk(m, p, next + 1, a.stack.push(next as usize)));
            assert(wf_walk(m, p, next, a.stack));
        }
    }
}

/// Every document the parser accepts is well-formed.
pub proof fn lemma_parse_yields_wf(s: Seq<char>, m: DocModel)
    requires
        s.len() <= usize::MAX,
        parse_markup_spec(s) == Ok::<DocModel, AnsiError>(m),
    ensures
        wf_doc(m),
        m.nodes.len() <= usize::MAX,
{
    lemma_minv(s, s.len() as int);
    assert(prun(s, 0) == init_pstate());
    lemma_run_wf(s, 0, m);
    assert(init_pstate().stack =~= Seq::<usize>::empty());
}

/// The full structural round trip: parsing tagged text, encoding the
/// document and parsing again reproduces the plain text, the ownership map
/// and every node's shape.
pub proof fn lemma_parse_encode_parse(s: Seq<char>, m: DocModel)
    requires
        s.len() <= usize::MAX,
        parse_markup_spec(s) == Ok::<DocModel, AnsiError>(m),
    ensures
        match parse_markup_spec(encode_spec(m)) {
            Ok(m2) => {
                &&& m2.plain == m.plain
                &&& m2.map == m.map
                &&& m2.nodes.len() == m.nodes.len()
                &&& forall|j: int|
                    0 <= j < m.nodes.len() ==> same_shape(#[trigger] m2.nodes[j], m.nodes[j])
            },
            Err(_) => false,
        },
{
    lemma_parse_yields_wf(s, m);
    lemma_parse_encode_round_trip(m);
}


/// Resolution never changes a node's shape.
proof fn lemma_resolve_node_shape(n: NodeModel, r: NodeModel)
    requires
        resolve_node(n) == Ok::<NodeModel, AnsiError>(r),
    ensures
        same_shape(r, n),
        r.kind == n.kind,
{
}

/// Resolution depends only on a node's kind and raw opening text.
proof fn lemma_resolve_node_congruent(n1: NodeModel, n2: NodeModel)
    requires
        n1.kind == n2.kind,
        n1.start_text == n2.start_text,
        resolve_node(n1) is Ok,
    ensures
        resolve_node(n2) is Ok,
{
}

/// Resolving an arena resolves it node by node.
proof fn lemma_resolve_nodes_inv(ns: Seq<NodeModel>)
    ensures
        match resolve_nodes(ns) {
            Ok(rs) => rs.len() == ns.len() && forall|j: int|
                0 <= j < ns.len() ==> resolve_node(#[trigger] ns[j]) == Ok::<NodeModel, AnsiError>(
                    rs[j],
                ),
            Err(_) => true,
        },
    decreases ns.len(),
{
    if ns.len() > 0 {
        lemma_resolve_nodes_inv(ns.drop_first());
        match resolve_nodes(ns) {
            Ok(rs) => {
                assert forall|j: int| 0 <= j < ns.len() implies resolve_node(#[trigger] ns[j])
                    == Ok::<NodeModel, AnsiError>(rs[j]) by {
                    if j > 0 {
                        assert(ns.drop_first()[j - 1] == ns[j]);
                        assert(rs[j] == match resolve_nodes(ns.drop_first()) {
                            Ok(ts) => ts[j - 1],
                            Err(_) => rs[j],
                        });
                    }
                }
            },
            Err(_) => {},
        }
    }
}

/// The encoder reads only a document's plain text and node shapes.
proof fn lemma_encode_congruent(d1: DocModel, d2: DocModel, p: int, next: int, stack: Seq<usize>)
    requires
        d1.plain == d2.plain,
        d1.nodes.len() == d2.nodes.len(),
        forall|j: int| 0 <= j < d1.nodes.len() ==> same_shape(#[trigger] d1.nodes[j], d2.nodes[j]),
    ensures
        walk_from(d1, p, next, stack, EmitKind::Encode) == walk_from(
            d2,
            p,
            next,
            stack,
            EmitKind::Encode,
        ),
    decreases d1.plain.len() - p, d1.nodes.len() - next, stack.len(),
{
    if 0 <= next < d1.nodes.len() && d1.nodes[next].start == p && d1.nodes[next].parent
        == stack_top(stack) {
        assert(open_tag(d1.nodes[next]) == open_tag(d2.nodes[next]));
        lemma_encode_congruent(d1, d2, p, next + 1, stack.push(next as usize));
    } else if stack.len() > 0 && stack.last() < d1.nodes.len() && node_end(
        d1.nodes[stack.last() as int],
    ) == p {
        assert(close_tag(d1.nodes[stack.last() as int]) == close_tag(
            d2.nodes[stack.last() as int],
        ));
        lemma_encode_congruent(d1, d2, p, next, stack.drop_last());
    } else if 0 <= p < d1.plain.len() {
        lemma_encode_congruent(d1, d2, p + 1, next, stack);
    }
}

/// The round trip at the public entry point: building a document from tagged
/// text, encoding it and building again reproduces the plain text, the
/// ownership map and every node's shape.
pub proof fn lemma_document_round_trip(s: Seq<char>, d: DocModel)
    requires
        s.len() <= usize::MAX,
        crate::resolve::from_markup_spec(s) == Ok::<DocModel, AnsiError>(d),
    ensures
        match crate::resolve::from_markup_spec(encode_spec(d)) {
            Ok(d2) => {
                &&& d2.plain == d.plain
                &&& d2.map == d.map
                &&& d2.nodes.len() == d.nodes.len()
                &&& forall|j: int|
                    0 <= j < d.nodes.len() ==> same_shape(#[trigger] d2.nodes[j], d.nodes[j])
            },
            Err(_) => false,
        },
{
    let m = match parse_markup_spec(s) {
        Ok(m) => m,
        Err(_) => d,
    };
    lemma_resolve_nodes_inv(m.nodes);
    assert(d.plain == m.plain && d.map == m.map && d.nodes.len() == m.nodes.len());
    assert forall|j: int| 0 <= j < d.nodes.len() implies same_shape(
        #[trigger] d.nodes[j],
        m.nodes[j],
    ) by {
        lemma_resolve_node_shape(m.nodes[j], d.nodes[j]);
    }
    lemma_encode_congruent(d, m, 0, 0, Seq::empty());
    assert(encode_spec(d) == encode_spec(m));
    lemma_parse_encode_parse(s, m);
    let m2 = match parse_markup_spec(encode_spec(m)) {
        Ok(m2) => m2,
        Err(_) => m,
    };
    assert forall|j: int| 0 <= j < m2.nodes.len() implies resolve_node(
        #[trigger] m2.nodes[j],
    ) is Ok by {
        assert(same_shape(m2.nodes[j], m.nodes[j]));
        assert(resolve_node(m.nodes[j]) is Ok);
        lemma_resolve_node_congruent(m.nodes[j], m2.nodes[j]);
    }
    lemma_resolve_nodes_inv(m2.nodes);
    match resolve_nodes(m2.nodes) {
        Ok(rs2) => {
            assert forall|j: int| 0 <= j < d.nodes.len() implies same_shape(
                #[trigger] rs2[j],
                d.nodes[j],
            ) by {
                lemma_resolve_node_shape(m2.nodes[j], rs2[j]);
            }
        },
        Err(_) => {
            lemma_resolve_nodes_some_err(m2.nodes);
        },
    }
}

/// A failing arena resolution pins a failing node.
proof fn lemma_resolve_nodes_some_err(ns: Seq<NodeModel>)
    requires
        resolve_nodes(ns) is Err,
    ensures
        exists|j: int| 0 <= j < ns.len() && resolve_node(#[trigger] ns[j]) is Err,
    decreases ns.len(),
{
    if ns.len() > 0 {
        if resolve_node(ns[0]) is Err {
        } else {
            lemma_resolve_nodes_some_err(ns.drop_first());
            let j = choose|j: int|
                0 <= j < ns.drop_first().len() && resolve_node(
                    #[trigger] ns.drop_first()[j],
                ) is Err;
            assert(ns.drop_first()[j] == ns[j + 1]);
            assert(resolve_node(ns[j + 1]) is Err);
        }
    }
}

} // verus!
