//! Grammar-level laws of the parser: how the input scanner treats balanced
//! bodies, where each syntax error is reported, and that a rendered program
//! parses back to the same names and input bodies.

use vstd::prelude::*;

verus! {

use crate::parser::{
    input_scan, inputs_scan, is_space, is_terminator, name_end, spec_command_name, spec_input,
    spec_line, spec_program, spec_skip_ws, trim_end, lemma_skip_ws_bounds, ErrorV,
    InputSpecResult, SV,
};

/// The parenthesis-nesting effect of scanning `w` at relative depth `d`: the
/// resulting depth, or `None` when an escape is incomplete or a closing
/// parenthesis dips below the starting level (which would end the enclosing
/// input early).
pub open spec fn scan_depth(w: Seq<char>, d: int) -> Option<int>
    decreases w.len(),
{
    if w.len() == 0 {
        Some(d)
    } else if w[0] == '\\' {
        if w.len() >= 2 {
            scan_depth(w.skip(2), d)
        } else {
            None
        }
    } else if w[0] == '(' {
        scan_depth(w.skip(1), d + 1)
    } else if w[0] == ')' {
        if d >= 1 {
            scan_depth(w.skip(1), d - 1)
        } else {
            None
        }
    } else {
        scan_depth(w.skip(1), d)
    }
}

/// A well-formed input body: every escape is complete and the parentheses
/// are balanced, no closing parenthesis matching the input's own closer.
pub open spec fn wf_body(w: Seq<char>) -> bool {
    scan_depth(w, 0) == Some(0int)
}

proof fn lemma_scan_depth_nonneg(w: Seq<char>, d: int)
    requires
        d >= 0,
    ensures
        scan_depth(w, d) matches Some(e) ==> e >= 0,
    decreases w.len(),
{
    if w.len() > 0 {
        if w[0] == '\\' {
            if w.len() >= 2 {
                lemma_scan_depth_nonneg(w.skip(2), d);
            }
        } else if w[0] == '(' {
            lemma_scan_depth_nonneg(w.skip(1), d + 1);
        } else if w[0] == ')' {
            if d >= 1 {
                lemma_scan_depth_nonneg(w.skip(1), d - 1);
            }
        } else {
            lemma_scan_depth_nonneg(w.skip(1), d);
        }
    }
}

/// Scanning across a clean stretch `w` of the source neither fails nor
/// closes the input: it contributes `w` verbatim to the body and carries the
/// scan to the far end of `w` at the adjusted depth.
proof fn lemma_input_scan_through(
    src: Seq<char>,
    i: int,
    rel: int,
    open_pos: int,
    w: Seq<char>,
    e: int,
)
    requires
        0 <= i,
        i + w.len() <= src.len(),
        src.subrange(i, i + w.len()) == w,
        rel >= 0,
        scan_depth(w, rel) == Some(e),
    ensures
        input_scan(src, i, rel + 1, open_pos) == (match input_scan(
            src,
            i + w.len(),
            e + 1,
            open_pos,
        ) {
            Ok(p) => Ok::<(Seq<char>, int), ErrorV>((w + p.0, p.1)),
            Err(er) => Err::<(Seq<char>, int), ErrorV>(er),
        }),
    decreases w.len(),
{
    lemma_scan_depth_nonneg(w, rel);
    if w.len() == 0 {
        match input_scan(src, i, rel + 1, open_pos) {
            Ok(p) => {
                assert(w + p.0 =~= p.0);
            },
            Err(_) => {},
        }
    } else {
        assert(src[i] == w[0]);
        if w[0] == '\\' {
            assert(w.len() >= 2);
            assert(src[i + 1] == w[1]);
            assert(src.subrange(i + 2, i + w.len()) =~= w.skip(2));
            lemma_input_scan_through(src, i + 2, rel, open_pos, w.skip(2), e);
            assert(i + 1 < src.len());
            match input_scan(src, i + w.len(), e + 1, open_pos) {
                Ok(p) => {
                    assert(seq!['\\', src[i + 1]] + (w.skip(2) + p.0) =~= w + p.0);
                },
                Err(_) => {},
            }
        } else if w[0] == '(' {
            assert(src.subrange(i + 1, i + w.len()) =~= w.skip(1));
            lemma_input_scan_through(src, i + 1, rel + 1, open_pos, w.skip(1), e);
            match input_scan(src, i + w.len(), e + 1, open_pos) {
                Ok(p) => {
                    assert(seq!['('] + (w.skip(1) + p.0) =~= w + p.0);
                },
                Err(_) => {},
            }
        } else if w[0] == ')' {
            assert(src.subrange(i + 1, i + w.len()) =~= w.skip(1));
            lemma_input_scan_through(src, i + 1, rel - 1, open_pos, w.skip(1), e);
            match input_scan(src, i + w.len(), e + 1, open_pos) {
                Ok(p) => {
                    assert(seq![')'] + (w.skip(1) + p.0) =~= w + p.0);
                },
                Err(_) => {},
            }
        } else {
            assert(src.subrange(i + 1, i + w.len()) =~= w.skip(1));
            lemma_input_scan_through(src, i + 1, rel, open_pos, w.skip(1), e);
            match input_scan(src, i + w.len(), e + 1, open_pos) {
                Ok(p) => {
                    assert(seq![src[i]] + (w.skip(1) + p.0) =~= w + p.0);
                },
                Err(_) => {},
            }
        }
    }
}

/// For a well-formed body — in particular one whose unescaped opening
/// parentheses all come before the matching closing ones — the input scan
/// consumes exactly through the matching closing parenthesis and reports the
/// text in between, parentheses included, verbatim.
pub proof fn lemma_parse_input_balanced(src: Seq<char>, i: int, w: Seq<char>)
    requires
        0 <= i < src.len(),
        src[i] == '(',
        i + 1 + w.len() < src.len(),
        src.subrange(i + 1, i + 1 + w.len()) == w,
        src[i + 1 + w.len()] == ')',
        wf_body(w),
    ensures
        spec_input(src, i) == (InputSpecResult::Done { content: w, end: i + w.len() + 2 }),
{
    lemma_input_scan_through(src, i + 1, 0, i, w, 0);
    assert(input_scan(src, i + 1 + w.len(), 1, i) == Ok::<(Seq<char>, int), ErrorV>(
        (Seq::empty(), i + w.len() + 2),
    ));
    assert(w + Seq::<char>::empty() =~= w);
}

/// A trailing lone backslash at the end of the source always yields
/// `NothingAfterEscapeCharacter` at the backslash's own position, never
/// `MissingClosingParen`.
pub proof fn lemma_parse_input_trailing_escape(src: Seq<char>, i: int, w: Seq<char>, e: int)
    requires
        0 <= i < src.len(),
        src[i] == '(',
        i + 1 + w.len() == src.len() - 1,
        src.subrange(i + 1, i + 1 + w.len()) == w,
        src[src.len() - 1] == '\\',
        scan_depth(w, 0) == Some(e),
    ensures
        spec_input(src, i) == InputSpecResult::Fail(
            ErrorV::NothingAfterEscapeCharacter {
                esc_char_pos: SV { src, index: src.len() - 1 },
            },
        ),
{
    lemma_input_scan_through(src, i + 1, 0, i, w, e);
    lemma_scan_depth_nonneg(w, 0);
}

/// An input that runs off the end of the source without closing always
/// reports `MissingClosingParen` at the position of the opening parenthesis,
/// not at the end of the input.
pub proof fn lemma_parse_input_unclosed(src: Seq<char>, i: int, w: Seq<char>, e: int)
    requires
        0 <= i < src.len(),
        src[i] == '(',
        i + 1 + w.len() == src.len(),
        src.subrange(i + 1, src.len() as int) == w,
        scan_depth(w, 0) == Some(e),
    ensures
        spec_input(src, i) == InputSpecResult::Fail(
            ErrorV::MissingClosingParen { opening_paren_pos: SV { src, index: i } },
        ),
{
    lemma_input_scan_through(src, i + 1, 0, i, w, e);
    lemma_scan_depth_nonneg(w, 0);
}

/// The rendered message of a runtime error contains the error's reason
/// verbatim — for an unknown name, the text `Unknown name`; for an
/// invocation of a non-command, the text `Calling a non-command` — beside
/// the 1-based row and column of the error's own cursor.
pub proof fn lemma_error_message_contains_reason(e: crate::interpreter::ErrorV)
    ensures
        exists|k: int|
            0 <= k && k + e.reason().len() <= crate::interpreter::error_message(e).len()
                && #[trigger] crate::interpreter::error_message(e).subrange(
                k,
                k + e.reason().len(),
            ) == e.reason(),
{
    let sv = e.pos();
    let col = crate::parser::spec_col(sv.src, sv.index);
    let head = "Execution error at row "@ + crate::interpreter::dec_rep(
        crate::parser::spec_row(sv.src, sv.index),
    ) + ", column "@ + crate::interpreter::dec_rep(col) + ": "@;
    let k = head.len() as int;
    let m = crate::interpreter::error_message(e);
    assert(m.subrange(k, k + e.reason().len()) =~= e.reason());
}

/// A command name as written: non-empty, free of the terminator characters,
/// and neither starting nor ending in whitespace (leading whitespace would be
/// skipped away, trailing whitespace trimmed away).
pub open spec fn wf_name(n: Seq<char>) -> bool {
    n.len() > 0 && !is_space(n[0]) && !is_space(n[n.len() - 1]) && (forall|j: int|
        0 <= j < n.len() ==> !is_terminator(#[trigger] n[j]))
}

/// A line as a tree, positions forgotten: a command name and its input
/// bodies.
pub ghost struct AbsLine {
    pub name: Seq<char>,
    pub inputs: Seq<Seq<char>>,
}

pub open spec fn wf_abs_line(l: AbsLine) -> bool {
    wf_name(l.name) && (forall|u: int| 0 <= u < l.inputs.len() ==> wf_body(#[trigger] l.inputs[u]))
}

/// An input body as written: wrapped in parentheses.
pub open spec fn render_input(w: Seq<char>) -> Seq<char> {
    seq!['('] + w + seq![')']
}

pub open spec fn render_inputs(ws: Seq<Seq<char>>) -> Seq<char>
    decreases ws.len(),
{
    if ws.len() == 0 {
        Seq::empty()
    } else {
        render_input(ws[0]) + render_inputs(ws.drop_first())
    }
}

/// A line as written: the name directly followed by its inputs.
pub open spec fn render_line(l: AbsLine) -> Seq<char> {
    l.name + render_inputs(l.inputs)
}

/// A program as written: its lines separated by newlines.
pub open spec fn render_program(p: Seq<AbsLine>) -> Seq<char>
    decreases p.len(),
{
    if p.len() == 0 {
        Seq::empty()
    } else if p.len() == 1 {
        render_line(p[0])
    } else {
        render_line(p[0]) + seq!['\n'] + render_program(p.drop_first())
    }
}

proof fn lemma_name_end_at(src: Seq<char>, i: int, end: int)
    requires
        0 <= i <= end <= src.len(),
        forall|j: int| i <= j < end ==> !is_terminator(#[trigger] src[j]),
        end == src.len() || is_terminator(src[end]),
    ensures
        name_end(src, i) == end,
    decreases end - i,
{
    if i < end {
        lemma_name_end_at(src, i + 1, end);
    }
}

proof fn lemma_command_name_complete(src: Seq<char>, i: int, n: Seq<char>)
    requires
        0 <= i,
        i + n.len() <= src.len(),
        src.subrange(i, i + n.len()) == n,
        wf_name(n),
        i + n.len() == src.len() || is_terminator(src[i + n.len()]),
    ensures
        spec_command_name(src, i) == Some((n, i + n.len())),
{
    assert forall|j: int| i <= j < i + n.len() implies !is_terminator(#[trigger] src[j]) by {
        assert(src[j] == n[j - i]);
    }
    lemma_name_end_at(src, i, i + n.len());
    assert(src.subrange(i, i + n.len()) == n);
    assert(!is_space(n[n.len() - 1]));
    assert(trim_end(n) == n);
}

proof fn lemma_inputs_scan_complete(src: Seq<char>, i: int, ws: Seq<Seq<char>>)
    requires
        0 <= i,
        i + render_inputs(ws).len() <= src.len(),
        src.subrange(i, i + render_inputs(ws).len()) == render_inputs(ws),
        forall|u: int| 0 <= u < ws.len() ==> wf_body(#[trigger] ws[u]),
        ({
            let stop = spec_skip_ws(src, i + render_inputs(ws).len());
            stop == src.len() || src[stop] != '('
        }),
    ensures
        inputs_scan(src, i) matches Ok(p) && p.0.len() == ws.len() && (forall|u: int|
            0 <= u < ws.len() ==> (#[trigger] p.0[u]).content == ws[u]) && p.1 == spec_skip_ws(
            src,
            i + render_inputs(ws).len(),
        ),
    decreases ws.len(),
{
    lemma_skip_ws_bounds(src, i + render_inputs(ws).len());
    if ws.len() == 0 {
        let stop = spec_skip_ws(src, i);
        assert(stop == src.len() || src[stop] != '(');
    } else {
        let w0 = ws[0];
        let rest = ws.drop_first();
        let rl = 2 + w0.len();
        assert(render_inputs(ws) == render_input(w0) + render_inputs(rest));
        assert(render_inputs(ws).len() == rl + render_inputs(rest).len());
        assert(src[i] == render_inputs(ws)[0]);
        assert(render_inputs(ws)[0] == '(');
        assert forall|j: int| 0 <= j < w0.len() implies src[i + 1 + j] == w0[j] by {
            assert(render_inputs(ws)[1 + j] == w0[j]);
            assert(src[i + 1 + j] == render_inputs(ws)[1 + j]);
        }
        assert(src.subrange(i + 1, i + 1 + w0.len()) =~= w0);
        assert(src[i + 1 + w0.len()] == render_inputs(ws)[1 + w0.len() as int]);
        assert(render_inputs(ws)[1 + w0.len() as int] == ')');
        assert(i + 1 + w0.len() < src.len());
        lemma_parse_input_balanced(src, i, w0);
        assert forall|j: int| 0 <= j < render_inputs(rest).len() implies src[i + rl + j]
            == render_inputs(rest)[j] by {
            assert(render_inputs(ws)[rl + j] == render_inputs(rest)[j]);
            assert(src.subrange(i, i + render_inputs(ws).len() as int)[rl + j] == render_inputs(
                ws,
            )[rl + j]);
        }
        assert(src.subrange(i + rl, i + rl + render_inputs(rest).len()) =~= render_inputs(rest));
        lemma_inputs_scan_complete(src, i + rl, rest);
        assert(spec_skip_ws(src, i) == i);
        let p_rest = inputs_scan(src, i + rl)->Ok_0;
        let cons = seq![crate::parser::InputV { pos: SV { src, index: i }, content: w0 }];
        assert(inputs_scan(src, i) == Ok::<(Seq<crate::parser::InputV>, int), ErrorV>(
            (cons + p_rest.0, p_rest.1),
        ));
        assert forall|u: int| 0 <= u < ws.len() implies ((cons + p_rest.0)[u]).content == ws[u] by {
            if u > 0 {
                assert(p_rest.0[u - 1].content == rest[u - 1]);
                assert(rest[u - 1] == ws[u]);
            }
        }
    }
}

proof fn lemma_line_complete(src: Seq<char>, i: int, l: AbsLine)
    requires
        0 <= i,
        i + render_line(l).len() <= src.len(),
        src.subrange(i, i + render_line(l).len()) == render_line(l),
        wf_abs_line(l),
        i + render_line(l).len() == src.len() || is_terminator(src[i + render_line(l).len()])
            || l.inputs.len() > 0,
        ({
            let stop = spec_skip_ws(src, i + render_line(l).len());
            stop == src.len() || src[stop] != '('
        }),
    ensures
        spec_line(src, i) matches Ok(p) && p.0.name.content == l.name && p.0.name.pos == (SV {
            src,
            index: i,
        }) && p.0.inputs.len() == l.inputs.len() && (forall|u: int|
            0 <= u < l.inputs.len() ==> (#[trigger] p.0.inputs[u]).content == l.inputs[u]) && p.1
            == spec_skip_ws(src, i + render_line(l).len()),
{
    let nl = l.name.len() as int;
    let rl = render_line(l).len() as int;
    assert forall|j: int| 0 <= j < nl implies src[i + j] == l.name[j] by {
        assert(render_line(l)[j] == l.name[j]);
        assert(src[i + j] == render_line(l)[j]);
    }
    assert(src.subrange(i, i + nl) =~= l.name);
    if l.inputs.len() > 0 {
        assert(render_inputs(l.inputs) == render_input(l.inputs[0]) + render_inputs(
            l.inputs.drop_first(),
        ));
        assert(render_line(l)[nl] == render_inputs(l.inputs)[0]);
        assert(render_inputs(l.inputs)[0] == '(');
        assert(src[i + nl] == '(');
    }
    lemma_command_name_complete(src, i, l.name);
    assert forall|j: int| 0 <= j < render_inputs(l.inputs).len() implies src[i + nl + j]
        == render_inputs(l.inputs)[j] by {
        assert(render_line(l)[nl + j] == render_inputs(l.inputs)[j]);
        assert(src[i + nl + j] == render_line(l)[nl + j]);
    }
    assert(src.subrange(i + nl, i + rl) =~= render_inputs(l.inputs));
    lemma_inputs_scan_complete(src, i + nl, l.inputs);
}

proof fn lemma_program_complete(src: Seq<char>, i: int, p: Seq<AbsLine>)
    requires
        0 <= i <= src.len(),
        src.len() == i + render_program(p).len(),
        src.subrange(i, src.len() as int) == render_program(p),
        forall|t: int| 0 <= t < p.len() ==> wf_abs_line(#[trigger] p[t]),
    ensures
        spec_program(src, i) matches Ok(ls) && ls.len() == p.len() && (forall|t: int|
            0 <= t < p.len() ==> (#[trigger] ls[t]).name.content == p[t].name
                && ls[t].inputs.len() == p[t].inputs.len() && (forall|u: int|
                0 <= u < p[t].inputs.len() ==> ls[t].inputs[u].content == p[t].inputs[u])),
    decreases p.len(),
{
    if p.len() == 0 {
        assert(i == src.len());
        assert(spec_skip_ws(src, i) == i);
    } else {
        let l0 = p[0];
        let rest = p.drop_first();
        let rl0 = render_line(l0).len() as int;
        assert(wf_abs_line(l0));
        assert(l0.name.len() > 0);
        assert forall|j: int| 0 <= j < rl0 implies src[i + j] == render_line(l0)[j] by {
            assert(render_program(p)[j] == render_line(l0)[j]);
            assert(src[i + j] == render_program(p)[j]);
        }
        assert(src.subrange(i, i + rl0) =~= render_line(l0));
        assert(src[i] == render_line(l0)[0]);
        assert(render_line(l0)[0] == l0.name[0]);
        assert(!is_space(src[i]));
        assert(spec_skip_ws(src, i) == i);
        if p.len() == 1 {
            assert(i + rl0 == src.len());
            lemma_line_complete(src, i, l0);
            let j = spec_line(src, i)->Ok_0.1;
            lemma_skip_ws_bounds(src, i + rl0);
            assert(j == spec_skip_ws(src, src.len() as int));
            assert(j == src.len());
            assert(src.subrange(j, src.len() as int) =~= render_program(rest));
            lemma_program_complete(src, j, rest);
            let ls = spec_program(src, i)->Ok_0;
            assert(ls =~= seq![spec_line(src, i)->Ok_0.0] + spec_program(src, j)->Ok_0);
        } else {
            assert(render_program(p) == render_line(l0) + seq!['\n'] + render_program(rest));
            assert(src[i + rl0] == render_program(p)[rl0]);
            assert(render_program(p)[rl0] == '\n');
            assert(rest.len() > 0);
            assert(render_program(rest)[0] == render_line(rest[0])[0]);
            assert(render_line(rest[0])[0] == rest[0].name[0]);
            assert(src[i + rl0 + 1] == render_program(p)[rl0 + 1]);
            assert(render_program(p)[rl0 + 1] == render_program(rest)[0]);
            assert(!is_space(src[i + rl0 + 1]));
            assert(!is_terminator(src[i + rl0 + 1]));
            assert(spec_skip_ws(src, i + rl0 + 1) == i + rl0 + 1);
            assert(spec_skip_ws(src, i + rl0) == i + rl0 + 1);
            lemma_line_complete(src, i, l0);
            let j = spec_line(src, i)->Ok_0.1;
            assert(j == i + rl0 + 1);
            assert forall|j2: int| 0 <= j2 < render_program(rest).len() implies src[i + rl0 + 1
                + j2] == render_program(rest)[j2] by {
                assert(render_program(p)[rl0 + 1 + j2] == render_program(rest)[j2]);
                assert(src[i + rl0 + 1 + j2] == render_program(p)[rl0 + 1 + j2]);
            }
            assert(src.subrange(j, src.len() as int) =~= render_program(rest));
            lemma_program_complete(src, j, rest);
            let ls = spec_program(src, i)->Ok_0;
            assert(ls =~= seq![spec_line(src, i)->Ok_0.0] + spec_program(src, j)->Ok_0);
        }
        let ls = spec_program(src, i)->Ok_0;
        let ls_rest = spec_program(src, spec_line(src, i)->Ok_0.1)->Ok_0;
        assert forall|t: int| 0 <= t < p.len() implies (#[trigger] ls[t]).name.content == p[t].name
            && ls[t].inputs.len() == p[t].inputs.len() && (forall|u: int|
            0 <= u < p[t].inputs.len() ==> ls[t].inputs[u].content == p[t].inputs[u]) by {
            if t == 0 {
                assert(ls[0] == spec_line(src, i)->Ok_0.0);
            } else {
                assert(ls[t] == ls_rest[t - 1]);
                assert(rest[t - 1] == p[t]);
            }
        }
    }
}

/// Round trip: parsing the rendering of any valid program — every name
/// well-formed, every input body with balanced, unescaped parentheses —
/// recovers its command names and input bodies verbatim.
pub proof fn lemma_parse_render_round_trip(p: Seq<AbsLine>)
    requires
        forall|t: int| 0 <= t < p.len() ==> wf_abs_line(#[trigger] p[t]),
    ensures
        spec_program(render_program(p), 0) matches Ok(ls) && ls.len() == p.len() && (forall|t: int|
            0 <= t < p.len() ==> (#[trigger] ls[t]).name.content == p[t].name
                && ls[t].inputs.len() == p[t].inputs.len() && (forall|u: int|
                0 <= u < p[t].inputs.len() ==> ls[t].inputs[u].content == p[t].inputs[u])),
{
    let src = render_program(p);
    assert(src.subrange(0, src.len() as int) =~= src);
    lemma_program_complete(src, 0, p);
}


proof fn lemma_trim_end_prefix(s: Seq<char>)
    ensures
        trim_end(s).len() <= s.len(),
        trim_end(s) == s.take(trim_end(s).len() as int),
    decreases s.len(),
{
    if s.len() > 0 && is_space(s[s.len() - 1]) {
        lemma_trim_end_prefix(s.drop_last());
        assert(s.drop_last().take(trim_end(s).len() as int) =~= s.take(
            trim_end(s).len() as int,
        ));
    } else {
        assert(s.take(s.len() as int) =~= s);
    }
}

proof fn lemma_trim_end_last(s: Seq<char>)
    ensures
        trim_end(s).len() > 0 ==> !is_space(trim_end(s)[trim_end(s).len() - 1]),
    decreases s.len(),
{
    if s.len() > 0 && is_space(s[s.len() - 1]) {
        lemma_trim_end_last(s.drop_last());
    }
}

/// Every body the input scan hands back is itself well formed: escapes
/// complete and parentheses exactly as deep as the scan's own depth says.
proof fn lemma_input_scan_body_wf(src: Seq<char>, i: int, depth: int, open_pos: int)
    requires
        0 <= i <= src.len(),
        depth >= 1,
    ensures
        input_scan(src, i, depth, open_pos) matches Ok(p) ==> scan_depth(p.0, depth - 1)
            == Some(0int),
    decreases src.len() - i,
{
    if i < src.len() {
        if src[i] == '(' {
            lemma_input_scan_body_wf(src, i + 1, depth + 1, open_pos);
            if let Ok(p) = input_scan(src, i + 1, depth + 1, open_pos) {
                assert((seq!['('] + p.0).skip(1) =~= p.0);
            }
        } else if src[i] == ')' {
            if depth != 1 {
                lemma_input_scan_body_wf(src, i + 1, depth - 1, open_pos);
                if let Ok(p) = input_scan(src, i + 1, depth - 1, open_pos) {
                    assert((seq![')'] + p.0).skip(1) =~= p.0);
                }
            }
        } else if src[i] == '\\' {
            if i + 1 < src.len() {
                lemma_input_scan_body_wf(src, i + 2, depth, open_pos);
                if let Ok(p) = input_scan(src, i + 2, depth, open_pos) {
                    assert((seq!['\\', src[i + 1]] + p.0).skip(2) =~= p.0);
                }
            }
        } else {
            lemma_input_scan_body_wf(src, i + 1, depth, open_pos);
            if let Ok(p) = input_scan(src, i + 1, depth, open_pos) {
                assert((seq![src[i]] + p.0).skip(1) =~= p.0);
                assert((seq![src[i]] + p.0)[0] == src[i]);
            }
        }
    }
}

proof fn lemma_inputs_scan_outputs_wf(src: Seq<char>, i: int)
    requires
        0 <= i <= src.len(),
    ensures
        inputs_scan(src, i) matches Ok(p) ==> forall|u: int|
            0 <= u < p.0.len() ==> wf_body((#[trigger] p.0[u]).content),
    decreases src.len() - i,
{
    lemma_skip_ws_bounds(src, i);
    let k = spec_skip_ws(src, i);
    match spec_input(src, k) {
        InputSpecResult::NotInput => {},
        InputSpecResult::Fail(_) => {},
        InputSpecResult::Done { content, end } => {
            crate::parser::lemma_input_scan_shape(src, k + 1, 1, k);
            lemma_input_scan_body_wf(src, k + 1, 1, k);
            lemma_inputs_scan_outputs_wf(src, end);
        },
    }
}

proof fn lemma_spec_line_outputs_wf(src: Seq<char>, k: int)
    requires
        0 <= k <= src.len(),
        k < src.len() ==> !is_space(src[k]),
    ensures
        spec_line(src, k) matches Ok(p) ==> wf_name(p.0.name.content) && (forall|u: int|
            0 <= u < p.0.inputs.len() ==> wf_body((#[trigger] p.0.inputs[u]).content)),
{
    match spec_command_name(src, k) {
        None => {},
        Some(n) => {
            crate::parser::lemma_name_end_bounds(src, k);
            let end = name_end(src, k);
            let raw = src.subrange(k, end);
            lemma_trim_end_prefix(raw);
            lemma_trim_end_last(raw);
            let content = trim_end(raw);
            if content.len() > 0 {
                assert(content[0] == raw[0]);
                assert(raw[0] == src[k]);
                assert forall|j: int| 0 <= j < content.len() implies !is_terminator(
                    #[trigger] content[j],
                ) by {
                    assert(content[j] == raw[j]);
                    assert(raw[j] == src[k + j]);
                }
            }
            lemma_inputs_scan_outputs_wf(src, end);
        },
    }
}

/// Everything the parser hands back is itself a valid program in the
/// round-trip sense: every command name well formed, every input body with
/// complete escapes and balanced parentheses.
pub proof fn lemma_parse_outputs_wf(src: Seq<char>, i: int)
    requires
        0 <= i <= src.len(),
    ensures
        spec_program(src, i) matches Ok(ls) ==> forall|t: int|
            0 <= t < ls.len() ==> wf_name((#[trigger] ls[t]).name.content) && (forall|u: int|
                0 <= u < ls[t].inputs.len() ==> wf_body(ls[t].inputs[u].content)),
    decreases src.len() - i,
{
    let k = spec_skip_ws(src, i);
    lemma_skip_ws_bounds(src, i);
    lemma_spec_line_outputs_wf(src, k);
    crate::parser::lemma_spec_line_bounds(src, k);
    match spec_line(src, k) {
        Ok(p) => {
            lemma_parse_outputs_wf(src, p.1);
        },
        Err(so) => match so {
            Some(_) => {},
            None => {
                if k < src.len() && (src[k] == '\n' || src[k] == ';') {
                    lemma_parse_outputs_wf(src, k + 1);
                }
            },
        },
    }
}

/// A parsed line with the positions forgotten: just its name and input
/// bodies.
pub open spec fn strip_line(l: crate::parser::LineV) -> AbsLine {
    AbsLine { name: l.name.content, inputs: l.inputs.map(|u, iv: crate::parser::InputV| iv.content) }
}

pub open spec fn strip(ls: Seq<crate::parser::LineV>) -> Seq<AbsLine> {
    ls.map(|t, l: crate::parser::LineV| strip_line(l))
}

/// The other direction of the round trip: re-serializing what `program`
/// parsed — each line as its name followed by its inputs in parentheses,
/// lines separated by newlines — and parsing again reproduces every command
/// name and input body verbatim. With `lemma_parse_render_round_trip` this
/// says a parse loses nothing of the source but its insignificant
/// whitespace and separators.
pub proof fn lemma_reserialize_reparse(src: Seq<char>)
    requires
        spec_program(src, 0) is Ok,
    ensures
        ({
            let ls = spec_program(src, 0)->Ok_0;
            spec_program(render_program(strip(ls)), 0) matches Ok(ls2) && ls2.len() == ls.len()
                && (forall|t: int|
                0 <= t < ls.len() ==> (#[trigger] ls2[t]).name.content == ls[t].name.content
                    && ls2[t].inputs.len() == ls[t].inputs.len() && (forall|u: int|
                    0 <= u < ls[t].inputs.len() ==> ls2[t].inputs[u].content
                        == ls[t].inputs[u].content))
        }),
{
    let ls = spec_program(src, 0)->Ok_0;
    let p = strip(ls);
    lemma_parse_outputs_wf(src, 0);
    assert forall|t: int| 0 <= t < p.len() implies wf_abs_line(#[trigger] p[t]) by {
        assert(p[t] == strip_line(ls[t]));
        assert forall|u: int| 0 <= u < p[t].inputs.len() implies wf_body(
            #[trigger] p[t].inputs[u],
        ) by {
            assert(p[t].inputs[u] == ls[t].inputs[u].content);
        }
    }
    lemma_parse_render_round_trip(p);
    let ls2 = spec_program(render_program(p), 0)->Ok_0;
    assert forall|t: int| 0 <= t < ls.len() implies (#[trigger] ls2[t]).name.content
        == ls[t].name.content && ls2[t].inputs.len() == ls[t].inputs.len() && (forall|u: int|
        0 <= u < ls[t].inputs.len() ==> ls2[t].inputs[u].content == ls[t].inputs[u].content) by {
        assert(p[t] == strip_line(ls[t]));
        assert(ls2[t].name.content == p[t].name);
        assert forall|u: int| 0 <= u < ls[t].inputs.len() implies ls2[t].inputs[u].content
            == ls[t].inputs[u].content by {
            assert(ls2[t].inputs[u].content == p[t].inputs[u]);
            assert(p[t].inputs[u] == ls[t].inputs[u].content);
        }
    }
}

/// A program that reaches line `t` without invoking any command — every
/// earlier line has a bound name and no inputs — and finds line `t`'s name
/// unbound interprets to an error value rendered with `Unknown name` at that
/// identifier's first character, whatever commands the scope holds.
pub proof fn lemma_run_unknown_name<C>(
    lines: Seq<crate::parser::LineV>,
    scope: Map<Seq<char>, crate::objects::ObjectV<C>>,
    current: crate::objects::ObjectV<C>,
    t: int,
)
    requires
        0 <= t < lines.len(),
        forall|s: int|
            0 <= s < t ==> scope.contains_key((#[trigger] lines[s]).name.content)
                && lines[s].inputs.len() == 0,
        !scope.contains_key(lines[t].name.content),
    ensures
        crate::interpreter::run_no_calls(lines, scope, current) == Some(
            crate::objects::ObjectV::<C>::Error(
                crate::interpreter::error_message(
                    crate::interpreter::ErrorV::UnknownName { beginning_pos: lines[t].name.pos },
                ),
            ),
        ),
    decreases t,
{
    if t > 0 {
        let rest = lines.drop_first();
        assert forall|s: int| 0 <= s < t - 1 implies scope.contains_key(
            (#[trigger] rest[s]).name.content,
        ) && rest[s].inputs.len() == 0 by {
            assert(rest[s] == lines[s + 1]);
        }
        assert(rest[t - 1] == lines[t]);
        lemma_run_unknown_name(rest, scope, scope[lines[0].name.content], t - 1);
    }
}

/// A program that reaches line `t` without invoking any command — every
/// earlier line has a bound name and no inputs — whose line `t` resolves to
/// a non-command — `Nothing`, or an error value — and then applies an input
/// interprets to an error value rendered with `Calling a non-command` at the
/// first input's opening parenthesis.
pub proof fn lemma_run_non_command<C>(
    lines: Seq<crate::parser::LineV>,
    scope: Map<Seq<char>, crate::objects::ObjectV<C>>,
    current: crate::objects::ObjectV<C>,
    t: int,
)
    requires
        0 <= t < lines.len(),
        forall|s: int|
            0 <= s < t ==> scope.contains_key((#[trigger] lines[s]).name.content)
                && lines[s].inputs.len() == 0,
        scope.contains_key(lines[t].name.content),
        !(scope[lines[t].name.content] is Command),
        lines[t].inputs.len() > 0,
    ensures
        crate::interpreter::run_no_calls(lines, scope, current) == Some(
            crate::objects::ObjectV::<C>::Error(
                crate::interpreter::error_message(
                    crate::interpreter::ErrorV::CallingANonCommand {
                        opening_paren_pos: lines[t].inputs[0].pos,
                    },
                ),
            ),
        ),
    decreases t,
{
    if t > 0 {
        let rest = lines.drop_first();
        assert forall|s: int| 0 <= s < t - 1 implies scope.contains_key(
            (#[trigger] rest[s]).name.content,
        ) && rest[s].inputs.len() == 0 by {
            assert(rest[s] == lines[s + 1]);
        }
        assert(rest[t - 1] == lines[t]);
        lemma_run_non_command(rest, scope, scope[lines[0].name.content], t - 1);
    }
}

} // verus!
