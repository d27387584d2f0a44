//! Recursive-descent parser: raw source text to a positioned syntax tree.
//!
//! Parsing state is a cursor [`S`]: an immutable, cheaply copyable position
//! into a source buffer. Every parsing function is pure: it takes a cursor and
//! returns a new one, never mutating anything in place.

use vstd::prelude::*;

verus! {

use vstd::string::StrSliceExecFns;

/// Parser input: an immutable position into a source buffer. `index` counts
/// decoded characters from the start of `src`, so it always sits on a
/// boundary between characters.
#[derive(Clone, Copy, Debug)]
pub struct S<'a> {
    pub src: &'a str,
    pub index: usize,
}

/// The mathematical content of a cursor: the source as a character sequence
/// and the character offset into it.
pub ghost struct SV {
    pub src: Seq<char>,
    pub index: int,
}

impl SV {
    /// The offset lies within the source.
    pub open spec fn wf(self) -> bool {
        0 <= self.index <= self.src.len()
    }

    /// The cursor can be resolved to a diagnostic: besides lying within the
    /// source, the source is small enough that every 1-based row and column
    /// fits in a machine word.
    pub open spec fn renderable(self) -> bool {
        self.wf() && self.src.len() < usize::MAX
    }
}

impl<'a> View for S<'a> {
    type V = SV;

    open spec fn view(&self) -> SV {
        SV { src: self.src@, index: self.index as int }
    }
}

impl<'a> S<'a> {
    pub open spec fn wf(self) -> bool {
        self@.wf()
    }

    /// The character offset of this cursor, for position assertions.
    pub fn offset(&self) -> (r: usize)
        ensures
            r == self@.index,
    {
        self.index
    }
}

impl<'a> From<&'a str> for S<'a> {
    fn from(src: &'a str) -> (r: Self) {
        S { src, index: 0 }
    }
}

impl<'a> vstd::std_specs::convert::FromSpecImpl<&'a str> for S<'a> {
    open spec fn obeys_from_spec() -> bool {
        true
    }

    open spec fn from_spec(src: &'a str) -> Self {
        S { src, index: 0 }
    }
}

/// The Unicode `White_Space` property, the set of characters that
/// `char::is_whitespace` accepts.
pub open spec fn is_space(c: char) -> bool {
    let u = c as u32;
    u == 0x09 || u == 0x0A || u == 0x0B || u == 0x0C || u == 0x0D || u == 0x20 || u == 0x85
        || u == 0xA0 || u == 0x1680 || (0x2000 <= u && u <= 0x200A) || u == 0x2028 || u == 0x2029
        || u == 0x202F || u == 0x205F || u == 0x3000
}

/// Decides the Unicode `White_Space` property.
pub fn is_whitespace(c: char) -> (r: bool)
    ensures
        r == is_space(c),
{
    let u = c as u32;
    u == 0x09 || u == 0x0A || u == 0x0B || u == 0x0C || u == 0x0D || u == 0x20 || u == 0x85
        || u == 0xA0 || u == 0x1680 || (0x2000 <= u && u <= 0x200A) || u == 0x2028 || u == 0x2029
        || u == 0x202F || u == 0x205F || u == 0x3000
}

/// Decodes the character under the cursor, returning it with the advanced
/// cursor, or `None` cleanly at end of input.
pub fn next<'a>(s: S<'a>) -> (r: Option<(char, S<'a>)>)
    requires
        s.wf(),
    ensures
        match r {
            Some(p) => {
                &&& s@.index < s@.src.len()
                &&& p.0 == s@.src[s@.index]
                &&& p.1@.src == s@.src
                &&& p.1@.index == s@.index + 1
                &&& p.1.wf()
            },
            None => s@.index == s@.src.len(),
        },
{
    let n = s.src.unicode_len();
    if s.index < n {
        let c = s.src.get_char(s.index);
        Some((c, S { src: s.src, index: s.index + 1 }))
    } else {
        None
    }
}

/// The offset of the first non-whitespace character at or after `i`, or the
/// end of the source.
pub open spec fn spec_skip_ws(src: Seq<char>, i: int) -> int
    decreases src.len() - i,
{
    if 0 <= i < src.len() && is_space(src[i]) {
        spec_skip_ws(src, i + 1)
    } else {
        i
    }
}

pub proof fn lemma_skip_ws_bounds(src: Seq<char>, i: int)
    requires
        0 <= i <= src.len(),
    ensures
        i <= spec_skip_ws(src, i) <= src.len(),
        spec_skip_ws(src, i) < src.len() ==> !is_space(src[spec_skip_ws(src, i)]),
    decreases src.len() - i,
{
    if i < src.len() && is_space(src[i]) {
        lemma_skip_ws_bounds(src, i + 1);
    }
}

/// Advances past a run of whitespace characters, stopping at the first
/// non-whitespace character or the end of input.
pub fn skip_whitespace<'a>(s: S<'a>) -> (r: S<'a>)
    requires
        s.wf(),
    ensures
        r@.src == s@.src,
        r@.index == spec_skip_ws(s@.src, s@.index),
        r.wf(),
{
    let ghost orig = s@;
    let mut cur = s;
    loop
        invariant
            cur.wf(),
            cur@.src == orig.src,
            orig.index <= cur@.index,
            spec_skip_ws(orig.src, orig.index) == spec_skip_ws(cur@.src, cur@.index),
        ensures
            cur.wf(),
            cur@.src == orig.src,
            cur@.index == spec_skip_ws(orig.src, orig.index),
        decreases cur@.src.len() - cur@.index,
    {
        match next(cur) {
            Some(p) => {
                if !is_whitespace(p.0) {
                    break;
                }
                cur = p.1;
            },
            None => {
                break;
            },
        }
    }
    cur
}

/// The trimmed, escape-undisturbed token naming a lookup key, with the cursor
/// of its first character, kept only for error reporting.
#[derive(Debug)]
pub struct CommandName<'a> {
    pub beginning_pos: S<'a>,
    pub content: String,
}

pub ghost struct CommandNameV {
    pub pos: SV,
    pub content: Seq<char>,
}

impl<'a> View for CommandName<'a> {
    type V = CommandNameV;

    open spec fn view(&self) -> CommandNameV {
        CommandNameV { pos: self.beginning_pos@, content: self.content@ }
    }
}

/// The content between a matching `(`…`)` pair, with the cursor of the
/// opening parenthesis.
#[derive(Debug)]
pub struct Input<'a> {
    pub opening_paren_pos: S<'a>,
    pub content: String,
}

pub ghost struct InputV {
    pub pos: SV,
    pub content: Seq<char>,
}

impl<'a> View for Input<'a> {
    type V = InputV;

    open spec fn view(&self) -> InputV {
        InputV { pos: self.opening_paren_pos@, content: self.content@ }
    }
}

/// A syntax error, carrying the precise cursor of the fault.
#[derive(Debug)]
pub enum Error<'a> {
    MissingClosingParen { opening_paren_pos: S<'a> },
    InputWithoutCommandName { opening_paren_pos: S<'a> },
    UnexpectedClosingParen { closing_paren_pos: S<'a> },
    NothingAfterEscapeCharacter { esc_char_pos: S<'a> },
}

pub ghost enum ErrorV {
    MissingClosingParen { opening_paren_pos: SV },
    InputWithoutCommandName { opening_paren_pos: SV },
    UnexpectedClosingParen { closing_paren_pos: SV },
    NothingAfterEscapeCharacter { esc_char_pos: SV },
}

impl ErrorV {
    /// The cursor the error is reported at.
    pub open spec fn pos(self) -> SV {
        match self {
            ErrorV::MissingClosingParen { opening_paren_pos } => opening_paren_pos,
            ErrorV::InputWithoutCommandName { opening_paren_pos } => opening_paren_pos,
            ErrorV::UnexpectedClosingParen { closing_paren_pos } => closing_paren_pos,
            ErrorV::NothingAfterEscapeCharacter { esc_char_pos } => esc_char_pos,
        }
    }

    pub open spec fn wf(self) -> bool {
        self.pos().wf()
    }
}

impl<'a> View for Error<'a> {
    type V = ErrorV;

    open spec fn view(&self) -> ErrorV {
        match self {
            Error::MissingClosingParen { opening_paren_pos } => ErrorV::MissingClosingParen {
                opening_paren_pos: opening_paren_pos@,
            },
            Error::InputWithoutCommandName { opening_paren_pos } => ErrorV::InputWithoutCommandName {
                opening_paren_pos: opening_paren_pos@,
            },
            Error::UnexpectedClosingParen { closing_paren_pos } => ErrorV::UnexpectedClosingParen {
                closing_paren_pos: closing_paren_pos@,
            },
            Error::NothingAfterEscapeCharacter { esc_char_pos } => ErrorV::NothingAfterEscapeCharacter {
                esc_char_pos: esc_char_pos@,
            },
        }
    }
}

/// A character that ends the scan of a command name.
pub open spec fn is_terminator(c: char) -> bool {
    c == '(' || c == ')' || c == '\n' || c == ';'
}

/// The offset of the first terminator character at or after `i`, or the end
/// of the source.
pub open spec fn name_end(src: Seq<char>, i: int) -> int
    decreases src.len() - i,
{
    if 0 <= i < src.len() && !is_terminator(src[i]) {
        name_end(src, i + 1)
    } else {
        i
    }
}

pub proof fn lemma_name_end_bounds(src: Seq<char>, i: int)
    requires
        0 <= i <= src.len(),
    ensures
        i <= name_end(src, i) <= src.len(),
        forall|j: int| i <= j < name_end(src, i) ==> !is_terminator(src[j]),
        name_end(src, i) < src.len() ==> is_terminator(src[name_end(src, i)]),
    decreases src.len() - i,
{
    if i < src.len() && !is_terminator(src[i]) {
        lemma_name_end_bounds(src, i + 1);
    }
}

/// `s` with its trailing whitespace removed.
pub open spec fn trim_end(s: Seq<char>) -> Seq<char>
    decreases s.len(),
{
    if s.len() > 0 && is_space(s[s.len() - 1]) {
        trim_end(s.drop_last())
    } else {
        s
    }
}

proof fn lemma_trim_end_subrange(src: Seq<char>, i: int, k: int, end: int)
    requires
        0 <= i <= k <= end <= src.len(),
        forall|j: int| k <= j < end ==> is_space(src[j]),
        k == i || !is_space(src[k - 1]),
    ensures
        trim_end(src.subrange(i, end)) == src.subrange(i, k),
    decreases end - k,
{
    if k == end {
        let w = src.subrange(i, end);
        if w.len() > 0 {
            assert(w[w.len() - 1] == src[end - 1]);
        }
    } else {
        let w = src.subrange(i, end);
        assert(w[w.len() - 1] == src[end - 1]);
        assert(is_space(src[end - 1]));
        assert(w.drop_last() =~= src.subrange(i, end - 1));
        lemma_trim_end_subrange(src, i, k, end - 1);
    }
}

/// What `command_name` returns: the trimmed token and the offset of the
/// terminator that ended the scan, or `None` when the token is empty.
pub open spec fn spec_command_name(src: Seq<char>, i: int) -> Option<(Seq<char>, int)> {
    let end = name_end(src, i);
    let content = trim_end(src.subrange(i, end));
    if content.len() == 0 {
        None
    } else {
        Some((content, end))
    }
}

/// Scans characters until a terminator (`(`, `)`, newline or `;`) or end of
/// input, and trims trailing whitespace from the accumulated text. Returns
/// `None` if the trimmed text is empty: no command name present here, which
/// the caller decides about.
pub fn command_name<'a>(s: S<'a>) -> (r: Option<(CommandName<'a>, S<'a>)>)
    requires
        s.wf(),
    ensures
        match r {
            Some(p) => spec_command_name(s@.src, s@.index) matches Some(sp) && p.0@.content == sp.0
                && p.0@.pos == s@ && p.1@.src == s@.src && p.1@.index == sp.1 && p.1.wf(),
            None => spec_command_name(s@.src, s@.index) is None,
        },
{
    let mut cur = s;
    loop
        invariant
            cur.wf(),
            cur@.src == s@.src,
            s@.index <= cur@.index,
            name_end(s@.src, s@.index) == name_end(s@.src, cur@.index),
        ensures
            cur.wf(),
            cur@.src == s@.src,
            cur@.index == name_end(s@.src, s@.index),
        decreases cur@.src.len() - cur@.index,
    {
        match next(cur) {
            Some(p) => {
                if p.0 == '(' || p.0 == ')' || p.0 == '\n' || p.0 == ';' {
                    break;
                }
                cur = p.1;
            },
            None => {
                break;
            },
        }
    }
    let end = cur.index;
    let mut k = end;
    loop
        invariant
            s@.index <= k <= end,
            end <= s@.src.len(),
            forall|j: int| k <= j < end ==> is_space(s@.src[j]),
        ensures
            s@.index <= k <= end,
            forall|j: int| k <= j < end ==> is_space(s@.src[j]),
            k == s@.index || !is_space(s@.src[k - 1]),
        decreases k,
    {
        if k == s.index {
            break;
        }
        let c = s.src.get_char(k - 1);
        if !is_whitespace(c) {
            break;
        }
        k = k - 1;
    }
    proof {
        lemma_trim_end_subrange(s@.src, s@.index, k as int, end as int);
    }
    if k == s.index {
        None
    } else {
        let content = s.src.substring_char(s.index, k).to_owned();
        Some((CommandName { beginning_pos: s, content }, cur))
    }
}

/// What the scan inside an input returns when started at `i` with `depth`
/// parentheses open: the text up to the matching closing parenthesis and the
/// offset just past it, or the syntax error. `open_pos` is the offset of the
/// opening parenthesis, reported when the input never closes.
pub open spec fn input_scan(src: Seq<char>, i: int, depth: int, open_pos: int) -> Result<
    (Seq<char>, int),
    ErrorV,
>
    decreases src.len() - i,
{
    if i < 0 || i >= src.len() {
        Err(ErrorV::MissingClosingParen { opening_paren_pos: SV { src, index: open_pos } })
    } else if src[i] == '(' {
        match input_scan(src, i + 1, depth + 1, open_pos) {
            Ok(p) => Ok((seq!['('] + p.0, p.1)),
            Err(e) => Err(e),
        }
    } else if src[i] == ')' {
        if depth == 1 {
            Ok((Seq::empty(), i + 1))
        } else {
            match input_scan(src, i + 1, depth - 1, open_pos) {
                Ok(p) => Ok((seq![')'] + p.0, p.1)),
                Err(e) => Err(e),
            }
        }
    } else if src[i] == '\\' {
        if i + 1 >= src.len() {
            Err(ErrorV::NothingAfterEscapeCharacter { esc_char_pos: SV { src, index: i } })
        } else {
            match input_scan(src, i + 2, depth, open_pos) {
                Ok(p) => Ok((seq!['\\', src[i + 1]] + p.0, p.1)),
                Err(e) => Err(e),
            }
        }
    } else {
        match input_scan(src, i + 1, depth, open_pos) {
            Ok(p) => Ok((seq![src[i]] + p.0, p.1)),
            Err(e) => Err(e),
        }
    }
}

pub ghost enum InputSpecResult {
    NotInput,
    Fail(ErrorV),
    Done { content: Seq<char>, end: int },
}

/// What `input` returns: `NotInput` when the cursor is not at `(`, otherwise
/// the scanned body and the offset just past the closing parenthesis, or the
/// syntax error.
pub open spec fn spec_input(src: Seq<char>, i: int) -> InputSpecResult {
    if 0 <= i < src.len() && src[i] == '(' {
        match input_scan(src, i + 1, 1, i) {
            Ok(p) => InputSpecResult::Done { content: p.0, end: p.1 },
            Err(e) => InputSpecResult::Fail(e),
        }
    } else {
        InputSpecResult::NotInput
    }
}

/// The text an input scan returns is exactly the source between its start and
/// the matching closing parenthesis.
pub proof fn lemma_input_scan_shape(src: Seq<char>, i: int, depth: int, open_pos: int)
    requires
        0 <= i <= src.len(),
        depth >= 1,
    ensures
        input_scan(src, i, depth, open_pos) matches Ok(p) ==> i < p.1 <= src.len() && p.0
            == src.subrange(i, p.1 - 1),
    decreases src.len() - i,
{
    if i < src.len() {
        if src[i] == '(' {
            lemma_input_scan_shape(src, i + 1, depth + 1, open_pos);
            if let Ok(p) = input_scan(src, i + 1, depth + 1, open_pos) {
                assert(seq!['('] + src.subrange(i + 1, p.1 - 1) =~= src.subrange(i, p.1 - 1));
            }
        } else if src[i] == ')' {
            if depth == 1 {
                assert(Seq::<char>::empty() =~= src.subrange(i, i));
            } else {
                lemma_input_scan_shape(src, i + 1, depth - 1, open_pos);
                if let Ok(p) = input_scan(src, i + 1, depth - 1, open_pos) {
                    assert(seq![')'] + src.subrange(i + 1, p.1 - 1) =~= src.subrange(i, p.1 - 1));
                }
            }
        } else if src[i] == '\\' {
            if i + 1 < src.len() {
                lemma_input_scan_shape(src, i + 2, depth, open_pos);
                if let Ok(p) = input_scan(src, i + 2, depth, open_pos) {
                    assert(seq!['\\', src[i + 1]] + src.subrange(i + 2, p.1 - 1) =~= src.subrange(
                        i,
                        p.1 - 1,
                    ));
                }
            }
        } else {
            lemma_input_scan_shape(src, i + 1, depth, open_pos);
            if let Ok(p) = input_scan(src, i + 1, depth, open_pos) {
                assert(seq![src[i]] + src.subrange(i + 1, p.1 - 1) =~= src.subrange(i, p.1 - 1));
            }
        }
    }
}

/// Requires the next character to be `(`, else reports "not an input"
/// (`Err(None)`, non-fatal). Then scans with a running parenthesis-depth
/// counter: a literal `(` deepens, a literal `)` at depth one completes the
/// input, a backslash passes itself and the following character through
/// verbatim so escaped parentheses do not disturb the depth counter. A
/// backslash as the last character of the source fails with
/// `NothingAfterEscapeCharacter` at the backslash; running off the end fails
/// with `MissingClosingParen` at the opening parenthesis.
pub fn input<'a>(s: S<'a>) -> (r: Result<(Input<'a>, S<'a>), Option<Error<'a>>>)
    requires
        s.wf(),
    ensures
        match r {
            Ok(p) => spec_input(s@.src, s@.index) matches InputSpecResult::Done { content, end }
                && p.0@.content == content && p.0@.pos == s@ && p.1@.src == s@.src && p.1@.index
                == end && p.1.wf(),
            Err(oe) => match oe {
                None => spec_input(s@.src, s@.index) is NotInput,
                Some(e) => spec_input(s@.src, s@.index) matches InputSpecResult::Fail(ev) && e@
                    == ev && e@.wf(),
            },
        },
{
    let mut cur: S<'a>;
    match next(s) {
        Some(p) => {
            if p.0 != '(' {
                return Err(None);
            }
            cur = p.1;
        },
        None => {
            return Err(None);
        },
    }
    proof {
        if let Ok(q) = input_scan(s@.src, s@.index + 1, 1, s@.index) {
            assert(s@.src.subrange(s@.index + 1, s@.index + 1) + q.0 =~= q.0);
        }
    }
    let mut depth: usize = 1;
    loop
        invariant
            cur.wf(),
            cur@.src == s@.src,
            s@.index + 1 <= cur@.index,
            1 <= depth <= cur@.index,
            (match input_scan(s@.src, cur@.index, depth as int, s@.index) {
                Ok(p) => spec_input(s@.src, s@.index) matches InputSpecResult::Done {
                    content,
                    end,
                } && content == s@.src.subrange(s@.index + 1, cur@.index) + p.0 && end == p.1,
                Err(e) => spec_input(s@.src, s@.index) matches InputSpecResult::Fail(ev) && ev
                    == e,
            }),
        decreases cur@.src.len() - cur@.index,
    {
        let ghost pre = cur@;
        match next(cur) {
            Some(p) => {
                let c = p.0;
                let new_s = p.1;
                if c == '(' {
                    depth = depth + 1;
                    cur = new_s;
                    proof {
                        assert(s@.src.subrange(s@.index + 1, pre.index + 1) =~= s@.src.subrange(
                            s@.index + 1,
                            pre.index,
                        ) + seq![s@.src[pre.index]]);
                        if let Ok(q) = input_scan(s@.src, cur@.index, depth as int, s@.index) {
                            assert((s@.src.subrange(s@.index + 1, pre.index) + (seq![
                                s@.src[pre.index],
                            ] + q.0)) =~= s@.src.subrange(s@.index + 1, pre.index + 1) + q.0);
                        }
                    }
                } else if c == ')' {
                    if depth == 1 {
                        let body = s.src.substring_char(s.index + 1, cur.index);
                        proof {
                            assert(s@.src.subrange(s@.index + 1, pre.index) + Seq::<
                                char,
                            >::empty() =~= s@.src.subrange(s@.index + 1, pre.index));
                        }
                        return Ok((Input { opening_paren_pos: s, content: body.to_owned() }, new_s));
                    }
                    depth = depth - 1;
                    cur = new_s;
                    proof {
                        assert(s@.src.subrange(s@.index + 1, pre.index + 1) =~= s@.src.subrange(
                            s@.index + 1,
                            pre.index,
                        ) + seq![s@.src[pre.index]]);
                        if let Ok(q) = input_scan(s@.src, cur@.index, depth as int, s@.index) {
                            assert((s@.src.subrange(s@.index + 1, pre.index) + (seq![
                                s@.src[pre.index],
                            ] + q.0)) =~= s@.src.subrange(s@.index + 1, pre.index + 1) + q.0);
                        }
                    }
                } else if c == '\\' {
                    match next(new_s) {
                        Some(p2) => {
                            cur = p2.1;
                            proof {
                                assert(s@.src.subrange(s@.index + 1, pre.index + 2)
                                    =~= s@.src.subrange(s@.index + 1, pre.index) + seq![
                                    s@.src[pre.index],
                                    s@.src[pre.index + 1],
                                ]);
                                if let Ok(q) = input_scan(
                                    s@.src,
                                    cur@.index,
                                    depth as int,
                                    s@.index,
                                ) {
                                    assert((s@.src.subrange(s@.index + 1, pre.index) + (seq![
                                        s@.src[pre.index],
                                        s@.src[pre.index + 1],
                                    ] + q.0)) =~= s@.src.subrange(s@.index + 1, pre.index + 2)
                                        + q.0);
                                }
                            }
                        },
                        None => {
                            return Err(
                                Some(Error::NothingAfterEscapeCharacter { esc_char_pos: cur }),
                            );
                        },
                    }
                } else {
                    cur = new_s;
                    proof {
                        assert(s@.src.subrange(s@.index + 1, pre.index + 1) =~= s@.src.subrange(
                            s@.index + 1,
                            pre.index,
                        ) + seq![s@.src[pre.index]]);
                        if let Ok(q) = input_scan(s@.src, cur@.index, depth as int, s@.index) {
                            assert((s@.src.subrange(s@.index + 1, pre.index) + (seq![
                                s@.src[pre.index],
                            ] + q.0)) =~= s@.src.subrange(s@.index + 1, pre.index + 1) + q.0);
                        }
                    }
                }
            },
            None => {
                return Err(Some(Error::MissingClosingParen { opening_paren_pos: s }));
            },
        }
    }
}

/// One full left-to-right call chain: a command name followed by zero or
/// more inputs.
#[derive(Debug)]
pub struct Line<'a> {
    pub command_name: CommandName<'a>,
    pub inputs: Vec<Input<'a>>,
}

pub ghost struct LineV {
    pub name: CommandNameV,
    pub inputs: Seq<InputV>,
}

impl<'a> View for Line<'a> {
    type V = LineV;

    open spec fn view(&self) -> LineV {
        LineV { name: self.command_name@, inputs: self.inputs@.map(|i, inp: Input<'_>| inp@) }
    }
}

impl CommandNameV {
    pub open spec fn wf(self) -> bool {
        self.pos.wf()
    }
}

impl InputV {
    pub open spec fn wf(self) -> bool {
        self.pos.wf()
    }
}

impl LineV {
    pub open spec fn wf(self) -> bool {
        self.name.wf() && (forall|i: int| 0 <= i < self.inputs.len() ==> (#[trigger] self.inputs[i]).wf())
    }

    /// Every position of the line can be resolved to a diagnostic.
    pub open spec fn renderable(self) -> bool {
        self.name.pos.renderable() && (forall|i: int|
            0 <= i < self.inputs.len() ==> (#[trigger] self.inputs[i]).pos.renderable())
    }
}

/// An ordered sequence of lines, executed in order against a shared scope.
#[derive(Debug)]
pub struct Program<'a> {
    pub lines: Vec<Line<'a>>,
}

impl<'a> View for Program<'a> {
    type V = Seq<LineV>;

    open spec fn view(&self) -> Seq<LineV> {
        self.lines@.map(|i, l: Line<'_>| l@)
    }
}

impl<'a> Program<'a> {
    pub open spec fn wf(self) -> bool {
        forall|i: int| 0 <= i < self@.len() ==> (#[trigger] self@[i]).wf()
    }

    /// Every position in the program can be resolved to a diagnostic. Holds
    /// of anything parsed from a source whose character count fits a machine
    /// word.
    pub open spec fn renderable(self) -> bool {
        forall|i: int| 0 <= i < self@.len() ==> (#[trigger] self@[i]).renderable()
    }
}

pub proof fn lemma_trim_end_len(s: Seq<char>)
    ensures
        trim_end(s).len() <= s.len(),
    decreases s.len(),
{
    if s.len() > 0 && is_space(s[s.len() - 1]) {
        lemma_trim_end_len(s.drop_last());
    }
}

/// What the input-collection loop of `line` returns when started at `i`: the
/// inputs parsed after skipping insignificant whitespace before each, and the
/// offset where collection stopped, or the first syntax error.
pub open spec fn inputs_scan(src: Seq<char>, i: int) -> Result<(Seq<InputV>, int), ErrorV>
    decreases src.len() - i,
{
    let k = spec_skip_ws(src, i);
    match spec_input(src, k) {
        InputSpecResult::NotInput => Ok((Seq::empty(), k)),
        InputSpecResult::Fail(e) => Err(e),
        InputSpecResult::Done { content, end } => {
            proof {
                if 0 <= i <= src.len() {
                    lemma_skip_ws_bounds(src, i);
                }
                if 0 <= k < src.len() {
                    lemma_input_scan_shape(src, k + 1, 1, k);
                }
            }
            match inputs_scan(src, end) {
                Ok(p) => Ok(
                    (seq![InputV { pos: SV { src, index: k }, content }] + p.0, p.1),
                ),
                Err(e) => Err(e),
            }
        },
    }
}

pub proof fn lemma_inputs_scan_bounds(src: Seq<char>, i: int)
    requires
        0 <= i <= src.len(),
    ensures
        inputs_scan(src, i) matches Ok(p) ==> i <= p.1 <= src.len() && (forall|t: int|
            0 <= t < p.0.len() ==> (#[trigger] p.0[t]).pos.src == src && 0 <= p.0[t].pos.index
                < src.len()),
    decreases src.len() - i,
{
    lemma_skip_ws_bounds(src, i);
    let k = spec_skip_ws(src, i);
    match spec_input(src, k) {
        InputSpecResult::NotInput => {},
        InputSpecResult::Fail(_) => {},
        InputSpecResult::Done { content, end } => {
            lemma_input_scan_shape(src, k + 1, 1, k);
            lemma_inputs_scan_bounds(src, end);
        },
    }
}

/// What `line` returns: the parsed line and the offset where it stopped, a
/// hard syntax error, or `Err(None)` meaning "no line here" (empty line or
/// end of input), which the caller decides about.
pub open spec fn spec_line(src: Seq<char>, i: int) -> Result<(LineV, int), Option<ErrorV>> {
    match spec_command_name(src, i) {
        None => {
            if i >= src.len() {
                Err(None)
            } else if src[i] == '(' {
                Err(
                    Some(
                        ErrorV::InputWithoutCommandName {
                            opening_paren_pos: SV { src, index: i },
                        },
                    ),
                )
            } else if src[i] == ';' {
                Err(None)
            } else {
                Err(
                    Some(
                        ErrorV::UnexpectedClosingParen { closing_paren_pos: SV { src, index: i } },
                    ),
                )
            }
        },
        Some(n) => match inputs_scan(src, n.1) {
            Ok(p) => Ok(
                (
                    LineV {
                        name: CommandNameV { pos: SV { src, index: i }, content: n.0 },
                        inputs: p.0,
                    },
                    p.1,
                ),
            ),
            Err(e) => Err(Some(e)),
        },
    }
}

pub proof fn lemma_spec_line_bounds(src: Seq<char>, i: int)
    requires
        0 <= i <= src.len(),
    ensures
        spec_line(src, i) matches Ok(p) ==> i < p.1 <= src.len() && p.0.name.pos == (SV {
            src,
            index: i,
        }) && (forall|t: int|
            0 <= t < p.0.inputs.len() ==> (#[trigger] p.0.inputs[t]).pos.src == src && 0
                <= p.0.inputs[t].pos.index < src.len()),
{
    match spec_command_name(src, i) {
        None => {},
        Some(n) => {
            lemma_name_end_bounds(src, i);
            let end = name_end(src, i);
            lemma_trim_end_len(src.subrange(i, end));
            lemma_inputs_scan_bounds(src, end);
        },
    }
}

/// Scans a command name, then repeatedly skips whitespace and collects
/// inputs, stopping non-fatally when the next text is not an input. With no
/// command name present: an opening parenthesis is an input with nothing to
/// apply it to, a `;` is an empty line (signalled non-fatally as `Err(None)`,
/// like end of input), and anything else is a stray closer.
pub fn line<'a>(s: S<'a>) -> (r: Result<(Line<'a>, S<'a>), Option<Error<'a>>>)
    requires
        s.wf(),
    ensures
        match r {
            Ok(p) => spec_line(s@.src, s@.index) matches Ok(sp) && p.0@ == sp.0 && p.1@.src
                == s@.src && p.1@.index == sp.1 && p.1.wf(),
            Err(oe) => match oe {
                None => spec_line(s@.src, s@.index) matches Err(so) && so is None,
                Some(e) => spec_line(s@.src, s@.index) matches Err(so) && so matches Some(ev) && e@
                    == ev && e@.wf(),
            },
        },
{
    let name: CommandName<'a>;
    let after_name: S<'a>;
    match command_name(s) {
        None => {
            match next(s) {
                None => {
                    return Err(None);
                },
                Some(p) => {
                    if p.0 == '(' {
                        return Err(
                            Some(Error::InputWithoutCommandName { opening_paren_pos: s }),
                        );
                    } else if p.0 == ';' {
                        return Err(None);
                    } else {
                        return Err(
                            Some(Error::UnexpectedClosingParen { closing_paren_pos: s }),
                        );
                    }
                },
            }
        },
        Some(p) => {
            name = p.0;
            after_name = p.1;
        },
    }
    let ghost j0 = after_name@.index;
    let mut inputs: Vec<Input<'a>> = Vec::new();
    let mut cur = after_name;
    loop
        invariant
            s.wf(),
            cur.wf(),
            cur@.src == s@.src,
            0 <= j0 <= cur@.index,
            spec_command_name(s@.src, s@.index) matches Some(n) && n.0 == name@.content && n.1
                == j0 && name@.pos == s@,
            (match inputs_scan(s@.src, cur@.index) {
                Ok(p) => inputs_scan(s@.src, j0) matches Ok(q) && q.0 == inputs@.map(
                    |t, inp: Input<'_>| inp@,
                ) + p.0 && q.1 == p.1,
                Err(e) => inputs_scan(s@.src, j0) matches Err(e2) && e2 == e,
            }),
        decreases s@.src.len() - cur@.index,
    {
        let ghost pre = cur@.index;
        cur = skip_whitespace(cur);
        proof {
            lemma_skip_ws_bounds(s@.src, pre);
        }
        match input(cur) {
            Err(oe) => match oe {
                None => {
                    proof {
                        assert(inputs@.map(|t, inp: Input<'_>| inp@) + Seq::<InputV>::empty()
                            =~= inputs@.map(|t, inp: Input<'_>| inp@));
                    }
                    return Ok((Line { command_name: name, inputs }, cur));
                },
                Some(e) => {
                    return Err(Some(e));
                },
            },
            Ok(p) => {
                let ghost k = cur@.index;
                proof {
                    lemma_input_scan_shape(s@.src, k + 1, 1, k);
                }
                let inp = p.0;
                let new_s = p.1;
                let ghost old_inputs = inputs@;
                inputs.push(inp);
                proof {
                    assert(inputs@.map(|t, inp: Input<'_>| inp@) =~= old_inputs.map(
                        |t, inp: Input<'_>| inp@,
                    ).push(inp@));
                    if let Ok(q) = inputs_scan(s@.src, new_s@.index) {
                        assert((old_inputs.map(|t, inp: Input<'_>| inp@) + (seq![inp@] + q.0))
                            =~= inputs@.map(|t, inp: Input<'_>| inp@) + q.0);
                    }
                }
                cur = new_s;
            },
        }
    }
}

/// What `program` returns: the lines of the whole source, or its first
/// syntax error.
pub open spec fn spec_program(src: Seq<char>, i: int) -> Result<Seq<LineV>, ErrorV>
    decreases src.len() - i,
        when 0 <= i <= src.len()
{
    let k = spec_skip_ws(src, i);
    proof {
        if 0 <= i <= src.len() {
            lemma_skip_ws_bounds(src, i);
            lemma_spec_line_bounds(src, k);
        }
    }
    match spec_line(src, k) {
        Ok(p) => match spec_program(src, p.1) {
            Ok(rest) => Ok(seq![p.0] + rest),
            Err(e) => Err(e),
        },
        Err(so) => match so {
            Some(e) => Err(e),
            None => {
                if k >= src.len() {
                    Ok(Seq::empty())
                } else if src[k] == '\n' || src[k] == ';' {
                    spec_program(src, k + 1)
                } else {
                    Err(ErrorV::UnexpectedClosingParen { closing_paren_pos: SV { src, index: k } })
                }
            },
        },
    }
}

pub proof fn lemma_spec_program_wf(src: Seq<char>, i: int)
    requires
        0 <= i <= src.len(),
    ensures
        spec_program(src, i) matches Ok(ls) ==> forall|t: int|
            0 <= t < ls.len() ==> (#[trigger] ls[t]).wf() && (src.len() < usize::MAX
                ==> ls[t].renderable()),
    decreases src.len() - i,
{
    let k = spec_skip_ws(src, i);
    lemma_skip_ws_bounds(src, i);
    lemma_spec_line_bounds(src, k);
    match spec_line(src, k) {
        Ok(p) => {
            lemma_spec_program_wf(src, p.1);
        },
        Err(so) => match so {
            Some(_) => {},
            None => {
                if k < src.len() && (src[k] == '\n' || src[k] == ';') {
                    lemma_spec_program_wf(src, k + 1);
                }
            },
        },
    }
}

/// Repeatedly skips whitespace and parses lines. A hard parse error aborts
/// the whole program; on "no line here", end of input completes the program,
/// a separator is consumed, and any other character is a stray closing
/// parenthesis.
pub fn program<'a>(s: S<'a>) -> (r: Result<Program<'a>, Error<'a>>)
    requires
        s.wf(),
    ensures
        match r {
            Ok(p) => spec_program(s@.src, s@.index) matches Ok(ls) && p@ == ls && p.wf() && (
            s@.src.len() < usize::MAX ==> p.renderable()),
            Err(e) => spec_program(s@.src, s@.index) matches Err(ev) && e@ == ev && e@.wf(),
        },
{
    let mut lines: Vec<Line<'a>> = Vec::new();
    let mut cur = s;
    loop
        invariant
            s.wf(),
            cur.wf(),
            cur@.src == s@.src,
            (match spec_program(s@.src, cur@.index) {
                Ok(rest) => spec_program(s@.src, s@.index) matches Ok(all) && all == lines@.map(
                    |t, l: Line<'_>| l@,
                ) + rest,
                Err(e) => spec_program(s@.src, s@.index) matches Err(e2) && e2 == e,
            }),
        decreases s@.src.len() - cur@.index,
    {
        let ghost pre = cur@.index;
        cur = skip_whitespace(cur);
        proof {
            lemma_skip_ws_bounds(s@.src, pre);
            lemma_spec_line_bounds(s@.src, cur@.index);
        }
        match line(cur) {
            Err(oe) => match oe {
                Some(e) => {
                    return Err(e);
                },
                None => match next(cur) {
                    None => {
                        proof {
                            lemma_spec_program_wf(s@.src, s@.index);
                            assert(lines@.map(|t, l: Line<'_>| l@) + Seq::<LineV>::empty()
                                =~= lines@.map(|t, l: Line<'_>| l@));
                        }
                        return Ok(Program { lines });
                    },
                    Some(p) => {
                        if !(p.0 == '\n' || p.0 == ';') {
                            return Err(
                                Error::UnexpectedClosingParen { closing_paren_pos: cur },
                            );
                        }
                        cur = p.1;
                    },
                },
            },
            Ok(p) => {
                let l = p.0;
                let new_s = p.1;
                let ghost old_lines = lines@;
                lines.push(l);
                proof {
                    assert(lines@.map(|t, l: Line<'_>| l@) =~= old_lines.map(
                        |t, l: Line<'_>| l@,
                    ).push(l@));
                    if let Ok(rest) = spec_program(s@.src, new_s@.index) {
                        assert((old_lines.map(|t, l: Line<'_>| l@) + (seq![l@] + rest))
                            =~= lines@.map(|t, l: Line<'_>| l@) + rest);
                    }
                }
                cur = new_s;
            },
        }
    }
}

/// The 1-based row of offset `i`: one more than the number of newlines
/// before it.
pub open spec fn spec_row(src: Seq<char>, i: int) -> int
    decreases i,
{
    if i <= 0 {
        1
    } else {
        spec_row(src, i - 1) + if src[i - 1] == '\n' {
            1int
        } else {
            0int
        }
    }
}

/// The offset of the first character of the line that offset `i` falls in.
pub open spec fn line_start(src: Seq<char>, i: int) -> int
    decreases i,
{
    if i <= 0 {
        0
    } else if src[i - 1] == '\n' {
        i
    } else {
        line_start(src, i - 1)
    }
}

/// The 1-based column of offset `i` within its line.
pub open spec fn spec_col(src: Seq<char>, i: int) -> int {
    i - line_start(src, i) + 1
}

/// The offset of the newline that ends the line offset `i` falls in, or the
/// end of the source.
pub open spec fn line_end(src: Seq<char>, i: int) -> int
    decreases src.len() - i,
{
    if 0 <= i < src.len() && src[i] != '\n' {
        line_end(src, i + 1)
    } else {
        i
    }
}

/// The full text of the line that offset `i` falls in.
pub open spec fn spec_line_text(src: Seq<char>, i: int) -> Seq<char> {
    src.subrange(line_start(src, i), line_end(src, i))
}

pub proof fn lemma_line_start_bounds(src: Seq<char>, i: int)
    requires
        0 <= i,
    ensures
        0 <= line_start(src, i) <= i,
    decreases i,
{
    if i > 0 && src[i - 1] != '\n' {
        lemma_line_start_bounds(src, i - 1);
    }
}

/// Resolves a cursor to its 1-based row and column and the full text of the
/// line it falls in, by scanning from the buffer start and counting newlines.
/// Used only for diagnostics.
pub fn row_col_line<'a>(s: &S<'a>) -> (r: (usize, usize, &'a str))
    requires
        s@.renderable(),
    ensures
        r.0 == spec_row(s@.src, s@.index),
        r.1 == spec_col(s@.src, s@.index),
        r.2@ == spec_line_text(s@.src, s@.index),
{
    let mut j: usize = 0;
    let mut row: usize = 1;
    let mut start: usize = 0;
    while j < s.index
        invariant
            s@.renderable(),
            start <= j <= s@.index,
            row <= j + 1,
            row == spec_row(s@.src, j as int),
            start == line_start(s@.src, j as int),
        decreases s@.index - j,
    {
        let c = s.src.get_char(j);
        if c == '\n' {
            row = row + 1;
            start = j + 1;
        }
        j = j + 1;
    }
    let mut e: usize = s.index;
    loop
        invariant
            s@.renderable(),
            s@.index <= e <= s@.src.len(),
            line_end(s@.src, s@.index) == line_end(s@.src, e as int),
        ensures
            s@.index <= e <= s@.src.len(),
            e == line_end(s@.src, s@.index),
        decreases s@.src.len() - e,
    {
        if e >= s.src.unicode_len() {
            break;
        }
        let c = s.src.get_char(e);
        if c == '\n' {
            break;
        }
        e = e + 1;
    }
    let text = s.src.substring_char(start, e);
    (row, s.index - start + 1, text)
}

} // verus!



