//! The interpreter: walks a parsed program against a scope, producing exactly
//! one final value (or a runtime error value) per program execution.

use vstd::prelude::*;

verus! {

use std::rc::Rc;
use vstd::string::StrSliceExecFns;
use crate::objects::{Command, Object, ObjectV};
use crate::parser::{self, S, SV};

/// One name bound to a value.
struct Binding<C> {
    name: String,
    value: Object<C>,
}

/// The sole namespace: a mutable table mapping each name to a value. Later
/// bindings of a name shadow earlier ones, so the table reads as a map whose
/// keys are unique.
pub struct Scope<C> {
    bindings: Vec<Binding<C>>,
}

/// The map a binding list reads as: each entry laid over the earlier ones.
spec fn map_of<C>(bs: Seq<Binding<C>>) -> Map<Seq<char>, ObjectV<C>>
    decreases bs.len(),
{
    if bs.len() == 0 {
        Map::empty()
    } else {
        map_of(bs.drop_last()).insert(bs.last().name@, bs.last().value@)
    }
}

impl<C> View for Scope<C> {
    type V = Map<Seq<char>, ObjectV<C>>;

    closed spec fn view(&self) -> Map<Seq<char>, ObjectV<C>> {
        map_of(self.bindings@)
    }
}

/// Decides equality of two strings by their characters.
fn str_eq(a: &str, b: &str) -> (r: bool)
    ensures
        r == (a@ == b@),
{
    let na = a.unicode_len();
    let nb = b.unicode_len();
    if na != nb {
        return false;
    }
    let mut i: usize = 0;
    while i < na
        invariant
            na == a@.len() == b@.len(),
            i <= na,
            forall|j: int| 0 <= j < i ==> a@[j] == b@[j],
        decreases na - i,
    {
        if a.get_char(i) != b.get_char(i) {
            return false;
        }
        i = i + 1;
    }
    proof {
        assert(a@ =~= b@);
    }
    true
}

/// The most recent binding of `n` in `bs`, if any.
spec fn lookup<C>(bs: Seq<Binding<C>>, n: Seq<char>) -> Option<ObjectV<C>>
    decreases bs.len(),
{
    if bs.len() == 0 {
        None
    } else if bs.last().name@ == n {
        Some(bs.last().value@)
    } else {
        lookup(bs.drop_last(), n)
    }
}

proof fn lemma_lookup_map_of<C>(bs: Seq<Binding<C>>, n: Seq<char>)
    ensures
        lookup(bs, n) matches Some(v) ==> map_of(bs).contains_key(n) && map_of(bs)[n] == v,
        lookup(bs, n) is None ==> !map_of(bs).contains_key(n),
    decreases bs.len(),
{
    if bs.len() > 0 && bs.last().name@ != n {
        lemma_lookup_map_of(bs.drop_last(), n);
    }
}

impl<C> Scope<C> {
    /// An empty scope.
    pub fn new() -> (r: Self)
        ensures
            r@ == Map::<Seq<char>, ObjectV<C>>::empty(),
    {
        Scope { bindings: Vec::new() }
    }

    /// Binds `name` to `value`, replacing any earlier binding of that name.
    pub fn insert(&mut self, name: String, value: Object<C>)
        ensures
            final(self)@ == old(self)@.insert(name@, value@),
    {
        let ghost pre = self.bindings@;
        let ghost nv = name@;
        let ghost vv = value@;
        self.bindings.push(Binding { name, value });
        proof {
            assert(self.bindings@.drop_last() =~= pre);
            assert(self.bindings@.last().name@ == nv);
            assert(self.bindings@.last().value@ == vv);
        }
    }

    /// The value bound to `name`, or `None` when the name is unbound.
    pub fn get(&self, name: &str) -> (r: Option<&Object<C>>)
        ensures
            match r {
                Some(v) => self@.contains_key(name@) && v@ == self@[name@],
                None => !self@.contains_key(name@),
            },
    {
        proof {
            lemma_lookup_map_of(self.bindings@, name@);
            assert(self.bindings@.take(self.bindings@.len() as int) =~= self.bindings@);
        }
        let mut t = self.bindings.len();
        loop
            invariant
                t <= self.bindings@.len(),
                lookup(self.bindings@, name@) == lookup(self.bindings@.take(t as int), name@),
            ensures
                lookup(self.bindings@, name@) is None,
            decreases t,
        {
            if t == 0 {
                break;
            }
            t = t - 1;
            proof {
                assert(self.bindings@.take(t + 1).last() == self.bindings@[t as int]);
                assert(self.bindings@.take(t + 1).drop_last() =~= self.bindings@.take(t as int));
            }
            if str_eq(self.bindings[t].name.as_str(), name) {
                proof {
                    lemma_lookup_map_of(self.bindings@, name@);
                }
                return Some(&self.bindings[t].value);
            }
        }
        None
    }
}

/// The decimal digit `d` as a character.
pub open spec fn digit_char(d: int) -> char {
    if d == 1 {
        '1'
    } else if d == 2 {
        '2'
    } else if d == 3 {
        '3'
    } else if d == 4 {
        '4'
    } else if d == 5 {
        '5'
    } else if d == 6 {
        '6'
    } else if d == 7 {
        '7'
    } else if d == 8 {
        '8'
    } else if d == 9 {
        '9'
    } else {
        '0'
    }
}

/// The decimal rendering of `n`, most significant digit first.
pub open spec fn dec_rep(n: int) -> Seq<char>
    decreases n,
{
    if n < 10 {
        seq![digit_char(n)]
    } else {
        dec_rep(n / 10) + seq![digit_char(n % 10)]
    }
}

fn digit_str(d: usize) -> (r: &'static str)
    requires
        d < 10,
    ensures
        r@ == seq![digit_char(d as int)],
{
    proof {
        reveal_strlit("0");
        reveal_strlit("1");
        reveal_strlit("2");
        reveal_strlit("3");
        reveal_strlit("4");
        reveal_strlit("5");
        reveal_strlit("6");
        reveal_strlit("7");
        reveal_strlit("8");
        reveal_strlit("9");
    }
    if d == 1 {
        proof {
            assert("1"@ =~= seq![digit_char(1)]);
        }
        "1"
    } else if d == 2 {
        proof {
            assert("2"@ =~= seq![digit_char(2)]);
        }
        "2"
    } else if d == 3 {
        proof {
            assert("3"@ =~= seq![digit_char(3)]);
        }
        "3"
    } else if d == 4 {
        proof {
            assert("4"@ =~= seq![digit_char(4)]);
        }
        "4"
    } else if d == 5 {
        proof {
            assert("5"@ =~= seq![digit_char(5)]);
        }
        "5"
    } else if d == 6 {
        proof {
            assert("6"@ =~= seq![digit_char(6)]);
        }
        "6"
    } else if d == 7 {
        proof {
            assert("7"@ =~= seq![digit_char(7)]);
        }
        "7"
    } else if d == 8 {
        proof {
            assert("8"@ =~= seq![digit_char(8)]);
        }
        "8"
    } else if d == 9 {
        proof {
            assert("9"@ =~= seq![digit_char(9)]);
        }
        "9"
    } else {
        proof {
            assert("0"@ =~= seq![digit_char(0)]);
        }
        "0"
    }
}

/// Appends the decimal rendering of `n` to `out`.
fn push_decimal(out: &mut String, n: usize)
    ensures
        final(out)@ == old(out)@ + dec_rep(n as int),
    decreases n,
{
    if n >= 10 {
        push_decimal(out, n / 10);
        out.append(digit_str(n % 10));
        proof {
            assert(old(out)@ + (dec_rep(n as int / 10) + seq![digit_char(n as int % 10)])
                =~= (old(out)@ + dec_rep(n as int / 10)) + seq![digit_char(n as int % 10)]);
        }
    } else {
        out.append(digit_str(n));
    }
}

/// A runtime error, carrying the cursor it is reported at. It is returned as
/// a normal `Error` value, never as an out-of-band failure.
pub enum Error<'a> {
    UnknownName { beginning_pos: S<'a> },
    CallingANonCommand { opening_paren_pos: S<'a> },
}

pub ghost enum ErrorV {
    UnknownName { beginning_pos: SV },
    CallingANonCommand { opening_paren_pos: SV },
}

impl<'a> View for Error<'a> {
    type V = ErrorV;

    open spec fn view(&self) -> ErrorV {
        match self {
            Error::UnknownName { beginning_pos } => ErrorV::UnknownName {
                beginning_pos: beginning_pos@,
            },
            Error::CallingANonCommand { opening_paren_pos } => ErrorV::CallingANonCommand {
                opening_paren_pos: opening_paren_pos@,
            },
        }
    }
}

impl ErrorV {
    /// The cursor the error is reported at.
    pub open spec fn pos(self) -> SV {
        match self {
            ErrorV::UnknownName { beginning_pos } => beginning_pos,
            ErrorV::CallingANonCommand { opening_paren_pos } => opening_paren_pos,
        }
    }

    /// The one-line reason of the error.
    pub open spec fn reason(self) -> Seq<char> {
        match self {
            ErrorV::UnknownName { .. } => "Unknown name"@,
            ErrorV::CallingANonCommand { .. } => "Calling a non-command"@,
        }
    }

    pub open spec fn wf(self) -> bool {
        self.pos().renderable()
    }
}

/// The full rendering of a runtime error: its 1-based row and column and
/// reason, then the offending source line with a caret under the column.
pub open spec fn error_message(e: ErrorV) -> Seq<char> {
    let sv = e.pos();
    let col = parser::spec_col(sv.src, sv.index);
    "Execution error at row "@ + dec_rep(parser::spec_row(sv.src, sv.index)) + ", column "@
        + dec_rep(col) + ": "@ + e.reason() + "\n\n"@ + parser::spec_line_text(sv.src, sv.index)
        + "\n"@ + Seq::new((col - 1) as nat, |x: int| ' ') + "^\n"@
}

impl<'a> Error<'a> {
    /// Renders this error as its full diagnostic message.
    pub fn to_string(&self) -> (r: String)
        requires
            self@.wf(),
        ensures
            r@ == error_message(self@),
    {
        let p: (&S<'a>, &'static str) = match self {
            Error::CallingANonCommand { opening_paren_pos } => (
                opening_paren_pos,
                "Calling a non-command",
            ),
            Error::UnknownName { beginning_pos } => (beginning_pos, "Unknown name"),
        };
        let s = p.0;
        let reason = p.1;
        let rcl = parser::row_col_line(s);
        let row = rcl.0;
        let col = rcl.1;
        let line_text = rcl.2;
        let mut out = String::new();
        out.append("Execution error at row ");
        push_decimal(&mut out, row);
        out.append(", column ");
        push_decimal(&mut out, col);
        out.append(": ");
        out.append(reason);
        out.append("\n\n");
        out.append(line_text);
        out.append("\n");
        proof {
            parser::lemma_line_start_bounds(s@.src, s@.index);
        }
        let ghost head = out@;
        let mut i: usize = 1;
        while i < col
            invariant
                1 <= i <= col,
                out@ == head + Seq::new((i - 1) as nat, |x: int| ' '),
            decreases col - i,
        {
            out.append(" ");
            proof {
                reveal_strlit(" ");
                assert(out@ =~= head + Seq::new(i as nat, |x: int| ' '));
            }
            i = i + 1;
        }
        out.append("^\n");
        proof {
            assert(Seq::new((i - 1) as nat, |x: int| ' ') =~= Seq::new(
                (col - 1) as nat,
                |x: int| ' ',
            ));
            assert(out@ =~= error_message(self@));
        }
        out
    }
}

fn err<C>(e: Error<'_>) -> (r: Object<C>)
    requires
        e@.wf(),
    ensures
        r@ == ObjectV::<C>::Error(error_message(e@)),
{
    Object::Error(e.to_string())
}

/// What a program evaluates to as far as that is decided without invoking
/// any command: the current value after the lines run, or the first runtime
/// error. `None` when execution reaches a command invocation, whose outcome
/// the command alone decides.
pub open spec fn run_no_calls<C>(
    lines: Seq<parser::LineV>,
    scope: Map<Seq<char>, ObjectV<C>>,
    current: ObjectV<C>,
) -> Option<ObjectV<C>>
    decreases lines.len(),
{
    if lines.len() == 0 {
        Some(current)
    } else {
        let l = lines[0];
        if !scope.contains_key(l.name.content) {
            Some(
                ObjectV::Error(
                    error_message(ErrorV::UnknownName { beginning_pos: l.name.pos }),
                ),
            )
        } else {
            let v = scope[l.name.content];
            if l.inputs.len() == 0 {
                run_no_calls(lines.drop_first(), scope, v)
            } else if !(v is Command) {
                Some(
                    ObjectV::Error(
                        error_message(
                            ErrorV::CallingANonCommand { opening_paren_pos: l.inputs[0].pos },
                        ),
                    ),
                )
            } else {
                None
            }
        }
    }
}

/// The first step of a line: resolves the command name in the scope,
/// however the commands that already ran left it. Returns the bound value,
/// or the `Unknown name` error value rendered at the name's first character.
/// The interpreter runs this for every line, so this decision is fixed for
/// every scope a command may produce.
pub fn resolve_name<C>(scope: &Scope<C>, name: &parser::CommandName<'_>) -> (r: Result<
    Object<C>,
    Object<C>,
>)
    requires
        name.beginning_pos@.renderable(),
    ensures
        match r {
            Ok(v) => scope@.contains_key(name@.content) && v@ == scope@[name@.content],
            Err(e) => !scope@.contains_key(name@.content) && e@ == ObjectV::<C>::Error(
                error_message(ErrorV::UnknownName { beginning_pos: name@.pos }),
            ),
        },
{
    match scope.get(name.content.as_str()) {
        Some(v) => Ok(v.clone()),
        None => Err(err(Error::UnknownName { beginning_pos: name.beginning_pos })),
    }
}

/// The step of a chain: decides whether the current value can take an input
/// by narrowing it to a command, or produces the `Calling a non-command`
/// error value rendered at the input's opening parenthesis. The interpreter
/// runs this for every input, also after a command invocation, so this
/// decision is fixed for every value a command may return.
pub fn narrow_to_command<C>(current: &Object<C>, opening_paren_pos: &S<'_>) -> (r: Result<
    Rc<C>,
    Object<C>,
>)
    requires
        opening_paren_pos@.renderable(),
    ensures
        match r {
            Ok(c) => current@ == ObjectV::<C>::Command(c),
            Err(e) => !(current@ is Command) && e@ == ObjectV::<C>::Error(
                error_message(
                    ErrorV::CallingANonCommand { opening_paren_pos: opening_paren_pos@ },
                ),
            ),
        },
{
    match current {
        Object::Command(rc) => Ok(rc.clone()),
        _ => Err(err(Error::CallingANonCommand { opening_paren_pos: *opening_paren_pos })),
    }
}

/// Holds the scope across a whole session; programs execute against it one
/// after another.
pub struct Interpreter<C> {
    pub names: Scope<C>,
}

impl<C: Command> Interpreter<C> {
    /// Executes a program: for each line in order, resolves the command name
    /// in the scope, then threads the current value through the line's
    /// inputs, invoking it as a command for each. A missing name or an
    /// invocation of a non-command stops execution immediately with an
    /// `Error` value rendered against the offending source position; commands
    /// that already ran keep their effects on the scope.
    ///
    /// Each of the two decisions the interpreter itself makes goes through a
    /// contracted step — [`resolve_name`] for every line, against the scope
    /// however earlier commands left it, and [`narrow_to_command`] for every
    /// input, also after an invocation — so both are fixed for every value a
    /// command may hand back. What an invocation returns and does to the
    /// scope is the command's own; the `ensures` here fixes the result and
    /// the scope exactly for every execution decided before the first
    /// invocation.
    pub fn interpret<'a>(&mut self, program: parser::Program<'a>) -> (r: Object<C>)
        requires
            program.renderable(),
        ensures
            run_no_calls(program@, old(self).names@, ObjectV::<C>::Nothing) matches Some(v) ==> r@
                == v && final(self).names@ == old(self).names@,
    {
        let ghost full = run_no_calls(program@, old(self).names@, ObjectV::<C>::Nothing);
        let mut last: Object<C> = Object::Nothing;
        proof {
            assert(program@.skip(0) =~= program@);
        }
        let n = program.lines.len();
        let mut li: usize = 0;
        while li < n
            invariant
                program.renderable(),
                n == program@.len(),
                li <= n,
                full == run_no_calls(program@, old(self).names@, ObjectV::<C>::Nothing),
                full is Some ==> self.names@ == old(self).names@ && run_no_calls(
                    program@.skip(li as int),
                    self.names@,
                    last@,
                ) == full,
            decreases n - li,
        {
            let ghost lv = program@[li as int];
            proof {
                assert(program@.skip(li as int)[0] == lv);
                assert(lv.renderable());
                assert(program.lines@[li as int]@ == lv);
            }
            match resolve_name(&self.names, &program.lines[li].command_name) {
                Ok(v) => {
                    last = v;
                },
                Err(e) => {
                    return e;
                },
            }
            let n_inputs = program.lines[li].inputs.len();
            if n_inputs > 0 {
                let mut ii: usize = 0;
                while ii < n_inputs
                    invariant
                        program.renderable(),
                        n == program@.len(),
                        li < n,
                        n_inputs == program@[li as int].inputs.len(),
                        ii <= n_inputs,
                        full == run_no_calls(program@, old(self).names@, ObjectV::<C>::Nothing),
                        full is Some ==> ii == 0 && self.names@ == old(self).names@
                            && self.names@.contains_key(program@[li as int].name.content) && last@
                            == self.names@[program@[li as int].name.content] && run_no_calls(
                            program@.skip(li as int),
                            self.names@,
                            last@,
                        ) == full,
                    decreases n_inputs - ii,
                {
                    let ghost lv2 = program@[li as int];
                    proof {
                        assert(program@.skip(li as int)[0] == lv2);
                        assert(lv2.renderable());
                        assert(lv2.inputs[ii as int].pos.renderable());
                        assert(program.lines@[li as int]@ == lv2);
                        assert(program.lines@[li as int].inputs@.map(
                            |t, inp: parser::Input<'_>| inp@,
                        )[ii as int] == lv2.inputs[ii as int]);
                    }
                    let pos = program.lines[li].inputs[ii].opening_paren_pos;
                    let cmd: Rc<C>;
                    match narrow_to_command(&last, &pos) {
                        Ok(c) => {
                            cmd = c;
                        },
                        Err(e) => {
                            return e;
                        },
                    }
                    let input_text = program.lines[li].inputs[ii].content.clone();
                    last = cmd.call(input_text, &mut self.names);
                    ii = ii + 1;
                }
            }
            li = li + 1;
            proof {
                assert(program@.skip(li as int - 1).drop_first() =~= program@.skip(li as int));
            }
        }
        proof {
            assert(program@.skip(n as int) =~= Seq::<parser::LineV>::empty());
        }
        last
    }
}

} // verus!

