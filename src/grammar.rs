use vstd::prelude::*;
use crate::compiler::{MAX_NAME_LEN, MAX_VARIABLE_COUNT};
use crate::convert::is_digit;
use crate::error::{Error, NewTextError, ParseError};
use crate::options::Options;
use crate::program::{word, Opcode, MAX_OFFSET};
use crate::string::validation;
use crate::value::Datum;

verus! {

/// Where compilation stands: the position in the source, how deeply parentheses nest, the
/// instruction words emitted, the meanings of the constants pooled, and the variable names in
/// the order they were first seen.
pub struct CState {
    pub pos: int,
    pub depth: int,
    pub code: Seq<u64>,
    pub constants: Seq<Datum>,
    pub names: Seq<Seq<u8>>,
}

pub open spec fn missing() -> Error {
    Error::Parse(ParseError::MissingExpression)
}

pub open spec fn at(st: CState, pos: int) -> CState {
    CState { pos, depth: st.depth, code: st.code, constants: st.constants, names: st.names }
}

/// Whether compiling moved from `a` to `b` without going back or past the end.
pub open spec fn mono(src: Seq<u8>, a: CState, b: CState) -> bool {
    a.pos <= b.pos <= src.len()
}

/// Appends one instruction.
pub open spec fn s_emit(st: CState, op: Opcode, offset: int) -> Result<CState, Error> {
    if st.code.len() >= MAX_OFFSET {
        Err(Error::Parse(ParseError::ProgramTooLarge))
    } else {
        Ok(
            CState {
                pos: st.pos,
                depth: st.depth,
                code: st.code.push(word(op, offset) as u64),
                constants: st.constants,
                names: st.names,
            },
        )
    }
}

/// Points the jump at `at` to the next instruction.
pub open spec fn s_patch(st: CState, at: int, op: Opcode) -> CState {
    CState {
        pos: st.pos,
        depth: st.depth,
        code: st.code.update(at, word(op, st.code.len() as int) as u64),
        constants: st.constants,
        names: st.names,
    }
}

/// The first index at or after `i` whose constant means `d`; `cs.len()` where there is none.
pub open spec fn first_equal(cs: Seq<Datum>, d: Datum, i: int) -> int
    decreases cs.len() - i,
{
    if i < 0 || i >= cs.len() {
        cs.len() as int
    } else if cs[i] == d {
        i
    } else {
        first_equal(cs, d, i + 1)
    }
}

/// The index of `name` in `names`; `names.len()` where it is not there.
pub open spec fn position(names: Seq<Seq<u8>>, name: Seq<u8>, i: int) -> int
    decreases names.len() - i,
{
    if i < 0 || i >= names.len() {
        names.len() as int
    } else if names[i] == name {
        i
    } else {
        position(names, name, i + 1)
    }
}

/// Pushes the constant `d`, sharing the slot of an equal constant already pooled.
pub open spec fn s_constant(st: CState, d: Datum) -> Result<CState, Error> {
    let i = first_equal(st.constants, d, 0);
    if i < st.constants.len() {
        if i > MAX_OFFSET {
            Err(Error::Parse(ParseError::ProgramTooLarge))
        } else {
            s_emit(st, Opcode::PushConstant, i)
        }
    } else if st.constants.len() > MAX_OFFSET {
        Err(Error::Parse(ParseError::ProgramTooLarge))
    } else {
        s_emit(
            CState {
                pos: st.pos,
                depth: st.depth,
                code: st.code,
                constants: st.constants.push(d),
                names: st.names,
            },
            Opcode::PushConstant,
            st.constants.len() as int,
        )
    }
}

/// Reads or writes the variable `name`, which gets the next index the first time it is seen.
pub open spec fn s_emit_var(opts: Options, st: CState, op: Opcode, name: Seq<u8>) -> Result<CState, Error> {
    let k = position(st.names, name, 0);
    let fresh = k == st.names.len();
    if opts.compliance.variable_name_length && name.len() > MAX_NAME_LEN {
        Err(Error::Parse(ParseError::VariableNameTooLong))
    } else if st.code.len() >= MAX_OFFSET {
        Err(Error::Parse(ParseError::ProgramTooLarge))
    } else if fresh && opts.compliance.variable_count && st.names.len() >= MAX_VARIABLE_COUNT {
        Err(Error::Parse(ParseError::TooManyVariables))
    } else if k > MAX_OFFSET {
        Err(Error::Parse(ParseError::ProgramTooLarge))
    } else {
        Ok(
            CState {
                pos: st.pos,
                depth: st.depth,
                code: st.code.push(word(op, k) as u64),
                constants: st.constants,
                names: if fresh { st.names.push(name) } else { st.names },
            },
        )
    }
}

pub open spec fn is_blank(c: u8) -> bool {
    c == 32 || c == 9 || c == 10 || c == 13 || c == 11 || c == 12
}

/// Skips whitespace, `#` comments to the end of their line, and parentheses, counting how
/// deeply these nest; a `)` without its `(` is an error where parentheses are checked.
pub open spec fn s_skip(src: Seq<u8>, opts: Options, pos: int, depth: int, comment: bool) -> Result<(int, int), Error>
    decreases src.len() - pos,
{
    if pos < 0 || pos >= src.len() {
        Ok((pos, depth))
    } else if comment {
        s_skip(src, opts, pos + 1, depth, src[pos] != 10)
    } else if src[pos] == 35 {
        s_skip(src, opts, pos + 1, depth, true)
    } else if src[pos] == 40 {
        s_skip(src, opts, pos + 1, depth + 1, false)
    } else if src[pos] == 41 {
        if depth == 0 {
            if opts.check_parens {
                Err(Error::Parse(ParseError::UnbalancedParens))
            } else {
                s_skip(src, opts, pos + 1, 0, false)
            }
        } else {
            s_skip(src, opts, pos + 1, depth - 1, false)
        }
    } else if is_blank(src[pos]) {
        s_skip(src, opts, pos + 1, depth, false)
    } else {
        Ok((pos, depth))
    }
}

pub open spec fn s_blank(src: Seq<u8>, opts: Options, st: CState) -> Result<CState, Error> {
    match s_skip(src, opts, st.pos, st.depth, false) {
        Ok((p, d)) => Ok(CState { pos: p, depth: d, code: st.code, constants: st.constants, names: st.names }),
        Err(e) => Err(e),
    }
}

pub open spec fn ident_start(c: u8) -> bool {
    (97 <= c <= 122) || c == 95
}

pub open spec fn ident_byte(c: u8) -> bool {
    ident_start(c) || (48 <= c <= 57)
}

pub open spec fn upper(c: u8) -> bool {
    (65 <= c <= 90) || c == 95
}

/// Where the run of name bytes from `p` ends.
pub open spec fn ident_end(src: Seq<u8>, p: int) -> int
    decreases src.len() - p,
{
    if p < 0 || p >= src.len() || !ident_byte(src[p]) { p } else { ident_end(src, p + 1) }
}

/// Where the run of upper-case letters and underscores from `p` ends.
pub open spec fn word_end(src: Seq<u8>, p: int) -> int
    decreases src.len() - p,
{
    if p < 0 || p >= src.len() || !upper(src[p]) { p } else { word_end(src, p + 1) }
}

/// Where the string literal closed by `q` that continues at `p` ends: the index of `q`, or the
/// end of the source.
pub open spec fn quote_end(src: Seq<u8>, p: int, q: u8) -> int
    decreases src.len() - p,
{
    if p < 0 || p >= src.len() || src[p] == q { p } else { quote_end(src, p + 1, q) }
}

/// Reads the digits from `p` onto `acc`: the position after them and the value, or an error
/// once the value passes `i64::MAX`.
pub open spec fn lit_scan(src: Seq<u8>, p: int, acc: int) -> Result<(int, int), Error>
    decreases src.len() - p,
{
    if 0 <= p < src.len() && is_digit(src[p]) {
        let a = acc * 10 + (src[p] - 48);
        if a > i64::MAX {
            Err(Error::Parse(ParseError::IntegerLiteralTooLarge))
        } else {
            lit_scan(src, p + 1, a)
        }
    } else {
        Ok((p, acc))
    }
}

/// An integer literal at `st.pos`.
pub open spec fn s_number(src: Seq<u8>, opts: Options, st: CState) -> Result<CState, Error> {
    match lit_scan(src, st.pos, 0) {
        Err(e) => Err(e),
        Ok((p, v)) => if opts.compliance.i32_integer && v > i32::MAX {
            Err(Error::Parse(ParseError::IntegerLiteralTooLarge))
        } else {
            s_constant(at(st, p), Datum::Integer(v))
        },
    }
}

/// A string literal opened by `q` at `st.pos`.
pub open spec fn s_string(src: Seq<u8>, opts: Options, st: CState, q: u8) -> Result<CState, Error> {
    let e = quote_end(src, st.pos + 1, q);
    if e >= src.len() {
        Err(Error::Parse(ParseError::UnterminatedString))
    } else {
        let bytes = src.subrange(st.pos + 1, e);
        match validation(bytes, opts) {
            Ok(()) => s_constant(at(st, e + 1), Datum::Str(bytes)),
            Err(NewTextError::IllegalByte(b)) => Err(Error::Parse(ParseError::IllegalByte(b))),
            Err(t) => Err(Error::Text(t)),
        }
    }
}

/// The opcode of a function of one argument that is compiled as its argument, then the opcode.
pub open spec fn unary_op(f: u8) -> Option<Opcode> {
    if f == 67 {
        Some(Opcode::Call)
    } else if f == 81 {
        Some(Opcode::Quit)
    } else if f == 79 {
        Some(Opcode::Output)
    } else if f == 68 {
        Some(Opcode::Dump)
    } else if f == 76 {
        Some(Opcode::Length)
    } else if f == 33 {
        Some(Opcode::Not)
    } else if f == 126 {
        Some(Opcode::Negate)
    } else if f == 65 {
        Some(Opcode::Ascii)
    } else if f == 44 {
        Some(Opcode::Box)
    } else if f == 91 {
        Some(Opcode::Head)
    } else if f == 93 {
        Some(Opcode::Tail)
    } else {
        None
    }
}

/// The opcode of a function of two arguments compiled as its arguments, then the opcode.
pub open spec fn binary_op(f: u8) -> Option<Opcode> {
    if f == 43 {
        Some(Opcode::Add)
    } else if f == 45 {
        Some(Opcode::Sub)
    } else if f == 42 {
        Some(Opcode::Mul)
    } else if f == 47 {
        Some(Opcode::Div)
    } else if f == 37 {
        Some(Opcode::Mod)
    } else if f == 94 {
        Some(Opcode::Pow)
    } else if f == 60 {
        Some(Opcode::Lth)
    } else if f == 62 {
        Some(Opcode::Gth)
    } else if f == 63 {
        Some(Opcode::Eql)
    } else {
        None
    }
}

/// One expression.
pub open spec fn s_expr(src: Seq<u8>, opts: Options, st: CState) -> Result<CState, Error>
    decreases src.len() - st.pos, 0int, 0int,
{
    if !(0 <= st.pos <= src.len()) {
        Err(missing())
    } else {
        match s_blank(src, opts, st) {
            Err(e) => Err(e),
            Ok(b) => if !mono(src, st, b) || b.pos == src.len() {
                Err(missing())
            } else {
                let c = src[b.pos];
                if is_digit(c) {
                    s_number(src, opts, b)
                } else if c == 34 || c == 39 {
                    s_string(src, opts, b, c)
                } else if ident_start(c) {
                    let e = ident_end(src, b.pos + 1);
                    s_emit_var(opts, at(b, e), Opcode::GetVar, src.subrange(b.pos, e))
                } else {
                    let p = if 65 <= c <= 90 { word_end(src, b.pos + 1) } else { b.pos + 1 };
                    if !(b.pos < p <= src.len()) {
                        Err(missing())
                    } else {
                        s_function(src, opts, at(b, p), c)
                    }
                }
            },
        }
    }
}

/// `n` expressions in a row.
pub open spec fn s_args(src: Seq<u8>, opts: Options, st: CState, n: nat) -> Result<CState, Error>
    decreases src.len() - st.pos, 1int, n,
{
    if n == 0 {
        Ok(st)
    } else if !(0 <= st.pos <= src.len()) {
        Err(missing())
    } else {
        match s_expr(src, opts, st) {
            Err(e) => Err(e),
            Ok(s1) => if mono(src, st, s1) {
                s_args(src, opts, s1, (n - 1) as nat)
            } else {
                Err(missing())
            },
        }
    }
}

/// `n` expressions, then `op`.
pub open spec fn s_simple(src: Seq<u8>, opts: Options, st: CState, n: nat, op: Opcode) -> Result<CState, Error>
    decreases src.len() - st.pos, 2int, 0int,
{
    if !(0 <= st.pos <= src.len()) {
        Err(missing())
    } else {
        match s_args(src, opts, st, n) {
            Err(e) => Err(e),
            Ok(s1) => s_emit(s1, op, 0),
        }
    }
}

/// The function named by `f`, whose name has been read.
pub open spec fn s_function(src: Seq<u8>, opts: Options, st: CState, f: u8) -> Result<CState, Error>
    decreases src.len() - st.pos, 5int, 0int,
{
    if !(0 <= st.pos <= src.len()) {
        Err(missing())
    } else if f == 84 {
        s_constant(st, Datum::Boolean(true))
    } else if f == 70 {
        s_constant(st, Datum::Boolean(false))
    } else if f == 78 {
        s_constant(st, Datum::Null)
    } else if f == 64 {
        s_constant(st, Datum::List(Seq::empty()))
    } else if f == 80 {
        s_emit(st, Opcode::Prompt, 0)
    } else if f == 82 {
        s_emit(st, Opcode::Random, 0)
    } else if unary_op(f) is Some {
        s_simple(src, opts, st, 1, unary_op(f).unwrap())
    } else if binary_op(f) is Some {
        s_simple(src, opts, st, 2, binary_op(f).unwrap())
    } else if f == 71 {
        s_simple(src, opts, st, 3, Opcode::Get)
    } else if f == 83 {
        s_simple(src, opts, st, 4, Opcode::Splice)
    } else {
        s_control(src, opts, st, f)
    }
}

/// The functions that jump, sequence or assign.
pub open spec fn s_control(src: Seq<u8>, opts: Options, st: CState, f: u8) -> Result<CState, Error>
    decreases src.len() - st.pos, 4int, 0int,
{
    if !(0 <= st.pos <= src.len()) {
        Err(missing())
    } else if f == 58 {
        s_expr(src, opts, st)
    } else if f == 59 {
        s_sequence(src, opts, st)
    } else if f == 38 {
        s_short(src, opts, st, Opcode::JumpIfFalse)
    } else if f == 124 {
        s_short(src, opts, st, Opcode::JumpIfTrue)
    } else if f == 73 {
        s_conditional(src, opts, st)
    } else if f == 87 {
        s_while(src, opts, st)
    } else if f == 66 {
        s_block(src, opts, st)
    } else if f == 61 {
        s_assign(src, opts, st)
    } else {
        Err(Error::Parse(ParseError::UnknownFunction(f)))
    }
}

/// `; a b`: `a`, `Pop`, `b`.
pub open spec fn s_sequence(src: Seq<u8>, opts: Options, st: CState) -> Result<CState, Error>
    decreases src.len() - st.pos, 3int, 0int,
{
    if !(0 <= st.pos <= src.len()) {
        Err(missing())
    } else {
        match s_expr(src, opts, st) {
            Err(e) => Err(e),
            Ok(s1) => match s_emit(s1, Opcode::Pop, 0) {
                Err(e) => Err(e),
                Ok(s2) => if mono(src, st, s2) { s_expr(src, opts, s2) } else { Err(missing()) },
            },
        }
    }
}

/// `& a b` and `| a b`: `a`, `Dup`, the jump past `b`, `Pop`, `b`.
pub open spec fn s_short(src: Seq<u8>, opts: Options, st: CState, op: Opcode) -> Result<CState, Error>
    decreases src.len() - st.pos, 3int, 0int,
{
    if !(0 <= st.pos <= src.len()) {
        Err(missing())
    } else {
        match s_expr(src, opts, st) {
            Err(e) => Err(e),
            Ok(s1) => match s_emit(s1, Opcode::Dup, 0) {
                Err(e) => Err(e),
                Ok(s2) => match s_emit(s2, op, 0) {
                    Err(e) => Err(e),
                    Ok(s3) => match s_emit(s3, Opcode::Pop, 0) {
                        Err(e) => Err(e),
                        Ok(s4) => if !mono(src, st, s4) {
                            Err(missing())
                        } else {
                            match s_expr(src, opts, s4) {
                                Err(e) => Err(e),
                                Ok(s5) => Ok(s_patch(s5, s2.code.len() as int, op)),
                            }
                        },
                    },
                },
            },
        }
    }
}

/// `IF c t f`: `c`, a jump to `f` when false, `t`, a jump past `f`, `f`.
pub open spec fn s_conditional(src: Seq<u8>, opts: Options, st: CState) -> Result<CState, Error>
    decreases src.len() - st.pos, 3int, 0int,
{
    if !(0 <= st.pos <= src.len()) {
        Err(missing())
    } else {
        match s_expr(src, opts, st) {
            Err(e) => Err(e),
            Ok(s1) => match s_emit(s1, Opcode::JumpIfFalse, 0) {
                Err(e) => Err(e),
                Ok(s2) => if !mono(src, st, s2) {
                    Err(missing())
                } else {
                    match s_expr(src, opts, s2) {
                        Err(e) => Err(e),
                        Ok(s3) => match s_emit(s3, Opcode::Jump, 0) {
                            Err(e) => Err(e),
                            Ok(s4) => {
                                let s5 = s_patch(s4, s1.code.len() as int, Opcode::JumpIfFalse);
                                if !mono(src, st, s5) {
                                    Err(missing())
                                } else {
                                    match s_expr(src, opts, s5) {
                                        Err(e) => Err(e),
                                        Ok(s6) => Ok(s_patch(s6, s3.code.len() as int, Opcode::Jump)),
                                    }
                                }
                            },
                        },
                    }
                },
            },
        }
    }
}

/// `WHILE c b`: `c`, a jump past the loop when false, `b`, `Pop`, a jump back to `c`, then a
/// push of null.
pub open spec fn s_while(src: Seq<u8>, opts: Options, st: CState) -> Result<CState, Error>
    decreases src.len() - st.pos, 3int, 0int,
{
    if !(0 <= st.pos <= src.len()) {
        Err(missing())
    } else {
        match s_expr(src, opts, st) {
            Err(e) => Err(e),
            Ok(s1) => match s_emit(s1, Opcode::JumpIfFalse, 0) {
                Err(e) => Err(e),
                Ok(s2) => if !mono(src, st, s2) {
                    Err(missing())
                } else {
                    match s_expr(src, opts, s2) {
                        Err(e) => Err(e),
                        Ok(s3) => match s_emit(s3, Opcode::Pop, 0) {
                            Err(e) => Err(e),
                            Ok(s4) => match s_emit(s4, Opcode::Jump, st.code.len() as int) {
                                Err(e) => Err(e),
                                Ok(s5) => s_constant(
                                    s_patch(s5, s1.code.len() as int, Opcode::JumpIfFalse),
                                    Datum::Null,
                                ),
                            },
                        },
                    }
                },
            },
        }
    }
}

/// `BLOCK e`: a jump past the body, the body, `Return`, then a push of the block.
pub open spec fn s_block(src: Seq<u8>, opts: Options, st: CState) -> Result<CState, Error>
    decreases src.len() - st.pos, 3int, 0int,
{
    if !(0 <= st.pos <= src.len()) {
        Err(missing())
    } else {
        match s_emit(st, Opcode::Jump, 0) {
            Err(e) => Err(e),
            Ok(s1) => if !mono(src, st, s1) {
                Err(missing())
            } else {
                match s_expr(src, opts, s1) {
                    Err(e) => Err(e),
                    Ok(s2) => match s_emit(s2, Opcode::Return, 0) {
                        Err(e) => Err(e),
                        Ok(s3) => s_constant(
                            s_patch(s3, st.code.len() as int, Opcode::Jump),
                            Datum::Block(s1.code.len()),
                        ),
                    },
                }
            },
        }
    }
}

/// `= name e`: `e`, then the write of `name`.
pub open spec fn s_assign(src: Seq<u8>, opts: Options, st: CState) -> Result<CState, Error>
    decreases src.len() - st.pos, 3int, 0int,
{
    if !(0 <= st.pos <= src.len()) {
        Err(missing())
    } else {
        match s_blank(src, opts, st) {
            Err(e) => Err(e),
            Ok(b) => if !(0 <= b.pos < src.len()) {
                Err(missing())
            } else if !ident_start(src[b.pos]) {
                Err(Error::Parse(ParseError::AssignToNonVariable))
            } else {
                let e = ident_end(src, b.pos + 1);
                match s_blank(src, opts, at(b, e)) {
                    Err(err) => Err(err),
                    Ok(b2) => if !mono(src, st, b2) {
                        Err(missing())
                    } else {
                        s_assign_value(src, opts, b2, src.subrange(b.pos, e))
                    },
                }
            },
        }
    }
}

pub open spec fn s_assign_value(src: Seq<u8>, opts: Options, st: CState, name: Seq<u8>) -> Result<CState, Error>
    decreases src.len() - st.pos, 2int, 0int,
{
    if !(0 <= st.pos <= src.len()) {
        Err(missing())
    } else {
        match s_expr(src, opts, st) {
            Err(e) => Err(e),
            Ok(s1) => s_emit_var(opts, s1, Opcode::SetVar, name),
        }
    }
}

pub open spec fn start_state() -> CState {
    CState { pos: 0, depth: 0, code: Seq::empty(), constants: Seq::empty(), names: Seq::empty() }
}

/// What compiling `src` yields: one expression, the blanks after it, then `Return`; trailing
/// tokens and unbalanced parentheses are errors where the options ask.
pub open spec fn compiled(src: Seq<u8>, opts: Options) -> Result<CState, Error> {
    match s_expr(src, opts, start_state()) {
        Err(e) => Err(e),
        Ok(s1) => match s_blank(src, opts, s1) {
            Err(e) => Err(e),
            Ok(s2) => if opts.compliance.forbid_trailing_tokens && s2.pos < src.len() {
                Err(Error::Parse(ParseError::TrailingTokens))
            } else if opts.check_parens && s2.depth != 0 {
                Err(Error::Parse(ParseError::UnbalancedParens))
            } else {
                s_emit(s2, Opcode::Return, 0)
            },
        },
    }
}

/// Whether `r` is the outcome `s` prescribes, given the state `after` that produced it.
pub open spec fn follows<T>(r: Result<T, Error>, after: CState, s: Result<CState, Error>) -> bool {
    match s {
        Ok(st) => r is Ok && after == st,
        Err(e) => r is Err && r->Err_0 == e,
    }
}

} // verus!
