use vstd::prelude::*;
use crate::convert::{decimal, lemma_integer_text_round_trip};
use crate::error::{Error, NewTextError};
use crate::integer::{
    fits, half_word_range, lemma_wrap_bounds, wrap, wrap32, wrap_width, word_range,
};
use crate::ops::{equality, integer_op, plus, times};
use crate::options::Options;
use crate::program::Opcode;
use crate::seqs::{lemma_repeat_len, lemma_repeat_one, lemma_repeat_repeat, repeat_seq};
use crate::string::max_len;
use crate::value::{data_of, integer_of, lemma_data, text_of, Datum, List, Value};
use crate::compiler::compile_outcome;
use crate::grammar::{
    at, compiled, first_equal, lit_scan, s_args, s_blank, s_constant, s_emit, s_expr, s_function,
    s_number, s_simple, s_skip, s_string, start_state, unary_op, binary_op, word_end, quote_end, CState,
};
use crate::program::{lemma_word, word};
use crate::vm::{
    binary, is_binary, output_bytes, lemma_binary_step, lemma_output_step, lemma_return_step,
    continues, emitted, lemma_push_step, lemma_quit_step, outputs, run_post, run_trace, step_post, Event,
    Stop, Vm,
};
use crate::program::Program;

verus! {

/// An integer written as text and read back as an integer is the same integer, wherever it fits
/// the configured width; a string written as text is itself.
pub proof fn law_text_round_trip(i: i64, s: Seq<u8>, opts: Options)
    requires
        fits(i as int, opts),
    ensures
        text_of(Datum::Integer(i as int)) == Some(decimal(i as int)),
        integer_of(Datum::Str(decimal(i as int)), opts) == Ok::<i64, Error>(i),
        text_of(Datum::Str(s)) == Some(s),
{
    lemma_integer_text_round_trip(i, opts);
}

/// Without overflow checks, `+`, `-` and `*` on integers give the exact result wrapped into the
/// configured width, 32 or 64 bits: the one value of that signed range congruent to it.
pub proof fn law_wrapping_arithmetic(a: i64, b: i64, opts: Options)
    requires
        !opts.compliance.check_overflow,
    ensures
        plus(Datum::Integer(a as int), Datum::Integer(b as int), opts) == Ok::<Datum, Error>(
            Datum::Integer(wrap_width(a + b, opts)),
        ),
        integer_op(Datum::Integer(a as int), Datum::Integer(b as int), Opcode::Sub, opts) == Ok::<
            Datum,
            Error,
        >(Datum::Integer(wrap_width(a - b, opts))),
        integer_op(Datum::Integer(a as int), Datum::Integer(b as int), Opcode::Mul, opts) == Ok::<
            Datum,
            Error,
        >(Datum::Integer(wrap_width(a * b, opts))),
        forall|x: int| #![auto] i64::MIN <= wrap(x) <= i64::MAX && (wrap(x) - x) % word_range() == 0,
        forall|x: int| #![auto] i32::MIN <= wrap32(x) <= i32::MAX && (wrap32(x) - x) % half_word_range() == 0,
{
    lemma_wrap_bounds(a + b);
    lemma_wrap_bounds(a - b);
    lemma_wrap_bounds(a * b);
    lemma_wrap32_bounds(a + b);
    lemma_wrap32_bounds(a - b);
    lemma_wrap32_bounds(a * b);
    assert forall|x: int| #![auto] i64::MIN <= wrap(x) <= i64::MAX && (wrap(x) - x) % word_range() == 0 by {
        lemma_wrap_bounds(x);
        lemma_wrap_congruent(x, word_range(), i64::MAX as int);
    }
    assert forall|x: int| #![auto] i32::MIN <= wrap32(x) <= i32::MAX && (wrap32(x) - x) % half_word_range() == 0 by {
        lemma_wrap32_bounds(x);
        lemma_wrap_congruent(x, half_word_range(), i32::MAX as int);
    }
}

proof fn lemma_wrap32_bounds(x: int)
    ensures
        i32::MIN <= wrap32(x) <= i32::MAX,
{
    vstd::arithmetic::div_mod::lemma_mod_bound(x, half_word_range());
}

/// Reducing `x` modulo `r` into a signed range moves it by a multiple of `r`.
proof fn lemma_wrap_congruent(x: int, r: int, top: int)
    requires
        r > 0,
    ensures
        ((if x % r > top { x % r - r } else { x % r }) - x) % r == 0,
{
    let m = x % r;
    vstd::arithmetic::div_mod::lemma_fundamental_div_mod(x, r);
    let q = x / r;
    if m > top {
        assert(m - r - x == (-q - 1) * r) by (nonlinear_arith)
            requires
                x == r * q + m,
        ;
        vstd::arithmetic::div_mod::lemma_mod_multiples_basic(-q - 1, r);
    } else {
        assert(m - x == (-q) * r) by (nonlinear_arith)
            requires
                x == r * q + m,
        ;
        vstd::arithmetic::div_mod::lemma_mod_multiples_basic(-q, r);
    }
}

/// String concatenation is associative and adds lengths.
pub proof fn law_string_concat(a: Seq<u8>, b: Seq<u8>, c: Seq<u8>, opts: Options)
    requires
        a.len() + b.len() + c.len() <= max_len(opts),
    ensures
        plus(Datum::Str(a), Datum::Str(b), opts) == Ok::<Datum, Error>(Datum::Str(a + b)),
        (a + b).len() == a.len() + b.len(),
        plus(Datum::Str(a + b), Datum::Str(c), opts) == plus(
            Datum::Str(a),
            Datum::Str(b + c),
            opts,
        ),
{
    assert((a + b) + c =~= a + (b + c));
}

/// List concatenation is associative and adds lengths.
pub proof fn law_list_concat(a: Seq<Datum>, b: Seq<Datum>, c: Seq<Datum>, opts: Options)
    requires
        a.len() + b.len() + c.len() <= max_len(opts),
    ensures
        plus(Datum::List(a), Datum::List(b), opts) == Ok::<Datum, Error>(Datum::List(a + b)),
        (a + b).len() == a.len() + b.len(),
        plus(Datum::List(a + b), Datum::List(c), opts) == plus(
            Datum::List(a),
            Datum::List(b + c),
            opts,
        ),
{
    assert((a + b) + c =~= a + (b + c));
}

/// Repeating a string zero times gives the empty string, once gives the string, and `m` times
/// then `n` times is `m * n` times wherever that fits.
pub proof fn law_string_repeat(s: Seq<u8>, m: i64, n: i64, opts: Options)
    requires
        s.len() <= max_len(opts),
        0 <= m,
        0 <= n,
        s.len() * (m * n) <= max_len(opts),
        s.len() * m <= max_len(opts),
        fits(m as int, opts),
        fits(n as int, opts),
    ensures
        times(Datum::Str(s), Datum::Integer(0), opts) == Ok::<Datum, Error>(Datum::Str(Seq::empty())),
        times(Datum::Str(s), Datum::Integer(1), opts) == Ok::<Datum, Error>(Datum::Str(s)),
        times(Datum::Str(s), Datum::Integer(m as int), opts) is Ok,
        times(Datum::Str(repeat_seq(s, m as nat)), Datum::Integer(n as int), opts) == Ok::<
            Datum,
            Error,
        >(Datum::Str(repeat_seq(s, (m * n) as nat))),
{
    lemma_repeat_one(s);
    lemma_repeat_len(s, m as nat);
    lemma_repeat_repeat(s, m as nat, n as nat);
    assert(repeat_seq(s, 0) =~= Seq::<u8>::empty());
    assert(s.len() * 1 == s.len());
    assert(m * 1 == m);
    assert(s.len() * 0 == 0);
    assert(s.len() * m * n == s.len() * (m * n)) by (nonlinear_arith);
    assert(m * n >= 0) by (nonlinear_arith)
        requires
            m >= 0,
            n >= 0,
    ;
}

/// The list form of the repetition law.
pub proof fn law_list_repeat(l: Seq<Datum>, m: i64, n: i64, opts: Options)
    requires
        l.len() <= max_len(opts),
        0 <= m,
        0 <= n,
        l.len() * (m * n) <= max_len(opts),
        l.len() * m <= max_len(opts),
        fits(m as int, opts),
        fits(n as int, opts),
    ensures
        times(Datum::List(l), Datum::Integer(0), opts) == Ok::<Datum, Error>(Datum::List(Seq::empty())),
        times(Datum::List(l), Datum::Integer(1), opts) == Ok::<Datum, Error>(Datum::List(l)),
        times(Datum::List(repeat_seq(l, m as nat)), Datum::Integer(n as int), opts) == Ok::<
            Datum,
            Error,
        >(Datum::List(repeat_seq(l, (m * n) as nat))),
{
    lemma_repeat_one(l);
    lemma_repeat_len(l, m as nat);
    lemma_repeat_repeat(l, m as nat, n as nat);
    assert(repeat_seq(l, 0) =~= Seq::<Datum>::empty());
    assert(l.len() * 1 == l.len());
    assert(m * 1 == m);
    assert(l.len() * 0 == 0);
    assert(l.len() * m * n == l.len() * (m * n)) by (nonlinear_arith);
    assert(m * n >= 0) by (nonlinear_arith)
        requires
            m >= 0,
            n >= 0,
    ;
}

/// Equality looks at elements only: a list built by concatenating two lists is equal under `?`
/// to any list holding the same elements in one piece, however the two are stored.
pub proof fn law_structural_equality(x: List, y: List, joined: List, flat: List, opts: Options)
    requires
        joined@ == x@ + y@,
        flat.data() == x.data() + y.data(),
        !opts.compliance.check_equals_params,
    ensures
        equality(Value::List(joined).datum(), Value::List(flat).datum(), opts) == Ok::<Datum, Error>(
            Datum::Boolean(true),
        ),
{
    lemma_data(joined);
    lemma_data(x);
    lemma_data(y);
    crate::value::lemma_data_of_add(x@, y@);
}

/// Compiling the same source twice under the same options gives the same outcome: the same
/// error, or programs with the same code, the same constants and the same variable names.
pub proof fn law_compile_deterministic(
    r1: Result<Program, Error>,
    r2: Result<Program, Error>,
    src: Seq<u8>,
    opts: Options,
)
    requires
        compile_outcome(r1, src, opts),
        compile_outcome(r2, src, opts),
    ensures
        r1 is Ok <==> r2 is Ok,
        r1 is Err ==> r1 == r2,
        r1 is Ok ==> r1.unwrap().code@ == r2.unwrap().code@,
        r1 is Ok ==> data_of(r1.unwrap().constants@) == data_of(r2.unwrap().constants@),
        r1 is Ok ==> r1.unwrap().variables@.len() == r2.unwrap().variables@.len(),
        r1 is Ok ==> forall|i: int|
            0 <= i < r1.unwrap().variables@.len() ==> (#[trigger] r1.unwrap().variables@[i])@
                == r2.unwrap().variables@[i]@,
{
}

/// `QUIT 7` compiles to a push of the constant 7, `Quit`, and `Return`.
pub proof fn law_quit_seven_compiles(src: Seq<u8>, opts: Options)
    requires
        src == seq![81u8, 85, 73, 84, 32, 55],
    ensures
        compiled(src, opts) == Ok::<CState, Error>(
            CState {
                pos: 6,
                depth: 0,
                code: seq![
                    word(Opcode::PushConstant, 0) as u64,
                    word(Opcode::Quit, 0) as u64,
                    word(Opcode::Return, 0) as u64,
                ],
                constants: seq![Datum::Integer(7)],
                names: Seq::empty(),
            },
        ),
{
    reveal_with_fuel(s_skip, 3);
    reveal_with_fuel(word_end, 5);
    reveal_with_fuel(lit_scan, 3);
    let st0 = start_state();
    assert(s_skip(src, opts, 0, 0, false) == Ok::<(int, int), Error>((0, 0)));
    let b0 = at(st0, 0);
    assert(s_blank(src, opts, st0) == Ok::<CState, Error>(b0));
    assert(word_end(src, 1) == 4);
    let f0 = at(b0, 4);
    assert(unary_op(81) == Some(Opcode::Quit));
    assert(s_skip(src, opts, 4, 0, false) == Ok::<(int, int), Error>((5, 0)));
    let b1 = at(f0, 5);
    assert(s_blank(src, opts, f0) == Ok::<CState, Error>(b1));
    assert(lit_scan(src, 5, 0) == Ok::<(int, int), Error>((6, 7)));
    let n1 = at(b1, 6);
    assert(first_equal(n1.constants, Datum::Integer(7), 0) == 0);
    let c1 = CState {
        pos: 6,
        depth: 0,
        code: seq![word(Opcode::PushConstant, 0) as u64],
        constants: seq![Datum::Integer(7)],
        names: Seq::empty(),
    };
    assert(s_constant(n1, Datum::Integer(7)) == Ok::<CState, Error>(c1)) by {
        assert(n1.constants.push(Datum::Integer(7)) =~= seq![Datum::Integer(7)]);
        assert(n1.code.push(word(Opcode::PushConstant, 0) as u64) =~= c1.code);
    }
    assert(s_number(src, opts, b1) == Ok::<CState, Error>(c1));
    assert(s_expr(src, opts, f0) == Ok::<CState, Error>(c1));
    assert(s_args(src, opts, c1, 0) == Ok::<CState, Error>(c1));
    assert(s_args(src, opts, f0, 1) == Ok::<CState, Error>(c1));
    let c2 = CState {
        pos: 6,
        depth: 0,
        code: seq![word(Opcode::PushConstant, 0) as u64, word(Opcode::Quit, 0) as u64],
        constants: seq![Datum::Integer(7)],
        names: Seq::empty(),
    };
    assert(s_emit(c1, Opcode::Quit, 0) == Ok::<CState, Error>(c2)) by {
        assert(c1.code.push(word(Opcode::Quit, 0) as u64) =~= c2.code);
    }
    assert(s_simple(src, opts, f0, 1, Opcode::Quit) == Ok::<CState, Error>(c2));
    assert(s_function(src, opts, f0, 81) == Ok::<CState, Error>(c2));
    assert(s_expr(src, opts, st0) == Ok::<CState, Error>(c2));
    assert(s_skip(src, opts, 6, 0, false) == Ok::<(int, int), Error>((6, 0)));
    assert(s_blank(src, opts, c2) == Ok::<CState, Error>(c2));
    let c3 = CState {
        pos: 6,
        depth: 0,
        code: seq![
            word(Opcode::PushConstant, 0) as u64,
            word(Opcode::Quit, 0) as u64,
            word(Opcode::Return, 0) as u64,
        ],
        constants: seq![Datum::Integer(7)],
        names: Seq::empty(),
    };
    assert(s_emit(c2, Opcode::Return, 0) == Ok::<CState, Error>(c3)) by {
        assert(c2.code.push(word(Opcode::Return, 0) as u64) =~= c3.code);
    }
}

/// A machine that starts the compiled `QUIT 7` and may take two steps pushes 7, then quits with
/// status 7, writing nothing.
pub proof fn law_quit_seven_runs(start: Vm, end: Vm, fuel: nat, written: Seq<u8>, r: Result<Stop, Error>)
    requires
        start.program_of().code@ == seq![
            word(Opcode::PushConstant, 0) as u64,
            word(Opcode::Quit, 0) as u64,
            word(Opcode::Return, 0) as u64,
        ],
        data_of(start.program_of().constants@) == seq![Datum::Integer(7)],
        start.ip_of() == 0,
        start.stack_of().len() == 0,
        start.trace_of() == seq![0usize],
        fuel >= 2,
        run_post(start, end, fuel, written, r),
    ensures
        r == Err::<Stop, Error>(Error::Quit(7)),
        written == Seq::<u8>::empty(),
{
    lemma_word(Opcode::PushConstant, 0);
    lemma_word(Opcode::Quit, 0);
    lemma_word(Opcode::Return, 0);
    let (ms, mids, evs) = choose|ms: Seq<Vm>, mids: Seq<Vm>, evs: Seq<Result<Event, Error>>|
        run_trace(start, end, fuel, written, r, ms, mids, evs);
    assert(run_trace(start, end, fuel, written, r, ms, mids, evs));
    start.lemma_next();
    assert(evs.len() >= 1);
    assert(step_post(ms[0], mids[0], evs[0]));
    lemma_push_step(ms[0], mids[0], evs[0]);
    assert(evs.len() >= 2);
    assert(continues(mids[0], ms[1], evs[0]));
    let m1 = ms[1];
    assert(m1.stack_of() =~= seq![start.program_of().constants@[0]]);
    assert(data_of(start.program_of().constants@).len() == 1);
    assert(start.program_of().constants@.len() == 1);
    assert(start.program_of().constants@[0].datum() == data_of(start.program_of().constants@)[0]);
    m1.lemma_next();
    assert(step_post(ms[1], mids[1], evs[1]));
    lemma_quit_step(ms[1], mids[1], evs[1]);
    assert(evs[1] == Err::<Event, Error>(Error::Quit(7)));
    assert(!continues(mids[1], ms[2], evs[1]));
    assert(evs.len() == 2);
    let e1 = evs.drop_last();
    assert(e1.drop_last() =~= Seq::<Result<Event, Error>>::empty());
    assert(e1.last() == evs[0]);
    assert(emitted(evs[0]) =~= Seq::<u8>::empty());
    assert(emitted(evs[1]) =~= Seq::<u8>::empty());
    assert(outputs(e1.drop_last()) =~= Seq::<u8>::empty());
    assert(outputs(e1) == outputs(e1.drop_last()) + emitted(e1.last()));
    assert(outputs(e1) =~= Seq::<u8>::empty());
    assert(outputs(evs) == outputs(e1) + emitted(evs.last()));
    assert(outputs(evs) =~= Seq::<u8>::empty());
}

/// `QUIT 7`, compiled and run from the start with room for two steps, quits with status 7 and
/// writes nothing.
pub proof fn law_quit_seven(
    src: Seq<u8>,
    opts: Options,
    p: Result<Program, Error>,
    start: Vm,
    end: Vm,
    fuel: nat,
    written: Seq<u8>,
    r: Result<Stop, Error>,
)
    requires
        src == seq![81u8, 85, 73, 84, 32, 55],
        compile_outcome(p, src, opts),
        p is Ok ==> start.program_of() == p.unwrap(),
        start.ip_of() == 0,
        start.stack_of().len() == 0,
        start.trace_of() == seq![0usize],
        fuel >= 2,
        run_post(start, end, fuel, written, r),
    ensures
        p is Ok,
        r == Err::<Stop, Error>(Error::Quit(7)),
        written == Seq::<u8>::empty(),
{
    law_quit_seven_compiles(src, opts);
    law_quit_seven_runs(start, end, fuel, written, r);
}

/// The first step of a run with room for one is recorded.
proof fn lemma_trace_first(
    start: Vm, end: Vm, fuel: nat, written: Seq<u8>, r: Result<Stop, Error>,
    ms: Seq<Vm>, mids: Seq<Vm>, evs: Seq<Result<Event, Error>>,
)
    requires
        run_trace(start, end, fuel, written, r, ms, mids, evs),
        fuel >= 1,
    ensures
        evs.len() >= 1,
        mids.len() >= 1,
        ms[0] == start,
        step_post(ms[0], mids[0], evs[0]),
{
    match r {
        Ok(Stop::OutOfSteps) => {
            assert(step_post(ms[0], mids[0], evs[0]));
        },
        _ => {
            if evs.len() > 1 {
                assert(step_post(ms[0], mids[0], evs[0]));
            }
        },
    }
}

/// A recorded step that neither finished nor failed, with budget left after it, is followed by
/// another recorded step.
proof fn lemma_trace_goes_on(
    start: Vm, end: Vm, fuel: nat, written: Seq<u8>, r: Result<Stop, Error>,
    ms: Seq<Vm>, mids: Seq<Vm>, evs: Seq<Result<Event, Error>>, i: int,
)
    requires
        run_trace(start, end, fuel, written, r, ms, mids, evs),
        0 <= i < evs.len(),
        i + 1 < fuel,
        evs[i] == Ok::<Event, Error>(Event::Running) || evs[i] is Ok && evs[i]->Ok_0 is Output,
    ensures
        evs.len() > i + 1,
        continues(mids[i], ms[i + 1], evs[i]),
        step_post(ms[i + 1], mids[i + 1], evs[i + 1]),
{
    match r {
        Ok(Stop::OutOfSteps) => {
            assert(step_post(ms[i], mids[i], evs[i]));
            assert(step_post(ms[i + 1], mids[i + 1], evs[i + 1]));
        },
        _ => {
            assert(i != evs.len() - 1);
            assert(step_post(ms[i], mids[i], evs[i]));
            if i + 1 < evs.len() - 1 {
                assert(step_post(ms[i + 1], mids[i + 1], evs[i + 1]));
            }
        },
    }
}

/// `OUTPUT + 1 2` compiles to pushes of 1 and 2, `Add`, `Output` and `Return`.
pub proof fn law_output_sum_compiles(src: Seq<u8>, opts: Options)
    requires
        src == seq![79u8, 85, 84, 80, 85, 84, 32, 43, 32, 49, 32, 50],
    ensures
        compiled(src, opts) == Ok::<CState, Error>(
            CState {
                pos: 12,
                depth: 0,
                code: seq![
                    word(Opcode::PushConstant, 0) as u64,
                    word(Opcode::PushConstant, 1) as u64,
                    word(Opcode::Add, 0) as u64,
                    word(Opcode::Output, 0) as u64,
                    word(Opcode::Return, 0) as u64,
                ],
                constants: seq![Datum::Integer(1), Datum::Integer(2)],
                names: Seq::empty(),
            },
        ),
{
    reveal_with_fuel(s_skip, 3);
    reveal_with_fuel(word_end, 7);
    reveal_with_fuel(lit_scan, 3);
    reveal_with_fuel(first_equal, 3);
    let st0 = start_state();
    assert(s_skip(src, opts, 0, 0, false) == Ok::<(int, int), Error>((0, 0)));
    assert(s_blank(src, opts, st0) == Ok::<CState, Error>(at(st0, 0)));
    assert(word_end(src, 1) == 6);
    let f0 = at(st0, 6);
    assert(unary_op(79) == Some(Opcode::Output));
    assert(s_skip(src, opts, 6, 0, false) == Ok::<(int, int), Error>((7, 0)));
    assert(s_blank(src, opts, f0) == Ok::<CState, Error>(at(st0, 7)));
    let f1 = at(st0, 8);
    assert(unary_op(43) is None && binary_op(43) == Some(Opcode::Add));
    assert(s_skip(src, opts, 8, 0, false) == Ok::<(int, int), Error>((9, 0)));
    assert(s_blank(src, opts, f1) == Ok::<CState, Error>(at(st0, 9)));
    assert(lit_scan(src, 9, 0) == Ok::<(int, int), Error>((10, 1)));
    let a = CState {
        pos: 10,
        depth: 0,
        code: seq![word(Opcode::PushConstant, 0) as u64],
        constants: seq![Datum::Integer(1)],
        names: Seq::empty(),
    };
    assert(s_constant(at(st0, 10), Datum::Integer(1)) == Ok::<CState, Error>(a)) by {
        assert(Seq::<Datum>::empty().push(Datum::Integer(1)) =~= a.constants);
        assert(Seq::<u64>::empty().push(word(Opcode::PushConstant, 0) as u64) =~= a.code);
    }
    assert(s_number(src, opts, at(st0, 9)) == Ok::<CState, Error>(a));
    assert(s_expr(src, opts, f1) == Ok::<CState, Error>(a));
    assert(s_skip(src, opts, 10, 0, false) == Ok::<(int, int), Error>((11, 0)));
    assert(s_blank(src, opts, a) == Ok::<CState, Error>(at(a, 11)));
    assert(lit_scan(src, 11, 0) == Ok::<(int, int), Error>((12, 2)));
    let b = CState {
        pos: 12,
        depth: 0,
        code: seq![word(Opcode::PushConstant, 0) as u64, word(Opcode::PushConstant, 1) as u64],
        constants: seq![Datum::Integer(1), Datum::Integer(2)],
        names: Seq::empty(),
    };
    assert(first_equal(a.constants, Datum::Integer(2), 0) == 1);
    assert(s_constant(at(a, 12), Datum::Integer(2)) == Ok::<CState, Error>(b)) by {
        assert(a.constants.push(Datum::Integer(2)) =~= b.constants);
        assert(a.code.push(word(Opcode::PushConstant, 1) as u64) =~= b.code);
    }
    assert(s_number(src, opts, at(a, 11)) == Ok::<CState, Error>(b));
    assert(s_expr(src, opts, a) == Ok::<CState, Error>(b));
    assert(s_args(src, opts, b, 0) == Ok::<CState, Error>(b));
    assert(s_args(src, opts, a, 1) == Ok::<CState, Error>(b));
    assert(s_args(src, opts, f1, 2) == Ok::<CState, Error>(b));
    let c = CState { code: b.code.push(word(Opcode::Add, 0) as u64), ..b };
    assert(s_simple(src, opts, f1, 2, Opcode::Add) == Ok::<CState, Error>(c));
    assert(s_function(src, opts, f1, 43) == Ok::<CState, Error>(c));
    assert(s_expr(src, opts, f0) == Ok::<CState, Error>(c));
    assert(s_args(src, opts, c, 0) == Ok::<CState, Error>(c));
    assert(s_args(src, opts, f0, 1) == Ok::<CState, Error>(c));
    let d = CState { code: c.code.push(word(Opcode::Output, 0) as u64), ..c };
    assert(s_simple(src, opts, f0, 1, Opcode::Output) == Ok::<CState, Error>(d));
    assert(s_function(src, opts, f0, 79) == Ok::<CState, Error>(d));
    assert(s_expr(src, opts, st0) == Ok::<CState, Error>(d));
    assert(s_skip(src, opts, 12, 0, false) == Ok::<(int, int), Error>((12, 0)));
    assert(s_blank(src, opts, d) == Ok::<CState, Error>(d));
    let e = CState { code: d.code.push(word(Opcode::Return, 0) as u64), ..d };
    assert(e.code =~= seq![
        word(Opcode::PushConstant, 0) as u64,
        word(Opcode::PushConstant, 1) as u64,
        word(Opcode::Add, 0) as u64,
        word(Opcode::Output, 0) as u64,
        word(Opcode::Return, 0) as u64,
    ]);
}

proof fn lemma_outputs_step(evs: Seq<Result<Event, Error>>, k: int)
    requires
        0 <= k < evs.len(),
    ensures
        outputs(evs.take(k + 1)) == outputs(evs.take(k)) + emitted(evs[k]),
{
    assert(evs.take(k + 1).drop_last() =~= evs.take(k));
    assert(evs.take(k + 1).last() == evs[k]);
}

/// A machine that starts a program pushing two constants, applying an operator of two
/// arguments to them and writing the result, with room for five steps, writes the result's text
/// and a newline, then finishes with null.
pub proof fn law_binary_output_runs(
    start: Vm,
    end: Vm,
    fuel: nat,
    written: Seq<u8>,
    r: Result<Stop, Error>,
    op: Opcode,
    a: Datum,
    b: Datum,
    t: Seq<u8>,
)
    requires
        is_binary(op),
        start.program_of().code@ == seq![
            word(Opcode::PushConstant, 0) as u64,
            word(Opcode::PushConstant, 1) as u64,
            word(op, 0) as u64,
            word(Opcode::Output, 0) as u64,
            word(Opcode::Return, 0) as u64,
        ],
        data_of(start.program_of().constants@) == seq![a, b],
        binary(op, a, b, start.options_of()) is Ok,
        text_of(binary(op, a, b, start.options_of())->Ok_0) == Some(t),
        t.len() <= crate::string::max_len(start.options_of()),
        start.ip_of() == 0,
        start.stack_of().len() == 0,
        start.trace_of() == seq![0usize],
        fuel >= 5,
        run_post(start, end, fuel, written, r),
    ensures
        r == Ok::<Stop, Error>(Stop::Finished(Value::Null)),
        written == output_bytes(t),
{
    lemma_word(Opcode::PushConstant, 0);
    lemma_word(Opcode::PushConstant, 1);
    lemma_word(op, 0);
    lemma_word(Opcode::Output, 0);
    lemma_word(Opcode::Return, 0);
    let cs = start.program_of().constants@;
    assert(data_of(cs).len() == 2);
    assert(cs[0].datum() == data_of(cs)[0]);
    assert(cs[1].datum() == data_of(cs)[1]);
    let (ms, mids, evs) = choose|ms: Seq<Vm>, mids: Seq<Vm>, evs: Seq<Result<Event, Error>>|
        run_trace(start, end, fuel, written, r, ms, mids, evs);
    assert(run_trace(start, end, fuel, written, r, ms, mids, evs));
    lemma_trace_first(start, end, fuel, written, r, ms, mids, evs);
    start.lemma_next();
    lemma_push_step(ms[0], mids[0], evs[0]);
    lemma_trace_goes_on(start, end, fuel, written, r, ms, mids, evs, 0);
    assert(ms[1] == mids[0]);
    ms[1].lemma_next();
    lemma_push_step(ms[1], mids[1], evs[1]);
    lemma_trace_goes_on(start, end, fuel, written, r, ms, mids, evs, 1);
    assert(ms[2] == mids[1]);
    ms[2].lemma_next();
    let st2 = ms[2].stack_of();
    assert(st2.len() == 2 && st2[0] == cs[0] && st2[1] == cs[1]);
    lemma_binary_step(ms[2], mids[2], evs[2]);
    lemma_trace_goes_on(start, end, fuel, written, r, ms, mids, evs, 2);
    assert(ms[3] == mids[2]);
    ms[3].lemma_next();
    let top = ms[3].stack_of().last();
    assert(top.datum() == binary(op, a, b, start.options_of())->Ok_0);
    lemma_output_step(ms[3], mids[3], evs[3]);
    lemma_trace_goes_on(start, end, fuel, written, r, ms, mids, evs, 3);
    assert(ms[4] == mids[3]);
    ms[4].lemma_next();
    assert(ms[4].stack_of() =~= seq![Value::Null]);
    lemma_return_step(ms[4], mids[4], evs[4]);
    assert(evs[4] == Ok::<Event, Error>(Event::Finished(Value::Null)));
    assert(evs.len() == 5) by {
        if evs.len() > 5 {
            match r {
                Ok(Stop::OutOfSteps) => {
                    assert(step_post(ms[4], mids[4], evs[4]) && continues(mids[4], ms[5], evs[4]));
                },
                _ => {
                    assert(step_post(ms[4], mids[4], evs[4]) && continues(mids[4], ms[5], evs[4]));
                },
            }
        }
        if let Ok(Stop::OutOfSteps) = r {
            assert(step_post(ms[4], mids[4], evs[4]) && continues(mids[4], ms[5], evs[4]));
        }
    }
    lemma_outputs_step(evs, 0);
    lemma_outputs_step(evs, 1);
    lemma_outputs_step(evs, 2);
    lemma_outputs_step(evs, 3);
    lemma_outputs_step(evs, 4);
    assert(evs.take(0) =~= Seq::<Result<Event, Error>>::empty());
    assert(evs.take(5) =~= evs);
    assert(emitted(evs[0]) =~= Seq::<u8>::empty());
    assert(emitted(evs[1]) =~= Seq::<u8>::empty());
    assert(emitted(evs[2]) =~= Seq::<u8>::empty());
    assert(emitted(evs[4]) =~= Seq::<u8>::empty());
    assert(outputs(evs) =~= output_bytes(t));
}

/// A machine that starts the compiled `OUTPUT + 1 2` and may take five steps writes `3` and a
/// newline, then finishes with null.
pub proof fn law_output_sum_runs(start: Vm, end: Vm, fuel: nat, written: Seq<u8>, r: Result<Stop, Error>)
    requires
        start.program_of().code@ == seq![
            word(Opcode::PushConstant, 0) as u64,
            word(Opcode::PushConstant, 1) as u64,
            word(Opcode::Add, 0) as u64,
            word(Opcode::Output, 0) as u64,
            word(Opcode::Return, 0) as u64,
        ],
        data_of(start.program_of().constants@) == seq![Datum::Integer(1), Datum::Integer(2)],
        start.ip_of() == 0,
        start.stack_of().len() == 0,
        start.trace_of() == seq![0usize],
        fuel >= 5,
        run_post(start, end, fuel, written, r),
    ensures
        r == Ok::<Stop, Error>(Stop::Finished(Value::Null)),
        written == seq![51u8, 10],
{
    let opts = start.options_of();
    crate::integer::lemma_wrap_in_range(3);
    vstd::arithmetic::div_mod::lemma_small_mod(3, 0x1_0000_0000);
    assert(crate::integer::wrap_width(3, opts) == 3);
    assert(binary(Opcode::Add, Datum::Integer(1), Datum::Integer(2), opts) == Ok::<Datum, Error>(Datum::Integer(3)));
    assert(decimal(3) =~= seq![51u8]);
    law_binary_output_runs(start, end, fuel, written, r, Opcode::Add, Datum::Integer(1), Datum::Integer(2), seq![51u8]);
    assert(output_bytes(seq![51u8]) =~= seq![51u8, 10]);
}

/// `OUTPUT + 1 2`, compiled and run from the start with room for five steps, writes `3` and a
/// newline and finishes with null.
pub proof fn law_output_sum(
    src: Seq<u8>,
    opts: Options,
    p: Result<Program, Error>,
    start: Vm,
    end: Vm,
    fuel: nat,
    written: Seq<u8>,
    r: Result<Stop, Error>,
)
    requires
        src == seq![79u8, 85, 84, 80, 85, 84, 32, 43, 32, 49, 32, 50],
        compile_outcome(p, src, opts),
        p is Ok ==> start.program_of() == p.unwrap(),
        start.ip_of() == 0,
        start.stack_of().len() == 0,
        start.trace_of() == seq![0usize],
        fuel >= 5,
        run_post(start, end, fuel, written, r),
    ensures
        p is Ok,
        r == Ok::<Stop, Error>(Stop::Finished(Value::Null)),
        written == seq![51u8, 10],
{
    law_output_sum_compiles(src, opts);
    law_output_sum_runs(start, end, fuel, written, r);
}

/// `OUTPUT * "ab" 3` compiles to pushes of `"ab"` and 3, `Mul`, `Output` and `Return`.
pub proof fn law_output_repeat_compiles(src: Seq<u8>, opts: Options)
    requires
        src == seq![79u8, 85, 84, 80, 85, 84, 32, 42, 32, 34, 97, 98, 34, 32, 51],
    ensures
        compiled(src, opts) == Ok::<CState, Error>(
            CState {
                pos: 15,
                depth: 0,
                code: seq![
                    word(Opcode::PushConstant, 0) as u64,
                    word(Opcode::PushConstant, 1) as u64,
                    word(Opcode::Mul, 0) as u64,
                    word(Opcode::Output, 0) as u64,
                    word(Opcode::Return, 0) as u64,
                ],
                constants: seq![Datum::Str(seq![97u8, 98]), Datum::Integer(3)],
                names: Seq::empty(),
            },
        ),
{
    reveal_with_fuel(s_skip, 3);
    reveal_with_fuel(word_end, 7);
    reveal_with_fuel(lit_scan, 3);
    reveal_with_fuel(first_equal, 3);
    reveal_with_fuel(quote_end, 4);
    reveal_with_fuel(crate::string::first_invalid, 4);
    let st0 = start_state();
    assert(s_skip(src, opts, 0, 0, false) == Ok::<(int, int), Error>((0, 0)));
    assert(s_blank(src, opts, st0) == Ok::<CState, Error>(at(st0, 0)));
    assert(word_end(src, 1) == 6);
    let f0 = at(st0, 6);
    assert(unary_op(79) == Some(Opcode::Output));
    assert(s_skip(src, opts, 6, 0, false) == Ok::<(int, int), Error>((7, 0)));
    assert(s_blank(src, opts, f0) == Ok::<CState, Error>(at(st0, 7)));
    let f1 = at(st0, 8);
    assert(unary_op(42) is None && binary_op(42) == Some(Opcode::Mul));
    assert(s_skip(src, opts, 8, 0, false) == Ok::<(int, int), Error>((9, 0)));
    assert(s_blank(src, opts, f1) == Ok::<CState, Error>(at(st0, 9)));
    assert(quote_end(src, 10, 34) == 12);
    let bytes = src.subrange(10, 12);
    assert(bytes =~= seq![97u8, 98]);
    assert(crate::string::first_invalid(bytes, opts.encoding, 0) == 2);
    assert(crate::string::validation(bytes, opts) == Ok::<(), NewTextError>(()));
    let a = CState {
        pos: 13,
        depth: 0,
        code: seq![word(Opcode::PushConstant, 0) as u64],
        constants: seq![Datum::Str(seq![97u8, 98])],
        names: Seq::empty(),
    };
    assert(s_constant(at(st0, 13), Datum::Str(bytes)) == Ok::<CState, Error>(a)) by {
        assert(Seq::<Datum>::empty().push(Datum::Str(bytes)) =~= a.constants);
        assert(Seq::<u64>::empty().push(word(Opcode::PushConstant, 0) as u64) =~= a.code);
    }
    assert(s_string(src, opts, at(st0, 9), 34) == Ok::<CState, Error>(a));
    assert(s_expr(src, opts, f1) == Ok::<CState, Error>(a));
    assert(s_skip(src, opts, 13, 0, false) == Ok::<(int, int), Error>((14, 0)));
    assert(s_blank(src, opts, a) == Ok::<CState, Error>(at(a, 14)));
    assert(lit_scan(src, 14, 0) == Ok::<(int, int), Error>((15, 3)));
    let b = CState {
        pos: 15,
        depth: 0,
        code: seq![word(Opcode::PushConstant, 0) as u64, word(Opcode::PushConstant, 1) as u64],
        constants: seq![Datum::Str(seq![97u8, 98]), Datum::Integer(3)],
        names: Seq::empty(),
    };
    assert(first_equal(a.constants, Datum::Integer(3), 0) == 1);
    assert(s_constant(at(a, 15), Datum::Integer(3)) == Ok::<CState, Error>(b)) by {
        assert(a.constants.push(Datum::Integer(3)) =~= b.constants);
        assert(a.code.push(word(Opcode::PushConstant, 1) as u64) =~= b.code);
    }
    assert(s_number(src, opts, at(a, 14)) == Ok::<CState, Error>(b));
    assert(s_expr(src, opts, a) == Ok::<CState, Error>(b));
    assert(s_args(src, opts, b, 0) == Ok::<CState, Error>(b));
    assert(s_args(src, opts, a, 1) == Ok::<CState, Error>(b));
    assert(s_args(src, opts, f1, 2) == Ok::<CState, Error>(b));
    let c = CState { code: b.code.push(word(Opcode::Mul, 0) as u64), ..b };
    assert(s_simple(src, opts, f1, 2, Opcode::Mul) == Ok::<CState, Error>(c));
    assert(s_function(src, opts, f1, 42) == Ok::<CState, Error>(c));
    assert(s_expr(src, opts, f0) == Ok::<CState, Error>(c));
    assert(s_args(src, opts, c, 0) == Ok::<CState, Error>(c));
    assert(s_args(src, opts, f0, 1) == Ok::<CState, Error>(c));
    let d = CState { code: c.code.push(word(Opcode::Output, 0) as u64), ..c };
    assert(s_simple(src, opts, f0, 1, Opcode::Output) == Ok::<CState, Error>(d));
    assert(s_function(src, opts, f0, 79) == Ok::<CState, Error>(d));
    assert(s_expr(src, opts, st0) == Ok::<CState, Error>(d));
    assert(s_skip(src, opts, 15, 0, false) == Ok::<(int, int), Error>((15, 0)));
    assert(s_blank(src, opts, d) == Ok::<CState, Error>(d));
    let e = CState { code: d.code.push(word(Opcode::Return, 0) as u64), ..d };
    assert(e.code =~= seq![
        word(Opcode::PushConstant, 0) as u64,
        word(Opcode::PushConstant, 1) as u64,
        word(Opcode::Mul, 0) as u64,
        word(Opcode::Output, 0) as u64,
        word(Opcode::Return, 0) as u64,
    ]);
}

/// `OUTPUT * "ab" 3`, compiled and run from the start with room for five steps, writes
/// `ababab` and a newline and finishes with null.
pub proof fn law_output_repeat(
    src: Seq<u8>,
    opts: Options,
    p: Result<Program, Error>,
    start: Vm,
    end: Vm,
    fuel: nat,
    written: Seq<u8>,
    r: Result<Stop, Error>,
)
    requires
        src == seq![79u8, 85, 84, 80, 85, 84, 32, 42, 32, 34, 97, 98, 34, 32, 51],
        compile_outcome(p, src, opts),
        p is Ok ==> start.program_of() == p.unwrap(),
        start.ip_of() == 0,
        start.stack_of().len() == 0,
        start.trace_of() == seq![0usize],
        fuel >= 5,
        run_post(start, end, fuel, written, r),
    ensures
        p is Ok,
        r == Ok::<Stop, Error>(Stop::Finished(Value::Null)),
        written == seq![97u8, 98, 97, 98, 97, 98, 10],
{
    law_output_repeat_compiles(src, opts);
    let o = start.options_of();
    let ab = seq![97u8, 98];
    reveal_with_fuel(repeat_seq, 4);
    assert(repeat_seq(ab, 3) =~= seq![97u8, 98, 97, 98, 97, 98]);
    assert(ab.len() * 3 == 6);
    assert(binary(Opcode::Mul, Datum::Str(ab), Datum::Integer(3), o) == Ok::<Datum, Error>(
        Datum::Str(seq![97u8, 98, 97, 98, 97, 98]),
    ));
    law_binary_output_runs(
        start,
        end,
        fuel,
        written,
        r,
        Opcode::Mul,
        Datum::Str(ab),
        Datum::Integer(3),
        seq![97u8, 98, 97, 98, 97, 98],
    );
    assert(output_bytes(seq![97u8, 98, 97, 98, 97, 98]) =~= seq![97u8, 98, 97, 98, 97, 98, 10]);
}

} // verus!
