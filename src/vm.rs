use vstd::prelude::*;
use crate::error::{Domain, Error, Kind, RuntimeError};
use crate::ops::{
    dump_text, ascii, caret, equality, get, head, integer_op, length, negation, not, ordering, plus, replaced,
    tail, times, yields,
};
use crate::options::Options;
use crate::program::{decode, offset_of, op_of, Opcode, Program};
use crate::string::KString;
use crate::gc::{keeps_used, represents, Heap};
use crate::packed;
use crate::value::{text_of, Datum, List, Value};

verus! {

/// Relies on `rand::random::<u32>`: a value drawn from the thread-local generator. Nothing is
/// promised of it.
#[verifier::external_body]
fn random_u32() -> (r: u32) {
    rand::random::<u32>()
}

/// What a step of the machine asks of its host.
pub enum Event {
    /// Nothing; keep stepping.
    Running,
    /// Write these bytes to the output.
    Output(Vec<u8>),
    /// Read a line and hand it to `supply_line`.
    Prompt,
    /// The program ended with this value.
    Finished(Value),
}

/// The bytes `OUTPUT` writes for text `t`: a trailing backslash is dropped, else a newline is
/// added.
pub open spec fn output_bytes(t: Seq<u8>) -> Seq<u8> {
    if t.len() > 0 && t.last() == 92 {
        t.drop_last()
    } else {
        t.push(10)
    }
}

/// The value `PROMPT` yields for a line read, without its line ending; null at the end of input.
pub open spec fn prompt_datum(line: Option<Seq<u8>>) -> Datum {
    match line {
        Some(l) => Datum::Str(
            if l.len() > 0 && l.last() == 10 {
                let m = l.drop_last();
                if m.len() > 0 && m.last() == 13 { m.drop_last() } else { m }
            } else {
                l
            },
        ),
        None => Datum::Null,
    }
}

/// What `QUIT` raises for the status its argument coerces to: the status itself where it fits
/// an `i32` and, where statuses are checked, lies in `0..=127`.
pub open spec fn quit_outcome(status: Result<i64, Error>, opts: Options) -> Result<Event, Error> {
    match status {
        Ok(code) => if (opts.compliance.check_quit_status_codes && (code < 0 || code > 127)) || code
            < i32::MIN || code > i32::MAX {
            Err(Error::Domain(Domain::QuitStatus))
        } else {
            Err(Error::Quit(code as i32))
        },
        Err(e) => Err(e),
    }
}

/// The integer `RANDOM` yields for the drawn word `raw`: reduced below 32768 where the range is
/// limited, below 2^31 for 32-bit integers, else the word itself.
pub open spec fn random_of(raw: u32, opts: Options) -> int {
    if opts.compliance.limit_rand_range {
        raw as int % 32768
    } else if opts.compliance.i32_integer {
        raw as int % 0x8000_0000
    } else {
        raw as int
    }
}

/// The integer `RANDOM` yields for the drawn word `raw`.
pub fn random_value(raw: u32, opts: &Options) -> (r: i64)
    ensures
        r == random_of(raw, *opts),
        0 <= r,
        opts.compliance.limit_rand_range ==> r <= 32767,
        opts.compliance.i32_integer ==> r <= i32::MAX,
{
    if opts.compliance.limit_rand_range {
        (raw % 32768) as i64
    } else if opts.compliance.i32_integer {
        (raw % 0x8000_0000) as i64
    } else {
        raw as i64
    }
}

/// What one step of the machine does, from `before` to `after`, when it yields `r`: every
/// clause of `Vm::step`'s contract.
#[verifier::opaque]
pub open spec fn step_post(before: Vm, after: Vm, r: Result<Event, Error>) -> bool {
    &&& (after.wf())
    &&& (after.program_of() == before.program_of())
    &&& (after.options_of() == before.options_of())
    &&& (after.variables_of().len() == before.variables_of().len())
    &&& (before.next_op() == Opcode::PushConstant ==> r == Ok::<Event, Error>(Event::Running) && after.stack_of()
                    == before.stack_of().push(before.program_of().constants@[before.next_offset()])
                    && after.ip_of() == before.ip_of() + 1)
    &&& (before.next_op() == Opcode::Jump ==> r is Ok && after.ip_of() == before.next_offset()
                    && after.stack_of() == before.stack_of())
    &&& (before.next_op() == Opcode::Return && before.stack_of().len() > 0 && before.trace_of().len() == 1
                    ==> r == Ok::<Event, Error>(Event::Finished(before.stack_of().last())))
    &&& (before.next_op() == Opcode::Return && before.stack_of().len() > 0 && before.trace_of().len() > 1
                    ==> r == Ok::<Event, Error>(Event::Running) && after.stack_of() == before.stack_of()
                    && after.ip_of() == before.trace_of()[before.trace_of().len() - 2]
                    && after.trace_of() == before.trace_of().drop_last().drop_last().push(after.ip_of() as usize))
    &&& (before.next_op() == Opcode::Quit && before.stack_of().len() >= 1 ==> r == quit_outcome(
                    crate::value::integer_of(before.stack_of().last().datum(), before.options_of()),
                    before.options_of(),
                ))
    &&& ((before.next_op() == Opcode::JumpIfTrue || before.next_op() == Opcode::JumpIfFalse)
                    && before.stack_of().len() > 0 ==> match crate::value::truth(
                    before.stack_of().last().datum(),
                    before.options_of(),
                ) {
                    Ok(t) => r is Ok && after.stack_of() == before.stack_of().drop_last()
                        && after.ip_of() == (if t == (before.next_op() == Opcode::JumpIfTrue) {
                        before.next_offset()
                    } else {
                        before.ip_of() + 1
                    }),
                    Err(e) => r == Err::<Event, Error>(e) && after.stack_of() == before.stack_of().drop_last(),
                })
    &&& (before.next_op() == Opcode::GetVar ==> after.ip_of() == before.ip_of() + 1 && match before.variables_of()[before.next_offset()] {
                    Some(v) => r is Ok && after.stack_of() == before.stack_of().push(v),
                    None => r == Err::<Event, Error>(Error::UndefinedVariable(before.next_offset() as usize))
                        && after.stack_of() == before.stack_of(),
                })
    &&& (before.next_op() == Opcode::SetVar && before.stack_of().len() > 0 ==> r is Ok
                    && after.ip_of() == before.ip_of() + 1 && after.variables_of() == before.variables_of().update(
                    before.next_offset(),
                    Some(before.stack_of().last()),
                ) && after.stack_of() == before.stack_of())
    &&& ((is_unary(before.next_op()) || is_binary(before.next_op())) && r is Ok ==> r == Ok::<Event, Error>(Event::Running))
    &&& (before.next_op() != Opcode::Call && before.next_op() != Opcode::Return ==> after.trace_of().len()
        == before.trace_of().len())
    &&& (is_unary(before.next_op()) && before.stack_of().len() >= 1 ==> yields(
                    match r {
                        Ok(_) => Ok(after.stack_of().last()),
                        Err(e) => Err(e),
                    },
                    unary(before.next_op(), before.stack_of().last().datum(), before.options_of()),
                ) && (r is Ok ==> after.stack_of().drop_last() == before.stack_of().drop_last()
                    && after.stack_of().len() == before.stack_of().len() && after.ip_of()
                    == before.ip_of() + 1) && (r is Err ==> after.stack_of() == before.stack_of().drop_last()))
    &&& (is_binary(before.next_op()) && before.stack_of().len() >= 2 ==> yields(
                    match r {
                        Ok(_) => Ok(after.stack_of().last()),
                        Err(e) => Err(e),
                    },
                    binary(
                        before.next_op(),
                        before.stack_of()[before.stack_of().len() - 2].datum(),
                        before.stack_of().last().datum(),
                        before.options_of(),
                    ),
                ) && (r is Ok ==> after.stack_of().drop_last() == before.stack_of().subrange(
                    0,
                    before.stack_of().len() - 2,
                ) && after.stack_of().len() == before.stack_of().len() - 1 && after.ip_of()
                    == before.ip_of() + 1) && (r is Err ==> after.stack_of() == before.stack_of().subrange(
                    0,
                    before.stack_of().len() - 2,
                )))
    &&& (before.next_op() == Opcode::Output && before.stack_of().len() >= 1 && text_of(
                    before.stack_of().last().datum(),
                ) is Some && text_of(before.stack_of().last().datum()).unwrap().len()
                    <= crate::string::max_len(before.options_of()) ==> r is Ok && r.unwrap() == Event::Output(
                    r.unwrap()->Output_0,
                ) && r.unwrap()->Output_0@ == output_bytes(
                    text_of(before.stack_of().last().datum()).unwrap(),
                ) && after.stack_of() == before.stack_of().drop_last().push(Value::Null)
                    && after.ip_of() == before.ip_of() + 1)
    &&& (before.next_op() == Opcode::Output && before.stack_of().len() >= 1 && r is Err
                    ==> after.stack_of() == before.stack_of().drop_last())
    &&& (before.next_op() != Opcode::SetVar ==> after.variables_of() == before.variables_of())
    &&& (before.next_op() == Opcode::Random ==> r == Ok::<Event, Error>(Event::Running)
                    && after.ip_of() == before.ip_of() + 1 && exists|raw: u32|
                    after.stack_of() == before.stack_of().push(
                        Value::Integer(random_of(raw, before.options_of()) as i64),
                    ))
    &&& (before.next_op() == Opcode::Prompt ==> r == Ok::<Event, Error>(Event::Prompt)
                    && after.ip_of() == before.ip_of() + 1 && after.stack_of() == before.stack_of())
    &&& (before.next_op() == Opcode::Call && before.stack_of().len() > 0 && before.stack_of().last() is Block
                    && (before.stack_of().last()->Block_0 as int) < before.program_of().code@.len() ==> r is Ok
                    && after.ip_of() == before.stack_of().last()->Block_0 && after.trace_of()
                    == before.trace_of().drop_last().push((before.ip_of() + 1) as usize).push(after.ip_of() as usize)
                    && after.stack_of() == before.stack_of().drop_last())
    &&& (before.next_op() == Opcode::Dump && before.stack_of().len() >= 1 ==> after.stack_of()
                    == before.stack_of() && after.ip_of() == before.ip_of() + 1 && match dump_text(before.stack_of().last().datum(), before.options_of()) {
                    Some(t) => r is Ok && r.unwrap() is Output && r.unwrap()->Output_0@ == t,
                    None => r == Err::<Event, Error>(Error::TypeError { kind: Kind::Block, op: Opcode::Dump }),
                })
    &&& (before.next_op() == Opcode::Dup && before.stack_of().len() > 0 ==> r == Ok::<Event, Error>(
                    Event::Running,
                ) && after.ip_of() == before.ip_of() + 1 && after.stack_of() == before.stack_of().push(
                    before.stack_of().last(),
                ))
    &&& (before.next_op() == Opcode::Pop && before.stack_of().len() > 0 ==> r == Ok::<Event, Error>(
                    Event::Running,
                ) && after.ip_of() == before.ip_of() + 1 && after.stack_of() == before.stack_of().drop_last())
    &&& (before.next_op() == Opcode::Get && before.stack_of().len() >= 3 ==> {
                    let st = before.stack_of();
                    let n = st.len();
                    yields(
                        match r {
                            Ok(_) => Ok(after.stack_of().last()),
                            Err(e) => Err(e),
                        },
                        get(st[n - 3].datum(), st[n - 2].datum(), st[n - 1].datum(), before.options_of()),
                    ) && (r is Ok ==> after.stack_of() == st.subrange(0, n - 3).push(after.stack_of().last())
                        && after.ip_of() == before.ip_of() + 1) && (r is Err ==> after.stack_of() == st.subrange(0, n - 3))
                })
    &&& (before.next_op() == Opcode::Splice && before.stack_of().len() >= 4 ==> {
                    let st = before.stack_of();
                    let n = st.len();
                    yields(
                        match r {
                            Ok(_) => Ok(after.stack_of().last()),
                            Err(e) => Err(e),
                        },
                        replaced(st[n - 4].datum(), st[n - 3].datum(), st[n - 2].datum(), st[n - 1].datum(), before.options_of()),
                    ) && (r is Ok ==> after.stack_of() == st.subrange(0, n - 4).push(after.stack_of().last())
                        && after.ip_of() == before.ip_of() + 1) && (r is Err ==> after.stack_of() == st.subrange(0, n - 4))
                })
}

/// Whether `next` is `mid` after `supply_line` handed it `line`.
pub open spec fn prompted(mid: Vm, next: Vm, line: Option<Seq<u8>>) -> bool {
    &&& next.program_of() == mid.program_of()
    &&& next.options_of() == mid.options_of()
    &&& next.variables_of() == mid.variables_of()
    &&& next.trace_of() == mid.trace_of()
    &&& next.ip_of() == mid.ip_of()
    &&& next.stack_of().len() == mid.stack_of().len() + 1
    &&& next.stack_of().drop_last() == mid.stack_of()
    &&& next.stack_of().last().datum() == prompt_datum(line)
}

/// Whether a run goes on from `mid`, where a step left the machine with event `ev`, to `next`:
/// unchanged after running or output, given a line or the end of input after a prompt.
pub open spec fn continues(mid: Vm, next: Vm, ev: Result<Event, Error>) -> bool {
    match ev {
        Ok(Event::Running) => next == mid,
        Ok(Event::Output(_)) => next == mid,
        Ok(Event::Prompt) => exists|line: Option<Seq<u8>>| prompted(mid, next, line),
        _ => false,
    }
}

/// The bytes a step's event writes.
pub open spec fn emitted(ev: Result<Event, Error>) -> Seq<u8> {
    match ev {
        Ok(Event::Output(b)) => b@,
        _ => Seq::empty(),
    }
}

/// The bytes a run of steps writes, in order.
pub open spec fn outputs(evs: Seq<Result<Event, Error>>) -> Seq<u8>
    decreases evs.len(),
{
    if evs.len() == 0 {
        Seq::empty()
    } else {
        outputs(evs.drop_last()) + emitted(evs.last())
    }
}

/// Whether the first `n` steps of a run went on: step `i` took `ms[i]` to `mids[i]` with event
/// `evs[i]`, and the run continued from there to `ms[i + 1]`.
pub open spec fn steps_continue(ms: Seq<Vm>, mids: Seq<Vm>, evs: Seq<Result<Event, Error>>, n: int) -> bool {
    &&& ms.len() >= n + 1
    &&& mids.len() >= n
    &&& evs.len() >= n
    &&& forall|i: int| 0 <= i < n ==> step_post(#[trigger] ms[i], mids[i], evs[i]) && continues(mids[i], ms[i + 1], evs[i])
}

/// What a run with a budget of `fuel` steps from `start` did, ending in `end`, writing `written`
/// and yielding `r`: `fuel` steps that all went on; or some that went on and then one that
/// finished or failed, no more than `fuel` in all.
pub open spec fn run_post(start: Vm, end: Vm, fuel: nat, written: Seq<u8>, r: Result<Stop, Error>) -> bool {
    exists|ms: Seq<Vm>, mids: Seq<Vm>, evs: Seq<Result<Event, Error>>|
        #[trigger] run_trace(start, end, fuel, written, r, ms, mids, evs)
}

/// `run_post` with the machines and events of the run named.
pub open spec fn run_trace(
    start: Vm,
    end: Vm,
    fuel: nat,
    written: Seq<u8>,
    r: Result<Stop, Error>,
    ms: Seq<Vm>,
    mids: Seq<Vm>,
    evs: Seq<Result<Event, Error>>,
) -> bool {
    {
        &&& ms.len() >= 1 && ms[0] == start
        &&& ms.len() >= evs.len() && mids.len() == evs.len()
        &&& written == outputs(evs)
        &&& match r {
            Ok(Stop::OutOfSteps) => evs.len() == fuel && steps_continue(ms, mids, evs, fuel as int) && end == ms[fuel as int],
            Ok(Stop::Finished(v)) => 1 <= evs.len() <= fuel && steps_continue(ms, mids, evs, evs.len() - 1)
                && step_post(ms[evs.len() - 1], mids[evs.len() - 1], evs.last()) && evs.last() == Ok::<Event, Error>(Event::Finished(v))
                && end == mids[evs.len() - 1],
            Err(e) => 1 <= evs.len() <= fuel && steps_continue(ms, mids, evs, evs.len() - 1)
                && step_post(ms[evs.len() - 1], mids[evs.len() - 1], evs.last()) && evs.last() == Err::<Event, Error>(e)
                && end == mids[evs.len() - 1],
        }
    }
}

/// A step of `PushConstant` pushes its constant and moves on.
pub proof fn lemma_push_step(a: Vm, b: Vm, r: Result<Event, Error>)
    requires
        step_post(a, b, r),
        a.next_op() == Opcode::PushConstant,
    ensures
        r == Ok::<Event, Error>(Event::Running),
        b.stack_of() == a.stack_of().push(a.program_of().constants@[a.next_offset()]),
        b.program_of() == a.program_of(),
        b.options_of() == a.options_of(),
        b.ip_of() == a.ip_of() + 1,
        b.trace_of().len() == a.trace_of().len(),
{
    reveal(step_post);
}

/// A step of an operator of two arguments replaces them by its result and moves on.
pub proof fn lemma_binary_step(a: Vm, b: Vm, r: Result<Event, Error>)
    requires
        step_post(a, b, r),
        is_binary(a.next_op()),
        a.stack_of().len() >= 2,
        binary(a.next_op(), a.stack_of()[a.stack_of().len() - 2].datum(), a.stack_of().last().datum(), a.options_of()) is Ok,
    ensures
        r == Ok::<Event, Error>(Event::Running),
        b.stack_of().len() == a.stack_of().len() - 1,
        b.stack_of().drop_last() == a.stack_of().subrange(0, a.stack_of().len() - 2),
        b.stack_of().last().datum() == binary(a.next_op(), a.stack_of()[a.stack_of().len() - 2].datum(), a.stack_of().last().datum(), a.options_of())->Ok_0,
        b.program_of() == a.program_of(),
        b.options_of() == a.options_of(),
        b.ip_of() == a.ip_of() + 1,
        b.trace_of().len() == a.trace_of().len(),
{
    reveal(step_post);
}

/// A step of `Output` on a value with a text writes it and leaves null in its place.
pub proof fn lemma_output_step(a: Vm, b: Vm, r: Result<Event, Error>)
    requires
        step_post(a, b, r),
        a.next_op() == Opcode::Output,
        a.stack_of().len() >= 1,
        text_of(a.stack_of().last().datum()) is Some,
        text_of(a.stack_of().last().datum()).unwrap().len() <= crate::string::max_len(a.options_of()),
    ensures
        r is Ok && r.unwrap() is Output,
        r.unwrap()->Output_0@ == output_bytes(text_of(a.stack_of().last().datum()).unwrap()),
        b.stack_of() == a.stack_of().drop_last().push(Value::Null),
        b.program_of() == a.program_of(),
        b.options_of() == a.options_of(),
        b.ip_of() == a.ip_of() + 1,
        b.trace_of().len() == a.trace_of().len(),
{
    reveal(step_post);
}

/// A step of `Return` at the outermost level ends the run with the top of the stack.
pub proof fn lemma_return_step(a: Vm, b: Vm, r: Result<Event, Error>)
    requires
        step_post(a, b, r),
        a.next_op() == Opcode::Return,
        a.stack_of().len() >= 1,
        a.trace_of().len() == 1,
    ensures
        r == Ok::<Event, Error>(Event::Finished(a.stack_of().last())),
{
    reveal(step_post);
}

/// A step of `Quit` with an argument raises what `quit_outcome` names.
pub proof fn lemma_quit_step(a: Vm, b: Vm, r: Result<Event, Error>)
    requires
        step_post(a, b, r),
        a.next_op() == Opcode::Quit,
        a.stack_of().len() >= 1,
    ensures
        r == quit_outcome(crate::value::integer_of(a.stack_of().last().datum(), a.options_of()), a.options_of()),
{
    reveal(step_post);
}

/// What a one-argument operator yields.
pub open spec fn unary(op: Opcode, a: Datum, opts: Options) -> Result<Datum, Error> {
    match op {
        Opcode::Length => length(a, opts),
        Opcode::Not => not(a, opts),
        Opcode::Negate => negation(a, opts),
        Opcode::Ascii => ascii(a, opts),
        Opcode::Box => Ok(Datum::List(seq![a])),
        Opcode::Head => head(a),
        _ => tail(a),
    }
}

pub open spec fn is_unary(op: Opcode) -> bool {
    op == Opcode::Length || op == Opcode::Not || op == Opcode::Negate || op == Opcode::Ascii
        || op == Opcode::Box || op == Opcode::Head || op == Opcode::Tail
}

/// What a two-argument operator yields.
pub open spec fn binary(op: Opcode, a: Datum, b: Datum, opts: Options) -> Result<Datum, Error> {
    match op {
        Opcode::Add => plus(a, b, opts),
        Opcode::Mul => times(a, b, opts),
        Opcode::Pow => caret(a, b, opts),
        Opcode::Lth | Opcode::Gth => ordering(a, b, op, opts),
        Opcode::Eql => equality(a, b, opts),
        _ => integer_op(a, b, op, opts),
    }
}

pub open spec fn is_binary(op: Opcode) -> bool {
    op == Opcode::Add || op == Opcode::Sub || op == Opcode::Mul || op == Opcode::Div || op
        == Opcode::Mod || op == Opcode::Pow || op == Opcode::Lth || op == Opcode::Gth || op
        == Opcode::Eql
}

/// The stack machine that runs a compiled program.
///
/// Its values are the tagged-union `Value`s, whose strings and lists are shared by reference
/// counting and freed when the last handle goes; it does not allocate through `gc::Heap`.
pub struct Vm {
    program: Program,
    opts: Options,
    ip: usize,
    stack: Vec<Value>,
    variables: Vec<Option<Value>>,
    callstack: Vec<usize>,
}

impl Vm {
    pub closed spec fn wf(&self) -> bool {
        &&& self.program.wf()
        &&& self.ip < self.program.code@.len()
        &&& self.variables@.len() == self.program.variables@.len()
        &&& forall|i: int| 0 <= i < self.callstack@.len() ==> #[trigger] self.callstack@[i] < self.program.code@.len()
    }

    pub closed spec fn program_of(&self) -> Program {
        self.program
    }

    pub closed spec fn options_of(&self) -> Options {
        self.opts
    }

    pub closed spec fn ip_of(&self) -> int {
        self.ip as int
    }

    pub closed spec fn stack_of(&self) -> Seq<Value> {
        self.stack@
    }

    pub closed spec fn variables_of(&self) -> Seq<Option<Value>> {
        self.variables@
    }

    /// The opcode of the instruction about to run.
    pub closed spec fn next_op(&self) -> Opcode {
        op_of(self.program.code@[self.ip as int]).unwrap()
    }

    /// The immediate of the instruction about to run.
    pub closed spec fn next_offset(&self) -> int {
        offset_of(self.program.code@[self.ip as int])
    }

    /// The instruction about to run is the one at the instruction pointer.
    pub proof fn lemma_next(self)
        ensures
            self.next_op() == op_of(self.program_of().code@[self.ip_of()]).unwrap(),
            self.next_offset() == offset_of(self.program_of().code@[self.ip_of()]),
    {
    }

    /// A machine at the start of `program`, with every variable unassigned.
    pub fn new(program: Program, opts: Options) -> (r: Vm)
        requires
            program.wf(),
        ensures
            r.wf(),
            r.program_of() == program,
            r.options_of() == opts,
            r.ip_of() == 0,
            r.stack_of().len() == 0,
            r.trace_of() == seq![0usize],
            r.variables_of().len() == program.variables@.len(),
            forall|i: int| 0 <= i < r.variables_of().len() ==> #[trigger] r.variables_of()[i] is None,
    {
        let n = program.variables.len();
        let mut variables: Vec<Option<Value>> = Vec::new();
        let mut i: usize = 0;
        while i < n
            invariant
                0 <= i <= n,
                variables@.len() == i,
                forall|j: int| 0 <= j < i ==> #[trigger] variables@[j] is None,
            decreases n - i,
        {
            variables.push(None);
            i = i + 1;
        }
        Vm { program, opts, ip: 0, stack: Vec::new(), variables, callstack: Vec::new() }
    }

    /// The entry points of the blocks being run, outermost first, then the instruction
    /// pointer.
    pub closed spec fn trace_of(&self) -> Seq<usize> {
        self.callstack@.push(self.ip)
    }

    /// The name of the variable with index `i`, as `Error::UndefinedVariable` reports it.
    pub fn variable_name(&self, i: usize) -> (r: Option<&Vec<u8>>)
        ensures
            i < self.program_of().variables@.len() ==> r == Some(&self.program_of().variables@[i as int]),
            i >= self.program_of().variables@.len() ==> r is None,
    {
        self.program.variable_name(i)
    }

    /// `err` with the chain of blocks that was being run when it was raised.
    pub fn trace(&self, err: Error) -> (r: RuntimeError)
        ensures
            r.err == err,
            r.callstack@ == self.trace_of(),
    {
        let mut callstack: Vec<usize> = Vec::new();
        let mut i: usize = 0;
        while i < self.callstack.len()
            invariant
                0 <= i <= self.callstack@.len(),
                callstack@ == self.callstack@.subrange(0, i as int),
            decreases self.callstack@.len() - i,
        {
            callstack.push(self.callstack[i]);
            i = i + 1;
            assert(callstack@ =~= self.callstack@.subrange(0, i as int));
        }
        assert(self.callstack@.subrange(0, self.callstack@.len() as int) =~= self.callstack@);
        callstack.push(self.ip);
        RuntimeError { err, callstack }
    }

    /// The name of the block whose code holds instruction `at`: the named block that starts
    /// last at or before it.
    pub fn block_name_at(&self, at: usize) -> (r: Option<&Vec<u8>>)
        ensures
            r is Some ==> exists|i: int|
                0 <= i < self.program_of().block_names@.len() && self.program_of().block_names@[i].0 <= at
                    && r.unwrap()@ == self.program_of().block_names@[i].1@ && forall|j: int|
                    0 <= j < self.program_of().block_names@.len() && self.program_of().block_names@[j].0 <= at
                        ==> #[trigger] self.program_of().block_names@[j].0 <= self.program_of().block_names@[i].0,
            r is None ==> forall|j: int|
                0 <= j < self.program_of().block_names@.len() ==> #[trigger] self.program_of().block_names@[j].0 > at,
    {
        let names = &self.program.block_names;
        let mut best: Option<usize> = None;
        let mut i: usize = 0;
        while i < names.len()
            invariant
                0 <= i <= names@.len(),
                names == &self.program.block_names,
                best is Some ==> best.unwrap() < names@.len() && names@[best.unwrap() as int].0 <= at
                    && forall|j: int| 0 <= j < i && names@[j].0 <= at ==> #[trigger] names@[j].0 <= names@[best.unwrap() as int].0,
                best is None ==> forall|j: int| 0 <= j < i ==> #[trigger] names@[j].0 > at,
            decreases names@.len() - i,
        {
            if names[i].0 <= at {
                match best {
                    Some(b) => {
                        if names[b].0 <= names[i].0 {
                            best = Some(i);
                        }
                    },
                    None => {
                        best = Some(i);
                    },
                }
            }
            i = i + 1;
        }
        match best {
            Some(b) => {
                let r = &names[b].1;
                proof {
                    let bn = self.program_of().block_names@;
                    assert(bn == names@);
                    assert(forall|j: int| 0 <= j < bn.len() && bn[j].0 <= at ==> #[trigger] bn[j].0 <= bn[b as int].0);
                    assert(0 <= b < bn.len() && bn[b as int].0 <= at && r@ == bn[b as int].1@);
                }
                Some(r)
            },
            None => None,
        }
    }

    fn pop(&mut self) -> (r: Result<Value, Error>)
        requires
            old(self).wf(),
        ensures
            final(self).wf(),
            final(self).program == old(self).program,
            final(self).opts == old(self).opts,
            final(self).ip == old(self).ip,
            final(self).variables == old(self).variables,
            final(self).callstack == old(self).callstack,
            old(self).stack@.len() > 0 ==> r == Ok::<Value, Error>(old(self).stack@.last())
                && final(self).stack@ == old(self).stack@.drop_last(),
            old(self).stack@.len() == 0 ==> r == Err::<Value, Error>(Error::MalformedProgram),
    {
        match self.stack.pop() {
            Some(v) => Ok(v),
            None => Err(Error::MalformedProgram),
        }
    }

    /// Hands the machine the line that `PROMPT` asked for; `None` at the end of input.
    pub fn supply_line(&mut self, line: Option<Vec<u8>>)
        requires
            old(self).wf(),
        ensures
            final(self).wf(),
            final(self).program_of() == old(self).program_of(),
            final(self).options_of() == old(self).options_of(),
            final(self).variables_of() == old(self).variables_of(),
            final(self).trace_of() == old(self).trace_of(),
            final(self).ip_of() == old(self).ip_of(),
            final(self).stack_of().len() == old(self).stack_of().len() + 1,
            final(self).stack_of().drop_last() == old(self).stack_of(),
            final(self).stack_of().last().datum() == prompt_datum(
                match line {
                    Some(l) => Some(l@),
                    None => None,
                },
            ),
    {
        let v = match line {
            Some(mut l) => {
                let n = l.len();
                if n > 0 && l[n - 1] == 10 {
                    l.pop();
                    let m = l.len();
                    if m > 0 && l[m - 1] == 13 {
                        l.pop();
                    }
                }
                Value::Str(KString::new_unvalidated(l))
            },
            None => Value::Null,
        };
        self.stack.push(v);
    }

    fn push(&mut self, v: Value)
        requires
            old(self).wf(),
        ensures
            final(self).wf(),
            final(self).program == old(self).program,
            final(self).opts == old(self).opts,
            final(self).ip == old(self).ip,
            final(self).variables == old(self).variables,
            final(self).callstack == old(self).callstack,
            final(self).stack@ == old(self).stack@.push(v),
    {
        self.stack.push(v);
    }


    /// Instructions that move values between the constants, the variables and the stack, or
    /// move the instruction pointer.
    fn exec_data(&mut self, op: Opcode, offset: usize) -> (r: Result<Event, Error>)
        requires
            old(self).wf(),
            op_of(old(self).program.code@[old(self).ip - 1]) == Some(op),
            offset_of(old(self).program.code@[old(self).ip - 1]) <= usize::MAX ==> offset_of(
                old(self).program.code@[old(self).ip - 1],
            ) == offset,
            old(self).ip >= 1,
            op == Opcode::PushConstant || op == Opcode::Jump || op == Opcode::JumpIfTrue || op
                == Opcode::JumpIfFalse || op == Opcode::GetVar || op == Opcode::SetVar || op
                == Opcode::Prompt || op == Opcode::Random || op == Opcode::Dup || op == Opcode::Pop
                || op == Opcode::Call,
        ensures
            op != Opcode::Call ==> final(self).callstack == old(self).callstack,
            final(self).wf(),
            final(self).program == old(self).program,
            final(self).opts == old(self).opts,
            final(self).variables@.len() == old(self).variables@.len(),
            op == Opcode::PushConstant ==> r == Ok::<Event, Error>(Event::Running) && final(self).stack@ == old(self).stack@.push(
                old(self).program.constants@[offset as int],
            ) && final(self).ip == old(self).ip,
            op == Opcode::Jump ==> r is Ok && final(self).ip == offset && final(self).stack@ == old(
                self,
            ).stack@,
            op == Opcode::GetVar ==> final(self).ip == old(self).ip && match old(self).variables@[offset as int] {
                Some(v) => r is Ok && final(self).stack@ == old(self).stack@.push(v),
                None => r == Err::<Event, Error>(Error::UndefinedVariable(offset)) && final(self).stack@ == old(self).stack@,
            },
            op == Opcode::SetVar && old(self).stack@.len() > 0 ==> r is Ok && final(self).ip == old(self).ip && final(self).variables@
                == old(self).variables@.update(offset as int, Some(old(self).stack@.last()))
                && final(self).stack@ == old(self).stack@,
            (op == Opcode::JumpIfTrue || op == Opcode::JumpIfFalse) && old(self).stack@.len() > 0
                ==> match crate::value::truth(old(self).stack@.last().datum(), old(self).opts) {
                Ok(t) => r is Ok && final(self).stack@ == old(self).stack@.drop_last() && final(self).ip
                    == (if t == (op == Opcode::JumpIfTrue) { offset } else { old(self).ip }),
                Err(e) => r == Err::<Event, Error>(e) && final(self).stack@ == old(self).stack@.drop_last(),
            },
            op != Opcode::SetVar ==> final(self).variables == old(self).variables,
            op == Opcode::Random ==> r == Ok::<Event, Error>(Event::Running) && final(self).ip == old(self).ip
                && exists|raw: u32| final(self).stack@ == old(self).stack@.push(Value::Integer(random_of(raw, old(self).opts) as i64)),
            op == Opcode::Prompt ==> r == Ok::<Event, Error>(Event::Prompt) && final(self).ip == old(self).ip
                && final(self).stack@ == old(self).stack@,
            op == Opcode::Dup && old(self).stack@.len() > 0 ==> r == Ok::<Event, Error>(Event::Running)
                && final(self).ip == old(self).ip && final(self).stack@ == old(self).stack@.push(old(self).stack@.last()),
            op == Opcode::Pop && old(self).stack@.len() > 0 ==> r == Ok::<Event, Error>(Event::Running)
                && final(self).ip == old(self).ip && final(self).stack@ == old(self).stack@.drop_last(),
            op == Opcode::Call && old(self).stack@.len() > 0 && old(self).stack@.last() is Block
                && (old(self).stack@.last()->Block_0 as int) < old(self).program.code@.len() ==> r is Ok
                && final(self).ip == old(self).stack@.last()->Block_0 && final(self).callstack@
                == old(self).callstack@.push(old(self).ip) && final(self).stack@ == old(self).stack@.drop_last(),
    {
        proof {
            assert(crate::program::word_fits(
                self.program.code@[self.ip - 1],
                self.program.code@.len() - 1,
                self.program.constants@.len() as int,
                self.program.variables@.len() as int,
            ));
        }
        match op {
            Opcode::PushConstant => {
                let c = self.program.constants[offset].duplicate();
                self.push(c);
                Ok(Event::Running)
            },
            Opcode::Jump => {
                self.ip = offset;
                Ok(Event::Running)
            },
            Opcode::JumpIfTrue | Opcode::JumpIfFalse => {
                let v = self.pop()?;
                let t = v.to_bool(&self.opts)?;
                if t == (op == Opcode::JumpIfTrue) {
                    self.ip = offset;
                }
                Ok(Event::Running)
            },
            Opcode::GetVar => {
                match &self.variables[offset] {
                    Some(v) => {
                        let v = v.duplicate();
                        self.push(v);
                        Ok(Event::Running)
                    },
                    None => Err(Error::UndefinedVariable(offset)),
                }
            },
            Opcode::SetVar => {
                let n = self.stack.len();
                if n == 0 {
                    return Err(Error::MalformedProgram);
                }
                let v = self.stack[n - 1].duplicate();
                self.variables.set(offset, Some(v));
                Ok(Event::Running)
            },
            Opcode::Prompt => Ok(Event::Prompt),
            Opcode::Random => {
                let raw = random_u32();
                let v = random_value(raw, &self.opts);
                self.push(Value::Integer(v));
                Ok(Event::Running)
            },
            Opcode::Dup => {
                let n = self.stack.len();
                if n == 0 {
                    return Err(Error::MalformedProgram);
                }
                let v = self.stack[n - 1].duplicate();
                self.push(v);
                Ok(Event::Running)
            },
            Opcode::Pop => {
                self.pop()?;
                Ok(Event::Running)
            },
            _ => {
                let v = self.pop()?;
                match v {
                    Value::Block(b) => {
                        if b >= self.program.code.len() {
                            return Err(Error::MalformedProgram);
                        }
                        let back = self.ip;
                        self.callstack.push(back);
                        self.ip = b;
                        Ok(Event::Running)
                    },
                    other => Err(Error::TypeError { kind: other.kind(), op: Opcode::Call }),
                }
            },
        }
    }

    /// `DUMP`, `QUIT` and `OUTPUT`.
    fn exec_io(&mut self, op: Opcode) -> (r: Result<Event, Error>)
        requires
            old(self).wf(),
            op == Opcode::Dump || op == Opcode::Quit || op == Opcode::Output,
        ensures
            final(self).wf(),
            final(self).program == old(self).program,
            final(self).opts == old(self).opts,
            final(self).variables@.len() == old(self).variables@.len(),
            final(self).variables == old(self).variables,
            final(self).callstack == old(self).callstack,
            final(self).ip == old(self).ip,
            op == Opcode::Output && old(self).stack@.len() >= 1 && text_of(old(self).stack@.last().datum()) is Some
                && text_of(old(self).stack@.last().datum()).unwrap().len() <= crate::string::max_len(old(self).opts)
                ==> r is Ok && r.unwrap() is Output && r.unwrap()->Output_0@ == output_bytes(
                text_of(old(self).stack@.last().datum()).unwrap(),
            ) && final(self).stack@ == old(self).stack@.drop_last().push(Value::Null),
            op == Opcode::Dump && old(self).stack@.len() >= 1 ==> final(self).stack@ == old(self).stack@ && match dump_text(
                old(self).stack@.last().datum(),
                old(self).opts,
            ) {
                Some(t) => r is Ok && r.unwrap() is Output && r.unwrap()->Output_0@ == t,
                None => r == Err::<Event, Error>(Error::TypeError { kind: Kind::Block, op: Opcode::Dump }),
            },
            op == Opcode::Output && old(self).stack@.len() >= 1 && r is Err ==> final(self).stack@ == old(self).stack@.drop_last(),
            op == Opcode::Quit && old(self).stack@.len() >= 1 ==> final(self).stack@ == old(self).stack@.drop_last(),
            op == Opcode::Quit && old(self).stack@.len() >= 1 ==> r == quit_outcome(
                crate::value::integer_of(old(self).stack@.last().datum(), old(self).opts),
                old(self).opts,
            ),
    {
        match op {
            Opcode::Dump => {
                let n = self.stack.len();
                if n == 0 {
                    return Err(Error::MalformedProgram);
                }
                let mut out: Vec<u8> = Vec::new();
                self.stack[n - 1].dump_into(&mut out, &self.opts)?;
                Ok(Event::Output(out))
            },
            Opcode::Quit => {
                let v = self.pop()?;
                let code = v.to_integer(&self.opts)?;
                if self.opts.compliance.check_quit_status_codes && (code < 0 || code > 127) {
                    return Err(Error::Domain(Domain::QuitStatus));
                }
                if code < i32::MIN as i64 || code > i32::MAX as i64 {
                    return Err(Error::Domain(Domain::QuitStatus));
                }
                Err(Error::Quit(code as i32))
            },
            _ => {
                let v = self.pop()?;
                let t = v.to_knstr(&self.opts)?;
                let mut out: Vec<u8> = Vec::new();
                let bytes = t.as_bytes();
                let mut i: usize = 0;
                while i < bytes.len()
                    invariant
                        0 <= i <= bytes@.len(),
                        out@ == bytes@.subrange(0, i as int),
                    decreases bytes@.len() - i,
                {
                    out.push(bytes[i]);
                    i = i + 1;
                    assert(out@ =~= bytes@.subrange(0, i as int));
                }
                assert(bytes@.subrange(0, bytes@.len() as int) =~= bytes@);
                let n = out.len();
                if n > 0 && out[n - 1] == 92 {
                    out.pop();
                } else {
                    out.push(10);
                }
                self.push(Value::Null);
                Ok(Event::Output(out))
            },
        }
    }

    /// The operators of one argument.
    fn exec_unary(&mut self, op: Opcode) -> (r: Result<Event, Error>)
        requires
            old(self).wf(),
            is_unary(op),
        ensures
            r is Ok ==> r == Ok::<Event, Error>(Event::Running),
            final(self).wf(),
            final(self).program == old(self).program,
            final(self).opts == old(self).opts,
            final(self).variables@.len() == old(self).variables@.len(),
            final(self).variables == old(self).variables,
            final(self).callstack == old(self).callstack,
            final(self).ip == old(self).ip,
            old(self).stack@.len() >= 1 ==> yields(
                match r {
                    Ok(_) => Ok(final(self).stack@.last()),
                    Err(e) => Err(e),
                },
                unary(op, old(self).stack@.last().datum(), old(self).opts),
            ) && (r is Ok ==> final(self).stack@.drop_last() == old(self).stack@.drop_last() && final(self).stack@.len() == old(self).stack@.len())
                && (r is Err ==> final(self).stack@ == old(self).stack@.drop_last()),
    {
        let a = self.pop()?;
        let v = match op {
            Opcode::Length => a.kn_length(&self.opts),
            Opcode::Not => a.kn_not(&self.opts),
            Opcode::Negate => a.kn_negate(&self.opts),
            Opcode::Ascii => a.kn_ascii(&self.opts),
            Opcode::Box => {
                let l = List::boxed(a);
                Ok(Value::List(l))
            },
            Opcode::Head => a.kn_head(),
            _ => a.kn_tail(),
        }?;
        self.push(v);
        Ok(Event::Running)
    }

    /// The operators of two arguments.
    fn exec_binary(&mut self, op: Opcode) -> (r: Result<Event, Error>)
        requires
            old(self).wf(),
            is_binary(op),
        ensures
            r is Ok ==> r == Ok::<Event, Error>(Event::Running),
            final(self).wf(),
            final(self).program == old(self).program,
            final(self).opts == old(self).opts,
            final(self).variables@.len() == old(self).variables@.len(),
            final(self).variables == old(self).variables,
            final(self).callstack == old(self).callstack,
            final(self).ip == old(self).ip,
            old(self).stack@.len() >= 2 ==> yields(
                match r {
                    Ok(_) => Ok(final(self).stack@.last()),
                    Err(e) => Err(e),
                },
                binary(
                    op,
                    old(self).stack@[old(self).stack@.len() - 2].datum(),
                    old(self).stack@.last().datum(),
                    old(self).opts,
                ),
            ) && (r is Ok ==> final(self).stack@.drop_last() == old(self).stack@.subrange(
                0,
                old(self).stack@.len() - 2,
            ) && final(self).stack@.len() == old(self).stack@.len() - 1)
                && (r is Err ==> final(self).stack@ == old(self).stack@.subrange(0, old(self).stack@.len() - 2)),
    {
        proof {
            if old(self).stack@.len() >= 2 {
                assert(old(self).stack@.drop_last().drop_last() =~= old(self).stack@.subrange(0, old(self).stack@.len() - 2));
            }
        }
        let b = self.pop()?;
        let a = self.pop()?;
        let v = match op {
            Opcode::Add => a.kn_plus(&b, &self.opts),
            Opcode::Mul => a.kn_asterisk(&b, &self.opts),
            Opcode::Pow => a.kn_caret(&b, &self.opts),
            Opcode::Lth | Opcode::Gth => a.kn_ordering(&b, op, &self.opts),
            Opcode::Eql => a.kn_equals(&b, &self.opts),
            _ => a.kn_integer_op(&b, op, &self.opts),
        }?;
        self.push(v);
        Ok(Event::Running)
    }

    /// `GET` and `SET`.
    fn exec_range(&mut self, op: Opcode) -> (r: Result<Event, Error>)
        requires
            old(self).wf(),
            op == Opcode::Get || op == Opcode::Splice,
        ensures
            final(self).wf(),
            final(self).program == old(self).program,
            final(self).opts == old(self).opts,
            final(self).variables@.len() == old(self).variables@.len(),
            final(self).variables == old(self).variables,
            final(self).callstack == old(self).callstack,
            final(self).ip == old(self).ip,
            op == Opcode::Get && old(self).stack@.len() >= 3 ==> {
                let n = old(self).stack@.len();
                yields(
                    match r {
                        Ok(_) => Ok(final(self).stack@.last()),
                        Err(e) => Err(e),
                    },
                    get(old(self).stack@[n - 3].datum(), old(self).stack@[n - 2].datum(), old(self).stack@[n - 1].datum(), old(self).opts),
                ) && (r is Ok ==> r == Ok::<Event, Error>(Event::Running) && final(self).stack@ == old(self).stack@.subrange(0, n - 3).push(final(self).stack@.last()))
                    && (r is Err ==> final(self).stack@ == old(self).stack@.subrange(0, n - 3))
            },
            op == Opcode::Splice && old(self).stack@.len() >= 4 ==> {
                let n = old(self).stack@.len();
                yields(
                    match r {
                        Ok(_) => Ok(final(self).stack@.last()),
                        Err(e) => Err(e),
                    },
                    replaced(old(self).stack@[n - 4].datum(), old(self).stack@[n - 3].datum(), old(self).stack@[n - 2].datum(), old(self).stack@[n - 1].datum(), old(self).opts),
                ) && (r is Ok ==> r == Ok::<Event, Error>(Event::Running) && final(self).stack@ == old(self).stack@.subrange(0, n - 4).push(final(self).stack@.last()))
                    && (r is Err ==> final(self).stack@ == old(self).stack@.subrange(0, n - 4))
            },
    {
        let ghost s0 = self.stack@;
        proof {
            if s0.len() >= 3 {
                assert(s0.drop_last().drop_last().drop_last() =~= s0.subrange(0, s0.len() - 3));
            }
            if s0.len() >= 4 {
                assert(s0.drop_last().drop_last().drop_last().drop_last() =~= s0.subrange(0, s0.len() - 4));
            }
        }
        if op == Opcode::Get {
            let len = self.pop()?;
            let start = self.pop()?;
            let a = self.pop()?;
            let v = a.kn_get(&start, &len, &self.opts)?;
            self.push(v);
        } else {
            let with = self.pop()?;
            let len = self.pop()?;
            let start = self.pop()?;
            let a = self.pop()?;
            let v = a.kn_set(&start, &len, &with, &self.opts)?;
            self.push(v);
            proof {
                assert(s0.drop_last().drop_last().drop_last().drop_last() =~= s0.subrange(0, s0.len() - 4));
            }
        }
        proof {
            if op == Opcode::Get {
                assert(s0.drop_last().drop_last().drop_last() =~= s0.subrange(0, s0.len() - 3));
            }
        }
        Ok(Event::Running)
    }

    /// Runs the instruction at the instruction pointer.
    #[verifier::rlimit(100)]
    pub fn step(&mut self) -> (r: Result<Event, Error>)
        requires
            old(self).wf(),
        ensures
            final(self).wf(),
            final(self).program_of() == old(self).program_of(),
            final(self).options_of() == old(self).options_of(),
            final(self).variables_of().len() == old(self).variables_of().len(),
            old(self).next_op() == Opcode::PushConstant ==> r == Ok::<Event, Error>(Event::Running) && final(self).stack_of()
                == old(self).stack_of().push(old(self).program_of().constants@[old(self).next_offset()])
                && final(self).ip_of() == old(self).ip_of() + 1,
            old(self).next_op() == Opcode::Jump ==> r is Ok && final(self).ip_of() == old(self).next_offset()
                && final(self).stack_of() == old(self).stack_of(),
            old(self).next_op() == Opcode::Return && old(self).stack_of().len() > 0 && old(self).trace_of().len() == 1
                ==> r == Ok::<Event, Error>(Event::Finished(old(self).stack_of().last())),
            old(self).next_op() == Opcode::Return && old(self).stack_of().len() > 0 && old(self).trace_of().len() > 1
                ==> r == Ok::<Event, Error>(Event::Running) && final(self).stack_of() == old(self).stack_of()
                && final(self).ip_of() == old(self).trace_of()[old(self).trace_of().len() - 2]
                && final(self).trace_of() == old(self).trace_of().drop_last().drop_last().push(final(self).ip_of() as usize),
            old(self).next_op() == Opcode::Quit && old(self).stack_of().len() >= 1 ==> r == quit_outcome(
                crate::value::integer_of(old(self).stack_of().last().datum(), old(self).options_of()),
                old(self).options_of(),
            ),
            (old(self).next_op() == Opcode::JumpIfTrue || old(self).next_op() == Opcode::JumpIfFalse)
                && old(self).stack_of().len() > 0 ==> match crate::value::truth(
                old(self).stack_of().last().datum(),
                old(self).options_of(),
            ) {
                Ok(t) => r is Ok && final(self).stack_of() == old(self).stack_of().drop_last()
                    && final(self).ip_of() == (if t == (old(self).next_op() == Opcode::JumpIfTrue) {
                    old(self).next_offset()
                } else {
                    old(self).ip_of() + 1
                }),
                Err(e) => r == Err::<Event, Error>(e) && final(self).stack_of() == old(self).stack_of().drop_last(),
            },
            old(self).next_op() == Opcode::GetVar ==> final(self).ip_of() == old(self).ip_of() + 1 && match old(
                self,
            ).variables_of()[old(self).next_offset()] {
                Some(v) => r is Ok && final(self).stack_of() == old(self).stack_of().push(v),
                None => r == Err::<Event, Error>(Error::UndefinedVariable(old(self).next_offset() as usize))
                    && final(self).stack_of() == old(self).stack_of(),
            },
            old(self).next_op() == Opcode::SetVar && old(self).stack_of().len() > 0 ==> r is Ok
                && final(self).ip_of() == old(self).ip_of() + 1 && final(self).variables_of() == old(self).variables_of().update(
                old(self).next_offset(),
                Some(old(self).stack_of().last()),
            ) && final(self).stack_of() == old(self).stack_of(),
            (is_unary(old(self).next_op()) || is_binary(old(self).next_op())) && r is Ok ==> r == Ok::<Event, Error>(Event::Running),
            old(self).next_op() != Opcode::Call && old(self).next_op() != Opcode::Return ==> final(self).trace_of().len()
                == old(self).trace_of().len(),
            is_unary(old(self).next_op()) && old(self).stack_of().len() >= 1 ==> yields(
                match r {
                    Ok(_) => Ok(final(self).stack_of().last()),
                    Err(e) => Err(e),
                },
                unary(old(self).next_op(), old(self).stack_of().last().datum(), old(self).options_of()),
            ) && (r is Ok ==> final(self).stack_of().drop_last() == old(self).stack_of().drop_last()
                && final(self).stack_of().len() == old(self).stack_of().len() && final(self).ip_of()
                == old(self).ip_of() + 1) && (r is Err ==> final(self).stack_of() == old(self).stack_of().drop_last()),
            is_binary(old(self).next_op()) && old(self).stack_of().len() >= 2 ==> yields(
                match r {
                    Ok(_) => Ok(final(self).stack_of().last()),
                    Err(e) => Err(e),
                },
                binary(
                    old(self).next_op(),
                    old(self).stack_of()[old(self).stack_of().len() - 2].datum(),
                    old(self).stack_of().last().datum(),
                    old(self).options_of(),
                ),
            ) && (r is Ok ==> final(self).stack_of().drop_last() == old(self).stack_of().subrange(
                0,
                old(self).stack_of().len() - 2,
            ) && final(self).stack_of().len() == old(self).stack_of().len() - 1 && final(self).ip_of()
                == old(self).ip_of() + 1) && (r is Err ==> final(self).stack_of() == old(self).stack_of().subrange(
                0,
                old(self).stack_of().len() - 2,
            )),
            old(self).next_op() == Opcode::Output && old(self).stack_of().len() >= 1 && text_of(
                old(self).stack_of().last().datum(),
            ) is Some && text_of(old(self).stack_of().last().datum()).unwrap().len()
                <= crate::string::max_len(old(self).options_of()) ==> r is Ok && r.unwrap() == Event::Output(
                r.unwrap()->Output_0,
            ) && r.unwrap()->Output_0@ == output_bytes(
                text_of(old(self).stack_of().last().datum()).unwrap(),
            ) && final(self).stack_of() == old(self).stack_of().drop_last().push(Value::Null)
                && final(self).ip_of() == old(self).ip_of() + 1,
            old(self).next_op() == Opcode::Output && old(self).stack_of().len() >= 1 && r is Err
                ==> final(self).stack_of() == old(self).stack_of().drop_last(),
            old(self).next_op() != Opcode::SetVar ==> final(self).variables_of() == old(self).variables_of(),
            old(self).next_op() == Opcode::Random ==> r == Ok::<Event, Error>(Event::Running)
                && final(self).ip_of() == old(self).ip_of() + 1 && exists|raw: u32|
                final(self).stack_of() == old(self).stack_of().push(
                    Value::Integer(random_of(raw, old(self).options_of()) as i64),
                ),
            old(self).next_op() == Opcode::Prompt ==> r == Ok::<Event, Error>(Event::Prompt)
                && final(self).ip_of() == old(self).ip_of() + 1 && final(self).stack_of() == old(self).stack_of(),
            old(self).next_op() == Opcode::Call && old(self).stack_of().len() > 0 && old(self).stack_of().last() is Block
                && (old(self).stack_of().last()->Block_0 as int) < old(self).program_of().code@.len() ==> r is Ok
                && final(self).ip_of() == old(self).stack_of().last()->Block_0 && final(self).trace_of()
                == old(self).trace_of().drop_last().push((old(self).ip_of() + 1) as usize).push(final(self).ip_of() as usize)
                && final(self).stack_of() == old(self).stack_of().drop_last(),
            old(self).next_op() == Opcode::Dump && old(self).stack_of().len() >= 1 ==> final(self).stack_of()
                == old(self).stack_of() && final(self).ip_of() == old(self).ip_of() + 1 && match dump_text(old(self).stack_of().last().datum(), old(self).options_of()) {
                Some(t) => r is Ok && r.unwrap() is Output && r.unwrap()->Output_0@ == t,
                None => r == Err::<Event, Error>(Error::TypeError { kind: Kind::Block, op: Opcode::Dump }),
            },
            old(self).next_op() == Opcode::Dup && old(self).stack_of().len() > 0 ==> r == Ok::<Event, Error>(
                Event::Running,
            ) && final(self).ip_of() == old(self).ip_of() + 1 && final(self).stack_of() == old(self).stack_of().push(
                old(self).stack_of().last(),
            ),
            old(self).next_op() == Opcode::Pop && old(self).stack_of().len() > 0 ==> r == Ok::<Event, Error>(
                Event::Running,
            ) && final(self).ip_of() == old(self).ip_of() + 1 && final(self).stack_of() == old(self).stack_of().drop_last(),
            old(self).next_op() == Opcode::Get && old(self).stack_of().len() >= 3 ==> {
                let st = old(self).stack_of();
                let n = st.len();
                yields(
                    match r {
                        Ok(_) => Ok(final(self).stack_of().last()),
                        Err(e) => Err(e),
                    },
                    get(st[n - 3].datum(), st[n - 2].datum(), st[n - 1].datum(), old(self).options_of()),
                ) && (r is Ok ==> final(self).stack_of() == st.subrange(0, n - 3).push(final(self).stack_of().last())
                    && final(self).ip_of() == old(self).ip_of() + 1) && (r is Err ==> final(self).stack_of() == st.subrange(0, n - 3))
            },
            old(self).next_op() == Opcode::Splice && old(self).stack_of().len() >= 4 ==> {
                let st = old(self).stack_of();
                let n = st.len();
                yields(
                    match r {
                        Ok(_) => Ok(final(self).stack_of().last()),
                        Err(e) => Err(e),
                    },
                    replaced(st[n - 4].datum(), st[n - 3].datum(), st[n - 2].datum(), st[n - 1].datum(), old(self).options_of()),
                ) && (r is Ok ==> final(self).stack_of() == st.subrange(0, n - 4).push(final(self).stack_of().last())
                    && final(self).ip_of() == old(self).ip_of() + 1) && (r is Err ==> final(self).stack_of() == st.subrange(0, n - 4))
            },
    {
        let code_len = self.program.code.len();
        let constant_count = self.program.constants.len();
        let variable_count = self.variables.len();
        assert(code_len <= usize::MAX && constant_count <= usize::MAX && variable_count <= usize::MAX);
        let w = self.program.code[self.ip];
        let (op, offset) = match decode(w) {
            Some(d) => d,
            None => {
                return Err(Error::MalformedProgram);
            },
        };
        proof {
            assert(crate::program::word_fits(w, self.program.code@.len() - 1, self.program.constants@.len() as int, self.program.variables@.len() as int));
            if op != Opcode::Return {
                assert(self.ip != self.program.code@.len() - 1);
            }
            assert(0 <= offset_of(w) <= u64::MAX);
            assert(offset as int == offset_of(w));
            assert(op == self.next_op() && offset == self.next_offset());
            if op == Opcode::PushConstant {
                assert(offset_of(w) < self.program.constants@.len());
            }
            if op == Opcode::GetVar || op == Opcode::SetVar {
                assert(offset_of(w) < self.program.variables@.len());
            }
            if op == Opcode::Jump {
                assert(offset_of(w) < self.program.code@.len());
            }
        }
        if op == Opcode::Return {
            let v = self.pop()?;
            match self.callstack.pop() {
                Some(back) => {
                    self.ip = back;
                    self.push(v);
                    return Ok(Event::Running);
                },
                None => {
                    return Ok(Event::Finished(v));
                },
            }
        }
        let offset: usize = if offset <= usize::MAX as u64 { offset as usize } else { 0 };
        self.ip = self.ip + 1;
        if op == Opcode::Dump || op == Opcode::Quit || op == Opcode::Output {
            self.exec_io(op)
        } else if is_unary_op(op) {
            self.exec_unary(op)
        } else if op == Opcode::Get || op == Opcode::Splice {
            self.exec_range(op)
        } else if is_binary_op(op) {
            self.exec_binary(op)
        } else {
            self.exec_data(op, offset)
        }
    }
}

fn is_unary_op(op: Opcode) -> (r: bool)
    ensures
        r == is_unary(op),
{
    match op {
        Opcode::Length | Opcode::Not | Opcode::Negate | Opcode::Ascii | Opcode::Box | Opcode::Head
        | Opcode::Tail => true,
        _ => false,
    }
}

fn is_binary_op(op: Opcode) -> (r: bool)
    ensures
        r == is_binary(op),
{
    match op {
        Opcode::Add | Opcode::Sub | Opcode::Mul | Opcode::Div | Opcode::Mod | Opcode::Pow
        | Opcode::Lth | Opcode::Gth | Opcode::Eql => true,
        _ => false,
    }
}

/// Where a run with a budget of steps stopped.
pub enum Stop {
    /// The program ended with this value.
    Finished(Value),
    /// The budget ran out first.
    OutOfSteps,
}

fn copy_bytes(v: &Vec<u8>) -> (r: Vec<u8>)
    ensures
        r@ == v@,
{
    let mut out: Vec<u8> = Vec::new();
    let mut i: usize = 0;
    while i < v.len()
        invariant
            0 <= i <= v@.len(),
            out@ == v@.subrange(0, i as int),
        decreases v@.len() - i,
    {
        out.push(v[i]);
        i = i + 1;
        assert(out@ =~= v@.subrange(0, i as int));
    }
    assert(v@.subrange(0, v@.len() as int) =~= v@);
    out
}

impl Vm {
    /// Runs at most `fuel` instructions. Output is appended to `out`; each `PROMPT` takes the
    /// next of `lines`, and gets the end of input once they are used up.
    pub fn run(&mut self, fuel: u64, lines: &Vec<Vec<u8>>, out: &mut Vec<u8>) -> (r: Result<Stop, Error>)
        requires
            old(self).wf(),
        ensures
            final(self).wf(),
            final(self).program_of() == old(self).program_of(),
            final(out)@.len() >= old(out)@.len(),
            final(out)@.subrange(0, old(out)@.len() as int) == old(out)@,
            run_post(*old(self), *final(self), fuel as nat, final(out)@.subrange(old(out)@.len() as int, final(out)@.len() as int), r),
    {
        let mut next_line: usize = 0;
        let mut k: u64 = 0;
        let ghost mut ms: Seq<Vm> = seq![*self];
        let ghost mut mids: Seq<Vm> = Seq::empty();
        let ghost mut evs: Seq<Result<Event, Error>> = Seq::empty();
        let ghost base = old(out)@.len();
        assert(out@.subrange(base as int, out@.len() as int) =~= outputs(evs));
        while k < fuel
            invariant
                self.wf(),
                self.program_of() == old(self).program_of(),
                out@.len() >= base,
                base == old(out)@.len(),
                out@.subrange(0, base as int) == old(out)@,
                k <= fuel,
                ms.len() == k + 1,
                ms[0] == *old(self),
                ms[k as int] == *self,
                evs.len() == k,
                mids.len() == k,
                steps_continue(ms, mids, evs, k as int),
                out@.subrange(base as int, out@.len() as int) == outputs(evs),
            decreases fuel - k,
        {
            let ghost before_out = out@;
            let ghost s0 = *self;
            let (res, Ghost(mid), Ghost(ev)) = self.advance(lines, &mut next_line, out);
            let ghost evs2 = evs.push(ev);
            proof {
                assert(evs2.drop_last() =~= evs);
                assert(outputs(evs2) == outputs(evs) + emitted(ev));
                assert(out@.subrange(base as int, out@.len() as int) =~= before_out.subrange(base as int, before_out.len() as int) + emitted(ev));
                assert(out@.subrange(0, base as int) =~= before_out.subrange(0, base as int));
            }
            match res {
                Err(e) => {
                    proof {
                        let mids2 = mids.push(mid);
                        assert forall|i: int| 0 <= i < k implies step_post(#[trigger] ms[i], mids2[i], evs2[i]) && continues(mids2[i], ms[i + 1], evs2[i]) by {
                            assert(mids2[i] == mids[i] && evs2[i] == evs[i]);
                        }
                        assert(steps_continue(ms, mids2, evs2, k as int));
                        assert(evs2.last() == ev);
                        assert(ms[evs2.len() - 1] == s0);
                        assert(run_trace(*old(self), *self, fuel as nat, out@.subrange(base as int, out@.len() as int), Err::<Stop, Error>(e), ms, mids2, evs2));
                    }
                    return Err(e);
                },
                Ok(Some(stop)) => {
                    proof {
                        let mids2 = mids.push(mid);
                        assert forall|i: int| 0 <= i < k implies step_post(#[trigger] ms[i], mids2[i], evs2[i]) && continues(mids2[i], ms[i + 1], evs2[i]) by {
                            assert(mids2[i] == mids[i] && evs2[i] == evs[i]);
                        }
                        assert(steps_continue(ms, mids2, evs2, k as int));
                        assert(evs2.last() == ev);
                        assert(ms[evs2.len() - 1] == s0);
                        assert(run_trace(*old(self), *self, fuel as nat, out@.subrange(base as int, out@.len() as int), Ok::<Stop, Error>(stop), ms, mids2, evs2));
                    }
                    return Ok(stop);
                },
                Ok(None) => {
                    proof {
                        let ms2 = ms.push(*self);
                        let mids2 = mids.push(mid);
                        assert forall|i: int| 0 <= i < k + 1 implies step_post(#[trigger] ms2[i], mids2[i], evs2[i]) && continues(mids2[i], ms2[i + 1], evs2[i]) by {
                            if i < k {
                                assert(ms2[i] == ms[i] && ms2[i + 1] == ms[i + 1] && mids2[i] == mids[i] && evs2[i] == evs[i]);
                            } else {
                                assert(ms2[i] == s0);
                            }
                        }
                        ms = ms2;
                        mids = mids2;
                        evs = evs2;
                    }
                },
            }
            k = k + 1;
        }
        proof {
            assert(run_trace(*old(self), *self, fuel as nat, out@.subrange(base as int, out@.len() as int), Ok::<Stop, Error>(Stop::OutOfSteps), ms, mids, evs));
        }
        Ok(Stop::OutOfSteps)
    }

    /// Runs one instruction and does what it asks: appends output to `out`, or answers a prompt
    /// from `lines`. Gives where the run stopped, if it did, with the machine just after the
    /// step and the step's event.
    fn advance(&mut self, lines: &Vec<Vec<u8>>, next_line: &mut usize, out: &mut Vec<u8>) -> (r: (
        Result<Option<Stop>, Error>,
        Ghost<Vm>,
        Ghost<Result<Event, Error>>,
    ))
        requires
            old(self).wf(),
        ensures
            final(self).wf(),
            final(self).program_of() == old(self).program_of(),
            step_post(*old(self), r.1@, r.2@),
            final(out)@ == old(out)@ + emitted(r.2@),
            match r.2@ {
                Ok(Event::Finished(v)) => r.0 == Ok::<Option<Stop>, Error>(Some(Stop::Finished(v))) && *final(self) == r.1@,
                Err(e) => r.0 == Err::<Option<Stop>, Error>(e) && *final(self) == r.1@,
                _ => r.0 == Ok::<Option<Stop>, Error>(None) && continues(r.1@, *final(self), r.2@),
            },
    {
        let res = self.step();
        let ghost mid = *self;
        let ghost ev = res;
        proof {
            reveal(step_post);
        }
        match res {
            Err(e) => {
                assert(out@ =~= old(out)@ + emitted(ev));
                (Err(e), Ghost(mid), Ghost(ev))
            },
            Ok(Event::Running) => {
                assert(out@ =~= old(out)@ + emitted(ev));
                (Ok(None), Ghost(mid), Ghost(ev))
            },
            Ok(Event::Output(bytes)) => {
                let mut i: usize = 0;
                while i < bytes.len()
                    invariant
                        0 <= i <= bytes@.len(),
                        out@ == old(out)@ + bytes@.subrange(0, i as int),
                    decreases bytes@.len() - i,
                {
                    out.push(bytes[i]);
                    i = i + 1;
                    assert(out@ =~= old(out)@ + bytes@.subrange(0, i as int));
                }
                assert(bytes@.subrange(0, bytes@.len() as int) =~= bytes@);
                (Ok(None), Ghost(mid), Ghost(ev))
            },
            Ok(Event::Prompt) => {
                if *next_line < lines.len() {
                    let line = copy_bytes(&lines[*next_line]);
                    let ghost l = line@;
                    self.supply_line(Some(line));
                    *next_line = *next_line + 1;
                    assert(prompted(mid, *self, Some(l)));
                } else {
                    self.supply_line(None);
                    assert(prompted(mid, *self, None));
                }
                assert(out@ =~= old(out)@ + emitted(ev));
                (Ok(None), Ghost(mid), Ghost(ev))
            },
            Ok(Event::Finished(v)) => {
                assert(out@ =~= old(out)@ + emitted(ev));
                (Ok(Some(Stop::Finished(v))), Ghost(mid), Ghost(ev))
            },
        }
    }
}

impl Vm {
    /// Hands the machine's roots to `heap`: the program's constants, stored as static cells,
    /// then the operand stack, then one word per variable slot, the null word for a slot not yet
    /// assigned. A collection over these words keeps every value the machine can still reach.
    pub fn store_roots(&self, heap: &mut Heap) -> (r: Option<Vec<packed::Value>>)
        requires
            old(heap).wf(),
        ensures
            final(heap).wf(),
            keeps_used(old(heap).cells_of(), final(heap).cells_of()),
            r is Some ==> {
                let ws = r.unwrap()@;
                let nc = self.program_of().constants@.len();
                let ns = self.stack_of().len();
                &&& ws.len() == nc + ns + self.variables_of().len()
                &&& forall|k: int| 0 <= k < nc ==> represents(final(heap).cells_of(), #[trigger] ws[k], self.program_of().constants@[k].datum())
                &&& forall|k: int| 0 <= k < ns ==> represents(final(heap).cells_of(), #[trigger] ws[nc + k], self.stack_of()[k].datum())
                &&& forall|k: int| 0 <= k < self.variables_of().len() ==> match #[trigger] self.variables_of()[k] {
                    Some(v) => represents(final(heap).cells_of(), ws[nc + ns + k], v.datum()),
                    None => ws[nc + ns + k].unpacked() == packed::Unpacked::Null,
                }
            },
    {
        let mut out: Vec<packed::Value> = Vec::new();
        if !heap.store_all(&self.program.constants, true, &mut out, Ghost(Seq::empty())) {
            return None;
        }
        let ghost consts = Seq::new(self.program.constants@.len(), |k: int| self.program.constants@[k].datum());
        assert(out@.len() == consts.len());
        assert forall|k: int| 0 <= k < out@.len() implies represents(heap.cells_of(), #[trigger] out@[k], consts[k]) by {
            assert(out@[0 + k] == out@[k]);
        }
        if !heap.store_all(&self.stack, false, &mut out, Ghost(consts)) {
            return None;
        }
        let ghost nc = self.program.constants@.len();
        let ghost ns = self.stack@.len();
        assert forall|k: int| 0 <= k < nc implies represents(heap.cells_of(), #[trigger] out@[k], self.program.constants@[k].datum()) by {
            assert(consts[k] == self.program.constants@[k].datum());
        }
        let mut i: usize = 0;
        while i < self.variables.len()
            invariant
                0 <= i <= self.variables@.len(),
                heap.wf(),
                keeps_used(old(heap).cells_of(), heap.cells_of()),
                out@.len() == nc + ns + i,
                forall|k: int| 0 <= k < nc ==> represents(heap.cells_of(), #[trigger] out@[k], self.program.constants@[k].datum()),
                forall|k: int| 0 <= k < ns ==> represents(heap.cells_of(), #[trigger] out@[nc + k], self.stack@[k].datum()),
                forall|k: int| 0 <= k < i ==> match #[trigger] self.variables@[k] {
                    Some(v) => represents(heap.cells_of(), out@[nc + ns + k], v.datum()),
                    None => out@[nc + ns + k].unpacked() == packed::Unpacked::Null,
                },
            decreases self.variables@.len() - i,
        {
            let ghost before = heap.cells_of();
            let ghost prev = out@;
            let w = match &self.variables[i] {
                Some(v) => match heap.store(v, false) {
                    Some(w) => w,
                    None => {
                        return None;
                    },
                },
                None => packed::Value::null(),
            };
            out.push(w);
            proof {
                crate::gc::lemma_keeps_used_trans(old(heap).cells_of(), before, heap.cells_of());
                assert forall|k: int| 0 <= k < nc implies represents(heap.cells_of(), #[trigger] out@[k], self.program.constants@[k].datum()) by {
                    assert(out@[k] == prev[k]);
                    crate::gc::lemma_represents_kept(before, heap.cells_of(), prev[k], self.program.constants@[k].datum());
                }
                assert forall|k: int| 0 <= k < ns implies represents(heap.cells_of(), #[trigger] out@[nc + k], self.stack@[k].datum()) by {
                    assert(out@[nc + k] == prev[nc + k]);
                    crate::gc::lemma_represents_kept(before, heap.cells_of(), prev[nc + k], self.stack@[k].datum());
                }
                assert forall|k: int| 0 <= k < i + 1 implies match #[trigger] self.variables@[k] {
                    Some(v) => represents(heap.cells_of(), out@[nc + ns + k], v.datum()),
                    None => out@[nc + ns + k].unpacked() == packed::Unpacked::Null,
                } by {
                    if k < i {
                        assert(out@[nc + ns + k] == prev[nc + ns + k]);
                        if let Some(v) = self.variables@[k] {
                            crate::gc::lemma_represents_kept(before, heap.cells_of(), prev[nc + ns + k], v.datum());
                        }
                    }
                }
            }
            i = i + 1;
        }
        Some(out)
    }
}

} // verus!
