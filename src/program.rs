use vstd::prelude::*;
use crate::value::{Datum, Value};

verus! {

/// The operations of the virtual machine.
#[derive(Clone, Copy, Debug, PartialEq, Eq, Structural)]
pub enum Opcode {
    PushConstant,
    Jump,
    JumpIfTrue,
    JumpIfFalse,
    GetVar,
    SetVar,
    Prompt,
    Random,
    Dup,
    Dump,
    Return,
    Call,
    Quit,
    Output,
    Length,
    Not,
    Negate,
    Ascii,
    Box,
    Head,
    Tail,
    Pop,
    Add,
    Sub,
    Mul,
    Div,
    Mod,
    Pow,
    Lth,
    Gth,
    Eql,
    Get,
    Splice,
}

/// The number of operand-stack values an opcode takes.
pub open spec fn arity_of(op: Opcode) -> nat {
    match op {
        Opcode::PushConstant | Opcode::Jump | Opcode::GetVar | Opcode::SetVar | Opcode::Prompt
        | Opcode::Random | Opcode::Dup | Opcode::Dump => 0,
        Opcode::JumpIfTrue | Opcode::JumpIfFalse | Opcode::Return | Opcode::Call | Opcode::Quit
        | Opcode::Output | Opcode::Length | Opcode::Not | Opcode::Negate | Opcode::Ascii
        | Opcode::Box | Opcode::Head | Opcode::Tail | Opcode::Pop => 1,
        Opcode::Add | Opcode::Sub | Opcode::Mul | Opcode::Div | Opcode::Mod | Opcode::Pow
        | Opcode::Lth | Opcode::Gth | Opcode::Eql => 2,
        Opcode::Get => 3,
        Opcode::Splice => 4,
    }
}

/// The byte that stands for an opcode in the low 8 bits of an instruction word.
pub open spec fn code_of(op: Opcode) -> u8 {
    match op {
        Opcode::PushConstant => 0,
        Opcode::Jump => 1,
        Opcode::JumpIfTrue => 2,
        Opcode::JumpIfFalse => 3,
        Opcode::GetVar => 4,
        Opcode::SetVar => 5,
        Opcode::Prompt => 6,
        Opcode::Random => 7,
        Opcode::Dup => 8,
        Opcode::Dump => 9,
        Opcode::Return => 10,
        Opcode::Call => 11,
        Opcode::Quit => 12,
        Opcode::Output => 13,
        Opcode::Length => 14,
        Opcode::Not => 15,
        Opcode::Negate => 16,
        Opcode::Ascii => 17,
        Opcode::Box => 18,
        Opcode::Head => 19,
        Opcode::Tail => 20,
        Opcode::Pop => 21,
        Opcode::Add => 22,
        Opcode::Sub => 23,
        Opcode::Mul => 24,
        Opcode::Div => 25,
        Opcode::Mod => 26,
        Opcode::Pow => 27,
        Opcode::Lth => 28,
        Opcode::Gth => 29,
        Opcode::Eql => 30,
        Opcode::Get => 31,
        Opcode::Splice => 32,
    }
}

/// The largest immediate an instruction word can carry.
pub const MAX_OFFSET: u64 = 0x00ff_ffff_ffff_ffff;

/// The word of an instruction: the immediate above the opcode byte.
pub open spec fn word(op: Opcode, offset: int) -> int {
    offset * 256 + code_of(op)
}

/// The opcode of a word, where its low byte names one.
pub open spec fn op_of(w: u64) -> Option<Opcode> {
    let c = (w % 256) as u8;
    if c <= 32 {
        Some(
            choose|op: Opcode| code_of(op) == c,
        )
    } else {
        None
    }
}

/// The immediate of a word.
pub open spec fn offset_of(w: u64) -> int {
    w as int / 256
}

impl Opcode {
    pub fn arity(&self) -> (r: usize)
        ensures
            r == arity_of(*self),
    {
        match self {
            Opcode::PushConstant | Opcode::Jump | Opcode::GetVar | Opcode::SetVar
            | Opcode::Prompt | Opcode::Random | Opcode::Dup | Opcode::Dump => 0,
            Opcode::JumpIfTrue | Opcode::JumpIfFalse | Opcode::Return | Opcode::Call
            | Opcode::Quit | Opcode::Output | Opcode::Length | Opcode::Not | Opcode::Negate
            | Opcode::Ascii | Opcode::Box | Opcode::Head | Opcode::Tail | Opcode::Pop => 1,
            Opcode::Add | Opcode::Sub | Opcode::Mul | Opcode::Div | Opcode::Mod | Opcode::Pow
            | Opcode::Lth | Opcode::Gth | Opcode::Eql => 2,
            Opcode::Get => 3,
            Opcode::Splice => 4,
        }
    }

    pub fn code(&self) -> (r: u8)
        ensures
            r == code_of(*self),
    {
        match self {
            Opcode::PushConstant => 0,
            Opcode::Jump => 1,
            Opcode::JumpIfTrue => 2,
            Opcode::JumpIfFalse => 3,
            Opcode::GetVar => 4,
            Opcode::SetVar => 5,
            Opcode::Prompt => 6,
            Opcode::Random => 7,
            Opcode::Dup => 8,
            Opcode::Dump => 9,
            Opcode::Return => 10,
            Opcode::Call => 11,
            Opcode::Quit => 12,
            Opcode::Output => 13,
            Opcode::Length => 14,
            Opcode::Not => 15,
            Opcode::Negate => 16,
            Opcode::Ascii => 17,
            Opcode::Box => 18,
            Opcode::Head => 19,
            Opcode::Tail => 20,
            Opcode::Pop => 21,
            Opcode::Add => 22,
            Opcode::Sub => 23,
            Opcode::Mul => 24,
            Opcode::Div => 25,
            Opcode::Mod => 26,
            Opcode::Pow => 27,
            Opcode::Lth => 28,
            Opcode::Gth => 29,
            Opcode::Eql => 30,
            Opcode::Get => 31,
            Opcode::Splice => 32,
        }
    }

    /// The opcode with code `c`.
    pub fn from_code(c: u8) -> (r: Option<Opcode>)
        ensures
            c > 32 ==> r is None,
            c <= 32 ==> r is Some && code_of(r.unwrap()) == c,
    {
        let ops = [
            Opcode::PushConstant, Opcode::Jump, Opcode::JumpIfTrue, Opcode::JumpIfFalse,
            Opcode::GetVar, Opcode::SetVar, Opcode::Prompt, Opcode::Random, Opcode::Dup,
            Opcode::Dump, Opcode::Return, Opcode::Call, Opcode::Quit, Opcode::Output,
            Opcode::Length, Opcode::Not, Opcode::Negate, Opcode::Ascii, Opcode::Box,
            Opcode::Head, Opcode::Tail, Opcode::Pop, Opcode::Add, Opcode::Sub, Opcode::Mul,
            Opcode::Div, Opcode::Mod, Opcode::Pow, Opcode::Lth, Opcode::Gth, Opcode::Eql,
            Opcode::Get, Opcode::Splice,
        ];
        if c > 32 {
            return None;
        }
        let op = ops[c as usize];
        assert(code_of(op) == c);
        Some(op)
    }
}

proof fn lemma_codes_distinct(a: Opcode, b: Opcode)
    requires
        code_of(a) == code_of(b),
    ensures
        a == b,
{
}

/// The word of an instruction.
pub fn encode(op: Opcode, offset: u64) -> (r: u64)
    requires
        offset <= MAX_OFFSET,
    ensures
        r as int == word(op, offset as int),
        op_of(r) == Some(op),
        offset_of(r) == offset as int,
{
    let r = offset * 256 + op.code() as u64;
    proof {
        let c = code_of(op);
        assert(r as int % 256 == c as int);
        assert(r as int / 256 == offset as int);
        let o = choose|o: Opcode| code_of(o) == c;
        lemma_codes_distinct(o, op);
    }
    r
}

/// A word made of an opcode and an immediate reads back as them.
pub proof fn lemma_word(op: Opcode, offset: int)
    requires
        0 <= offset <= MAX_OFFSET,
    ensures
        0 <= word(op, offset) <= u64::MAX,
        op_of(word(op, offset) as u64) == Some(op),
        offset_of(word(op, offset) as u64) == offset,
{
    let c = code_of(op);
    let w = word(op, offset);
    assert(w % 256 == c as int);
    assert(w / 256 == offset);
    let o = choose|o: Opcode| code_of(o) == c;
    lemma_codes_distinct(o, op);
}

/// The opcode and immediate of a word.
pub fn decode(w: u64) -> (r: Option<(Opcode, u64)>)
    ensures
        op_of(w) is None ==> r is None,
        op_of(w) is Some ==> r == Some((op_of(w).unwrap(), (offset_of(w)) as u64)),
{
    match Opcode::from_code((w % 256) as u8) {
        Some(op) => {
            proof {
                let o = choose|o: Opcode| code_of(o) == (w % 256) as u8;
                lemma_codes_distinct(o, op);
            }
            Some((op, w / 256))
        },
        None => None,
    }
}

/// A compiled program: instruction words, the constant pool, and the variable table.
pub struct Program {
    pub code: Vec<u64>,
    pub constants: Vec<Value>,
    /// The name of each variable, at its index.
    pub variables: Vec<Vec<u8>>,
    /// For each block, the index of its first instruction and the variable it was assigned to.
    pub block_names: Vec<(usize, Vec<u8>)>,
}

/// Whether an instruction word fits a program with `n_code` words, `n_const` constants and
/// `n_vars` variables: its opcode exists and its immediate points inside.
pub open spec fn word_fits(w: u64, n_code: int, n_const: int, n_vars: int) -> bool {
    &&& op_of(w) is Some
    &&& (op_of(w) == Some(Opcode::PushConstant) ==> offset_of(w) < n_const)
    &&& (op_of(w) == Some(Opcode::GetVar) || op_of(w) == Some(Opcode::SetVar) ==> offset_of(w) < n_vars)
    &&& (op_of(w) == Some(Opcode::Jump) || op_of(w) == Some(Opcode::JumpIfTrue) || op_of(w) == Some(
        Opcode::JumpIfFalse,
    ) ==> offset_of(w) <= n_code)
}

/// Whether every block inside `d` begins within the first `n` instructions.
pub open spec fn blocks_below(d: Datum, n: int) -> bool {
    match d {
        Datum::Block(b) => b < n,
        _ => true,
    }
}

impl Program {
    /// The structural promises the compiler makes about the programs it builds.
    pub open spec fn wf(&self) -> bool {
        &&& self.code@.len() >= 1
        &&& op_of(self.code@.last()) == Some(Opcode::Return)
        &&& forall|i: int| 0 <= i < self.code@.len() ==> word_fits(
            #[trigger] self.code@[i],
            self.code@.len() - 1,
            self.constants@.len() as int,
            self.variables@.len() as int,
        )
        &&& forall|i: int| 0 <= i < self.constants@.len() ==> blocks_below(
            #[trigger] self.constants@[i].datum(),
            self.code@.len() as int,
        )
    }

    pub fn num_variables(&self) -> (r: usize)
        ensures
            r == self.variables@.len(),
    {
        self.variables.len()
    }

    /// The name of the variable with index `i`.
    pub fn variable_name(&self, i: usize) -> (r: Option<&Vec<u8>>)
        ensures
            i < self.variables@.len() ==> r == Some(&self.variables@[i as int]),
            i >= self.variables@.len() ==> r is None,
    {
        if i < self.variables.len() {
            Some(&self.variables[i])
        } else {
            None
        }
    }
}

} // verus!
