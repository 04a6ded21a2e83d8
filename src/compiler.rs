use vstd::prelude::*;
use indexmap::IndexSet;
use crate::error::{Error, ParseError};
use crate::names::{insert_name, into_names, name_count, names_in, new_name_set};
use crate::options::Options;
use crate::program::{
    blocks_below, encode, offset_of, op_of, word_fits, Opcode, Program, MAX_OFFSET,
};
use crate::string::{validate, KString};
use crate::value::{data_of, equals, Datum, List, Value};
use crate::grammar::{
    compiled, first_equal, follows, position, s_args, s_assign, s_assign_value, s_block, s_blank,
    s_conditional, s_constant, s_control, s_emit, s_emit_var, s_expr, s_function, s_number, s_patch,
    s_sequence, s_short, s_simple, s_skip, s_string, s_while, ident_end, quote_end, word_end,
    lit_scan, unary_op, binary_op, CState,
};

verus! {

/// The longest variable name allowed where names are checked.
pub const MAX_NAME_LEN: usize = 127;

/// The most variables allowed where the count is checked.
pub const MAX_VARIABLE_COUNT: usize = 65535;

/// Whether `op` reads or writes a variable.
pub open spec fn is_var_op(op: Option<Opcode>) -> bool {
    op == Some(Opcode::GetVar) || op == Some(Opcode::SetVar)
}

pub open spec fn is_jump_op(op: Opcode) -> bool {
    op == Opcode::Jump || op == Opcode::JumpIfTrue || op == Opcode::JumpIfFalse
}

/// Whether some instruction of `code` reads or writes variable `k`.
pub open spec fn var_used(code: Seq<u64>, k: int) -> bool {
    exists|i: int| 0 <= i < code.len() && is_var_op(op_of(code[i])) && offset_of(code[i]) == k
}

/// Whether no two names are the same.
pub open spec fn distinct_names(names: Seq<Seq<u8>>) -> bool {
    forall|i: int, j: int| 0 <= i < names.len() && 0 <= j < names.len() && i != j ==> names[i] != names[j]
}

/// Whether every instruction points inside the tables, every block constant inside the code,
/// every variable is used by some instruction, and no name is given twice.
#[verifier::opaque]
pub closed spec fn tables_ok(code: Seq<u64>, constants: Seq<Value>, names: Seq<Seq<u8>>) -> bool {
    &&& forall|i: int| 0 <= i < code.len() ==> word_fits(
        #[trigger] code[i],
        code.len() as int,
        constants.len() as int,
        names.len() as int,
    )
    &&& forall|i: int| 0 <= i < constants.len() ==> blocks_below(
        #[trigger] constants[i].datum(),
        code.len() as int,
    )
    &&& forall|k: int| 0 <= k < names.len() ==> #[trigger] var_used(code, k)
    &&& distinct_names(names)
    &&& distinct_constants(constants)
}

/// Whether no two constants mean the same.
pub open spec fn distinct_constants(constants: Seq<Value>) -> bool {
    forall|i: int, j: int|
        0 <= i < constants.len() && 0 <= j < constants.len() && i != j ==> (#[trigger] constants[i]).datum()
            != (#[trigger] constants[j]).datum()
}

/// What `position` finds: the first index holding `name`, or the length where none does.
proof fn lemma_position(names: Seq<Seq<u8>>, name: Seq<u8>)
    ensures
        position(names, name, 0) <= names.len(),
        (position(names, name, 0) < names.len()) == names.contains(name),
        position(names, name, 0) < names.len() ==> names[position(names, name, 0)] == name,
        distinct_names(names) ==> forall|k: int| 0 <= k < names.len() && names[k] == name ==> k == position(names, name, 0),
{
    lemma_position_from(names, name, 0);
}

proof fn lemma_position_from(names: Seq<Seq<u8>>, name: Seq<u8>, i: int)
    requires
        0 <= i <= names.len(),
    ensures
        i <= position(names, name, i) <= names.len(),
        position(names, name, i) < names.len() ==> names[position(names, name, i)] == name,
        forall|k: int| i <= k < position(names, name, i) ==> names[k] != name,
    decreases names.len() - i,
{
    if i < names.len() && names[i] != name {
        lemma_position_from(names, name, i + 1);
    }
}

/// Single-pass compiler from source bytes to a `Program`.
struct Compiler {
    source: Vec<u8>,
    pos: usize,
    depth: usize,
    code: Vec<u64>,
    constants: Vec<Value>,
    variables: IndexSet<Vec<u8>>,
    block_names: Vec<(usize, Vec<u8>)>,
    opts: Options,
}

impl Compiler {
    pub closed spec fn inv(&self) -> bool {
        &&& self.pos <= self.source@.len()
        &&& self.source@.len() <= usize::MAX
        &&& self.depth <= self.pos
        &&& self.code@.len() <= MAX_OFFSET
        &&& tables_ok(self.code@, self.constants@, names_in(self.variables))
    }

    /// What a step of compilation keeps: the source, the options, and every instruction already
    /// emitted before `from`.
    /// Where compilation stands, as the grammar's spec functions describe it.
    pub closed spec fn view_state(&self) -> CState {
        CState {
            pos: self.pos as int,
            depth: self.depth as int,
            code: self.code@,
            constants: data_of(self.constants@),
            names: names_in(self.variables),
        }
    }

    pub closed spec fn keeps(&self, old: &Compiler) -> bool {
        &&& self.source == old.source
        &&& self.opts == old.opts
        &&& self.pos >= old.pos
        &&& self.code@.len() >= old.code@.len()
        &&& forall|i: int| 0 <= i < old.code@.len() ==> self.code@[i] == old.code@[i]
    }

    fn emit(&mut self, op: Opcode, offset: usize) -> (r: Result<usize, Error>)
        requires
            old(self).inv(),
            offset <= MAX_OFFSET,
            op == Opcode::PushConstant ==> offset < old(self).constants@.len(),
            op == Opcode::GetVar || op == Opcode::SetVar ==> offset < names_in(old(self).variables).len(),
            is_jump_op(op) ==> offset <= old(self).code@.len(),
        ensures
            final(self).inv(),
            final(self).keeps(old(self)),
            final(self).pos == old(self).pos,
            final(self).constants == old(self).constants,
            final(self).variables == old(self).variables,
            r is Ok ==> r.unwrap() == old(self).code@.len() && final(self).code@ == old(self).code@.push(
                final(self).code@.last(),
            ) && op_of(final(self).code@.last()) == Some(op) && offset_of(final(self).code@.last())
                == offset,
            r is Err ==> r == Err::<usize, Error>(Error::Parse(ParseError::ProgramTooLarge)),
            follows(r, final(self).view_state(), s_emit(old(self).view_state(), op, offset as int)),
    {
        reveal(tables_ok);
        if self.code.len() as u64 >= MAX_OFFSET {
            return Err(Error::Parse(ParseError::ProgramTooLarge));
        }
        let w = encode(op, offset as u64);
        let at = self.code.len();
        let ghost before = *self;
        self.code.push(w);
        proof {
            let names = names_in(self.variables);
            assert forall|i: int| 0 <= i < self.code@.len() implies word_fits(
                #[trigger] self.code@[i],
                self.code@.len() as int,
                self.constants@.len() as int,
                names.len() as int,
            ) by {
                if i < at {
                    assert(before.code@[i] == self.code@[i]);
                    assert(word_fits(before.code@[i], before.code@.len() as int, self.constants@.len() as int, names.len() as int));
                }
            }
            assert forall|k: int| 0 <= k < names.len() implies #[trigger] var_used(self.code@, k) by {
                assert(var_used(before.code@, k));
                let i = choose|i: int| 0 <= i < before.code@.len() && is_var_op(op_of(before.code@[i])) && offset_of(before.code@[i]) == k;
                assert(self.code@[i] == before.code@[i]);
            }
            assert forall|i: int| 0 <= i < self.constants@.len() implies blocks_below(
                #[trigger] self.constants@[i].datum(),
                self.code@.len() as int,
            ) by {
                assert(blocks_below(before.constants@[i].datum(), before.code@.len() as int));
            }
        }
        Ok(at)
    }

    /// Points the jump at `at` to the next instruction to be emitted.
    fn patch(&mut self, at: usize, op: Opcode)
        requires
            old(self).inv(),
            at < old(self).code@.len(),
            is_jump_op(op),
            op_of(old(self).code@[at as int]) == Some(op),
        ensures
            final(self).inv(),
            final(self).source == old(self).source,
            final(self).opts == old(self).opts,
            final(self).pos == old(self).pos,
            final(self).constants == old(self).constants,
            final(self).variables == old(self).variables,
            final(self).code@.len() == old(self).code@.len(),
            forall|i: int| 0 <= i < old(self).code@.len() && i != at ==> final(self).code@[i] == old(self).code@[i],
            op_of(final(self).code@[at as int]) == Some(op),
            final(self).view_state() == s_patch(old(self).view_state(), at as int, op),
            final(self).depth == old(self).depth,
    {
        reveal(tables_ok);
        let target = self.code.len();
        let w = encode(op, target as u64);
        let ghost before = *self;
        self.code.set(at, w);
        proof {
            let names = names_in(self.variables);
            assert forall|i: int| 0 <= i < self.code@.len() implies word_fits(
                #[trigger] self.code@[i],
                self.code@.len() as int,
                self.constants@.len() as int,
                names.len() as int,
            ) by {
                if i != at {
                    assert(before.code@[i] == self.code@[i]);
                }
            }
            assert forall|k: int| 0 <= k < names.len() implies #[trigger] var_used(self.code@, k) by {
                assert(var_used(before.code@, k));
                let i = choose|i: int| 0 <= i < before.code@.len() && is_var_op(op_of(before.code@[i])) && offset_of(before.code@[i]) == k;
                assert(i != at);
                assert(self.code@[i] == before.code@[i]);
            }
        }
    }

    /// Emits a push of `v`, sharing the slot of an equal constant already in the pool.
    fn constant(&mut self, v: Value) -> (r: Result<(), Error>)
        requires
            old(self).inv(),
            blocks_below(v.datum(), old(self).code@.len() as int),
        ensures
            r is Ok ==> final(self).inv(),
            final(self).keeps(old(self)),
            final(self).pos == old(self).pos,
            final(self).variables == old(self).variables,
            r is Ok ==> final(self).code@.len() == old(self).code@.len() + 1,
            r is Ok ==> op_of(final(self).code@.last()) == Some(Opcode::PushConstant),
            r is Ok ==> final(self).constants@[offset_of(final(self).code@.last())].datum() == v.datum(),
            r is Ok && (exists|i: int| 0 <= i < old(self).constants@.len() && (#[trigger] old(self).constants@[i]).datum()
                == v.datum()) ==> final(self).constants == old(self).constants,
            r is Ok && !(exists|i: int| 0 <= i < old(self).constants@.len() && (#[trigger] old(self).constants@[i]).datum()
                == v.datum()) ==> final(self).constants@ == old(self).constants@.push(v),
            follows(r, final(self).view_state(), s_constant(old(self).view_state(), v.datum())),
    {
        reveal(tables_ok);
        let mut i: usize = 0;
        while i < self.constants.len()
            invariant
                0 <= i <= self.constants@.len(),
                *self == *old(self),
                self.inv(),
                blocks_below(v.datum(), self.code@.len() as int),
                forall|j: int| 0 <= j < i ==> (#[trigger] self.constants@[j]).datum() != v.datum(),
                first_equal(data_of(self.constants@), v.datum(), 0) == first_equal(data_of(self.constants@), v.datum(), i as int),
            decreases self.constants@.len() - i,
        {
            assert(data_of(self.constants@)[i as int] == self.constants@[i as int].datum());
            if equals(&self.constants[i], &v) {
                assert(first_equal(data_of(self.constants@), v.datum(), i as int) == i);
                if i as u64 > MAX_OFFSET {
                    return Err(Error::Parse(ParseError::ProgramTooLarge));
                }
                let ghost c = self.constants@[i as int];
                let r = self.emit(Opcode::PushConstant, i);
                match r {
                    Ok(_) => {
                        return Ok(());
                    },
                    Err(e) => {
                        return Err(e);
                    },
                }
            }
            i = i + 1;
        }
        let at = self.constants.len();
        if at as u64 > MAX_OFFSET {
            return Err(Error::Parse(ParseError::ProgramTooLarge));
        }
        let ghost before = *self;
        let ghost d = v.datum();
        self.constants.push(v);
        assert(data_of(self.constants@) =~= data_of(before.constants@).push(d));
        proof {
            let names = names_in(self.variables);
            assert forall|i: int| 0 <= i < self.code@.len() implies word_fits(
                #[trigger] self.code@[i],
                self.code@.len() as int,
                self.constants@.len() as int,
                names.len() as int,
            ) by {
                assert(word_fits(before.code@[i], before.code@.len() as int, before.constants@.len() as int, names.len() as int));
            }
            assert forall|i: int| 0 <= i < self.constants@.len() implies blocks_below(
                #[trigger] self.constants@[i].datum(),
                self.code@.len() as int,
            ) by {
                if i < at {
                    assert(self.constants@[i] == before.constants@[i]);
                }
            }
            assert forall|a: int, b: int|
                0 <= a < self.constants@.len() && 0 <= b < self.constants@.len() && a != b implies (
                #[trigger] self.constants@[a]).datum() != (#[trigger] self.constants@[b]).datum() by {
                if a < at && b < at {
                    assert(before.constants@[a] == self.constants@[a]);
                    assert(before.constants@[b] == self.constants@[b]);
                } else if a < at {
                    assert(before.constants@[a] == self.constants@[a]);
                } else {
                    assert(before.constants@[b] == self.constants@[b]);
                }
            }
        }
        match self.emit(Opcode::PushConstant, at) {
            Ok(_) => Ok(()),
            Err(e) => Err(e),
        }
    }

    /// Emits a read or write of the variable `name`, giving it the next index if it is new.
    fn emit_var(&mut self, op: Opcode, name: Vec<u8>) -> (r: Result<(), Error>)
        requires
            old(self).inv(),
            op == Opcode::GetVar || op == Opcode::SetVar,
        ensures
            r is Ok ==> final(self).inv(),
            final(self).keeps(old(self)),
            final(self).pos == old(self).pos,
            final(self).constants == old(self).constants,
            r is Ok ==> final(self).code@.len() == old(self).code@.len() + 1,
            r is Ok ==> op_of(final(self).code@.last()) == Some(op),
            r is Ok ==> names_in(final(self).variables)[offset_of(final(self).code@.last())] == name@,
            r is Ok && names_in(old(self).variables).contains(name@) ==> names_in(final(self).variables)
                == names_in(old(self).variables),
            r is Ok && !names_in(old(self).variables).contains(name@) ==> names_in(final(self).variables)
                == names_in(old(self).variables).push(name@),
            follows(r, final(self).view_state(), s_emit_var(old(self).opts, old(self).view_state(), op, name@)),
    {
        reveal(tables_ok);
        if self.opts.compliance.variable_name_length && name.len() > MAX_NAME_LEN {
            return Err(Error::Parse(ParseError::VariableNameTooLong));
        }
        if self.code.len() as u64 >= MAX_OFFSET {
            return Err(Error::Parse(ParseError::ProgramTooLarge));
        }
        let count = name_count(&self.variables);
        let ghost before = *self;
        let ghost n = name@;
        proof {
            lemma_position(names_in(self.variables), name@);
        }
        let (idx, fresh) = insert_name(&mut self.variables, name);
        if fresh && self.opts.compliance.variable_count && count >= MAX_VARIABLE_COUNT {
            return Err(Error::Parse(ParseError::TooManyVariables));
        }
        if idx as u64 > MAX_OFFSET {
            return Err(Error::Parse(ParseError::ProgramTooLarge));
        }
        let w = encode(op, idx as u64);
        self.code.push(w);
        proof {
            let old_names = names_in(before.variables);
            let names = names_in(self.variables);
            assert(idx < names.len());
            assert forall|i: int| 0 <= i < self.code@.len() implies word_fits(
                #[trigger] self.code@[i],
                self.code@.len() as int,
                self.constants@.len() as int,
                names.len() as int,
            ) by {
                if i < before.code@.len() {
                    assert(self.code@[i] == before.code@[i]);
                    assert(word_fits(before.code@[i], before.code@.len() as int, self.constants@.len() as int, old_names.len() as int));
                }
            }
            assert forall|i: int| 0 <= i < self.constants@.len() implies blocks_below(
                #[trigger] self.constants@[i].datum(),
                self.code@.len() as int,
            ) by {
                assert(blocks_below(before.constants@[i].datum(), before.code@.len() as int));
            }
            assert forall|k: int| 0 <= k < names.len() implies #[trigger] var_used(self.code@, k) by {
                if k < old_names.len() {
                    assert(var_used(before.code@, k));
                    let i = choose|i: int| 0 <= i < before.code@.len() && is_var_op(op_of(before.code@[i])) && offset_of(before.code@[i]) == k;
                    assert(self.code@[i] == before.code@[i]);
                } else {
                    assert(k == idx);
                    let last = self.code@.len() - 1;
                    assert(self.code@[last] == w);
                }
            }
            if !old_names.contains(n) {
                assert forall|i: int, j: int| 0 <= i < names.len() && 0 <= j < names.len() && i != j implies names[i] != names[j] by {
                    if i < old_names.len() && j < old_names.len() {
                    } else if i < old_names.len() {
                        assert(names[j] == n);
                        assert(old_names[i] == names[i]);
                    } else {
                        assert(names[i] == n);
                        assert(old_names[j] == names[j]);
                    }
                }
            }
        }
        Ok(())
    }

    /// Moves to `pos` with parentheses nested `depth` deep.
    fn set_position(&mut self, pos: usize, depth: usize)
        requires
            old(self).inv(),
            old(self).pos <= pos <= old(self).source@.len(),
            depth <= pos,
        ensures
            final(self).inv(),
            final(self).keeps(old(self)),
            final(self).pos == pos,
            final(self).depth == depth,
            final(self).code == old(self).code,
            final(self).constants == old(self).constants,
            final(self).variables == old(self).variables,
            final(self).view_state() == (CState { pos: pos as int, depth: depth as int, ..old(self).view_state() }),
    {
        self.pos = pos;
        self.depth = depth;
    }

    fn at_end(&self) -> (r: bool)
        requires
            self.pos <= self.source@.len(),
        ensures
            r == (self.pos == self.source@.len()),
    {
        self.pos >= self.source.len()
    }

    fn byte(&self) -> (r: u8)
        requires
            self.pos < self.source@.len(),
        ensures
            r == self.source@[self.pos as int],
    {
        self.source[self.pos]
    }

    /// The bytes of the source from `start` to `end`.
    fn copy_range(&self, start: usize, end: usize) -> (r: Vec<u8>)
        requires
            start <= end <= self.source@.len(),
        ensures
            r@ == self.source@.subrange(start as int, end as int),
    {
        let mut out: Vec<u8> = Vec::new();
        let mut i: usize = start;
        while i < end
            invariant
                start <= i <= end,
                end <= self.source@.len(),
                out@ == self.source@.subrange(start as int, i as int),
            decreases end - i,
        {
            out.push(self.source[i]);
            i = i + 1;
            assert(out@ =~= self.source@.subrange(start as int, i as int));
        }
        out
    }

    /// Skips whitespace, comments and parentheses.
    fn skip_blank(&mut self) -> (r: Result<(), Error>)
        requires
            old(self).inv(),
        ensures
            final(self).inv(),
            final(self).keeps(old(self)),
            final(self).code == old(self).code,
            final(self).constants == old(self).constants,
            final(self).variables == old(self).variables,
            follows(r, final(self).view_state(), s_blank(old(self).source@, old(self).opts, old(self).view_state())),
    {
        let n = self.source.len();
        let mut p: usize = self.pos;
        let mut d: usize = self.depth;
        let mut comment = false;
        let mut done = false;
        while p < n && !done
            invariant
                self == old(self),
                self.inv(),
                n == self.source@.len(),
                self.pos <= p <= n,
                d <= p,
                done ==> s_skip(self.source@, self.opts, self.pos as int, self.depth as int, false) == Ok::<(int, int), Error>((p as int, d as int)),
                !done ==> s_skip(self.source@, self.opts, self.pos as int, self.depth as int, false) == s_skip(self.source@, self.opts, p as int, d as int, comment),
            decreases n - p, if done { 0int } else { 1int },
        {
            let c = self.source[p];
            if comment {
                comment = c != 10;
                p = p + 1;
            } else if c == 35 {
                comment = true;
                p = p + 1;
            } else if c == 40 {
                d = d + 1;
                p = p + 1;
            } else if c == 41 {
                if d == 0 {
                    if self.opts.check_parens {
                        return Err(Error::Parse(ParseError::UnbalancedParens));
                    }
                } else {
                    d = d - 1;
                }
                p = p + 1;
            } else if c == 32 || c == 9 || c == 10 || c == 13 || c == 11 || c == 12 {
                p = p + 1;
            } else {
                done = true;
            }
        }
        self.set_position(p, d);
        Ok(())
    }

    /// Where the run of name bytes from `from` ends.
    fn scan_ident(&self, from: usize) -> (r: usize)
        requires
            from <= self.source@.len(),
        ensures
            r == ident_end(self.source@, from as int),
            from <= r <= self.source@.len(),
    {
        let mut p = from;
        while p < self.source.len() && ((97 <= self.source[p] && self.source[p] <= 122) || self.source[p] == 95 || (48 <= self.source[p] && self.source[p] <= 57))
            invariant
                from <= p <= self.source@.len(),
                ident_end(self.source@, from as int) == ident_end(self.source@, p as int),
            decreases self.source@.len() - p,
        {
            p = p + 1;
        }
        p
    }

    /// Where the run of upper-case letters and underscores from `from` ends.
    fn scan_word(&self, from: usize) -> (r: usize)
        requires
            from <= self.source@.len(),
        ensures
            r == word_end(self.source@, from as int),
            from <= r <= self.source@.len(),
    {
        let mut p = from;
        while p < self.source.len() && ((65 <= self.source[p] && self.source[p] <= 90) || self.source[p] == 95)
            invariant
                from <= p <= self.source@.len(),
                word_end(self.source@, from as int) == word_end(self.source@, p as int),
            decreases self.source@.len() - p,
        {
            p = p + 1;
        }
        p
    }

    /// Where the string literal closed by `q` that continues at `from` ends.
    fn scan_quote(&self, from: usize, q: u8) -> (r: usize)
        requires
            from <= self.source@.len(),
        ensures
            r == quote_end(self.source@, from as int, q),
            from <= r <= self.source@.len(),
    {
        let mut p = from;
        while p < self.source.len() && self.source[p] != q
            invariant
                from <= p <= self.source@.len(),
                quote_end(self.source@, from as int, q) == quote_end(self.source@, p as int, q),
            decreases self.source@.len() - p,
        {
            p = p + 1;
        }
        p
    }

    /// Reads a variable name: lower-case letters, digits and underscores.
    fn identifier(&mut self) -> (r: Vec<u8>)
        requires
            old(self).inv(),
            old(self).pos < old(self).source@.len(),
        ensures
            r@ == final(self).source@.subrange(old(self).pos as int, final(self).pos as int),
            final(self).inv(),
            final(self).keeps(old(self)),
            final(self).pos > old(self).pos,
            final(self).pos == ident_end(old(self).source@, old(self).pos + 1),
            final(self).view_state() == (CState { pos: final(self).pos as int, ..old(self).view_state() }),
            final(self).code == old(self).code,
            final(self).constants == old(self).constants,
            final(self).variables == old(self).variables,
    {
        let start = self.pos;
        let e = self.scan_ident(start + 1);
        let d = self.depth;
        self.set_position(e, d);
        self.copy_range(start, e)
    }

    /// An integer literal.
    fn number(&mut self) -> (r: Result<(), Error>)
        requires
            old(self).inv(),
        ensures
            r is Ok ==> final(self).inv(),
            r is Ok ==> final(self).code@.len() > old(self).code@.len(),
            final(self).keeps(old(self)),
            follows(r, final(self).view_state(), s_number(old(self).source@, old(self).opts, old(self).view_state())),
    {
        let n = self.source.len();
        let mut p: usize = self.pos;
        let mut v: i64 = 0;
        while p < n && 48 <= self.source[p] && self.source[p] <= 57
            invariant
                self == old(self),
                n == self.source@.len(),
                self.pos <= p <= n,
                0 <= v,
                lit_scan(self.source@, self.pos as int, 0) == lit_scan(self.source@, p as int, v as int),
            decreases n - p,
        {
            let d = (self.source[p] - 48) as i64;
            v = match v.checked_mul(10) {
                Some(x) => match x.checked_add(d) {
                    Some(y) => y,
                    None => {
                        return Err(Error::Parse(ParseError::IntegerLiteralTooLarge));
                    },
                },
                None => {
                    return Err(Error::Parse(ParseError::IntegerLiteralTooLarge));
                },
            };
            p = p + 1;
        }
        if self.opts.compliance.i32_integer && v > i32::MAX as i64 {
            return Err(Error::Parse(ParseError::IntegerLiteralTooLarge));
        }
        let d = self.depth;
        self.set_position(p, d);
        self.constant(Value::Integer(v))
    }

    /// A string literal opened by `q`.
    fn string(&mut self, q: u8) -> (r: Result<(), Error>)
        requires
            old(self).inv(),
            old(self).pos < old(self).source@.len(),
        ensures
            r is Ok ==> final(self).inv(),
            r is Ok ==> final(self).code@.len() > old(self).code@.len(),
            final(self).keeps(old(self)),
            follows(r, final(self).view_state(), s_string(old(self).source@, old(self).opts, old(self).view_state(), q)),
    {
        let start = self.pos + 1;
        let e = self.scan_quote(start, q);
        if e >= self.source.len() {
            return Err(Error::Parse(ParseError::UnterminatedString));
        }
        let bytes = self.copy_range(start, e);
        match validate(&bytes, &self.opts) {
            Ok(()) => {},
            Err(crate::error::NewTextError::IllegalByte(b)) => {
                return Err(Error::Parse(ParseError::IllegalByte(b)));
            },
            Err(t) => {
                return Err(Error::Text(t));
            },
        }
        let d = self.depth;
        self.set_position(e + 1, d);
        let v = Value::Str(KString::new_unvalidated(bytes));
        assert(v.datum() == Datum::Str(self.source@.subrange(start as int, e as int)));
        self.constant(v)
    }

    /// Compiles `n` expressions in a row.
    fn args(&mut self, n: usize) -> (r: Result<(), Error>)
        requires
            old(self).inv(),
        ensures
            r is Ok ==> final(self).inv(),
            final(self).keeps(old(self)),
            follows(r, final(self).view_state(), s_args(old(self).source@, old(self).opts, old(self).view_state(), n as nat)),
        decreases old(self).source@.len() - old(self).pos, 1int,
    {
        let mut k: usize = 0;
        while k < n
            invariant
                self.inv(),
                self.keeps(old(self)),
                k <= n,
                s_args(old(self).source@, old(self).opts, old(self).view_state(), n as nat) == s_args(
                    self.source@,
                    self.opts,
                    self.view_state(),
                    (n - k) as nat,
                ),
            decreases n - k,
        {
            let ghost before = self.view_state();
            self.parse_expr()?;
            assert(before.pos <= self.view_state().pos <= self.source@.len());
            k = k + 1;
        }
        Ok(())
    }

    /// Compiles `n` expressions and then `op`.
    fn simple(&mut self, n: usize, op: Opcode) -> (r: Result<(), Error>)
        requires
            old(self).inv(),
            op != Opcode::PushConstant && op != Opcode::GetVar && op != Opcode::SetVar && !is_jump_op(op),
        ensures
            r is Ok ==> final(self).inv(),
            r is Ok ==> final(self).code@.len() > old(self).code@.len(),
            final(self).keeps(old(self)),
            follows(r, final(self).view_state(), s_simple(old(self).source@, old(self).opts, old(self).view_state(), n as nat, op)),
        decreases old(self).source@.len() - old(self).pos, 2int,
    {
        self.args(n)?;
        self.emit(op, 0)?;
        Ok(())
    }

    /// Compiles one expression.
    fn parse_expr(&mut self) -> (r: Result<(), Error>)
        requires
            old(self).inv(),
        ensures
            r is Ok ==> final(self).inv(),
            r is Ok ==> final(self).code@.len() > old(self).code@.len(),
            final(self).keeps(old(self)),
            follows(r, final(self).view_state(), s_expr(old(self).source@, old(self).opts, old(self).view_state())),
        decreases old(self).source@.len() - old(self).pos, 0int,
    {
        self.skip_blank()?;
        if self.at_end() {
            return Err(Error::Parse(ParseError::MissingExpression));
        }
        let c = self.byte();
        if 48 <= c && c <= 57 {
            return self.number();
        }
        if c == 34 || c == 39 {
            return self.string(c);
        }
        if (97 <= c && c <= 122) || c == 95 {
            let name = self.identifier();
            return self.emit_var(Opcode::GetVar, name);
        }
        let p = if 65 <= c && c <= 90 { self.scan_word(self.pos + 1) } else { self.pos + 1 };
        let d = self.depth;
        self.set_position(p, d);
        self.function(c)
    }

    /// Compiles the function named by `f`, whose name has just been read.
    fn function(&mut self, f: u8) -> (r: Result<(), Error>)
        requires
            old(self).inv(),
        ensures
            r is Ok ==> final(self).inv(),
            r is Ok ==> final(self).code@.len() > old(self).code@.len(),
            final(self).keeps(old(self)),
            follows(r, final(self).view_state(), s_function(old(self).source@, old(self).opts, old(self).view_state(), f)),
        decreases old(self).source@.len() - old(self).pos, 5int,
    {
        if f == 84 {
            return self.constant(Value::Boolean(true));
        }
        if f == 70 {
            return self.constant(Value::Boolean(false));
        }
        if f == 78 {
            return self.constant(Value::Null);
        }
        if f == 64 {
            let e = Value::List(List::empty());
            assert(e.datum() == Datum::List(Seq::empty()));
            return self.constant(e);
        }
        if f == 80 {
            self.emit(Opcode::Prompt, 0)?;
            return Ok(());
        }
        if f == 82 {
            self.emit(Opcode::Random, 0)?;
            return Ok(());
        }
        if let Some(op) = unary_for(f) {
            return self.simple(1, op);
        }
        if let Some(op) = binary_for(f) {
            return self.simple(2, op);
        }
        if f == 71 {
            return self.simple(3, Opcode::Get);
        }
        if f == 83 {
            return self.simple(4, Opcode::Splice);
        }
        self.control(f)
    }

    /// Compiles the functions that jump, sequence or assign.
    fn control(&mut self, f: u8) -> (r: Result<(), Error>)
        requires
            old(self).inv(),
        ensures
            r is Ok ==> final(self).inv(),
            r is Ok ==> final(self).code@.len() > old(self).code@.len(),
            final(self).keeps(old(self)),
            follows(r, final(self).view_state(), s_control(old(self).source@, old(self).opts, old(self).view_state(), f)),
        decreases old(self).source@.len() - old(self).pos, 4int,
    {
        if f == 58 {
            self.parse_expr()
        } else if f == 59 {
            self.sequence()
        } else if f == 38 {
            self.short_circuit(Opcode::JumpIfFalse)
        } else if f == 124 {
            self.short_circuit(Opcode::JumpIfTrue)
        } else if f == 73 {
            self.conditional()
        } else if f == 87 {
            self.while_loop()
        } else if f == 66 {
            self.block()
        } else if f == 61 {
            self.assign()
        } else {
            Err(Error::Parse(ParseError::UnknownFunction(f)))
        }
    }

    /// `; a b`: `a`, its value dropped, then `b`.
    fn sequence(&mut self) -> (r: Result<(), Error>)
        requires
            old(self).inv(),
        ensures
            r is Ok ==> final(self).inv(),
            r is Ok ==> final(self).code@.len() > old(self).code@.len(),
            final(self).keeps(old(self)),
            follows(r, final(self).view_state(), s_sequence(old(self).source@, old(self).opts, old(self).view_state())),
        decreases old(self).source@.len() - old(self).pos, 3int,
    {
        self.parse_expr()?;
        self.emit(Opcode::Pop, 0)?;
        self.parse_expr()
    }

    /// `& a b` and `| a b`: `b` is run only where the jump on `a` is not taken.
    fn short_circuit(&mut self, op: Opcode) -> (r: Result<(), Error>)
        requires
            old(self).inv(),
            op == Opcode::JumpIfFalse || op == Opcode::JumpIfTrue,
        ensures
            r is Ok ==> final(self).inv(),
            r is Ok ==> final(self).code@.len() > old(self).code@.len(),
            final(self).keeps(old(self)),
            follows(r, final(self).view_state(), s_short(old(self).source@, old(self).opts, old(self).view_state(), op)),
        decreases old(self).source@.len() - old(self).pos, 3int,
    {
        self.parse_expr()?;
        self.emit(Opcode::Dup, 0)?;
        let at = self.emit(op, 0)?;
        self.emit(Opcode::Pop, 0)?;
        self.parse_expr()?;
        self.patch(at, op);
        Ok(())
    }

    /// `IF c t f`.
    fn conditional(&mut self) -> (r: Result<(), Error>)
        requires
            old(self).inv(),
        ensures
            r is Ok ==> final(self).inv(),
            r is Ok ==> final(self).code@.len() > old(self).code@.len(),
            final(self).keeps(old(self)),
            follows(r, final(self).view_state(), s_conditional(old(self).source@, old(self).opts, old(self).view_state())),
        decreases old(self).source@.len() - old(self).pos, 3int,
    {
        self.parse_expr()?;
        let at_false = self.emit(Opcode::JumpIfFalse, 0)?;
        self.parse_expr()?;
        let at_end = self.emit(Opcode::Jump, 0)?;
        self.patch(at_false, Opcode::JumpIfFalse);
        self.parse_expr()?;
        self.patch(at_end, Opcode::Jump);
        Ok(())
    }

    /// `WHILE c b`, which yields null.
    fn while_loop(&mut self) -> (r: Result<(), Error>)
        requires
            old(self).inv(),
        ensures
            r is Ok ==> final(self).inv(),
            r is Ok ==> final(self).code@.len() > old(self).code@.len(),
            final(self).keeps(old(self)),
            follows(r, final(self).view_state(), s_while(old(self).source@, old(self).opts, old(self).view_state())),
        decreases old(self).source@.len() - old(self).pos, 3int,
    {
        let start = self.code.len();
        self.parse_expr()?;
        let at_false = self.emit(Opcode::JumpIfFalse, 0)?;
        self.parse_expr()?;
        self.emit(Opcode::Pop, 0)?;
        self.emit(Opcode::Jump, start)?;
        self.patch(at_false, Opcode::JumpIfFalse);
        self.constant(Value::Null)
    }

    /// `BLOCK e`: the body is jumped over, and the block is pushed as a constant.
    fn block(&mut self) -> (r: Result<(), Error>)
        requires
            old(self).inv(),
        ensures
            r is Ok ==> final(self).inv(),
            r is Ok ==> final(self).code@.len() > old(self).code@.len(),
            final(self).keeps(old(self)),
            follows(r, final(self).view_state(), s_block(old(self).source@, old(self).opts, old(self).view_state())),
        decreases old(self).source@.len() - old(self).pos, 3int,
    {
        let at_past = self.emit(Opcode::Jump, 0)?;
        let start = self.code.len();
        self.parse_expr()?;
        self.emit(Opcode::Return, 0)?;
        self.patch(at_past, Opcode::Jump);
        self.constant(Value::Block(start))
    }

    /// Records that the block about to be compiled is assigned to `name`.
    fn name_block(&mut self, name: Vec<u8>)
        requires
            old(self).inv(),
        ensures
            final(self).inv(),
            final(self).keeps(old(self)),
            final(self).pos == old(self).pos,
            final(self).view_state() == old(self).view_state(),
            final(self).code == old(self).code,
            final(self).constants == old(self).constants,
            final(self).variables == old(self).variables,
    {
        if self.code.len() < usize::MAX {
            self.block_names.push((self.code.len() + 1, name));
        }
    }

    /// `= name e`; a block assigned this way is named after the variable.
    fn assign(&mut self) -> (r: Result<(), Error>)
        requires
            old(self).inv(),
        ensures
            r is Ok ==> final(self).inv(),
            r is Ok ==> final(self).code@.len() > old(self).code@.len(),
            final(self).keeps(old(self)),
            follows(r, final(self).view_state(), s_assign(old(self).source@, old(self).opts, old(self).view_state())),
        decreases old(self).source@.len() - old(self).pos, 3int,
    {
        self.skip_blank()?;
        if self.at_end() {
            return Err(Error::Parse(ParseError::MissingExpression));
        }
        let c = self.byte();
        if !((97 <= c && c <= 122) || c == 95) {
            return Err(Error::Parse(ParseError::AssignToNonVariable));
        }
        let start = self.pos;
        let name = self.identifier();
        let end = self.pos;
        self.skip_blank()?;
        if !self.at_end() && self.byte() == 66 {
            let again = self.copy_range(start, end);
            self.name_block(again);
        }
        self.assign_value(name)
    }

    /// The value of an assignment, then the write of `name`.
    fn assign_value(&mut self, name: Vec<u8>) -> (r: Result<(), Error>)
        requires
            old(self).inv(),
        ensures
            r is Ok ==> final(self).inv(),
            r is Ok ==> final(self).code@.len() > old(self).code@.len(),
            final(self).keeps(old(self)),
            follows(r, final(self).view_state(), s_assign_value(old(self).source@, old(self).opts, old(self).view_state(), name@)),
        decreases old(self).source@.len() - old(self).pos, 2int,
    {
        self.parse_expr()?;
        self.emit_var(Opcode::SetVar, name)
    }
}

fn unary_for(f: u8) -> (r: Option<Opcode>)
    ensures
        r == unary_op(f),
{
    if f == 67 {
        Some(Opcode::Call)
    } else if f == 81 {
        Some(Opcode::Quit)
    } else if f == 79 {
        Some(Opcode::Output)
    } else if f == 68 {
        Some(Opcode::Dump)
    } else if f == 76 {
        Some(Opcode::Length)
    } else if f == 33 {
        Some(Opcode::Not)
    } else if f == 126 {
        Some(Opcode::Negate)
    } else if f == 65 {
        Some(Opcode::Ascii)
    } else if f == 44 {
        Some(Opcode::Box)
    } else if f == 91 {
        Some(Opcode::Head)
    } else if f == 93 {
        Some(Opcode::Tail)
    } else {
        None
    }
}

fn binary_for(f: u8) -> (r: Option<Opcode>)
    ensures
        r == binary_op(f),
{
    if f == 43 {
        Some(Opcode::Add)
    } else if f == 45 {
        Some(Opcode::Sub)
    } else if f == 42 {
        Some(Opcode::Mul)
    } else if f == 47 {
        Some(Opcode::Div)
    } else if f == 37 {
        Some(Opcode::Mod)
    } else if f == 94 {
        Some(Opcode::Pow)
    } else if f == 60 {
        Some(Opcode::Lth)
    } else if f == 62 {
        Some(Opcode::Gth)
    } else if f == 63 {
        Some(Opcode::Eql)
    } else {
        None
    }
}

/// Compiles Knight source text into a program.
///
/// Every variable read or written gets the next index the first time it is seen, so the
/// indices of a program's variables are exactly `0..n` for its `n` distinct names.
pub fn compile(source: Vec<u8>, opts: &Options) -> (r: Result<Program, Error>)
    ensures
        r is Ok ==> r.unwrap().wf(),
        r is Ok ==> forall|i: int, j: int|
            0 <= i < r.unwrap().variables@.len() && 0 <= j < r.unwrap().variables@.len() && i != j
                ==> (#[trigger] r.unwrap().variables@[i])@ != (#[trigger] r.unwrap().variables@[j])@,
        r is Ok ==> forall|k: int| 0 <= k < r.unwrap().variables@.len() ==> #[trigger] var_used(
            r.unwrap().code@,
            k,
        ),
        r is Ok ==> distinct_constants(r.unwrap().constants@),
        compile_outcome(r, source@, *opts),
{
    let ghost src = source@;
    let n = source.len();
    let mut c = Compiler {
        source,
        pos: 0,
        depth: 0,
        code: Vec::new(),
        constants: Vec::new(),
        variables: new_name_set(),
        block_names: Vec::new(),
        opts: *opts,
    };
    proof {
        reveal(tables_ok);
        assert(tables_ok(c.code@, c.constants@, names_in(c.variables)));
        assert(data_of(c.constants@) =~= Seq::<Datum>::empty());
        assert(c.view_state() == crate::grammar::start_state());
    }
    c.parse_expr()?;
    c.skip_blank()?;
    if opts.compliance.forbid_trailing_tokens && !c.at_end() {
        return Err(Error::Parse(ParseError::TrailingTokens));
    }
    if opts.check_parens && c.depth != 0 {
        return Err(Error::Parse(ParseError::UnbalancedParens));
    }
    c.emit(Opcode::Return, 0)?;
    proof {
        reveal(tables_ok);
    }
    let ghost last = c.view_state();
    let ghost names = names_in(c.variables);
    let ghost code = c.code@;
    let variables = into_names(c.variables);
    let p = Program {
        code: c.code,
        constants: c.constants,
        variables,
        block_names: c.block_names,
    };
    proof {
        assert forall|i: int| 0 <= i < p.code@.len() implies word_fits(
            #[trigger] p.code@[i],
            p.code@.len() - 1,
            p.constants@.len() as int,
            p.variables@.len() as int,
        ) by {
            assert(word_fits(code[i], code.len() as int, p.constants@.len() as int, names.len() as int));
            if i < code.len() - 1 {
            }
        }
        assert forall|i: int, j: int|
            0 <= i < p.variables@.len() && 0 <= j < p.variables@.len() && i != j
                implies (#[trigger] p.variables@[i])@ != (#[trigger] p.variables@[j])@ by {
            assert(names[i] != names[j]);
        }
        assert(compiled(src, *opts) == Ok::<CState, Error>(last));
    }
    Ok(p)
}

/// Whether `r` is what compiling `src` under `opts` yields: the error `compiled` names, or a
/// program whose code, constants and variable names are the ones it names.
pub open spec fn compile_outcome(r: Result<Program, Error>, src: Seq<u8>, opts: Options) -> bool {
    match compiled(src, opts) {
        Ok(st) => r is Ok && program_matches(r.unwrap(), st),
        Err(e) => r == Err::<Program, Error>(e),
    }
}

/// Whether a program holds the code, constants and variable names of a compilation state.
pub open spec fn program_matches(p: Program, st: CState) -> bool {
    &&& p.code@ == st.code
    &&& data_of(p.constants@) == st.constants
    &&& p.variables@.len() == st.names.len()
    &&& forall|i: int| 0 <= i < st.names.len() ==> (#[trigger] p.variables@[i])@ == st.names[i]
}

} // verus!
