use vstd::prelude::*;
use crate::error::{Domain, Error, Kind, NewTextError};
use crate::integer::{arith_result, pow_result, trunc_div, trunc_rem};
use crate::options::Options;
use crate::program::Opcode;
use crate::seqs::repeat_seq;
use crate::string::{max_len, KString};
use crate::convert::{decimal, int_to_text, nat_to_text};
use crate::string::valid_byte;
use crate::value::{
    text_false, text_null, text_true, compare, data_of, datum_kind, integer_of, joined_text, lemma_data, lemma_data_of_add, list_of,
    text_of, truth, Datum, List, Value,
};

verus! {

/// Whether an operator's outcome `r` is what the language prescribes, `s`: a value meaning the
/// prescribed one, or the prescribed error.
pub open spec fn yields(r: Result<Value, Error>, s: Result<Datum, Error>) -> bool {
    match s {
        Ok(d) => r is Ok && r->Ok_0.datum() == d,
        Err(e) => r == Err::<Value, Error>(e),
    }
}

pub open spec fn int_outcome(r: Result<i64, Error>) -> Result<Datum, Error> {
    match r {
        Ok(v) => Ok(Datum::Integer(v as int)),
        Err(e) => Err(e),
    }
}

pub open spec fn type_error(d: Datum, op: Opcode) -> Result<Datum, Error> {
    Err(Error::TypeError { kind: datum_kind(d), op })
}

/// `+`: integer addition, string or list concatenation, after coercing `b` to the kind of `a`.
pub open spec fn plus(a: Datum, b: Datum, opts: Options) -> Result<Datum, Error> {
    match a {
        Datum::Integer(x) => match integer_of(b, opts) {
            Ok(y) => int_outcome(arith_result(x + y, opts)),
            Err(e) => Err(e),
        },
        Datum::Str(s) => match text_of(b) {
            Some(t) => if s.len() + t.len() <= max_len(opts) {
                Ok(Datum::Str(s + t))
            } else {
                Err(Error::Text(NewTextError::TooLong))
            },
            None => Err(Error::Conversion { from: Kind::Block, to: Kind::String }),
        },
        Datum::List(l) => match list_of(b, opts) {
            Ok(m) => if l.len() + m.len() <= max_len(opts) {
                Ok(Datum::List(l + m))
            } else {
                Err(Error::ListTooLarge)
            },
            Err(e) => Err(e),
        },
        _ => type_error(a, Opcode::Add),
    }
}

/// An integer operator: `b` is coerced to an integer and combined with the integer `a`.
pub open spec fn integer_op(a: Datum, b: Datum, op: Opcode, opts: Options) -> Result<Datum, Error> {
    match a {
        Datum::Integer(x) => match integer_of(b, opts) {
            Ok(y) => int_outcome(
                match op {
                    Opcode::Sub => arith_result(x - y, opts),
                    Opcode::Mul => arith_result(x * y, opts),
                    Opcode::Div => if y == 0 {
                        Err(Error::DivisionByZero)
                    } else {
                        arith_result(trunc_div(x, y as int), opts)
                    },
                    Opcode::Mod => if y == 0 {
                        Err(Error::DivisionByZero)
                    } else if opts.compliance.check_integer_function_bounds && x < 0 {
                        Err(Error::Domain(Domain::NegativeModulusBase))
                    } else {
                        arith_result(trunc_rem(x, y as int), opts)
                    },
                    _ => pow_result(x, y as int, opts),
                },
            ),
            Err(e) => Err(e),
        },
        _ => type_error(a, op),
    }
}

/// `*`: integer multiplication, or repetition of a string or list.
pub open spec fn times(a: Datum, b: Datum, opts: Options) -> Result<Datum, Error> {
    match a {
        Datum::Integer(_) => integer_op(a, b, Opcode::Mul, opts),
        Datum::Str(s) => match integer_of(b, opts) {
            Ok(n) => if n < 0 {
                Err(Error::Domain(Domain::NegativeRepeat))
            } else if n == 1 {
                Ok(Datum::Str(s))
            } else if s.len() * n <= max_len(opts) {
                Ok(Datum::Str(repeat_seq(s, n as nat)))
            } else {
                Err(Error::Text(NewTextError::TooLong))
            },
            Err(e) => Err(e),
        },
        Datum::List(l) => match integer_of(b, opts) {
            Ok(n) => if n < 0 {
                Err(Error::Domain(Domain::NegativeRepeat))
            } else if n == 1 {
                Ok(Datum::List(l))
            } else if l.len() * n <= max_len(opts) {
                Ok(Datum::List(repeat_seq(l, n as nat)))
            } else {
                Err(Error::ListTooLarge)
            },
            Err(e) => Err(e),
        },
        _ => type_error(a, Opcode::Mul),
    }
}

/// `^`: integer power, or a list joined with the text of `b` between its elements.
pub open spec fn caret(a: Datum, b: Datum, opts: Options) -> Result<Datum, Error> {
    match a {
        Datum::List(l) => match text_of(b) {
            Some(sep) => if sep.len() > max_len(opts) {
                Err(Error::Text(NewTextError::TooLong))
            } else {
                match joined_text(l, sep) {
                    Some(t) => if t.len() <= max_len(opts) {
                        Ok(Datum::Str(t))
                    } else {
                        Err(Error::Text(NewTextError::TooLong))
                    },
                    None => Err(Error::Conversion { from: Kind::Block, to: Kind::String }),
                }
            },
            None => Err(Error::Conversion { from: Kind::Block, to: Kind::String }),
        },
        _ => integer_op(a, b, Opcode::Pow, opts),
    }
}

pub proof fn lemma_data_of_subrange(s: Seq<Value>, i: int, j: int)
    requires
        0 <= i <= j <= s.len(),
    ensures
        data_of(s.subrange(i, j)) == data_of(s).subrange(i, j),
{
    assert(data_of(s.subrange(i, j)) =~= data_of(s).subrange(i, j));
}

pub proof fn lemma_data_of_repeat(s: Seq<Value>, n: nat)
    ensures
        data_of(repeat_seq(s, n)) == repeat_seq(data_of(s), n),
    decreases n,
{
    if n == 0 {
        assert(data_of(Seq::<Value>::empty()) =~= Seq::<Datum>::empty());
    } else {
        lemma_data_of_repeat(s, (n - 1) as nat);
        lemma_data_of_add(repeat_seq(s, (n - 1) as nat), s);
    }
}

impl Value {
    /// `+`.
    pub fn kn_plus(&self, rhs: &Value, opts: &Options) -> (r: Result<Value, Error>)
        ensures
            yields(r, plus(self.datum(), rhs.datum(), *opts)),
    {
        match self {
            Value::Integer(x) => {
                let y = rhs.to_integer(opts)?;
                let z = crate::integer::add(*x, y, opts)?;
                Ok(Value::Integer(z))
            },
            Value::Str(s) => {
                let t = rhs.to_knstr(opts)?;
                let c = s.concat(&t, opts)?;
                Ok(Value::Str(c))
            },
            Value::List(l) => {
                let m = rhs.to_array(opts)?;
                proof {
                    lemma_data(*l);
                    lemma_data(m);
                }
                let c = l.concat(&m, opts)?;
                proof {
                    lemma_data(c);
                    lemma_data_of_add(l@, m@);
                }
                Ok(Value::List(c))
            },
            _ => Err(Error::TypeError { kind: self.kind(), op: Opcode::Add }),
        }
    }

    /// `-`, `/`, `%` and the integer form of `^`.
    pub fn kn_integer_op(&self, rhs: &Value, op: Opcode, opts: &Options) -> (r: Result<Value, Error>)
        requires
            op == Opcode::Sub || op == Opcode::Mul || op == Opcode::Div || op == Opcode::Mod || op == Opcode::Pow,
        ensures
            yields(r, integer_op(self.datum(), rhs.datum(), op, *opts)),
    {
        match self {
            Value::Integer(x) => {
                let y = rhs.to_integer(opts)?;
                let z = match op {
                    Opcode::Sub => crate::integer::subtract(*x, y, opts),
                    Opcode::Mul => crate::integer::multiply(*x, y, opts),
                    Opcode::Div => crate::integer::divide(*x, y, opts),
                    Opcode::Mod => crate::integer::remainder(*x, y, opts),
                    _ => crate::integer::power_of(*x, y, opts),
                }?;
                Ok(Value::Integer(z))
            },
            _ => Err(Error::TypeError { kind: self.kind(), op }),
        }
    }

    /// `*`.
    pub fn kn_asterisk(&self, rhs: &Value, opts: &Options) -> (r: Result<Value, Error>)
        ensures
            yields(r, times(self.datum(), rhs.datum(), *opts)),
    {
        match self {
            Value::Integer(_) => self.kn_integer_op(rhs, Opcode::Mul, opts),
            Value::Str(s) => {
                let n = rhs.to_integer(opts)?;
                if n < 0 {
                    return Err(Error::Domain(Domain::NegativeRepeat));
                }
                if n as u64 > usize::MAX as u64 {
                    if s.is_empty() {
                        proof {
                            assert(s@.len() * n == 0) by (nonlinear_arith)
                                requires
                                    s@.len() == 0,
                            ;
                            crate::seqs::lemma_repeat_len(s@, n as nat);
                            assert(repeat_seq(s@, n as nat) =~= s@);
                        }
                        return Ok(Value::Str(s.clone_string()));
                    }
                    proof {
                        assert(s@.len() * n >= n) by (nonlinear_arith)
                            requires
                                s@.len() >= 1,
                                n >= 0,
                        ;
                    }
                    return Err(Error::Text(NewTextError::TooLong));
                }
                let c = s.repeat(n as usize, opts)?;
                Ok(Value::Str(c))
            },
            Value::List(l) => {
                let n = rhs.to_integer(opts)?;
                if n < 0 {
                    return Err(Error::Domain(Domain::NegativeRepeat));
                }
                proof {
                    lemma_data(*l);
                }
                if n as u64 > usize::MAX as u64 {
                    if l.is_empty() {
                        proof {
                            assert(l@.len() * n == 0) by (nonlinear_arith)
                                requires
                                    l@.len() == 0,
                            ;
                            crate::seqs::lemma_repeat_len(data_of(l@), n as nat);
                            assert(repeat_seq(data_of(l@), n as nat) =~= data_of(l@));
                        }
                        return Ok(Value::List(l.share()));
                    }
                    proof {
                        assert(l@.len() * n >= n) by (nonlinear_arith)
                            requires
                                l@.len() >= 1,
                                n >= 0,
                        ;
                    }
                    return Err(Error::ListTooLarge);
                }
                let c = l.repeat(n as usize, opts)?;
                proof {
                    lemma_data(c);
                    lemma_data_of_repeat(l@, n as nat);
                }
                Ok(Value::List(c))
            },
            _ => Err(Error::TypeError { kind: self.kind(), op: Opcode::Mul }),
        }
    }

    /// `^`.
    pub fn kn_caret(&self, rhs: &Value, opts: &Options) -> (r: Result<Value, Error>)
        ensures
            yields(r, caret(self.datum(), rhs.datum(), *opts)),
    {
        match self {
            Value::List(l) => {
                let sep = rhs.to_knstr(opts)?;
                proof {
                    lemma_data(*l);
                }
                let t = l.join(&sep, opts)?;
                Ok(Value::Str(t))
            },
            _ => self.kn_integer_op(rhs, Opcode::Pow, opts),
        }
    }
}

/// `<` and `>`.
pub open spec fn ordering(a: Datum, b: Datum, op: Opcode, opts: Options) -> Result<Datum, Error> {
    match compare(a, b, opts) {
        Ok(c) => Ok(Datum::Boolean(if op == Opcode::Lth { c < 0 } else { c > 0 })),
        Err(e) => Err(e),
    }
}

pub open spec fn is_block(d: Datum) -> bool {
    d is Block
}

/// `?`: equality of meaning; blocks are refused where equality parameters are checked.
pub open spec fn equality(a: Datum, b: Datum, opts: Options) -> Result<Datum, Error> {
    if opts.compliance.check_equals_params && (is_block(a) || is_block(b)) {
        Err(Error::TypeError { kind: Kind::Block, op: Opcode::Eql })
    } else {
        Ok(Datum::Boolean(a == b))
    }
}

/// `LENGTH`: the length of a string or list, else of the list the value coerces to.
pub open spec fn length(a: Datum, opts: Options) -> Result<Datum, Error> {
    match a {
        Datum::Str(s) => int_outcome(arith_result(s.len() as int, opts)),
        _ => match list_of(a, opts) {
            Ok(l) => int_outcome(arith_result(l.len() as int, opts)),
            Err(e) => Err(e),
        },
    }
}

/// `!`.
pub open spec fn not(a: Datum, opts: Options) -> Result<Datum, Error> {
    match truth(a, opts) {
        Ok(t) => Ok(Datum::Boolean(!t)),
        Err(e) => Err(e),
    }
}

/// `~`.
pub open spec fn negation(a: Datum, opts: Options) -> Result<Datum, Error> {
    match integer_of(a, opts) {
        Ok(x) => int_outcome(arith_result(-x, opts)),
        Err(e) => Err(e),
    }
}

/// `ASCII`: the one-byte string of a code, or the code of a string's first byte.
pub open spec fn ascii(a: Datum, opts: Options) -> Result<Datum, Error> {
    match a {
        Datum::Integer(x) => if !(0 <= x < 128) {
            Err(Error::Domain(Domain::NotAChar))
        } else if !valid_byte(x as u8, opts.encoding) {
            Err(Error::Text(NewTextError::IllegalByte(x as u8)))
        } else {
            Ok(Datum::Str(seq![x as u8]))
        },
        Datum::Str(s) => if s.len() > 0 {
            Ok(Datum::Integer(s[0] as int))
        } else {
            Err(Error::Domain(Domain::EmptyAscii))
        },
        _ => type_error(a, Opcode::Ascii),
    }
}

/// `[`: the first byte of a string or the first element of a list.
pub open spec fn head(a: Datum) -> Result<Datum, Error> {
    match a {
        Datum::Str(s) => if s.len() > 0 {
            Ok(Datum::Str(s.subrange(0, 1)))
        } else {
            Err(Error::Domain(Domain::EmptyHead))
        },
        Datum::List(l) => if l.len() > 0 {
            Ok(l[0])
        } else {
            Err(Error::Domain(Domain::EmptyHead))
        },
        _ => type_error(a, Opcode::Head),
    }
}

/// `]`: everything after the first byte or element.
pub open spec fn tail(a: Datum) -> Result<Datum, Error> {
    match a {
        Datum::Str(s) => if s.len() > 0 {
            Ok(Datum::Str(s.subrange(1, s.len() as int)))
        } else {
            Err(Error::Domain(Domain::EmptyTail))
        },
        Datum::List(l) => if l.len() > 0 {
            Ok(Datum::List(l.subrange(1, l.len() as int)))
        } else {
            Err(Error::Domain(Domain::EmptyTail))
        },
        _ => type_error(a, Opcode::Tail),
    }
}

pub open spec fn container_len(a: Datum) -> int {
    match a {
        Datum::Str(s) => s.len() as int,
        Datum::List(l) => l.len() as int,
        _ => 0,
    }
}

/// The start of a range of a string or list: counted from the end where it is negative and
/// negative indexing is on.
pub open spec fn range_start(a: Datum, start: int, opts: Options) -> int {
    if opts.extensions.negative_indexing && start < 0 {
        start + container_len(a)
    } else {
        start
    }
}

/// The start and length of the range that `GET` and `SET` name in the string or list `a`: the
/// coerced start (counted from the end where negative indexing allows) and length, which must
/// both be non-negative and stay within `a`.
pub open spec fn range_of(a: Datum, start: Datum, len: Datum, opts: Options) -> Result<(int, int), Error> {
    match integer_of(start, opts) {
        Err(e) => Err(e),
        Ok(x) => match integer_of(len, opts) {
            Err(e) => Err(e),
            Ok(n) => {
                let st = range_start(a, x as int, opts);
                if st < 0 {
                    Err(Error::Domain(Domain::NegativeStart))
                } else if n < 0 {
                    Err(Error::Domain(Domain::NegativeLength))
                } else if st + n > container_len(a) {
                    Err(
                        Error::IndexOutOfBounds {
                            len: container_len(a) as usize,
                            index: (if st > container_len(a) { container_len(a) } else { st }) as usize,
                        },
                    )
                } else {
                    Ok((st, n as int))
                }
            },
        },
    }
}

/// `GET a start len`: the `len` bytes or elements of `a` from `start`.
pub open spec fn get(a: Datum, start: Datum, len: Datum, opts: Options) -> Result<Datum, Error> {
    if !(a is Str || a is List) {
        type_error(a, Opcode::Get)
    } else {
        match range_of(a, start, len, opts) {
            Err(e) => Err(e),
            Ok((st, n)) => match a {
                Datum::Str(s) => Ok(Datum::Str(s.subrange(st, st + n))),
                Datum::List(l) => Ok(Datum::List(l.subrange(st, st + n))),
                _ => type_error(a, Opcode::Get),
            },
        }
    }
}

/// `SET a start len with`: `a` with the range replaced by `with`, coerced to the kind of `a`.
pub open spec fn replaced(a: Datum, start: Datum, len: Datum, with: Datum, opts: Options) -> Result<Datum, Error> {
    if !(a is Str || a is List) {
        type_error(a, Opcode::Splice)
    } else {
        match range_of(a, start, len, opts) {
            Err(e) => Err(e),
            Ok((st, n)) => match a {
                Datum::Str(s) => match text_of(with) {
                    Some(t) => {
                        let r = s.subrange(0, st) + t + s.subrange(st + n, s.len() as int);
                        if r.len() <= max_len(opts) && t.len() <= max_len(opts) {
                            Ok(Datum::Str(r))
                        } else {
                            Err(Error::Text(NewTextError::TooLong))
                        }
                    },
                    None => Err(Error::Conversion { from: Kind::Block, to: Kind::String }),
                },
                Datum::List(l) => match list_of(with, opts) {
                    Ok(m) => {
                        let r = l.subrange(0, st) + m + l.subrange(st + n, l.len() as int);
                        if r.len() <= max_len(opts) {
                            Ok(Datum::List(r))
                        } else {
                            Err(Error::ListTooLarge)
                        }
                    },
                    Err(e) => Err(e),
                },
                _ => type_error(a, Opcode::Splice),
            },
        }
    }
}

impl Value {
    /// `<` and `>`.
    pub fn kn_ordering(&self, rhs: &Value, op: Opcode, opts: &Options) -> (r: Result<Value, Error>)
        ensures
            yields(r, ordering(self.datum(), rhs.datum(), op, *opts)),
    {
        let c = self.kn_compare(rhs, opts)?;
        Ok(Value::Boolean(if op == Opcode::Lth { c < 0 } else { c > 0 }))
    }

    /// `?`.
    pub fn kn_equals(&self, rhs: &Value, opts: &Options) -> (r: Result<Value, Error>)
        ensures
            yields(r, equality(self.datum(), rhs.datum(), *opts)),
    {
        if opts.compliance.check_equals_params {
            if let Value::Block(_) = self {
                return Err(Error::TypeError { kind: Kind::Block, op: Opcode::Eql });
            }
            if let Value::Block(_) = rhs {
                return Err(Error::TypeError { kind: Kind::Block, op: Opcode::Eql });
            }
        }
        Ok(Value::Boolean(crate::value::equals(self, rhs)))
    }

    /// `LENGTH`.
    pub fn kn_length(&self, opts: &Options) -> (r: Result<Value, Error>)
        ensures
            yields(r, length(self.datum(), *opts)),
    {
        let n = match self {
            Value::Str(s) => s.len(),
            _ => {
                let l = self.to_array(opts)?;
                proof {
                    lemma_data(l);
                }
                l.len()
            },
        };
        let v = crate::integer::from_length(n, opts)?;
        Ok(Value::Integer(v))
    }

    /// `!`.
    pub fn kn_not(&self, opts: &Options) -> (r: Result<Value, Error>)
        ensures
            yields(r, not(self.datum(), *opts)),
    {
        let t = self.to_bool(opts)?;
        Ok(Value::Boolean(!t))
    }

    /// `~`.
    pub fn kn_negate(&self, opts: &Options) -> (r: Result<Value, Error>)
        ensures
            yields(r, negation(self.datum(), *opts)),
    {
        let x = self.to_integer(opts)?;
        let v = crate::integer::negate(x, opts)?;
        Ok(Value::Integer(v))
    }

    /// `ASCII`.
    pub fn kn_ascii(&self, opts: &Options) -> (r: Result<Value, Error>)
        ensures
            yields(r, ascii(self.datum(), *opts)),
    {
        match self {
            Value::Integer(x) => {
                let s = KString::chr(*x, opts)?;
                Ok(Value::Str(s))
            },
            Value::Str(s) => {
                let c = s.ord()?;
                Ok(Value::Integer(c))
            },
            _ => Err(Error::TypeError { kind: self.kind(), op: Opcode::Ascii }),
        }
    }

    /// `[`.
    pub fn kn_head(&self) -> (r: Result<Value, Error>)
        ensures
            yields(r, head(self.datum())),
    {
        match self {
            Value::Str(s) => {
                let h = s.head()?;
                Ok(Value::Str(h))
            },
            Value::List(l) => {
                proof {
                    lemma_data(*l);
                }
                l.head()
            },
            _ => Err(Error::TypeError { kind: self.kind(), op: Opcode::Head }),
        }
    }

    /// `]`.
    pub fn kn_tail(&self) -> (r: Result<Value, Error>)
        ensures
            yields(r, tail(self.datum())),
    {
        match self {
            Value::Str(s) => {
                let t = s.tail()?;
                Ok(Value::Str(t))
            },
            Value::List(l) => {
                let t = l.tail()?;
                proof {
                    lemma_data(*l);
                    lemma_data(t);
                    lemma_data_of_subrange(l@, 1, l@.len() as int);
                }
                Ok(Value::List(t))
            },
            _ => Err(Error::TypeError { kind: self.kind(), op: Opcode::Tail }),
        }
    }

    /// The length of a string or list.
    fn container_length(&self) -> (r: usize)
        requires
            self is Str || self is List,
        ensures
            r == container_len(self.datum()),
    {
        match self {
            Value::Str(s) => s.len(),
            Value::List(l) => l.len(),
            _ => 0,
        }
    }

    /// The start and length of the range that `GET` and `SET` name.
    fn range(&self, start: &Value, len: &Value, opts: &Options) -> (r: Result<(usize, usize), Error>)
        requires
            self is Str || self is List,
        ensures
            match range_of(self.datum(), start.datum(), len.datum(), *opts) {
                Ok((st, n)) => r is Ok && r.unwrap().0 == st && r.unwrap().1 == n,
                Err(e) => r == Err::<(usize, usize), Error>(e),
            },
            r is Ok ==> r.unwrap().0 + r.unwrap().1 <= container_len(self.datum()),
    {
        let x = start.to_integer(opts)?;
        let n = len.to_integer(opts)?;
        let size = self.container_length();
        let st: i128 = if opts.extensions.negative_indexing && x < 0 {
            x as i128 + size as i128
        } else {
            x as i128
        };
        if st < 0 {
            return Err(Error::Domain(Domain::NegativeStart));
        }
        if n < 0 {
            return Err(Error::Domain(Domain::NegativeLength));
        }
        if st > size as i128 || n as i128 > size as i128 - st {
            let index: usize = if st > size as i128 { size } else { st as usize };
            return Err(Error::IndexOutOfBounds { len: size, index });
        }
        Ok((st as usize, n as usize))
    }

    /// `GET`.
    pub fn kn_get(&self, start: &Value, len: &Value, opts: &Options) -> (r: Result<Value, Error>)
        ensures
            yields(r, get(self.datum(), start.datum(), len.datum(), *opts)),
    {
        match self {
            Value::Str(s) => {
                let (st, n) = self.range(start, len, opts)?;
                let piece = s.get(st, n)?;
                Ok(Value::Str(piece))
            },
            Value::List(l) => {
                let (st, n) = self.range(start, len, opts)?;
                let piece = l.sublist(st, n)?;
                proof {
                    lemma_data(*l);
                    lemma_data(piece);
                    lemma_data_of_subrange(l@, st as int, st + n);
                }
                Ok(Value::List(piece))
            },
            _ => Err(Error::TypeError { kind: self.kind(), op: Opcode::Get }),
        }
    }

    /// `SET`.
    pub fn kn_set(&self, start: &Value, len: &Value, with: &Value, opts: &Options) -> (r: Result<Value, Error>)
        ensures
            yields(r, replaced(self.datum(), start.datum(), len.datum(), with.datum(), *opts)),
    {
        match self {
            Value::Str(s) => {
                let (st, n) = self.range(start, len, opts)?;
                let size = s.len();
                assert(container_len(self.datum()) == s@.len());
                let t = with.to_knstr(opts)?;
                let before = s.get(0, st)?;
                let after = s.get(st + n, size - st - n)?;
                let front = before.concat(&t, opts)?;
                let whole = front.concat(&after, opts)?;
                proof {
                    assert(s@.subrange(st + n, st + n + (s@.len() - st - n)) =~= s@.subrange(st + n, s@.len() as int));
                }
                Ok(Value::Str(whole))
            },
            Value::List(l) => {
                let (st, n) = self.range(start, len, opts)?;
                let m = with.to_array(opts)?;
                proof {
                    lemma_data(*l);
                    lemma_data(m);
                }
                let spliced = l.splice(st, n, &m, opts)?;
                proof {
                    lemma_data(spliced);
                    lemma_data_of_add(l@.subrange(0, st as int), m@);
                    lemma_data_of_add(l@.subrange(0, st as int) + m@, l@.subrange(st + n, l@.len() as int));
                    lemma_data_of_subrange(l@, 0, st as int);
                    lemma_data_of_subrange(l@, st + n, l@.len() as int);
                }
                Ok(Value::List(spliced))
            },
            _ => Err(Error::TypeError { kind: self.kind(), op: Opcode::Splice }),
        }
    }
}

/// The lower-case hexadecimal digit of `d`, below 16.
pub open spec fn hex_digit(d: int) -> u8 {
    if d < 10 { (48 + d) as u8 } else { (87 + d) as u8 }
}

/// `b` in lower-case hexadecimal without leading zeros.
pub open spec fn hex_of(b: u8) -> Seq<u8> {
    if b < 16 { seq![hex_digit(b as int)] } else { seq![hex_digit((b / 16) as int), hex_digit((b % 16) as int)] }
}

/// How `DUMP` writes a byte inside a string literal, as Rust's `Debug` quotes a string: quote,
/// backslash, tab, newline and carriage return escaped by letter, NUL as `\0`, the other ASCII
/// control bytes as `\u{..}`, everything else as it is. Bytes above 127 are written as they
/// are, since a string here is bytes rather than characters.
pub open spec fn escaped_byte(b: u8) -> Seq<u8> {
    if b == 34 {
        seq![92u8, 34]
    } else if b == 92 {
        seq![92u8, 92]
    } else if b == 10 {
        seq![92u8, 110]
    } else if b == 13 {
        seq![92u8, 114]
    } else if b == 9 {
        seq![92u8, 116]
    } else if b == 0 {
        seq![92u8, 48]
    } else if b < 32 || b == 127 {
        seq![92u8, 117, 123] + hex_of(b) + seq![125u8]
    } else {
        seq![b]
    }
}

pub open spec fn escaped(s: Seq<u8>) -> Seq<u8>
    decreases s.len(),
{
    if s.len() == 0 {
        Seq::empty()
    } else {
        escaped(s.drop_last()) + escaped_byte(s.last())
    }
}

pub open spec fn block_text(b: nat) -> Seq<u8> {
    seq![66u8, 108, 111, 99, 107, 40] + decimal(b as int) + seq![41u8]
}

/// What `DUMP` writes for a value: strings quoted and escaped, lists bracketed with `, `
/// between elements; blocks only where they are not refused.
pub open spec fn dump_text(d: Datum, opts: Options) -> Option<Seq<u8>>
    decreases d,
{
    match d {
        Datum::Null => Some(text_null()),
        Datum::Boolean(b) => Some(if b { text_true() } else { text_false() }),
        Datum::Integer(i) => Some(decimal(i)),
        Datum::Str(s) => Some(seq![34u8] + escaped(s) + seq![34u8]),
        Datum::List(l) => match dump_items(l, opts) {
            Some(t) => Some(seq![91u8] + t + seq![93u8]),
            None => None,
        },
        Datum::Block(b) => if opts.compliance.strict_blocks {
            None
        } else {
            Some(block_text(b))
        },
    }
}

pub open spec fn dump_items(items: Seq<Datum>, opts: Options) -> Option<Seq<u8>>
    decreases items,
{
    if items.len() == 0 {
        Some(Seq::empty())
    } else if items.len() == 1 {
        dump_text(items[0], opts)
    } else {
        match (dump_items(items.drop_last(), opts), dump_text(items.last(), opts)) {
            (Some(a), Some(b)) => Some(a + seq![44u8, 32] + b),
            _ => None,
        }
    }
}

proof fn lemma_dump_step(items: Seq<Datum>, opts: Options, i: int)
    requires
        0 <= i < items.len(),
    ensures
        i == 0 ==> dump_items(items.take(i + 1), opts) == dump_text(items[i], opts),
        i > 0 ==> dump_items(items.take(i + 1), opts) == (match (
            dump_items(items.take(i), opts),
            dump_text(items[i], opts),
        ) {
            (Some(a), Some(b)) => Some(a + seq![44u8, 32] + b),
            _ => None,
        }),
{
    let t = items.take(i + 1);
    assert(t.drop_last() =~= items.take(i));
    assert(t.last() == items[i]);
    if i == 0 {
        assert(t[0] == items[0]);
    }
}

proof fn lemma_dump_parts(items: Seq<Datum>, opts: Options, k: int)
    requires
        dump_items(items, opts) is Some,
        0 <= k < items.len(),
    ensures
        dump_items(items.take(k), opts) is Some,
        dump_text(items[k], opts) is Some,
    decreases items.len(),
{
    if items.len() == 1 {
        assert(items.take(0) =~= Seq::<Datum>::empty());
    } else {
        let init = items.drop_last();
        if k == items.len() - 1 {
            assert(items.take(k) =~= init);
        } else {
            lemma_dump_parts(init, opts, k);
            assert(init.take(k) =~= items.take(k));
            assert(init[k] == items[k]);
        }
    }
}

fn push_all(out: &mut Vec<u8>, bytes: &[u8])
    ensures
        final(out)@ == old(out)@ + bytes@,
{
    let mut i: usize = 0;
    while i < bytes.len()
        invariant
            0 <= i <= bytes@.len(),
            out@ == old(out)@ + bytes@.subrange(0, i as int),
        decreases bytes@.len() - i,
    {
        out.push(bytes[i]);
        i = i + 1;
        assert(out@ =~= old(out)@ + bytes@.subrange(0, i as int));
    }
    assert(bytes@.subrange(0, bytes@.len() as int) =~= bytes@);
}

fn hex_digit_of(d: u8) -> (r: u8)
    requires
        d < 16,
    ensures
        r == hex_digit(d as int),
{
    if d < 10 { 48 + d } else { 87 + d }
}

fn push_escaped(out: &mut Vec<u8>, s: &KString)
    ensures
        final(out)@ == old(out)@ + escaped(s@),
{
    let mut i: usize = 0;
    assert(s@.subrange(0, 0) =~= Seq::<u8>::empty());
    assert(out@ =~= old(out)@ + escaped(s@.subrange(0, 0)));
    while i < s.len()
        invariant
            0 <= i <= s@.len(),
            out@ == old(out)@ + escaped(s@.subrange(0, i as int)),
        decreases s@.len() - i,
    {
        let b = s.byte_at(i);
        let ghost before = out@;
        if b == 34 {
            push_all(out, &[92u8, 34]);
        } else if b == 92 {
            push_all(out, &[92u8, 92]);
        } else if b == 10 {
            push_all(out, &[92u8, 110]);
        } else if b == 13 {
            push_all(out, &[92u8, 114]);
        } else if b == 9 {
            push_all(out, &[92u8, 116]);
        } else if b == 0 {
            push_all(out, &[92u8, 48]);
        } else if b < 32 || b == 127 {
            push_all(out, &[92u8, 117, 123]);
            if b < 16 {
                out.push(hex_digit_of(b));
            } else {
                out.push(hex_digit_of(b / 16));
                out.push(hex_digit_of(b % 16));
            }
            out.push(125u8);
        } else {
            out.push(b);
        }
        proof {
            let p = s@.subrange(0, i + 1);
            assert(p.drop_last() =~= s@.subrange(0, i as int));
            assert(p.last() == b);
            assert(out@ =~= before + escaped_byte(b));
        }
        i = i + 1;
    }
    assert(s@.subrange(0, s@.len() as int) =~= s@);
}

impl Value {
    /// Writes what `DUMP` shows of this value after what `out` holds.
    pub fn dump_into(&self, out: &mut Vec<u8>, opts: &Options) -> (r: Result<(), Error>)
        ensures
            dump_text(self.datum(), *opts) is Some ==> r is Ok && final(out)@ == old(out)@ + dump_text(
                self.datum(),
                *opts,
            ).unwrap(),
            dump_text(self.datum(), *opts) is None ==> r == Err::<(), Error>(
                Error::TypeError { kind: Kind::Block, op: Opcode::Dump },
            ),
        decreases self,
    {
        match self {
            Value::Null => {
                push_all(out, &[110u8, 117, 108, 108]);
                assert(out@ =~= old(out)@ + text_null());
            },
            Value::Boolean(b) => {
                if *b {
                    push_all(out, &[116u8, 114, 117, 101]);
                    assert(out@ =~= old(out)@ + text_true());
                } else {
                    push_all(out, &[102u8, 97, 108, 115, 101]);
                    assert(out@ =~= old(out)@ + text_false());
                }
            },
            Value::Integer(i) => {
                let t = int_to_text(*i);
                push_all(out, t.as_bytes().as_slice());
            },
            Value::Str(s) => {
                out.push(34u8);
                push_escaped(out, s);
                out.push(34u8);
                assert(out@ =~= old(out)@ + (seq![34u8] + escaped(s@) + seq![34u8]));
            },
            Value::Block(b) => {
                if opts.compliance.strict_blocks {
                    return Err(Error::TypeError { kind: Kind::Block, op: Opcode::Dump });
                }
                push_all(out, &[66u8, 108, 111, 99, 107, 40]);
                let t = nat_to_text(*b as u64);
                push_all(out, t.as_bytes().as_slice());
                out.push(41u8);
                assert(out@ =~= old(out)@ + block_text(*b as nat));
            },
            Value::List(l) => {
                proof {
                    lemma_data(*l);
                }
                out.push(91u8);
                let ghost items = l.data();
                let ghost start = out@;
                let mut i: usize = 0;
                assert(items.take(0) =~= Seq::<Datum>::empty());
                assert(out@ =~= start + dump_items(items.take(0), *opts).unwrap());
                while i < l.len()
                    invariant
                        0 <= i <= l@.len(),
                        items == l.data(),
                        items == data_of(l@),
                        *self == Value::List(*l),
                        start == old(out)@.push(91u8),
                        dump_items(items.take(i as int), *opts) is Some,
                        out@ == start + dump_items(items.take(i as int), *opts).unwrap(),
                    decreases l@.len() - i,
                {
                    proof {
                        lemma_dump_step(items, *opts, i as int);
                    }
                    if i > 0 {
                        push_all(out, &[44u8, 32]);
                    }
                    let ghost mid = out@;
                    let res = l.elems[i].dump_into(out, opts);
                    if res.is_err() {
                        proof {
                            if dump_text(self.datum(), *opts) is Some {
                                lemma_dump_parts(items, *opts, i as int);
                            }
                        }
                        return res;
                    }
                    assert(out@ =~= start + dump_items(items.take(i + 1), *opts).unwrap());
                    i = i + 1;
                }
                assert(items.take(l@.len() as int) =~= items);
                out.push(93u8);
                assert(out@ =~= old(out)@ + (seq![91u8] + dump_items(items, *opts).unwrap() + seq![93u8]));
            },
        }
        Ok(())
    }
}

} // verus!
