use vstd::prelude::*;
use std::rc::Rc;
use crate::convert::{decimal, digits_of, int_to_text, leading_integer, text_to_int};
use crate::error::{Domain, Error, Kind, NewTextError};
use crate::integer::arith_result;
use crate::options::Options;
use crate::seqs::repeat_seq;
use crate::string::{max_len, KString};

verus! {

broadcast use vstd::std_specs::vec::group_vec_axioms;

/// What a runtime value means, apart from how it is stored.
pub enum Datum {
    Null,
    Boolean(bool),
    Integer(int),
    /// The instruction index at which a block's code begins.
    Block(nat),
    Str(Seq<u8>),
    List(Seq<Datum>),
}

/// A runtime value.
#[derive(Clone, Debug)]
pub enum Value {
    Null,
    Boolean(bool),
    Integer(i64),
    /// A block, as the index of its first instruction.
    Block(usize),
    Str(KString),
    List(List),
}

/// An immutable list of values, shared between its copies.
#[derive(Clone, Debug)]
pub struct List {
    pub elems: Rc<Vec<Value>>,
}

impl View for List {
    type V = Seq<Value>;

    open spec fn view(&self) -> Seq<Value> {
        self.elems@
    }
}

impl Value {
    /// The meaning of this value.
    pub open spec fn datum(self) -> Datum
        decreases self,
    {
        match self {
            Value::Null => Datum::Null,
            Value::Boolean(b) => Datum::Boolean(b),
            Value::Integer(i) => Datum::Integer(i as int),
            Value::Block(b) => Datum::Block(b as nat),
            Value::Str(s) => Datum::Str(s@),
            Value::List(l) => Datum::List(
                Seq::new(
                    l.elems@.len(),
                    |i: int|
                        if 0 <= i < l.elems@.len() {
                            l.elems@[i].datum()
                        } else {
                            Datum::Null
                        },
                ),
            ),
        }
    }

    pub open spec fn kind_of(self) -> Kind {
        match self {
            Value::Null => Kind::Null,
            Value::Boolean(_) => Kind::Boolean,
            Value::Integer(_) => Kind::Integer,
            Value::Block(_) => Kind::Block,
            Value::Str(_) => Kind::String,
            Value::List(_) => Kind::List,
        }
    }
}

impl List {
    /// The meanings of the elements.
    pub open spec fn data(self) -> Seq<Datum> {
        Value::List(self).datum()->List_0
    }
}

pub open spec fn datum_kind(d: Datum) -> Kind {
    match d {
        Datum::Null => Kind::Null,
        Datum::Boolean(_) => Kind::Boolean,
        Datum::Integer(_) => Kind::Integer,
        Datum::Block(_) => Kind::Block,
        Datum::Str(_) => Kind::String,
        Datum::List(_) => Kind::List,
    }
}

/// The truth of a value; blocks have one only where block conversions are allowed.
pub open spec fn truth(d: Datum, opts: Options) -> Result<bool, Error> {
    match d {
        Datum::Null => Ok(false),
        Datum::Boolean(b) => Ok(b),
        Datum::Integer(i) => Ok(i != 0),
        Datum::Str(s) => Ok(s.len() != 0),
        Datum::List(l) => Ok(l.len() != 0),
        Datum::Block(_) => if opts.compliance.no_block_conversions {
            Err(Error::Conversion { from: Kind::Block, to: Kind::Boolean })
        } else {
            Ok(true)
        },
    }
}

/// The integer a value coerces to.
pub open spec fn integer_of(d: Datum, opts: Options) -> Result<i64, Error> {
    match d {
        Datum::Null => Ok(0),
        Datum::Boolean(b) => Ok(if b { 1 } else { 0 }),
        Datum::Integer(i) => Ok(i as i64),
        Datum::Str(s) => arith_result(leading_integer(s), opts),
        Datum::List(l) => arith_result(l.len() as int, opts),
        Datum::Block(_) => Err(Error::Conversion { from: Kind::Block, to: Kind::Integer }),
    }
}

pub open spec fn text_true() -> Seq<u8> {
    seq![116u8, 114, 117, 101]
}

pub open spec fn text_false() -> Seq<u8> {
    seq![102u8, 97, 108, 115, 101]
}

pub open spec fn text_null() -> Seq<u8> {
    seq![110u8, 117, 108, 108]
}

/// The text a value coerces to: lists join their elements' texts with newlines.
pub open spec fn text_of(d: Datum) -> Option<Seq<u8>>
    decreases d,
{
    match d {
        Datum::Null => Some(text_null()),
        Datum::Boolean(b) => Some(if b { text_true() } else { text_false() }),
        Datum::Integer(i) => Some(decimal(i)),
        Datum::Str(s) => Some(s),
        Datum::List(l) => joined_text(l, seq![10u8]),
        Datum::Block(_) => None,
    }
}

/// The texts of `items` with `sep` between each two; `None` where one of them has no text.
pub open spec fn joined_text(items: Seq<Datum>, sep: Seq<u8>) -> Option<Seq<u8>>
    decreases items,
{
    if items.len() == 0 {
        Some(Seq::empty())
    } else if items.len() == 1 {
        text_of(items[0])
    } else {
        match (joined_text(items.drop_last(), sep), text_of(items.last())) {
            (Some(a), Some(b)) => Some(a + sep + b),
            _ => None,
        }
    }
}

impl Value {
    /// A second handle on the same value; strings and lists are shared, not copied.
    pub fn duplicate(&self) -> (r: Value)
        ensures
            r == *self,
    {
        match self {
            Value::Null => Value::Null,
            Value::Boolean(b) => Value::Boolean(*b),
            Value::Integer(i) => Value::Integer(*i),
            Value::Block(b) => Value::Block(*b),
            Value::Str(s) => Value::Str(s.clone_string()),
            Value::List(l) => Value::List(l.share()),
        }
    }

    pub fn kind(&self) -> (r: Kind)
        ensures
            r == self.kind_of(),
            r == datum_kind(self.datum()),
    {
        match self {
            Value::Null => Kind::Null,
            Value::Boolean(_) => Kind::Boolean,
            Value::Integer(_) => Kind::Integer,
            Value::Block(_) => Kind::Block,
            Value::Str(_) => Kind::String,
            Value::List(_) => Kind::List,
        }
    }

    /// The name of this value's kind.
    pub fn typename(&self) -> (r: &'static str)
        ensures
            r@ == kind_name(self.kind_of()),
    {
        match self {
            Value::Null => "Null",
            Value::Boolean(_) => "Boolean",
            Value::Integer(_) => "Integer",
            Value::Block(_) => "Block",
            Value::Str(_) => "String",
            Value::List(_) => "List",
        }
    }

    pub fn is_null(&self) -> (r: bool)
        ensures
            r == (self.datum() == Datum::Null),
    {
        match self {
            Value::Null => true,
            _ => false,
        }
    }

    pub fn as_integer(&self) -> (r: Option<i64>)
        ensures
            r == (match self.datum() {
                Datum::Integer(i) => Some(i as i64),
                _ => None::<i64>,
            }),
    {
        match self {
            Value::Integer(i) => Some(*i),
            _ => None,
        }
    }

    pub fn as_boolean(&self) -> (r: Option<bool>)
        ensures
            r == (match self.datum() {
                Datum::Boolean(b) => Some(b),
                _ => None::<bool>,
            }),
    {
        match self {
            Value::Boolean(b) => Some(*b),
            _ => None,
        }
    }

    pub fn as_block(&self) -> (r: Option<usize>)
        ensures
            r == (match self.datum() {
                Datum::Block(b) => Some(b as usize),
                _ => None::<usize>,
            }),
    {
        match self {
            Value::Block(b) => Some(*b),
            _ => None,
        }
    }

    /// The truth of this value.
    pub fn to_bool(&self, opts: &Options) -> (r: Result<bool, Error>)
        ensures
            r == truth(self.datum(), *opts),
    {
        match self {
            Value::Null => Ok(false),
            Value::Boolean(b) => Ok(*b),
            Value::Integer(i) => Ok(*i != 0),
            Value::Str(s) => Ok(!s.is_empty()),
            Value::List(l) => Ok(l.len() != 0),
            Value::Block(_) => {
                if opts.compliance.no_block_conversions {
                    Err(Error::Conversion { from: Kind::Block, to: Kind::Boolean })
                } else {
                    Ok(true)
                }
            },
        }
    }

    /// The integer this value coerces to.
    pub fn to_integer(&self, opts: &Options) -> (r: Result<i64, Error>)
        ensures
            r == integer_of(self.datum(), *opts),
    {
        match self {
            Value::Null => Ok(0),
            Value::Boolean(b) => Ok(if *b { 1 } else { 0 }),
            Value::Integer(i) => Ok(*i),
            Value::Str(s) => text_to_int(s, opts),
            Value::List(l) => crate::integer::from_length(l.len(), opts),
            Value::Block(_) => Err(Error::Conversion { from: Kind::Block, to: Kind::Integer }),
        }
    }
}

pub open spec fn kind_name(k: Kind) -> Seq<char> {
    match k {
        Kind::Null => "Null"@,
        Kind::Boolean => "Boolean"@,
        Kind::Integer => "Integer"@,
        Kind::Block => "Block"@,
        Kind::String => "String"@,
        Kind::List => "List"@,
    }
}

impl List {
    /// A second handle on the same elements.
    pub fn share(&self) -> (r: List)
        ensures
            r == *self,
    {
        List { elems: Rc::clone(&self.elems) }
    }

    pub fn len(&self) -> (r: usize)
        ensures
            r == self@.len(),
            r == self.data().len(),
    {
        self.elems.len()
    }

    pub fn is_empty(&self) -> (r: bool)
        ensures
            r == (self@.len() == 0),
    {
        self.elems.len() == 0
    }
}

/// The meanings of a run of values.
pub open spec fn data_of(s: Seq<Value>) -> Seq<Datum> {
    Seq::new(s.len(), |i: int| s[i].datum())
}

pub proof fn lemma_data(l: List)
    ensures
        l.data() == data_of(l@),
{
    assert(l.data() =~= data_of(l@));
}

pub proof fn lemma_data_of_add(a: Seq<Value>, b: Seq<Value>)
    ensures
        data_of(a + b) == data_of(a) + data_of(b),
{
    assert(data_of(a + b) =~= data_of(a) + data_of(b));
}

/// Every prefix of a joined text, and every element's text, exists and is no longer than the
/// whole.
proof fn lemma_joined_parts(items: Seq<Datum>, sep: Seq<u8>, k: int)
    requires
        joined_text(items, sep) is Some,
        0 <= k <= items.len(),
    ensures
        joined_text(items.take(k), sep) is Some,
        joined_text(items.take(k), sep).unwrap().len() <= joined_text(items, sep).unwrap().len(),
        k < items.len() ==> text_of(items[k]) is Some,
        k < items.len() ==> text_of(items[k]).unwrap().len() <= joined_text(items, sep).unwrap().len(),
    decreases items.len(),
{
    if items.len() == 1 {
        if k == 0 {
            assert(items.take(0) =~= Seq::<Datum>::empty());
        } else {
            assert(items.take(1) =~= items);
        }
    } else if items.len() > 1 {
        let init = items.drop_last();
        if k == items.len() {
            assert(items.take(k) =~= items);
            lemma_joined_parts(init, sep, 0);
        } else {
            lemma_joined_parts(init, sep, k);
            assert(init.take(k) =~= items.take(k));
            if k < items.len() - 1 {
                assert(init[k] == items[k]);
            }
        }
    }
}

proof fn lemma_joined_step(items: Seq<Datum>, sep: Seq<u8>, i: int)
    requires
        0 <= i < items.len(),
    ensures
        i == 0 ==> joined_text(items.take(i + 1), sep) == text_of(items[i]),
        i > 0 ==> joined_text(items.take(i + 1), sep) == (match (
            joined_text(items.take(i), sep),
            text_of(items[i]),
        ) {
            (Some(a), Some(b)) => Some(a + sep + b),
            _ => None,
        }),
{
    let t = items.take(i + 1);
    assert(t.drop_last() =~= items.take(i));
    assert(t.last() == items[i]);
    if i == 0 {
        assert(t[0] == items[0]);
    }
}

/// Equality of meaning: same kind and same contents, lists element by element.
pub fn equals(a: &Value, b: &Value) -> (r: bool)
    ensures
        r == (a.datum() == b.datum()),
    decreases a,
{
    match (a, b) {
        (Value::Null, Value::Null) => true,
        (Value::Boolean(x), Value::Boolean(y)) => *x == *y,
        (Value::Integer(x), Value::Integer(y)) => *x == *y,
        (Value::Block(x), Value::Block(y)) => *x == *y,
        (Value::Str(x), Value::Str(y)) => x.same_bytes(y),
        (Value::List(x), Value::List(y)) => {
            if x.len() != y.len() {
                assert(x.data().len() != y.data().len());
                return false;
            }
            let mut i: usize = 0;
            while i < x.len()
                invariant
                    0 <= i <= x@.len(),
                    x@.len() == y@.len(),
                    *a == Value::List(*x),
                    *b == Value::List(*y),
                    forall|j: int| 0 <= j < i ==> x@[j].datum() == y@[j].datum(),
                decreases x@.len() - i,
            {
                if !equals(&x.elems[i], &y.elems[i]) {
                    assert(x.data()[i as int] != y.data()[i as int]);
                    return false;
                }
                i = i + 1;
            }
            assert(x.data() =~= y.data());
            true
        },
        _ => false,
    }
}

/// The text of the newline byte.
fn newline() -> (r: KString)
    ensures
        r@ == seq![10u8],
{
    let mut v: Vec<u8> = Vec::new();
    v.push(10u8);
    assert(v@ =~= seq![10u8]);
    KString::new_unvalidated(v)
}

fn literal_text(b: &[u8]) -> (r: KString)
    ensures
        r@ == b@,
{
    let mut v: Vec<u8> = Vec::new();
    let mut i: usize = 0;
    while i < b.len()
        invariant
            0 <= i <= b@.len(),
            v@ == b@.subrange(0, i as int),
        decreases b@.len() - i,
    {
        v.push(b[i]);
        i = i + 1;
        assert(v@ =~= b@.subrange(0, i as int));
    }
    assert(b@.subrange(0, b@.len() as int) =~= b@);
    KString::new_unvalidated(v)
}

/// A joined text exists wherever every element has a text.
proof fn lemma_joined_some(items: Seq<Datum>, sep: Seq<u8>)
    requires
        forall|k: int| 0 <= k < items.len() ==> text_of(#[trigger] items[k]) is Some,
    ensures
        joined_text(items, sep) is Some,
    decreases items.len(),
{
    if items.len() > 1 {
        let init = items.drop_last();
        assert forall|k: int| 0 <= k < init.len() implies text_of(#[trigger] init[k]) is Some by {
            assert(init[k] == items[k]);
        }
        lemma_joined_some(init, sep);
        assert(text_of(items[items.len() - 1]) is Some);
    } else if items.len() == 1 {
        assert(text_of(items[0]) is Some);
    }
}

impl Value {
    /// Whether this value has no text: it is a block, or a list holding one.
    pub fn has_block(&self) -> (r: bool)
        ensures
            r == (text_of(self.datum()) is None),
        decreases self,
    {
        match self {
            Value::Block(_) => true,
            Value::List(l) => {
                let r = l.holds_textless();
                proof {
                    assert(self.datum() == Datum::List(l.data()));
                    if r {
                        let k = choose|k: int| 0 <= k < l.data().len() && text_of(#[trigger] l.data()[k]) is None;
                        if joined_text(l.data(), seq![10u8]) is Some {
                            lemma_joined_parts(l.data(), seq![10u8], k);
                        }
                    } else {
                        lemma_joined_some(l.data(), seq![10u8]);
                    }
                }
                r
            },
            _ => false,
        }
    }

    /// The text this value coerces to; lists join their elements with newlines.
    pub fn to_knstr(&self, opts: &Options) -> (r: Result<KString, Error>)
        ensures
            text_of(self.datum()) is None ==> r == Err::<KString, Error>(
                Error::Conversion { from: Kind::Block, to: Kind::String },
            ),
            text_of(self.datum()) is Some && text_of(self.datum()).unwrap().len() <= max_len(*opts)
                ==> r is Ok && r.unwrap()@ == text_of(self.datum()).unwrap(),
            text_of(self.datum()) is Some && text_of(self.datum()).unwrap().len() > max_len(*opts)
                ==> r == Err::<KString, Error>(Error::Text(NewTextError::TooLong)),
        decreases self,
    {
        let t = match self {
            Value::Null => {
                let r = literal_text(&[110u8, 117, 108, 108]);
                assert(r@ =~= text_null());
                r
            },
            Value::Boolean(b) => {
                if *b {
                    let r = literal_text(&[116u8, 114, 117, 101]);
                    assert(r@ =~= text_true());
                    r
                } else {
                    let r = literal_text(&[102u8, 97, 108, 115, 101]);
                    assert(r@ =~= text_false());
                    r
                }
            },
            Value::Integer(i) => int_to_text(*i),
            Value::Str(s) => s.clone_string(),
            Value::List(l) => {
                let sep = newline();
                return l.join(&sep, opts);
            },
            Value::Block(_) => {
                return Err(Error::Conversion { from: Kind::Block, to: Kind::String });
            },
        };
        if t.len() > crate::string::max_len_of(opts) {
            return Err(Error::Text(NewTextError::TooLong));
        }
        Ok(t)
    }
}

impl List {
    /// Whether some element has no text: a block, or a list holding one.
    pub fn holds_textless(&self) -> (r: bool)
        ensures
            r == exists|k: int| 0 <= k < self.data().len() && text_of(#[trigger] self.data()[k]) is None,
        decreases self,
    {
        let mut i: usize = 0;
        while i < self.len()
            invariant
                0 <= i <= self@.len(),
                forall|k: int| 0 <= k < i ==> text_of(#[trigger] self.data()[k]) is Some,
            decreases self@.len() - i,
        {
            assert(self.data()[i as int] == self@[i as int].datum());
            if self.elems[i].has_block() {
                return true;
            }
            i = i + 1;
        }
        false
    }

    /// The texts of the elements with `sep` between each two.
    pub fn join(&self, sep: &KString, opts: &Options) -> (r: Result<KString, Error>)
        ensures
            joined_text(self.data(), sep@) is None ==> r == Err::<KString, Error>(
                Error::Conversion { from: Kind::Block, to: Kind::String },
            ),
            joined_text(self.data(), sep@) is Some && joined_text(self.data(), sep@).unwrap().len()
                <= max_len(*opts) ==> r is Ok && r.unwrap()@ == joined_text(self.data(), sep@).unwrap(),
            joined_text(self.data(), sep@) is Some && joined_text(self.data(), sep@).unwrap().len()
                > max_len(*opts) ==> r == Err::<KString, Error>(Error::Text(NewTextError::TooLong)),
        decreases self,
    {
        if self.holds_textless() {
            proof {
                let k = choose|k: int| 0 <= k < self.data().len() && text_of(#[trigger] self.data()[k]) is None;
                if joined_text(self.data(), sep@) is Some {
                    lemma_joined_parts(self.data(), sep@, k);
                }
            }
            return Err(Error::Conversion { from: Kind::Block, to: Kind::String });
        }
        proof {
            lemma_joined_some(self.data(), sep@);
        }
        let ghost items = self.data();
        let mut out = KString::empty();
        let mut i: usize = 0;
        assert(items.take(0) =~= Seq::<Datum>::empty());
        while i < self.len()
            invariant
                0 <= i <= self@.len(),
                items == self.data(),
                joined_text(items, sep@) is Some,
                joined_text(items.take(i as int), sep@) == Some(out@),
            decreases self@.len() - i,
        {
            proof {
                lemma_joined_step(items, sep@, i as int);
                if joined_text(items, sep@) is Some {
                    lemma_joined_parts(items, sep@, i as int + 1);
                    lemma_joined_parts(items, sep@, i as int);
                }
            }
            assert(items[i as int] == self@[i as int].datum());
            let t = match self.elems[i].to_knstr(opts) {
                Ok(t) => t,
                Err(e) => {
                    return Err(e);
                },
            };
            if i == 0 {
                out = t;
            } else {
                let with_sep = match out.concat(sep, opts) {
                    Ok(w) => w,
                    Err(e) => {
                        return Err(e);
                    },
                };
                out = match with_sep.concat(&t, opts) {
                    Ok(w) => w,
                    Err(e) => {
                        return Err(e);
                    },
                };
            }
            i = i + 1;
        }
        assert(items.take(self@.len() as int) =~= items);
        if out.len() > crate::string::max_len_of(opts) {
            return Err(Error::Text(NewTextError::TooLong));
        }
        Ok(out)
    }
}

/// The digits of `i` as integers, each negated where `i` is negative.
pub open spec fn int_digits(i: int) -> Seq<Datum> {
    let d = digits_of(if i < 0 { (-i) as nat } else { i as nat });
    Seq::new(d.len(), |k: int| Datum::Integer(if i < 0 { -(d[k] - 48) } else { d[k] - 48 }))
}

/// The bytes of `s`, each as a string of its own.
pub open spec fn byte_strings(s: Seq<u8>) -> Seq<Datum> {
    Seq::new(s.len(), |k: int| Datum::Str(seq![s[k]]))
}

/// The list a value coerces to.
pub open spec fn list_of(d: Datum, opts: Options) -> Result<Seq<Datum>, Error> {
    match d {
        Datum::Null => Ok(Seq::empty()),
        Datum::Boolean(b) => Ok(if b { seq![Datum::Boolean(true)] } else { Seq::empty() }),
        Datum::Integer(i) => if i < 0 && opts.compliance.disallow_negative_int_to_list {
            Err(Error::Domain(Domain::NegativeToList))
        } else {
            Ok(int_digits(i))
        },
        Datum::Str(s) => Ok(byte_strings(s)),
        Datum::List(l) => Ok(l),
        Datum::Block(_) => Err(Error::Conversion { from: Kind::Block, to: Kind::List }),
    }
}

impl List {
    pub fn empty() -> (r: List)
        ensures
            r@ == Seq::<Value>::empty(),
            r.data() == Seq::<Datum>::empty(),
    {
        let r = List { elems: Rc::new(Vec::new()) };
        assert(r.data() =~= Seq::<Datum>::empty());
        r
    }

    /// A list of `elems`, where it is not longer than the cap.
    pub fn new(elems: Vec<Value>, opts: &Options) -> (r: Result<List, Error>)
        ensures
            elems@.len() <= max_len(*opts) ==> r is Ok && r.unwrap()@ == elems@,
            elems@.len() > max_len(*opts) ==> r == Err::<List, Error>(Error::ListTooLarge),
    {
        if elems.len() > crate::string::max_len_of(opts) {
            return Err(Error::ListTooLarge);
        }
        Ok(List { elems: Rc::new(elems) })
    }

    fn from_vec(elems: Vec<Value>) -> (r: List)
        ensures
            r@ == elems@,
    {
        List { elems: Rc::new(elems) }
    }

    /// The list of `value` alone.
    pub fn boxed(value: Value) -> (r: List)
        ensures
            r@ == seq![value],
            r.data() == seq![value.datum()],
    {
        let mut v: Vec<Value> = Vec::new();
        v.push(value);
        assert(v@ =~= seq![value]);
        let r = List::from_vec(v);
        assert(r.data() =~= seq![value.datum()]);
        r
    }

    /// The element at `i`.
    pub fn get(&self, i: usize) -> (r: Option<Value>)
        ensures
            i < self@.len() ==> r == Some(self@[i as int]),
            i >= self@.len() ==> r is None,
    {
        if i < self.len() {
            Some(self.elems[i].duplicate())
        } else {
            None
        }
    }

    /// The elements, in order.
    pub fn iter(&self) -> (r: Vec<Value>)
        ensures
            r@ == self@,
    {
        self.slice_vec(0, self.len())
    }

    fn slice_vec(&self, start: usize, end: usize) -> (r: Vec<Value>)
        requires
            start <= end <= self@.len(),
        ensures
            r@ == self@.subrange(start as int, end as int),
    {
        let mut out: Vec<Value> = Vec::new();
        let mut i: usize = start;
        while i < end
            invariant
                start <= i <= end,
                end <= self@.len(),
                out@ == self@.subrange(start as int, i as int),
            decreases end - i,
        {
            out.push(self.elems[i].duplicate());
            i = i + 1;
            assert(out@ =~= self@.subrange(start as int, i as int));
        }
        out
    }

    /// `self` followed by `other`; too long a result is an error.
    pub fn concat(&self, other: &List, opts: &Options) -> (r: Result<List, Error>)
        ensures
            self@.len() + other@.len() <= max_len(*opts) ==> r is Ok && r.unwrap()@ == self@ + other@,
            self@.len() + other@.len() > max_len(*opts) ==> r == Err::<List, Error>(Error::ListTooLarge),
    {
        let max = crate::string::max_len_of(opts);
        if self.len() > max || other.len() > max - self.len() {
            return Err(Error::ListTooLarge);
        }
        if other.is_empty() {
            assert(self@ + other@ =~= self@);
            return Ok(self.share());
        }
        if self.is_empty() {
            assert(self@ + other@ =~= other@);
            return Ok(other.share());
        }
        let mut out = self.iter();
        let mut j: usize = 0;
        while j < other.len()
            invariant
                0 <= j <= other@.len(),
                out@ == self@ + other@.subrange(0, j as int),
            decreases other@.len() - j,
        {
            out.push(other.elems[j].duplicate());
            j = j + 1;
            assert(out@ =~= self@ + other@.subrange(0, j as int));
        }
        assert(other@.subrange(0, other@.len() as int) =~= other@);
        Ok(List::from_vec(out))
    }

    /// `self` written `n` times; once gives `self` itself, and too long a result is an error.
    pub fn repeat(&self, n: usize, opts: &Options) -> (r: Result<List, Error>)
        ensures
            n == 1 ==> r is Ok && r.unwrap()@ == self@,
            n != 1 && self@.len() * n <= max_len(*opts) ==> r is Ok && r.unwrap()@ == repeat_seq(self@, n as nat),
            n != 1 && self@.len() * n > max_len(*opts) ==> r == Err::<List, Error>(Error::ListTooLarge),
    {
        if n == 1 {
            return Ok(self.share());
        }
        proof {
            crate::seqs::lemma_repeat_len(self@, n as nat);
        }
        let max = crate::string::max_len_of(opts);
        if self.len() > 0 && n > max / self.len() {
            proof {
                vstd::arithmetic::div_mod::lemma_fundamental_div_mod(max as int, self@.len() as int);
                vstd::arithmetic::div_mod::lemma_mod_bound(max as int, self@.len() as int);
                let q = max as int / (self@.len() as int);
                assert(self@.len() * n >= self@.len() * (q + 1)) by (nonlinear_arith)
                    requires
                        n >= q + 1,
                        self@.len() > 0,
                ;
                assert(self@.len() * (q + 1) == self@.len() * q + self@.len()) by (nonlinear_arith);
            }
            return Err(Error::ListTooLarge);
        }
        proof {
            if self@.len() > 0 {
                vstd::arithmetic::div_mod::lemma_fundamental_div_mod(max as int, self@.len() as int);
                vstd::arithmetic::div_mod::lemma_mod_bound(max as int, self@.len() as int);
                let q = max as int / (self@.len() as int);
                assert(self@.len() * n <= self@.len() * q) by (nonlinear_arith)
                    requires
                        n <= q,
                        self@.len() > 0,
                ;
            }
        }
        let mut out: Vec<Value> = Vec::new();
        let mut k: usize = 0;
        while k < n
            invariant
                0 <= k <= n,
                out@ == repeat_seq(self@, k as nat),
            decreases n - k,
        {
            let mut i: usize = 0;
            while i < self.len()
                invariant
                    0 <= i <= self@.len(),
                    out@ == repeat_seq(self@, k as nat) + self@.subrange(0, i as int),
                decreases self@.len() - i,
            {
                out.push(self.elems[i].duplicate());
                i = i + 1;
                assert(out@ =~= repeat_seq(self@, k as nat) + self@.subrange(0, i as int));
            }
            assert(self@.subrange(0, self@.len() as int) =~= self@);
            k = k + 1;
        }
        Ok(List::from_vec(out))
    }

    /// The `len` elements from `start`; reaching past the end is an error.
    pub fn sublist(&self, start: usize, len: usize) -> (r: Result<List, Error>)
        ensures
            start + len <= self@.len() ==> r is Ok && r.unwrap()@ == self@.subrange(
                start as int,
                start + len,
            ),
            start + len > self@.len() ==> r == Err::<List, Error>(
                Error::IndexOutOfBounds { len: self@.len() as usize, index: start },
            ),
    {
        if start > self.len() || len > self.len() - start {
            return Err(Error::IndexOutOfBounds { len: self.len(), index: start });
        }
        Ok(List::from_vec(self.slice_vec(start, start + len)))
    }

    /// The first element; the empty list has none.
    pub fn head(&self) -> (r: Result<Value, Error>)
        ensures
            self@.len() == 0 ==> r == Err::<Value, Error>(Error::Domain(Domain::EmptyHead)),
            self@.len() > 0 ==> r == Ok::<Value, Error>(self@[0]),
    {
        if self.is_empty() {
            return Err(Error::Domain(Domain::EmptyHead));
        }
        Ok(self.elems[0].duplicate())
    }

    /// Everything after the first element; the empty list has no tail.
    pub fn tail(&self) -> (r: Result<List, Error>)
        ensures
            self@.len() == 0 ==> r == Err::<List, Error>(Error::Domain(Domain::EmptyTail)),
            self@.len() > 0 ==> r is Ok && r.unwrap()@ == self@.subrange(1, self@.len() as int),
    {
        if self.is_empty() {
            return Err(Error::Domain(Domain::EmptyTail));
        }
        Ok(List::from_vec(self.slice_vec(1, self.len())))
    }

    /// `self` with the `len` elements from `start` replaced by those of `with`.
    pub fn splice(&self, start: usize, len: usize, with: &List, opts: &Options) -> (r: Result<List, Error>)
        ensures
            start + len > self@.len() ==> r == Err::<List, Error>(
                Error::IndexOutOfBounds { len: self@.len() as usize, index: start },
            ),
            start + len <= self@.len() && self@.len() - len + with@.len() <= max_len(*opts) ==> r is Ok
                && r.unwrap()@ == self@.subrange(0, start as int) + with@ + self@.subrange(
                start + len,
                self@.len() as int,
            ),
            start + len <= self@.len() && self@.len() - len + with@.len() > max_len(*opts) ==> r
                == Err::<List, Error>(Error::ListTooLarge),
    {
        if start > self.len() || len > self.len() - start {
            return Err(Error::IndexOutOfBounds { len: self.len(), index: start });
        }
        let max = crate::string::max_len_of(opts);
        if with.len() > max || self.len() - len > max - with.len() {
            return Err(Error::ListTooLarge);
        }
        let mut out = self.slice_vec(0, start);
        let mut j: usize = 0;
        while j < with.len()
            invariant
                0 <= j <= with@.len(),
                out@ == self@.subrange(0, start as int) + with@.subrange(0, j as int),
            decreases with@.len() - j,
        {
            out.push(with.elems[j].duplicate());
            j = j + 1;
            assert(out@ =~= self@.subrange(0, start as int) + with@.subrange(0, j as int));
        }
        assert(with@.subrange(0, with@.len() as int) =~= with@);
        let mut i: usize = start + len;
        while i < self.len()
            invariant
                start + len <= i <= self@.len(),
                out@ == self@.subrange(0, start as int) + with@ + self@.subrange(start + len, i as int),
            decreases self@.len() - i,
        {
            out.push(self.elems[i].duplicate());
            i = i + 1;
            assert(out@ =~= self@.subrange(0, start as int) + with@ + self@.subrange(
                start + len,
                i as int,
            ));
        }
        Ok(List::from_vec(out))
    }

    /// Whether an element means the same as `value`.
    pub fn contains(&self, value: &Value) -> (r: bool)
        ensures
            r == self.data().contains(value.datum()),
    {
        let mut i: usize = 0;
        while i < self.len()
            invariant
                0 <= i <= self@.len(),
                forall|j: int| 0 <= j < i ==> self.data()[j] != value.datum(),
            decreases self@.len() - i,
        {
            if equals(&self.elems[i], value) {
                assert(self.data()[i as int] == value.datum());
                return true;
            }
            i = i + 1;
        }
        false
    }

    /// The elements of `self` that mean nothing in `other`, in order, each kept only where it
    /// first occurs.
    pub fn difference(&self, other: &List) -> (r: List)
        ensures
            r.data() == difference_of(self.data(), other.data()),
    {
        let mut out: Vec<Value> = Vec::new();
        let mut i: usize = 0;
        assert(self.data().take(0) =~= Seq::<Datum>::empty());
        assert(data_of(out@) =~= Seq::<Datum>::empty());
        while i < self.len()
            invariant
                0 <= i <= self@.len(),
                data_of(out@) == difference_of(self.data().take(i as int), other.data()),
            decreases self@.len() - i,
        {
            let v = self.elems[i].duplicate();
            assert(self.data()[i as int] == v.datum());
            let ghost t = self.data().take(i + 1);
            assert(t.drop_last() =~= self.data().take(i as int));
            assert(t.last() == v.datum());
            if !other.contains(&v) && !vec_contains(&out, &v) {
                let ghost before = out@;
                let ghost d = v.datum();
                out.push(v);
                assert(data_of(out@) =~= data_of(before).push(d));
            }
            i = i + 1;
        }
        assert(self.data().take(self@.len() as int) =~= self.data());
        let r = List::from_vec(out);
        proof {
            lemma_data(r);
        }
        r
    }
}

/// Whether some element of `items` means the same as `value`.
fn vec_contains(items: &Vec<Value>, value: &Value) -> (r: bool)
    ensures
        r == data_of(items@).contains(value.datum()),
{
    let mut i: usize = 0;
    while i < items.len()
        invariant
            0 <= i <= items@.len(),
            forall|j: int| 0 <= j < i ==> data_of(items@)[j] != value.datum(),
        decreases items@.len() - i,
    {
        if equals(&items[i], value) {
            assert(data_of(items@)[i as int] == value.datum());
            return true;
        }
        i = i + 1;
    }
    false
}

/// The elements of `s` that `other` does not hold, in order, each only where it first occurs.
pub open spec fn difference_of(s: Seq<Datum>, other: Seq<Datum>) -> Seq<Datum>
    decreases s.len(),
{
    if s.len() == 0 {
        Seq::empty()
    } else {
        let r = difference_of(s.drop_last(), other);
        if other.contains(s.last()) || r.contains(s.last()) {
            r
        } else {
            r.push(s.last())
        }
    }
}

/// The three-way comparison of two integers.
pub open spec fn cmp_int(a: int, b: int) -> i8 {
    if a < b { -1i8 } else if a > b { 1i8 } else { 0i8 }
}

/// Lexicographic comparison of byte strings, a proper prefix first.
pub open spec fn cmp_bytes(a: Seq<u8>, b: Seq<u8>) -> i8
    decreases a.len(),
{
    if a.len() == 0 || b.len() == 0 {
        cmp_int(a.len() as int, b.len() as int)
    } else if a[0] != b[0] {
        cmp_int(a[0] as int, b[0] as int)
    } else {
        cmp_bytes(a.subrange(1, a.len() as int), b.subrange(1, b.len() as int))
    }
}

/// How `<` and `>` order `a` against `b`: `b` is coerced to the kind of `a`, lists compare
/// element by element with the shorter first where one is a prefix of the other.
pub open spec fn compare(a: Datum, b: Datum, opts: Options) -> Result<i8, Error>
    decreases a,
{
    match a {
        Datum::Integer(x) => match integer_of(b, opts) {
            Ok(y) => Ok(cmp_int(x, y as int)),
            Err(e) => Err(e),
        },
        Datum::Boolean(x) => match truth(b, opts) {
            Ok(y) => Ok(cmp_int(if x { 1int } else { 0int }, if y { 1int } else { 0int })),
            Err(e) => Err(e),
        },
        Datum::Str(x) => match text_of(b) {
            Some(t) => if t.len() <= max_len(opts) {
                Ok(cmp_bytes(x, t))
            } else {
                Err(Error::Text(NewTextError::TooLong))
            },
            None => Err(Error::Conversion { from: Kind::Block, to: Kind::String }),
        },
        Datum::List(x) => match list_of(b, opts) {
            Ok(y) => compare_seqs(x, y, opts),
            Err(e) => Err(e),
        },
        _ => Err(Error::TypeError { kind: datum_kind(a), op: crate::program::Opcode::Lth }),
    }
}

pub open spec fn compare_seqs(a: Seq<Datum>, b: Seq<Datum>, opts: Options) -> Result<i8, Error>
    decreases a,
{
    if a.len() == 0 || b.len() == 0 {
        Ok(cmp_int(a.len() as int, b.len() as int))
    } else {
        match compare(a[0], b[0], opts) {
            Ok(0i8) => compare_seqs(a.subrange(1, a.len() as int), b.subrange(1, b.len() as int), opts),
            other => other,
        }
    }
}

fn cmp_usize(a: usize, b: usize) -> (r: i8)
    ensures
        r == cmp_int(a as int, b as int),
{
    if a < b { -1 } else if a > b { 1 } else { 0 }
}

/// Lexicographic comparison of byte strings.
pub fn compare_bytes(a: &KString, b: &KString) -> (r: i8)
    ensures
        r == cmp_bytes(a@, b@),
{
    let mut i: usize = 0;
    assert(a@.subrange(0, a@.len() as int) =~= a@);
    assert(b@.subrange(0, b@.len() as int) =~= b@);
    while i < a.len() && i < b.len()
        invariant
            0 <= i <= a@.len(),
            i <= b@.len(),
            cmp_bytes(a@, b@) == cmp_bytes(a@.subrange(i as int, a@.len() as int), b@.subrange(i as int, b@.len() as int)),
        decreases a@.len() - i,
    {
        let x = a.byte_at(i);
        let y = b.byte_at(i);
        let ghost sa = a@.subrange(i as int, a@.len() as int);
        let ghost sb = b@.subrange(i as int, b@.len() as int);
        assert(sa[0] == x && sb[0] == y);
        if x != y {
            return if x < y { -1 } else { 1 };
        }
        assert(sa.subrange(1, sa.len() as int) =~= a@.subrange(i + 1, a@.len() as int));
        assert(sb.subrange(1, sb.len() as int) =~= b@.subrange(i + 1, b@.len() as int));
        i = i + 1;
    }
    cmp_usize(a.len() - i, b.len() - i)
}

impl Value {
    /// The list this value coerces to.
    pub fn to_array(&self, opts: &Options) -> (r: Result<List, Error>)
        ensures
            match list_of(self.datum(), *opts) {
                Ok(d) => r is Ok && r.unwrap().data() == d,
                Err(e) => r == Err::<List, Error>(e),
            },
    {
        match self {
            Value::Null => Ok(List::empty()),
            Value::Boolean(b) => {
                if *b {
                    Ok(List::boxed(Value::Boolean(true)))
                } else {
                    Ok(List::empty())
                }
            },
            Value::Integer(i) => {
                if *i < 0 && opts.compliance.disallow_negative_int_to_list {
                    return Err(Error::Domain(Domain::NegativeToList));
                }
                let text = int_to_text(*i);
                let start: usize = if *i < 0 { 1 } else { 0 };
                let ghost n: nat = if *i < 0 { (-(*i as int)) as nat } else { *i as nat };
                let ghost d = digits_of(n);
                assert(int_digits(*i as int) == Seq::new(d.len(), |k: int| Datum::Integer(if *i < 0 { -(d[k] - 48) } else { d[k] - 48 })));
                assert(text@.subrange(start as int, text@.len() as int) =~= d);
                let tl = text.len();
                let mut out: Vec<Value> = Vec::new();
                let mut k: usize = start;
                assert(int_digits(*i as int).take(0) =~= Seq::<Datum>::empty());
                assert(data_of(out@) =~= Seq::<Datum>::empty());
                while k < tl
                    invariant
                        start <= k <= text@.len(),
                        start == (if *i < 0 { 1usize } else { 0usize }),
                        text@.subrange(start as int, text@.len() as int) == d,
                        text@.len() - start == d.len(),
                        d == digits_of(n),
                        n == (if *i < 0 { (-(*i as int)) as nat } else { *i as nat }),
                        data_of(out@) == int_digits(*i as int).take(k - start),
                        tl == text@.len(),
                    decreases text@.len() - k,
                {
                    let b = text.byte_at(k);
                    assert(d[k - start] == b);
                    proof {
                        crate::convert::lemma_digit_bytes(n, k - start);
                    }
                    let digit: i64 = if b >= 48 && b <= 57 { (b - 48) as i64 } else { 0 };
                    let v = Value::Integer(if *i < 0 { -digit } else { digit });
                    assert(digit as int == d[k - start] - 48);
                    let ghost j: int = k - start;
                    assert(0 <= j < d.len());
                    assert(int_digits(*i as int)[j] == Datum::Integer(if *i < 0 { -(d[j] - 48) } else { d[j] - 48 }));
                    assert(int_digits(*i as int)[j] == v.datum());
                    let ghost before = out@;
                    out.push(v);
                    assert(data_of(out@) =~= data_of(before).push(v.datum()));
                    assert(int_digits(*i as int).take(k + 1 - start) =~= int_digits(*i as int).take(k - start).push(v.datum()));
                    k = k + 1;
                }
                assert(int_digits(*i as int).take(text@.len() - start) =~= int_digits(*i as int));
                let r = List::from_vec(out);
                proof {
                    lemma_data(r);
                }
                Ok(r)
            },
            Value::Str(s) => {
                let mut out: Vec<Value> = Vec::new();
                let mut k: usize = 0;
                while k < s.len()
                    invariant
                        0 <= k <= s@.len(),
                        data_of(out@) == byte_strings(s@).take(k as int),
                    decreases s@.len() - k,
                {
                    let piece = s.get(k, 1).unwrap();
                    assert(piece@ =~= seq![s@[k as int]]);
                    let v = Value::Str(piece);
                    let ghost before = out@;
                    out.push(v);
                    assert(data_of(out@) =~= data_of(before).push(v.datum()));
                    assert(byte_strings(s@).take(k + 1) =~= byte_strings(s@).take(k as int).push(v.datum()));
                    k = k + 1;
                }
                assert(byte_strings(s@).take(s@.len() as int) =~= byte_strings(s@));
                let r = List::from_vec(out);
                proof {
                    lemma_data(r);
                }
                Ok(r)
            },
            Value::List(l) => Ok(l.share()),
            Value::Block(_) => Err(Error::Conversion { from: Kind::Block, to: Kind::List }),
        }
    }

    /// How `self` orders against `other` under `<` and `>`.
    pub fn kn_compare(&self, other: &Value, opts: &Options) -> (r: Result<i8, Error>)
        ensures
            r == compare(self.datum(), other.datum(), *opts),
        decreases self,
    {
        match self {
            Value::Integer(x) => {
                let y = other.to_integer(opts)?;
                Ok(if *x < y { -1 } else if *x > y { 1 } else { 0 })
            },
            Value::Boolean(x) => {
                let y = other.to_bool(opts)?;
                let a: i64 = if *x { 1 } else { 0 };
                let b: i64 = if y { 1 } else { 0 };
                Ok(if a < b { -1 } else if a > b { 1 } else { 0 })
            },
            Value::Str(x) => {
                let t = other.to_knstr(opts)?;
                Ok(compare_bytes(x, &t))
            },
            Value::List(x) => {
                let y = other.to_array(opts)?;
                assert(self.datum() == Datum::List(x.data()));
                assert(x.data().subrange(0, x@.len() as int) =~= x.data());
                assert(y.data().subrange(0, y@.len() as int) =~= y.data());
                let n = if x.len() < y.len() { x.len() } else { y.len() };
                let mut i: usize = 0;
                while i < n
                    invariant
                        0 <= i <= n,
                        n <= x@.len(),
                        n <= y@.len(),
                        n == x@.len() || n == y@.len(),
                        *self == Value::List(*x),
                        compare(self.datum(), other.datum(), *opts) == compare_seqs(
                            x.data().subrange(i as int, x@.len() as int),
                            y.data().subrange(i as int, y@.len() as int),
                            *opts,
                        ),
                    decreases n - i,
                {
                    let ghost sa = x.data().subrange(i as int, x@.len() as int);
                    let ghost sb = y.data().subrange(i as int, y@.len() as int);
                    assert(sa[0] == x@[i as int].datum());
                    assert(sb[0] == y@[i as int].datum());
                    let c = x.elems[i].kn_compare(&y.elems[i], opts)?;
                    if c != 0 {
                        return Ok(c);
                    }
                    assert(sa.subrange(1, sa.len() as int) =~= x.data().subrange(i + 1, x@.len() as int));
                    assert(sb.subrange(1, sb.len() as int) =~= y.data().subrange(i + 1, y@.len() as int));
                    i = i + 1;
                }
                Ok(cmp_usize(x.len() - i, y.len() - i))
            },
            _ => Err(Error::TypeError { kind: self.kind(), op: crate::program::Opcode::Lth }),
        }
    }
}

} // verus!
