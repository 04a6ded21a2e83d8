use vstd::prelude::*;
use std::rc::Rc;
use crate::error::{Domain, Error, NewTextError};
use crate::options::{Encoding, Options};
use crate::seqs::{repeat_seq, lemma_repeat_len};

verus! {

/// Whether byte `b` may stand in a string under encoding `enc`.
pub open spec fn valid_byte(b: u8, enc: Encoding) -> bool {
    match enc {
        Encoding::Ascii => b < 128,
        Encoding::Knight => b == 9 || b == 10 || b == 13 || (32 <= b <= 126),
        Encoding::Utf8 => true,
    }
}

/// The longest string or list the options allow.
pub open spec fn max_len(opts: Options) -> int {
    if opts.compliance.check_container_length {
        i32::MAX as int
    } else {
        isize::MAX as int
    }
}

/// The position of the first byte of `s` at or after `i` that `enc` refuses; `s.len()` where
/// there is none.
pub open spec fn first_invalid(s: Seq<u8>, enc: Encoding, i: int) -> int
    decreases s.len() - i,
{
    if i < 0 || i >= s.len() {
        s.len() as int
    } else if !valid_byte(s[i], enc) {
        i
    } else {
        first_invalid(s, enc, i + 1)
    }
}

/// What checking `s` against the options gives: too long, else the first illegal byte, else fine.
pub open spec fn validation(s: Seq<u8>, opts: Options) -> Result<(), NewTextError> {
    let k = first_invalid(s, opts.encoding, 0);
    if s.len() > max_len(opts) {
        Err(NewTextError::TooLong)
    } else if k < s.len() {
        Err(NewTextError::IllegalByte(s[k]))
    } else {
        Ok(())
    }
}

/// Whether `b` may stand in a string under `enc`.
pub fn is_valid(b: u8, enc: Encoding) -> (r: bool)
    ensures
        r == valid_byte(b, enc),
{
    match enc {
        Encoding::Ascii => b < 128,
        Encoding::Knight => b == 9 || b == 10 || b == 13 || (32 <= b && b <= 126),
        Encoding::Utf8 => true,
    }
}

pub(crate) fn max_len_of(opts: &Options) -> (r: usize)
    ensures
        r as int == max_len(*opts),
{
    if opts.compliance.check_container_length {
        i32::MAX as usize
    } else {
        isize::MAX as usize
    }
}

/// Checks `s` against the encoding and the length cap of `opts`.
pub fn validate(s: &Vec<u8>, opts: &Options) -> (r: Result<(), NewTextError>)
    ensures
        r == validation(s@, *opts),
{
    if s.len() > max_len_of(opts) {
        return Err(NewTextError::TooLong);
    }
    let mut i: usize = 0;
    while i < s.len()
        invariant
            0 <= i <= s@.len(),
            s@.len() <= max_len(*opts),
            first_invalid(s@, opts.encoding, 0) == first_invalid(s@, opts.encoding, i as int),
        decreases s@.len() - i,
    {
        if !is_valid(s[i], opts.encoding) {
            assert(first_invalid(s@, opts.encoding, i as int) == i as int);
            return Err(NewTextError::IllegalByte(s[i]));
        }
        i = i + 1;
    }
    Ok(())
}

/// An immutable byte string.
#[derive(Clone, Debug)]
pub struct KString {
    bytes: Rc<Vec<u8>>,
}

impl View for KString {
    type V = Seq<u8>;

    closed spec fn view(&self) -> Seq<u8> {
        self.bytes@
    }
}

/// Whether `needle` occurs in `s` starting at `i`.
pub open spec fn occurs_at(s: Seq<u8>, needle: Seq<u8>, i: int) -> bool {
    0 <= i && i + needle.len() <= s.len() && s.subrange(i, i + needle.len()) == needle
}

/// `s` with its first occurrence of `needle` taken out; `s` itself where there is none.
pub open spec fn without_first(s: Seq<u8>, needle: Seq<u8>) -> Seq<u8> {
    if exists|i: int| occurs_at(s, needle, i) {
        let i = choose|i: int| occurs_at(s, needle, i) && forall|j: int| 0 <= j < i ==> !occurs_at(s, needle, j);
        s.subrange(0, i) + s.subrange(i + needle.len(), s.len() as int)
    } else {
        s
    }
}

impl KString {
    /// A string of `bytes`, without checking them.
    pub fn new_unvalidated(bytes: Vec<u8>) -> (r: KString)
        ensures
            r@ == bytes@,
    {
        KString { bytes: Rc::new(bytes) }
    }

    /// A string of `bytes`, where they pass `validate`.
    pub fn new(bytes: Vec<u8>, opts: &Options) -> (r: Result<KString, NewTextError>)
        ensures
            validation(bytes@, *opts) is Ok <==> r is Ok,
            r is Ok ==> r.unwrap()@ == bytes@,
            r is Err ==> r == Err::<KString, NewTextError>(validation(bytes@, *opts)->Err_0),
    {
        match validate(&bytes, opts) {
            Ok(()) => Ok(KString::new_unvalidated(bytes)),
            Err(e) => Err(e),
        }
    }

    pub fn empty() -> (r: KString)
        ensures
            r@ == Seq::<u8>::empty(),
    {
        KString::new_unvalidated(Vec::new())
    }

    pub fn len(&self) -> (r: usize)
        ensures
            r == self@.len(),
    {
        self.bytes.len()
    }

    pub fn is_empty(&self) -> (r: bool)
        ensures
            r == (self@.len() == 0),
    {
        self.bytes.len() == 0
    }

    pub fn as_bytes(&self) -> (r: &Vec<u8>)
        ensures
            r@ == self@,
    {
        &self.bytes
    }

    /// The byte at `i`.
    pub fn byte_at(&self, i: usize) -> (r: u8)
        requires
            i < self@.len(),
        ensures
            r == self@[i as int],
    {
        self.bytes[i]
    }

    /// `self` followed by `other`; too long a result is an error.
    pub fn concat(&self, other: &KString, opts: &Options) -> (r: Result<KString, Error>)
        ensures
            self@.len() + other@.len() <= max_len(*opts) ==> r is Ok && r.unwrap()@ == self@ + other@,
            self@.len() + other@.len() > max_len(*opts) ==> r == Err::<KString, Error>(
                Error::Text(NewTextError::TooLong),
            ),
    {
        if self.len() > max_len_of(opts) || other.len() > max_len_of(opts) - self.len() {
            return Err(Error::Text(NewTextError::TooLong));
        }
        if other.is_empty() {
            assert(self@ + other@ =~= self@);
            return Ok(self.clone_string());
        }
        if self.is_empty() {
            assert(self@ + other@ =~= other@);
            return Ok(other.clone_string());
        }
        let mut out: Vec<u8> = Vec::new();
        let mut i: usize = 0;
        while i < self.len()
            invariant
                0 <= i <= self@.len(),
                out@ == self@.subrange(0, i as int),
            decreases self@.len() - i,
        {
            out.push(self.byte_at(i));
            i = i + 1;
            assert(out@ =~= self@.subrange(0, i as int));
        }
        let mut j: usize = 0;
        while j < other.len()
            invariant
                0 <= j <= other@.len(),
                out@ == self@ + other@.subrange(0, j as int),
            decreases other@.len() - j,
        {
            out.push(other.byte_at(j));
            j = j + 1;
            assert(out@ =~= self@ + other@.subrange(0, j as int));
        }
        assert(other@.subrange(0, other@.len() as int) =~= other@);
        Ok(KString::new_unvalidated(out))
    }

    /// A second handle on the same bytes.
    pub fn clone_string(&self) -> (r: KString)
        ensures
            r == *self,
            r@ == self@,
    {
        KString { bytes: Rc::clone(&self.bytes) }
    }

    /// `self` written `n` times; once gives `self` itself, and too long a result is an error.
    pub fn repeat(&self, n: usize, opts: &Options) -> (r: Result<KString, Error>)
        ensures
            n == 1 ==> r is Ok && r.unwrap()@ == self@,
            n != 1 && self@.len() * n <= max_len(*opts) ==> r is Ok && r.unwrap()@ == repeat_seq(self@, n as nat),
            n != 1 && self@.len() * n > max_len(*opts) ==> r == Err::<KString, Error>(
                Error::Text(NewTextError::TooLong),
            ),
    {
        proof {
            lemma_repeat_len(self@, n as nat);
        }
        if n == 1 {
            proof {
                crate::seqs::lemma_repeat_one(self@);
            }
            return Ok(self.clone_string());
        }
        if self.len() > 0 && n > max_len_of(opts) / self.len() {
            proof {
                vstd::arithmetic::div_mod::lemma_fundamental_div_mod(max_len(*opts), self@.len() as int);
                let q = max_len(*opts) / (self@.len() as int);
                assert(self@.len() * n >= self@.len() * (q + 1)) by (nonlinear_arith)
                    requires
                        n >= q + 1,
                        self@.len() > 0,
                ;
                assert(self@.len() * (q + 1) == self@.len() * q + self@.len()) by (nonlinear_arith);
                vstd::arithmetic::div_mod::lemma_mod_bound(max_len(*opts), self@.len() as int);
            }
            return Err(Error::Text(NewTextError::TooLong));
        }
        proof {
            if self@.len() > 0 {
                vstd::arithmetic::div_mod::lemma_fundamental_div_mod(max_len(*opts), self@.len() as int);
                vstd::arithmetic::div_mod::lemma_mod_bound(max_len(*opts), self@.len() as int);
                let q = max_len(*opts) / (self@.len() as int);
                assert(self@.len() * n <= self@.len() * q) by (nonlinear_arith)
                    requires
                        n <= q,
                        self@.len() > 0,
                ;
            }
        }
        let mut out: Vec<u8> = Vec::new();
        let mut k: usize = 0;
        while k < n
            invariant
                0 <= k <= n,
                out@ == repeat_seq(self@, k as nat),
                self@.len() * n <= max_len(*opts),
            decreases n - k,
        {
            proof {
                lemma_repeat_len(self@, k as nat);
                assert(self@.len() * k <= self@.len() * n) by (nonlinear_arith)
                    requires
                        k <= n,
                ;
            }
            let mut i: usize = 0;
            while i < self.len()
                invariant
                    0 <= i <= self@.len(),
                    out@ == repeat_seq(self@, k as nat) + self@.subrange(0, i as int),
                decreases self@.len() - i,
            {
                out.push(self.byte_at(i));
                i = i + 1;
                assert(out@ =~= repeat_seq(self@, k as nat) + self@.subrange(0, i as int));
            }
            assert(self@.subrange(0, self@.len() as int) =~= self@);
            k = k + 1;
        }
        Ok(KString::new_unvalidated(out))
    }

    /// The `len` bytes from `start`; reaching past the end is an error.
    pub fn get(&self, start: usize, len: usize) -> (r: Result<KString, Error>)
        ensures
            start + len <= self@.len() ==> r is Ok && r.unwrap()@ == self@.subrange(
                start as int,
                start + len,
            ),
            start + len > self@.len() ==> r == Err::<KString, Error>(
                Error::IndexOutOfBounds { len: self@.len() as usize, index: start },
            ),
    {
        if start > self.len() || len > self.len() - start {
            return Err(Error::IndexOutOfBounds { len: self.len(), index: start });
        }
        let end = start + len;
        let mut out: Vec<u8> = Vec::new();
        let mut i: usize = start;
        while i < end
            invariant
                start <= i <= end,
                end == start + len,
                end <= self@.len(),
                out@ == self@.subrange(start as int, i as int),
            decreases end - i,
        {
            out.push(self.byte_at(i));
            i = i + 1;
            assert(out@ =~= self@.subrange(start as int, i as int));
        }
        Ok(KString::new_unvalidated(out))
    }

    /// The first byte, as a string; the empty string has none.
    pub fn head(&self) -> (r: Result<KString, Error>)
        ensures
            self@.len() == 0 ==> r == Err::<KString, Error>(Error::Domain(Domain::EmptyHead)),
            self@.len() > 0 ==> r is Ok && r.unwrap()@ == self@.subrange(0, 1),
    {
        if self.is_empty() {
            return Err(Error::Domain(Domain::EmptyHead));
        }
        self.get(0, 1)
    }

    /// Everything after the first byte; the empty string has no tail.
    pub fn tail(&self) -> (r: Result<KString, Error>)
        ensures
            self@.len() == 0 ==> r == Err::<KString, Error>(Error::Domain(Domain::EmptyTail)),
            self@.len() > 0 ==> r is Ok && r.unwrap()@ == self@.subrange(1, self@.len() as int),
    {
        if self.is_empty() {
            return Err(Error::Domain(Domain::EmptyTail));
        }
        self.get(1, self.len() - 1)
    }

    /// The code of the first byte.
    pub fn ord(&self) -> (r: Result<i64, Error>)
        ensures
            self@.len() == 0 ==> r == Err::<i64, Error>(Error::Domain(Domain::EmptyAscii)),
            self@.len() > 0 ==> r == Ok::<i64, Error>(self@[0] as i64),
    {
        if self.is_empty() {
            return Err(Error::Domain(Domain::EmptyAscii));
        }
        Ok(self.byte_at(0) as i64)
    }

    /// The one-byte string with code `code`, which must be below 128 and allowed by the encoding.
    pub fn chr(code: i64, opts: &Options) -> (r: Result<KString, Error>)
        ensures
            !(0 <= code < 128) ==> r == Err::<KString, Error>(Error::Domain(Domain::NotAChar)),
            0 <= code < 128 && !valid_byte(code as u8, opts.encoding) ==> r == Err::<KString, Error>(
                Error::Text(NewTextError::IllegalByte(code as u8)),
            ),
            0 <= code < 128 && valid_byte(code as u8, opts.encoding) ==> r is Ok && r.unwrap()@
                == seq![code as u8],
    {
        if code < 0 || code >= 128 {
            return Err(Error::Domain(Domain::NotAChar));
        }
        let b = code as u8;
        if !is_valid(b, opts.encoding) {
            return Err(Error::Text(NewTextError::IllegalByte(b)));
        }
        let mut v: Vec<u8> = Vec::new();
        v.push(b);
        assert(v@ =~= seq![b]);
        Ok(KString::new_unvalidated(v))
    }

    /// Whether `needle` occurs in `self` at `i`.
    fn occurs(&self, needle: &KString, i: usize) -> (r: bool)
        ensures
            r == occurs_at(self@, needle@, i as int),
    {
        if i > self.len() || needle.len() > self.len() - i {
            return false;
        }
        let mut k: usize = 0;
        while k < needle.len()
            invariant
                0 <= k <= needle@.len(),
                i + needle@.len() <= self@.len(),
                self@.len() <= usize::MAX,
                forall|j: int| 0 <= j < k ==> self@[i + j] == needle@[j],
            decreases needle@.len() - k,
        {
            if self.byte_at(i + k) != needle.byte_at(k) {
                assert(self@.subrange(i as int, i + needle@.len())[k as int] != needle@[k as int]);
                return false;
            }
            k = k + 1;
        }
        assert(self@.subrange(i as int, i + needle@.len()) =~= needle@);
        true
    }

    /// `self` with the first occurrence of `needle` taken out.
    pub fn remove_substr(&self, needle: &KString) -> (r: KString)
        ensures
            r@ == without_first(self@, needle@),
    {
        if needle.len() > self.len() {
            proof {
                assert forall|j: int| !occurs_at(self@, needle@, j) by {}
            }
            return self.clone_string();
        }
        let last = self.len() - needle.len();
        let mut i: usize = 0;
        while i <= last
            invariant
                0 <= i <= last + 1,
                last == self@.len() - needle@.len(),
                self@.len() <= usize::MAX,
                forall|j: int| 0 <= j < i ==> !occurs_at(self@, needle@, j),
            decreases last + 1 - i,
        {
            if self.occurs(needle, i) {
                let mut out: Vec<u8> = Vec::new();
                let mut k: usize = 0;
                while k < i
                    invariant
                        0 <= k <= i,
                        i + needle@.len() <= self@.len(),
                        out@ == self@.subrange(0, k as int),
                    decreases i - k,
                {
                    out.push(self.byte_at(k));
                    k = k + 1;
                    assert(out@ =~= self@.subrange(0, k as int));
                }
                let mut m: usize = i + needle.len();
                while m < self.len()
                    invariant
                        i + needle@.len() <= m <= self@.len(),
                        out@ == self@.subrange(0, i as int) + self@.subrange(
                            i + needle@.len(),
                            m as int,
                        ),
                    decreases self@.len() - m,
                {
                    out.push(self.byte_at(m));
                    m = m + 1;
                    assert(out@ =~= self@.subrange(0, i as int) + self@.subrange(
                        i + needle@.len(),
                        m as int,
                    ));
                }
                proof {
                    let c = choose|c: int| occurs_at(self@, needle@, c) && forall|j: int|
                        0 <= j < c ==> !occurs_at(self@, needle@, j);
                    assert(occurs_at(self@, needle@, i as int));
                    if c < i {
                    } else if c > i {
                    }
                    assert(c == i);
                }
                return KString::new_unvalidated(out);
            }
            if needle.len() == 0 {
                assert(self@.subrange(i as int, i as int) =~= needle@);
            }
            i = i + 1;
        }
        proof {
            assert forall|j: int| !occurs_at(self@, needle@, j) by {
                if 0 <= j && j + needle@.len() <= self@.len() {
                    assert(j < i);
                }
            }
        }
        self.clone_string()
    }

    /// Whether both strings hold the same bytes.
    pub fn same_bytes(&self, other: &KString) -> (r: bool)
        ensures
            r == (self@ == other@),
    {
        if self.len() != other.len() {
            return false;
        }
        let mut i: usize = 0;
        while i < self.len()
            invariant
                0 <= i <= self@.len(),
                self@.len() == other@.len(),
                forall|j: int| 0 <= j < i ==> self@[j] == other@[j],
            decreases self@.len() - i,
        {
            if self.byte_at(i) != other.byte_at(i) {
                return false;
            }
            i = i + 1;
        }
        assert(self@ =~= other@);
        true
    }
}

} // verus!
