use vstd::prelude::*;

verus! {

/// What a packed word stands for.
pub enum Unpacked {
    Null,
    Boolean(bool),
    Integer(int),
    /// A block, by the index of its first instruction.
    Block(nat),
    /// A string or list, by the index of its heap cell.
    Cell(nat),
    /// A word that no constructor makes.
    Invalid,
}

pub open spec fn word_range() -> int {
    0x1_0000_0000_0000_0000
}

/// The word read as a two's-complement signed number.
pub open spec fn signed(bits: u64) -> int {
    if bits < 0x8000_0000_0000_0000 { bits as int } else { bits - word_range() }
}

/// The word encoding `FALSE`.
pub const FALSE_BITS: u64 = 2;

/// The word encoding `TRUE`.
pub const TRUE_BITS: u64 = 10;

/// The smallest integer a word can carry.
pub const MIN_INT: i64 = -0x4000_0000_0000_0000;

/// The largest integer a word can carry.
pub const MAX_INT: i64 = 0x3fff_ffff_ffff_ffff;

/// The largest block index or cell index a word can carry.
pub const MAX_INDEX: u64 = 0x1fff_ffff_ffff_fffe;

/// How a word is read: zero is null, an odd word an integer (shifted up by one), `...010` a
/// boolean, `...100` a block index and a nonzero `...000` a heap cell (shifted up by three).
pub open spec fn unpack(bits: u64) -> Unpacked {
    if bits == 0 {
        Unpacked::Null
    } else if bits % 2 == 1 {
        Unpacked::Integer(signed(bits) / 2)
    } else if bits == FALSE_BITS {
        Unpacked::Boolean(false)
    } else if bits == TRUE_BITS {
        Unpacked::Boolean(true)
    } else if bits % 8 == 4 {
        Unpacked::Block((bits / 8) as nat)
    } else if bits % 8 == 0 {
        Unpacked::Cell((bits / 8 - 1) as nat)
    } else {
        Unpacked::Invalid
    }
}

/// A runtime value packed into one 64-bit word.
#[derive(Clone, Copy, Debug, PartialEq, Eq, Structural)]
pub struct Value {
    bits: u64,
}

impl Value {
    /// What this word stands for.
    pub closed spec fn unpacked(self) -> Unpacked {
        unpack(self.bits)
    }

    pub closed spec fn bits_of(self) -> u64 {
        self.bits
    }

    /// A word stands for what `unpack` reads in its bits.
    pub proof fn lemma_unpacked(self)
        ensures
            self.unpacked() == unpack(self.bits_of()),
    {
    }

    pub fn null() -> (r: Value)
        ensures
            r.unpacked() == Unpacked::Null,
            r.bits_of() == 0,
    {
        Value { bits: 0 }
    }

    pub fn from_boolean(b: bool) -> (r: Value)
        ensures
            r.unpacked() == Unpacked::Boolean(b),
    {
        Value { bits: if b { TRUE_BITS } else { FALSE_BITS } }
    }

    /// The word of an integer in the 63-bit range.
    pub fn from_integer(i: i64) -> (r: Value)
        requires
            MIN_INT <= i <= MAX_INT,
        ensures
            r.unpacked() == Unpacked::Integer(i as int),
    {
        let bits: u64 = if i >= 0 {
            (i as u64) * 2 + 1
        } else {
            u64::MAX - ((-(i + 1)) as u64) * 2
        };
        proof {
            if i >= 0 {
                assert(signed(bits) == 2 * i + 1);
            } else {
                assert(signed(bits) == 2 * i + 1);
            }
            assert((2 * i + 1) / 2 == i as int) by {
                vstd::arithmetic::div_mod::lemma_fundamental_div_mod(2 * i + 1, 2);
            }
        }
        Value { bits }
    }

    pub fn from_block(index: u64) -> (r: Value)
        requires
            index <= MAX_INDEX,
        ensures
            r.unpacked() == Unpacked::Block(index as nat),
    {
        let bits = index * 8 + 4;
        proof {
            assert(bits % 8 == 4 && bits / 8 == index);
            assert(bits % 2 == 0);
        }
        Value { bits }
    }

    /// The word of the heap cell with this index.
    pub fn from_cell(index: u64) -> (r: Value)
        requires
            index <= MAX_INDEX,
        ensures
            r.unpacked() == Unpacked::Cell(index as nat),
    {
        let bits = (index + 1) * 8;
        proof {
            assert(bits % 8 == 0 && bits / 8 == index + 1);
            assert(bits % 2 == 0);
        }
        Value { bits }
    }

    /// The word itself.
    pub fn bits(&self) -> (r: u64)
        ensures
            r == self.bits_of(),
    {
        self.bits
    }

    pub fn is_null(&self) -> (r: bool)
        ensures
            r == (self.unpacked() == Unpacked::Null),
            r == (self.bits_of() == 0),
    {
        self.bits == 0
    }

    pub fn as_integer(&self) -> (r: Option<i64>)
        ensures
            self.unpacked() is Integer ==> r == Some(self.unpacked()->Integer_0 as i64),
            !(self.unpacked() is Integer) ==> r is None,
            r is Some ==> r.unwrap() as int == self.unpacked()->Integer_0,
    {
        let b = self.bits;
        if b % 2 == 1 {
            let i: i64 = if b < 0x8000_0000_0000_0000 {
                ((b - 1) / 2) as i64
            } else {
                -((((0xffff_ffff_ffff_ffff - b) + 2) / 2) as i64)
            };
            proof {
                vstd::arithmetic::div_mod::lemma_fundamental_div_mod(signed(b), 2);
                if b >= 0x8000_0000_0000_0000 {
                    let s = signed(b);
                    assert(s == b - word_range());
                    assert(s / 2 == -((0xffff_ffff_ffff_ffff - b + 2) / 2)) by {
                        vstd::arithmetic::div_mod::lemma_fundamental_div_mod(0xffff_ffff_ffff_ffff - b + 2, 2);
                    }
                }
            }
            Some(i)
        } else {
            None
        }
    }

    pub fn as_boolean(&self) -> (r: Option<bool>)
        ensures
            self.unpacked() is Boolean ==> r == Some(self.unpacked()->Boolean_0),
            !(self.unpacked() is Boolean) ==> r is None,
    {
        if self.bits == TRUE_BITS {
            Some(true)
        } else if self.bits == FALSE_BITS {
            Some(false)
        } else {
            None
        }
    }

    pub fn as_block(&self) -> (r: Option<u64>)
        ensures
            self.unpacked() is Block ==> r == Some(self.unpacked()->Block_0 as u64),
            !(self.unpacked() is Block) ==> r is None,
            r is Some ==> r.unwrap() as int == self.unpacked()->Block_0,
    {
        let b = self.bits;
        if b % 8 == 4 {
            Some(b / 8)
        } else {
            None
        }
    }

    /// The heap cell this word points to.
    pub fn as_cell(&self) -> (r: Option<u64>)
        ensures
            self.unpacked() is Cell ==> r == Some(self.unpacked()->Cell_0 as u64),
            !(self.unpacked() is Cell) ==> r is None,
            r is Some ==> r.unwrap() as int == self.unpacked()->Cell_0,
    {
        let b = self.bits;
        if b != 0 && b % 8 == 0 {
            Some(b / 8 - 1)
        } else {
            None
        }
    }
}

} // verus!
