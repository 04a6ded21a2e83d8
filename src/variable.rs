use vstd::prelude::*;
use crate::compiler::MAX_NAME_LEN;
use crate::options::Options;
use crate::value::Value;

verus! {

/// Why a variable name was refused.
#[derive(Clone, Copy, Debug, PartialEq, Eq, Structural)]
pub enum IllegalVariableName {
    /// The name was empty.
    Empty,
    /// The name was longer than 127 bytes; its length.
    TooLong(usize),
    /// The name began with a byte that cannot begin one.
    IllegalStartingChar(u8),
    /// The name held a byte that cannot stand in one.
    IllegalBodyChar(u8),
}

/// Bytes that may begin a variable name.
pub open spec fn name_start(b: u8) -> bool {
    (97 <= b <= 122) || b == 95
}

/// Bytes that may stand in a variable name.
pub open spec fn name_body(b: u8) -> bool {
    name_start(b) || (48 <= b <= 57)
}

/// The position of the first byte of `s` at or after `i` that cannot stand in a name; `s.len()`
/// where there is none.
pub open spec fn first_bad_body(s: Seq<u8>, i: int) -> int
    decreases s.len() - i,
{
    if i < 0 || i >= s.len() {
        s.len() as int
    } else if !name_body(s[i]) {
        i
    } else {
        first_bad_body(s, i + 1)
    }
}

/// What checking a name gives where names are checked: too long, empty, a bad first byte, a bad
/// later byte, or fine. Where names are not checked, every name is fine.
pub open spec fn name_check(s: Seq<u8>, opts: Options) -> Result<(), IllegalVariableName> {
    if !opts.compliance.variable_name_length {
        Ok(())
    } else if s.len() > MAX_NAME_LEN {
        Err(IllegalVariableName::TooLong(s.len() as usize))
    } else if s.len() == 0 {
        Err(IllegalVariableName::Empty)
    } else if !name_start(s[0]) {
        Err(IllegalVariableName::IllegalStartingChar(s[0]))
    } else if first_bad_body(s, 1) < s.len() {
        Err(IllegalVariableName::IllegalBodyChar(s[first_bad_body(s, 1)]))
    } else {
        Ok(())
    }
}

/// Where variable names are checked, checks that `name` is one: at most 127 bytes of lower-case
/// letters, digits and underscores, not starting with a digit. Otherwise accepts any name.
pub fn validate_name(name: &Vec<u8>, opts: &Options) -> (r: Result<(), IllegalVariableName>)
    ensures
        r == name_check(name@, *opts),
{
    let n = name.len();
    if !opts.compliance.variable_name_length {
        return Ok(());
    }
    if n > MAX_NAME_LEN {
        return Err(IllegalVariableName::TooLong(n));
    }
    if n == 0 {
        return Err(IllegalVariableName::Empty);
    }
    let first = name[0];
    if !((97 <= first && first <= 122) || first == 95) {
        return Err(IllegalVariableName::IllegalStartingChar(first));
    }
    let mut i: usize = 1;
    while i < n
        invariant
            1 <= i <= n,
            n == name@.len(),
            first_bad_body(name@, 1) == first_bad_body(name@, i as int),
            name_start(name@[0]),
            opts.compliance.variable_name_length,
            n <= MAX_NAME_LEN,
        decreases n - i,
    {
        let b = name[i];
        if !((97 <= b && b <= 122) || b == 95 || (48 <= b && b <= 57)) {
            assert(first_bad_body(name@, i as int) == i as int);
            return Err(IllegalVariableName::IllegalBodyChar(b));
        }
        i = i + 1;
    }
    Ok(())
}

/// A named slot that may hold a value.
pub struct Variable {
    name: Vec<u8>,
    value: Option<Value>,
}

impl Variable {
    pub closed spec fn name_view(&self) -> Seq<u8> {
        self.name@
    }

    pub closed spec fn value_view(&self) -> Option<Value> {
        self.value
    }

    /// An unassigned variable called `name`, where `name` passes `validate_name`.
    pub fn new(name: Vec<u8>, opts: &Options) -> (r: Result<Variable, IllegalVariableName>)
        ensures
            name_check(name@, *opts) is Ok ==> r is Ok && r.unwrap().name_view() == name@
                && r.unwrap().value_view() is None,
            name_check(name@, *opts) is Err ==> r == Err::<Variable, IllegalVariableName>(
                name_check(name@, *opts)->Err_0,
            ),
    {
        match validate_name(&name, opts) {
            Ok(()) => Ok(Variable { name, value: None }),
            Err(e) => Err(e),
        }
    }

    pub fn name(&self) -> (r: &Vec<u8>)
        ensures
            r@ == self.name_view(),
    {
        &self.name
    }

    /// Gives the variable `value`, handing back the value it held before.
    pub fn assign(&mut self, value: Value) -> (r: Option<Value>)
        ensures
            r == old(self).value_view(),
            final(self).name_view() == old(self).name_view(),
            final(self).value_view() == Some(value),
    {
        let previous = self.value.take();
        self.value = Some(value);
        previous
    }

    /// The value last assigned, if any.
    pub fn fetch(&self) -> (r: Option<Value>)
        ensures
            r == self.value_view(),
    {
        match &self.value {
            Some(v) => Some(v.duplicate()),
            None => None,
        }
    }
}

} // verus!
