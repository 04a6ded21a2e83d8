use vstd::prelude::*;

verus! {

/// The set of bytes that strings may hold.
#[derive(Clone, Copy, Debug, PartialEq, Eq, Structural)]
pub enum Encoding {
    /// Any byte below 128.
    Ascii,
    /// Tab, newline, carriage return and the printable bytes from space to tilde.
    Knight,
    /// Any byte at all.
    Utf8,
}

/// Additional checks that a strictly conforming interpreter performs.
#[derive(Clone, Copy, Debug, PartialEq, Eq, Structural)]
pub struct Compliance {
    /// Strings and lists may be at most `i32::MAX` long.
    pub check_container_length: bool,
    /// Every integer must fit in an `i32`.
    pub i32_integer: bool,
    /// Integer overflow is an error instead of wrapping around.
    pub check_overflow: bool,
    /// A negative base of `%` and a negative exponent of `^` are errors.
    pub check_integer_function_bounds: bool,
    /// Variable names may be at most 127 bytes long.
    pub variable_name_length: bool,
    /// At most 65535 distinct variables may be used.
    pub variable_count: bool,
    /// A program must be exactly one expression.
    pub forbid_trailing_tokens: bool,
    /// `?` rejects blocks.
    pub check_equals_params: bool,
    /// Blocks cannot be coerced to booleans, integers, strings or lists.
    pub no_block_conversions: bool,
    /// `DUMP` rejects blocks.
    pub strict_blocks: bool,
    /// `RANDOM` stays within `0..=32767`.
    pub limit_rand_range: bool,
    /// `QUIT` accepts only statuses within `0..=127`.
    pub check_quit_status_codes: bool,
    /// Negative integers cannot be coerced to lists.
    pub disallow_negative_int_to_list: bool,
}

/// Conveniences for people running programs.
#[derive(Clone, Copy, Debug, PartialEq, Eq, Structural)]
pub struct QualityOfLife {
    /// Runtime errors carry the chain of blocks that were being run.
    pub stacktrace: bool,
}

/// Behaviour for hosts that embed the interpreter.
#[derive(Clone, Copy, Debug, PartialEq, Eq, Structural)]
pub struct Embedded {
    /// `QUIT` ends the run with a status instead of asking the host to exit.
    pub dont_exit_when_quitting: bool,
}

/// Optional additions to the language.
#[derive(Clone, Copy, Debug, PartialEq, Eq, Structural)]
pub struct Extensions {
    /// A negative start index of `GET` and `SET` counts from the end.
    pub negative_indexing: bool,
}

/// Everything that configures parsing and running.
#[derive(Clone, Copy, Debug, PartialEq, Eq, Structural)]
pub struct Options {
    pub encoding: Encoding,
    pub compliance: Compliance,
    pub qol: QualityOfLife,
    pub embedded: Embedded,
    pub extensions: Extensions,
    /// Parentheses must balance.
    pub check_parens: bool,
}

impl Compliance {
    /// Whether every check is switched off.
    pub open spec fn all_off(self) -> bool {
        &&& !self.check_container_length && !self.i32_integer && !self.check_overflow
        &&& !self.check_integer_function_bounds && !self.variable_name_length
        &&& !self.variable_count && !self.forbid_trailing_tokens && !self.check_equals_params
        &&& !self.no_block_conversions && !self.strict_blocks && !self.limit_rand_range
        &&& !self.check_quit_status_codes && !self.disallow_negative_int_to_list
    }

    /// Whether every check is switched on.
    pub open spec fn all_on(self) -> bool {
        &&& self.check_container_length && self.i32_integer && self.check_overflow
        &&& self.check_integer_function_bounds && self.variable_name_length
        &&& self.variable_count && self.forbid_trailing_tokens && self.check_equals_params
        &&& self.no_block_conversions && self.strict_blocks && self.limit_rand_range
        &&& self.check_quit_status_codes && self.disallow_negative_int_to_list
    }

    /// No check switched on.
    pub fn none() -> (r: Compliance)
        ensures
            r.all_off(),
    {
        Compliance {
            check_container_length: false,
            i32_integer: false,
            check_overflow: false,
            check_integer_function_bounds: false,
            variable_name_length: false,
            variable_count: false,
            forbid_trailing_tokens: false,
            check_equals_params: false,
            no_block_conversions: false,
            strict_blocks: false,
            limit_rand_range: false,
            check_quit_status_codes: false,
            disallow_negative_int_to_list: false,
        }
    }

    /// Every check switched on.
    pub fn strict() -> (r: Compliance)
        ensures
            r.all_on(),
    {
        Compliance {
            check_container_length: true,
            i32_integer: true,
            check_overflow: true,
            check_integer_function_bounds: true,
            variable_name_length: true,
            variable_count: true,
            forbid_trailing_tokens: true,
            check_equals_params: true,
            no_block_conversions: true,
            strict_blocks: true,
            limit_rand_range: true,
            check_quit_status_codes: true,
            disallow_negative_int_to_list: true,
        }
    }
}

impl Options {
    /// Unrestricted bytes, no compliance checks and no extensions.
    pub fn lenient() -> (r: Options)
        ensures
            r.encoding == Encoding::Utf8,
            r.compliance.all_off(),
            !r.qol.stacktrace && !r.embedded.dont_exit_when_quitting,
            !r.extensions.negative_indexing && !r.check_parens,
    {
        Options {
            encoding: Encoding::Utf8,
            compliance: Compliance::none(),
            qol: QualityOfLife { stacktrace: false },
            embedded: Embedded { dont_exit_when_quitting: false },
            extensions: Extensions { negative_indexing: false },
            check_parens: false,
        }
    }
}

} // verus!
