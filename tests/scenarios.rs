use knight::compiler::compile;
use knight::error::{Domain, Error, ParseError};
use knight::options::{Compliance, Options};
use knight::value::{equals, Value};
use knight::vm::{Stop, Vm};

fn run_with(src: &str, opts: Options, lines: Vec<Vec<u8>>) -> (String, Result<Stop, Error>) {
    let program = match compile(src.as_bytes().to_vec(), &opts) {
        Ok(p) => p,
        Err(e) => return (String::new(), Err(e)),
    };
    let mut vm = Vm::new(program, opts);
    let mut out = Vec::new();
    let r = vm.run(1_000_000, &lines, &mut out);
    (String::from_utf8(out).unwrap(), r)
}

fn run(src: &str) -> (String, Result<Stop, Error>) {
    run_with(src, Options::lenient(), Vec::new())
}

#[test]
fn output_of_a_sum() {
    let (out, r) = run("OUTPUT + 1 2");
    assert_eq!(out, "3\n");
    assert!(matches!(r, Ok(Stop::Finished(Value::Null))));
}

#[test]
fn blocks_see_the_current_variables() {
    let (out, r) = run("; = n 10 ; = f BLOCK n ; = n 5 OUTPUT CALL f");
    assert_eq!(out, "5\n");
    assert!(r.is_ok());
}

#[test]
fn recursive_block_counts_down() {
    let (out, _) = run("; = n 5 ; = f BLOCK I < n 2 n ; = n - n 1 + 1 CALL f OUTPUT CALL f");
    assert_eq!(out, "5\n");
}

#[test]
fn string_repetition() {
    let (out, _) = run("OUTPUT * \"ab\" 3");
    assert_eq!(out, "ababab\n");
}

#[test]
fn substring_of_a_string() {
    let (out, _) = run("OUTPUT GET \",,,1,2,3\" 3 3");
    assert_eq!(out, "1,2\n");
}

#[test]
fn sublist_is_dumped_in_list_form() {
    let (out, _) = run("DUMP GET +,1+,2+,3,4 1 2");
    assert_eq!(out, "[2, 3]");
}

#[test]
fn while_loop_counts() {
    let (out, _) = run("; = i 0 ; WHILE < i 3 ; OUTPUT i = i + i 1 OUTPUT \"done\"");
    assert_eq!(out, "0\n1\n2\ndone\n");
}

#[test]
fn quit_carries_its_status() {
    let (out, r) = run("QUIT 7");
    assert_eq!(out, "");
    assert!(matches!(r, Err(Error::Quit(7))));
}

#[test]
fn trailing_backslash_suppresses_newline() {
    let (out, _) = run("; OUTPUT \"a\\\" OUTPUT \"b\"");
    assert_eq!(out, "ab\n");
}

#[test]
fn prompt_reads_lines_then_null() {
    let (out, _) = run_with(
        "; OUTPUT PROMPT DUMP PROMPT",
        Options::lenient(),
        vec![b"hello\r\n".to_vec()],
    );
    assert_eq!(out, "hello\nnull");
}

#[test]
fn undefined_variable_is_an_error() {
    let (_, r) = run("OUTPUT x");
    assert!(matches!(r, Err(Error::UndefinedVariable(0))));
}

#[test]
fn unknown_function_is_a_parse_error() {
    let (_, r) = run("OUTPUT Z 1");
    assert!(matches!(r, Err(Error::Parse(ParseError::UnknownFunction(b'Z')))));
}

#[test]
fn missing_argument_is_a_parse_error() {
    let (_, r) = run("+ 1");
    assert!(matches!(r, Err(Error::Parse(ParseError::MissingExpression))));
}

#[test]
fn unterminated_string_is_a_parse_error() {
    let (_, r) = run("OUTPUT \"abc");
    assert!(matches!(r, Err(Error::Parse(ParseError::UnterminatedString))));
}

#[test]
fn trailing_tokens_rejected_when_asked() {
    let mut opts = Options::lenient();
    opts.compliance.forbid_trailing_tokens = true;
    let (_, r) = run_with("1 2", opts, Vec::new());
    assert!(matches!(r, Err(Error::Parse(ParseError::TrailingTokens))));
    let (_, r) = run("1 2");
    assert!(matches!(r, Ok(Stop::Finished(Value::Integer(1)))));
}

#[test]
fn strict_mode_overflow_is_an_error() {
    let mut opts = Options::lenient();
    opts.compliance = Compliance::strict();
    let (_, r) = run_with("* 100000 100000", opts, Vec::new());
    assert!(matches!(r, Err(Error::IntegerOverflow)));
}

#[test]
fn lenient_mode_wraps() {
    let (_, r) = run("+ 9223372036854775807 1");
    assert!(matches!(r, Ok(Stop::Finished(Value::Integer(i64::MIN)))));
}

#[test]
fn division_by_zero_is_an_error() {
    let (_, r) = run("/ 1 0");
    assert!(matches!(r, Err(Error::DivisionByZero)));
}

#[test]
fn empty_head_is_a_domain_error() {
    let (_, r) = run("[ \"\"");
    assert!(matches!(r, Err(Error::Domain(Domain::EmptyHead))));
}

#[test]
fn get_past_the_end_is_out_of_bounds() {
    let (_, r) = run("GET \"abc\" 2 5");
    assert!(matches!(r, Err(Error::IndexOutOfBounds { len: 3, index: 2 })));
}

#[test]
fn set_replaces_a_range() {
    let (out, _) = run("OUTPUT SET \"abcdef\" 1 2 \"XYZ\"");
    assert_eq!(out, "aXYZdef\n");
    let (out, _) = run("DUMP SET +,1+,2,3 1 0 ,9");
    assert_eq!(out, "[1, 9, 2, 3]");
}

#[test]
fn list_join_and_length() {
    let (out, _) = run("; OUTPUT ^ +,1+,2,3 \"-\" OUTPUT LENGTH +,1+,2,3");
    assert_eq!(out, "1-2-3\n3\n");
}

#[test]
fn comparisons_and_equality() {
    let (out, _) = run("; DUMP < \"abc\" \"abd\" ; DUMP > 3 \"2\" ; DUMP ? +,1,2 +,1,2 DUMP ? 1 \"1\"");
    assert_eq!(out, "truetruetruefalse");
}

#[test]
fn ascii_both_ways() {
    let (out, _) = run("; OUTPUT ASCII 65 OUTPUT ASCII \"a\"");
    assert_eq!(out, "A\n97\n");
}

#[test]
fn and_or_short_circuit() {
    let (out, _) = run("; DUMP & 0 QUIT 1 DUMP | 2 QUIT 1");
    assert_eq!(out, "02");
}

#[test]
fn dump_escapes_strings() {
    let (out, _) = run("DUMP 'a\"b\\'");
    assert_eq!(out, "\"a\\\"b\\\\\"");
}

#[test]
fn comments_and_parentheses_are_skipped() {
    let (out, _) = run("# comment\n(OUTPUT (+ 1 (* 2 3)))");
    assert_eq!(out, "7\n");
}

#[test]
fn compiling_twice_gives_the_same_program() {
    let src = "; = a 3 ; = b BLOCK + a 1 ; OUTPUT \"x\" OUTPUT + CALL b \"x\"";
    let opts = Options::lenient();
    let p = compile(src.as_bytes().to_vec(), &opts).unwrap();
    let q = compile(src.as_bytes().to_vec(), &opts).unwrap();
    assert_eq!(p.code, q.code);
    assert_eq!(p.constants.len(), q.constants.len());
    for i in 0..p.constants.len() {
        assert!(equals(&p.constants[i], &q.constants[i]));
    }
    assert_eq!(p.variables, q.variables);
}

#[test]
fn variable_indices_are_dense() {
    let opts = Options::lenient();
    let p = compile(b"; = b 1 ; = a 2 ; = b + a b OUTPUT a".to_vec(), &opts).unwrap();
    assert_eq!(p.variables, vec![b"b".to_vec(), b"a".to_vec()]);
    let mut seen = vec![false; p.variables.len()];
    for w in &p.code {
        let (op, offset) = knight::program::decode(*w).unwrap();
        if op == knight::program::Opcode::GetVar || op == knight::program::Opcode::SetVar {
            seen[offset as usize] = true;
        }
    }
    assert!(seen.iter().all(|s| *s));
}

#[test]
fn constants_are_shared() {
    let opts = Options::lenient();
    let p = compile(b"+ + 7 7 \"x\" \"x\"".to_vec(), &opts).unwrap();
    assert_eq!(p.constants.len(), 2);
}

#[test]
fn block_names_are_recorded() {
    let opts = Options::lenient();
    let p = compile(b"; = f BLOCK 1 CALL f".to_vec(), &opts).unwrap();
    assert_eq!(p.block_names.len(), 1);
    assert_eq!(p.block_names[0].1, b"f".to_vec());
}

#[test]
fn block_that_never_lowers_its_variable_keeps_recursing() {
    let (out, r) = run("; = n 10 ; = f BLOCK I < n 2 n + (CALL f) - n 1 : ; = n 5 OUTPUT CALL f");
    assert_eq!(out, "");
    assert!(matches!(r, Ok(Stop::OutOfSteps)));
}

#[test]
fn substring_from_index_four() {
    let (out, _) = run("OUTPUT GET \",,,1,2,3\" 4 3");
    assert_eq!(out, ",2,\n");
}
