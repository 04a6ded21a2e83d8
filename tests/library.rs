use knight::compiler::compile;
use knight::convert::{int_to_text, nat_to_text, text_to_int};
use knight::error::{Domain, Error, Kind, NewTextError, ParseError};
use knight::gc::{Cell, Heap, Payload};
use knight::integer::{add, divide, multiply, negate, new_integer, power_of, remainder, subtract};
use knight::options::{Compliance, Encoding, Options};
use knight::packed;
use knight::program::{decode, encode, Opcode, Program};
use knight::string::{is_valid, validate, KString};
use knight::value::{equals, List, Value};
use knight::variable::{validate_name, IllegalVariableName, Variable};
use knight::vm::{Event, Stop, Vm};

fn lenient() -> Options {
    Options::lenient()
}

fn strict() -> Options {
    let mut o = Options::lenient();
    o.compliance = Compliance::strict();
    o
}

fn ks(s: &str) -> KString {
    KString::new_unvalidated(s.as_bytes().to_vec())
}

fn text(k: &KString) -> String {
    String::from_utf8(k.as_bytes().clone()).unwrap()
}

fn int_list(xs: &[i64]) -> List {
    List::new(xs.iter().map(|x| Value::Integer(*x)).collect(), &lenient()).unwrap()
}

#[test]
fn integer_arithmetic_exact_values() {
    let o = lenient();
    assert_eq!(add(2, 3, &o), Ok(5));
    assert_eq!(subtract(2, 3, &o), Ok(-1));
    assert_eq!(multiply(-4, 3, &o), Ok(-12));
    assert_eq!(divide(-7, 2, &o), Ok(-3));
    assert_eq!(remainder(-7, 2, &o), Ok(-1));
    assert_eq!(power_of(3, 4, &o), Ok(81));
    assert_eq!(negate(5, &o), Ok(-5));
}

#[test]
fn integer_wraps_without_checks() {
    let o = lenient();
    assert_eq!(add(i64::MAX, 1, &o), Ok(i64::MIN));
    assert_eq!(subtract(i64::MIN, 1, &o), Ok(i64::MAX));
    assert_eq!(multiply(i64::MAX, 2, &o), Ok(-2));
    assert_eq!(negate(i64::MIN, &o), Ok(i64::MIN));
    assert_eq!(divide(i64::MIN, -1, &o), Ok(i64::MIN));
    assert_eq!(power_of(2, 64, &o), Ok(0));
    assert_eq!(power_of(3, 41, &o), Ok(3i64.wrapping_pow(41)));
}

#[test]
fn integer_overflow_is_checked_when_asked() {
    let o = strict();
    assert_eq!(add(i32::MAX as i64, 1, &o), Err(Error::IntegerOverflow));
    assert_eq!(multiply(70000, 70000, &o), Err(Error::IntegerOverflow));
    assert_eq!(power_of(2, 40, &o), Err(Error::IntegerOverflow));
    assert_eq!(new_integer(1 << 40, &o), Err(Error::IntegerOverflow));
    assert_eq!(add(1, 2, &o), Ok(3));
}

#[test]
fn integer_zero_divisors_and_bounds() {
    assert_eq!(divide(1, 0, &lenient()), Err(Error::DivisionByZero));
    assert_eq!(remainder(1, 0, &lenient()), Err(Error::DivisionByZero));
    assert_eq!(remainder(-3, 2, &strict()), Err(Error::Domain(Domain::NegativeModulusBase)));
    assert_eq!(power_of(2, -1, &strict()), Err(Error::Domain(Domain::NegativeExponent)));
    assert_eq!(power_of(0, -1, &lenient()), Err(Error::DivisionByZero));
    assert_eq!(power_of(-1, -3, &lenient()), Ok(-1));
    assert_eq!(power_of(1, -3, &lenient()), Ok(1));
    assert_eq!(power_of(5, -3, &lenient()), Ok(0));
}

#[test]
fn integer_text_round_trip() {
    for i in [0i64, 7, -7, 1234567890, i64::MAX, i64::MIN] {
        let t = int_to_text(i);
        assert_eq!(text(&t), i.to_string());
        assert_eq!(text_to_int(&t, &lenient()), Ok(i));
    }
    assert_eq!(text(&nat_to_text(u64::MAX)), u64::MAX.to_string());
}

#[test]
fn string_to_integer_reads_a_prefix() {
    let o = lenient();
    assert_eq!(text_to_int(&ks("  \t-42abc"), &o), Ok(-42));
    assert_eq!(text_to_int(&ks("+17"), &o), Ok(17));
    assert_eq!(text_to_int(&ks("abc"), &o), Ok(0));
    assert_eq!(text_to_int(&ks(""), &o), Ok(0));
    assert_eq!(text_to_int(&ks("99999999999999999999"), &strict()), Err(Error::IntegerOverflow));
}

#[test]
fn string_concat_and_repeat() {
    let o = lenient();
    let a = ks("ab");
    let b = ks("cd");
    assert_eq!(text(&a.concat(&b, &o).unwrap()), "abcd");
    assert_eq!(text(&a.repeat(3, &o).unwrap()), "ababab");
    assert_eq!(text(&a.repeat(0, &o).unwrap()), "");
    assert_eq!(text(&a.repeat(1, &o).unwrap()), "ab");
    let ab3 = a.repeat(3, &o).unwrap();
    assert_eq!(text(&ab3.repeat(2, &o).unwrap()), text(&a.repeat(6, &o).unwrap()));
    let c = ks("ef");
    let left = a.concat(&b, &o).unwrap().concat(&c, &o).unwrap();
    let right = a.concat(&b.concat(&c, &o).unwrap(), &o).unwrap();
    assert_eq!(text(&left), text(&right));
    assert_eq!(left.len(), a.len() + b.len() + c.len());
}

#[test]
fn string_too_long_is_refused() {
    let o = strict();
    let a = ks("ab");
    assert!(matches!(a.repeat(usize::MAX / 2, &o), Err(Error::Text(NewTextError::TooLong))));
    assert!(matches!(a.repeat(2_000_000_000, &o), Err(Error::Text(NewTextError::TooLong))));
}

#[test]
fn string_slices_and_ends() {
    let s = ks("hello");
    assert_eq!(text(&s.get(1, 3).unwrap()), "ell");
    assert!(matches!(s.get(4, 2), Err(Error::IndexOutOfBounds { len: 5, index: 4 })));
    assert_eq!(text(&s.head().unwrap()), "h");
    assert_eq!(text(&s.tail().unwrap()), "ello");
    assert!(matches!(ks("").head(), Err(Error::Domain(Domain::EmptyHead))));
    assert!(matches!(ks("").tail(), Err(Error::Domain(Domain::EmptyTail))));
    assert_eq!(s.ord(), Ok(104));
    assert_eq!(ks("").ord(), Err(Error::Domain(Domain::EmptyAscii)));
}

#[test]
fn chr_checks_the_encoding() {
    let mut o = lenient();
    assert_eq!(text(&KString::chr(65, &o).unwrap()), "A");
    assert!(matches!(KString::chr(300, &o), Err(Error::Domain(Domain::NotAChar))));
    o.encoding = Encoding::Knight;
    assert!(matches!(KString::chr(1, &o), Err(Error::Text(NewTextError::IllegalByte(1)))));
}

#[test]
fn encodings_accept_their_bytes() {
    assert!(is_valid(b'a', Encoding::Knight));
    assert!(!is_valid(0x7f, Encoding::Knight));
    assert!(is_valid(0x7f, Encoding::Ascii));
    assert!(!is_valid(0x80, Encoding::Ascii));
    assert!(is_valid(0xff, Encoding::Utf8));
    let mut o = lenient();
    o.encoding = Encoding::Ascii;
    assert_eq!(validate(&vec![b'a', 0x90, 0xa0], &o), Err(NewTextError::IllegalByte(0x90)));
    assert_eq!(validate(&b"fine".to_vec(), &o), Ok(()));
    assert!(KString::new(vec![0x90], &o).is_err());
}

#[test]
fn remove_substr_takes_the_first() {
    assert_eq!(text(&ks("abcabc").remove_substr(&ks("bc"))), "aabc");
    assert_eq!(text(&ks("abc").remove_substr(&ks("x"))), "abc");
    assert_eq!(text(&ks("abc").remove_substr(&ks(""))), "abc");
}

#[test]
fn list_operations() {
    let o = lenient();
    let a = int_list(&[1, 2]);
    let b = int_list(&[3]);
    let ab = a.concat(&b, &o).unwrap();
    assert_eq!(ab.len(), 3);
    assert!(matches!(ab.get(2), Some(Value::Integer(3))));
    assert!(ab.get(3).is_none());
    let rep = a.repeat(3, &o).unwrap();
    assert_eq!(rep.len(), 6);
    assert!(equals(&Value::List(a.repeat(0, &o).unwrap()), &Value::List(List::empty())));
    let sub = ab.sublist(1, 2).unwrap();
    assert!(equals(&Value::List(sub), &Value::List(int_list(&[2, 3]))));
    assert!(matches!(ab.sublist(2, 2), Err(Error::IndexOutOfBounds { len: 3, index: 2 })));
    assert!(matches!(ab.head(), Ok(Value::Integer(1))));
    assert!(matches!(List::empty().head(), Err(Error::Domain(Domain::EmptyHead))));
    assert_eq!(ab.tail().unwrap().len(), 2);
    assert!(ab.contains(&Value::Integer(3)));
    assert!(!ab.contains(&Value::Integer(4)));
    let diff = ab.difference(&int_list(&[2]));
    assert!(equals(&Value::List(diff), &Value::List(int_list(&[1, 3]))));
    let spliced = ab.splice(1, 1, &int_list(&[8, 9]), &o).unwrap();
    assert!(equals(&Value::List(spliced), &Value::List(int_list(&[1, 8, 9, 3]))));
    assert_eq!(ab.iter().len(), 3);
    let boxed = List::boxed(Value::Null);
    assert_eq!(boxed.len(), 1);
    assert!(!boxed.is_empty());
}

#[test]
fn list_join_uses_each_text() {
    let o = lenient();
    let l = List::new(vec![Value::Integer(1), Value::Str(ks("a")), Value::Boolean(true), Value::Null], &o).unwrap();
    assert_eq!(text(&l.join(&ks(", "), &o).unwrap()), "1, a, true, null");
    let with_block = List::new(vec![Value::Block(0)], &o).unwrap();
    assert!(with_block.join(&ks(""), &o).is_err());
}

#[test]
fn concatenated_list_equals_flat_list() {
    let o = lenient();
    let joined = int_list(&[1, 2]).concat(&int_list(&[3, 4]), &o).unwrap();
    let flat = int_list(&[1, 2, 3, 4]);
    assert!(equals(&Value::List(joined.clone()), &Value::List(flat)));
    assert!(!equals(&Value::List(joined), &Value::List(int_list(&[1, 2, 3]))));
}

#[test]
fn list_too_large_is_refused() {
    let o = strict();
    let l = int_list(&[1, 2]);
    assert!(matches!(l.repeat(2_000_000_000, &o), Err(Error::ListTooLarge)));
}

#[test]
fn value_coercions() {
    let o = lenient();
    assert_eq!(Value::Str(ks("12x")).to_integer(&o), Ok(12));
    assert_eq!(Value::Boolean(true).to_integer(&o), Ok(1));
    assert_eq!(Value::List(int_list(&[5, 6])).to_integer(&o), Ok(2));
    assert_eq!(Value::Null.to_bool(&o), Ok(false));
    assert_eq!(Value::Str(ks("")).to_bool(&o), Ok(false));
    assert_eq!(Value::Integer(3).to_bool(&o), Ok(true));
    assert_eq!(text(&Value::Integer(-15).to_knstr(&o).unwrap()), "-15");
    assert_eq!(text(&Value::List(int_list(&[1, 2])).to_knstr(&o).unwrap()), "1\n2");
    let digits = Value::Integer(-12).to_array(&o).unwrap();
    assert!(equals(&Value::List(digits), &Value::List(int_list(&[-1, -2]))));
    let chars = Value::Str(ks("ab")).to_array(&o).unwrap();
    assert_eq!(chars.len(), 2);
    assert_eq!(Value::Block(3).to_integer(&o), Err(Error::Conversion { from: Kind::Block, to: Kind::Integer }));
    assert!(Value::Block(3).to_knstr(&o).is_err());
    assert!(matches!(Value::Block(3).to_array(&o), Err(Error::Conversion { from: Kind::Block, to: Kind::List })));
    let mut no_blocks = lenient();
    no_blocks.compliance.no_block_conversions = true;
    assert_eq!(Value::Block(3).to_bool(&no_blocks), Err(Error::Conversion { from: Kind::Block, to: Kind::Boolean }));
    let mut no_neg = lenient();
    no_neg.compliance.disallow_negative_int_to_list = true;
    assert!(matches!(Value::Integer(-1).to_array(&no_neg), Err(Error::Domain(Domain::NegativeToList))));
}

#[test]
fn value_classifiers() {
    assert!(Value::Null.is_null());
    assert_eq!(Value::Integer(4).as_integer(), Some(4));
    assert_eq!(Value::Boolean(false).as_boolean(), Some(false));
    assert_eq!(Value::Block(9).as_block(), Some(9));
    assert_eq!(Value::Null.as_integer(), None);
    assert_eq!(Value::Integer(1).typename(), "Integer");
    assert_eq!(Value::Str(ks("")).kind(), Kind::String);
}

#[test]
fn operators_on_values() {
    let o = lenient();
    let r = Value::Str(ks("ab")).kn_plus(&Value::Integer(1), &o).unwrap();
    assert!(equals(&r, &Value::Str(ks("ab1"))));
    assert!(matches!(Value::Null.kn_plus(&Value::Integer(1), &o), Err(Error::TypeError { kind: Kind::Null, op: Opcode::Add })));
    let r = Value::List(int_list(&[1])).kn_asterisk(&Value::Integer(2), &o).unwrap();
    assert!(equals(&r, &Value::List(int_list(&[1, 1]))));
    assert!(matches!(Value::Str(ks("a")).kn_asterisk(&Value::Integer(-1), &o), Err(Error::Domain(Domain::NegativeRepeat))));
    assert_eq!(Value::Integer(1).kn_compare(&Value::Str(ks("2")), &o), Ok(-1));
    assert_eq!(Value::List(int_list(&[1, 2])).kn_compare(&Value::List(int_list(&[1])), &o), Ok(1));
    assert!(matches!(Value::Str(ks("abc")).kn_get(&Value::Integer(-1), &Value::Integer(1), &o), Err(Error::Domain(Domain::NegativeStart))));
    let mut neg = lenient();
    neg.extensions.negative_indexing = true;
    let r = Value::Str(ks("abc")).kn_get(&Value::Integer(-1), &Value::Integer(1), &neg).unwrap();
    assert!(equals(&r, &Value::Str(ks("c"))));
    assert!(matches!(Value::Str(ks("abc")).kn_get(&Value::Integer(0), &Value::Integer(-1), &o), Err(Error::Domain(Domain::NegativeLength))));
    let mut eq = lenient();
    eq.compliance.check_equals_params = true;
    assert!(matches!(Value::Block(1).kn_equals(&Value::Block(1), &eq), Err(Error::TypeError { kind: Kind::Block, op: Opcode::Eql })));
    let mut out = Vec::new();
    let mut sb = lenient();
    sb.compliance.strict_blocks = true;
    assert!(Value::Block(1).dump_into(&mut out, &sb).is_err());
    Value::Block(4).dump_into(&mut out, &o).unwrap();
    assert_eq!(out, b"Block(4)".to_vec());
}

#[test]
fn instruction_words_round_trip() {
    for op in [Opcode::PushConstant, Opcode::Jump, Opcode::Splice, Opcode::Add] {
        let w = encode(op, 1234);
        assert_eq!(w & 0xff, op.code() as u64);
        assert_eq!(decode(w), Some((op, 1234)));
    }
    assert_eq!(decode(255), None);
    assert_eq!(Opcode::Splice.arity(), 4);
    assert_eq!(Opcode::Get.arity(), 3);
    assert_eq!(Opcode::from_code(22), Some(Opcode::Add));
}

#[test]
fn malformed_program_is_reported() {
    let program = Program {
        code: vec![encode(Opcode::Pop, 0), encode(Opcode::Return, 0)],
        constants: Vec::new(),
        variables: Vec::new(),
        block_names: Vec::new(),
    };
    let mut vm = Vm::new(program, lenient());
    assert!(matches!(vm.step(), Err(Error::MalformedProgram)));
}

#[test]
fn step_by_step_events() {
    let program = compile(b"OUTPUT 1".to_vec(), &lenient()).unwrap();
    assert_eq!(program.num_variables(), 0);
    let mut vm = Vm::new(program, lenient());
    assert!(matches!(vm.step(), Ok(Event::Running)));
    match vm.step() {
        Ok(Event::Output(bytes)) => assert_eq!(bytes, b"1\n".to_vec()),
        _ => panic!("expected output"),
    }
    assert!(matches!(vm.step(), Ok(Event::Finished(Value::Null))));
}

#[test]
fn random_respects_the_range_limit() {
    let mut o = lenient();
    o.compliance.limit_rand_range = true;
    for _ in 0..20 {
        let program = compile(b"RANDOM".to_vec(), &o).unwrap();
        let mut vm = Vm::new(program, o);
        let mut out = Vec::new();
        match vm.run(10, &Vec::new(), &mut out) {
            Ok(Stop::Finished(Value::Integer(i))) => assert!((0..=32767).contains(&i)),
            _ => panic!("expected an integer"),
        }
    }
}

#[test]
fn quit_status_checked_when_asked() {
    let program = compile(b"QUIT 300".to_vec(), &strict()).unwrap();
    let mut vm = Vm::new(program, strict());
    let mut out = Vec::new();
    assert!(matches!(vm.run(10, &Vec::new(), &mut out), Err(Error::Domain(Domain::QuitStatus))));
}

#[test]
fn parse_errors() {
    let o = lenient();
    assert!(matches!(compile(b"= 1 2".to_vec(), &o), Err(Error::Parse(ParseError::AssignToNonVariable))));
    assert!(matches!(compile(b"OUTPUT `".to_vec(), &o), Err(Error::Parse(ParseError::UnknownFunction(b'`')))));
    assert!(matches!(compile(b"99999999999999999999".to_vec(), &o), Err(Error::Parse(ParseError::IntegerLiteralTooLarge))));
    let mut parens = lenient();
    parens.check_parens = true;
    assert!(matches!(compile(b"(+ 1 2".to_vec(), &parens), Err(Error::Parse(ParseError::UnbalancedParens))));
    assert!(matches!(compile(b") 1".to_vec(), &parens), Err(Error::Parse(ParseError::UnbalancedParens))));
    let long = format!("= {} 1", "a".repeat(200));
    assert!(matches!(compile(long.clone().into_bytes(), &strict()), Err(Error::Parse(ParseError::VariableNameTooLong))));
    assert!(compile(long.into_bytes(), &o).is_ok());
    let mut knight_bytes = lenient();
    knight_bytes.encoding = Encoding::Knight;
    assert!(matches!(compile(b"\"a\x01\"".to_vec(), &knight_bytes), Err(Error::Parse(ParseError::IllegalByte(1)))));
}

#[test]
fn variable_names_are_validated() {
    let o = strict();
    assert_eq!(validate_name(&b"abc_1".to_vec(), &o), Ok(()));
    assert_eq!(validate_name(&Vec::new(), &o), Err(IllegalVariableName::Empty));
    assert_eq!(validate_name(&b"1a".to_vec(), &o), Err(IllegalVariableName::IllegalStartingChar(b'1')));
    assert_eq!(validate_name(&b"aB".to_vec(), &o), Err(IllegalVariableName::IllegalBodyChar(b'B')));
    assert_eq!(validate_name(&vec![b'a'; 128], &o), Err(IllegalVariableName::TooLong(128)));
    assert_eq!(validate_name(&vec![b'a'; 128], &lenient()), Ok(()));
    assert_eq!(validate_name(&Vec::new(), &lenient()), Ok(()));
    assert_eq!(validate_name(&b"A b".to_vec(), &lenient()), Ok(()));
    let mut v = Variable::new(b"x".to_vec(), &o).unwrap();
    assert_eq!(v.name(), &b"x".to_vec());
    assert!(v.fetch().is_none());
    assert!(v.assign(Value::Integer(3)).is_none());
    assert!(matches!(v.fetch(), Some(Value::Integer(3))));
    assert!(matches!(v.assign(Value::Null), Some(Value::Integer(3))));
    assert!(Variable::new(b"X".to_vec(), &o).is_err());
}

#[test]
fn packed_words() {
    assert!(packed::Value::null().is_null());
    assert_eq!(packed::Value::null().bits(), 0);
    for i in [0i64, 1, -1, packed::MAX_INT, packed::MIN_INT] {
        let w = packed::Value::from_integer(i);
        assert_eq!(w.bits() & 1, 1);
        assert_eq!(w.as_integer(), Some(i));
        assert_eq!(w.as_boolean(), None);
    }
    assert_eq!(packed::Value::from_boolean(true).as_boolean(), Some(true));
    assert_eq!(packed::Value::from_boolean(false).bits() & 0b111, 0b010);
    let b = packed::Value::from_block(77);
    assert_eq!(b.bits() & 0b111, 0b100);
    assert_eq!(b.as_block(), Some(77));
    assert_eq!(b.as_cell(), None);
    let c = packed::Value::from_cell(5);
    assert_eq!(c.bits() & 0b111, 0);
    assert_eq!(c.as_cell(), Some(5));
    assert_eq!(c.as_integer(), None);
}

#[test]
fn collection_keeps_what_is_reachable() {
    let mut heap = Heap::new();
    let s = heap.allocate(Payload::Str(b"kept".to_vec()), false).unwrap();
    let garbage = heap.allocate(Payload::Str(b"garbage".to_vec()), false).unwrap();
    let constant = heap.allocate(Payload::Str(b"constant".to_vec()), true).unwrap();
    let list = heap.allocate(Payload::List(vec![s, packed::Value::from_integer(3)]), false).unwrap();
    heap.collect(&vec![list]);
    assert_eq!(heap.string_at(s), Some(&b"kept".to_vec()));
    assert_eq!(heap.string_at(garbage), None);
    assert_eq!(heap.string_at(constant), Some(&b"constant".to_vec()));
    let reused = heap.allocate(Payload::Str(b"new".to_vec()), false).unwrap();
    assert_eq!(reused.as_cell(), garbage.as_cell());
    heap.collect(&Vec::new());
    assert_eq!(heap.string_at(s), None);
    assert_eq!(heap.string_at(constant), Some(&b"constant".to_vec()));
    let _ = Cell { payload: Payload::Free, is_static: false };
}

#[test]
fn errors_carry_the_call_chain() {
    let o = lenient();
    let program = compile(b"; = f BLOCK / 1 0 CALL f".to_vec(), &o).unwrap();
    let mut vm = Vm::new(program, o);
    let mut out = Vec::new();
    let err = vm.run(100, &Vec::new(), &mut out).err().unwrap();
    assert_eq!(err, Error::DivisionByZero);
    let trace = vm.trace(err);
    assert_eq!(trace.err, Error::DivisionByZero);
    assert_eq!(trace.callstack.len(), 2);
    let inner = trace.callstack[1];
    assert_eq!(vm.block_name_at(inner), Some(&b"f".to_vec()));
    assert_eq!(vm.block_name_at(0), None);
}

#[test]
fn stored_values_survive_collection() {
    let o = lenient();
    let inner = List::new(vec![Value::Str(ks("x")), Value::Integer(-5)], &o).unwrap();
    let v = Value::List(List::new(vec![Value::List(inner), Value::Boolean(true), Value::Block(3)], &o).unwrap());
    let mut heap = Heap::new();
    let junk = heap.store(&Value::Str(ks("junk")), false).unwrap();
    let w = heap.store(&v, false).unwrap();
    heap.collect(&vec![w]);
    assert_eq!(heap.string_at(junk), None);
    let back = heap.load(w, 8).unwrap();
    assert!(equals(&back, &v));
    assert!(heap.load(w, 1).is_none());
    assert!(heap.store(&Value::Integer(i64::MAX), false).is_none());
}

#[test]
fn thirty_two_bit_arithmetic_wraps_without_checks() {
    let mut o = lenient();
    o.compliance.i32_integer = true;
    assert_eq!(add(i32::MAX as i64, 1, &o), Ok(i32::MIN as i64));
    assert_eq!(multiply(65536, 65536, &o), Ok(0));
    assert_eq!(subtract(i32::MIN as i64, 1, &o), Ok(i32::MAX as i64));
    assert_eq!(new_integer(1 << 40, &o), Ok(0));
    assert_eq!(new_integer(-5, &o), Ok(-5));
    let r = Value::Integer(i32::MAX as i64).kn_plus(&Value::Integer(1), &o).unwrap();
    assert!(matches!(r, Value::Integer(x) if x == i32::MIN as i64));
    o.compliance.check_overflow = true;
    assert_eq!(add(i32::MAX as i64, 1, &o), Err(Error::IntegerOverflow));
}

#[test]
fn difference_drops_repeats() {
    let d = int_list(&[1, 1, 2, 3, 2]).difference(&int_list(&[3]));
    assert!(equals(&Value::List(d), &Value::List(int_list(&[1, 2]))));
    let e = int_list(&[1, 1]).difference(&List::empty());
    assert!(equals(&Value::List(e), &Value::List(int_list(&[1]))));
}

#[test]
fn random_values_follow_the_options() {
    let mut o = lenient();
    assert_eq!(knight::vm::random_value(u32::MAX, &o), u32::MAX as i64);
    o.compliance.i32_integer = true;
    assert_eq!(knight::vm::random_value(u32::MAX, &o), 0x7fff_ffff);
    o.compliance.limit_rand_range = true;
    assert_eq!(knight::vm::random_value(40000, &o), 40000 - 32768);
}

#[test]
fn undefined_variable_name_is_available() {
    let o = lenient();
    let program = compile(b"; = a 1 b".to_vec(), &o).unwrap();
    let mut vm = Vm::new(program, o);
    let mut out = Vec::new();
    let err = vm.run(100, &Vec::new(), &mut out).err().unwrap();
    assert_eq!(err, Error::UndefinedVariable(1));
    assert_eq!(vm.variable_name(1), Some(&b"b".to_vec()));
}

#[test]
fn error_kinds_are_exact() {
    let o = lenient();
    let with_block = Value::List(List::new(vec![Value::Integer(1), Value::Block(0)], &o).unwrap());
    assert_eq!(with_block.to_knstr(&o).err(), Some(Error::Conversion { from: Kind::Block, to: Kind::String }));
    assert!(matches!(Value::Str(ks("a")).kn_plus(&with_block, &o), Err(Error::Conversion { from: Kind::Block, to: Kind::String })));
    assert!(matches!(
        Value::Str(ks("abc")).kn_get(&Value::Integer(5), &Value::Integer(1), &o),
        Err(Error::IndexOutOfBounds { len: 3, index: 3 })
    ));
    let mut knight_bytes = lenient();
    knight_bytes.encoding = Encoding::Knight;
    assert!(matches!(Value::Integer(1).kn_ascii(&knight_bytes), Err(Error::Text(NewTextError::IllegalByte(1)))));
}

#[test]
fn dump_quotes_control_bytes_as_debug_does() {
    let o = lenient();
    let mut out = Vec::new();
    Value::Str(KString::new_unvalidated(vec![b'a', 0, 1, 0x1b, 0x7f, b'\t', b'"'])).dump_into(&mut out, &o).unwrap();
    let expected = format!("{:?}", "a\u{0}\u{1}\u{1b}\u{7f}\t\"");
    assert_eq!(String::from_utf8(out).unwrap(), expected);
}

#[test]
fn repeating_once_skips_the_cap() {
    let mut o = strict();
    o.compliance.check_container_length = true;
    let s = ks("abc");
    assert_eq!(text(&s.repeat(1, &o).unwrap()), "abc");
    assert_eq!(int_list(&[1, 2]).repeat(1, &o).unwrap().len(), 2);
}

#[test]
fn compiled_code_follows_the_layout() {
    let o = lenient();
    let p = compile(b"; 1 2".to_vec(), &o).unwrap();
    let ops: Vec<(Opcode, u64)> = p.code.iter().map(|w| decode(*w).unwrap()).collect();
    assert_eq!(ops, vec![(Opcode::PushConstant, 0), (Opcode::Pop, 0), (Opcode::PushConstant, 1), (Opcode::Return, 0)]);
    let p = compile(b"& 1 2".to_vec(), &o).unwrap();
    let ops: Vec<(Opcode, u64)> = p.code.iter().map(|w| decode(*w).unwrap()).collect();
    assert_eq!(
        ops,
        vec![
            (Opcode::PushConstant, 0),
            (Opcode::Dup, 0),
            (Opcode::JumpIfFalse, 5),
            (Opcode::Pop, 0),
            (Opcode::PushConstant, 1),
            (Opcode::Return, 0)
        ]
    );
    let p = compile(b"WHILE 0 1".to_vec(), &o).unwrap();
    let ops: Vec<(Opcode, u64)> = p.code.iter().map(|w| decode(*w).unwrap()).collect();
    assert_eq!(
        ops,
        vec![
            (Opcode::PushConstant, 0),
            (Opcode::JumpIfFalse, 5),
            (Opcode::PushConstant, 1),
            (Opcode::Pop, 0),
            (Opcode::Jump, 0),
            (Opcode::PushConstant, 2),
            (Opcode::Return, 0)
        ]
    );
}

#[test]
fn machine_roots_survive_collection() {
    let o = lenient();
    let program = compile(b"; = a + \"x\" \"y\" ; = b ,1 +,2,3".to_vec(), &o).unwrap();
    let mut vm = Vm::new(program, o);
    let mut out = Vec::new();
    assert!(matches!(vm.run(100, &Vec::new(), &mut out), Ok(Stop::Finished(_))));
    let mut heap = Heap::new();
    let junk = heap.store(&Value::Str(ks("junk")), false).unwrap();
    let roots = vm.store_roots(&mut heap).unwrap();
    heap.collect(&roots);
    assert_eq!(heap.string_at(junk), None);
    let n = roots.len();
    let a = heap.load(roots[n - 2], 4).unwrap();
    assert!(equals(&a, &Value::Str(ks("xy"))));
    let b = heap.load(roots[n - 1], 4).unwrap();
    assert!(equals(&b, &Value::List(int_list(&[1]))));
}
