use stack_calc::error::VmError;
use stack_calc::lexer::lex_line;
use stack_calc::token::Token;
use stack_calc::vm::{Output, VirtualMachine};

fn lex_ok(line: &str) -> Vec<Token> {
    lex_line(line).expect("line should lex")
}

fn run(vm: &mut VirtualMachine, line: &str) -> Result<Vec<Output>, VmError> {
    let mut outputs = Vec::new();
    for token in lex_ok(line) {
        outputs.push(vm.interpret(token)?);
    }
    Ok(outputs)
}

#[test]
fn lex_round_trip_canonical() {
    // A line of canonical tokens separated by single spaces lexes to exactly
    // those tokens; re-rendered, each token gives back its substring.
    let tokens = lex_ok("+ - = @ x 10");
    assert_eq!(
        tokens,
        vec![
            Token::Add,
            Token::Subtract,
            Token::Assign,
            Token::Print,
            Token::Name("x".to_string()),
            Token::Number(10),
        ]
    );
}

#[test]
fn lex_empty_line_yields_no_tokens() {
    assert_eq!(lex_ok(""), vec![]);
    assert_eq!(lex_ok("   \t  "), vec![]);
}

#[test]
fn lex_splits_on_any_whitespace_run() {
    let tokens = lex_ok("5  \t 3\n");
    assert_eq!(tokens, vec![Token::Number(5), Token::Number(3)]);
}

#[test]
fn lex_classifies_by_first_character() {
    // Classification looks only at the first character of a word.
    assert_eq!(lex_ok("+zzz"), vec![Token::Add]);
    assert_eq!(lex_ok("-7"), vec![Token::Subtract]);
    assert_eq!(lex_ok("abc"), vec![Token::Name("abc".to_string())]);
}

#[test]
fn lex_unrecognized_character_is_syntax_error() {
    assert_eq!(lex_line("?"), Err(VmError::SyntaxError));
    assert_eq!(lex_line("Z"), Err(VmError::SyntaxError));
    assert_eq!(lex_line("5 3 ?"), Err(VmError::SyntaxError));
}

#[test]
fn lex_number_with_trailing_garbage_is_syntax_error() {
    assert_eq!(lex_line("1a"), Err(VmError::SyntaxError));
}

#[test]
fn lex_number_at_i64_bounds() {
    assert_eq!(
        lex_ok("9223372036854775807"),
        vec![Token::Number(i64::MAX)]
    );
    // One past i64::MAX does not parse.
    assert_eq!(lex_line("9223372036854775808"), Err(VmError::SyntaxError));
}

#[test]
fn stack_is_lifo() {
    // Pushing Number(1) then Number(2) and resolving twice yields 2 then 1.
    let mut vm = VirtualMachine::new();
    assert_eq!(vm.interpret(Token::Number(1)), Ok(Output::Silent));
    assert_eq!(vm.interpret(Token::Number(2)), Ok(Output::Silent));
    assert_eq!(vm.get_value_from_stack(), Ok(2));
    assert_eq!(vm.get_value_from_stack(), Ok(1));
}

#[test]
fn subtraction_order_is_conventional_rpn() {
    // `5 3 -` leaves 5 - 3 = 2, not -2.
    let mut vm = VirtualMachine::new();
    let outputs = run(&mut vm, "5 3 - @").expect("line should run");
    assert_eq!(
        outputs,
        vec![
            Output::Silent,
            Output::Silent,
            Output::Silent,
            Output::TopValue(2),
        ]
    );
}

#[test]
fn addition_sums_the_two_operands() {
    let mut vm = VirtualMachine::new();
    let outputs = run(&mut vm, "5 3 + @").expect("line should run");
    assert_eq!(*outputs.last().unwrap(), Output::TopValue(8));
}

#[test]
fn assignment_and_recall() {
    // The assignment target is popped first, so the name goes on top:
    // `10 x =` stores 10 under x, and `x @` prints it.
    let mut vm = VirtualMachine::new();
    run(&mut vm, "10 x =").expect("assignment should run");
    let outputs = run(&mut vm, "x @").expect("recall should run");
    assert_eq!(*outputs.last().unwrap(), Output::TopValue(10));
}

#[test]
fn assignment_target_must_be_a_name() {
    // With the number on top (`x 10 =`), Assign pops Number(10) as its
    // target and fails.
    let mut vm = VirtualMachine::new();
    assert_eq!(run(&mut vm, "x 10 ="), Err(VmError::SyntaxError));
}

#[test]
fn assignment_overwrites_prior_value() {
    let mut vm = VirtualMachine::new();
    run(&mut vm, "1 x =").expect("first assignment should run");
    run(&mut vm, "2 x =").expect("second assignment should run");
    assert_eq!(vm.get_value("x".to_string()), Ok(2));
}

#[test]
fn undefined_variable_error_names_the_variable() {
    // `y @` with y never assigned fails, and the error carries `y`.
    let mut vm = VirtualMachine::new();
    assert_eq!(
        run(&mut vm, "y @"),
        Err(VmError::UndefinedVariable("y".to_string()))
    );
}

#[test]
fn get_value_reports_the_missing_name() {
    let vm = VirtualMachine::new();
    assert_eq!(
        vm.get_value("nope".to_string()),
        Err(VmError::UndefinedVariable("nope".to_string()))
    );
}

#[test]
fn print_on_empty_stack_is_non_fatal() {
    // `@` on a fresh interpreter reports the empty-stack notice and the
    // interpreter stays usable.
    let mut vm = VirtualMachine::new();
    assert_eq!(vm.interpret(Token::Print), Ok(Output::EmptyNotice));
    let outputs = run(&mut vm, "1 @").expect("line should run");
    assert_eq!(*outputs.last().unwrap(), Output::TopValue(1));
}

#[test]
fn print_is_destructive() {
    // `7 @ @`: the first print pops the 7, the second finds nothing.
    let mut vm = VirtualMachine::new();
    let outputs = run(&mut vm, "7 @ @").expect("line should run");
    assert_eq!(
        outputs,
        vec![Output::Silent, Output::TopValue(7), Output::EmptyNotice]
    );
}

#[test]
fn operator_on_empty_stack_is_stack_underflow() {
    // `+` on an empty stack raises a syntax error.
    let mut vm = VirtualMachine::new();
    assert_eq!(vm.interpret(Token::Add), Err(VmError::SyntaxError));
}

#[test]
fn operator_with_one_operand_underflows() {
    let mut vm = VirtualMachine::new();
    assert_eq!(run(&mut vm, "5 -"), Err(VmError::SyntaxError));
}

#[test]
fn names_resolve_through_the_variable_table() {
    let mut vm = VirtualMachine::new();
    run(&mut vm, "7 a = 3 b =").expect("assignments should run");
    let outputs = run(&mut vm, "a b - @").expect("line should run");
    assert_eq!(*outputs.last().unwrap(), Output::TopValue(4));
}

#[test]
fn addition_wraps_at_the_i64_boundary() {
    let mut vm = VirtualMachine::new();
    run(&mut vm, "9223372036854775807 1 +").expect("line should run");
    assert_eq!(vm.get_value_from_stack(), Ok(i64::MIN));
}

#[test]
fn variables_persist_across_lines() {
    let mut vm = VirtualMachine::new();
    run(&mut vm, "41 x =").expect("assignment should run");
    let outputs = run(&mut vm, "x 1 + @").expect("line should run");
    assert_eq!(*outputs.last().unwrap(), Output::TopValue(42));
}
