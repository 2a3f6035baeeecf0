use unix_shell::eval::{Input, Interrupt, Output, Step};
use unix_shell::execute;
use unix_shell::num::parse_i32;
use unix_shell::run::{Runtime, StepResult};

fn run_to_end(line: &str) -> StepResult {
    let steps = execute(&String::from(line)).unwrap();
    let mut rt = Runtime::new(steps, Input::Stdin, Output::Stdout).unwrap();
    loop {
        match rt.step() {
            StepResult::Running => {},
            other => return other,
        }
    }
}

#[test]
fn exit_with_code_yields_exit() {
    assert!(matches!(
        run_to_end("exit 7"),
        StepResult::Stopped(Interrupt::Exit(7))
    ));
}

#[test]
fn exit_without_code_defaults_to_zero() {
    assert!(matches!(
        run_to_end("exit"),
        StepResult::Stopped(Interrupt::Exit(0))
    ));
}

#[test]
fn exit_with_negative_code() {
    assert!(matches!(
        run_to_end("exit -3"),
        StepResult::Stopped(Interrupt::Exit(-3))
    ));
}

#[test]
fn exit_with_a_word_is_a_syntax_error() {
    assert!(matches!(
        run_to_end("exit abc"),
        StepResult::Stopped(Interrupt::SyntaxError(_))
    ));
}

#[test]
fn exit_with_too_many_arguments_is_a_syntax_error() {
    assert!(matches!(
        run_to_end("exit 1 2"),
        StepResult::Stopped(Interrupt::SyntaxError(_))
    ));
}

#[test]
fn cd_to_a_missing_path_is_an_exec_error() {
    assert!(matches!(
        run_to_end("cd /no/such/directory/anywhere"),
        StepResult::Stopped(Interrupt::ExecError(_))
    ));
}

#[test]
fn cd_to_the_root_succeeds() {
    assert!(matches!(run_to_end("cd /"), StepResult::Done));
}

#[test]
fn cd_without_an_argument_is_a_no_op() {
    let steps = execute(&String::from("cd")).unwrap();
    assert_eq!(steps, vec![]);
}

#[test]
fn cd_with_many_arguments_is_an_external_command() {
    let steps = execute(&String::from("cd a b")).unwrap();
    assert!(matches!(&steps[0], Step::Spawn(args, _, _) if args.len() == 3));
}

#[test]
fn cz_with_no_children_reports_an_error() {
    match run_to_end("cz") {
        StepResult::Stopped(Interrupt::ExecError(msg)) => {
            assert_eq!(msg, "No child process found");
        },
        other => panic!("unexpected outcome {:?}", other),
    }
}

#[test]
fn cz_takes_no_arguments_but_still_reaps() {
    // the word `cz` is dispatched as the built-in whatever follows it
    assert!(matches!(
        run_to_end("cz now"),
        StepResult::Stopped(Interrupt::ExecError(_))
    ));
}

#[test]
fn exit_code_parsing_matches_the_decimal_grammar() {
    assert_eq!(parse_i32(&String::from("0")), Some(0));
    assert_eq!(parse_i32(&String::from("42")), Some(42));
    assert_eq!(parse_i32(&String::from("+42")), Some(42));
    assert_eq!(parse_i32(&String::from("-42")), Some(-42));
    assert_eq!(parse_i32(&String::from("2147483647")), Some(2147483647));
    assert_eq!(parse_i32(&String::from("2147483648")), None);
    assert_eq!(parse_i32(&String::from("-2147483648")), Some(-2147483648));
    assert_eq!(parse_i32(&String::from("-2147483649")), None);
    assert_eq!(parse_i32(&String::from("99999999999999999999")), None);
    assert_eq!(parse_i32(&String::from("")), None);
    assert_eq!(parse_i32(&String::from("+")), None);
    assert_eq!(parse_i32(&String::from("-")), None);
    assert_eq!(parse_i32(&String::from("1a")), None);
    assert_eq!(parse_i32(&String::from(" 1")), None);
}
