use functional_from_zero::interpreter::{
    interpret, reads_input, strip_comments, Report, UndefinedVariable,
};
use functional_from_zero::parser::ErrorType;
use functional_from_zero::runner::Summary;
use functional_from_zero::tokenizer::Location;

#[test]
fn a_program_writes_its_bits() {
    let code = "(__builtin_p0 __builtin_p1 __builtin_p0 __builtin_p0 __builtin_p1 \
                __builtin_p0 __builtin_p0 __builtin_p0 __builtin_p0)";
    match interpret(code, vec![], 100) {
        Report::Ran(mut result) => {
            assert_eq!(result.output, b"H".to_vec());
            assert_eq!(result.unflushed.flush(), None);
            assert_eq!(result.value, Some(Summary::BitOutput { bit: 0 }));
        }
        _ => panic!(),
    }
}

#[test]
fn a_program_copies_a_bit() {
    let code = "((__builtin_g __builtin_p0 __builtin_p1 (\\x x) __builtin_g) __builtin_g)";
    match interpret(code, vec![0x80], 100) {
        Report::Ran(mut result) => assert_eq!(result.unflushed.flush(), Some(0x80)),
        _ => panic!(),
    }
    match interpret(code, vec![0x00], 100) {
        Report::Ran(mut result) => {
            assert_eq!(result.unflushed.flush(), Some(0x00));
            assert_eq!(result.value, Some(Summary::BitInput { stage: 0 }));
        }
        _ => panic!(),
    }
    match interpret(code, vec![], 100) {
        Report::Ran(mut result) => {
            assert_eq!(result.unflushed.flush(), None);
            assert_eq!(result.value, Some(Summary::BitInput { stage: 0 }));
        }
        _ => panic!(),
    }
}

#[test]
fn a_syntax_error_stops_everything() {
    match interpret("(__builtin_p1 __builtin_p1", vec![], 100) {
        Report::Syntax(error) => {
            assert_eq!(error.error_type(), ErrorType::MissingRightParen);
            assert_eq!(error.to_string(), "At line 1, column 1: Missing ) in expression.");
        }
        _ => panic!(),
    }
    assert!(matches!(interpret("", vec![], 100), Report::Syntax(_)));
}

#[test]
fn undefined_variables_stop_everything() {
    match interpret("\\x (y z)", vec![], 100) {
        Report::Undefined(variables) => {
            let found: Vec<(&str, usize, usize)> = variables
                .iter()
                .map(|v| (v.name.as_str(), v.location.line_no, v.location.column_no))
                .collect();
            assert_eq!(found, vec![("y", 1, 5), ("z", 1, 7)]);
        }
        _ => panic!(),
    }
}

#[test]
fn comments_are_emptied() {
    assert_eq!(strip_comments("# c\n(a b)\n"), "\n(a b)\n");
    assert_eq!(strip_comments("a\n  # c\nb"), "a\n\nb\n");
    assert_eq!(strip_comments(" \t#"), "\n");
    assert_eq!(strip_comments("a # no comment"), "a # no comment\n");
    assert_eq!(strip_comments("#a\n#b\n"), "\n\n");
}

#[test]
fn every_line_gets_a_line_feed() {
    assert_eq!(strip_comments(""), "");
    assert_eq!(strip_comments("a"), "a\n");
    assert_eq!(strip_comments("a\n"), "a\n");
    assert_eq!(strip_comments("a\n\nb"), "a\n\nb\n");
    assert_eq!(strip_comments("\n"), "\n");
    assert_eq!(strip_comments("a\r\nb\r\n"), "a\nb\n");
    assert_eq!(strip_comments("a\rb"), "a\rb\n");
    assert_eq!(strip_comments("a\r"), "a\r\n");
}

#[test]
fn a_commented_program_keeps_its_lines() {
    let code = strip_comments("# writes nothing\n\n  (\\x x\n");
    match interpret(&code, vec![], 100) {
        Report::Syntax(error) => {
            assert_eq!(error.error_type(), ErrorType::MissingRightParen);
            assert_eq!(error.location().line_no, 3);
            assert_eq!(error.location().column_no, 3);
        }
        _ => panic!(),
    }
}

#[test]
fn only_a_program_with_the_input_builtin_reads() {
    assert!(reads_input("(__builtin_g __builtin_p0)"));
    assert!(reads_input("\\x (x __builtin_g)"));
    assert!(!reads_input("(__builtin_p0 __builtin_p1)"));
    assert!(!reads_input("(\\__builtin_g __builtin_g)"));
    assert!(!reads_input("(__builtin_g"));
    assert!(!reads_input("(__builtin_g nope)"));
    assert!(!reads_input("__builtin_gg"));
    assert!(!reads_input(""));
}

#[test]
fn an_undefined_variable_in_words() {
    let variable = UndefinedVariable {
        name: "foo".to_string(),
        location: Location { line_no: 3, column_no: 14 },
    };
    assert_eq!(variable.to_string(), "Undefined variable \"foo\" (line 3, column 14)\n");
}

#[test]
fn an_evaluation_that_nests_too_deep_has_no_value() {
    match interpret("((\\x (x x)) (\\x (x x)))", vec![], 30) {
        Report::Ran(result) => assert_eq!(result.value, None),
        _ => panic!(),
    }
}
