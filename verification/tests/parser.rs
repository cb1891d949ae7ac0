use functional_from_zero::parser::{parse, ErrorType, Node};
use functional_from_zero::tokenizer::tokenize;

fn shape(node: &Node) -> String {
    match node {
        Node::Identifier(token) => token.token_raw.to_string(),
        Node::Lambda(argument, body) => format!("(\\{} {})", argument.token_raw, shape(body)),
        Node::Apply(function, argument) => format!("({} {})", shape(function), shape(argument)),
    }
}

fn parsed(code: &str) -> String {
    let tokens = tokenize(code).unwrap();
    let node = parse(&tokens);
    match node {
        Ok(node) => shape(&node),
        Err(error) => panic!("{}", error.to_string()),
    }
}

fn refused(code: &str) -> (ErrorType, usize, usize) {
    let tokens = tokenize(code).unwrap();
    match parse(&tokens) {
        Ok(node) => panic!("{}", shape(&node)),
        Err(error) => (
            error.error_type(),
            error.location().line_no,
            error.location().column_no,
        ),
    }
}

#[test]
fn a_name_is_an_expression() {
    assert_eq!(parsed("x"), "x");
    assert_eq!(parsed("  x \n"), "x");
    assert_eq!(parsed("(x)"), "x");
    assert_eq!(parsed("((x))"), "x");
}

#[test]
fn application_groups_to_the_left() {
    assert_eq!(parsed("a b"), "(a b)");
    assert_eq!(parsed("a b c"), "((a b) c)");
    assert_eq!(parsed("(a b c d)"), "(((a b) c) d)");
    assert_eq!(parsed("a (b c) d"), "((a (b c)) d)");
}

#[test]
fn a_function_body_reaches_as_far_as_it_can() {
    assert_eq!(parsed("\\x x"), "(\\x x)");
    assert_eq!(parsed("\\x x y"), "(\\x (x y))");
    assert_eq!(parsed("(\\x x) y"), "((\\x x) y)");
    assert_eq!(parsed("\\x \\y x y"), "(\\x (\\y (x y)))");
    assert_eq!(parsed("a \\x x b"), "(a (\\x (x b)))");
    assert_eq!(parsed("\\x (y z)"), "(\\x (y z))");
}

#[test]
fn a_leaf_keeps_its_token() {
    let tokens = tokenize("\\x\n  y").unwrap();
    match parse(&tokens).unwrap() {
        Node::Lambda(argument, body) => {
            assert_eq!(argument.token_raw, "x");
            assert_eq!(argument.location.column_no, 2);
            match *body {
                Node::Identifier(token) => {
                    assert_eq!(token.token_raw, "y");
                    assert_eq!(token.location.line_no, 2);
                    assert_eq!(token.location.column_no, 3);
                }
                _ => panic!(),
            }
        }
        _ => panic!(),
    }
}

#[test]
fn an_open_parenthesis_must_be_closed() {
    assert_eq!(refused("(a b"), (ErrorType::MissingRightParen, 1, 1));
    assert_eq!(refused("a ((b c)"), (ErrorType::MissingRightParen, 1, 3));
}

#[test]
fn a_closing_parenthesis_must_have_been_opened() {
    assert_eq!(refused("a)"), (ErrorType::ExtraRightParen, 1, 2));
    assert_eq!(refused(")"), (ErrorType::ExtraRightParen, 1, 1));
    assert_eq!(refused("(a))"), (ErrorType::ExtraRightParen, 1, 4));
    assert_eq!(refused("()"), (ErrorType::ExtraRightParen, 1, 2));
}

#[test]
fn a_function_needs_an_argument() {
    assert_eq!(refused("\\"), (ErrorType::MissingLambdaArg, 1, 1));
    assert_eq!(refused("a \\ (b)"), (ErrorType::MissingLambdaArg, 1, 3));
    assert_eq!(refused("\\\\x x"), (ErrorType::MissingLambdaArg, 1, 1));
}

#[test]
fn an_expression_must_not_be_empty() {
    assert_eq!(refused(""), (ErrorType::EOFReached, 1, 1));
    assert_eq!(refused("  \n "), (ErrorType::EOFReached, 2, 2));
    assert_eq!(refused("\\x"), (ErrorType::EOFReached, 1, 3));
    assert_eq!(refused("("), (ErrorType::EOFReached, 1, 2));
}

#[test]
fn the_first_error_is_reported() {
    assert_eq!(refused("(\\ ) )"), (ErrorType::MissingLambdaArg, 1, 2));
}

#[test]
fn syntax_errors_in_words() {
    let tokens = tokenize("x\n (a b").unwrap();
    let error = parse(&tokens).unwrap_err();
    assert_eq!(error.to_string(), "At line 2, column 2: Missing ) in expression.");
    assert_eq!(error.description(), "missing )");
    let tokens = tokenize("a)").unwrap();
    let error = parse(&tokens).unwrap_err();
    assert_eq!(error.to_string(), "At line 1, column 2: Extra ) in expression.");
    assert_eq!(error.description(), "extra )");
    let tokens = tokenize("\\").unwrap();
    let error = parse(&tokens).unwrap_err();
    assert_eq!(
        error.to_string(),
        "At line 1, column 1: Missing argument for lambda in expression."
    );
    assert_eq!(error.description(), "missing argument for lambda");
    let tokens = tokenize("").unwrap();
    let error = parse(&tokens).unwrap_err();
    assert_eq!(
        error.to_string(),
        "At line 1, column 1: Unexpected EOF found when parsing expression."
    );
    assert_eq!(error.description(), "unexpected EOF reached");
}
