use std::rc::Rc;

use functional_from_zero::interpreter::{interpret, Report};
use functional_from_zero::parser::{parse, Node};
use functional_from_zero::runner::Summary;
use functional_from_zero::tokenizer::tokenize;

// A second interpreter, by names and without any memory of earlier results,
// to hold the library against.

enum Plain<'a> {
    Closure(&'a str, &'a Node<'a>, Scope<'a>),
    Out(u8),
    In(Vec<Rc<Plain<'a>>>),
    Debug,
}

enum Binding<'a> {
    Empty,
    Bound(&'a str, Rc<Plain<'a>>, Scope<'a>),
}

type Scope<'a> = Rc<Binding<'a>>;

struct Bits {
    written: Vec<u8>,
    unread: Vec<u8>,
    next: usize,
}

fn builtin<'a>(name: &str) -> Plain<'a> {
    match name {
        "__builtin_p0" => Plain::Out(0),
        "__builtin_p1" => Plain::Out(1),
        "__builtin_g" => Plain::In(Vec::new()),
        "__builtin_debug" => Plain::Debug,
        _ => panic!("{}", name),
    }
}

fn look_up<'a>(scope: &Scope<'a>, name: &str) -> Rc<Plain<'a>> {
    match &**scope {
        Binding::Empty => Rc::new(builtin(name)),
        Binding::Bound(bound, value, rest) => {
            if *bound == name {
                value.clone()
            } else {
                look_up(rest, name)
            }
        }
    }
}

fn evaluate<'a>(node: &'a Node<'a>, scope: &Scope<'a>, bits: &mut Bits) -> Rc<Plain<'a>> {
    match node {
        Node::Identifier(token) => look_up(scope, token.token_raw),
        Node::Lambda(argument, body) => {
            Rc::new(Plain::Closure(argument.token_raw, &**body, scope.clone()))
        }
        Node::Apply(function, argument) => {
            let function = evaluate(function, scope, bits);
            let argument = evaluate(argument, scope, bits);
            match &*function {
                Plain::Closure(name, body, captured) => {
                    let inner = Rc::new(Binding::Bound(*name, argument, captured.clone()));
                    evaluate(body, &inner, bits)
                }
                Plain::Out(bit) => {
                    bits.written.push(*bit);
                    argument
                }
                Plain::In(continuations) => {
                    if continuations.len() < 3 {
                        let mut more = continuations.clone();
                        more.push(argument);
                        Rc::new(Plain::In(more))
                    } else if bits.next < bits.unread.len() {
                        bits.next += 1;
                        continuations[bits.unread[bits.next - 1] as usize].clone()
                    } else {
                        continuations[2].clone()
                    }
                }
                Plain::Debug => argument,
            }
        }
    }
}

fn unpacked(bytes: &[u8]) -> Vec<u8> {
    let mut bits = Vec::new();
    for byte in bytes {
        for place in 0..8 {
            bits.push((byte >> (7 - place)) & 1);
        }
    }
    bits
}

fn plainly(code: &str, input: &[u8]) -> (Vec<u8>, Summary) {
    let tokens = tokenize(code).unwrap();
    let node = parse(&tokens).unwrap();
    let mut bits = Bits { written: Vec::new(), unread: unpacked(input), next: 0 };
    let value = evaluate(&node, &Rc::new(Binding::Empty), &mut bits);
    let summary = match &*value {
        Plain::Closure(..) => Summary::Closure,
        Plain::Out(bit) => Summary::BitOutput { bit: *bit },
        Plain::In(continuations) => Summary::BitInput { stage: continuations.len() },
        Plain::Debug => Summary::Debug,
    };
    (bits.written, summary)
}

fn by_the_library(code: &str, input: &[u8]) -> (Vec<u8>, Summary) {
    match interpret(code, input.to_vec(), 10000) {
        Report::Ran(mut result) => {
            let mut bits = unpacked(&result.output);
            let mut pending = Vec::new();
            loop {
                match result.unflushed.write(1) {
                    None => pending.push(0),
                    Some(byte) => {
                        let all = unpacked(&[byte]);
                        let written = 7 - pending.len();
                        bits.extend_from_slice(&all[..written]);
                        break;
                    }
                }
            }
            (bits, result.value.unwrap())
        }
        _ => panic!(),
    }
}

fn agree(code: &str, input: &[u8]) -> Vec<u8> {
    let plain = plainly(code, input);
    let library = by_the_library(code, input);
    assert_eq!(plain, library);
    library.0
}

const ECHO: &str = "((\\s \\u (((__builtin_g \
    (\\v ((\\x ((s s) v)) (__builtin_p0 v))) \
    (\\v ((\\x ((s s) v)) (__builtin_p1 v))) \
    (\\v v)) u) u)) \
    (\\s \\u (((__builtin_g \
    (\\v ((\\x ((s s) v)) (__builtin_p0 v))) \
    (\\v ((\\x ((s s) v)) (__builtin_p1 v))) \
    (\\v v)) u) u)) \
    __builtin_debug)";

#[test]
fn a_program_that_copies_its_input() {
    assert_eq!(agree(ECHO, &[]), Vec::<u8>::new());
    assert_eq!(agree(ECHO, &[0xA5]), unpacked(&[0xA5]));
    assert_eq!(agree(ECHO, &[0x00, 0xFF, 0x3C]), unpacked(&[0x00, 0xFF, 0x3C]));
    assert_eq!(agree(ECHO, b"Hi!"), unpacked(b"Hi!"));
}

#[test]
fn a_number_applies_a_function_that_often() {
    let three = "(\\f \\x (f (f (f x))))";
    let code = format!("({} __builtin_p1 __builtin_p0)", three);
    assert_eq!(agree(&code, &[]), vec![1, 1, 1]);
    let times = "(\\m \\n \\f (m (n f)))";
    let code = format!("({} {} {} __builtin_p0 __builtin_p1)", times, three, three);
    assert_eq!(agree(&code, &[]), vec![0; 9]);
    let code = format!(
        "({} ({} {} {}) {} (\\b (__builtin_p1 (__builtin_p0 b))) __builtin_debug)",
        times, times, three, three, three
    );
    let mut expected = Vec::new();
    for _ in 0..27 {
        expected.extend_from_slice(&[0, 1]);
    }
    assert_eq!(agree(&code, &[]), expected);
}

#[test]
fn truth_values_pick_one_of_two() {
    let code = "((\\t \\f (t (f __builtin_p1 __builtin_p0) (t __builtin_p0 __builtin_p1) \
                __builtin_debug)) (\\a \\b a) (\\a \\b b))";
    assert_eq!(agree(code, &[]), vec![0]);
    let code = "((\\a \\b a) (__builtin_p1 __builtin_g) (__builtin_p0 __builtin_g))";
    assert_eq!(agree(code, &[]), vec![1, 0]);
}

#[test]
fn names_are_resolved_where_they_are_written() {
    let code = "((\\x ((\\y (\\x (y x))) x)) __builtin_p1 __builtin_p0 __builtin_debug)";
    assert_eq!(agree(code, &[]), vec![1, 0]);
    let code = "((\\x \\y \\z (z y x (\\x x) (\\y z))) __builtin_p0 __builtin_p1 __builtin_p0 \
                __builtin_p1)";
    agree(code, &[]);
    let code = "((\\a (\\b (\\c (a b c (b a c) (c a b))))) __builtin_p0 __builtin_p1 \
                (__builtin_g __builtin_p1 __builtin_p0 __builtin_debug))";
    agree(code, &[0x40]);
    agree(code, &[0xC0]);
    agree(code, &[]);
}

#[test]
fn what_is_remembered_does_not_show() {
    let code = "((\\w \\k ((\\a (a (a (a (k k))))) (w (k k)))) __builtin_p1 (\\x x))";
    assert_eq!(agree(code, &[]), vec![1]);
    let code = "((\\d ((\\a (d (d (d a)))) (d d (d d) (d d)))) (\\x (__builtin_p0 x)))";
    agree(code, &[]);
    let code = "((\\r (r r (r r) (r r (r r)) __builtin_p1)) \
                (__builtin_g (\\x (__builtin_p0 x)) (\\x (__builtin_p1 x)) (\\x x)))";
    agree(code, &[0x5A]);
    agree(code, &[0xF0, 0x0F]);
    agree(code, &[]);
}
