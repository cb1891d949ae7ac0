//! What evaluation means: values, the world of bits around a program, and
//! evaluation without any cache, bounded by a depth.

use crate::transformer::Term;
use vstd::prelude::*;

verus! {

/// What an expression evaluates to: something that can be applied.
pub ghost enum Value {
    /// A function body with the values it captured.
    Closure { environment: Seq<Value>, body: Term },
    /// Writes `bit` when applied and returns its argument.
    BitOutput { bit: u8 },
    /// Collects the continuations for a zero bit, a one bit and the end of
    /// the input; with all three in hand, the next application reads.
    BitInput { continuations: Seq<Value> },
    /// Reports its argument on a side channel and returns it.
    Debug,
}

/// The bits a program has written so far and the bits it has yet to read.
pub ghost struct World {
    pub written: Seq<u8>,
    pub unread: Seq<u8>,
}

/// How an evaluation ended: its value, the world it left, and whether it
/// caused no bit to be written or read.
pub ghost struct Outcome {
    pub value: Value,
    pub world: World,
    pub pure: bool,
}

/// The value in `slot` of `environment`.
pub open spec fn lookup(environment: Seq<Value>, slot: nat) -> Value {
    if slot < environment.len() {
        environment[slot as int]
    } else {
        Value::Debug
    }
}

/// The environment of a function that captures `captured` from `environment`.
pub open spec fn capture(environment: Seq<Value>, captured: Seq<nat>) -> Seq<Value> {
    Seq::new(captured.len(), |k: int| lookup(environment, captured[k]))
}

/// The outcome of evaluating `term` in `environment`, or `None` where
/// applications nest deeper than `depth`. The function of an application is
/// evaluated before its argument.
pub open spec fn evaluate(term: Term, environment: Seq<Value>, world: World, depth: nat) -> Option<
    Outcome,
>
    decreases depth, 0nat, term,
{
    match term {
        Term::Identifier { slot } => Some(
            Outcome { value: lookup(environment, slot), world, pure: true },
        ),
        Term::Lambda { captured, body } => Some(
            Outcome {
                value: Value::Closure { environment: capture(environment, captured), body: *body },
                world,
                pure: true,
            },
        ),
        Term::Apply { function, argument } => {
            if depth == 0 {
                None
            } else {
                match evaluate(*function, environment, world, (depth - 1) as nat) {
                    None => None,
                    Some(f) => match evaluate(*argument, environment, f.world, (depth - 1) as nat) {
                        None => None,
                        Some(a) => match apply(f.value, a.value, a.world, (depth - 1) as nat) {
                            None => None,
                            Some(r) => Some(
                                Outcome {
                                    value: r.value,
                                    world: r.world,
                                    pure: f.pure && a.pure && r.pure,
                                },
                            ),
                        },
                    },
                }
            }
        },
    }
}

/// The outcome of applying `function` to `argument`.
pub open spec fn apply(function: Value, argument: Value, world: World, depth: nat) -> Option<
    Outcome,
>
    decreases depth, 1nat,
{
    match function {
        Value::Closure { environment, body } => evaluate(
            body,
            seq![argument] + environment,
            world,
            depth,
        ),
        Value::BitOutput { bit } => Some(
            Outcome {
                value: argument,
                world: World { written: world.written.push(bit), unread: world.unread },
                pure: false,
            },
        ),
        Value::BitInput { continuations } => {
            if continuations.len() < 3 {
                Some(
                    Outcome {
                        value: Value::BitInput { continuations: continuations.push(argument) },
                        world,
                        pure: true,
                    },
                )
            } else if world.unread.len() == 0 {
                Some(Outcome { value: continuations[2], world, pure: false })
            } else {
                Some(
                    Outcome {
                        value: if world.unread[0] == 0 {
                            continuations[0]
                        } else {
                            continuations[1]
                        },
                        world: World {
                            written: world.written,
                            unread: world.unread.drop_first(),
                        },
                        pure: false,
                    },
                )
            }
        },
        Value::Debug => Some(Outcome { value: argument, world, pure: true }),
    }
}

/// An evaluation that ends within one depth ends the same way within any
/// greater depth.
pub proof fn lemma_evaluate_deeper(
    term: Term,
    environment: Seq<Value>,
    world: World,
    depth: nat,
    deeper: nat,
)
    requires
        evaluate(term, environment, world, depth) is Some,
        depth <= deeper,
    ensures
        evaluate(term, environment, world, deeper) == evaluate(term, environment, world, depth),
    decreases depth, 0nat, term,
{
    match term {
        Term::Apply { function, argument } => {
            let d = (depth - 1) as nat;
            let e = (deeper - 1) as nat;
            lemma_evaluate_deeper(*function, environment, world, d, e);
            let f = evaluate(*function, environment, world, d)->0;
            lemma_evaluate_deeper(*argument, environment, f.world, d, e);
            let a = evaluate(*argument, environment, f.world, d)->0;
            lemma_apply_deeper(f.value, a.value, a.world, d, e);
        },
        _ => {},
    }
}

/// An application that ends within one depth ends the same way within any
/// greater depth.
pub proof fn lemma_apply_deeper(
    function: Value,
    argument: Value,
    world: World,
    depth: nat,
    deeper: nat,
)
    requires
        apply(function, argument, world, depth) is Some,
        depth <= deeper,
    ensures
        apply(function, argument, world, deeper) == apply(function, argument, world, depth),
    decreases depth, 1nat,
{
    match function {
        Value::Closure { environment, body } => {
            lemma_evaluate_deeper(body, seq![argument] + environment, world, depth, deeper);
        },
        _ => {},
    }
}

/// A pure evaluation leaves the world as it found it and ends the same way
/// in any other world.
pub proof fn lemma_pure_evaluate(
    term: Term,
    environment: Seq<Value>,
    world: World,
    other: World,
    depth: nat,
)
    requires
        evaluate(term, environment, world, depth) is Some,
        evaluate(term, environment, world, depth)->0.pure,
    ensures
        evaluate(term, environment, world, depth)->0.world == world,
        evaluate(term, environment, other, depth) == Some(
            Outcome {
                value: evaluate(term, environment, world, depth)->0.value,
                world: other,
                pure: true,
            },
        ),
    decreases depth, 0nat, term,
{
    match term {
        Term::Apply { function, argument } => {
            let d = (depth - 1) as nat;
            let f = evaluate(*function, environment, world, d)->0;
            let a = evaluate(*argument, environment, f.world, d)->0;
            lemma_pure_evaluate(*function, environment, world, other, d);
            lemma_pure_evaluate(*argument, environment, world, other, d);
            lemma_pure_apply(f.value, a.value, world, other, d);
        },
        _ => {},
    }
}

/// A pure application leaves the world as it found it and ends the same way
/// in any other world.
pub proof fn lemma_pure_apply(
    function: Value,
    argument: Value,
    world: World,
    other: World,
    depth: nat,
)
    requires
        apply(function, argument, world, depth) is Some,
        apply(function, argument, world, depth)->0.pure,
    ensures
        apply(function, argument, world, depth)->0.world == world,
        apply(function, argument, other, depth) == Some(
            Outcome {
                value: apply(function, argument, world, depth)->0.value,
                world: other,
                pure: true,
            },
        ),
    decreases depth, 1nat,
{
    match function {
        Value::Closure { environment, body } => {
            lemma_pure_evaluate(body, seq![argument] + environment, world, other, depth);
        },
        _ => {},
    }
}

/// Whether evaluating `term` ends in `outcome` at some depth.
pub open spec fn evaluates_to(
    term: Term,
    environment: Seq<Value>,
    world: World,
    outcome: Outcome,
) -> bool {
    exists|depth: nat| evaluate(term, environment, world, depth) == Some(outcome)
}

/// Whether applying `function` to `argument` ends in `outcome` at some depth.
pub open spec fn applies_to(function: Value, argument: Value, world: World, outcome: Outcome) -> bool {
    exists|depth: nat| apply(function, argument, world, depth) == Some(outcome)
}

/// Two depths at which an evaluation ends give the same outcome.
pub proof fn lemma_evaluate_agrees(
    term: Term,
    environment: Seq<Value>,
    world: World,
    depth: nat,
    other: nat,
)
    requires
        evaluate(term, environment, world, depth) is Some,
        evaluate(term, environment, world, other) is Some,
    ensures
        evaluate(term, environment, world, depth) == evaluate(term, environment, world, other),
{
    let deeper = if depth <= other {
        other
    } else {
        depth
    };
    lemma_evaluate_deeper(term, environment, world, depth, deeper);
    lemma_evaluate_deeper(term, environment, world, other, deeper);
}

/// Two depths at which an application ends give the same outcome.
pub proof fn lemma_apply_agrees(
    function: Value,
    argument: Value,
    world: World,
    depth: nat,
    other: nat,
)
    requires
        apply(function, argument, world, depth) is Some,
        apply(function, argument, world, other) is Some,
    ensures
        apply(function, argument, world, depth) == apply(function, argument, world, other),
{
    let deeper = if depth <= other {
        other
    } else {
        depth
    };
    lemma_apply_deeper(function, argument, world, depth, deeper);
    lemma_apply_deeper(function, argument, world, other, deeper);
}

/// An evaluation has one outcome: whatever the depth at which it ends, and
/// whatever was remembered on the way, the value, the bits written and read,
/// and the purity are the same.
pub proof fn lemma_evaluation_is_determined(
    term: Term,
    environment: Seq<Value>,
    world: World,
    one: Outcome,
    other: Outcome,
)
    requires
        evaluates_to(term, environment, world, one),
        evaluates_to(term, environment, world, other),
    ensures
        one == other,
{
    let d = choose|d: nat| evaluate(term, environment, world, d) == Some(one);
    let e = choose|e: nat| evaluate(term, environment, world, e) == Some(other);
    lemma_evaluate_agrees(term, environment, world, d, e);
}

/// An evaluation that is pure in one world has the same value in every
/// world, and leaves each world as it found it.
pub proof fn lemma_pure_evaluation_ignores_world(
    term: Term,
    environment: Seq<Value>,
    world: World,
    other: World,
    outcome: Outcome,
)
    requires
        evaluates_to(term, environment, world, outcome),
        outcome.pure,
    ensures
        outcome.world == world,
        evaluates_to(
            term,
            environment,
            other,
            Outcome { value: outcome.value, world: other, pure: true },
        ),
{
    let d = choose|d: nat| evaluate(term, environment, world, d) == Some(outcome);
    lemma_pure_evaluate(term, environment, world, other, d);
}

/// The outcomes of the two operands of an application, the function
/// evaluated first and the argument in the world that the function left.
pub open spec fn operands_in_order(
    function: Term,
    argument: Term,
    environment: Seq<Value>,
    world: World,
    depth: nat,
) -> Option<(Outcome, Outcome)> {
    match evaluate(function, environment, world, depth) {
        None => None,
        Some(f) => match evaluate(argument, environment, f.world, depth) {
            None => None,
            Some(a) => Some((f, a)),
        },
    }
}

/// The outcomes of the two operands of an application, the argument
/// evaluated first and the function in the world that the argument left.
pub open spec fn operands_reversed(
    function: Term,
    argument: Term,
    environment: Seq<Value>,
    world: World,
    depth: nat,
) -> Option<(Outcome, Outcome)> {
    match evaluate(argument, environment, world, depth) {
        None => None,
        Some(a) => match evaluate(function, environment, a.world, depth) {
            None => None,
            Some(f) => Some((f, a)),
        },
    }
}

/// Where one of the two operands of an application is pure, the order in
/// which they are evaluated does not show: both orders give the same two
/// values and leave the same world. Only then may the operands be evaluated
/// in any other order than function first.
pub proof fn lemma_operand_order(
    function: Term,
    argument: Term,
    environment: Seq<Value>,
    world: World,
    depth: nat,
)
    requires
        operands_in_order(function, argument, environment, world, depth) matches Some((f, a))
            && (f.pure || a.pure),
    ensures
        operands_reversed(function, argument, environment, world, depth) matches Some(
            (f, a),
        ) && {
            let (g, b) = operands_in_order(function, argument, environment, world, depth)->0;
            &&& f.value == g.value
            &&& a.value == b.value
            &&& f.pure == g.pure
            &&& a.pure == b.pure
            &&& f.world == b.world
        },
{
    let (g, b) = operands_in_order(function, argument, environment, world, depth)->0;
    if g.pure {
        lemma_pure_evaluate(function, environment, world, b.world, depth);
    } else {
        lemma_pure_evaluate(argument, environment, g.world, world, depth);
    }
}

} // verus!
