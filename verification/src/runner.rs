//! Evaluating an expression graph against explicit environments, with the
//! results of pure applications remembered.
//!
//! The evaluator is held to two statements. `evaluated` says step by step
//! which value comes back under which id and what is made, remembered,
//! written, read and reported on the way. `semantics::evaluate` says what
//! evaluation means where nothing is remembered; what the evaluator gives
//! back means what that evaluation gives, and leaves the same bits written
//! and unread.

use crate::bitio::{
    bits_of, bits_of_bytes, lemma_bits_of_bytes_first, lemma_bits_of_bytes_push, BitInputStream,
    BitOutputStream,
};
use crate::semantics::{
    applies_to, apply, capture, evaluate, evaluates_to, lemma_apply_agrees,
    lemma_apply_deeper, lemma_evaluate_agrees, lemma_evaluate_deeper, lemma_pure_apply, lookup,
    Outcome, Value, World,
};
use crate::text::same_text;
use crate::tokenizer::{location_text, views_of, Token, TokenView};
use crate::transformer::{
    closed, lemma_pair_key_injective, make_pair_key, pair_key, slots_of, term_of, ExpressionCache,
    ExpressionValue, Key, Term,
};
use std::collections::HashMap;
use vstd::prelude::*;
use vstd::string::StringExecFns;

verus! {

/// What a value does when it is applied. Other values are named by their ids,
/// environments by their place in the run's store.
#[derive(Debug)]
pub enum LambdaValue {
    Closure { environment: usize, body: usize },
    BitOutput { bit: u8 },
    BitInput { continuations: Vec<usize> },
    Debug,
}

/// A value of the run. Its `id` is never given to another value.
#[derive(Debug)]
pub struct Lambda {
    pub value: LambdaValue,
    pub id: usize,
}

/// An ordered list of values, by id.
#[derive(Debug)]
pub struct BaseEnvironment {
    values: Vec<usize>,
}

/// Where slots are looked up: a stored list of values, or such a list behind
/// one more value in slot 0.
#[derive(Debug, Clone, Copy)]
pub enum Environment {
    Base(usize),
    Overlay { base: usize, arg_value: usize },
}

/// A report of the debug value: the value it was applied to, and how many
/// bytes of output had been completed by then.
#[derive(Debug, Clone, Copy)]
pub struct Diagnostic {
    pub after_bytes: usize,
    pub value: usize,
}

impl BaseEnvironment {
    /// The values by slot.
    pub closed spec fn view(&self) -> Seq<usize> {
        self.values@
    }

    /// An environment without values.
    pub fn new() -> (environment: BaseEnvironment)
        ensures
            environment.view() == Seq::<usize>::empty(),
    {
        BaseEnvironment { values: Vec::new() }
    }

    /// Puts value `lambda` in the slot behind the others.
    pub fn push(&mut self, lambda: usize)
        ensures
            final(self).view() == old(self).view().push(lambda),
    {
        self.values.push(lambda);
    }

    /// How many slots the environment has.
    pub fn len(&self) -> (n: usize)
        ensures
            n == self.view().len(),
    {
        self.values.len()
    }

    /// The value in slot `name`.
    pub fn get(&self, name: usize) -> (lambda: usize)
        requires
            name < self.view().len(),
        ensures
            lambda == self.view()[name as int],
    {
        self.values[name]
    }

    /// Whether both hold the same values in the same order.
    pub fn eq(&self, other: &BaseEnvironment) -> (same: bool)
        ensures
            same == (self.view() == other.view()),
    {
        if self.values.len() != other.values.len() {
            return false;
        }
        let mut i: usize = 0;
        while i < self.values.len()
            invariant
                self.values.len() == other.values.len(),
                i <= self.values.len(),
                forall|k: int| 0 <= k < i ==> self.values[k] == other.values[k],
            decreases self.values.len() - i,
        {
            if self.values[i] != other.values[i] {
                return false;
            }
            i += 1;
        }
        assert(self.values@ =~= other.values@);
        true
    }
}

/// The values that `ids` name in `model`.
pub open spec fn values_named(model: Seq<Value>, ids: Seq<usize>) -> Seq<Value> {
    Seq::new(ids.len(), |k: int| model[ids[k] as int])
}

/// Whether applying `function` to `argument` gives `result` in every world,
/// at some depth, without writing or reading a bit.
pub open spec fn always_gives(function: Value, argument: Value, result: Value) -> bool {
    exists|depth: nat| gives_at(function, argument, result, depth)
}

/// Whether applying `function` to `argument` within `depth` gives `result` in
/// every world, without writing or reading a bit.
pub open spec fn gives_at(function: Value, argument: Value, result: Value, depth: nat) -> bool {
    forall|world: World| #[trigger]
        apply(function, argument, world, depth) == Some(
            Outcome { value: result, world, pure: true },
        )
}

/// Whether `value` is a sound value for a store of `size` values, and
/// `meaning` is what it stands for.
spec fn describes(
    size: nat,
    environments: Seq<BaseEnvironment>,
    model: Seq<Value>,
    keys: Seq<Key>,
    value: LambdaValue,
    meaning: Value,
) -> bool {
    match value {
        LambdaValue::Closure { environment, body } => {
            &&& environment < environments.len()
            &&& body < keys.len()
            &&& closed(term_of(keys, body as int), environments[environment as int]@.len() + 1)
            &&& meaning == Value::Closure {
                environment: values_named(model, environments[environment as int]@),
                body: term_of(keys, body as int),
            }
        },
        LambdaValue::BitOutput { bit } => bit <= 1 && meaning == Value::BitOutput { bit },
        LambdaValue::BitInput { continuations } => {
            &&& continuations@.len() <= 3
            &&& forall|k: int|
                0 <= k < continuations@.len() ==> #[trigger] continuations@[k] < size
            &&& meaning == Value::BitInput { continuations: values_named(model, continuations@) }
        },
        LambdaValue::Debug => meaning == Value::Debug,
    }
}

spec fn store_ok(
    values: Seq<Lambda>,
    environments: Seq<BaseEnvironment>,
    model: Seq<Value>,
    keys: Seq<Key>,
) -> bool {
    &&& model.len() == values.len()
    &&& forall|i: int| 0 <= i < values.len() ==> (#[trigger] values[i]).id == i
    &&& forall|i: int|
        0 <= i < values.len() ==> describes(
            values.len(),
            environments,
            model,
            keys,
            (#[trigger] values[i]).value,
            model[i],
        )
    &&& forall|e: int, k: int|
        0 <= e < environments.len() && 0 <= k < environments[e]@.len()
            ==> #[trigger] environments[e]@[k] < values.len()
}

/// Whether each report was made after the one before it, and none after
/// more bytes than `bytes`.
pub open spec fn in_order(reports: Seq<Diagnostic>, bytes: nat) -> bool {
    &&& forall|i: int, j: int|
        0 <= i <= j < reports.len() ==> (#[trigger] reports[i]).after_bytes
            <= (#[trigger] reports[j]).after_bytes
    &&& forall|i: int| 0 <= i < reports.len() ==> (#[trigger] reports[i]).after_bytes <= bytes
}

/// Whether `later` remembers everything that `table` remembers, with the
/// same result.
pub open spec fn keeps(table: Map<u128, usize>, later: Map<u128, usize>) -> bool {
    forall|key: u128| #[trigger] table.contains_key(key) ==> later.contains_key(key) && later[key]
        == table[key]
}

/// A world in which nothing was written and nothing is left to read.
pub open spec fn blank() -> World {
    World { written: Seq::empty(), unread: Seq::empty() }
}

/// Whether applying `function` to `argument` ends within `depth` without
/// writing or reading a bit.
pub open spec fn pure_within(function: Value, argument: Value, depth: nat) -> bool {
    apply(function, argument, blank(), depth) matches Some(outcome) && outcome.pure
}

proof fn lemma_pure_within_deeper(function: Value, argument: Value, depth: nat, deeper: nat)
    requires
        pure_within(function, argument, depth),
        depth <= deeper,
    ensures
        pure_within(function, argument, deeper),
{
    lemma_apply_deeper(function, argument, blank(), depth, deeper);
}

/// An application cannot hold itself: if applying `function` to `argument`
/// could end only where the same application had ended at a lesser depth, it
/// ends at no depth.
proof fn lemma_descent(function: Value, argument: Value, world: World, depth: nat)
    requires
        forall|d: nat| #[trigger]
            apply(function, argument, world, d) is Some ==> d >= 1 && pure_within(
                function,
                argument,
                (d - 1) as nat,
            ),
    ensures
        apply(function, argument, world, depth) is None,
    decreases depth,
{
    if apply(function, argument, world, depth) is Some {
        assert(depth >= 1);
        let less = (depth - 1) as nat;
        assert(pure_within(function, argument, less));
        lemma_pure_apply(function, argument, blank(), world, less);
        lemma_descent(function, argument, world, less);
    }
}

/// What tells one closure from another: the values it captured and its body.
spec fn closure_key(values: Seq<Lambda>, environments: Seq<BaseEnvironment>, i: int) -> (
    Seq<usize>,
    usize,
) {
    (environments[values[i].value->environment as int]@, values[i].value->body)
}

/// Whether the closures are listed by body, each of them once, and no two of
/// them are alike.
spec fn buckets_ok(
    values: Seq<Lambda>,
    environments: Seq<BaseEnvironment>,
    buckets: Seq<Vec<usize>>,
    graph_size: nat,
) -> bool {
    &&& buckets.len() == graph_size
    &&& forall|b: int, k: int|
        0 <= b < buckets.len() && 0 <= k < buckets[b]@.len() ==> {
            &&& #[trigger] buckets[b]@[k] < values.len()
            &&& values[buckets[b]@[k] as int].value is Closure
            &&& values[buckets[b]@[k] as int].value->body == b
        }
    &&& forall|i: int|
        0 <= i < values.len() && (#[trigger] values[i]).value is Closure ==> {
            &&& values[i].value->body < buckets.len()
            &&& buckets[values[i].value->body as int]@.contains(i as usize)
        }
    &&& forall|i: int, j: int|
        0 <= i < values.len() && 0 <= j < values.len() && (#[trigger] values[i]).value is Closure
            && (#[trigger] values[j]).value is Closure && closure_key(values, environments, i)
            == closure_key(values, environments, j) ==> i == j
}

proof fn lemma_buckets_push_plain(
    values: Seq<Lambda>,
    environments: Seq<BaseEnvironment>,
    buckets: Seq<Vec<usize>>,
    graph_size: nat,
    lambda: Lambda,
)
    requires
        buckets_ok(values, environments, buckets, graph_size),
        !(lambda.value is Closure),
    ensures
        buckets_ok(values.push(lambda), environments, buckets, graph_size),
{
    let values2 = values.push(lambda);
    assert forall|b: int, k: int|
        0 <= b < buckets.len() && 0 <= k < buckets[b]@.len() implies {
        &&& #[trigger] buckets[b]@[k] < values2.len()
        &&& values2[buckets[b]@[k] as int].value is Closure
        &&& values2[buckets[b]@[k] as int].value->body == b
    } by {
        assert(values2[buckets[b]@[k] as int] == values[buckets[b]@[k] as int]);
    }
    assert forall|i: int|
        0 <= i < values2.len() && (#[trigger] values2[i]).value is Closure implies {
        &&& values2[i].value->body < buckets.len()
        &&& buckets[values2[i].value->body as int]@.contains(i as usize)
    } by {
        assert(values2[i] == values[i]);
    }
    assert forall|i: int, j: int|
        0 <= i < values2.len() && 0 <= j < values2.len() && (#[trigger] values2[i]).value
            is Closure && (#[trigger] values2[j]).value is Closure && closure_key(
            values2,
            environments,
            i,
        ) == closure_key(values2, environments, j) implies i == j by {
        assert(values2[i] == values[i]);
        assert(values2[j] == values[j]);
    }
}

proof fn lemma_buckets_push_environment(
    values: Seq<Lambda>,
    environments: Seq<BaseEnvironment>,
    model: Seq<Value>,
    keys: Seq<Key>,
    buckets: Seq<Vec<usize>>,
    environment: BaseEnvironment,
)
    requires
        store_ok(values, environments, model, keys),
        buckets_ok(values, environments, buckets, keys.len()),
    ensures
        buckets_ok(values, environments.push(environment), buckets, keys.len()),
{
    let environments2 = environments.push(environment);
    assert forall|i: int, j: int|
        0 <= i < values.len() && 0 <= j < values.len() && (#[trigger] values[i]).value is Closure
            && (#[trigger] values[j]).value is Closure && closure_key(values, environments2, i)
            == closure_key(values, environments2, j) implies i == j by {
        assert(describes(values.len(), environments, model, keys, values[i].value, model[i]));
        assert(describes(values.len(), environments, model, keys, values[j].value, model[j]));
        assert(closure_key(values, environments, i) == closure_key(values, environments2, i));
        assert(closure_key(values, environments, j) == closure_key(values, environments2, j));
    }
}

spec fn memory_ok(model: Seq<Value>, table: Map<u128, usize>) -> bool {
    forall|f: usize, a: usize| #[trigger]
        table.contains_key(pair_key(f, a)) ==> {
            &&& f < model.len()
            &&& a < model.len()
            &&& table[pair_key(f, a)] < model.len()
            &&& always_gives(model[f as int], model[a as int], model[table[pair_key(f, a)] as int])
        }
}

proof fn lemma_values_named_grows(model: Seq<Value>, longer: Seq<Value>, ids: Seq<usize>)
    requires
        model.len() <= longer.len(),
        forall|i: int| 0 <= i < model.len() ==> #[trigger] longer[i] == model[i],
        forall|k: int| 0 <= k < ids.len() ==> #[trigger] ids[k] < model.len(),
    ensures
        values_named(longer, ids) == values_named(model, ids),
{
    assert forall|k: int| 0 <= k < ids.len() implies values_named(longer, ids)[k] == values_named(
        model,
        ids,
    )[k] by {
        assert(ids[k] < model.len());
    }
    assert(values_named(longer, ids) =~= values_named(model, ids));
}

proof fn lemma_store_push_value(
    values: Seq<Lambda>,
    environments: Seq<BaseEnvironment>,
    model: Seq<Value>,
    keys: Seq<Key>,
    lambda: Lambda,
    meaning: Value,
)
    requires
        store_ok(values, environments, model, keys),
        lambda.id == values.len(),
        describes(values.len(), environments, model, keys, lambda.value, meaning),
    ensures
        store_ok(values.push(lambda), environments, model.push(meaning), keys),
{
    let values2 = values.push(lambda);
    let model2 = model.push(meaning);
    assert forall|i: int| 0 <= i < values2.len() implies describes(
        values2.len(),
        environments,
        model2,
        keys,
        (#[trigger] values2[i]).value,
        model2[i],
    ) by {
        let value = values2[i].value;
        let meant = model2[i];
        assert(describes(values.len(), environments, model, keys, value, meant)) by {
            if i < values.len() {
                assert(values2[i] == values[i]);
            }
        }
        match value {
            LambdaValue::Closure { environment, body } => {
                lemma_values_named_grows(model, model2, environments[environment as int]@);
            },
            LambdaValue::BitInput { continuations } => {
                lemma_values_named_grows(model, model2, continuations@);
            },
            _ => {},
        }
    }
}

proof fn lemma_store_push_environment(
    values: Seq<Lambda>,
    environments: Seq<BaseEnvironment>,
    model: Seq<Value>,
    keys: Seq<Key>,
    environment: BaseEnvironment,
)
    requires
        store_ok(values, environments, model, keys),
        forall|k: int| 0 <= k < environment@.len() ==> #[trigger] environment@[k] < values.len(),
    ensures
        store_ok(values, environments.push(environment), model, keys),
{
    let environments2 = environments.push(environment);
    assert forall|i: int| 0 <= i < values.len() implies describes(
        values.len(),
        environments2,
        model,
        keys,
        (#[trigger] values[i]).value,
        model[i],
    ) by {
        assert(describes(values.len(), environments, model, keys, values[i].value, model[i]));
        match values[i].value {
            LambdaValue::Closure { environment: e, body } => {
                assert(environments2[e as int] == environments[e as int]);
            },
            _ => {},
        }
    }
    assert forall|e: int, k: int|
        0 <= e < environments2.len() && 0 <= k < environments2[e]@.len()
            implies #[trigger] environments2[e]@[k] < values.len() by {
        if e < environments.len() {
            assert(environments2[e] == environments[e]);
        }
    }
}

proof fn lemma_memory_push_value(model: Seq<Value>, table: Map<u128, usize>, meaning: Value)
    requires
        memory_ok(model, table),
    ensures
        memory_ok(model.push(meaning), table),
{
    let model2 = model.push(meaning);
    assert forall|f: usize, a: usize| #[trigger]
        table.contains_key(pair_key(f, a)) implies {
        &&& f < model2.len()
        &&& a < model2.len()
        &&& table[pair_key(f, a)] < model2.len()
        &&& always_gives(model2[f as int], model2[a as int], model2[table[pair_key(f, a)] as int])
    } by {
        let r = table[pair_key(f, a)];
        assert(model2[f as int] == model[f as int]);
        assert(model2[a as int] == model[a as int]);
        assert(model2[r as int] == model[r as int]);
    }
}

proof fn lemma_memory_insert(
    model: Seq<Value>,
    table: Map<u128, usize>,
    function: usize,
    argument: usize,
    result: usize,
)
    requires
        memory_ok(model, table),
        function < model.len(),
        argument < model.len(),
        result < model.len(),
        always_gives(model[function as int], model[argument as int], model[result as int]),
    ensures
        memory_ok(model, table.insert(pair_key(function, argument), result)),
{
    let table2 = table.insert(pair_key(function, argument), result);
    assert forall|f: usize, a: usize| #[trigger]
        table2.contains_key(pair_key(f, a)) implies {
        &&& f < model.len()
        &&& a < model.len()
        &&& table2[pair_key(f, a)] < model.len()
        &&& always_gives(model[f as int], model[a as int], model[table2[pair_key(f, a)] as int])
    } by {
        if pair_key(f, a) == pair_key(function, argument) {
            lemma_pair_key_injective(f, a, function, argument);
        } else {
            assert(table.contains_key(pair_key(f, a)));
        }
    }
}

/// An application evaluates to what its three steps give, one after the
/// other.
proof fn lemma_apply_chain(
    function: Term,
    argument: Term,
    environment: Seq<Value>,
    world: World,
    f: Outcome,
    a: Outcome,
    r: Outcome,
    d1: nat,
    d2: nat,
    d3: nat,
)
    requires
        evaluate(function, environment, world, d1) == Some(f),
        evaluate(argument, environment, f.world, d2) == Some(a),
        apply(f.value, a.value, a.world, d3) == Some(r),
    ensures
        evaluates_to(
            Term::Apply { function: Box::new(function), argument: Box::new(argument) },
            environment,
            world,
            Outcome { value: r.value, world: r.world, pure: f.pure && a.pure && r.pure },
        ),
{
    let most = if d1 >= d2 && d1 >= d3 {
        d1
    } else if d2 >= d3 {
        d2
    } else {
        d3
    };
    lemma_evaluate_deeper(function, environment, world, d1, most);
    lemma_evaluate_deeper(argument, environment, f.world, d2, most);
    lemma_apply_deeper(f.value, a.value, a.world, d3, most);
    assert(evaluate(
        Term::Apply { function: Box::new(function), argument: Box::new(argument) },
        environment,
        world,
        most + 1,
    ) == Some(Outcome { value: r.value, world: r.world, pure: f.pure && a.pure && r.pure }));
}

/// What a value is, with the values it holds named by their ids.
pub ghost enum Shape {
    Closure { environment: usize, body: usize },
    BitOutput { bit: u8 },
    BitInput { continuations: Seq<usize> },
    Debug,
}

impl LambdaValue {
    /// The value as a plain value.
    pub open spec fn shape(self) -> Shape {
        match self {
            LambdaValue::Closure { environment, body } => Shape::Closure { environment, body },
            LambdaValue::BitOutput { bit } => Shape::BitOutput { bit },
            LambdaValue::BitInput { continuations } => Shape::BitInput {
                continuations: continuations@,
            },
            LambdaValue::Debug => Shape::Debug,
        }
    }
}

/// What a run holds, as plain values: the values by id, the stored
/// environments by place, what is remembered of applying one value to
/// another, the bits written and unread, and the reports of the debug value.
pub ghost struct Store {
    pub values: Seq<Shape>,
    pub environments: Seq<Seq<usize>>,
    pub memory: Map<u128, usize>,
    pub world: World,
    pub reports: Seq<Diagnostic>,
}

/// What a run holds before anything was made: nothing but the input.
pub open spec fn fresh(input: Seq<u8>) -> Store {
    Store {
        values: Seq::empty(),
        environments: Seq::empty(),
        memory: Map::empty(),
        world: World { written: Seq::empty(), unread: bits_of_bytes(input) },
        reports: Seq::empty(),
    }
}

/// The ids of the values of `environment`, by slot.
pub open spec fn environment_ids(store: Store, environment: Environment) -> Seq<usize> {
    match environment {
        Environment::Base(base) => store.environments[base as int],
        Environment::Overlay { base, arg_value } => seq![arg_value] + store.environments[base as int],
    }
}

/// The ids that a function captures: for each entry of `env_map` the id in
/// that slot of the environment in force.
pub open spec fn captured_ids(ids: Seq<usize>, env_map: Seq<usize>) -> Seq<usize> {
    Seq::new(env_map.len(), |k: int| ids[env_map[k] as int])
}

/// Whether value `id` is the closure of `body` over `captured`.
pub open spec fn is_closure_of(store: Store, id: int, captured: Seq<usize>, body: usize) -> bool {
    &&& 0 <= id < store.values.len()
    &&& store.values[id] matches Shape::Closure { environment, body: b }
    &&& b == body
    &&& environment < store.environments.len()
    &&& store.environments[environment as int] == captured
}

/// The closure of `body` over `captured`: the one that the store holds, or
/// else a new one behind the other values, with its environment stored
/// behind the other environments.
pub open spec fn made_closure(store: Store, captured: Seq<usize>, body: usize) -> (Store, usize) {
    if exists|id: int| is_closure_of(store, id, captured, body) {
        (store, (choose|id: int| is_closure_of(store, id, captured, body)) as usize)
    } else {
        (
            Store {
                values: store.values.push(
                    Shape::Closure { environment: store.environments.len() as usize, body },
                ),
                environments: store.environments.push(captured),
                ..store
            },
            store.values.len() as usize,
        )
    }
}

/// Evaluation step by step, with the ids that come back and everything that
/// is made, remembered, written, read and reported on the way: the store
/// afterwards, and the id of the value with the purity, or `None` where
/// applications nest deeper than `depth`.
///
/// A reference to a slot gives the id in the slot and changes nothing. A
/// function gives its closure over the ids it captures. An application
/// evaluates the function, then the argument, then applies the one to the
/// other, unless that is remembered.
pub open spec fn evaluated(
    keys: Seq<Key>,
    store: Store,
    expression: usize,
    environment: Environment,
    depth: nat,
) -> (Store, Option<(usize, bool)>)
    decreases depth, 0nat,
{
    match keys[expression as int] {
        Key::Identifier(slot) => (
            store,
            Some((environment_ids(store, environment)[slot as int], true)),
        ),
        Key::Lambda(env_map, body) => {
            let (after, id) = made_closure(
                store,
                captured_ids(environment_ids(store, environment), env_map),
                body,
            );
            (after, Some((id, true)))
        },
        Key::Apply(lambda, parameter) => {
            if depth == 0 {
                (store, None)
            } else {
                let (first, function) = evaluated(
                    keys,
                    store,
                    lambda,
                    environment,
                    (depth - 1) as nat,
                );
                match function {
                    None => (first, None),
                    Some((f, function_pure)) => {
                        let (second, argument) = evaluated(
                            keys,
                            first,
                            parameter,
                            environment,
                            (depth - 1) as nat,
                        );
                        match argument {
                            None => (second, None),
                            Some((a, argument_pure)) => {
                                let (third, step) = applied_cached(
                                    keys,
                                    second,
                                    f,
                                    a,
                                    function_pure && argument_pure,
                                    (depth - 1) as nat,
                                );
                                match step {
                                    None => (third, None),
                                    Some((result, step_pure)) => (
                                        third,
                                        Some(
                                            (result, function_pure && argument_pure && step_pure),
                                        ),
                                    ),
                                }
                            },
                        }
                    },
                }
            }
        },
    }
}

/// Applying value `function` to value `argument` unless the result is
/// remembered: then the remembered id comes back, as pure, and nothing
/// changes. A result that was not remembered is remembered afterwards
/// exactly where `operands_pure` holds and the application was pure.
pub open spec fn applied_cached(
    keys: Seq<Key>,
    store: Store,
    function: usize,
    argument: usize,
    operands_pure: bool,
    depth: nat,
) -> (Store, Option<(usize, bool)>)
    decreases depth, 2nat,
{
    if store.memory.contains_key(pair_key(function, argument)) {
        (store, Some((store.memory[pair_key(function, argument)], true)))
    } else {
        let (after, step) = applied(keys, store, function, argument, depth);
        match step {
            Some((result, step_pure)) => if operands_pure && step_pure {
                (
                    Store {
                        memory: after.memory.insert(pair_key(function, argument), result),
                        ..after
                    },
                    step,
                )
            } else {
                (after, step)
            },
            None => (after, None),
        }
    }
}

/// Applying value `function` to value `argument`. A closure evaluates its
/// body with the argument in slot 0 before the values it captured. A
/// bit-output value writes its bit and gives the argument back. A reading
/// value with fewer than three continuations gives a new value that holds
/// them and the argument; with three it reads one bit and gives the
/// continuation for that bit, or the third at the end of the input. The debug
/// value reports the argument and gives it back.
pub open spec fn applied(
    keys: Seq<Key>,
    store: Store,
    function: usize,
    argument: usize,
    depth: nat,
) -> (Store, Option<(usize, bool)>)
    decreases depth, 1nat,
{
    match store.values[function as int] {
        Shape::Closure { environment, body } => evaluated(
            keys,
            store,
            body,
            Environment::Overlay { base: environment, arg_value: argument },
            depth,
        ),
        Shape::BitOutput { bit } => (
            Store {
                world: World { written: store.world.written.push(bit), unread: store.world.unread },
                ..store
            },
            Some((argument, false)),
        ),
        Shape::BitInput { continuations } => {
            if continuations.len() < 3 {
                (
                    Store {
                        values: store.values.push(
                            Shape::BitInput { continuations: continuations.push(argument) },
                        ),
                        ..store
                    },
                    Some((store.values.len() as usize, true)),
                )
            } else if store.world.unread.len() == 0 {
                (store, Some((continuations[2], false)))
            } else {
                (
                    Store {
                        world: World {
                            written: store.world.written,
                            unread: store.world.unread.drop_first(),
                        },
                        ..store
                    },
                    Some(
                        (
                            if store.world.unread[0] == 0 {
                                continuations[0]
                            } else {
                                continuations[1]
                            },
                            false,
                        ),
                    ),
                )
            }
        },
        Shape::Debug => (
            Store {
                reports: store.reports.push(
                    Diagnostic {
                        after_bytes: (store.world.written.len() / 8) as usize,
                        value: argument,
                    },
                ),
                ..store
            },
            Some((argument, true)),
        ),
    }
}

/// The state of one run: every value made so far, the environments they
/// captured, what is remembered, and the two bit streams with the bytes
/// behind them.
pub struct RunCache {
    values: Vec<Lambda>,
    environments: Vec<BaseEnvironment>,
    closure_cache: Vec<Vec<usize>>,
    apply_cache: HashMap<u128, usize>,
    output: BitOutputStream,
    sink: Vec<u8>,
    input: BitInputStream,
    source: Vec<u8>,
    position: usize,
    diagnostics: Vec<Diagnostic>,
    model: Ghost<Seq<Value>>,
}

impl RunCache {
    /// What the run holds, as plain values.
    pub closed spec fn store(self) -> Store {
        Store {
            values: Seq::new(self.values@.len(), |i: int| self.values@[i].value.shape()),
            environments: Seq::new(self.environments@.len(), |e: int| self.environments@[e]@),
            memory: self.apply_cache@,
            world: self.current_world(),
            reports: self.diagnostics@,
        }
    }

    /// What each value is, by id.
    pub closed spec fn model(self) -> Seq<Value> {
        self.model@
    }

    /// How many values the run has made.
    pub open spec fn size(self) -> nat {
        self.store().values.len()
    }

    /// How many environments the run has stored.
    pub open spec fn stored(self) -> nat {
        self.store().environments.len()
    }

    /// The value with the given id, as the run holds it.
    pub closed spec fn value(self, id: int) -> Lambda {
        self.values@[id]
    }

    /// The stored environment `e`, by slot.
    pub open spec fn stored_environment(self, e: int) -> Seq<usize> {
        self.store().environments[e]
    }

    /// The bits written so far, and the bits of the input not read yet.
    pub open spec fn world(self) -> World {
        self.store().world
    }

    spec fn current_world(self) -> World {
        World {
            written: bits_of_bytes(self.sink@) + self.output.pending(),
            unread: if self.input.window().exhausted {
                Seq::empty()
            } else {
                self.input.window().remaining + bits_of_bytes(
                    self.source@.subrange(self.position as int, self.source@.len() as int),
                )
            },
        }
    }

    /// The bytes of output completed so far.
    pub closed spec fn output_bytes(self) -> Seq<u8> {
        self.sink@
    }

    /// The reports of the debug value so far.
    pub open spec fn reports(self) -> Seq<Diagnostic> {
        self.store().reports
    }

    /// What is remembered of applying value `function` to value `argument`.
    pub open spec fn remembered(self, function: usize, argument: usize) -> Option<usize> {
        if self.store().memory.contains_key(pair_key(function, argument)) {
            Some(self.store().memory[pair_key(function, argument)])
        } else {
            None
        }
    }

    /// Whether `environment` names a stored environment and a value that
    /// exist.
    pub open spec fn has_environment(self, environment: Environment) -> bool {
        match environment {
            Environment::Base(base) => base < self.store().environments.len(),
            Environment::Overlay { base, arg_value } => base < self.store().environments.len()
                && arg_value < self.store().values.len(),
        }
    }

    /// The values of `environment`, by slot.
    pub open spec fn environment_values(self, environment: Environment) -> Seq<Value> {
        values_named(self.model(), environment_ids(self.store(), environment))
    }

    /// Whether the state is sound for the graph with the given keys: every
    /// value is what the model says, every environment names values that
    /// exist, and everything remembered is what applying would give, in any
    /// world, without writing or reading a bit.
    pub closed spec fn wf(self, keys: Seq<Key>) -> bool {
        &&& store_ok(self.values@, self.environments@, self.model@, keys)
        &&& buckets_ok(self.values@, self.environments@, self.closure_cache@, keys.len())
        &&& memory_ok(self.model@, self.apply_cache@)
        &&& self.position <= self.source@.len()
        &&& self.input.window().exhausted ==> self.position == self.source@.len()
        &&& self.output.pending().len() < 8
        &&& in_order(self.diagnostics@, self.sink@.len())
    }

    /// Whether `later` holds every value and environment of this state in
    /// its place.
    pub closed spec fn grown_into(self, later: RunCache) -> bool {
        &&& self.values@.len() <= later.values@.len()
        &&& self.environments@.len() <= later.environments@.len()
        &&& self.model@.len() <= later.model@.len()
        &&& forall|i: int|
            0 <= i < self.model@.len() ==> #[trigger] later.model@[i] == self.model@[i]
        &&& forall|i: int|
            0 <= i < self.values@.len() ==> #[trigger] later.values@[i] == self.values@[i]
        &&& forall|e: int|
            0 <= e < self.environments@.len() ==> #[trigger] later.environments@[e]@
                == self.environments@[e]@
        &&& self.source@ == later.source@
        &&& self.diagnostics@.len() <= later.diagnostics@.len()
        &&& forall|i: int|
            0 <= i < self.diagnostics@.len() ==> #[trigger] later.diagnostics@[i]
                == self.diagnostics@[i]
        &&& keeps(self.apply_cache@, later.apply_cache@)
    }

    /// Whether `later` has come to remember the result of applying value
    /// `function` to value `argument`, which this state did not remember.
    pub closed spec fn learned(self, later: RunCache, function: usize, argument: usize) -> bool {
        &&& !self.apply_cache@.contains_key(pair_key(function, argument))
        &&& later.apply_cache@.contains_key(pair_key(function, argument))
    }

    /// Whether every application that `later` has come to remember ends
    /// without writing or reading a bit within less than `depth`.
    pub closed spec fn shallow(self, later: RunCache, depth: nat) -> bool {
        forall|function: usize, argument: usize| #[trigger]
            self.learned(later, function, argument) ==> depth >= 1 && pure_within(
                later.model@[function as int],
                later.model@[argument as int],
                (depth - 1) as nat,
            )
    }

    proof fn lemma_shallow_deeper(self, later: RunCache, depth: nat, deeper: nat)
        requires
            self.shallow(later, depth),
            depth <= deeper,
        ensures
            self.shallow(later, deeper),
    {
        assert forall|function: usize, argument: usize| #[trigger]
            self.learned(later, function, argument) implies deeper >= 1 && pure_within(
            later.model@[function as int],
            later.model@[argument as int],
            (deeper - 1) as nat,
        ) by {
            lemma_pure_within_deeper(
                later.model@[function as int],
                later.model@[argument as int],
                (depth - 1) as nat,
                (deeper - 1) as nat,
            );
        }
    }

    proof fn lemma_shallow_then(self, middle: RunCache, later: RunCache, keys: Seq<Key>, depth: nat)
        requires
            self.shallow(middle, depth),
            middle.shallow(later, depth),
            middle.grown_into(later),
            middle.wf(keys),
        ensures
            self.shallow(later, depth),
    {
        assert forall|function: usize, argument: usize| #[trigger]
            self.learned(later, function, argument) implies depth >= 1 && pure_within(
            later.model@[function as int],
            later.model@[argument as int],
            (depth - 1) as nat,
        ) by {
            if middle.apply_cache@.contains_key(pair_key(function, argument)) {
                assert(self.learned(middle, function, argument));
                assert(later.model@[function as int] == middle.model@[function as int]);
                assert(later.model@[argument as int] == middle.model@[argument as int]);
            } else {
                assert(middle.learned(later, function, argument));
            }
        }
    }

    /// Whether `later` differs from this state in its streams at most.
    spec fn same_store(self, later: RunCache) -> bool {
        &&& later.values == self.values
        &&& later.environments == self.environments
        &&& later.closure_cache == self.closure_cache
        &&& later.apply_cache == self.apply_cache
        &&& later.model == self.model
        &&& later.diagnostics == self.diagnostics
        &&& later.source == self.source
    }

    /// A fresh state for one run over `graph`, with `input` as the bytes to
    /// read.
    pub fn new(graph: &ExpressionCache, input: Vec<u8>) -> (cache: RunCache)
        ensures
            cache.wf(graph.keys()),
            cache.size() == 0,
            cache.stored() == 0,
            cache.world() == (World { written: Seq::empty(), unread: bits_of_bytes(input@) }),
            cache.output_bytes() == Seq::<u8>::empty(),
            cache.reports() == Seq::<Diagnostic>::empty(),
            cache.store() == fresh(input@),
    {
        let mut closure_cache: Vec<Vec<usize>> = Vec::new();
        let n = graph.len();
        while closure_cache.len() < n
            invariant
                closure_cache.len() <= n,
                forall|b: int| 0 <= b < closure_cache.len() ==> (#[trigger] closure_cache[b])@.len() == 0,
            decreases n - closure_cache.len(),
        {
            closure_cache.push(Vec::new());
        }
        let cache = RunCache {
            values: Vec::new(),
            environments: Vec::new(),
            closure_cache,
            apply_cache: HashMap::new(),
            output: BitOutputStream::new(),
            sink: Vec::new(),
            input: BitInputStream::new(),
            source: input,
            position: 0,
            diagnostics: Vec::new(),
            model: Ghost(Seq::empty()),
        };
        proof {
            assert(cache.source@.subrange(0, cache.source@.len() as int) =~= input@);
            assert(cache.world().written =~= Seq::<u8>::empty());
            assert(cache.world().unread =~= bits_of_bytes(input@));
            assert(cache.store().values =~= Seq::<Shape>::empty());
            assert(cache.store().environments =~= Seq::<Seq<usize>>::empty());
        }
        cache
    }

    /// The id of the value in slot `name` of `environment`: in slot 0 of an
    /// overlay the value put before the others, else the stored environment's.
    pub fn get(&self, environment: Environment, name: usize) -> (lambda: usize)
        requires
            self.has_environment(environment),
            name < environment_ids(self.store(), environment).len(),
        ensures
            lambda == environment_ids(self.store(), environment)[name as int],
    {
        match environment {
            Environment::Base(base) => self.environments[base].get(name),
            Environment::Overlay { base, arg_value } => {
                if name == 0 {
                    arg_value
                } else {
                    self.environments[base].get(name - 1)
                }
            },
        }
    }

    /// The bytes of output completed so far are the bits written so far but
    /// for fewer than eight at their end.
    pub proof fn lemma_output_bytes(self, keys: Seq<Key>)
        requires
            self.wf(keys),
        ensures
            self.world().written.len() - 8 * self.output_bytes().len() < 8,
            self.world().written.subrange(0, 8 * self.output_bytes().len() as int) == bits_of_bytes(
                self.output_bytes(),
            ),
    {
        assert(self.world().written.subrange(0, 8 * self.output_bytes().len() as int) =~= bits_of_bytes(
            self.output_bytes(),
        ));
    }

    /// The store holds what the run holds: each value, each stored
    /// environment, the world, the reports, and what is remembered.
    pub proof fn lemma_store(self)
        ensures
            self.store().values.len() == self.size(),
            forall|id: int|
                0 <= id < self.size() ==> #[trigger] self.store().values[id] == self.value(
                    id,
                ).value.shape(),
            self.store().environments.len() == self.stored(),
            forall|e: int|
                0 <= e < self.stored() ==> #[trigger] self.store().environments[e]
                    == self.stored_environment(e),
            self.store().world == self.world(),
            self.store().reports == self.reports(),
            forall|f: usize, a: usize|
                #[trigger] self.remembered(f, a) == (if self.store().memory.contains_key(
                    pair_key(f, a),
                ) {
                    Some(self.store().memory[pair_key(f, a)])
                } else {
                    None
                }),
    {
    }

    /// Every slot of an environment names a value of the run, and the
    /// environment's meaning is the meaning of these values.
    pub proof fn lemma_environment_ids(self, keys: Seq<Key>, environment: Environment)
        requires
            self.wf(keys),
            self.has_environment(environment),
        ensures
            self.environment_values(environment) == values_named(
                self.model(),
                environment_ids(self.store(), environment),
            ),
            forall|k: int|
                0 <= k < environment_ids(self.store(), environment).len()
                    ==> #[trigger] environment_ids(self.store(), environment)[k] < self.size(),
    {
        let ids = environment_ids(self.store(), environment);
        match environment {
            Environment::Base(base) => {
                assert(self.environments@[base as int]@ == ids);
                assert forall|k: int| 0 <= k < ids.len() implies #[trigger] ids[k]
                    < self.size() by {
                    assert(self.environments@[base as int]@[k] < self.values@.len());
                }
            },
            Environment::Overlay { base, arg_value } => {
                let stored = self.environments@[base as int]@;
                assert(ids == seq![arg_value] + stored);
                assert forall|k: int| 0 <= k < ids.len() implies #[trigger] ids[k]
                    < self.size() by {
                    if k > 0 {
                        assert(self.environments@[base as int]@[k - 1] < self.values@.len());
                    }
                }
                assert(self.environment_values(environment) =~= values_named(self.model(), ids));
            },
        }
    }

    /// Adds `value` to the store and returns its id.
    fn allocate(
        &mut self,
        value: LambdaValue,
        Ghost(keys): Ghost<Seq<Key>>,
        Ghost(meaning): Ghost<Value>,
    ) -> (id: usize)
        requires
            old(self).wf(keys),
            !(value is Closure),
            describes(
                old(self).values@.len(),
                old(self).environments@,
                old(self).model@,
                keys,
                value,
                meaning,
            ),
        ensures
            final(self).wf(keys),
            old(self).grown_into(*final(self)),
            id == old(self).values@.len(),
            final(self).values@ == old(self).values@.push(Lambda { value, id }),
            final(self).model@ == old(self).model@.push(meaning),
            final(self).environments == old(self).environments,
            final(self).closure_cache == old(self).closure_cache,
            final(self).apply_cache == old(self).apply_cache,
            final(self).diagnostics == old(self).diagnostics,
            final(self).sink == old(self).sink,
            final(self).world() == old(self).world(),
            final(self).store() == (Store {
                values: old(self).store().values.push(value.shape()),
                ..old(self).store()
            }),
    {
        let id = self.values.len();
        proof {
            lemma_store_push_value(
                self.values@,
                self.environments@,
                self.model@,
                keys,
                Lambda { value, id },
                meaning,
            );
            lemma_memory_push_value(self.model@, self.apply_cache@, meaning);
            lemma_buckets_push_plain(
                self.values@,
                self.environments@,
                self.closure_cache@,
                keys.len(),
                Lambda { value, id },
            );
        }
        self.values.push(Lambda { value, id });
        self.model = Ghost(self.model@.push(meaning));
        proof {
            assert(self.store().values =~= old(self).store().values.push(value.shape()));
        }
        id
    }

    /// Writes one bit to the output.
    fn write_bit(&mut self, bit: u8)
        requires
            bit <= 1,
        ensures
            old(self).same_store(*final(self)),
            final(self).input == old(self).input,
            final(self).position == old(self).position,
            final(self).world() == (World {
                written: old(self).world().written.push(bit),
                unread: old(self).world().unread,
            }),
            final(self).output.pending().len() < 8,
            old(self).sink@.len() <= final(self).sink@.len(),
    {
        let ghost before = self.world();
        let ghost pending = self.output.pending();
        match self.output.write(bit) {
            Some(byte) => {
                proof {
                    lemma_bits_of_bytes_push(self.sink@, byte);
                }
                self.sink.push(byte);
                proof {
                    assert(self.world().written =~= before.written.push(bit));
                }
            },
            None => {
                proof {
                    assert(self.world().written =~= before.written.push(bit));
                }
            },
        }
    }

    /// Reads one bit of the input, or finds that it has ended.
    fn read_bit(&mut self) -> (bit: Option<u8>)
        requires
            old(self).position <= old(self).source@.len(),
            old(self).input.window().exhausted ==> old(self).position == old(self).source@.len(),
        ensures
            old(self).same_store(*final(self)),
            final(self).output == old(self).output,
            final(self).sink == old(self).sink,
            final(self).position <= final(self).source@.len(),
            final(self).input.window().exhausted ==> final(self).position == final(self).source@.len(),
            final(self).world().written == old(self).world().written,
            old(self).world().unread.len() == 0 ==> bit is None && final(self).world() == old(self).world(),
            old(self).world().unread.len() > 0 ==> bit == Some(old(self).world().unread[0])
                && final(self).world().unread == old(self).world().unread.drop_first(),
            bit is Some ==> bit->0 <= 1,
    {
        let ghost before = self.world();
        let ghost window = self.input.window();
        let ghost rest = self.source@.subrange(self.position as int, self.source@.len() as int);
        let mut supplied: Option<u8> = None;
        if self.input.needs_byte() && self.position < self.source.len() {
            supplied = Some(self.source[self.position]);
            self.position = self.position + 1;
            proof {
                lemma_bits_of_bytes_first(rest);
                assert(rest.drop_first() =~= self.source@.subrange(
                    self.position as int,
                    self.source@.len() as int,
                ));
            }
        }
        let bit = self.input.read(supplied);
        proof {
            if window.exhausted {
            } else if window.remaining.len() > 0 {
                assert(self.world().unread =~= before.unread.drop_first());
            } else if supplied is Some {
                assert(self.world().unread =~= before.unread.drop_first());
                assert(before.unread[0] == bits_of(supplied->0)[0]);
            } else {
                assert(rest.len() == 0);
                assert(before.unread =~= Seq::<u8>::empty());
            }
        }
        bit
    }

    /// A later state keeps the meaning of every environment of an earlier one.
    pub proof fn lemma_environment_grows(
        self,
        later: RunCache,
        environment: Environment,
        keys: Seq<Key>,
    )
        requires
            self.wf(keys),
            self.grown_into(later),
            self.has_environment(environment),
        ensures
            later.has_environment(environment),
            later.environment_values(environment) == self.environment_values(environment),
    {
        match environment {
            Environment::Base(base) => {
                lemma_values_named_grows(self.model@, later.model@, self.environments@[base as int]@);
            },
            Environment::Overlay { base, arg_value } => {
                lemma_values_named_grows(self.model@, later.model@, self.environments@[base as int]@);
            },
        }
    }

    /// A later state keeps the meaning of every value of an earlier one.
    pub proof fn lemma_model_grows(self, later: RunCache, id: int)
        requires
            self.grown_into(later),
            0 <= id < self.size(),
            self.model().len() == self.size(),
        ensures
            later.model()[id] == self.model()[id],
            later.value(id) == self.value(id),
    {
    }

    /// Growth carries over from one step to the next.
    pub proof fn lemma_grown_twice(self, middle: RunCache, later: RunCache)
        requires
            self.grown_into(middle),
            middle.grown_into(later),
        ensures
            self.grown_into(later),
    {
        assert forall|i: int| 0 <= i < self.model@.len() implies #[trigger] later.model@[i]
            == self.model@[i] by {
            assert(middle.model@[i] == self.model@[i]);
        }
        assert forall|i: int| 0 <= i < self.values@.len() implies #[trigger] later.values@[i]
            == self.values@[i] by {
            assert(middle.values@[i] == self.values@[i]);
        }
        assert forall|e: int| 0 <= e < self.environments@.len() implies #[trigger] later.environments@[e]@
            == self.environments@[e]@ by {
            assert(middle.environments@[e]@ == self.environments@[e]@);
        }
        assert forall|i: int| 0 <= i < self.diagnostics@.len() implies #[trigger] later.diagnostics@[i]
            == self.diagnostics@[i] by {
            assert(middle.diagnostics@[i] == self.diagnostics@[i]);
        }
        assert forall|key: u128| #[trigger] self.apply_cache@.contains_key(key) implies later.apply_cache@.contains_key(
            key,
        ) && later.apply_cache@[key] == self.apply_cache@[key] by {
            assert(middle.apply_cache@.contains_key(key));
        }
    }

    /// What a state remembers, every later state remembers, with the same
    /// result.
    pub proof fn lemma_memory_is_kept(self, later: RunCache, function: usize, argument: usize)
        requires
            self.grown_into(later),
            self.remembered(function, argument) is Some,
        ensures
            later.remembered(function, argument) == self.remembered(function, argument),
    {
        assert(self.apply_cache@.contains_key(pair_key(function, argument)));
    }

    /// Two values that are the closure of one body over the same values are
    /// one value.
    pub proof fn lemma_one_closure(
        self,
        keys: Seq<Key>,
        captured: Seq<usize>,
        body: usize,
        first: int,
        second: int,
    )
        requires
            self.wf(keys),
            is_closure_of(self.store(), first, captured, body),
            is_closure_of(self.store(), second, captured, body),
        ensures
            first == second,
    {
        assert(closure_key(self.values@, self.environments@, first) == closure_key(
            self.values@,
            self.environments@,
            second,
        ));
    }

    /// Stores `environment` and returns its place.
    fn keep(&mut self, environment: BaseEnvironment, Ghost(keys): Ghost<Seq<Key>>) -> (place: usize)
        requires
            old(self).wf(keys),
            forall|k: int|
                0 <= k < environment@.len() ==> #[trigger] environment@[k] < old(self).values@.len(),
        ensures
            final(self).wf(keys),
            old(self).grown_into(*final(self)),
            place == old(self).environments@.len(),
            final(self).environments@ == old(self).environments@.push(environment),
            final(self).values == old(self).values,
            final(self).model == old(self).model,
            final(self).closure_cache == old(self).closure_cache,
            final(self).apply_cache == old(self).apply_cache,
            final(self).diagnostics == old(self).diagnostics,
            final(self).sink == old(self).sink,
            final(self).world() == old(self).world(),
            final(self).output_bytes() == old(self).output_bytes(),
            final(self).store() == (Store {
                environments: old(self).store().environments.push(environment@),
                ..old(self).store()
            }),
    {
        let place = self.environments.len();
        proof {
            lemma_store_push_environment(
                self.values@,
                self.environments@,
                self.model@,
                keys,
                environment,
            );
            lemma_buckets_push_environment(
                self.values@,
                self.environments@,
                self.model@,
                keys,
                self.closure_cache@,
                environment,
            );
        }
        self.environments.push(environment);
        proof {
            assert(self.store().environments =~= old(self).store().environments.push(
                environment@,
            ));
        }
        place
    }

    /// Makes the value of every free variable, each of which names a builtin,
    /// and stores them as the environment of the program.
    pub fn bind<'a>(&mut self, graph: &ExpressionCache, free_vars: &Vec<&'a Token<'a>>) -> (environment:
        Environment)
        requires
            old(self).wf(graph.keys()),
            undefined(views_of(free_vars@)).len() == 0,
        ensures
            final(self).wf(graph.keys()),
            old(self).grown_into(*final(self)),
            final(self).has_environment(environment),
            final(self).environment_values(environment) == builtins(views_of(free_vars@)),
            final(self).world() == old(self).world(),
            final(self).output_bytes() == old(self).output_bytes(),
            final(self).reports() == old(self).reports(),
            final(self).store() == bound(old(self).store(), views_of(free_vars@)),
            environment == Environment::Base(old(self).store().environments.len() as usize),
    {
        let ghost keys = graph.keys();
        let ghost views = views_of(free_vars@);
        let ghost begun = self.store();
        let mut environment = BaseEnvironment::new();
        let mut j: usize = 0;
        while j < free_vars.len()
            invariant
                j <= free_vars.len(),
                views == views_of(free_vars@),
                keys == graph.keys(),
                undefined(views).len() == 0,
                self.wf(keys),
                old(self).wf(keys),
                old(self).grown_into(*self),
                self.world() == old(self).world(),
                self.sink == old(self).sink,
                self.diagnostics == old(self).diagnostics,
                environment@.len() == j,
                forall|k: int|
                    0 <= k < j ==> #[trigger] environment@[k] < self.values@.len()
                        && self.model@[environment@[k] as int] == builtin(views[k].raw)->0,
                begun == old(self).store(),
                self.store() == (Store {
                    values: begun.values + Seq::new(
                        j as nat,
                        |i: int| builtin_shape(views[i].raw)->0,
                    ),
                    ..begun
                }),
                environment@ == Seq::new(j as nat, |i: int| (begun.values.len() + i) as usize),
            decreases free_vars.len() - j,
        {
            proof {
                lemma_none_undefined(views, j as int);
            }
            let ghost middle = *self;
            match builtin_of(free_vars[j].token_raw) {
                Some(value) => {
                    let ghost meaning = builtin(views[j as int].raw)->0;
                    proof {
                        if value is BitInput {
                            assert(values_named(self.model@, value->continuations@) =~= Seq::<
                                Value,
                            >::empty());
                        }
                    }
                    let ghost shape = value.shape();
                    let id = self.allocate(value, Ghost(keys), Ghost(meaning));
                    environment.push(id);
                    proof {
                        old(self).lemma_grown_twice(middle, *self);
                        assert(shape == builtin_shape(views[j as int].raw)->0);
                        assert(self.store().values =~= begun.values + Seq::new(
                            (j + 1) as nat,
                            |i: int| builtin_shape(views[i].raw)->0,
                        ));
                        assert(environment@ =~= Seq::new(
                            (j + 1) as nat,
                            |i: int| (begun.values.len() + i) as usize,
                        ));
                    }
                },
                None => {},
            }
            j += 1;
        }
        proof {
            assert(begun.values + Seq::new(0, |i: int| builtin_shape(views[i].raw)->0)
                =~= begun.values);
        }
        let ghost middle = *self;
        let base = self.keep(environment, Ghost(keys));
        let root = Environment::Base(base);
        proof {
            old(self).lemma_grown_twice(middle, *self);
            assert(self.environment_values(root) =~= builtins(views));
        }
        root
    }

    /// The kind of value `value`.
    pub fn summary(&self, graph: &ExpressionCache, value: usize) -> (summary: Summary)
        requires
            self.wf(graph.keys()),
            value < self.size(),
        ensures
            summary == summary_of(self.model()[value as int]),
            summary == shape_summary(self.store().values[value as int]),
    {
        assert(describes(
            self.values@.len(),
            self.environments@,
            self.model@,
            graph.keys(),
            self.values@[value as int].value,
            self.model@[value as int],
        ));
        summarize(&self.values[value].value)
    }

    /// The value with the given id.
    pub fn get_value(&self, id: usize) -> (lambda: &Lambda)
        requires
            id < self.size(),
        ensures
            *lambda == self.value(id as int),
    {
        &self.values[id]
    }

    /// The bytes of output completed so far.
    pub fn output(&self) -> (bytes: &Vec<u8>)
        ensures
            bytes@ == self.output_bytes(),
    {
        &self.sink
    }

    /// The reports of the debug value so far.
    pub fn diagnostics(&self) -> (reports: &Vec<Diagnostic>)
        ensures
            reports@ == self.reports(),
    {
        &self.diagnostics
    }

    /// How many values the run has made.
    pub fn len(&self) -> (n: usize)
        ensures
            n == self.size(),
    {
        self.values.len()
    }

    /// No two closures of a run have the same body and captured the same
    /// values: evaluating a function again in an environment with the same
    /// values gives the closure that was made the first time.
    pub proof fn lemma_closures_are_shared(self, keys: Seq<Key>, first: int, second: int)
        requires
            self.wf(keys),
            0 <= first < self.size(),
            0 <= second < self.size(),
            self.value(first).value is Closure,
            self.value(second).value is Closure,
            self.value(first).value->body == self.value(second).value->body,
            self.stored_environment(self.value(first).value->environment as int)
                == self.stored_environment(self.value(second).value->environment as int),
        ensures
            first == second,
    {
        assert(closure_key(self.values@, self.environments@, first) == closure_key(
            self.values@,
            self.environments@,
            second,
        ));
    }

    /// Every value has its id, and a closure's meaning is its body with the
    /// meanings of the values it captured.
    pub proof fn lemma_value_means(self, keys: Seq<Key>, id: int)
        requires
            self.wf(keys),
            0 <= id < self.size(),
        ensures
            self.model().len() == self.size(),
            self.value(id).id == id,
            match self.value(id).value {
                LambdaValue::Closure { environment, body } => environment < self.stored()
                    && self.model()[id] == (Value::Closure {
                    environment: values_named(
                        self.model(),
                        self.stored_environment(environment as int),
                    ),
                    body: term_of(keys, body as int),
                }),
                LambdaValue::BitOutput { bit } => self.model()[id] == (Value::BitOutput { bit }),
                LambdaValue::BitInput { continuations } => self.model()[id] == (Value::BitInput {
                    continuations: values_named(self.model(), continuations@),
                }),
                LambdaValue::Debug => self.model()[id] == Value::Debug,
            },
    {
        assert(describes(
            self.values@.len(),
            self.environments@,
            self.model@,
            keys,
            self.values@[id].value,
            self.model@[id],
        ));
    }

    /// What is remembered is what applying gives: in every world, at some
    /// depth, and without writing or reading a bit.
    pub proof fn lemma_remembered_is_pure(
        self,
        keys: Seq<Key>,
        function: usize,
        argument: usize,
        world: World,
    )
        requires
            self.wf(keys),
            self.remembered(function, argument) is Some,
        ensures
            function < self.size(),
            argument < self.size(),
            self.remembered(function, argument)->0 < self.size(),
            applies_to(
                self.model()[function as int],
                self.model()[argument as int],
                world,
                Outcome {
                    value: self.model()[self.remembered(function, argument)->0 as int],
                    world,
                    pure: true,
                },
            ),
    {
        let result = self.apply_cache@[pair_key(function, argument)];
        assert(self.apply_cache@.contains_key(pair_key(function, argument)));
        let f = self.model@[function as int];
        let a = self.model@[argument as int];
        let r = self.model@[result as int];
        assert(always_gives(f, a, r));
        let d = choose|d: nat| gives_at(f, a, r, d);
        assert(apply(f, a, world, d) == Some(Outcome { value: r, world, pure: true }));
    }

    /// An application that writes or reads a bit is never remembered, so it
    /// is carried out every time.
    pub proof fn lemma_impure_is_not_remembered(
        self,
        keys: Seq<Key>,
        function: usize,
        argument: usize,
        world: World,
        outcome: Outcome,
    )
        requires
            self.wf(keys),
            function < self.size(),
            argument < self.size(),
            applies_to(
                self.model()[function as int],
                self.model()[argument as int],
                world,
                outcome,
            ),
            !outcome.pure,
        ensures
            self.remembered(function, argument) is None,
    {
        if self.remembered(function, argument) is Some {
            self.lemma_remembered_is_pure(keys, function, argument, world);
            let f = self.model@[function as int];
            let a = self.model@[argument as int];
            let known = Outcome {
                value: self.model@[self.remembered(function, argument)->0 as int],
                world,
                pure: true,
            };
            let d = choose|d: nat| apply(f, a, world, d) == Some(known);
            let e = choose|e: nat| apply(f, a, world, e) == Some(outcome);
            lemma_apply_agrees(f, a, world, d, e);
        }
    }

    /// The closure of `body` over `captured`: the one made before, if there
    /// is one, else a new one.
    fn closure(&mut self, captured: BaseEnvironment, body: usize, Ghost(keys): Ghost<Seq<Key>>) -> (id:
        usize)
        requires
            old(self).wf(keys),
            body < keys.len(),
            forall|k: int| 0 <= k < captured@.len() ==> #[trigger] captured@[k] < old(self).values@.len(),
            closed(term_of(keys, body as int), captured@.len() + 1),
        ensures
            final(self).wf(keys),
            old(self).grown_into(*final(self)),
            id < final(self).values@.len(),
            final(self).model@[id as int] == (Value::Closure {
                environment: values_named(old(self).model@, captured@),
                body: term_of(keys, body as int),
            }),
            final(self).world() == old(self).world(),
            final(self).diagnostics == old(self).diagnostics,
            (final(self).store(), id) == made_closure(old(self).store(), captured@, body),
            final(self).values@.len() == old(self).values@.len() ==> *final(self) == *old(self),
    {
        let mut k: usize = 0;
        while k < self.closure_cache[body].len()
            invariant
                self.wf(keys),
                body < keys.len(),
                self == old(self),
                k <= self.closure_cache[body as int]@.len(),
                forall|n: int|
                    0 <= n < k ==> self.environments@[self.values@[(
                    #[trigger] self.closure_cache[body as int]@[n]) as int].value->environment as int]@
                        != captured@,
            decreases self.closure_cache[body as int]@.len() - k,
        {
            let candidate = self.closure_cache[body][k];
            assert(candidate < self.values@.len());
            assert(describes(
                self.values@.len(),
                self.environments@,
                self.model@,
                keys,
                self.values@[candidate as int].value,
                self.model@[candidate as int],
            ));
            match &self.values[candidate].value {
                LambdaValue::Closure { environment, body: candidate_body } => {
                    if self.environments[*environment].eq(&captured) {
                        proof {
                            let store = self.store();
                            assert(is_closure_of(store, candidate as int, captured@, body));
                            let chosen = choose|id: int| is_closure_of(store, id, captured@, body);
                            assert(closure_key(self.values@, self.environments@, chosen)
                                == closure_key(self.values@, self.environments@, candidate as int));
                        }
                        return candidate;
                    }
                },
                _ => {},
            }
            k += 1;
        }
        let ghost meaning = Value::Closure {
            environment: values_named(self.model@, captured@),
            body: term_of(keys, body as int),
        };
        let ghost before = *self;
        let environment = self.environments.len();
        let id = self.values.len();
        let ghost lambda = Lambda { value: LambdaValue::Closure { environment, body }, id };
        proof {
            lemma_store_push_environment(
                self.values@,
                self.environments@,
                self.model@,
                keys,
                captured,
            );
            lemma_buckets_push_environment(
                self.values@,
                self.environments@,
                self.model@,
                keys,
                self.closure_cache@,
                captured,
            );
            lemma_store_push_value(
                self.values@,
                self.environments@.push(captured),
                self.model@,
                keys,
                lambda,
                meaning,
            );
            lemma_memory_push_value(self.model@, self.apply_cache@, meaning);
        }
        proof {
            let store = self.store();
            assert forall|c: int| !is_closure_of(store, c, captured@, body) by {
                if is_closure_of(store, c, captured@, body) {
                    let bucket = self.closure_cache@[body as int]@;
                    assert(self.values@[c].value is Closure);
                    assert(bucket.contains(c as usize));
                    let n = choose|n: int| 0 <= n < bucket.len() && bucket[n] == c as usize;
                    assert(self.environments@[self.values@[(
                    self.closure_cache[body as int]@[n]) as int].value->environment as int]@
                        != captured@);
                }
            }
        }
        let ghost unchanged = captured@;
        self.environments.push(captured);
        self.values.push(Lambda { value: LambdaValue::Closure { environment, body }, id });
        self.model = Ghost(self.model@.push(meaning));
        self.closure_cache[body].push(id);
        proof {
            assert(self.store().values =~= before.store().values.push(
                Shape::Closure { environment, body },
            ));
            assert(self.store().environments =~= before.store().environments.push(unchanged));
        }
        proof {
            let values = before.values@;
            let environments = self.environments@;
            let buckets = before.closure_cache@;
            let values2 = self.values@;
            let buckets2 = self.closure_cache@;
            assert(values2 == values.push(lambda));
            assert(buckets_ok(values, environments, buckets, keys.len()));
            assert forall|b: int, n: int|
                0 <= b < buckets2.len() && 0 <= n < buckets2[b]@.len() implies {
                &&& #[trigger] buckets2[b]@[n] < values2.len()
                &&& values2[buckets2[b]@[n] as int].value is Closure
                &&& values2[buckets2[b]@[n] as int].value->body == b
            } by {
                if b == body && n == buckets[b]@.len() {
                } else {
                    assert(buckets2[b]@[n] == buckets[b]@[n]);
                    assert(values2[buckets[b]@[n] as int] == values[buckets[b]@[n] as int]);
                }
            }
            assert forall|i: int|
                0 <= i < values2.len() && (#[trigger] values2[i]).value is Closure implies {
                &&& values2[i].value->body < buckets2.len()
                &&& buckets2[values2[i].value->body as int]@.contains(i as usize)
            } by {
                if i < values.len() {
                    assert(values2[i] == values[i]);
                    let b = values[i].value->body as int;
                    assert(buckets[b]@.contains(i as usize));
                    let n = choose|n: int| 0 <= n < buckets[b]@.len() && buckets[b]@[n] == i as usize;
                    if b == body {
                        assert(buckets2[b]@[n] == i as usize);
                    } else {
                        assert(buckets2[b] == buckets[b]);
                    }
                } else {
                    assert(buckets2[body as int]@[buckets[body as int]@.len() as int] == id);
                }
            }
            assert forall|i: int, j: int|
                0 <= i < values2.len() && 0 <= j < values2.len() && (#[trigger] values2[i]).value
                    is Closure && (#[trigger] values2[j]).value is Closure && closure_key(
                    values2,
                    environments,
                    i,
                ) == closure_key(values2, environments, j) implies i == j by {
                if i < values.len() && j < values.len() {
                    assert(values2[i] == values[i]);
                    assert(values2[j] == values[j]);
                } else if i != j {
                    let other = if i < values.len() {
                        i
                    } else {
                        j
                    };
                    assert(values2[other] == values[other]);
                    assert(values[other].value->body == body);
                    assert(buckets[body as int]@.contains(other as usize));
                    let n = choose|n: int|
                        0 <= n < buckets[body as int]@.len() && buckets[body as int]@[n]
                            == other as usize;
                    let listed = before.closure_cache[body as int]@[n];
                    assert(before.environments@[values[listed as int].value->environment as int]@
                        != captured@);
                    assert(describes(
                        values.len(),
                        before.environments@,
                        before.model@,
                        keys,
                        values[other].value,
                        before.model@[other],
                    ));
                }
            }
        }
        id
    }

    /// Evaluates expression `expression` of `graph` in `environment`. The
    /// result is the id of the value and whether no bit was written or read;
    /// it is `None` where applications nest deeper than `depth`.
    pub fn run_impl(
        &mut self,
        graph: &ExpressionCache,
        expression: usize,
        environment: Environment,
        depth: usize,
    ) -> (result: Option<(usize, bool)>)
        requires
            old(self).wf(graph.keys()),
            expression < graph.size(),
            old(self).has_environment(environment),
            closed(
                graph.term(expression as int),
                old(self).environment_values(environment).len(),
            ),
        ensures
            final(self).wf(graph.keys()),
            old(self).grown_into(*final(self)),
            match result {
                Some((value, pure)) => value < final(self).size() && evaluates_to(
                    graph.term(expression as int),
                    old(self).environment_values(environment),
                    old(self).world(),
                    Outcome { value: final(self).model()[value as int], world: final(self).world(), pure },
                ),
                None => evaluate(
                    graph.term(expression as int),
                    old(self).environment_values(environment),
                    old(self).world(),
                    depth as nat,
                ) is None,
            },
            (final(self).store(), result) == evaluated(
                graph.keys(),
                old(self).store(),
                expression,
                environment,
                depth as nat,
            ),
            graph.keys()[expression as int] is Identifier ==> *final(self) == *old(self),
            graph.keys()[expression as int] is Lambda && final(self).size() == old(self).size()
                ==> *final(self) == *old(self),
            forall|d: nat| #[trigger]
                evaluate(
                    graph.term(expression as int),
                    old(self).environment_values(environment),
                    old(self).world(),
                    d,
                ) is Some ==> old(self).shallow(*final(self), d),
        decreases depth, 0nat,
    {
        let ghost keys = graph.keys();
        let ghost values = self.environment_values(environment);
        let ghost world = self.world();
        let ghost term = term_of(keys, expression as int);
        let ghost ids = environment_ids(self.store(), environment);
        proof {
            self.lemma_environment_ids(keys, environment);
        }
        let node = graph.get(expression);
        match &node.value {
            ExpressionValue::Identifier(identifier) => {
                let value = self.get(environment, identifier.name);
                proof {
                    assert(ids[identifier.name as int] < self.size());
                    assert(evaluate(term, values, world, 0) == Some(
                        Outcome { value: self.model@[value as int], world, pure: true },
                    ));
                }
                Some((value, true))
            },
            ExpressionValue::Lambda(lambda) => {
                let ghost slots = slots_of(lambda.env_map@);
                assert(term == Term::Lambda {
                    captured: slots,
                    body: Box::new(term_of(keys, lambda.body as int)),
                });
                let mut captured = BaseEnvironment::new();
                let mut k: usize = 0;
                while k < lambda.env_map.len()
                    invariant
                        self.wf(keys),
                        self == old(self),
                        self.has_environment(environment),
                        values == self.environment_values(environment),
                        slots == slots_of(lambda.env_map@),
                        forall|j: int| 0 <= j < slots.len() ==> #[trigger] slots[j] < values.len(),
                        k <= lambda.env_map.len(),
                        captured@.len() == k,
                        ids == environment_ids(self.store(), environment),
                        values == values_named(self.model@, ids),
                        forall|j: int| 0 <= j < ids.len() ==> #[trigger] ids[j] < self.values@.len(),
                        forall|j: int|
                            0 <= j < k ==> #[trigger] captured@[j] == ids[lambda.env_map@[j] as int],
                    decreases lambda.env_map.len() - k,
                {
                    assert(slots[k as int] < values.len());
                    let value = self.get(environment, lambda.env_map[k]);
                    captured.push(value);
                    k += 1;
                }
                proof {
                    assert(captured@ =~= captured_ids(ids, lambda.env_map@));
                    assert forall|j: int| 0 <= j < captured@.len() implies #[trigger] captured@[j]
                        < self.values@.len() by {
                        assert(slots[j] < values.len());
                        assert(ids[lambda.env_map@[j] as int] < self.values@.len());
                    }
                    assert(values_named(self.model@, captured@) =~= capture(values, slots)) by {
                        assert forall|j: int| 0 <= j < captured@.len() implies values_named(
                            self.model@,
                            captured@,
                        )[j] == capture(values, slots)[j] by {
                            assert(slots[j] < values.len());
                        }
                    }
                }
                let id = self.closure(captured, lambda.body, Ghost(keys));
                proof {
                    assert(evaluate(term, values, world, 0) == Some(
                        Outcome { value: self.model@[id as int], world, pure: true },
                    ));
                }
                Some((id, true))
            },
            ExpressionValue::Apply(application) => {
                let ghost function_term = term_of(keys, application.lambda as int);
                let ghost argument_term = term_of(keys, application.parameter as int);
                assert(term == Term::Apply {
                    function: Box::new(function_term),
                    argument: Box::new(argument_term),
                });
                if depth == 0 {
                    return None;
                }
                let function_result = self.run_impl(
                    graph,
                    application.lambda,
                    environment,
                    depth - 1,
                );
                let ghost first = *self;
                proof {
                    assert forall|d: nat| #[trigger]
                        evaluate(term, values, world, d) is Some implies old(self).shallow(
                        first,
                        d,
                    ) by {
                        let less = (d - 1) as nat;
                        assert(evaluate(function_term, values, world, less) is Some);
                        old(self).lemma_shallow_deeper(first, less, d);
                    }
                }
                let (function, function_pure) = match function_result {
                    Some(found) => found,
                    None => {
                        return None;
                    },
                };
                let ghost f = Outcome {
                    value: first.model@[function as int],
                    world: first.world(),
                    pure: function_pure,
                };
                let ghost d1 = choose|d: nat| evaluate(function_term, values, world, d) == Some(f);
                proof {
                    old(self).lemma_environment_grows(first, environment, keys);
                }
                let argument_result = self.run_impl(
                    graph,
                    application.parameter,
                    environment,
                    depth - 1,
                );
                let ghost second = *self;
                proof {
                    assert forall|d: nat| #[trigger]
                        evaluate(term, values, world, d) is Some implies old(self).shallow(
                        second,
                        d,
                    ) by {
                        let less = (d - 1) as nat;
                        assert(evaluate(function_term, values, world, less) is Some);
                        lemma_evaluate_agrees(function_term, values, world, d1, less);
                        assert(evaluate(argument_term, values, f.world, less) is Some);
                        assert(first.shallow(second, less));
                        old(self).lemma_shallow_deeper(first, less, d);
                        first.lemma_shallow_deeper(second, less, d);
                        old(self).lemma_shallow_then(first, second, keys, d);
                    }
                }
                let (argument, argument_pure) = match argument_result {
                    Some(found) => found,
                    None => {
                        proof {
                            if evaluate(function_term, values, world, (depth - 1) as nat) is Some {
                                lemma_evaluate_agrees(
                                    function_term,
                                    values,
                                    world,
                                    d1,
                                    (depth - 1) as nat,
                                );
                            }
                        }
                        return None;
                    },
                };
                let ghost a = Outcome {
                    value: second.model@[argument as int],
                    world: second.world(),
                    pure: argument_pure,
                };
                let ghost d2 = choose|d: nat| evaluate(argument_term, values, f.world, d) == Some(a);
                proof {
                    old(self).lemma_grown_twice(first, second);
                    first.lemma_model_grows(second, function as int);
                }
                let step = self.apply_cached(
                    graph,
                    function,
                    argument,
                    function_pure && argument_pure,
                    depth - 1,
                );
                let ghost third = *self;
                proof {
                    assert forall|d: nat| #[trigger]
                        evaluate(term, values, world, d) is Some implies old(self).shallow(
                        third,
                        d,
                    ) by {
                        let less = (d - 1) as nat;
                        assert(evaluate(function_term, values, world, less) is Some);
                        lemma_evaluate_agrees(function_term, values, world, d1, less);
                        assert(evaluate(argument_term, values, f.world, less) is Some);
                        lemma_evaluate_agrees(argument_term, values, f.world, d2, less);
                        assert(apply(f.value, a.value, a.world, less) is Some);
                        assert(second.shallow(third, less + 1));
                        old(self).lemma_shallow_then(second, third, keys, d);
                    }
                }
                let (result, step_pure) = match step {
                    Some(found) => found,
                    None => {
                        proof {
                            let d = (depth - 1) as nat;
                            if evaluate(function_term, values, world, d) is Some {
                                lemma_evaluate_agrees(function_term, values, world, d1, d);
                                if evaluate(argument_term, values, f.world, d) is Some {
                                    lemma_evaluate_agrees(argument_term, values, f.world, d2, d);
                                }
                            }
                        }
                        return None;
                    },
                };
                let ghost r = Outcome {
                    value: third.model@[result as int],
                    world: third.world(),
                    pure: step_pure,
                };
                let ghost d3 = choose|d: nat| apply(f.value, a.value, a.world, d) == Some(r);
                proof {
                    old(self).lemma_grown_twice(second, third);
                    lemma_apply_chain(function_term, argument_term, values, world, f, a, r, d1, d2, d3);
                }
                Some((result, function_pure && argument_pure && step_pure))
            },
        }
    }

    /// Applies value `function` to value `argument`, unless the result is
    /// remembered: then nothing is done and the remembered value is the
    /// result. A result that was not remembered is remembered from now on if
    /// `operands_pure` holds and the application wrote and read no bit.
    pub fn apply_cached(
        &mut self,
        graph: &ExpressionCache,
        function: usize,
        argument: usize,
        operands_pure: bool,
        depth: usize,
    ) -> (result: Option<(usize, bool)>)
        requires
            old(self).wf(graph.keys()),
            function < old(self).size(),
            argument < old(self).size(),
        ensures
            final(self).wf(graph.keys()),
            old(self).grown_into(*final(self)),
            match result {
                Some((value, pure)) => value < final(self).size() && applies_to(
                    old(self).model()[function as int],
                    old(self).model()[argument as int],
                    old(self).world(),
                    Outcome { value: final(self).model()[value as int], world: final(self).world(), pure },
                ),
                None => apply(
                    old(self).model()[function as int],
                    old(self).model()[argument as int],
                    old(self).world(),
                    depth as nat,
                ) is None,
            },
            old(self).remembered(function, argument) matches Some(known) ==> result == Some(
                (known, true),
            ) && *final(self) == *old(self),
            old(self).remembered(function, argument) is None && operands_pure ==> (
            result matches Some((value, true)) ==> final(self).remembered(function, argument)
                == Some(value)),
            (final(self).store(), result) == applied_cached(
                graph.keys(),
                old(self).store(),
                function,
                argument,
                operands_pure,
                depth as nat,
            ),
            old(self).remembered(function, argument) is None ==> (final(self).remembered(
                function,
                argument,
            ) is Some <==> operands_pure && result matches Some((_, true))),
            forall|d: nat| #[trigger]
                apply(
                    old(self).model()[function as int],
                    old(self).model()[argument as int],
                    old(self).world(),
                    d,
                ) is Some ==> old(self).shallow(*final(self), d + 1),
        decreases depth, 2nat,
    {
        let ghost keys = graph.keys();
        let ghost world = self.world();
        let ghost fv = self.model@[function as int];
        let ghost av = self.model@[argument as int];
        let key = make_pair_key(function, argument);
        let remembered = match self.apply_cache.get(&key) {
            Some(result) => Some(*result),
            None => None,
        };
        if let Some(result) = remembered {
            proof {
                let rv = self.model@[result as int];
                assert(self.apply_cache@.contains_key(pair_key(function, argument)));
                assert(always_gives(fv, av, rv));
                let d = choose|d: nat| gives_at(fv, av, rv, d);
                assert(apply(fv, av, world, d) == Some(Outcome { value: rv, world, pure: true }));
            }
            return Some((result, true));
        }
        let step = self.apply(graph, function, argument, depth);
        let ghost middle = *self;
        proof {
            if middle.apply_cache@.contains_key(pair_key(function, argument)) {
                let known = middle.apply_cache@[pair_key(function, argument)];
                assert(always_gives(fv, av, middle.model@[known as int]));
                let n = choose|n: nat| gives_at(fv, av, middle.model@[known as int], n);
                assert(apply(fv, av, world, n) is Some);
                assert forall|d: nat| #[trigger] apply(fv, av, world, d) is Some implies d >= 1
                    && pure_within(fv, av, (d - 1) as nat) by {
                    assert(old(self).shallow(middle, d));
                    assert(old(self).learned(middle, function, argument));
                }
                lemma_descent(fv, av, world, n);
            }
            assert(!middle.apply_cache@.contains_key(pair_key(function, argument)));
            assert forall|d: nat| #[trigger] apply(fv, av, world, d) is Some implies old(
                self,
            ).shallow(middle, d + 1) by {
                old(self).lemma_shallow_deeper(middle, d, d + 1);
            }
        }
        let (result, step_pure) = match step {
            Some(found) => found,
            None => {
                return None;
            },
        };
        let ghost r = Outcome {
            value: middle.model@[result as int],
            world: middle.world(),
            pure: step_pure,
        };
        if operands_pure && step_pure {
            proof {
                let d = choose|d: nat| apply(fv, av, world, d) == Some(r);
                assert forall|other: World| #[trigger]
                    apply(fv, av, other, d) == Some(
                        Outcome { value: r.value, world: other, pure: true },
                    ) by {
                    lemma_pure_apply(fv, av, world, other, d);
                }
                assert(gives_at(fv, av, r.value, d));
                lemma_memory_insert(self.model@, self.apply_cache@, function, argument, result);
            }
            self.apply_cache.insert(key, result);
            proof {
                lemma_pure_apply(fv, av, world, world, choose|d: nat| apply(fv, av, world, d) == Some(r));
                assert(self.store().memory =~= middle.store().memory.insert(
                    pair_key(function, argument),
                    result,
                ));
                let last = *self;
                assert forall|d: nat| #[trigger] apply(fv, av, world, d) is Some implies old(
                    self,
                ).shallow(last, d + 1) by {
                    let d0 = choose|d0: nat| apply(fv, av, world, d0) == Some(r);
                    lemma_apply_agrees(fv, av, world, d0, d);
                    lemma_pure_apply(fv, av, world, blank(), d);
                    assert(pure_within(fv, av, d));
                    assert(old(self).shallow(middle, d + 1));
                    assert forall|g: usize, b: usize| #[trigger]
                        old(self).learned(last, g, b) implies pure_within(
                        last.model@[g as int],
                        last.model@[b as int],
                        d,
                    ) by {
                        if pair_key(g, b) == pair_key(function, argument) {
                            lemma_pair_key_injective(g, b, function, argument);
                        } else {
                            assert(old(self).learned(middle, g, b));
                        }
                    }
                }
            }
        }
        Some((result, step_pure))
    }

    /// Applies value `function` to value `argument`. The result is the id of
    /// the value that comes back and whether no bit was written or read; it
    /// is `None` where applications nest deeper than `depth`.
    pub fn apply(
        &mut self,
        graph: &ExpressionCache,
        function: usize,
        argument: usize,
        depth: usize,
    ) -> (result: Option<(usize, bool)>)
        requires
            old(self).wf(graph.keys()),
            function < old(self).size(),
            argument < old(self).size(),
        ensures
            final(self).wf(graph.keys()),
            old(self).grown_into(*final(self)),
            match result {
                Some((value, pure)) => value < final(self).size() && applies_to(
                    old(self).model()[function as int],
                    old(self).model()[argument as int],
                    old(self).world(),
                    Outcome { value: final(self).model()[value as int], world: final(self).world(), pure },
                ),
                None => apply(
                    old(self).model()[function as int],
                    old(self).model()[argument as int],
                    old(self).world(),
                    depth as nat,
                ) is None,
            },
            old(self).model()[function as int] is Debug ==> final(self).reports() == old(self).reports().push(
                Diagnostic {
                    after_bytes: old(self).output_bytes().len() as usize,
                    value: argument,
                },
            ),
            old(self).model()[function as int] is BitOutput || old(self).model()[function as int]
                is BitInput ==> final(self).reports() == old(self).reports(),
            (final(self).store(), result) == applied(
                graph.keys(),
                old(self).store(),
                function,
                argument,
                depth as nat,
            ),
            forall|d: nat| #[trigger]
                apply(
                    old(self).model()[function as int],
                    old(self).model()[argument as int],
                    old(self).world(),
                    d,
                ) is Some ==> old(self).shallow(*final(self), d),
        decreases depth, 1nat,
    {
        let ghost keys = graph.keys();
        let ghost world = self.world();
        let ghost fv = self.model@[function as int];
        let ghost av = self.model@[argument as int];
        assert(describes(
            self.values@.len(),
            self.environments@,
            self.model@,
            keys,
            self.values@[function as int].value,
            fv,
        ));
        match &self.values[function].value {
            LambdaValue::Closure { environment, body } => {
                let environment = *environment;
                let body = *body;
                let overlay = Environment::Overlay { base: environment, arg_value: argument };
                proof {
                    assert(self.environment_values(overlay) =~= seq![av] + values_named(
                        self.model@,
                        self.environments@[environment as int]@,
                    ));
                }
                let result = self.run_impl(graph, body, overlay, depth);
                proof {
                    let last = *self;
                    assert forall|d: nat| #[trigger] apply(fv, av, world, d) is Some implies old(
                        self,
                    ).shallow(last, d) by {
                        assert(evaluate(
                            term_of(keys, body as int),
                            old(self).environment_values(overlay),
                            world,
                            d,
                        ) is Some);
                    }
                    match result {
                        Some((value, pure)) => {
                            let outcome = Outcome {
                                value: self.model@[value as int],
                                world: self.world(),
                                pure,
                            };
                            let d = choose|d: nat|
                                evaluate(
                                    term_of(keys, body as int),
                                    old(self).environment_values(overlay),
                                    world,
                                    d,
                                ) == Some(outcome);
                            assert(apply(fv, av, world, d) == Some(outcome));
                        },
                        None => {},
                    }
                }
                result
            },
            LambdaValue::BitOutput { bit } => {
                let bit = *bit;
                self.write_bit(bit);
                proof {
                    assert(apply(fv, av, world, 0) == Some(
                        Outcome { value: av, world: self.world(), pure: false },
                    ));
                }
                Some((argument, false))
            },
            LambdaValue::BitInput { continuations } => {
                if continuations.len() < 3 {
                    let mut next = continuations.clone();
                    assert(next@ =~= continuations@);
                    next.push(argument);
                    let ghost meaning = Value::BitInput {
                        continuations: values_named(self.model@, next@),
                    };
                    proof {
                        assert(values_named(self.model@, next@) =~= values_named(
                            self.model@,
                            continuations@,
                        ).push(av));
                    }
                    let id = self.allocate(
                        LambdaValue::BitInput { continuations: next },
                        Ghost(keys),
                        Ghost(meaning),
                    );
                    proof {
                        assert(apply(fv, av, world, 0) == Some(
                            Outcome { value: self.model@[id as int], world, pure: true },
                        ));
                    }
                    Some((id, true))
                } else {
                    let on_zero = continuations[0];
                    let on_one = continuations[1];
                    let on_end = continuations[2];
                    let bit = self.read_bit();
                    let chosen = match bit {
                        Some(b) => if b == 0 {
                            on_zero
                        } else {
                            on_one
                        },
                        None => on_end,
                    };
                    proof {
                        assert(apply(fv, av, world, 0) == Some(
                            Outcome { value: self.model@[chosen as int], world: self.world(), pure: false },
                        ));
                    }
                    Some((chosen, false))
                }
            },
            LambdaValue::Debug => {
                let report = Diagnostic { after_bytes: self.sink.len(), value: argument };
                self.diagnostics.push(report);
                proof {
                    assert(apply(fv, av, world, 0) == Some(Outcome { value: av, world, pure: true }));
                }
                Some((argument, true))
            },
        }
    }
}

/// Why a run did not start.
#[derive(Debug)]
pub enum Error<'a> {
    /// These free variables are no builtins.
    UndefinedVariable(Vec<&'a Token<'a>>),
}

/// What kind of value an evaluation ended in.
#[derive(Debug, Clone, Copy, PartialEq, Eq)]
pub enum Summary {
    Closure,
    BitOutput { bit: u8 },
    BitInput { stage: usize },
    Debug,
}

/// What a run left behind.
#[derive(Debug)]
pub struct RunResult {
    /// The bytes of output that were completed.
    pub output: Vec<u8>,
    /// The bits written behind the last completed byte.
    pub unflushed: BitOutputStream,
    /// The kind of the value that the program evaluated to, or `None` where
    /// the evaluation was given up because applications nested too deep.
    pub value: Option<Summary>,
    /// The reports of the debug value, in the order in which they were made.
    pub diagnostics: Vec<Diagnostic>,
}

/// The value that a free variable of this name stands for, where the name is
/// one of the four builtins.
pub open spec fn builtin(name: Seq<char>) -> Option<Value> {
    if name == "__builtin_p0"@ {
        Some(Value::BitOutput { bit: 0 })
    } else if name == "__builtin_p1"@ {
        Some(Value::BitOutput { bit: 1 })
    } else if name == "__builtin_g"@ {
        Some(Value::BitInput { continuations: Seq::empty() })
    } else if name == "__builtin_debug"@ {
        Some(Value::Debug)
    } else {
        None
    }
}

/// The value that a free variable of this name is bound to, as it is held.
pub open spec fn builtin_shape(name: Seq<char>) -> Option<Shape> {
    if name == "__builtin_p0"@ {
        Some(Shape::BitOutput { bit: 0 })
    } else if name == "__builtin_p1"@ {
        Some(Shape::BitOutput { bit: 1 })
    } else if name == "__builtin_g"@ {
        Some(Shape::BitInput { continuations: Seq::empty() })
    } else if name == "__builtin_debug"@ {
        Some(Shape::Debug)
    } else {
        None
    }
}

/// The store after the builtins that `tokens` name were made, one value for
/// each token behind the values that were there, and their ids were stored
/// as one more environment.
pub open spec fn bound(store: Store, tokens: Seq<TokenView>) -> Store {
    Store {
        values: store.values + Seq::new(tokens.len(), |i: int| builtin_shape(tokens[i].raw)->0),
        environments: store.environments.push(
            Seq::new(tokens.len(), |i: int| (store.values.len() + i) as usize),
        ),
        ..store
    }
}

/// The kind of a value as it is held.
pub open spec fn shape_summary(shape: Shape) -> Summary {
    match shape {
        Shape::Closure { .. } => Summary::Closure,
        Shape::BitOutput { bit } => Summary::BitOutput { bit },
        Shape::BitInput { continuations } => Summary::BitInput {
            stage: continuations.len() as usize,
        },
        Shape::Debug => Summary::Debug,
    }
}

/// The four names of the builtins are four different names, each with its
/// value.
pub proof fn lemma_builtins()
    ensures
        builtin_shape("__builtin_p0"@) == Some(Shape::BitOutput { bit: 0 }),
        builtin_shape("__builtin_p1"@) == Some(Shape::BitOutput { bit: 1 }),
        builtin_shape("__builtin_g"@) == Some(Shape::BitInput { continuations: Seq::empty() }),
        builtin_shape("__builtin_debug"@) == Some(Shape::Debug),
        builtin("__builtin_p0"@) == Some(Value::BitOutput { bit: 0 }),
        builtin("__builtin_p1"@) == Some(Value::BitOutput { bit: 1 }),
        builtin("__builtin_g"@) == Some(Value::BitInput { continuations: Seq::empty() }),
        builtin("__builtin_debug"@) == Some(Value::Debug),
{
    reveal_strlit("__builtin_p0");
    reveal_strlit("__builtin_p1");
    reveal_strlit("__builtin_g");
    reveal_strlit("__builtin_debug");
    assert("__builtin_p0"@[11] == '0');
    assert("__builtin_p1"@[11] == '1');
    assert("__builtin_g"@.len() == 11);
    assert("__builtin_debug"@.len() == 15);
}

/// The tokens whose text is no builtin, in their order.
pub open spec fn undefined(tokens: Seq<TokenView>) -> Seq<TokenView> {
    tokens.filter(|token: TokenView| builtin(token.raw) is None)
}

/// The environment that binds each free variable to its builtin.
pub open spec fn builtins(tokens: Seq<TokenView>) -> Seq<Value> {
    Seq::new(tokens.len(), |i: int| builtin(tokens[i].raw)->0)
}

/// The world before a run: nothing written, all of `input` unread.
pub open spec fn start(input: Seq<u8>) -> World {
    World { written: Seq::empty(), unread: bits_of_bytes(input) }
}

/// The kind of a value.
pub open spec fn summary_of(value: Value) -> Summary {
    match value {
        Value::Closure { .. } => Summary::Closure,
        Value::BitOutput { bit } => Summary::BitOutput { bit },
        Value::BitInput { continuations } => Summary::BitInput {
            stage: continuations.len() as usize,
        },
        Value::Debug => Summary::Debug,
    }
}

/// Whether `result` is what a run of expression `expression` leaves behind:
/// the builtins that `free` names are made in a fresh store, with `input` to
/// read, and the expression is evaluated step by step in their environment.
/// The result holds the bits that were written, as completed bytes and
/// fewer than eight bits behind them; the reports that were made, each with
/// the number of bytes completed by then; and the kind of the value that came
/// back, or `None` where applications nest deeper than `depth`. Where a
/// value came back, it is what evaluation without any memory gives: the same
/// kind of value, the same bits written and read, the same purity.
pub open spec fn ran(
    keys: Seq<Key>,
    expression: usize,
    free: Seq<TokenView>,
    input: Seq<u8>,
    depth: nat,
    result: RunResult,
) -> bool {
    let term = term_of(keys, expression as int);
    let (store, ended) = evaluated(
        keys,
        bound(fresh(input), free),
        expression,
        Environment::Base(0),
        depth,
    );
    &&& result.unflushed.pending().len() < 8
    &&& bits_of_bytes(result.output@) + result.unflushed.pending() == store.world.written
    &&& result.diagnostics@ == store.reports
    &&& in_order(result.diagnostics@, result.output@.len())
    &&& match ended {
        Some((id, pure)) => {
            &&& id < store.values.len()
            &&& result.value == Some(shape_summary(store.values[id as int]))
            &&& exists|outcome: Outcome|
                {
                    &&& #[trigger] evaluates_to(term, builtins(free), start(input), outcome)
                    &&& outcome.world == store.world
                    &&& outcome.pure == pure
                    &&& summary_of(outcome.value) == shape_summary(store.values[id as int])
                }
        },
        None => result.value is None && evaluate(term, builtins(free), start(input), depth)
            is None,
    }
}

fn builtin_of(name: &str) -> (value: Option<LambdaValue>)
    ensures
        match value {
            Some(LambdaValue::BitOutput { bit }) => bit <= 1 && builtin(name@) == Some(
                Value::BitOutput { bit },
            ),
            Some(LambdaValue::BitInput { continuations }) => continuations@.len() == 0 && builtin(
                name@,
            ) == Some(Value::BitInput { continuations: Seq::empty() }),
            Some(LambdaValue::Debug) => builtin(name@) == Some(Value::Debug),
            Some(LambdaValue::Closure { .. }) => false,
            None => builtin(name@) is None,
        },
        value is Some ==> builtin_shape(name@) == Some(value->0.shape()),
{
    if same_text(name, "__builtin_p0") {
        Some(LambdaValue::BitOutput { bit: 0 })
    } else if same_text(name, "__builtin_p1") {
        Some(LambdaValue::BitOutput { bit: 1 })
    } else if same_text(name, "__builtin_g") {
        Some(LambdaValue::BitInput { continuations: Vec::new() })
    } else if same_text(name, "__builtin_debug") {
        Some(LambdaValue::Debug)
    } else {
        None
    }
}

fn summarize(value: &LambdaValue) -> (summary: Summary)
    ensures
        forall|
            size: nat,
            environments: Seq<BaseEnvironment>,
            model: Seq<Value>,
            keys: Seq<Key>,
            meaning: Value,
        | #[trigger]
            describes(size, environments, model, keys, *value, meaning) ==> summary_of(meaning)
                == summary,
        summary == shape_summary(value.shape()),
{
    match value {
        LambdaValue::Closure { .. } => Summary::Closure,
        LambdaValue::BitOutput { bit } => Summary::BitOutput { bit: *bit },
        LambdaValue::BitInput { continuations } => Summary::BitInput { stage: continuations.len() },
        LambdaValue::Debug => Summary::Debug,
    }
}

proof fn lemma_none_undefined(tokens: Seq<TokenView>, i: int)
    requires
        undefined(tokens).len() == 0,
        0 <= i < tokens.len(),
    ensures
        builtin(tokens[i].raw) is Some,
{
    let pred = |token: TokenView| builtin(token.raw) is None;
    if pred(tokens[i]) {
        tokens.lemma_filter_contains(pred, i);
        assert(tokens.filter(pred).contains(tokens[i]));
    }
}

/// Binds the free variables to the builtins and evaluates expression
/// `expression` of `graph`, reading bits from `input`. Where a free variable
/// is no builtin nothing is evaluated, and all such variables are reported.
pub fn run<'a>(
    graph: &ExpressionCache,
    expression: usize,
    free_vars: &Vec<&'a Token<'a>>,
    input: Vec<u8>,
    depth: usize,
) -> (result: Result<RunResult, Error<'a>>)
    requires
        expression < graph.size(),
        closed(graph.term(expression as int), free_vars@.len()),
    ensures
        match result {
            Err(Error::UndefinedVariable(tokens)) => {
                &&& tokens@.len() > 0
                &&& views_of(tokens@) == undefined(views_of(free_vars@))
            },
            Ok(outcome) => {
                &&& undefined(views_of(free_vars@)).len() == 0
                &&& ran(
                    graph.keys(),
                    expression,
                    views_of(free_vars@),
                    input@,
                    depth as nat,
                    outcome,
                )
            },
        },
{
    let ghost keys = graph.keys();
    let ghost views = views_of(free_vars@);
    let ghost pred = |token: TokenView| builtin(token.raw) is None;
    let mut undefined_vars: Vec<&'a Token<'a>> = Vec::new();
    let mut i: usize = 0;
    proof {
        assert(views.take(0) =~= Seq::<TokenView>::empty());
        assert(views_of(undefined_vars@) =~= Seq::<TokenView>::empty());
        reveal(Seq::filter);
    }
    while i < free_vars.len()
        invariant
            i <= free_vars.len(),
            views == views_of(free_vars@),
            pred == (|token: TokenView| builtin(token.raw) is None),
            views_of(undefined_vars@) == views.take(i as int).filter(pred),
        decreases free_vars.len() - i,
    {
        let token = free_vars[i];
        let ghost before = views_of(undefined_vars@);
        proof {
            assert(views.take(i + 1) =~= views.take(i as int).push(views[i as int]));
            views.take(i as int).lemma_filter_push(views[i as int], pred);
        }
        if builtin_of(token.token_raw).is_none() {
            undefined_vars.push(token);
            proof {
                assert(views_of(undefined_vars@) =~= before.push(views[i as int]));
            }
        }
        i += 1;
    }
    proof {
        assert(views.take(free_vars@.len() as int) =~= views);
    }
    if undefined_vars.len() > 0 {
        return Err(Error::UndefinedVariable(undefined_vars));
    }
    let mut cache = RunCache::new(graph, input);
    let root = cache.bind(graph, free_vars);
    let result = cache.run_impl(graph, expression, root, depth);
    let value = match result {
        Some((id, pure)) => Some(cache.summary(graph, id)),
        None => None,
    };
    let ghost world = cache.world();
    let ghost ended = match result {
        Some((id, pure)) => Outcome { value: cache.model@[id as int], world, pure },
        None => Outcome { value: Value::Debug, world, pure: true },
    };
    let ghost store = cache.store();
    proof {
        assert(cache.output.pending().len() < 8);
        assert(in_order(cache.diagnostics@, cache.sink@.len()));
        assert(start(input@) == fresh(input@).world);
        if result is Some {
            assert(evaluates_to(
                graph.term(expression as int),
                builtins(views),
                start(input@),
                ended,
            ));
            assert(ended.world == store.world);
        }
    }
    let RunCache { sink, output, diagnostics, .. } = cache;
    let outcome = RunResult { output: sink, unflushed: output, value, diagnostics };
    Ok(outcome)
}

/// One line for each token: its text as an undefined variable, and its place.
pub open spec fn undefined_text(tokens: Seq<TokenView>) -> Seq<char>
    decreases tokens.len(),
{
    if tokens.len() == 0 {
        Seq::empty()
    } else {
        undefined_text(tokens.drop_last()) + "Undefined variable \""@ + tokens.last().raw
            + "\" ("@ + location_text(tokens.last().line, tokens.last().column) + ")\n"@
    }
}

impl<'a> Error<'a> {
    /// The variables that the error holds, as plain values.
    pub open spec fn variables(self) -> Seq<TokenView> {
        match self {
            Error::UndefinedVariable(tokens) => views_of(tokens@),
        }
    }

    /// The error in a few words.
    pub fn description(&self) -> (words: &'static str)
        ensures
            words@ == "undefined free variable"@,
    {
        "undefined free variable"
    }

    /// One line for each undefined variable, with its place.
    pub fn to_string(&self) -> (text: String)
        ensures
            text@ == undefined_text(self.variables()),
    {
        match self {
            Error::UndefinedVariable(vars) => {
                let ghost views = views_of(vars@);
                let mut text = String::new();
                let mut i: usize = 0;
                proof {
                    assert(views.take(0) =~= Seq::<TokenView>::empty());
                }
                while i < vars.len()
                    invariant
                        i <= vars@.len(),
                        views == views_of(vars@),
                        text@ == undefined_text(views.take(i as int)),
                    decreases vars@.len() - i,
                {
                    let var = vars[i];
                    proof {
                        assert(views.take(i + 1).drop_last() =~= views.take(i as int));
                        assert(views.take(i + 1).last() == var@);
                    }
                    text.append("Undefined variable \"");
                    text.append(var.token_raw);
                    text.append("\" (");
                    text.append(var.location.to_string().as_str());
                    text.append(")\n");
                    i += 1;
                }
                proof {
                    assert(views.take(vars@.len() as int) =~= views);
                }
                text
            },
        }
    }
}

} // verus!
