//! Resolving names to environment slots and building the shared expression
//! graph.

use crate::parser::{Node, Syntax};
use crate::text::same_text;
use crate::tokenizer::{views_of, Token, TokenView};
use std::collections::HashMap;
use vstd::prelude::*;

verus! {

/// A reference to a slot of the environment in force.
#[derive(Debug)]
pub struct IdentifierExpression {
    pub name: usize,
}

/// A function. Entry `i` of `env_map` is the slot of the enclosing
/// environment whose value becomes slot `i + 1` of the function's own
/// environment; slot 0 is kept for the argument.
#[derive(Debug)]
pub struct LambdaExpression {
    pub env_map: Vec<usize>,
    pub body: usize,
}

/// An application of one expression to another.
#[derive(Debug)]
pub struct ApplyExpression {
    pub lambda: usize,
    pub parameter: usize,
}

/// What an expression is: a reference to a slot, a function, or an
/// application.
#[derive(Debug)]
pub enum ExpressionValue {
    Identifier(IdentifierExpression),
    Lambda(LambdaExpression),
    Apply(ApplyExpression),
}

/// A node of the graph. Its `id` is its place in the graph that holds it, and
/// the expressions it names are named by their ids.
#[derive(Debug)]
pub struct Expression {
    pub value: ExpressionValue,
    pub id: usize,
}

/// An expression written out as a tree.
pub ghost enum Term {
    Identifier { slot: nat },
    Lambda { captured: Seq<nat>, body: Box<Term> },
    Apply { function: Box<Term>, argument: Box<Term> },
}

/// Whether every free slot of `term` is below `size` and every function in it
/// captures as many values as its body reads.
pub open spec fn closed(term: Term, size: nat) -> bool
    decreases term,
{
    match term {
        Term::Identifier { slot } => slot < size,
        Term::Lambda { captured, body } => {
            &&& forall|k: int| 0 <= k < captured.len() ==> #[trigger] captured[k] < size
            &&& closed(*body, captured.len() + 1)
        },
        Term::Apply { function, argument } => closed(*function, size) && closed(*argument, size),
    }
}

/// What tells one node from another: its kind and what it names.
pub ghost enum Key {
    Identifier(usize),
    Lambda(Seq<usize>, usize),
    Apply(usize, usize),
}

impl ExpressionValue {
    /// The kind of the expression and what it names.
    pub open spec fn key(self) -> Key {
        match self {
            ExpressionValue::Identifier(e) => Key::Identifier(e.name),
            ExpressionValue::Lambda(e) => Key::Lambda(e.env_map@, e.body),
            ExpressionValue::Apply(e) => Key::Apply(e.lambda, e.parameter),
        }
    }
}

impl Key {
    /// Whether every expression that the key names has an id below `bound`.
    pub open spec fn below(self, bound: int) -> bool {
        match self {
            Key::Identifier(_) => true,
            Key::Lambda(_, body) => body < bound,
            Key::Apply(lambda, parameter) => lambda < bound && parameter < bound,
        }
    }
}

/// The slots of a sequence as natural numbers.
pub open spec fn slots_of(slots: Seq<usize>) -> Seq<nat> {
    Seq::new(slots.len(), |i: int| slots[i] as nat)
}

/// The tree that entry `id` of `keys` stands for, where every entry names
/// entries before it.
pub open spec fn term_of(keys: Seq<Key>, id: int) -> Term
    decreases id,
{
    if 0 <= id < keys.len() && keys[id].below(id) {
        match keys[id] {
            Key::Identifier(slot) => Term::Identifier { slot: slot as nat },
            Key::Lambda(captured, body) => Term::Lambda {
                captured: slots_of(captured),
                body: Box::new(term_of(keys, body as int)),
            },
            Key::Apply(lambda, parameter) => Term::Apply {
                function: Box::new(term_of(keys, lambda as int)),
                argument: Box::new(term_of(keys, parameter as int)),
            },
        }
    } else {
        Term::Identifier { slot: 0 }
    }
}

/// The entries with `key` among them: as they are if they hold it, else with
/// `key` behind them.
pub open spec fn grown(keys: Seq<Key>, key: Key) -> Seq<Key> {
    if keys.contains(key) {
        keys
    } else {
        keys.push(key)
    }
}

/// Whether each entry names only entries before it and no two entries are
/// alike.
pub open spec fn interned(keys: Seq<Key>) -> bool {
    &&& forall|i: int| 0 <= i < keys.len() ==> (#[trigger] keys[i]).below(i)
    &&& forall|i: int, j: int|
        0 <= i < keys.len() && 0 <= j < keys.len() && #[trigger] keys[i] == #[trigger] keys[j]
            ==> i == j
}

proof fn lemma_slots_injective(a: Seq<usize>, b: Seq<usize>)
    requires
        slots_of(a) == slots_of(b),
    ensures
        a == b,
{
    assert(a.len() == slots_of(a).len());
    assert(b.len() == slots_of(b).len());
    assert forall|i: int| 0 <= i < a.len() implies a[i] == b[i] by {
        assert(slots_of(a)[i] == a[i] as nat);
        assert(slots_of(b)[i] == b[i] as nat);
    }
    assert(a =~= b);
}

/// In an interned graph two entries that stand for the same tree are one
/// entry.
pub proof fn lemma_same_term_same_id(keys: Seq<Key>, i: int, j: int)
    requires
        interned(keys),
        0 <= i < keys.len(),
        0 <= j < keys.len(),
        term_of(keys, i) == term_of(keys, j),
    ensures
        i == j,
    decreases i,
{
    assert(keys[i].below(i));
    assert(keys[j].below(j));
    match keys[i] {
        Key::Identifier(slot) => {
            assert(keys[i] == keys[j]);
        },
        Key::Lambda(captured, body) => {
            let other_captured = keys[j]->Lambda_0;
            let other_body = keys[j]->Lambda_1;
            lemma_slots_injective(captured, other_captured);
            lemma_same_term_same_id(keys, body as int, other_body as int);
            assert(keys[i] == keys[j]);
        },
        Key::Apply(lambda, parameter) => {
            lemma_same_term_same_id(keys, lambda as int, keys[j]->Apply_0 as int);
            lemma_same_term_same_id(keys, parameter as int, keys[j]->Apply_1 as int);
            assert(keys[i] == keys[j]);
        },
    }
}

/// Entries keep their trees when more entries are added behind them.
pub proof fn lemma_term_of_prefix(keys: Seq<Key>, longer: Seq<Key>, id: int)
    requires
        keys.len() <= longer.len(),
        forall|i: int| 0 <= i < keys.len() ==> keys[i] == longer[i],
        0 <= id < keys.len(),
    ensures
        term_of(longer, id) == term_of(keys, id),
    decreases id,
{
    if keys[id].below(id) {
        match keys[id] {
            Key::Identifier(slot) => {},
            Key::Lambda(captured, body) => {
                lemma_term_of_prefix(keys, longer, body as int);
            },
            Key::Apply(lambda, parameter) => {
                lemma_term_of_prefix(keys, longer, lambda as int);
                lemma_term_of_prefix(keys, longer, parameter as int);
            },
        }
    }
}

fn same_slots(a: &Vec<usize>, b: &Vec<usize>) -> (same: bool)
    ensures
        same == (a@ == b@),
{
    if a.len() != b.len() {
        return false;
    }
    let mut i: usize = 0;
    while i < a.len()
        invariant
            a.len() == b.len(),
            i <= a.len(),
            forall|k: int| 0 <= k < i ==> a[k] == b[k],
        decreases a.len() - i,
    {
        if a[i] != b[i] {
            return false;
        }
        i += 1;
    }
    assert(a@ =~= b@);
    true
}

/// Whether the first `upto` of the slots are below `size`.
spec fn all_below(slots: Seq<nat>, upto: int, size: nat) -> bool {
    forall|j: int| 0 <= j < upto ==> #[trigger] slots[j] < size
}

/// The size of the smallest environment that has all of `slots`.
fn least_size(slots: &Vec<usize>) -> (least: u128)
    ensures
        forall|size: nat|
            least <= size <==> #[trigger] all_below(slots_of(slots@), slots@.len() as int, size),
{
    let ghost all = slots_of(slots@);
    let mut least: u128 = 0;
    let mut k: usize = 0;
    while k < slots.len()
        invariant
            k <= slots@.len(),
            all == slots_of(slots@),
            forall|size: nat| least <= size <==> #[trigger] all_below(all, k as int, size),
        decreases slots@.len() - k,
    {
        let slot = slots[k] as u128 + 1;
        let ghost before = least;
        if slot > least {
            least = slot;
        }
        proof {
            assert(all[k as int] == slots@[k as int] as nat);
            assert forall|size: nat| least <= size <==> #[trigger] all_below(all, k + 1, size) by {
                assert(before <= size <==> all_below(all, k as int, size));
                if all_below(all, k + 1, size) {
                    assert(all[k as int] < size);
                }
            }
        }
        k += 1;
    }
    least
}

/// Whether `demand` is the size of the smallest environment in which `term`
/// is closed, or `None` and it is closed in none.
spec fn measures(demand: Option<u128>, term: Term) -> bool {
    match demand {
        Some(least) => forall|size: nat| #[trigger] closed(term, size) <==> least <= size,
        None => forall|size: nat| !#[trigger] closed(term, size),
    }
}

/// One number for a pair of ids, a different one for every pair.
pub open spec fn pair_key(first: usize, second: usize) -> u128 {
    (first as u128 * 0x1_0000_0000_0000_0000u128 + second as u128) as u128
}

/// One number for a pair of ids.
pub fn make_pair_key(first: usize, second: usize) -> (key: u128)
    ensures
        key == pair_key(first, second),
{
    (first as u128) * 0x1_0000_0000_0000_0000u128 + (second as u128)
}

/// Different pairs have different numbers.
pub proof fn lemma_pair_key_injective(f: usize, a: usize, g: usize, b: usize)
    requires
        pair_key(f, a) == pair_key(g, b),
    ensures
        f == g,
        a == b,
{
}

spec fn keys_of(nodes: Seq<Expression>) -> Seq<Key> {
    Seq::new(nodes.len(), |i: int| nodes[i].value.key())
}

/// Whether the table finds every identifier by its slot, and nothing else.
spec fn identifiers_ok(keys: Seq<Key>, table: Map<usize, usize>) -> bool {
    &&& forall|slot: usize| #[trigger]
        table.contains_key(slot) ==> table[slot] < keys.len() && keys[table[slot] as int]
            == Key::Identifier(slot)
    &&& forall|i: int|
        0 <= i < keys.len() && (#[trigger] keys[i]) is Identifier ==> table.contains_key(
            keys[i]->Identifier_0,
        )
}

/// Whether the table finds every application by the pair it names, and
/// nothing else.
spec fn applies_ok(keys: Seq<Key>, table: Map<u128, usize>) -> bool {
    &&& forall|f: usize, a: usize| #[trigger]
        table.contains_key(pair_key(f, a)) ==> table[pair_key(f, a)] < keys.len()
            && keys[table[pair_key(f, a)] as int] == Key::Apply(f, a)
    &&& forall|i: int|
        0 <= i < keys.len() && (#[trigger] keys[i]) is Apply ==> table.contains_key(
            pair_key(keys[i]->Apply_0, keys[i]->Apply_1),
        )
}

/// Whether the table lists every function under its body, and nothing else.
spec fn lambdas_ok(keys: Seq<Key>, table: Map<usize, Vec<usize>>) -> bool {
    &&& forall|body: usize, k: int|
        table.contains_key(body) && 0 <= k < table[body]@.len() ==> {
            &&& (#[trigger] table[body]@[k]) < keys.len()
            &&& keys[table[body]@[k] as int] is Lambda
            &&& keys[table[body]@[k] as int]->Lambda_1 == body
        }
    &&& forall|i: int|
        0 <= i < keys.len() && (#[trigger] keys[i]) is Lambda ==> {
            &&& table.contains_key(keys[i]->Lambda_1)
            &&& table[keys[i]->Lambda_1]@.contains(i as usize)
        }
}

spec fn well_formed(
    nodes: Seq<Expression>,
    identifiers: Map<usize, usize>,
    lambdas: Map<usize, Vec<usize>>,
    applies: Map<u128, usize>,
) -> bool {
    &&& interned(keys_of(nodes))
    &&& forall|i: int| 0 <= i < nodes.len() ==> (#[trigger] nodes[i]).id == i
    &&& identifiers_ok(keys_of(nodes), identifiers)
    &&& lambdas_ok(keys_of(nodes), lambdas)
    &&& applies_ok(keys_of(nodes), applies)
}

/// A new entry keeps the graph interned if it names entries before it and is
/// like none of them.
proof fn lemma_interned_push(keys: Seq<Key>, key: Key)
    requires
        interned(keys),
        key.below(keys.len() as int),
        forall|i: int| 0 <= i < keys.len() ==> keys[i] != key,
    ensures
        interned(keys.push(key)),
{
    let keys2 = keys.push(key);
    assert forall|i: int| 0 <= i < keys2.len() implies (#[trigger] keys2[i]).below(i) by {
        if i < keys.len() {
            assert(keys[i].below(i));
        }
    }
}

proof fn lemma_identifiers_push(keys: Seq<Key>, table: Map<usize, usize>, key: Key)
    requires
        identifiers_ok(keys, table),
        !(key is Identifier),
    ensures
        identifiers_ok(keys.push(key), table),
{
    let keys2 = keys.push(key);
    assert forall|slot: usize| #[trigger] table.contains_key(slot) implies table[slot]
        < keys2.len() && keys2[table[slot] as int] == Key::Identifier(slot) by {
        assert(keys2[table[slot] as int] == keys[table[slot] as int]);
    }
    assert forall|i: int|
        0 <= i < keys2.len() && (#[trigger] keys2[i]) is Identifier implies table.contains_key(
        keys2[i]->Identifier_0,
    ) by {
        assert(keys2[i] == keys[i]);
    }
}

proof fn lemma_applies_push(keys: Seq<Key>, table: Map<u128, usize>, key: Key)
    requires
        applies_ok(keys, table),
        !(key is Apply),
    ensures
        applies_ok(keys.push(key), table),
{
    let keys2 = keys.push(key);
    assert forall|f: usize, a: usize| #[trigger]
        table.contains_key(pair_key(f, a)) implies table[pair_key(f, a)] < keys2.len()
        && keys2[table[pair_key(f, a)] as int] == Key::Apply(f, a) by {
        assert(keys2[table[pair_key(f, a)] as int] == keys[table[pair_key(f, a)] as int]);
    }
    assert forall|i: int|
        0 <= i < keys2.len() && (#[trigger] keys2[i]) is Apply implies table.contains_key(
        pair_key(keys2[i]->Apply_0, keys2[i]->Apply_1),
    ) by {
        assert(keys2[i] == keys[i]);
    }
}

proof fn lemma_lambdas_push(keys: Seq<Key>, table: Map<usize, Vec<usize>>, key: Key)
    requires
        lambdas_ok(keys, table),
        !(key is Lambda),
    ensures
        lambdas_ok(keys.push(key), table),
{
    let keys2 = keys.push(key);
    assert forall|body: usize, k: int|
        table.contains_key(body) && 0 <= k < table[body]@.len() implies {
        &&& (#[trigger] table[body]@[k]) < keys2.len()
        &&& keys2[table[body]@[k] as int] is Lambda
        &&& keys2[table[body]@[k] as int]->Lambda_1 == body
    } by {
        assert(keys2[table[body]@[k] as int] == keys[table[body]@[k] as int]);
    }
    assert forall|i: int| 0 <= i < keys2.len() && (#[trigger] keys2[i]) is Lambda implies {
        &&& table.contains_key(keys2[i]->Lambda_1)
        &&& table[keys2[i]->Lambda_1]@.contains(i as usize)
    } by {
        assert(keys2[i] == keys[i]);
    }
}

/// The expression graph. Alike expressions are stored once, so that two
/// expressions are the same expression exactly when their ids are equal.
#[derive(Debug)]
pub struct ExpressionCache {
    nodes: Vec<Expression>,
    identifier_cache: HashMap<usize, usize>,
    lambda_cache: HashMap<usize, Vec<usize>>,
    apply_cache: HashMap<u128, usize>,
}

impl ExpressionCache {
    /// The keys of the entries, by id.
    pub closed spec fn keys(self) -> Seq<Key> {
        keys_of(self.nodes@)
    }

    /// Whether every expression names expressions before it, no two
    /// expressions are alike, and the tables find each of them.
    #[verifier::type_invariant]
    pub closed spec fn wf(self) -> bool {
        well_formed(self.nodes@, self.identifier_cache@, self.lambda_cache@, self.apply_cache@)
    }

    /// The tree that expression `id` stands for.
    pub open spec fn term(self, id: int) -> Term {
        term_of(self.keys(), id)
    }

    /// How many expressions the graph holds.
    pub open spec fn size(self) -> nat {
        self.keys().len()
    }

    /// Whether `other` holds every expression of this graph under its id.
    pub open spec fn extended_by(self, other: ExpressionCache) -> bool {
        &&& self.size() <= other.size()
        &&& forall|i: int| 0 <= i < self.size() ==> self.keys()[i] == other.keys()[i]
    }

    /// In a graph every expression names expressions before it, and no two
    /// expressions are alike.
    pub proof fn lemma_interned(self)
        requires
            self.wf(),
        ensures
            interned(self.keys()),
    {
    }

    /// Two expressions of one graph that stand for the same tree are one
    /// expression.
    pub proof fn lemma_one_id_per_term(self, first: int, second: int)
        requires
            self.wf(),
            0 <= first < self.size(),
            0 <= second < self.size(),
            self.term(first) == self.term(second),
        ensures
            first == second,
    {
        lemma_same_term_same_id(self.keys(), first, second);
    }

    /// A tree that is resolved twice for one graph gets the same id both
    /// times, if the second scope starts with the scope that the first
    /// resolution left: no name of the tree is new then.
    pub proof fn lemma_identical_subtrees_share_id(
        self,
        syntax: Syntax,
        scope: Seq<TokenView>,
        later: Seq<TokenView>,
        first: int,
        second: int,
    )
        requires
            self.wf(),
            0 <= first < self.size(),
            0 <= second < self.size(),
            self.term(first) == resolve(syntax, scope).0,
            self.term(second) == resolve(syntax, later).0,
            starts_with(later, resolve(syntax, scope).1),
        ensures
            first == second,
    {
        lemma_resolve_repeats(syntax, scope, later);
        self.lemma_one_id_per_term(first, second);
    }

    /// An empty graph.
    pub fn new() -> (cache: ExpressionCache)
        ensures
            cache.wf(),
            cache.size() == 0,
    {
        ExpressionCache {
            nodes: Vec::new(),
            identifier_cache: HashMap::new(),
            lambda_cache: HashMap::new(),
            apply_cache: HashMap::new(),
        }
    }

    /// How many expressions the graph holds.
    pub fn len(&self) -> (n: usize)
        ensures
            n == self.size(),
    {
        self.nodes.len()
    }

    /// The expression with the given id.
    pub fn get(&self, id: usize) -> (expression: &Expression)
        requires
            id < self.size(),
        ensures
            expression.id == id,
            expression.value.key() == self.keys()[id as int],
            expression.value.key().below(id as int),
    {
        proof {
            use_type_invariant(self);
            assert(self.keys()[id as int].below(id as int));
        }
        &self.nodes[id]
    }

    /// Whether expression `expression` reads no slot outside an environment
    /// of `size` values, and every function in it captures as many values as
    /// its body reads.
    pub fn closed_in(&self, expression: usize, size: usize) -> (fits: bool)
        requires
            expression < self.size(),
        ensures
            fits == closed(self.term(expression as int), size as nat),
    {
        proof {
            use_type_invariant(self);
        }
        let ghost keys = self.keys();
        let count = self.nodes.len();
        let mut demands: Vec<Option<u128>> = Vec::new();
        let mut i: usize = 0;
        while i <= expression
            invariant
                self.wf(),
                keys == self.keys(),
                count == keys.len(),
                expression < count,
                i <= expression + 1,
                demands@.len() == i,
                forall|k: int| 0 <= k < i ==> measures(#[trigger] demands@[k], term_of(keys, k)),
            decreases expression + 1 - i,
        {
            assert(keys[i as int].below(i as int));
            let ghost term = term_of(keys, i as int);
            let demand = match &self.nodes[i].value {
                ExpressionValue::Identifier(identifier) => {
                    let demand = identifier.name as u128 + 1;
                    assert(measures(Some(demand), term));
                    Some(demand)
                },
                ExpressionValue::Apply(apply) => {
                    let ghost function_term = term_of(keys, apply.lambda as int);
                    let ghost argument_term = term_of(keys, apply.parameter as int);
                    assert(measures(demands@[apply.lambda as int], function_term));
                    assert(measures(demands@[apply.parameter as int], argument_term));
                    let demand = match (demands[apply.lambda], demands[apply.parameter]) {
                        (Some(function), Some(argument)) => if function >= argument {
                            Some(function)
                        } else {
                            Some(argument)
                        },
                        _ => None,
                    };
                    proof {
                        assert forall|n: nat| #[trigger]
                            closed(term, n) <==> closed(function_term, n) && closed(
                                argument_term,
                                n,
                            ) by {}
                        assert(measures(demand, term));
                    }
                    demand
                },
                ExpressionValue::Lambda(lambda) => {
                    let ghost body_term = term_of(keys, lambda.body as int);
                    let ghost captured = slots_of(lambda.env_map@);
                    assert(measures(demands@[lambda.body as int], body_term));
                    proof {
                        assert forall|n: nat| #[trigger]
                            closed(term, n) <==> all_below(captured, captured.len() as int, n)
                                && closed(body_term, captured.len() + 1) by {}
                    }
                    let demand = match demands[lambda.body] {
                        Some(body) => if body <= lambda.env_map.len() as u128 + 1 {
                            Some(least_size(&lambda.env_map))
                        } else {
                            None
                        },
                        None => None,
                    };
                    assert(measures(demand, term));
                    demand
                },
            };
            demands.push(demand);
            i += 1;
        }
        assert(measures(demands@[expression as int], term_of(keys, expression as int)));
        match demands[expression] {
            Some(demand) => demand <= size as u128,
            None => false,
        }
    }

    /// The function with these captured slots and this body, if the graph
    /// holds it.
    fn find_lambda(&self, env_map: &Vec<usize>, body: usize) -> (found: Option<usize>)
        ensures
            match found {
                Some(id) => id < self.size() && self.keys()[id as int] == Key::Lambda(
                    env_map@,
                    body,
                ),
                None => forall|i: int|
                    0 <= i < self.size() ==> self.keys()[i] != Key::Lambda(env_map@, body),
            },
    {
        proof {
            use_type_invariant(self);
        }
        let candidates = match self.lambda_cache.get(&body) {
            Some(candidates) => candidates,
            None => {
                return None;
            },
        };
        let mut k: usize = 0;
        while k < candidates.len()
            invariant
                self.wf(),
                self.lambda_cache@.contains_key(body),
                *candidates == self.lambda_cache@[body],
                k <= candidates@.len(),
                forall|n: int|
                    0 <= n < k ==> self.keys()[(#[trigger] candidates@[n]) as int] != Key::Lambda(
                        env_map@,
                        body,
                    ),
            decreases candidates@.len() - k,
        {
            let candidate = candidates[k];
            assert(self.lambda_cache@[body]@[k as int] < self.keys().len());
            match &self.nodes[candidate].value {
                ExpressionValue::Lambda(lambda) => {
                    if same_slots(&lambda.env_map, env_map) {
                        return Some(candidate);
                    }
                },
                _ => {},
            }
            k += 1;
        }
        proof {
            assert forall|i: int| 0 <= i < self.size() implies self.keys()[i] != Key::Lambda(
                env_map@,
                body,
            ) by {
                if self.keys()[i] == Key::Lambda(env_map@, body) {
                    assert(candidates@.contains(i as usize));
                    let n = choose|n: int| 0 <= n < candidates@.len() && candidates@[n] == i as usize;
                    assert(self.keys()[candidates@[n] as int] != Key::Lambda(env_map@, body));
                }
            }
        }
        None
    }

    /// The expression that reads slot `name`.
    pub fn new_identifier(&mut self, name: usize) -> (id: usize)
        ensures
            final(self).wf(),
            old(self).extended_by(*final(self)),
            final(self).size() <= old(self).size() + 1,
            id < final(self).size(),
            final(self).term(id as int) == (Term::Identifier { slot: name as nat }),
            final(self).keys() == grown(old(self).keys(), Key::Identifier(name)),
            final(self).keys()[id as int] == Key::Identifier(name),
    {
        proof {
            use_type_invariant(&*self);
        }
        let ghost before = self.keys();
        let ghost key = Key::Identifier(name);
        match self.identifier_cache.get(&name) {
            Some(id) => {
                proof {
                    assert(before[*id as int] == key);
                    assert(before.contains(key));
                }
                return *id;
            },
            None => {},
        }
        let mut taken = ExpressionCache::new();
        core::mem::swap(self, &mut taken);
        let ExpressionCache { mut nodes, mut identifier_cache, lambda_cache, apply_cache } = taken;
        let id = nodes.len();
        nodes.push(Expression { value: ExpressionValue::Identifier(IdentifierExpression { name }), id });
        proof {
            assert(keys_of(nodes@) =~= before.push(key));
            assert forall|i: int| 0 <= i < before.len() implies before[i] != key by {
                if before[i] == key {
                    assert(identifier_cache@.contains_key(before[i]->Identifier_0));
                }
            }
            lemma_interned_push(before, key);
            lemma_lambdas_push(before, lambda_cache@, key);
            lemma_applies_push(before, apply_cache@, key);
        }
        let ghost table = identifier_cache@;
        identifier_cache.insert(name, id);
        proof {
            let keys2 = before.push(key);
            let table2 = identifier_cache@;
            assert forall|slot: usize| #[trigger] table2.contains_key(slot) implies table2[slot]
                < keys2.len() && keys2[table2[slot] as int] == Key::Identifier(slot) by {
                if slot != name {
                    assert(table.contains_key(slot));
                    assert(keys2[table[slot] as int] == before[table[slot] as int]);
                }
            }
            assert forall|i: int|
                0 <= i < keys2.len() && (#[trigger] keys2[i]) is Identifier implies table2.contains_key(
                keys2[i]->Identifier_0,
            ) by {
                if i < before.len() {
                    assert(keys2[i] == before[i]);
                    assert(table.contains_key(before[i]->Identifier_0));
                }
            }
        }
        *self = ExpressionCache { nodes, identifier_cache, lambda_cache, apply_cache };
        id
    }

    /// The function with the given captured slots and body.
    pub fn new_lambda(&mut self, env_map: Vec<usize>, body: usize) -> (id: usize)
        requires
            body < old(self).size(),
        ensures
            final(self).wf(),
            old(self).extended_by(*final(self)),
            final(self).size() <= old(self).size() + 1,
            id < final(self).size(),
            final(self).term(id as int) == (Term::Lambda {
                captured: slots_of(env_map@),
                body: Box::new(old(self).term(body as int)),
            }),
            final(self).keys() == grown(old(self).keys(), Key::Lambda(env_map@, body)),
            final(self).keys()[id as int] == Key::Lambda(env_map@, body),
    {
        proof {
            use_type_invariant(&*self);
        }
        let ghost before = self.keys();
        let ghost key = Key::Lambda(env_map@, body);
        match self.find_lambda(&env_map, body) {
            Some(id) => {
                proof {
                    assert(before[id as int].below(id as int));
                    assert(before.contains(key));
                }
                return id;
            },
            None => {},
        }
        let mut taken = ExpressionCache::new();
        core::mem::swap(self, &mut taken);
        let ExpressionCache { mut nodes, identifier_cache, mut lambda_cache, apply_cache } = taken;
        let id = nodes.len();
        nodes.push(Expression { value: ExpressionValue::Lambda(LambdaExpression { env_map, body }), id });
        proof {
            assert(keys_of(nodes@) =~= before.push(key));
            lemma_interned_push(before, key);
            lemma_identifiers_push(before, identifier_cache@, key);
            lemma_applies_push(before, apply_cache@, key);
            lemma_term_of_prefix(before, before.push(key), body as int);
        }
        let ghost table = lambda_cache@;
        let mut candidates = match lambda_cache.remove(&body) {
            Some(candidates) => candidates,
            None => Vec::new(),
        };
        let ghost listed = candidates@;
        candidates.push(id);
        lambda_cache.insert(body, candidates);
        proof {
            let keys2 = before.push(key);
            let table2 = lambda_cache@;
            assert(table.contains_key(body) ==> listed == table[body]@);
            assert(!table.contains_key(body) ==> listed.len() == 0);
            assert(table2[body]@ == listed.push(id));
            assert forall|other: usize, k: int|
                table2.contains_key(other) && 0 <= k < table2[other]@.len() implies {
                &&& (#[trigger] table2[other]@[k]) < keys2.len()
                &&& keys2[table2[other]@[k] as int] is Lambda
                &&& keys2[table2[other]@[k] as int]->Lambda_1 == other
            } by {
                if other == body {
                    if k < listed.len() {
                        assert(table[body]@[k] < before.len());
                        assert(keys2[table[body]@[k] as int] == before[table[body]@[k] as int]);
                    }
                } else {
                    assert(table.contains_key(other));
                    assert(table2[other] == table[other]);
                    assert(table[other]@[k] < before.len());
                    assert(keys2[table[other]@[k] as int] == before[table[other]@[k] as int]);
                }
            }
            assert forall|i: int| 0 <= i < keys2.len() && (#[trigger] keys2[i]) is Lambda implies {
                &&& table2.contains_key(keys2[i]->Lambda_1)
                &&& table2[keys2[i]->Lambda_1]@.contains(i as usize)
            } by {
                if i < before.len() {
                    assert(keys2[i] == before[i]);
                    let b = before[i]->Lambda_1;
                    assert(table.contains_key(b));
                    assert(table[b]@.contains(i as usize));
                    let n = choose|n: int| 0 <= n < table[b]@.len() && table[b]@[n] == i as usize;
                    if b == body {
                        assert(table2[b]@[n] == i as usize);
                    } else {
                        assert(table2[b] == table[b]);
                    }
                } else {
                    assert(table2[body]@[listed.len() as int] == id);
                }
            }
        }
        *self = ExpressionCache { nodes, identifier_cache, lambda_cache, apply_cache };
        id
    }

    /// The application of expression `lambda` to expression `parameter`.
    pub fn new_apply(&mut self, lambda: usize, parameter: usize) -> (id: usize)
        requires
            lambda < old(self).size(),
            parameter < old(self).size(),
        ensures
            final(self).wf(),
            old(self).extended_by(*final(self)),
            final(self).size() <= old(self).size() + 1,
            id < final(self).size(),
            final(self).term(id as int) == (Term::Apply {
                function: Box::new(old(self).term(lambda as int)),
                argument: Box::new(old(self).term(parameter as int)),
            }),
            final(self).keys() == grown(old(self).keys(), Key::Apply(lambda, parameter)),
            final(self).keys()[id as int] == Key::Apply(lambda, parameter),
    {
        proof {
            use_type_invariant(&*self);
        }
        let ghost before = self.keys();
        let ghost key = Key::Apply(lambda, parameter);
        let pair = make_pair_key(lambda, parameter);
        match self.apply_cache.get(&pair) {
            Some(id) => {
                proof {
                    assert(self.apply_cache@.contains_key(pair_key(lambda, parameter)));
                    assert(before[*id as int].below(*id as int));
                    assert(before.contains(key));
                }
                return *id;
            },
            None => {},
        }
        let mut taken = ExpressionCache::new();
        core::mem::swap(self, &mut taken);
        let ExpressionCache { mut nodes, identifier_cache, lambda_cache, mut apply_cache } = taken;
        let id = nodes.len();
        nodes.push(Expression { value: ExpressionValue::Apply(ApplyExpression { lambda, parameter }), id });
        proof {
            assert(keys_of(nodes@) =~= before.push(key));
            assert forall|i: int| 0 <= i < before.len() implies before[i] != key by {
                if before[i] == key {
                    assert(apply_cache@.contains_key(
                        pair_key(before[i]->Apply_0, before[i]->Apply_1),
                    ));
                }
            }
            lemma_interned_push(before, key);
            lemma_identifiers_push(before, identifier_cache@, key);
            lemma_lambdas_push(before, lambda_cache@, key);
            lemma_term_of_prefix(before, before.push(key), lambda as int);
            lemma_term_of_prefix(before, before.push(key), parameter as int);
        }
        let ghost table = apply_cache@;
        apply_cache.insert(pair, id);
        proof {
            let keys2 = before.push(key);
            let table2 = apply_cache@;
            assert forall|f: usize, a: usize| #[trigger]
                table2.contains_key(pair_key(f, a)) implies table2[pair_key(f, a)] < keys2.len()
                && keys2[table2[pair_key(f, a)] as int] == Key::Apply(f, a) by {
                if pair_key(f, a) == pair_key(lambda, parameter) {
                    lemma_pair_key_injective(f, a, lambda, parameter);
                } else {
                    assert(table.contains_key(pair_key(f, a)));
                    assert(keys2[table[pair_key(f, a)] as int] == before[table[pair_key(f, a)] as int]);
                }
            }
            assert forall|i: int|
                0 <= i < keys2.len() && (#[trigger] keys2[i]) is Apply implies table2.contains_key(
                pair_key(keys2[i]->Apply_0, keys2[i]->Apply_1),
            ) by {
                if i < before.len() {
                    assert(keys2[i] == before[i]);
                    assert(table.contains_key(pair_key(before[i]->Apply_0, before[i]->Apply_1)));
                }
            }
        }
        *self = ExpressionCache { nodes, identifier_cache, lambda_cache, apply_cache };
        id
    }
}

/// The slot of the first token of `scope` with the text `name`.
pub open spec fn position(scope: Seq<TokenView>, name: Seq<char>) -> Option<nat>
    decreases scope.len(),
{
    if scope.len() == 0 {
        None
    } else {
        match position(scope.drop_last(), name) {
            Some(slot) => Some(slot),
            None => if scope.last().raw == name {
                Some((scope.len() - 1) as nat)
            } else {
                None
            },
        }
    }
}

/// The scope after `token` was looked up in it, and the slot of the token's
/// name: the slot it had, or a new one behind the others.
pub open spec fn declare(scope: Seq<TokenView>, token: TokenView) -> (Seq<TokenView>, nat) {
    match position(scope, token.raw) {
        Some(slot) => (scope, slot),
        None => (scope.push(token), scope.len()),
    }
}

/// The slots of `tokens` in `scope`, each looked up in turn, and the scope
/// after that.
pub open spec fn thread(tokens: Seq<TokenView>, scope: Seq<TokenView>) -> (Seq<nat>, Seq<TokenView>)
    decreases tokens.len(),
{
    if tokens.len() == 0 {
        (Seq::empty(), scope)
    } else {
        let (slots, between) = thread(tokens.drop_last(), scope);
        let (after, slot) = declare(between, tokens.last());
        (slots.push(slot), after)
    }
}

/// The expression that `syntax` stands for in `scope`, and the scope after
/// its free names were looked up. A name gets the slot of its first
/// occurrence. A function's body has a scope of its own that starts with the
/// argument; the other names of that scope are looked up outside, slot by
/// slot, and their slots there are what the function captures.
pub open spec fn resolve(syntax: Syntax, scope: Seq<TokenView>) -> (Term, Seq<TokenView>)
    decreases syntax,
{
    match syntax {
        Syntax::Identifier(token) => {
            let (after, slot) = declare(scope, token);
            (Term::Identifier { slot }, after)
        },
        Syntax::Lambda(argument, body) => {
            let (body_term, local) = resolve(*body, seq![argument]);
            let (captured, after) = thread(local.drop_first(), scope);
            (Term::Lambda { captured, body: Box::new(body_term) }, after)
        },
        Syntax::Apply(function, argument) => {
            let (function_term, between) = resolve(*function, scope);
            let (argument_term, after) = resolve(*argument, between);
            (
                Term::Apply {
                    function: Box::new(function_term),
                    argument: Box::new(argument_term),
                },
                after,
            )
        },
    }
}

/// The place of `key` among `keys`.
pub open spec fn place_of(keys: Seq<Key>, key: Key) -> usize {
    (choose|i: int| 0 <= i < keys.len() && keys[i] == key) as usize
}

/// The slots as ids.
pub open spec fn slots_as_ids(slots: Seq<nat>) -> Seq<usize> {
    Seq::new(slots.len(), |i: int| slots[i] as usize)
}

/// The graph after the expressions of `syntax` were added to `keys`, each
/// where the graph did not hold it yet and behind what it names; the id of
/// the expression that `syntax` stands for; and the scope after its free
/// names were looked up.
pub open spec fn built(keys: Seq<Key>, syntax: Syntax, scope: Seq<TokenView>) -> (
    Seq<Key>,
    usize,
    Seq<TokenView>,
)
    decreases syntax,
{
    match syntax {
        Syntax::Identifier(token) => {
            let (after, slot) = declare(scope, token);
            let key = Key::Identifier(slot as usize);
            (grown(keys, key), place_of(grown(keys, key), key), after)
        },
        Syntax::Lambda(argument, body) => {
            let (with_body, body_id, local) = built(keys, *body, seq![argument]);
            let (captured, after) = thread(local.drop_first(), scope);
            let key = Key::Lambda(slots_as_ids(captured), body_id);
            (grown(with_body, key), place_of(grown(with_body, key), key), after)
        },
        Syntax::Apply(function, argument) => {
            let (first, f, between) = built(keys, *function, scope);
            let (second, a, after) = built(first, *argument, between);
            let key = Key::Apply(f, a);
            (grown(second, key), place_of(grown(second, key), key), after)
        },
    }
}

proof fn lemma_place_of(keys: Seq<Key>, key: Key, id: int)
    requires
        interned(keys),
        0 <= id < keys.len(),
        keys[id] == key,
        keys.len() <= usize::MAX,
    ensures
        place_of(keys, key) == id,
{
    let chosen = choose|i: int| 0 <= i < keys.len() && keys[i] == key;
    assert(keys[chosen] == keys[id]);
}

/// Whether `longer` starts with `scope`.
pub open spec fn starts_with(longer: Seq<TokenView>, scope: Seq<TokenView>) -> bool {
    &&& scope.len() <= longer.len()
    &&& forall|i: int| 0 <= i < scope.len() ==> longer[i] == scope[i]
}

/// A slot that is found is the slot of a token with that name.
pub proof fn lemma_position_found(scope: Seq<TokenView>, name: Seq<char>)
    ensures
        match position(scope, name) {
            Some(slot) => slot < scope.len() && scope[slot as int].raw == name,
            None => forall|i: int| 0 <= i < scope.len() ==> (#[trigger] scope[i]).raw != name,
        },
    decreases scope.len(),
{
    if scope.len() > 0 {
        lemma_position_found(scope.drop_last(), name);
        if position(scope.drop_last(), name) is None {
            assert forall|i: int| 0 <= i < scope.len() - 1 implies (#[trigger] scope[i]).raw
                != name by {
                assert(scope.drop_last()[i] == scope[i]);
            }
        }
    }
}

/// A name keeps its slot when tokens are added behind.
pub proof fn lemma_position_kept(scope: Seq<TokenView>, longer: Seq<TokenView>, name: Seq<char>)
    requires
        starts_with(longer, scope),
        position(scope, name) is Some,
    ensures
        position(longer, name) == position(scope, name),
    decreases longer.len(),
{
    if longer.len() > scope.len() {
        assert(starts_with(longer.drop_last(), scope));
        lemma_position_kept(scope, longer.drop_last(), name);
    } else {
        assert(longer =~= scope);
    }
}

/// Looking a token up leaves the scope as a start of the new one, and gives a
/// slot of the new one under which the name is found from then on.
pub proof fn lemma_declare(scope: Seq<TokenView>, token: TokenView)
    ensures
        starts_with(declare(scope, token).0, scope),
        declare(scope, token).1 < declare(scope, token).0.len(),
        position(declare(scope, token).0, token.raw) == Some(declare(scope, token).1),
{
    lemma_position_found(scope, token.raw);
    if position(scope, token.raw) is None {
        assert(scope.push(token).drop_last() =~= scope);
    }
}

proof fn lemma_thread(tokens: Seq<TokenView>, scope: Seq<TokenView>)
    ensures
        starts_with(thread(tokens, scope).1, scope),
        thread(tokens, scope).0.len() == tokens.len(),
        forall|k: int|
            0 <= k < tokens.len() ==> #[trigger] thread(tokens, scope).0[k] < thread(
                tokens,
                scope,
            ).1.len(),
        forall|k: int|
            0 <= k < tokens.len() ==> position(thread(tokens, scope).1, (#[trigger] tokens[k]).raw)
                == Some(thread(tokens, scope).0[k]),
    decreases tokens.len(),
{
    if tokens.len() > 0 {
        let (slots, between) = thread(tokens.drop_last(), scope);
        lemma_thread(tokens.drop_last(), scope);
        lemma_declare(between, tokens.last());
        let (after, slot) = declare(between, tokens.last());
        assert forall|k: int| 0 <= k < tokens.len() implies position(
            after,
            (#[trigger] tokens[k]).raw,
        ) == Some(thread(tokens, scope).0[k]) by {
            if k < tokens.len() - 1 {
                assert(tokens.drop_last()[k] == tokens[k]);
                lemma_position_kept(between, after, tokens[k].raw);
            }
        }
    }
}

/// Looking up again, in a scope that starts with the one that the first
/// lookups left, finds every name where it was and adds nothing.
proof fn lemma_thread_repeats(tokens: Seq<TokenView>, scope: Seq<TokenView>, later: Seq<TokenView>)
    requires
        starts_with(later, thread(tokens, scope).1),
    ensures
        thread(tokens, later) == (thread(tokens, scope).0, later),
    decreases tokens.len(),
{
    lemma_thread(tokens, scope);
    if tokens.len() > 0 {
        let (slots, between) = thread(tokens.drop_last(), scope);
        let (after, slot) = declare(between, tokens.last());
        lemma_declare(between, tokens.last());
        assert(starts_with(later, between));
        lemma_thread_repeats(tokens.drop_last(), scope, later);
        lemma_position_kept(after, later, tokens.last().raw);
    } else {
        assert(thread(tokens, later).0 =~= thread(tokens, scope).0);
    }
}

/// Resolving leaves the scope as a start of the new one, and the expression
/// it gives reads no slot outside the new scope.
pub proof fn lemma_resolve_closed(syntax: Syntax, scope: Seq<TokenView>)
    ensures
        starts_with(resolve(syntax, scope).1, scope),
        closed(resolve(syntax, scope).0, resolve(syntax, scope).1.len()),
    decreases syntax,
{
    match syntax {
        Syntax::Identifier(token) => {
            lemma_declare(scope, token);
        },
        Syntax::Lambda(argument, body) => {
            let (body_term, local) = resolve(*body, seq![argument]);
            lemma_resolve_closed(*body, seq![argument]);
            lemma_thread(local.drop_first(), scope);
        },
        Syntax::Apply(function, argument) => {
            let (function_term, between) = resolve(*function, scope);
            let (argument_term, after) = resolve(*argument, between);
            lemma_resolve_closed(*function, scope);
            lemma_resolve_closed(*argument, between);
            lemma_closed_in_more(function_term, between.len(), after.len());
        },
    }
}

/// An expression that reads no slot outside an environment reads none outside
/// a larger one.
pub proof fn lemma_closed_in_more(term: Term, size: nat, more: nat)
    requires
        closed(term, size),
        size <= more,
    ensures
        closed(term, more),
    decreases term,
{
    match term {
        Term::Apply { function, argument } => {
            lemma_closed_in_more(*function, size, more);
            lemma_closed_in_more(*argument, size, more);
        },
        _ => {},
    }
}

/// A tree that is resolved a second time, in the scope that its first
/// resolution left or in one that starts with it, gives the same expression
/// and adds no name. In one graph it therefore gets the same id both times.
pub proof fn lemma_resolve_repeats(syntax: Syntax, scope: Seq<TokenView>, later: Seq<TokenView>)
    requires
        starts_with(later, resolve(syntax, scope).1),
    ensures
        resolve(syntax, later) == (resolve(syntax, scope).0, later),
    decreases syntax,
{
    match syntax {
        Syntax::Identifier(token) => {
            lemma_declare(scope, token);
            lemma_position_kept(declare(scope, token).0, later, token.raw);
        },
        Syntax::Lambda(argument, body) => {
            let (body_term, local) = resolve(*body, seq![argument]);
            lemma_thread_repeats(local.drop_first(), scope, later);
        },
        Syntax::Apply(function, argument) => {
            let (function_term, between) = resolve(*function, scope);
            let (argument_term, after) = resolve(*argument, between);
            lemma_resolve_closed(*argument, between);
            assert(starts_with(later, between));
            lemma_resolve_repeats(*function, scope, later);
            lemma_resolve_repeats(*argument, between, later);
        },
    }
}

/// The names of one scope in the order in which they were first seen, each
/// with the token that brought it.
#[derive(Debug)]
pub struct VariableNameMap<'a> {
    map: Vec<&'a Token<'a>>,
}

impl<'a> VariableNameMap<'a> {
    /// The tokens by slot.
    pub closed spec fn view(&self) -> Seq<TokenView> {
        views_of(self.map@)
    }

    /// A scope without names.
    pub fn new() -> (scope: VariableNameMap<'a>)
        ensures
            scope@ == Seq::<TokenView>::empty(),
    {
        let scope = VariableNameMap { map: Vec::new() };
        assert(scope@ =~= Seq::<TokenView>::empty());
        scope
    }

    /// The slot of the name of `token`, which gets a new slot behind the
    /// others if the scope did not hold it.
    pub fn get_or_insert(&mut self, token: &'a Token<'a>) -> (slot: usize)
        ensures
            (final(self)@, slot as nat) == declare(old(self)@, token@),
    {
        let ghost scope = self@;
        let ghost name = token@.raw;
        let mut i: usize = 0;
        proof {
            assert(scope.take(0) =~= Seq::<TokenView>::empty());
        }
        while i < self.map.len()
            invariant
                i <= self.map.len(),
                scope == self@,
                self == old(self),
                name == token@.raw,
                position(scope.take(i as int), name) is None,
            decreases self.map.len() - i,
        {
            proof {
                assert(scope.take(i + 1).drop_last() =~= scope.take(i as int));
                assert(scope.take(i + 1).last() == scope[i as int]);
                assert(scope[i as int] == self.map@[i as int]@);
            }
            if same_text(self.map[i].token_raw, token.token_raw) {
                proof {
                    assert(position(scope.take(i + 1), name) == Some(i as nat));
                    lemma_position_kept(scope.take(i + 1), scope, name);
                }
                return i;
            }
            i += 1;
        }
        proof {
            assert(scope.take(self.map@.len() as int) =~= scope);
        }
        let slot = self.map.len();
        self.map.push(token);
        proof {
            assert(self@ =~= scope.push(token@));
        }
        slot
    }

    /// How many names the scope holds.
    pub fn len(&self) -> (n: usize)
        ensures
            n == self@.len(),
    {
        self.map.len()
    }

    /// The token that brought the name in `slot`.
    pub fn get(&self, slot: usize) -> (token: &'a Token<'a>)
        requires
            slot < self@.len(),
        ensures
            token@ == self@[slot as int],
    {
        self.map[slot]
    }
}

proof fn lemma_slots_push(slots: Seq<usize>, slot: usize)
    ensures
        slots_of(slots.push(slot)) == slots_of(slots).push(slot as nat),
{
    assert(slots_of(slots.push(slot)) =~= slots_of(slots).push(slot as nat));
}

/// Adds the expression that `root` stands for in the scope `free_vars` to the
/// graph and returns its id; the names that `root` brings are added to the
/// scope.
pub fn transform_impl<'a>(
    root: &Node<'a>,
    free_vars: &mut VariableNameMap<'a>,
    expression_cache: &mut ExpressionCache,
) -> (id: usize)
    ensures
        final(expression_cache).wf(),
        old(expression_cache).extended_by(*final(expression_cache)),
        id < final(expression_cache).size(),
        final(expression_cache).term(id as int) == resolve(root@, old(free_vars)@).0,
        final(free_vars)@ == resolve(root@, old(free_vars)@).1,
        (final(expression_cache).keys(), id, final(free_vars)@) == built(
            old(expression_cache).keys(),
            root@,
            old(free_vars)@,
        ),
    decreases root,
{
    let ghost scope = free_vars@;
    match root {
        Node::Identifier(token) => {
            let name = free_vars.get_or_insert(*token);
            let id = expression_cache.new_identifier(name);
            let _count: usize = expression_cache.len();
            proof {
                expression_cache.lemma_interned();
                lemma_place_of(expression_cache.keys(), Key::Identifier(name), id as int);
            }
            id
        },
        Node::Lambda(arg_token, body) => {
            let ghost before = *expression_cache;
            let mut body_free_vars = VariableNameMap::new();
            let _arg = body_free_vars.get_or_insert(*arg_token);
            proof {
                assert(body_free_vars@ =~= seq![arg_token@]);
            }
            let body_id = transform_impl(body, &mut body_free_vars, expression_cache);
            let ghost local = body_free_vars@;
            let ghost between = *expression_cache;
            proof {
                lemma_resolve_closed(body@, seq![arg_token@]);
                assert(local.subrange(1, 1) =~= Seq::<TokenView>::empty());
            }
            let mut env_map: Vec<usize> = Vec::new();
            let mut k: usize = 1;
            proof {
                assert(slots_of(env_map@) =~= Seq::<nat>::empty());
            }
            while k < body_free_vars.len()
                invariant
                    1 <= k <= body_free_vars@.len(),
                    local == body_free_vars@,
                    (slots_of(env_map@), free_vars@) == thread(local.subrange(1, k as int), scope),
                decreases body_free_vars@.len() - k,
            {
                proof {
                    assert(local.subrange(1, k + 1).drop_last() =~= local.subrange(1, k as int));
                    assert(local.subrange(1, k + 1).last() == local[k as int]);
                    lemma_slots_push(env_map@, declare(free_vars@, local[k as int]).1 as usize);
                }
                let slot = free_vars.get_or_insert(body_free_vars.get(k));
                env_map.push(slot);
                k += 1;
            }
            proof {
                assert(local.subrange(1, local.len() as int) =~= local.drop_first());
            }
            let ghost captured = thread(local.drop_first(), scope).0;
            let ghost key = Key::Lambda(env_map@, body_id);
            proof {
                assert(env_map@ =~= slots_as_ids(captured)) by {
                    assert(slots_of(env_map@) == captured);
                    assert forall|i: int| 0 <= i < env_map@.len() implies env_map@[i]
                        == slots_as_ids(captured)[i] by {
                        assert(slots_of(env_map@)[i] == env_map@[i] as nat);
                    }
                }
            }
            let id = expression_cache.new_lambda(env_map, body_id);
            let _count: usize = expression_cache.len();
            proof {
                assert(before.extended_by(*expression_cache));
                expression_cache.lemma_interned();
                lemma_place_of(expression_cache.keys(), key, id as int);
            }
            id
        },
        Node::Apply(lambda, parameter) => {
            let ghost before = *expression_cache;
            let lambda_id = transform_impl(lambda, free_vars, expression_cache);
            let ghost between = *expression_cache;
            let parameter_id = transform_impl(parameter, free_vars, expression_cache);
            let ghost after = *expression_cache;
            proof {
                lemma_term_of_prefix(between.keys(), after.keys(), lambda_id as int);
            }
            let id = expression_cache.new_apply(lambda_id, parameter_id);
            let _count: usize = expression_cache.len();
            proof {
                assert(before.extended_by(*expression_cache));
                expression_cache.lemma_interned();
                lemma_place_of(
                    expression_cache.keys(),
                    Key::Apply(lambda_id, parameter_id),
                    id as int,
                );
            }
            id
        },
    }
}

/// The expression graph of `root`, the id of the expression that `root`
/// stands for, and the tokens of its free variables by slot: in the order in
/// which the names first occur.
pub fn transform<'a>(root: &Node<'a>) -> (result: (ExpressionCache, usize, Vec<&'a Token<'a>>))
    ensures
        result.0.wf(),
        result.1 < result.0.size(),
        result.0.term(result.1 as int) == resolve(root@, Seq::empty()).0,
        views_of(result.2@) == resolve(root@, Seq::empty()).1,
        closed(result.0.term(result.1 as int), result.2@.len()),
        (result.0.keys(), result.1, views_of(result.2@)) == built(
            Seq::empty(),
            root@,
            Seq::empty(),
        ),
{
    let mut free_vars = VariableNameMap::new();
    let mut expression_cache = ExpressionCache::new();
    proof {
        assert(expression_cache.keys() =~= Seq::<Key>::empty());
    }
    let expression = transform_impl(root, &mut free_vars, &mut expression_cache);
    proof {
        use_type_invariant(&expression_cache);
        lemma_resolve_closed(root@, Seq::empty());
    }
    (expression_cache, expression, free_vars.map)
}

} // verus!
