use functional_from_zero::parser::parse;
use functional_from_zero::tokenizer::tokenize;
use functional_from_zero::transformer::{
    transform, transform_impl, ExpressionCache, ExpressionValue, VariableNameMap,
};

fn written(graph: &ExpressionCache, id: usize) -> String {
    let expression = graph.get(id);
    assert_eq!(expression.id, id);
    match &expression.value {
        ExpressionValue::Identifier(e) => format!("{}", e.name),
        ExpressionValue::Lambda(e) => format!("(\\{:?} {})", e.env_map, written(graph, e.body)),
        ExpressionValue::Apply(e) => {
            format!("({} {})", written(graph, e.lambda), written(graph, e.parameter))
        }
    }
}

fn transformed(code: &str) -> (String, Vec<String>, usize) {
    let tokens = tokenize(code).unwrap();
    let node = parse(&tokens).unwrap();
    let (graph, root, free_vars) = transform(&node);
    (
        written(&graph, root),
        free_vars.iter().map(|token| token.token_raw.to_string()).collect(),
        graph.len(),
    )
}

fn names(list: &[&str]) -> Vec<String> {
    list.iter().map(|name| name.to_string()).collect()
}

#[test]
fn the_identity_function_captures_nothing() {
    let tokens = tokenize("(\\x x)").unwrap();
    let node = parse(&tokens).unwrap();
    let (graph, root, free_vars) = transform(&node);
    assert!(free_vars.is_empty());
    match &graph.get(root).value {
        ExpressionValue::Lambda(lambda) => {
            assert!(lambda.env_map.is_empty());
            match &graph.get(lambda.body).value {
                ExpressionValue::Identifier(identifier) => assert_eq!(identifier.name, 0),
                _ => panic!(),
            }
        }
        _ => panic!(),
    }
    assert_eq!(graph.len(), 2);
}

#[test]
fn free_variables_get_slots_in_the_order_of_first_occurrence() {
    assert_eq!(transformed("a"), ("0".to_string(), names(&["a"]), 1));
    assert_eq!(
        transformed("a b a c b"),
        ("((((0 1) 0) 2) 1)".to_string(), names(&["a", "b", "c"]), 7)
    );
}

#[test]
fn the_argument_has_slot_zero_even_if_unused() {
    assert_eq!(
        transformed("\\x y"),
        ("(\\[0] 1)".to_string(), names(&["y"]), 2)
    );
    assert_eq!(
        transformed("\\x \\y x"),
        ("(\\[] (\\[0] 1))".to_string(), names(&[]), 3)
    );
}

#[test]
fn captured_slots_name_the_enclosing_scope() {
    assert_eq!(
        transformed("\\x (y z)"),
        ("(\\[0, 1] (1 2))".to_string(), names(&["y", "z"]), 4)
    );
    assert_eq!(
        transformed("a \\x (b x a)"),
        ("(0 (\\[1, 0] ((1 0) 2)))".to_string(), names(&["a", "b"]), 7)
    );
    assert_eq!(
        transformed("\\x \\y (z y x)"),
        ("(\\[0] (\\[1, 0] ((1 0) 2)))".to_string(), names(&["z"]), 7)
    );
}

#[test]
fn a_rebound_name_is_a_new_binding() {
    assert_eq!(
        transformed("\\x \\x x"),
        ("(\\[] (\\[] 0))".to_string(), names(&[]), 3)
    );
    assert_eq!(
        transformed("x \\x x"),
        ("(0 (\\[] 0))".to_string(), names(&["x"]), 3)
    );
}

#[test]
fn identical_subtrees_are_one_expression() {
    let tokens = tokenize("((\\x (x y)) (\\x (x y)))").unwrap();
    let node = parse(&tokens).unwrap();
    let (graph, root, free_vars) = transform(&node);
    assert_eq!(free_vars.len(), 1);
    match &graph.get(root).value {
        ExpressionValue::Apply(apply) => assert_eq!(apply.lambda, apply.parameter),
        _ => panic!(),
    }
    assert_eq!(graph.len(), 5);
    assert_eq!(written(&graph, root), "((\\[0] (0 1)) (\\[0] (0 1)))");
}

#[test]
fn functions_that_differ_only_in_names_are_one_expression() {
    let tokens = tokenize("((\\x x) (\\y y))").unwrap();
    let node = parse(&tokens).unwrap();
    let (graph, root, _) = transform(&node);
    match &graph.get(root).value {
        ExpressionValue::Apply(apply) => assert_eq!(apply.lambda, apply.parameter),
        _ => panic!(),
    }
    assert_eq!(graph.len(), 3);
}

#[test]
fn applications_of_the_same_pair_are_one_expression() {
    let tokens = tokenize("((a b) (a b))").unwrap();
    let node = parse(&tokens).unwrap();
    let (graph, root, _) = transform(&node);
    match &graph.get(root).value {
        ExpressionValue::Apply(apply) => {
            assert_eq!(apply.lambda, apply.parameter);
            match &graph.get(apply.lambda).value {
                ExpressionValue::Apply(inner) => assert!(inner.lambda != inner.parameter),
                _ => panic!(),
            }
        }
        _ => panic!(),
    }
    assert_eq!(graph.len(), 4);
}

#[test]
fn interning_gives_back_the_id_of_the_first() {
    let mut graph = ExpressionCache::new();
    assert_eq!(graph.len(), 0);
    let x = graph.new_identifier(0);
    let y = graph.new_identifier(1);
    assert_eq!((x, y), (0, 1));
    assert_eq!(graph.new_identifier(0), x);
    let application = graph.new_apply(x, y);
    assert_eq!(application, 2);
    assert_eq!(graph.new_apply(x, y), application);
    assert_eq!(graph.new_apply(y, x), 3);
    let function = graph.new_lambda(vec![4, 2], application);
    assert_eq!(function, 4);
    assert_eq!(graph.new_lambda(vec![4, 2], application), function);
    assert_eq!(graph.new_lambda(vec![2, 4], application), 5);
    assert_eq!(graph.new_lambda(vec![4, 2], x), 6);
    assert_eq!(graph.len(), 7);
}

#[test]
fn a_scope_hands_out_slots_by_first_occurrence() {
    let tokens = tokenize("a b a").unwrap();
    let mut scope = VariableNameMap::new();
    assert_eq!(scope.len(), 0);
    assert_eq!(scope.get_or_insert(&tokens[0]), 0);
    assert_eq!(scope.get_or_insert(&tokens[2]), 1);
    assert_eq!(scope.get_or_insert(&tokens[4]), 0);
    assert_eq!(scope.len(), 2);
    assert_eq!(scope.get(0).location.column_no, 1);
    assert_eq!(scope.get(1).token_raw, "b");
}

#[test]
fn a_tree_transformed_twice_gets_the_same_id() {
    let tokens = tokenize("\\x (x y z)").unwrap();
    let node = parse(&tokens).unwrap();
    let other_tokens = tokenize("w").unwrap();
    let other = parse(&other_tokens).unwrap();
    let mut graph = ExpressionCache::new();
    let mut scope = VariableNameMap::new();
    let first = transform_impl(&node, &mut scope, &mut graph);
    let size = graph.len();
    let between = transform_impl(&other, &mut scope, &mut graph);
    let second = transform_impl(&node, &mut scope, &mut graph);
    assert_eq!(first, second);
    assert!(between != first);
    assert_eq!(scope.len(), 3);
    assert_eq!(graph.len(), size);
}

#[test]
fn an_expression_is_closed_in_an_environment_that_has_its_slots() {
    let mut graph = ExpressionCache::new();
    let zero = graph.new_identifier(0);
    let two = graph.new_identifier(2);
    let both = graph.new_apply(zero, two);
    assert!(!graph.closed_in(zero, 0));
    assert!(graph.closed_in(zero, 1));
    assert!(!graph.closed_in(two, 2));
    assert!(graph.closed_in(two, 3));
    assert!(!graph.closed_in(both, 2));
    assert!(graph.closed_in(both, 3));
    assert!(graph.closed_in(both, 100));
    let reads_three = graph.new_lambda(vec![5, 1], both);
    assert!(!graph.closed_in(reads_three, 5));
    assert!(graph.closed_in(reads_three, 6));
    let captures_too_little = graph.new_lambda(vec![0], both);
    assert!(!graph.closed_in(captures_too_little, 1));
    assert!(!graph.closed_in(captures_too_little, usize::MAX));
    let outer = graph.new_apply(captures_too_little, zero);
    assert!(!graph.closed_in(outer, 10));
    let captures_nothing = graph.new_lambda(vec![], zero);
    assert!(graph.closed_in(captures_nothing, 0));
}

#[test]
fn what_transform_gives_is_closed_in_its_free_variables() {
    for code in ["x", "\\x x", "\\x (y z)", "a \\x (b x a)", "((\\x (x y)) (\\x (x y)))"] {
        let tokens = tokenize(code).unwrap();
        let node = parse(&tokens).unwrap();
        let (graph, root, free_vars) = transform(&node);
        assert!(graph.closed_in(root, free_vars.len()));
        if !free_vars.is_empty() {
            assert!(!graph.closed_in(root, free_vars.len() - 1));
        }
    }
}
