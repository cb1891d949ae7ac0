use functional_from_zero::parser::{parse, Node};
use functional_from_zero::runner::{
    run, BaseEnvironment, Diagnostic, Environment, Error, LambdaValue, RunCache, RunResult,
    Summary,
};
use functional_from_zero::tokenizer::{tokenize, Token};
use functional_from_zero::transformer::transform;

const DEPTH: usize = 1000;

fn ran(code: &str, input: &[u8]) -> RunResult {
    let tokens = tokenize(code).unwrap();
    let node = parse(&tokens).unwrap();
    let (graph, root, free_vars) = transform(&node);
    match run(&graph, root, &free_vars, input.to_vec(), DEPTH) {
        Ok(result) => result,
        Err(error) => panic!("{}", error.to_string()),
    }
}

fn reports(result: &RunResult) -> Vec<(usize, usize)> {
    result
        .diagnostics
        .iter()
        .map(|report| (report.after_bytes, report.value))
        .collect()
}

#[test]
fn the_identity_gives_its_argument_back() {
    let mut result = ran("((\\x x) __builtin_p0)", &[]);
    assert_eq!(result.value, Some(Summary::BitOutput { bit: 0 }));
    assert!(result.output.is_empty());
    assert_eq!(result.unflushed.flush(), None);
    assert!(result.diagnostics.is_empty());
}

#[test]
fn a_function_evaluates_to_a_closure() {
    let result = ran("(\\x x)", &[]);
    assert_eq!(result.value, Some(Summary::Closure));
    let result = ran("\\x (x __builtin_p1)", &[]);
    assert_eq!(result.value, Some(Summary::Closure));
    assert!(result.output.is_empty());
}

#[test]
fn builtins_evaluate_to_themselves() {
    assert_eq!(ran("__builtin_p0", &[]).value, Some(Summary::BitOutput { bit: 0 }));
    assert_eq!(ran("__builtin_p1", &[]).value, Some(Summary::BitOutput { bit: 1 }));
    assert_eq!(ran("__builtin_g", &[]).value, Some(Summary::BitInput { stage: 0 }));
    assert_eq!(ran("__builtin_debug", &[]).value, Some(Summary::Debug));
}

#[test]
fn all_undefined_variables_are_reported() {
    let tokens = tokenize("\\x (y z)").unwrap();
    let node = parse(&tokens).unwrap();
    let (graph, root, free_vars) = transform(&node);
    match run(&graph, root, &free_vars, vec![], DEPTH) {
        Err(Error::UndefinedVariable(vars)) => {
            let found: Vec<(&str, usize, usize)> = vars
                .iter()
                .map(|token| (token.token_raw, token.location.line_no, token.location.column_no))
                .collect();
            assert_eq!(found, vec![("y", 1, 5), ("z", 1, 7)]);
        }
        Ok(_) => panic!(),
    }
}

#[test]
fn undefined_variables_are_told_from_builtins() {
    let tokens = tokenize("(__builtin_p0 foo __builtin_p1\n __builtin_px __builtin_g bar foo)").unwrap();
    let node = parse(&tokens).unwrap();
    let (graph, root, free_vars) = transform(&node);
    let error = run(&graph, root, &free_vars, vec![], DEPTH).unwrap_err();
    assert_eq!(
        error.to_string(),
        "Undefined variable \"foo\" (line 1, column 15)\n\
         Undefined variable \"__builtin_px\" (line 2, column 2)\n\
         Undefined variable \"bar\" (line 2, column 27)\n"
    );
    assert_eq!(error.description(), "undefined free variable");
}

#[test]
fn nothing_is_written_when_a_variable_is_undefined() {
    let tokens = tokenize("(__builtin_p1 __builtin_p1 __builtin_p1 nope)").unwrap();
    let node = parse(&tokens).unwrap();
    let (graph, root, free_vars) = transform(&node);
    assert!(run(&graph, root, &free_vars, vec![], DEPTH).is_err());
}

#[test]
fn eight_written_bits_are_one_byte() {
    let code = "(__builtin_p1 __builtin_p0 __builtin_p1 __builtin_p1 __builtin_p0 \
                __builtin_p0 __builtin_p1 __builtin_p0 __builtin_p0)";
    let mut result = ran(code, &[]);
    assert_eq!(result.output, vec![0xB2]);
    assert_eq!(result.unflushed.flush(), None);
    assert_eq!(result.value, Some(Summary::BitOutput { bit: 0 }));
}

#[test]
fn bits_behind_the_last_byte_stay_pending() {
    let code = "(__builtin_p1 __builtin_p1 __builtin_p0)";
    let mut result = ran(code, &[]);
    assert!(result.output.is_empty());
    assert_eq!(result.unflushed.flush(), Some(0xC0));
}

#[test]
fn an_application_that_writes_is_carried_out_every_time() {
    let code = "((\\w (w w w w w w w w w)) __builtin_p1)";
    let mut result = ran(code, &[]);
    assert_eq!(result.output, vec![0xFF]);
    assert_eq!(result.unflushed.flush(), None);
}

#[test]
fn a_function_that_writes_is_carried_out_every_time() {
    let code = "((\\f (f (f (f (f __builtin_p0))))) (\\x (__builtin_p1 x)))";
    let mut result = ran(code, &[]);
    assert_eq!(result.unflushed.flush(), Some(0xF0));
    assert_eq!(result.value, Some(Summary::BitOutput { bit: 0 }));
}

#[test]
fn a_pure_application_is_carried_out_once() {
    let code = "((\\d ((d d) (d d))) __builtin_debug)";
    let result = ran(code, &[]);
    assert_eq!(result.value, Some(Summary::Debug));
    assert_eq!(reports(&result), vec![(0, 0)]);
}

#[test]
fn reports_say_how_many_bytes_were_complete() {
    let code = "(__builtin_debug __builtin_p1 __builtin_p1 __builtin_p1 __builtin_p1 \
                __builtin_p1 __builtin_p1 __builtin_p1 __builtin_p1 __builtin_debug __builtin_p0)";
    let result = ran(code, &[]);
    assert_eq!(result.output, vec![0xFF]);
    assert_eq!(reports(&result), vec![(0, 1), (1, 2)]);
    assert_eq!(result.value, Some(Summary::BitOutput { bit: 0 }));
}

#[test]
fn the_input_value_collects_three_continuations() {
    assert_eq!(
        ran("(__builtin_g __builtin_p0)", &[0xFF]).value,
        Some(Summary::BitInput { stage: 1 })
    );
    assert_eq!(
        ran("(__builtin_g __builtin_p0 __builtin_p1)", &[0xFF]).value,
        Some(Summary::BitInput { stage: 2 })
    );
    assert_eq!(
        ran("(__builtin_g __builtin_p0 __builtin_p1 __builtin_debug)", &[0xFF]).value,
        Some(Summary::BitInput { stage: 3 })
    );
}

#[test]
fn a_read_picks_the_continuation_of_the_bit() {
    let code = "(__builtin_g __builtin_p0 __builtin_p1 __builtin_debug __builtin_g)";
    assert_eq!(ran(code, &[0x80]).value, Some(Summary::BitOutput { bit: 1 }));
    assert_eq!(ran(code, &[0x7F]).value, Some(Summary::BitOutput { bit: 0 }));
    assert_eq!(ran(code, &[]).value, Some(Summary::Debug));
}

#[test]
fn a_read_is_carried_out_every_time() {
    let code = "((\\r ((r r) ((r r) ((r r) ((r r) __builtin_debug))))) \
                (__builtin_g __builtin_p0 __builtin_p1 __builtin_debug))";
    let mut result = ran(code, &[0xA0]);
    assert_eq!(result.unflushed.flush(), Some(0x50));
    assert_eq!(result.value, Some(Summary::Debug));
    assert!(result.diagnostics.is_empty());
}

#[test]
fn the_end_of_the_input_is_a_value() {
    let code = "((\\r ((r r) ((r r) ((r r) ((r r) ((r r) ((r r) ((r r) ((r r) ((r r) \
                __builtin_p1)))))))))) (__builtin_g __builtin_p0 __builtin_p1 (\\x x)))";
    let mut result = ran(code, &[0x0F]);
    assert_eq!(result.output, vec![0xF0]);
    assert_eq!(result.unflushed.flush(), None);
    assert_eq!(result.value, Some(Summary::BitOutput { bit: 1 }));
}

#[test]
fn the_function_is_evaluated_before_the_argument() {
    let code = "((__builtin_p0 (\\x x)) (__builtin_p1 (\\x x)))";
    let mut result = ran(code, &[]);
    assert_eq!(result.unflushed.flush(), Some(0x40));
}

#[test]
fn an_evaluation_that_nests_too_deep_is_given_up() {
    let tokens = tokenize("((\\x (x x)) (\\x (x x)))").unwrap();
    let node = parse(&tokens).unwrap();
    let (graph, root, free_vars) = transform(&node);
    let result = run(&graph, root, &free_vars, vec![], 50).unwrap();
    assert_eq!(result.value, None);
    assert!(result.output.is_empty());
}

#[test]
fn the_depth_counts_nested_applications() {
    let tokens = tokenize("((\\x x) ((\\x x) __builtin_debug))").unwrap();
    let node = parse(&tokens).unwrap();
    let (graph, root, free_vars) = transform(&node);
    assert_eq!(run(&graph, root, &free_vars, vec![], 0).unwrap().value, None);
    assert_eq!(run(&graph, root, &free_vars, vec![], 1).unwrap().value, None);
    assert_eq!(
        run(&graph, root, &free_vars, vec![], 2).unwrap().value,
        Some(Summary::Debug)
    );
    let tokens = tokenize("\\x (x x)").unwrap();
    let node = parse(&tokens).unwrap();
    let (graph, root, free_vars) = transform(&node);
    assert_eq!(
        run(&graph, root, &free_vars, vec![], 0).unwrap().value,
        Some(Summary::Closure)
    );
}

#[test]
fn two_runs_agree() {
    let code = "((\\t (\\f ((t (f __builtin_p1)) ((f t) (__builtin_p0 __builtin_debug))))) \
                (\\a (\\b a)) (\\a (\\b b)))";
    let mut first = ran(code, &[1, 2, 3]);
    let mut second = ran(code, &[1, 2, 3]);
    assert_eq!(first.output, second.output);
    assert_eq!(first.value, second.value);
    assert_eq!(first.unflushed.flush(), second.unflushed.flush());
    assert_eq!(reports(&first), reports(&second));
}

fn prepared<'a>(node: &Node<'a>) -> (functional_from_zero::transformer::ExpressionCache, usize, Vec<&'a Token<'a>>) {
    transform(node)
}

#[test]
fn evaluating_again_repeats_writes_but_not_reports() {
    let tokens = tokenize("(__builtin_p1 (__builtin_debug __builtin_p0))").unwrap();
    let node = parse(&tokens).unwrap();
    let (graph, root, free_vars) = prepared(&node);
    let mut cache = RunCache::new(&graph, vec![]);
    let environment = cache.bind(&graph, &free_vars);
    assert_eq!(cache.len(), 3);
    let first = cache.run_impl(&graph, root, environment, DEPTH);
    assert_eq!(first, Some((2, false)));
    assert_eq!(cache.diagnostics().len(), 1);
    for _ in 0..7 {
        assert_eq!(cache.run_impl(&graph, root, environment, DEPTH), first);
    }
    assert_eq!(cache.output(), &vec![0xFFu8]);
    assert_eq!(cache.diagnostics().len(), 1);
    assert_eq!(cache.summary(&graph, 2), Summary::BitOutput { bit: 0 });
    assert_eq!(cache.len(), 3);
}

#[test]
fn a_remembered_application_changes_nothing() {
    let tokens = tokenize("(__builtin_debug __builtin_g)").unwrap();
    let node = parse(&tokens).unwrap();
    let (graph, root, free_vars) = prepared(&node);
    let mut cache = RunCache::new(&graph, vec![]);
    let environment = cache.bind(&graph, &free_vars);
    assert_eq!(cache.apply_cached(&graph, 0, 1, true, DEPTH), Some((1, true)));
    assert_eq!(cache.diagnostics().len(), 1);
    assert_eq!(cache.apply_cached(&graph, 0, 1, true, 0), Some((1, true)));
    assert_eq!(cache.apply_cached(&graph, 0, 1, false, DEPTH), Some((1, true)));
    assert_eq!(cache.diagnostics().len(), 1);
    assert_eq!(cache.apply(&graph, 0, 1, DEPTH), Some((1, true)));
    assert_eq!(cache.diagnostics().len(), 2);
    assert_eq!(cache.run_impl(&graph, root, environment, DEPTH), Some((1, true)));
    assert_eq!(cache.diagnostics().len(), 2);
    let report: Diagnostic = cache.diagnostics()[0];
    assert_eq!((report.after_bytes, report.value), (0, 1));
}

#[test]
fn an_application_with_an_impure_operand_is_not_remembered() {
    let tokens = tokenize("(__builtin_debug __builtin_g)").unwrap();
    let node = parse(&tokens).unwrap();
    let (graph, _, free_vars) = prepared(&node);
    let mut cache = RunCache::new(&graph, vec![]);
    let _ = cache.bind(&graph, &free_vars);
    assert_eq!(cache.apply_cached(&graph, 0, 1, false, DEPTH), Some((1, true)));
    assert_eq!(cache.apply_cached(&graph, 0, 1, false, DEPTH), Some((1, true)));
    assert_eq!(cache.diagnostics().len(), 2);
}

#[test]
fn closures_of_the_same_body_and_values_are_one_value() {
    let tokens = tokenize("((\\x x) (\\x x))").unwrap();
    let node = parse(&tokens).unwrap();
    let (graph, root, free_vars) = prepared(&node);
    let mut cache = RunCache::new(&graph, vec![]);
    let environment = cache.bind(&graph, &free_vars);
    let result = cache.run_impl(&graph, root, environment, DEPTH);
    assert_eq!(result, Some((0, true)));
    assert_eq!(cache.len(), 1);
    assert_eq!(cache.summary(&graph, 0), Summary::Closure);
}

#[test]
fn values_are_kept_by_id() {
    let tokens = tokenize("(__builtin_g __builtin_p1 (\\x (x __builtin_g)))").unwrap();
    let node = parse(&tokens).unwrap();
    let (graph, root, free_vars) = prepared(&node);
    let mut cache = RunCache::new(&graph, vec![]);
    let environment = cache.bind(&graph, &free_vars);
    let result = cache.run_impl(&graph, root, environment, DEPTH);
    assert_eq!(result, Some((4, true)));
    assert_eq!(cache.len(), 5);
    for id in 0..5 {
        assert_eq!(cache.get_value(id).id, id);
    }
    assert!(matches!(cache.get_value(0).value, LambdaValue::BitInput { .. }));
    assert!(matches!(cache.get_value(1).value, LambdaValue::BitOutput { bit: 1 }));
    match &cache.get_value(2).value {
        LambdaValue::BitInput { continuations } => assert_eq!(continuations, &vec![1]),
        _ => panic!(),
    }
    assert!(matches!(cache.get_value(3).value, LambdaValue::Closure { .. }));
    match &cache.get_value(4).value {
        LambdaValue::BitInput { continuations } => assert_eq!(continuations, &vec![1, 3]),
        _ => panic!(),
    }
    assert_eq!(cache.summary(&graph, 4), Summary::BitInput { stage: 2 });
}

#[test]
fn environments_are_compared_value_by_value() {
    let mut one = BaseEnvironment::new();
    let mut other = BaseEnvironment::new();
    assert!(one.eq(&other));
    one.push(3);
    assert!(!one.eq(&other));
    other.push(3);
    assert!(one.eq(&other));
    one.push(5);
    other.push(6);
    assert!(!one.eq(&other));
    assert_eq!(one.len(), 2);
    assert_eq!(one.get(1), 5);
    assert_eq!(other.get(0), 3);
}

fn started<'a>(
    graph: &functional_from_zero::transformer::ExpressionCache,
    free_vars: &Vec<&'a Token<'a>>,
    input: &[u8],
) -> (RunCache, Environment) {
    let mut cache = RunCache::new(graph, input.to_vec());
    let environment = cache.bind(graph, free_vars);
    (cache, environment)
}

#[test]
fn a_bit_output_value_gives_the_very_argument_back() {
    let tokens = tokenize("(__builtin_p1 (__builtin_p1 __builtin_p1))").unwrap();
    let node = parse(&tokens).unwrap();
    let (graph, root, free_vars) = prepared(&node);
    let (mut cache, environment) = started(&graph, &free_vars, &[]);
    let slot = cache.get(environment, 0);
    assert_eq!(cache.run_impl(&graph, root, environment, DEPTH), Some((slot, false)));
    assert_eq!(cache.len(), 1);
    assert!(cache.output().is_empty());
    assert!(cache.diagnostics().is_empty());
    for _ in 0..6 {
        assert_eq!(cache.apply(&graph, slot, slot, DEPTH), Some((slot, false)));
    }
    assert_eq!(cache.output(), &vec![0xFFu8]);
}

#[test]
fn the_debug_value_gives_the_very_argument_back_and_reports_once() {
    let tokens = tokenize("(__builtin_debug (__builtin_debug __builtin_debug))").unwrap();
    let node = parse(&tokens).unwrap();
    let (graph, root, free_vars) = prepared(&node);
    let (mut cache, environment) = started(&graph, &free_vars, &[]);
    let slot = cache.get(environment, 0);
    assert_eq!(cache.run_impl(&graph, root, environment, DEPTH), Some((slot, true)));
    let made: Vec<(usize, usize)> =
        cache.diagnostics().iter().map(|r| (r.after_bytes, r.value)).collect();
    assert_eq!(made, vec![(0, slot)]);
    assert!(cache.output().is_empty());
}

#[test]
fn the_identity_gives_the_very_value_of_the_slot() {
    let tokens = tokenize("((\\x x) __builtin_p0)").unwrap();
    let node = parse(&tokens).unwrap();
    let (graph, root, free_vars) = prepared(&node);
    let (mut cache, environment) = started(&graph, &free_vars, &[]);
    let slot = cache.get(environment, 0);
    assert_eq!(cache.run_impl(&graph, root, environment, DEPTH), Some((slot, true)));
    assert!(matches!(cache.get_value(slot).value, LambdaValue::BitOutput { bit: 0 }));
    assert!(cache.output().is_empty());
}

#[test]
fn the_function_side_writes_before_the_argument_side() {
    let tokens = tokenize("((__builtin_p0 __builtin_p0) (__builtin_p1 __builtin_p1))").unwrap();
    let node = parse(&tokens).unwrap();
    let (graph, root, free_vars) = prepared(&node);
    let (mut cache, environment) = started(&graph, &free_vars, &[]);
    let one = cache.get(environment, 1);
    assert_eq!(cache.run_impl(&graph, root, environment, DEPTH), Some((one, false)));
    for _ in 0..5 {
        cache.apply(&graph, one, one, DEPTH);
    }
    assert_eq!(cache.output(), &vec![0x5Fu8]);
}

#[test]
fn a_function_evaluated_twice_is_one_closure() {
    let tokens = tokenize("(\\x (x __builtin_p1 __builtin_g))").unwrap();
    let node = parse(&tokens).unwrap();
    let (graph, root, free_vars) = prepared(&node);
    let (mut cache, environment) = started(&graph, &free_vars, &[]);
    let first = cache.run_impl(&graph, root, environment, DEPTH);
    let size = cache.len();
    let second = cache.run_impl(&graph, root, environment, DEPTH);
    assert_eq!(first, second);
    assert_eq!(first, Some((2, true)));
    assert_eq!(cache.len(), size);
    assert!(matches!(cache.get_value(2).value, LambdaValue::Closure { .. }));
}

#[test]
fn an_overlay_puts_one_value_before_the_others() {
    let tokens = tokenize("(__builtin_p0 __builtin_p1 __builtin_g)").unwrap();
    let node = parse(&tokens).unwrap();
    let (graph, _, free_vars) = prepared(&node);
    let (cache, environment) = started(&graph, &free_vars, &[]);
    let base = match environment {
        Environment::Base(base) => base,
        _ => panic!(),
    };
    assert_eq!(cache.get(environment, 0), 0);
    assert_eq!(cache.get(environment, 2), 2);
    let overlay = Environment::Overlay { base, arg_value: 2 };
    assert_eq!(cache.get(overlay, 0), 2);
    assert_eq!(cache.get(overlay, 1), 0);
    assert_eq!(cache.get(overlay, 3), 2);
}

#[test]
fn a_reading_value_gives_the_very_continuation() {
    let tokens = tokenize("(__builtin_g __builtin_p0 __builtin_p1 __builtin_debug)").unwrap();
    let node = parse(&tokens).unwrap();
    let (graph, root, free_vars) = prepared(&node);
    let (mut cache, environment) = started(&graph, &free_vars, &[0x40]);
    let (reader, pure) = cache.run_impl(&graph, root, environment, DEPTH).unwrap();
    assert!(pure);
    match &cache.get_value(reader).value {
        LambdaValue::BitInput { continuations } => assert_eq!(continuations, &vec![1, 2, 3]),
        _ => panic!(),
    }
    let size = cache.len();
    assert_eq!(cache.apply(&graph, reader, 0, DEPTH), Some((1, false)));
    assert_eq!(cache.apply(&graph, reader, 0, DEPTH), Some((2, false)));
    assert_eq!(cache.apply_cached(&graph, reader, 0, true, DEPTH), Some((1, false)));
    assert_eq!(cache.apply_cached(&graph, reader, 0, true, DEPTH), Some((1, false)));
    for _ in 0..4 {
        assert_eq!(cache.apply(&graph, reader, reader, DEPTH), Some((1, false)));
    }
    assert_eq!(cache.apply(&graph, reader, 0, DEPTH), Some((3, false)));
    assert_eq!(cache.apply_cached(&graph, reader, 0, true, DEPTH), Some((3, false)));
    assert_eq!(cache.len(), size);
    assert!(cache.output().is_empty());
}

#[test]
fn a_reading_value_with_two_continuations_takes_the_third() {
    let tokens = tokenize("(__builtin_g __builtin_p0 __builtin_p1)").unwrap();
    let node = parse(&tokens).unwrap();
    let (graph, root, free_vars) = prepared(&node);
    let (mut cache, environment) = started(&graph, &free_vars, &[0xFF]);
    let (two, _) = cache.run_impl(&graph, root, environment, DEPTH).unwrap();
    let size = cache.len();
    assert_eq!(cache.apply(&graph, two, 0, DEPTH), Some((size, true)));
    match &cache.get_value(size).value {
        LambdaValue::BitInput { continuations } => assert_eq!(continuations, &vec![1, 2, 0]),
        _ => panic!(),
    }
    match &cache.get_value(two).value {
        LambdaValue::BitInput { continuations } => assert_eq!(continuations, &vec![1, 2]),
        _ => panic!(),
    }
    assert_eq!(cache.apply(&graph, two, 0, DEPTH), Some((size + 1, true)));
}

#[test]
fn reports_come_in_the_order_of_the_output() {
    let code = "(__builtin_debug __builtin_p1 __builtin_p1 __builtin_p1 __builtin_p1 \
                __builtin_p1 __builtin_p1 __builtin_p1 __builtin_p1 __builtin_debug \
                __builtin_p0 __builtin_debug __builtin_g __builtin_debug __builtin_p1)";
    let result = ran(code, &[]);
    let mut last = 0;
    for report in &result.diagnostics {
        assert!(last <= report.after_bytes);
        assert!(report.after_bytes <= result.output.len());
        last = report.after_bytes;
    }
    assert_eq!(reports(&result), vec![(0, 1), (1, 2), (1, 3)]);
}
