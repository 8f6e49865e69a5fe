use std::rc::Rc;

use lib::assoc::AssocList;
use lib::builtins::{car, cdr, cons, is_null, is_pair, list, not, quote, BuiltinError};
use lib::compiler::{compile_ast, extract_param_names, vec_to_list, CompileError};
use lib::names::NameSet;
use lib::optimizer::{is_pure_function, rebuild_list};
use lib::profiler::Profiler;
use lib::purity::{deferred_dependency, is_expression_pure, merge_purity, PurityState};
use lib::scc::strongly_connected_components;
use lib::static_env::StaticEnv;
use lib::timing::{duration_unit, TimeUnit};
use lib::value::{list_from_vec, Value};

type V = Value<f64, (), ()>;

fn sym(s: &str) -> Rc<V> {
    V::symbol(s)
}

fn num(n: f64) -> Rc<V> {
    V::number(n)
}

fn names(items: &[&str]) -> NameSet {
    let mut set = NameSet::new();
    for item in items {
        set.insert(item.to_string());
    }
    set
}

fn deferred_on(state: &PurityState) -> Vec<String> {
    match state {
        PurityState::Deferred(set) => {
            let mut v = set.to_vec();
            v.sort();
            v
        }
        _ => panic!("expected a deferred verdict"),
    }
}

#[test]
fn static_env_finds_innermost_binding() {
    let mut env = StaticEnv::new();
    assert_eq!(env.lookup("x"), None);
    env.push_frame(vec!["x".to_string(), "y".to_string()]);
    env.push_frame(vec!["z".to_string(), "x".to_string()]);
    assert_eq!(env.lookup("x"), Some((0, 1)));
    assert_eq!(env.lookup("y"), Some((1, 1)));
    assert_eq!(env.lookup("z"), Some((0, 0)));
    assert_eq!(env.lookup("w"), None);
    env.pop_frame();
    assert_eq!(env.lookup("x"), Some((0, 0)));
    assert_eq!(env.lookup("z"), None);
    env.pop_frame();
    env.pop_frame();
    assert_eq!(env.lookup("x"), None);
}

#[test]
fn static_env_first_duplicate_parameter_wins() {
    let mut env = StaticEnv::new();
    env.push_frame(vec!["a".to_string(), "a".to_string()]);
    assert_eq!(env.lookup("a"), Some((0, 0)));
}

#[test]
fn profiler_starts_at_zero() {
    let p = Profiler::new();
    assert_eq!(p.constant_folds, 0);
    assert_eq!(p.pure_functions_detected, 0);
    assert_eq!(p.total_calls, 0);
    assert_eq!(p.tail_calls_optimized, 0);
    assert_eq!(p.memo_cache_hits, 0);
    assert_eq!(p.memo_cache_misses, 0);
    let d = Profiler::default();
    assert_eq!(d.memo_cache_misses, 0);
}

#[test]
fn name_set_operations() {
    let mut set = NameSet::new();
    assert!(set.is_empty());
    assert!(set.insert("a".to_string()));
    assert!(!set.insert("a".to_string()));
    assert!(set.insert("b".to_string()));
    assert_eq!(set.len(), 2);
    assert!(set.contains("a"));
    assert!(set.remove("a"));
    assert!(!set.remove("a"));
    assert!(!set.contains("a"));
    let mut other = names(&["b", "c"]);
    other.extend(&set);
    assert_eq!(other.to_vec(), vec!["b".to_string(), "c".to_string()]);
    let copy = other.duplicate();
    assert!(copy.contains("c"));
    let from = NameSet::from_names(&vec!["x".to_string(), "x".to_string()]);
    assert_eq!(from.len(), 1);
    assert!(NameSet::singleton("q").contains("q"));
}

#[test]
fn assoc_list_keeps_order_and_replaces_in_place() {
    let mut table: AssocList<u32> = AssocList::new();
    table.insert("a".to_string(), 1);
    table.insert("b".to_string(), 2);
    table.insert("a".to_string(), 3);
    assert_eq!(table.get("a"), Some(&3));
    assert_eq!(table.keys(), vec!["a".to_string(), "b".to_string()]);
    assert_eq!(table.len(), 2);
    assert_eq!(table.remove("a"), Some(3));
    assert_eq!(table.remove("a"), None);
    assert!(!table.contains_key("a"));
    assert_eq!(table.keys(), vec!["b".to_string()]);
    assert_eq!(table.remove("b"), Some(2));
    assert!(table.is_empty());
}

#[test]
fn builtins_on_lists() {
    let pair = V::cons(num(1.0), num(2.0));
    assert_eq!(car(&[pair.clone()]), Ok(num(1.0)));
    assert_eq!(cdr(&[pair.clone()]), Ok(num(2.0)));
    assert_eq!(car(&[V::nil()]), Err(BuiltinError::EmptyList));
    assert_eq!(cdr(&[num(3.0)]), Err(BuiltinError::NotAPair(num(3.0))));
    assert_eq!(car::<f64, (), ()>(&[]), Err(BuiltinError::WrongArity));
    assert_eq!(cons(&[num(1.0), num(2.0)]), Ok(pair));
    assert_eq!(cons(&[num(1.0)]), Err(BuiltinError::WrongArity));
    assert_eq!(
        list(&[num(1.0), num(2.0)]),
        Ok(V::cons(num(1.0), V::cons(num(2.0), V::nil())))
    );
    assert_eq!(list::<f64, (), ()>(&[]), Ok(V::nil()));
}

#[test]
fn builtins_on_truth() {
    assert_eq!(not(&[V::bool(false)]), Ok(V::bool(true)));
    assert_eq!(not(&[V::nil()]), Ok(V::bool(true)));
    assert_eq!(not(&[num(0.0)]), Ok(V::bool(false)));
    assert_eq!(not::<f64, (), ()>(&[]), Err(BuiltinError::WrongArity));
    assert_eq!(is_null(&[V::nil()]), Ok(V::bool(true)));
    assert_eq!(is_null(&[num(1.0)]), Ok(V::bool(false)));
    assert_eq!(is_pair(&[V::cons(num(1.0), V::nil())]), Ok(V::bool(true)));
    assert_eq!(is_pair(&[V::nil()]), Ok(V::bool(false)));
    assert_eq!(is_pair(&[V::nil(), V::nil()]), Err(BuiltinError::WrongArity));
}

#[test]
fn values_and_lists() {
    let l = list_from_vec(vec![num(1.0), sym("a")]);
    assert!(l.is_list());
    assert!(l.is_pair());
    assert!(l.is_truthy());
    assert!(!V::bool(false).is_truthy());
    assert!(!V::nil().is_truthy());
    assert!(V::nil().is_list());
    if let Value::Pair(c) = &*l {
        assert_eq!(c.to_vec(), Some(vec![num(1.0), sym("a")]));
        assert_eq!(c.cars(), vec![num(1.0), sym("a")]);
        assert!(c.is_proper_list());
    } else {
        panic!("expected pair");
    }
    let improper = V::cons(num(1.0), num(2.0));
    if let Value::Pair(c) = &*improper {
        assert_eq!(c.to_vec(), None);
        assert_eq!(c.cars(), vec![num(1.0)]);
    }
    assert_eq!(vec_to_list(vec![num(1.0)]), V::cons(num(1.0), V::nil()));
}

#[test]
fn compile_turns_parameters_into_locals() {
    let expr = list_from_vec(vec![
        sym("lambda"),
        list_from_vec(vec![sym("x")]),
        list_from_vec(vec![sym("*"), sym("x"), sym("y")]),
    ]);
    let mut env = StaticEnv::new();
    let compiled = compile_ast(expr, &mut env, false).unwrap();
    let expected = V::Lambda {
        params_count: 1,
        body: Rc::new(Value::TailCall {
            func: sym("*"),
            args: vec![Rc::new(Value::LocalVar(0, 0)), sym("y")],
        }),
    };
    assert_eq!(*compiled, expected);
    assert_eq!(env.lookup("x"), None);
}

#[test]
fn compile_keeps_calls_outside_tail_position() {
    let expr = list_from_vec(vec![
        sym("if"),
        list_from_vec(vec![sym("<"), sym("n"), num(2.0)]),
        sym("n"),
        list_from_vec(vec![sym("f"), sym("n")]),
    ]);
    let mut env = StaticEnv::new();
    env.push_frame(vec!["n".to_string()]);
    let compiled = compile_ast(expr, &mut env, true).unwrap();
    let n = Rc::new(Value::LocalVar(0, 0));
    let expected = V::If {
        cond: list_from_vec(vec![sym("<"), n.clone(), num(2.0)]),
        then_branch: n.clone(),
        else_branch: Rc::new(Value::TailCall { func: sym("f"), args: vec![n.clone()] }),
    };
    assert_eq!(*compiled, expected);
}

#[test]
fn compile_errors() {
    let mut env = StaticEnv::new();
    let bad_lambda = list_from_vec(vec![sym("lambda")]);
    assert_eq!(compile_ast(bad_lambda, &mut env, false), Err(CompileError::InvalidLambdaSyntax));
    let bad_if = list_from_vec(vec![sym("if"), num(1.0)]);
    assert_eq!(compile_ast(bad_if, &mut env, false), Err(CompileError::IfArity));
}

#[test]
fn compile_nested_define_keeps_name() {
    let expr = list_from_vec(vec![sym("define"), sym("v"), list_from_vec(vec![sym("g"), num(1.0)])]);
    let mut env = StaticEnv::new();
    let compiled = compile_ast(expr, &mut env, true).unwrap();
    let expected = list_from_vec(vec![
        sym("define"),
        sym("v"),
        list_from_vec(vec![sym("g"), num(1.0)]),
    ]);
    assert_eq!(compiled, expected);
}

#[test]
fn parameter_names_skip_non_symbols() {
    let params = list_from_vec(vec![sym("a"), num(1.0), sym("b")]);
    assert_eq!(extract_param_names(params), vec!["a".to_string(), "b".to_string()]);
}

#[test]
fn purity_verdicts() {
    let pure = names(&["+"]);
    let known = names(&["+", "print", "g"]);
    let pending = names(&["g"]);
    let call = |f: &str| {
        Rc::new(Value::TailCall { func: sym(f), args: vec![Rc::new(Value::LocalVar(0, 0))] })
    };
    assert!(matches!(is_expression_pure(&call("+"), &pure, &known, &pending, "f"), PurityState::Pure));
    assert!(matches!(is_expression_pure(&call("f"), &pure, &known, &pending, "f"), PurityState::Pure));
    assert!(matches!(is_expression_pure(&call("print"), &pure, &known, &pending, "f"), PurityState::Impure));
    assert!(matches!(is_expression_pure(&call("eval"), &pure, &known, &pending, "f"), PurityState::Impure));
    assert!(matches!(is_expression_pure(&call("define"), &pure, &known, &pending, "f"), PurityState::Impure));
    assert_eq!(deferred_on(&is_expression_pure(&call("g"), &pure, &known, &pending, "f")), vec!["g"]);
    assert_eq!(
        deferred_on(&is_expression_pure(&call("unknown"), &pure, &known, &pending, "f")),
        vec!["unknown"]
    );
    let quoted = list_from_vec(vec![sym("quote"), list_from_vec(vec![sym("print")])]);
    assert!(matches!(is_expression_pure(&quoted, &pure, &known, &pending, "f"), PurityState::Pure));
    let branches = Rc::new(Value::If { cond: call("g"), then_branch: call("h"), else_branch: num(1.0) });
    assert_eq!(deferred_on(&is_expression_pure(&branches, &pure, &known, &pending, "f")), vec!["g", "h"]);
    let improper = V::cons(sym("+"), num(1.0));
    assert!(matches!(is_expression_pure(&improper, &pure, &known, &pending, "f"), PurityState::Impure));
    let error: Rc<V> = Rc::new(Value::Error("boom".to_string()));
    assert!(matches!(is_expression_pure(&error, &pure, &known, &pending, "f"), PurityState::Impure));
}

#[test]
fn more_pure_functions_never_worsen_a_verdict() {
    let known = names(&["+", "g", "h"]);
    let pending = names(&["g", "h"]);
    let call = |f: &str| Rc::new(Value::TailCall { func: sym(f), args: vec![] });
    let branches = Rc::new(Value::If { cond: call("g"), then_branch: call("h"), else_branch: num(1.0) });
    let fewer = names(&["+"]);
    let more = names(&["+", "g"]);
    let all = names(&["+", "g", "h"]);
    assert_eq!(deferred_on(&is_expression_pure(&branches, &fewer, &known, &pending, "f")), vec!["g", "h"]);
    assert_eq!(deferred_on(&is_expression_pure(&branches, &more, &known, &pending, "f")), vec!["h"]);
    assert!(matches!(is_expression_pure(&branches, &all, &known, &pending, "f"), PurityState::Pure));
}

#[test]
fn quote_gives_back_its_argument() {
    let form = list_from_vec(vec![sym("+"), num(1.0)]);
    assert_eq!(quote(&[form.clone()]).unwrap(), form);
    assert!(matches!(quote::<f64, (), ()>(&[]), Err(BuiltinError::WrongArity)));
    assert!(matches!(quote(&[num(1.0), num(2.0)]), Err(BuiltinError::WrongArity)));
}

#[test]
fn merging_verdicts() {
    let merged = merge_purity(deferred_dependency("a"), deferred_dependency("b"));
    assert_eq!(deferred_on(&merged), vec!["a", "b"]);
    assert!(matches!(merge_purity(PurityState::Pure, PurityState::Pure), PurityState::Pure));
    assert!(matches!(merge_purity(deferred_dependency("a"), PurityState::Impure), PurityState::Impure));
    assert_eq!(deferred_on(&merge_purity(PurityState::Pure, deferred_dependency("c"))), vec!["c"]);
}

#[test]
fn strongly_connected_components_partition_the_graph() {
    let graph = vec![vec![1], vec![0, 2], vec![3], vec![2], vec![]];
    let mut components = strongly_connected_components(&graph);
    for c in components.iter_mut() {
        c.sort();
    }
    components.sort();
    assert_eq!(components, vec![vec![0, 1], vec![2, 3], vec![4]]);
}

#[test]
fn strongly_connected_components_of_a_cycle() {
    let graph = vec![vec![1], vec![2], vec![0]];
    let components = strongly_connected_components(&graph);
    assert_eq!(components.len(), 1);
    let mut c = components[0].clone();
    c.sort();
    assert_eq!(c, vec![0, 1, 2]);
    assert!(strongly_connected_components(&vec![]).is_empty());
}

#[test]
fn duration_units() {
    assert_eq!(duration_unit(2_500_000_000), TimeUnit::Seconds);
    assert_eq!(duration_unit(1_000_000_000), TimeUnit::Seconds);
    assert_eq!(duration_unit(999_999_999), TimeUnit::Milliseconds);
    assert_eq!(duration_unit(1_000_000), TimeUnit::Milliseconds);
    assert_eq!(duration_unit(1_000), TimeUnit::Microseconds);
    assert_eq!(duration_unit(999), TimeUnit::Nanoseconds);
    assert_eq!(duration_unit(0), TimeUnit::Nanoseconds);
}

#[test]
fn folding_helpers() {
    for op in ["+", "-", "*", "/", "=", ">", "<", "not"] {
        assert!(is_pure_function(op));
    }
    assert!(!is_pure_function("<="));
    assert!(!is_pure_function("car"));
    assert_eq!(
        rebuild_list("+", vec![num(1.0), sym("x")]),
        list_from_vec(vec![sym("+"), num(1.0), sym("x")])
    );
}

#[test]
fn short_nested_define_would_panic() {
    let env = StaticEnv::new();
    let short = list_from_vec(vec![sym("define"), sym("v")]);
    assert!(lib::compiler::compile_would_panic(&short, &env, true));
    let behind_error = list_from_vec(vec![sym("f"), list_from_vec(vec![sym("lambda")]), short.clone()]);
    assert!(!lib::compiler::compile_would_panic(&behind_error, &env, true));
    let full = list_from_vec(vec![sym("define"), sym("v"), num(1.0)]);
    assert!(!lib::compiler::compile_would_panic(&full, &env, true));
}
