use std::cell::RefCell;
use std::rc::Rc;

use lib::eval::{eval_step, eval_step_fault, EvalAction, EvalError, EvalEvent, EvalMachine, StepFault};
use lib::runtime_env::RuntimeEnv;
use lib::value::{list_from_vec, Value};

/// The built-in functions these tests install.
#[derive(Debug, PartialEq)]
enum Op {
    Add,
    Mul,
    Quote,
}

/// A memo table: the keys and results in the order they were stored.
#[derive(Debug, PartialEq, Default)]
struct Memo(RefCell<Vec<(Vec<Rc<V>>, Rc<V>)>>);

type V = Value<f64, Op, Memo>;
type Env = RuntimeEnv<f64, Op, Memo>;

fn new_global() -> Env {
    Env::new_global(std::f64::consts::PI, std::f64::consts::E)
}

fn num(n: f64) -> Rc<V> {
    V::number(n)
}

fn sym(s: &str) -> Rc<V> {
    V::symbol(s)
}

fn function(op: Op) -> Rc<V> {
    Rc::new(Value::Function(op))
}

fn call(op: &Op, args: &[Rc<V>]) -> Result<Rc<V>, String> {
    match op {
        Op::Add => {
            let mut sum = 0.0;
            for arg in args {
                if let Value::Number(n) = &**arg {
                    sum += n;
                } else {
                    return Err("+ expects numbers".to_string());
                }
            }
            Ok(num(sum))
        }
        Op::Mul => {
            let mut product = 1.0;
            for arg in args {
                if let Value::Number(n) = &**arg {
                    product *= n;
                } else {
                    return Err("* expects numbers".to_string());
                }
            }
            Ok(num(product))
        }
        Op::Quote => {
            if args.len() != 1 {
                return Err("quote expects exactly 1 argument".to_string());
            }
            Ok(args[0].clone())
        }
    }
}

/// Runs the evaluator on `expr` to the end, doing the work it asks for.
fn eval(expr: Rc<V>, env: &mut Env) -> Result<Rc<V>, EvalError<f64, Op, Memo>> {
    let mut machine = EvalMachine::new(expr);
    let mut event = EvalEvent::Resume;
    loop {
        assert_eq!(eval_step_fault(&machine, env, &event), None);
        event = match eval_step(&mut machine, env, event) {
            EvalAction::Continue => EvalEvent::Resume,
            EvalAction::Done(value) => return Ok(value),
            EvalAction::Fail(error) => return Err(error),
            EvalAction::Call { callee, args } => match &*callee {
                Value::Function(op) => match call(op, &args) {
                    Ok(value) => EvalEvent::Returned(value),
                    Err(msg) => EvalEvent::Raised(msg),
                },
                other => panic!("asked to call {other:?}"),
            },
            EvalAction::MemoLookup { memo, key } => match &*memo {
                Value::Memoized { cache, .. } => {
                    match cache.0.borrow().iter().find(|(k, _)| *k == key) {
                        Some((_, hit)) => EvalEvent::MemoHit(hit.clone()),
                        None => EvalEvent::MemoMiss,
                    }
                }
                other => panic!("asked for the memo table of {other:?}"),
            },
            EvalAction::MemoStore { memo, key, value } => {
                if let Value::Memoized { cache, .. } = &*memo {
                    cache.0.borrow_mut().push((key, value));
                }
                EvalEvent::Resume
            }
        };
    }
}

fn arithmetic_env() -> Env {
    let mut env = new_global();
    env.define_global("+", function(Op::Add));
    env.define_global("*", function(Op::Mul));
    env
}

#[test]
fn test_eval_basic() {
    let mut env = new_global();

    let result = eval(num(42.0), &mut env).unwrap();
    assert_eq!(result, num(42.0));

    let result = eval(V::string("hello"), &mut env).unwrap();
    assert_eq!(result, V::string("hello"));

    let result = eval(V::bool(true), &mut env).unwrap();
    assert_eq!(result, V::bool(true));

    let result = eval(V::nil(), &mut env).unwrap();
    assert!(result.is_nil());
}

#[test]
fn test_eval_symbol() {
    let mut env = new_global();

    env.define_global("x", num(10.0));

    let result = eval(sym("x"), &mut env).unwrap();
    assert_eq!(result, num(10.0));

    let result = eval(sym("undefined"), &mut env);
    assert!(result.is_err());
    assert!(matches!(result.unwrap_err(), EvalError::UndefinedSymbol(s) if s == "undefined"));
}

#[test]
fn test_eval_arithmetic() {
    let mut env = arithmetic_env();

    let expr = list_from_vec(vec![sym("+"), num(1.0), num(2.0), num(3.0)]);
    let result = eval(expr, &mut env).unwrap();
    assert_eq!(result, num(6.0));

    let expr2 = list_from_vec(vec![sym("*"), num(2.0), num(3.0), num(4.0)]);
    let result2 = eval(expr2, &mut env).unwrap();
    assert_eq!(result2, num(24.0));
}

#[test]
fn test_eval_nested() {
    let mut env = arithmetic_env();

    let expr = list_from_vec(vec![
        sym("*"),
        list_from_vec(vec![sym("+"), num(1.0), num(2.0)]),
        list_from_vec(vec![sym("+"), num(3.0), num(4.0)]),
    ]);

    let result = eval(expr, &mut env).unwrap();
    assert_eq!(result, num(21.0));
}

#[test]
fn test_eval_quote() {
    let mut env = new_global();

    env.define_global("quote", function(Op::Quote));

    let expr = list_from_vec(vec![
        sym("quote"),
        list_from_vec(vec![sym("+"), num(1.0), num(2.0)]),
    ]);

    let result = eval(expr, &mut env).unwrap();

    let items = match &*result {
        Value::Pair(cons) => cons.to_vec().expect("Expected proper list"),
        other => panic!("Expected pair, got {other:?}"),
    };
    assert_eq!(items, vec![sym("+"), num(1.0), num(2.0)]);
}

fn lambda(params_count: usize, body: Rc<V>) -> Rc<V> {
    Rc::new(Value::Lambda { params_count, body })
}

fn local(depth: usize, index: usize) -> Rc<V> {
    Rc::new(Value::LocalVar(depth, index))
}

#[test]
fn closure_captures_the_frames_of_its_definition() {
    let mut env = arithmetic_env();
    // ((lambda (x) (lambda (y) (+ x y))) 3), then applied to 4.
    let adder = lambda(
        1,
        lambda(1, list_from_vec(vec![sym("+"), local(1, 0), local(0, 0)])),
    );
    let add3 = eval(list_from_vec(vec![adder, num(3.0)]), &mut env).unwrap();
    match &*add3 {
        Value::Closure { params_count, captured, .. } => {
            assert_eq!(*params_count, 1);
            assert_eq!(captured.len(), 1);
            assert_eq!(captured[0], vec![num(3.0)]);
        }
        other => panic!("expected a closure, got {other:?}"),
    }
    env.define_global("add3", add3);
    let result = eval(list_from_vec(vec![sym("add3"), num(4.0)]), &mut env).unwrap();
    assert_eq!(result, num(7.0));
    assert_eq!(env.frame_count(), 0);
}

#[test]
fn call_gives_back_the_callers_frames() {
    let mut env = new_global();
    let identity = lambda(1, local(0, 0));
    let result = eval(list_from_vec(vec![identity, num(5.0)]), &mut env).unwrap();
    assert_eq!(result, num(5.0));
    assert_eq!(env.frame_count(), 0);
}

#[test]
fn tail_call_replaces_the_frames_and_is_counted() {
    let mut env = new_global();
    let expr = Rc::new(Value::TailCall {
        func: lambda(2, local(0, 1)),
        args: vec![num(8.0), num(9.0)],
    });
    let result = eval(expr, &mut env).unwrap();
    assert_eq!(result, num(9.0));
    assert_eq!(env.profiler().tail_calls_optimized, 1);
    assert_eq!(env.frame_count(), 1);
    assert_eq!(env.lookup_local(0, 0), Some(num(8.0)));
}

#[test]
fn if_takes_else_branch_only_on_false_and_nil() {
    let mut env = new_global();
    let branch = |cond: Rc<V>| {
        Rc::new(Value::If { cond, then_branch: num(1.0), else_branch: num(2.0) })
    };
    assert_eq!(eval(branch(V::bool(false)), &mut env).unwrap(), num(2.0));
    assert_eq!(eval(branch(V::nil()), &mut env).unwrap(), num(2.0));
    assert_eq!(eval(branch(num(0.0)), &mut env).unwrap(), num(1.0));
    assert_eq!(eval(branch(V::bool(true)), &mut env).unwrap(), num(1.0));
}

#[test]
fn memoized_body_is_evaluated_once_per_argument() {
    let mut env = arithmetic_env();
    let body = Rc::new(Value::Memoized {
        body: list_from_vec(vec![sym("+"), local(0, 0), num(1.0)]),
        cache: Memo::default(),
    });
    let f = eval(lambda(1, body), &mut env).unwrap();
    env.define_global("f", f);
    let first = eval(list_from_vec(vec![sym("f"), num(5.0)]), &mut env).unwrap();
    let second = eval(list_from_vec(vec![sym("f"), num(5.0)]), &mut env).unwrap();
    let other = eval(list_from_vec(vec![sym("f"), num(6.0)]), &mut env).unwrap();
    assert_eq!(first, num(6.0));
    assert_eq!(second, num(6.0));
    assert_eq!(other, num(7.0));
    assert_eq!(env.profiler().memo_cache_misses, 2);
    assert_eq!(env.profiler().memo_cache_hits, 1);
}

#[test]
fn memoized_body_outside_a_call_cannot_step() {
    let env = new_global();
    let expr: Rc<V> = Rc::new(Value::Memoized { body: num(1.0), cache: Memo::default() });
    let machine = EvalMachine::new(expr);
    assert_eq!(
        eval_step_fault(&machine, &env, &EvalEvent::Resume),
        Some(StepFault::NoLocalFrame)
    );
}

#[test]
fn closure_with_wrong_arity_fails() {
    let mut env = new_global();
    let result = eval(list_from_vec(vec![lambda(2, num(0.0)), num(1.0)]), &mut env);
    assert!(matches!(result, Err(EvalError::ArityMismatch { expected: 2, got: 1 })));
    assert_eq!(env.frame_count(), 0);
}

#[test]
fn calling_a_number_fails() {
    let mut env = new_global();
    let result = eval(list_from_vec(vec![num(1.0), num(2.0)]), &mut env);
    assert!(matches!(result, Err(EvalError::NotCallable(v)) if v == num(1.0)));
}

#[test]
fn error_value_fails_with_its_message() {
    let mut env = new_global();
    let result = eval(Rc::new(Value::Error("boom".to_string())), &mut env);
    assert!(matches!(result, Err(EvalError::Raised(m)) if m == "boom"));
}

#[test]
fn builtin_failure_is_reported_and_frames_come_back() {
    let mut env = arithmetic_env();
    let body = list_from_vec(vec![sym("+"), local(0, 0), V::bool(true)]);
    let result = eval(list_from_vec(vec![lambda(1, body), num(1.0)]), &mut env);
    assert!(matches!(result, Err(EvalError::Builtin(m)) if m == "+ expects numbers"));
    assert_eq!(env.frame_count(), 0);
}

#[test]
fn missing_local_fails() {
    let mut env = new_global();
    let result = eval(local(0, 3), &mut env);
    assert!(matches!(result, Err(EvalError::LocalNotFound { depth: 0, index: 3 })));
}

#[test]
fn unbound_quote_fails() {
    let mut env = new_global();
    let result = eval(list_from_vec(vec![sym("quote"), num(1.0)]), &mut env);
    assert!(matches!(result, Err(EvalError::SpecialFormMissing(s)) if s == "quote"));
}

#[test]
fn quote_bound_to_a_value_is_an_ordinary_call() {
    let mut env = new_global();
    env.define_global("quote", num(3.0));
    let result = eval(list_from_vec(vec![sym("quote"), num(1.0)]), &mut env);
    assert!(matches!(result, Err(EvalError::NotCallable(v)) if v == num(3.0)));
}
