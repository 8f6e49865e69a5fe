use std::rc::Rc;

use lib::compiler::CompileError;
use lib::define::{define_function, define_variable, DefineError, DefineStep};
use lib::lexer::{Token, Tokenizer};
use lib::parser::Parser;
use lib::runtime_env::RuntimeEnv;
use lib::value::Value;

type V = Value<f64, (), ()>;
type Env = RuntimeEnv<f64, (), ()>;

const BUILTINS: [&str; 23] = [
    "eval", "define", "quote", "+", "-", "*", "/", "=", "<", ">", "<=", ">=", "null?", "pair?",
    "eq?", "equal?", "car", "cdr", "cons", "list", "not", "and", "or",
];

fn global_env() -> Env {
    let mut env = Env::new_global(std::f64::consts::PI, std::f64::consts::E);
    for name in BUILTINS {
        env.define_global(name, Rc::new(Value::Function(())));
    }
    env
}

fn read_str(input: &str) -> Vec<Rc<V>> {
    let mut tokenizer = Tokenizer::new(input);
    let tokens: Vec<Token<f64>> = tokenizer
        .tokenize()
        .unwrap()
        .into_iter()
        .map(|t| match t {
            Token::LParen => Token::LParen,
            Token::RParen => Token::RParen,
            Token::Quote => Token::Quote,
            Token::Dot => Token::Dot,
            Token::Nil => Token::Nil,
            Token::String(s) => Token::String(s),
            Token::Symbol(s) => Token::Symbol(s),
            Token::Number(text) => Token::Number(text.parse::<f64>().unwrap()),
            Token::Boolean(b) => Token::Boolean(b),
        })
        .collect();
    let mut parser = Parser::new(tokens);
    parser.parse().unwrap()
}

/// Runs a `(define ...)` form the way the evaluator does: the unevaluated
/// arguments go to `define_function`, and a variable's value, here always a
/// literal, is bound by `define_variable`.
fn eval(expr: Rc<V>, env: &mut Env) -> Result<(), DefineError> {
    let mut args = Vec::new();
    if let Value::Pair(form) = &*expr {
        assert_eq!(form.car, V::symbol("define"));
        let mut current = form.cdr.clone();
        loop {
            let next = match &*current {
                Value::Pair(c) => {
                    args.push(c.car.clone());
                    c.cdr.clone()
                }
                _ => break,
            };
            current = next;
        }
    } else {
        panic!("expected a define form");
    }
    match define_function(env, &args)? {
        DefineStep::EvaluateValue(name) => {
            define_variable(env, &name, args[1].clone());
            Ok(())
        }
        DefineStep::Defined => Ok(()),
    }
}

fn closure_body(env: &Env, name: &str) -> Rc<V> {
    match env.lookup_global(name).expect("defined").as_ref() {
        Value::Closure { body, .. } => body.clone(),
        other => panic!("expected closure, got {other:?}"),
    }
}

#[test]
fn promotes_pending_function_after_dependency_becomes_pure() {
    let mut env = global_env();

    let expressions = read_str(
        "
        (define (foo x)
          (bar x))

        (define (bar x)
          (+ x 1))
        ",
    );

    eval(expressions[0].clone(), &mut env).unwrap();

    {
        let foo_pending = env.pending_function("foo").expect("foo should be pending");
        assert!(foo_pending.unresolved_dependencies.contains("bar"));

        let foo = env.lookup_global("foo").expect("foo should be defined");
        match foo.as_ref() {
            Value::Closure { body, .. } => {
                assert!(!matches!(body.as_ref(), Value::Memoized { .. }));
            }
            other => panic!("expected foo closure, got {other:?}"),
        }
    }

    eval(expressions[1].clone(), &mut env).unwrap();

    {
        assert!(env.pending_count() == 0);
        assert!(env.pure_functions().contains("foo"));
        assert!(env.pure_functions().contains("bar"));

        let foo = env.lookup_global("foo").expect("foo should stay defined");
        let bar = env.lookup_global("bar").expect("bar should be defined");

        for function in [foo, bar] {
            match function.as_ref() {
                Value::Closure { body, .. } => {
                    assert!(matches!(body.as_ref(), Value::Memoized { .. }));
                }
                other => panic!("expected closure, got {other:?}"),
            }
        }
    }
}

#[test]
fn promotes_mutually_recursive_pure_functions_together() {
    let mut env = global_env();

    let expressions = read_str(
        "
        (define (step-a x y)
          (step-b (+ x 1) y))

        (define (step-b x y)
          (step-a x (+ y 1)))
        ",
    );

    eval(expressions[0].clone(), &mut env).unwrap();
    eval(expressions[1].clone(), &mut env).unwrap();

    assert!(env.pending_count() == 0);
    assert!(env.pure_functions().contains("step-a"));
    assert!(env.pure_functions().contains("step-b"));

    let step_a = env.lookup_global("step-a").expect("step-a should be defined");
    let step_b = env.lookup_global("step-b").expect("step-b should be defined");

    for function in [step_a, step_b] {
        match function.as_ref() {
            Value::Closure { body, .. } => {
                assert!(matches!(body.as_ref(), Value::Memoized { .. }));
            }
            other => panic!("expected closure, got {other:?}"),
        }
    }
}

#[test]
fn promotes_two_function_cycle_a_to_b_to_a() {
    let mut env = global_env();

    let expressions = read_str(
        "
        (define (a x)
          (b x))

        (define (b x)
          (a x))
        ",
    );

    eval(expressions[0].clone(), &mut env).unwrap();
    eval(expressions[1].clone(), &mut env).unwrap();

    assert!(env.pending_count() == 0);
    assert!(env.pure_functions().contains("a"));
    assert!(env.pure_functions().contains("b"));

    let a = env.lookup_global("a").expect("a should be defined");
    let b = env.lookup_global("b").expect("b should be defined");

    for function in [a, b] {
        match function.as_ref() {
            Value::Closure { body, .. } => {
                assert!(matches!(body.as_ref(), Value::Memoized { .. }));
            }
            other => panic!("expected closure, got {other:?}"),
        }
    }
}

#[test]
fn pure_function_is_memoized_and_counted() {
    let mut env = global_env();
    let expressions = read_str("(define (square x) (* x x))");
    eval(expressions[0].clone(), &mut env).unwrap();

    assert!(env.pure_functions().contains("square"));
    assert_eq!(env.profiler().pure_functions_detected, 1);
    let expected = V::TailCall {
        func: V::symbol("*"),
        args: vec![Rc::new(Value::LocalVar(0, 0)), Rc::new(Value::LocalVar(0, 0))],
    };
    match closure_body(&env, "square").as_ref() {
        Value::Memoized { body, .. } => assert_eq!(**body, expected),
        other => panic!("expected memoized body, got {other:?}"),
    }
    match env.lookup_global("square").unwrap().as_ref() {
        Value::Closure { params_count, captured, .. } => {
            assert_eq!(*params_count, 1);
            assert!(captured.is_empty());
        }
        other => panic!("expected closure, got {other:?}"),
    }
}

#[test]
fn pure_function_without_memoization_keeps_plain_body() {
    let mut env = global_env();
    env.set_memoization_enabled(false);
    let expressions = read_str("(define (inc x) (+ x 1))");
    eval(expressions[0].clone(), &mut env).unwrap();

    assert!(env.pure_functions().contains("inc"));
    assert!(!matches!(closure_body(&env, "inc").as_ref(), Value::Memoized { .. }));
}

#[test]
fn impure_function_is_installed_but_not_pure() {
    let mut env = global_env();
    let expressions = read_str("(define (run x) (eval x))");
    eval(expressions[0].clone(), &mut env).unwrap();

    assert!(!env.pure_functions().contains("run"));
    assert!(env.pending_function("run").is_none());
    assert!(!matches!(closure_body(&env, "run").as_ref(), Value::Memoized { .. }));
    assert_eq!(env.profiler().pure_functions_detected, 0);
}

#[test]
fn calling_a_known_impure_variable_makes_a_function_impure() {
    let mut env = global_env();
    let expressions = read_str("(define y 3) (define (f) (y))");
    eval(expressions[0].clone(), &mut env).unwrap();
    eval(expressions[1].clone(), &mut env).unwrap();

    assert!(!env.pure_functions().contains("f"));
    assert!(env.pending_function("f").is_none());
}

#[test]
fn waiting_function_is_dropped_once_its_dependency_is_impure() {
    let mut env = global_env();
    let expressions = read_str("(define (f x) (g x)) (define (g x) (eval x))");
    eval(expressions[0].clone(), &mut env).unwrap();
    assert!(env.pending_function("f").is_some());

    eval(expressions[1].clone(), &mut env).unwrap();
    assert!(env.pending_count() == 0);
    assert!(!env.pure_functions().contains("f"));
    assert!(!env.pure_functions().contains("g"));
}

#[test]
fn waiting_function_is_dropped_when_dependency_becomes_a_variable() {
    let mut env = global_env();
    let expressions = read_str("(define (f x) (h x)) (define h 1)");
    eval(expressions[0].clone(), &mut env).unwrap();
    assert!(env.pending_function("f").is_some());

    eval(expressions[1].clone(), &mut env).unwrap();
    assert!(env.pending_count() == 0);
    assert!(!env.pure_functions().contains("f"));
    assert_eq!(env.lookup_global("h"), Some(V::number(1.0)));
}

#[test]
fn redefining_a_pure_function_as_variable_forgets_its_purity() {
    let mut env = global_env();
    let expressions = read_str("(define (f x) x) (define f 2)");
    eval(expressions[0].clone(), &mut env).unwrap();
    assert!(env.pure_functions().contains("f"));

    eval(expressions[1].clone(), &mut env).unwrap();
    assert!(!env.pure_functions().contains("f"));
    assert_eq!(env.lookup_global("f"), Some(V::number(2.0)));
}

#[test]
fn variable_definition_asks_for_its_value() {
    let mut env = global_env();
    let args = vec![V::symbol("x"), V::number(5.0)];
    assert_eq!(
        define_function(&mut env, &args),
        Ok(DefineStep::EvaluateValue("x".to_string()))
    );
    assert_eq!(env.lookup_global("x"), None);
    define_variable(&mut env, "x", V::number(5.0));
    assert_eq!(env.lookup_global("x"), Some(V::number(5.0)));
}

#[test]
fn function_captures_the_local_frames() {
    let mut env = global_env();
    env.set_locals(vec![vec![V::number(7.0)]]);
    let expressions = read_str("(define (k x) x)");
    eval(expressions[0].clone(), &mut env).unwrap();
    match env.lookup_global("k").unwrap().as_ref() {
        Value::Closure { captured, .. } => assert_eq!(captured, &vec![vec![V::number(7.0)]]),
        other => panic!("expected closure, got {other:?}"),
    }
}

#[test]
fn define_errors() {
    let mut env = global_env();
    assert_eq!(
        define_function(&mut env, &[V::symbol("x")]),
        Err(DefineError::ArityTooLow)
    );
    let cases = [
        ("(define (1 x) x)", DefineError::NameNotSymbol),
        ("(define (f 1) 2)", DefineError::ParamNotSymbol),
        ("(define 5 1)", DefineError::InvalidSyntax),
        ("(define (f x) (lambda))", DefineError::Compile(CompileError::InvalidLambdaSyntax)),
        ("(define (f x) (if x))", DefineError::Compile(CompileError::IfArity)),
    ];
    for (source, expected) in cases {
        let expressions = read_str(source);
        assert_eq!(eval(expressions[0].clone(), &mut env), Err(expected));
    }
    assert!(env.lookup_global("f").is_none());
    assert!(env.pending_count() == 0);
}

#[test]
fn global_environment_starts_with_constants() {
    let env = global_env();
    assert_eq!(env.lookup_global("nil"), Some(V::nil()));
    assert_eq!(env.lookup_global("#t"), Some(V::bool(true)));
    assert_eq!(env.lookup_global("#f"), Some(V::bool(false)));
    assert_eq!(env.lookup_global("pi"), Some(V::number(std::f64::consts::PI)));
    assert_eq!(env.lookup_global("e"), Some(V::number(std::f64::consts::E)));
    assert!(env.pure_functions().contains("car"));
    assert!(!env.pure_functions().contains("eval"));
    assert!(env.memoization_enabled());
    assert_eq!(env.profiler().total_calls, 0);
}

#[test]
fn local_frames_are_looked_up_from_the_innermost() {
    let mut env = global_env();
    env.set_locals(vec![
        vec![V::number(1.0), V::number(2.0)],
        vec![V::number(3.0)],
    ]);
    assert_eq!(env.lookup_local(0, 0), Some(V::number(3.0)));
    assert_eq!(env.lookup_local(1, 1), Some(V::number(2.0)));
    assert_eq!(env.lookup_local(0, 1), None);
    assert_eq!(env.lookup_local(2, 0), None);
    assert_eq!(env.get_current_frame(), &vec![V::number(3.0)]);
    assert_eq!(env.get_current_frame_clone(), vec![V::number(3.0)]);
    assert_eq!(env.get_locals_clone().len(), 2);
}

#[test]
fn nested_short_define_is_detected_before_compiling() {
    let expressions = read_str("(define (f x) (define y)) (define (g x) (define y x)) (define z 1)");
    let args_of = |expr: &Rc<V>| -> Vec<Rc<V>> {
        match &**expr {
            Value::Pair(form) => match &*form.cdr {
                Value::Pair(rest) => rest.cars(),
                _ => Vec::new(),
            },
            _ => Vec::new(),
        }
    };
    assert!(lib::define::define_would_panic(&args_of(&expressions[0])));
    assert!(!lib::define::define_would_panic(&args_of(&expressions[1])));
    assert!(!lib::define::define_would_panic(&args_of(&expressions[2])));
    let mut env = global_env();
    eval(expressions[1].clone(), &mut env).unwrap();
    assert!(!env.pure_functions().contains("g"));
}

#[test]
fn cycle_of_three_is_promoted_and_each_counted_once() {
    let mut env = global_env();
    let expressions = read_str(
        "
        (define (p x) (q x))
        (define (q x) (r x))
        (define (r x) (p x))
        ",
    );
    for expression in &expressions {
        eval(expression.clone(), &mut env).unwrap();
    }
    assert_eq!(env.pending_count(), 0);
    for name in ["p", "q", "r"] {
        assert!(env.pure_functions().contains(name));
    }
    assert_eq!(env.profiler().pure_functions_detected, 3);
}

#[test]
fn cycle_through_an_impure_function_is_dropped() {
    let mut env = global_env();
    env.define_global("print", Rc::new(Value::Function(())));
    let expressions = read_str(
        "
        (define (p x) (q x))
        (define (q x) (begin-print x))
        (define (begin-print x) (print (p x)))
        ",
    );
    for expression in &expressions {
        eval(expression.clone(), &mut env).unwrap();
    }
    assert_eq!(env.pending_count(), 0);
    for name in ["p", "q", "begin-print"] {
        assert!(!env.pure_functions().contains(name));
    }
    assert_eq!(env.profiler().pure_functions_detected, 0);
}
