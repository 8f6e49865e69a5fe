use vstd::prelude::*;
use std::rc::Rc;
use crate::static_env::{StaticEnv, lookup_spec};
use crate::value::{
    Cons, Term, Value, chain_cars, chain_len, model_seq, term_list, lemma_model_seq_len,
    lemma_model_seq_push,
};

verus! {

/// Why compiling failed.
#[derive(Debug, Clone, Copy, PartialEq, Eq)]
pub enum CompileError {
    InvalidLambdaSyntax,
    IfArity,
}

/// How compiling stops: with an error, or by a panic of the compiler, which
/// happens on a `define` form with fewer than two parts.
#[derive(Debug, Clone, Copy, PartialEq, Eq)]
pub enum CompileFailure {
    Error(CompileError),
    Panic,
}

/// Parameter names of the enclosing lambdas, innermost last.
pub type Frames = Seq<Seq<Seq<char>>>;

pub open spec fn lambda_name() -> Seq<char> {
    seq!['l', 'a', 'm', 'b', 'd', 'a']
}

pub open spec fn if_name() -> Seq<char> {
    seq!['i', 'f']
}

pub open spec fn define_name() -> Seq<char> {
    seq!['d', 'e', 'f', 'i', 'n', 'e']
}

/// Number of pairs in a term, counting both car and cdr sides.
pub open spec fn pair_size<N, F>(t: Term<N, F>) -> nat
    decreases t,
{
    match t {
        Term::Pair(a, d) => 1 + pair_size(*a) + pair_size(*d),
        _ => 0,
    }
}

pub proof fn lemma_chain_cars_smaller<N, F>(t: Term<N, F>)
    ensures
        forall|i: int|
            0 <= i < chain_cars(t).len() ==> #[trigger] pair_size(chain_cars(t)[i]) < pair_size(t),
    decreases t,
{
    if let Term::Pair(a, d) = t {
        lemma_chain_cars_smaller(*d);
        assert forall|i: int| 0 <= i < chain_cars(t).len() implies #[trigger] pair_size(
            chain_cars(t)[i],
        ) < pair_size(t) by {
            if i > 0 {
                assert(chain_cars(t)[i] == chain_cars(*d)[i - 1]);
            }
        }
    }
}

/// The names of the symbols among the cars of a parameter list, in order.
pub open spec fn param_names<N, F>(t: Term<N, F>) -> Seq<Seq<char>>
    decreases t,
{
    match t {
        Term::Pair(a, d) => match *a {
            Term::Symbol(s) => seq![s] + param_names(*d),
            _ => param_names(*d),
        },
        _ => Seq::empty(),
    }
}

/// The frames after `pop_frame`.
pub open spec fn popped(fr: Frames) -> Frames {
    if fr.len() > 0 {
        fr.drop_last()
    } else {
        fr
    }
}

/// Compiles `e` under the frames `fr`; `tail` tells whether `e` is in tail
/// position. Yields the result and the frames the static environment holds after.
pub open spec fn compile_spec<N, F>(e: Term<N, F>, fr: Frames, tail: bool) -> (
    Result<Term<N, F>, CompileFailure>,
    Frames,
)
    decreases pair_size(e), 0nat,
{
    match e {
        Term::Symbol(s) => match lookup_spec(fr, s) {
            Some((d, i)) => (Ok(Term::LocalVar(d as nat, i as nat)), fr),
            None => (Ok(e), fr),
        },
        Term::Pair(car, cdr) => {
            if *car == Term::<N, F>::Symbol(lambda_name()) {
                compile_lambda_spec(*cdr, fr)
            } else if *car == Term::<N, F>::Symbol(if_name()) {
                compile_if_spec(*cdr, fr, tail)
            } else if *car == Term::<N, F>::Symbol(define_name()) {
                compile_define_spec(*cdr, fr)
            } else {
                let (rf, fr1) = compile_spec(*car, fr, false);
                match rf {
                    Err(x) => (Err(x), fr1),
                    Ok(func) => {
                        let (ra, fr2) = compile_args_spec(chain_cars(*cdr), fr1, pair_size(*cdr));
                        match ra {
                            Err(x) => (Err(x), fr2),
                            Ok(args) => (
                                Ok(
                                    if tail {
                                        Term::TailCall(Box::new(func), args)
                                    } else {
                                        Term::Pair(Box::new(func), Box::new(term_list(args)))
                                    },
                                ),
                                fr2,
                            ),
                        }
                    },
                }
            }
        },
        _ => (Ok(e), fr),
    }
}

/// Compiles the arguments of a call one after another, none in tail position.
/// `bound` exceeds the size of every item.
pub open spec fn compile_args_spec<N, F>(items: Seq<Term<N, F>>, fr: Frames, bound: nat) -> (
    Result<Seq<Term<N, F>>, CompileFailure>,
    Frames,
)
    decreases bound, items.len(),
{
    if items.len() == 0 {
        (Ok(Seq::empty()), fr)
    } else if pair_size(items[0]) < bound {
        let (r, fr1) = compile_spec(items[0], fr, false);
        match r {
            Err(x) => (Err(x), fr1),
            Ok(t) => {
                let (rs, fr2) = compile_args_spec(items.drop_first(), fr1, bound);
                match rs {
                    Err(x) => (Err(x), fr2),
                    Ok(ts) => (Ok(seq![t] + ts), fr2),
                }
            },
        }
    } else {
        (Err(CompileFailure::Panic), fr)
    }
}

/// The body of a lambda form `(lambda params body ...)`: only the first body
/// expression counts, nil when there is none.
pub open spec fn lambda_body<N, F>(after_params: Term<N, F>) -> Term<N, F> {
    match after_params {
        Term::Pair(c, _) => *c,
        _ => Term::Nil,
    }
}

pub proof fn lemma_lambda_body_smaller<N, F>(after: Term<N, F>)
    ensures
        pair_size(lambda_body(after)) <= pair_size(after),
{
}

pub open spec fn compile_lambda_spec<N, F>(rest: Term<N, F>, fr: Frames) -> (
    Result<Term<N, F>, CompileFailure>,
    Frames,
)
    decreases pair_size(rest), 0nat,
{
    match rest {
        Term::Pair(params, after) => {
            let names = param_names(*params);
            proof {
                lemma_lambda_body_smaller(*after);
            }
            let (rb, fr1) = compile_spec(lambda_body(*after), fr.push(names), true);
            match rb {
                Ok(body) => (Ok(Term::Lambda(names.len(), Box::new(body))), popped(fr1)),
                Err(x) => (Err(x), fr1),
            }
        },
        _ => (Err(CompileFailure::Error(CompileError::InvalidLambdaSyntax)), fr),
    }
}

pub open spec fn compile_if_spec<N, F>(rest: Term<N, F>, fr: Frames, tail: bool) -> (
    Result<Term<N, F>, CompileFailure>,
    Frames,
)
    decreases pair_size(rest), 0nat,
{
    let parts = chain_cars(rest);
    if parts.len() < 2 {
        (Err(CompileFailure::Error(CompileError::IfArity)), fr)
    } else {
        proof {
            lemma_chain_cars_smaller(rest);
        }
        let (rc, fr1) = compile_spec(parts[0], fr, false);
        match rc {
            Err(x) => (Err(x), fr1),
            Ok(c) => {
                let (rt, fr2) = compile_spec(parts[1], fr1, tail);
                match rt {
                    Err(x) => (Err(x), fr2),
                    Ok(t) => {
                        let (re, fr3) = if parts.len() > 2 {
                            compile_spec(parts[2], fr2, tail)
                        } else {
                            (Ok(Term::Nil), fr2)
                        };
                        match re {
                            Err(x) => (Err(x), fr3),
                            Ok(el) => (Ok(Term::If(Box::new(c), Box::new(t), Box::new(el))), fr3),
                        }
                    },
                }
            },
        }
    }
}

pub open spec fn compile_define_spec<N, F>(rest: Term<N, F>, fr: Frames) -> (
    Result<Term<N, F>, CompileFailure>,
    Frames,
)
    decreases pair_size(rest), 0nat,
{
    let parts = chain_cars(rest);
    if parts.len() < 2 {
        (Err(CompileFailure::Panic), fr)
    } else {
        proof {
            lemma_chain_cars_smaller(rest);
        }
        let (rv, fr1) = compile_spec(parts[1], fr, false);
        match rv {
            Err(x) => (Err(x), fr1),
            Ok(v) => (
                Ok(
                    Term::Pair(
                        Box::new(Term::Symbol(define_name())),
                        Box::new(term_list(seq![parts[0], v])),
                    ),
                ),
                fr1,
            ),
        }
    }
}

/// The compile outcome as the compiler reports it, when it does not panic.
pub open spec fn reports<N, F, M>(
    spec_result: Result<Term<N, F>, CompileFailure>,
    res: Result<Rc<Value<N, F, M>>, CompileError>,
) -> bool {
    match spec_result {
        Ok(t) => res matches Ok(v) && v@ == t,
        Err(CompileFailure::Error(e)) => res == Err::<Rc<Value<N, F, M>>, CompileError>(e),
        Err(CompileFailure::Panic) => false,
    }
}

/// The compile outcome as the compiler reports it, a panic included.
pub open spec fn outcome<N, F, M>(
    spec_result: Result<Term<N, F>, CompileFailure>,
    res: Result<Rc<Value<N, F, M>>, CompileFailure>,
) -> bool {
    match spec_result {
        Ok(t) => res matches Ok(v) && v@ == t,
        Err(x) => res == Err::<Rc<Value<N, F, M>>, CompileFailure>(x),
    }
}

/// The result of a call form once its callee and arguments are compiled.
pub open spec fn finish_call<N, F>(
    func: Term<N, F>,
    compiled_args: (Result<Seq<Term<N, F>>, CompileFailure>, Frames),
    tail: bool,
) -> (Result<Term<N, F>, CompileFailure>, Frames) {
    match compiled_args.0 {
        Err(x) => (Err(x), compiled_args.1),
        Ok(args) => (
            Ok(
                if tail {
                    Term::TailCall(Box::new(func), args)
                } else {
                    Term::Pair(Box::new(func), Box::new(term_list(args)))
                },
            ),
            compiled_args.1,
        ),
    }
}

pub open spec fn panics<T>(r: Result<T, CompileFailure>) -> bool {
    r == Err::<T, CompileFailure>(CompileFailure::Panic)
}

/// Whether the string `s` spells `lit`.
pub fn string_is(s: &String, lit: &str) -> (r: bool)
    ensures
        r == (s@ == lit@),
{
    *s == lit.to_owned()
}

/// The names of the parameter list `args_expr`: its symbols, in order.
pub fn extract_param_names<N, F, M>(args_expr: Rc<Value<N, F, M>>) -> (r: Vec<String>)
    ensures
        r@.map_values(|s: String| s@) == param_names(args_expr@),
{
    let mut params: Vec<String> = Vec::new();
    let mut current = args_expr;
    assert(params@.map_values(|s: String| s@) =~= Seq::<Seq<char>>::empty());
    loop
        invariant
            param_names(args_expr@) == params@.map_values(|s: String| s@) + param_names(current@),
        ensures
            param_names(args_expr@) == params@.map_values(|s: String| s@),
        decreases chain_len(current@),
    {
        let next = match &*current {
            Value::Pair(cons) => {
                let ghost before = params@;
                assert(current@ == cons.term());
                if let Value::Symbol(name) = &*cons.car {
                    params.push(name.clone());
                    assert(params@.map_values(|s: String| s@) =~= before.map_values(|s: String| s@).push(name@));
                    assert(before.map_values(|s: String| s@).push(name@) + param_names(cons.cdr@)
                        =~= before.map_values(|s: String| s@) + (seq![name@] + param_names(cons.cdr@)));
                } else {
                    assert(params@ == before);
                }
                cons.cdr.clone()
            },
            _ => {
                assert(param_names(current@) =~= Seq::<Seq<char>>::empty());
                assert(params@.map_values(|s: String| s@) + param_names(current@)
                    =~= params@.map_values(|s: String| s@));
                break ;
            },
        };
        current = next;
    }
    params
}

/// The proper list of `vec`.
pub fn vec_to_list<N, F, M>(vec: Vec<Rc<Value<N, F, M>>>) -> (r: Rc<Value<N, F, M>>)
    ensures
        r@ == term_list(model_seq(vec@)),
{
    Value::list(vec.as_slice())
}

/// The cars of `rest` along its chain of cdrs.
fn list_parts<N, F, M>(rest: &Rc<Value<N, F, M>>) -> (r: Vec<Rc<Value<N, F, M>>>)
    ensures
        model_seq(r@) == chain_cars(rest@),
{
    match &**rest {
        Value::Pair(cons) => {
            assert(rest@ == cons.term());
            cons.cars()
        },
        _ => {
            let v: Vec<Rc<Value<N, F, M>>> = Vec::new();
            assert(model_seq(v@) =~= Seq::<Term<N, F>>::empty());
            v
        },
    }
}


/// `front` in front of a successful result; failures pass through.
pub open spec fn prepend_args<N, F>(
    front: Seq<Term<N, F>>,
    r: (Result<Seq<Term<N, F>>, CompileFailure>, Frames),
) -> (Result<Seq<Term<N, F>>, CompileFailure>, Frames) {
    (
        match r.0 {
            Ok(rest) => Ok(front + rest),
            Err(x) => Err(x),
        },
        r.1,
    )
}

/// The compiler proper: as `compile_ast`, with the panic on a short `define`
/// form reported as `CompileFailure::Panic`.
fn compile_form<N, F, M>(expr: Rc<Value<N, F, M>>, env: &mut StaticEnv, is_tail: bool) -> (res:
    Result<Rc<Value<N, F, M>>, CompileFailure>)
    ensures
        outcome(compile_spec(expr@, old(env).view_frames(), is_tail).0, res),
        final(env).view_frames() == compile_spec(expr@, old(env).view_frames(), is_tail).1,
    decreases pair_size(expr@), 1nat,
{
    match &*expr {
        Value::Symbol(s) => {
            match env.lookup(s.as_str()) {
                Some((depth, index)) => {
                    proof {
                        crate::static_env::lemma_lookup_spec(
                            env.view_frames(),
                            s@,
                            depth as int,
                            index as int,
                        );
                    }
                    Ok(Rc::new(Value::LocalVar(depth, index)))
                },
                None => Ok(expr.clone()),
            }
        },
        Value::Pair(cons) => {
            assert(expr@ == cons.term());
            if let Value::Symbol(s) = &*cons.car {
                proof {
                    reveal_strlit("lambda");
                    reveal_strlit("if");
                    reveal_strlit("define");
                    assert("lambda"@ =~= lambda_name());
                    assert("if"@ =~= if_name());
                    assert("define"@ =~= define_name());
                }
                if string_is(s, "lambda") {
                    return compile_lambda(cons.cdr.clone(), env);
                }
                if string_is(s, "if") {
                    return compile_if(cons.cdr.clone(), env, is_tail);
                }
                if string_is(s, "define") {
                    return compile_define(cons.cdr.clone(), env);
                }
            }
            assert(cons.car@ != Term::<N, F>::Symbol(lambda_name()));
            assert(cons.car@ != Term::<N, F>::Symbol(if_name()));
            assert(cons.car@ != Term::<N, F>::Symbol(define_name()));
            let ghost fr0 = env.view_frames();
            let func = compile_form(cons.car.clone(), env, false)?;
            let ghost bound = pair_size(cons.cdr@);
            let ghost whole = compile_args_spec(chain_cars(cons.cdr@), env.view_frames(), bound);
            let mut args: Vec<Rc<Value<N, F, M>>> = Vec::new();
            let mut current = &cons.cdr;
            assert(model_seq(args@) =~= Seq::<Term<N, F>>::empty());
            assert(whole == prepend_args(model_seq(args@), whole));
            assert(compile_spec(expr@, fr0, is_tail) == finish_call(func@, whole, is_tail));
            loop
                invariant
                    whole == compile_args_spec(chain_cars(cons.cdr@), compile_spec(cons.car@, fr0, false).1, bound),
                    whole == prepend_args(
                        model_seq(args@),
                        compile_args_spec(chain_cars(current@), env.view_frames(), bound),
                    ),
                    fr0 == old(env).view_frames(),
                    compile_spec(expr@, fr0, is_tail) == finish_call(func@, whole, is_tail),
                    compile_spec(cons.car@, fr0, false).0 == Ok::<Term<N, F>, CompileFailure>(func@),
                    pair_size(current@) <= bound,
                    bound < pair_size(expr@),
                ensures
                    whole == prepend_args(model_seq(args@), (Ok(Seq::empty()), env.view_frames())),
                decreases chain_len(current@),
            {
                match &**current {
                    Value::Pair(c) => {
                        assert(current@ == c.term());
                        proof {
                            lemma_chain_cars_smaller(current@);
                            assert(chain_cars(current@)[0] == c.car@);
                            assert(chain_cars(current@).drop_first() =~= chain_cars(c.cdr@));
                        }
                        let ghost before = args@;
                        let ghost fr_before = env.view_frames();
                        let arg = compile_form(c.car.clone(), env, false)?;
                        args.push(arg);
                        proof {
                            lemma_model_seq_push(before, args@.last());
                            assert(before.push(args@.last()) =~= args@);
                            let rest = compile_args_spec(chain_cars(c.cdr@), env.view_frames(), bound);
                            match rest.0 {
                                Ok(ts) => {
                                    assert(model_seq(before) + (seq![arg@] + ts) =~= model_seq(args@) + ts);
                                },
                                Err(_) => {},
                            }
                        }
                        current = &c.cdr;
                    },
                    _ => {
                        assert(chain_cars(current@) =~= Seq::<Term<N, F>>::empty());
                        break ;
                    },
                }
            }
            assert(model_seq(args@) + Seq::<Term<N, F>>::empty() =~= model_seq(args@));
            if is_tail {
                Ok(Rc::new(Value::TailCall { func, args }))
            } else {
                Ok(Rc::new(Value::Pair(Rc::new(Cons { car: func, cdr: vec_to_list(args) }))))
            }
        },
        _ => Ok(expr.clone()),
    }
}

fn compile_lambda<N, F, M>(rest: Rc<Value<N, F, M>>, env: &mut StaticEnv) -> (res: Result<
    Rc<Value<N, F, M>>,
    CompileFailure,
>)
    ensures
        outcome(compile_lambda_spec(rest@, old(env).view_frames()).0, res),
        final(env).view_frames() == compile_lambda_spec(rest@, old(env).view_frames()).1,
    decreases pair_size(rest@), 1nat,
{
    if let Value::Pair(args_and_body) = &*rest {
        assert(rest@ == args_and_body.term());
        let params = extract_param_names(args_and_body.car.clone());
        let params_count = params.len();
        env.push_frame(params);
        let body_expr = match &*args_and_body.cdr {
            Value::Pair(c) => {
                assert(args_and_body.cdr@ == c.term());
                c.car.clone()
            },
            _ => Rc::new(Value::Nil),
        };
        proof {
            lemma_lambda_body_smaller(args_and_body.cdr@);
        }
        let compiled_body = compile_form(body_expr, env, true)?;
        env.pop_frame();
        Ok(Rc::new(Value::Lambda { params_count, body: compiled_body }))
    } else {
        Err(CompileFailure::Error(CompileError::InvalidLambdaSyntax))
    }
}

fn compile_if<N, F, M>(rest: Rc<Value<N, F, M>>, env: &mut StaticEnv, is_tail: bool) -> (res:
    Result<Rc<Value<N, F, M>>, CompileFailure>)
    ensures
        outcome(compile_if_spec(rest@, old(env).view_frames(), is_tail).0, res),
        final(env).view_frames() == compile_if_spec(rest@, old(env).view_frames(), is_tail).1,
    decreases pair_size(rest@), 1nat,
{
    let parts = list_parts(&rest);
    proof {
        lemma_model_seq_len(parts@);
        lemma_chain_cars_smaller(rest@);
    }
    if parts.len() < 2 {
        return Err(CompileFailure::Error(CompileError::IfArity));
    }
    assert(chain_cars(rest@)[0] == parts@[0]@);
    assert(chain_cars(rest@)[1] == parts@[1]@);
    let ghost fa = env.view_frames();
    let cond = compile_form(parts[0].clone(), env, false)?;
    let ghost fb = env.view_frames();
    assert(compile_spec(chain_cars(rest@)[0], fa, false) == (Ok::<Term<N, F>, CompileFailure>(cond@), fb));
    let then_branch = compile_form(parts[1].clone(), env, is_tail)?;
    let ghost fc = env.view_frames();
    assert(compile_spec(chain_cars(rest@)[1], fb, is_tail) == (Ok::<Term<N, F>, CompileFailure>(then_branch@), fc));
    let else_branch = if parts.len() > 2 {
        assert(chain_cars(rest@)[2] == parts@[2]@);
        compile_form(parts[2].clone(), env, is_tail)?
    } else {
        Rc::new(Value::Nil)
    };
    let ghost fd = env.view_frames();
    assert(parts.len() > 2 ==> compile_spec(chain_cars(rest@)[2], fc, is_tail) == (Ok::<Term<N, F>, CompileFailure>(else_branch@), fd));
    assert(parts.len() <= 2 ==> else_branch@ == Term::<N, F>::Nil && fd == fc);
    assert(fa == old(env).view_frames());
    let r = Rc::new(Value::If { cond, then_branch, else_branch });
    assert(r@ == Term::If(Box::new(cond@), Box::new(then_branch@), Box::new(else_branch@)));
    assert(compile_if_spec(rest@, old(env).view_frames(), is_tail).0 == Ok::<Term<N, F>, CompileFailure>(r@));
    Ok(r)
}

/// A `define` form inside a body: its value compiled, its name kept. With
/// fewer than two parts the form cannot be compiled: that is the compiler's
/// panic, reported here as `CompileFailure::Panic`.
fn compile_define<N, F, M>(rest: Rc<Value<N, F, M>>, env: &mut StaticEnv) -> (res: Result<
    Rc<Value<N, F, M>>,
    CompileFailure,
>)
    ensures
        outcome(compile_define_spec(rest@, old(env).view_frames()).0, res),
        final(env).view_frames() == compile_define_spec(rest@, old(env).view_frames()).1,
    decreases pair_size(rest@), 1nat,
{
    let parts = list_parts(&rest);
    proof {
        lemma_model_seq_len(parts@);
        lemma_chain_cars_smaller(rest@);
    }
    if parts.len() < 2 {
        return Err(CompileFailure::Panic);
    }
    assert(chain_cars(rest@)[1] == parts@[1]@);
    let val = compile_form(parts[1].clone(), env, false)?;
    let mut items: Vec<Rc<Value<N, F, M>>> = Vec::new();
    items.push(parts[0].clone());
    items.push(val);
    proof {
        lemma_model_seq_len(items@);
        assert(model_seq(items@) =~= seq![parts@[0]@, val@]);
        reveal_strlit("define");
        assert("define"@ =~= define_name());
    }
    Ok(Rc::new(Value::Pair(Rc::new(Cons { car: Value::symbol("define"), cdr: vec_to_list(items) }))))
}

/// Compiles an expression into the form the evaluator runs: parameters become
/// `LocalVar`s, calls in tail position become `TailCall`s, and `lambda`, `if`
/// and `define` forms are compiled by their own rules.
pub fn compile_ast<N, F, M>(expr: Rc<Value<N, F, M>>, env: &mut StaticEnv, is_tail: bool) -> (res:
    Result<Rc<Value<N, F, M>>, CompileError>)
    requires
        !panics(compile_spec(expr@, old(env).view_frames(), is_tail).0),
    ensures
        reports(compile_spec(expr@, old(env).view_frames(), is_tail).0, res),
        final(env).view_frames() == compile_spec(expr@, old(env).view_frames(), is_tail).1,
{
    match compile_form(expr, env, is_tail) {
        Ok(v) => Ok(v),
        Err(CompileFailure::Error(e)) => Err(e),
        Err(CompileFailure::Panic) => {
            proof {
                assert(false);
            }
            Err(CompileError::IfArity)
        },
    }
}

/// Whether compiling `expr` under `env` would run into a `define` form with
/// fewer than two parts, on which the compiler panics.
pub fn compile_would_panic<N, F, M>(expr: &Rc<Value<N, F, M>>, env: &StaticEnv, is_tail: bool) -> (r:
    bool)
    ensures
        r == panics(compile_spec(expr@, env.view_frames(), is_tail).0),
{
    let mut scratch = env.duplicate();
    match compile_form(expr.clone(), &mut scratch, is_tail) {
        Err(CompileFailure::Panic) => true,
        _ => false,
    }
}

/// The form `(if ...)` with the parts `rest`.
pub open spec fn if_form<N, F>(rest: Term<N, F>) -> Term<N, F> {
    Term::Pair(Box::new(Term::Symbol(if_name())), Box::new(rest))
}

/// An `if` without an else part compiles as one whose else part is `nil`:
/// `(if c t)` and `(if c t nil)` give the same code, and where that succeeds
/// its else branch is `nil`.
pub proof fn law_if_without_else_is_nil<N, F>(
    rest: Term<N, F>,
    rest_with_nil: Term<N, F>,
    fr: Frames,
    tail: bool,
)
    requires
        chain_cars(rest).len() == 2,
        chain_cars(rest_with_nil) == chain_cars(rest).push(Term::<N, F>::Nil),
    ensures
        compile_spec(if_form(rest), fr, tail) == compile_spec(if_form(rest_with_nil), fr, tail),
        compile_spec(if_form(rest), fr, tail).0 matches Ok(t) ==> (t is If && *t->If_2 == Term::<N, F>::Nil),
{
    assert(if_name().len() == 2 && lambda_name().len() == 6);
    assert(Term::<N, F>::Symbol(if_name()) != Term::<N, F>::Symbol(lambda_name()));
    assert(chain_cars(rest_with_nil)[2] == Term::<N, F>::Nil);
    assert(chain_cars(rest_with_nil)[0] == chain_cars(rest)[0]);
    assert(chain_cars(rest_with_nil)[1] == chain_cars(rest)[1]);
    assert(compile_spec(if_form(rest), fr, tail) == compile_if_spec(rest, fr, tail));
    assert(compile_spec(if_form(rest_with_nil), fr, tail) == compile_if_spec(rest_with_nil, fr, tail));
    let parts = chain_cars(rest);
    let (rc, fr1) = compile_spec(parts[0], fr, false);
    if let Ok(c) = rc {
        let (rt, fr2) = compile_spec(parts[1], fr1, tail);
        if let Ok(t) = rt {
            assert(compile_spec(Term::<N, F>::Nil, fr2, tail) == (Ok::<Term<N, F>, CompileFailure>(Term::Nil), fr2));
        }
    }
}

/// A number, a string, a boolean or nil: it compiles to itself.
pub open spec fn is_literal_term<N, F>(t: Term<N, F>) -> bool {
    t is Number || t is Str || t is Bool || t is Nil
}

/// An `if` of literal parts compiles to the `if` of those parts, in their
/// order: condition, then branch, else branch (nil where there is none).
pub proof fn law_if_of_literals<N, F>(rest: Term<N, F>, fr: Frames, tail: bool)
    requires
        chain_cars(rest).len() == 2 || chain_cars(rest).len() == 3,
        forall|i: int| 0 <= i < chain_cars(rest).len() ==> is_literal_term(#[trigger] chain_cars(rest)[i]),
    ensures
        ({
            let parts = chain_cars(rest);
            let el = if parts.len() == 3 { parts[2] } else { Term::Nil };
            compile_spec(if_form(rest), fr, tail) == (
                Ok::<Term<N, F>, CompileFailure>(Term::If(Box::new(parts[0]), Box::new(parts[1]), Box::new(el))),
                fr,
            )
        }),
{
    let parts = chain_cars(rest);
    assert(if_name().len() == 2 && lambda_name().len() == 6);
    assert(Term::<N, F>::Symbol(if_name()) != Term::<N, F>::Symbol(lambda_name()));
    assert(is_literal_term(parts[0]) && is_literal_term(parts[1]));
    assert(compile_spec(parts[0], fr, false) == (Ok::<Term<N, F>, CompileFailure>(parts[0]), fr));
    assert(compile_spec(parts[1], fr, tail) == (Ok::<Term<N, F>, CompileFailure>(parts[1]), fr));
    if parts.len() == 3 {
        assert(is_literal_term(parts[2]));
        assert(compile_spec(parts[2], fr, tail) == (Ok::<Term<N, F>, CompileFailure>(parts[2]), fr));
    }
    assert(compile_spec(if_form(rest), fr, tail) == compile_if_spec(rest, fr, tail));
}

proof fn lemma_compile_literal_args<N, F>(items: Seq<Term<N, F>>, fr: Frames, bound: nat)
    requires
        bound > 0,
        forall|i: int| 0 <= i < items.len() ==> is_literal_term(#[trigger] items[i]),
    ensures
        compile_args_spec(items, fr, bound) == (Ok::<Seq<Term<N, F>>, CompileFailure>(items), fr),
    decreases items.len(),
{
    if items.len() > 0 {
        assert(is_literal_term(items[0]));
        assert(pair_size(items[0]) == 0);
        assert(compile_spec(items[0], fr, false) == (Ok::<Term<N, F>, CompileFailure>(items[0]), fr));
        assert forall|i: int| 0 <= i < items.drop_first().len() implies is_literal_term(#[trigger] items.drop_first()[i]) by {
            assert(items.drop_first()[i] == items[i + 1]);
        }
        lemma_compile_literal_args(items.drop_first(), fr, bound);
        assert(seq![items[0]] + items.drop_first() =~= items);
    } else {
        assert(items =~= Seq::<Term<N, F>>::empty());
    }
}

/// A call of a global name on literal arguments compiles to a tail call in
/// tail position and to a plain call elsewhere, with the name and the
/// arguments in their order.
pub proof fn law_call_compiles_by_position<N, F>(name: Seq<char>, rest: Term<N, F>, fr: Frames, tail: bool)
    requires
        lookup_spec(fr, name) is None,
        name != lambda_name(),
        name != if_name(),
        name != define_name(),
        forall|i: int| 0 <= i < chain_cars(rest).len() ==> is_literal_term(#[trigger] chain_cars(rest)[i]),
    ensures
        ({
            let args = chain_cars(rest);
            let f = Term::<N, F>::Symbol(name);
            let code = if tail {
                Term::TailCall(Box::new(f), args)
            } else {
                Term::Pair(Box::new(f), Box::new(term_list(args)))
            };
            compile_spec(Term::Pair(Box::new(f), Box::new(rest)), fr, tail) == (
                Ok::<Term<N, F>, CompileFailure>(code),
                fr,
            )
        }),
{
    let f = Term::<N, F>::Symbol(name);
    assert(compile_spec(f, fr, false) == (Ok::<Term<N, F>, CompileFailure>(f), fr));
    if chain_cars(rest).len() > 0 {
        assert(pair_size(rest) > 0) by {
            if !(rest is Pair) {
                assert(chain_cars(rest).len() == 0);
            }
        }
        lemma_compile_literal_args(chain_cars(rest), fr, pair_size(rest));
    } else {
        assert(compile_args_spec(chain_cars(rest), fr, pair_size(rest)) == (
            Ok::<Seq<Term<N, F>>, CompileFailure>(chain_cars(rest)),
            fr,
        ));
    }
}

} // verus!
