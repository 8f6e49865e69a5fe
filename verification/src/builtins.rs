use vstd::prelude::*;
use std::rc::Rc;
use crate::value::{Term, Value, model_seq, term_list, truthy};

verus! {

/// Why a built-in list or logic function refused its arguments.
#[derive(Debug, PartialEq)]
pub enum BuiltinError<N, F, M> {
    /// The wrong number of arguments.
    WrongArity,
    /// `car` or `cdr` of the empty list.
    EmptyList,
    /// `car` or `cdr` of a value that is not a pair.
    NotAPair(Rc<Value<N, F, M>>),
}

/// The error for a call of `car` or `cdr` on `v`, which is not a pair.
pub open spec fn non_pair_error<N, F, M>(v: Rc<Value<N, F, M>>) -> BuiltinError<N, F, M> {
    if v@ is Nil {
        BuiltinError::EmptyList
    } else {
        BuiltinError::NotAPair(v)
    }
}

/// `(car p)`: the first part of the pair `p`.
pub fn car<N, F, M>(args: &[Rc<Value<N, F, M>>]) -> (r: Result<Rc<Value<N, F, M>>, BuiltinError<N, F, M>>)
    ensures
        args@.len() != 1 ==> r == Err::<Rc<Value<N, F, M>>, BuiltinError<N, F, M>>(BuiltinError::WrongArity),
        args@.len() == 1 ==> match args@[0]@ {
            Term::Pair(a, _) => r matches Ok(v) && v@ == *a,
            _ => r == Err::<Rc<Value<N, F, M>>, BuiltinError<N, F, M>>(non_pair_error(args@[0])),
        },
{
    if args.len() != 1 {
        return Err(BuiltinError::WrongArity);
    }
    match &*args[0] {
        Value::Pair(cons) => Ok(cons.car.clone()),
        Value::Nil => Err(BuiltinError::EmptyList),
        _ => Err(BuiltinError::NotAPair(args[0].clone())),
    }
}

/// `(cdr p)`: the second part of the pair `p`.
pub fn cdr<N, F, M>(args: &[Rc<Value<N, F, M>>]) -> (r: Result<Rc<Value<N, F, M>>, BuiltinError<N, F, M>>)
    ensures
        args@.len() != 1 ==> r == Err::<Rc<Value<N, F, M>>, BuiltinError<N, F, M>>(BuiltinError::WrongArity),
        args@.len() == 1 ==> match args@[0]@ {
            Term::Pair(_, d) => r matches Ok(v) && v@ == *d,
            _ => r == Err::<Rc<Value<N, F, M>>, BuiltinError<N, F, M>>(non_pair_error(args@[0])),
        },
{
    if args.len() != 1 {
        return Err(BuiltinError::WrongArity);
    }
    match &*args[0] {
        Value::Pair(cons) => Ok(cons.cdr.clone()),
        Value::Nil => Err(BuiltinError::EmptyList),
        _ => Err(BuiltinError::NotAPair(args[0].clone())),
    }
}

/// `(cons a d)`: the pair of `a` and `d`.
pub fn cons<N, F, M>(args: &[Rc<Value<N, F, M>>]) -> (r: Result<Rc<Value<N, F, M>>, BuiltinError<N, F, M>>)
    ensures
        args@.len() != 2 ==> r == Err::<Rc<Value<N, F, M>>, BuiltinError<N, F, M>>(BuiltinError::WrongArity),
        args@.len() == 2 ==> (r matches Ok(v) && v@ == Term::Pair(Box::new(args@[0]@), Box::new(args@[1]@))),
{
    if args.len() != 2 {
        return Err(BuiltinError::WrongArity);
    }
    Ok(Value::cons(args[0].clone(), args[1].clone()))
}

/// `(list a ...)`: the proper list of the arguments.
pub fn list<N, F, M>(args: &[Rc<Value<N, F, M>>]) -> (r: Result<Rc<Value<N, F, M>>, BuiltinError<N, F, M>>)
    ensures
        r matches Ok(v) && v@ == term_list(model_seq(args@)),
{
    Ok(Value::list(args))
}

/// `(not x)`: true exactly when `x` is false or nil.
pub fn not<N, F, M>(args: &[Rc<Value<N, F, M>>]) -> (r: Result<Rc<Value<N, F, M>>, BuiltinError<N, F, M>>)
    ensures
        args@.len() != 1 ==> r == Err::<Rc<Value<N, F, M>>, BuiltinError<N, F, M>>(BuiltinError::WrongArity),
        args@.len() == 1 ==> (r matches Ok(v) && v@ == Term::<N, F>::Bool(!truthy(args@[0]@))),
{
    if args.len() != 1 {
        return Err(BuiltinError::WrongArity);
    }
    Ok(Value::bool(!args[0].is_truthy()))
}

/// `(null? x)`: whether `x` is nil.
pub fn is_null<N, F, M>(args: &[Rc<Value<N, F, M>>]) -> (r: Result<Rc<Value<N, F, M>>, BuiltinError<N, F, M>>)
    ensures
        args@.len() != 1 ==> r == Err::<Rc<Value<N, F, M>>, BuiltinError<N, F, M>>(BuiltinError::WrongArity),
        args@.len() == 1 ==> (r matches Ok(v) && v@ == Term::<N, F>::Bool(args@[0]@ is Nil)),
{
    if args.len() != 1 {
        return Err(BuiltinError::WrongArity);
    }
    Ok(Value::bool(args[0].is_nil()))
}

/// `(pair? x)`: whether `x` is a pair.
pub fn is_pair<N, F, M>(args: &[Rc<Value<N, F, M>>]) -> (r: Result<Rc<Value<N, F, M>>, BuiltinError<N, F, M>>)
    ensures
        args@.len() != 1 ==> r == Err::<Rc<Value<N, F, M>>, BuiltinError<N, F, M>>(BuiltinError::WrongArity),
        args@.len() == 1 ==> (r matches Ok(v) && v@ == Term::<N, F>::Bool(args@[0]@ is Pair)),
{
    if args.len() != 1 {
        return Err(BuiltinError::WrongArity);
    }
    Ok(Value::bool(args[0].is_pair()))
}

/// `(quote x)`: `x` itself, unevaluated.
pub fn quote<N, F, M>(args: &[Rc<Value<N, F, M>>]) -> (r: Result<Rc<Value<N, F, M>>, BuiltinError<N, F, M>>)
    ensures
        args@.len() != 1 ==> r == Err::<Rc<Value<N, F, M>>, BuiltinError<N, F, M>>(BuiltinError::WrongArity),
        args@.len() == 1 ==> r == Ok::<Rc<Value<N, F, M>>, BuiltinError<N, F, M>>(args@[0]),
{
    if args.len() != 1 {
        return Err(BuiltinError::WrongArity);
    }
    Ok(args[0].clone())
}

} // verus!
