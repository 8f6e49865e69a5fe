use vstd::prelude::*;
use std::rc::Rc;

verus! {

/// A Lisp value: data read from source, compiled code, and run-time objects.
/// `N` is the number type, `F` a built-in function, `M` the memo table of a
/// memoized body. `==` compares two values part by part; the equality that
/// Lisp's `eq?` and the memo tables use, which tells pairs and functions apart
/// by identity, is the business of the program that picks `N`, `F` and `M`.
#[derive(Debug, PartialEq)]
pub enum Value<N, F, M> {
    Number(N),
    String(String),
    Symbol(String),
    Bool(bool),
    Nil,
    Pair(Rc<Cons<N, F, M>>),
    Function(F),
    LocalVar(usize, usize),
    Lambda { params_count: usize, body: Rc<Value<N, F, M>> },
    Closure {
        params_count: usize,
        body: Rc<Value<N, F, M>>,
        captured: Vec<Vec<Rc<Value<N, F, M>>>>,
    },
    TailCall { func: Rc<Value<N, F, M>>, args: Vec<Rc<Value<N, F, M>>> },
    If {
        cond: Rc<Value<N, F, M>>,
        then_branch: Rc<Value<N, F, M>>,
        else_branch: Rc<Value<N, F, M>>,
    },
    Memoized { body: Rc<Value<N, F, M>>, cache: M },
    Error(String),
}

/// A cons cell.
#[derive(Debug, PartialEq)]
pub struct Cons<N, F, M> {
    pub car: Rc<Value<N, F, M>>,
    pub cdr: Rc<Value<N, F, M>>,
}

/// Mathematical model of a value: text as char sequences, memo tables left out.
pub enum Term<N, F> {
    Number(N),
    Str(Seq<char>),
    Symbol(Seq<char>),
    Bool(bool),
    Nil,
    Pair(Box<Term<N, F>>, Box<Term<N, F>>),
    Function(F),
    LocalVar(nat, nat),
    Lambda(nat, Box<Term<N, F>>),
    Closure(nat, Box<Term<N, F>>, Seq<Seq<Term<N, F>>>),
    TailCall(Box<Term<N, F>>, Seq<Term<N, F>>),
    If(Box<Term<N, F>>, Box<Term<N, F>>, Box<Term<N, F>>),
    Memoized(Box<Term<N, F>>),
    Error(Seq<char>),
}

pub open spec fn model_seq<N, F, M>(s: Seq<Rc<Value<N, F, M>>>) -> Seq<Term<N, F>>
    decreases s,
{
    if s.len() == 0 {
        Seq::empty()
    } else {
        model_seq(s.drop_last()).push(model(*s.last()))
    }
}

pub open spec fn model_frames<N, F, M>(s: Seq<Vec<Rc<Value<N, F, M>>>>) -> Seq<Seq<Term<N, F>>>
    decreases s,
{
    if s.len() == 0 {
        Seq::empty()
    } else {
        model_frames(s.drop_last()).push(model_seq(s.last()@))
    }
}

pub open spec fn model<N, F, M>(v: Value<N, F, M>) -> Term<N, F>
    decreases v,
{
    match v {
        Value::Number(n) => Term::Number(n),
        Value::String(s) => Term::Str(s@),
        Value::Symbol(s) => Term::Symbol(s@),
        Value::Bool(b) => Term::Bool(b),
        Value::Nil => Term::Nil,
        Value::Pair(c) => Term::Pair(Box::new(model(*c.car)), Box::new(model(*c.cdr))),
        Value::Function(f) => Term::Function(f),
        Value::LocalVar(d, i) => Term::LocalVar(d as nat, i as nat),
        Value::Lambda { params_count, body } => Term::Lambda(params_count as nat, Box::new(model(*body))),
        Value::Closure { params_count, body, captured } => Term::Closure(
            params_count as nat,
            Box::new(model(*body)),
            model_frames(captured@),
        ),
        Value::TailCall { func, args } => Term::TailCall(Box::new(model(*func)), model_seq(args@)),
        Value::If { cond, then_branch, else_branch } => Term::If(
            Box::new(model(*cond)),
            Box::new(model(*then_branch)),
            Box::new(model(*else_branch)),
        ),
        Value::Memoized { body, .. } => Term::Memoized(Box::new(model(*body))),
        Value::Error(s) => Term::Error(s@),
    }
}

impl<N, F, M> View for Value<N, F, M> {
    type V = Term<N, F>;

    open spec fn view(&self) -> Term<N, F> {
        model(*self)
    }
}

pub proof fn lemma_model_seq_len<N, F, M>(s: Seq<Rc<Value<N, F, M>>>)
    ensures
        model_seq(s).len() == s.len(),
        forall|i: int| 0 <= i < s.len() ==> #[trigger] model_seq(s)[i] == model(*s[i]),
    decreases s.len(),
{
    if s.len() > 0 {
        lemma_model_seq_len(s.drop_last());
    }
}

pub proof fn lemma_model_seq_push<N, F, M>(s: Seq<Rc<Value<N, F, M>>>, v: Rc<Value<N, F, M>>)
    ensures
        model_seq(s.push(v)) == model_seq(s).push(model(*v)),
{
    assert(s.push(v).drop_last() =~= s);
}

/// The proper list holding `items` in order.
pub open spec fn term_list<N, F>(items: Seq<Term<N, F>>) -> Term<N, F>
    decreases items.len(),
{
    if items.len() == 0 {
        Term::Nil
    } else {
        Term::Pair(Box::new(items[0]), Box::new(term_list(items.drop_first())))
    }
}

/// The number of pairs along the chain of cdrs.
pub open spec fn chain_len<N, F>(t: Term<N, F>) -> nat
    decreases t,
{
    match t {
        Term::Pair(_, d) => 1 + chain_len(*d),
        _ => 0,
    }
}

/// The cars along the chain of cdrs, up to the first value that is not a pair.
pub open spec fn chain_cars<N, F>(t: Term<N, F>) -> Seq<Term<N, F>>
    decreases t,
{
    match t {
        Term::Pair(a, d) => seq![*a] + chain_cars(*d),
        _ => Seq::empty(),
    }
}

/// The first value along the chain of cdrs that is not a pair.
pub open spec fn chain_end<N, F>(t: Term<N, F>) -> Term<N, F>
    decreases t,
{
    match t {
        Term::Pair(_, d) => chain_end(*d),
        _ => t,
    }
}

/// A proper list: the chain of cdrs ends in nil.
pub open spec fn is_proper<N, F>(t: Term<N, F>) -> bool {
    chain_end(t) is Nil
}

/// A value counts as false only when it is `#f` or nil.
pub open spec fn truthy<N, F>(t: Term<N, F>) -> bool {
    !(t is Nil || t == Term::<N, F>::Bool(false))
}

pub proof fn lemma_chain_len_cars<N, F>(t: Term<N, F>)
    ensures
        chain_cars(t).len() == chain_len(t),
    decreases t,
{
    if let Term::Pair(_, d) = t {
        lemma_chain_len_cars(*d);
    }
}

/// A proper list is the list of its cars.
pub proof fn lemma_proper_is_list_of_cars<N, F>(t: Term<N, F>)
    requires
        is_proper(t),
    ensures
        t == term_list(chain_cars(t)),
    decreases t,
{
    if let Term::Pair(a, d) = t {
        lemma_proper_is_list_of_cars(*d);
        assert((seq![*a] + chain_cars(*d)).drop_first() =~= chain_cars(*d));
    }
}

/// The list of `items` has exactly these cars and ends in nil.
pub proof fn lemma_list_cars<N, F>(items: Seq<Term<N, F>>)
    ensures
        chain_cars(term_list(items)) == items,
        is_proper(term_list(items)),
    decreases items.len(),
{
    if items.len() > 0 {
        lemma_list_cars(items.drop_first());
        assert(seq![items[0]] + items.drop_first() =~= items);
    }
}

impl<N, F, M> Value<N, F, M> {
    pub fn number(n: N) -> (r: Rc<Self>)
        ensures
            r@ == Term::<N, F>::Number(n),
    {
        Rc::new(Value::Number(n))
    }

    pub fn string(s: &str) -> (r: Rc<Self>)
        ensures
            r@ == Term::<N, F>::Str(s@),
    {
        Rc::new(Value::String(s.to_owned()))
    }

    pub fn symbol(s: &str) -> (r: Rc<Self>)
        ensures
            r@ == Term::<N, F>::Symbol(s@),
    {
        Rc::new(Value::Symbol(s.to_owned()))
    }

    pub fn bool(b: bool) -> (r: Rc<Self>)
        ensures
            r@ == Term::<N, F>::Bool(b),
    {
        Rc::new(Value::Bool(b))
    }

    pub fn nil() -> (r: Rc<Self>)
        ensures
            r@ == Term::<N, F>::Nil,
    {
        Rc::new(Value::Nil)
    }

    pub fn is_truthy(&self) -> (r: bool)
        ensures
            r == truthy(self@),
    {
        match self {
            Value::Bool(b) => *b,
            Value::Nil => false,
            _ => true,
        }
    }

    pub fn is_nil(&self) -> (r: bool)
        ensures
            r == (self@ is Nil),
    {
        match self {
            Value::Nil => true,
            _ => false,
        }
    }

    pub fn cons(car: Rc<Value<N, F, M>>, cdr: Rc<Value<N, F, M>>) -> (r: Rc<Self>)
        ensures
            r@ == Term::Pair(Box::new(car@), Box::new(cdr@)),
    {
        Rc::new(Value::Pair(Cons::new(car, cdr)))
    }

    /// The proper list of `values`.
    pub fn list(values: &[Rc<Value<N, F, M>>]) -> (r: Rc<Self>)
        ensures
            r@ == term_list(model_seq(values@)),
    {
        let mut result = Value::nil();
        let mut i = values.len();
        proof {
            lemma_model_seq_len(values@);
        }
        while i > 0
            invariant
                i <= values@.len(),
                model_seq(values@).len() == values@.len(),
                forall|k: int| 0 <= k < values@.len() ==> #[trigger] model_seq(values@)[k] == model(*values@[k]),
                result@ == term_list(model_seq(values@).subrange(i as int, values@.len() as int)),
            decreases i,
        {
            i -= 1;
            let ghost items = model_seq(values@);
            assert(items.subrange(i as int, items.len() as int).drop_first() =~= items.subrange(
                i + 1,
                items.len() as int,
            ));
            result = Value::cons(values[i].clone(), result);
        }
        assert(model_seq(values@).subrange(0, values@.len() as int) =~= model_seq(values@));
        result
    }

    pub fn is_pair(&self) -> (r: bool)
        ensures
            r == (self@ is Pair),
    {
        match self {
            Value::Pair(_) => true,
            _ => false,
        }
    }

    /// Nil, or a pair whose chain of cdrs ends in nil.
    pub fn is_list(&self) -> (r: bool)
        ensures
            r == ((self@ is Nil) || (self@ is Pair && is_proper(self@))),
    {
        match self {
            Value::Nil => true,
            Value::Pair(cons) => cons.is_proper_list(),
            _ => false,
        }
    }
}

impl<N, F, M> Cons<N, F, M> {
    /// The pair this cell stands for.
    pub open spec fn term(&self) -> Term<N, F> {
        Term::Pair(Box::new(self.car@), Box::new(self.cdr@))
    }

    pub fn new(car: Rc<Value<N, F, M>>, cdr: Rc<Value<N, F, M>>) -> (r: Rc<Self>)
        ensures
            r.car == car,
            r.cdr == cdr,
    {
        Rc::new(Cons { car, cdr })
    }

    pub fn is_proper_list(&self) -> (r: bool)
        ensures
            r == is_proper(self.term()),
        decreases chain_len(self.term()),
    {
        match &*self.cdr {
            Value::Nil => true,
            Value::Pair(next) => {
                assert(self.cdr@ == next.term());
                next.is_proper_list()
            },
            _ => {
                assert(!(self.cdr@ is Pair) && !(self.cdr@ is Nil));
                assert(chain_end(self.term()) == chain_end(self.cdr@));
                false
            },
        }
    }

    /// The cars along the chain of cdrs from this cell, up to the first value
    /// that is not a pair.
    pub fn cars(&self) -> (r: Vec<Rc<Value<N, F, M>>>)
        ensures
            model_seq(r@) == chain_cars(self.term()),
    {
        let mut result: Vec<Rc<Value<N, F, M>>> = Vec::new();
        result.push(self.car.clone());
        proof {
            lemma_model_seq_push(Seq::<Rc<Value<N, F, M>>>::empty(), result@.last());
            assert(model_seq(Seq::<Rc<Value<N, F, M>>>::empty()) =~= Seq::<Term<N, F>>::empty());
            assert(Seq::<Rc<Value<N, F, M>>>::empty().push(result@.last()) =~= result@);
            assert(chain_cars(self.term()) =~= model_seq(result@) + chain_cars(self.cdr@));
        }
        let mut current = &self.cdr;
        loop
            invariant
                chain_cars(self.term()) == model_seq(result@) + chain_cars(current@),
            ensures
                chain_cars(self.term()) == model_seq(result@),
            decreases chain_len(current@),
        {
            match &**current {
                Value::Pair(cons) => {
                    let ghost before = result@;
                    assert(current@ == cons.term());
                    result.push(cons.car.clone());
                    proof {
                        lemma_model_seq_push(before, result@.last());
                        assert(before.push(result@.last()) =~= result@);
                        assert(model_seq(before) + chain_cars(current@) =~= model_seq(result@)
                            + chain_cars(cons.cdr@));
                    }
                    current = &cons.cdr;
                },
                _ => {
                    assert(chain_cars(current@) =~= Seq::<Term<N, F>>::empty());
                    assert(model_seq(result@) + chain_cars(current@) =~= model_seq(result@));
                    break ;
                },
            }
        }
        result
    }

    /// The cars of this cell, when its chain of cdrs ends in nil.
    pub fn to_vec(&self) -> (r: Option<Vec<Rc<Value<N, F, M>>>>)
        ensures
            is_proper(self.term()) ==> (r matches Some(v) && model_seq(v@) == chain_cars(self.term())),
            !is_proper(self.term()) ==> r is None,
    {
        if !self.is_proper_list() {
            return None;
        }
        Some(self.cars())
    }
}

/// The proper list of `values`.
pub fn list_from_vec<N, F, M>(values: Vec<Rc<Value<N, F, M>>>) -> (r: Rc<Value<N, F, M>>)
    ensures
        r@ == term_list(model_seq(values@)),
{
    Value::list(values.as_slice())
}

} // verus!
