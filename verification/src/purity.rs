use vstd::prelude::*;
use std::rc::Rc;
use crate::compiler::{define_name, string_is};
use crate::names::NameSet;
use crate::parser::quote_name;
use crate::value::{Term, Value, chain_cars, chain_end, is_proper, model_seq, lemma_model_seq_len};

verus! {

/// Whether a function body is free of side effects.
pub enum PurityState {
    Pure,
    /// Pure if the named functions, not yet known to be pure, turn out to be.
    Deferred(NameSet),
    Impure,
}

/// Mathematical model of a purity verdict.
pub enum Purity {
    Pure,
    Deferred(Set<Seq<char>>),
    Impure,
}

impl PurityState {
    pub open spec fn model(&self) -> Purity {
        match self {
            PurityState::Pure => Purity::Pure,
            PurityState::Deferred(s) => Purity::Deferred(s@),
            PurityState::Impure => Purity::Impure,
        }
    }
}

/// What the analysis knows: functions known to be pure, all defined global
/// names, functions still waiting on others, and the function being defined.
pub struct PurityContext {
    pub pure: Set<Seq<char>>,
    pub known: Set<Seq<char>>,
    pub pending: Set<Seq<char>>,
    pub current: Seq<char>,
}

pub open spec fn eval_name() -> Seq<char> {
    seq!['e', 'v', 'a', 'l']
}

/// Combining the verdicts of two parts: impure wins, then the unresolved
/// dependencies of both are collected.
pub open spec fn merge(a: Purity, b: Purity) -> Purity {
    match (a, b) {
        (Purity::Impure, _) => Purity::Impure,
        (_, Purity::Impure) => Purity::Impure,
        (Purity::Pure, Purity::Pure) => Purity::Pure,
        (Purity::Deferred(x), Purity::Deferred(y)) => Purity::Deferred(x.union(y)),
        (Purity::Deferred(x), Purity::Pure) => Purity::Deferred(x),
        (Purity::Pure, Purity::Deferred(y)) => Purity::Deferred(y),
    }
}

/// Verdict on calling `name`.
pub open spec fn symbol_target_purity(name: Seq<char>, ctx: PurityContext) -> Purity {
    if name == quote_name() {
        Purity::Pure
    } else if name == define_name() || name == eval_name() {
        Purity::Impure
    } else if name == ctx.current || ctx.pure.contains(name) {
        Purity::Pure
    } else if ctx.pending.contains(name) || !ctx.known.contains(name) {
        Purity::Deferred(Set::empty().insert(name))
    } else {
        Purity::Impure
    }
}

/// Verdict on calling `f`.
pub open spec fn target_purity<N, F>(f: Term<N, F>, ctx: PurityContext) -> Purity
    decreases f,
{
    match f {
        Term::Symbol(name) => symbol_target_purity(name, ctx),
        Term::Lambda(_, body) => expr_purity(*body, ctx),
        Term::Closure(_, body, _) => expr_purity(*body, ctx),
        Term::Memoized(body) => expr_purity(*body, ctx),
        _ => Purity::Impure,
    }
}

/// `st` merged with the verdicts of `s`, left to right.
pub open spec fn args_purity<N, F>(st: Purity, s: Seq<Term<N, F>>, ctx: PurityContext) -> Purity
    decreases s,
{
    if s.len() == 0 {
        st
    } else {
        args_purity(merge(st, expr_purity(s[0], ctx)), s.subrange(1, s.len() as int), ctx)
    }
}

/// `st` merged with the verdicts of the cars along `rest`; impure unless the
/// chain ends in nil.
pub open spec fn chain_purity<N, F>(st: Purity, rest: Term<N, F>, ctx: PurityContext) -> Purity
    decreases rest,
{
    match rest {
        Term::Pair(a, d) => chain_purity(merge(st, expr_purity(*a, ctx)), *d, ctx),
        Term::Nil => st,
        _ => Purity::Impure,
    }
}

/// Verdict on an expression.
pub open spec fn expr_purity<N, F>(e: Term<N, F>, ctx: PurityContext) -> Purity
    decreases e,
{
    match e {
        Term::TailCall(f, args) => if *f == Term::<N, F>::Symbol(quote_name()) {
            Purity::Pure
        } else {
            merge(target_purity(*f, ctx), args_purity(Purity::Pure, args, ctx))
        },
        Term::If(c, t, el) => merge(
            merge(expr_purity(*c, ctx), expr_purity(*t, ctx)),
            expr_purity(*el, ctx),
        ),
        Term::Memoized(body) => expr_purity(*body, ctx),
        Term::Pair(car, cdr) => if *car == Term::<N, F>::Symbol(quote_name()) {
            Purity::Pure
        } else {
            chain_purity(target_purity(*car, ctx), *cdr, ctx)
        },
        Term::Error(_) => Purity::Impure,
        _ => Purity::Pure,
    }
}

/// Size of a term, counting the parts the purity analysis visits.
pub open spec fn term_size<N, F>(t: Term<N, F>) -> nat
    decreases t,
{
    match t {
        Term::Pair(a, d) => 1 + term_size(*a) + term_size(*d),
        Term::Lambda(_, b) => 1 + term_size(*b),
        Term::Closure(_, b, _) => 1 + term_size(*b),
        Term::TailCall(f, args) => 1 + term_size(*f) + seq_size(args),
        Term::If(c, th, el) => 1 + term_size(*c) + term_size(*th) + term_size(*el),
        Term::Memoized(b) => 1 + term_size(*b),
        _ => 1,
    }
}

pub open spec fn seq_size<N, F>(s: Seq<Term<N, F>>) -> nat
    decreases s,
{
    if s.len() == 0 {
        0
    } else {
        term_size(s[0]) + seq_size(s.subrange(1, s.len() as int))
    }
}

pub proof fn lemma_seq_size_elements<N, F>(s: Seq<Term<N, F>>)
    ensures
        forall|i: int| 0 <= i < s.len() ==> #[trigger] term_size(s[i]) <= seq_size(s),
    decreases s.len(),
{
    if s.len() > 0 {
        lemma_seq_size_elements(s.subrange(1, s.len() as int));
        assert forall|i: int| 0 <= i < s.len() implies #[trigger] term_size(s[i]) <= seq_size(s) by {
            if i > 0 {
                assert(s[i] == s.subrange(1, s.len() as int)[i - 1]);
            }
        }
    }
}

/// Deferred verdicts always name at least one function.
pub open spec fn well_formed(p: Purity) -> bool {
    p matches Purity::Deferred(s) ==> s.finite() && s.len() > 0
}

pub fn deferred_dependency(name: &str) -> (r: PurityState)
    ensures
        r.model() == Purity::Deferred(Set::<Seq<char>>::empty().insert(name@)),
{
    PurityState::Deferred(NameSet::singleton(name))
}

pub fn merge_purity(left: PurityState, right: PurityState) -> (r: PurityState)
    ensures
        r.model() == merge(left.model(), right.model()),
{
    match (left, right) {
        (PurityState::Impure, _) => PurityState::Impure,
        (_, PurityState::Impure) => PurityState::Impure,
        (PurityState::Pure, PurityState::Pure) => PurityState::Pure,
        (PurityState::Deferred(mut l), PurityState::Deferred(r)) => {
            l.extend(&r);
            PurityState::Deferred(l)
        },
        (PurityState::Deferred(waiting), PurityState::Pure) => PurityState::Deferred(waiting),
        (PurityState::Pure, PurityState::Deferred(waiting)) => PurityState::Deferred(waiting),
    }
}

pub open spec fn context(
    pure_functions: &NameSet,
    known_functions: &NameSet,
    pending_functions: &NameSet,
    current_func_name: &str,
) -> PurityContext {
    PurityContext {
        pure: pure_functions@,
        known: known_functions@,
        pending: pending_functions@,
        current: current_func_name@,
    }
}

pub fn analyze_call_target_purity<N, F, M>(
    func: &Rc<Value<N, F, M>>,
    pure_functions: &NameSet,
    known_functions: &NameSet,
    pending_functions: &NameSet,
    current_func_name: &str,
) -> (r: PurityState)
    ensures
        r.model() == target_purity(
            func@,
            context(pure_functions, known_functions, pending_functions, current_func_name),
        ),
    decreases term_size(func@), 1nat,
{
    match &**func {
        Value::Symbol(name) => {
            proof {
                reveal_strlit("quote");
                reveal_strlit("define");
                reveal_strlit("eval");
                assert("quote"@ =~= quote_name());
                assert("define"@ =~= define_name());
                assert("eval"@ =~= eval_name());
            }
            if string_is(name, "quote") {
                PurityState::Pure
            } else if string_is(name, "define") || string_is(name, "eval") {
                PurityState::Impure
            } else if string_is(name, current_func_name) || pure_functions.contains_string(name) {
                PurityState::Pure
            } else if pending_functions.contains_string(name) || !known_functions.contains_string(name) {
                deferred_dependency(name.as_str())
            } else {
                PurityState::Impure
            }
        },
        Value::Lambda { body, .. } | Value::Closure { body, .. } | Value::Memoized { body, .. } => {
            is_expression_pure(body, pure_functions, known_functions, pending_functions, current_func_name)
        },
        _ => PurityState::Impure,
    }
}

pub fn analyze_call_arguments<N, F, M>(
    args: &Vec<Rc<Value<N, F, M>>>,
    pure_functions: &NameSet,
    known_functions: &NameSet,
    pending_functions: &NameSet,
    current_func_name: &str,
) -> (r: PurityState)
    ensures
        r.model() == args_purity(
            Purity::Pure,
            model_seq(args@),
            context(pure_functions, known_functions, pending_functions, current_func_name),
        ),
    decreases seq_size(model_seq(args@)), 2nat,
{
    let ghost ctx = context(pure_functions, known_functions, pending_functions, current_func_name);
    let ghost s = model_seq(args@);
    proof {
        lemma_model_seq_len(args@);
        lemma_seq_size_elements(s);
        assert(s.subrange(0, s.len() as int) =~= s);
    }
    let mut state = PurityState::Pure;
    let mut i: usize = 0;
    while i < args.len()
        invariant
            0 <= i <= args@.len(),
            s == model_seq(args@),
            s.len() == args@.len(),
            forall|k: int| 0 <= k < args@.len() ==> #[trigger] s[k] == args@[k]@,
            forall|k: int| 0 <= k < s.len() ==> #[trigger] term_size(s[k]) <= seq_size(s),
            ctx == context(pure_functions, known_functions, pending_functions, current_func_name),
            args_purity(Purity::Pure, s, ctx) == args_purity(
                state.model(),
                s.subrange(i as int, s.len() as int),
                ctx,
            ),
        decreases args@.len() - i,
    {
        assert(s[i as int] == args@[i as int]@);
        let p = is_expression_pure(&args[i], pure_functions, known_functions, pending_functions, current_func_name);
        assert(s.subrange(i as int, s.len() as int).subrange(1, s.len() - i) =~= s.subrange(
            i + 1,
            s.len() as int,
        ));
        state = merge_purity(state, p);
        i += 1;
    }
    state
}

pub fn is_expression_pure<N, F, M>(
    expr: &Rc<Value<N, F, M>>,
    pure_functions: &NameSet,
    known_functions: &NameSet,
    pending_functions: &NameSet,
    current_func_name: &str,
) -> (r: PurityState)
    ensures
        r.model() == expr_purity(
            expr@,
            context(pure_functions, known_functions, pending_functions, current_func_name),
        ),
    decreases term_size(expr@), 1nat,
{
    let ghost ctx = context(pure_functions, known_functions, pending_functions, current_func_name);
    proof {
        reveal_strlit("quote");
        assert("quote"@ =~= quote_name());
    }
    match &**expr {
        Value::TailCall { func, args } => {
            if let Value::Symbol(name) = &**func {
                if string_is(name, "quote") {
                    assert(func@ == Term::<N, F>::Symbol(quote_name()));
                    return PurityState::Pure;
                }
            }
            merge_purity(
                analyze_call_target_purity(func, pure_functions, known_functions, pending_functions, current_func_name),
                analyze_call_arguments(args, pure_functions, known_functions, pending_functions, current_func_name),
            )
        },
        Value::If { cond, then_branch, else_branch } => merge_purity(
            merge_purity(
                is_expression_pure(cond, pure_functions, known_functions, pending_functions, current_func_name),
                is_expression_pure(then_branch, pure_functions, known_functions, pending_functions, current_func_name),
            ),
            is_expression_pure(else_branch, pure_functions, known_functions, pending_functions, current_func_name),
        ),
        Value::Memoized { body, .. } => {
            is_expression_pure(body, pure_functions, known_functions, pending_functions, current_func_name)
        },
        Value::Pair(cons) => {
            assert(expr@ == cons.term());
            if let Value::Symbol(name) = &*cons.car {
                if string_is(name, "quote") {
                    return PurityState::Pure;
                }
            }
            let mut state = analyze_call_target_purity(
                &cons.car,
                pure_functions,
                known_functions,
                pending_functions,
                current_func_name,
            );
            let mut current = &cons.cdr;
            loop
                invariant
                    ctx == context(pure_functions, known_functions, pending_functions, current_func_name),
                    term_size(current@) < term_size(expr@),
                    chain_purity(target_purity(cons.car@, ctx), cons.cdr@, ctx) == chain_purity(
                        state.model(),
                        current@,
                        ctx,
                    ),
                ensures
                    ctx == context(pure_functions, known_functions, pending_functions, current_func_name),
                    chain_end(current@) == current@,
                    !(current@ is Pair),
                    chain_purity(target_purity(cons.car@, ctx), cons.cdr@, ctx) == chain_purity(
                        state.model(),
                        current@,
                        ctx,
                    ),
                decreases term_size(current@),
            {
                match &**current {
                    Value::Pair(arg_cons) => {
                        assert(current@ == arg_cons.term());
                        let p = is_expression_pure(
                            &arg_cons.car,
                            pure_functions,
                            known_functions,
                            pending_functions,
                            current_func_name,
                        );
                        state = merge_purity(state, p);
                        current = &arg_cons.cdr;
                    },
                    _ => {
                        break ;
                    },
                }
            }
            match &**current {
                Value::Nil => state,
                _ => PurityState::Impure,
            }
        },
        Value::Error(_) => PurityState::Impure,
        _ => PurityState::Pure,
    }
}

/// Merging verdicts does not depend on their order.
pub proof fn law_merge_commutative(a: Purity, b: Purity)
    ensures
        merge(a, b) == merge(b, a),
{
    if let (Purity::Deferred(x), Purity::Deferred(y)) = (a, b) {
        assert(x.union(y) =~= y.union(x));
    }
}

/// Merging verdicts does not depend on their grouping.
pub proof fn law_merge_associative(a: Purity, b: Purity, c: Purity)
    ensures
        merge(merge(a, b), c) == merge(a, merge(b, c)),
{
    if let (Purity::Deferred(x), Purity::Deferred(y), Purity::Deferred(z)) = (a, b, c) {
        assert(x.union(y).union(z) =~= x.union(y.union(z)));
    }
}

/// A pure part leaves a verdict as it is.
pub proof fn law_merge_pure_identity(a: Purity)
    ensures
        merge(Purity::Pure, a) == a,
        merge(a, Purity::Pure) == a,
{
}

/// One impure part makes the whole impure.
pub proof fn law_merge_impure_absorbs(a: Purity)
    ensures
        merge(Purity::Impure, a) == Purity::Impure,
        merge(a, Purity::Impure) == Purity::Impure,
{
}

/// Merging keeps deferred verdicts naming at least one function.
pub proof fn law_merge_well_formed(a: Purity, b: Purity)
    requires
        well_formed(a),
        well_formed(b),
    ensures
        well_formed(merge(a, b)),
{
    if let (Purity::Deferred(x), Purity::Deferred(y)) = (a, b) {
        vstd::set_lib::lemma_set_union_finite_iff(x, y);
        vstd::set_lib::lemma_len_subset(x, x.union(y));
    }
}

proof fn lemma_target_well_formed<N, F>(f: Term<N, F>, ctx: PurityContext)
    ensures
        well_formed(target_purity(f, ctx)),
    decreases f,
{
    match f {
        Term::Symbol(name) => {
            let s = Set::<Seq<char>>::empty().insert(name);
            assert(s.finite());
            assert(s.contains(name));
        },
        Term::Lambda(_, body) => lemma_expr_well_formed(*body, ctx),
        Term::Closure(_, body, _) => lemma_expr_well_formed(*body, ctx),
        Term::Memoized(body) => lemma_expr_well_formed(*body, ctx),
        _ => {},
    }
}

proof fn lemma_args_well_formed<N, F>(st: Purity, s: Seq<Term<N, F>>, ctx: PurityContext)
    requires
        well_formed(st),
    ensures
        well_formed(args_purity(st, s, ctx)),
    decreases s,
{
    if s.len() > 0 {
        lemma_expr_well_formed(s[0], ctx);
        law_merge_well_formed(st, expr_purity(s[0], ctx));
        lemma_args_well_formed(merge(st, expr_purity(s[0], ctx)), s.subrange(1, s.len() as int), ctx);
    }
}

proof fn lemma_chain_well_formed<N, F>(st: Purity, rest: Term<N, F>, ctx: PurityContext)
    requires
        well_formed(st),
    ensures
        well_formed(chain_purity(st, rest, ctx)),
    decreases rest,
{
    if let Term::Pair(a, d) = rest {
        lemma_expr_well_formed(*a, ctx);
        law_merge_well_formed(st, expr_purity(*a, ctx));
        lemma_chain_well_formed(merge(st, expr_purity(*a, ctx)), *d, ctx);
    }
}

proof fn lemma_expr_well_formed<N, F>(e: Term<N, F>, ctx: PurityContext)
    ensures
        well_formed(expr_purity(e, ctx)),
    decreases e,
{
    match e {
        Term::TailCall(f, args) => {
            lemma_target_well_formed(*f, ctx);
            lemma_args_well_formed(Purity::Pure, args, ctx);
            law_merge_well_formed(target_purity(*f, ctx), args_purity(Purity::Pure, args, ctx));
        },
        Term::If(c, t, el) => {
            lemma_expr_well_formed(*c, ctx);
            lemma_expr_well_formed(*t, ctx);
            lemma_expr_well_formed(*el, ctx);
            law_merge_well_formed(expr_purity(*c, ctx), expr_purity(*t, ctx));
            law_merge_well_formed(merge(expr_purity(*c, ctx), expr_purity(*t, ctx)), expr_purity(*el, ctx));
        },
        Term::Memoized(body) => lemma_expr_well_formed(*body, ctx),
        Term::Pair(car, cdr) => {
            lemma_target_well_formed(*car, ctx);
            lemma_chain_well_formed(target_purity(*car, ctx), *cdr, ctx);
        },
        _ => {},
    }
}

/// A deferred verdict on an expression names at least one function it waits on.
pub proof fn law_deferred_names_a_dependency<N, F>(e: Term<N, F>, ctx: PurityContext)
    ensures
        well_formed(expr_purity(e, ctx)),
{
    lemma_expr_well_formed(e, ctx);
}

/// `c2` knows at least the pure functions `c1` knows, for the same function.
pub open spec fn more_pure(c1: PurityContext, c2: PurityContext) -> bool {
    c1.current == c2.current && c1.pure.subset_of(c2.pure)
}

/// `c2` arises from `c1` by resolving waiting functions: pure ones are among
/// those that waited, and only waiting functions stop waiting.
pub open spec fn resolved_from(c1: PurityContext, c2: PurityContext) -> bool {
    &&& c1.current == c2.current
    &&& c1.known == c2.known
    &&& c2.pending.subset_of(c1.pending)
    &&& forall|x: Seq<char>| #[trigger] c2.pure.contains(x) ==> c1.pure.contains(x) || c1.pending.contains(x)
}

proof fn lemma_merge_pure_parts(a: Purity, b: Purity)
    ensures
        merge(a, b) == Purity::Pure <==> (a == Purity::Pure && b == Purity::Pure),
        merge(a, b) == Purity::Impure <==> (a == Purity::Impure || b == Purity::Impure),
{
}

proof fn lemma_target_pure_stable<N, F>(f: Term<N, F>, c1: PurityContext, c2: PurityContext)
    requires
        more_pure(c1, c2),
        target_purity(f, c1) == Purity::Pure,
    ensures
        target_purity(f, c2) == Purity::Pure,
    decreases f,
{
    match f {
        Term::Lambda(_, body) => lemma_expr_pure_stable(*body, c1, c2),
        Term::Closure(_, body, _) => lemma_expr_pure_stable(*body, c1, c2),
        Term::Memoized(body) => lemma_expr_pure_stable(*body, c1, c2),
        _ => {},
    }
}

proof fn lemma_args_pure_stable<N, F>(st: Purity, s: Seq<Term<N, F>>, c1: PurityContext, c2: PurityContext)
    requires
        more_pure(c1, c2),
        args_purity(st, s, c1) == Purity::Pure,
    ensures
        st == Purity::Pure,
        args_purity(Purity::Pure, s, c2) == Purity::Pure,
    decreases s,
{
    if s.len() > 0 {
        let st1 = merge(st, expr_purity(s[0], c1));
        lemma_args_pure_stable(st1, s.subrange(1, s.len() as int), c1, c2);
        lemma_merge_pure_parts(st, expr_purity(s[0], c1));
        lemma_expr_pure_stable(s[0], c1, c2);
    }
}

proof fn lemma_chain_pure_stable<N, F>(st: Purity, rest: Term<N, F>, c1: PurityContext, c2: PurityContext)
    requires
        more_pure(c1, c2),
        chain_purity(st, rest, c1) == Purity::Pure,
    ensures
        st == Purity::Pure,
        chain_purity(Purity::Pure, rest, c2) == Purity::Pure,
    decreases rest,
{
    if let Term::Pair(a, d) = rest {
        let st1 = merge(st, expr_purity(*a, c1));
        lemma_chain_pure_stable(st1, *d, c1, c2);
        lemma_merge_pure_parts(st, expr_purity(*a, c1));
        lemma_expr_pure_stable(*a, c1, c2);
    }
}

proof fn lemma_expr_pure_stable<N, F>(e: Term<N, F>, c1: PurityContext, c2: PurityContext)
    requires
        more_pure(c1, c2),
        expr_purity(e, c1) == Purity::Pure,
    ensures
        expr_purity(e, c2) == Purity::Pure,
    decreases e,
{
    match e {
        Term::TailCall(f, args) => {
            if *f != Term::<N, F>::Symbol(quote_name()) {
                lemma_merge_pure_parts(target_purity(*f, c1), args_purity(Purity::Pure, args, c1));
                lemma_target_pure_stable(*f, c1, c2);
                lemma_args_pure_stable(Purity::Pure, args, c1, c2);
            }
        },
        Term::If(c, t, el) => {
            lemma_merge_pure_parts(merge(expr_purity(*c, c1), expr_purity(*t, c1)), expr_purity(*el, c1));
            lemma_merge_pure_parts(expr_purity(*c, c1), expr_purity(*t, c1));
            lemma_expr_pure_stable(*c, c1, c2);
            lemma_expr_pure_stable(*t, c1, c2);
            lemma_expr_pure_stable(*el, c1, c2);
        },
        Term::Memoized(body) => lemma_expr_pure_stable(*body, c1, c2),
        Term::Pair(car, cdr) => {
            if *car != Term::<N, F>::Symbol(quote_name()) {
                lemma_chain_pure_stable(target_purity(*car, c1), *cdr, c1, c2);
                lemma_target_pure_stable(*car, c1, c2);
            }
        },
        _ => {},
    }
}

/// A body found pure stays pure once more functions are known to be pure.
pub proof fn law_pure_stays_pure<N, F>(e: Term<N, F>, c1: PurityContext, c2: PurityContext)
    requires
        more_pure(c1, c2),
        expr_purity(e, c1) == Purity::Pure,
    ensures
        expr_purity(e, c2) == Purity::Pure,
{
    lemma_expr_pure_stable(e, c1, c2);
}

proof fn lemma_target_impure_stable<N, F>(f: Term<N, F>, c1: PurityContext, c2: PurityContext)
    requires
        resolved_from(c1, c2),
        target_purity(f, c1) == Purity::Impure,
    ensures
        target_purity(f, c2) == Purity::Impure,
    decreases f,
{
    match f {
        Term::Lambda(_, body) => lemma_expr_impure_stable(*body, c1, c2),
        Term::Closure(_, body, _) => lemma_expr_impure_stable(*body, c1, c2),
        Term::Memoized(body) => lemma_expr_impure_stable(*body, c1, c2),
        _ => {},
    }
}

proof fn lemma_args_impure_stable<N, F>(st1: Purity, st2: Purity, s: Seq<Term<N, F>>, c1: PurityContext, c2: PurityContext)
    requires
        resolved_from(c1, c2),
        st1 == Purity::Impure ==> st2 == Purity::Impure,
        args_purity(st1, s, c1) == Purity::Impure,
    ensures
        args_purity(st2, s, c2) == Purity::Impure,
    decreases s,
{
    if s.len() == 0 {
    } else {
        let a1 = merge(st1, expr_purity(s[0], c1));
        let a2 = merge(st2, expr_purity(s[0], c2));
        lemma_merge_pure_parts(st1, expr_purity(s[0], c1));
        lemma_merge_pure_parts(st2, expr_purity(s[0], c2));
        if expr_purity(s[0], c1) == Purity::Impure {
            lemma_expr_impure_stable(s[0], c1, c2);
        }
        lemma_args_impure_stable(a1, a2, s.subrange(1, s.len() as int), c1, c2);
    }
}

proof fn lemma_args_impure_absorbs<N, F>(s: Seq<Term<N, F>>, c: PurityContext)
    ensures
        args_purity(Purity::Impure, s, c) == Purity::Impure,
    decreases s,
{
    if s.len() > 0 {
        lemma_args_impure_absorbs(s.subrange(1, s.len() as int), c);
    }
}

proof fn lemma_chain_impure_absorbs<N, F>(rest: Term<N, F>, c: PurityContext)
    ensures
        chain_purity(Purity::Impure, rest, c) == Purity::Impure,
    decreases rest,
{
    if let Term::Pair(_, d) = rest {
        lemma_chain_impure_absorbs(*d, c);
    }
}

proof fn lemma_chain_impure_stable<N, F>(st1: Purity, st2: Purity, rest: Term<N, F>, c1: PurityContext, c2: PurityContext)
    requires
        resolved_from(c1, c2),
        st1 == Purity::Impure ==> st2 == Purity::Impure,
        chain_purity(st1, rest, c1) == Purity::Impure,
    ensures
        chain_purity(st2, rest, c2) == Purity::Impure,
    decreases rest,
{
    if let Term::Pair(a, d) = rest {
        let a1 = merge(st1, expr_purity(*a, c1));
        let a2 = merge(st2, expr_purity(*a, c2));
        lemma_merge_pure_parts(st1, expr_purity(*a, c1));
        lemma_merge_pure_parts(st2, expr_purity(*a, c2));
        if expr_purity(*a, c1) == Purity::Impure {
            lemma_expr_impure_stable(*a, c1, c2);
        }
        lemma_chain_impure_stable(a1, a2, *d, c1, c2);
    }
}

proof fn lemma_expr_impure_stable<N, F>(e: Term<N, F>, c1: PurityContext, c2: PurityContext)
    requires
        resolved_from(c1, c2),
        expr_purity(e, c1) == Purity::Impure,
    ensures
        expr_purity(e, c2) == Purity::Impure,
    decreases e,
{
    match e {
        Term::TailCall(f, args) => {
            lemma_merge_pure_parts(target_purity(*f, c1), args_purity(Purity::Pure, args, c1));
            lemma_merge_pure_parts(target_purity(*f, c2), args_purity(Purity::Pure, args, c2));
            if target_purity(*f, c1) == Purity::Impure {
                lemma_target_impure_stable(*f, c1, c2);
            } else {
                lemma_args_impure_stable(Purity::Pure, Purity::Pure, args, c1, c2);
            }
        },
        Term::If(c, t, el) => {
            lemma_merge_pure_parts(merge(expr_purity(*c, c1), expr_purity(*t, c1)), expr_purity(*el, c1));
            lemma_merge_pure_parts(expr_purity(*c, c1), expr_purity(*t, c1));
            lemma_merge_pure_parts(merge(expr_purity(*c, c2), expr_purity(*t, c2)), expr_purity(*el, c2));
            lemma_merge_pure_parts(expr_purity(*c, c2), expr_purity(*t, c2));
            if expr_purity(*c, c1) == Purity::Impure {
                lemma_expr_impure_stable(*c, c1, c2);
            } else if expr_purity(*t, c1) == Purity::Impure {
                lemma_expr_impure_stable(*t, c1, c2);
            } else {
                lemma_expr_impure_stable(*el, c1, c2);
            }
        },
        Term::Memoized(body) => lemma_expr_impure_stable(*body, c1, c2),
        Term::Pair(car, cdr) => {
            if target_purity(*car, c1) == Purity::Impure {
                lemma_target_impure_stable(*car, c1, c2);
                lemma_chain_impure_absorbs(*cdr, c2);
            }
            lemma_chain_impure_stable(target_purity(*car, c1), target_purity(*car, c2), *cdr, c1, c2);
        },
        _ => {},
    }
}

/// A body found impure stays impure while waiting functions get resolved.
pub proof fn law_impure_stays_impure<N, F>(e: Term<N, F>, c1: PurityContext, c2: PurityContext)
    requires
        resolved_from(c1, c2),
        expr_purity(e, c1) == Purity::Impure,
    ensures
        expr_purity(e, c2) == Purity::Impure,
{
    lemma_expr_impure_stable(e, c1, c2);
}

/// The verdict `a` is no worse than `b`: `b` is impure, or `a` is pure, or both
/// wait and `a` waits on no function that `b` does not wait on.
pub open spec fn no_worse(a: Purity, b: Purity) -> bool {
    match (a, b) {
        (_, Purity::Impure) => true,
        (Purity::Pure, _) => true,
        (Purity::Deferred(x), Purity::Deferred(y)) => x.subset_of(y),
        _ => false,
    }
}

/// Only the functions known to be pure differ, and `c2` knows more of them.
pub open spec fn only_more_pure(c1: PurityContext, c2: PurityContext) -> bool {
    &&& more_pure(c1, c2)
    &&& c1.known == c2.known
    &&& c1.pending == c2.pending
}

proof fn lemma_merge_no_worse(a1: Purity, b1: Purity, a2: Purity, b2: Purity)
    requires
        no_worse(a2, a1),
        no_worse(b2, b1),
    ensures
        no_worse(merge(a2, b2), merge(a1, b1)),
{
    match (a2, b2, a1, b1) {
        (Purity::Deferred(x2), Purity::Deferred(y2), Purity::Deferred(x1), Purity::Deferred(y1)) => {
            assert(x2.union(y2).subset_of(x1.union(y1)));
        },
        (Purity::Deferred(x2), Purity::Pure, Purity::Deferred(x1), Purity::Deferred(y1)) => {
            assert(x2.subset_of(x1.union(y1)));
        },
        (Purity::Pure, Purity::Deferred(y2), Purity::Deferred(x1), Purity::Deferred(y1)) => {
            assert(y2.subset_of(x1.union(y1)));
        },
        _ => {},
    }
}

proof fn lemma_target_no_worse<N, F>(f: Term<N, F>, c1: PurityContext, c2: PurityContext)
    requires
        only_more_pure(c1, c2),
    ensures
        no_worse(target_purity(f, c2), target_purity(f, c1)),
    decreases f,
{
    match f {
        Term::Lambda(_, body) => lemma_expr_no_worse(*body, c1, c2),
        Term::Closure(_, body, _) => lemma_expr_no_worse(*body, c1, c2),
        Term::Memoized(body) => lemma_expr_no_worse(*body, c1, c2),
        Term::Symbol(name) => {
            if let Purity::Deferred(x) = symbol_target_purity(name, c1) {
                assert(x.subset_of(x));
            }
        },
        _ => {},
    }
}

proof fn lemma_args_no_worse<N, F>(
    st1: Purity,
    st2: Purity,
    s: Seq<Term<N, F>>,
    c1: PurityContext,
    c2: PurityContext,
)
    requires
        only_more_pure(c1, c2),
        no_worse(st2, st1),
    ensures
        no_worse(args_purity(st2, s, c2), args_purity(st1, s, c1)),
    decreases s,
{
    if s.len() > 0 {
        lemma_expr_no_worse(s[0], c1, c2);
        lemma_merge_no_worse(st1, expr_purity(s[0], c1), st2, expr_purity(s[0], c2));
        lemma_args_no_worse(
            merge(st1, expr_purity(s[0], c1)),
            merge(st2, expr_purity(s[0], c2)),
            s.subrange(1, s.len() as int),
            c1,
            c2,
        );
    }
}

proof fn lemma_chain_no_worse<N, F>(
    st1: Purity,
    st2: Purity,
    rest: Term<N, F>,
    c1: PurityContext,
    c2: PurityContext,
)
    requires
        only_more_pure(c1, c2),
        no_worse(st2, st1),
    ensures
        no_worse(chain_purity(st2, rest, c2), chain_purity(st1, rest, c1)),
    decreases rest,
{
    if let Term::Pair(a, d) = rest {
        lemma_expr_no_worse(*a, c1, c2);
        lemma_merge_no_worse(st1, expr_purity(*a, c1), st2, expr_purity(*a, c2));
        lemma_chain_no_worse(merge(st1, expr_purity(*a, c1)), merge(st2, expr_purity(*a, c2)), *d, c1, c2);
    }
}

proof fn lemma_expr_no_worse<N, F>(e: Term<N, F>, c1: PurityContext, c2: PurityContext)
    requires
        only_more_pure(c1, c2),
    ensures
        no_worse(expr_purity(e, c2), expr_purity(e, c1)),
    decreases e,
{
    match e {
        Term::TailCall(f, args) => {
            if *f != Term::<N, F>::Symbol(quote_name()) {
                lemma_target_no_worse(*f, c1, c2);
                lemma_args_no_worse(Purity::Pure, Purity::Pure, args, c1, c2);
                lemma_merge_no_worse(
                    target_purity(*f, c1),
                    args_purity(Purity::Pure, args, c1),
                    target_purity(*f, c2),
                    args_purity(Purity::Pure, args, c2),
                );
            }
        },
        Term::If(c, t, el) => {
            lemma_expr_no_worse(*c, c1, c2);
            lemma_expr_no_worse(*t, c1, c2);
            lemma_expr_no_worse(*el, c1, c2);
            lemma_merge_no_worse(expr_purity(*c, c1), expr_purity(*t, c1), expr_purity(*c, c2), expr_purity(*t, c2));
            lemma_merge_no_worse(
                merge(expr_purity(*c, c1), expr_purity(*t, c1)),
                expr_purity(*el, c1),
                merge(expr_purity(*c, c2), expr_purity(*t, c2)),
                expr_purity(*el, c2),
            );
        },
        Term::Memoized(body) => lemma_expr_no_worse(*body, c1, c2),
        Term::Pair(car, cdr) => {
            if *car != Term::<N, F>::Symbol(quote_name()) {
                lemma_target_no_worse(*car, c1, c2);
                lemma_chain_no_worse(target_purity(*car, c1), target_purity(*car, c2), *cdr, c1, c2);
            }
        },
        _ => {},
    }
}

/// Knowing more functions to be pure never makes a verdict worse: an impure
/// verdict may become anything, a waiting one may become pure or wait on fewer
/// functions, and a pure one stays pure.
pub proof fn law_more_pure_no_worse<N, F>(e: Term<N, F>, c1: PurityContext, c2: PurityContext)
    requires
        only_more_pure(c1, c2),
    ensures
        no_worse(expr_purity(e, c2), expr_purity(e, c1)),
{
    lemma_expr_no_worse(e, c1, c2);
}

/// `c` with the functions `x` known to be pure besides.
pub open spec fn with_pure(c: PurityContext, x: Set<Seq<char>>) -> PurityContext {
    PurityContext { pure: c.pure.union(x), ..c }
}

proof fn lemma_merge_split(a: Purity, b: Purity, x: Set<Seq<char>>)
    requires
        no_worse(merge(a, b), Purity::Deferred(x)),
    ensures
        no_worse(a, Purity::Deferred(x)),
        no_worse(b, Purity::Deferred(x)),
{
}

proof fn lemma_merge_within(a: Purity, b: Purity, x: Set<Seq<char>>)
    requires
        no_worse(a, Purity::Deferred(x)),
        no_worse(b, Purity::Deferred(x)),
    ensures
        no_worse(merge(a, b), Purity::Deferred(x)),
{
    lemma_merge_no_worse(Purity::Deferred(x), Purity::Deferred(x), a, b);
    assert(x.union(x) =~= x);
}

proof fn lemma_target_resolves<N, F>(f: Term<N, F>, c: PurityContext, x: Set<Seq<char>>)
    requires
        no_worse(target_purity(f, c), Purity::Deferred(x)),
    ensures
        target_purity(f, with_pure(c, x)) == Purity::Pure,
    decreases f,
{
    match f {
        Term::Lambda(_, body) => lemma_expr_resolves(*body, c, x),
        Term::Closure(_, body, _) => lemma_expr_resolves(*body, c, x),
        Term::Memoized(body) => lemma_expr_resolves(*body, c, x),
        Term::Symbol(name) => {
            if symbol_target_purity(name, c) is Deferred {
                assert(Set::<Seq<char>>::empty().insert(name).contains(name));
            }
        },
        _ => {},
    }
}

proof fn lemma_args_resolves<N, F>(st: Purity, s: Seq<Term<N, F>>, c: PurityContext, x: Set<Seq<char>>)
    requires
        no_worse(args_purity(st, s, c), Purity::Deferred(x)),
    ensures
        no_worse(st, Purity::Deferred(x)),
        args_purity(Purity::Pure, s, with_pure(c, x)) == Purity::Pure,
    decreases s,
{
    if s.len() > 0 {
        let st1 = merge(st, expr_purity(s[0], c));
        lemma_args_resolves(st1, s.subrange(1, s.len() as int), c, x);
        lemma_merge_split(st, expr_purity(s[0], c), x);
        lemma_expr_resolves(s[0], c, x);
    }
}

proof fn lemma_chain_resolves<N, F>(st: Purity, rest: Term<N, F>, c: PurityContext, x: Set<Seq<char>>)
    requires
        no_worse(chain_purity(st, rest, c), Purity::Deferred(x)),
    ensures
        no_worse(st, Purity::Deferred(x)),
        chain_purity(Purity::Pure, rest, with_pure(c, x)) == Purity::Pure,
    decreases rest,
{
    if let Term::Pair(a, d) = rest {
        let st1 = merge(st, expr_purity(*a, c));
        lemma_chain_resolves(st1, *d, c, x);
        lemma_merge_split(st, expr_purity(*a, c), x);
        lemma_expr_resolves(*a, c, x);
    }
}

proof fn lemma_expr_resolves<N, F>(e: Term<N, F>, c: PurityContext, x: Set<Seq<char>>)
    requires
        no_worse(expr_purity(e, c), Purity::Deferred(x)),
    ensures
        expr_purity(e, with_pure(c, x)) == Purity::Pure,
    decreases e,
{
    match e {
        Term::TailCall(f, args) => {
            if *f != Term::<N, F>::Symbol(quote_name()) {
                lemma_merge_split(target_purity(*f, c), args_purity(Purity::Pure, args, c), x);
                lemma_target_resolves(*f, c, x);
                lemma_args_resolves(Purity::Pure, args, c, x);
            }
        },
        Term::If(cond, t, el) => {
            lemma_merge_split(merge(expr_purity(*cond, c), expr_purity(*t, c)), expr_purity(*el, c), x);
            lemma_merge_split(expr_purity(*cond, c), expr_purity(*t, c), x);
            lemma_expr_resolves(*cond, c, x);
            lemma_expr_resolves(*t, c, x);
            lemma_expr_resolves(*el, c, x);
        },
        Term::Memoized(body) => lemma_expr_resolves(*body, c, x),
        Term::Pair(car, cdr) => {
            if *car != Term::<N, F>::Symbol(quote_name()) {
                lemma_chain_resolves(target_purity(*car, c), *cdr, c, x);
                lemma_target_resolves(*car, c, x);
            }
        },
        _ => {},
    }
}

/// A body that waits only on functions among `x` is pure once they are known
/// to be pure.
pub proof fn law_waiting_resolves<N, F>(e: Term<N, F>, c: PurityContext, x: Set<Seq<char>>)
    requires
        no_worse(expr_purity(e, c), Purity::Deferred(x)),
    ensures
        expr_purity(e, with_pure(c, x)) == Purity::Pure,
{
    lemma_expr_resolves(e, c, x);
}

/// For the same function, every function pure under `c1` is pure or waiting
/// under `c2`.
pub open spec fn keeps_open(c1: PurityContext, c2: PurityContext) -> bool {
    &&& c1.current == c2.current
    &&& forall|x: Seq<char>| #[trigger] c1.pure.contains(x) ==> c2.pure.contains(x) || c2.pending.contains(x)
}

/// The functions pure under `c1` that `c2` does not know to be pure, other
/// than the function being analysed.
pub open spec fn still_open(c1: PurityContext, c2: PurityContext) -> Set<Seq<char>> {
    c1.pure.difference(c2.pure).remove(c2.current)
}

proof fn lemma_target_bounded<N, F>(f: Term<N, F>, c1: PurityContext, c2: PurityContext)
    requires
        keeps_open(c1, c2),
        target_purity(f, c1) == Purity::Pure,
    ensures
        no_worse(target_purity(f, c2), Purity::Deferred(still_open(c1, c2))),
    decreases f,
{
    match f {
        Term::Lambda(_, body) => lemma_expr_bounded(*body, c1, c2),
        Term::Closure(_, body, _) => lemma_expr_bounded(*body, c1, c2),
        Term::Memoized(body) => lemma_expr_bounded(*body, c1, c2),
        Term::Symbol(name) => {
            if symbol_target_purity(name, c2) is Deferred {
                assert(still_open(c1, c2).contains(name));
                assert(Set::<Seq<char>>::empty().insert(name).subset_of(still_open(c1, c2)));
            }
        },
        _ => {},
    }
}

proof fn lemma_args_bounded<N, F>(
    st1: Purity,
    st2: Purity,
    s: Seq<Term<N, F>>,
    c1: PurityContext,
    c2: PurityContext,
)
    requires
        keeps_open(c1, c2),
        args_purity(st1, s, c1) == Purity::Pure,
        no_worse(st2, Purity::Deferred(still_open(c1, c2))),
    ensures
        no_worse(args_purity(st2, s, c2), Purity::Deferred(still_open(c1, c2))),
    decreases s,
{
    if s.len() > 0 {
        let a1 = merge(st1, expr_purity(s[0], c1));
        lemma_args_pure_stable(a1, s.subrange(1, s.len() as int), c1, c1);
        lemma_merge_pure_parts(st1, expr_purity(s[0], c1));
        lemma_expr_bounded(s[0], c1, c2);
        lemma_merge_within(st2, expr_purity(s[0], c2), still_open(c1, c2));
        lemma_args_bounded(a1, merge(st2, expr_purity(s[0], c2)), s.subrange(1, s.len() as int), c1, c2);
    }
}

proof fn lemma_chain_bounded<N, F>(
    st1: Purity,
    st2: Purity,
    rest: Term<N, F>,
    c1: PurityContext,
    c2: PurityContext,
)
    requires
        keeps_open(c1, c2),
        chain_purity(st1, rest, c1) == Purity::Pure,
        no_worse(st2, Purity::Deferred(still_open(c1, c2))),
    ensures
        no_worse(chain_purity(st2, rest, c2), Purity::Deferred(still_open(c1, c2))),
    decreases rest,
{
    if let Term::Pair(a, d) = rest {
        let a1 = merge(st1, expr_purity(*a, c1));
        lemma_chain_pure_stable(a1, *d, c1, c1);
        lemma_merge_pure_parts(st1, expr_purity(*a, c1));
        lemma_expr_bounded(*a, c1, c2);
        lemma_merge_within(st2, expr_purity(*a, c2), still_open(c1, c2));
        lemma_chain_bounded(a1, merge(st2, expr_purity(*a, c2)), *d, c1, c2);
    }
}

proof fn lemma_expr_bounded<N, F>(e: Term<N, F>, c1: PurityContext, c2: PurityContext)
    requires
        keeps_open(c1, c2),
        expr_purity(e, c1) == Purity::Pure,
    ensures
        no_worse(expr_purity(e, c2), Purity::Deferred(still_open(c1, c2))),
    decreases e,
{
    match e {
        Term::TailCall(f, args) => {
            if *f != Term::<N, F>::Symbol(quote_name()) {
                lemma_merge_pure_parts(target_purity(*f, c1), args_purity(Purity::Pure, args, c1));
                lemma_target_bounded(*f, c1, c2);
                lemma_args_bounded(Purity::Pure, Purity::Pure, args, c1, c2);
                lemma_merge_within(target_purity(*f, c2), args_purity(Purity::Pure, args, c2), still_open(c1, c2));
            }
        },
        Term::If(c, t, el) => {
            lemma_merge_pure_parts(merge(expr_purity(*c, c1), expr_purity(*t, c1)), expr_purity(*el, c1));
            lemma_merge_pure_parts(expr_purity(*c, c1), expr_purity(*t, c1));
            lemma_expr_bounded(*c, c1, c2);
            lemma_expr_bounded(*t, c1, c2);
            lemma_expr_bounded(*el, c1, c2);
            lemma_merge_within(expr_purity(*c, c2), expr_purity(*t, c2), still_open(c1, c2));
            lemma_merge_within(merge(expr_purity(*c, c2), expr_purity(*t, c2)), expr_purity(*el, c2), still_open(c1, c2));
        },
        Term::Memoized(body) => lemma_expr_bounded(*body, c1, c2),
        Term::Pair(car, cdr) => {
            if *car != Term::<N, F>::Symbol(quote_name()) {
                lemma_chain_pure_stable(target_purity(*car, c1), *cdr, c1, c1);
                lemma_target_bounded(*car, c1, c2);
                lemma_chain_bounded(target_purity(*car, c1), target_purity(*car, c2), *cdr, c1, c2);
            }
        },
        _ => {},
    }
}

/// A body that is pure under `c1` can under `c2` only be pure or wait on
/// functions pure under `c1` that `c2` does not know to be pure, never on
/// itself, as long as each function pure under `c1` is pure or waiting under
/// `c2`.
pub proof fn law_pure_stays_open<N, F>(e: Term<N, F>, c1: PurityContext, c2: PurityContext)
    requires
        keeps_open(c1, c2),
        expr_purity(e, c1) == Purity::Pure,
    ensures
        no_worse(expr_purity(e, c2), Purity::Deferred(still_open(c1, c2))),
{
    lemma_expr_bounded(e, c1, c2);
}

/// The names an analysis waits on: none for a pure or impure verdict.
pub open spec fn waits_for(p: Purity) -> Set<Seq<char>> {
    match p {
        Purity::Deferred(d) => d,
        _ => Set::empty(),
    }
}

/// An `if` is judged by all three of its parts, whichever branch would run:
/// its verdict is no better than that of its condition, of its then branch or
/// of its else branch; it is pure when all three are; and it waits only on
/// what they wait on.
pub proof fn law_if_judged_by_all_parts<N, F>(
    cond: Term<N, F>,
    then_branch: Term<N, F>,
    else_branch: Term<N, F>,
    ctx: PurityContext,
)
    ensures
        ({
            let whole = expr_purity(Term::If(Box::new(cond), Box::new(then_branch), Box::new(else_branch)), ctx);
            &&& no_worse(expr_purity(cond, ctx), whole)
            &&& no_worse(expr_purity(then_branch, ctx), whole)
            &&& no_worse(expr_purity(else_branch, ctx), whole)
            &&& (expr_purity(cond, ctx) == Purity::Pure && expr_purity(then_branch, ctx) == Purity::Pure
                && expr_purity(else_branch, ctx) == Purity::Pure ==> whole == Purity::Pure)
            &&& waits_for(whole).subset_of(
                waits_for(expr_purity(cond, ctx)).union(waits_for(expr_purity(then_branch, ctx))).union(
                    waits_for(expr_purity(else_branch, ctx)),
                ),
            )
        }),
{
    let a = expr_purity(cond, ctx);
    let b = expr_purity(then_branch, ctx);
    let c = expr_purity(else_branch, ctx);
    let ab = merge(a, b);
    lemma_merge_covers(a, b);
    lemma_merge_covers(ab, c);
    lemma_no_worse_trans(a, ab, merge(ab, c));
    lemma_no_worse_trans(b, ab, merge(ab, c));
}

proof fn lemma_merge_covers(a: Purity, b: Purity)
    ensures
        no_worse(a, merge(a, b)),
        no_worse(b, merge(a, b)),
        waits_for(merge(a, b)).subset_of(waits_for(a).union(waits_for(b))),
{
}

proof fn lemma_no_worse_trans(a: Purity, b: Purity, c: Purity)
    requires
        no_worse(a, b),
        no_worse(b, c),
    ensures
        no_worse(a, c),
{
}

proof fn lemma_args_covers<N, F>(st: Purity, args: Seq<Term<N, F>>, ctx: PurityContext)
    ensures
        no_worse(st, args_purity(st, args, ctx)),
        forall|i: int| 0 <= i < args.len() ==> no_worse(#[trigger] expr_purity(args[i], ctx), args_purity(st, args, ctx)),
        (st == Purity::Pure && forall|i: int| 0 <= i < args.len() ==> #[trigger] expr_purity(args[i], ctx) == Purity::Pure)
            ==> args_purity(st, args, ctx) == Purity::Pure,
    decreases args.len(),
{
    if args.len() > 0 {
        let st1 = merge(st, expr_purity(args[0], ctx));
        let rest = args.subrange(1, args.len() as int);
        lemma_merge_covers(st, expr_purity(args[0], ctx));
        lemma_args_covers(st1, rest, ctx);
        lemma_no_worse_trans(st, st1, args_purity(st1, rest, ctx));
        lemma_no_worse_trans(expr_purity(args[0], ctx), st1, args_purity(st1, rest, ctx));
        assert forall|i: int| 0 <= i < args.len() implies no_worse(
            #[trigger] expr_purity(args[i], ctx),
            args_purity(st, args, ctx),
        ) by {
            if i > 0 {
                assert(args[i] == rest[i - 1]);
            }
        }
        if st == Purity::Pure && forall|i: int| 0 <= i < args.len() ==> #[trigger] expr_purity(args[i], ctx)
            == Purity::Pure {
            assert forall|i: int| 0 <= i < rest.len() implies #[trigger] expr_purity(rest[i], ctx) == Purity::Pure by {
                assert(rest[i] == args[i + 1]);
            }
        }
    }
}

proof fn lemma_chain_covers<N, F>(st: Purity, rest: Term<N, F>, ctx: PurityContext)
    ensures
        no_worse(st, chain_purity(st, rest, ctx)),
        forall|i: int| 0 <= i < chain_cars(rest).len() ==> no_worse(
            #[trigger] expr_purity(chain_cars(rest)[i], ctx),
            chain_purity(st, rest, ctx),
        ),
        (st == Purity::Pure && is_proper(rest) && forall|i: int| 0 <= i < chain_cars(rest).len()
            ==> #[trigger] expr_purity(chain_cars(rest)[i], ctx) == Purity::Pure) ==> chain_purity(st, rest, ctx)
            == Purity::Pure,
        !is_proper(rest) ==> chain_purity(st, rest, ctx) == Purity::Impure,
    decreases rest,
{
    if let Term::Pair(a, d) = rest {
        let st1 = merge(st, expr_purity(*a, ctx));
        lemma_merge_covers(st, expr_purity(*a, ctx));
        lemma_chain_covers(st1, *d, ctx);
        lemma_no_worse_trans(st, st1, chain_purity(st1, *d, ctx));
        lemma_no_worse_trans(expr_purity(*a, ctx), st1, chain_purity(st1, *d, ctx));
        assert(chain_cars(rest) == seq![*a] + chain_cars(*d));
        assert forall|i: int| 0 <= i < chain_cars(rest).len() implies no_worse(
            #[trigger] expr_purity(chain_cars(rest)[i], ctx),
            chain_purity(st, rest, ctx),
        ) by {
            if i > 0 {
                assert(chain_cars(rest)[i] == chain_cars(*d)[i - 1]);
            }
        }
        if st == Purity::Pure && is_proper(rest) && forall|i: int| 0 <= i < chain_cars(rest).len()
            ==> #[trigger] expr_purity(chain_cars(rest)[i], ctx) == Purity::Pure {
            assert(chain_end(rest) == chain_end(*d));
            assert(is_proper(*d));
            assert(chain_cars(rest)[0] == *a);
            assert(st1 == Purity::Pure);
            assert forall|i: int| 0 <= i < chain_cars(*d).len() implies #[trigger] expr_purity(chain_cars(*d)[i], ctx)
                == Purity::Pure by {
                assert(chain_cars(*d)[i] == chain_cars(rest)[i + 1]);
            }
        }
        assert(chain_end(rest) == chain_end(*d));
    }
}

/// A call is judged by what it calls and by every argument: its verdict is no
/// better than that of the called function or of any argument, and it is pure
/// when all of them are. This holds of a call in tail position and of any
/// other call but `quote`, which is always pure; a call whose argument list
/// does not end in nil is impure.
pub proof fn law_call_judged_by_all_parts<N, F>(func: Term<N, F>, args: Seq<Term<N, F>>, rest: Term<N, F>, ctx: PurityContext)
    requires
        func != Term::<N, F>::Symbol(quote_name()),
    ensures
        ({
            let whole = expr_purity(Term::TailCall(Box::new(func), args), ctx);
            &&& no_worse(target_purity(func, ctx), whole)
            &&& forall|i: int| 0 <= i < args.len() ==> no_worse(#[trigger] expr_purity(args[i], ctx), whole)
            &&& (target_purity(func, ctx) == Purity::Pure && forall|i: int| 0 <= i < args.len()
                ==> #[trigger] expr_purity(args[i], ctx) == Purity::Pure) ==> whole == Purity::Pure
        }),
        ({
            let whole = expr_purity(Term::Pair(Box::new(func), Box::new(rest)), ctx);
            &&& no_worse(target_purity(func, ctx), whole)
            &&& forall|i: int| 0 <= i < chain_cars(rest).len() ==> no_worse(
                #[trigger] expr_purity(chain_cars(rest)[i], ctx),
                whole,
            )
            &&& (target_purity(func, ctx) == Purity::Pure && is_proper(rest) && forall|i: int|
                0 <= i < chain_cars(rest).len() ==> #[trigger] expr_purity(chain_cars(rest)[i], ctx) == Purity::Pure)
                ==> whole == Purity::Pure
            &&& !is_proper(rest) ==> whole == Purity::Impure
        }),
{
    let t = target_purity(func, ctx);
    let ap = args_purity(Purity::Pure, args, ctx);
    lemma_args_covers(Purity::Pure, args, ctx);
    lemma_merge_covers(t, ap);
    assert forall|i: int| 0 <= i < args.len() implies no_worse(
        #[trigger] expr_purity(args[i], ctx),
        expr_purity(Term::TailCall(Box::new(func), args), ctx),
    ) by {
        lemma_no_worse_trans(expr_purity(args[i], ctx), ap, merge(t, ap));
    }
    lemma_chain_covers(t, rest, ctx);
}

/// Calling a function that is defined, is not the function being analysed,
/// and is neither known to be pure nor waiting, makes the caller impure; so
/// do `define` and `eval`. A name that is not defined, or waits, makes the
/// caller wait on it unless something else makes it impure.
pub proof fn law_calling_a_known_impure_function<N, F>(name: Seq<char>, args: Seq<Term<N, F>>, rest: Term<N, F>, ctx: PurityContext)
    requires
        name != quote_name(),
        (name == define_name() || name == eval_name()) || (ctx.known.contains(name) && !ctx.pure.contains(name)
            && !ctx.pending.contains(name) && name != ctx.current),
    ensures
        expr_purity(Term::TailCall(Box::new(Term::Symbol(name)), args), ctx) == Purity::Impure,
        expr_purity(Term::Pair(Box::new(Term::Symbol(name)), Box::new(rest)), ctx) == Purity::Impure,
{
    assert(Term::<N, F>::Symbol(name) != Term::<N, F>::Symbol(quote_name()));
    law_call_judged_by_all_parts(Term::<N, F>::Symbol(name), args, rest, ctx);
}

/// What needs no look inside: a literal, a variable, a function value or a
/// `lambda` is pure, and so is any quoted form; an error value is impure; a
/// memoized body is judged as the body itself.
pub proof fn law_leaves_and_quote<N, F>(e: Term<N, F>, rest: Term<N, F>, args: Seq<Term<N, F>>, ctx: PurityContext)
    ensures
        (e is Number || e is Str || e is Bool || e is Nil || e is LocalVar || e is Symbol || e is Function
            || e is Lambda || e is Closure) ==> expr_purity(e, ctx) == Purity::Pure,
        e is Error ==> expr_purity(e, ctx) == Purity::Impure,
        expr_purity(Term::Memoized(Box::new(e)), ctx) == expr_purity(e, ctx),
        expr_purity(Term::Pair(Box::new(Term::Symbol(quote_name())), Box::new(rest)), ctx) == Purity::Pure,
        expr_purity(Term::TailCall(Box::new(Term::Symbol(quote_name())), args), ctx) == Purity::Pure,
{
}

/// The verdict on a call of the global `name`, as a call target: `quote` is pure;
/// `define` and `eval` are impure; the function being analysed and functions
/// known to be pure are pure; a function that waits, or a name not defined,
/// is waited on; any other defined function is impure.
pub proof fn law_call_target_verdict<N, F>(name: Seq<char>, ctx: PurityContext)
    ensures
        ({
            let v = target_purity(Term::<N, F>::Symbol(name), ctx);
            let special = name == quote_name() || name == define_name() || name == eval_name();
            &&& name == quote_name() ==> v == Purity::Pure
            &&& (name != quote_name() && (name == define_name() || name == eval_name())) ==> v == Purity::Impure
            &&& (!special && (name == ctx.current || ctx.pure.contains(name))) ==> v == Purity::Pure
            &&& (!special && name != ctx.current && !ctx.pure.contains(name) && (ctx.pending.contains(name)
                || !ctx.known.contains(name))) ==> v == Purity::Deferred(Set::empty().insert(name))
            &&& (!special && name != ctx.current && !ctx.pure.contains(name) && !ctx.pending.contains(name)
                && ctx.known.contains(name)) ==> v == Purity::Impure
        }),
{
}

} // verus!
