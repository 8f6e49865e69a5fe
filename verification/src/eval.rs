use vstd::prelude::*;
use std::rc::Rc;
use crate::compiler::{define_name, string_is};
use crate::parser::quote_name;
use crate::profiler::Profiler;
use crate::runtime_env::{EnvState, RuntimeEnv, clone_frames, lemma_same_frames_model};
use crate::value::{
    Term,
    Value,
    chain_cars,
    lemma_model_seq_len,
    lemma_model_seq_push,
    model,
    model_frames,
    model_seq,
    term_list,
    truthy,
};

verus! {

// The evaluator is a machine that takes one small step at a time. Each step
// either goes on by itself (`Continue`), or hands the caller some work that
// only the caller can do: calling a built-in function, or reading and writing
// the memo table of a memoized body. The caller does that work and hands the
// outcome back as the next event. A program need not terminate, so the loop
// that drives the machine belongs to the caller.

/// Why an evaluation failed.
#[derive(Debug)]
pub enum EvalError<N, F, M> {
    /// No local variable at this depth and index.
    LocalNotFound { depth: usize, index: usize },
    /// A symbol with no global binding.
    UndefinedSymbol(String),
    /// `define` or `quote` in call position while that name is unbound.
    SpecialFormMissing(String),
    /// A closure applied to the wrong number of arguments.
    ArityMismatch { expected: usize, got: usize },
    /// A value that is neither a closure nor a function in call position.
    NotCallable(Rc<Value<N, F, M>>),
    /// An error value was evaluated.
    Raised(String),
    /// A built-in function failed with this message.
    Builtin(String),
}

/// Mathematical model of an evaluation error.
pub enum ErrorState<N, F> {
    LocalNotFound(nat, nat),
    UndefinedSymbol(Seq<char>),
    SpecialFormMissing(Seq<char>),
    ArityMismatch(nat, nat),
    NotCallable(Term<N, F>),
    Raised(Seq<char>),
    Builtin(Seq<char>),
}

/// What the machine is doing.
pub enum Mode<N, F, M> {
    /// Evaluating an expression.
    Eval(Rc<Value<N, F, M>>),
    /// Handing a value to the innermost waiting frame.
    Return(Rc<Value<N, F, M>>),
    /// Handing an error outwards, frame by frame.
    Unwind(EvalError<N, F, M>),
    /// Waiting for the result of a built-in function.
    AwaitCall,
    /// Waiting for what the memo table of `memo` holds for `key`.
    AwaitMemo { memo: Rc<Value<N, F, M>>, body: Rc<Value<N, F, M>>, key: Vec<Rc<Value<N, F, M>>> },
    /// Finished.
    Halted,
}

/// Mathematical model of a mode.
pub enum ModeState<N, F> {
    Eval(Term<N, F>),
    Return(Term<N, F>),
    Unwind(ErrorState<N, F>),
    AwaitCall,
    AwaitMemo(Term<N, F>, Term<N, F>, Seq<Term<N, F>>),
    Halted,
}

/// A frame that waits for a value.
pub enum Kont<N, F, M> {
    /// The condition of an `if`: then the branch it picks.
    Branch { then_branch: Rc<Value<N, F, M>>, else_branch: Rc<Value<N, F, M>> },
    /// The function of a tail call, with its argument expressions.
    TailFunc { args: Vec<Rc<Value<N, F, M>>> },
    /// An argument of a tail call; `done` holds the arguments evaluated so far.
    TailArgs {
        func: Rc<Value<N, F, M>>,
        args: Vec<Rc<Value<N, F, M>>>,
        done: Vec<Rc<Value<N, F, M>>>,
    },
    /// The function of a call, with the list of its argument expressions.
    CallFunc { rest: Rc<Value<N, F, M>> },
    /// An argument of a call; `rest` is the list of the arguments after it.
    CallArgs { func: Rc<Value<N, F, M>>, rest: Rc<Value<N, F, M>>, done: Vec<Rc<Value<N, F, M>>> },
    /// The body of an applied closure: then the caller's frames come back.
    Restore { saved: Vec<Vec<Rc<Value<N, F, M>>>> },
    /// The body of a memoized function: then its result is stored.
    Store { memo: Rc<Value<N, F, M>>, key: Vec<Rc<Value<N, F, M>>> },
}

/// Mathematical model of a waiting frame.
pub enum KontState<N, F> {
    Branch(Term<N, F>, Term<N, F>),
    TailFunc(Seq<Term<N, F>>),
    TailArgs(Term<N, F>, Seq<Term<N, F>>, Seq<Term<N, F>>),
    CallFunc(Term<N, F>),
    CallArgs(Term<N, F>, Term<N, F>, Seq<Term<N, F>>),
    Restore(Seq<Seq<Term<N, F>>>),
    Store(Term<N, F>, Seq<Term<N, F>>),
}

/// What the caller hands to the next step.
#[derive(Debug)]
pub enum EvalEvent<N, F, M> {
    /// Nothing: the last step asked for no outside work, or the work needs no answer.
    Resume,
    /// The built-in function returned this value.
    Returned(Rc<Value<N, F, M>>),
    /// The built-in function failed with this message.
    Raised(String),
    /// The memo table holds this value for the key.
    MemoHit(Rc<Value<N, F, M>>),
    /// The memo table holds nothing for the key.
    MemoMiss,
}

/// Mathematical model of an event.
pub enum EventState<N, F> {
    Resume,
    Returned(Term<N, F>),
    Raised(Seq<char>),
    MemoHit(Term<N, F>),
    MemoMiss,
}

/// What a step asks of the caller.
#[derive(Debug)]
pub enum EvalAction<N, F, M> {
    /// Take the next step.
    Continue,
    /// The expression evaluated to this value.
    Done(Rc<Value<N, F, M>>),
    /// The evaluation failed.
    Fail(EvalError<N, F, M>),
    /// Call the built-in function `callee` on `args` and hand back its result.
    Call { callee: Rc<Value<N, F, M>>, args: Vec<Rc<Value<N, F, M>>> },
    /// Look `key` up in the memo table of `memo` and hand back what it holds.
    MemoLookup { memo: Rc<Value<N, F, M>>, key: Vec<Rc<Value<N, F, M>>> },
    /// Store `value` under `key` in the memo table of `memo`.
    MemoStore { memo: Rc<Value<N, F, M>>, key: Vec<Rc<Value<N, F, M>>>, value: Rc<Value<N, F, M>> },
}

/// Mathematical model of an action.
pub enum ActionState<N, F> {
    Continue,
    Done(Term<N, F>),
    Fail(ErrorState<N, F>),
    Call(Term<N, F>, Seq<Term<N, F>>),
    MemoLookup(Term<N, F>, Seq<Term<N, F>>),
    MemoStore(Term<N, F>, Seq<Term<N, F>>, Term<N, F>),
}

/// The evaluator of one expression.
pub struct EvalMachine<N, F, M> {
    mode: Mode<N, F, M>,
    stack: Vec<Kont<N, F, M>>,
}

/// Mathematical model of the evaluator: its mode and its waiting frames,
/// innermost last.
pub struct MachineState<N, F> {
    pub mode: ModeState<N, F>,
    pub stack: Seq<KontState<N, F>>,
}

impl<N, F, M> View for EvalError<N, F, M> {
    type V = ErrorState<N, F>;

    open spec fn view(&self) -> ErrorState<N, F> {
        match self {
            EvalError::LocalNotFound { depth, index } => ErrorState::LocalNotFound(
                *depth as nat,
                *index as nat,
            ),
            EvalError::UndefinedSymbol(s) => ErrorState::UndefinedSymbol(s@),
            EvalError::SpecialFormMissing(s) => ErrorState::SpecialFormMissing(s@),
            EvalError::ArityMismatch { expected, got } => ErrorState::ArityMismatch(
                *expected as nat,
                *got as nat,
            ),
            EvalError::NotCallable(v) => ErrorState::NotCallable(v@),
            EvalError::Raised(s) => ErrorState::Raised(s@),
            EvalError::Builtin(s) => ErrorState::Builtin(s@),
        }
    }
}

impl<N, F, M> View for Mode<N, F, M> {
    type V = ModeState<N, F>;

    open spec fn view(&self) -> ModeState<N, F> {
        match self {
            Mode::Eval(e) => ModeState::Eval(e@),
            Mode::Return(v) => ModeState::Return(v@),
            Mode::Unwind(err) => ModeState::Unwind(err@),
            Mode::AwaitCall => ModeState::AwaitCall,
            Mode::AwaitMemo { memo, body, key } => ModeState::AwaitMemo(
                memo@,
                body@,
                model_seq(key@),
            ),
            Mode::Halted => ModeState::Halted,
        }
    }
}

impl<N, F, M> View for Kont<N, F, M> {
    type V = KontState<N, F>;

    open spec fn view(&self) -> KontState<N, F> {
        match self {
            Kont::Branch { then_branch, else_branch } => KontState::Branch(
                then_branch@,
                else_branch@,
            ),
            Kont::TailFunc { args } => KontState::TailFunc(model_seq(args@)),
            Kont::TailArgs { func, args, done } => KontState::TailArgs(
                func@,
                model_seq(args@),
                model_seq(done@),
            ),
            Kont::CallFunc { rest } => KontState::CallFunc(rest@),
            Kont::CallArgs { func, rest, done } => KontState::CallArgs(
                func@,
                rest@,
                model_seq(done@),
            ),
            Kont::Restore { saved } => KontState::Restore(model_frames(saved@)),
            Kont::Store { memo, key } => KontState::Store(memo@, model_seq(key@)),
        }
    }
}

impl<N, F, M> View for EvalEvent<N, F, M> {
    type V = EventState<N, F>;

    open spec fn view(&self) -> EventState<N, F> {
        match self {
            EvalEvent::Resume => EventState::Resume,
            EvalEvent::Returned(v) => EventState::Returned(v@),
            EvalEvent::Raised(s) => EventState::Raised(s@),
            EvalEvent::MemoHit(v) => EventState::MemoHit(v@),
            EvalEvent::MemoMiss => EventState::MemoMiss,
        }
    }
}

impl<N, F, M> View for EvalAction<N, F, M> {
    type V = ActionState<N, F>;

    open spec fn view(&self) -> ActionState<N, F> {
        match self {
            EvalAction::Continue => ActionState::Continue,
            EvalAction::Done(v) => ActionState::Done(v@),
            EvalAction::Fail(err) => ActionState::Fail(err@),
            EvalAction::Call { callee, args } => ActionState::Call(callee@, model_seq(args@)),
            EvalAction::MemoLookup { memo, key } => ActionState::MemoLookup(
                memo@,
                model_seq(key@),
            ),
            EvalAction::MemoStore { memo, key, value } => ActionState::MemoStore(
                memo@,
                model_seq(key@),
                value@,
            ),
        }
    }
}

/// The models of a sequence of frames.
pub open spec fn stack_view<N, F, M>(s: Seq<Kont<N, F, M>>) -> Seq<KontState<N, F>> {
    s.map_values(|k: Kont<N, F, M>| k@)
}

impl<N, F, M> View for EvalMachine<N, F, M> {
    type V = MachineState<N, F>;

    closed spec fn view(&self) -> MachineState<N, F> {
        MachineState { mode: self.mode@, stack: stack_view(self.stack@) }
    }
}

// ---------------------------------------------------------------------------
// The rules of a step, over the models.

/// The result of a step that asks for no outside work.
pub open spec fn proceed<N, F>(mode: ModeState<N, F>, stack: Seq<KontState<N, F>>, s: EnvState<N, F>) -> (
    MachineState<N, F>,
    EnvState<N, F>,
    ActionState<N, F>,
) {
    (MachineState { mode, stack }, s, ActionState::Continue)
}

/// The state `s` with the local frames `locals`.
pub open spec fn with_locals<N, F>(s: EnvState<N, F>, locals: Seq<Seq<Term<N, F>>>) -> EnvState<N, F> {
    EnvState { locals, ..s }
}

/// The state `s` with the counters `profile`.
pub open spec fn with_profile<N, F>(s: EnvState<N, F>, profile: Profiler) -> EnvState<N, F> {
    EnvState { profile, ..s }
}

/// `s` with one more tail call counted.
pub open spec fn count_tail_call<N, F>(s: EnvState<N, F>) -> EnvState<N, F> {
    with_profile(s, Profiler { tail_calls_optimized: (s.profile.tail_calls_optimized + 1) as usize, ..s.profile })
}

/// `s` with one more memo hit counted.
pub open spec fn count_memo_hit<N, F>(s: EnvState<N, F>) -> EnvState<N, F> {
    with_profile(s, Profiler { memo_cache_hits: (s.profile.memo_cache_hits + 1) as usize, ..s.profile })
}

/// `s` with one more memo miss counted.
pub open spec fn count_memo_miss<N, F>(s: EnvState<N, F>) -> EnvState<N, F> {
    with_profile(s, Profiler { memo_cache_misses: (s.profile.memo_cache_misses + 1) as usize, ..s.profile })
}

/// The local variable at `index` in the frame `depth` levels out from the innermost.
pub open spec fn local_value<N, F>(s: EnvState<N, F>, depth: nat, index: nat) -> Option<Term<N, F>> {
    if depth < s.locals.len() && index < s.locals[s.locals.len() - 1 - depth].len() {
        Some(s.locals[s.locals.len() - 1 - depth][index as int])
    } else {
        None
    }
}

/// Applies `func` to the values `args`. A tail call replaces the local frames;
/// another call saves them, to come back when the body has returned.
pub open spec fn apply_spec<N, F>(
    func: Term<N, F>,
    args: Seq<Term<N, F>>,
    tail: bool,
    stack: Seq<KontState<N, F>>,
    s: EnvState<N, F>,
) -> (MachineState<N, F>, EnvState<N, F>, ActionState<N, F>) {
    match func {
        Term::Function(_) => (
            MachineState { mode: ModeState::AwaitCall, stack },
            s,
            ActionState::Call(func, args),
        ),
        Term::Closure(n, body, captured) => if args.len() != n {
            proceed(ModeState::Unwind(ErrorState::ArityMismatch(n, args.len())), stack, s)
        } else if tail {
            proceed(ModeState::Eval(*body), stack, with_locals(s, captured.push(args)))
        } else {
            proceed(
                ModeState::Eval(*body),
                stack.push(KontState::Restore(s.locals)),
                with_locals(s, captured.push(args)),
            )
        },
        _ => proceed(ModeState::Unwind(ErrorState::NotCallable(func)), stack, s),
    }
}

/// A list whose head is the symbol `define` or `quote`.
pub open spec fn special_form_name<N, F>(head: Term<N, F>) -> Option<Seq<char>> {
    match head {
        Term::Symbol(name) => if name == define_name() || name == quote_name() {
            Some(name)
        } else {
            None
        },
        _ => None,
    }
}

/// Evaluating a list: `define` and `quote` get their arguments unevaluated
/// when their global binding is a function; any other list is a call.
pub open spec fn eval_pair_spec<N, F>(
    head: Term<N, F>,
    rest: Term<N, F>,
    stack: Seq<KontState<N, F>>,
    s: EnvState<N, F>,
) -> (MachineState<N, F>, EnvState<N, F>, ActionState<N, F>) {
    let call = proceed(ModeState::Eval(head), stack.push(KontState::CallFunc(rest)), s);
    match special_form_name(head) {
        Some(name) => if !s.globals.contains_key(name) {
            proceed(ModeState::Unwind(ErrorState::SpecialFormMissing(name)), stack, s)
        } else if s.globals[name] is Function {
            (
                MachineState { mode: ModeState::AwaitCall, stack },
                s,
                ActionState::Call(s.globals[name], chain_cars(rest)),
            )
        } else {
            call
        },
        None => call,
    }
}

/// One step on the expression `t`.
pub open spec fn eval_expr_spec<N, F>(t: Term<N, F>, stack: Seq<KontState<N, F>>, s: EnvState<N, F>) -> (
    MachineState<N, F>,
    EnvState<N, F>,
    ActionState<N, F>,
) {
    match t {
        Term::LocalVar(depth, index) => match local_value(s, depth, index) {
            Some(v) => proceed(ModeState::Return(v), stack, s),
            None => proceed(ModeState::Unwind(ErrorState::LocalNotFound(depth, index)), stack, s),
        },
        Term::Symbol(name) => if s.globals.contains_key(name) {
            proceed(ModeState::Return(s.globals[name]), stack, s)
        } else {
            proceed(ModeState::Unwind(ErrorState::UndefinedSymbol(name)), stack, s)
        },
        Term::Lambda(n, body) => proceed(ModeState::Return(Term::Closure(n, body, s.locals)), stack, s),
        Term::TailCall(func, args) => proceed(
            ModeState::Eval(*func),
            stack.push(KontState::TailFunc(args)),
            count_tail_call(s),
        ),
        Term::If(cond, then_branch, else_branch) => proceed(
            ModeState::Eval(*cond),
            stack.push(KontState::Branch(*then_branch, *else_branch)),
            s,
        ),
        Term::Memoized(body) => (
            MachineState { mode: ModeState::AwaitMemo(t, *body, s.locals.last()), stack },
            s,
            ActionState::MemoLookup(t, s.locals.last()),
        ),
        Term::Pair(head, rest) => eval_pair_spec(*head, *rest, stack, s),
        Term::Error(msg) => proceed(ModeState::Unwind(ErrorState::Raised(msg)), stack, s),
        _ => proceed(ModeState::Return(t), stack, s),
    }
}

/// One step handing the value `v` to the innermost waiting frame.
pub open spec fn return_spec<N, F>(v: Term<N, F>, stack: Seq<KontState<N, F>>, s: EnvState<N, F>) -> (
    MachineState<N, F>,
    EnvState<N, F>,
    ActionState<N, F>,
) {
    if stack.len() == 0 {
        (MachineState { mode: ModeState::Halted, stack }, s, ActionState::Done(v))
    } else {
        let rest = stack.drop_last();
        match stack.last() {
            KontState::Branch(then_branch, else_branch) => proceed(
                ModeState::Eval(if truthy(v) { then_branch } else { else_branch }),
                rest,
                s,
            ),
            KontState::TailFunc(args) => if args.len() == 0 {
                apply_spec(v, Seq::empty(), true, rest, s)
            } else {
                proceed(ModeState::Eval(args[0]), rest.push(KontState::TailArgs(v, args, Seq::empty())), s)
            },
            KontState::TailArgs(func, args, done) => {
                let done2 = done.push(v);
                if done2.len() < args.len() {
                    proceed(
                        ModeState::Eval(args[done2.len() as int]),
                        rest.push(KontState::TailArgs(func, args, done2)),
                        s,
                    )
                } else {
                    apply_spec(func, done2, true, rest, s)
                }
            },
            KontState::CallFunc(list) => match list {
                Term::Pair(a, d) => proceed(
                    ModeState::Eval(*a),
                    rest.push(KontState::CallArgs(v, *d, Seq::empty())),
                    s,
                ),
                _ => apply_spec(v, Seq::empty(), false, rest, s),
            },
            KontState::CallArgs(func, list, done) => {
                let done2 = done.push(v);
                match list {
                    Term::Pair(a, d) => proceed(
                        ModeState::Eval(*a),
                        rest.push(KontState::CallArgs(func, *d, done2)),
                        s,
                    ),
                    _ => apply_spec(func, done2, false, rest, s),
                }
            },
            KontState::Restore(saved) => proceed(ModeState::Return(v), rest, with_locals(s, saved)),
            KontState::Store(memo, key) => (
                MachineState { mode: ModeState::Return(v), stack: rest },
                s,
                ActionState::MemoStore(memo, key, v),
            ),
        }
    }
}

/// One step handing the error `err` outwards: the frames of a caller come back
/// on the way.
pub open spec fn unwind_spec<N, F>(err: ErrorState<N, F>, stack: Seq<KontState<N, F>>, s: EnvState<N, F>) -> (
    MachineState<N, F>,
    EnvState<N, F>,
    ActionState<N, F>,
) {
    if stack.len() == 0 {
        (MachineState { mode: ModeState::Halted, stack }, s, ActionState::Fail(err))
    } else {
        match stack.last() {
            KontState::Restore(saved) => proceed(
                ModeState::Unwind(err),
                stack.drop_last(),
                with_locals(s, saved),
            ),
            _ => proceed(ModeState::Unwind(err), stack.drop_last(), s),
        }
    }
}

/// The events each mode takes: an outcome where it waits for one, `Resume`
/// otherwise; a finished machine takes none.
pub open spec fn accepts<N, F>(m: MachineState<N, F>, e: EventState<N, F>) -> bool {
    match m.mode {
        ModeState::AwaitCall => e is Returned || e is Raised,
        ModeState::AwaitMemo(..) => e is MemoHit || e is MemoMiss,
        ModeState::Halted => false,
        _ => e is Resume,
    }
}

/// One step of the evaluator: the next machine, the next state of the
/// environment, and what the caller is asked to do.
pub open spec fn eval_step_spec<N, F>(m: MachineState<N, F>, s: EnvState<N, F>, e: EventState<N, F>) -> (
    MachineState<N, F>,
    EnvState<N, F>,
    ActionState<N, F>,
) {
    match m.mode {
        ModeState::Eval(t) => eval_expr_spec(t, m.stack, s),
        ModeState::Return(v) => return_spec(v, m.stack, s),
        ModeState::Unwind(err) => unwind_spec(err, m.stack, s),
        ModeState::AwaitCall => match e {
            EventState::Returned(v) => proceed(ModeState::Return(v), m.stack, s),
            EventState::Raised(msg) => proceed(ModeState::Unwind(ErrorState::Builtin(msg)), m.stack, s),
            _ => (m, s, ActionState::Continue),
        },
        ModeState::AwaitMemo(memo, body, key) => match e {
            EventState::MemoHit(v) => proceed(ModeState::Return(v), m.stack, count_memo_hit(s)),
            EventState::MemoMiss => proceed(
                ModeState::Eval(body),
                m.stack.push(KontState::Store(memo, key)),
                count_memo_miss(s),
            ),
            _ => (m, s, ActionState::Continue),
        },
        ModeState::Halted => (m, s, ActionState::Continue),
    }
}


/// Why a step cannot be taken.
#[derive(Debug, Clone, Copy, PartialEq, Eq)]
pub enum StepFault {
    /// A counter, or the frame index of a local variable, has no room for one more.
    Overflow,
    /// A memoized body is evaluated outside any function call.
    NoLocalFrame,
}

/// The steps that cannot be taken: a local variable whose frame index
/// `depth + 1` overflows, a memoized body outside any function call, and a
/// counter that has no room for one more.
pub open spec fn step_fault<N, F>(m: MachineState<N, F>, s: EnvState<N, F>, e: EventState<N, F>) -> Option<StepFault> {
    match m.mode {
        ModeState::Eval(t) => match t {
            Term::LocalVar(depth, _) => if depth >= usize::MAX {
                Some(StepFault::Overflow)
            } else {
                None
            },
            Term::TailCall(..) => if s.profile.tail_calls_optimized == usize::MAX {
                Some(StepFault::Overflow)
            } else {
                None
            },
            Term::Memoized(_) => if s.locals.len() == 0 {
                Some(StepFault::NoLocalFrame)
            } else {
                None
            },
            _ => None,
        },
        ModeState::AwaitMemo(..) => match e {
            EventState::MemoHit(_) => if s.profile.memo_cache_hits == usize::MAX {
                Some(StepFault::Overflow)
            } else {
                None
            },
            EventState::MemoMiss => if s.profile.memo_cache_misses == usize::MAX {
                Some(StepFault::Overflow)
            } else {
                None
            },
            _ => None,
        },
        _ => None,
    }
}

pub proof fn lemma_model_frames<N, F, M>(f: Seq<Vec<Rc<Value<N, F, M>>>>)
    ensures
        model_frames(f).len() == f.len(),
        forall|i: int| 0 <= i < f.len() ==> #[trigger] model_frames(f)[i] == model_seq(f[i]@),
    decreases f.len(),
{
    if f.len() > 0 {
        lemma_model_frames(f.drop_last());
    }
}

proof fn lemma_model_frames_push<N, F, M>(f: Seq<Vec<Rc<Value<N, F, M>>>>, x: Vec<Rc<Value<N, F, M>>>)
    ensures
        model_frames(f.push(x)) == model_frames(f).push(model_seq(x@)),
{
    assert(f.push(x).drop_last() =~= f);
}

proof fn lemma_stack_push<N, F, M>(s: Seq<Kont<N, F, M>>, k: Kont<N, F, M>)
    ensures
        stack_view(s.push(k)) == stack_view(s).push(k@),
{
    assert(stack_view(s.push(k)) =~= stack_view(s).push(k@));
}

proof fn lemma_stack_pop<N, F, M>(s: Seq<Kont<N, F, M>>)
    requires
        s.len() > 0,
    ensures
        stack_view(s.drop_last()) == stack_view(s).drop_last(),
        stack_view(s).last() == s.last()@,
        stack_view(s).len() == s.len(),
{
    assert(stack_view(s.drop_last()) =~= stack_view(s).drop_last());
}

/// A copy of `values`.
fn copy_values<N, F, M>(values: &Vec<Rc<Value<N, F, M>>>) -> (r: Vec<Rc<Value<N, F, M>>>)
    ensures
        r@ == values@,
{
    let mut copy: Vec<Rc<Value<N, F, M>>> = Vec::new();
    let mut j: usize = 0;
    while j < values.len()
        invariant
            0 <= j <= values@.len(),
            copy@ == values@.subrange(0, j as int),
        decreases values@.len() - j,
    {
        copy.push(values[j].clone());
        assert(copy@ =~= values@.subrange(0, j + 1));
        j += 1;
    }
    assert(copy@ =~= values@);
    copy
}

impl<N, F, M> EvalMachine<N, F, M> {
    /// A machine about to evaluate `expr`.
    pub fn new(expr: Rc<Value<N, F, M>>) -> (m: Self)
        ensures
            m@ == (MachineState { mode: ModeState::Eval(expr@), stack: Seq::<KontState<N, F>>::empty() }),
    {
        let m = EvalMachine { mode: Mode::Eval(expr), stack: Vec::new() };
        assert(stack_view(m.stack@) =~= Seq::<KontState<N, F>>::empty());
        m
    }

    /// Applies `func` to `args`.
    fn apply(
        &mut self,
        env: &mut RuntimeEnv<N, F, M>,
        func: Rc<Value<N, F, M>>,
        args: Vec<Rc<Value<N, F, M>>>,
        tail: bool,
    ) -> (action: EvalAction<N, F, M>)
        requires
            old(env).wf(),
        ensures
            final(env).wf(),
            (final(self)@, final(env).state(), action@) == apply_spec(
                func@,
                model_seq(args@),
                tail,
                old(self)@.stack,
                old(env).state(),
            ),
    {
        proof {
            lemma_model_seq_len(args@);
        }
        match &*func {
            Value::Function(_) => {
                self.mode = Mode::AwaitCall;
                EvalAction::Call { callee: func.clone(), args }
            },
            Value::Closure { params_count, body, captured } => {
                if args.len() != *params_count {
                    self.mode = Mode::Unwind(
                        EvalError::ArityMismatch { expected: *params_count, got: args.len() },
                    );
                    return EvalAction::Continue;
                }
                let mut new_locals = clone_frames(captured);
                proof {
                    lemma_same_frames_model(new_locals@, captured@);
                    lemma_model_frames_push(new_locals@, args);
                }
                new_locals.push(args);
                if !tail {
                    let saved = env.get_locals_clone();
                    proof {
                        lemma_same_frames_model(saved@, env.locals());
                    }
                    let k = Kont::Restore { saved };
                    proof {
                        lemma_stack_push(self.stack@, k);
                    }
                    self.stack.push(k);
                }
                env.set_locals(new_locals);
                self.mode = Mode::Eval(body.clone());
                EvalAction::Continue
            },
            _ => {
                self.mode = Mode::Unwind(EvalError::NotCallable(func.clone()));
                EvalAction::Continue
            },
        }
    }

    /// One step on the expression `expr`.
    fn eval_expr(&mut self, env: &mut RuntimeEnv<N, F, M>, expr: Rc<Value<N, F, M>>) -> (action: EvalAction<N, F, M>)
        requires
            old(env).wf(),
            step_fault(
                MachineState { mode: ModeState::Eval(expr@), stack: old(self)@.stack },
                old(env).state(),
                EventState::Resume,
            ) is None,
        ensures
            final(env).wf(),
            (final(self)@, final(env).state(), action@) == eval_expr_spec(expr@, old(self)@.stack, old(env).state()),
    {
        proof {
            lemma_model_frames(env.locals());
        }
        match &*expr {
            Value::LocalVar(depth, index) => {
                match env.lookup_local(*depth, *index) {
                    Some(v) => {
                        proof {
                            let k = env.locals().len() - 1 - *depth;
                            lemma_model_seq_len(env.locals()[k]@);
                        }
                        self.mode = Mode::Return(v);
                    },
                    None => {
                        proof {
                            if (*depth as int) < env.locals().len() {
                                let k = env.locals().len() - 1 - *depth;
                                lemma_model_seq_len(env.locals()[k]@);
                            }
                        }
                        self.mode = Mode::Unwind(EvalError::LocalNotFound { depth: *depth, index: *index });
                    },
                }
                EvalAction::Continue
            },
            Value::Symbol(name) => {
                match env.lookup_global(name.as_str()) {
                    Some(v) => {
                        self.mode = Mode::Return(v);
                    },
                    None => {
                        self.mode = Mode::Unwind(EvalError::UndefinedSymbol(name.clone()));
                    },
                }
                EvalAction::Continue
            },
            Value::Lambda { params_count, body } => {
                let captured = env.get_locals_clone();
                proof {
                    lemma_same_frames_model(captured@, env.locals());
                }
                self.mode = Mode::Return(
                    Rc::new(Value::Closure { params_count: *params_count, body: body.clone(), captured }),
                );
                EvalAction::Continue
            },
            Value::TailCall { func, args } => {
                let mut p = *env.profiler();
                p.tail_calls_optimized = p.tail_calls_optimized + 1;
                env.set_profiler(p);
                let k = Kont::TailFunc { args: copy_values(args) };
                proof {
                    lemma_stack_push(self.stack@, k);
                }
                self.stack.push(k);
                self.mode = Mode::Eval(func.clone());
                EvalAction::Continue
            },
            Value::If { cond, then_branch, else_branch } => {
                let k = Kont::Branch { then_branch: then_branch.clone(), else_branch: else_branch.clone() };
                proof {
                    lemma_stack_push(self.stack@, k);
                }
                self.stack.push(k);
                self.mode = Mode::Eval(cond.clone());
                EvalAction::Continue
            },
            Value::Memoized { body, .. } => {
                let key = env.get_current_frame_clone();
                let lookup_key = copy_values(&key);
                proof {
                    lemma_model_frames(env.locals());
                }
                self.mode = Mode::AwaitMemo { memo: expr.clone(), body: body.clone(), key };
                EvalAction::MemoLookup { memo: expr.clone(), key: lookup_key }
            },
            Value::Pair(cons) => {
                if let Value::Symbol(name) = &*cons.car {
                    proof {
                        reveal_strlit("define");
                        reveal_strlit("quote");
                        assert("define"@ =~= define_name());
                        assert("quote"@ =~= quote_name());
                    }
                    if string_is(name, "define") || string_is(name, "quote") {
                        proof {
                            assert(special_form_name(cons.car@) == Some(name@));
                            assert(expr@ == Term::Pair(Box::new(cons.car@), Box::new(cons.cdr@)));
                        }
                        match env.lookup_global(name.as_str()) {
                            None => {
                                assert(!env.state().globals.contains_key(name@));
                                self.mode = Mode::Unwind(EvalError::SpecialFormMissing(name.clone()));
                                return EvalAction::Continue;
                            },
                            Some(g) => {
                                assert(env.state().globals.contains_key(name@));
                                assert(env.state().globals[name@] == g@);
                                let is_function = match &*g {
                                    Value::Function(_) => true,
                                    _ => false,
                                };
                                if is_function {
                                    let args = match &*cons.cdr {
                                        Value::Pair(c) => c.cars(),
                                        _ => Vec::new(),
                                    };
                                    proof {
                                        assert(model_seq(Seq::<Rc<Value<N, F, M>>>::empty()) =~= Seq::<Term<N, F>>::empty());
                                    }
                                    self.mode = Mode::AwaitCall;
                                    return EvalAction::Call { callee: g, args };
                                }
                            },
                        }
                    }
                }
                let k = Kont::CallFunc { rest: cons.cdr.clone() };
                proof {
                    lemma_stack_push(self.stack@, k);
                }
                self.stack.push(k);
                self.mode = Mode::Eval(cons.car.clone());
                EvalAction::Continue
            },
            Value::Error(msg) => {
                self.mode = Mode::Unwind(EvalError::Raised(msg.clone()));
                EvalAction::Continue
            },
            _ => {
                self.mode = Mode::Return(expr.clone());
                EvalAction::Continue
            },
        }
    }

    /// One step handing `v` to the innermost waiting frame.
    fn return_value(&mut self, env: &mut RuntimeEnv<N, F, M>, v: Rc<Value<N, F, M>>) -> (action: EvalAction<N, F, M>)
        requires
            old(env).wf(),
        ensures
            final(env).wf(),
            (final(self)@, final(env).state(), action@) == return_spec(v@, old(self)@.stack, old(env).state()),
    {
        let ghost st = self.stack@;
        match self.stack.pop() {
            None => {
                self.mode = Mode::Halted;
                EvalAction::Done(v)
            },
            Some(k) => {
                proof {
                    lemma_stack_pop(st);
                }
                match k {
                    Kont::Branch { then_branch, else_branch } => {
                        if v.is_truthy() {
                            self.mode = Mode::Eval(then_branch);
                        } else {
                            self.mode = Mode::Eval(else_branch);
                        }
                        EvalAction::Continue
                    },
                    Kont::TailFunc { args } => {
                        proof {
                            lemma_model_seq_len(args@);
                        }
                        if args.len() == 0 {
                            proof {
                                assert(model_seq(Seq::<Rc<Value<N, F, M>>>::empty()) =~= Seq::<Term<N, F>>::empty());
                            }
                            self.apply(env, v, Vec::new(), true)
                        } else {
                            let first = args[0].clone();
                            let next = Kont::TailArgs { func: v, args, done: Vec::new() };
                            proof {
                                assert(model_seq(Seq::<Rc<Value<N, F, M>>>::empty()) =~= Seq::<Term<N, F>>::empty());
                                lemma_stack_push(self.stack@, next);
                            }
                            self.stack.push(next);
                            self.mode = Mode::Eval(first);
                            EvalAction::Continue
                        }
                    },
                    Kont::TailArgs { func, args, done } => {
                        let mut done = done;
                        proof {
                            lemma_model_seq_len(args@);
                            lemma_model_seq_push(done@, v);
                        }
                        done.push(v);
                        proof {
                            lemma_model_seq_len(done@);
                        }
                        if done.len() < args.len() {
                            let first = args[done.len()].clone();
                            let next = Kont::TailArgs { func, args, done };
                            proof {
                                lemma_stack_push(self.stack@, next);
                            }
                            self.stack.push(next);
                            self.mode = Mode::Eval(first);
                            EvalAction::Continue
                        } else {
                            self.apply(env, func, done, true)
                        }
                    },
                    Kont::CallFunc { rest } => {
                        match &*rest {
                            Value::Pair(c) => {
                                let next = Kont::CallArgs { func: v, rest: c.cdr.clone(), done: Vec::new() };
                                proof {
                                    assert(model_seq(Seq::<Rc<Value<N, F, M>>>::empty()) =~= Seq::<Term<N, F>>::empty());
                                    lemma_stack_push(self.stack@, next);
                                }
                                self.stack.push(next);
                                self.mode = Mode::Eval(c.car.clone());
                                EvalAction::Continue
                            },
                            _ => {
                                proof {
                                    assert(model_seq(Seq::<Rc<Value<N, F, M>>>::empty()) =~= Seq::<Term<N, F>>::empty());
                                }
                                self.apply(env, v, Vec::new(), false)
                            },
                        }
                    },
                    Kont::CallArgs { func, rest, done } => {
                        let mut done = done;
                        proof {
                            lemma_model_seq_push(done@, v);
                        }
                        done.push(v);
                        match &*rest {
                            Value::Pair(c) => {
                                let next = Kont::CallArgs { func, rest: c.cdr.clone(), done };
                                proof {
                                    lemma_stack_push(self.stack@, next);
                                }
                                self.stack.push(next);
                                self.mode = Mode::Eval(c.car.clone());
                                EvalAction::Continue
                            },
                            _ => self.apply(env, func, done, false),
                        }
                    },
                    Kont::Restore { saved } => {
                        env.set_locals(saved);
                        self.mode = Mode::Return(v);
                        EvalAction::Continue
                    },
                    Kont::Store { memo, key } => {
                        self.mode = Mode::Return(v.clone());
                        EvalAction::MemoStore { memo, key, value: v }
                    },
                }
            },
        }
    }

    /// One step handing `err` outwards.
    fn unwind(&mut self, env: &mut RuntimeEnv<N, F, M>, err: EvalError<N, F, M>) -> (action: EvalAction<N, F, M>)
        requires
            old(env).wf(),
        ensures
            final(env).wf(),
            (final(self)@, final(env).state(), action@) == unwind_spec(err@, old(self)@.stack, old(env).state()),
    {
        let ghost st = self.stack@;
        match self.stack.pop() {
            None => {
                self.mode = Mode::Halted;
                EvalAction::Fail(err)
            },
            Some(k) => {
                proof {
                    lemma_stack_pop(st);
                }
                if let Kont::Restore { saved } = k {
                    env.set_locals(saved);
                }
                self.mode = Mode::Unwind(err);
                EvalAction::Continue
            },
        }
    }
}

/// Why the step from `machine` on `event` cannot be taken, if it cannot.
pub fn eval_step_fault<N, F, M>(
    machine: &EvalMachine<N, F, M>,
    env: &RuntimeEnv<N, F, M>,
    event: &EvalEvent<N, F, M>,
) -> (r: Option<StepFault>)
    ensures
        r == step_fault(machine@, env.state(), event@),
{
    match &machine.mode {
        Mode::Eval(expr) => match &**expr {
            Value::LocalVar(depth, _) => if *depth == usize::MAX {
                Some(StepFault::Overflow)
            } else {
                None
            },
            Value::TailCall { .. } => if env.profiler().tail_calls_optimized == usize::MAX {
                Some(StepFault::Overflow)
            } else {
                None
            },
            Value::Memoized { .. } => {
                proof {
                    lemma_model_frames(env.locals());
                }
                if env.frame_count() == 0 {
                    Some(StepFault::NoLocalFrame)
                } else {
                    None
                }
            },
            _ => None,
        },
        Mode::AwaitMemo { .. } => match event {
            EvalEvent::MemoHit(_) => if env.profiler().memo_cache_hits == usize::MAX {
                Some(StepFault::Overflow)
            } else {
                None
            },
            EvalEvent::MemoMiss => if env.profiler().memo_cache_misses == usize::MAX {
                Some(StepFault::Overflow)
            } else {
                None
            },
            _ => None,
        },
        _ => None,
    }
}

/// Takes one step of `machine` on `event`, which answers what the last step
/// asked for (`Resume` where it asked for nothing that needs an answer).
pub fn eval_step<N, F, M>(
    machine: &mut EvalMachine<N, F, M>,
    env: &mut RuntimeEnv<N, F, M>,
    event: EvalEvent<N, F, M>,
) -> (action: EvalAction<N, F, M>)
    requires
        old(env).wf(),
        accepts(old(machine)@, event@),
        step_fault(old(machine)@, old(env).state(), event@) is None,
    ensures
        final(env).wf(),
        (final(machine)@, final(env).state(), action@) == eval_step_spec(
            old(machine)@,
            old(env).state(),
            event@,
        ),
{
    let mut mode = Mode::Halted;
    std::mem::swap(&mut machine.mode, &mut mode);
    match mode {
        Mode::Eval(expr) => machine.eval_expr(env, expr),
        Mode::Return(v) => machine.return_value(env, v),
        Mode::Unwind(err) => machine.unwind(env, err),
        Mode::AwaitCall => {
            match event {
                EvalEvent::Returned(v) => {
                    machine.mode = Mode::Return(v);
                },
                EvalEvent::Raised(msg) => {
                    machine.mode = Mode::Unwind(EvalError::Builtin(msg));
                },
                _ => {
                    machine.mode = Mode::AwaitCall;
                },
            }
            EvalAction::Continue
        },
        Mode::AwaitMemo { memo, body, key } => match event {
            EvalEvent::MemoHit(v) => {
                let mut p = *env.profiler();
                p.memo_cache_hits = p.memo_cache_hits + 1;
                env.set_profiler(p);
                machine.mode = Mode::Return(v);
                EvalAction::Continue
            },
            EvalEvent::MemoMiss => {
                let mut p = *env.profiler();
                p.memo_cache_misses = p.memo_cache_misses + 1;
                env.set_profiler(p);
                let k = Kont::Store { memo, key };
                proof {
                    lemma_stack_push(machine.stack@, k);
                }
                machine.stack.push(k);
                machine.mode = Mode::Eval(body);
                EvalAction::Continue
            },
            _ => {
                machine.mode = Mode::AwaitMemo { memo, body, key };
                EvalAction::Continue
            },
        },
        Mode::Halted => EvalAction::Continue,
    }
}

/// A closure applied in tail position runs its body with the waiting frames
/// as they were, in its captured frames plus one frame of its arguments; any
/// other call of it leaves one more frame, which gives the caller's local
/// frames back.
pub proof fn law_tail_call_keeps_waiting_frames<N, F>(
    params_count: nat,
    body: Term<N, F>,
    captured: Seq<Seq<Term<N, F>>>,
    args: Seq<Term<N, F>>,
    stack: Seq<KontState<N, F>>,
    s: EnvState<N, F>,
)
    requires
        args.len() == params_count,
    ensures
        ({
            let func = Term::Closure(params_count, Box::new(body), captured);
            let (m, s2, a) = apply_spec(func, args, true, stack, s);
            &&& m == MachineState { mode: ModeState::Eval(body), stack }
            &&& s2 == with_locals(s, captured.push(args))
            &&& a == ActionState::<N, F>::Continue
        }),
        ({
            let func = Term::Closure(params_count, Box::new(body), captured);
            let (m, s2, a) = apply_spec(func, args, false, stack, s);
            &&& m == MachineState {
                mode: ModeState::Eval(body),
                stack: stack.push(KontState::Restore(s.locals)),
            }
            &&& s2 == with_locals(s, captured.push(args))
            &&& a == ActionState::<N, F>::Continue
        }),
{
}

/// When the body of a called closure returns or fails, the caller's local
/// frames come back and the value or the error goes on to the caller.
pub proof fn law_call_restores_frames<N, F>(
    saved: Seq<Seq<Term<N, F>>>,
    stack: Seq<KontState<N, F>>,
    s: EnvState<N, F>,
    v: Term<N, F>,
    err: ErrorState<N, F>,
)
    ensures
        return_spec(v, stack.push(KontState::Restore(saved)), s) == proceed(
            ModeState::Return(v),
            stack,
            with_locals(s, saved),
        ),
        unwind_spec(err, stack.push(KontState::Restore(saved)), s) == proceed(
            ModeState::Unwind(err),
            stack,
            with_locals(s, saved),
        ),
{
    assert(stack.push(KontState::Restore(saved)).drop_last() =~= stack);
}

/// A memoized body is looked up under the current frame's arguments; on a hit
/// the stored value is returned without running the body; on a miss the body
/// runs, and the value it returns is stored under the key that was looked up
/// and then returned.
pub proof fn law_memo_lookup_then_store<N, F>(
    body: Term<N, F>,
    stack: Seq<KontState<N, F>>,
    s: EnvState<N, F>,
    hit: Term<N, F>,
    result: Term<N, F>,
)
    requires
        s.locals.len() > 0,
    ensures
        ({
            let memo = Term::Memoized(Box::new(body));
            let key = s.locals.last();
            let (m1, s1, a1) = eval_expr_spec(memo, stack, s);
            let (m2, s2, a2) = eval_step_spec(m1, s1, EventState::MemoHit(hit));
            let (m3, s3, a3) = eval_step_spec(m1, s1, EventState::MemoMiss);
            let back = MachineState { mode: ModeState::Return(result), stack: m3.stack };
            let (m4, s4, a4) = eval_step_spec(back, s3, EventState::Resume);
            &&& a1 == ActionState::MemoLookup(memo, key)
            &&& s1 == s
            &&& m2 == MachineState { mode: ModeState::Return(hit), stack }
            &&& s2 == count_memo_hit(s)
            &&& m3 == MachineState {
                mode: ModeState::Eval(body),
                stack: stack.push(KontState::Store(memo, key)),
            }
            &&& s3 == count_memo_miss(s)
            &&& a4 == ActionState::MemoStore(memo, key, result)
            &&& m4 == MachineState { mode: ModeState::Return(result), stack }
            &&& s4 == s3
        }),
{
    let memo = Term::<N, F>::Memoized(Box::new(body));
    assert(stack.push(KontState::Store(memo, s.locals.last())).drop_last() =~= stack);
}

/// `ms` and `ss` are the machines and the environment states of a run on the
/// events `es`: each comes from the one before by a step.
pub open spec fn is_run<N, F>(
    ms: Seq<MachineState<N, F>>,
    ss: Seq<EnvState<N, F>>,
    es: Seq<EventState<N, F>>,
) -> bool {
    &&& ms.len() == ss.len()
    &&& ms.len() == es.len() + 1
    &&& forall|i: int| 0 <= i < es.len() ==> (ms[i + 1], ss[i + 1]) == (#[trigger] eval_step_spec(
        ms[i],
        ss[i],
        es[i],
    ).0, eval_step_spec(ms[i], ss[i], es[i]).1)
}

/// The waiting frames `q` hold the frames `base` at their bottom.
pub open spec fn stands_on<N, F>(q: Seq<KontState<N, F>>, base: Seq<KontState<N, F>>) -> bool {
    q.len() >= base.len() && q.subrange(0, base.len() as int) == base
}

proof fn lemma_stands_on_push<N, F>(q: Seq<KontState<N, F>>, base: Seq<KontState<N, F>>, x: KontState<N, F>)
    requires
        stands_on(q, base),
    ensures
        stands_on(q.push(x), base),
{
    assert(q.push(x).subrange(0, base.len() as int) =~= q.subrange(0, base.len() as int));
}

proof fn lemma_stands_on_pop<N, F>(q: Seq<KontState<N, F>>, base: Seq<KontState<N, F>>)
    requires
        stands_on(q, base),
        q.len() > base.len(),
    ensures
        stands_on(q.drop_last(), base),
{
    assert(q.drop_last().subrange(0, base.len() as int) =~= q.subrange(0, base.len() as int));
}

proof fn lemma_apply_stands_on<N, F>(
    func: Term<N, F>,
    args: Seq<Term<N, F>>,
    tail: bool,
    stack: Seq<KontState<N, F>>,
    s: EnvState<N, F>,
    base: Seq<KontState<N, F>>,
)
    requires
        stands_on(stack, base),
    ensures
        stands_on(apply_spec(func, args, tail, stack, s).0.stack, base),
{
    lemma_stands_on_push(stack, base, KontState::Restore(s.locals));
}

/// A step from a machine whose waiting frames stand on `base`, topped by a
/// frame that gives back the local frames `saved`: the frames still stand on
/// `base`, or that top frame was the one taken, and `saved` came back.
proof fn lemma_step_stands_on<N, F>(
    m: MachineState<N, F>,
    s: EnvState<N, F>,
    e: EventState<N, F>,
    base: Seq<KontState<N, F>>,
    saved: Seq<Seq<Term<N, F>>>,
)
    requires
        base.len() > 0,
        base.last() == KontState::<N, F>::Restore(saved),
        stands_on(m.stack, base),
    ensures
        ({
            let (m2, s2, a) = eval_step_spec(m, s, e);
            stands_on(m2.stack, base) || (m2.stack == base.drop_last() && s2.locals == saved)
        }),
{
    let st = m.stack;
    if st.len() == base.len() {
        assert(st =~= base) by {
            assert(st.subrange(0, base.len() as int) =~= st);
        }
    } else {
        lemma_stands_on_pop(st, base);
    }
    let rest = st.drop_last();
    match m.mode {
        ModeState::Eval(t) => {
            match t {
                Term::TailCall(f, args) => lemma_stands_on_push(st, base, KontState::TailFunc(args)),
                Term::If(c, th, el) => lemma_stands_on_push(st, base, KontState::Branch(*th, *el)),
                Term::Pair(head, tail) => lemma_stands_on_push(st, base, KontState::CallFunc(*tail)),
                _ => {},
            }
        },
        ModeState::Return(v) => {
            if st.len() > base.len() {
                match st.last() {
                    KontState::TailFunc(args) => {
                        if args.len() == 0 {
                            lemma_apply_stands_on(v, Seq::empty(), true, rest, s, base);
                        } else {
                            lemma_stands_on_push(rest, base, KontState::TailArgs(v, args, Seq::empty()));
                        }
                    },
                    KontState::TailArgs(func, args, done) => {
                        let done2 = done.push(v);
                        lemma_stands_on_push(rest, base, KontState::TailArgs(func, args, done2));
                        lemma_apply_stands_on(func, done2, true, rest, s, base);
                    },
                    KontState::CallFunc(list) => {
                        lemma_apply_stands_on(v, Seq::empty(), false, rest, s, base);
                        if let Term::Pair(a, d) = list {
                            lemma_stands_on_push(rest, base, KontState::CallArgs(v, *d, Seq::empty()));
                        }
                    },
                    KontState::CallArgs(func, list, done) => {
                        let done2 = done.push(v);
                        lemma_apply_stands_on(func, done2, false, rest, s, base);
                        if let Term::Pair(a, d) = list {
                            lemma_stands_on_push(rest, base, KontState::CallArgs(func, *d, done2));
                        }
                    },
                    _ => {},
                }
            }
        },
        ModeState::AwaitMemo(memo, body, key) => {
            lemma_stands_on_push(st, base, KontState::Store(memo, key));
        },
        _ => {},
    }
}

proof fn lemma_run_stands_on<N, F>(
    ms: Seq<MachineState<N, F>>,
    ss: Seq<EnvState<N, F>>,
    es: Seq<EventState<N, F>>,
    base: Seq<KontState<N, F>>,
    saved: Seq<Seq<Term<N, F>>>,
    i: int,
)
    requires
        is_run(ms, ss, es),
        base.len() > 0,
        base.last() == KontState::<N, F>::Restore(saved),
        stands_on(ms[0].stack, base),
        0 <= i < es.len(),
        forall|k: int| 0 <= k <= i ==> #[trigger] ms[k].stack.len() >= base.len(),
    ensures
        stands_on(ms[i].stack, base),
    decreases i,
{
    if i > 0 {
        lemma_run_stands_on(ms, ss, es, base, saved, i - 1);
        lemma_step_stands_on(ms[i - 1], ss[i - 1], es[i - 1], base, saved);
        assert(ms[i].stack.len() >= base.len());
        assert(base.drop_last().len() < base.len());
    }
}

/// A called closure's body runs above the frame that gives the caller's local
/// frames back. When the run first goes below that frame, by a value or by an
/// error, the waiting frames are the caller's again and so are the local
/// frames.
pub proof fn law_call_gives_frames_back<N, F>(
    ms: Seq<MachineState<N, F>>,
    ss: Seq<EnvState<N, F>>,
    es: Seq<EventState<N, F>>,
    stack: Seq<KontState<N, F>>,
    saved: Seq<Seq<Term<N, F>>>,
    j: int,
)
    requires
        is_run(ms, ss, es),
        ms[0].stack == stack.push(KontState::Restore(saved)),
        0 < j < ms.len(),
        forall|i: int| 0 <= i < j ==> #[trigger] ms[i].stack.len() > stack.len(),
        ms[j].stack.len() <= stack.len(),
    ensures
        ms[j].stack == stack,
        ss[j].locals == saved,
{
    let base = stack.push(KontState::Restore(saved));
    assert(stands_on(ms[0].stack, base)) by {
        assert(base.subrange(0, base.len() as int) =~= base);
    }
    lemma_run_stands_on(ms, ss, es, base, saved, j - 1);
    let i = j - 1;
    lemma_step_stands_on(ms[i], ss[i], es[i], base, saved);
    assert(base.drop_last() =~= stack);
}

/// The machine, the environment state and the last action after `n` steps,
/// `n` at least one, each taken on `Resume`.
pub open spec fn resume_steps<N, F>(m: MachineState<N, F>, s: EnvState<N, F>, n: nat) -> (
    MachineState<N, F>,
    EnvState<N, F>,
    ActionState<N, F>,
)
    decreases n,
{
    let r = eval_step_spec(m, s, EventState::Resume);
    if n <= 1 {
        r
    } else {
        resume_steps(r.0, r.1, (n - 1) as nat)
    }
}

/// A value that evaluates to itself and stands for itself in source: a number,
/// a string, a boolean or nil.
pub open spec fn is_literal<N, F>(t: Term<N, F>) -> bool {
    t is Number || t is Str || t is Bool || t is Nil
}

proof fn lemma_arguments_in_order<N, F>(
    func: Term<N, F>,
    done: Seq<Term<N, F>>,
    args: Seq<Term<N, F>>,
    stack: Seq<KontState<N, F>>,
    s: EnvState<N, F>,
)
    requires
        args.len() > 0,
        forall|i: int| 0 <= i < args.len() ==> is_literal(#[trigger] args[i]),
    ensures
        resume_steps(
            MachineState {
                mode: ModeState::Eval(args[0]),
                stack: stack.push(KontState::CallArgs(func, term_list(args.drop_first()), done)),
            },
            s,
            (2 * args.len()) as nat,
        ) == apply_spec(func, done + args, false, stack, s),
    decreases args.len(),
{
    let m0 = MachineState {
        mode: ModeState::Eval(args[0]),
        stack: stack.push(KontState::CallArgs(func, term_list(args.drop_first()), done)),
    };
    assert(is_literal(args[0]));
    let m1 = MachineState { mode: ModeState::Return(args[0]), stack: m0.stack };
    assert(eval_step_spec(m0, s, EventState::Resume) == proceed(ModeState::Return(args[0]), m0.stack, s));
    assert(m0.stack.drop_last() =~= stack);
    let rest = args.drop_first();
    let done2 = done.push(args[0]);
    assert(done2 + rest =~= done + args);
    if rest.len() == 0 {
        assert(term_list(rest) == Term::<N, F>::Nil);
        assert(done2 =~= done + args);
        assert(resume_steps(m0, s, 2) == resume_steps(m1, s, 1));
    } else {
        assert(term_list(rest) == Term::Pair(Box::new(rest[0]), Box::new(term_list(rest.drop_first()))));
        let m2 = MachineState {
            mode: ModeState::Eval(rest[0]),
            stack: stack.push(KontState::CallArgs(func, term_list(rest.drop_first()), done2)),
        };
        assert(eval_step_spec(m1, s, EventState::Resume) == proceed(ModeState::Eval(rest[0]), m2.stack, s));
        assert forall|i: int| 0 <= i < rest.len() implies is_literal(#[trigger] rest[i]) by {
            assert(rest[i] == args[i + 1]);
        }
        lemma_arguments_in_order(func, done2, rest, stack, s);
        assert(resume_steps(m0, s, (2 * args.len()) as nat) == resume_steps(m1, s, (2 * args.len() - 1) as nat));
        assert(resume_steps(m1, s, (2 * args.len() - 1) as nat) == resume_steps(m2, s, (2 * rest.len()) as nat));
    }
}

/// A call `(name a1 ... an)` of a global function on literal arguments hands
/// the function the arguments in the order they are written: a built-in is
/// asked for with exactly `a1 ... an`, and a closure of that many parameters
/// runs its body in its captured frames plus the frame `a1 ... an`, above a
/// frame that gives the caller's frames back. The head is evaluated first,
/// then each argument once, left to right: `3 + 2n` steps in all.
pub proof fn law_call_arguments_in_order<N, F>(
    name: Seq<char>,
    args: Seq<Term<N, F>>,
    stack: Seq<KontState<N, F>>,
    s: EnvState<N, F>,
)
    requires
        s.globals.contains_key(name),
        name != define_name(),
        name != quote_name(),
        forall|i: int| 0 <= i < args.len() ==> is_literal(#[trigger] args[i]),
    ensures
        ({
            let func = s.globals[name];
            let call = Term::Pair(Box::new(Term::Symbol(name)), Box::new(term_list(args)));
            let r = resume_steps(MachineState { mode: ModeState::Eval(call), stack }, s, (3 + 2 * args.len()) as nat);
            &&& func is Function ==> r == (
                MachineState { mode: ModeState::AwaitCall, stack },
                s,
                ActionState::Call(func, args),
            )
            &&& (func matches Term::Closure(n, body, captured) && n == args.len()) ==> r == (
                MachineState {
                    mode: ModeState::Eval(*func->Closure_1),
                    stack: stack.push(KontState::Restore(s.locals)),
                },
                with_locals(s, func->Closure_2.push(args)),
                ActionState::<N, F>::Continue,
            )
        }),
{
    let func = s.globals[name];
    let list = term_list(args);
    let call = Term::<N, F>::Pair(Box::new(Term::Symbol(name)), Box::new(list));
    let m0 = MachineState { mode: ModeState::Eval(call), stack };
    assert(special_form_name(Term::<N, F>::Symbol(name)) is None);
    let st1 = stack.push(KontState::CallFunc(list));
    let m1 = MachineState { mode: ModeState::Eval(Term::Symbol(name)), stack: st1 };
    assert(eval_step_spec(m0, s, EventState::Resume) == proceed(ModeState::Eval(Term::Symbol(name)), st1, s));
    let m2 = MachineState { mode: ModeState::Return(func), stack: st1 };
    assert(eval_step_spec(m1, s, EventState::Resume) == proceed(ModeState::Return(func), st1, s));
    assert(st1.drop_last() =~= stack);
    let total = (3 + 2 * args.len()) as nat;
    assert(resume_steps(m0, s, total) == resume_steps(m1, s, (total - 1) as nat));
    assert(resume_steps(m1, s, (total - 1) as nat) == resume_steps(m2, s, (total - 2) as nat));
    if args.len() == 0 {
        assert(list == Term::<N, F>::Nil);
        assert(Seq::<Term<N, F>>::empty() =~= args);
    } else {
        assert(list == Term::Pair(Box::new(args[0]), Box::new(term_list(args.drop_first()))));
        let m3 = MachineState {
            mode: ModeState::Eval(args[0]),
            stack: stack.push(KontState::CallArgs(func, term_list(args.drop_first()), Seq::empty())),
        };
        assert(eval_step_spec(m2, s, EventState::Resume) == proceed(ModeState::Eval(args[0]), m3.stack, s));
        assert(resume_steps(m2, s, (total - 2) as nat) == resume_steps(m3, s, (2 * args.len()) as nat));
        lemma_arguments_in_order(func, Seq::empty(), args, stack, s);
        assert(Seq::<Term<N, F>>::empty() + args =~= args);
    }
}

proof fn lemma_tail_arguments_in_order<N, F>(
    func: Term<N, F>,
    args: Seq<Term<N, F>>,
    k: int,
    stack: Seq<KontState<N, F>>,
    s: EnvState<N, F>,
)
    requires
        0 <= k < args.len(),
        forall|i: int| 0 <= i < args.len() ==> is_literal(#[trigger] args[i]),
    ensures
        resume_steps(
            MachineState {
                mode: ModeState::Eval(args[k]),
                stack: stack.push(KontState::TailArgs(func, args, args.subrange(0, k))),
            },
            s,
            (2 * (args.len() - k)) as nat,
        ) == apply_spec(func, args, true, stack, s),
    decreases args.len() - k,
{
    let st0 = stack.push(KontState::TailArgs(func, args, args.subrange(0, k)));
    let m0 = MachineState { mode: ModeState::Eval(args[k]), stack: st0 };
    assert(is_literal(args[k]));
    let m1 = MachineState { mode: ModeState::Return(args[k]), stack: st0 };
    assert(eval_step_spec(m0, s, EventState::Resume) == proceed(ModeState::Return(args[k]), st0, s));
    assert(st0.drop_last() =~= stack);
    let done2 = args.subrange(0, k).push(args[k]);
    assert(done2 =~= args.subrange(0, k + 1));
    if k + 1 == args.len() {
        assert(done2 =~= args);
        assert(resume_steps(m0, s, 2) == resume_steps(m1, s, 1));
    } else {
        let m2 = MachineState {
            mode: ModeState::Eval(args[k + 1]),
            stack: stack.push(KontState::TailArgs(func, args, args.subrange(0, k + 1))),
        };
        assert(eval_step_spec(m1, s, EventState::Resume) == proceed(ModeState::Eval(args[k + 1]), m2.stack, s));
        lemma_tail_arguments_in_order(func, args, k + 1, stack, s);
        assert(resume_steps(m0, s, (2 * (args.len() - k)) as nat) == resume_steps(
            m1,
            s,
            (2 * (args.len() - k) - 1) as nat,
        ));
        assert(resume_steps(m1, s, (2 * (args.len() - k) - 1) as nat) == resume_steps(
            m2,
            s,
            (2 * (args.len() - k - 1)) as nat,
        ));
    }
}

/// A tail call `(name a1 ... an)` of a global function on literal arguments
/// is counted once and hands the function the arguments in the order they
/// are written: a built-in is asked for with exactly `a1 ... an`, and a
/// closure of that many parameters runs its body in its captured frames plus
/// the frame `a1 ... an`, with the waiting frames as they were.
pub proof fn law_tail_call_arguments_in_order<N, F>(
    name: Seq<char>,
    args: Seq<Term<N, F>>,
    stack: Seq<KontState<N, F>>,
    s: EnvState<N, F>,
)
    requires
        s.globals.contains_key(name),
        s.profile.tail_calls_optimized < usize::MAX,
        forall|i: int| 0 <= i < args.len() ==> is_literal(#[trigger] args[i]),
    ensures
        ({
            let func = s.globals[name];
            let call = Term::TailCall(Box::new(Term::Symbol(name)), args);
            let r = resume_steps(MachineState { mode: ModeState::Eval(call), stack }, s, (3 + 2 * args.len()) as nat);
            let counted = count_tail_call(s);
            &&& counted.profile.tail_calls_optimized == s.profile.tail_calls_optimized + 1
            &&& func is Function ==> r == (
                MachineState { mode: ModeState::AwaitCall, stack },
                counted,
                ActionState::Call(func, args),
            )
            &&& (func matches Term::Closure(n, body, captured) && n == args.len()) ==> r == (
                MachineState { mode: ModeState::Eval(*func->Closure_1), stack },
                with_locals(counted, func->Closure_2.push(args)),
                ActionState::<N, F>::Continue,
            )
        }),
{
    let func = s.globals[name];
    let call = Term::<N, F>::TailCall(Box::new(Term::Symbol(name)), args);
    let c = count_tail_call(s);
    let m0 = MachineState { mode: ModeState::Eval(call), stack };
    let st1 = stack.push(KontState::TailFunc(args));
    let m1 = MachineState { mode: ModeState::Eval(Term::Symbol(name)), stack: st1 };
    assert(eval_step_spec(m0, s, EventState::Resume) == proceed(ModeState::Eval(Term::Symbol(name)), st1, c));
    assert(c.globals == s.globals);
    let m2 = MachineState { mode: ModeState::Return(func), stack: st1 };
    assert(eval_step_spec(m1, c, EventState::Resume) == proceed(ModeState::Return(func), st1, c));
    assert(st1.drop_last() =~= stack);
    let total = (3 + 2 * args.len()) as nat;
    assert(resume_steps(m0, s, total) == resume_steps(m1, c, (total - 1) as nat));
    assert(resume_steps(m1, c, (total - 1) as nat) == resume_steps(m2, c, (total - 2) as nat));
    if args.len() == 0 {
        assert(Seq::<Term<N, F>>::empty() =~= args);
    } else {
        let m3 = MachineState {
            mode: ModeState::Eval(args[0]),
            stack: stack.push(KontState::TailArgs(func, args, Seq::empty())),
        };
        assert(eval_step_spec(m2, c, EventState::Resume) == proceed(ModeState::Eval(args[0]), m3.stack, c));
        assert(resume_steps(m2, c, (total - 2) as nat) == resume_steps(m3, c, (2 * args.len()) as nat));
        assert(args.subrange(0, 0) =~= Seq::<Term<N, F>>::empty());
        lemma_tail_arguments_in_order(func, args, 0, stack, c);
    }
}

/// An `if` whose condition is a literal goes on with its else branch when the
/// condition is `#f` or nil, and with its then branch otherwise, the waiting
/// frames and the environment as they were.
pub proof fn law_if_picks_branch<N, F>(
    cond: Term<N, F>,
    then_branch: Term<N, F>,
    else_branch: Term<N, F>,
    stack: Seq<KontState<N, F>>,
    s: EnvState<N, F>,
)
    requires
        is_literal(cond),
    ensures
        ({
            let e = Term::If(Box::new(cond), Box::new(then_branch), Box::new(else_branch));
            let next = if cond == Term::<N, F>::Bool(false) || cond == Term::<N, F>::Nil {
                else_branch
            } else {
                then_branch
            };
            resume_steps(MachineState { mode: ModeState::Eval(e), stack }, s, 3) == (
                MachineState { mode: ModeState::Eval(next), stack },
                s,
                ActionState::<N, F>::Continue,
            )
        }),
{
    let e = Term::If(Box::new(cond), Box::new(then_branch), Box::new(else_branch));
    let st1 = stack.push(KontState::Branch(then_branch, else_branch));
    let m0 = MachineState { mode: ModeState::Eval(e), stack };
    let m1 = MachineState { mode: ModeState::Eval(cond), stack: st1 };
    let m2 = MachineState { mode: ModeState::Return(cond), stack: st1 };
    assert(eval_step_spec(m0, s, EventState::Resume) == proceed(ModeState::Eval(cond), st1, s));
    assert(eval_step_spec(m1, s, EventState::Resume) == proceed(ModeState::Return(cond), st1, s));
    assert(st1.drop_last() =~= stack);
    assert(resume_steps(m0, s, 3) == resume_steps(m1, s, 2));
    assert(resume_steps(m1, s, 2) == resume_steps(m2, s, 1));
}

} // verus!
