use vstd::prelude::*;
use std::rc::Rc;
use crate::assoc::AssocList;
use crate::names::NameSet;
use crate::profiler::Profiler;
use crate::purity::PurityContext;
use crate::value::{Term, Value, model_frames};

verus! {

/// A function whose purity waits on other functions.
pub struct PendingPureFunction<N, F, M> {
    pub params_count: usize,
    pub body: Rc<Value<N, F, M>>,
    pub captured: Vec<Vec<Rc<Value<N, F, M>>>>,
    pub unresolved_dependencies: NameSet,
}

/// The state the evaluator runs in: the local frames of the calls under way,
/// the global bindings, and what is known of the purity of defined functions.
pub struct RuntimeEnv<N, F, M> {
    frames: Vec<Vec<Rc<Value<N, F, M>>>>,
    globals: AssocList<Rc<Value<N, F, M>>>,
    pure_functions: NameSet,
    pending_pure_functions: AssocList<PendingPureFunction<N, F, M>>,
    profiler: Profiler,
    memoization_enabled: bool,
}

/// Mathematical model of a waiting function.
pub struct PendingState<N, F> {
    pub params_count: nat,
    pub body: Term<N, F>,
    pub captured: Seq<Seq<Term<N, F>>>,
    pub deps: Set<Seq<char>>,
}

/// Mathematical model of a runtime environment.
pub struct EnvState<N, F> {
    pub locals: Seq<Seq<Term<N, F>>>,
    pub globals: Map<Seq<char>, Term<N, F>>,
    pub pure: Set<Seq<char>>,
    pub pending: Map<Seq<char>, PendingState<N, F>>,
    pub profile: Profiler,
    pub memoizes: bool,
}

/// What the purity analysis of the function `name` knows in the state `s`.
pub open spec fn state_context<N, F>(s: EnvState<N, F>, name: Seq<char>) -> PurityContext {
    PurityContext { pure: s.pure, known: s.globals.dom(), pending: s.pending.dom(), current: name }
}

/// Two frame lists hold the same values.
pub open spec fn same_frames<N, F, M>(
    a: Seq<Vec<Rc<Value<N, F, M>>>>,
    b: Seq<Vec<Rc<Value<N, F, M>>>>,
) -> bool {
    a.len() == b.len() && forall|i: int| 0 <= i < a.len() ==> #[trigger] a[i]@ == b[i]@
}

/// A copy of the frames `frames`.
pub fn clone_frames<N, F, M>(frames: &Vec<Vec<Rc<Value<N, F, M>>>>) -> (r: Vec<Vec<Rc<Value<N, F, M>>>>)
    ensures
        same_frames(r@, frames@),
{
    let mut r: Vec<Vec<Rc<Value<N, F, M>>>> = Vec::new();
    let mut i: usize = 0;
    while i < frames.len()
        invariant
            0 <= i <= frames@.len(),
            r@.len() == i,
            forall|k: int| 0 <= k < i ==> #[trigger] r@[k]@ == frames@[k]@,
        decreases frames@.len() - i,
    {
        let frame = &frames[i];
        let mut copy: Vec<Rc<Value<N, F, M>>> = Vec::new();
        let mut j: usize = 0;
        while j < frame.len()
            invariant
                0 <= j <= frame@.len(),
                copy@ == frame@.subrange(0, j as int),
            decreases frame@.len() - j,
        {
            copy.push(frame[j].clone());
            assert(copy@ =~= frame@.subrange(0, j + 1));
            j += 1;
        }
        assert(copy@ =~= frame@);
        r.push(copy);
        i += 1;
    }
    r
}

pub proof fn lemma_same_frames_model<N, F, M>(
    a: Seq<Vec<Rc<Value<N, F, M>>>>,
    b: Seq<Vec<Rc<Value<N, F, M>>>>,
)
    requires
        same_frames(a, b),
    ensures
        model_frames(a) == model_frames(b),
    decreases a.len(),
{
    if a.len() > 0 {
        lemma_same_frames_model(a.drop_last(), b.drop_last());
        assert(a.last()@ == b.last()@);
    }
}

/// Reading a global binding gives back what was last bound to that name, and
/// binding one name leaves every other binding as it was.
pub proof fn law_global_read_after_write<V>(
    globals: Map<Seq<char>, V>,
    name: Seq<char>,
    value: V,
    other: Seq<char>,
)
    ensures
        globals.insert(name, value).contains_key(name),
        globals.insert(name, value)[name] == value,
        other != name ==> globals.insert(name, value).contains_key(other) == globals.contains_key(other),
        other != name && globals.contains_key(other) ==> globals.insert(name, value)[other] == globals[other],
{
}

impl<N, F, M> PendingPureFunction<N, F, M> {
    pub open spec fn state(&self) -> PendingState<N, F> {
        PendingState {
            params_count: self.params_count as nat,
            body: self.body@,
            captured: model_frames(self.captured@),
            deps: self.unresolved_dependencies@,
        }
    }

    /// A copy of this entry.
    pub fn duplicate(&self) -> (r: Self)
        ensures
            r.params_count == self.params_count,
            r.body == self.body,
            same_frames(r.captured@, self.captured@),
            r.unresolved_dependencies@ == self.unresolved_dependencies@,
    {
        PendingPureFunction {
            params_count: self.params_count,
            body: self.body.clone(),
            captured: clone_frames(&self.captured),
            unresolved_dependencies: self.unresolved_dependencies.duplicate(),
        }
    }
}

impl<N, F, M> RuntimeEnv<N, F, M> {
    /// The local frames, innermost last.
    pub closed spec fn locals(&self) -> Seq<Vec<Rc<Value<N, F, M>>>> {
        self.frames@
    }

    /// The global bindings.
    pub closed spec fn globals(&self) -> Map<Seq<char>, Rc<Value<N, F, M>>> {
        self.globals@
    }

    /// The functions known to be pure.
    pub closed spec fn pure_names(&self) -> Set<Seq<char>> {
        self.pure_functions@
    }

    /// The functions waiting on others to be known pure.
    pub closed spec fn pending(&self) -> Map<Seq<char>, PendingPureFunction<N, F, M>> {
        self.pending_pure_functions@
    }

    /// The waiting functions in the order they are looked at.
    pub closed spec fn pending_order(&self) -> Seq<Seq<char>> {
        self.pending_pure_functions.key_seq()
    }

    /// The model of this environment.
    pub open spec fn state(&self) -> EnvState<N, F> {
        EnvState {
            locals: model_frames(self.locals()),
            globals: self.globals().map_values(|v: Rc<Value<N, F, M>>| v@),
            pure: self.pure_names(),
            pending: self.pending().map_values(|p: PendingPureFunction<N, F, M>| p.state()),
            profile: self.profile(),
            memoizes: self.memoizes(),
        }
    }

    /// The counters of this run.
    pub closed spec fn profile(&self) -> Profiler {
        self.profiler
    }

    /// Whether functions found pure get a memo table.
    pub closed spec fn memoizes(&self) -> bool {
        self.memoization_enabled
    }

    /// Every waiting function is defined and not known to be pure.
    pub closed spec fn wf(&self) -> bool {
        &&& self.pure_functions.inv()
        &&& self.globals.inv()
        &&& self.pending_pure_functions.inv()
        &&& forall|n: Seq<char>| #[trigger] self.pending().contains_key(n) ==> self.globals().contains_key(
            n,
        ) && !self.pure_names().contains(n)
    }


    pub proof fn lemma_wf(&self)
        requires
            self.wf(),
        ensures
            forall|n: Seq<char>| #[trigger] self.pending().contains_key(n) ==> self.globals().contains_key(
                n,
            ) && !self.pure_names().contains(n),
            self.pure_names().finite(),
            self.pending().dom().finite(),
            self.globals().dom().finite(),
            self.pending().dom().len() == self.pending_order().len(),
            self.pending_order().to_set() == self.pending().dom(),
            self.pending_order().no_duplicates(),
    {
        self.pure_functions.lemma_seq_view();
        self.globals.lemma_keys();
        self.pending_pure_functions.lemma_keys();
    }

    /// The global environment a program starts in: `nil`, the booleans, the
    /// constants `pi` and `e`, and the built-in functions known to be pure.
    pub fn new_global(pi: N, e: N) -> (env: Self)
        ensures
            env.wf(),
            env.locals() == Seq::<Vec<Rc<Value<N, F, M>>>>::empty(),
            env.globals().dom() == set!["nil"@, "#t"@, "#f"@, "pi"@, "e"@],
            env.globals()["nil"@]@ == crate::value::Term::<N, F>::Nil,
            env.globals()["#t"@]@ == crate::value::Term::<N, F>::Bool(true),
            env.globals()["#f"@]@ == crate::value::Term::<N, F>::Bool(false),
            env.globals()["pi"@]@ == crate::value::Term::<N, F>::Number(pi),
            env.globals()["e"@]@ == crate::value::Term::<N, F>::Number(e),
            env.pure_names() == set![
                "+"@, "-"@, "*"@, "/"@, "="@, "<"@, ">"@, "<="@, ">="@, "car"@, "cdr"@, "cons"@,
                "null?"@, "not"@, "list"@, "pair?"@, "eq?"@, "equal?"@, "and"@, "or"@,
            ],
            env.pending() == Map::<Seq<char>, PendingPureFunction<N, F, M>>::empty(),
            env.profile().is_zero(),
            env.memoizes(),
    {
        let mut pure = NameSet::new();
        pure.insert("+".to_string());
        pure.insert("-".to_string());
        pure.insert("*".to_string());
        pure.insert("/".to_string());
        pure.insert("=".to_string());
        pure.insert("<".to_string());
        pure.insert(">".to_string());
        pure.insert("<=".to_string());
        pure.insert(">=".to_string());
        pure.insert("car".to_string());
        pure.insert("cdr".to_string());
        pure.insert("cons".to_string());
        pure.insert("null?".to_string());
        pure.insert("not".to_string());
        pure.insert("list".to_string());
        pure.insert("pair?".to_string());
        pure.insert("eq?".to_string());
        pure.insert("equal?".to_string());
        pure.insert("and".to_string());
        pure.insert("or".to_string());
        let mut globals = AssocList::new();
        globals.insert("nil".to_string(), Rc::new(Value::Nil));
        globals.insert("#t".to_string(), Rc::new(Value::Bool(true)));
        globals.insert("#f".to_string(), Rc::new(Value::Bool(false)));
        globals.insert("pi".to_string(), Rc::new(Value::Number(pi)));
        globals.insert("e".to_string(), Rc::new(Value::Number(e)));
        let env = RuntimeEnv {
            frames: Vec::new(),
            globals,
            pure_functions: pure,
            pending_pure_functions: AssocList::new(),
            profiler: Profiler::new(),
            memoization_enabled: true,
        };
        proof {
            use_type_invariant(&env.pure_functions);
            use_type_invariant(&env.globals);
            use_type_invariant(&env.pending_pure_functions);
            reveal_strlit("nil");
            reveal_strlit("#t");
            reveal_strlit("#f");
            reveal_strlit("pi");
            reveal_strlit("e");
            assert("nil"@.len() == 3 && "#t"@.len() == 2 && "#f"@.len() == 2 && "pi"@.len() == 2
                && "e"@.len() == 1);
            assert("#t"@[1] != "#f"@[1] && "#t"@[0] != "pi"@[0] && "#f"@[0] != "pi"@[0]);
            assert(env.globals()["nil"@]@ == crate::value::Term::<N, F>::Nil);
        }
        assert(env.globals().dom() =~= set!["nil"@, "#t"@, "#f"@, "pi"@, "e"@]);
        env
    }

    /// The value at `index` in the frame `depth` levels out from the innermost.
    pub fn lookup_local(&self, depth: usize, index: usize) -> (r: Option<Rc<Value<N, F, M>>>)
        requires
            depth < usize::MAX,
        ensures
            r == (if depth < self.locals().len() && index < self.locals()[self.locals().len() - 1
                - depth]@.len() {
                Some(self.locals()[self.locals().len() - 1 - depth]@[index as int])
            } else {
                None
            }),
    {
        let n = self.frames.len();
        if depth >= n {
            return None;
        }
        let frame = &self.frames[n - 1 - depth];
        if index < frame.len() {
            Some(frame[index].clone())
        } else {
            None
        }
    }

    /// The global binding of `symbol`.
    pub fn lookup_global(&self, symbol: &str) -> (r: Option<Rc<Value<N, F, M>>>)
        ensures
            r == (if self.globals().contains_key(symbol@) {
                Some(self.globals()[symbol@])
            } else {
                None
            }),
    {
        match self.globals.get(symbol) {
            Some(v) => Some(v.clone()),
            None => None,
        }
    }

    /// Binds `symbol` globally to `value`.
    pub fn define_global(&mut self, symbol: &str, value: Rc<Value<N, F, M>>)
        requires
            old(self).wf(),
        ensures
            final(self).wf(),
            final(self).globals() == old(self).globals().insert(symbol@, value),
            final(self).locals() == old(self).locals(),
            final(self).pure_names() == old(self).pure_names(),
            final(self).pending() == old(self).pending(),
            final(self).pending_order() == old(self).pending_order(),
            final(self).profile() == old(self).profile(),
            final(self).memoizes() == old(self).memoizes(),
    {
        self.globals.insert(symbol.to_string(), value);
        proof {
            assert forall|n: Seq<char>| #[trigger] self.pending().contains_key(n) implies self.globals().contains_key(
                n) && !self.pure_names().contains(n) by {
                assert(old(self).pending().contains_key(n));
            }
            use_type_invariant(&self.globals);
            use_type_invariant(&self.pure_functions);
            use_type_invariant(&self.pending_pure_functions);
        }
    }

    /// The names bound globally.
    pub fn global_symbols(&self) -> (r: NameSet)
        ensures
            r@ == self.globals().dom(),
    {
        let keys = self.globals.keys();
        let r = NameSet::from_names(&keys);
        proof {
            use_type_invariant(&self.globals);
            self.globals.lemma_keys();
            assert forall|x: Seq<char>| r@.contains(x) == self.globals().dom().contains(x) by {
                if r@.contains(x) {
                    let i = choose|i: int| 0 <= i < keys@.len() && keys@[i]@ == x;
                    assert(self.globals.key_seq()[i] == x);
                    assert(self.globals.key_seq().contains(x));
                }
                if self.globals().dom().contains(x) {
                    assert(self.globals.key_seq().to_set().contains(x));
                    let i = choose|i: int| 0 <= i < self.globals.key_seq().len() && self.globals.key_seq()[i] == x;
                    assert(keys@[i]@ == x);
                }
            }
            assert(r@ =~= self.globals().dom());
        }
        r
    }

    /// The names of the waiting functions.
    pub fn pending_symbols(&self) -> (r: NameSet)
        ensures
            r@ == self.pending().dom(),
    {
        let keys = self.pending_pure_functions.keys();
        let r = NameSet::from_names(&keys);
        proof {
            use_type_invariant(&self.pending_pure_functions);
            self.pending_pure_functions.lemma_keys();
            let ks = self.pending_pure_functions.key_seq();
            assert forall|x: Seq<char>| r@.contains(x) == self.pending().dom().contains(x) by {
                if r@.contains(x) {
                    let i = choose|i: int| 0 <= i < keys@.len() && keys@[i]@ == x;
                    assert(ks[i] == x);
                    assert(ks.contains(x));
                }
                if self.pending().dom().contains(x) {
                    assert(ks.to_set().contains(x));
                    let i = choose|i: int| 0 <= i < ks.len() && ks[i] == x;
                    assert(keys@[i]@ == x);
                }
            }
            assert(r@ =~= self.pending().dom());
        }
        r
    }

    /// The names of the waiting functions, in the order they are looked at.
    pub fn pending_names(&self) -> (r: Vec<String>)
        ensures
            r@.len() == self.pending_order().len(),
            forall|i: int| 0 <= i < r@.len() ==> #[trigger] r@[i]@ == self.pending_order()[i],
    {
        self.pending_pure_functions.keys()
    }

    /// The functions known to be pure.
    pub fn pure_functions(&self) -> (r: &NameSet)
        ensures
            r@ == self.pure_names(),
    {
        &self.pure_functions
    }

    /// The waiting function `name`, if it waits.
    pub fn pending_function(&self, name: &str) -> (r: Option<&PendingPureFunction<N, F, M>>)
        ensures
            match r {
                Some(p) => self.pending().contains_key(name@) && *p == self.pending()[name@],
                None => !self.pending().contains_key(name@),
            },
    {
        self.pending_pure_functions.get(name)
    }

    /// How many functions wait.
    pub fn pending_count(&self) -> (r: usize)
        ensures
            r == self.pending().dom().len(),
    {
        self.pending_pure_functions.len()
    }

    /// The counters of this run.
    pub fn profiler(&self) -> (r: &Profiler)
        ensures
            *r == self.profile(),
    {
        &self.profiler
    }

    /// Replaces the counters of this run.
    pub fn set_profiler(&mut self, profiler: Profiler)
        ensures
            final(self).profile() == profiler,
            old(self).wf() ==> final(self).wf(),
            final(self).locals() == old(self).locals(),
            final(self).globals() == old(self).globals(),
            final(self).pure_names() == old(self).pure_names(),
            final(self).pending() == old(self).pending(),
            final(self).pending_order() == old(self).pending_order(),
            final(self).memoizes() == old(self).memoizes(),
    {
        self.profiler = profiler;
        proof {
            use_type_invariant(&self.globals);
            use_type_invariant(&self.pure_functions);
            use_type_invariant(&self.pending_pure_functions);
            if old(self).wf() {
                assert forall|n: Seq<char>| #[trigger] self.pending().contains_key(n) implies self.globals().contains_key(
                    n) && !self.pure_names().contains(n) by {
                    assert(old(self).pending().contains_key(n));
                }
            }
        }
    }

    /// Whether functions found pure get a memo table.
    pub fn memoization_enabled(&self) -> (r: bool)
        ensures
            r == self.memoizes(),
    {
        self.memoization_enabled
    }

    pub fn set_memoization_enabled(&mut self, enabled: bool)
        ensures
            final(self).memoizes() == enabled,
            old(self).wf() ==> final(self).wf(),
            final(self).locals() == old(self).locals(),
            final(self).globals() == old(self).globals(),
            final(self).pure_names() == old(self).pure_names(),
            final(self).pending() == old(self).pending(),
            final(self).pending_order() == old(self).pending_order(),
            final(self).profile() == old(self).profile(),
    {
        self.memoization_enabled = enabled;
        proof {
            use_type_invariant(&self.globals);
            use_type_invariant(&self.pure_functions);
            use_type_invariant(&self.pending_pure_functions);
            if old(self).wf() {
                assert forall|n: Seq<char>| #[trigger] self.pending().contains_key(n) implies self.globals().contains_key(
                    n) && !self.pure_names().contains(n) by {
                    assert(old(self).pending().contains_key(n));
                }
            }
        }
    }

    /// Forgets that `name` is pure.
    pub fn remove_pure_function(&mut self, name: &str)
        requires
            old(self).wf(),
        ensures
            final(self).wf(),
            final(self).pure_names() == old(self).pure_names().remove(name@),
            final(self).locals() == old(self).locals(),
            final(self).globals() == old(self).globals(),
            final(self).pending() == old(self).pending(),
            final(self).pending_order() == old(self).pending_order(),
            final(self).profile() == old(self).profile(),
            final(self).memoizes() == old(self).memoizes(),
    {
        self.pure_functions.remove(name);
        proof {
            use_type_invariant(&self.pure_functions);
            assert forall|n: Seq<char>| #[trigger] self.pending().contains_key(n) implies self.globals().contains_key(
                n) && !self.pure_names().contains(n) by {
                assert(old(self).pending().contains_key(n));
            }
        }
    }

    /// Stops `name` waiting; gives back its entry where it waited.
    pub fn remove_pending(&mut self, name: &str) -> (r: Option<PendingPureFunction<N, F, M>>)
        requires
            old(self).wf(),
        ensures
            final(self).wf(),
            final(self).pending() == old(self).pending().remove(name@),
            final(self).pending_order() == crate::assoc::without(old(self).pending_order(), name@),
            match r {
                Some(p) => old(self).pending().contains_key(name@) && p == old(self).pending()[name@],
                None => !old(self).pending().contains_key(name@),
            },
            final(self).locals() == old(self).locals(),
            final(self).globals() == old(self).globals(),
            final(self).pure_names() == old(self).pure_names(),
            final(self).profile() == old(self).profile(),
            final(self).memoizes() == old(self).memoizes(),
    {
        let r = self.pending_pure_functions.remove(name);
        proof {
            use_type_invariant(&self.pending_pure_functions);
            assert forall|n: Seq<char>| #[trigger] self.pending().contains_key(n) implies self.globals().contains_key(
                n) && !self.pure_names().contains(n) by {
                assert(old(self).pending().contains_key(n));
            }
        }
        r
    }

    /// Records `name` as pure; it no longer waits.
    pub fn promote_to_pure(&mut self, name: &str)
        requires
            old(self).wf(),
        ensures
            final(self).wf(),
            final(self).pure_names() == old(self).pure_names().insert(name@),
            final(self).pending() == old(self).pending().remove(name@),
            final(self).pending_order() == crate::assoc::without(old(self).pending_order(), name@),
            final(self).locals() == old(self).locals(),
            final(self).globals() == old(self).globals(),
            final(self).profile() == old(self).profile(),
            final(self).memoizes() == old(self).memoizes(),
    {
        self.pending_pure_functions.remove(name);
        self.pure_functions.insert(name.to_string());
        proof {
            use_type_invariant(&self.pending_pure_functions);
            use_type_invariant(&self.pure_functions);
            assert forall|n: Seq<char>| #[trigger] self.pending().contains_key(n) implies self.globals().contains_key(
                n) && !self.pure_names().contains(n) by {
                assert(old(self).pending().contains_key(n));
            }
        }
    }

    /// Makes the defined function `name`, not known to be pure, wait with `entry`.
    pub fn insert_pending(&mut self, name: String, entry: PendingPureFunction<N, F, M>)
        requires
            old(self).wf(),
            old(self).globals().contains_key(name@),
            !old(self).pure_names().contains(name@),
        ensures
            final(self).wf(),
            final(self).pending() == old(self).pending().insert(name@, entry),
            old(self).pending().contains_key(name@) ==> final(self).pending_order() == old(self).pending_order(),
            !old(self).pending().contains_key(name@) ==> final(self).pending_order() == old(self).pending_order().push(name@),
            final(self).locals() == old(self).locals(),
            final(self).globals() == old(self).globals(),
            final(self).pure_names() == old(self).pure_names(),
            final(self).profile() == old(self).profile(),
            final(self).memoizes() == old(self).memoizes(),
    {
        let ghost key = name@;
        self.pending_pure_functions.insert(name, entry);
        proof {
            use_type_invariant(&self.pending_pure_functions);
            assert forall|n: Seq<char>| #[trigger] self.pending().contains_key(n) implies self.globals().contains_key(
                n) && !self.pure_names().contains(n) by {
                if n != key {
                    assert(old(self).pending().contains_key(n));
                }
            }
        }
    }

    /// Replaces what the waiting function `name` waits on.
    pub fn set_pending_dependencies(&mut self, name: &str, dependencies: NameSet)
        requires
            old(self).wf(),
        ensures
            final(self).wf(),
            final(self).pending().dom() == old(self).pending().dom(),
            forall|n: Seq<char>| #[trigger] final(self).pending().contains_key(n) && n != name@ ==> final(self).pending()[n] == old(self).pending()[n],
            old(self).pending().contains_key(name@) ==> {
                let p0 = old(self).pending()[name@];
                let p1 = final(self).pending()[name@];
                &&& p1.params_count == p0.params_count
                &&& p1.body == p0.body
                &&& same_frames(p1.captured@, p0.captured@)
                &&& p1.unresolved_dependencies@ == dependencies@
            },
            final(self).pending_order() == old(self).pending_order(),
            final(self).locals() == old(self).locals(),
            final(self).globals() == old(self).globals(),
            final(self).pure_names() == old(self).pure_names(),
            final(self).profile() == old(self).profile(),
            final(self).memoizes() == old(self).memoizes(),
    {
        let updated = match self.pending_pure_functions.get(name) {
            Some(p) => Some(
                PendingPureFunction {
                    params_count: p.params_count,
                    body: p.body.clone(),
                    captured: clone_frames(&p.captured),
                    unresolved_dependencies: dependencies,
                },
            ),
            None => None,
        };
        if let Some(entry) = updated {
            self.pending_pure_functions.insert(name.to_string(), entry);
        }
        proof {
            use_type_invariant(&self.pending_pure_functions);
            assert(self.pending().dom() =~= old(self).pending().dom());
            assert forall|n: Seq<char>| #[trigger] self.pending().contains_key(n) implies self.globals().contains_key(
                n) && !self.pure_names().contains(n) by {
                assert(old(self).pending().contains_key(n));
            }
        }
    }

    /// A copy of the local frames.
    pub fn get_locals_clone(&self) -> (r: Vec<Vec<Rc<Value<N, F, M>>>>)
        ensures
            same_frames(r@, self.locals()),
    {
        clone_frames(&self.frames)
    }

    /// Replaces the local frames.
    pub fn set_locals(&mut self, new_locals: Vec<Vec<Rc<Value<N, F, M>>>>)
        ensures
            final(self).locals() == new_locals@,
            old(self).wf() ==> final(self).wf(),
            final(self).globals() == old(self).globals(),
            final(self).pure_names() == old(self).pure_names(),
            final(self).pending() == old(self).pending(),
            final(self).pending_order() == old(self).pending_order(),
            final(self).profile() == old(self).profile(),
            final(self).memoizes() == old(self).memoizes(),
    {
        self.frames = new_locals;
        proof {
            use_type_invariant(&self.globals);
            use_type_invariant(&self.pure_functions);
            use_type_invariant(&self.pending_pure_functions);
            if old(self).wf() {
                assert forall|n: Seq<char>| #[trigger] self.pending().contains_key(n) implies self.globals().contains_key(
                    n) && !self.pure_names().contains(n) by {
                    assert(old(self).pending().contains_key(n));
                }
            }
        }
    }

    /// How many local frames there are.
    pub fn frame_count(&self) -> (r: usize)
        ensures
            r == self.locals().len(),
    {
        self.frames.len()
    }

    /// The innermost frame.
    pub fn get_current_frame(&self) -> (r: &Vec<Rc<Value<N, F, M>>>)
        requires
            self.locals().len() > 0,
        ensures
            *r == self.locals().last(),
    {
        &self.frames[self.frames.len() - 1]
    }

    /// A copy of the innermost frame.
    pub fn get_current_frame_clone(&self) -> (r: Vec<Rc<Value<N, F, M>>>)
        requires
            self.locals().len() > 0,
        ensures
            r@ == self.locals().last()@,
    {
        let frame = self.get_current_frame();
        let mut copy: Vec<Rc<Value<N, F, M>>> = Vec::new();
        let mut j: usize = 0;
        while j < frame.len()
            invariant
                0 <= j <= frame@.len(),
                copy@ == frame@.subrange(0, j as int),
            decreases frame@.len() - j,
        {
            copy.push(frame[j].clone());
            assert(copy@ =~= frame@.subrange(0, j + 1));
            j += 1;
        }
        assert(copy@ =~= frame@);
        copy
    }
}

} // verus!
