use vstd::prelude::*;
use std::rc::Rc;
use crate::names::NameSet;
use crate::profiler::Profiler;
use crate::purity::{
    Purity, PurityContext, PurityState, expr_purity, is_expression_pure, law_impure_stays_impure,
    law_pure_stays_pure, more_pure, resolved_from, keeps_open, law_pure_stays_open, law_waiting_resolves,
    law_deferred_names_a_dependency, no_worse, still_open, with_pure,
};
use crate::scc::{
    covered, has_edge, is_partition, is_path, lemma_path_concat, reachable, strongly_connected,
    strongly_connected_components, wf_graph,
};
use crate::runtime_env::{
    EnvState, PendingPureFunction, PendingState, RuntimeEnv, lemma_same_frames_model, state_context,
};
use crate::compiler::{
    CompileError, CompileFailure, compile_ast, compile_spec, compile_would_panic, panics,
};
use crate::static_env::StaticEnv;
use crate::value::{Term, Value, chain_len, model_frames, model_seq, lemma_model_seq_len};

verus! {

/// `t` with a memo table, unless it has one already.
pub open spec fn memo_term<N, F>(t: Term<N, F>) -> Term<N, F> {
    if t is Memoized {
        t
    } else {
        Term::Memoized(Box::new(t))
    }
}

/// The body a function gets when installed: memoized where memoization is on.
pub open spec fn installed_body<N, F>(t: Term<N, F>, memoizes: bool) -> Term<N, F> {
    if memoizes {
        memo_term(t)
    } else {
        t
    }
}

pub open spec fn closure_term<N, F>(
    params_count: nat,
    body: Term<N, F>,
    captured: Seq<Seq<Term<N, F>>>,
) -> Term<N, F> {
    Term::Closure(params_count, Box::new(body), captured)
}

/// `s` with nothing recorded about the purity of `name`.
pub open spec fn cleared<N, F>(s: EnvState<N, F>, name: Seq<char>) -> EnvState<N, F> {
    EnvState { pure: s.pure.remove(name), pending: s.pending.remove(name), ..s }
}

/// `s` with `name` bound globally to `t`.
pub open spec fn with_global<N, F>(s: EnvState<N, F>, name: Seq<char>, t: Term<N, F>) -> EnvState<N, F> {
    EnvState { globals: s.globals.insert(name, t), ..s }
}

/// `s` with the function `name` installed and recorded as pure.
pub open spec fn marked_pure<N, F>(
    s: EnvState<N, F>,
    name: Seq<char>,
    params_count: nat,
    body: Term<N, F>,
    captured: Seq<Seq<Term<N, F>>>,
) -> EnvState<N, F> {
    EnvState {
        globals: s.globals.insert(
            name,
            closure_term(params_count, installed_body(body, s.memoizes), captured),
        ),
        pure: s.pure.insert(name),
        pending: s.pending.remove(name),
        profile: Profiler {
            pure_functions_detected: (s.profile.pure_functions_detected + 1) as usize,
            ..s.profile
        },
        ..s
    }
}

/// `s` with the function `name` installed and waiting on `deps`.
pub open spec fn stored_pending<N, F>(
    s: EnvState<N, F>,
    name: Seq<char>,
    params_count: nat,
    body: Term<N, F>,
    captured: Seq<Seq<Term<N, F>>>,
    deps: Set<Seq<char>>,
) -> EnvState<N, F> {
    EnvState {
        globals: s.globals.insert(name, closure_term(params_count, body, captured)),
        pending: s.pending.insert(
            name,
            PendingState { params_count, body, captured, deps },
        ),
        ..s
    }
}

/// `body` with a memo table, unless it has one already.
fn memoized_body<N, F, M: Default>(body: Rc<Value<N, F, M>>) -> (r: Rc<Value<N, F, M>>)
    ensures
        r@ == memo_term(body@),
{
    match &*body {
        Value::Memoized { .. } => body,
        _ => Rc::new(Value::Memoized { body, cache: M::default() }),
    }
}

/// Forgets what is known of the purity of `name`.
fn clear_purity_metadata<N, F, M>(env: &mut RuntimeEnv<N, F, M>, name: &str)
    requires
        old(env).wf(),
    ensures
        final(env).wf(),
        final(env).state() == cleared(old(env).state(), name@),
{
    env.remove_pure_function(name);
    env.remove_pending(name);
    proof {
        assert(final(env).state().pending =~= old(env).state().pending.remove(name@));
    }
}

/// What the purity analysis knows: the pure functions, the defined names and
/// the waiting functions.
fn purity_context<N, F, M>(env: &RuntimeEnv<N, F, M>) -> (r: (NameSet, NameSet, NameSet))
    ensures
        r.0@ == env.state().pure,
        r.1@ == env.state().globals.dom(),
        r.2@ == env.state().pending.dom(),
{
    (env.pure_functions().duplicate(), env.global_symbols(), env.pending_symbols())
}

/// Binds `name` to a closure over `body`.
fn install_function<N, F, M>(
    env: &mut RuntimeEnv<N, F, M>,
    name: &str,
    params_count: usize,
    body: Rc<Value<N, F, M>>,
    captured: Vec<Vec<Rc<Value<N, F, M>>>>,
)
    requires
        old(env).wf(),
    ensures
        final(env).wf(),
        final(env).state() == with_global(
            old(env).state(),
            name@,
            closure_term(params_count as nat, body@, model_frames(captured@)),
        ),
        final(env).pending_order() == old(env).pending_order(),
        final(env).pending() == old(env).pending(),
        final(env).globals().contains_key(name@),
{
    let closure = Rc::new(Value::Closure { params_count, body, captured });
    env.define_global(name, closure);
    proof {
        assert(final(env).state().globals =~= old(env).state().globals.insert(
            name@,
            closure_term(params_count as nat, body@, model_frames(captured@)),
        ));
    }
}

/// Installs `name` with a memoized body, when memoization is on, and records
/// it as pure.
fn mark_function_as_pure<N, F, M: Default>(
    env: &mut RuntimeEnv<N, F, M>,
    name: &str,
    params_count: usize,
    body: Rc<Value<N, F, M>>,
    captured: Vec<Vec<Rc<Value<N, F, M>>>>,
)
    requires
        old(env).wf(),
        old(env).state().profile.pure_functions_detected < usize::MAX,
    ensures
        final(env).wf(),
        final(env).state() == marked_pure(
            old(env).state(),
            name@,
            params_count as nat,
            body@,
            model_frames(captured@),
        ),
        final(env).pending_order() == crate::assoc::without(old(env).pending_order(), name@),
{
    let ghost captured_model = model_frames(captured@);
    let body = if env.memoization_enabled() {
        memoized_body(body)
    } else {
        body
    };
    install_function(env, name, params_count, body, captured);
    env.promote_to_pure(name);
    let mut profiler = *env.profiler();
    profiler.pure_functions_detected = profiler.pure_functions_detected + 1;
    env.set_profiler(profiler);
    proof {
        assert(final(env).state().pending =~= old(env).state().pending.remove(name@));
    }
}

/// Installs `name` and records that its purity waits on `unresolved_dependencies`.
fn store_pending_function<N, F, M>(
    env: &mut RuntimeEnv<N, F, M>,
    name: String,
    params_count: usize,
    body: Rc<Value<N, F, M>>,
    captured: Vec<Vec<Rc<Value<N, F, M>>>>,
    unresolved_dependencies: NameSet,
)
    requires
        old(env).wf(),
        !old(env).state().pure.contains(name@),
    ensures
        final(env).wf(),
        final(env).state() == stored_pending(
            old(env).state(),
            name@,
            params_count as nat,
            body@,
            model_frames(captured@),
            unresolved_dependencies@,
        ),
        !old(env).pending().contains_key(name@) ==> final(env).pending_order() == old(
            env,
        ).pending_order().push(name@),
        old(env).pending().contains_key(name@) ==> final(env).pending_order() == old(
            env,
        ).pending_order(),
{
    let captured_copy = crate::runtime_env::clone_frames(&captured);
    proof {
        lemma_same_frames_model(captured_copy@, captured@);
    }
    install_function(env, name.as_str(), params_count, body.clone(), captured_copy);
    let entry = PendingPureFunction { params_count, body, captured, unresolved_dependencies };
    env.insert_pending(name, entry);
    proof {
        assert(final(env).state().pending =~= old(env).state().pending.insert(
            name@,
            PendingState {
                params_count: params_count as nat,
                body: body@,
                captured: model_frames(captured@),
                deps: unresolved_dependencies@,
            },
        ));
    }
}

/// The names held by `v`.
pub open spec fn name_set(v: Seq<String>) -> Set<Seq<char>> {
    Set::new(|x: Seq<char>| exists|i: int| 0 <= i < v.len() && v[i]@ == x)
}

/// What the analysis of `name` knows when the functions `cycle` are assumed
/// pure besides those of `s`.
pub open spec fn assumed_context<N, F>(
    s: EnvState<N, F>,
    cycle: Set<Seq<char>>,
    name: Seq<char>,
) -> PurityContext {
    PurityContext { pure: s.pure.union(cycle), ..state_context(s, name) }
}

/// The waiting function `name` is pure once the functions `cycle` are.
pub open spec fn pure_within<N, F>(s: EnvState<N, F>, cycle: Set<Seq<char>>, name: Seq<char>) -> bool {
    &&& s.pending.contains_key(name)
    &&& expr_purity(s.pending[name].body, assumed_context(s, cycle, name)) == Purity::Pure
}

/// The graph of the waiting functions, taken in `env.pending_order()`: an edge
/// leads from each to those it waits on.
fn pending_dependency_graph<N, F, M>(env: &RuntimeEnv<N, F, M>) -> (graph: Vec<Vec<usize>>)
    requires
        env.wf(),
    ensures
        graph@.len() == env.pending_order().len(),
        wf_graph(graph.deep_view()),
        forall|i: int, j: int|
            0 <= i < graph@.len() && 0 <= j < graph@.len() ==> (#[trigger] graph.deep_view()[i].contains(
                j as usize,
            ) <==> env.state().pending[env.pending_order()[i]].deps.contains(
                #[trigger] env.pending_order()[j],
            )),
{
    proof {
        env.lemma_wf();
    }
    let names = env.pending_names();
    let n = names.len();
    let mut graph: Vec<Vec<usize>> = Vec::new();
    let mut i: usize = 0;
    while i < n
        invariant
            env.wf(),
            n == names@.len(),
            names@.len() == env.pending_order().len(),
            forall|k: int| 0 <= k < n ==> #[trigger] names@[k]@ == env.pending_order()[k],
            env.pending_order().to_set() == env.pending().dom(),
            0 <= i <= n,
            graph@.len() == i,
            forall|u: int, k: int| 0 <= u < i && 0 <= k < graph@[u]@.len() ==> #[trigger] graph@[u]@[k] < n,
            forall|u: int, j: int|
                0 <= u < i && 0 <= j < n ==> (#[trigger] graph@[u]@.contains(j as usize)
                    <==> env.state().pending[env.pending_order()[u]].deps.contains(
                    #[trigger] env.pending_order()[j],
                )),
        decreases n - i,
    {
        let mut edges: Vec<usize> = Vec::new();
        assert(env.pending_order().contains(env.pending_order()[i as int]));
        match env.pending_function(names[i].as_str()) {
            Some(p) => {
                let mut j: usize = 0;
                while j < n
                    invariant
                        n == names@.len(),
                        forall|k: int| 0 <= k < n ==> #[trigger] names@[k]@ == env.pending_order()[k],
                        env.pending().contains_key(names@[i as int]@),
                        *p == env.pending()[names@[i as int]@],
                        0 <= j <= n,
                        forall|k: int| 0 <= k < edges@.len() ==> #[trigger] edges@[k] < j,
                        forall|x: usize| x < j ==> (#[trigger] edges@.contains(x) <==> p.unresolved_dependencies@.contains(
                            env.pending_order()[x as int],
                        )),
                    decreases n - j,
                {
                    let ghost before = edges@;
                    if p.unresolved_dependencies.contains_string(&names[j]) {
                        edges.push(j);
                        assert(edges@.last() == j);
                    }
                    proof {
                        assert forall|x: usize| x < j + 1 implies (#[trigger] edges@.contains(x)
                            <==> p.unresolved_dependencies@.contains(env.pending_order()[x as int])) by {
                            if x < j {
                                if before.contains(x) {
                                    let k = choose|k: int| 0 <= k < before.len() && before[k] == x;
                                    assert(edges@[k] == x);
                                }
                                if edges@.contains(x) {
                                    let k = choose|k: int| 0 <= k < edges@.len() && edges@[k] == x;
                                    if k < before.len() {
                                        assert(before[k] == x);
                                    }
                                }
                            } else {
                                if edges@.contains(x) {
                                    let k = choose|k: int| 0 <= k < edges@.len() && edges@[k] == x;
                                    if k < before.len() {
                                        assert(before[k] < j);
                                    }
                                }
                            }
                        }
                    }
                    j += 1;
                }
            },
            None => {},
        }
        graph.push(edges);
        proof {
            assert forall|j: int| 0 <= j < n implies (#[trigger] graph@[i as int]@.contains(j as usize)
                <==> env.state().pending[env.pending_order()[i as int]].deps.contains(
                env.pending_order()[j],
            )) by {
                assert(graph@[i as int] == edges);
            }
        }
        i += 1;
    }
    proof {
        assert forall|u: int, k: int| 0 <= u < graph.deep_view().len() && 0 <= k < graph.deep_view()[u].len()
            implies #[trigger] graph.deep_view()[u][k] < graph.deep_view().len() by {
            assert(graph.deep_view()[u] == graph@[u]@);
        }
        assert forall|u: int, j: int| 0 <= u < graph@.len() && 0 <= j < graph@.len() implies (#[trigger] graph.deep_view()[u].contains(
            j as usize,
        ) <==> env.state().pending[env.pending_order()[u]].deps.contains(
            #[trigger] env.pending_order()[j],
        )) by {
            assert(graph.deep_view()[u] == graph@[u]@);
        }
    }
    graph
}

/// Whether every function of `cycle` waits and is pure once all of `cycle`
/// is assumed pure besides `base_pure_functions`.
fn is_promotable_pending_cycle<N, F, M>(
    env: &RuntimeEnv<N, F, M>,
    cycle: &Vec<String>,
    base_pure_functions: &NameSet,
    known_functions: &NameSet,
    pending_functions: &NameSet,
) -> (r: bool)
    requires
        base_pure_functions@ == env.state().pure,
        known_functions@ == env.state().globals.dom(),
        pending_functions@ == env.state().pending.dom(),
    ensures
        r == forall|k: int| 0 <= k < cycle@.len() ==> pure_within(
            env.state(),
            name_set(cycle@),
            #[trigger] cycle@[k]@,
        ),
{
    let mut assumed = base_pure_functions.duplicate();
    let members = NameSet::from_names(cycle);
    assumed.extend(&members);
    proof {
        assert(members@ =~= name_set(cycle@));
    }
    let mut i: usize = 0;
    while i < cycle.len()
        invariant
            0 <= i <= cycle@.len(),
            assumed@ == env.state().pure.union(name_set(cycle@)),
            known_functions@ == env.state().globals.dom(),
            pending_functions@ == env.state().pending.dom(),
            forall|k: int| 0 <= k < i ==> pure_within(env.state(), name_set(cycle@), #[trigger] cycle@[k]@),
        decreases cycle@.len() - i,
    {
        let name = cycle[i].as_str();
        match env.pending_function(name) {
            None => {
                return false;
            },
            Some(p) => {
                let verdict = is_expression_pure(
                    &p.body,
                    &assumed,
                    known_functions,
                    pending_functions,
                    name,
                );
                match verdict {
                    PurityState::Pure => {},
                    _ => {
                        return false;
                    },
                }
            },
        }
        i += 1;
    }
    true
}

/// `p` is a chain of waiting functions, each waiting on the next.
pub open spec fn is_wait_chain<N, F>(s: EnvState<N, F>, p: Seq<Seq<char>>) -> bool {
    &&& p.len() > 0
    &&& forall|i: int| 0 <= i < p.len() ==> #[trigger] s.pending.contains_key(p[i])
    &&& forall|i: int| 0 <= i < p.len() - 1 ==> s.pending[#[trigger] p[i]].deps.contains(p[i + 1])
}

/// The waiting function `a` waits, through a chain, on `b`.
pub open spec fn waits_on<N, F>(s: EnvState<N, F>, a: Seq<char>, b: Seq<char>) -> bool {
    exists|p: Seq<Seq<char>>| #[trigger] is_wait_chain(s, p) && p[0] == a && p.last() == b
}

/// `a` and `b` wait on each other.
pub open spec fn same_cycle<N, F>(s: EnvState<N, F>, a: Seq<char>, b: Seq<char>) -> bool {
    waits_on(s, a, b) && waits_on(s, b, a)
}

/// The waiting functions that wait on `a` and on which `a` waits.
pub open spec fn cycle_of<N, F>(s: EnvState<N, F>, a: Seq<char>) -> Set<Seq<char>> {
    Set::new(|b: Seq<char>| same_cycle(s, a, b))
}

/// Every function of the cycle of `a` is pure once the whole cycle is.
pub open spec fn promotable_cycle<N, F>(s: EnvState<N, F>, a: Seq<char>) -> bool {
    forall|m: Seq<char>| #[trigger] cycle_of(s, a).contains(m) ==> pure_within(s, cycle_of(s, a), m)
}

/// No cycle of more than one waiting function is pure as a whole.
pub open spec fn no_promotable_cycle<N, F>(s: EnvState<N, F>) -> bool {
    forall|a: Seq<char>, b: Seq<char>| #[trigger] same_cycle(s, a, b) && a != b ==> !promotable_cycle(s, a)
}

/// `g` is the graph of the waiting functions of `s` taken in `order`: an edge
/// from each to those it waits on.
pub open spec fn dependency_graph_of<N, F>(s: EnvState<N, F>, order: Seq<Seq<char>>, g: Seq<Seq<usize>>) -> bool {
    &&& g.len() == order.len()
    &&& wf_graph(g)
    &&& order.no_duplicates()
    &&& order.to_set() == s.pending.dom()
    &&& forall|i: int, j: int|
        0 <= i < g.len() && 0 <= j < g.len() ==> (#[trigger] g[i].contains(j as usize) <==> s.pending[order[i]].deps.contains(
            #[trigger] order[j],
        ))
}

proof fn lemma_order_index(order: Seq<Seq<char>>, i: int, j: int)
    requires
        order.no_duplicates(),
        0 <= i < order.len(),
        0 <= j < order.len(),
        order[i] == order[j],
    ensures
        i == j,
{
}

/// Reachability in the dependency graph is waiting through a chain.
proof fn lemma_graph_waits<N, F>(s: EnvState<N, F>, order: Seq<Seq<char>>, g: Seq<Seq<usize>>, x: int, y: int)
    requires
        dependency_graph_of(s, order, g),
        g.len() <= usize::MAX,
        0 <= x < g.len(),
        0 <= y < g.len(),
    ensures
        reachable(g, x, y) <==> waits_on(s, order[x], order[y]),
{
    if reachable(g, x, y) {
        let p = choose|p: Seq<usize>| #[trigger] is_path(g, p) && p[0] == x && p.last() == y;
        let q = Seq::new(p.len(), |k: int| order[p[k] as int]);
        assert forall|i: int| 0 <= i < q.len() implies #[trigger] s.pending.contains_key(q[i]) by {
            assert(p[i] < g.len());
            assert(order.contains(order[p[i] as int]));
            assert(order.to_set().contains(q[i]));
        }
        assert forall|i: int| 0 <= i < q.len() - 1 implies s.pending[#[trigger] q[i]].deps.contains(q[i + 1]) by {
            assert(has_edge(g, p[i] as int, p[i + 1] as int));
            assert(p[i + 1] < g.len());
            assert(g[p[i] as int].contains(p[i + 1]));
            assert(g[p[i] as int].contains((p[i + 1] as int) as usize));
        }
        assert(is_wait_chain(s, q) && q[0] == order[x] && q.last() == order[y]);
    }
    if waits_on(s, order[x], order[y]) {
        let q = choose|q: Seq<Seq<char>>| #[trigger] is_wait_chain(s, q) && q[0] == order[x] && q.last() == order[y];
        assert forall|k: int| 0 <= k < q.len() implies order.contains(#[trigger] q[k]) by {
            assert(s.pending.contains_key(q[k]));
            assert(order.to_set().contains(q[k]));
        }
        let p = Seq::new(q.len(), |k: int| order.index_of(q[k]) as usize);
        assert forall|k: int| 0 <= k < p.len() implies #[trigger] order[p[k] as int] == q[k] && p[k] < g.len() by {
            assert(order.contains(q[k]));
            let i = order.index_of(q[k]);
            assert(0 <= i < order.len() && order[i] == q[k]);
            assert(p[k] == i as usize);
        }
        assert(p[0] == x) by {
            lemma_order_index(order, order.index_of(q[0]), x);
        }
        assert(p.last() == y) by {
            lemma_order_index(order, order.index_of(q[q.len() - 1]), y);
        }
        assert forall|k: int| 0 <= k < p.len() - 1 implies has_edge(g, #[trigger] p[k] as int, p[k + 1] as int) by {
            assert(order[p[k] as int] == q[k]);
            assert(order[p[k + 1] as int] == q[k + 1]);
            assert(s.pending[q[k]].deps.contains(q[k + 1]));
            assert(g[p[k] as int].contains(p[k + 1]));
        }
        assert(is_path(g, p));
    }
}

proof fn lemma_waits_trans<N, F>(s: EnvState<N, F>, a: Seq<char>, b: Seq<char>, c: Seq<char>)
    requires
        waits_on(s, a, b),
        waits_on(s, b, c),
    ensures
        waits_on(s, a, c),
{
    let p = choose|p: Seq<Seq<char>>| #[trigger] is_wait_chain(s, p) && p[0] == a && p.last() == b;
    let q = choose|q: Seq<Seq<char>>| #[trigger] is_wait_chain(s, q) && q[0] == b && q.last() == c;
    let w = p + q.drop_first();
    assert forall|i: int| 0 <= i < w.len() implies #[trigger] s.pending.contains_key(w[i]) by {
        if i < p.len() {
            assert(w[i] == p[i]);
        } else {
            assert(w[i] == q[i - p.len() + 1]);
        }
    }
    assert forall|i: int| 0 <= i < w.len() - 1 implies s.pending[#[trigger] w[i]].deps.contains(w[i + 1]) by {
        if i < p.len() - 1 {
            assert(w[i] == p[i] && w[i + 1] == p[i + 1]);
        } else if i == p.len() - 1 {
            assert(w[i] == q[0] && w[i + 1] == q[1]);
        } else {
            let j = i - p.len() + 1;
            assert(w[i] == q[j] && w[i + 1] == q[j + 1]);
        }
    }
    if q.len() == 1 {
        assert(w =~= p);
    } else {
        assert(w.last() == q.last());
    }
    assert(is_wait_chain(s, w) && w[0] == a);
}

/// Functions on one cycle have the same cycle.
proof fn lemma_same_cycle_of<N, F>(s: EnvState<N, F>, a: Seq<char>, b: Seq<char>)
    requires
        same_cycle(s, a, b),
    ensures
        cycle_of(s, a) == cycle_of(s, b),
{
    assert forall|m: Seq<char>| cycle_of(s, a).contains(m) == cycle_of(s, b).contains(m) by {
        if same_cycle(s, a, m) {
            lemma_waits_trans(s, b, a, m);
            lemma_waits_trans(s, m, a, b);
        }
        if same_cycle(s, b, m) {
            lemma_waits_trans(s, a, b, m);
            lemma_waits_trans(s, m, b, a);
        }
    }
    assert(cycle_of(s, a) =~= cycle_of(s, b));
}

/// The cycles of waiting functions, each of more than one function, whose
/// members are all pure once the whole cycle is assumed pure: every such
/// cycle, each listed once with its members.
fn find_promotable_pending_cycles<N, F, M>(env: &RuntimeEnv<N, F, M>) -> (r: Vec<Vec<String>>)
    requires
        env.wf(),
    ensures
        forall|c: int| 0 <= c < r@.len() ==> #[trigger] r@[c]@.len() > 1,
        forall|c: int, k: int|
            0 <= c < r@.len() && 0 <= k < r@[c]@.len() ==> pure_within(
                env.state(),
                name_set(r@[c]@),
                #[trigger] r@[c]@[k]@,
            ),
        forall|c: int| 0 <= c < r@.len() ==> #[trigger] name_set(r@[c]@) == cycle_of(env.state(), r@[c]@[0]@),
        forall|a: Seq<char>, b: Seq<char>|
            #[trigger] same_cycle(env.state(), a, b) && a != b && promotable_cycle(env.state(), a) ==> exists|c: int|
                0 <= c < r@.len() && #[trigger] name_set(r@[c]@).contains(a),
{
    let ghost st = env.state();
    let ghost order = env.pending_order();
    proof {
        lemma_consistent(env);
    }
    let (base_pure_functions, known_functions, pending_functions) = purity_context(env);
    let names = env.pending_names();
    let graph = pending_dependency_graph(env);
    let ghost g = graph.deep_view();
    proof {
        assert(g.len() == graph@.len());
        assert(graph.len() == graph@.len());
        assert(dependency_graph_of(st, order, g));
    }
    let components = strongly_connected_components(&graph);
    let ghost n = graph@.len();
    let mut result: Vec<Vec<String>> = Vec::new();
    let mut c: usize = 0;
    while c < components.len()
        invariant
            st == env.state(),
            order == env.pending_order(),
            is_partition(components.deep_view(), n as nat),
            forall|c2: int, x: usize|
                0 <= c2 < components@.len() && x < n ==> (#[trigger] components@[c2]@.contains(x)
                    <==> strongly_connected(g, x as int, components@[c2]@[0] as int)),
            components.deep_view().len() == components@.len(),
            forall|c2: int| 0 <= c2 < components@.len() ==> #[trigger] components.deep_view()[c2] == components@[c2]@,
            dependency_graph_of(st, order, g),
            g.len() == n,
            n <= usize::MAX,
            n == names@.len(),
            forall|k: int| 0 <= k < n ==> #[trigger] names@[k]@ == order[k],
            0 <= c <= components@.len(),
            base_pure_functions@ == st.pure,
            known_functions@ == st.globals.dom(),
            pending_functions@ == st.pending.dom(),
            forall|d: int| 0 <= d < result@.len() ==> #[trigger] result@[d]@.len() > 1,
            forall|d: int, k: int|
                0 <= d < result@.len() && 0 <= k < result@[d]@.len() ==> pure_within(
                    st,
                    name_set(result@[d]@),
                    #[trigger] result@[d]@[k]@,
                ),
            forall|d: int| 0 <= d < result@.len() ==> #[trigger] name_set(result@[d]@) == cycle_of(st, result@[d]@[0]@),
            forall|c2: int, x: usize|
                0 <= c2 < c && x < n && #[trigger] components@[c2]@.contains(x) && components@[c2]@.len() > 1
                    && promotable_cycle(st, order[x as int]) ==> exists|d: int|
                    0 <= d < result@.len() && #[trigger] name_set(result@[d]@).contains(order[x as int]),
        decreases components@.len() - c,
    {
        let component = &components[c];
        let ghost comp = component@;
        proof {
            assert forall|m: int| 0 <= m < comp.len() implies #[trigger] comp[m] < n by {
                assert(components.deep_view()[c as int] == comp);
                assert(components.deep_view()[c as int][m] < n);
            }
            assert(comp.len() > 0) by {
                assert(components.deep_view()[c as int] == comp);
            }
        }
        if component.len() > 1 {
            let mut cycle: Vec<String> = Vec::new();
            let mut k: usize = 0;
            while k < component.len()
                invariant
                    comp == component@,
                    0 <= k <= comp.len(),
                    cycle@.len() == k,
                    n == names@.len(),
                    forall|m: int| 0 <= m < comp.len() ==> #[trigger] comp[m] < n,
                    forall|m: int| 0 <= m < n ==> #[trigger] names@[m]@ == order[m],
                    forall|m: int| 0 <= m < k ==> #[trigger] cycle@[m]@ == order[comp[m] as int],
                decreases comp.len() - k,
            {
                cycle.push(names[component[k]].clone());
                k += 1;
            }
            let ghost a0 = order[comp[0] as int];
            proof {
                assert(cycle@[0]@ == a0);
                assert forall|m: Seq<char>| #[trigger] name_set(cycle@).contains(m) == cycle_of(st, a0).contains(m) by {
                    if name_set(cycle@).contains(m) {
                        let k = choose|k: int| 0 <= k < cycle@.len() && cycle@[k]@ == m;
                        let x = comp[k];
                        assert(comp.contains(x));
                        assert(strongly_connected(g, x as int, comp[0] as int));
                        lemma_graph_waits(st, order, g, x as int, comp[0] as int);
                        lemma_graph_waits(st, order, g, comp[0] as int, x as int);
                        assert(same_cycle(st, a0, m));
                    }
                    if cycle_of(st, a0).contains(m) {
                        assert(same_cycle(st, a0, m));
                        let q = choose|q: Seq<Seq<char>>| #[trigger] is_wait_chain(st, q) && q[0] == a0 && q.last() == m;
                        assert(st.pending.contains_key(q[q.len() - 1]));
                        assert(order.to_set().contains(m));
                        let j = choose|j: int| 0 <= j < order.len() && order[j] == m;
                        lemma_graph_waits(st, order, g, j, comp[0] as int);
                        lemma_graph_waits(st, order, g, comp[0] as int, j);
                        assert(comp.contains(j as usize));
                        let k = choose|k: int| 0 <= k < comp.len() && comp[k] == j as usize;
                        assert(cycle@[k]@ == m);
                    }
                }
                assert(name_set(cycle@) =~= cycle_of(st, a0));
                assert forall|x: usize| x < n && #[trigger] comp.contains(x) implies cycle_of(st, order[x as int])
                    == cycle_of(st, a0) && name_set(cycle@).contains(order[x as int]) by {
                    let k = choose|k: int| 0 <= k < comp.len() && comp[k] == x;
                    assert(cycle@[k]@ == order[x as int]);
                    assert(cycle_of(st, a0).contains(order[x as int]));
                    lemma_same_cycle_of(st, a0, order[x as int]);
                }
            }
            let promotable = is_promotable_pending_cycle(
                env,
                &cycle,
                &base_pure_functions,
                &known_functions,
                &pending_functions,
            );
            proof {
                if promotable {
                    assert forall|m: Seq<char>| #[trigger] cycle_of(st, a0).contains(m) implies pure_within(
                        st,
                        cycle_of(st, a0),
                        m,
                    ) by {
                        assert(name_set(cycle@).contains(m));
                        let k = choose|k: int| 0 <= k < cycle@.len() && cycle@[k]@ == m;
                        assert(pure_within(st, name_set(cycle@), cycle@[k]@));
                    }
                } else {
                    let k = choose|k: int| 0 <= k < cycle@.len() && !pure_within(st, name_set(cycle@), #[trigger] cycle@[k]@);
                    assert(name_set(cycle@).contains(cycle@[k]@));
                    assert(!promotable_cycle(st, a0));
                }
            }
            if promotable {
                let ghost before = result@;
                result.push(cycle);
                proof {
                    assert forall|c2: int, x: usize|
                        0 <= c2 < c + 1 && x < n && #[trigger] components@[c2]@.contains(x) && components@[c2]@.len() > 1
                            && promotable_cycle(st, order[x as int]) implies exists|d: int|
                            0 <= d < result@.len() && #[trigger] name_set(result@[d]@).contains(order[x as int]) by {
                        if c2 < c {
                            let d = choose|d: int| 0 <= d < before.len() && #[trigger] name_set(before[d]@).contains(order[x as int]);
                            assert(result@[d] == before[d]);
                        } else {
                            assert(result@[before.len() as int]@ == cycle@);
                            assert(name_set(result@[before.len() as int]@).contains(order[x as int]));
                        }
                    }
                    assert forall|d: int| 0 <= d < result@.len() implies #[trigger] name_set(result@[d]@) == cycle_of(st, result@[d]@[0]@) by {
                        if d < before.len() {
                            assert(result@[d] == before[d]);
                        }
                    }
                    assert forall|d: int| 0 <= d < result@.len() implies #[trigger] result@[d]@.len() > 1 by {
                        if d < before.len() {
                            assert(result@[d] == before[d]);
                        }
                    }
                    assert forall|d: int, k: int|
                        0 <= d < result@.len() && 0 <= k < result@[d]@.len() implies pure_within(
                            st,
                            name_set(result@[d]@),
                            #[trigger] result@[d]@[k]@,
                        ) by {
                        if d < before.len() {
                            assert(result@[d] == before[d]);
                        }
                    }
                }
            } else {
                proof {
                    assert forall|c2: int, x: usize|
                        0 <= c2 < c + 1 && x < n && #[trigger] components@[c2]@.contains(x) && components@[c2]@.len() > 1
                            && promotable_cycle(st, order[x as int]) implies exists|d: int|
                            0 <= d < result@.len() && #[trigger] name_set(result@[d]@).contains(order[x as int]) by {
                        if c2 == c {
                            assert(comp.contains(x));
                            assert(cycle_of(st, order[x as int]) == cycle_of(st, a0));
                        }
                    }
                }
            }
        }
        c += 1;
    }
    proof {
        assert forall|a: Seq<char>, b: Seq<char>|
            #[trigger] same_cycle(st, a, b) && a != b && promotable_cycle(st, a) implies exists|d: int|
                0 <= d < result@.len() && #[trigger] name_set(result@[d]@).contains(a) by {
            let p = choose|p: Seq<Seq<char>>| #[trigger] is_wait_chain(st, p) && p[0] == a && p.last() == b;
            assert(st.pending.contains_key(p[0]));
            assert(st.pending.contains_key(p[p.len() - 1]));
            assert(order.to_set().contains(a));
            assert(order.to_set().contains(b));
            let x = choose|x: int| 0 <= x < order.len() && order[x] == a;
            let y = choose|y: int| 0 <= y < order.len() && order[y] == b;
            assert(covered(components.deep_view(), x as usize));
            let c2 = choose|c2: int| 0 <= c2 < components.deep_view().len() && #[trigger] components.deep_view()[c2].contains(
                x as usize,
            );
            assert(components.deep_view()[c2] == components@[c2]@);
            let comp = components@[c2]@;
            lemma_graph_waits(st, order, g, x, y);
            lemma_graph_waits(st, order, g, y, x);
            assert(strongly_connected(g, x, comp[0] as int));
            assert(strongly_connected(g, y, x));
            crate::scc::lemma_sc_trans(g, y, x, comp[0] as int);
            assert(comp.contains(y as usize));
            if comp.len() <= 1 {
                let i = choose|i: int| 0 <= i < comp.len() && comp[i] == x as usize;
                let j = choose|j: int| 0 <= j < comp.len() && comp[j] == y as usize;
                assert(i == 0 && j == 0);
                assert(false);
            }
            assert(components@[c2]@.contains(x as usize));
        }
    }
    result
}

/// `n` became pure on the way from `s0` to `s1`.
pub open spec fn promoted<N, F>(s0: EnvState<N, F>, s1: EnvState<N, F>, n: Seq<char>) -> bool {
    s1.pure.contains(n) && !s0.pure.contains(n)
}

/// `n` waited in `s0` and was found impure on the way to `s1`.
pub open spec fn dropped<N, F>(s0: EnvState<N, F>, s1: EnvState<N, F>, n: Seq<char>) -> bool {
    s0.pending.contains_key(n) && !s1.pending.contains_key(n) && !s1.pure.contains(n)
}

/// Every function in `c` waited in `s0` and was found impure on the way to `s1`.
pub open spec fn all_dropped<N, F>(s0: EnvState<N, F>, s1: EnvState<N, F>, c: Set<Seq<char>>) -> bool {
    forall|n: Seq<char>| #[trigger] c.contains(n) ==> dropped(s0, s1, n)
}

/// Some function of `c` is impure in `s1` even with all of `c` assumed pure.
pub open spec fn impure_within<N, F>(s0: EnvState<N, F>, s1: EnvState<N, F>, c: Set<Seq<char>>) -> bool {
    exists|m: Seq<char>| #[trigger] c.contains(m) && expr_purity(s0.pending[m].body, assumed_context(s1, c, m))
        == Purity::Impure
}

/// No set of dropped functions is pure once it is itself assumed pure: each
/// non-empty set of them holds one that is impure even then. So a cycle of
/// functions that are pure together is never dropped.
pub open spec fn drops_justified<N, F>(s0: EnvState<N, F>, s1: EnvState<N, F>) -> bool {
    forall|c: Set<Seq<char>>| #[trigger] all_dropped(s0, s1, c) && c != Set::<Seq<char>>::empty() ==> impure_within(
        s0,
        s1,
        c,
    )
}

/// The global binding a waiting function gets when it is found pure.
pub open spec fn installed_closure<N, F>(p: PendingState<N, F>, memoizes: bool) -> Term<N, F> {
    closure_term(p.params_count, installed_body(p.body, memoizes), p.captured)
}

/// The same function, whatever it waits on.
pub open spec fn same_function<N, F>(p: PendingState<N, F>, q: PendingState<N, F>) -> bool {
    p.params_count == q.params_count && p.body == q.body && p.captured == q.captured
}

/// `s1` arises from `s0` by settling waiting functions: those found pure are
/// installed and counted, those found impure stop waiting (and no group of
/// them is pure once the group itself is assumed pure), nothing else changes
/// but what the others wait on.
pub open spec fn settles<N, F>(s0: EnvState<N, F>, s1: EnvState<N, F>) -> bool {
    &&& s1.locals == s0.locals
    &&& s1.memoizes == s0.memoizes
    &&& s1.globals.dom() == s0.globals.dom()
    &&& s0.pure.subset_of(s1.pure)
    &&& s1.pending.dom().subset_of(s0.pending.dom())
    &&& forall|n: Seq<char>| #[trigger] s1.pending.contains_key(n) ==> same_function(s1.pending[n], s0.pending[n])
    &&& forall|n: Seq<char>| #[trigger] promoted(s0, s1, n) ==> s0.pending.contains_key(n) && s1.globals[n]
        == installed_closure(s0.pending[n], s0.memoizes)
    &&& forall|n: Seq<char>| s0.globals.contains_key(n) && !promoted(s0, s1, n) ==> #[trigger] s1.globals[n]
        == s0.globals[n]
    &&& forall|n: Seq<char>| #[trigger] dropped(s0, s1, n) ==> expr_purity(s0.pending[n].body, state_context(s1, n))
        == Purity::Impure
    &&& drops_justified(s0, s1)
    &&& s1.profile.pure_functions_detected == s0.profile.pure_functions_detected + s1.pure.len() - s0.pure.len()
    &&& s1.profile.constant_folds == s0.profile.constant_folds
    &&& s1.profile.total_calls == s0.profile.total_calls
    &&& s1.profile.tail_calls_optimized == s0.profile.tail_calls_optimized
    &&& s1.profile.memo_cache_hits == s0.profile.memo_cache_hits
    &&& s1.profile.memo_cache_misses == s0.profile.memo_cache_misses
}

/// Every function that became pure from `s0` to `s1` is pure once `extra` is
/// assumed pure besides the pure functions of `s1`.
pub open spec fn pure_given<N, F>(s0: EnvState<N, F>, s1: EnvState<N, F>, extra: Set<Seq<char>>) -> bool {
    forall|n: Seq<char>| #[trigger] promoted(s0, s1, n) ==> expr_purity(s0.pending[n].body, assumed_context(s1, extra, n))
        == Purity::Pure
}

/// Every waiting function waits on exactly what the analysis of its body names.
pub open spec fn settled<N, F>(s: EnvState<N, F>) -> bool {
    forall|n: Seq<char>| #[trigger] s.pending.contains_key(n) ==> expr_purity(s.pending[n].body, state_context(s, n))
        == Purity::Deferred(s.pending[n].deps)
}

/// What refreshing the waiting functions does to the state `s0`.
pub open spec fn refreshed<N, F>(s0: EnvState<N, F>, s1: EnvState<N, F>) -> bool {
    &&& settles(s0, s1)
    &&& pure_given(s0, s1, Set::empty())
    &&& settled(s1)
    &&& no_promotable_cycle(s1)
}

/// The bookkeeping a state keeps: waiting functions are defined and not pure.
pub open spec fn consistent<N, F>(s: EnvState<N, F>) -> bool {
    &&& s.pure.finite()
    &&& s.pending.dom().finite()
    &&& forall|n: Seq<char>| #[trigger] s.pending.contains_key(n) ==> s.globals.contains_key(n) && !s.pure.contains(n)
}

proof fn lemma_settles_refl<N, F>(s: EnvState<N, F>)
    ensures
        settles(s, s),
        pure_given(s, s, Set::empty()),
{
    assert forall|c: Set<Seq<char>>| #[trigger] all_dropped(s, s, c) && c != Set::<Seq<char>>::empty() implies impure_within(
        s,
        s,
        c,
    ) by {
        assert(c =~= Set::<Seq<char>>::empty());
    }
}

proof fn lemma_assumed_empty<N, F>(s: EnvState<N, F>, n: Seq<char>)
    ensures
        assumed_context(s, Set::empty(), n) == state_context(s, n),
{
    assert(s.pure.union(Set::empty()) =~= s.pure);
}

proof fn lemma_assumed_absorbed<N, F>(s: EnvState<N, F>, extra: Set<Seq<char>>, n: Seq<char>)
    requires
        extra.subset_of(s.pure),
    ensures
        assumed_context(s, extra, n) == assumed_context(s, Set::empty(), n),
{
    assert(s.pure.union(extra) =~= s.pure.union(Set::empty()));
}

proof fn lemma_pure_given_absorbed<N, F>(o: EnvState<N, F>, s: EnvState<N, F>, extra: Set<Seq<char>>)
    requires
        pure_given(o, s, extra),
        extra.subset_of(s.pure),
    ensures
        pure_given(o, s, Set::empty()),
{
    assert forall|n: Seq<char>| #[trigger] promoted(o, s, n) implies expr_purity(o.pending[n].body, assumed_context(s, Set::empty(), n))
        == Purity::Pure by {
        lemma_assumed_absorbed(s, extra, n);
    }
}

/// A step that drops nothing keeps the dropped functions justified: the
/// verdicts of their bodies only resolve further.
proof fn lemma_drops_kept<N, F>(o: EnvState<N, F>, s: EnvState<N, F>, s2: EnvState<N, F>)
    requires
        drops_justified(o, s),
        s2.globals.dom() == s.globals.dom(),
        s2.pending.dom().subset_of(s.pending.dom()),
        forall|x: Seq<char>| #[trigger] s2.pure.contains(x) ==> s.pure.contains(x) || s.pending.contains_key(x),
        forall|m: Seq<char>| #[trigger] dropped(o, s2, m) ==> dropped(o, s, m),
    ensures
        drops_justified(o, s2),
{
    assert forall|c: Set<Seq<char>>| #[trigger] all_dropped(o, s2, c) && c != Set::<Seq<char>>::empty() implies impure_within(
        o,
        s2,
        c,
    ) by {
        assert(all_dropped(o, s, c));
        let m = choose|m: Seq<char>| #[trigger] c.contains(m) && expr_purity(o.pending[m].body, assumed_context(s, c, m))
            == Purity::Impure;
        assert(resolved_from(assumed_context(s, c, m), assumed_context(s2, c, m)));
        law_impure_stays_impure(o.pending[m].body, assumed_context(s, c, m), assumed_context(s2, c, m));
    }
}

/// Dropping the waiting function `n`, impure as things stand, keeps the
/// dropped functions justified.
proof fn lemma_drops_grow<N, F>(o: EnvState<N, F>, s: EnvState<N, F>, s2: EnvState<N, F>, n: Seq<char>)
    requires
        drops_justified(o, s),
        consistent(s),
        s.pending.contains_key(n),
        o.pending.contains_key(n),
        o.pending[n].body == s.pending[n].body,
        expr_purity(s.pending[n].body, state_context(s, n)) == Purity::Impure,
        s2 == (EnvState { pending: s.pending.remove(n), ..s }),
    ensures
        drops_justified(o, s2),
{
    assert forall|c: Set<Seq<char>>| #[trigger] all_dropped(o, s2, c) && c != Set::<Seq<char>>::empty() implies impure_within(
        o,
        s2,
        c,
    ) by {
        let rest = c.remove(n);
        if rest == Set::<Seq<char>>::empty() {
            assert(c =~= Set::<Seq<char>>::empty().insert(n)) by {
                if !c.contains(n) {
                    assert(rest =~= c);
                }
                assert forall|x: Seq<char>| c.contains(x) implies x == n by {
                    if x != n {
                        assert(rest.contains(x));
                    }
                }
            }
            assert(resolved_from(state_context(s, n), assumed_context(s2, c, n)));
            law_impure_stays_impure(o.pending[n].body, state_context(s, n), assumed_context(s2, c, n));
            assert(c.contains(n));
        } else {
            assert forall|x: Seq<char>| #[trigger] rest.contains(x) implies dropped(o, s, x) by {
                assert(c.contains(x));
                assert(dropped(o, s2, x));
            }
            assert(all_dropped(o, s, rest));
            let m = choose|m: Seq<char>| #[trigger] rest.contains(m) && expr_purity(
                o.pending[m].body,
                assumed_context(s, rest, m),
            ) == Purity::Impure;
            assert(resolved_from(assumed_context(s, rest, m), assumed_context(s2, c, m)));
            law_impure_stays_impure(o.pending[m].body, assumed_context(s, rest, m), assumed_context(s2, c, m));
            assert(c.contains(m));
        }
    }
}

/// One waiting function `n`, pure once `extra` is, gets installed and recorded as pure.
proof fn lemma_mark_step<N, F>(
    o: EnvState<N, F>,
    s: EnvState<N, F>,
    s2: EnvState<N, F>,
    n: Seq<char>,
    extra: Set<Seq<char>>,
)
    requires
        consistent(s),
        settles(o, s),
        pure_given(o, s, extra),
        s.pending.contains_key(n),
        s.profile.pure_functions_detected < usize::MAX,
        expr_purity(s.pending[n].body, assumed_context(s, extra, n)) == Purity::Pure,
        s2 == marked_pure(s, n, s.pending[n].params_count, s.pending[n].body, s.pending[n].captured),
    ensures
        consistent(s2),
        settles(o, s2),
        pure_given(o, s2, extra),
        s2.pending.dom().len() + 1 == s.pending.dom().len(),
        s2.profile.pure_functions_detected == s.profile.pure_functions_detected + 1,
{
    assert forall|m: Seq<char>| #[trigger] dropped(o, s2, m) implies dropped(o, s, m) by {
        assert(m != n);
    }
    assert forall|x: Seq<char>| #[trigger] s2.pure.contains(x) implies s.pure.contains(x) || s.pending.contains_key(x) by {
    }
    assert(s2.pending.dom().subset_of(s.pending.dom()));
    assert(s2.globals.dom() =~= s.globals.dom());
    lemma_drops_kept(o, s, s2);
    assert(s2.pure.len() == s.pure.len() + 1);
    assert forall|m: Seq<char>| #[trigger] promoted(o, s2, m) implies o.pending.contains_key(m) && s2.globals[m]
        == installed_closure(o.pending[m], o.memoizes) by {
        if m != n {
            assert(promoted(o, s, m));
        }
    }
    assert forall|m: Seq<char>| o.globals.contains_key(m) && !promoted(o, s2, m) implies #[trigger] s2.globals[m]
        == o.globals[m] by {
        if m != n {
            assert(!promoted(o, s, m));
        }
    }
    assert forall|m: Seq<char>| #[trigger] dropped(o, s2, m) implies expr_purity(o.pending[m].body, state_context(s2, m))
        == Purity::Impure by {
        assert(dropped(o, s, m));
        assert(resolved_from(state_context(s, m), state_context(s2, m)));
        law_impure_stays_impure(o.pending[m].body, state_context(s, m), state_context(s2, m));
    }
    assert forall|m: Seq<char>| #[trigger] promoted(o, s2, m) implies expr_purity(o.pending[m].body, assumed_context(s2, extra, m))
        == Purity::Pure by {
        assert(more_pure(assumed_context(s, extra, m), assumed_context(s2, extra, m)));
        if m != n {
            assert(promoted(o, s, m));
        }
        law_pure_stays_pure(o.pending[m].body, assumed_context(s, extra, m), assumed_context(s2, extra, m));
    }
}

/// The waiting function `n`, found impure, stops waiting.
proof fn lemma_drop_step<N, F>(
    o: EnvState<N, F>,
    s: EnvState<N, F>,
    s2: EnvState<N, F>,
    n: Seq<char>,
    extra: Set<Seq<char>>,
)
    requires
        consistent(s),
        settles(o, s),
        pure_given(o, s, extra),
        s.pending.contains_key(n),
        expr_purity(s.pending[n].body, state_context(s, n)) == Purity::Impure,
        s2 == (EnvState { pending: s.pending.remove(n), ..s }),
    ensures
        consistent(s2),
        settles(o, s2),
        pure_given(o, s2, extra),
        s2.pending.dom().len() + 1 == s.pending.dom().len(),
{
    assert(o.pending.contains_key(n));
    assert(same_function(s.pending[n], o.pending[n]));
    lemma_drops_grow(o, s, s2, n);
    assert forall|m: Seq<char>| #[trigger] promoted(o, s2, m) implies o.pending.contains_key(m) && s2.globals[m]
        == installed_closure(o.pending[m], o.memoizes) by {
        assert(promoted(o, s, m));
    }
    assert forall|m: Seq<char>| o.globals.contains_key(m) && !promoted(o, s2, m) implies #[trigger] s2.globals[m]
        == o.globals[m] by {
        assert(!promoted(o, s, m));
    }
    assert forall|m: Seq<char>| #[trigger] dropped(o, s2, m) implies expr_purity(o.pending[m].body, state_context(s2, m))
        == Purity::Impure by {
        assert(resolved_from(state_context(s, m), state_context(s2, m)));
        if m != n {
            assert(dropped(o, s, m));
        }
        law_impure_stays_impure(o.pending[m].body, state_context(s, m), state_context(s2, m));
    }
    assert forall|m: Seq<char>| #[trigger] promoted(o, s2, m) implies expr_purity(o.pending[m].body, assumed_context(s2, extra, m))
        == Purity::Pure by {
        assert(promoted(o, s, m));
        assert(more_pure(assumed_context(s, extra, m), assumed_context(s2, extra, m)));
        law_pure_stays_pure(o.pending[m].body, assumed_context(s, extra, m), assumed_context(s2, extra, m));
    }
}

/// The waiting function `n` now waits on `deps`.
proof fn lemma_deps_step<N, F>(
    o: EnvState<N, F>,
    s: EnvState<N, F>,
    s2: EnvState<N, F>,
    n: Seq<char>,
    extra: Set<Seq<char>>,
)
    requires
        consistent(s),
        settles(o, s),
        pure_given(o, s, extra),
        s2.pending.dom() == s.pending.dom(),
        forall|m: Seq<char>| #[trigger] s2.pending.contains_key(m) && m != n ==> s2.pending[m] == s.pending[m],
        s.pending.contains_key(n) ==> same_function(s2.pending[n], s.pending[n]),
        s2 == (EnvState { pending: s2.pending, ..s }),
    ensures
        consistent(s2),
        settles(o, s2),
        pure_given(o, s2, extra),
        forall|m: Seq<char>| state_context(s2, m) == state_context(s, m),
{
    assert forall|m: Seq<char>| #[trigger] dropped(o, s2, m) implies dropped(o, s, m) by {
    }
    assert(s2.pending.dom().subset_of(s.pending.dom()));
    lemma_drops_kept(o, s, s2);
    assert forall|m: Seq<char>| #[trigger] promoted(o, s2, m) implies o.pending.contains_key(m) && s2.globals[m]
        == installed_closure(o.pending[m], o.memoizes) by {
        assert(promoted(o, s, m));
    }
    assert forall|m: Seq<char>| o.globals.contains_key(m) && !promoted(o, s2, m) implies #[trigger] s2.globals[m]
        == o.globals[m] by {
        assert(!promoted(o, s, m));
    }
    assert forall|m: Seq<char>| #[trigger] s2.pending.contains_key(m) implies same_function(s2.pending[m], o.pending[m]) by {
        assert(s.pending.contains_key(m));
    }
    assert forall|m: Seq<char>| #[trigger] dropped(o, s2, m) implies expr_purity(o.pending[m].body, state_context(s2, m))
        == Purity::Impure by {
        assert(dropped(o, s, m));
        assert(state_context(s2, m) == state_context(s, m));
    }
    assert forall|m: Seq<char>| #[trigger] promoted(o, s2, m) implies expr_purity(o.pending[m].body, assumed_context(s2, extra, m))
        == Purity::Pure by {
        assert(promoted(o, s, m));
        assert(assumed_context(s2, extra, m) == assumed_context(s, extra, m));
    }
}

proof fn lemma_pure_given_widen<N, F>(
    o: EnvState<N, F>,
    s: EnvState<N, F>,
    e1: Set<Seq<char>>,
    e2: Set<Seq<char>>,
)
    requires
        pure_given(o, s, e1),
        e1.subset_of(e2),
    ensures
        pure_given(o, s, e2),
{
    assert forall|n: Seq<char>| #[trigger] promoted(o, s, n) implies expr_purity(o.pending[n].body, assumed_context(s, e2, n))
        == Purity::Pure by {
        assert(more_pure(assumed_context(s, e1, n), assumed_context(s, e2, n)));
        law_pure_stays_pure(o.pending[n].body, assumed_context(s, e1, n), assumed_context(s, e2, n));
    }
}

/// A well-formed environment keeps the bookkeeping of a state.
pub proof fn lemma_consistent<N, F, M>(env: &RuntimeEnv<N, F, M>)
    requires
        env.wf(),
    ensures
        consistent(env.state()),
        env.state().pending.dom() == env.pending().dom(),
        env.state().globals.dom() == env.globals().dom(),
        env.state().pending.dom().len() == env.pending_order().len(),
        env.pending_order().to_set() == env.state().pending.dom(),
        env.pending_order().no_duplicates(),
        forall|n: Seq<char>| #[trigger] env.state().pending.contains_key(n) ==> env.state().pending[n]
            == env.pending()[n].state(),
{
    env.lemma_wf();
    assert(env.state().pending.dom() =~= env.pending().dom());
    assert(env.state().globals.dom() =~= env.globals().dom());
}

/// Settles the waiting functions: each found pure is installed, memoized where
/// memoization is on, and recorded as pure; each found impure stops waiting;
/// the others wait on what the analysis names. Where nothing changes any more,
/// cycles of waiting functions that are pure once all of the cycle is are
/// recorded as pure together, and the settling starts over.
pub fn refresh_pending_pure_functions<N, F, M: Default>(env: &mut RuntimeEnv<N, F, M>)
    requires
        old(env).wf(),
        old(env).state().profile.pure_functions_detected + old(env).state().pending.dom().len()
            <= usize::MAX,
    ensures
        final(env).wf(),
        refreshed(old(env).state(), final(env).state()),
{
    let ghost o = env.state();
    proof {
        lemma_consistent(env);
        lemma_settles_refl(o);
    }
    loop
        invariant
            env.wf(),
            consistent(env.state()),
            settles(o, env.state()),
            pure_given(o, env.state(), Set::empty()),
            env.state().profile.pure_functions_detected + env.state().pending.dom().len()
                <= o.profile.pure_functions_detected + o.pending.dom().len(),
            o.profile.pure_functions_detected + o.pending.dom().len() <= usize::MAX,
                o.pending.dom().finite(),
        ensures
            env.wf(),
            settles(o, env.state()),
            pure_given(o, env.state(), Set::empty()),
            settled(env.state()),
            no_promotable_cycle(env.state()),
        decreases env.state().pending.dom().len(),
    {
        let ghost sp = env.state();
        let ghost order = env.pending_order();
        proof {
            lemma_consistent(env);
        }
        let pending_names = env.pending_names();
        if pending_names.len() == 0 {
            proof {
                assert(sp.pending.dom() =~= Set::<Seq<char>>::empty());
                assert forall|a: Seq<char>, b: Seq<char>| #[trigger] same_cycle(sp, a, b) && a != b implies !promotable_cycle(
                    sp,
                    a,
                ) by {
                    let p = choose|p: Seq<Seq<char>>| #[trigger] is_wait_chain(sp, p) && p[0] == a && p.last() == b;
                    assert(sp.pending.contains_key(p[0]));
                }
            }
            break;
        }
        let mut changed = false;
        let mut i: usize = 0;
        while i < pending_names.len()
            invariant
                env.wf(),
                consistent(env.state()),
                settles(o, env.state()),
                pure_given(o, env.state(), Set::empty()),
                env.state().profile.pure_functions_detected + env.state().pending.dom().len()
                    <= o.profile.pure_functions_detected + o.pending.dom().len(),
                o.profile.pure_functions_detected + o.pending.dom().len() <= usize::MAX,
                o.pending.dom().finite(),
                0 <= i <= pending_names@.len(),
                pending_names@.len() == order.len(),
                forall|k: int| 0 <= k < pending_names@.len() ==> #[trigger] pending_names@[k]@ == order[k],
                order.to_set() == sp.pending.dom(),
                order.no_duplicates(),
                sp.pending.dom().finite(),
                env.state().pending.dom().subset_of(sp.pending.dom()),
                changed ==> env.state().pending.dom().len() < sp.pending.dom().len(),
                !changed ==> env.state().pure == sp.pure && env.state().pending.dom() == sp.pending.dom(),
                !changed ==> forall|k: int| 0 <= k < i ==> expr_purity(
                    env.state().pending[#[trigger] order[k]].body,
                    state_context(env.state(), order[k]),
                ) == Purity::Deferred(env.state().pending[order[k]].deps),
            decreases pending_names@.len() - i,
        {
            let name = pending_names[i].as_str();
            let ghost s = env.state();
            proof {
                lemma_consistent(env);
            }
            let entry = match env.pending_function(name) {
                Some(p) => Some(p.duplicate()),
                None => None,
            };
            if let Some(pending) = entry {
                proof {
                    lemma_same_frames_model(pending.captured@, env.pending()[name@].captured@);
                    assert(s.pending[name@].body == pending.body@);
                }
                let (pure_functions, known_functions, pending_functions) = purity_context(env);
                let purity = is_expression_pure(
                    &pending.body,
                    &pure_functions,
                    &known_functions,
                    &pending_functions,
                    name,
                );
                proof {
                    assert(crate::purity::context(&pure_functions, &known_functions, &pending_functions, name)
                        == state_context(s, name@));
                }
                match purity {
                    PurityState::Pure => {
                        proof {
                            lemma_assumed_empty(s, name@);
                            vstd::set_lib::lemma_len_subset(s.pending.dom(), o.pending.dom());
                        }
                        mark_function_as_pure(
                            env,
                            name,
                            pending.params_count,
                            pending.body.clone(),
                            pending.captured,
                        );
                        proof {
                            lemma_mark_step(o, s, env.state(), name@, Set::empty());
                            vstd::set_lib::lemma_len_subset(s.pending.dom(), sp.pending.dom());
                        }
                        changed = true;
                    },
                    PurityState::Deferred(unresolved_dependencies) => {
                        let ghost pend0 = env.pending();
                        env.set_pending_dependencies(name, unresolved_dependencies);
                        proof {
                            let s2 = env.state();
                            assert(s2.pending.dom() =~= s.pending.dom());
                            lemma_consistent(env);
                            assert forall|m: Seq<char>| #[trigger] s2.pending.contains_key(m) && m != name@ implies s2.pending[m]
                                == s.pending[m] by {
                                assert(env.pending()[m] == pend0[m]);
                            }
                            lemma_same_frames_model(env.pending()[name@].captured@, pend0[name@].captured@);
                            lemma_deps_step(o, s, s2, name@, Set::empty());
                            if !changed {
                                assert forall|k: int| 0 <= k < i + 1 implies expr_purity(
                                    s2.pending[#[trigger] order[k]].body,
                                    state_context(s2, order[k]),
                                ) == Purity::Deferred(s2.pending[order[k]].deps) by {
                                    if k < i {
                                        assert(order[k] != order[i as int]);
                                        assert(order.to_set().contains(order[k]));
                                    }
                                }
                            }
                        }
                    },
                    PurityState::Impure => {
                        env.remove_pending(name);
                        proof {
                            let s2 = env.state();
                            assert(s2.pending =~= s.pending.remove(name@));
                            assert(s2 == (EnvState { pending: s.pending.remove(name@), ..s }));
                            lemma_drop_step(o, s, s2, name@, Set::empty());
                            vstd::set_lib::lemma_len_subset(s.pending.dom(), sp.pending.dom());
                            vstd::set_lib::lemma_len_subset(s.pending.dom(), o.pending.dom());
                        }
                        changed = true;
                    },
                }
            }
            i += 1;
        }
        if changed {
            continue;
        }
        proof {
            assert forall|n: Seq<char>| #[trigger] env.state().pending.contains_key(n) implies expr_purity(
                env.state().pending[n].body,
                state_context(env.state(), n),
            ) == Purity::Deferred(env.state().pending[n].deps) by {
                assert(order.to_set().contains(n));
                let k = choose|k: int| 0 <= k < order.len() && order[k] == n;
                assert(order[k] == n);
            }
        }
        let promotable = find_promotable_pending_cycles(env);
        if promotable.len() == 0 {
            break;
        }
        let ghost sc = env.state();
        let mut c: usize = 0;
        while c < promotable.len()
            invariant
                env.wf(),
                consistent(env.state()),
                settles(o, env.state()),
                pure_given(o, env.state(), Set::empty()),
                env.state().profile.pure_functions_detected + env.state().pending.dom().len()
                    <= o.profile.pure_functions_detected + o.pending.dom().len(),
                o.profile.pure_functions_detected + o.pending.dom().len() <= usize::MAX,
                o.pending.dom().finite(),
                settles(o, sc),
                sc.pending.dom() == sp.pending.dom(),
                sc.pending.dom().finite(),
                0 <= c <= promotable@.len(),
                forall|d: int| 0 <= d < promotable@.len() ==> #[trigger] promotable@[d]@.len() > 1,
                forall|d: int, k: int|
                    0 <= d < promotable@.len() && 0 <= k < promotable@[d]@.len() ==> pure_within(
                        sc,
                        name_set(promotable@[d]@),
                        #[trigger] promotable@[d]@[k]@,
                    ),
                sc.pure.subset_of(env.state().pure),
                env.state().pending.dom().subset_of(sc.pending.dom()),
                forall|n: Seq<char>| #[trigger] sc.pending.contains_key(n) ==> env.state().pending.contains_key(n)
                    || env.state().pure.contains(n),
                c == 0 ==> env.state().pending.dom() == sc.pending.dom(),
                c > 0 ==> env.state().pending.dom().len() < sc.pending.dom().len(),
            decreases promotable@.len() - c,
        {
            let component = &promotable[c];
            let ghost cs = name_set(component@);
            proof {
                lemma_pure_given_widen(o, env.state(), Set::empty(), cs);
            }
            let mut k: usize = 0;
            while k < component.len()
                invariant
                    env.wf(),
                    consistent(env.state()),
                    settles(o, env.state()),
                    pure_given(o, env.state(), cs),
                    env.state().profile.pure_functions_detected + env.state().pending.dom().len()
                        <= o.profile.pure_functions_detected + o.pending.dom().len(),
                    o.profile.pure_functions_detected + o.pending.dom().len() <= usize::MAX,
                o.pending.dom().finite(),
                    settles(o, sc),
                    sc.pending.dom().finite(),
                    0 <= k <= component@.len(),
                    component@.len() > 1,
                    cs == name_set(component@),
                    forall|j: int| 0 <= j < component@.len() ==> pure_within(sc, cs, #[trigger] component@[j]@),
                    forall|j: int| 0 <= j < k ==> env.state().pure.contains(#[trigger] component@[j]@),
                    sc.pure.subset_of(env.state().pure),
                    env.state().pending.dom().subset_of(sc.pending.dom()),
                    forall|n: Seq<char>| #[trigger] sc.pending.contains_key(n) ==> env.state().pending.contains_key(n)
                        || env.state().pure.contains(n),
                    c == 0 && k == 0 ==> env.state().pending.dom() == sc.pending.dom(),
                    c > 0 || k > 0 ==> env.state().pending.dom().len() < sc.pending.dom().len(),
                decreases component@.len() - k,
            {
                let name = component[k].as_str();
                let ghost s = env.state();
                proof {
                    lemma_consistent(env);
                    assert(pure_within(sc, cs, component@[k as int]@));
                }
                let entry = match env.pending_function(name) {
                    Some(p) => Some(p.duplicate()),
                    None => None,
                };
                if let Some(pending) = entry {
                    proof {
                        lemma_same_frames_model(pending.captured@, env.pending()[name@].captured@);
                        assert(s.pending[name@].body == pending.body@);
                        assert(more_pure(assumed_context(sc, cs, name@), assumed_context(s, cs, name@)));
                        law_pure_stays_pure(
                            s.pending[name@].body,
                            assumed_context(sc, cs, name@),
                            assumed_context(s, cs, name@),
                        );
                        vstd::set_lib::lemma_len_subset(s.pending.dom(), o.pending.dom());
                    }
                    mark_function_as_pure(
                        env,
                        name,
                        pending.params_count,
                        pending.body.clone(),
                        pending.captured,
                    );
                    proof {
                        lemma_mark_step(o, s, env.state(), name@, cs);
                        vstd::set_lib::lemma_len_subset(s.pending.dom(), sc.pending.dom());
                    }
                }
                proof {
                    assert(env.state().pure.contains(component@[k as int]@));
                }
                k += 1;
            }
            proof {
                assert forall|x: Seq<char>| cs.contains(x) implies #[trigger] env.state().pure.contains(x) by {
                    let j = choose|j: int| 0 <= j < component@.len() && component@[j]@ == x;
                    assert(env.state().pure.contains(component@[j]@));
                }
                lemma_pure_given_absorbed(o, env.state(), cs);
            }
            c += 1;
        }
    }
}

/// Why a definition is refused.
#[derive(Debug, Clone, Copy, PartialEq, Eq)]
pub enum DefineError {
    /// Fewer than two arguments.
    ArityTooLow,
    /// The name in a function signature is not a symbol.
    NameNotSymbol,
    /// A parameter in a function signature is not a symbol.
    ParamNotSymbol,
    /// The first argument is neither a symbol nor a signature.
    InvalidSyntax,
    /// The body of the function does not compile.
    Compile(CompileError),
}

/// What is left to do once a definition has been taken in.
#[derive(Debug, Clone, PartialEq, Eq)]
pub enum DefineStep {
    /// The variable of this name is to be bound to the value of the second
    /// argument, once evaluated, by `define_variable`.
    EvaluateValue(String),
    /// The function is defined.
    Defined,
}

/// The names of the cars of the chain `t` when all of them are symbols.
pub open spec fn symbol_list<N, F>(t: Term<N, F>) -> Option<Seq<Seq<char>>>
    decreases t,
{
    match t {
        Term::Pair(a, d) => match *a {
            Term::Symbol(name) => match symbol_list(*d) {
                Some(rest) => Some(seq![name] + rest),
                None => None,
            },
            _ => None,
        },
        _ => Some(Seq::empty()),
    }
}

/// The state after the function `name`, with `params_count` parameters and the
/// compiled body `body`, is installed over `s` according to the verdict on its
/// body, before the waiting functions are refreshed.
pub open spec fn function_installed<N, F>(
    s: EnvState<N, F>,
    name: Seq<char>,
    params_count: nat,
    body: Term<N, F>,
) -> EnvState<N, F> {
    let s1 = cleared(s, name);
    match expr_purity(body, state_context(s1, name)) {
        Purity::Pure => marked_pure(s1, name, params_count, body, s.locals),
        Purity::Deferred(deps) => stored_pending(s1, name, params_count, body, s.locals, deps),
        Purity::Impure => with_global(s1, name, closure_term(params_count, body, s.locals)),
    }
}

/// Compiling the body of the function definition `args` would panic.
pub open spec fn define_panics<N, F>(args: Seq<Term<N, F>>) -> bool {
    &&& args.len() >= 2
    &&& args[0] matches Term::Pair(car, cdr)
    &&& *car is Symbol
    &&& symbol_list(*cdr) matches Some(params)
    &&& panics(compile_spec(args[1], seq![params], true).0)
}

/// What `define_function` owes on the arguments `args` from the state `s0`,
/// ending in the state `s1` with the result `r`.
pub open spec fn define_outcome<N, F>(
    args: Seq<Term<N, F>>,
    s0: EnvState<N, F>,
    s1: EnvState<N, F>,
    r: Result<DefineStep, DefineError>,
) -> bool {
    if args.len() < 2 {
        r == Err::<DefineStep, DefineError>(DefineError::ArityTooLow) && s1 == s0
    } else {
        match args[0] {
            Term::Symbol(name) => (r matches Ok(DefineStep::EvaluateValue(v)) && v@ == name) && s1 == cleared(
                s0,
                name,
            ),
            Term::Pair(car, cdr) => match *car {
                Term::Symbol(name) => match symbol_list(*cdr) {
                    None => r == Err::<DefineStep, DefineError>(DefineError::ParamNotSymbol) && s1 == s0,
                    Some(params) => match compile_spec(args[1], seq![params], true).0 {
                        Ok(body) => r == Ok::<DefineStep, DefineError>(DefineStep::Defined) && refreshed(
                            function_installed(s0, name, params.len(), body),
                            s1,
                        ),
                        Err(CompileFailure::Error(e)) => r == Err::<DefineStep, DefineError>(
                            DefineError::Compile(e),
                        ) && s1 == s0,
                        Err(CompileFailure::Panic) => false,
                    },
                },
                _ => r == Err::<DefineStep, DefineError>(DefineError::NameNotSymbol) && s1 == s0,
            },
            _ => r == Err::<DefineStep, DefineError>(DefineError::InvalidSyntax) && s1 == s0,
        }
    }
}

/// The parameter names of the signature tail `rest`, or `None` where one is
/// not a symbol.
fn signature_params<N, F, M>(rest: &Rc<Value<N, F, M>>) -> (r: Option<Vec<String>>)
    ensures
        match symbol_list(rest@) {
            Some(params) => r matches Some(v) && v@.map_values(|s: String| s@) == params,
            None => r is None,
        },
{
    let mut params: Vec<String> = Vec::new();
    let mut current = rest.clone();
    assert(params@.map_values(|s: String| s@) =~= Seq::<Seq<char>>::empty());
    loop
        invariant
            symbol_list(rest@) == match symbol_list(current@) {
                Some(tail) => Some(params@.map_values(|s: String| s@) + tail),
                None => None::<Seq<Seq<char>>>,
            },
        decreases chain_len(current@),
    {
        let next = match &*current {
            Value::Pair(cons) => {
                assert(current@ == cons.term());
                match &*cons.car {
                    Value::Symbol(name) => {
                        let ghost before = params@;
                        params.push(name.clone());
                        proof {
                            assert(params@.map_values(|s: String| s@) =~= before.map_values(
                                |s: String| s@,
                            ).push(name@));
                            match symbol_list(cons.cdr@) {
                                Some(tail) => {
                                    assert(before.map_values(|s: String| s@).push(name@) + tail
                                        =~= before.map_values(|s: String| s@) + (seq![name@]
                                        + tail));
                                },
                                None => {},
                            }
                        }
                        cons.cdr.clone()
                    },
                    _ => {
                        return None;
                    },
                }
            },
            _ => {
                assert(params@.map_values(|s: String| s@) + Seq::<Seq<char>>::empty()
                    =~= params@.map_values(|s: String| s@));
                return Some(params);
            },
        };
        current = next;
    }
}

/// Whether taking in the definition `args` would make the compiler panic on
/// a `define` form with fewer than two parts inside the function body.
pub fn define_would_panic<N, F, M>(args: &[Rc<Value<N, F, M>>]) -> (r: bool)
    ensures
        r == define_panics(model_seq(args@)),
{
    proof {
        lemma_model_seq_len(args@);
    }
    if args.len() < 2 {
        return false;
    }
    match &*args[0] {
        Value::Pair(signature) => {
            assert(args@[0]@ == signature.term());
            match &*signature.car {
                Value::Symbol(_) => {},
                _ => {
                    return false;
                },
            }
            match signature_params(&signature.cdr) {
                Some(params) => {
                    let ghost frame = params@.map_values(|s: String| s@);
                    let mut static_env = StaticEnv::new();
                    static_env.push_frame(params);
                    assert(static_env.view_frames() =~= seq![frame]);
                    compile_would_panic(&args[1], &static_env, true)
                },
                None => false,
            }
        },
        _ => false,
    }
}

/// Takes in a definition. `(define name value)` forgets what is known of the
/// purity of `name` and leaves the value to be evaluated; `(define (name
/// params...) body)` compiles the body with the parameters bound, installs the
/// function as pure, waiting or impure according to the analysis of its body,
/// and refreshes the waiting functions.
pub fn define_function<N, F, M: Default>(
    env: &mut RuntimeEnv<N, F, M>,
    args: &[Rc<Value<N, F, M>>],
) -> (r: Result<DefineStep, DefineError>)
    requires
        old(env).wf(),
        old(env).state().profile.pure_functions_detected + old(env).state().pending.dom().len() + 1
            <= usize::MAX,
        !define_panics(model_seq(args@)),
    ensures
        final(env).wf(),
        define_outcome(model_seq(args@), old(env).state(), final(env).state(), r),
{
    proof {
        lemma_model_seq_len(args@);
    }
    if args.len() < 2 {
        return Err(DefineError::ArityTooLow);
    }
    match &*args[0] {
        Value::Symbol(name) => {
            clear_purity_metadata(env, name.as_str());
            Ok(DefineStep::EvaluateValue(name.clone()))
        },
        Value::Pair(signature) => {
            assert(args@[0]@ == signature.term());
            let name = match &*signature.car {
                Value::Symbol(s) => s.clone(),
                _ => {
                    return Err(DefineError::NameNotSymbol);
                },
            };
            let params = match signature_params(&signature.cdr) {
                Some(p) => p,
                None => {
                    return Err(DefineError::ParamNotSymbol);
                },
            };
            let params_count = params.len();
            let ghost frame = params@.map_values(|s: String| s@);
            let mut static_env = StaticEnv::new();
            static_env.push_frame(params);
            assert(static_env.view_frames() =~= seq![frame]);
            let analyzed_body = match compile_ast(args[1].clone(), &mut static_env, true) {
                Ok(body) => body,
                Err(e) => {
                    return Err(DefineError::Compile(e));
                },
            };
            let ghost s0 = env.state();
            let captured = env.get_locals_clone();
            proof {
                lemma_consistent(env);
                crate::runtime_env::lemma_same_frames_model(captured@, env.locals());
            }
            clear_purity_metadata(env, name.as_str());
            let ghost s1 = env.state();
            proof {
                lemma_consistent(env);
                vstd::set_lib::lemma_len_subset(s1.pending.dom(), s0.pending.dom());
            }
            let (pure_functions, known_functions, pending_functions) = purity_context(env);
            let name_str = name.as_str();
            let verdict = is_expression_pure(
                &analyzed_body,
                &pure_functions,
                &known_functions,
                &pending_functions,
                name_str,
            );
            proof {
                assert(crate::purity::context(&pure_functions, &known_functions, &pending_functions, name_str)
                    == state_context(s1, name@));
            }
            match verdict {
                PurityState::Pure => {
                    mark_function_as_pure(env, name.as_str(), params_count, analyzed_body, captured);
                },
                PurityState::Deferred(unresolved_dependencies) => {
                    store_pending_function(
                        env,
                        name,
                        params_count,
                        analyzed_body,
                        captured,
                        unresolved_dependencies,
                    );
                },
                PurityState::Impure => {
                    install_function(env, name.as_str(), params_count, analyzed_body, captured);
                },
            }
            proof {
                lemma_consistent(env);
                let s2 = env.state();
                if s2.pending.dom().len() > s1.pending.dom().len() {
                    assert(s2.pending.dom() =~= s1.pending.dom().insert(name@));
                } else {
                    vstd::set_lib::lemma_len_subset(s2.pending.dom(), s1.pending.dom().insert(name@));
                }
            }
            refresh_pending_pure_functions(env);
            Ok(DefineStep::Defined)
        },
        _ => Err(DefineError::InvalidSyntax),
    }
}

/// Binds the variable `name` to its evaluated value and refreshes the waiting
/// functions, which may now know `name`.
pub fn define_variable<N, F, M: Default>(
    env: &mut RuntimeEnv<N, F, M>,
    name: &str,
    value: Rc<Value<N, F, M>>,
)
    requires
        old(env).wf(),
        old(env).state().profile.pure_functions_detected + old(env).state().pending.dom().len()
            <= usize::MAX,
    ensures
        final(env).wf(),
        refreshed(with_global(old(env).state(), name@, value@), final(env).state()),
{
    env.define_global(name, value);
    proof {
        assert(env.state().globals =~= old(env).state().globals.insert(name@, value@));
    }
    refresh_pending_pure_functions(env);
}

/// A function definition that succeeds binds its name to a closure over its
/// parameters, its compiled body and the local frames of the definition; the
/// body is memoized exactly when the function ends up pure and memoization is on.
pub proof fn law_defined_function_is_bound<N, F>(
    args: Seq<Term<N, F>>,
    s0: EnvState<N, F>,
    s1: EnvState<N, F>,
    name: Seq<char>,
    params: Seq<Seq<char>>,
    body: Term<N, F>,
)
    requires
        consistent(s0),
        define_outcome(args, s0, s1, Ok(DefineStep::Defined)),
        args.len() >= 2,
        args[0] matches Term::Pair(car, cdr) && *car == Term::<N, F>::Symbol(name) && symbol_list(*cdr)
            == Some(params),
        compile_spec(args[1], seq![params], true).0 == Ok::<Term<N, F>, CompileFailure>(body),
    ensures
        s1.globals.contains_key(name),
        s1.globals[name] == closure_term(
            params.len(),
            if s1.pure.contains(name) {
                installed_body(body, s0.memoizes)
            } else {
                body
            },
            s0.locals,
        ),
{
    let s2 = function_installed(s0, name, params.len(), body);
    assert(s2.globals.contains_key(name));
    if promoted(s2, s1, name) {
        assert(s2.pending.contains_key(name));
        assert(s2.pending[name].body == body);
    } else {
        assert(s1.globals[name] == s2.globals[name]);
    }
}

/// Defining a variable first forgets whatever was known of the purity of its name.
pub proof fn law_variable_definition_forgets_purity<N, F>(
    args: Seq<Term<N, F>>,
    s0: EnvState<N, F>,
    s1: EnvState<N, F>,
    r: Result<DefineStep, DefineError>,
    name: Seq<char>,
)
    requires
        define_outcome(args, s0, s1, r),
        args.len() >= 2,
        args[0] == Term::<N, F>::Symbol(name),
    ensures
        r matches Ok(DefineStep::EvaluateValue(v)) && v@ == name,
        !s1.pure.contains(name),
        !s1.pending.contains_key(name),
        s1.globals == s0.globals,
{
}

/// A definition that is refused leaves the environment as it was.
pub proof fn law_refused_definition_changes_nothing<N, F>(
    args: Seq<Term<N, F>>,
    s0: EnvState<N, F>,
    s1: EnvState<N, F>,
    e: DefineError,
)
    requires
        define_outcome(args, s0, s1, Err(e)),
    ensures
        s1 == s0,
{
}

/// The waiting functions that `a` waits on through a chain, `a` included.
pub open spec fn reach<N, F>(s: EnvState<N, F>, a: Seq<char>) -> Set<Seq<char>> {
    Set::new(|b: Seq<char>| waits_on(s, a, b))
}

/// Every function of `w` waits, and waits only on functions of `w`.
pub open spec fn closed_waiting<N, F>(s: EnvState<N, F>, w: Set<Seq<char>>) -> bool {
    forall|m: Seq<char>| #[trigger] w.contains(m) ==> s.pending.contains_key(m) && s.pending[m].deps.subset_of(w)
}

proof fn lemma_reach_within<N, F>(s: EnvState<N, F>, w: Set<Seq<char>>, p: Seq<Seq<char>>)
    requires
        closed_waiting(s, w),
        is_wait_chain(s, p),
        w.contains(p[0]),
    ensures
        w.contains(p.last()),
    decreases p.len(),
{
    if p.len() > 1 {
        let q = p.drop_last();
        assert(is_wait_chain(s, q)) by {
            assert forall|i: int| 0 <= i < q.len() - 1 implies s.pending[#[trigger] q[i]].deps.contains(q[i + 1]) by {
                assert(q[i] == p[i] && q[i + 1] == p[i + 1]);
            }
        }
        lemma_reach_within(s, w, q);
        assert(s.pending[p[p.len() - 2]].deps.contains(p[p.len() - 1]));
    }
}

/// A waiting function `b` of `w` whose every function reached reaches back all
/// that `b` reaches.
proof fn lemma_find_sink<N, F>(s: EnvState<N, F>, w: Set<Seq<char>>, a: Seq<char>) -> (b: Seq<char>)
    requires
        closed_waiting(s, w),
        w.contains(a),
        s.pending.dom().finite(),
    ensures
        w.contains(b),
        forall|x: Seq<char>| #[trigger] reach(s, b).contains(x) ==> reach(s, x) == reach(s, b),
    decreases reach(s, a).len(),
{
    assert(reach(s, a).subset_of(s.pending.dom())) by {
        assert forall|x: Seq<char>| #[trigger] reach(s, a).contains(x) implies s.pending.contains_key(x) by {
            let p = choose|p: Seq<Seq<char>>| #[trigger] is_wait_chain(s, p) && p[0] == a && p.last() == x;
            assert(s.pending.contains_key(p[p.len() - 1]));
        }
    }
    vstd::set_lib::lemma_len_subset(reach(s, a), s.pending.dom());
    if forall|x: Seq<char>| #[trigger] reach(s, a).contains(x) ==> reach(s, x) == reach(s, a) {
        a
    } else {
        let x = choose|x: Seq<char>| #[trigger] reach(s, a).contains(x) && reach(s, x) != reach(s, a);
        assert(reach(s, x).subset_of(reach(s, a))) by {
            assert forall|y: Seq<char>| #[trigger] reach(s, x).contains(y) implies reach(s, a).contains(y) by {
                lemma_waits_trans(s, a, x, y);
            }
        }
        assert(!(reach(s, x) =~= reach(s, a)));
        let y = choose|y: Seq<char>| reach(s, a).contains(y) && !reach(s, x).contains(y);
        reach(s, x).lemma_subset_not_in_lt(reach(s, a), y);
        let p = choose|p: Seq<Seq<char>>| #[trigger] is_wait_chain(s, p) && p[0] == a && p.last() == x;
        lemma_reach_within(s, w, p);
        lemma_find_sink(s, w, x)
    }
}

/// Functions that wait in `s0` and are all pure once all of them are assumed
/// pure, mutually recursive ones among them, end up pure after a refresh,
/// each that was not pure before installed as its waiting entry says:
/// memoized where memoization is on.
pub proof fn law_pure_cycle_promoted<N, F>(s0: EnvState<N, F>, s1: EnvState<N, F>, c: Set<Seq<char>>)
    requires
        consistent(s1),
        refreshed(s0, s1),
        forall|m: Seq<char>| #[trigger] c.contains(m) ==> pure_within(s0, c, m),
    ensures
        forall|m: Seq<char>| #[trigger] c.contains(m) ==> s1.pure.contains(m),
        forall|m: Seq<char>| #[trigger] c.contains(m) && !s0.pure.contains(m) ==> s1.globals[m] == installed_closure(
            s0.pending[m],
            s0.memoizes,
        ),
{
    // Each function of `c` stays pure with `c` assumed pure.
    assert forall|m: Seq<char>| #[trigger] c.contains(m) implies expr_purity(
        s0.pending[m].body,
        assumed_context(s1, c, m),
    ) == Purity::Pure by {
        assert(pure_within(s0, c, m));
        assert(more_pure(assumed_context(s0, c, m), assumed_context(s1, c, m)));
        law_pure_stays_pure(s0.pending[m].body, assumed_context(s0, c, m), assumed_context(s1, c, m));
    }
    // None of them is dropped.
    let d = Set::new(|m: Seq<char>| c.contains(m) && dropped(s0, s1, m));
    if d != Set::<Seq<char>>::empty() {
        assert(all_dropped(s0, s1, d));
        let m = choose|m: Seq<char>| #[trigger] d.contains(m) && expr_purity(s0.pending[m].body, assumed_context(s1, d, m))
            == Purity::Impure;
        assert(c.contains(m));
        assert(keeps_open(assumed_context(s1, c, m), assumed_context(s1, d, m))) by {
            assert forall|x: Seq<char>| #[trigger] assumed_context(s1, c, m).pure.contains(x) implies assumed_context(
                s1,
                d,
                m,
            ).pure.contains(x) || assumed_context(s1, d, m).pending.contains(x) by {
                if c.contains(x) && !s1.pure.contains(x) && !s1.pending.contains_key(x) {
                    assert(pure_within(s0, c, x));
                    assert(d.contains(x));
                }
            }
        }
        law_pure_stays_open(s0.pending[m].body, assumed_context(s1, c, m), assumed_context(s1, d, m));
        assert(false);
    }
    assert forall|m: Seq<char>| #[trigger] c.contains(m) implies s1.pure.contains(m) || s1.pending.contains_key(m) by {
        assert(pure_within(s0, c, m));
        if !s1.pure.contains(m) && !s1.pending.contains_key(m) {
            assert(d.contains(m));
        }
    }
    // None of them still waits.
    let w = Set::new(|m: Seq<char>| c.contains(m) && s1.pending.contains_key(m));
    assert forall|m: Seq<char>| #[trigger] w.contains(m) implies s1.pending.contains_key(m) && s1.pending[m].deps.subset_of(w)
        && s1.pending[m].deps != Set::<Seq<char>>::empty() && !s1.pending[m].deps.contains(m) by {
        let ctx = state_context(s1, m);
        assert(same_function(s1.pending[m], s0.pending[m]));
        assert(expr_purity(s1.pending[m].body, ctx) == Purity::Deferred(s1.pending[m].deps));
        assert(keeps_open(assumed_context(s1, c, m), ctx)) by {
            assert forall|x: Seq<char>| #[trigger] assumed_context(s1, c, m).pure.contains(x) implies ctx.pure.contains(x)
                || ctx.pending.contains(x) by {
                if c.contains(x) {
                    assert(s1.pure.contains(x) || s1.pending.contains_key(x));
                }
            }
        }
        law_pure_stays_open(s0.pending[m].body, assumed_context(s1, c, m), ctx);
        law_deferred_names_a_dependency(s1.pending[m].body, ctx);
        assert forall|x: Seq<char>| #[trigger] s1.pending[m].deps.contains(x) implies w.contains(x) by {
            assert(still_open(assumed_context(s1, c, m), ctx).contains(x));
            assert(c.contains(x));
        }
        if s1.pending[m].deps == Set::<Seq<char>>::empty() {
            assert(s1.pending[m].deps.len() == 0);
        }
    }
    assert(closed_waiting(s1, w));
    if w != Set::<Seq<char>>::empty() {
        let a = choose|a: Seq<char>| w.contains(a);
        assert(w.contains(a)) by {
            if !w.contains(a) {
                assert(w =~= Set::<Seq<char>>::empty());
            }
        }
        let b = lemma_find_sink(s1, w, a);
        let deps_b = s1.pending[b].deps;
        assert(deps_b != Set::<Seq<char>>::empty());
        let e = choose|e: Seq<char>| deps_b.contains(e);
        assert(deps_b.contains(e)) by {
            if !deps_b.contains(e) {
                assert(deps_b =~= Set::<Seq<char>>::empty());
            }
        }
        assert(e != b);
        assert(w.contains(e));
        assert(is_wait_chain(s1, seq![b]));
        assert(reach(s1, b).contains(b)) by {
            assert(seq![b][0] == b && seq![b].last() == b);
        }
        assert(is_wait_chain(s1, seq![b, e]));
        assert(waits_on(s1, b, e)) by {
            assert(seq![b, e][0] == b && seq![b, e].last() == e);
        }
        assert(reach(s1, b).contains(e));
        assert(reach(s1, e) == reach(s1, b));
        assert(reach(s1, e).contains(b));
        assert(same_cycle(s1, b, e));
        let cyc = reach(s1, b);
        assert(cycle_of(s1, b) == cyc) by {
            assert forall|x: Seq<char>| cycle_of(s1, b).contains(x) == cyc.contains(x) by {
                if cyc.contains(x) {
                    assert(reach(s1, x) == cyc);
                    assert(reach(s1, x).contains(b));
                }
            }
            assert(cycle_of(s1, b) =~= cyc);
        }
        assert forall|m: Seq<char>| #[trigger] cycle_of(s1, b).contains(m) implies pure_within(s1, cycle_of(s1, b), m) by {
            let p = choose|p: Seq<Seq<char>>| #[trigger] is_wait_chain(s1, p) && p[0] == b && p.last() == m;
            lemma_reach_within(s1, w, p);
            assert(w.contains(m));
            let ctx = state_context(s1, m);
            assert(reach(s1, m) == cyc);
            assert(s1.pending[m].deps.subset_of(cyc)) by {
                assert forall|x: Seq<char>| #[trigger] s1.pending[m].deps.contains(x) implies cyc.contains(x) by {
                    assert(w.contains(x));
                    assert(is_wait_chain(s1, seq![m, x]));
                    assert(seq![m, x][0] == m && seq![m, x].last() == x);
                    assert(reach(s1, m).contains(x));
                }
            }
            assert(no_worse(expr_purity(s1.pending[m].body, ctx), Purity::Deferred(cyc)));
            law_waiting_resolves(s1.pending[m].body, ctx, cyc);
            assert(with_pure(ctx, cyc) == assumed_context(s1, cyc, m));
        }
        assert(promotable_cycle(s1, b));
        assert(false);
    }
    assert forall|m: Seq<char>| #[trigger] c.contains(m) implies s1.pure.contains(m) by {
        assert(pure_within(s0, c, m));
        if !s1.pure.contains(m) {
            assert(w.contains(m));
        }
    }
    assert forall|m: Seq<char>| #[trigger] c.contains(m) && !s0.pure.contains(m) implies s1.globals[m] == installed_closure(
        s0.pending[m],
        s0.memoizes,
    ) by {
        assert(s1.pure.contains(m));
        assert(promoted(s0, s1, m));
    }
}

/// A refresh counts each function that became pure once.
pub proof fn law_refresh_counts_new_pure<N, F>(s0: EnvState<N, F>, s1: EnvState<N, F>)
    requires
        consistent(s0),
        consistent(s1),
        refreshed(s0, s1),
    ensures
        s1.profile.pure_functions_detected == s0.profile.pure_functions_detected + s1.pure.difference(s0.pure).len(),
{
    vstd::set_lib::lemma_set_difference_len(s1.pure, s0.pure);
    assert(s1.pure.intersect(s0.pure) =~= s0.pure);
}

} // verus!
