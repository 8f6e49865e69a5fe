# lib: a small Lisp interpreter with purity detection

The library reads Lisp source, compiles function bodies, and decides which
user functions are pure so that their calls can be memoized.

`src/` is verified:

- `lexer`, `parser`: tokens and expressions of a source text, each against a
  mathematical definition of the reader (`lex_from`, `parse_from`).
- `value`: Lisp values over a number type `N`, a built-in function type `F`
  and a memo table type `M`, with their model `Term`.
- `static_env`, `compiler`: parameter lookup and compilation of bodies
  (`LocalVar`s, tail calls, `lambda`, `if`, nested `define`).
- `names`, `assoc`: finite name sets and name-keyed tables, each a `Vec`
  whose invariant keeps every name once, in the order of insertion. They
  stand where `HashSet<String>` and `HashMap<String, _>` would: with `String`
  keys, vstd's specifications of those two types give nothing to prove with,
  not even the length after one insertion.
- `purity`: the purity verdict of a compiled body, and the laws of merging
  verdicts.
- `scc`: Kosaraju's strongly connected components, proved exact.
- `runtime_env`, `define`: the global environment and function definition,
  with the settling of functions whose purity waits on others: functions
  that are pure once all of them are, mutually recursive ones among them, end
  up pure together.
- `eval`: the evaluator as a machine of small steps. Each step says what it
  does to the machine and the environment (closures capture the local frames,
  tail calls replace them, calls give them back, memoized bodies look up and
  store their results) and asks the caller for outside work: calling a
  built-in function, or reading and filling a memo table.
- `builtins`, `optimizer`, `profiler`, `timing`: list and logic built-ins,
  constant-folding helpers, run counters, duration units.

`app/` is the program: the loop that drives the evaluator, arithmetic
built-ins on `f64`, printing,
constant folding and the command line runner over `test/*.lisp`.
