pub mod assoc;
pub mod compiler;
pub mod lexer;
pub mod names;
pub mod parser;
pub mod purity;
pub mod scc;
pub mod value;
pub mod static_env;
pub mod profiler;
pub mod runtime_env;
pub mod define;
pub mod timing;
pub mod builtins;
pub mod optimizer;
pub mod eval;
