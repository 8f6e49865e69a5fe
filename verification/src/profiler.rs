use vstd::prelude::*;

verus! {

/// Counters of what the optimizer and the evaluator did during a run.
#[derive(Debug, Clone, Copy)]
pub struct Profiler {
    pub constant_folds: usize,
    pub pure_functions_detected: usize,
    pub total_calls: usize,
    pub tail_calls_optimized: usize,
    pub memo_cache_hits: usize,
    pub memo_cache_misses: usize,
}

impl Profiler {
    /// All counters are zero.
    pub open spec fn is_zero(&self) -> bool {
        &&& self.constant_folds == 0
        &&& self.pure_functions_detected == 0
        &&& self.total_calls == 0
        &&& self.tail_calls_optimized == 0
        &&& self.memo_cache_hits == 0
        &&& self.memo_cache_misses == 0
    }

    pub fn new() -> (p: Self)
        ensures
            p.is_zero(),
    {
        Profiler {
            constant_folds: 0,
            pure_functions_detected: 0,
            total_calls: 0,
            tail_calls_optimized: 0,
            memo_cache_hits: 0,
            memo_cache_misses: 0,
        }
    }
}

impl Default for Profiler {
    fn default() -> (p: Self)
        ensures
            p.is_zero(),
    {
        Profiler::new()
    }
}

} // verus!
