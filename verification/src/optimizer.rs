use vstd::prelude::*;
use std::rc::Rc;
use crate::compiler::string_is;
use crate::value::{Term, Value, model_seq, term_list};

verus! {

/// The operators whose calls on constant arguments may be folded.
pub open spec fn foldable_operators() -> Set<Seq<char>> {
    set!["+"@, "-"@, "*"@, "/"@, "="@, ">"@, "<"@, "not"@]
}

/// Whether calls of `name` on constant arguments may be folded.
pub fn is_pure_function(name: &str) -> (r: bool)
    ensures
        r == foldable_operators().contains(name@),
{
    let s = name.to_owned();
    string_is(&s, "+") || string_is(&s, "-") || string_is(&s, "*") || string_is(&s, "/")
        || string_is(&s, "=") || string_is(&s, ">") || string_is(&s, "<") || string_is(&s, "not")
}

/// The call of `op` on `args`, as a list.
pub fn rebuild_list<N, F, M>(op: &str, args: Vec<Rc<Value<N, F, M>>>) -> (r: Rc<Value<N, F, M>>)
    ensures
        r@ == Term::Pair(Box::new(Term::<N, F>::Symbol(op@)), Box::new(term_list(model_seq(args@)))),
{
    let rest = Value::list(args.as_slice());
    Value::cons(Value::symbol(op), rest)
}

} // verus!
