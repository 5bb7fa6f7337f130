use vstd::prelude::*;

verus! {

/// A value that can be called: it states how many arguments it takes.
pub trait Callable {
    /// The number of arguments a call takes.
    fn arity(&self) -> u8;
}

} // verus!
