//! Chaining a computation that may give nothing onto a value that may be
//! absent.

use vstd::prelude::*;

verus! {

/// A value that may be absent, onto which a computation that may give
/// nothing can be chained.
pub trait MapMaybeExt<T, O, F: Fn(T) -> Option<O>>: Sized {
    /// The value, if there is one.
    spec fn held(self) -> Option<T>;

    /// What `f` gives for the value that is held, and nothing where none is
    /// held; `f` is not called then.
    fn map_maybe(self, f: F) -> (r: Option<O>)
        requires
            self.held() matches Some(t) ==> f.requires((t,)),
        ensures
            self.held() is None ==> r is None,
            self.held() matches Some(t) ==> f.ensures((t,), r),
    ;
}

impl<T, O, F: Fn(T) -> Option<O>> MapMaybeExt<T, O, F> for Option<T> {
    open spec fn held(self) -> Option<T> {
        self
    }

    fn map_maybe(self, f: F) -> (r: Option<O>) {
        match self {
            Some(t) => f(t),
            None => None,
        }
    }
}

} // verus!
