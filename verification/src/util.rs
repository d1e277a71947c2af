use vstd::prelude::*;

verus! {

/// Values that may hold something on which something else is to be done
/// in passing.
pub trait WithSideEffects: Sized {
    type WrappedType;

    /// What the value holds, if anything.
    spec fn wrapped(&self) -> Option<Self::WrappedType>;

    /// Calls `f` on what the value holds, if anything, and hands the value back.
    fn with_side_effects<F>(self, f: F) -> (same: Self) where F: FnOnce(Self::WrappedType)
        requires
            self.wrapped() matches Some(value) ==> f.requires((value,)),
        ensures
            same == self,
            self.wrapped() matches Some(value) ==> f.ensures((value,), ()),
    ;
}

impl<T: Copy> WithSideEffects for Option<T> {
    type WrappedType = T;

    open spec fn wrapped(&self) -> Option<T> {
        *self
    }

    fn with_side_effects<F>(self, f: F) -> (same: Self) where F: FnOnce(T) {
        match self {
            Some(value) => {
                f(value);
                Some(value)
            },
            None => None,
        }
    }
}

} // verus!
