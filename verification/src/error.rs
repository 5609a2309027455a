use vstd::prelude::*;

verus! {

/// A search or a plan that found no way.
#[derive(Debug, Clone, Copy, PartialEq, Eq, Structural)]
pub struct NanoBotError;

/// A value that was expected and is missing.
#[derive(Debug, Clone, Copy, PartialEq, Eq, Structural)]
pub struct MyNoneError;

/// Turns a value that may be missing into a result.
pub trait OkOrErr<T> {
    spec fn held(self) -> Option<T>
        where Self: Sized
    ;

    /// `Ok` with the value where there is one, `Err` where there is none.
    fn ok_or_err(self) -> (res: Result<T, MyNoneError>) where Self: Sized
        ensures
            res == match self.held() {
                Some(v) => Ok::<T, MyNoneError>(v),
                None => Err::<T, MyNoneError>(MyNoneError),
            },
    ;
}

impl<T> OkOrErr<T> for Option<T> {
    open spec fn held(self) -> Option<T> {
        self
    }

    fn ok_or_err(self) -> (res: Result<T, MyNoneError>) {
        match self {
            Some(v) => Ok(v),
            None => Err(MyNoneError),
        }
    }
}

} // verus!
