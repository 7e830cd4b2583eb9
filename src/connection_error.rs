use vstd::prelude::*;

verus! {

/// The error of every fallible operation: a human-readable reason.
#[derive(Debug, PartialEq, Clone)]
pub struct ConnectionError(pub String);

/// The result type of the manager's operations.
pub type ConnectionResult<T> = Result<T, ConnectionError>;

impl ConnectionError {
    /// The reason as text.
    pub fn message(&self) -> (r: String)
        ensures
            r@ == self.0@,
    {
        self.0.clone()
    }
}

} // verus!
