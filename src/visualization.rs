use vstd::prelude::*;

verus! {

/// Error of the display of a registration.
#[derive(Clone, Debug)]
pub struct VisualError {
    pub msg: String,
}

impl VisualError {
    pub fn new(msg: &str) -> (e: VisualError)
        ensures
            e.msg@ == msg@,
    {
        VisualError { msg: msg.to_string() }
    }

    /// The error's text.
    pub fn message(&self) -> (s: String)
        ensures
            s@ == self.msg@,
    {
        self.msg.clone()
    }
}

} // verus!
