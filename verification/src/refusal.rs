//! What the library reports when it refuses a request.
use vstd::prelude::*;

verus! {

/// A refusal, with the message that is shown to the user.
#[derive(Debug, Clone)]
pub struct Refusal {
    pub message: String,
}

impl View for Refusal {
    type V = Seq<char>;

    open spec fn view(&self) -> Seq<char> {
        self.message@
    }
}

impl Refusal {
    /// A refusal with the given message.
    pub fn new(message: String) -> (r: Refusal)
        ensures
            r@ == message@,
    {
        Refusal { message }
    }

    /// A refusal with the given message.
    pub fn of(message: &str) -> (r: Refusal)
        ensures
            r@ == message@,
    {
        Refusal { message: String::from_str(message) }
    }
}

} // verus!
