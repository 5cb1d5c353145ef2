use vstd::prelude::*;

verus! {

/// What went wrong in a conversion, as the message that is shown to the user.
#[derive(Debug)]
pub struct ConvertError(pub String);

impl ConvertError {
    /// The message.
    pub fn to_string(&self) -> (message: String)
        ensures
            message@ == self.0@,
    {
        self.0.clone()
    }
}

impl From<&str> for ConvertError {
    fn from(message: &str) -> (e: ConvertError)
        ensures
            e.0@ == message@,
    {
        ConvertError(message.to_owned())
    }
}

impl vstd::std_specs::convert::FromSpecImpl<&str> for ConvertError {
    open spec fn obeys_from_spec() -> bool {
        false
    }

    open spec fn from_spec(message: &str) -> ConvertError {
        arbitrary()
    }
}

impl From<String> for ConvertError {
    fn from(message: String) -> (e: ConvertError) {
        ConvertError(message)
    }
}

impl vstd::std_specs::convert::FromSpecImpl<String> for ConvertError {
    open spec fn obeys_from_spec() -> bool {
        true
    }

    open spec fn from_spec(message: String) -> ConvertError {
        ConvertError(message)
    }
}

} // verus!
