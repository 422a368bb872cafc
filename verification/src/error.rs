//! The error that the library's operations report.
use vstd::prelude::*;

verus! {

/// Why an operation was refused, in words.
#[derive(Clone, Debug, PartialEq, Eq)]
pub struct Error {
    pub message: String,
}

impl DeepView for Error {
    type V = Seq<char>;

    open spec fn deep_view(&self) -> Seq<char> {
        self.message@
    }
}

impl Error {
    pub fn new(message: &str) -> (r: Error)
        ensures
            r.deep_view() == message@,
    {
        Error { message: message.to_owned() }
    }

    /// The error with the circumstances in which it arose put in front.
    pub fn within(self, context: &str) -> (r: Error)
        ensures
            r.deep_view() == context@ + ": "@ + self.deep_view(),
    {
        let mut message = context.to_owned();
        message.append(": ");
        message.append(self.message.as_str());
        Error { message }
    }
}

/// What a result stands for.
pub open spec fn outcome<T: DeepView>(r: Result<T, Error>) -> Result<T::V, Seq<char>> {
    match r {
        Ok(value) => Ok(value.deep_view()),
        Err(error) => Err(error.deep_view()),
    }
}

} // verus!
