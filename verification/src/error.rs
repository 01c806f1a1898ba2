use vstd::prelude::*;
use vstd::std_specs::convert::FromSpecImpl;

verus! {

/// Why an analysis step gave up.
#[derive(Debug)]
pub enum AnalyzeError {
    Other(String),
}

pub type AnalyzeResult<T> = Result<T, AnalyzeError>;

impl AnalyzeError {
    /// The message that the error carries.
    pub open spec fn message(&self) -> Seq<char> {
        match self {
            AnalyzeError::Other(s) => s@,
        }
    }

    /// The text of the error, as it is displayed.
    pub fn to_string(&self) -> (s: String)
        ensures
            s@ == self.message(),
    {
        match self {
            AnalyzeError::Other(s) => s.clone(),
        }
    }
}

impl From<String> for AnalyzeError {
    fn from(s: String) -> (e: AnalyzeError) {
        AnalyzeError::Other(s)
    }
}

impl FromSpecImpl<String> for AnalyzeError {
    open spec fn obeys_from_spec() -> bool {
        true
    }

    open spec fn from_spec(v: String) -> AnalyzeError {
        AnalyzeError::Other(v)
    }
}

impl From<&'static str> for AnalyzeError {
    fn from(s: &'static str) -> (e: AnalyzeError)
        ensures
            e.message() == s@,
    {
        AnalyzeError::Other(s.to_string())
    }
}

impl FromSpecImpl<&'static str> for AnalyzeError {
    // A `String` is not fixed by its characters alone, so no single value is claimed here;
    // the message of the result is stated on `from` itself.
    open spec fn obeys_from_spec() -> bool {
        false
    }

    open spec fn from_spec(v: &'static str) -> AnalyzeError {
        choose|e: AnalyzeError| e.message() == v@
    }
}

} // verus!
