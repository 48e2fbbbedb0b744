use vstd::prelude::*;

verus! {

/// The crate's fatal error taxonomy: input/output failures, malformed JSON
/// where well-formed JSON is a prerequisite, and malformed delimited files
/// (the template store and the persisted label cache).
#[derive(Debug)]
pub enum ProcessingError {
    IoError(String),
    JsonError(String),
    CsvError(String),
}

impl ProcessingError {
    /// A human-readable description of the error.
    pub fn message(&self) -> (r: String)
        ensures
            r@ == self.message_spec(),
    {
        match self {
            ProcessingError::IoError(m) => {
                let mut r = "IO Error: ".to_owned();
                r.append(m.as_str());
                r
            },
            ProcessingError::JsonError(m) => {
                let mut r = "JSON Error: ".to_owned();
                r.append(m.as_str());
                r
            },
            ProcessingError::CsvError(m) => {
                let mut r = "CSV Error: ".to_owned();
                r.append(m.as_str());
                r
            },
        }
    }

    /// What `message` returns for each variant.
    pub open spec fn message_spec(&self) -> Seq<char> {
        match self {
            ProcessingError::IoError(m) => "IO Error: "@ + m@,
            ProcessingError::JsonError(m) => "JSON Error: "@ + m@,
            ProcessingError::CsvError(m) => "CSV Error: "@ + m@,
        }
    }
}

} // verus!
