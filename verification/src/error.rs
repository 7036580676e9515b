use vstd::prelude::*;

verus! {

/// Errors of the product space lookups.
#[derive(Debug)]
pub enum Error {
    /// `member` is not a name of the index called `index`
    /// (`"country"` or `"product"`).
    MissingIndex { member: String, index: String },
}

/// The text that describes an error, as a sequence of characters.
pub open spec fn error_message(e: Error) -> Seq<char> {
    match e {
        Error::MissingIndex { member, index } =>
            "MissingIndex error: "@ + member@ + " not in "@ + index@,
    }
}

impl Error {
    /// Builds the error for a name that one of the indexes lacks.
    pub fn missing_index(member: &str, index: &str) -> (e: Error)
        ensures
            e matches Error::MissingIndex { member: m, index: i } && m@ == member@ && i@ == index@,
    {
        Error::MissingIndex { member: member.to_owned(), index: index.to_owned() }
    }

    /// A short description of the kind of error.
    pub fn description(&self) -> (s: String)
        ensures
            s@ == "Missing Index"@,
    {
        match self {
            Error::MissingIndex { .. } => String::from_str("Missing Index"),
        }
    }

    /// The full text of the error: `MissingIndex error: <member> not in <index>`.
    pub fn message(&self) -> (s: String)
        ensures
            s@ == error_message(*self),
    {
        match self {
            Error::MissingIndex { member, index } => {
                let mut s = String::from_str("MissingIndex error: ");
                s.append(member.as_str());
                s.append(" not in ");
                s.append(index.as_str());
                s
            },
        }
    }
}

} // verus!
