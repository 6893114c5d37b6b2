use vstd::prelude::*;

verus! {

/// The failure kinds of the catalog engine. Each carries an optional
/// diagnostic message describing the underlying cause.
#[derive(Debug, Clone)]
pub enum Error {
    InvalidName(Option<String>),
    InvalidDescription(Option<String>),
    InvalidCommand(Option<String>),
    InvalidSource(Option<String>),
    InvalidAuthor(Option<String>),
    InvalidVersion(Option<String>),
    InvalidTags(Option<String>),
    InvalidArguments(Option<String>),
    InvalidConfiguration(Option<String>),
    ParseError(Option<String>),
    ReadError(Option<String>),
    WriteError(Option<String>),
    StoreError(Option<String>),
    SchemaError(Option<String>),
    Io(Option<String>),
}

impl Error {
    /// A short, fixed description of the failure kind.
    pub fn message(&self) -> (r: &'static str)
        ensures
            r@ == self.message_spec(),
    {
        match self {
            Error::InvalidName(_) => "The workflow name is invalid.",
            Error::InvalidDescription(_) => "The workflow description is invalid.",
            Error::InvalidCommand(_) => "The workflow command is invalid.",
            Error::InvalidSource(_) => "The workflow source is invalid.",
            Error::InvalidAuthor(_) => "The workflow author is invalid.",
            Error::InvalidVersion(_) => "The workflow version is invalid.",
            Error::InvalidTags(_) => "The workflow tags are invalid.",
            Error::InvalidArguments(_) => "The workflow arguments are invalid.",
            Error::InvalidConfiguration(_) => "The configuration is invalid.",
            Error::ParseError(_) => "Unable to parse the workflow.",
            Error::ReadError(_) => "Unable to read the workflow.",
            Error::WriteError(_) => "Unable to write the workflow.",
            Error::StoreError(_) => "The workflow store failed.",
            Error::SchemaError(_) => "The search schema or query is invalid.",
            Error::Io(_) => "The workflow is invalid.",
        }
    }

    /// The description that `message` returns for each kind.
    pub open spec fn message_spec(&self) -> Seq<char> {
        match self {
            Error::InvalidName(_) => "The workflow name is invalid."@,
            Error::InvalidDescription(_) => "The workflow description is invalid."@,
            Error::InvalidCommand(_) => "The workflow command is invalid."@,
            Error::InvalidSource(_) => "The workflow source is invalid."@,
            Error::InvalidAuthor(_) => "The workflow author is invalid."@,
            Error::InvalidVersion(_) => "The workflow version is invalid."@,
            Error::InvalidTags(_) => "The workflow tags are invalid."@,
            Error::InvalidArguments(_) => "The workflow arguments are invalid."@,
            Error::InvalidConfiguration(_) => "The configuration is invalid."@,
            Error::ParseError(_) => "Unable to parse the workflow."@,
            Error::ReadError(_) => "Unable to read the workflow."@,
            Error::WriteError(_) => "Unable to write the workflow."@,
            Error::StoreError(_) => "The workflow store failed."@,
            Error::SchemaError(_) => "The search schema or query is invalid."@,
            Error::Io(_) => "The workflow is invalid."@,
        }
    }
}

} // verus!
