//! What can go wrong, and how it is put to the user.

use vstd::prelude::*;
use vstd::string::StringExecFns;
use crate::person::Email;

verus! {

/// The failures of this library. Each aborts the operation that met it.
#[derive(Debug)]
pub enum Error {
    /// A configuration was asked of a builder that was never told the
    /// latest commit.
    NoCommits,
    /// An address that no person in the configuration has.
    UnknownEmail(Email),
    /// Two people with the same address: the name of the one who had it
    /// first, the name of the one who came with it again, and the address.
    ConflictingEmail(String, String, Email),
}

impl Error {
    /// The text of the message that [`Error::to_string`] gives.
    pub open spec fn message(&self) -> Seq<char> {
        match self {
            Error::NoCommits => "Repository has no commit yet"@,
            Error::UnknownEmail(email) => "Unknown email: \""@ + email@
                + "\"\nPlease add it to a person in the configuration file."@,
            Error::ConflictingEmail(first, second, email) => "Multiple people with the same email: "@
                + email@ + " is used by "@ + first@ + " and "@ + second@
                + ".\nPlease put this email under only a single person."@,
        }
    }

    /// The message for the user.
    pub fn to_string(&self) -> (text: String)
        ensures
            text@ == self.message(),
    {
        match self {
            Error::NoCommits => String::from_str("Repository has no commit yet"),
            Error::UnknownEmail(email) => {
                let mut text = String::from_str("Unknown email: \"");
                text.append(email.as_str());
                text.append("\"\nPlease add it to a person in the configuration file.");
                text
            },
            Error::ConflictingEmail(first, second, email) => {
                let mut text = String::from_str("Multiple people with the same email: ");
                text.append(email.as_str());
                text.append(" is used by ");
                text.append(first.as_str());
                text.append(" and ");
                text.append(second.as_str());
                text.append(".\nPlease put this email under only a single person.");
                text
            },
        }
    }
}

} // verus!
