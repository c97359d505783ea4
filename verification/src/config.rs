//! Options that exclude one another.

use vstd::prelude::*;

verus! {

/// Two options were given that cannot go together.
#[derive(Debug, Clone, Copy, PartialEq, Eq, Structural)]
pub enum ConfigError {
    /// Numbering all lines together with numbering nonblank lines.
    NumberWithNonblank,
    /// A line quota together with a byte quota.
    LinesWithBytes,
    /// Counting bytes together with counting characters.
    BytesWithChars,
}

impl ConfigError {
    /// The message for the user.
    pub fn to_string(&self) -> (s: String)
        ensures
            s@ == self.message(),
    {
        match self {
            ConfigError::NumberWithNonblank => {
                "the argument '--number' cannot be used with '--number-nonblank'".to_string()
            },
            ConfigError::LinesWithBytes => {
                "the argument '--lines' cannot be used with '--bytes'".to_string()
            },
            ConfigError::BytesWithChars => {
                "the argument '--bytes' cannot be used with '--chars'".to_string()
            },
        }
    }

    /// The message for the user, in the model.
    pub open spec fn message(&self) -> Seq<char> {
        match self {
            ConfigError::NumberWithNonblank => {
                "the argument '--number' cannot be used with '--number-nonblank'"@
            },
            ConfigError::LinesWithBytes => "the argument '--lines' cannot be used with '--bytes'"@,
            ConfigError::BytesWithChars => "the argument '--bytes' cannot be used with '--chars'"@,
        }
    }
}

/// The name that stands for standard input where no source is named.
pub fn default_files() -> (files: Vec<String>)
    ensures
        files@.len() == 1,
        files@[0]@ == seq!['-'],
{
    let mut files: Vec<String> = Vec::new();
    let dash = "-".to_string();
    proof {
        reveal_strlit("-");
    }
    files.push(dash);
    files
}

} // verus!
