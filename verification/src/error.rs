//! The two ways in which the extraction pass fails.
use vstd::prelude::*;
use vstd::string::*;

verus! {

/// Why the extraction pass stopped. Both failures end the pass.
#[derive(Debug, Clone, PartialEq, Eq)]
pub enum SplitError {
    /// No chunk of the build carries this requested name.
    UnresolvedChunkName(String),
    /// The name derived for an extraction chunk is carried by a chunk already.
    DuplicateChunkName(String),
}

impl SplitError {
    /// The text of the error message.
    pub open spec fn message_text(self) -> Seq<char> {
        match self {
            SplitError::UnresolvedChunkName(name) => "chunk "@ + name@ + " not found"@,
            SplitError::DuplicateChunkName(name) => "新建 chunk 的时候存在重名的情况："@ + name@,
        }
    }

    /// The chunk name that the error is about.
    pub fn chunk_name(&self) -> (name: &String)
        ensures
            match *self {
                SplitError::UnresolvedChunkName(n) => name@ == n@,
                SplitError::DuplicateChunkName(n) => name@ == n@,
            },
    {
        match self {
            SplitError::UnresolvedChunkName(n) => n,
            SplitError::DuplicateChunkName(n) => n,
        }
    }

    /// The error message.
    pub fn message(&self) -> (text: String)
        ensures
            text@ == self.message_text(),
    {
        match self {
            SplitError::UnresolvedChunkName(name) => {
                let mut text = String::from_str("chunk ");
                text.append(name.as_str());
                text.append(" not found");
                text
            },
            SplitError::DuplicateChunkName(name) => {
                let mut text = String::from_str("新建 chunk 的时候存在重名的情况：");
                text.append(name.as_str());
                text
            },
        }
    }
}

} // verus!
