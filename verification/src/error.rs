//! What went wrong with a key.
use vstd::prelude::*;
use vstd::string::*;

use crate::text::join;

verus! {

/// The failure of one transfer or deletion, which does not keep the others from going on.
#[derive(Clone)]
pub struct SyncError {
    pub key: String,
    pub message: String,
}

impl SyncError {
    /// The failure of what was done about `key`, with its message.
    pub fn new(key: &str, message: String) -> (error: SyncError)
        ensures
            error.key@ == key@,
            error.message@ == message@,
    {
        SyncError { key: key.to_owned(), message }
    }

    /// The failure in words.
    pub fn text(&self) -> (text: String)
        ensures
            text@ == self.key@ + ": "@ + self.message@,
    {
        let mut text: String = join(self.key.as_str(), ": ");
        text.append(self.message.as_str());
        text
    }
}

} // verus!
