//! What is observed of a file in the local directory.
use vstd::prelude::*;
use vstd::string::*;

use crate::time::{recorded_mtime, Timestamp};

verus! {

/// A local file: when it was modified, if that is known, and the checksum of its content, if
/// it was read.
pub struct LocalFile {
    pub modified: Option<Timestamp>,
    pub md5: Option<String>,
}

/// What a [`LocalFile`] says.
#[verifier::ext_equal]
pub struct LocalView {
    pub modified: Option<int>,
    pub md5: Option<Seq<char>>,
}

impl View for LocalFile {
    type V = LocalView;

    open spec fn view(&self) -> LocalView {
        LocalView {
            modified: match self.modified {
                Some(time) => Some(time@),
                None => None,
            },
            md5: match self.md5 {
                Some(text) => Some(text@),
                None => None,
            },
        }
    }
}

/// What is said of a file that may be missing.
pub open spec fn file_view(file: Option<&LocalFile>) -> Option<LocalView> {
    match file {
        Some(f) => Some(f@),
        None => None,
    }
}

/// Whether a file that may be missing is there later exactly if it was there before, with the
/// same modification time; its content may have been read before, later, both or never.
pub open spec fn unmodified(file: Option<LocalView>, later: Option<LocalView>) -> bool {
    match (file, later) {
        (Some(f), Some(l)) => f.modified == l.modified,
        (None, None) => true,
        _ => false,
    }
}

impl LocalView {
    /// The modification time as it is recorded.
    pub open spec fn mtime(self) -> i64 {
        recorded_mtime(self.modified)
    }

    /// The modification time as an instant; the epoch where it is not known.
    pub open spec fn instant(self) -> int {
        match self.modified {
            Some(instant) => instant,
            None => 0,
        }
    }

    /// The same file with another checksum.
    pub open spec fn with_md5(self, md5: Option<Seq<char>>) -> LocalView {
        LocalView { md5, ..self }
    }

    /// The checksum, empty where the content was not read.
    pub open spec fn checksum(self) -> Seq<char> {
        match self.md5 {
            Some(text) => text,
            None => Seq::empty(),
        }
    }
}

impl LocalFile {
    /// The modification time as it is recorded.
    pub fn mtime(&self) -> (mtime: i64)
        ensures
            mtime == self@.mtime(),
    {
        match &self.modified {
            Some(time) => time.mtime(),
            None => 0,
        }
    }

    /// The modification time; the epoch where it is not known.
    pub fn time(&self) -> (time: Timestamp)
        ensures
            time@ == self@.instant(),
    {
        match &self.modified {
            Some(time) => *time,
            None => Timestamp::epoch(),
        }
    }

    /// The checksum, empty where the content was not read.
    pub fn checksum(&self) -> (text: String)
        ensures
            text@ == self@.checksum(),
    {
        match &self.md5 {
            Some(text) => text.clone(),
            None => String::new(),
        }
    }

    /// The checksum, if the content was read.
    pub fn md5_ref(&self) -> (md5: Option<&str>)
        ensures
            (match md5 {
                Some(m) => Some(m@),
                None => None,
            }) == self@.md5,
    {
        match &self.md5 {
            Some(text) => Some(text.as_str()),
            None => None,
        }
    }
}

/// What is said of a file goes back to its modification time and its checksum: the time is the
/// epoch where it is not known, the record of it is in nanoseconds, and a checksum that is not
/// known is empty.
pub proof fn law_file_says_what_is_known(file: LocalView, md5: Option<Seq<char>>)
    ensures
        file.modified matches Some(t) ==> file.instant() == t,
        file.modified is None ==> file.instant() == 0 && file.mtime() == 0,
        0 <= file.instant() <= i64::MAX ==> file.mtime() == file.instant(),
        file.instant() < 0 ==> file.mtime() == 0,
        file.md5 matches Some(m) ==> file.checksum() == m,
        file.md5 is None ==> file.checksum().len() == 0,
        file.with_md5(md5).md5 == md5 && file.with_md5(md5).modified == file.modified,
{
}

} // verus!
