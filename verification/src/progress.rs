//! How far an operation has come, as it is shown.
use vstd::prelude::*;
use vstd::string::*;

use crate::sync::{notice_views, Notice, NoticeKind, NoticeView};
use crate::text::{decimal_nat, join, unsigned_text};

verus! {

/// How far an operation has come: how many files there are in all, how many are done, where
/// the bar stands, and what it says.
pub struct Progress {
    pub total: u64,
    pub current: u64,
    pub position: u64,
    pub message: String,
    pub finished: bool,
}

/// What a [`Progress`] shows.
#[verifier::ext_equal]
pub struct ProgressView {
    pub total: u64,
    pub current: u64,
    pub position: u64,
    pub message: Seq<char>,
    pub finished: bool,
}

impl View for Progress {
    type V = ProgressView;

    open spec fn view(&self) -> ProgressView {
        ProgressView {
            total: self.total,
            current: self.current,
            position: self.position,
            message: self.message@,
            finished: self.finished,
        }
    }
}

/// The mark in front of a file that something was done about.
pub open spec fn mark(kind: NoticeKind) -> Seq<char> {
    match kind {
        NoticeKind::Skipped => "[ ] "@,
        NoticeKind::Downloaded => "[v] "@,
        NoticeKind::Uploaded => "[^] "@,
        NoticeKind::Deleted => "[x] "@,
    }
}

impl ProgressView {
    /// One file more, which the bar names behind a mark.
    pub open spec fn with_file(self, kind: NoticeKind, key: Seq<char>) -> ProgressView {
        ProgressView {
            current: (self.current + 1) as u64,
            position: (self.current + 1) as u64,
            message: mark(kind) + key,
            ..self
        }
    }

    /// The first `n` files of a list more.
    pub open spec fn with_files(self, notices: Seq<NoticeView>, n: nat) -> ProgressView
        decreases n,
    {
        if n == 0 {
            self
        } else {
            self.with_files(notices, (n - 1) as nat).with_file(
                notices[n - 1].kind,
                notices[n - 1].key,
            )
        }
    }
}

impl Progress {
    /// An empty bar.
    pub fn new() -> (progress: Progress)
        ensures
            progress@ == (ProgressView {
                total: 0,
                current: 0,
                position: 0,
                message: Seq::empty(),
                finished: false,
            }),
    {
        Progress { total: 0, current: 0, position: 0, message: String::new(), finished: false }
    }

    /// Sets how many files there are in all.
    pub fn set_total(&mut self, total: u64)
        ensures
            final(self)@ == (ProgressView { total, ..old(self)@ }),
    {
        self.total = total;
    }

    /// Starts over with another operation, on as many files.
    pub fn start_operation(&mut self, label: &str, detail: &str)
        ensures
            final(self)@ == (ProgressView {
                total: old(self)@.total,
                current: 0,
                position: 0,
                message: label@ + " "@ + detail@ + "..."@,
                finished: false,
            }),
    {
        self.current = 0;
        self.position = 0;
        self.finished = false;
        let mut message: String = join(label, " ");
        message.append(detail);
        message.append("...");
        self.message = message;
    }

    /// One file more, which the bar names behind a mark.
    fn advance(&mut self, mark: &str, key: &str)
        requires
            old(self)@.current < u64::MAX,
        ensures
            final(self)@ == (ProgressView {
                current: (old(self)@.current + 1) as u64,
                position: (old(self)@.current + 1) as u64,
                message: mark@ + key@,
                ..old(self)@
            }),
    {
        self.current = self.current + 1;
        self.position = self.current;
        self.message = join(mark, key);
    }

    /// A file was left as it is.
    pub fn file_skipped(&mut self, path: &str)
        requires
            old(self)@.current < u64::MAX,
        ensures
            final(self)@ == old(self)@.with_file(NoticeKind::Skipped, path@),
    {
        self.advance("[ ] ", path);
    }

    /// An object was fetched.
    pub fn file_downloaded(&mut self, key: &str)
        requires
            old(self)@.current < u64::MAX,
        ensures
            final(self)@ == old(self)@.with_file(NoticeKind::Downloaded, key@),
    {
        self.advance("[v] ", key);
    }

    /// A file was sent.
    pub fn file_uploaded(&mut self, key: &str)
        requires
            old(self)@.current < u64::MAX,
        ensures
            final(self)@ == old(self)@.with_file(NoticeKind::Uploaded, key@),
    {
        self.advance("[^] ", key);
    }

    /// A file or an object was deleted.
    pub fn file_deleted(&mut self, path: &str)
        requires
            old(self)@.current < u64::MAX,
        ensures
            final(self)@ == old(self)@.with_file(NoticeKind::Deleted, path@),
    {
        self.advance("[x] ", path);
    }

    /// Something was done about a file.
    pub fn report(&mut self, kind: NoticeKind, key: &str)
        requires
            old(self)@.current < u64::MAX,
        ensures
            final(self)@ == old(self)@.with_file(kind, key@),
    {
        match kind {
            NoticeKind::Skipped => self.file_skipped(key),
            NoticeKind::Downloaded => self.file_downloaded(key),
            NoticeKind::Uploaded => self.file_uploaded(key),
            NoticeKind::Deleted => self.file_deleted(key),
        }
    }

    /// Something was done about each of several files.
    pub fn report_all(&mut self, notices: &Vec<Notice>)
        requires
            old(self)@.current + notices@.len() <= u64::MAX,
        ensures
            final(self)@ == old(self)@.with_files(notice_views(notices@), notices@.len()),
    {
        let ghost start = self@;
        let ghost views = notice_views(notices@);
        let mut i: usize = 0;
        while i < notices.len()
            invariant
                i <= notices@.len(),
                start.current + notices@.len() <= u64::MAX,
                views == notice_views(notices@),
                self@ == start.with_files(views, i as nat),
                self@.current == start.current + i,
            decreases notices@.len() - i,
        {
            assert(views[i as int] == notices@[i as int]@);
            self.report(notices[i].kind, notices[i].key.as_str());
            i = i + 1;
        }
    }

    /// Ends the operation: the bar is full, and says how many files were dealt with.
    pub fn summary(&mut self, label: &str)
        ensures
            final(self)@ == (ProgressView {
                position: old(self)@.total,
                message: label@ + " -- "@ + decimal_nat(old(self)@.current as nat) + " files"@,
                finished: true,
                ..old(self)@
            }),
    {
        let mut message: String = join(label, " -- ");
        message.append(unsigned_text(self.current).as_str());
        message.append(" files");
        self.position = self.total;
        self.message = message;
        self.finished = true;
    }
}

/// Every report counts one file, so the summary tells how many there were.
pub proof fn law_each_report_counts(start: ProgressView, notices: Seq<NoticeView>, n: nat)
    requires
        start.current + n <= u64::MAX,
    ensures
        start.with_files(notices, n).current == start.current + n,
        n > 0 ==> start.with_files(notices, n).position == start.current + n,
        start.with_files(notices, n).total == start.total,
    decreases n,
{
    if n > 0 {
        law_each_report_counts(start, notices, (n - 1) as nat);
    }
}

/// A report leaves the number of files in all alone, counts one file, and names it behind a mark
/// that tells what was done about it.
pub proof fn law_report_names_file_and_deed(
    start: ProgressView,
    kind: NoticeKind,
    other: NoticeKind,
    key: Seq<char>,
)
    requires
        start.current < u64::MAX,
    ensures
        ({
            let after = start.with_file(kind, key);
            &&& after.current == start.current + 1
            &&& after.position == after.current
            &&& after.total == start.total
            &&& after.finished == start.finished
            &&& after.message.len() == 4 + key.len()
            &&& after.message.skip(4) == key
            &&& other != kind ==> start.with_file(other, key).message != after.message
        }),
{
    reveal_strlit("[ ] ");
    reveal_strlit("[v] ");
    reveal_strlit("[^] ");
    reveal_strlit("[x] ");
    let after = start.with_file(kind, key);
    assert(after.message.skip(4) =~= key);
    assert(after.message[1] == mark(kind)[1]);
    assert(start.with_file(other, key).message[1] == mark(other)[1]);
}

/// After several reports the bar names the file of the last.
pub proof fn law_last_report_is_shown(start: ProgressView, notices: Seq<NoticeView>)
    requires
        notices.len() > 0,
    ensures
        ({
            let after = start.with_files(notices, notices.len());
            after.message.len() == 4 + notices.last().key.len() && after.message.skip(4)
                == notices.last().key
        }),
{
    reveal_strlit("[ ] ");
    reveal_strlit("[v] ");
    reveal_strlit("[^] ");
    reveal_strlit("[x] ");
    let after = start.with_files(notices, notices.len());
    assert(after.message.skip(4) =~= notices.last().key);
}

} // verus!
