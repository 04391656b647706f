//! Transfers between the two sides, the steps that they are made of, and conflicts.
use vstd::prelude::*;
use vstd::string::*;

use crate::keys::KeySet;
use crate::sync::{Notice, NoticeKind, NoticeView, Upload, UploadView};
use crate::text::{
    decimal, integer_text, join, lemma_decimal_has_no_dot, lemma_decimal_injective,
};
use crate::time::Timestamp;

verus! {

/// The name with the number `number` under which a version of `key` can be kept aside in a
/// conflict.
pub open spec fn conflict_key(key: Seq<char>, number: int) -> Seq<char> {
    key + ".conflict-"@ + decimal(number)
}

/// Whether `number` is the first from `mtime` on with which the name is not taken.
pub open spec fn is_free_number(
    key: Seq<char>,
    mtime: i64,
    taken: Set<Seq<char>>,
    number: int,
) -> bool {
    &&& mtime <= number
    &&& !taken.contains(conflict_key(key, number))
    &&& forall|n: int|
        mtime <= n < number ==> taken.contains(#[trigger] conflict_key(key, n))
}

/// The name under which a version of `key` is kept aside in a conflict: with the local file's
/// modification time, or where that name is taken with the first number after it whose name is
/// not.
pub open spec fn conflict_for(key: Seq<char>, mtime: i64, taken: Set<Seq<char>>) -> Seq<char> {
    conflict_key(key, choose|number: int| is_free_number(key, mtime, taken, number))
}

/// The names for different keys or numbers are different.
proof fn lemma_conflict_key_injective(a: Seq<char>, n: int, b: Seq<char>, m: int)
    requires
        conflict_key(a, n) == conflict_key(b, m),
    ensures
        a == b,
        n == m,
{
    reveal_strlit(".conflict-");
    let whole = conflict_key(a, n);
    if a.len() < b.len() {
        lemma_no_dot_after(a, n, b.len() as int);
        assert(conflict_key(b, m)[b.len() as int] == '.');
    } else if b.len() < a.len() {
        lemma_no_dot_after(b, m, a.len() as int);
        assert(whole[a.len() as int] == '.');
    }
    assert(whole.take(a.len() as int) =~= a);
    assert(conflict_key(b, m).take(b.len() as int) =~= b);
    assert(whole.skip((a.len() + 10) as int) =~= decimal(n));
    assert(conflict_key(b, m).skip((b.len() + 10) as int) =~= decimal(m));
    lemma_decimal_injective(n, m);
}

/// The part of a name behind the key has one dot, at its start.
proof fn lemma_no_dot_after(key: Seq<char>, n: int, at: int)
    requires
        key.len() < at < conflict_key(key, n).len(),
    ensures
        conflict_key(key, n)[at] != '.',
{
    reveal_strlit(".conflict-");
    lemma_decimal_has_no_dot(n);
    if at >= key.len() + 10 {
        assert(conflict_key(key, n)[at] == decimal(n)[at - key.len() - 10]);
        assert(decimal(n).contains(decimal(n)[at - key.len() - 10]));
    } else {
        assert(conflict_key(key, n)[at] == ".conflict-"@[at - key.len()]);
    }
}

/// As many names as are taken in a row are taken in all.
proof fn lemma_names_taken(key: Seq<char>, mtime: int, taken: Set<Seq<char>>, n: nat)
    requires
        taken.finite(),
        forall|j: int| mtime <= j < mtime + n ==> taken.contains(#[trigger] conflict_key(key, j)),
    ensures
        n <= taken.len(),
    decreases n,
{
    if n > 0 {
        let last = conflict_key(key, mtime + n - 1);
        assert(taken.contains(last));
        let rest = taken.remove(last);
        assert forall|j: int| mtime <= j < mtime + n - 1 implies rest.contains(
            #[trigger] conflict_key(key, j),
        ) by {
            if conflict_key(key, j) == last {
                lemma_conflict_key_injective(key, j, key, mtime + n - 1);
            }
        }
        lemma_names_taken(key, mtime, rest, (n - 1) as nat);
    }
}

/// There is only one first free number.
proof fn lemma_free_number_unique(key: Seq<char>, mtime: i64, taken: Set<Seq<char>>, a: int, b: int)
    requires
        is_free_number(key, mtime, taken, a),
        is_free_number(key, mtime, taken, b),
    ensures
        a == b,
{
    if a < b {
        assert(taken.contains(conflict_key(key, a)));
    } else if b < a {
        assert(taken.contains(conflict_key(key, b)));
    }
}

proof fn lemma_free_number_from(key: Seq<char>, mtime: i64, taken: Set<Seq<char>>, n: nat) -> (
    number: int)
    requires
        taken.finite(),
        forall|j: int| mtime <= j < mtime + n ==> taken.contains(#[trigger] conflict_key(key, j)),
    ensures
        is_free_number(key, mtime, taken, number),
    decreases taken.len() - n,
{
    lemma_names_taken(key, mtime as int, taken, n);
    if !taken.contains(conflict_key(key, mtime + n)) {
        mtime + n
    } else {
        assert forall|j: int| mtime <= j < mtime + (n + 1) implies taken.contains(
            #[trigger] conflict_key(key, j),
        ) by {
            if j == mtime + n {
                assert(taken.contains(conflict_key(key, mtime + n)));
            }
        }
        lemma_names_taken(key, mtime as int, taken, n + 1);
        lemma_free_number_from(key, mtime, taken, n + 1)
    }
}

/// A version kept aside never takes the place of the file itself or of any file whose name is
/// taken, and versions of different files never take each other's. Where the name with the
/// local file's modification time is not taken, that is the name.
pub proof fn law_conflict_names_are_free(
    key: Seq<char>,
    mtime: i64,
    taken: Set<Seq<char>>,
    other: Seq<char>,
    time: i64,
)
    requires
        taken.finite(),
    ensures
        conflict_for(key, mtime, taken) != key,
        !taken.contains(conflict_for(key, mtime, taken)),
        other != key ==> conflict_for(key, mtime, taken) != conflict_for(other, time, taken),
        !taken.contains(conflict_key(key, mtime as int)) ==> conflict_for(key, mtime, taken)
            == conflict_key(key, mtime as int),
{
    reveal_strlit(".conflict-");
    let found = lemma_free_number_from(key, mtime, taken, 0);
    let number = choose|number: int| is_free_number(key, mtime, taken, number);
    assert(is_free_number(key, mtime, taken, number));
    assert(conflict_key(key, number).len() > key.len());
    let theirs = choose|number: int| is_free_number(other, time, taken, number);
    if conflict_for(key, mtime, taken) == conflict_for(other, time, taken) {
        lemma_conflict_key_injective(key, number, other, theirs);
    }
    if !taken.contains(conflict_key(key, mtime as int)) {
        assert(is_free_number(key, mtime, taken, mtime as int));
        lemma_free_number_unique(key, mtime, taken, number, mtime as int);
    }
}

/// The name under which a version of `key` is kept aside in a conflict: with the local file's
/// modification time, or where that name is taken with the first number after it whose name is
/// not.
pub fn conflict_name(key: &str, mtime: i64, taken: &KeySet) -> (name: String)
    ensures
        name@ == conflict_for(key@, mtime, taken@),
{
    let stem: String = join(key, ".conflict-");
    let most: usize = taken.len();
    proof {
        vstd::seq_lib::seq_to_set_is_finite(taken.key_seq());
        taken.key_seq().lemma_cardinality_of_set();
    }
    let mut n: usize = 0;
    loop
        invariant
            stem@ == key@ + ".conflict-"@,
            taken@.finite(),
            taken@.len() <= most,
            n <= most,
            forall|j: int|
                mtime <= j < mtime + n ==> taken@.contains(#[trigger] conflict_key(key@, j)),
        decreases most - n,
    {
        let number: i128 = mtime as i128 + n as i128;
        let name: String = join(stem.as_str(), integer_text(number).as_str());
        assert(name@ == conflict_key(key@, mtime + n));
        if !taken.contains(name.as_str()) {
            proof {
                let free = choose|free: int| is_free_number(key@, mtime, taken@, free);
                assert(is_free_number(key@, mtime, taken@, mtime + n));
                lemma_free_number_unique(key@, mtime, taken@, free, mtime + n);
            }
            return name;
        }
        proof {
            assert forall|j: int| mtime <= j < mtime + (n + 1) implies taken@.contains(
                #[trigger] conflict_key(key@, j),
            ) by {
                if j == mtime + n {
                    assert(taken@.contains(name@));
                }
            }
            lemma_names_taken(key@, mtime as int, taken@, (n + 1) as nat);
        }
        n = n + 1;
    }
}

/// What to do about a key.
pub enum Action {
    /// Fetch the object.
    Download { key: String, last_modified: Timestamp },
    /// Send the local file.
    Upload { key: String, md5: String, mtime: i64 },
    /// Keep the local file aside under the name `conflict`, and fetch the object.
    KeepLocal { key: String, conflict: String, last_modified: Timestamp },
    /// Keep the object aside in a local file with the name `conflict`, and send the local
    /// file.
    KeepRemote { key: String, conflict: String, md5: String, mtime: i64 },
    /// Delete the local file.
    DeleteLocal { key: String },
}

/// What an [`Action`] says.
pub enum ActionView {
    Download { key: Seq<char>, last_modified: int },
    Upload { key: Seq<char>, md5: Seq<char>, mtime: i64 },
    KeepLocal { key: Seq<char>, conflict: Seq<char>, last_modified: int },
    KeepRemote { key: Seq<char>, conflict: Seq<char>, md5: Seq<char>, mtime: i64 },
    DeleteLocal { key: Seq<char> },
}

impl View for Action {
    type V = ActionView;

    open spec fn view(&self) -> ActionView {
        match self {
            Action::Download { key, last_modified } => ActionView::Download {
                key: key@,
                last_modified: last_modified@,
            },
            Action::Upload { key, md5, mtime } => ActionView::Upload {
                key: key@,
                md5: md5@,
                mtime: *mtime,
            },
            Action::KeepLocal { key, conflict, last_modified } => ActionView::KeepLocal {
                key: key@,
                conflict: conflict@,
                last_modified: last_modified@,
            },
            Action::KeepRemote { key, conflict, md5, mtime } => ActionView::KeepRemote {
                key: key@,
                conflict: conflict@,
                md5: md5@,
                mtime: *mtime,
            },
            Action::DeleteLocal { key } => ActionView::DeleteLocal { key: key@ },
        }
    }
}

impl ActionView {
    /// The key that the action is about.
    pub open spec fn key(self) -> Seq<char> {
        match self {
            ActionView::Download { key, .. } => key,
            ActionView::Upload { key, .. } => key,
            ActionView::KeepLocal { key, .. } => key,
            ActionView::KeepRemote { key, .. } => key,
            ActionView::DeleteLocal { key } => key,
        }
    }

    /// The name under which the action keeps a version aside, if it does.
    pub open spec fn aside(self) -> Option<Seq<char>> {
        match self {
            ActionView::KeepLocal { conflict, .. } => Some(conflict),
            ActionView::KeepRemote { conflict, .. } => Some(conflict),
            _ => None,
        }
    }
}

/// Whether one of the actions keeps a version aside under `name`.
pub open spec fn keeps_aside(actions: Seq<ActionView>, name: Seq<char>) -> bool {
    exists|i: int| 0 <= i < actions.len() && (#[trigger] actions[i]).aside() == Some(name)
}

/// What a list of actions says.
pub open spec fn action_views(list: Seq<Action>) -> Seq<ActionView> {
    Seq::new(list.len(), |i: int| list[i]@)
}

/// One step of an action. Names of files are relative to the local directory.
pub enum Step {
    /// Give the file `from` the name `to`.
    Rename { from: String, to: String },
    /// Fetch the object `key` into the file `to`.
    Fetch { key: String, to: String },
    /// Give the file the modification time of its object.
    Stamp { file: String, last_modified: Timestamp },
    /// Send the file `from` under `key`, with its checksum and modification time.
    Send { key: String, from: String, md5: String, mtime: i64 },
    /// Delete the file.
    Remove { file: String },
}

/// What a [`Step`] says.
pub enum StepView {
    Rename { from: Seq<char>, to: Seq<char> },
    Fetch { key: Seq<char>, to: Seq<char> },
    Stamp { file: Seq<char>, last_modified: int },
    Send { key: Seq<char>, from: Seq<char>, md5: Seq<char>, mtime: i64 },
    Remove { file: Seq<char> },
}

impl View for Step {
    type V = StepView;

    open spec fn view(&self) -> StepView {
        match self {
            Step::Rename { from, to } => StepView::Rename { from: from@, to: to@ },
            Step::Fetch { key, to } => StepView::Fetch { key: key@, to: to@ },
            Step::Stamp { file, last_modified } => StepView::Stamp {
                file: file@,
                last_modified: last_modified@,
            },
            Step::Send { key, from, md5, mtime } => StepView::Send {
                key: key@,
                from: from@,
                md5: md5@,
                mtime: *mtime,
            },
            Step::Remove { file } => StepView::Remove { file: file@ },
        }
    }
}

/// What a list of steps says.
pub open spec fn step_views(list: Seq<Step>) -> Seq<StepView> {
    Seq::new(list.len(), |i: int| list[i]@)
}

/// The step that gives a fetched file the time of its object, where that is wanted.
pub open spec fn stamp_step(stamp: bool, file: Seq<char>, last_modified: int) -> Seq<StepView> {
    if stamp {
        seq![StepView::Stamp { file, last_modified }]
    } else {
        Seq::empty()
    }
}

/// The steps of an action, in order. With `stamp`, a fetched file gets the time of its object.
pub open spec fn steps_of(action: ActionView, stamp: bool) -> Seq<StepView> {
    match action {
        ActionView::Download { key, last_modified } => seq![StepView::Fetch { key, to: key }]
            + stamp_step(stamp, key, last_modified),
        ActionView::Upload { key, md5, mtime } => seq![
            StepView::Send { key, from: key, md5, mtime },
        ],
        ActionView::KeepLocal { key, conflict, last_modified } => seq![
            StepView::Rename { from: key, to: conflict },
            StepView::Fetch { key, to: key },
        ] + stamp_step(stamp, key, last_modified),
        ActionView::KeepRemote { key, conflict, md5, mtime } => seq![
            StepView::Fetch { key, to: conflict },
            StepView::Send { key, from: key, md5, mtime },
        ],
        ActionView::DeleteLocal { key } => seq![StepView::Remove { file: key }],
    }
}

/// The steps of an action, in order. A step is taken only if those before it succeeded. With
/// `stamp`, a fetched file gets the time of its object.
pub fn plan_steps(action: &Action, stamp: bool) -> (steps: Vec<Step>)
    ensures
        step_views(steps@) == steps_of(action@, stamp),
{
    let mut steps: Vec<Step> = Vec::new();
    match action {
        Action::Download { key, last_modified } => {
            steps.push(Step::Fetch { key: key.clone(), to: key.clone() });
            if stamp {
                steps.push(Step::Stamp { file: key.clone(), last_modified: *last_modified });
            }
        },
        Action::Upload { key, md5, mtime } => {
            steps.push(
                Step::Send {
                    key: key.clone(),
                    from: key.clone(),
                    md5: md5.clone(),
                    mtime: *mtime,
                },
            );
        },
        Action::KeepLocal { key, conflict, last_modified } => {
            steps.push(Step::Rename { from: key.clone(), to: conflict.clone() });
            steps.push(Step::Fetch { key: key.clone(), to: key.clone() });
            if stamp {
                steps.push(Step::Stamp { file: key.clone(), last_modified: *last_modified });
            }
        },
        Action::KeepRemote { key, conflict, md5, mtime } => {
            steps.push(Step::Fetch { key: key.clone(), to: conflict.clone() });
            steps.push(
                Step::Send {
                    key: key.clone(),
                    from: key.clone(),
                    md5: md5.clone(),
                    mtime: *mtime,
                },
            );
        },
        Action::DeleteLocal { key } => {
            steps.push(Step::Remove { file: key.clone() });
        },
    }
    assert(step_views(steps@) =~= steps_of(action@, stamp));
    steps
}

/// What an action that succeeded has done: fetched the object, sent the local file, or deleted
/// it.
pub enum Completed {
    Fetched { key: String },
    Sent { upload: Upload },
    Deleted { key: String },
}

/// What an action that succeeded has done.
pub fn completed(action: &Action) -> (done: Completed)
    ensures
        match action@ {
            ActionView::Download { key, .. } => done matches Completed::Fetched { key: k } && k@
                == key,
            ActionView::KeepLocal { key, .. } => done matches Completed::Fetched { key: k } && k@
                == key,
            ActionView::Upload { key, md5, mtime } => done matches Completed::Sent { upload }
                && upload@ == (UploadView { key, source: key, md5, mtime }),
            ActionView::KeepRemote { key, md5, mtime, .. } => done matches Completed::Sent {
                upload,
            } && upload@ == (UploadView { key, source: key, md5, mtime }),
            ActionView::DeleteLocal { key } => done matches Completed::Deleted { key: k } && k@
                == key,
        },
{
    match action {
        Action::Download { key, .. } => Completed::Fetched { key: key.clone() },
        Action::KeepLocal { key, .. } => Completed::Fetched { key: key.clone() },
        Action::Upload { key, md5, mtime } => Completed::Sent {
            upload: Upload {
                key: key.clone(),
                source: key.clone(),
                md5: md5.clone(),
                mtime: *mtime,
            },
        },
        Action::KeepRemote { key, md5, mtime, .. } => Completed::Sent {
            upload: Upload {
                key: key.clone(),
                source: key.clone(),
                md5: md5.clone(),
                mtime: *mtime,
            },
        },
        Action::DeleteLocal { key } => Completed::Deleted { key: key.clone() },
    }
}

/// What is reported of an action.
pub open spec fn action_notice(action: ActionView) -> NoticeView {
    NoticeView {
        kind: match action {
            ActionView::Download { .. } => NoticeKind::Downloaded,
            ActionView::KeepLocal { .. } => NoticeKind::Downloaded,
            ActionView::Upload { .. } => NoticeKind::Uploaded,
            ActionView::KeepRemote { .. } => NoticeKind::Uploaded,
            ActionView::DeleteLocal { .. } => NoticeKind::Deleted,
        },
        key: action.key(),
    }
}

/// What is reported of an action.
pub fn notice_of(action: &Action) -> (notice: Notice)
    ensures
        notice@ == action_notice(action@),
{
    match completed(action) {
        Completed::Fetched { key } => Notice { kind: NoticeKind::Downloaded, key },
        Completed::Sent { upload } => Notice { kind: NoticeKind::Uploaded, key: upload.key },
        Completed::Deleted { key } => Notice { kind: NoticeKind::Deleted, key },
    }
}

/// The step that sends a file.
pub fn send_step(upload: &Upload) -> (step: Step)
    ensures
        step@ == (StepView::Send {
            key: upload@.key,
            from: upload@.source,
            md5: upload@.md5,
            mtime: upload@.mtime,
        }),
{
    Step::Send {
        key: upload.key.clone(),
        from: upload.source.clone(),
        md5: upload.md5.clone(),
        mtime: upload.mtime,
    }
}

/// The content on the two sides, by file name and by key.
#[verifier::ext_equal]
pub struct Sides {
    pub local: Map<Seq<char>, Seq<u8>>,
    pub remote: Map<Seq<char>, Seq<u8>>,
}

impl Sides {
    /// Whether `content` is found somewhere on the two sides.
    pub open spec fn hold(self, content: Seq<u8>) -> bool {
        ||| exists|name: Seq<char>| #[trigger]
            self.local.contains_key(name) && self.local[name] == content
        ||| exists|key: Seq<char>| #[trigger]
            self.remote.contains_key(key) && self.remote[key] == content
    }

    /// The two sides after a step that succeeds.
    pub open spec fn step(self, step: StepView) -> Sides {
        match step {
            StepView::Rename { from, to } => Sides {
                local: self.local.remove(from).insert(to, self.local[from]),
                ..self
            },
            StepView::Fetch { key, to } => Sides {
                local: self.local.insert(to, self.remote[key]),
                ..self
            },
            StepView::Stamp { .. } => self,
            StepView::Send { key, from, .. } => Sides {
                remote: self.remote.insert(key, self.local[from]),
                ..self
            },
            StepView::Remove { file } => Sides { local: self.local.remove(file), ..self },
        }
    }

    /// The two sides after the first `n` of the steps.
    pub open spec fn after(self, steps: Seq<StepView>, n: nat) -> Sides
        decreases n,
    {
        if n == 0 {
            self
        } else {
            self.after(steps, (n - 1) as nat).step(steps[n - 1])
        }
    }

    /// The two sides after an action.
    pub open spec fn act(self, action: ActionView, stamp: bool) -> Sides {
        self.after(steps_of(action, stamp), steps_of(action, stamp).len())
    }

    /// The two sides after the first `n` of the actions.
    pub open spec fn act_all(self, actions: Seq<ActionView>, stamp: bool, n: nat) -> Sides
        decreases n,
    {
        if n == 0 {
            self
        } else {
            self.act_all(actions, stamp, (n - 1) as nat).act(actions[n - 1], stamp)
        }
    }

    /// Whether the two sides hold the same under `key`.
    pub open spec fn agree_on(self, key: Seq<char>) -> bool {
        &&& self.local.contains_key(key)
        &&& self.remote.contains_key(key)
        &&& self.local[key] == self.remote[key]
    }

    /// Whether what an action fetches, sends or keeps aside is there.
    pub open spec fn allow(self, action: ActionView) -> bool {
        match action {
            ActionView::Download { key, .. } => self.remote.contains_key(key),
            ActionView::Upload { key, .. } => self.local.contains_key(key),
            ActionView::KeepLocal { key, .. } => self.local.contains_key(key)
                && self.remote.contains_key(key),
            ActionView::KeepRemote { key, .. } => self.local.contains_key(key)
                && self.remote.contains_key(key),
            ActionView::DeleteLocal { .. } => true,
        }
    }
}

/// What each action does to the two sides.
pub proof fn lemma_act(sides: Sides, action: ActionView, stamp: bool)
    ensures
        sides.act(action, stamp) == match action {
            ActionView::Download { key, .. } => Sides {
                local: sides.local.insert(key, sides.remote[key]),
                ..sides
            },
            ActionView::Upload { key, .. } => Sides {
                remote: sides.remote.insert(key, sides.local[key]),
                ..sides
            },
            ActionView::KeepLocal { key, conflict, .. } => {
                let aside = sides.local.remove(key).insert(conflict, sides.local[key]);
                Sides { local: aside.insert(key, sides.remote[key]), ..sides }
            },
            ActionView::KeepRemote { key, conflict, .. } => {
                let local = sides.local.insert(conflict, sides.remote[key]);
                Sides { local, remote: sides.remote.insert(key, local[key]) }
            },
            ActionView::DeleteLocal { key } => Sides { local: sides.local.remove(key), ..sides },
        },
{
    reveal_with_fuel(Sides::after, 4);
}

/// A conflict loses nothing: whichever side wins, what was on the two sides before is still
/// somewhere on them afterwards, and also after any of the steps on the way, provided the name
/// under which the losing version is kept aside is not that of a file.
pub proof fn law_conflict_keeps_both(
    sides: Sides,
    action: ActionView,
    stamp: bool,
    content: Seq<u8>,
    n: nat,
)
    requires
        action is KeepLocal || action is KeepRemote,
        sides.allow(action),
        !sides.local.contains_key(action.aside()->0),
        n <= steps_of(action, stamp).len(),
        sides.hold(content),
    ensures
        sides.after(steps_of(action, stamp), n).hold(content),
{
    reveal_with_fuel(Sides::after, 4);
    let key = action.key();
    let steps = steps_of(action, stamp);
    let s0 = sides;
    let s1 = sides.after(steps, 1);
    let s2 = sides.after(steps, 2);
    let s3 = sides.after(steps, 3);
    if exists|name: Seq<char>| #[trigger]
        s0.local.contains_key(name) && s0.local[name] == content {
        let name = choose|name: Seq<char>| #[trigger]
            s0.local.contains_key(name) && s0.local[name] == content;
        match action {
            ActionView::KeepLocal { conflict, .. } => {
                let kept = if name == key {
                    conflict
                } else {
                    name
                };
                assert(s1.local.contains_key(kept) && s1.local[kept] == content);
                assert(s2.local.contains_key(kept) && s2.local[kept] == content);
                assert(stamp ==> s3.local.contains_key(kept) && s3.local[kept] == content);
            },
            _ => {
                assert(s1.local.contains_key(name) && s1.local[name] == content);
                assert(s2.local.contains_key(name) && s2.local[name] == content);
            },
        }
    } else {
        let at = choose|k: Seq<char>| #[trigger]
            s0.remote.contains_key(k) && s0.remote[k] == content;
        match action {
            ActionView::KeepRemote { conflict, .. } => {
                assert(s1.remote.contains_key(at) && s1.remote[at] == content);
                if at == key {
                    assert(s2.local.contains_key(conflict) && s2.local[conflict] == content);
                } else {
                    assert(s2.remote.contains_key(at) && s2.remote[at] == content);
                }
            },
            _ => {
                assert(s1.remote.contains_key(at) && s1.remote[at] == content);
                assert(s2.remote.contains_key(at) && s2.remote[at] == content);
                assert(stamp ==> s3.remote.contains_key(at) && s3.remote[at] == content);
            },
        }
    }
}

/// After every action but a deletion the two sides agree on the key.
pub proof fn law_transfer_makes_sides_agree(sides: Sides, action: ActionView, stamp: bool)
    requires
        action !is DeleteLocal,
        sides.allow(action),
        action.aside() != Some(action.key()),
    ensures
        sides.act(action, stamp).agree_on(action.key()),
{
    lemma_act(sides, action, stamp);
}

/// Whether none of the first `n` actions is about `key`, or keeps a version aside under it.
pub open spec fn leave_alone(actions: Seq<ActionView>, n: nat, key: Seq<char>) -> bool {
    forall|i: int|
        0 <= i < n ==> (#[trigger] actions[i]).key() != key && actions[i].aside() != Some(key)
}

/// Whether two states of the two sides hold the same under `key`.
pub open spec fn same_under(a: Sides, b: Sides, key: Seq<char>) -> bool {
    &&& a.local.contains_key(key) == b.local.contains_key(key)
    &&& a.remote.contains_key(key) == b.remote.contains_key(key)
    &&& a.local[key] == b.local[key]
    &&& a.remote[key] == b.remote[key]
}

/// What an action keeps aside.
pub open spec fn kept_aside(sides: Sides, action: ActionView) -> Seq<u8> {
    if action is KeepLocal {
        sides.local[action.key()]
    } else {
        sides.remote[action.key()]
    }
}

/// After actions on different keys, which keep versions aside under names of their own, the two
/// sides agree on each of these keys that is not deleted, every version kept aside is there, and
/// under every other key they hold what they held.
pub proof fn law_transfers_make_sides_agree(
    sides: Sides,
    actions: Seq<ActionView>,
    stamp: bool,
    n: nat,
)
    requires
        n <= actions.len(),
        forall|i: int| 0 <= i < actions.len() ==> sides.allow(#[trigger] actions[i]),
        forall|i: int, j: int|
            0 <= i < j < actions.len() ==> (#[trigger] actions[i]).key() != (
            #[trigger] actions[j]).key(),
        forall|i: int, j: int|
            0 <= i < actions.len() && 0 <= j < actions.len() ==> (#[trigger] actions[i]).aside()
                != Some((#[trigger] actions[j]).key()),
        forall|i: int, j: int|
            0 <= i < j < actions.len() && (#[trigger] actions[i]).aside() is Some
                ==> actions[i].aside() != (#[trigger] actions[j]).aside(),
    ensures
        ({
            let end = sides.act_all(actions, stamp, n);
            &&& forall|i: int|
                0 <= i < n && (#[trigger] actions[i]) !is DeleteLocal ==> end.agree_on(
                    actions[i].key(),
                )
            &&& forall|i: int|
                0 <= i < n && (#[trigger] actions[i]).aside() is Some ==> end.local.contains_key(
                    actions[i].aside()->0,
                ) && end.local[actions[i].aside()->0] == kept_aside(sides, actions[i])
            &&& forall|i: int|
                0 <= i < n && (#[trigger] actions[i]) is DeleteLocal ==> !end.local.contains_key(
                    actions[i].key(),
                )
            &&& forall|key: Seq<char>| #[trigger]
                leave_alone(actions, n, key) ==> same_under(sides, end, key)
        }),
    decreases n,
{
    if n > 0 {
        let m = (n - 1) as nat;
        law_transfers_make_sides_agree(sides, actions, stamp, m);
        let before = sides.act_all(actions, stamp, m);
        let end = sides.act_all(actions, stamp, n);
        let action = actions[n - 1];
        let key = action.key();
        assert(leave_alone(actions, m, key));
        assert(same_under(sides, before, key));
        assert(before.allow(action));
        lemma_act(before, action, stamp);
        if action !is DeleteLocal {
            law_transfer_makes_sides_agree(before, action, stamp);
        }
        assert forall|i: int| 0 <= i < n && (#[trigger] actions[i]) !is DeleteLocal implies
            end.agree_on(actions[i].key()) by {
            if i < m {
                assert(before.agree_on(actions[i].key()));
                assert(actions[i].key() != actions[n - 1].key());
                assert(actions[n - 1].aside() != Some(actions[i].key()));
            }
        }
        assert forall|i: int| 0 <= i < n && (#[trigger] actions[i]) is DeleteLocal implies
            !end.local.contains_key(actions[i].key()) by {
            if i < m {
                assert(!before.local.contains_key(actions[i].key()));
                assert(actions[i].key() != actions[n - 1].key());
                assert(actions[n - 1].aside() != Some(actions[i].key()));
            }
        }
        assert forall|i: int| 0 <= i < n && (#[trigger] actions[i]).aside() is Some implies
            end.local.contains_key(actions[i].aside()->0) && end.local[actions[i].aside()->0]
            == kept_aside(sides, actions[i]) by {
            if i < m {
                assert(before.local.contains_key(actions[i].aside()->0));
                assert(actions[i].aside() != actions[n - 1].aside());
                assert(actions[i].aside() != Some(actions[n - 1].key()));
            } else {
                assert(actions[i].aside() != Some(actions[n - 1].key()));
            }
        }
        assert forall|k: Seq<char>| #[trigger] leave_alone(actions, n, k) implies same_under(
            sides,
            end,
            k,
        ) by {
            assert(actions[n - 1].key() != k && actions[n - 1].aside() != Some(k));
            assert(leave_alone(actions, m, k));
        }
    }
}

/// The side that an action lets win keeps what it has under the key, and the other side gets it:
/// the bucket wins where the object is fetched, and the local directory where the file is sent.
/// What a conflict keeps aside is the losing version; a deletion touches the local file alone.
pub proof fn law_winning_side_is_kept(sides: Sides, action: ActionView, stamp: bool)
    requires
        sides.allow(action),
        action.aside() != Some(action.key()),
    ensures
        ({
            let end = sides.act(action, stamp);
            let key = action.key();
            &&& action is Download || action is KeepLocal ==> end.remote == sides.remote
                && end.local.contains_key(key) && end.local[key] == sides.remote[key]
            &&& action is Upload || action is KeepRemote ==> end.remote == sides.remote.insert(
                key,
                sides.local[key],
            ) && end.local.contains_key(key) && end.local[key] == sides.local[key]
            &&& action is Upload ==> end.local == sides.local
            &&& action is KeepLocal ==> end.local[action->KeepLocal_conflict] == sides.local[key]
            &&& action is KeepRemote ==> end.local[action->KeepRemote_conflict]
                == sides.remote[key]
            &&& action is DeleteLocal ==> !end.local.contains_key(key) && end.remote
                == sides.remote
            &&& forall|name: Seq<char>|
                name != key && action.aside() != Some(name) ==> (#[trigger] end.local.contains_key(
                    name,
                ) <==> sides.local.contains_key(name)) && end.local[name] == sides.local[name]
        }),
{
    lemma_act(sides, action, stamp);
}

/// What is sent is sent with the checksum and time that the action has, and the file that is
/// fetched under the key, and no other, gets the time of its object where that is wanted, after
/// it was fetched.
pub proof fn law_steps_carry_what_is_known(action: ActionView, stamp: bool)
    ensures
        ({
            let steps = steps_of(action, stamp);
            &&& steps.len() > 0
            &&& action matches ActionView::Upload { key, md5, mtime } ==> steps.last() == (
            StepView::Send { key, from: key, md5, mtime })
            &&& action matches ActionView::KeepRemote { key, md5, mtime, .. } ==> steps.last() == (
            StepView::Send { key, from: key, md5, mtime })
            &&& action matches ActionView::Download { key, last_modified } ==> if stamp {
                steps.last() == (StepView::Stamp { file: key, last_modified })
            } else {
                steps.last() == (StepView::Fetch { key, to: key })
            }
            &&& action matches ActionView::KeepLocal { key, last_modified, .. } ==> if stamp {
                steps.last() == (StepView::Stamp { file: key, last_modified })
            } else {
                steps.last() == (StepView::Fetch { key, to: key })
            }
            &&& forall|i: int|
                0 <= i < steps.len() && #[trigger] steps[i] is Stamp ==> i > 0 && i == steps.len()
                    - 1 && stamp
        }),
{
}

/// A report on an action names its key and what becomes of it: a file that is fetched counts as
/// downloaded and one that is sent as uploaded, conflict or not.
pub proof fn law_report_tells_the_action(action: ActionView)
    ensures
        action_notice(action).key == action.key(),
        action_notice(action).kind is Downloaded <==> action is Download || action is KeepLocal,
        action_notice(action).kind is Uploaded <==> action is Upload || action is KeepRemote,
        action_notice(action).kind is Deleted <==> action is DeleteLocal,
{
}

/// The name of a version kept aside is the key, with `.conflict-` and a number behind it: the
/// modification time, or the first after it whose name is not taken.
pub proof fn law_conflict_name_tells_key_and_time(key: Seq<char>, mtime: i64, taken: Set<Seq<char>>)
    requires
        taken.finite(),
    ensures
        exists|number: int|
            mtime <= number && conflict_for(key, mtime, taken) == key + ".conflict-"@
                + #[trigger] decimal(number) && forall|n: int|
                mtime <= n < number ==> taken.contains(
                    key + ".conflict-"@ + #[trigger] decimal(n),
                ),
{
    let found = lemma_free_number_from(key, mtime, taken, 0);
    let number = choose|number: int| is_free_number(key, mtime, taken, number);
    assert(is_free_number(key, mtime, taken, number));
    assert(conflict_for(key, mtime, taken) == key + ".conflict-"@ + decimal(number));
    assert forall|n: int| mtime <= n < number implies taken.contains(
        key + ".conflict-"@ + #[trigger] decimal(n),
    ) by {
        assert(taken.contains(conflict_key(key, n)));
    }
}

/// A version is kept aside under a name exactly when one of the actions is a conflict whose name
/// it is.
pub proof fn law_conflicts_alone_keep_aside(actions: Seq<ActionView>, name: Seq<char>)
    ensures
        keeps_aside(actions, name) <==> exists|i: int|
            0 <= i < actions.len() && match #[trigger] actions[i] {
                ActionView::KeepLocal { conflict, .. } => conflict == name,
                ActionView::KeepRemote { conflict, .. } => conflict == name,
                _ => false,
            },
{
    if keeps_aside(actions, name) {
        let i = choose|i: int|
            0 <= i < actions.len() && (#[trigger] actions[i]).aside() == Some(name);
        assert(match actions[i] {
            ActionView::KeepLocal { conflict, .. } => conflict == name,
            ActionView::KeepRemote { conflict, .. } => conflict == name,
            _ => false,
        });
    }
    if exists|i: int|
        0 <= i < actions.len() && match #[trigger] actions[i] {
            ActionView::KeepLocal { conflict, .. } => conflict == name,
            ActionView::KeepRemote { conflict, .. } => conflict == name,
            _ => false,
        } {
        let i = choose|i: int|
            0 <= i < actions.len() && match #[trigger] actions[i] {
                ActionView::KeepLocal { conflict, .. } => conflict == name,
                ActionView::KeepRemote { conflict, .. } => conflict == name,
                _ => false,
            };
        assert(actions[i].aside() == Some(name));
    }
}

/// An action is about the key that it was made for.
pub proof fn law_action_is_about_its_key(
    key: Seq<char>,
    conflict: Seq<char>,
    last_modified: int,
    md5: Seq<char>,
    mtime: i64,
)
    ensures
        (ActionView::Download { key, last_modified }).key() == key,
        (ActionView::Upload { key, md5, mtime }).key() == key,
        (ActionView::KeepLocal { key, conflict, last_modified }).key() == key,
        (ActionView::KeepRemote { key, conflict, md5, mtime }).key() == key,
        (ActionView::DeleteLocal { key }).key() == key,
{
}

} // verus!
