//! Saving a store, one filesystem operation at a time.
//!
//! The library touches no file. A save is a `SaveJob`: it names the next
//! operation, the caller performs it and hands back what came of it, and the
//! job names the one after. The operations come in a fixed order: the oldest
//! backups go first; then the store's directory and the temporary file are
//! made; the store file, made if it is not there, is copied to a new backup;
//! the temporary file is written; it is copied over the store file; and it is
//! removed.
//!
//! A store lives in a directory, its root: the store file is `memory.db` in
//! it, the temporary file `memory.db.tmp`, and the backups stand in the
//! directory `backups`, each named by the time it was made.

use vstd::prelude::*;
use vstd::string::StringExecFns;
use serde_json::Value;
use crate::codec::error_text;
use crate::db::{encode_failure, encodes, save_db, saved};
use crate::error::{message_prefix, DBError, ErrorKind};
use crate::retention::{
    all_parse, canonical, expired, expired_backups, parse_rfc3339, rfc3339_parsed, texts,
};
use crate::store::Store;

verus! {

/// `name` inside the directory `dir`; an empty `dir` is the current directory.
pub open spec fn joined(dir: Seq<char>, name: Seq<char>) -> Seq<char> {
    if dir.len() == 0 {
        name
    } else {
        dir + seq!['/'] + name
    }
}

/// The path of the store file of the store at `root`.
pub open spec fn store_path(root: Seq<char>) -> Seq<char> {
    joined(root, "memory.db"@)
}

/// The path of the temporary file of the store at `root`.
pub open spec fn temp_path(root: Seq<char>) -> Seq<char> {
    joined(root, "memory.db.tmp"@)
}

/// The path of the backups directory of the store at `root`.
pub open spec fn backups_path(root: Seq<char>) -> Seq<char> {
    joined(root, "backups"@)
}

/// The path of the backup named `name` of the store at `root`.
pub open spec fn backup_path(root: Seq<char>, name: Seq<char>) -> Seq<char> {
    joined(backups_path(root), name)
}

/// `name` inside the directory `dir`.
pub fn join(dir: &str, name: &str) -> (path: String)
    ensures
        path@ == joined(dir@, name@),
{
    if dir.is_empty() {
        String::from_str(name)
    } else {
        let mut path = String::from_str(dir);
        path.push('/');
        path.append(name);
        assert(path@ =~= dir@ + seq!['/'] + name@);
        path
    }
}

/// The store file of the store at `root`.
pub fn store_file(root: &str) -> (path: String)
    ensures
        path@ == store_path(root@),
{
    join(root, "memory.db")
}

/// The temporary file of the store at `root`.
pub fn temp_file(root: &str) -> (path: String)
    ensures
        path@ == temp_path(root@),
{
    join(root, "memory.db.tmp")
}

/// The backups directory of the store at `root`.
pub fn backups_dir(root: &str) -> (path: String)
    ensures
        path@ == backups_path(root@),
{
    join(root, "backups")
}

/// The backup named `name` of the store at `root`.
pub fn backup_file(root: &str, name: &str) -> (path: String)
    ensures
        path@ == backup_path(root@, name@),
{
    let dir = backups_dir(root);
    join(dir.as_str(), name)
}

/// One filesystem operation that a save asks for.
#[derive(Debug)]
pub enum Action {
    /// List the names in a directory. Answer: `Listing`, or `Absent` where
    /// the directory is not there.
    ListDir { path: String },
    /// Remove a file. Answer: `Done`.
    RemoveFile { path: String },
    /// Make a directory and those above it, unless they are there. Answer: `Done`.
    CreateDirAll { path: String },
    /// Make an empty file, or empty the file that is there. Answer: `Done`.
    CreateFile { path: String },
    /// Say whether a path exists. Answer: `Exists`.
    Probe { path: String },
    /// Make one directory. Answer: `Done`.
    CreateDir { path: String },
    /// Copy a file's bytes to another path, over what is there. Answer: `Done`.
    CopyFile { from: String, to: String },
    /// Write a text at the end of a file. Answer: `Done`.
    Append { path: String, text: String },
}

/// An action as contracts speak of it.
pub enum ActionView {
    ListDir { path: Seq<char> },
    RemoveFile { path: Seq<char> },
    CreateDirAll { path: Seq<char> },
    CreateFile { path: Seq<char> },
    Probe { path: Seq<char> },
    CreateDir { path: Seq<char> },
    CopyFile { from: Seq<char>, to: Seq<char> },
    Append { path: Seq<char>, text: Seq<char> },
}

impl View for Action {
    type V = ActionView;

    open spec fn view(&self) -> ActionView {
        match *self {
            Action::ListDir { path } => ActionView::ListDir { path: path@ },
            Action::RemoveFile { path } => ActionView::RemoveFile { path: path@ },
            Action::CreateDirAll { path } => ActionView::CreateDirAll { path: path@ },
            Action::CreateFile { path } => ActionView::CreateFile { path: path@ },
            Action::Probe { path } => ActionView::Probe { path: path@ },
            Action::CreateDir { path } => ActionView::CreateDir { path: path@ },
            Action::CopyFile { from, to } => ActionView::CopyFile { from: from@, to: to@ },
            Action::Append { path, text } => ActionView::Append { path: path@, text: text@ },
        }
    }
}

/// What came of the operation that was asked for.
#[derive(Debug)]
pub enum Event {
    /// The operation was carried out.
    Done,
    /// Whether the path exists.
    Exists(bool),
    /// The names in the directory, in the order they were read.
    Listing(Vec<String>),
    /// The directory is not there.
    Absent,
    /// The operation failed; the text says how.
    Failed(String),
}

/// Where a save stands: the operation that it has asked for.
#[derive(Debug, Clone, Copy, PartialEq, Eq, Structural)]
pub enum Phase {
    Listing,
    Removing,
    MakingParent,
    MakingTemp,
    ProbingLive,
    MakingLive,
    ProbingBackups,
    MakingBackups,
    BackingUp,
    Writing,
    Installing,
    Cleaning,
}

/// A save under way.
#[derive(Debug)]
pub struct SaveJob {
    /// The store's directory.
    pub root: String,
    /// The name of the backup that this save makes.
    pub stamp: String,
    /// How many of the backups that are there may stay.
    pub keep: usize,
    /// What is saved.
    pub store: Store<Value>,
    /// The operation that was asked for last.
    pub phase: Phase,
    /// The names of the backups that are to go, oldest first.
    pub doomed: Vec<String>,
    /// How many of them have gone.
    pub removed: usize,
}

/// What a step of a save comes to.
#[derive(Debug)]
pub enum Step {
    /// The save goes on: the job, and the operation that it asks for.
    Continue(SaveJob, Action),
    /// The save is complete.
    Finished,
    /// The save is given up.
    Failed(DBError),
}

/// The phase that comes after `phase` when its operation was answered by
/// `event`, where the answer fits the operation and the phase is neither one
/// of those that remove backups nor the last.
pub open spec fn successor(phase: Phase, event: Event) -> Option<Phase> {
    match (phase, event) {
        (Phase::Listing, Event::Absent) => Some(Phase::MakingParent),
        (Phase::MakingParent, Event::Done) => Some(Phase::MakingTemp),
        (Phase::MakingTemp, Event::Done) => Some(Phase::ProbingLive),
        (Phase::ProbingLive, Event::Exists(there)) => Some(
            if there {
                Phase::ProbingBackups
            } else {
                Phase::MakingLive
            },
        ),
        (Phase::MakingLive, Event::Done) => Some(Phase::ProbingBackups),
        (Phase::ProbingBackups, Event::Exists(there)) => Some(
            if there {
                Phase::BackingUp
            } else {
                Phase::MakingBackups
            },
        ),
        (Phase::MakingBackups, Event::Done) => Some(Phase::BackingUp),
        (Phase::BackingUp, Event::Done) => Some(Phase::Writing),
        (Phase::Writing, Event::Done) => Some(Phase::Installing),
        (Phase::Installing, Event::Done) => Some(Phase::Cleaning),
        _ => None,
    }
}

/// The text of the error that answers a reply that the phase cannot have.
pub open spec fn unexpected() -> Seq<char> {
    "unexpected answer"@
}

impl SaveJob {
    /// The operation that the job has asked for.
    pub open spec fn pending(&self) -> ActionView {
        let root = self.root@;
        match self.phase {
            Phase::Listing => ActionView::ListDir { path: backups_path(root) },
            Phase::Removing => ActionView::RemoveFile {
                path: backup_path(root, self.doomed@[self.removed as int]@),
            },
            Phase::MakingParent => ActionView::CreateDirAll { path: root },
            Phase::MakingTemp => ActionView::CreateFile { path: temp_path(root) },
            Phase::ProbingLive => ActionView::Probe { path: store_path(root) },
            Phase::MakingLive => ActionView::CreateFile { path: store_path(root) },
            Phase::ProbingBackups => ActionView::Probe { path: backups_path(root) },
            Phase::MakingBackups => ActionView::CreateDir { path: backups_path(root) },
            Phase::BackingUp => ActionView::CopyFile {
                from: store_path(root),
                to: backup_path(root, self.stamp@),
            },
            Phase::Writing => ActionView::Append {
                path: temp_path(root),
                text: saved(self.store.pairs()),
            },
            Phase::Installing => ActionView::CopyFile {
                from: temp_path(root),
                to: store_path(root),
            },
            Phase::Cleaning => ActionView::RemoveFile { path: temp_path(root) },
        }
    }

    /// The job is `before` in another phase: nothing else has changed.
    pub open spec fn moved_on(&self, before: SaveJob, phase: Phase) -> bool {
        &&& self.root == before.root
        &&& self.stamp == before.stamp
        &&& self.keep == before.keep
        &&& self.store == before.store
        &&& self.phase == phase
        &&& self.doomed == before.doomed
        &&& self.removed == before.removed
    }

    /// The step that enters `phase` from the job `before`: the job goes on in
    /// that phase and asks for its operation. Only the phase that writes can
    /// fail to be entered: where a value of the store does not encode, the
    /// save is given up with an error of kind `Encode` that carries what the
    /// encoder said of the first such value.
    pub open spec fn enters(before: SaveJob, phase: Phase, step: Step) -> bool {
        if phase == Phase::Writing && !encodes(before.store.pairs()) {
            step matches Step::Failed(e) && e.kind == ErrorKind::Encode && encode_failure(
                before.store.pairs(),
            ) is Some && e.message@ == message_prefix(ErrorKind::Encode) + error_text(
                encode_failure(before.store.pairs())->0,
            )
        } else {
            step matches Step::Continue(job, action) && job.moved_on(before, phase) && action@
                == job.pending()
        }
    }

    /// The step that answers a listing of the backups directory: the backups
    /// to go are those that have expired, every one of them named by a
    /// timestamp; the first of them is removed, or, where none is to go, the
    /// store's directory is made.
    pub open spec fn lists(before: SaveJob, names: Seq<Seq<char>>, step: Step) -> bool {
        let gone = expired(names, before.keep as nat);
        &&& all_parse(gone)
        &&& step matches Step::Continue(job, action)
        &&& job.root == before.root
        &&& job.stamp == before.stamp
        &&& job.keep == before.keep
        &&& job.store == before.store
        &&& texts(job.doomed@) == gone
        &&& job.removed == 0
        &&& job.phase == if gone.len() > 0 {
            Phase::Removing
        } else {
            Phase::MakingParent
        }
        &&& action@ == job.pending()
    }

    /// The step that answers the removal of a backup: the next backup is
    /// removed, or, where none is left, the store's directory is made.
    pub open spec fn removes(before: SaveJob, step: Step) -> bool {
        &&& step matches Step::Continue(job, action)
        &&& job.root == before.root
        &&& job.stamp == before.stamp
        &&& job.keep == before.keep
        &&& job.store == before.store
        &&& job.doomed == before.doomed
        &&& if before.removed + 1 < before.doomed@.len() {
            job.removed == before.removed + 1 && job.phase == Phase::Removing
        } else {
            job.removed == before.removed && job.phase == Phase::MakingParent
        }
        &&& action@ == job.pending()
    }

    /// The save is given up with a filesystem error whose message ends in `detail`.
    pub open spec fn gives_up(step: Step, detail: Seq<char>) -> bool {
        step matches Step::Failed(e) && e.kind == ErrorKind::Io && e.message@ == message_prefix(
            ErrorKind::Io,
        ) + detail
    }

    /// The job has just begun the save of `store` at `root`: it has asked for
    /// the listing of the backups directory, and the name of its backup is a
    /// timestamp that parses to itself.
    pub open spec fn begun(
        job: SaveJob,
        action: Action,
        root: Seq<char>,
        store: Store<Value>,
        keep: usize,
    ) -> bool {
        &&& job.root@ == root
        &&& job.keep == keep
        &&& job.store == store
        &&& job.phase == Phase::Listing
        &&& job.doomed@.len() == 0
        &&& job.removed == 0
        &&& rfc3339_parsed(job.stamp@) is Some
        &&& canonical(job.stamp@) == job.stamp@
        &&& action@ == job.pending()
    }

    /// What a step comes to, for each phase and each answer.
    pub open spec fn follows(before: SaveJob, event: Event, step: Step) -> bool {
        match (before.phase, event) {
            (_, Event::Failed(detail)) => Self::gives_up(step, detail@),
            (Phase::Listing, Event::Listing(names)) => Self::lists(before, texts(names@), step),
            (Phase::Removing, Event::Done) => Self::removes(before, step),
            (Phase::Cleaning, Event::Done) => step is Finished,
            _ => match successor(before.phase, event) {
                Some(phase) => Self::enters(before, phase, step),
                None => Self::gives_up(step, unexpected()),
            },
        }
    }
}

impl SaveJob {
    /// Begins the save of `store` at `root`. The backup that it makes is named
    /// by the timestamp `stamp`, written out canonically; of the backups that
    /// are there, `keep` may stay. The first operation is to list the backups
    /// directory. Where `stamp` is no RFC 3339 timestamp, no save begins.
    pub fn begin(root: &str, store: Store<Value>, stamp: &str, keep: usize) -> (r: Option<
        (SaveJob, Action),
    >)
        ensures
            r is Some <==> rfc3339_parsed(stamp@) is Some,
            match r {
                Some((job, action)) => Self::begun(job, action, root@, store, keep) && job.stamp@
                    == canonical(stamp@),
                None => true,
            },
    {
        match parse_rfc3339(stamp) {
            Some(at) => {
                let job = SaveJob {
                    root: String::from_str(root),
                    stamp: at.name,
                    keep,
                    store,
                    phase: Phase::Listing,
                    doomed: Vec::new(),
                    removed: 0,
                };
                let action = Action::ListDir { path: backups_dir(root) };
                Some((job, action))
            },
            None => None,
        }
    }

    /// Enters `phase` and asks for its operation.
    fn enter(self, phase: Phase) -> (step: Step)
        requires
            phase == Phase::Removing ==> self.removed < self.doomed@.len(),
        ensures
            Self::enters(self, phase, step),
    {
        let mut job = self;
        job.phase = phase;
        let root = job.root.as_str();
        let action = match phase {
            Phase::Listing => Action::ListDir { path: backups_dir(root) },
            Phase::Removing => Action::RemoveFile {
                path: backup_file(root, job.doomed[job.removed].as_str()),
            },
            Phase::MakingParent => Action::CreateDirAll { path: String::from_str(root) },
            Phase::MakingTemp => Action::CreateFile { path: temp_file(root) },
            Phase::ProbingLive => Action::Probe { path: store_file(root) },
            Phase::MakingLive => Action::CreateFile { path: store_file(root) },
            Phase::ProbingBackups => Action::Probe { path: backups_dir(root) },
            Phase::MakingBackups => Action::CreateDir { path: backups_dir(root) },
            Phase::BackingUp => Action::CopyFile {
                from: store_file(root),
                to: backup_file(root, job.stamp.as_str()),
            },
            Phase::Writing => match save_db(&job.store) {
                Ok(text) => Action::Append { path: temp_file(root), text },
                Err(error) => { return Step::Failed(error); },
            },
            Phase::Installing => Action::CopyFile { from: temp_file(root), to: store_file(root) },
            Phase::Cleaning => Action::RemoveFile { path: temp_file(root) },
        };
        Step::Continue(job, action)
    }

    /// Gives up on an answer that the phase cannot have.
    fn reject() -> (step: Step)
        ensures
            Self::gives_up(step, unexpected()),
    {
        Step::Failed(DBError::io("unexpected answer"))
    }

    /// Takes what came of the operation that was asked for, and says how the
    /// save goes on: with the next operation, as complete, or as given up.
    ///
    /// An answer `Failed` gives the save up with an error of kind `Io` that
    /// carries the answer's text; so does an answer that does not fit the
    /// operation.
    pub fn advance(self, event: Event) -> (step: Step)
        ensures
            Self::follows(self, event, step),
    {
        match event {
            Event::Failed(detail) => Step::Failed(DBError::io(detail.as_str())),
            Event::Listing(names) => match self.phase {
                Phase::Listing => {
                    let mut job = self;
                    job.doomed = expired_backups(&names, job.keep);
                    job.removed = 0;
                    if job.doomed.len() > 0 {
                        job.enter(Phase::Removing)
                    } else {
                        job.enter(Phase::MakingParent)
                    }
                },
                _ => Self::reject(),
            },
            Event::Absent => match self.phase {
                Phase::Listing => self.enter(Phase::MakingParent),
                _ => Self::reject(),
            },
            Event::Exists(there) => match self.phase {
                Phase::ProbingLive => if there {
                    self.enter(Phase::ProbingBackups)
                } else {
                    self.enter(Phase::MakingLive)
                },
                Phase::ProbingBackups => if there {
                    self.enter(Phase::BackingUp)
                } else {
                    self.enter(Phase::MakingBackups)
                },
                _ => Self::reject(),
            },
            Event::Done => match self.phase {
                Phase::Listing => Self::reject(),
                Phase::Removing => {
                    if self.doomed.len() > 0 && self.removed < self.doomed.len() - 1 {
                        let mut job = self;
                        job.removed = job.removed + 1;
                        job.enter(Phase::Removing)
                    } else {
                        self.enter(Phase::MakingParent)
                    }
                },
                Phase::MakingParent => self.enter(Phase::MakingTemp),
                Phase::MakingTemp => self.enter(Phase::ProbingLive),
                Phase::ProbingLive => Self::reject(),
                Phase::MakingLive => self.enter(Phase::ProbingBackups),
                Phase::ProbingBackups => Self::reject(),
                Phase::MakingBackups => self.enter(Phase::BackingUp),
                Phase::BackingUp => self.enter(Phase::Writing),
                Phase::Writing => self.enter(Phase::Installing),
                Phase::Installing => self.enter(Phase::Cleaning),
                Phase::Cleaning => Step::Finished,
            },
        }
    }
}

/// `chrono::Local::now`, written out by `to_rfc3339`. The text depends on the
/// machine's clock and time zone: nothing is claimed of it.
#[verifier::external_body]
pub(crate) fn local_timestamp() -> (stamp: String) {
    chrono::Local::now().to_rfc3339()
}

/// Begins the save of `store` at `root`, as `SaveJob::begin` does; the backup
/// is named by the local time at which the save begins. No save begins where
/// the clock's time, written out, is no RFC 3339 timestamp (a year beyond
/// 9999).
pub fn begin_save(root: &str, store: Store<Value>, keep: usize) -> (r: Option<(SaveJob, Action)>)
    ensures
        match r {
            Some((job, action)) => SaveJob::begun(job, action, root@, store, keep),
            None => true,
        },
{
    let stamp = local_timestamp();
    SaveJob::begin(root, store, stamp.as_str(), keep)
}

/// The place of a phase in the order of a save.
pub open spec fn rank(phase: Phase) -> nat {
    match phase {
        Phase::Listing => 0,
        Phase::Removing => 1,
        Phase::MakingParent => 2,
        Phase::MakingTemp => 3,
        Phase::ProbingLive => 4,
        Phase::MakingLive => 5,
        Phase::ProbingBackups => 6,
        Phase::MakingBackups => 7,
        Phase::BackingUp => 8,
        Phase::Writing => 9,
        Phase::Installing => 10,
        Phase::Cleaning => 11,
    }
}

/// The operation changes what is at `path`.
pub open spec fn changes(action: ActionView, path: Seq<char>) -> bool {
    match action {
        ActionView::ListDir { .. } => false,
        ActionView::Probe { .. } => false,
        ActionView::RemoveFile { path: p } => p == path,
        ActionView::CreateDirAll { path: p } => p == path,
        ActionView::CreateFile { path: p } => p == path,
        ActionView::CreateDir { path: p } => p == path,
        ActionView::CopyFile { to, .. } => to == path,
        ActionView::Append { path: p, .. } => p == path,
    }
}

/// A save only moves forward: a step that goes on leads to a later phase, or
/// from the removal of one backup to the removal of the next. A save is
/// complete only after its last phase, the removal of the temporary file.
pub proof fn law_save_moves_forward(before: SaveJob, event: Event, step: Step)
    requires
        SaveJob::follows(before, event, step),
    ensures
        step matches Step::Continue(job, _) ==> rank(job.phase) > rank(before.phase) || (
        before.phase == Phase::Removing && job.phase == Phase::Removing && job.removed
            == before.removed + 1),
        step matches Step::Continue(job, _) ==> (job.phase == Phase::Removing ==> job.removed
            < job.doomed@.len()),
        step is Finished ==> before.phase == Phase::Cleaning && event is Done,
{
    match step {
        Step::Continue(job, _) => {
            if job.phase == Phase::Removing {
                assert(texts(job.doomed@).len() == job.doomed@.len());
            }
        },
        _ => {},
    }
}

/// The store file is changed in two phases only: where it is made because it
/// is not there, and where the temporary file is copied over it. Both come
/// after every removal of a backup.
pub proof fn law_store_file_changes_late(job: SaveJob)
    requires
        changes(job.pending(), store_path(job.root@)),
    ensures
        job.phase == Phase::MakingLive || job.phase == Phase::Installing,
        rank(job.phase) > rank(Phase::Removing),
{
    reveal_strlit("memory.db");
    reveal_strlit("memory.db.tmp");
    reveal_strlit("backups");
    let root = job.root@;
    let live = store_path(root);
    let offset: int = if root.len() == 0 {
        0
    } else {
        root.len() as int + 1
    };
    assert(live.len() == offset + 9);
    assert(live[offset] == 'm');
    match job.phase {
        Phase::Removing => {
            let path = backup_path(root, job.doomed@[job.removed as int]@);
            assert(path[offset] == 'b');
        },
        Phase::MakingParent => {
            assert(root.len() != live.len());
        },
        Phase::MakingTemp => {
            assert(temp_path(root).len() == offset + 13);
        },
        Phase::MakingBackups => {
            assert(backups_path(root).len() == offset + 7);
        },
        Phase::BackingUp => {
            let path = backup_path(root, job.stamp@);
            assert(path[offset] == 'b');
        },
        Phase::Writing => {
            assert(temp_path(root).len() == offset + 13);
        },
        Phase::Cleaning => {
            assert(temp_path(root).len() == offset + 13);
        },
        _ => {},
    }
}

/// The step goes on with the removal of the backup `name`.
pub open spec fn removes_backup(step: Step, root: Seq<char>, name: Seq<char>) -> bool {
    step matches Step::Continue(job, action) && job.phase == Phase::Removing && action@ == (
    ActionView::RemoveFile { path: backup_path(root, name) })
}

/// The step goes on where the removals are over: the job is the one that
/// began, about to make the store's directory.
pub open spec fn retention_is_over(before: SaveJob, step: Step) -> bool {
    step matches Step::Continue(job, action) && job.phase == Phase::MakingParent && job.root
        == before.root && job.stamp == before.stamp && job.keep == before.keep && job.store
        == before.store && action@ == job.pending()
}

/// The steps of a save from the listing on, while each operation is carried
/// out: `steps[0]` answers the listing `names`, and each later step answers
/// `Done` to the step before it.
pub open spec fn steps_from_listing(before: SaveJob, names: Vec<String>, steps: Seq<Step>) -> bool {
    &&& before.phase == Phase::Listing
    &&& steps.len() > 0
    &&& SaveJob::follows(before, Event::Listing(names), steps[0])
    &&& forall|i: int|
        0 <= i < steps.len() - 1 ==> match #[trigger] steps[i] {
            Step::Continue(job, _) => SaveJob::follows(job, Event::Done, steps[i + 1]),
            _ => true,
        }
}

/// Where the steps of a save stand after `i` removals.
proof fn lemma_removal_chain(before: SaveJob, names: Vec<String>, steps: Seq<Step>, i: int)
    requires
        steps_from_listing(before, names, steps),
        0 <= i < steps.len(),
        i <= expired(texts(names@), before.keep as nat).len(),
    ensures
        ({
            let gone = expired(texts(names@), before.keep as nat);
            &&& steps[i] matches Step::Continue(job, action)
            &&& job.root == before.root
            &&& job.stamp == before.stamp
            &&& job.keep == before.keep
            &&& job.store == before.store
            &&& texts(job.doomed@) == gone
            &&& action@ == job.pending()
            &&& if i < gone.len() {
                job.phase == Phase::Removing && job.removed == i
            } else {
                job.phase == Phase::MakingParent
            }
        }),
    decreases i,
{
    let gone = expired(texts(names@), before.keep as nat);
    if i > 0 {
        lemma_removal_chain(before, names, steps, i - 1);
        let earlier = steps[i - 1];
        match earlier {
            Step::Continue(job, _) => {
                assert(texts(job.doomed@).len() == job.doomed@.len());
                assert(SaveJob::follows(job, Event::Done, steps[i]));
                assert(SaveJob::removes(job, steps[i]));
            },
            _ => {},
        }
    }
}

/// The removals of a save. After the listing of the backups directory, the
/// save asks for the removal of each expired backup, the oldest first, and for
/// nothing else until they are gone; then it goes on with the job that began,
/// at the making of the store's directory, from where `outcome` says what the
/// rest of the save leaves behind.
pub proof fn law_removals_in_order(before: SaveJob, names: Vec<String>, steps: Seq<Step>)
    requires
        steps_from_listing(before, names, steps),
        steps.len() == expired(texts(names@), before.keep as nat).len() + 1,
    ensures
        forall|i: int|
            0 <= i < steps.len() - 1 ==> removes_backup(
                #[trigger] steps[i],
                before.root@,
                expired(texts(names@), before.keep as nat)[i],
            ),
        retention_is_over(before, steps.last()),
{
    let gone = expired(texts(names@), before.keep as nat);
    assert forall|i: int| 0 <= i < steps.len() - 1 implies removes_backup(
        #[trigger] steps[i],
        before.root@,
        gone[i],
    ) by {
        lemma_removal_chain(before, names, steps, i);
        match steps[i] {
            Step::Continue(job, _) => {
                assert(texts(job.doomed@)[i] == job.doomed@[i]@);
            },
            _ => {},
        }
    }
    lemma_removal_chain(before, names, steps, steps.len() - 1);
}

/// A filesystem, as far as a save reads and changes it: the files with their
/// texts, and the directories.
pub struct Disk {
    pub files: Map<Seq<char>, Seq<char>>,
    pub dirs: Set<Seq<char>>,
}

/// What an operation does to a disk, and the answer it gives, where it
/// succeeds; `None` where it fails. A listing is left out: the order of the
/// names that it gives is not a matter of the disk alone.
pub open spec fn performed(disk: Disk, action: ActionView) -> Option<(Disk, Event)> {
    match action {
        ActionView::ListDir { .. } => None,
        ActionView::Probe { path } => Some(
            (disk, Event::Exists(disk.files.contains_key(path) || disk.dirs.contains(path))),
        ),
        ActionView::CreateDirAll { path } => if disk.files.contains_key(path) {
            None
        } else {
            Some((Disk { dirs: disk.dirs.insert(path), ..disk }, Event::Done))
        },
        ActionView::CreateDir { path } => if disk.files.contains_key(path) || disk.dirs.contains(
            path,
        ) {
            None
        } else {
            Some((Disk { dirs: disk.dirs.insert(path), ..disk }, Event::Done))
        },
        ActionView::CreateFile { path } => if disk.dirs.contains(path) {
            None
        } else {
            Some((Disk { files: disk.files.insert(path, Seq::empty()), ..disk }, Event::Done))
        },
        ActionView::CopyFile { from, to } => if !disk.files.contains_key(from)
            || disk.dirs.contains(to) {
            None
        } else {
            Some((Disk { files: disk.files.insert(to, disk.files[from]), ..disk }, Event::Done))
        },
        ActionView::Append { path, text } => if disk.dirs.contains(path) {
            None
        } else if disk.files.contains_key(path) {
            Some(
                (
                    Disk { files: disk.files.insert(path, disk.files[path] + text), ..disk },
                    Event::Done,
                ),
            )
        } else {
            Some((Disk { files: disk.files.insert(path, text), ..disk }, Event::Done))
        },
        ActionView::RemoveFile { path } => if disk.files.contains_key(path) {
            Some((Disk { files: disk.files.remove(path), ..disk }, Event::Done))
        } else {
            None
        },
    }
}

/// The disk after the rest of a save, from the operation that `job` has asked
/// for to the last, each carried out on the disk as the one before left it;
/// `None` where an operation fails or a value does not encode.
pub open spec fn outcome(job: SaveJob, disk: Disk) -> Option<Disk>
    decreases 12 - rank(job.phase), job.doomed@.len() - job.removed,
{
    match performed(disk, job.pending()) {
        None => None,
        Some((next, event)) => if job.phase == Phase::Cleaning {
            Some(next)
        } else if job.phase == Phase::Removing {
            if job.removed < usize::MAX && job.removed + 1 < job.doomed@.len() {
                outcome(SaveJob { removed: (job.removed + 1) as usize, ..job }, next)
            } else {
                outcome(SaveJob { phase: Phase::MakingParent, ..job }, next)
            }
        } else {
            match successor(job.phase, event) {
                Some(phase) => if rank(phase) > rank(job.phase) && (phase == Phase::Writing
                    ==> encodes(job.store.pairs())) {
                    outcome(SaveJob { phase, ..job }, next)
                } else {
                    None
                },
                None => None,
            }
        },
    }
}

/// The paths of the backups named by `names`, from the name at `from` on.
pub open spec fn backup_paths(root: Seq<char>, names: Seq<Seq<char>>, from: int) -> Set<
    Seq<char>,
> {
    Set::new(
        |path: Seq<char>|
            exists|i: int|
                from <= i < names.len() && path == backup_path(root, #[trigger] names[i]),
    )
}

/// Backups of different names have different paths.
pub proof fn lemma_backup_path_differs(root: Seq<char>, a: Seq<char>, b: Seq<char>)
    requires
        a != b,
    ensures
        backup_path(root, a) != backup_path(root, b),
{
    reveal_strlit("backups");
    let dir = backups_path(root);
    assert(dir.len() > 0);
    if backup_path(root, a) == backup_path(root, b) {
        assert(backup_path(root, a).skip(dir.len() as int + 1) =~= a);
        assert(backup_path(root, b).skip(dir.len() as int + 1) =~= b);
    }
}

/// What the removals of a save leave behind. From the removal of a backup on,
/// where the backups still to go have names that differ and are all there,
/// the save removes them and goes on at the making of the store's directory,
/// on a disk that lacks those backups and is otherwise as it was.
pub proof fn law_save_removes_expired(job: SaveJob, disk: Disk)
    requires
        job.phase == Phase::Removing,
        job.removed < job.doomed@.len(),
        texts(job.doomed@).no_duplicates(),
        forall|i: int|
            job.removed <= i < job.doomed@.len() ==> disk.files.contains_key(
                backup_path(job.root@, #[trigger] texts(job.doomed@)[i]),
            ),
    ensures
        outcome(job, disk) == outcome(
            SaveJob {
                phase: Phase::MakingParent,
                removed: (job.doomed@.len() - 1) as usize,
                ..job
            },
            Disk {
                files: disk.files.remove_keys(
                    backup_paths(job.root@, texts(job.doomed@), job.removed as int),
                ),
                ..disk
            },
        ),
    decreases job.doomed@.len() - job.removed,
{
    let root = job.root@;
    let names = texts(job.doomed@);
    let at = job.removed as int;
    let path = backup_path(root, names[at]);
    let next = Disk { files: disk.files.remove(path), ..disk };
    assert(job.doomed@.len() == job.doomed.len());
    assert(names[at] == job.doomed@[at]@);
    assert(performed(disk, job.pending()) == Some((next, Event::Done)));
    if at + 1 < job.doomed@.len() {
        let later = SaveJob { removed: (job.removed + 1) as usize, ..job };
        assert(later.removed == at + 1);
        assert(texts(later.doomed@) == names);
        assert forall|i: int| at + 1 <= i < names.len() implies next.files.contains_key(
            backup_path(root, #[trigger] names[i]),
        ) by {
            lemma_backup_path_differs(root, names[i], names[at]);
        }
        law_save_removes_expired(later, next);
        assert(next.files.remove_keys(backup_paths(root, names, at + 1)) =~= disk.files.remove_keys(
            backup_paths(root, names, at),
        )) by {
            assert forall|p: Seq<char>|
                backup_paths(root, names, at).contains(p) <==> (p == path || backup_paths(
                    root,
                    names,
                    at + 1,
                ).contains(p)) by {
                if backup_paths(root, names, at).contains(p) {
                    let i = choose|i: int|
                        at <= i < names.len() && p == backup_path(root, #[trigger] names[i]);
                    if i > at {
                        assert(backup_paths(root, names, at + 1).contains(p));
                    }
                }
                if p == path {
                    assert(p == backup_path(root, names[at]));
                }
                if backup_paths(root, names, at + 1).contains(p) {
                    let i = choose|i: int|
                        at + 1 <= i < names.len() && p == backup_path(root, #[trigger] names[i]);
                    assert(at <= i);
                }
            }
        }
    } else {
        assert(disk.files.remove_keys(backup_paths(root, names, at)) =~= disk.files.remove(path))
            by {
            assert forall|p: Seq<char>| backup_paths(root, names, at).contains(p) <==> p
                == path by {
                if backup_paths(root, names, at).contains(p) {
                    let i = choose|i: int|
                        at <= i < names.len() && p == backup_path(root, #[trigger] names[i]);
                }
                if p == path {
                    assert(p == backup_path(root, names[at]));
                }
            }
        }
    }
}

/// What a save leaves behind. Once the old backups are gone, on a disk where
/// no directory stands in the way of the three files and the store's root is
/// no file, every operation of the save succeeds if the values encode. In the
/// end the store file holds the store as it is saved; the new backup holds
/// what the store file held before, or nothing if it was not there; the
/// temporary file is gone; and every other file is as it was.
pub proof fn law_save_installs_store(job: SaveJob, disk: Disk)
    requires
        job.phase == Phase::MakingParent,
        encodes(job.store.pairs()),
        !disk.files.contains_key(job.root@),
        !disk.files.contains_key(backups_path(job.root@)),
        !disk.dirs.contains(store_path(job.root@)),
        !disk.dirs.contains(temp_path(job.root@)),
        !disk.dirs.contains(backup_path(job.root@, job.stamp@)),
    ensures
        outcome(job, disk) is Some,
        ({
            let end = outcome(job, disk)->0;
            let live = store_path(job.root@);
            let temp = temp_path(job.root@);
            let backup = backup_path(job.root@, job.stamp@);
            &&& end.files.contains_key(live)
            &&& end.files[live] == saved(job.store.pairs())
            &&& end.files.contains_key(backup)
            &&& end.files[backup] == if disk.files.contains_key(live) {
                disk.files[live]
            } else {
                Seq::empty()
            }
            &&& !end.files.contains_key(temp)
            &&& forall|path: Seq<char>|
                path != live && path != temp && path != backup ==> (
                #[trigger] end.files.contains_key(path) <==> disk.files.contains_key(path))
            &&& forall|path: Seq<char>|
                path != live && path != temp && path != backup && disk.files.contains_key(path)
                    ==> #[trigger] end.files[path] == disk.files[path]
        }),
{
    reveal_strlit("memory.db");
    reveal_strlit("memory.db.tmp");
    reveal_strlit("backups");
    reveal_with_fuel(outcome, 12);
    let root = job.root@;
    let live = store_path(root);
    let temp = temp_path(root);
    let dir = backups_path(root);
    let backup = backup_path(root, job.stamp@);
    let offset: int = if root.len() == 0 {
        0
    } else {
        root.len() as int + 1
    };
    assert(live.len() == offset + 9 && temp.len() == offset + 13 && dir.len() == offset + 7);
    assert(backup.len() == offset + 8 + job.stamp@.len());
    assert(live[offset] == 'm' && temp[offset] == 'm' && backup[offset] == 'b');
    assert(root.len() < offset + 7);
    assert(Seq::<char>::empty() + saved(job.store.pairs()) =~= saved(job.store.pairs()));
}

/// What a save leaves behind, from its first removal on. Where the backups to
/// go have names that differ and are all there, the values encode, and nothing
/// stands in the way of the store's files, every operation succeeds. In the
/// end the backups that were to go are gone; the store file holds the store
/// as it is saved; the new backup holds what the store file held before, or
/// nothing if it was not there; the temporary file is gone; and every other
/// file is as it was.
pub proof fn law_save_prunes_and_installs(job: SaveJob, disk: Disk)
    requires
        job.phase == Phase::Removing,
        job.removed < job.doomed@.len(),
        texts(job.doomed@).no_duplicates(),
        forall|i: int|
            job.removed <= i < job.doomed@.len() ==> disk.files.contains_key(
                backup_path(job.root@, #[trigger] texts(job.doomed@)[i]),
            ),
        encodes(job.store.pairs()),
        !disk.files.contains_key(job.root@),
        !disk.files.contains_key(backups_path(job.root@)),
        !disk.dirs.contains(store_path(job.root@)),
        !disk.dirs.contains(temp_path(job.root@)),
        !disk.dirs.contains(backup_path(job.root@, job.stamp@)),
    ensures
        outcome(job, disk) is Some,
        ({
            let end = outcome(job, disk)->0;
            let live = store_path(job.root@);
            let temp = temp_path(job.root@);
            let backup = backup_path(job.root@, job.stamp@);
            let gone = backup_paths(job.root@, texts(job.doomed@), job.removed as int);
            &&& end.files.contains_key(live)
            &&& end.files[live] == saved(job.store.pairs())
            &&& end.files.contains_key(backup)
            &&& end.files[backup] == if disk.files.contains_key(live) {
                disk.files[live]
            } else {
                Seq::empty()
            }
            &&& !end.files.contains_key(temp)
            &&& forall|path: Seq<char>|
                gone.contains(path) && path != backup ==> !(#[trigger] end.files.contains_key(
                    path,
                ))
            &&& forall|path: Seq<char>|
                path != live && path != temp && path != backup && !gone.contains(path) ==> (
                #[trigger] end.files.contains_key(path) <==> disk.files.contains_key(path))
            &&& forall|path: Seq<char>|
                path != live && path != temp && path != backup && !gone.contains(path)
                    && disk.files.contains_key(path) ==> #[trigger] end.files[path]
                    == disk.files[path]
        }),
{
    reveal_strlit("memory.db");
    reveal_strlit("memory.db.tmp");
    reveal_strlit("backups");
    let root = job.root@;
    let live = store_path(root);
    let temp = temp_path(root);
    let gone = backup_paths(root, texts(job.doomed@), job.removed as int);
    let offset: int = if root.len() == 0 {
        0
    } else {
        root.len() as int + 1
    };
    assert(live[offset] == 'm' && temp[offset] == 'm');
    assert forall|path: Seq<char>| gone.contains(path) implies path != live && path != temp
        && path != root && path != backups_path(root) by {
        let i = choose|i: int|
            job.removed <= i < texts(job.doomed@).len() && path == backup_path(
                root,
                #[trigger] texts(job.doomed@)[i],
            );
        assert(path[offset] == 'b');
        assert(path.len() > offset + 7);
    }
    let later = SaveJob {
        phase: Phase::MakingParent,
        removed: (job.doomed@.len() - 1) as usize,
        ..job
    };
    let pruned = Disk { files: disk.files.remove_keys(gone), ..disk };
    law_save_removes_expired(job, disk);
    law_save_installs_store(later, pruned);
}

} // verus!
