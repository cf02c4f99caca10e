//! Archive production as a state machine.
//!
//! An [`ArchiveJob`] walks the selected files and folders and says, one
//! action at a time, what its driver has to do: find out what a path is, read
//! a directory, write one archive member, finalize the archive. The driver
//! performs the action and reports back with an event. The job itself touches
//! neither the filesystem nor the archive.
//!
//! Every pending item is a pair of a filesystem path and the name that it, or
//! what lies below it, gets inside the archive.

use vstd::prelude::*;
use crate::download::{PathStatus, RequestError, check_folder, download_name};
use crate::listing::DirChild;
use crate::path::{file_name, join, joined, nest, nested};
use crate::resolver::{resolution, resolve_path};
use crate::text::{has_dot_dot_segment, has_parent_segment, texts};

verus! {

/// A filesystem path and the archive name that belongs to it.
#[derive(Clone, Debug, PartialEq, Eq)]
pub struct Located {
    /// Where the file or directory lies on disk.
    pub path: String,
    /// The member name of a file, or the name under which the members of a
    /// directory are placed.
    pub name: String,
}

/// The view of a [`Located`].
pub ghost struct LocatedText {
    pub path: Seq<char>,
    pub name: Seq<char>,
}

impl View for Located {
    type V = LocatedText;

    open spec fn view(&self) -> LocatedText {
        LocatedText { path: self.path@, name: self.name@ }
    }
}

/// What a path turned out to be.
#[derive(Clone, Copy, Debug, PartialEq, Eq, Structural)]
pub enum PathKind {
    /// A regular file.
    File,
    /// A directory.
    Directory,
    /// Neither, or nothing at all.
    Other,
}

/// How the bytes of a member are stored.
#[derive(Clone, Copy, Debug, PartialEq, Eq, Structural)]
pub enum Compression {
    /// As they are.
    Stored,
    /// Deflated.
    Deflate,
}

/// The stages in the life of a job. A job only ever moves forward through
/// them.
#[derive(Clone, Copy, Debug, PartialEq, Eq, Structural)]
pub enum JobPhase {
    /// Nothing has been asked of the driver yet.
    Created,
    /// The driver is looking at the filesystem.
    Traversing,
    /// The driver is writing a member.
    Writing,
    /// The driver is finalizing the archive.
    Finalizing,
    /// The job is over.
    Closed,
}

/// What a job is waiting to hear from its driver.
#[derive(Clone, Debug, PartialEq, Eq)]
pub enum Waiting {
    /// The signal to begin.
    Begin,
    /// What the selected item is.
    Kind(Located),
    /// The children of the directory.
    Children(Located),
    /// How the write went.
    Write,
    /// That the archive was finalized.
    Finalize,
    /// Nothing: the job is over.
    Closed,
}

/// The view of a [`Waiting`].
pub ghost enum WaitingText {
    Begin,
    Kind(LocatedText),
    Children(LocatedText),
    Write,
    Finalize,
    Closed,
}

impl View for Waiting {
    type V = WaitingText;

    open spec fn view(&self) -> WaitingText {
        match *self {
            Waiting::Begin => WaitingText::Begin,
            Waiting::Kind(item) => WaitingText::Kind(item@),
            Waiting::Children(dir) => WaitingText::Children(dir@),
            Waiting::Write => WaitingText::Write,
            Waiting::Finalize => WaitingText::Finalize,
            Waiting::Closed => WaitingText::Closed,
        }
    }
}

/// What the driver reports to a job.
#[derive(Clone, Debug, PartialEq, Eq)]
pub enum Event {
    /// The job may begin.
    Begin,
    /// The path asked about is of this kind.
    Found(PathKind),
    /// The directory asked about holds these children.
    Children(Vec<DirChild>),
    /// The directory asked about could not be read.
    Unreadable,
    /// The member was written.
    Written,
    /// The member was left out, or cut short, because its file could not be
    /// opened or could not be read to its end.
    Skipped,
    /// The archive can no longer be written to: its consumer is gone.
    Broken,
    /// The archive was finalized and its output closed.
    Finalized,
}

/// Declares `async_zip::ZipEntryBuilder`, the description of a member that
/// the archive writer takes. Nothing is known of what is inside.
#[verifier::external_type_specification]
#[verifier::external_body]
pub struct ExZipEntryBuilder(async_zip::ZipEntryBuilder);

/// The description that `async_zip::ZipEntryBuilder::new` makes of a member
/// with the file name `name` and the compression `compression`.
pub uninterp spec fn built_entry(name: Seq<char>, compression: Compression) -> async_zip::ZipEntryBuilder;

/// What a job asks of its driver.
pub enum Action {
    /// Find out what lies at this path.
    Classify(String),
    /// Read the children of the directory at this path.
    ReadDir(String),
    /// Write the file at `entry.path` as the member `entry.name`, which
    /// `builder` describes to the archive writer.
    Write { entry: Located, builder: async_zip::ZipEntryBuilder },
    /// Finalize the archive and close its output.
    Finalize,
    /// Nothing more: the job is over.
    Done,
}

/// The view of an [`Action`].
pub ghost enum ActionText {
    Classify(Seq<char>),
    ReadDir(Seq<char>),
    Write { entry: LocatedText, builder: async_zip::ZipEntryBuilder },
    Finalize,
    Done,
}

impl View for Action {
    type V = ActionText;

    open spec fn view(&self) -> ActionText {
        match *self {
            Action::Classify(path) => ActionText::Classify(path@),
            Action::ReadDir(path) => ActionText::ReadDir(path@),
            Action::Write { entry, builder } => ActionText::Write { entry: entry@, builder },
            Action::Finalize => ActionText::Finalize,
            Action::Done => ActionText::Done,
        }
    }
}

/// One archive in the making.
#[derive(Clone, Debug, PartialEq, Eq)]
pub struct ArchiveJob {
    /// What the job is waiting to hear.
    pub waiting: Waiting,
    /// The selected items not yet looked at, first to last.
    pub items: Vec<Located>,
    /// The directories still to be read; the last is read next.
    pub stack: Vec<Located>,
    /// The files found and not yet written, first to last.
    pub files: Vec<Located>,
}

/// The view of an [`ArchiveJob`].
pub ghost struct JobState {
    pub waiting: WaitingText,
    pub items: Seq<LocatedText>,
    pub stack: Seq<LocatedText>,
    pub files: Seq<LocatedText>,
}

/// The views of a list of located items.
pub open spec fn located_texts(items: Seq<Located>) -> Seq<LocatedText> {
    items.map_values(|l: Located| l@)
}

impl View for ArchiveJob {
    type V = JobState;

    open spec fn view(&self) -> JobState {
        JobState {
            waiting: self.waiting@,
            items: located_texts(self.items@),
            stack: located_texts(self.stack@),
            files: located_texts(self.files@),
        }
    }
}

/// The stage that a job is in, by what it is waiting for.
pub open spec fn phase_of(waiting: WaitingText) -> JobPhase {
    match waiting {
        WaitingText::Begin => JobPhase::Created,
        WaitingText::Kind(_) => JobPhase::Traversing,
        WaitingText::Children(_) => JobPhase::Traversing,
        WaitingText::Write => JobPhase::Writing,
        WaitingText::Finalize => JobPhase::Finalizing,
        WaitingText::Closed => JobPhase::Closed,
    }
}

/// The archive name of the child `child` of a directory placed at `prefix`.
/// Below a directory without a name of its own the child keeps its plain
/// name.
pub open spec fn member_name(prefix: Seq<char>, child: Seq<char>) -> Seq<char> {
    if prefix.len() == 0 {
        child
    } else {
        nested(prefix, child)
    }
}

/// The child `child` of the directory `dir`: its path on disk and its name in
/// the archive.
pub open spec fn child_located(dir: LocatedText, child: Seq<char>) -> LocatedText {
    LocatedText { path: joined(dir.path, child), name: member_name(dir.name, child) }
}

/// The children of `dir` that are directories (`dirs`) or that are not
/// (`!dirs`), each with its path and archive name, in the order in which they
/// were found.
pub open spec fn listed(dir: LocatedText, children: Seq<DirChild>, dirs: bool) -> Seq<LocatedText>
    decreases children.len(),
{
    if children.len() == 0 {
        Seq::empty()
    } else {
        let head = listed(dir, children.drop_last(), dirs);
        if children.last().is_dir == dirs {
            head.push(child_located(dir, children.last().name@))
        } else {
            head
        }
    }
}

/// The job that has given up all pending work and asks for the archive to be
/// finalized.
pub open spec fn abandoned() -> (JobState, ActionText) {
    (
        JobState {
            waiting: WaitingText::Finalize,
            items: Seq::empty(),
            stack: Seq::empty(),
            files: Seq::empty(),
        },
        ActionText::Finalize,
    )
}

/// The job that is over.
pub open spec fn closed() -> (JobState, ActionText) {
    (
        JobState {
            waiting: WaitingText::Closed,
            items: Seq::empty(),
            stack: Seq::empty(),
            files: Seq::empty(),
        },
        ActionText::Done,
    )
}

/// The next piece of pending work and the job that waits for its outcome.
/// Files found come first, in the order in which they were found, each to be
/// written deflated; then the directory found last; then the next selected
/// item. Without pending work the archive is finalized.
pub open spec fn advance(items: Seq<LocatedText>, stack: Seq<LocatedText>, files: Seq<LocatedText>) -> (
    JobState,
    ActionText,
) {
    if files.len() > 0 {
        (
            JobState { waiting: WaitingText::Write, items, stack, files: files.drop_first() },
            ActionText::Write {
                entry: files[0],
                builder: built_entry(files[0].name, Compression::Deflate),
            },
        )
    } else if stack.len() > 0 {
        (
            JobState { waiting: WaitingText::Children(stack.last()), items, stack: stack.drop_last(), files },
            ActionText::ReadDir(stack.last().path),
        )
    } else if items.len() > 0 {
        (
            JobState { waiting: WaitingText::Kind(items[0]), items: items.drop_first(), stack, files },
            ActionText::Classify(items[0].path),
        )
    } else {
        (JobState { waiting: WaitingText::Finalize, items, stack, files }, ActionText::Finalize)
    }
}

/// The transition of a job: the state that follows `job` on `event`, and what
/// is asked of the driver next.
///
/// An event that answers what the job waits for moves the job on. A selected
/// file becomes a member under the name it was selected by, a selected
/// directory is read, anything else selected is passed over. The children of
/// a directory are split into files to write and directories to read later.
/// A directory that cannot be read and a file that cannot be opened or read
/// through are passed over. A broken archive, or an event that does not answer what the
/// job waits for, makes the job give up its pending work and ask for the
/// archive to be finalized. After that, any event closes the job.
pub open spec fn step_spec(job: JobState, event: Event) -> (JobState, ActionText) {
    match job.waiting {
        WaitingText::Begin => match event {
            Event::Begin => advance(job.items, job.stack, job.files),
            _ => abandoned(),
        },
        WaitingText::Kind(item) => match event {
            Event::Found(PathKind::File) => advance(job.items, job.stack, job.files.push(item)),
            Event::Found(PathKind::Directory) => advance(job.items, job.stack.push(item), job.files),
            Event::Found(PathKind::Other) => advance(job.items, job.stack, job.files),
            _ => abandoned(),
        },
        WaitingText::Children(dir) => match event {
            Event::Children(children) => advance(
                job.items,
                job.stack + listed(dir, children@, true),
                job.files + listed(dir, children@, false),
            ),
            Event::Unreadable => advance(job.items, job.stack, job.files),
            _ => abandoned(),
        },
        WaitingText::Write => match event {
            Event::Written => advance(job.items, job.stack, job.files),
            Event::Skipped => advance(job.items, job.stack, job.files),
            _ => abandoned(),
        },
        WaitingText::Finalize => closed(),
        WaitingText::Closed => closed(),
    }
}

/// What a path is taken for, given what a probe says of it: a regular file
/// is a file, anything else that is a directory is a directory.
pub open spec fn kind_of(is_file: bool, is_dir: bool) -> PathKind {
    if is_file {
        PathKind::File
    } else if is_dir {
        PathKind::Directory
    } else {
        PathKind::Other
    }
}

/// What is reported of the attempt to write a member. A file that could not
/// be opened leaves the archive untouched and is skipped. Once the file is
/// open, an archive that did not take what was written to it is broken;
/// otherwise the member is written, or counts as skipped where its file
/// could not be read to its end.
pub open spec fn write_report(opened: bool, read_to_end: bool, archive_took: bool) -> Event {
    if !opened {
        Event::Skipped
    } else if !archive_took {
        Event::Broken
    } else if !read_to_end {
        Event::Skipped
    } else {
        Event::Written
    }
}

/// The job for the archive of the folder at `target`: the folder's own name
/// is the top-level name inside the archive.
pub open spec fn folder_job(target: Seq<char>) -> JobState {
    JobState {
        waiting: WaitingText::Begin,
        items: Seq::empty(),
        stack: seq![LocatedText { path: target, name: download_name(target) }],
        files: Seq::empty(),
    }
}

/// What a requested path contributes to a selection: its resolved path under
/// the name it was requested by, unless it has a `..` segment or does not
/// resolve.
pub open spec fn selected_item(roots: Seq<Seq<char>>, requested: Seq<char>) -> Option<LocatedText> {
    if has_parent_segment(requested) {
        None
    } else {
        match resolution(roots, requested) {
            Some(path) => Some(LocatedText { path, name: requested }),
            None => None,
        }
    }
}

/// The items of a selection, in the order of the request.
pub open spec fn selected(roots: Seq<Seq<char>>, requested: Seq<Seq<char>>) -> Seq<LocatedText>
    decreases requested.len(),
{
    if requested.len() == 0 {
        Seq::empty()
    } else {
        let head = selected(roots, requested.drop_last());
        match selected_item(roots, requested.last()) {
            Some(item) => head.push(item),
            None => head,
        }
    }
}

/// The job for the archive of a selection.
pub open spec fn selection_job(roots: Seq<Seq<char>>, requested: Seq<Seq<char>>) -> JobState {
    JobState {
        waiting: WaitingText::Begin,
        items: selected(roots, requested),
        stack: Seq::empty(),
        files: Seq::empty(),
    }
}

/// Calls `async_zip::ZipEntryBuilder::new` with the file name `name` and the
/// compression method that stands for `compression`. The result is the
/// description that the constructor makes of the two: it keeps them as they
/// are given and sets every other field to a fixed default.
#[verifier::external_body]
fn new_entry(name: &str, compression: Compression) -> (builder: async_zip::ZipEntryBuilder)
    ensures
        builder == built_entry(name@, compression),
{
    let method = match compression {
        Compression::Stored => async_zip::Compression::Stored,
        Compression::Deflate => async_zip::Compression::Deflate,
    };
    async_zip::ZipEntryBuilder::new(name.into(), method)
}

fn abandon() -> (next: (ArchiveJob, Action))
    ensures
        (next.0@, next.1@) == abandoned(),
{
    let job = ArchiveJob {
        waiting: Waiting::Finalize,
        items: Vec::new(),
        stack: Vec::new(),
        files: Vec::new(),
    };
    assert(located_texts(job.items@) == Seq::<LocatedText>::empty());
    (job, Action::Finalize)
}

fn close() -> (next: (ArchiveJob, Action))
    ensures
        (next.0@, next.1@) == closed(),
{
    let job = ArchiveJob {
        waiting: Waiting::Closed,
        items: Vec::new(),
        stack: Vec::new(),
        files: Vec::new(),
    };
    assert(located_texts(job.items@) == Seq::<LocatedText>::empty());
    (job, Action::Done)
}

fn go_on(items: Vec<Located>, stack: Vec<Located>, files: Vec<Located>) -> (next: (ArchiveJob, Action))
    ensures
        (next.0@, next.1@) == advance(located_texts(items@), located_texts(stack@), located_texts(files@)),
{
    let mut items = items;
    let mut stack = stack;
    let mut files = files;
    let ghost items0 = located_texts(items@);
    let ghost stack0 = located_texts(stack@);
    let ghost files0 = located_texts(files@);
    if files.len() > 0 {
        let entry = files.remove(0);
        assert(located_texts(files@) == files0.drop_first());
        let builder = new_entry(entry.name.as_str(), Compression::Deflate);
        (ArchiveJob { waiting: Waiting::Write, items, stack, files }, Action::Write { entry, builder })
    } else if stack.len() > 0 {
        let dir = stack.pop().unwrap();
        assert(located_texts(stack@) == stack0.drop_last());
        let path = dir.path.clone();
        (ArchiveJob { waiting: Waiting::Children(dir), items, stack, files }, Action::ReadDir(path))
    } else if items.len() > 0 {
        let item = items.remove(0);
        assert(located_texts(items@) == items0.drop_first());
        let path = item.path.clone();
        (ArchiveJob { waiting: Waiting::Kind(item), items, stack, files }, Action::Classify(path))
    } else {
        (ArchiveJob { waiting: Waiting::Finalize, items, stack, files }, Action::Finalize)
    }
}

/// Places the child `child` below `dir`.
fn locate_child(dir: &Located, child: &str) -> (located: Located)
    ensures
        located@ == child_located(dir@, child@),
{
    let name = if dir.name.as_str().is_empty() {
        child.to_owned()
    } else {
        nest(dir.name.as_str(), child)
    };
    Located { path: join(dir.path.as_str(), child), name }
}

impl ArchiveJob {
    /// The stage that the job is in.
    pub fn phase(&self) -> (phase: JobPhase)
        ensures
            phase == phase_of(self@.waiting),
    {
        match &self.waiting {
            Waiting::Begin => JobPhase::Created,
            Waiting::Kind(_) => JobPhase::Traversing,
            Waiting::Children(_) => JobPhase::Traversing,
            Waiting::Write => JobPhase::Writing,
            Waiting::Finalize => JobPhase::Finalizing,
            Waiting::Closed => JobPhase::Closed,
        }
    }

    /// Takes the driver's report and says what to do next, as [`step_spec`]
    /// defines it.
    pub fn step(self, event: Event) -> (next: (ArchiveJob, Action))
        ensures
            (next.0@, next.1@) == step_spec(self@, event),
    {
        let ArchiveJob { waiting, items, stack, files } = self;
        let mut stack = stack;
        let mut files = files;
        match waiting {
            Waiting::Begin => match event {
                Event::Begin => go_on(items, stack, files),
                _ => abandon(),
            },
            Waiting::Kind(item) => match event {
                Event::Found(PathKind::File) => {
                    assert(located_texts(files@.push(item)) == located_texts(files@).push(item@));
                    files.push(item);
                    go_on(items, stack, files)
                },
                Event::Found(PathKind::Directory) => {
                    assert(located_texts(stack@.push(item)) == located_texts(stack@).push(item@));
                    stack.push(item);
                    go_on(items, stack, files)
                },
                Event::Found(PathKind::Other) => go_on(items, stack, files),
                _ => abandon(),
            },
            Waiting::Children(dir) => match event {
                Event::Children(children) => {
                    let ghost stack0 = located_texts(stack@);
                    let ghost files0 = located_texts(files@);
                    let mut i: usize = 0;
                    assert(stack0 + Seq::<LocatedText>::empty() == stack0);
                    assert(files0 + Seq::<LocatedText>::empty() == files0);
                    while i < children.len()
                        invariant
                            i <= children@.len(),
                            located_texts(stack@) == stack0 + listed(dir@, children@.take(i as int), true),
                            located_texts(files@) == files0 + listed(dir@, children@.take(i as int), false),
                        decreases children@.len() - i,
                    {
                        let child = &children[i];
                        let located = locate_child(&dir, child.name.as_str());
                        proof {
                            let seen = children@.take(i as int + 1);
                            assert(seen.drop_last() == children@.take(i as int));
                            assert(seen.last() == children@[i as int]);
                            assert(located_texts(stack@.push(located)) == located_texts(stack@).push(
                                located@,
                            ));
                            assert(located_texts(files@.push(located)) == located_texts(files@).push(
                                located@,
                            ));
                            let dirs = listed(dir@, children@.take(i as int), true);
                            let plain = listed(dir@, children@.take(i as int), false);
                            assert((stack0 + dirs).push(located@) == stack0 + dirs.push(located@));
                            assert((files0 + plain).push(located@) == files0 + plain.push(located@));
                        }
                        if child.is_dir {
                            stack.push(located);
                        } else {
                            files.push(located);
                        }
                        i += 1;
                    }
                    assert(children@.take(children@.len() as int) == children@);
                    go_on(items, stack, files)
                },
                Event::Unreadable => go_on(items, stack, files),
                _ => abandon(),
            },
            Waiting::Write => match event {
                Event::Written => go_on(items, stack, files),
                Event::Skipped => go_on(items, stack, files),
                _ => abandon(),
            },
            Waiting::Finalize => close(),
            Waiting::Closed => close(),
        }
    }
}

/// Says what a path is, given whether a probe found a regular file or a
/// directory there.
pub fn classify(is_file: bool, is_dir: bool) -> (kind: PathKind)
    ensures
        kind == kind_of(is_file, is_dir),
{
    if is_file {
        PathKind::File
    } else if is_dir {
        PathKind::Directory
    } else {
        PathKind::Other
    }
}

/// Says what to report of the attempt to write a member: whether its file
/// could be opened, whether the file was then read to its end, and whether
/// the archive took everything that was written to it.
pub fn write_event(opened: bool, read_to_end: bool, archive_took: bool) -> (event: Event)
    ensures
        event == write_report(opened, read_to_end, archive_took),
{
    if !opened {
        Event::Skipped
    } else if !archive_took {
        Event::Broken
    } else if !read_to_end {
        Event::Skipped
    } else {
        Event::Written
    }
}

/// Starts the archive of the folder at `target`, given what a probe found
/// there. The target has to exist and be a directory; the members of the
/// archive are placed under the folder's own name.
pub fn stream_folder_zip(target: &str, status: PathStatus) -> (job: Result<ArchiveJob, RequestError>)
    ensures
        job is Ok <==> status.exists && status.is_dir,
        job matches Ok(j) ==> j@ == folder_job(target@),
        job matches Err(e) ==> e is FolderNotFound,
{
    match check_folder(status) {
        Err(e) => Err(e),
        Ok(_) => {
            let name = match file_name(target) {
                Some(name) => name,
                None => String::new(),
            };
            let root = Located { path: target.to_owned(), name };
            let mut stack: Vec<Located> = Vec::new();
            stack.push(root);
            let job = ArchiveJob {
                waiting: Waiting::Begin,
                items: Vec::new(),
                stack,
                files: Vec::new(),
            };
            assert(job@.stack == folder_job(target@).stack);
            assert(job@.items == Seq::<LocatedText>::empty());
            Ok(job)
        },
    }
}

/// Starts the archive of a selection. Every requested path is judged on its
/// own: one that has a `..` segment or does not resolve under the shared
/// roots is left out, and each of the others is selected under the very text it was
/// requested by.
pub fn stream_selection_zip(shared_items: &[String], requested: &Vec<String>) -> (job: ArchiveJob)
    ensures
        job@ == selection_job(texts(shared_items@), texts(requested@)),
{
    let mut items: Vec<Located> = Vec::new();
    let ghost roots = texts(shared_items@);
    let ghost wanted = texts(requested@);
    let mut i: usize = 0;
    while i < requested.len()
        invariant
            i <= requested@.len(),
            roots == texts(shared_items@),
            wanted == texts(requested@),
            located_texts(items@) == selected(roots, wanted.take(i as int)),
        decreases requested@.len() - i,
    {
        let rel = requested[i].as_str();
        proof {
            assert(wanted.take(i as int + 1).drop_last() == wanted.take(i as int));
            assert(wanted.take(i as int + 1).last() == rel@);
        }
        if !has_dot_dot_segment(rel) {
            match resolve_path(shared_items, rel) {
                Some(path) => {
                    let item = Located { path, name: rel.to_owned() };
                    assert(Some(item@) == selected_item(roots, rel@));
                    assert(located_texts(items@.push(item)) == located_texts(items@).push(item@));
                    items.push(item);
                },
                None => {},
            }
        }
        i += 1;
    }
    assert(wanted.take(wanted.len() as int) == wanted);
    let job = ArchiveJob { waiting: Waiting::Begin, items, stack: Vec::new(), files: Vec::new() };
    assert(job@.stack == Seq::<LocatedText>::empty());
    job
}

} // verus!
