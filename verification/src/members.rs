//! What an archive job writes, stated against a file tree.
//!
//! The laws here take the filesystem as a ghost tree and a run of a job as
//! the sequence of events that its driver reports. They say which members a
//! job asks to be written when the driver answers as the tree has it.

use vstd::prelude::*;
use vstd::multiset::Multiset;
use crate::archive::{
    ActionText, Compression, Event, JobPhase, JobState, LocatedText, PathKind, WaitingText, advance,
    built_entry, child_located, closed, folder_job, listed, phase_of, selected, selection_job,
    step_spec, write_report,
};
use crate::download::download_name;
use crate::resolver::resolution;
use crate::text::has_parent_segment;
use crate::listing::DirChild;

verus! {

/// What lies at a path.
pub ghost enum Tree {
    /// A file.
    File,
    /// A directory with its children, in the order in which they are read.
    Directory(Seq<Named>),
    /// A directory that cannot be read.
    Unreadable,
    /// Something that is neither a file nor a directory.
    Other,
}

/// A child of a directory: its file name and what lies there.
pub ghost struct Named {
    pub name: Seq<char>,
    pub node: Tree,
}

/// The trees of everything that a job has pending, position by position.
pub ghost struct Shadow {
    /// What lies at the path that the job is asking about.
    pub waiting: Tree,
    /// What lies at each selected item not yet looked at.
    pub items: Seq<Tree>,
    /// What lies at each directory still to be read.
    pub stack: Seq<Tree>,
}

impl Tree {
    /// Whether a probe takes this for a directory.
    pub open spec fn is_dir(self) -> bool {
        self is Directory || self is Unreadable
    }

    /// What a probe takes this for.
    pub open spec fn kind(self) -> PathKind {
        match self {
            Tree::File => PathKind::File,
            Tree::Directory(_) => PathKind::Directory,
            Tree::Unreadable => PathKind::Directory,
            Tree::Other => PathKind::Other,
        }
    }
}

/// The members that the children `children` of the directory `at` give
/// rise to: one for each child that is no directory, and for each child
/// directory the members of its own children. A child's path and name derive
/// from those of `at`; an unreadable directory gives rise to none.
pub open spec fn below(at: LocatedText, children: Seq<Named>) -> Multiset<LocatedText>
    decreases children,
{
    if children.len() == 0 {
        Multiset::empty()
    } else {
        let last = children[children.len() - 1];
        let here = child_located(at, last.name);
        below(at, children.subrange(0, children.len() - 1)).add(
            match last.node {
                Tree::Directory(inner) => below(here, inner),
                Tree::Unreadable => Multiset::empty(),
                _ => Multiset::singleton(here),
            },
        )
    }
}

/// The members that a directory placed at `at` gives rise to.
pub open spec fn dir_members(at: LocatedText, tree: Tree) -> Multiset<LocatedText> {
    match tree {
        Tree::Directory(children) => below(at, children),
        _ => Multiset::empty(),
    }
}

/// The members that a selected item gives rise to: a file is one member
/// under the name it was selected by, a directory gives what lies below it
/// under that name, and anything else gives none.
pub open spec fn item_members(at: LocatedText, tree: Tree) -> Multiset<LocatedText> {
    match tree {
        Tree::File => Multiset::singleton(at),
        Tree::Directory(children) => below(at, children),
        _ => Multiset::empty(),
    }
}

/// The members of the first `n` directories of `dirs`.
pub open spec fn dirs_members(dirs: Seq<LocatedText>, trees: Seq<Tree>, n: int) -> Multiset<LocatedText>
    decreases n,
{
    if n <= 0 {
        Multiset::empty()
    } else {
        dirs_members(dirs, trees, n - 1).add(dir_members(dirs[n - 1], trees[n - 1]))
    }
}

/// The members of the first `n` items of `items`.
pub open spec fn items_members(items: Seq<LocatedText>, trees: Seq<Tree>, n: int) -> Multiset<LocatedText>
    decreases n,
{
    if n <= 0 {
        Multiset::empty()
    } else {
        items_members(items, trees, n - 1).add(item_members(items[n - 1], trees[n - 1]))
    }
}

/// The members that a selection gives rise to, item by item.
pub open spec fn selection_members(items: Seq<LocatedText>, trees: Seq<Tree>) -> Multiset<LocatedText> {
    items_members(items, trees, items.len() as int)
}

/// How many files lie below a directory with the children `children`:
/// every child that is no directory counts, and so does every such child of
/// a readable directory further down.
pub open spec fn files_below(children: Seq<Named>) -> nat
    decreases children,
{
    if children.len() == 0 {
        0
    } else {
        let last = children[children.len() - 1];
        files_below(children.subrange(0, children.len() - 1)) + match last.node {
            Tree::Directory(inner) => files_below(inner),
            Tree::Unreadable => 0,
            _ => 1,
        }
    }
}

/// How many members a selected item accounts for: a file for one, a
/// directory for the files below it.
pub open spec fn files_at(tree: Tree) -> nat {
    match tree {
        Tree::File => 1,
        Tree::Directory(children) => files_below(children),
        _ => 0,
    }
}

/// How many members the first `n` selected items account for.
pub open spec fn files_selected(trees: Seq<Tree>, n: int) -> nat
    decreases n,
{
    if n <= 0 {
        0
    } else {
        files_selected(trees, n - 1) + files_at(trees[n - 1])
    }
}

/// The members of what the job is asking about.
pub open spec fn waiting_members(waiting: WaitingText, tree: Tree) -> Multiset<LocatedText> {
    match waiting {
        WaitingText::Kind(item) => item_members(item, tree),
        WaitingText::Children(dir) => dir_members(dir, tree),
        _ => Multiset::empty(),
    }
}

/// Every member that the job has still to ask for.
pub open spec fn pending(job: JobState, shadow: Shadow) -> Multiset<LocatedText> {
    job.files.to_multiset().add(dirs_members(job.stack, shadow.stack, job.stack.len() as int)).add(
        items_members(job.items, shadow.items, job.items.len() as int),
    ).add(waiting_members(job.waiting, shadow.waiting))
}

/// The shadow has a tree for each pending item and directory, and what the
/// job takes for a directory is one.
pub open spec fn fits(job: JobState, shadow: Shadow) -> bool {
    &&& shadow.items.len() == job.items.len()
    &&& shadow.stack.len() == job.stack.len()
    &&& forall|i: int| 0 <= i < shadow.stack.len() ==> (#[trigger] shadow.stack[i]).is_dir()
    &&& job.waiting is Children ==> shadow.waiting.is_dir()
    &&& job.waiting is Finalize || job.waiting is Closed ==> job.items.len() == 0 && job.stack.len()
        == 0 && job.files.len() == 0
}

/// The listing `shown` is what reading a directory with the children
/// `children` yields.
pub open spec fn shows(shown: Seq<DirChild>, children: Seq<Named>) -> bool {
    &&& shown.len() == children.len()
    &&& forall|i: int|
        0 <= i < shown.len() ==> (#[trigger] shown[i]).name@ == children[i].name && shown[i].is_dir
            == children[i].node.is_dir()
}

/// The event answers what the job is waiting for, and answers it as the
/// trees have it. Whether a write succeeded or was skipped is left open; a
/// broken archive is no answer.
pub open spec fn answers(job: JobState, shadow: Shadow, event: Event) -> bool {
    match job.waiting {
        WaitingText::Begin => event is Begin,
        WaitingText::Kind(_) => event == Event::Found(shadow.waiting.kind()),
        WaitingText::Children(_) => match shadow.waiting {
            Tree::Directory(children) => event matches Event::Children(shown) && shows(shown@, children),
            _ => event is Unreadable,
        },
        WaitingText::Write => event is Written || event is Skipped,
        WaitingText::Finalize => event is Finalized,
        WaitingText::Closed => true,
    }
}

/// The trees of the child directories among `children`, in order.
pub open spec fn subtrees(children: Seq<Named>) -> Seq<Tree>
    decreases children.len(),
{
    if children.len() == 0 {
        Seq::empty()
    } else {
        let head = subtrees(children.drop_last());
        if children.last().node.is_dir() {
            head.push(children.last().node)
        } else {
            head
        }
    }
}

/// The shadow of the job that `advance` leaves behind.
pub open spec fn advance_shadow(has_files: bool, items: Seq<Tree>, stack: Seq<Tree>) -> Shadow {
    if has_files {
        Shadow { waiting: Tree::Other, items, stack }
    } else if stack.len() > 0 {
        Shadow { waiting: stack.last(), items, stack: stack.drop_last() }
    } else if items.len() > 0 {
        Shadow { waiting: items[0], items: items.drop_first(), stack }
    } else {
        Shadow { waiting: Tree::Other, items, stack }
    }
}

/// The shadow of the job after it has taken an event that answers it.
pub open spec fn next_shadow(job: JobState, shadow: Shadow, event: Event) -> Shadow {
    match job.waiting {
        WaitingText::Kind(_) => match shadow.waiting {
            Tree::File => advance_shadow(true, shadow.items, shadow.stack),
            Tree::Other => advance_shadow(job.files.len() > 0, shadow.items, shadow.stack),
            dir => advance_shadow(job.files.len() > 0, shadow.items, shadow.stack.push(dir)),
        },
        WaitingText::Children(dir) => match shadow.waiting {
            Tree::Directory(children) => match event {
                Event::Children(shown) => advance_shadow(
                    (job.files + listed(dir, shown@, false)).len() > 0,
                    shadow.items,
                    shadow.stack + subtrees(children),
                ),
                _ => shadow,
            },
            _ => advance_shadow(job.files.len() > 0, shadow.items, shadow.stack),
        },
        WaitingText::Finalize => Shadow { waiting: Tree::Other, items: Seq::empty(), stack: Seq::empty() },
        WaitingText::Closed => Shadow { waiting: Tree::Other, items: Seq::empty(), stack: Seq::empty() },
        _ => advance_shadow(job.files.len() > 0, shadow.items, shadow.stack),
    }
}

/// The member that an action asks to be written, if it asks for one.
pub open spec fn written_by(action: ActionText) -> Seq<LocatedText> {
    match action {
        ActionText::Write { entry, builder } => seq![entry],
        _ => Seq::empty(),
    }
}

/// Every event of the run answers what the job is waiting for at that point.
pub open spec fn truthful(job: JobState, shadow: Shadow, events: Seq<Event>) -> bool
    decreases events.len(),
{
    events.len() == 0 || (answers(job, shadow, events[0]) && truthful(
        step_spec(job, events[0]).0,
        next_shadow(job, shadow, events[0]),
        events.drop_first(),
    ))
}

/// The members that the job asks to be written while it takes `events`, in
/// the order in which it asks.
pub open spec fn asked(job: JobState, events: Seq<Event>) -> Seq<LocatedText>
    decreases events.len(),
{
    if events.len() == 0 {
        Seq::empty()
    } else {
        let (next, action) = step_spec(job, events[0]);
        written_by(action) + asked(next, events.drop_first())
    }
}

/// The job after it has taken `events`.
pub open spec fn after(job: JobState, events: Seq<Event>) -> JobState
    decreases events.len(),
{
    if events.len() == 0 {
        job
    } else {
        after(step_spec(job, events[0]).0, events.drop_first())
    }
}

/// How far a stage is along the life of a job.
pub open spec fn rank(phase: JobPhase) -> int {
    match phase {
        JobPhase::Created => 0,
        JobPhase::Traversing => 1,
        JobPhase::Writing => 1,
        JobPhase::Finalizing => 2,
        JobPhase::Closed => 3,
    }
}

/// The members of a list of directories depend on the directories counted
/// alone.
proof fn lemma_dirs_members_frame(
    a: Seq<LocatedText>,
    ta: Seq<Tree>,
    b: Seq<LocatedText>,
    tb: Seq<Tree>,
    n: int,
)
    requires
        0 <= n <= a.len(),
        n <= b.len(),
        n <= ta.len(),
        n <= tb.len(),
        forall|i: int| 0 <= i < n ==> a[i] == b[i] && ta[i] == tb[i],
    ensures
        dirs_members(a, ta, n) == dirs_members(b, tb, n),
    decreases n,
{
    if n > 0 {
        lemma_dirs_members_frame(a, ta, b, tb, n - 1);
    }
}

proof fn lemma_items_members_frame(
    a: Seq<LocatedText>,
    ta: Seq<Tree>,
    b: Seq<LocatedText>,
    tb: Seq<Tree>,
    n: int,
)
    requires
        0 <= n <= a.len(),
        n <= b.len(),
        n <= ta.len(),
        n <= tb.len(),
        forall|i: int| 0 <= i < n ==> a[i] == b[i] && ta[i] == tb[i],
    ensures
        items_members(a, ta, n) == items_members(b, tb, n),
    decreases n,
{
    if n > 0 {
        lemma_items_members_frame(a, ta, b, tb, n - 1);
    }
}

/// The members of two lists of directories, one after the other, are those
/// of the first together with those of the second.
proof fn lemma_dirs_members_concat(a: Seq<LocatedText>, ta: Seq<Tree>, b: Seq<LocatedText>, tb: Seq<Tree>)
    requires
        a.len() == ta.len(),
        b.len() == tb.len(),
    ensures
        dirs_members(a + b, ta + tb, (a.len() + b.len()) as int) =~= dirs_members(
            a,
            ta,
            a.len() as int,
        ).add(dirs_members(b, tb, b.len() as int)),
    decreases b.len(),
{
    if b.len() == 0 {
        assert(a + b == a);
        assert(ta + tb == ta);
    } else {
        let bh = b.drop_last();
        let tbh = tb.drop_last();
        lemma_dirs_members_concat(a, ta, bh, tbh);
        let n = (a.len() + b.len()) as int;
        lemma_dirs_members_frame(a + b, ta + tb, a + bh, ta + tbh, n - 1);
        lemma_dirs_members_frame(b, tb, bh, tbh, b.len() - 1);
        assert((a + b)[n - 1] == b.last());
        assert((ta + tb)[n - 1] == tb.last());
    }
}

/// The members of a list of items are those of its first item together with
/// those of the rest.
proof fn lemma_items_members_first(items: Seq<LocatedText>, trees: Seq<Tree>, n: int)
    requires
        0 < n <= items.len(),
        n <= trees.len(),
    ensures
        items_members(items, trees, n) =~= item_members(items[0], trees[0]).add(
            items_members(items.drop_first(), trees.drop_first(), n - 1),
        ),
    decreases n,
{
    if n > 1 {
        lemma_items_members_first(items, trees, n - 1);
        assert(items.drop_first()[n - 2] == items[n - 1]);
        assert(trees.drop_first()[n - 2] == trees[n - 1]);
    } else {
        assert(items_members(items, trees, 0) =~= Multiset::empty());
        assert(items_members(items.drop_first(), trees.drop_first(), 0) =~= Multiset::empty());
    }
}

/// Reading a directory splits what lies below it into the files found there
/// and what lies below the directories found there.
proof fn lemma_listing_splits(dir: LocatedText, shown: Seq<DirChild>, children: Seq<Named>)
    requires
        shows(shown, children),
    ensures
        listed(dir, shown, true).len() == subtrees(children).len(),
        forall|i: int| 0 <= i < subtrees(children).len() ==> (#[trigger] subtrees(children)[i]).is_dir(),
        below(dir, children) =~= listed(dir, shown, false).to_multiset().add(
            dirs_members(listed(dir, shown, true), subtrees(children), subtrees(children).len() as int),
        ),
    decreases children.len(),
{
    broadcast use vstd::seq_lib::to_multiset_build;

    if children.len() == 0 {
        assert(shown.len() == 0);
        assert(listed(dir, shown, false).to_multiset() =~= Multiset::empty()) by {
            broadcast use vstd::seq_lib::to_multiset_len;

            assert(listed(dir, shown, false).to_multiset().len() == 0);
        }
    } else {
        let ch = children.drop_last();
        let sh = shown.drop_last();
        assert(children.subrange(0, children.len() - 1) == ch);
        assert(shows(sh, ch)) by {
            assert forall|i: int| 0 <= i < sh.len() implies (#[trigger] sh[i]).name@ == ch[i].name
                && sh[i].is_dir == ch[i].node.is_dir() by {
                assert(shown[i].name@ == children[i].name);
            }
        }
        lemma_listing_splits(dir, sh, ch);
        let last = children.last();
        let here = child_located(dir, last.name);
        assert(shown.last().name@ == last.name && shown.last().is_dir == last.node.is_dir()) by {
            assert(shown[shown.len() - 1].name@ == children[shown.len() - 1].name);
        }
        let dirs = listed(dir, sh, true);
        let trees = subtrees(ch);
        if last.node.is_dir() {
            let dirs2 = dirs.push(here);
            let trees2 = trees.push(last.node);
            assert(listed(dir, shown, true) == dirs2);
            assert(subtrees(children) == trees2);
            lemma_dirs_members_frame(dirs2, trees2, dirs, trees, trees.len() as int);
            assert(dirs_members(dirs2, trees2, trees2.len() as int) == dirs_members(
                dirs,
                trees,
                trees.len() as int,
            ).add(dir_members(here, last.node)));
        } else {
            assert(listed(dir, shown, false) == listed(dir, sh, false).push(here));
        }
    }
}

/// The shadow of the job after it has taken `events`.
pub open spec fn shadow_after(job: JobState, shadow: Shadow, events: Seq<Event>) -> Shadow
    decreases events.len(),
{
    if events.len() == 0 {
        shadow
    } else {
        shadow_after(
            step_spec(job, events[0]).0,
            next_shadow(job, shadow, events[0]),
            events.drop_first(),
        )
    }
}

/// No members make the empty multiset.
proof fn lemma_none()
    ensures
        Seq::<LocatedText>::empty().to_multiset() =~= Multiset::empty(),
{
    broadcast use vstd::seq_lib::to_multiset_len;

    assert(Seq::<LocatedText>::empty().to_multiset().len() == 0);
}

/// One member makes the multiset of that member alone.
proof fn lemma_single(e: LocatedText)
    ensures
        seq![e].to_multiset() =~= Multiset::singleton(e),
{
    broadcast use vstd::seq_lib::to_multiset_build;

    lemma_none();
    assert(seq![e] == Seq::<LocatedText>::empty().push(e));
}

/// Going on to the next piece of pending work loses no member: what was
/// pending is what is pending afterwards, together with the member that is
/// asked for.
proof fn lemma_advance_conserves(
    items: Seq<LocatedText>,
    stack: Seq<LocatedText>,
    files: Seq<LocatedText>,
    item_trees: Seq<Tree>,
    stack_trees: Seq<Tree>,
)
    requires
        item_trees.len() == items.len(),
        stack_trees.len() == stack.len(),
        forall|i: int| 0 <= i < stack_trees.len() ==> (#[trigger] stack_trees[i]).is_dir(),
    ensures
        fits(advance(items, stack, files).0, advance_shadow(files.len() > 0, item_trees, stack_trees)),
        files.to_multiset().add(dirs_members(stack, stack_trees, stack.len() as int)).add(
            items_members(items, item_trees, items.len() as int),
        ) =~= pending(
            advance(items, stack, files).0,
            advance_shadow(files.len() > 0, item_trees, stack_trees),
        ).add(written_by(advance(items, stack, files).1).to_multiset()),
{
    broadcast use vstd::seq_lib::to_multiset_remove;
    broadcast use vstd::seq_lib::to_multiset_contains;

    let (next, action) = advance(items, stack, files);
    let shadow = advance_shadow(files.len() > 0, item_trees, stack_trees);
    if files.len() > 0 {
        lemma_single(files[0]);
        assert(files.remove(0) == files.drop_first());
        assert(files.contains(files[0]));
        assert(files.drop_first().to_multiset() == files.to_multiset().remove(files[0]));
        assert(files.to_multiset() =~= files.drop_first().to_multiset().add(
            Multiset::singleton(files[0]),
        ));
    } else if stack.len() > 0 {
        lemma_none();
        let n = stack.len() as int;
        lemma_dirs_members_frame(stack, stack_trees, stack.drop_last(), stack_trees.drop_last(), n - 1);
        assert forall|i: int| 0 <= i < shadow.stack.len() implies (#[trigger] shadow.stack[i]).is_dir() by {
            assert(stack_trees[i].is_dir());
        }
        assert(stack_trees[n - 1].is_dir());
    } else if items.len() > 0 {
        lemma_none();
        lemma_items_members_first(items, item_trees, items.len() as int);
    } else {
        lemma_none();
    }
}

/// A step that answers what the job is waiting for loses no member: what was
/// pending before is what is pending afterwards, together with the member
/// that the step asks for.
pub proof fn lemma_step_conserves(job: JobState, shadow: Shadow, event: Event)
    requires
        fits(job, shadow),
        answers(job, shadow, event),
    ensures
        fits(step_spec(job, event).0, next_shadow(job, shadow, event)),
        pending(job, shadow) =~= pending(step_spec(job, event).0, next_shadow(job, shadow, event)).add(
            written_by(step_spec(job, event).1).to_multiset(),
        ),
{
    broadcast use vstd::seq_lib::to_multiset_build;
    broadcast use vstd::seq_lib::lemma_multiset_commutative;

    let n = job.stack.len() as int;
    match job.waiting {
        WaitingText::Begin => {
            lemma_advance_conserves(job.items, job.stack, job.files, shadow.items, shadow.stack);
        },
        WaitingText::Kind(item) => {
            match shadow.waiting {
                Tree::File => {
                    lemma_advance_conserves(
                        job.items,
                        job.stack,
                        job.files.push(item),
                        shadow.items,
                        shadow.stack,
                    );
                },
                Tree::Other => {
                    lemma_advance_conserves(job.items, job.stack, job.files, shadow.items, shadow.stack);
                },
                dir => {
                    let stack = job.stack.push(item);
                    let trees = shadow.stack.push(dir);
                    assert forall|i: int| 0 <= i < trees.len() implies (#[trigger] trees[i]).is_dir() by {
                        if i < n {
                            assert(shadow.stack[i].is_dir());
                        }
                    }
                    lemma_dirs_members_frame(stack, trees, job.stack, shadow.stack, n);
                    lemma_advance_conserves(job.items, stack, job.files, shadow.items, trees);
                },
            }
        },
        WaitingText::Children(dir) => {
            match shadow.waiting {
                Tree::Directory(children) => {
                    let shown = event->Children_0@;
                    lemma_listing_splits(dir, shown, children);
                    let more = listed(dir, shown, true);
                    let trees = shadow.stack + subtrees(children);
                    lemma_dirs_members_concat(job.stack, shadow.stack, more, subtrees(children));
                    assert forall|i: int| 0 <= i < trees.len() implies (#[trigger] trees[i]).is_dir() by {
                        if i < n {
                            assert(shadow.stack[i].is_dir());
                        } else {
                            assert(subtrees(children)[i - n].is_dir());
                        }
                    }
                    lemma_advance_conserves(
                        job.items,
                        job.stack + more,
                        job.files + listed(dir, shown, false),
                        shadow.items,
                        trees,
                    );
                },
                _ => {
                    lemma_advance_conserves(job.items, job.stack, job.files, shadow.items, shadow.stack);
                },
            }
        },
        WaitingText::Write => {
            lemma_advance_conserves(job.items, job.stack, job.files, shadow.items, shadow.stack);
        },
        WaitingText::Finalize => {
            lemma_none();
            assert(job.files =~= Seq::empty());
        },
        WaitingText::Closed => {
            lemma_none();
            assert(job.files =~= Seq::empty());
        },
    }
}

/// A run in which every event answers what the job is waiting for loses no
/// member: what was pending at the start is what the job asked for during
/// the run, together with what is still pending at its end.
pub proof fn lemma_run_conserves(job: JobState, shadow: Shadow, events: Seq<Event>)
    requires
        fits(job, shadow),
        truthful(job, shadow, events),
    ensures
        fits(after(job, events), shadow_after(job, shadow, events)),
        pending(job, shadow) =~= asked(job, events).to_multiset().add(
            pending(after(job, events), shadow_after(job, shadow, events)),
        ),
    decreases events.len(),
{
    broadcast use vstd::seq_lib::lemma_multiset_commutative;

    if events.len() == 0 {
        lemma_none();
    } else {
        let (next, action) = step_spec(job, events[0]);
        let next_sh = next_shadow(job, shadow, events[0]);
        lemma_step_conserves(job, shadow, events[0]);
        lemma_run_conserves(next, next_sh, events.drop_first());
    }
}

/// A finished job has nothing pending.
proof fn lemma_finished_has_nothing_pending(job: JobState, shadow: Shadow)
    requires
        fits(job, shadow),
        job.waiting is Finalize || job.waiting is Closed,
    ensures
        pending(job, shadow) =~= Multiset::empty(),
{
    lemma_none();
    assert(job.files =~= Seq::empty());
}

/// A directory gives rise to one member for each file below it.
pub proof fn lemma_below_count(at: LocatedText, children: Seq<Named>)
    ensures
        below(at, children).len() == files_below(children),
    decreases children,
{
    if children.len() > 0 {
        let last = children[children.len() - 1];
        lemma_below_count(at, children.subrange(0, children.len() - 1));
        match last.node {
            Tree::Directory(inner) => {
                lemma_below_count(child_located(at, last.name), inner);
            },
            _ => {},
        }
    }
}

/// A selection gives rise to one member for each selected file and one for
/// each file below a selected directory.
pub proof fn lemma_selection_count(items: Seq<LocatedText>, trees: Seq<Tree>, n: int)
    requires
        0 <= n <= items.len(),
        n <= trees.len(),
    ensures
        items_members(items, trees, n).len() == files_selected(trees, n),
    decreases n,
{
    if n > 0 {
        lemma_selection_count(items, trees, n - 1);
        match trees[n - 1] {
            Tree::Directory(children) => {
                lemma_below_count(items[n - 1], children);
            },
            _ => {},
        }
    }
}

/// Where every requested path is free of `..` segments and resolves, the
/// selection has one item for each of them, in the order of the request:
/// the path it resolves to, under the very text that was requested.
pub proof fn lemma_all_selected(roots: Seq<Seq<char>>, requested: Seq<Seq<char>>)
    requires
        forall|i: int|
            0 <= i < requested.len() ==> !has_parent_segment(#[trigger] requested[i]) && resolution(
                roots,
                requested[i],
            ) is Some,
    ensures
        selected(roots, requested).len() == requested.len(),
        forall|i: int|
            0 <= i < requested.len() ==> (#[trigger] selected(roots, requested)[i]) == (LocatedText {
                path: resolution(roots, requested[i])->0,
                name: requested[i],
            }),
    decreases requested.len(),
{
    if requested.len() > 0 {
        let head = requested.drop_last();
        assert forall|i: int| 0 <= i < head.len() implies !has_parent_segment(#[trigger] head[i])
            && resolution(roots, head[i]) is Some by {
            assert(head[i] == requested[i]);
        }
        lemma_all_selected(roots, head);
        assert(!has_parent_segment(requested[requested.len() - 1]));
        assert forall|i: int| 0 <= i < requested.len() implies (#[trigger] selected(roots, requested)[i])
            == (LocatedText { path: resolution(roots, requested[i])->0, name: requested[i] }) by {
            if i < head.len() {
                assert(selected(roots, head)[i] == selected(roots, requested)[i]);
                assert(head[i] == requested[i]);
            }
        }
    }
}

/// The archive of a selection holds what was selected, no more and no less.
///
/// Take a run of the job for a selection in which the driver answers as the
/// filesystem has it: `trees[i]` is what lies at the `i`-th selected item.
/// Once that run has brought the job to the end of its traversal, the members
/// that the job asked to be written are exactly those of the selection, each
/// as often as it occurs there: for each selected file one member under the
/// very name that was requested, and for each selected directory one member
/// for each file below it, named by the requested name, a slash, and the
/// file's path below the directory. So their number is the number of selected
/// files plus the number of files below the selected directories.
pub proof fn lemma_selection_archive(
    roots: Seq<Seq<char>>,
    requested: Seq<Seq<char>>,
    trees: Seq<Tree>,
    events: Seq<Event>,
)
    requires
        trees.len() == selection_job(roots, requested).items.len(),
        truthful(
            selection_job(roots, requested),
            Shadow { waiting: Tree::Other, items: trees, stack: Seq::empty() },
            events,
        ),
        rank(phase_of(after(selection_job(roots, requested), events).waiting)) >= 2,
    ensures
        asked(selection_job(roots, requested), events).to_multiset() == selection_members(
            selection_job(roots, requested).items,
            trees,
        ),
        asked(selection_job(roots, requested), events).len() == files_selected(
            trees,
            trees.len() as int,
        ),
{
    broadcast use vstd::seq_lib::to_multiset_len;

    lemma_selection_count(selection_job(roots, requested).items, trees, trees.len() as int);

    let job = selection_job(roots, requested);
    let shadow = Shadow { waiting: Tree::Other, items: trees, stack: Seq::empty() };
    lemma_none();
    lemma_run_conserves(job, shadow, events);
    lemma_finished_has_nothing_pending(after(job, events), shadow_after(job, shadow, events));
    assert(pending(job, shadow) =~= selection_members(job.items, trees));
    assert(asked(job, events).to_multiset() =~= selection_members(job.items, trees));
}

/// The archive of a folder holds the files below the folder, no more and no
/// less.
///
/// Take a run of the job for the folder at `target` in which the driver
/// answers as the filesystem has it, `tree` being what lies at `target`. Once
/// that run has brought the job to the end of its traversal, the members that
/// the job asked to be written are exactly the files below the folder, each
/// named by the folder's own name, a slash, and the file's path below the
/// folder.
pub proof fn lemma_folder_archive(target: Seq<char>, tree: Tree, events: Seq<Event>)
    requires
        tree.is_dir(),
        truthful(
            folder_job(target),
            Shadow { waiting: Tree::Other, items: Seq::empty(), stack: seq![tree] },
            events,
        ),
        rank(phase_of(after(folder_job(target), events).waiting)) >= 2,
    ensures
        asked(folder_job(target), events).to_multiset() == dir_members(
            LocatedText { path: target, name: download_name(target) },
            tree,
        ),
{
    let job = folder_job(target);
    let shadow = Shadow { waiting: Tree::Other, items: Seq::empty(), stack: seq![tree] };
    let root = LocatedText { path: target, name: download_name(target) };
    lemma_none();
    lemma_run_conserves(job, shadow, events);
    lemma_finished_has_nothing_pending(after(job, events), shadow_after(job, shadow, events));
    assert(dirs_members(job.stack, shadow.stack, 1) =~= dir_members(root, tree)) by {
        assert(dirs_members(job.stack, shadow.stack, 0) =~= Multiset::empty());
    }
    assert(pending(job, shadow) =~= dir_members(root, tree));
    assert(asked(job, events).to_multiset() =~= dir_members(root, tree));
}

/// Every member below a directory that has a name in the archive is named by
/// that name, a slash, and more.
pub proof fn lemma_member_names(at: LocatedText, children: Seq<Named>, member: LocatedText)
    requires
        at.name.len() > 0,
        below(at, children).count(member) > 0,
    ensures
        (at.name + seq!['/']).is_prefix_of(member.name),
    decreases children,
{
    if children.len() > 0 {
        let last = children[children.len() - 1];
        let here = child_located(at, last.name);
        let head = children.subrange(0, children.len() - 1);
        assert(here.name == at.name + seq!['/'] + last.name);
        assert((at.name + seq!['/']).is_prefix_of(here.name));
        if below(at, head).count(member) > 0 {
            lemma_member_names(at, head, member);
        } else {
            match last.node {
                Tree::Directory(inner) => {
                    lemma_member_names(here, inner, member);
                    assert((here.name + seq!['/']).is_prefix_of(member.name));
                    assert((at.name + seq!['/']).is_prefix_of(member.name)) by {
                        let p = at.name + seq!['/'];
                        assert forall|i: int| 0 <= i < p.len() implies p[i] == member.name[i] by {
                            assert((here.name + seq!['/'])[i] == member.name[i]);
                        }
                    }
                },
                Tree::Unreadable => {},
                _ => {},
            }
        }
    }
}

/// Once the archive is reported broken the job asks for nothing but to
/// finalize: it gives up all pending work at once, and the step after that
/// closes it, whatever is reported.
pub proof fn lemma_broken_archive_ends_job(job: JobState, event: Event)
    ensures
        ({
            let (next, action) = step_spec(job, Event::Broken);
            &&& action is Finalize || action is Done
            &&& next.items.len() == 0 && next.stack.len() == 0 && next.files.len() == 0
            &&& step_spec(next, event) == closed()
        }),
{
}

/// A write is reported as a broken archive exactly when the file was opened
/// and the archive did not take what was written to it, so that the job
/// gives up at that very write; and it is reported as written exactly when
/// everything went well.
pub proof fn lemma_write_report(opened: bool, read_to_end: bool, archive_took: bool, job: JobState)
    ensures
        write_report(opened, read_to_end, archive_took) is Broken <==> opened && !archive_took,
        write_report(opened, read_to_end, archive_took) is Written <==> opened && read_to_end
            && archive_took,
        write_report(opened, read_to_end, archive_took) is Broken || write_report(
            opened,
            read_to_end,
            archive_took,
        ) is Written || write_report(opened, read_to_end, archive_took) is Skipped,
        opened && !archive_took ==> step_spec(job, write_report(opened, read_to_end, archive_took)).1
            is Finalize || step_spec(job, write_report(opened, read_to_end, archive_took)).1 is Done,
{
}

/// A job only moves forward: no step takes it back to an earlier stage, the
/// first step takes it out of its first stage, and a closed job stays closed.
pub proof fn lemma_step_moves_forward(job: JobState, event: Event)
    ensures
        rank(phase_of(step_spec(job, event).0.waiting)) >= rank(phase_of(job.waiting)),
        rank(phase_of(step_spec(job, event).0.waiting)) >= 1,
        job.waiting is Closed ==> step_spec(job, event) == closed(),
        job.waiting is Finalize ==> step_spec(job, event) == closed(),
{
}

/// Whatever a job asks to be written is described to the archive writer
/// under the member's own name, and as to be deflated.
pub proof fn lemma_members_are_deflated(job: JobState, event: Event)
    ensures
        step_spec(job, event).1 matches ActionText::Write { entry, builder } ==> builder
            == built_entry(entry.name, Compression::Deflate),
{
}

} // verus!
