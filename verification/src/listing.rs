//! Directory listings: what a browse request shows of the shared roots or of
//! a directory below one of them.
//!
//! The filesystem is read elsewhere. The functions here decide what has to be
//! read, and turn what was found into the sorted list of entries.

use vstd::prelude::*;
use vstd::string::StringExecFns;
use crate::order::{EntryText, entry_le, insert_entry, sorted_listing, text_le};
use crate::path::{file_name, final_component, nest, nested};
use crate::resolver::{resolution, resolve_path};
use crate::text::{is_hidden, starts_with_dot, texts, to_chars, trim_slashes, trimmed};

verus! {

/// One line of a listing.
#[derive(Clone, Debug, PartialEq, Eq)]
pub struct FileEntry {
    /// The name shown.
    pub name: String,
    /// The request path that leads to this entry.
    pub path: String,
    /// Whether the entry is a directory.
    pub is_dir: bool,
    /// The size in bytes, for files whose size is known.
    pub size: Option<u64>,
}

impl View for FileEntry {
    type V = EntryText;

    open spec fn view(&self) -> EntryText {
        EntryText { name: self.name@, path: self.path@, is_dir: self.is_dir, size: self.size }
    }
}

/// A shared root together with what the filesystem reports of it.
#[derive(Clone, Debug, PartialEq, Eq)]
pub struct ProbedRoot {
    /// The root's path, as configured.
    pub root: String,
    /// Whether the path is a directory.
    pub is_dir: bool,
    /// Whether the path is a regular file.
    pub is_file: bool,
    /// The size in bytes, where it could be read.
    pub size: Option<u64>,
}

/// A child found while reading a directory.
#[derive(Clone, Debug, PartialEq, Eq)]
pub struct DirChild {
    /// The child's file name.
    pub name: String,
    /// Whether the child is a directory.
    pub is_dir: bool,
    /// The size in bytes, where it could be read.
    pub size: Option<u64>,
}

/// What has to be read to answer a browse request.
#[derive(Clone, Debug, PartialEq, Eq)]
pub enum BrowsePlan {
    /// The request is for the top level: every shared root is to be probed.
    Roots,
    /// The directory at `path` is to be read; `request` is the request path
    /// without the slashes around it, under which the children are listed.
    Directory { path: String, request: String },
    /// The request leads nowhere: the listing is empty.
    Nothing,
}

/// The views of a list of entries.
pub open spec fn entry_texts(entries: Seq<FileEntry>) -> Seq<EntryText> {
    entries.map_values(|e: FileEntry| e@)
}

/// The request path of a browse request: slashes at both ends are dropped,
/// and a request without a path stands for the top level.
pub open spec fn browse_request(path: Option<Seq<char>>) -> Seq<char> {
    match path {
        Some(p) => trimmed(p),
        None => Seq::empty(),
    }
}

/// The entry that stands for a shared root, if the root has a share name. The
/// share name is both what is shown and the request path; the size is shown
/// for regular files only.
pub open spec fn root_entry(r: ProbedRoot) -> Option<EntryText> {
    match final_component(r.root@) {
        Some(name) => Some(
            EntryText {
                name,
                path: name,
                is_dir: r.is_dir,
                size: if r.is_file {
                    r.size
                } else {
                    None
                },
            },
        ),
        None => None,
    }
}

/// The entries of the shared roots, in the order of the roots.
pub open spec fn root_entries(roots: Seq<ProbedRoot>) -> Seq<EntryText>
    decreases roots.len(),
{
    if roots.len() == 0 {
        Seq::empty()
    } else {
        let head = root_entries(roots.drop_last());
        match root_entry(roots.last()) {
            Some(e) => head.push(e),
            None => head,
        }
    }
}

/// The entry that stands for a child of the directory requested as
/// `request`, unless the child is hidden. The size is shown for everything
/// but directories.
pub open spec fn child_entry(request: Seq<char>, c: DirChild) -> Option<EntryText> {
    if is_hidden(c.name@) {
        None
    } else {
        Some(
            EntryText {
                name: c.name@,
                path: nested(request, c.name@),
                is_dir: c.is_dir,
                size: if c.is_dir {
                    None
                } else {
                    c.size
                },
            },
        )
    }
}

/// The entries of the visible children, in the order in which they were
/// found.
pub open spec fn child_entries(request: Seq<char>, children: Seq<DirChild>) -> Seq<EntryText>
    decreases children.len(),
{
    if children.len() == 0 {
        Seq::empty()
    } else {
        let head = child_entries(request, children.drop_last());
        match child_entry(request, children.last()) {
            Some(e) => head.push(e),
            None => head,
        }
    }
}

/// Decides what a browse request needs from the filesystem.
///
/// An absent or empty request path asks for the shared roots. Any other path
/// is resolved against the roots: where that succeeds the directory found is
/// to be read, and where it fails the listing is empty.
pub fn plan_browse(shared_items: &[String], path: Option<&str>) -> (plan: BrowsePlan)
    ensures
        match plan {
            BrowsePlan::Roots => browse_request(option_view(path)).len() == 0,
            BrowsePlan::Directory { path: real_path, request } => {
                &&& request@ == browse_request(option_view(path))
                &&& request@.len() > 0
                &&& resolution(texts(shared_items@), request@) == Some(real_path@)
            },
            BrowsePlan::Nothing => {
                &&& browse_request(option_view(path)).len() > 0
                &&& resolution(texts(shared_items@), browse_request(option_view(path))) is None
            },
        },
{
    let request = match path {
        Some(p) => trim_slashes(p),
        None => "",
    };
    proof {
        reveal_strlit("");
    }
    if request.is_empty() {
        return BrowsePlan::Roots;
    }
    match resolve_path(shared_items, request) {
        Some(real_path) => BrowsePlan::Directory { path: real_path, request: String::from_str(request) },
        None => BrowsePlan::Nothing,
    }
}

/// The text of an optional string slice.
pub open spec fn option_view(s: Option<&str>) -> Option<Seq<char>> {
    match s {
        Some(s) => Some(s@),
        None => None,
    }
}

/// Tells whether `a` is at most `b` in the order of names.
pub fn name_le(a: &str, b: &str) -> (le: bool)
    ensures
        le == text_le(a@, b@),
{
    let x = to_chars(a);
    let y = to_chars(b);
    let mut i: usize = 0;
    assert(x@.skip(0) == x@ && y@.skip(0) == y@);
    while i < x.len() && i < y.len()
        invariant
            x@ == a@,
            y@ == b@,
            i <= x@.len(),
            i <= y@.len(),
            text_le(x@, y@) == text_le(x@.skip(i as int), y@.skip(i as int)),
        decreases x@.len() - i,
    {
        assert(x@.skip(i as int)[0] == x@[i as int]);
        assert(y@.skip(i as int)[0] == y@[i as int]);
        let cx: char = x[i];
        let cy: char = y[i];
        if cx != cy {
            return cx < cy;
        }
        assert(x@.skip(i as int).drop_first() == x@.skip(i as int + 1));
        assert(y@.skip(i as int).drop_first() == y@.skip(i as int + 1));
        i += 1;
    }
    i == x.len()
}

/// Tells whether `a` may stand before `b` in a listing.
pub fn may_precede(a: &FileEntry, b: &FileEntry) -> (le: bool)
    ensures
        le == entry_le(a@, b@),
{
    if a.is_dir == b.is_dir {
        name_le(a.name.as_str(), b.name.as_str())
    } else {
        a.is_dir
    }
}

/// Sorts entries into listing order: directories first, then files, each
/// kind ascending by name. Entries that agree in kind and name keep their
/// order.
pub fn sort_entries(entries: Vec<FileEntry>) -> (sorted: Vec<FileEntry>)
    ensures
        entry_texts(sorted@) == sorted_listing(entry_texts(entries@)),
{
    let ghost all = entry_texts(entries@);
    let ghost given = entries@;
    let mut sorted: Vec<FileEntry> = Vec::new();
    for e in it: entries
        invariant
            it.seq() == given,
            all == entry_texts(given),
            entry_texts(sorted@) == sorted_listing(all.take(it.index() as int)),
    {
        let ghost before = entry_texts(sorted@);
        let mut pos: usize = sorted.len();
        assert(before.take(pos as int) == before && before.skip(pos as int) == Seq::<EntryText>::empty());
        assert(insert_entry(before, e@) + Seq::<EntryText>::empty() == insert_entry(before, e@));
        while pos > 0 && !may_precede(&sorted[pos - 1], &e)
            invariant
                pos <= sorted@.len(),
                before == entry_texts(sorted@),
                insert_entry(before, e@) == insert_entry(before.take(pos as int), e@) + before.skip(
                    pos as int,
                ),
            decreases pos,
        {
            proof {
                let head = before.take(pos as int);
                assert(head.last() == sorted@[pos as int - 1]@);
                assert(head.drop_last() == before.take(pos as int - 1));
                assert(insert_entry(head, e@) == insert_entry(head.drop_last(), e@).push(head.last()));
                assert(insert_entry(head.drop_last(), e@).push(head.last()) + before.skip(pos as int)
                    == insert_entry(head.drop_last(), e@) + before.skip(pos as int - 1));
            }
            pos -= 1;
        }
        proof {
            let head = before.take(pos as int);
            if pos > 0 {
                assert(head.last() == sorted@[pos as int - 1]@);
            }
            assert(insert_entry(head, e@) == head.push(e@));
            assert(head.push(e@) + before.skip(pos as int) == before.insert(pos as int, e@));
            assert(entry_texts(sorted@.insert(pos as int, e)) == before.insert(pos as int, e@));
            let done = it.index() as int;
            assert(all.take(done + 1).drop_last() == all.take(done));
            assert(all.take(done + 1).last() == e@);
        }
        sorted.insert(pos, e);
    }
    assert(all.take(given.len() as int) == all);
    sorted
}

/// Lists the shared roots. Roots without a share name are left out; the
/// rest are shown under their share names, in listing order.
pub fn list_roots(roots: &Vec<ProbedRoot>) -> (entries: Vec<FileEntry>)
    ensures
        entry_texts(entries@) == sorted_listing(root_entries(roots@)),
{
    let mut found: Vec<FileEntry> = Vec::new();
    let mut i: usize = 0;
    while i < roots.len()
        invariant
            i <= roots@.len(),
            entry_texts(found@) == root_entries(roots@.take(i as int)),
        decreases roots@.len() - i,
    {
        let r = &roots[i];
        proof {
            assert(roots@.take(i as int + 1).drop_last() == roots@.take(i as int));
            assert(roots@.take(i as int + 1).last() == roots@[i as int]);
        }
        match file_name(r.root.as_str()) {
            Some(name) => {
                let entry = FileEntry {
                    name: name.clone(),
                    path: name,
                    is_dir: r.is_dir,
                    size: if r.is_file {
                        r.size
                    } else {
                        None
                    },
                };
                assert(Some(entry@) == root_entry(roots@[i as int]));
                assert(entry_texts(found@.push(entry)) == entry_texts(found@).push(entry@));
                found.push(entry);
            },
            None => {},
        }
        i += 1;
    }
    assert(roots@.take(roots@.len() as int) == roots@);
    sort_entries(found)
}

/// Lists the children of the directory requested as `request`. Children
/// whose name begins with a dot are left out; each of the others is listed
/// with the request path that leads to it, in listing order.
pub fn list_children(request: &str, children: &Vec<DirChild>) -> (entries: Vec<FileEntry>)
    ensures
        entry_texts(entries@) == sorted_listing(child_entries(request@, children@)),
{
    let mut found: Vec<FileEntry> = Vec::new();
    let mut i: usize = 0;
    while i < children.len()
        invariant
            i <= children@.len(),
            entry_texts(found@) == child_entries(request@, children@.take(i as int)),
        decreases children@.len() - i,
    {
        let c = &children[i];
        proof {
            assert(children@.take(i as int + 1).drop_last() == children@.take(i as int));
            assert(children@.take(i as int + 1).last() == children@[i as int]);
        }
        if !starts_with_dot(c.name.as_str()) {
            let entry = FileEntry {
                name: c.name.clone(),
                path: nest(request, c.name.as_str()),
                is_dir: c.is_dir,
                size: if c.is_dir {
                    None
                } else {
                    c.size
                },
            };
            assert(Some(entry@) == child_entry(request@, children@[i as int]));
            assert(entry_texts(found@.push(entry)) == entry_texts(found@).push(entry@));
            found.push(entry);
        }
        i += 1;
    }
    assert(children@.take(children@.len() as int) == children@);
    sort_entries(found)
}

/// No two of the children bear the same name.
pub open spec fn distinct_children(children: Seq<DirChild>) -> bool {
    forall|i: int, j: int|
        0 <= i < j < children.len() ==> (#[trigger] children[i]).name@ != (#[trigger] children[j]).name@
}

/// What a child adds to the entries of its directory, as a multiset.
spec fn entry_of(request: Seq<char>, c: DirChild) -> vstd::multiset::Multiset<EntryText> {
    match child_entry(request, c) {
        Some(e) => vstd::multiset::Multiset::singleton(e),
        None => vstd::multiset::Multiset::empty(),
    }
}

proof fn lemma_entries_without(request: Seq<char>, children: Seq<DirChild>, k: int)
    requires
        0 <= k < children.len(),
    ensures
        child_entries(request, children).to_multiset() =~= child_entries(
            request,
            children.remove(k),
        ).to_multiset().add(entry_of(request, children[k])),
    decreases children.len(),
{
    broadcast use vstd::seq_lib::to_multiset_build;

    let n = children.len() as int;
    if k == n - 1 {
        assert(children.remove(k) == children.drop_last());
    } else {
        let head = children.drop_last();
        let rest = children.remove(k);
        lemma_entries_without(request, head, k);
        assert(rest.drop_last() == head.remove(k));
        assert(rest.last() == children.last());
    }
}

proof fn lemma_entries_permute(request: Seq<char>, a: Seq<DirChild>, b: Seq<DirChild>)
    requires
        a.to_multiset() == b.to_multiset(),
    ensures
        child_entries(request, a).to_multiset() =~= child_entries(request, b).to_multiset(),
    decreases a.len(),
{
    broadcast use vstd::seq_lib::to_multiset_build;
    broadcast use vstd::seq_lib::to_multiset_len;
    broadcast use vstd::seq_lib::to_multiset_contains;
    broadcast use vstd::seq_lib::to_multiset_remove;

    assert(a.to_multiset().len() == a.len());
    assert(b.to_multiset().len() == b.len());
    if a.len() > 0 {
        let x = a.last();
        assert(a.contains(x));
        assert(b.to_multiset().count(x) > 0);
        assert(b.contains(x));
        let k = choose|k: int| 0 <= k < b.len() && b[k] == x;
        let head = a.drop_last();
        assert(head == a.remove(a.len() - 1));
        assert(head.to_multiset() == a.to_multiset().remove(x));
        assert(b.remove(k).to_multiset() == b.to_multiset().remove(x));
        lemma_entries_permute(request, head, b.remove(k));
        lemma_entries_without(request, b, k);
    } else {
        assert(b.len() == 0);
    }
}

proof fn lemma_entries_named_by_children(request: Seq<char>, children: Seq<DirChild>)
    ensures
        forall|i: int|
            0 <= i < child_entries(request, children).len() ==> exists|k: int|
                0 <= k < children.len() && (#[trigger] children[k]).name@ == (#[trigger] child_entries(
                    request,
                    children,
                )[i]).name,
        distinct_children(children) ==> crate::order::distinct_names(child_entries(request, children)),
    decreases children.len(),
{
    if children.len() > 0 {
        let head = children.drop_last();
        let last = children.last();
        lemma_entries_named_by_children(request, head);
        let before = child_entries(request, head);
        let all = child_entries(request, children);
        assert forall|i: int| 0 <= i < all.len() implies exists|k: int|
            0 <= k < children.len() && (#[trigger] children[k]).name@ == (#[trigger] all[i]).name by {
            if i < before.len() {
                let k = choose|k: int| 0 <= k < head.len() && (#[trigger] head[k]).name@ == before[i].name;
                assert(children[k].name@ == all[i].name);
            } else {
                assert(children[children.len() - 1].name@ == all[i].name);
            }
        }
        if distinct_children(children) {
            assert(distinct_children(head)) by {
                assert forall|i: int, j: int| 0 <= i < j < head.len() implies (#[trigger] head[i]).name@
                    != (#[trigger] head[j]).name@ by {
                    assert(children[i].name@ != children[j].name@);
                }
            }
            assert forall|i: int, j: int| 0 <= i < j < all.len() implies !((#[trigger] all[i]).name == (
            #[trigger] all[j]).name && all[i].is_dir == all[j].is_dir) by {
                if j < before.len() {
                    assert(!(before[i].name == before[j].name && before[i].is_dir == before[j].is_dir));
                } else {
                    let k = choose|k: int| 0 <= k < head.len() && (#[trigger] head[k]).name@ == before[i].name;
                    assert(children[k].name@ != children[children.len() - 1].name@);
                }
            }
        }
    }
}

/// The listing of a directory does not depend on the order in which its
/// children are read: two readings that find the same children, no two of
/// them under one name, give the same listing.
pub proof fn lemma_listing_ignores_read_order(request: Seq<char>, a: Seq<DirChild>, b: Seq<DirChild>)
    requires
        a.to_multiset() == b.to_multiset(),
        distinct_children(a),
    ensures
        sorted_listing(child_entries(request, a)) == sorted_listing(child_entries(request, b)),
{
    lemma_entries_permute(request, a, b);
    lemma_entries_named_by_children(request, a);
    crate::order::lemma_sorted_listing_order_independent(
        child_entries(request, a),
        child_entries(request, b),
    );
}

} // verus!
