//! Maps a request path onto the shared roots.
//!
//! Every shared root is reachable under its share name, the final component
//! of its path. A request path names a root by that share name and may go on,
//! after a slash, with a remainder that is looked up below the root.

use vstd::prelude::*;
use vstd::string::StrSliceExecFns;
use vstd::string::StringExecFns;
use crate::path::{file_name, final_component, join, joined, nested};
use crate::text::{option_text, same_text, texts, to_chars, trim_slashes, trimmed};

verus! {

/// The request `rel` goes below the root called `name`: it begins with that
/// name and a slash.
pub open spec fn enters(name: Seq<char>, rel: Seq<char>) -> bool {
    (name + seq!['/']).is_prefix_of(rel)
}

/// What follows the share name `name` and its slash in `rel`.
pub open spec fn remainder(name: Seq<char>, rel: Seq<char>) -> Seq<char> {
    rel.skip(name.len() as int + 1)
}

/// What a single root makes of the trimmed request `rel`: the root itself
/// where the request is its share name, a path below the root where the
/// request goes on after the share name and a slash, and nothing where the
/// request does not begin with the share name or the root has none.
pub open spec fn root_answer(root: Seq<char>, rel: Seq<char>) -> Option<Seq<char>> {
    match final_component(root) {
        None => None,
        Some(name) => if rel == name {
            Some(root)
        } else if enters(name, rel) {
            Some(joined(root, remainder(name, rel)))
        } else {
            None
        },
    }
}

/// The answer of the first root that has one for `rel`.
pub open spec fn resolve_among(roots: Seq<Seq<char>>, rel: Seq<char>) -> Option<Seq<char>>
    decreases roots.len(),
{
    if roots.len() == 0 {
        None
    } else {
        match root_answer(roots[0], rel) {
            Some(found) => Some(found),
            None => resolve_among(roots.drop_first(), rel),
        }
    }
}

/// The filesystem path that `relative_path` stands for under `roots`.
pub open spec fn resolution(roots: Seq<Seq<char>>, relative_path: Seq<char>) -> Option<Seq<char>> {
    let rel = trimmed(relative_path);
    if rel.len() == 0 {
        None
    } else {
        resolve_among(roots, rel)
    }
}

/// Tells whether `rel` begins with `name` followed by a slash.
fn goes_below(rel: &Vec<char>, name: &Vec<char>) -> (below: bool)
    ensures
        below == enters(name@, rel@),
{
    let n: usize = name.len();
    if rel.len() <= n {
        return false;
    }
    let mut i: usize = 0;
    while i < n
        invariant
            n == name@.len(),
            n < rel@.len(),
            i <= n,
            forall|k: int| 0 <= k < i ==> rel@[k] == name@[k],
        decreases n - i,
    {
        if rel[i] != name[i] {
            assert((name@ + seq!['/'])[i as int] == name@[i as int]);
            return false;
        }
        i += 1;
    }
    if rel[n] == '/' {
        assert forall|k: int| 0 <= k < (name@ + seq!['/']).len() implies (name@ + seq!['/'])[k]
            == rel@[k] by {}
        true
    } else {
        assert((name@ + seq!['/'])[n as int] == '/');
        false
    }
}

/// Resolves a request path to a filesystem path under one of the shared
/// roots.
///
/// Slashes at either end of `relative_path` are ignored. The roots are tried
/// in order and the first whose share name begins the request wins: the
/// request that is exactly the share name yields the root, and the request
/// that continues after a slash yields the root joined with what follows. A
/// root without a share name matches nothing and is passed over. There is no
/// result for an empty request or for a request that no share name begins.
///
/// Nothing is checked against the filesystem, and the remainder is joined as
/// it stands: a remainder that begins with a slash is an absolute path of its
/// own.
pub fn resolve_path(shared_items: &[String], relative_path: &str) -> (resolved: Option<String>)
    ensures
        option_text(resolved) == resolution(texts(shared_items@), relative_path@),
{
    let rel = trim_slashes(relative_path);
    let rel_chars = to_chars(rel);
    if rel_chars.len() == 0 {
        return None;
    }
    let ghost roots = texts(shared_items@);
    let mut i: usize = 0;
    assert(roots.skip(0) == roots);
    while i < shared_items.len()
        invariant
            i <= shared_items@.len(),
            roots == texts(shared_items@),
            rel_chars@ == rel@,
            rel@ == trimmed(relative_path@),
            rel@.len() > 0,
            resolve_among(roots, rel@) == resolve_among(roots.skip(i as int), rel@),
        decreases shared_items@.len() - i,
    {
        let item = shared_items[i].as_str();
        proof {
            let rest_roots = roots.skip(i as int);
            assert(roots[i as int] == item@);
            assert(rest_roots[0] == item@);
            assert(rest_roots.drop_first() == roots.skip(i as int + 1));
            assert(resolve_among(rest_roots, rel@) == match root_answer(item@, rel@) {
                Some(found) => Some(found),
                None => resolve_among(roots.skip(i as int + 1), rel@),
            });
        }
        match file_name(item) {
            None => {},
            Some(name) => {
                let name_chars = to_chars(name.as_str());
                if same_text(&rel_chars, &name_chars) {
                    return Some(String::from_str(item));
                } else if goes_below(&rel_chars, &name_chars) {
                    assert(name@.len() + 1 <= rel@.len()) by {
                        assert((name@ + seq!['/']).len() == name@.len() + 1);
                    }
                    let name_len: usize = name_chars.len();
                    let rel_len: usize = rel_chars.len();
                    assert(name_len < rel_len);
                    let rest = rel.substring_char(name_len + 1, rel_len);
                    assert(rest@ == remainder(name@, rel@));
                    return Some(join(item, rest));
                }
            },
        }
        i += 1;
    }
    None
}

/// A request that is the share name of a root, with or without slashes around
/// it, resolves to that root, provided no earlier root has an answer of its
/// own.
pub proof fn lemma_share_name_resolves_to_root(
    roots: Seq<Seq<char>>,
    index: int,
    relative_path: Seq<char>,
)
    requires
        0 <= index < roots.len(),
        forall|j: int| 0 <= j < index ==> root_answer(#[trigger] roots[j], trimmed(relative_path)) is None,
        final_component(roots[index]) == Some(trimmed(relative_path)),
    ensures
        resolution(roots, relative_path) == Some(roots[index]),
{
    let rel = trimmed(relative_path);
    crate::path::lemma_final_component(roots[index]);
    lemma_first_answer(roots, index, rel);
}

/// A request made of a root's share name, a slash and a suffix resolves to
/// the root joined with the suffix, provided no earlier root has an answer of
/// its own.
pub proof fn lemma_suffix_resolves_below_root(
    roots: Seq<Seq<char>>,
    index: int,
    relative_path: Seq<char>,
    name: Seq<char>,
    suffix: Seq<char>,
)
    requires
        0 <= index < roots.len(),
        forall|j: int| 0 <= j < index ==> root_answer(#[trigger] roots[j], trimmed(relative_path)) is None,
        final_component(roots[index]) == Some(name),
        trimmed(relative_path) == name + seq!['/'] + suffix,
    ensures
        resolution(roots, relative_path) == Some(joined(roots[index], suffix)),
{
    let rel = trimmed(relative_path);
    assert(rel.len() == name.len() + 1 + suffix.len());
    assert(rel != name);
    assert(enters(name, rel));
    assert(remainder(name, rel) =~= suffix);
    lemma_first_answer(roots, index, rel);
}

/// A request that is no share name, and that no share name followed by a
/// slash begins, resolves to nothing.
pub proof fn lemma_unmatched_resolves_to_nothing(roots: Seq<Seq<char>>, relative_path: Seq<char>)
    requires
        forall|i: int|
            0 <= i < roots.len() ==> (final_component(#[trigger] roots[i]) matches Some(name)
                ==> trimmed(relative_path) != name && !enters(name, trimmed(relative_path))),
    ensures
        resolution(roots, relative_path) is None,
{
    lemma_no_answer(roots, trimmed(relative_path));
}

/// Whatever a request resolves to comes from one of the roots: it is that
/// root, or that root joined with the part of the request after the share
/// name. Unless that part begins with a slash, the result lies below the
/// root: the root's path is a prefix of it.
pub proof fn lemma_resolution_origin(roots: Seq<Seq<char>>, relative_path: Seq<char>) -> (index: int)
    requires
        resolution(roots, relative_path) is Some,
    ensures
        0 <= index < roots.len(),
        final_component(roots[index]) is Some,
        root_answer(roots[index], trimmed(relative_path)) == resolution(roots, relative_path),
        forall|j: int| 0 <= j < index ==> root_answer(#[trigger] roots[j], trimmed(relative_path)) is None,
        ({
            let rest = remainder(final_component(roots[index])->0, trimmed(relative_path));
            rest.len() == 0 || rest[0] != '/'
        }) ==> roots[index].is_prefix_of(resolution(roots, relative_path)->0),
{
    let rel = trimmed(relative_path);
    let index = lemma_origin_among(roots, rel);
    index
}

/// The request path that a listing gives for a child leads to that child:
/// where a request resolves to a directory, the request followed by a slash
/// and the name of a child resolves to the directory joined with that name.
pub proof fn lemma_child_path_resolves(roots: Seq<Seq<char>>, request: Seq<char>, name: Seq<char>)
    requires
        request == trimmed(request),
        resolution(roots, request) is Some,
        name.len() > 0,
        forall|i: int| 0 <= i < name.len() ==> name[i] != '/',
    ensures
        resolution(roots, nested(request, name)) == Some(
            joined(resolution(roots, request)->0, name),
        ),
{
    let longer = nested(request, name);
    crate::text::lemma_trimmed_ends(request);
    assert(longer[0] == request[0]);
    assert(longer.last() == name.last());
    crate::text::lemma_trimmed_is_fixed(longer);
    lemma_child_among(roots, request, name);
}

proof fn lemma_child_among(roots: Seq<Seq<char>>, request: Seq<char>, name: Seq<char>)
    requires
        request.len() > 0,
        request.last() != '/',
        resolve_among(roots, request) is Some,
        name.len() > 0,
        forall|i: int| 0 <= i < name.len() ==> name[i] != '/',
    ensures
        resolve_among(roots, nested(request, name)) == Some(
            joined(resolve_among(roots, request)->0, name),
        ),
    decreases roots.len(),
{
    let longer = nested(request, name);
    let root = roots[0];
    match final_component(root) {
        None => {
            lemma_child_among(roots.drop_first(), request, name);
        },
        Some(share) => {
            crate::path::lemma_final_component(root);
            let prefix = share + seq!['/'];
            if request == share {
                assert(enters(share, longer));
                assert(remainder(share, longer) =~= name);
            } else if enters(share, request) {
                let rest = remainder(share, request);
                assert(enters(share, longer)) by {
                    assert forall|k: int| 0 <= k < prefix.len() implies prefix[k] == longer[k] by {
                        assert(prefix[k] == request[k]);
                    }
                }
                assert(rest.len() > 0) by {
                    if request.len() == prefix.len() {
                        assert(prefix[prefix.len() - 1] == request[prefix.len() - 1]);
                    }
                }
                assert(rest.last() == request.last());
                assert(remainder(share, longer) =~= rest + seq!['/'] + name);
                assert(joined(root, rest + seq!['/'] + name) =~= joined(joined(root, rest), name));
            } else {
                assert(longer != share) by {
                    if longer == share {
                        assert(share[request.len() as int] == '/');
                    }
                }
                assert(!enters(share, longer)) by {
                    if enters(share, longer) {
                        if share.len() < request.len() {
                            assert forall|k: int| 0 <= k < prefix.len() implies prefix[k]
                                == request[k] by {
                                assert(prefix[k] == longer[k]);
                            }
                            assert(enters(share, request));
                        } else if share.len() == request.len() {
                            assert forall|k: int| 0 <= k < share.len() implies share[k] == request[k] by {
                                assert(prefix[k] == longer[k]);
                            }
                            assert(share =~= request);
                        } else {
                            assert(prefix[request.len() as int] == longer[request.len() as int]);
                            assert(share[request.len() as int] == '/');
                        }
                    }
                }
                let tail = roots.drop_first();
                lemma_child_among(tail, request, name);
            }
        },
    }
}

proof fn lemma_first_answer(roots: Seq<Seq<char>>, index: int, rel: Seq<char>)
    requires
        0 <= index < roots.len(),
        forall|j: int| 0 <= j < index ==> root_answer(#[trigger] roots[j], rel) is None,
        root_answer(roots[index], rel) is Some,
    ensures
        resolve_among(roots, rel) == root_answer(roots[index], rel),
    decreases index,
{
    if index > 0 {
        let tail = roots.drop_first();
        assert(root_answer(roots[0], rel) is None);
        assert forall|j: int| 0 <= j < index - 1 implies root_answer(#[trigger] tail[j], rel) is None by {
            assert(tail[j] == roots[j + 1]);
        }
        assert(tail[index - 1] == roots[index]);
        lemma_first_answer(tail, index - 1, rel);
    }
}

proof fn lemma_no_answer(roots: Seq<Seq<char>>, rel: Seq<char>)
    requires
        forall|i: int|
            0 <= i < roots.len() ==> (final_component(#[trigger] roots[i]) matches Some(name) ==> rel
                != name && !enters(name, rel)),
    ensures
        resolve_among(roots, rel) is None,
    decreases roots.len(),
{
    if roots.len() > 0 {
        let tail = roots.drop_first();
        assert forall|i: int| 0 <= i < tail.len() implies (final_component(#[trigger] tail[i]) matches Some(
            name,
        ) ==> rel != name && !enters(name, rel)) by {
            assert(tail[i] == roots[i + 1]);
        }
        lemma_no_answer(tail, rel);
        assert(final_component(roots[0]) matches Some(name) ==> rel != name && !enters(name, rel));
    }
}

proof fn lemma_origin_among(roots: Seq<Seq<char>>, rel: Seq<char>) -> (index: int)
    requires
        resolve_among(roots, rel) is Some,
    ensures
        0 <= index < roots.len(),
        final_component(roots[index]) is Some,
        root_answer(roots[index], rel) == resolve_among(roots, rel),
        forall|j: int| 0 <= j < index ==> root_answer(#[trigger] roots[j], rel) is None,
        ({
            let rest = remainder(final_component(roots[index])->0, rel);
            rest.len() == 0 || rest[0] != '/'
        }) ==> roots[index].is_prefix_of(resolve_among(roots, rel)->0),
    decreases roots.len(),
{
    match root_answer(roots[0], rel) {
        Some(found) => {
            let root = roots[0];
            let name = final_component(root)->0;
            let rest = remainder(name, rel);
            if rel != name && (rest.len() == 0 || rest[0] != '/') {
                assert(root.is_prefix_of(joined(root, rest)));
            }
            0
        },
        None => {
            let tail = roots.drop_first();
            let k = lemma_origin_among(tail, rel);
            assert(tail[k] == roots[k + 1]);
            assert forall|j: int| 0 <= j < k + 1 implies root_answer(#[trigger] roots[j], rel) is None by {
                if j > 0 {
                    assert(tail[j - 1] == roots[j]);
                }
            }
            k + 1
        },
    }
}

} // verus!
