//! Slash-separated filesystem paths, held as text.
//!
//! A path is split into segments at each `/`. Empty segments and `.` segments
//! carry no meaning and are passed over; a path that begins with `/` is
//! absolute.

use vstd::prelude::*;
use vstd::string::StrSliceExecFns;
use vstd::string::StringExecFns;
use crate::text::{option_text, to_chars};

verus! {

/// Where the last segment of `s` begins: the position after the last slash,
/// or 0 when `s` holds none.
pub open spec fn segment_start(s: Seq<char>) -> int
    decreases s.len(),
{
    if s.len() == 0 || s.last() == '/' {
        s.len() as int
    } else {
        segment_start(s.drop_last())
    }
}

/// The final component of the path `s`: its last segment that is neither
/// empty nor `.`. There is none when no such segment exists or when it is
/// `..`.
pub open spec fn final_component(s: Seq<char>) -> Option<Seq<char>>
    decreases s.len(),
{
    let k = segment_start(s);
    let segment = s.skip(k);
    if segment.len() == 0 || segment == seq!['.'] {
        if 0 < k <= s.len() {
            final_component(s.take(k - 1))
        } else {
            None
        }
    } else if segment == seq!['.', '.'] {
        None
    } else {
        Some(segment)
    }
}

/// The path `base` extended by `rest`. An absolute `rest` stands for itself;
/// otherwise `rest` is appended, after a slash unless `base` is empty or ends
/// with one already.
pub open spec fn joined(base: Seq<char>, rest: Seq<char>) -> Seq<char> {
    if rest.len() > 0 && rest[0] == '/' {
        rest
    } else if base.len() > 0 && base.last() != '/' {
        base + seq!['/'] + rest
    } else {
        base + rest
    }
}

/// `name` placed under the archive or request prefix `prefix`: the two joined
/// by a slash.
pub open spec fn nested(prefix: Seq<char>, name: Seq<char>) -> Seq<char> {
    prefix + seq!['/'] + name
}

/// The last segment starts inside `s`, after a slash or at the very start,
/// and runs to the end without a slash.
pub proof fn lemma_segment_start(s: Seq<char>)
    ensures
        0 <= segment_start(s) <= s.len(),
        segment_start(s) == 0 || s[segment_start(s) - 1] == '/',
        forall|i: int| segment_start(s) <= i < s.len() ==> s[i] != '/',
    decreases s.len(),
{
    if s.len() == 0 || s.last() == '/' {
    } else {
        let head = s.drop_last();
        lemma_segment_start(head);
        assert forall|i: int| segment_start(s) <= i < s.len() implies s[i] != '/' by {
            if i < head.len() {
                assert(head[i] == s[i]);
            }
        }
    }
}

/// A final component is never empty, never `.` or `..`, and holds no slash.
pub proof fn lemma_final_component(s: Seq<char>)
    ensures
        final_component(s) matches Some(name) ==> {
            &&& name.len() > 0
            &&& name != seq!['.']
            &&& name != seq!['.', '.']
            &&& forall|i: int| 0 <= i < name.len() ==> name[i] != '/'
        },
    decreases s.len(),
{
    let k = segment_start(s);
    lemma_segment_start(s);
    let segment = s.skip(k);
    if segment.len() == 0 || segment == seq!['.'] {
        if 0 < k <= s.len() {
            lemma_final_component(s.take(k - 1));
        }
    }
}

/// The final component of `path`, as [`final_component`] defines it.
pub fn file_name(path: &str) -> (name: Option<String>)
    ensures
        option_text(name) == final_component(path@),
{
    let chars = to_chars(path);
    let mut end: usize = chars.len();
    assert(chars@.take(end as int) == chars@);
    loop
        invariant
            chars@ == path@,
            end <= chars@.len(),
            final_component(path@) == final_component(chars@.take(end as int)),
        decreases end,
    {
        let ghost head = chars@.take(end as int);
        let mut k: usize = end;
        while k > 0 && chars[k - 1] != '/'
            invariant
                k <= end <= chars@.len(),
                head == chars@.take(end as int),
                segment_start(head) == segment_start(chars@.take(k as int)),
            decreases k,
        {
            assert(chars@.take(k as int).drop_last() == chars@.take(k as int - 1));
            k -= 1;
        }
        assert(segment_start(head) == k);
        assert(head.skip(k as int) == chars@.subrange(k as int, end as int));
        let len: usize = end - k;
        if len == 0 || (len == 1 && chars[k] == '.') {
            assert(len == 1 ==> head.skip(k as int) =~= seq!['.']);
            if k == 0 {
                return None;
            }
            assert(head.take(k as int - 1) == chars@.take(k as int - 1));
            end = k - 1;
        } else if len == 2 && chars[k] == '.' && chars[k + 1] == '.' {
            assert(head.skip(k as int) =~= seq!['.', '.']);
            return None;
        } else {
            assert(head.skip(k as int) != seq!['.']) by {
                if head.skip(k as int) == seq!['.'] {
                    assert(head.skip(k as int).len() == 1);
                    assert(head.skip(k as int)[0] == '.');
                }
            }
            assert(head.skip(k as int) != seq!['.', '.']) by {
                if head.skip(k as int) == seq!['.', '.'] {
                    assert(head.skip(k as int).len() == 2);
                    assert(head.skip(k as int)[0] == '.');
                    assert(head.skip(k as int)[1] == '.');
                }
            }
            let name = path.substring_char(k, end);
            return Some(String::from_str(name));
        }
    }
}

/// Extends the path `base` by `rest`, as [`joined`] defines it.
pub fn join(base: &str, rest: &str) -> (path: String)
    ensures
        path@ == joined(base@, rest@),
{
    let base_len: usize = base.unicode_len();
    let rest_len: usize = rest.unicode_len();
    if rest_len > 0 && rest.get_char(0) == '/' {
        String::from_str(rest)
    } else if base_len > 0 && base.get_char(base_len - 1) != '/' {
        proof {
            reveal_strlit("/");
            assert("/"@ =~= seq!['/']);
        }
        String::from_str(base).concat("/").concat(rest)
    } else {
        String::from_str(base).concat(rest)
    }
}

/// Places `name` under `prefix`, with a slash between the two.
pub fn nest(prefix: &str, name: &str) -> (path: String)
    ensures
        path@ == nested(prefix@, name@),
{
    proof {
        reveal_strlit("/");
        assert("/"@ =~= seq!['/']);
    }
    String::from_str(prefix).concat("/").concat(name)
}

} // verus!
