//! Character-level helpers shared by the path and listing code.
//!
//! Strings are modelled by their sequence of characters, `Seq<char>`.

use vstd::prelude::*;
use vstd::string::StrSliceExecFns;

verus! {

/// `s` without its leading slashes.
pub open spec fn strip_leading(s: Seq<char>) -> Seq<char>
    decreases s.len(),
{
    if s.len() > 0 && s[0] == '/' {
        strip_leading(s.drop_first())
    } else {
        s
    }
}

/// `s` without its trailing slashes.
pub open spec fn strip_trailing(s: Seq<char>) -> Seq<char>
    decreases s.len(),
{
    if s.len() > 0 && s.last() == '/' {
        strip_trailing(s.drop_last())
    } else {
        s
    }
}

/// `s` with every slash removed from both ends.
pub open spec fn trimmed(s: Seq<char>) -> Seq<char> {
    strip_trailing(strip_leading(s))
}

/// `s[from..to]` is a whole segment of `s`: it is bounded on each side by a
/// slash or by an end of `s`, and holds no slash itself.
pub open spec fn is_segment(s: Seq<char>, from: int, to: int) -> bool {
    &&& 0 <= from <= to <= s.len()
    &&& from == 0 || s[from - 1] == '/'
    &&& to == s.len() || s[to] == '/'
    &&& forall|k: int| from <= k < to ==> s[k] != '/'
}

/// One of the slash-separated segments of `s` is exactly `..`.
pub open spec fn has_parent_segment(s: Seq<char>) -> bool {
    exists|from: int|
        #![trigger s[from]]
        is_segment(s, from, from + 2) && s[from] == '.' && s[from + 1] == '.'
}

/// `s` begins with a dot.
pub open spec fn is_hidden(s: Seq<char>) -> bool {
    s.len() > 0 && s[0] == '.'
}

/// The text of an optional string.
pub open spec fn option_text(s: Option<String>) -> Option<Seq<char>> {
    match s {
        Some(s) => Some(s@),
        None => None,
    }
}

/// The texts of a list of strings, in order.
pub open spec fn texts(items: Seq<String>) -> Seq<Seq<char>> {
    items.map_values(|s: String| s@)
}

/// The characters of `s`, in order.
pub fn to_chars(s: &str) -> (v: Vec<char>)
    ensures
        v@ == s@,
{
    let mut v: Vec<char> = Vec::new();
    for c in it: s.chars()
        invariant
            v@ == it.seq().take(it.index() as int),
            it.seq() == s@,
    {
        v.push(c);
    }
    v
}

/// Removes every slash from both ends of `s`.
pub fn trim_slashes<'a>(s: &'a str) -> (r: &'a str)
    ensures
        r@ == trimmed(s@),
{
    let chars = to_chars(s);
    let n: usize = chars.len();
    let mut start: usize = 0;
    assert(chars@.subrange(0, n as int) == chars@);
    while start < n && chars[start] == '/'
        invariant
            start <= n,
            n == chars@.len(),
            strip_leading(chars@) == strip_leading(chars@.subrange(start as int, n as int)),
        decreases n - start,
    {
        assert(chars@.subrange(start as int, n as int).drop_first() == chars@.subrange(
            start as int + 1,
            n as int,
        ));
        start += 1;
    }
    let mut end: usize = n;
    while end > start && chars[end - 1] == '/'
        invariant
            start <= end <= n,
            n == chars@.len(),
            strip_trailing(chars@.subrange(start as int, n as int)) == strip_trailing(
                chars@.subrange(start as int, end as int),
            ),
        decreases end,
    {
        assert(chars@.subrange(start as int, end as int).drop_last() == chars@.subrange(
            start as int,
            end as int - 1,
        ));
        end -= 1;
    }
    s.substring_char(start, end)
}

/// Tells whether one of the slash-separated segments of `s` is exactly
/// `..`.
pub fn has_dot_dot_segment(s: &str) -> (found: bool)
    ensures
        found == has_parent_segment(s@),
{
    let chars = to_chars(s);
    let n: usize = chars.len();
    if n < 2 {
        return false;
    }
    let mut i: usize = 0;
    while i < n - 1
        invariant
            2 <= n == chars@.len(),
            chars@ == s@,
            i <= n - 1,
            forall|k: int|
                0 <= k < i ==> !(is_segment(chars@, k, k + 2) && #[trigger] chars@[k] == '.'
                    && chars@[k + 1] == '.'),
        decreases n - i,
    {
        if chars[i] == '.' && chars[i + 1] == '.' && (i == 0 || chars[i - 1] == '/') && (i + 2 == n
            || chars[i + 2] == '/') {
            assert(is_segment(chars@, i as int, i as int + 2));
            assert(chars@[i as int] == '.' && chars@[i as int + 1] == '.');
            return true;
        }
        i += 1;
    }
    false
}

/// Tells whether `s` begins with a dot.
pub fn starts_with_dot(s: &str) -> (hidden: bool)
    ensures
        hidden == is_hidden(s@),
{
    let n: usize = s.unicode_len();
    n > 0 && s.get_char(0) == '.'
}

/// Tells whether `a` and `b` hold the same characters.
pub fn same_text(a: &Vec<char>, b: &Vec<char>) -> (same: bool)
    ensures
        same == (a@ == b@),
{
    if a.len() != b.len() {
        return false;
    }
    let n: usize = a.len();
    let mut i: usize = 0;
    while i < n
        invariant
            n == a@.len(),
            n == b@.len(),
            i <= n,
            forall|k: int| 0 <= k < i ==> a@[k] == b@[k],
        decreases n - i,
    {
        if a[i] != b[i] {
            return false;
        }
        i += 1;
    }
    assert(a@ =~= b@);
    true
}

/// A trimmed text neither begins nor ends with a slash.
pub proof fn lemma_trimmed_ends(s: Seq<char>)
    ensures
        trimmed(s).len() <= s.len(),
        trimmed(s).len() > 0 ==> trimmed(s)[0] != '/' && trimmed(s).last() != '/',
{
    lemma_strip_leading(s);
    let t = strip_leading(s);
    lemma_strip_trailing(t);
}

/// Trimming changes nothing in a text that neither begins nor ends with a
/// slash.
pub proof fn lemma_trimmed_is_fixed(s: Seq<char>)
    requires
        s.len() == 0 || (s[0] != '/' && s.last() != '/'),
    ensures
        trimmed(s) == s,
{
}

/// What is left after stripping leading slashes is a tail of `s` that does not
/// begin with a slash.
proof fn lemma_strip_leading(s: Seq<char>)
    ensures
        strip_leading(s).len() <= s.len(),
        strip_leading(s) == s.skip(s.len() - strip_leading(s).len()),
        strip_leading(s).len() > 0 ==> strip_leading(s)[0] != '/',
    decreases s.len(),
{
    if s.len() > 0 && s[0] == '/' {
        lemma_strip_leading(s.drop_first());
        let t = strip_leading(s.drop_first());
        assert(s.drop_first().skip(s.drop_first().len() - t.len()) =~= s.skip(s.len() - t.len()));
    } else {
        assert(s.skip(0) =~= s);
    }
}

/// What is left after stripping trailing slashes is a head of `s` that does not
/// end with a slash.
proof fn lemma_strip_trailing(s: Seq<char>)
    ensures
        strip_trailing(s).len() <= s.len(),
        strip_trailing(s) == s.take(strip_trailing(s).len() as int),
        strip_trailing(s).len() > 0 ==> strip_trailing(s).last() != '/',
    decreases s.len(),
{
    if s.len() > 0 && s.last() == '/' {
        lemma_strip_trailing(s.drop_last());
        let t = strip_trailing(s.drop_last());
        assert(s.drop_last().take(t.len() as int) =~= s.take(t.len() as int));
    } else {
        assert(s.take(s.len() as int) =~= s);
    }
}

} // verus!
