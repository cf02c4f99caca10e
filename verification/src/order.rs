//! The order in which a listing presents its entries: directories before
//! files, and within each kind ascending by name.

use vstd::prelude::*;

verus! {

/// What a listing shows of one entry, as plain text and values.
pub ghost struct EntryText {
    pub name: Seq<char>,
    pub path: Seq<char>,
    pub is_dir: bool,
    pub size: Option<u64>,
}

/// `a` is at most `b` in the lexicographic order by code point: at the first
/// position where the two differ `a` holds the smaller character, or `a`
/// ends there.
pub open spec fn text_le(a: Seq<char>, b: Seq<char>) -> bool
    decreases a.len(),
{
    if a.len() == 0 {
        true
    } else if b.len() == 0 {
        false
    } else if a[0] != b[0] {
        (a[0] as int) < (b[0] as int)
    } else {
        text_le(a.drop_first(), b.drop_first())
    }
}

/// `a` may stand before `b` in a listing.
pub open spec fn entry_le(a: EntryText, b: EntryText) -> bool {
    if a.is_dir == b.is_dir {
        text_le(a.name, b.name)
    } else {
        a.is_dir
    }
}

/// Every entry of `s` may stand before all that follow it.
pub open spec fn ordered(s: Seq<EntryText>) -> bool {
    forall|i: int, j: int| 0 <= i < j < s.len() ==> entry_le(#[trigger] s[i], #[trigger] s[j])
}

/// No two entries of `s` agree in both kind and name.
pub open spec fn distinct_names(s: Seq<EntryText>) -> bool {
    forall|i: int, j: int|
        0 <= i < j < s.len() ==> !((#[trigger] s[i]).name == (#[trigger] s[j]).name && s[i].is_dir
            == s[j].is_dir)
}

/// The ordered sequence `sorted` with `e` put in behind every entry that may
/// stand before it.
pub open spec fn insert_entry(sorted: Seq<EntryText>, e: EntryText) -> Seq<EntryText>
    decreases sorted.len(),
{
    if sorted.len() == 0 || entry_le(sorted.last(), e) {
        sorted.push(e)
    } else {
        insert_entry(sorted.drop_last(), e).push(sorted.last())
    }
}

/// The entries of `s` in listing order. Entries that agree in kind and name
/// keep the order they had in `s`.
pub open spec fn sorted_listing(s: Seq<EntryText>) -> Seq<EntryText>
    decreases s.len(),
{
    if s.len() == 0 {
        s
    } else {
        insert_entry(sorted_listing(s.drop_last()), s.last())
    }
}

/// Of any two texts one is at most the other.
pub proof fn lemma_text_le_total(a: Seq<char>, b: Seq<char>)
    ensures
        text_le(a, b) || text_le(b, a),
    decreases a.len(),
{
    if a.len() > 0 && b.len() > 0 && a[0] == b[0] {
        lemma_text_le_total(a.drop_first(), b.drop_first());
    }
}

/// Two texts that are each at most the other are the same text.
pub proof fn lemma_text_le_antisymmetric(a: Seq<char>, b: Seq<char>)
    requires
        text_le(a, b),
        text_le(b, a),
    ensures
        a == b,
    decreases a.len(),
{
    if a.len() == 0 || b.len() == 0 {
        assert(a =~= b);
    } else {
        assert(a[0] == b[0]);
        lemma_text_le_antisymmetric(a.drop_first(), b.drop_first());
        assert(a =~= seq![a[0]] + a.drop_first());
        assert(b =~= seq![b[0]] + b.drop_first());
    }
}

/// The order of texts is transitive.
pub proof fn lemma_text_le_transitive(a: Seq<char>, b: Seq<char>, c: Seq<char>)
    requires
        text_le(a, b),
        text_le(b, c),
    ensures
        text_le(a, c),
    decreases a.len(),
{
    if a.len() > 0 && b.len() > 0 && c.len() > 0 && a[0] == b[0] && b[0] == c[0] {
        lemma_text_le_transitive(a.drop_first(), b.drop_first(), c.drop_first());
    }
}

/// Of any two entries one may stand before the other.
pub proof fn lemma_entry_le_total(a: EntryText, b: EntryText)
    ensures
        entry_le(a, b) || entry_le(b, a),
{
    lemma_text_le_total(a.name, b.name);
}

/// The listing order is transitive.
pub proof fn lemma_entry_le_transitive(a: EntryText, b: EntryText, c: EntryText)
    requires
        entry_le(a, b),
        entry_le(b, c),
    ensures
        entry_le(a, c),
{
    if a.is_dir == b.is_dir && b.is_dir == c.is_dir {
        lemma_text_le_transitive(a.name, b.name, c.name);
    }
}

/// Putting an entry in adds that entry and changes nothing else.
pub proof fn lemma_insert_entry_permutes(sorted: Seq<EntryText>, e: EntryText)
    ensures
        insert_entry(sorted, e).len() == sorted.len() + 1,
        insert_entry(sorted, e).to_multiset() == sorted.to_multiset().insert(e),
    decreases sorted.len(),
{
    broadcast use vstd::seq_lib::to_multiset_build;

    if sorted.len() == 0 || entry_le(sorted.last(), e) {
    } else {
        let head = sorted.drop_last();
        lemma_insert_entry_permutes(head, e);
        assert(sorted == head.push(sorted.last()));
        assert(head.to_multiset().insert(e).insert(sorted.last()) == head.to_multiset().insert(
            sorted.last(),
        ).insert(e));
    }
}

/// Putting an entry into an ordered sequence leaves it ordered.
pub proof fn lemma_insert_entry_ordered(sorted: Seq<EntryText>, e: EntryText)
    requires
        ordered(sorted),
    ensures
        ordered(insert_entry(sorted, e)),
    decreases sorted.len(),
{
    let r = insert_entry(sorted, e);
    if sorted.len() == 0 {
    } else if entry_le(sorted.last(), e) {
        assert forall|i: int, j: int| 0 <= i < j < r.len() implies entry_le(
            #[trigger] r[i],
            #[trigger] r[j],
        ) by {
            if j == sorted.len() {
                if i < sorted.len() - 1 {
                    assert(entry_le(sorted[i], sorted[sorted.len() - 1]));
                    lemma_entry_le_transitive(sorted[i], sorted.last(), e);
                }
            } else {
                assert(entry_le(sorted[i], sorted[j]));
            }
        }
    } else {
        let head = sorted.drop_last();
        let last = sorted.last();
        assert(ordered(head)) by {
            assert forall|i: int, j: int| 0 <= i < j < head.len() implies entry_le(
                #[trigger] head[i],
                #[trigger] head[j],
            ) by {
                assert(entry_le(sorted[i], sorted[j]));
            }
        }
        lemma_insert_entry_ordered(head, e);
        lemma_insert_entry_permutes(head, e);
        lemma_entry_le_total(last, e);
        let inner = insert_entry(head, e);
        assert forall|i: int, j: int| 0 <= i < j < r.len() implies entry_le(
            #[trigger] r[i],
            #[trigger] r[j],
        ) by {
            if j == inner.len() {
                broadcast use vstd::seq_lib::to_multiset_contains;

                assert(inner.contains(inner[i]));
                assert(inner.to_multiset().count(inner[i]) > 0);
                if inner[i] == e {
                } else {
                    assert(head.to_multiset().count(inner[i]) > 0);
                    assert(head.contains(inner[i]));
                    let k = choose|k: int| 0 <= k < head.len() && head[k] == inner[i];
                    assert(entry_le(sorted[k], sorted[sorted.len() - 1]));
                }
            } else {
                assert(entry_le(inner[i], inner[j]));
            }
        }
    }
}

/// A sorted listing is ordered: directories come first, and within each kind
/// the names ascend.
pub proof fn lemma_sorted_listing_ordered(s: Seq<EntryText>)
    ensures
        ordered(sorted_listing(s)),
    decreases s.len(),
{
    if s.len() > 0 {
        lemma_sorted_listing_ordered(s.drop_last());
        lemma_insert_entry_ordered(sorted_listing(s.drop_last()), s.last());
    }
}

/// A sorted listing holds exactly the entries it was made from.
pub proof fn lemma_sorted_listing_permutes(s: Seq<EntryText>)
    ensures
        sorted_listing(s).len() == s.len(),
        sorted_listing(s).to_multiset() == s.to_multiset(),
    decreases s.len(),
{
    broadcast use vstd::seq_lib::to_multiset_build;

    if s.len() > 0 {
        lemma_sorted_listing_permutes(s.drop_last());
        lemma_insert_entry_permutes(sorted_listing(s.drop_last()), s.last());
        assert(s == s.drop_last().push(s.last()));
    }
}

/// Sorting leaves an ordered sequence as it is, so sorting twice gives what
/// sorting once gives.
pub proof fn lemma_sorted_listing_idempotent(s: Seq<EntryText>)
    ensures
        ordered(s) ==> sorted_listing(s) == s,
        sorted_listing(sorted_listing(s)) == sorted_listing(s),
{
    lemma_sorted_listing_ordered(s);
    lemma_ordered_is_fixed(s);
    lemma_ordered_is_fixed(sorted_listing(s));
}

proof fn lemma_ordered_is_fixed(s: Seq<EntryText>)
    ensures
        ordered(s) ==> sorted_listing(s) == s,
    decreases s.len(),
{
    if ordered(s) && s.len() > 0 {
        let head = s.drop_last();
        assert(ordered(head)) by {
            assert forall|i: int, j: int| 0 <= i < j < head.len() implies entry_le(
                #[trigger] head[i],
                #[trigger] head[j],
            ) by {
                assert(entry_le(s[i], s[j]));
            }
        }
        lemma_ordered_is_fixed(head);
        if head.len() > 0 {
            assert(entry_le(s[head.len() - 1], s[s.len() - 1]));
        }
        assert(s == head.push(s.last()));
    }
}

/// Two ordered sequences that hold the same entries, no two of which agree in
/// kind and name, are the same sequence.
pub proof fn lemma_ordered_unique(x: Seq<EntryText>, y: Seq<EntryText>)
    requires
        ordered(x),
        ordered(y),
        distinct_names(x),
        x.to_multiset() == y.to_multiset(),
    ensures
        x == y,
    decreases x.len(),
{
    broadcast use vstd::seq_lib::to_multiset_len;
    broadcast use vstd::seq_lib::to_multiset_contains;
    broadcast use vstd::seq_lib::to_multiset_build;

    assert(x.to_multiset().len() == x.len());
    assert(y.to_multiset().len() == y.len());
    if x.len() == 0 {
        assert(x =~= y);
    } else {
        let n = x.len() as int;
        let a = x[n - 1];
        let b = y[n - 1];
        assert(x.contains(a));
        assert(y.contains(b));
        assert(y.to_multiset().count(a) > 0);
        assert(x.to_multiset().count(b) > 0);
        assert(y.contains(a));
        assert(x.contains(b));
        let j = choose|j: int| 0 <= j < y.len() && y[j] == a;
        let i = choose|i: int| 0 <= i < x.len() && x[i] == b;
        if j < n - 1 {
            assert(entry_le(y[j], y[n - 1]));
        }
        if i < n - 1 {
            assert(entry_le(x[i], x[n - 1]));
            assert(entry_le(a, b));
            assert(a.is_dir == b.is_dir);
            lemma_text_le_antisymmetric(a.name, b.name);
            assert(x[i].name == x[n - 1].name && x[i].is_dir == x[n - 1].is_dir);
            assert(false);
        }
        assert(a == b);
        let xh = x.drop_last();
        let yh = y.drop_last();
        assert(x == xh.push(a));
        assert(y == yh.push(a));
        assert(xh.to_multiset() == yh.to_multiset()) by {
            assert(xh.to_multiset().insert(a) == yh.to_multiset().insert(a));
            assert(xh.to_multiset() =~= xh.to_multiset().insert(a).remove(a));
            assert(yh.to_multiset() =~= yh.to_multiset().insert(a).remove(a));
        }
        assert(ordered(xh)) by {
            assert forall|p: int, q: int| 0 <= p < q < xh.len() implies entry_le(
                #[trigger] xh[p],
                #[trigger] xh[q],
            ) by {
                assert(entry_le(x[p], x[q]));
            }
        }
        assert(ordered(yh)) by {
            assert forall|p: int, q: int| 0 <= p < q < yh.len() implies entry_le(
                #[trigger] yh[p],
                #[trigger] yh[q],
            ) by {
                assert(entry_le(y[p], y[q]));
            }
        }
        assert(distinct_names(xh)) by {
            assert forall|p: int, q: int| 0 <= p < q < xh.len() implies !((#[trigger] xh[p]).name
                == (#[trigger] xh[q]).name && xh[p].is_dir == xh[q].is_dir) by {
                assert(!(x[p].name == x[q].name && x[p].is_dir == x[q].is_dir));
            }
        }
        lemma_ordered_unique(xh, yh);
    }
}

/// The sorted listing does not depend on the order in which the entries were
/// found, as long as no two of them agree in kind and name.
pub proof fn lemma_sorted_listing_order_independent(a: Seq<EntryText>, b: Seq<EntryText>)
    requires
        a.to_multiset() == b.to_multiset(),
        distinct_names(a),
    ensures
        sorted_listing(a) == sorted_listing(b),
{
    lemma_sorted_listing_ordered(a);
    lemma_sorted_listing_ordered(b);
    lemma_sorted_listing_permutes(a);
    lemma_sorted_listing_permutes(b);
    lemma_distinct_names_by_content(a, sorted_listing(a));
    lemma_ordered_unique(sorted_listing(a), sorted_listing(b));
}

proof fn lemma_distinct_names_by_content(a: Seq<EntryText>, b: Seq<EntryText>)
    requires
        a.to_multiset() == b.to_multiset(),
        distinct_names(a),
    ensures
        distinct_names(b),
    decreases a.len(),
{
    broadcast use vstd::seq_lib::to_multiset_len;
    broadcast use vstd::seq_lib::to_multiset_contains;

    assert forall|p: int, q: int| 0 <= p < q < b.len() implies !((#[trigger] b[p]).name == (
    #[trigger] b[q]).name && b[p].is_dir == b[q].is_dir) by {
        if b[p].name == b[q].name && b[p].is_dir == b[q].is_dir {
            assert(b.contains(b[p]));
            assert(b.contains(b[q]));
            assert(a.to_multiset().count(b[p]) > 0);
            assert(a.to_multiset().count(b[q]) > 0);
            assert(a.contains(b[p]));
            assert(a.contains(b[q]));
            let i = choose|i: int| 0 <= i < a.len() && a[i] == b[p];
            let j = choose|j: int| 0 <= j < a.len() && a[j] == b[q];
            if i < j {
                assert(!(a[i].name == a[j].name && a[i].is_dir == a[j].is_dir));
            } else if j < i {
                assert(!(a[j].name == a[i].name && a[j].is_dir == a[i].is_dir));
            } else {
                assert(b[p] == b[q]);
                lemma_count_at_most_one(a, b[p]);
                lemma_repeated_counts_twice(b, p, q);
            }
        }
    }
}

proof fn lemma_repeated_counts_twice(b: Seq<EntryText>, p: int, q: int)
    requires
        0 <= p < q < b.len(),
        b[p] == b[q],
    ensures
        b.to_multiset().count(b[p]) >= 2,
{
    broadcast use vstd::seq_lib::to_multiset_build;
    broadcast use vstd::seq_lib::to_multiset_remove;

    broadcast use vstd::seq_lib::to_multiset_contains;

    let e = b[p];
    let without_q = b.remove(q);
    assert(without_q.to_multiset() == b.to_multiset().remove(e));
    assert(without_q[p] == e);
    assert(b.contains(e));
    assert(without_q.contains(e));
    assert(b.to_multiset().count(e) > 0);
    assert(without_q.to_multiset().count(e) > 0);
}

proof fn lemma_count_at_most_one(a: Seq<EntryText>, e: EntryText)
    requires
        distinct_names(a),
    ensures
        a.to_multiset().count(e) <= 1,
    decreases a.len(),
{
    broadcast use vstd::seq_lib::to_multiset_build;
    broadcast use vstd::seq_lib::to_multiset_contains;

    if a.len() == 0 {
        assert(a.to_multiset().len() == 0) by {
            broadcast use vstd::seq_lib::to_multiset_len;

        }
        if a.to_multiset().count(e) > 0 {
            assert(a.contains(e));
        }
    } else {
        let head = a.drop_last();
        assert(a == head.push(a.last()));
        assert(distinct_names(head)) by {
            assert forall|p: int, q: int| 0 <= p < q < head.len() implies !((#[trigger] head[p]).name
                == (#[trigger] head[q]).name && head[p].is_dir == head[q].is_dir) by {
                assert(!(a[p].name == a[q].name && a[p].is_dir == a[q].is_dir));
            }
        }
        lemma_count_at_most_one(head, e);
        if a.last() == e && head.to_multiset().count(e) > 0 {
            assert(head.contains(e));
            let k = choose|k: int| 0 <= k < head.len() && head[k] == e;
            assert(!(a[k].name == a[a.len() - 1].name && a[k].is_dir == a[a.len() - 1].is_dir));
        }
    }
}

} // verus!
