//! The order of edits does not matter: neither to whether their ranges
//! overlap nor to what applying them gives.

use crate::response::edit_command::{
    byte_len, char_index, edit_end, is_boundary, lemma_byte_len_mono, edit_keys, edits_apply, first_overlap, insert_point,
    lemma_insert_point, lemma_keys_sorted_indices, lemma_sort_elems, lemma_sort_len,
    no_overlaps_spec, sort_by_key, splice,
};
use crate::text::{ends_with, starts_with};
use vstd::prelude::*;

verus! {

/// How often `x` occurs in `s`.
spec fn cnt(s: Seq<(usize, usize)>, x: (usize, usize)) -> nat
    decreases s.len(),
{
    if s.len() == 0 {
        0
    } else {
        cnt(s.drop_last(), x) + if s.last() == x {
            1nat
        } else {
            0nat
        }
    }
}

proof fn lemma_cnt_append(a: Seq<(usize, usize)>, b: Seq<(usize, usize)>, x: (usize, usize))
    ensures
        cnt(a + b, x) == cnt(a, x) + cnt(b, x),
    decreases b.len(),
{
    if b.len() == 0 {
        assert(a + b =~= a);
    } else {
        lemma_cnt_append(a, b.drop_last(), x);
        assert((a + b).drop_last() =~= a + b.drop_last());
    }
}

proof fn lemma_cnt_split(t: Seq<(usize, usize)>, k: int, x: (usize, usize))
    requires
        0 <= k <= t.len(),
    ensures
        cnt(t, x) == cnt(t.take(k), x) + cnt(t.skip(k), x),
{
    lemma_cnt_append(t.take(k), t.skip(k), x);
    assert(t.take(k) + t.skip(k) =~= t);
}

/// Sorting keeps how often each pair occurs.
proof fn lemma_sort_cnt(s: Seq<(usize, usize)>, x: (usize, usize))
    ensures
        cnt(sort_by_key(s), x) == cnt(s, x),
    decreases s.len(),
{
    if s.len() > 0 {
        lemma_sort_cnt(s.drop_last(), x);
        let t = sort_by_key(s.drop_last());
        let e = s.last();
        lemma_insert_point(t, e.0, t.len() as int);
        let k = insert_point(t, e.0, t.len() as int);
        lemma_cnt_split(t, k, x);
        lemma_cnt_append(t.take(k).push(e), t.skip(k), x);
        assert(t.take(k).push(e).drop_last() =~= t.take(k));
    }
}

proof fn lemma_cnt_pos(s: Seq<(usize, usize)>, x: (usize, usize))
    ensures
        cnt(s, x) > 0 <==> exists|i: int| 0 <= i < s.len() && s[i] == x,
    decreases s.len(),
{
    if s.len() > 0 {
        let p = s.drop_last();
        lemma_cnt_pos(p, x);
        if exists|i: int| 0 <= i < s.len() && s[i] == x {
            let i = choose|i: int| 0 <= i < s.len() && s[i] == x;
            if i < p.len() {
                assert(p[i] == x);
            }
        }
        if exists|i: int| 0 <= i < p.len() && p[i] == x {
            let i = choose|i: int| 0 <= i < p.len() && p[i] == x;
            assert(s[i] == x);
        }
    }
}

proof fn lemma_cnt_two(s: Seq<(usize, usize)>, x: (usize, usize))
    ensures
        cnt(s, x) >= 2 <==> exists|i: int, j: int| 0 <= i < j < s.len() && s[i] == x && s[j] == x,
    decreases s.len(),
{
    if s.len() > 0 {
        let p = s.drop_last();
        lemma_cnt_two(p, x);
        lemma_cnt_pos(p, x);
        if cnt(s, x) >= 2 {
            if s.last() == x && cnt(p, x) >= 1 {
                let i = choose|i: int| 0 <= i < p.len() && p[i] == x;
                assert(s[i] == x && s[s.len() - 1] == x);
            } else if cnt(p, x) >= 2 {
                let (i, j) = choose|i: int, j: int| 0 <= i < j < p.len() && p[i] == x && p[j] == x;
                assert(s[i] == x && s[j] == x);
            }
        }
        if exists|i: int, j: int| 0 <= i < j < s.len() && s[i] == x && s[j] == x {
            let (i, j) = choose|i: int, j: int| 0 <= i < j < s.len() && s[i] == x && s[j] == x;
            if j == s.len() - 1 {
                assert(p[i] == x);
            } else {
                assert(p[i] == x && p[j] == x);
            }
        }
    }
}

/// Whether the pairs are in order of their first component.
spec fn sorted_by_start(t: Seq<(usize, usize)>) -> bool {
    forall|i: int, j: int| 0 <= i < j < t.len() ==> t[i].0 <= t[j].0
}

proof fn lemma_insert_point_split(t: Seq<(usize, usize)>, key: usize, j: int)
    requires
        0 <= j <= t.len(),
    ensures
        forall|i: int| insert_point(t, key, j) <= i < j ==> t[i].0 > key,
        insert_point(t, key, j) > 0 ==> t[insert_point(t, key, j) - 1].0 <= key,
    decreases j,
{
    if j > 0 && t[j - 1].0 > key {
        lemma_insert_point_split(t, key, j - 1);
    }
}

/// Sorting puts the pairs in order of their first component.
proof fn lemma_sort_sorted(s: Seq<(usize, usize)>)
    ensures
        sorted_by_start(sort_by_key(s)),
    decreases s.len(),
{
    if s.len() > 0 {
        lemma_sort_sorted(s.drop_last());
        let t = sort_by_key(s.drop_last());
        let e = s.last();
        lemma_insert_point(t, e.0, t.len() as int);
        lemma_insert_point_split(t, e.0, t.len() as int);
        let k = insert_point(t, e.0, t.len() as int);
        let u = t.take(k).push(e) + t.skip(k);
        assert(sort_by_key(s) == u);
        assert forall|i: int, j: int| 0 <= i < j < u.len() implies u[i].0 <= u[j].0 by {
            if j < k {
                assert(u[i] == t[i] && u[j] == t[j]);
            } else if j == k {
                assert(u[i] == t[i]);
                assert(t[i].0 <= t[k - 1].0);
            } else if i < k {
                assert(u[i] == t[i] && u[j] == t[j - 1]);
            } else if i == k {
                assert(u[j] == t[j - 1]);
            } else {
                assert(u[i] == t[i - 1] && u[j] == t[j - 1]);
            }
        }
    }
}

/// Whether two half-open ranges are disjoint.
pub open spec fn disjoint(a: (usize, usize), b: (usize, usize)) -> bool {
    !(a.0 < b.1 && b.0 < a.1)
}

/// Whether no two of the ranges (at distinct positions) overlap.
pub open spec fn ranges_disjoint(s: Seq<(usize, usize)>) -> bool {
    forall|i: int, j: int| 0 <= i < j < s.len() ==> disjoint(#[trigger] s[i], #[trigger] s[j])
}

/// Whether every range is non-empty.
pub open spec fn ranges_nonempty(s: Seq<(usize, usize)>) -> bool {
    forall|k: int| 0 <= k < s.len() ==> #[trigger] s[k].0 < s[k].1
}

/// Disjointness told by counts: any two ranges that occur, and a range
/// that occurs twice with itself, are disjoint.
spec fn count_disjoint(s: Seq<(usize, usize)>) -> bool {
    forall|x: (usize, usize), y: (usize, usize)|
        #![trigger cnt(s, x), cnt(s, y)]
        cnt(s, x) > 0 && cnt(s, y) > 0 && (x != y || cnt(s, x) >= 2) ==> disjoint(x, y)
}

proof fn lemma_disjoint_by_counts(s: Seq<(usize, usize)>)
    ensures
        ranges_disjoint(s) <==> count_disjoint(s),
{
    if ranges_disjoint(s) {
        assert forall|x: (usize, usize), y: (usize, usize)|
            #![trigger cnt(s, x), cnt(s, y)]
            cnt(s, x) > 0 && cnt(s, y) > 0 && (x != y || cnt(s, x) >= 2) implies disjoint(x, y) by {
            lemma_cnt_pos(s, x);
            lemma_cnt_pos(s, y);
            lemma_cnt_two(s, x);
            if x != y {
                let i = choose|i: int| 0 <= i < s.len() && s[i] == x;
                let j = choose|j: int| 0 <= j < s.len() && s[j] == y;
                if i < j {
                    assert(disjoint(s[i], s[j]));
                } else {
                    assert(disjoint(s[j], s[i]));
                }
            } else {
                let (i, j) = choose|i: int, j: int| 0 <= i < j < s.len() && s[i] == x && s[j] == x;
                assert(disjoint(s[i], s[j]));
            }
        }
    }
    if count_disjoint(s) {
        assert forall|i: int, j: int| 0 <= i < j < s.len() implies disjoint(
            #[trigger] s[i],
            #[trigger] s[j],
        ) by {
            let x = s[i];
            let y = s[j];
            lemma_cnt_pos(s, x);
            lemma_cnt_pos(s, y);
            lemma_cnt_two(s, x);
            assert(cnt(s, x) > 0 && cnt(s, y) > 0);
            if x == y {
                assert(cnt(s, x) >= 2);
            }
        }
    }
}

/// Counts are what the multiset of a sequence holds.
proof fn lemma_cnt_multiset(s: Seq<(usize, usize)>, x: (usize, usize))
    ensures
        cnt(s, x) == s.to_multiset().count(x),
    decreases s.len(),
{
    broadcast use vstd::seq_lib::group_to_multiset_ensures;
    broadcast use vstd::multiset::group_multiset_axioms;

    if s.len() == 0 {
        vstd::multiset::lemma_multiset_empty_len(s.to_multiset());
    } else {
        lemma_cnt_multiset(s.drop_last(), x);
        assert(s.drop_last().push(s.last()) =~= s);
    }
}

proof fn lemma_no_gap_none(t: Seq<(usize, usize)>, i: int)
    requires
        0 <= i,
    ensures
        first_overlap(t, i) is None <==> forall|m: int|
            i <= m && m + 1 < t.len() ==> #[trigger] t[m + 1].0 >= t[m].1,
    decreases t.len() - i,
{
    if i + 1 < t.len() {
        lemma_no_gap_none(t, i + 1);
    }
}

proof fn lemma_chain(t: Seq<(usize, usize)>, i: int, j: int)
    requires
        ranges_nonempty(t),
        forall|m: int| 0 <= m && m + 1 < t.len() ==> #[trigger] t[m + 1].0 >= t[m].1,
        0 <= i < j < t.len(),
    ensures
        t[j].0 >= t[i].1,
    decreases j - i,
{
    if j > i + 1 {
        lemma_chain(t, i, j - 1);
        let m = j - 1;
        assert(t[m].0 < t[m].1);
        assert(t[m + 1].0 >= t[m].1);
        assert(m + 1 == j);
    } else {
        let m = i;
        assert(t[m + 1].0 >= t[m].1);
        assert(m + 1 == j);
    }
}

/// For ranges in order of start, checking neighbours decides whether any
/// two overlap.
proof fn lemma_sorted_neighbours(t: Seq<(usize, usize)>)
    requires
        ranges_nonempty(t),
        sorted_by_start(t),
    ensures
        first_overlap(t, 0) is None <==> ranges_disjoint(t),
{
    lemma_no_gap_none(t, 0);
    if first_overlap(t, 0) is None {
        assert forall|i: int, j: int| 0 <= i < j < t.len() implies disjoint(
            #[trigger] t[i],
            #[trigger] t[j],
        ) by {
            lemma_chain(t, i, j);
        }
    }
    if ranges_disjoint(t) {
        assert forall|m: int| 0 <= m && m + 1 < t.len() implies #[trigger] t[m + 1].0 >= t[m].1 by {
            assert(disjoint(t[m], t[m + 1]));
            assert(t[m].0 <= t[m + 1].0);
            assert(t[m + 1].0 < t[m + 1].1);
        }
    }
}

/// `validate_no_overlaps` succeeds exactly when no two of the (non-empty,
/// half-open) ranges overlap, in whatever order they come.
pub proof fn lemma_no_overlaps_pairwise(ranges: Seq<(usize, usize)>)
    requires
        ranges_nonempty(ranges),
    ensures
        no_overlaps_spec(ranges) is Ok <==> ranges_disjoint(ranges),
{
    let t = sort_by_key(ranges);
    lemma_sort_len(ranges);
    lemma_sort_elems(ranges);
    lemma_sort_sorted(ranges);
    assert forall|k: int| 0 <= k < t.len() implies #[trigger] t[k].0 < t[k].1 by {
        assert(ranges.contains(t[k]));
    }
    lemma_sorted_neighbours(t);
    lemma_disjoint_by_counts(t);
    lemma_disjoint_by_counts(ranges);
    assert forall|x: (usize, usize)| #[trigger] cnt(t, x) == cnt(ranges, x) by {
        lemma_sort_cnt(ranges, x);
    }
    if count_disjoint(t) {
        assert forall|x: (usize, usize), y: (usize, usize)|
            #![trigger cnt(ranges, x), cnt(ranges, y)]
            cnt(ranges, x) > 0 && cnt(ranges, y) > 0 && (x != y || cnt(ranges, x) >= 2) implies disjoint(x, y) by {
            assert(cnt(t, x) == cnt(ranges, x));
            assert(cnt(t, y) == cnt(ranges, y));
        }
    }
    if count_disjoint(ranges) {
        assert forall|x: (usize, usize), y: (usize, usize)|
            #![trigger cnt(t, x), cnt(t, y)]
            cnt(t, x) > 0 && cnt(t, y) > 0 && (x != y || cnt(t, x) >= 2) implies disjoint(x, y) by {
            assert(cnt(ranges, x) == cnt(t, x));
            assert(cnt(ranges, y) == cnt(t, y));
        }
    }
}

/// Whether `validate_no_overlaps` succeeds does not depend on the order of
/// the ranges.
pub proof fn lemma_no_overlaps_any_order(a: Seq<(usize, usize)>, b: Seq<(usize, usize)>)
    requires
        ranges_nonempty(a),
        a.to_multiset() == b.to_multiset(),
    ensures
        (no_overlaps_spec(a) is Ok) == (no_overlaps_spec(b) is Ok),
{
    broadcast use vstd::seq_lib::group_to_multiset_ensures;

    assert forall|x: (usize, usize)| #[trigger] cnt(a, x) == cnt(b, x) by {
        lemma_cnt_multiset(a, x);
        lemma_cnt_multiset(b, x);
    }
    assert forall|k: int| 0 <= k < b.len() implies #[trigger] b[k].0 < b[k].1 by {
        assert(b.contains(b[k]));
        assert(b.to_multiset().count(b[k]) > 0);
        assert(a.contains(b[k]));
    }
    lemma_no_overlaps_pairwise(a);
    lemma_no_overlaps_pairwise(b);
    lemma_disjoint_by_counts(a);
    lemma_disjoint_by_counts(b);
    if count_disjoint(a) {
        assert forall|x: (usize, usize), y: (usize, usize)|
            #![trigger cnt(b, x), cnt(b, y)]
            cnt(b, x) > 0 && cnt(b, y) > 0 && (x != y || cnt(b, x) >= 2) implies disjoint(x, y) by {
            assert(cnt(a, x) == cnt(b, x));
            assert(cnt(a, y) == cnt(b, y));
        }
    }
    if count_disjoint(b) {
        assert forall|x: (usize, usize), y: (usize, usize)|
            #![trigger cnt(a, x), cnt(a, y)]
            cnt(a, x) > 0 && cnt(a, y) > 0 && (x != y || cnt(a, x) >= 2) implies disjoint(x, y) by {
            assert(cnt(b, x) == cnt(a, x));
            assert(cnt(b, y) == cnt(a, y));
        }
    }
}

/// The edits in the order that `order` takes them.
spec fn applied<'a>(edits: Seq<(usize, &'a str, &'a str)>, order: Seq<(usize, usize)>) -> Seq<
    (usize, &'a str, &'a str),
> {
    Seq::new(order.len(), |j: int| edits[order[j].1 as int])
}

/// `c[from..]` with the edits of `s`, taken in that order, replacing their
/// ranges.
spec fn splice_seq(c: Seq<char>, s: Seq<(usize, &str, &str)>, from: int) -> Seq<char>
    decreases s.len(),
{
    if s.len() == 0 {
        c.subrange(from, c.len() as int)
    } else {
        c.subrange(from, char_index(c, s[0].0 as int)) + s[0].2@ + splice_seq(
            c,
            s.drop_first(),
            char_index(c, edit_end(s[0])),
        )
    }
}

proof fn lemma_splice_seq(
    c: Seq<char>,
    edits: Seq<(usize, &str, &str)>,
    order: Seq<(usize, usize)>,
    from: int,
)
    ensures
        splice(c, edits, order, from) == splice_seq(c, applied(edits, order), from),
    decreases order.len(),
{
    if order.len() > 0 {
        lemma_splice_seq(c, edits, order.drop_first(), char_index(c, edit_end(edits[order[0].1 as int])));
        assert(applied(edits, order.drop_first()) =~= applied(edits, order).drop_first());
    }
}

/// Whether the edits' ranges start strictly in order.
spec fn starts_increase(s: Seq<(usize, &str, &str)>) -> bool {
    forall|i: int, j: int| 0 <= i < j < s.len() ==> #[trigger] s[i].0 < #[trigger] s[j].0
}

/// Two sequences in strictly increasing order of start that hold the same
/// edits are the same sequence.
proof fn lemma_increasing_unique(a: Seq<(usize, &str, &str)>, b: Seq<(usize, &str, &str)>)
    requires
        starts_increase(a),
        starts_increase(b),
        forall|x: (usize, &str, &str)| a.contains(x) <==> b.contains(x),
    ensures
        a == b,
    decreases a.len(),
{
    if a.len() == 0 {
        if b.len() > 0 {
            assert(b.contains(b[0]));
        }
        assert(a =~= b);
    } else if b.len() == 0 {
        assert(a.contains(a[0]));
    } else {
        assert(a.contains(a[0]));
        let k = choose|k: int| 0 <= k < b.len() && b[k] == a[0];
        assert(b.contains(b[0]));
        let m = choose|m: int| 0 <= m < a.len() && a[m] == b[0];
        if k > 0 {
            assert(b[0].0 < b[k].0);
            if m > 0 {
                assert(a[0].0 < a[m].0);
            }
        }
        assert(b[0] == a[0]);
        let a1 = a.drop_first();
        let b1 = b.drop_first();
        assert forall|x: (usize, &str, &str)| a1.contains(x) <==> b1.contains(x) by {
            if a1.contains(x) {
                let i = choose|i: int| 0 <= i < a1.len() && a1[i] == x;
                assert(a[i + 1] == x);
                assert(a[0].0 < a[i + 1].0);
                assert(a.contains(x));
                let j = choose|j: int| 0 <= j < b.len() && b[j] == x;
                if j == 0 {
                    assert(false);
                }
                assert(b1[j - 1] == x);
            }
            if b1.contains(x) {
                let i = choose|i: int| 0 <= i < b1.len() && b1[i] == x;
                assert(b[i + 1] == x);
                assert(b[0].0 < b[i + 1].0);
                assert(b.contains(x));
                let j = choose|j: int| 0 <= j < a.len() && a[j] == x;
                if j == 0 {
                    assert(false);
                }
                assert(a1[j - 1] == x);
            }
        }
        lemma_increasing_unique(a1, b1);
        assert(a =~= seq![a[0]] + a1);
        assert(b =~= seq![b[0]] + b1);
    }
}

/// Every edit's search text is not empty.
pub open spec fn searches_nonempty(edits: Seq<(usize, &str, &str)>) -> bool {
    forall|i: int| 0 <= i < edits.len() ==> byte_len(#[trigger] edits[i].1@) > 0
}

proof fn lemma_applied_chain(s: Seq<(usize, &str, &str)>, i: int, j: int)
    requires
        forall|m: int| 0 <= m && m + 1 < s.len() ==> #[trigger] s[m].0 < s[m + 1].0,
        0 <= i < j < s.len(),
    ensures
        s[i].0 < s[j].0,
    decreases j - i,
{
    if j > i + 1 {
        lemma_applied_chain(s, i, j - 1);
        let m = j - 1;
        assert(s[m].0 < s[m + 1].0);
        assert(m + 1 == j);
    } else {
        let m = i;
        assert(s[m].0 < s[m + 1].0);
        assert(m + 1 == j);
    }
}

/// The edits in the order `apply_edits` takes them start strictly in
/// order and are the given edits.
proof fn lemma_applied_props(c: Seq<char>, a: Seq<(usize, &str, &str)>)
    requires
        edits_apply(c, a),
        a.len() <= usize::MAX,
        searches_nonempty(a),
    ensures
        starts_increase(applied(a, sort_by_key(edit_keys(a)))),
        forall|x: (usize, &str, &str)|
            applied(a, sort_by_key(edit_keys(a))).contains(x) <==> a.contains(x),
{
    let keys = edit_keys(a);
    let order = sort_by_key(keys);
    let s = applied(a, order);
    lemma_sort_len(keys);
    lemma_keys_sorted_indices(a);
    assert forall|m: int| 0 <= m && m + 1 < s.len() implies #[trigger] s[m].0 < s[m + 1].0 by {
        assert(edit_end(a[order[m].1 as int]) <= order[m + 1].0);
        assert(byte_len(a[order[m].1 as int].1@) > 0);
    }
    assert forall|i: int, j: int| 0 <= i < j < s.len() implies #[trigger] s[i].0 < #[trigger] s[j].0 by {
        lemma_applied_chain(s, i, j);
    }
    assert forall|x: (usize, &str, &str)| s.contains(x) <==> a.contains(x) by {
        if s.contains(x) {
            let j = choose|j: int| 0 <= j < s.len() && s[j] == x;
            assert(a[order[j].1 as int] == x);
        }
        if a.contains(x) {
            let i = choose|i: int| 0 <= i < a.len() && a[i] == x;
            let key = keys[i];
            lemma_cnt_pos(keys, key);
            lemma_sort_cnt(keys, key);
            lemma_cnt_pos(order, key);
            let j = choose|j: int| 0 <= j < order.len() && order[j] == key;
            assert(s[j] == a[key.1 as int]);
            assert(key.1 == i as usize);
        }
    }
}

/// `apply_edits` gives the same text for every order of the same edits
/// that it accepts, when no search text is empty.
pub proof fn lemma_apply_edits_any_order(
    c: Seq<char>,
    a: Seq<(usize, &str, &str)>,
    b: Seq<(usize, &str, &str)>,
)
    requires
        edits_apply(c, a),
        edits_apply(c, b),
        a.len() <= usize::MAX,
        searches_nonempty(a),
        a.to_multiset() == b.to_multiset(),
    ensures
        splice(c, a, sort_by_key(edit_keys(a)), 0) == splice(c, b, sort_by_key(edit_keys(b)), 0),
{
    broadcast use vstd::seq_lib::group_to_multiset_ensures;

    vstd::seq_lib::to_multiset_len(a);
    vstd::seq_lib::to_multiset_len(b);
    assert(b.len() == a.len());
    assert forall|i: int| 0 <= i < b.len() implies byte_len(#[trigger] b[i].1@) > 0 by {
        assert(b.contains(b[i]));
        assert(b.to_multiset().count(b[i]) > 0);
        assert(a.contains(b[i]));
        let k = choose|k: int| 0 <= k < a.len() && a[k] == b[i];
        assert(byte_len(a[k].1@) > 0);
    }
    lemma_applied_props(c, a);
    lemma_applied_props(c, b);
    let sa = applied(a, sort_by_key(edit_keys(a)));
    let sb = applied(b, sort_by_key(edit_keys(b)));
    assert forall|x: (usize, &str, &str)| sa.contains(x) <==> sb.contains(x) by {
        assert(a.contains(x) <==> a.to_multiset().count(x) > 0);
        assert(b.contains(x) <==> b.to_multiset().count(x) > 0);
    }
    lemma_increasing_unique(sa, sb);
    lemma_splice_seq(c, a, sort_by_key(edit_keys(a)), 0);
    lemma_splice_seq(c, b, sort_by_key(edit_keys(b)), 0);
}

/// The furthest end of the edits' ranges.
pub open spec fn max_end(edits: Seq<(usize, &str, &str)>) -> int
    decreases edits.len(),
{
    if edits.len() <= 1 {
        if edits.len() == 1 {
            edit_end(edits[0])
        } else {
            0
        }
    } else {
        let m = max_end(edits.drop_last());
        let e = edit_end(edits.last());
        if e > m {
            e
        } else {
            m
        }
    }
}

/// The nearest start of the edits' ranges.
pub open spec fn min_start(edits: Seq<(usize, &str, &str)>) -> int
    decreases edits.len(),
{
    if edits.len() <= 1 {
        if edits.len() == 1 {
            edits[0].0 as int
        } else {
            0
        }
    } else {
        let m = min_start(edits.drop_last());
        let e = edits.last().0 as int;
        if e < m {
            e
        } else {
            m
        }
    }
}

proof fn lemma_max_end(edits: Seq<(usize, &str, &str)>)
    requires
        edits.len() > 0,
    ensures
        forall|i: int| 0 <= i < edits.len() ==> edit_end(#[trigger] edits[i]) <= max_end(edits),
        exists|i: int| 0 <= i < edits.len() && edit_end(#[trigger] edits[i]) == max_end(edits),
    decreases edits.len(),
{
    if edits.len() > 1 {
        let p = edits.drop_last();
        lemma_max_end(p);
        assert forall|i: int| 0 <= i < edits.len() implies edit_end(#[trigger] edits[i]) <= max_end(edits) by {
            if i < p.len() {
                assert(edits[i] == p[i]);
            }
        }
        if edit_end(edits.last()) <= max_end(p) {
            let i = choose|i: int| 0 <= i < p.len() && edit_end(#[trigger] p[i]) == max_end(p);
            assert(edits[i] == p[i]);
        } else {
            assert(edit_end(edits[edits.len() - 1]) == max_end(edits));
        }
    } else {
        assert(edit_end(edits[0]) == max_end(edits));
    }
}

proof fn lemma_min_start(edits: Seq<(usize, &str, &str)>)
    requires
        edits.len() > 0,
    ensures
        forall|i: int| 0 <= i < edits.len() ==> min_start(edits) <= (#[trigger] edits[i]).0,
        exists|i: int| 0 <= i < edits.len() && (#[trigger] edits[i]).0 == min_start(edits),
    decreases edits.len(),
{
    if edits.len() > 1 {
        let p = edits.drop_last();
        lemma_min_start(p);
        assert forall|i: int| 0 <= i < edits.len() implies min_start(edits) <= (#[trigger] edits[i]).0 by {
            if i < p.len() {
                assert(edits[i] == p[i]);
            }
        }
        if edits.last().0 >= min_start(p) {
            let i = choose|i: int| 0 <= i < p.len() && (#[trigger] p[i]).0 == min_start(p);
            assert(edits[i] == p[i]);
        } else {
            assert(edits[edits.len() - 1].0 == min_start(edits));
        }
    } else {
        assert(edits[0].0 == min_start(edits));
    }
}

/// The edits' splice ends with the text after the last edit taken.
proof fn lemma_splice_tail(
    c: Seq<char>,
    edits: Seq<(usize, &str, &str)>,
    order: Seq<(usize, usize)>,
    from: int,
)
    requires
        order.len() > 0,
    ensures
        ends_with(
            splice(c, edits, order, from),
            c.subrange(char_index(c, edit_end(edits[order.last().1 as int])), c.len() as int),
        ),
    decreases order.len(),
{
    let e = edits[order[0].1 as int];
    let head = c.subrange(from, char_index(c, e.0 as int)) + e.2@;
    let rest = splice(c, edits, order.drop_first(), char_index(c, edit_end(e)));
    let tail = c.subrange(char_index(c, edit_end(edits[order.last().1 as int])), c.len() as int);
    assert(splice(c, edits, order, from) == head + rest);
    if order.len() == 1 {
        assert(order.drop_first() =~= Seq::<(usize, usize)>::empty());
        assert(order.last() == order[0]);
        assert(rest == tail);
        assert(tail.skip(0) =~= tail);
        assert(ends_with(rest, tail));
    } else {
        lemma_splice_tail(c, edits, order.drop_first(), char_index(c, edit_end(e)));
        assert(order.drop_first().last() == order.last());
        assert(ends_with(rest, tail));
    }
    assert(tail.len() <= rest.len());
    assert((head + rest).skip((head + rest).len() - tail.len()) =~= rest.skip(rest.len() - tail.len()));
}

/// Every edit's key is somewhere in the order the edits are taken in.
proof fn lemma_key_in_order(edits: Seq<(usize, &str, &str)>, i: int)
    requires
        0 <= i < edits.len(),
    ensures
        exists|j: int|
            0 <= j < sort_by_key(edit_keys(edits)).len() && #[trigger] sort_by_key(edit_keys(edits))[j]
                == (edits[i].0, i as usize),
{
    let keys = edit_keys(edits);
    let key = keys[i];
    lemma_cnt_pos(keys, key);
    lemma_sort_cnt(keys, key);
    lemma_cnt_pos(sort_by_key(keys), key);
}

/// Applying edits keeps the text around them: with no edits the text comes
/// back as it is; otherwise the result begins with the text before the
/// nearest edit and ends with the text after the furthest one.
pub proof fn lemma_apply_edits_keeps_outside(c: Seq<char>, edits: Seq<(usize, &str, &str)>)
    requires
        edits_apply(c, edits),
        edits.len() <= usize::MAX,
    ensures
        edits.len() == 0 ==> splice(c, edits, sort_by_key(edit_keys(edits)), 0) == c,
        edits.len() > 0 ==> starts_with(
            splice(c, edits, sort_by_key(edit_keys(edits)), 0),
            c.subrange(0, char_index(c, min_start(edits))),
        ),
        edits.len() > 0 ==> ends_with(
            splice(c, edits, sort_by_key(edit_keys(edits)), 0),
            c.subrange(char_index(c, max_end(edits)), c.len() as int),
        ),
{
    let keys = edit_keys(edits);
    let order = sort_by_key(keys);
    lemma_sort_len(keys);
    if edits.len() == 0 {
        assert(order.len() == 0);
        assert(c.subrange(0, c.len() as int) =~= c);
    } else {
        lemma_keys_sorted_indices(edits);
        lemma_sort_sorted(keys);
        lemma_max_end(edits);
        lemma_min_start(edits);
        let n = order.len() as int;
        let last = order[n - 1];
        let idx = last.1 as int;
        // the last edit taken has the furthest end
        assert forall|i: int| 0 <= i < edits.len() implies edit_end(#[trigger] edits[i]) <= edit_end(
            edits[idx],
        ) by {
            lemma_key_in_order(edits, i);
            let j = choose|j: int| 0 <= j < order.len() && #[trigger] order[j] == (edits[i].0, i as usize);
            if j < n - 1 {
                assert(edit_end(edits[order[j].1 as int]) <= order[j + 1].0);
                assert(order[j + 1].0 <= order[n - 1].0);
            }
        }
        let i0 = choose|i: int| 0 <= i < edits.len() && edit_end(#[trigger] edits[i]) == max_end(edits);
        assert(edit_end(edits[i0]) <= edit_end(edits[idx]));
        assert(edit_end(edits[idx]) <= max_end(edits));
        lemma_splice_tail(c, edits, order, 0);
        // the first edit taken has the nearest start
        assert forall|i: int| 0 <= i < edits.len() implies order[0].0 <= (#[trigger] edits[i]).0 by {
            lemma_key_in_order(edits, i);
            let j = choose|j: int| 0 <= j < order.len() && #[trigger] order[j] == (edits[i].0, i as usize);
            if j > 0 {
                assert(order[0].0 <= order[j].0);
            }
        }
        let i1 = choose|i: int| 0 <= i < edits.len() && (#[trigger] edits[i]).0 == min_start(edits);
        assert(edits[order[0].1 as int].0 == order[0].0);
        let e = edits[order[0].1 as int];
        let head = c.subrange(0, char_index(c, e.0 as int));
        let r = splice(c, edits, order, 0);
        assert(r == head + e.2@ + splice(c, edits, order.drop_first(), char_index(c, edit_end(e))));
        assert(r.take(head.len() as int) =~= head);
    }
}

/// How much an edit changes the text's length in characters: its
/// replacement's length less the length of the range it replaces.
pub open spec fn edit_delta(c: Seq<char>, e: (usize, &str, &str)) -> int {
    e.2@.len() - (char_index(c, edit_end(e)) - char_index(c, e.0 as int))
}

/// The changes in length of all the edits, in the order given.
pub open spec fn delta_sum(c: Seq<char>, edits: Seq<(usize, &str, &str)>) -> int
    decreases edits.len(),
{
    if edits.len() == 0 {
        0
    } else {
        delta_sum(c, edits.drop_last()) + edit_delta(c, edits.last())
    }
}

/// The changes in length of the edits that the keys point at.
spec fn key_sum(c: Seq<char>, edits: Seq<(usize, &str, &str)>, ks: Seq<(usize, usize)>) -> int
    decreases ks.len(),
{
    if ks.len() == 0 {
        0
    } else {
        key_sum(c, edits, ks.drop_last()) + edit_delta(c, edits[ks.last().1 as int])
    }
}

proof fn lemma_key_sum_append(
    c: Seq<char>,
    edits: Seq<(usize, &str, &str)>,
    a: Seq<(usize, usize)>,
    b: Seq<(usize, usize)>,
)
    ensures
        key_sum(c, edits, a + b) == key_sum(c, edits, a) + key_sum(c, edits, b),
    decreases b.len(),
{
    if b.len() == 0 {
        assert(a + b =~= a);
    } else {
        lemma_key_sum_append(c, edits, a, b.drop_last());
        assert((a + b).drop_last() =~= a + b.drop_last());
    }
}

proof fn lemma_key_sum_first(c: Seq<char>, edits: Seq<(usize, &str, &str)>, ks: Seq<(usize, usize)>)
    requires
        ks.len() > 0,
    ensures
        key_sum(c, edits, ks) == edit_delta(c, edits[ks[0].1 as int]) + key_sum(c, edits, ks.drop_first()),
{
    let one = seq![ks[0]];
    lemma_key_sum_append(c, edits, one, ks.drop_first());
    assert(one + ks.drop_first() =~= ks);
    assert(one.drop_last() =~= Seq::<(usize, usize)>::empty());
    assert(one.last() == ks[0]);
    assert(key_sum(c, edits, one.drop_last()) == 0);
    assert(key_sum(c, edits, one) == edit_delta(c, edits[ks[0].1 as int]));
}

/// Sums over keys with the same counts agree.
proof fn lemma_key_sum_perm(
    c: Seq<char>,
    edits: Seq<(usize, &str, &str)>,
    a: Seq<(usize, usize)>,
    b: Seq<(usize, usize)>,
)
    requires
        forall|x: (usize, usize)| #[trigger] cnt(a, x) == cnt(b, x),
    ensures
        key_sum(c, edits, a) == key_sum(c, edits, b),
    decreases a.len(),
{
    if a.len() == 0 {
        if b.len() > 0 {
            lemma_cnt_pos(b, b[0]);
            lemma_cnt_pos(a, b[0]);
            assert(cnt(a, b[0]) == cnt(b, b[0]));
        }
        assert(b =~= Seq::<(usize, usize)>::empty());
    } else {
        let x = a.last();
        let a1 = a.drop_last();
        lemma_cnt_pos(a, x);
        assert(a[a.len() - 1] == x);
        assert(cnt(a, x) == cnt(b, x));
        lemma_cnt_pos(b, x);
        let i = choose|i: int| 0 <= i < b.len() && b[i] == x;
        let b1 = b.take(i) + b.skip(i + 1);
        assert forall|y: (usize, usize)| #[trigger] cnt(a1, y) == cnt(b1, y) by {
            lemma_cnt_append(b.take(i), b.skip(i + 1), y);
            lemma_cnt_split(b, i, y);
            let r = b.skip(i);
            assert(r.drop_first() =~= b.skip(i + 1));
            let one = seq![x];
            lemma_cnt_append(one, b.skip(i + 1), y);
            assert(one + b.skip(i + 1) =~= r);
            assert(one.drop_last() =~= Seq::<(usize, usize)>::empty());
            assert(one.last() == x);
            assert(cnt(one.drop_last(), y) == 0);
            assert(cnt(one, y) == if x == y { 1nat } else { 0nat });
            assert(a.drop_last() == a1);
            assert(cnt(a, y) == cnt(a1, y) + if a.last() == y { 1nat } else { 0nat });
            assert(cnt(a, y) == cnt(b, y));
        }
        lemma_key_sum_perm(c, edits, a1, b1);
        lemma_key_sum_append(c, edits, b.take(i), b.skip(i + 1));
        lemma_key_sum_append(c, edits, b.take(i), b.skip(i));
        assert(b.take(i) + b.skip(i) =~= b);
        lemma_key_sum_first(c, edits, b.skip(i));
        assert(b.skip(i).drop_first() =~= b.skip(i + 1));
    }
}

proof fn lemma_delta_keys(c: Seq<char>, edits: Seq<(usize, &str, &str)>, k: int)
    requires
        0 <= k <= edits.len(),
        edits.len() <= usize::MAX,
    ensures
        key_sum(c, edits, edit_keys(edits).take(k)) == delta_sum(c, edits.take(k)),
    decreases k,
{
    if k > 0 {
        lemma_delta_keys(c, edits, k - 1);
        assert(edit_keys(edits).take(k).drop_last() =~= edit_keys(edits).take(k - 1));
        assert(edits.take(k).drop_last() =~= edits.take(k - 1));
    } else {
        assert(edit_keys(edits).take(0) =~= Seq::<(usize, usize)>::empty());
        assert(edits.take(0).len() == 0);
    }
}

/// Character indices of boundaries follow byte offsets.
proof fn lemma_char_index_mono(c: Seq<char>, x: int, y: int)
    requires
        is_boundary(c, x),
        is_boundary(c, y),
        x <= y,
    ensures
        0 <= char_index(c, x) <= char_index(c, y) <= c.len(),
{
    let i = char_index(c, x);
    let j = char_index(c, y);
    if i > j {
        lemma_byte_len_mono(c, j, i);
    }
}

proof fn lemma_char_index_range(c: Seq<char>, x: int)
    requires
        is_boundary(c, x),
    ensures
        0 <= char_index(c, x) <= c.len(),
{
}

/// The length of a splice: the text's length from `from` on, changed by
/// each edit taken.
proof fn lemma_splice_len(
    c: Seq<char>,
    edits: Seq<(usize, &str, &str)>,
    order: Seq<(usize, usize)>,
    from: int,
)
    requires
        0 <= from <= c.len(),
        forall|j: int|
            0 <= j < order.len() ==> is_boundary(c, edits[#[trigger] order[j].1 as int].0 as int)
                && is_boundary(c, edit_end(edits[order[j].1 as int])),
        order.len() > 0 ==> from <= char_index(c, edits[order[0].1 as int].0 as int),
        forall|j: int|
            0 <= j < order.len() - 1 ==> edit_end(edits[#[trigger] order[j].1 as int]) <= edits[order[j
                + 1].1 as int].0,
    ensures
        splice(c, edits, order, from).len() == c.len() - from + key_sum(c, edits, order),
    decreases order.len(),
{
    if order.len() == 0 {
    } else {
        let e = edits[order[0].1 as int];
        assert(is_boundary(c, e.0 as int) && is_boundary(c, edit_end(e)));
        lemma_char_index_mono(c, e.0 as int, edit_end(e));
        let f = char_index(c, edit_end(e));
        let rest = order.drop_first();
        assert forall|j: int| 0 <= j < rest.len() implies is_boundary(
            c,
            edits[#[trigger] rest[j].1 as int].0 as int,
        ) && is_boundary(c, edit_end(edits[rest[j].1 as int])) by {
            assert(rest[j] == order[j + 1]);
        }
        assert forall|j: int| 0 <= j < rest.len() - 1 implies edit_end(edits[#[trigger] rest[j].1 as int])
            <= edits[rest[j + 1].1 as int].0 by {
            assert(rest[j] == order[j + 1]);
            assert(rest[j + 1] == order[j + 2]);
        }
        if rest.len() > 0 {
            assert(rest[0] == order[1]);
            let e1 = edits[order[1].1 as int];
            assert(edit_end(e) <= e1.0);
            lemma_char_index_mono(c, edit_end(e), e1.0 as int);
        }
        lemma_splice_len(c, edits, rest, f);
        lemma_key_sum_first(c, edits, order);
    }
}

/// Applying edits changes the text's length by exactly what each edit
/// changes: the replaced ranges go, the replacements come, and all other
/// text stays.
pub proof fn lemma_apply_edits_length(c: Seq<char>, edits: Seq<(usize, &str, &str)>)
    requires
        edits_apply(c, edits),
        edits.len() <= usize::MAX,
    ensures
        splice(c, edits, sort_by_key(edit_keys(edits)), 0).len() == c.len() + delta_sum(c, edits),
{
    let keys = edit_keys(edits);
    let order = sort_by_key(keys);
    lemma_sort_len(keys);
    lemma_keys_sorted_indices(edits);
    assert forall|j: int| 0 <= j < order.len() implies is_boundary(
        c,
        edits[#[trigger] order[j].1 as int].0 as int,
    ) && is_boundary(c, edit_end(edits[order[j].1 as int])) by {
        let k = order[j].1 as int;
        assert(0 <= k < edits.len());
        assert(is_boundary(c, edits[k].0 as int));
    }
    assert forall|j: int| 0 <= j < order.len() - 1 implies edit_end(edits[#[trigger] order[j].1 as int])
        <= edits[order[j + 1].1 as int].0 by {
        assert(order[j + 1].0 == edits[order[j + 1].1 as int].0);
    }
    if order.len() > 0 {
        lemma_char_index_range(c, edits[order[0].1 as int].0 as int);
    }
    lemma_splice_len(c, edits, order, 0);
    assert forall|x: (usize, usize)| #[trigger] cnt(order, x) == cnt(keys, x) by {
        lemma_sort_cnt(keys, x);
    }
    lemma_key_sum_perm(c, edits, order, keys);
    lemma_delta_keys(c, edits, edits.len() as int);
    assert(keys.take(edits.len() as int) =~= keys);
    assert(edits.take(edits.len() as int) =~= edits);
}

} // verus!
