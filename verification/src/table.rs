//! Keyed rows kept in key order.
//!
//! A list of `(key, value)` rows whose keys increase strictly stands for a
//! map: every key occurs at most once, and the list is the only one in that
//! order for the map it stands for. Both halves of the configuration state
//! are kept this way.

use vstd::prelude::*;

use crate::text::{
    key_less, key_lt, lemma_key_lt_asymmetric, lemma_key_lt_connected, lemma_key_lt_irreflexive,
    lemma_key_lt_transitive,
};

verus! {

/// Rows as plain values: each key with what its value stands for.
pub type Rows<X> = Seq<(Seq<char>, X)>;

/// The rows of a vector, each key and value taken by its view.
pub open spec fn rows_view<V: View>(v: Seq<(String, V)>) -> Rows<V::V> {
    Seq::new(v.len(), |i: int| (v[i].0@, v[i].1@))
}

/// The keys increase strictly from row to row.
pub open spec fn sorted<X>(s: Rows<X>) -> bool {
    forall|i: int, j: int| 0 <= i < j < s.len() ==> key_lt(#[trigger] s[i].0, #[trigger] s[j].0)
}

/// The value that the rows give to `key`: that of the last row with this
/// key, if there is one.
pub open spec fn get<X>(s: Rows<X>, key: Seq<char>) -> Option<X>
    decreases s.len(),
{
    if s.len() == 0 {
        None
    } else if s.last().0 == key {
        Some(s.last().1)
    } else {
        get(s.drop_last(), key)
    }
}

/// Whether some row has this key.
pub open spec fn has_key<X>(s: Rows<X>, key: Seq<char>) -> bool {
    exists|i: int| 0 <= i < s.len() && (#[trigger] s[i]).0 == key
}

/// A key has a value exactly when some row has it.
pub proof fn lemma_get_has_key<X>(s: Rows<X>, key: Seq<char>)
    ensures
        get(s, key) is Some <==> has_key(s, key),
    decreases s.len(),
{
    if s.len() == 0 {
    } else if s.last().0 == key {
        assert(s[s.len() - 1].0 == key);
    } else {
        let t = s.drop_last();
        lemma_get_has_key(t, key);
        if has_key(t, key) {
            let i = choose|i: int| 0 <= i < t.len() && (#[trigger] t[i]).0 == key;
            assert(s[i].0 == key);
        }
        if has_key(s, key) {
            let i = choose|i: int| 0 <= i < s.len() && (#[trigger] s[i]).0 == key;
            assert(t[i].0 == key);
        }
    }
}

/// In sorted rows no two rows share a key.
pub proof fn lemma_sorted_distinct<X>(s: Rows<X>, i: int, j: int)
    requires
        sorted(s),
        0 <= i < s.len(),
        0 <= j < s.len(),
        s[i].0 == s[j].0,
    ensures
        i == j,
{
    if i < j {
        assert(key_lt(s[i].0, s[j].0));
        lemma_key_lt_irreflexive(s[i].0);
    } else if j < i {
        assert(key_lt(s[j].0, s[i].0));
        lemma_key_lt_irreflexive(s[i].0);
    }
}

/// In sorted rows a key has the value of the one row that carries it.
pub proof fn lemma_get_at<X>(s: Rows<X>, i: int)
    requires
        sorted(s),
        0 <= i < s.len(),
    ensures
        get(s, s[i].0) == Some(s[i].1),
    decreases s.len(),
{
    if i == s.len() - 1 {
    } else {
        lemma_sorted_distinct_keys(s, i, s.len() - 1);
        let t = s.drop_last();
        assert(sorted(t)) by {
            assert forall|a: int, b: int| 0 <= a < b < t.len() implies key_lt(
                #[trigger] t[a].0,
                #[trigger] t[b].0,
            ) by {
                assert(key_lt(s[a].0, s[b].0));
            }
        }
        lemma_get_at(t, i);
    }
}

/// In sorted rows two different rows have different keys.
pub proof fn lemma_sorted_distinct_keys<X>(s: Rows<X>, i: int, j: int)
    requires
        sorted(s),
        0 <= i < s.len(),
        0 <= j < s.len(),
        i != j,
    ensures
        s[i].0 != s[j].0,
{
    if s[i].0 == s[j].0 {
        lemma_sorted_distinct(s, i, j);
    }
}

/// Dropping the first row of sorted rows leaves sorted rows that give every
/// other key the value it had.
pub proof fn lemma_sorted_tail<X>(s: Rows<X>)
    requires
        sorted(s),
        s.len() > 0,
    ensures
        sorted(s.drop_first()),
        forall|k: Seq<char>| k != s[0].0 ==> get(s.drop_first(), k) == get(s, k),
        get(s.drop_first(), s[0].0) is None,
{
    let t = s.drop_first();
    assert(sorted(t)) by {
        assert forall|a: int, b: int| 0 <= a < b < t.len() implies key_lt(
            #[trigger] t[a].0,
            #[trigger] t[b].0,
        ) by {
            assert(key_lt(s[a + 1].0, s[b + 1].0));
        }
    }
    assert forall|k: Seq<char>| k != s[0].0 implies get(t, k) == get(s, k) by {
        lemma_get_has_key(s, k);
        lemma_get_has_key(t, k);
        if has_key(s, k) {
            let i = choose|i: int| 0 <= i < s.len() && (#[trigger] s[i]).0 == k;
            assert(i > 0);
            assert(t[i - 1] == s[i]);
            lemma_get_at(s, i);
            lemma_get_at(t, i - 1);
        } else if has_key(t, k) {
            let i = choose|i: int| 0 <= i < t.len() && (#[trigger] t[i]).0 == k;
            assert(s[i + 1].0 == k);
        }
    }
    lemma_get_has_key(t, s[0].0);
    if has_key(t, s[0].0) {
        let i = choose|i: int| 0 <= i < t.len() && (#[trigger] t[i]).0 == s[0].0;
        assert(s[i + 1].0 == s[0].0);
        lemma_sorted_distinct(s, 0, i + 1);
    }
}

/// Sorted rows are determined by the map they stand for: two sorted lists
/// that give every key the same value are the same list.
pub proof fn lemma_sorted_unique<X>(a: Rows<X>, b: Rows<X>)
    requires
        sorted(a),
        sorted(b),
        forall|k: Seq<char>| get(a, k) == get(b, k),
    ensures
        a == b,
    decreases a.len(),
{
    if a.len() == 0 {
        if b.len() > 0 {
            lemma_get_at(b, 0);
            assert(get(a, b[0].0) is None);
        }
        assert(a =~= b);
    } else if b.len() == 0 {
        lemma_get_at(a, 0);
        assert(get(b, a[0].0) is None);
    } else {
        lemma_get_at(a, 0);
        lemma_get_at(b, 0);
        if a[0].0 != b[0].0 {
            lemma_key_lt_connected(a[0].0, b[0].0);
            if key_lt(a[0].0, b[0].0) {
                lemma_first_is_least(b, a[0].0);
            } else {
                lemma_first_is_least(a, b[0].0);
            }
        }
        assert(a[0].0 == b[0].0);
        assert(a[0].1 == b[0].1);
        lemma_sorted_tail(a);
        lemma_sorted_tail(b);
        assert forall|k: Seq<char>| get(a.drop_first(), k) == get(b.drop_first(), k) by {
            if k != a[0].0 {
                assert(get(a.drop_first(), k) == get(a, k));
                assert(get(b.drop_first(), k) == get(b, k));
            }
        }
        lemma_sorted_unique(a.drop_first(), b.drop_first());
        assert(a =~= seq![a[0]] + a.drop_first());
        assert(b =~= seq![b[0]] + b.drop_first());
    }
}

/// A key that comes before the first key of sorted rows has no value there.
pub proof fn lemma_first_is_least<X>(s: Rows<X>, key: Seq<char>)
    requires
        sorted(s),
        s.len() > 0,
        key_lt(key, s[0].0),
    ensures
        get(s, key) is None,
{
    lemma_get_has_key(s, key);
    if has_key(s, key) {
        let i = choose|i: int| 0 <= i < s.len() && (#[trigger] s[i]).0 == key;
        if i == 0 {
            lemma_key_lt_irreflexive(key);
        } else {
            assert(key_lt(s[0].0, s[i].0));
            lemma_key_lt_asymmetric(key, s[0].0);
        }
    }
}

/// Putting a row with a new key at its place in sorted rows keeps them
/// sorted, gives the new key the new value and leaves every other key as it
/// was.
pub proof fn lemma_insert_row<X>(s: Rows<X>, pos: int, row: (Seq<char>, X))
    requires
        sorted(s),
        0 <= pos <= s.len(),
        forall|j: int| 0 <= j < pos ==> key_lt(#[trigger] s[j].0, row.0),
        forall|j: int| pos <= j < s.len() ==> key_lt(row.0, #[trigger] s[j].0),
    ensures
        sorted(s.insert(pos, row)),
        forall|k: Seq<char>|
            get(s.insert(pos, row), k) == if k == row.0 {
                Some(row.1)
            } else {
                get(s, k)
            },
{
    let t = s.insert(pos, row);
    assert(t.len() == s.len() + 1);
    assert(t[pos] == row);
    assert forall|j: int| 0 <= j < pos implies #[trigger] t[j] == s[j] by {}
    assert forall|j: int| pos < j < t.len() implies #[trigger] t[j] == s[j - 1] by {}
    assert(sorted(t)) by {
        assert forall|a: int, b: int| 0 <= a < b < t.len() implies key_lt(
            #[trigger] t[a].0,
            #[trigger] t[b].0,
        ) by {
            if b < pos {
                assert(key_lt(s[a].0, s[b].0));
            } else if b == pos {
                assert(key_lt(s[a].0, row.0));
            } else if a < pos {
                assert(key_lt(s[a].0, s[b - 1].0));
            } else if a == pos {
                assert(key_lt(row.0, s[b - 1].0));
            } else {
                assert(key_lt(s[a - 1].0, s[b - 1].0));
            }
        }
    }
    assert forall|k: Seq<char>|
        get(t, k) == if k == row.0 {
            Some(row.1)
        } else {
            get(s, k)
        } by {
        if k == row.0 {
            lemma_get_at(t, pos);
        } else {
            lemma_get_has_key(s, k);
            lemma_get_has_key(t, k);
            if has_key(s, k) {
                let i = choose|i: int| 0 <= i < s.len() && (#[trigger] s[i]).0 == k;
                let i2 = if i < pos {
                    i
                } else {
                    i + 1
                };
                assert(t[i2] == s[i]);
                lemma_get_at(s, i);
                lemma_get_at(t, i2);
            } else if has_key(t, k) {
                let i = choose|i: int| 0 <= i < t.len() && (#[trigger] t[i]).0 == k;
                if i < pos {
                    assert(s[i].0 == k);
                } else {
                    assert(i > pos);
                    assert(s[i - 1].0 == k);
                }
            }
        }
    }
}

/// Two lists with the same keys row by row have a value for the same keys,
/// and are sorted together.
pub proof fn lemma_same_keys<X, Y>(a: Rows<X>, b: Rows<Y>)
    requires
        a.len() == b.len(),
        forall|i: int| 0 <= i < a.len() ==> (#[trigger] a[i]).0 == b[i].0,
    ensures
        forall|k: Seq<char>| get(a, k) is Some <==> get(b, k) is Some,
        sorted(a) <==> sorted(b),
{
    assert forall|k: Seq<char>| get(a, k) is Some <==> get(b, k) is Some by {
        lemma_get_has_key(a, k);
        lemma_get_has_key(b, k);
        if has_key(a, k) {
            let i = choose|i: int| 0 <= i < a.len() && (#[trigger] a[i]).0 == k;
            assert(b[i].0 == k);
        }
        if has_key(b, k) {
            let i = choose|i: int| 0 <= i < b.len() && (#[trigger] b[i]).0 == k;
            assert(a[i].0 == k);
        }
    }
    if sorted(a) {
        assert forall|i: int, j: int| 0 <= i < j < b.len() implies key_lt(
            #[trigger] b[i].0,
            #[trigger] b[j].0,
        ) by {
            assert(key_lt(a[i].0, a[j].0));
        }
    }
    if sorted(b) {
        assert forall|i: int, j: int| 0 <= i < j < a.len() implies key_lt(
            #[trigger] a[i].0,
            #[trigger] a[j].0,
        ) by {
            assert(key_lt(b[i].0, b[j].0));
        }
    }
}

/// Sorted rows with `key` set to `x`: the row that carries the key is
/// replaced, or a new row goes to the key's place.
pub open spec fn put<X>(s: Rows<X>, key: Seq<char>, x: X) -> Rows<X>
    decreases s.len(),
{
    if s.len() == 0 {
        seq![(key, x)]
    } else if s.last().0 == key {
        s.drop_last().push((key, x))
    } else if key_lt(s.last().0, key) {
        s.push((key, x))
    } else {
        put(s.drop_last(), key, x).push(s.last())
    }
}

/// The rows in key order, one for each key, a later row of a key replacing
/// an earlier one.
pub open spec fn canonical<X>(s: Rows<X>) -> Rows<X>
    decreases s.len(),
{
    if s.len() == 0 {
        Seq::empty()
    } else {
        put(canonical(s.drop_last()), s.last().0, s.last().1)
    }
}

/// Sorted rows without their last row are sorted.
pub proof fn lemma_sorted_drop_last<X>(s: Rows<X>)
    requires
        sorted(s),
        s.len() > 0,
    ensures
        sorted(s.drop_last()),
{
    let t = s.drop_last();
    assert forall|a: int, b: int| 0 <= a < b < t.len() implies key_lt(
        #[trigger] t[a].0,
        #[trigger] t[b].0,
    ) by {
        assert(key_lt(s[a].0, s[b].0));
    }
}

/// Sorted rows stay sorted when a row whose key comes after all of theirs is
/// added at the end.
pub proof fn lemma_sorted_push<X>(s: Rows<X>, row: (Seq<char>, X))
    requires
        sorted(s),
        forall|j: int| 0 <= j < s.len() ==> key_lt(#[trigger] s[j].0, row.0),
    ensures
        sorted(s.push(row)),
{
    let t = s.push(row);
    assert forall|a: int, b: int| 0 <= a < b < t.len() implies key_lt(
        #[trigger] t[a].0,
        #[trigger] t[b].0,
    ) by {
        if b < s.len() {
            assert(key_lt(s[a].0, s[b].0));
        } else {
            assert(key_lt(s[a].0, row.0));
        }
    }
}

/// What a key has in rows that end with the given row.
proof fn lemma_get_push<X>(s: Rows<X>, row: (Seq<char>, X), k: Seq<char>)
    ensures
        get(s.push(row), k) == if row.0 == k {
            Some(row.1)
        } else {
            get(s, k)
        },
{
    assert(s.push(row).drop_last() =~= s);
    assert(s.push(row).last() == row);
}

/// The keys of rows that end with the given row are that row's key and the
/// keys of the rows before it.
proof fn lemma_has_key_push<X>(s: Rows<X>, row: (Seq<char>, X), k: Seq<char>)
    ensures
        has_key(s.push(row), k) <==> (row.0 == k || has_key(s, k)),
{
    let t = s.push(row);
    if has_key(t, k) {
        let i = choose|i: int| 0 <= i < t.len() && (#[trigger] t[i]).0 == k;
        if i < s.len() {
            assert(s[i].0 == k);
        }
    }
    if has_key(s, k) {
        let i = choose|i: int| 0 <= i < s.len() && (#[trigger] s[i]).0 == k;
        assert(t[i].0 == k);
    }
    if row.0 == k {
        assert(t[s.len() as int].0 == k);
    }
}

/// In sorted rows every key but the last comes before the last.
proof fn lemma_before_last<X>(s: Rows<X>, k: Seq<char>)
    requires
        sorted(s),
        s.len() > 0,
        has_key(s.drop_last(), k),
    ensures
        key_lt(k, s.last().0),
{
    let t = s.drop_last();
    let i = choose|i: int| 0 <= i < t.len() && (#[trigger] t[i]).0 == k;
    assert(key_lt(s[i].0, s[s.len() - 1].0));
}

/// What `put` does to sorted rows: they stay sorted, the key gets the value,
/// every other key keeps its own, and no key comes in but the one that was
/// put.
pub proof fn lemma_put<X>(s: Rows<X>, key: Seq<char>, x: X)
    requires
        sorted(s),
    ensures
        sorted(put(s, key, x)),
        forall|k: Seq<char>|
            get(put(s, key, x), k) == if k == key {
                Some(x)
            } else {
                get(s, k)
            },
        forall|k: Seq<char>| has_key(put(s, key, x), k) <==> (k == key || has_key(s, k)),
    decreases s.len(),
{
    let t = put(s, key, x);
    if s.len() == 0 {
        assert(sorted(t));
        assert(t =~= s.push((key, x)));
        assert forall|k: Seq<char>|
            get(t, k) == if k == key {
                Some(x)
            } else {
                get(s, k)
            } by {
            lemma_get_push(s, (key, x), k);
        }
        assert forall|k: Seq<char>| has_key(t, k) <==> (k == key || has_key(s, k)) by {
            lemma_has_key_push(s, (key, x), k);
        }
    } else {
        let head = s.drop_last();
        let last = s.last();
        assert(s =~= head.push(last));
        lemma_sorted_drop_last(s);
        if last.0 == key {
            assert(t == head.push((key, x)));
            assert forall|j: int| 0 <= j < head.len() implies key_lt(
                #[trigger] head[j].0,
                key,
            ) by {
                assert(has_key(head, head[j].0));
                lemma_before_last(s, head[j].0);
            }
            lemma_sorted_push(head, (key, x));
            assert forall|k: Seq<char>|
                get(t, k) == if k == key {
                    Some(x)
                } else {
                    get(s, k)
                } by {
                lemma_get_push(head, (key, x), k);
                lemma_get_push(head, last, k);
            }
            assert forall|k: Seq<char>| has_key(t, k) <==> (k == key || has_key(s, k)) by {
                lemma_has_key_push(head, (key, x), k);
                lemma_has_key_push(head, last, k);
            }
        } else if key_lt(last.0, key) {
            assert(t == s.push((key, x)));
            assert forall|j: int| 0 <= j < s.len() implies key_lt(#[trigger] s[j].0, key) by {
                if j < s.len() - 1 {
                    assert(has_key(head, head[j].0));
                    lemma_before_last(s, s[j].0);
                    lemma_key_lt_transitive(s[j].0, last.0, key);
                }
            }
            lemma_sorted_push(s, (key, x));
            assert forall|k: Seq<char>|
                get(t, k) == if k == key {
                    Some(x)
                } else {
                    get(s, k)
                } by {
                lemma_get_push(s, (key, x), k);
            }
            assert forall|k: Seq<char>| has_key(t, k) <==> (k == key || has_key(s, k)) by {
                lemma_has_key_push(s, (key, x), k);
            }
        } else {
            lemma_put(head, key, x);
            let u = put(head, key, x);
            assert(t == u.push(last));
            lemma_key_lt_connected(last.0, key);
            assert forall|j: int| 0 <= j < u.len() implies key_lt(#[trigger] u[j].0, last.0) by {
                assert(has_key(u, u[j].0));
                if u[j].0 != key {
                    lemma_before_last(s, u[j].0);
                }
            }
            lemma_sorted_push(u, last);
            assert forall|k: Seq<char>|
                get(t, k) == if k == key {
                    Some(x)
                } else {
                    get(s, k)
                } by {
                lemma_get_push(u, last, k);
                lemma_get_push(head, last, k);
            }
            assert forall|k: Seq<char>| has_key(t, k) <==> (k == key || has_key(s, k)) by {
                lemma_has_key_push(u, last, k);
                lemma_has_key_push(head, last, k);
            }
        }
    }
}

/// The canonical rows are sorted and give every key the value that the rows
/// they were made from give it.
pub proof fn lemma_canonical<X>(s: Rows<X>)
    ensures
        sorted(canonical(s)),
        forall|k: Seq<char>| get(canonical(s), k) == get(s, k),
    decreases s.len(),
{
    if s.len() > 0 {
        let c = canonical(s.drop_last());
        lemma_canonical(s.drop_last());
        lemma_put(c, s.last().0, s.last().1);
        assert forall|k: Seq<char>| get(canonical(s), k) == get(s, k) by {
            assert(get(put(c, s.last().0, s.last().1), k) == if k == s.last().0 {
                Some(s.last().1)
            } else {
                get(c, k)
            });
            assert(get(c, k) == get(s.drop_last(), k));
        }
    }
}

/// Sorted rows are their own canonical rows.
pub proof fn lemma_canonical_of_sorted<X>(s: Rows<X>)
    requires
        sorted(s),
    ensures
        canonical(s) == s,
{
    lemma_canonical(s);
    lemma_sorted_unique(canonical(s), s);
}

/// Where `key` stands in sorted rows: the number of rows whose keys come
/// before it, and whether the row at that place carries it.
pub(crate) fn locate<V: View>(rows: &Vec<(String, V)>, key: &str) -> (r: (usize, bool))
    requires
        sorted(rows_view(rows@)),
    ensures
        r.0 <= rows.len(),
        forall|j: int| 0 <= j < r.0 ==> key_lt(#[trigger] rows_view(rows@)[j].0, key@),
        r.1 ==> r.0 < rows.len() && rows_view(rows@)[r.0 as int].0 == key@,
        !r.1 ==> forall|j: int|
            r.0 <= j < rows.len() ==> key_lt(key@, #[trigger] rows_view(rows@)[j].0),
        r.1 == has_key(rows_view(rows@), key@),
{
    let ghost s = rows_view(rows@);
    let mut i: usize = 0;
    while i < rows.len() && key_less(rows[i].0.as_str(), key)
        invariant
            i <= rows.len(),
            s == rows_view(rows@),
            forall|j: int| 0 <= j < i ==> key_lt(#[trigger] s[j].0, key@),
        decreases rows.len() - i,
    {
        assert(s[i as int].0 == rows@[i as int].0@);
        i = i + 1;
    }
    let found = i < rows.len() && !key_less(key, rows[i].0.as_str());
    proof {
        if i < rows.len() {
            assert(s[i as int].0 == rows@[i as int].0@);
            if found {
                if s[i as int].0 != key@ {
                    lemma_key_lt_connected(s[i as int].0, key@);
                }
            } else {
                assert forall|j: int| i <= j < rows.len() implies key_lt(
                    key@,
                    #[trigger] s[j].0,
                ) by {
                    if j > i {
                        assert(key_lt(s[i as int].0, s[j].0));
                        lemma_key_lt_transitive(key@, s[i as int].0, s[j].0);
                    }
                }
            }
        }
        if !found && has_key(s, key@) {
            let j = choose|j: int| 0 <= j < s.len() && (#[trigger] s[j]).0 == key@;
            lemma_key_lt_irreflexive(key@);
        }
    }
    (i, found)
}

/// The rows in key order, one row for each key: where a key occurs more than
/// once, its last row is the one that stays.
pub fn sort_rows<V: View>(rows: Vec<(String, V)>) -> (out: Vec<(String, V)>)
    ensures
        rows_view(out@) == canonical(rows_view(rows@)),
        sorted(rows_view(out@)),
        forall|k: Seq<char>| get(rows_view(out@), k) == get(rows_view(rows@), k),
{
    let ghost all = rows_view(rows@);
    let mut input = rows;
    let mut out: Vec<(String, V)> = Vec::new();
    while input.len() > 0
        invariant
            sorted(rows_view(out@)),
            forall|k: Seq<char>|
                get(all, k) == match get(rows_view(out@), k) {
                    Some(x) => Some(x),
                    None => get(rows_view(input@), k),
                },
        decreases input.len(),
    {
        let ghost before = rows_view(input@);
        let ghost kept = rows_view(out@);
        let row = input.pop().unwrap();
        let ghost r = (row.0@, row.1@);
        assert(rows_view(input@) =~= before.drop_last());
        assert(before.last() == r);
        let (pos, found) = locate(&out, row.0.as_str());
        if !found {
            out.insert(pos, row);
            proof {
                assert(rows_view(out@) =~= kept.insert(pos as int, r));
                lemma_insert_row(kept, pos as int, r);
            }
        } else {
            proof {
                lemma_get_has_key(kept, r.0);
            }
        }
        proof {
            assert forall|k: Seq<char>|
                get(all, k) == match get(rows_view(out@), k) {
                    Some(x) => Some(x),
                    None => get(rows_view(input@), k),
                } by {
                assert(get(before, k) == if r.0 == k {
                    Some(r.1)
                } else {
                    get(before.drop_last(), k)
                });
                assert(get(all, k) == match get(kept, k) {
                    Some(x) => Some(x),
                    None => get(before, k),
                });
                assert(rows_view(input@) == before.drop_last());
                if found {
                    assert(rows_view(out@) == kept);
                    assert(get(kept, r.0) is Some);
                } else {
                    assert(rows_view(out@) == kept.insert(pos as int, r));
                    assert(get(kept.insert(pos as int, r), k) == if k == r.0 {
                        Some(r.1)
                    } else {
                        get(kept, k)
                    });
                    lemma_get_has_key(kept, r.0);
                }
            }
        }
    }
    proof {
        lemma_canonical(all);
        assert forall|k: Seq<char>| get(rows_view(out@), k) == get(canonical(all), k) by {
            assert(get(all, k) == match get(rows_view(out@), k) {
                Some(x) => Some(x),
                None => get(rows_view(input@), k),
            });
            assert(get(canonical(all), k) == get(all, k));
        }
        lemma_sorted_unique(rows_view(out@), canonical(all));
    }
    out
}

} // verus!
