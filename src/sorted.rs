//! Maps from text keys, held as vectors of entries in strictly increasing
//! key order; their views are `Map`s and their key order is `String`'s `Ord`.

use crate::text::{chars_of, strs_view};
use vstd::prelude::*;

verus! {

/// Lexicographic order by code point, the order of `String`'s `Ord`.
pub open spec fn seq_less(a: Seq<char>, b: Seq<char>) -> bool
    decreases a.len(),
{
    if a.len() == 0 {
        b.len() > 0
    } else if b.len() == 0 {
        false
    } else if a[0] != b[0] {
        a[0] < b[0]
    } else {
        seq_less(a.drop_first(), b.drop_first())
    }
}

pub proof fn lemma_less_irreflexive(a: Seq<char>)
    ensures
        !seq_less(a, a),
    decreases a.len(),
{
    if a.len() > 0 {
        lemma_less_irreflexive(a.drop_first());
    }
}

pub proof fn lemma_less_transitive(a: Seq<char>, b: Seq<char>, c: Seq<char>)
    requires
        seq_less(a, b),
        seq_less(b, c),
    ensures
        seq_less(a, c),
    decreases a.len(),
{
    if a.len() > 0 && a[0] == b[0] && b[0] == c[0] {
        lemma_less_transitive(a.drop_first(), b.drop_first(), c.drop_first());
    }
}

pub proof fn lemma_less_total(a: Seq<char>, b: Seq<char>)
    requires
        a != b,
    ensures
        seq_less(a, b) || seq_less(b, a),
    decreases a.len(),
{
    if a.len() > 0 && b.len() > 0 && a[0] == b[0] {
        if a.drop_first() == b.drop_first() {
            assert(a =~= seq![a[0]] + a.drop_first());
            assert(b =~= seq![b[0]] + b.drop_first());
        }
        lemma_less_total(a.drop_first(), b.drop_first());
    } else if a.len() == 0 && b.len() == 0 {
        assert(a =~= b);
    } else if a.len() > 0 && b.len() > 0 {
        assert(a[0] != b[0]);
    }
}

pub proof fn lemma_less_asymmetric(a: Seq<char>, b: Seq<char>)
    requires
        seq_less(a, b),
    ensures
        !seq_less(b, a),
{
    if seq_less(b, a) {
        lemma_less_transitive(a, b, a);
        lemma_less_irreflexive(a);
    }
}

/// Whether `a` comes before `b` in `String`'s order.
pub fn text_less(a: &str, b: &str) -> (r: bool)
    ensures
        r == seq_less(a@, b@),
{
    let x = chars_of(a);
    let y = chars_of(b);
    let mut i: usize = 0;
    assert(x@.skip(0) =~= x@ && y@.skip(0) =~= y@);
    while i < x.len() && i < y.len() && x[i] == y[i]
        invariant
            i <= x.len(),
            i <= y.len(),
            seq_less(x@, y@) == seq_less(x@.skip(i as int), y@.skip(i as int)),
        decreases x.len() - i,
    {
        assert(x@.skip(i as int).drop_first() =~= x@.skip(i + 1));
        assert(y@.skip(i as int).drop_first() =~= y@.skip(i + 1));
        i += 1;
    }
    if i < x.len() && i < y.len() {
        x[i] < y[i]
    } else {
        i == x.len() && i < y.len()
    }
}

/// The keys of `s` stand in strictly increasing order.
pub open spec fn sorted_keys<W>(s: Seq<(Seq<char>, W)>) -> bool {
    forall|i: int, j: int| 0 <= i < j < s.len() ==> seq_less(#[trigger] s[i].0, #[trigger] s[j].0)
}

pub open spec fn has_key<W>(s: Seq<(Seq<char>, W)>, k: Seq<char>) -> bool {
    exists|i: int| 0 <= i < s.len() && #[trigger] s[i].0 == k
}

/// A position of `k` among the keys of `s`, where it has one.
pub open spec fn key_index<W>(s: Seq<(Seq<char>, W)>, k: Seq<char>) -> int {
    choose|i: int| 0 <= i < s.len() && #[trigger] s[i].0 == k
}

/// The map that a sequence of entries with distinct keys stands for.
pub open spec fn map_of<W>(s: Seq<(Seq<char>, W)>) -> Map<Seq<char>, W> {
    Map::new(
        |k: Seq<char>| has_key(s, k),
        |k: Seq<char>| s[key_index(s, k)].1,
    )
}

/// The keys of `s`, in order.
pub open spec fn keys_of<W>(s: Seq<(Seq<char>, W)>) -> Seq<Seq<char>> {
    s.map_values(|e: (Seq<char>, W)| e.0)
}

/// `r` is where `k` stands, or would stand, in `s`.
pub open spec fn is_lower_bound<W>(s: Seq<(Seq<char>, W)>, k: Seq<char>, r: int) -> bool {
    &&& 0 <= r <= s.len()
    &&& forall|i: int| 0 <= i < r ==> seq_less(#[trigger] s[i].0, k)
    &&& forall|i: int| r <= i < s.len() ==> !seq_less(#[trigger] s[i].0, k)
}

/// `s` after `k` is given the value `v`: replaced where `k` stands, inserted where it would.
pub open spec fn put_at<W>(s: Seq<(Seq<char>, W)>, r: int, k: Seq<char>, v: W) -> Seq<
    (Seq<char>, W),
> {
    if r < s.len() && s[r].0 == k {
        s.update(r, (k, v))
    } else {
        s.insert(r, (k, v))
    }
}

pub proof fn lemma_map_of_at<W>(s: Seq<(Seq<char>, W)>, i: int)
    requires
        sorted_keys(s),
        0 <= i < s.len(),
    ensures
        map_of(s).contains_key(s[i].0),
        map_of(s)[s[i].0] == s[i].1,
{
    let k = s[i].0;
    assert(has_key(s, k));
    let j = key_index(s, k);
    if j < i {
        assert(seq_less(s[j].0, s[i].0));
        lemma_less_irreflexive(k);
    } else if j > i {
        assert(seq_less(s[i].0, s[j].0));
        lemma_less_irreflexive(k);
    }
    assert(j == i);
    assert(map_of(s)[k] == s[j].1);
}

pub proof fn lemma_lower_bound_absent<W>(s: Seq<(Seq<char>, W)>, k: Seq<char>, r: int)
    requires
        sorted_keys(s),
        is_lower_bound(s, k, r),
        !(r < s.len() && s[r].0 == k),
    ensures
        !has_key(s, k),
{
    if has_key(s, k) {
        let j = choose|j: int| 0 <= j < s.len() && #[trigger] s[j].0 == k;
        if j < r {
            lemma_less_irreflexive(k);
        } else if j > r {
            assert(!seq_less(s[r].0, k));
            lemma_less_total(s[r].0, k);
            assert(seq_less(s[r].0, s[j].0));
            lemma_less_asymmetric(k, s[r].0);
        }
    }
}

pub proof fn lemma_put_at<W>(s: Seq<(Seq<char>, W)>, r: int, k: Seq<char>, v: W)
    requires
        sorted_keys(s),
        is_lower_bound(s, k, r),
    ensures
        sorted_keys(put_at(s, r, k, v)),
        map_of(put_at(s, r, k, v)) == map_of(s).insert(k, v),
{
    let t = put_at(s, r, k, v);
    if r < s.len() && s[r].0 == k {
        assert(sorted_keys(t)) by {
            assert forall|i: int, j: int| 0 <= i < j < t.len() implies seq_less(
                #[trigger] t[i].0,
                #[trigger] t[j].0,
            ) by {
                assert(seq_less(s[i].0, s[j].0));
            }
        }
        assert forall|key: Seq<char>| #[trigger] has_key(t, key) == has_key(s, key) by {
            if has_key(s, key) {
                let j = choose|j: int| 0 <= j < s.len() && #[trigger] s[j].0 == key;
                assert(t[j].0 == key);
            }
            if has_key(t, key) {
                let j = choose|j: int| 0 <= j < t.len() && #[trigger] t[j].0 == key;
                assert(s[j].0 == key);
            }
        }
    } else {
        lemma_lower_bound_absent(s, k, r);
        assert(sorted_keys(t)) by {
            assert forall|i: int, j: int| 0 <= i < j < t.len() implies seq_less(
                #[trigger] t[i].0,
                #[trigger] t[j].0,
            ) by {
                if j < r {
                    assert(seq_less(s[i].0, s[j].0));
                } else if j == r {
                    assert(seq_less(s[i].0, k));
                } else if i == r {
                    assert(t[j].0 == s[j - 1].0);
                    assert(!seq_less(s[r].0, k));
                    assert(s[r].0 != k);
                    lemma_less_total(s[r].0, k);
                    if j - 1 > r {
                        assert(seq_less(s[r].0, s[j - 1].0));
                        lemma_less_transitive(k, s[r].0, s[j - 1].0);
                    }
                } else if i < r {
                    assert(seq_less(s[i].0, s[j - 1].0));
                } else {
                    assert(seq_less(s[i - 1].0, s[j - 1].0));
                }
            }
        }
        assert forall|key: Seq<char>| #[trigger] has_key(t, key) == (has_key(s, key) || key
            == k) by {
            if has_key(s, key) {
                let j = choose|j: int| 0 <= j < s.len() && #[trigger] s[j].0 == key;
                if j < r {
                    assert(t[j].0 == key);
                } else {
                    assert(t[j + 1].0 == key);
                }
            }
            if key == k {
                assert(t[r].0 == key);
            }
            if has_key(t, key) && key != k {
                let j = choose|j: int| 0 <= j < t.len() && #[trigger] t[j].0 == key;
                if j < r {
                    assert(s[j].0 == key);
                } else {
                    assert(s[j - 1].0 == key);
                }
            }
        }
    }
    assert forall|key: Seq<char>| #[trigger] map_of(t).contains_key(key) implies map_of(t)[key]
        == map_of(s).insert(k, v)[key] by {
        let j = choose|j: int| 0 <= j < t.len() && #[trigger] t[j].0 == key;
        lemma_map_of_at(t, j);
        if key != k {
            let js = choose|js: int| 0 <= js < s.len() && #[trigger] s[js].0 == key;
            lemma_map_of_at(s, js);
            if r < s.len() && s[r].0 == k {
                assert(t[js] == s[js]);
                lemma_map_of_at(t, js);
            } else if js < r {
                assert(t[js] == s[js]);
                lemma_map_of_at(t, js);
            } else {
                assert(t[js + 1] == s[js]);
                lemma_map_of_at(t, js + 1);
            }
        } else {
            assert(t[r] == (k, v));
            lemma_map_of_at(t, r);
        }
    }
    assert(map_of(t) =~= map_of(s).insert(k, v));
}

/// The view of a vector of entries: each key as its characters, each value as its view.
pub open spec fn entries_view<V: View>(s: Seq<(String, V)>) -> Seq<(Seq<char>, V::V)> {
    s.map_values(|e: (String, V)| (e.0@, e.1@))
}

/// Whether `a` and `b` hold the same characters.
pub fn text_eq(a: &str, b: &str) -> (r: bool)
    ensures
        r == (a@ == b@),
{
    let r = !text_less(a, b) && !text_less(b, a);
    proof {
        if a@ == b@ {
            lemma_less_irreflexive(a@);
        } else {
            lemma_less_total(a@, b@);
        }
    }
    r
}

/// Where `key` stands, or would stand, among the sorted entries.
pub fn lower_bound<V: View>(entries: &Vec<(String, V)>, key: &str) -> (r: usize)
    requires
        sorted_keys(entries_view(entries@)),
    ensures
        is_lower_bound(entries_view(entries@), key@, r as int),
{
    let ghost s = entries_view(entries@);
    let mut i: usize = 0;
    while i < entries.len() && text_less(entries[i].0.as_str(), key)
        invariant
            s == entries_view(entries@),
            sorted_keys(s),
            i <= entries.len(),
            forall|j: int| 0 <= j < i ==> seq_less(#[trigger] s[j].0, key@),
        decreases entries.len() - i,
    {
        i += 1;
    }
    assert forall|j: int| i <= j < s.len() implies !seq_less(#[trigger] s[j].0, key@) by {
        if j > i {
            assert(!seq_less(s[i as int].0, key@));
            assert(seq_less(s[i as int].0, s[j].0));
            if seq_less(s[j].0, key@) {
                lemma_less_transitive(s[i as int].0, s[j].0, key@);
            }
        }
    }
    i
}

/// The position of `key` among the sorted entries, if it is there.
pub fn find_key<V: View>(entries: &Vec<(String, V)>, key: &str) -> (r: Option<usize>)
    requires
        sorted_keys(entries_view(entries@)),
    ensures
        match r {
            Some(i) => i < entries.len() && entries@[i as int].0@ == key@,
            None => !map_of(entries_view(entries@)).contains_key(key@),
        },
{
    let i = lower_bound(entries, key);
    if i < entries.len() && text_eq(entries[i].0.as_str(), key) {
        Some(i)
    } else {
        proof {
            lemma_lower_bound_absent(entries_view(entries@), key@, i as int);
        }
        None
    }
}

/// Gives `key` the value `val`: replaces it where `key` stands, inserts it in order where not.
pub fn put_entry<V: View>(entries: &mut Vec<(String, V)>, key: String, val: V)
    requires
        sorted_keys(entries_view(old(entries)@)),
    ensures
        sorted_keys(entries_view(final(entries)@)),
        map_of(entries_view(final(entries)@)) == map_of(entries_view(old(entries)@)).insert(
            key@,
            val@,
        ),
{
    let r = lower_bound(entries, key.as_str());
    let ghost s = entries_view(entries@);
    let ghost kv = key@;
    let ghost vv = val@;
    proof {
        lemma_put_at(s, r as int, kv, vv);
    }
    if r < entries.len() && text_eq(entries[r].0.as_str(), key.as_str()) {
        entries.set(r, (key, val));
        assert(entries_view(entries@) =~= put_at(s, r as int, kv, vv));
    } else {
        entries.insert(r, (key, val));
        assert(entries_view(entries@) =~= put_at(s, r as int, kv, vv));
    }
}

/// The keys of the sorted entries, in order.
pub fn entry_keys<V: View>(entries: &Vec<(String, V)>) -> (r: Vec<String>)
    ensures
        strs_view(r@) == keys_of(entries_view(entries@)),
{
    let mut r: Vec<String> = Vec::new();
    let mut i: usize = 0;
    while i < entries.len()
        invariant
            i <= entries.len(),
            strs_view(r@) == keys_of(entries_view(entries@)).take(i as int),
        decreases entries.len() - i,
    {
        let ghost old_r = r@;
        r.push(entries[i].0.clone());
        assert(strs_view(r@) =~= strs_view(old_r).push(entries@[i as int].0@));
        i += 1;
        assert(strs_view(r@) =~= keys_of(entries_view(entries@)).take(i as int));
    }
    assert(keys_of(entries_view(entries@)).take(i as int) =~= keys_of(entries_view(entries@)));
    r
}

} // verus!
