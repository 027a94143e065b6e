//! Character-level helpers over `str`, each with a contract over `Seq<char>`.

use vstd::prelude::*;
use vstd::string::*;

verus! {

/// Unicode `White_Space`: the characters for which `char::is_whitespace` holds.
pub open spec fn is_ws(c: char) -> bool {
    let u = c as u32;
    (0x9 <= u && u <= 0xd) || u == 0x20 || u == 0x85 || u == 0xa0 || u == 0x1680 || (0x2000 <= u
        && u <= 0x200a) || u == 0x2028 || u == 0x2029 || u == 0x202f || u == 0x205f || u == 0x3000
}

pub fn is_whitespace_char(c: char) -> (r: bool)
    ensures
        r == is_ws(c),
{
    let u = c as u32;
    (0x9 <= u && u <= 0xd) || u == 0x20 || u == 0x85 || u == 0xa0 || u == 0x1680 || (0x2000 <= u
        && u <= 0x200a) || u == 0x2028 || u == 0x2029 || u == 0x202f || u == 0x205f || u == 0x3000
}

pub open spec fn starts_with(s: Seq<char>, p: Seq<char>) -> bool {
    p.len() <= s.len() && s.subrange(0, p.len() as int) == p
}

/// `i` is the first position at or after `from` that holds `c`.
pub open spec fn is_first_at(s: Seq<char>, c: char, from: int, i: int) -> bool {
    from <= i < s.len() && s[i] == c && forall|j: int| from <= j < i ==> s[j] != c
}

/// The first position at or after `from` that holds `c`.
pub open spec fn find_from(s: Seq<char>, c: char, from: int) -> Option<int> {
    if exists|i: int| is_first_at(s, c, from, i) {
        Some(choose|i: int| is_first_at(s, c, from, i))
    } else {
        None
    }
}

/// `i` is the last position that holds `c`.
pub open spec fn is_last_at(s: Seq<char>, c: char, i: int) -> bool {
    0 <= i < s.len() && s[i] == c && forall|j: int| i < j < s.len() ==> s[j] != c
}

/// The last position that holds `c`.
pub open spec fn find_last(s: Seq<char>, c: char) -> Option<int> {
    if exists|i: int| is_last_at(s, c, i) {
        Some(choose|i: int| is_last_at(s, c, i))
    } else {
        None
    }
}

/// `p` occurs in `s` at some position.
pub open spec fn contains_seq(s: Seq<char>, p: Seq<char>) -> bool {
    exists|i: int| 0 <= i && i + p.len() <= s.len() && #[trigger] s.subrange(i, i + p.len()) == p
}

/// `s` without its trailing whitespace.
pub open spec fn trim_end(s: Seq<char>) -> Seq<char>
    decreases s.len(),
{
    if s.len() > 0 && is_ws(s.last()) {
        trim_end(s.drop_last())
    } else {
        s
    }
}

/// `s` without its leading whitespace.
pub open spec fn trim_start(s: Seq<char>) -> Seq<char>
    decreases s.len(),
{
    if s.len() > 0 && is_ws(s[0]) {
        trim_start(s.drop_first())
    } else {
        s
    }
}

/// `s` without whitespace at either end, as `str::trim` gives it.
pub open spec fn trim(s: Seq<char>) -> Seq<char> {
    trim_start(trim_end(s))
}

/// The run of non-whitespace characters at the very end of `s`.
pub open spec fn last_word(s: Seq<char>) -> Seq<char>
    decreases s.len(),
{
    if s.len() > 0 && !is_ws(s.last()) {
        last_word(s.drop_last()).push(s.last())
    } else {
        Seq::empty()
    }
}

/// The last whitespace-delimited token of `s`, if `s` has one.
pub open spec fn last_token(s: Seq<char>) -> Option<Seq<char>> {
    let w = last_word(trim_end(s));
    if w.len() > 0 {
        Some(w)
    } else {
        None
    }
}

/// `s` holds whitespace only (or nothing).
pub open spec fn is_blank(s: Seq<char>) -> bool {
    forall|i: int| 0 <= i < s.len() ==> is_ws(s[i])
}

pub fn chars_of(s: &str) -> (r: Vec<char>)
    ensures
        r@ == s@,
{
    let n = s.unicode_len();
    let mut r: Vec<char> = Vec::new();
    let mut i: usize = 0;
    while i < n
        invariant
            n == s@.len(),
            i <= n,
            r@ == s@.take(i as int),
        decreases n - i,
    {
        r.push(s.get_char(i));
        i += 1;
        assert(r@ =~= s@.take(i as int));
    }
    assert(r@ =~= s@);
    r
}

/// The characters `from..to` of `s` as a new `String`.
pub fn substring(s: &str, from: usize, to: usize) -> (r: String)
    requires
        from <= to <= s@.len(),
    ensures
        r@ == s@.subrange(from as int, to as int),
{
    s.substring_char(from, to).to_owned()
}

pub fn has_prefix(s: &Vec<char>, p: &str) -> (r: bool)
    ensures
        r == starts_with(s@, p@),
{
    let pc = chars_of(p);
    if pc.len() > s.len() {
        return false;
    }
    let mut i: usize = 0;
    while i < pc.len()
        invariant
            pc@ == p@,
            pc.len() <= s.len(),
            i <= pc.len(),
            forall|j: int| 0 <= j < i ==> s@[j] == pc@[j],
        decreases pc.len() - i,
    {
        if s[i] != pc[i] {
            assert(s@.subrange(0, pc.len() as int)[i as int] != p@[i as int]);
            return false;
        }
        i += 1;
    }
    assert(s@.subrange(0, pc.len() as int) =~= p@);
    true
}

pub fn find_char(s: &Vec<char>, c: char, from: usize) -> (r: Option<usize>)
    ensures
        match r {
            Some(i) => find_from(s@, c, from as int) == Some(i as int),
            None => find_from(s@, c, from as int) is None,
        },
{
    let mut i: usize = from;
    while i < s.len()
        invariant
            from <= i,
            forall|j: int| from <= j < i && j < s.len() ==> s@[j] != c,
        decreases s.len() - i,
    {
        if s[i] == c {
            assert(is_first_at(s@, c, from as int, i as int));
            assert forall|k: int| is_first_at(s@, c, from as int, k) implies k == i by {
                if k < i {
                    assert(s@[k] != c);
                } else if k > i {
                    assert(s@[i as int] != c);
                }
            }
            return Some(i);
        }
        i += 1;
    }
    assert forall|k: int| !is_first_at(s@, c, from as int, k) by {
        if from <= k < s@.len() {
            assert(s@[k] != c);
        }
    }
    None
}

pub fn rfind_char(s: &Vec<char>, c: char) -> (r: Option<usize>)
    ensures
        match r {
            Some(i) => find_last(s@, c) == Some(i as int),
            None => find_last(s@, c) is None,
        },
{
    let mut i: usize = s.len();
    while i > 0
        invariant
            i <= s.len(),
            forall|j: int| i <= j < s.len() ==> s@[j] != c,
        decreases i,
    {
        if s[i - 1] == c {
            let ghost k0 = (i - 1) as int;
            assert(is_last_at(s@, c, k0));
            assert forall|k: int| is_last_at(s@, c, k) implies k == k0 by {
                if k < k0 {
                    assert(s@[k0] != c);
                } else if k > k0 {
                    assert(s@[k] != c);
                }
            }
            return Some(i - 1);
        }
        i -= 1;
    }
    assert forall|k: int| !is_last_at(s@, c, k) by {
        if 0 <= k < s@.len() {
            assert(s@[k] != c);
        }
    }
    None
}

pub fn contains_text(s: &Vec<char>, p: &str) -> (r: bool)
    ensures
        r == contains_seq(s@, p@),
{
    let pc = chars_of(p);
    let n = s.len();
    let m = pc.len();
    if m > n {
        assert forall|i: int| 0 <= i && i + p@.len() <= s@.len() implies #[trigger] s@.subrange(
            i,
            i + p@.len(),
        ) != p@ by {}
        return false;
    }
    let mut i: usize = 0;
    while i <= n - m
        invariant
            pc@ == p@,
            m == pc.len(),
            n == s.len(),
            m <= n,
            i <= n - m + 1,
            forall|k: int| 0 <= k < i ==> #[trigger] s@.subrange(k, k + m) != p@,
        decreases n - m + 1 - i,
    {
        let mut j: usize = 0;
        let mut same = true;
        while j < m
            invariant
                pc@ == p@,
                m == pc.len(),
                n == s.len(),
                i + m <= n,
                j <= m,
                same == (forall|t: int| 0 <= t < j ==> s@[i + t] == pc@[t]),
            decreases m - j,
        {
            if s[i + j] != pc[j] {
                same = false;
            }
            j += 1;
        }
        if same {
            assert(s@.subrange(i as int, i + m) =~= p@);
            return true;
        } else {
            assert(s@.subrange(i as int, i + m) != p@) by {
                let t = choose|t: int| 0 <= t < m && s@[i + t] != pc@[t];
                assert(s@.subrange(i as int, i + m)[t] != p@[t]);
            }
        }
        i += 1;
    }
    assert forall|k: int| 0 <= k && k + p@.len() <= s@.len() implies #[trigger] s@.subrange(
        k,
        k + p@.len(),
    ) != p@ by {}
    false
}

pub proof fn lemma_trim_end_prefix(s: Seq<char>, e: int)
    requires
        0 <= e <= s.len(),
        forall|j: int| e <= j < s.len() ==> is_ws(s[j]),
    ensures
        trim_end(s) == trim_end(s.take(e)),
    decreases s.len() - e,
{
    if e < s.len() {
        assert(s.drop_last() =~= s.take(s.len() - 1));
        lemma_trim_end_prefix(s.drop_last(), e);
        assert(s.drop_last().take(e) =~= s.take(e));
    } else {
        assert(s.take(e) =~= s);
    }
}

/// The end of `s` once its trailing whitespace is cut off.
pub fn trimmed_end(s: &Vec<char>) -> (r: usize)
    ensures
        r <= s.len(),
        trim_end(s@) == s@.take(r as int),
{
    let mut e: usize = s.len();
    while e > 0 && is_whitespace_char(s[e - 1])
        invariant
            e <= s.len(),
            forall|j: int| e <= j < s.len() ==> is_ws(s@[j]),
        decreases e,
    {
        e -= 1;
    }
    proof {
        lemma_trim_end_prefix(s@, e as int);
        let t = s@.take(e as int);
        if t.len() > 0 {
            assert(t.last() == s@[e - 1]);
        }
    }
    e
}

pub proof fn lemma_trim_start_suffix(s: Seq<char>, b: int)
    requires
        0 <= b <= s.len(),
        forall|j: int| 0 <= j < b ==> is_ws(s[j]),
    ensures
        trim_start(s) == trim_start(s.skip(b)),
    decreases b,
{
    if b > 0 {
        lemma_trim_start_suffix(s.drop_first(), b - 1);
        assert(s.drop_first().skip(b - 1) =~= s.skip(b));
    } else {
        assert(s.skip(0) =~= s);
    }
}

/// `s` with the whitespace at both ends cut off.
pub fn trimmed(s: &str) -> (r: String)
    ensures
        r@ == trim(s@),
{
    let cs = chars_of(s);
    let e = trimmed_end(&cs);
    let mut b: usize = 0;
    while b < e && is_whitespace_char(cs[b])
        invariant
            b <= e,
            e <= cs.len(),
            forall|j: int| 0 <= j < b ==> is_ws(cs@[j]),
        decreases e - b,
    {
        b += 1;
    }
    proof {
        let t = cs@.take(e as int);
        lemma_trim_start_suffix(t, b as int);
        assert(t.skip(b as int) =~= cs@.subrange(b as int, e as int));
    }
    substring(s, b, e)
}

pub proof fn lemma_last_word_split(s: Seq<char>, b: int)
    requires
        0 <= b <= s.len(),
        forall|j: int| b <= j < s.len() ==> !is_ws(s[j]),
    ensures
        last_word(s) == last_word(s.take(b)) + s.skip(b),
    decreases s.len() - b,
{
    if b < s.len() {
        lemma_last_word_split(s.drop_last(), b);
        assert(s.drop_last().take(b) =~= s.take(b));
        assert(s.drop_last().skip(b).push(s.last()) =~= s.skip(b));
        assert(last_word(s.take(b)) + s.drop_last().skip(b).push(s.last()) =~= (last_word(
            s.take(b),
        ) + s.drop_last().skip(b)).push(s.last()));
    } else {
        assert(s.take(b) =~= s);
        assert(s.skip(b) =~= Seq::<char>::empty());
        assert(last_word(s) + s.skip(b) =~= last_word(s));
    }
}

/// The last whitespace-delimited token of `s`, as `split_whitespace().last()` finds it.
pub fn last_token_of(s: &str) -> (r: Option<String>)
    ensures
        match r {
            Some(t) => last_token(s@) == Some(t@),
            None => last_token(s@) is None,
        },
{
    let cs = chars_of(s);
    let e = trimmed_end(&cs);
    let mut b: usize = e;
    while b > 0 && !is_whitespace_char(cs[b - 1])
        invariant
            b <= e,
            e <= cs.len(),
            forall|j: int| b <= j < e ==> !is_ws(cs@[j]),
        decreases b,
    {
        b -= 1;
    }
    proof {
        let t = cs@.take(e as int);
        lemma_last_word_split(t, b as int);
        let tb = t.take(b as int);
        if tb.len() > 0 {
            assert(tb.last() == cs@[b - 1]);
            assert(last_word(tb) == Seq::<char>::empty());
        } else {
            assert(last_word(tb) == Seq::<char>::empty());
        }
        assert(t.skip(b as int) =~= cs@.subrange(b as int, e as int));
        assert(last_word(t) =~= cs@.subrange(b as int, e as int));
    }
    if b == e {
        None
    } else {
        Some(substring(s, b, e))
    }
}

pub fn is_blank_line(s: &str) -> (r: bool)
    ensures
        r == is_blank(s@),
{
    let cs = chars_of(s);
    let mut i: usize = 0;
    while i < cs.len()
        invariant
            cs@ == s@,
            i <= cs.len(),
            forall|j: int| 0 <= j < i ==> is_ws(cs@[j]),
        decreases cs.len() - i,
    {
        if !is_whitespace_char(cs[i]) {
            return false;
        }
        i += 1;
    }
    true
}

/// The views of a sequence of strings.
pub open spec fn strs_view(s: Seq<String>) -> Seq<Seq<char>> {
    s.map_values(|x: String| x@)
}

/// The pieces of `s` between occurrences of `c`, as `str::split` gives them.
pub open spec fn split_on(s: Seq<char>, c: char) -> Seq<Seq<char>>
    decreases s.len(),
{
    if s.len() == 0 {
        seq![Seq::empty()]
    } else {
        let r = split_on(s.drop_last(), c);
        if s.last() == c {
            r.push(Seq::empty())
        } else {
            r.update(r.len() - 1, r.last().push(s.last()))
        }
    }
}

pub proof fn lemma_split_on_nonempty(s: Seq<char>, c: char)
    ensures
        split_on(s, c).len() >= 1,
    decreases s.len(),
{
    if s.len() > 0 {
        lemma_split_on_nonempty(s.drop_last(), c);
    }
}

/// The pieces of `s` between occurrences of `c`.
pub fn split_text(s: &str, c: char) -> (r: Vec<String>)
    ensures
        strs_view(r@) == split_on(s@, c),
{
    let cs = chars_of(s);
    let mut r: Vec<String> = Vec::new();
    let mut start: usize = 0;
    let mut i: usize = 0;
    assert(s@.take(0) =~= Seq::<char>::empty());
    assert(strs_view(r@).push(s@.subrange(0, 0)) =~= split_on(s@.take(0), c));
    while i < cs.len()
        invariant
            cs@ == s@,
            start <= i <= cs.len(),
            strs_view(r@).push(s@.subrange(start as int, i as int)) == split_on(s@.take(i as int), c),
        decreases cs.len() - i,
    {
        let ghost prev = split_on(s@.take(i as int), c);
        assert(s@.take(i + 1).drop_last() =~= s@.take(i as int));
        proof {
            lemma_split_on_nonempty(s@.take(i as int), c);
        }
        if cs[i] == c {
            let piece = substring(s, start, i);
            let ghost old_r = r@;
            r.push(piece);
            assert(strs_view(r@) =~= strs_view(old_r).push(piece@));
            i += 1;
            start = i;
            assert(s@.subrange(start as int, i as int) =~= Seq::<char>::empty());
            assert(strs_view(r@).push(s@.subrange(start as int, i as int)) =~= prev.push(
                Seq::empty(),
            ));
        } else {
            i += 1;
            assert(s@.subrange(start as int, i as int) =~= s@.subrange(start as int, i - 1).push(
                s@[i - 1],
            ));
            assert(strs_view(r@).push(s@.subrange(start as int, i as int)) =~= prev.update(
                prev.len() - 1,
                prev.last().push(s@[i - 1]),
            ));
        }
    }
    assert(s@.take(cs.len() as int) =~= s@);
    let last = substring(s, start, cs.len());
    r.push(last);
    assert(strs_view(r@) =~= split_on(s@, c));
    r
}

} // verus!
