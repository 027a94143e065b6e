//! Label text: `name{a="1",b="2"} value` holds the label text `a="1",b="2"`,
//! which is also the key of its time series, and decodes to a label map.

use crate::sorted::{entries_view, entry_keys, find_key, keys_of, map_of, put_entry, sorted_keys};
use crate::text::{
    chars_of, find_char, find_from, split_on, split_text, strs_view, substring,
};
use vstd::prelude::*;
use vstd::string::*;

verus! {

/// The key of the series of a sample line without labels.
pub const NO_LABELS_KEY: &'static str = "single-value-with-no-labels";

/// The name under which a series without labels records its key in its label map.
pub const NO_LABELS_NAME: &'static str = "key";

/// Label names and values, ordered by name.
pub struct LabelMap {
    pub entries: Vec<(String, String)>,
}

impl View for LabelMap {
    type V = Map<Seq<char>, Seq<char>>;

    open spec fn view(&self) -> Map<Seq<char>, Seq<char>> {
        map_of(entries_view(self.entries@))
    }
}

impl LabelMap {
    pub open spec fn wf(&self) -> bool {
        sorted_keys(entries_view(self.entries@))
    }

    /// The label names, in order.
    pub open spec fn names(&self) -> Seq<Seq<char>> {
        keys_of(entries_view(self.entries@))
    }

    pub fn new() -> (r: LabelMap)
        ensures
            r.wf(),
            r@ == Map::<Seq<char>, Seq<char>>::empty(),
    {
        let r = LabelMap { entries: Vec::new() };
        assert(r@ =~= Map::<Seq<char>, Seq<char>>::empty());
        r
    }

    pub fn insert(&mut self, name: String, value: String)
        requires
            old(self).wf(),
        ensures
            final(self).wf(),
            final(self)@ == old(self)@.insert(name@, value@),
    {
        put_entry(&mut self.entries, name, value);
    }

    pub fn get(&self, name: &str) -> (r: Option<&String>)
        requires
            self.wf(),
        ensures
            match r {
                Some(v) => self@.contains_key(name@) && self@[name@] == v@,
                None => !self@.contains_key(name@),
            },
    {
        match find_key(&self.entries, name) {
            Some(i) => {
                proof {
                    crate::sorted::lemma_map_of_at(entries_view(self.entries@), i as int);
                }
                Some(&self.entries[i].1)
            },
            None => None,
        }
    }

    /// The label names, in order.
    pub fn keys(&self) -> (r: Vec<String>)
        ensures
            strs_view(r@) == self.names(),
    {
        entry_keys(&self.entries)
    }

    /// The number of labels.
    pub fn len(&self) -> (r: usize)
        ensures
            r == self.names().len(),
    {
        self.entries.len()
    }
}

/// `s` with every double quote taken out.
pub open spec fn unquote(s: Seq<char>) -> Seq<char>
    decreases s.len(),
{
    if s.len() == 0 {
        Seq::empty()
    } else if s.last() == '"' {
        unquote(s.drop_last())
    } else {
        unquote(s.drop_last()).push(s.last())
    }
}

/// One `name="value"` part: a name and a value on either side of a single
/// `=`, both non-empty; the value loses its quotes.
pub open spec fn label_pair(p: Seq<char>) -> Option<(Seq<char>, Seq<char>)> {
    let pieces = split_on(p, '=');
    if pieces.len() == 2 && pieces[0].len() > 0 && pieces[1].len() > 0 {
        Some((pieces[0], unquote(pieces[1])))
    } else {
        None
    }
}

/// The label map of a sequence of parts: each well-formed part in turn sets
/// its label, a later part overriding an earlier one of the same name.
pub open spec fn labels_from_parts(parts: Seq<Seq<char>>) -> Map<Seq<char>, Seq<char>>
    decreases parts.len(),
{
    if parts.len() == 0 {
        Map::empty()
    } else {
        let m = labels_from_parts(parts.drop_last());
        match label_pair(parts.last()) {
            Some(kv) => m.insert(kv.0, kv.1),
            None => m,
        }
    }
}

/// The label map of label text: its comma-separated parts, malformed ones skipped.
pub open spec fn decoded_labels(text: Seq<char>) -> Map<Seq<char>, Seq<char>> {
    labels_from_parts(split_on(text, ','))
}

/// The label text of a sample line: what stands between its first `{` and the next `}`.
pub open spec fn labels_text(line: Seq<char>) -> Option<Seq<char>> {
    match find_from(line, '{', 0) {
        Some(f) => match find_from(line, '}', f + 1) {
            Some(e) => Some(line.subrange(f + 1, e)),
            None => None,
        },
        None => None,
    }
}

/// The series key of a sample line: its label text, or the no-labels key.
pub open spec fn series_key(line: Seq<char>) -> Seq<char> {
    match labels_text(line) {
        Some(t) => t,
        None => NO_LABELS_KEY@,
    }
}

fn without_quotes(s: &str) -> (r: String)
    ensures
        r@ == unquote(s@),
{
    let cs = chars_of(s);
    let mut out = String::new();
    let mut start: usize = 0;
    let mut i: usize = 0;
    assert(s@.take(0) =~= Seq::<char>::empty());
    assert(out@ + s@.subrange(0, 0) =~= Seq::<char>::empty());
    while i < cs.len()
        invariant
            cs@ == s@,
            start <= i <= cs.len(),
            out@ + s@.subrange(start as int, i as int) == unquote(s@.take(i as int)),
        decreases cs.len() - i,
    {
        assert(s@.take(i + 1).drop_last() =~= s@.take(i as int));
        if cs[i] == '"' {
            let piece = substring(s, start, i);
            out.append(piece.as_str());
            i += 1;
            start = i;
            assert(s@.subrange(start as int, i as int) =~= Seq::<char>::empty());
            assert(out@ + s@.subrange(start as int, i as int) =~= out@);
        } else {
            let ghost before = out@ + s@.subrange(start as int, i as int);
            i += 1;
            assert(out@ + s@.subrange(start as int, i as int) =~= before.push(s@[i - 1]));
        }
    }
    let last = substring(s, start, cs.len());
    out.append(last.as_str());
    assert(s@.take(cs.len() as int) =~= s@);
    out
}

/// The label text of a sample line, if it has a `{` and a `}` after it.
pub fn extract_labels(line: &str) -> (r: Option<String>)
    ensures
        match r {
            Some(t) => labels_text(line@) == Some(t@),
            None => labels_text(line@) is None,
        },
{
    let cs = chars_of(line);
    match find_char(&cs, '{', 0) {
        Some(f) => {
            assert(crate::text::is_first_at(cs@, '{', 0, f as int));
            assert(f < cs.len());
            match find_char(&cs, '}', f + 1) {
                Some(e) => Some(substring(line, f + 1, e)),
                None => None,
            }
        },
        None => None,
    }
}

/// Decodes label text such as `a="1",b="2"` into its label map.
pub fn decode_labels(labels: &str) -> (r: LabelMap)
    ensures
        r.wf(),
        r@ == decoded_labels(labels@),
{
    let parts = split_text(labels, ',');
    let mut r = LabelMap::new();
    let mut i: usize = 0;
    while i < parts.len()
        invariant
            strs_view(parts@) == split_on(labels@, ','),
            i <= parts.len(),
            r.wf(),
            r@ == labels_from_parts(strs_view(parts@).take(i as int)),
        decreases parts.len() - i,
    {
        let ghost pv = strs_view(parts@);
        assert(pv.take(i + 1).drop_last() =~= pv.take(i as int));
        assert(pv.take(i + 1).last() == parts@[i as int]@);
        let pieces = split_text(parts[i].as_str(), '=');
        if pieces.len() == 2 && pieces[0].unicode_len() > 0 && pieces[1].unicode_len() > 0 {
            let value = without_quotes(pieces[1].as_str());
            r.insert(pieces[0].clone(), value);
        }
        i += 1;
    }
    assert(strs_view(parts@).take(i as int) =~= strs_view(parts@));
    r
}

/// The label map and the series key of a sample line's label text; a line
/// without labels has the no-labels key, recorded under the name `key`.
pub fn extract_labels_key_and_map(labels: Option<String>) -> (r: (LabelMap, String))
    ensures
        r.0.wf(),
        match labels {
            Some(l) => r.0@ == decoded_labels(l@) && r.1@ == l@,
            None => r.0@ == map![NO_LABELS_NAME@ => NO_LABELS_KEY@] && r.1@ == NO_LABELS_KEY@,
        },
{
    match labels {
        Some(l) => {
            let m = decode_labels(l.as_str());
            (m, l)
        },
        None => {
            let mut m = LabelMap::new();
            m.insert(NO_LABELS_NAME.to_owned(), NO_LABELS_KEY.to_owned());
            assert(m@ =~= map![NO_LABELS_NAME@ => NO_LABELS_KEY@]);
            (m, NO_LABELS_KEY.to_owned())
        },
    }
}

/// The `{` at `i` is closed by the `}` at `j`: the first `}` after it, with
/// no line break between them.
pub open spec fn closes_at(line: Seq<char>, i: int, j: int) -> bool {
    &&& 0 <= i < j < line.len()
    &&& line[i] == '{'
    &&& line[j] == '}'
    &&& forall|q: int| i < q < j ==> line[q] != '}' && line[q] != '\n'
}

pub open spec fn opens_at(line: Seq<char>, i: int) -> bool {
    exists|j: int| closes_at(line, i, j)
}

/// `i` is the first `{` that is closed.
pub open spec fn first_open(line: Seq<char>, i: int) -> bool {
    opens_at(line, i) && forall|h: int| 0 <= h < i ==> !opens_at(line, h)
}

/// The text between the first closed `{` and its `}`, as the pattern
/// `\{(.*?)}` finds it: its leftmost match, the lazy group stopping at the
/// first `}`, and `.` matching anything but a line break.
pub open spec fn braced_text(line: Seq<char>) -> Option<Seq<char>> {
    if exists|i: int| first_open(line, i) {
        let i = choose|i: int| first_open(line, i);
        let j = choose|j: int| closes_at(line, i, j);
        Some(line.subrange(i + 1, j))
    } else {
        None
    }
}

/// Relies on `regex::Regex::captures_iter` with the pattern `\{(.*?)}`: the
/// first group of its first (leftmost) match, which `braced_text` states.
#[verifier::external_body]
fn first_braced(line: &str) -> (r: Option<String>)
    ensures
        match r {
            Some(t) => braced_text(line@) == Some(t@),
            None => braced_text(line@) is None,
        },
{
    let pattern = regex::Regex::new(r"\{(.*?)}").unwrap();
    let first = pattern.captures_iter(line).next().map(|caps| caps[1].to_string());
    first
}

/// The label text of a sample line, found by a regular expression.
pub fn extract_labels_with_rgx(line: &str) -> (r: Option<String>)
    ensures
        match r {
            Some(t) => braced_text(line@) == Some(t@),
            None => braced_text(line@) is None,
        },
{
    first_braced(line)
}

/// The `name="value"` pairs of label text, each name and value a run of word
/// characters, as the pattern `(\w+)="(\w+)"` finds them, in order.
pub uninterp spec fn word_pairs(text: Seq<char>) -> Seq<(Seq<char>, Seq<char>)>;

/// Relies on `regex::Regex::captures_iter` with the pattern `(\w+)="(\w+)"`:
/// the two groups of each match in turn, which depend on the text alone.
#[verifier::external_body]
fn word_label_pairs(text: &str) -> (r: Vec<(String, String)>)
    ensures
        entries_view(r@) == word_pairs(text@),
{
    let pattern = regex::Regex::new(r#"(\w+)="(\w+)""#).unwrap();
    pattern.captures_iter(text).map(|caps| (caps[1].to_string(), caps[2].to_string())).collect()
}

/// The map that setting each pair in turn builds.
pub open spec fn pairs_map(p: Seq<(Seq<char>, Seq<char>)>) -> Map<Seq<char>, Seq<char>>
    decreases p.len(),
{
    if p.len() == 0 {
        Map::empty()
    } else {
        pairs_map(p.drop_last()).insert(p.last().0, p.last().1)
    }
}

/// The label map that setting each `(name, value)` pair in turn builds.
pub fn labels_from_pairs(pairs: Vec<(String, String)>) -> (r: LabelMap)
    ensures
        r.wf(),
        r@ == pairs_map(entries_view(pairs@)),
{
    let ghost pv = entries_view(pairs@);
    let mut r = LabelMap::new();
    let mut i: usize = 0;
    assert(pv.take(0) =~= Seq::<(Seq<char>, Seq<char>)>::empty());
    while i < pairs.len()
        invariant
            pv == entries_view(pairs@),
            i <= pairs.len(),
            r.wf(),
            r@ == pairs_map(pv.take(i as int)),
        decreases pairs.len() - i,
    {
        assert(pv.take(i + 1).drop_last() =~= pv.take(i as int));
        assert(pv.take(i + 1).last() == pv[i as int]);
        r.insert(pairs[i].0.clone(), pairs[i].1.clone());
        i += 1;
    }
    assert(pv.take(i as int) =~= pv);
    r
}

/// Decodes label text into its label map with a regular expression: each
/// `name="value"` pair of word characters sets its label.
pub fn decode_labels_with_rgx(labels: &str) -> (r: LabelMap)
    ensures
        r.wf(),
        r@ == pairs_map(word_pairs(labels@)),
{
    labels_from_pairs(word_label_pairs(labels))
}

} // verus!
