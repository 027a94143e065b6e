//! The exposition-format decoder: a scrape payload is split into one block
//! of lines per metric family, and each block decodes to a snapshot.

use crate::labels::{
    decode_labels, decoded_labels, extract_labels, labels_text, series_key, NO_LABELS_KEY,
};
use crate::model::{
    Bucket, HistogramValueSample, MetricType, Quantil, Sample, SampleV, SingleScrapeMetric,
    SingleValueSample, SnapshotV, SummaryValueSample, buckets_view, quantiles_view,
};
use crate::numbers::{count_value, is_float_text, is_float_token, parse_count};
use crate::sorted::{entries_view, map_of, put_entry, sorted_keys, text_eq};
use crate::text::{
    chars_of, contains_seq, contains_text, find_char, find_from, find_last, has_prefix,
    is_blank, is_blank_line, last_token, last_token_of, rfind_char, starts_with, strs_view,
    substring, trim, trimmed,
};
use vstd::prelude::*;
use vstd::string::*;

verus! {

pub const HELP_PREFIX: &'static str = "# HELP ";

pub const TYPE_PREFIX: &'static str = "# TYPE ";

pub open spec fn is_comment(l: Seq<char>) -> bool {
    l.len() > 0 && l[0] == '#'
}

/// A line that carries a sample: neither a comment nor blank.
pub open spec fn is_sample_line(l: Seq<char>) -> bool {
    !is_comment(l) && !is_blank(l)
}

pub open spec fn is_type_line(l: Seq<char>) -> bool {
    starts_with(l, TYPE_PREFIX@)
}

/// The name and the docstring of a `# HELP <name> <docstring>` line; the
/// docstring is trimmed.
pub open spec fn name_docstring(l: Seq<char>) -> Option<(Seq<char>, Seq<char>)> {
    if starts_with(l, HELP_PREFIX@) {
        let rest = l.skip(HELP_PREFIX@.len() as int);
        match find_from(rest, ' ', 0) {
            Some(i) => Some((rest.take(i), trim(rest.skip(i + 1)))),
            None => None,
        }
    } else {
        None
    }
}

/// The name and the kind text of a `# TYPE <name> <kind>` line: the kind is
/// what follows the last space, trimmed.
pub open spec fn type_decl(l: Seq<char>) -> Option<(Seq<char>, Seq<char>)> {
    if is_type_line(l) {
        let rest = l.skip(TYPE_PREFIX@.len() as int);
        match find_last(rest, ' ') {
            Some(i) => Some((rest.take(i), trim(rest.skip(i + 1)))),
            None => None,
        }
    } else {
        None
    }
}

pub open spec fn lines_view(v: Seq<Vec<String>>) -> Seq<Seq<Seq<char>>> {
    v.map_values(|x: Vec<String>| strs_view(x@))
}

/// The metric families of a payload: a new block starts at each comment line
/// that follows a non-comment line.
pub open spec fn blocks(lines: Seq<Seq<char>>) -> Seq<Seq<Seq<char>>>
    decreases lines.len(),
{
    if lines.len() == 0 {
        Seq::empty()
    } else {
        let b = blocks(lines.drop_last());
        let l = lines.last();
        if b.len() == 0 || (!is_comment(lines[lines.len() - 2]) && is_comment(l)) {
            b.push(seq![l])
        } else {
            b.update(b.len() - 1, b.last().push(l))
        }
    }
}

pub proof fn lemma_blocks_len(lines: Seq<Seq<char>>)
    ensures
        (lines.len() == 0) == (blocks(lines).len() == 0),
    decreases lines.len(),
{
    if lines.len() > 0 {
        lemma_blocks_len(lines.drop_last());
    }
}

/// The name and docstring of a `# HELP` line.
pub fn extract_name_docstring(line: &str) -> (r: Option<(String, String)>)
    ensures
        match r {
            Some(p) => name_docstring(line@) == Some((p.0@, p.1@)),
            None => name_docstring(line@) is None,
        },
{
    let cs = chars_of(line);
    if !has_prefix(&cs, HELP_PREFIX) {
        return None;
    }
    let p = HELP_PREFIX.unicode_len();
    let rest = substring(line, p, cs.len());
    let rc = chars_of(rest.as_str());
    match find_char(&rc, ' ', 0) {
        Some(i) => {
            assert(crate::text::is_first_at(rc@, ' ', 0, i as int));
            let name = substring(rest.as_str(), 0, i);
            let tail = substring(rest.as_str(), i + 1, rc.len());
            let doc = trimmed(tail.as_str());
            assert(rest@.take(i as int) =~= rest@.subrange(0, i as int));
            assert(rest@.skip(i + 1) =~= rest@.subrange(i + 1, rc.len() as int));
            assert(line@.skip(p as int) =~= rest@);
            Some((name, doc))
        },
        None => {
            assert(line@.skip(p as int) =~= rest@);
            None
        },
    }
}

/// The name and kind text of a `# TYPE` line.
pub fn extract_type(line: &str) -> (r: Option<(String, String)>)
    ensures
        match r {
            Some(p) => type_decl(line@) == Some((p.0@, p.1@)),
            None => type_decl(line@) is None,
        },
{
    let cs = chars_of(line);
    if !has_prefix(&cs, TYPE_PREFIX) {
        return None;
    }
    let p = TYPE_PREFIX.unicode_len();
    let rest = substring(line, p, cs.len());
    let rc = chars_of(rest.as_str());
    match rfind_char(&rc, ' ') {
        Some(i) => {
            assert(crate::text::is_last_at(rc@, ' ', i as int));
            let name = substring(rest.as_str(), 0, i);
            let tail = substring(rest.as_str(), i + 1, rc.len());
            let kind = trimmed(tail.as_str());
            assert(rest@.take(i as int) =~= rest@.subrange(0, i as int));
            assert(rest@.skip(i + 1) =~= rest@.subrange(i + 1, rc.len() as int));
            assert(line@.skip(p as int) =~= rest@);
            Some((name, kind))
        },
        None => {
            assert(line@.skip(p as int) =~= rest@);
            None
        },
    }
}

pub fn is_comment_line(l: &str) -> (r: bool)
    ensures
        r == is_comment(l@),
{
    let cs = chars_of(l);
    cs.len() > 0 && cs[0] == '#'
}

/// Splits a payload's lines into one block per metric family.
pub fn split_metric_lines(lines: Vec<String>) -> (r: Vec<Vec<String>>)
    ensures
        lines_view(r@) == blocks(strs_view(lines@)),
{
    let ghost lv = strs_view(lines@);
    let mut out: Vec<Vec<String>> = Vec::new();
    let mut cur: Vec<String> = Vec::new();
    let mut prev_comment = false;
    let mut i: usize = 0;
    assert(lv.take(0) =~= Seq::<Seq<char>>::empty());
    while i < lines.len()
        invariant
            lv == strs_view(lines@),
            i <= lines.len(),
            i == 0 ==> out@.len() == 0 && cur@.len() == 0,
            i > 0 ==> cur@.len() > 0 && lines_view(out@).push(strs_view(cur@)) == blocks(
                lv.take(i as int),
            ),
            i > 0 ==> prev_comment == is_comment(lv[i - 1]),
        decreases lines.len() - i,
    {
        let line = &lines[i];
        let comment = is_comment_line(line.as_str());
        let ghost t = lv.take(i + 1);
        assert(t.drop_last() =~= lv.take(i as int));
        assert(t.last() == line@);
        proof {
            lemma_blocks_len(lv.take(i as int));
        }
        if i > 0 && !prev_comment && comment {
            assert(t[t.len() - 2] == lv[i - 1]);
            let ghost old_out = out@;
            let done = cur;
            out.push(done);
            assert(lines_view(out@) =~= lines_view(old_out).push(strs_view(done@)));
            cur = Vec::new();
            cur.push(line.clone());
            assert(strs_view(cur@) =~= seq![line@]);
        } else {
            let ghost old_cur = cur@;
            cur.push(line.clone());
            assert(strs_view(cur@) =~= strs_view(old_cur).push(line@));
            if i > 0 {
                assert(t[t.len() - 2] == lv[i - 1]);
                assert(lines_view(out@).push(strs_view(cur@)) =~= blocks(lv.take(i as int)).update(
                    blocks(lv.take(i as int)).len() - 1,
                    blocks(lv.take(i as int)).last().push(line@),
                ));
            } else {
                assert(lines_view(out@) =~= Seq::<Seq<Seq<char>>>::empty());
                assert(strs_view(cur@) =~= seq![line@]);
                assert(lines_view(out@).push(strs_view(cur@)) =~= seq![seq![line@]]);
                assert(blocks(lv.take(0)) =~= Seq::<Seq<Seq<char>>>::empty());
            }
        }
        prev_comment = comment;
        i += 1;
    }
    assert(lv.take(i as int) =~= lv);
    if cur.len() > 0 {
        let ghost old_out = out@;
        out.push(cur);
        assert(lines_view(out@) =~= lines_view(old_out).push(strs_view(cur@)));
    } else {
        assert(lines_view(out@) =~= blocks(lv));
    }
    out
}

pub const COUNT_WITH_LABELS: &'static str = "_count{";

pub const COUNT_WITHOUT_LABELS: &'static str = "_count ";

/// The `_count` line that closes a histogram or summary group.
pub open spec fn is_count_line(l: Seq<char>) -> bool {
    contains_seq(l, COUNT_WITH_LABELS@) || contains_seq(l, COUNT_WITHOUT_LABELS@)
}

/// The groups of a histogram or summary block, each closed by a `_count`
/// line, and the lines after the last of them.
pub open spec fn grouped(lines: Seq<Seq<char>>) -> (Seq<Seq<Seq<char>>>, Seq<Seq<char>>)
    decreases lines.len(),
{
    if lines.len() == 0 {
        (Seq::empty(), Seq::empty())
    } else {
        let (g, cur) = grouped(lines.drop_last());
        let l = lines.last();
        if is_count_line(l) {
            (g.push(cur.push(l)), Seq::empty())
        } else {
            (g, cur.push(l))
        }
    }
}

pub fn is_count_line_text(l: &str) -> (r: bool)
    ensures
        r == is_count_line(l@),
{
    let cs = chars_of(l);
    contains_text(&cs, COUNT_WITH_LABELS) || contains_text(&cs, COUNT_WITHOUT_LABELS)
}

/// The groups of a histogram or summary block and the lines left after the last.
pub fn group_lines(lines: &[String]) -> (r: (Vec<Vec<String>>, Vec<String>))
    ensures
        (lines_view(r.0@), strs_view(r.1@)) == grouped(strs_view(lines@)),
{
    let ghost lv = strs_view(lines@);
    let mut out: Vec<Vec<String>> = Vec::new();
    let mut cur: Vec<String> = Vec::new();
    let mut i: usize = 0;
    assert(lv.take(0) =~= Seq::<Seq<char>>::empty());
    assert(lines_view(out@) =~= Seq::<Seq<Seq<char>>>::empty());
    assert(strs_view(cur@) =~= Seq::<Seq<char>>::empty());
    while i < lines.len()
        invariant
            lv == strs_view(lines@),
            i <= lines.len(),
            (lines_view(out@), strs_view(cur@)) == grouped(lv.take(i as int)),
        decreases lines.len() - i,
    {
        let line = &lines[i];
        let ghost t = lv.take(i + 1);
        assert(t.drop_last() =~= lv.take(i as int));
        assert(t.last() == line@);
        let ghost old_cur = cur@;
        cur.push(line.clone());
        assert(strs_view(cur@) =~= strs_view(old_cur).push(line@));
        if is_count_line_text(line.as_str()) {
            let ghost old_out = out@;
            let done = cur;
            out.push(done);
            assert(lines_view(out@) =~= lines_view(old_out).push(strs_view(done@)));
            cur = Vec::new();
            assert(strs_view(cur@) =~= Seq::<Seq<char>>::empty());
        }
        i += 1;
    }
    assert(lv.take(i as int) =~= lv);
    (out, cur)
}

/// Splits the sample lines of a histogram or summary block into groups, each
/// closed by its `_count` line; lines after the last such line are left out.
pub fn further_split_metric_lines_for_histogram(lines: &[String]) -> (r: Vec<Vec<String>>)
    ensures
        lines_view(r@) == grouped(strs_view(lines@)).0,
{
    let (groups, _rest) = group_lines(lines);
    groups
}

pub const LE_LABEL: &'static str = "le";

pub const QUANTILE_LABEL: &'static str = "quantile";

/// Why a block could not be decoded.
#[derive(Clone, Debug)]
pub enum DecodeError {
    /// A sample line came before the `# TYPE` line.
    SampleBeforeType { line: String },
    /// The block has no usable `# TYPE` line.
    MissingType,
    /// The `# TYPE` line names a kind other than gauge, counter, histogram, summary.
    UnknownKind { kind: String },
    /// A sample line with unbalanced braces or a value that is not a number.
    MalformedSample { line: String },
    /// A bucket or quantile line without its `le` or `quantile` label.
    MissingThreshold { line: String },
    /// A histogram or summary group without its `_sum` and `_count` lines.
    IncompleteGroup,
}

pub enum DecodeErrorV {
    SampleBeforeType(Seq<char>),
    MissingType,
    UnknownKind(Seq<char>),
    MalformedSample(Seq<char>),
    MissingThreshold(Seq<char>),
    IncompleteGroup,
}

impl View for DecodeError {
    type V = DecodeErrorV;

    open spec fn view(&self) -> DecodeErrorV {
        match self {
            DecodeError::SampleBeforeType { line } => DecodeErrorV::SampleBeforeType(line@),
            DecodeError::MissingType => DecodeErrorV::MissingType,
            DecodeError::UnknownKind { kind } => DecodeErrorV::UnknownKind(kind@),
            DecodeError::MalformedSample { line } => DecodeErrorV::MalformedSample(line@),
            DecodeError::MissingThreshold { line } => DecodeErrorV::MissingThreshold(line@),
            DecodeError::IncompleteGroup => DecodeErrorV::IncompleteGroup,
        }
    }
}

/// Every `{` has a `}` after it, and there is no `}` without a `{`.
pub open spec fn braces_ok(l: Seq<char>) -> bool {
    match find_from(l, '{', 0) {
        Some(f) => find_from(l, '}', f + 1) is Some,
        None => find_from(l, '}', 0) is None,
    }
}

/// The series key and the value token of a well-formed sample line.
pub open spec fn sample_parts(l: Seq<char>) -> Option<(Seq<char>, Seq<char>)> {
    if braces_ok(l) {
        match last_token(l) {
            Some(t) => if is_float_text(t) {
                Some((series_key(l), t))
            } else {
                None
            },
            None => None,
        }
    } else {
        None
    }
}

/// The value of the label `label` on a sample line.
pub open spec fn threshold(l: Seq<char>, label: Seq<char>) -> Option<Seq<char>> {
    match labels_text(l) {
        Some(t) => if decoded_labels(t).contains_key(label) {
            Some(decoded_labels(t)[label])
        } else {
            None
        },
        None => None,
    }
}

/// The samples of a gauge or counter block's lines after its `# TYPE` line:
/// blank and comment lines are skipped, and a later line of the same label
/// key replaces an earlier one.
pub open spec fn single_values(lines: Seq<Seq<char>>, ts: u64, counter: bool) -> Result<
    Map<Seq<char>, SampleV>,
    DecodeErrorV,
>
    decreases lines.len(),
{
    if lines.len() == 0 {
        Ok(Map::empty())
    } else {
        match single_values(lines.drop_last(), ts, counter) {
            Err(e) => Err(e),
            Ok(m) => {
                let l = lines.last();
                if !is_sample_line(l) {
                    Ok(m)
                } else {
                    match sample_parts(l) {
                        Some(p) => Ok(
                            m.insert(
                                p.0,
                                if counter {
                                    SampleV::Counter { timestamp: ts, value: p.1 }
                                } else {
                                    SampleV::Gauge { timestamp: ts, value: p.1 }
                                },
                            ),
                        ),
                        None => Err(DecodeErrorV::MalformedSample(l)),
                    }
                }
            },
        }
    }
}

/// The lines that carry samples.
pub open spec fn data_lines(lines: Seq<Seq<char>>) -> Seq<Seq<char>>
    decreases lines.len(),
{
    if lines.len() == 0 {
        Seq::empty()
    } else if is_sample_line(lines.last()) {
        data_lines(lines.drop_last()).push(lines.last())
    } else {
        data_lines(lines.drop_last())
    }
}

/// A bucket line: its `le` label and its whole-number count.
pub open spec fn bucket_of(l: Seq<char>) -> Result<(Seq<char>, u64), DecodeErrorV> {
    match sample_parts(l) {
        None => Err(DecodeErrorV::MalformedSample(l)),
        Some(p) => match threshold(l, LE_LABEL@) {
            None => Err(DecodeErrorV::MissingThreshold(l)),
            Some(th) => match count_value(p.1) {
                None => Err(DecodeErrorV::MalformedSample(l)),
                Some(c) => Ok((th, c)),
            },
        },
    }
}

/// A quantile line: its `quantile` label and its value.
pub open spec fn quantile_of(l: Seq<char>) -> Result<(Seq<char>, Seq<char>), DecodeErrorV> {
    match sample_parts(l) {
        None => Err(DecodeErrorV::MalformedSample(l)),
        Some(p) => match threshold(l, QUANTILE_LABEL@) {
            None => Err(DecodeErrorV::MissingThreshold(l)),
            Some(th) => Ok((th, p.1)),
        },
    }
}

pub open spec fn buckets_of(lines: Seq<Seq<char>>) -> Result<Seq<(Seq<char>, u64)>, DecodeErrorV>
    decreases lines.len(),
{
    if lines.len() == 0 {
        Ok(Seq::empty())
    } else {
        match buckets_of(lines.drop_last()) {
            Err(e) => Err(e),
            Ok(bs) => match bucket_of(lines.last()) {
                Err(e) => Err(e),
                Ok(b) => Ok(bs.push(b)),
            },
        }
    }
}

pub open spec fn quantiles_of(lines: Seq<Seq<char>>) -> Result<
    Seq<(Seq<char>, Seq<char>)>,
    DecodeErrorV,
>
    decreases lines.len(),
{
    if lines.len() == 0 {
        Ok(Seq::empty())
    } else {
        match quantiles_of(lines.drop_last()) {
            Err(e) => Err(e),
            Ok(qs) => match quantile_of(lines.last()) {
                Err(e) => Err(e),
                Ok(q) => Ok(qs.push(q)),
            },
        }
    }
}

/// The closing `_sum` and `_count` lines of a group: the group's series key
/// (from the `_count` line), its sum and its count.
pub open spec fn group_end(g: Seq<Seq<char>>) -> Result<(Seq<char>, Seq<char>, u64), DecodeErrorV> {
    let sum_line = g[g.len() - 2];
    let count_line = g[g.len() - 1];
    match sample_parts(sum_line) {
        None => Err(DecodeErrorV::MalformedSample(sum_line)),
        Some(sp) => match sample_parts(count_line) {
            None => Err(DecodeErrorV::MalformedSample(count_line)),
            Some(cp) => match count_value(cp.1) {
                None => Err(DecodeErrorV::MalformedSample(count_line)),
                Some(c) => Ok((cp.0, sp.1, c)),
            },
        },
    }
}

/// One group of a histogram (`histogram`) or summary block: its bucket or
/// quantile lines, then one `_sum` line, then one `_count` line.
pub open spec fn group_sample(g: Seq<Seq<char>>, ts: u64, histogram: bool) -> Result<
    (Seq<char>, SampleV),
    DecodeErrorV,
> {
    if g.len() < 2 {
        Err(DecodeErrorV::IncompleteGroup)
    } else if histogram {
        match buckets_of(g.take(g.len() - 2)) {
            Err(e) => Err(e),
            Ok(bs) => match group_end(g) {
                Err(e) => Err(e),
                Ok(end) => Ok(
                    (
                        end.0,
                        SampleV::Histogram { timestamp: ts, buckets: bs, sum: end.1, count: end.2 },
                    ),
                ),
            },
        }
    } else {
        match quantiles_of(g.take(g.len() - 2)) {
            Err(e) => Err(e),
            Ok(qs) => match group_end(g) {
                Err(e) => Err(e),
                Ok(end) => Ok(
                    (
                        end.0,
                        SampleV::Summary {
                            timestamp: ts,
                            quantiles: qs,
                            sum: end.1,
                            count: end.2,
                        },
                    ),
                ),
            },
        }
    }
}

pub open spec fn groups_samples(gs: Seq<Seq<Seq<char>>>, ts: u64, histogram: bool) -> Result<
    Map<Seq<char>, SampleV>,
    DecodeErrorV,
>
    decreases gs.len(),
{
    if gs.len() == 0 {
        Ok(Map::empty())
    } else {
        match groups_samples(gs.drop_last(), ts, histogram) {
            Err(e) => Err(e),
            Ok(m) => match group_sample(gs.last(), ts, histogram) {
                Err(e) => Err(e),
                Ok(p) => Ok(m.insert(p.0, p.1)),
            },
        }
    }
}

/// The samples of a histogram or summary block's lines after its `# TYPE`
/// line: every sample line must belong to a group that its `_count` line closes.
pub open spec fn grouped_samples(lines: Seq<Seq<char>>, ts: u64, histogram: bool) -> Result<
    Map<Seq<char>, SampleV>,
    DecodeErrorV,
> {
    let (gs, rest) = grouped(data_lines(lines));
    match groups_samples(gs, ts, histogram) {
        Err(e) => Err(e),
        Ok(m) => if rest.len() > 0 {
            Err(DecodeErrorV::IncompleteGroup)
        } else {
            Ok(m)
        },
    }
}

/// A line that ends the header of a block: the `# TYPE` line, or a sample line.
pub open spec fn ends_header(l: Seq<char>) -> bool {
    is_type_line(l) || is_sample_line(l)
}

pub open spec fn is_header_end(lines: Seq<Seq<char>>, h: int) -> bool {
    0 <= h < lines.len() && ends_header(lines[h]) && forall|j: int|
        0 <= j < h ==> !ends_header(#[trigger] lines[j])
}

/// Where the header of a block ends.
pub open spec fn header_end(lines: Seq<Seq<char>>) -> Option<int> {
    if exists|h: int| is_header_end(lines, h) {
        Some(choose|h: int| is_header_end(lines, h))
    } else {
        None
    }
}

/// The name and docstring of the last well-formed `# HELP` line.
pub open spec fn last_help(lines: Seq<Seq<char>>) -> Option<(Seq<char>, Seq<char>)>
    decreases lines.len(),
{
    if lines.len() == 0 {
        None
    } else {
        match name_docstring(lines.last()) {
            Some(p) => Some(p),
            None => last_help(lines.drop_last()),
        }
    }
}

pub open spec fn kind_of(t: Seq<char>) -> Option<MetricType> {
    if t == "gauge"@ {
        Some(MetricType::Gauge)
    } else if t == "counter"@ {
        Some(MetricType::Counter)
    } else if t == "histogram"@ {
        Some(MetricType::Histogram)
    } else if t == "summary"@ {
        Some(MetricType::Summary)
    } else {
        None
    }
}

/// The samples of a block's lines after its `# TYPE` line, by kind.
pub open spec fn body_samples(body: Seq<Seq<char>>, ts: u64, kind: MetricType) -> Result<
    Map<Seq<char>, SampleV>,
    DecodeErrorV,
> {
    match kind {
        MetricType::Gauge => single_values(body, ts, false),
        MetricType::Counter => single_values(body, ts, true),
        MetricType::Histogram => grouped_samples(body, ts, true),
        MetricType::Summary => grouped_samples(body, ts, false),
    }
}

/// What one block decodes to. Before the `# TYPE` line come only comments and
/// blank lines; the name is that of the last `# HELP` line, or else that of
/// the `# TYPE` line; the docstring is that of the last `# HELP` line, or empty.
pub open spec fn decoded(lines: Seq<Seq<char>>, ts: u64) -> Result<SnapshotV, DecodeErrorV> {
    match header_end(lines) {
        None => Err(DecodeErrorV::MissingType),
        Some(h) => if !is_type_line(lines[h]) {
            Err(DecodeErrorV::SampleBeforeType(lines[h]))
        } else {
            match type_decl(lines[h]) {
                None => Err(DecodeErrorV::MissingType),
                Some(td) => match kind_of(td.1) {
                    None => Err(DecodeErrorV::UnknownKind(td.1)),
                    Some(kind) => {
                        let help = last_help(lines.take(h));
                        let name = match help {
                            Some(p) => p.0,
                            None => td.0,
                        };
                        let doc = match help {
                            Some(p) => p.1,
                            None => Seq::empty(),
                        };
                        match body_samples(lines.skip(h + 1), ts, kind) {
                            Err(e) => Err(e),
                            Ok(m) => Ok(
                                SnapshotV { name: name, docstring: doc, kind: kind, samples: m },
                            ),
                        }
                    },
                },
            }
        },
    }
}

pub fn is_sample_line_text(l: &str) -> (r: bool)
    ensures
        r == is_sample_line(l@),
{
    !is_comment_line(l) && !is_blank_line(l)
}

/// The series key and the value token of a sample line, if it is well formed.
pub fn parse_sample_line(l: &str) -> (r: Option<(String, String)>)
    ensures
        match r {
            Some(p) => sample_parts(l@) == Some((p.0@, p.1@)),
            None => sample_parts(l@) is None,
        },
{
    let cs = chars_of(l);
    let key = match find_char(&cs, '{', 0) {
        Some(f) => {
            assert(crate::text::is_first_at(cs@, '{', 0, f as int));
            assert(f < cs.len());
            match find_char(&cs, '}', f + 1) {
                Some(e) => {
                    assert(crate::text::is_first_at(cs@, '}', f + 1, e as int));
                    substring(l, f + 1, e)
                },
                None => {
                    return None;
                },
            }
        },
        None => match find_char(&cs, '}', 0) {
            Some(_) => {
                return None;
            },
            None => NO_LABELS_KEY.to_owned(),
        },
    };
    assert(key@ == series_key(l@));
    match last_token_of(l) {
        Some(t) => if is_float_token(t.as_str()) {
            Some((key, t))
        } else {
            None
        },
        None => None,
    }
}

fn threshold_of(l: &str, label: &str) -> (r: Option<String>)
    ensures
        match r {
            Some(v) => threshold(l@, label@) == Some(v@),
            None => threshold(l@, label@) is None,
        },
{
    match extract_labels(l) {
        Some(t) => {
            let m = decode_labels(t.as_str());
            match m.get(label) {
                Some(v) => Some(v.clone()),
                None => None,
            }
        },
        None => None,
    }
}

fn decode_bucket(l: &str) -> (r: Result<Bucket, DecodeError>)
    ensures
        match r {
            Ok(b) => bucket_of(l@) == Ok::<(Seq<char>, u64), DecodeErrorV>(b@),
            Err(e) => bucket_of(l@) == Err::<(Seq<char>, u64), DecodeErrorV>(e@),
        },
{
    match parse_sample_line(l) {
        None => Err(DecodeError::MalformedSample { line: l.to_owned() }),
        Some((_key, token)) => match threshold_of(l, LE_LABEL) {
            None => Err(DecodeError::MissingThreshold { line: l.to_owned() }),
            Some(th) => match parse_count(token.as_str()) {
                None => Err(DecodeError::MalformedSample { line: l.to_owned() }),
                Some(c) => Ok(Bucket::new(th, c)),
            },
        },
    }
}

fn decode_quantile(l: &str) -> (r: Result<Quantil, DecodeError>)
    ensures
        match r {
            Ok(q) => quantile_of(l@) == Ok::<(Seq<char>, Seq<char>), DecodeErrorV>(q@),
            Err(e) => quantile_of(l@) == Err::<(Seq<char>, Seq<char>), DecodeErrorV>(e@),
        },
{
    match parse_sample_line(l) {
        None => Err(DecodeError::MalformedSample { line: l.to_owned() }),
        Some((_key, token)) => match threshold_of(l, QUANTILE_LABEL) {
            None => Err(DecodeError::MissingThreshold { line: l.to_owned() }),
            Some(th) => Ok(Quantil { name: th, value: token }),
        },
    }
}

fn decode_group(g: &Vec<String>, ts: u64, histogram: bool) -> (r: Result<
    (String, Sample),
    DecodeError,
>)
    ensures
        match r {
            Ok(p) => group_sample(strs_view(g@), ts, histogram) == Ok::<
                (Seq<char>, SampleV),
                DecodeErrorV,
            >((p.0@, p.1@)),
            Err(e) => group_sample(strs_view(g@), ts, histogram) == Err::<
                (Seq<char>, SampleV),
                DecodeErrorV,
            >(e@),
        },
{
    let ghost gv = strs_view(g@);
    let n = g.len();
    if n < 2 {
        return Err(DecodeError::IncompleteGroup);
    }
    let ghost items = gv.take(n - 2);
    let sum_line = g[n - 2].as_str();
    let count_line = g[n - 1].as_str();
    if histogram {
        let mut res: Result<Vec<Bucket>, DecodeError> = Ok(Vec::new());
        let mut j: usize = 0;
        assert(items.take(0) =~= Seq::<Seq<char>>::empty());
        assert(buckets_view(Seq::<Bucket>::empty()) =~= Seq::<(Seq<char>, u64)>::empty());
        while j < n - 2
            invariant
                gv == strs_view(g@),
                n == g.len(),
                items == gv.take(n - 2),
                j <= n - 2,
                match res {
                    Ok(bs) => buckets_of(items.take(j as int)) == Ok::<
                        Seq<(Seq<char>, u64)>,
                        DecodeErrorV,
                    >(buckets_view(bs@)),
                    Err(e) => buckets_of(items.take(j as int)) == Err::<
                        Seq<(Seq<char>, u64)>,
                        DecodeErrorV,
                    >(e@),
                },
            decreases n - 2 - j,
        {
            assert(items.take(j + 1).drop_last() =~= items.take(j as int));
            assert(items.take(j + 1).last() == g@[j as int]@);
            res = match res {
                Ok(mut bs) => match decode_bucket(g[j].as_str()) {
                    Ok(b) => {
                        let ghost old_bs = bs@;
                        bs.push(b);
                        assert(buckets_view(bs@) =~= buckets_view(old_bs).push(b@));
                        Ok(bs)
                    },
                    Err(e) => Err(e),
                },
                Err(e) => Err(e),
            };
            j += 1;
        }
        assert(items.take(j as int) =~= items);
        match res {
            Err(e) => Err(e),
            Ok(bs) => match parse_sample_line(sum_line) {
                None => Err(DecodeError::MalformedSample { line: sum_line.to_owned() }),
                Some((_k, sum)) => match parse_sample_line(count_line) {
                    None => Err(DecodeError::MalformedSample { line: count_line.to_owned() }),
                    Some((key, ct)) => match parse_count(ct.as_str()) {
                        None => Err(DecodeError::MalformedSample { line: count_line.to_owned() }),
                        Some(count) => Ok(
                            (
                                key,
                                Sample::HistogramSample(
                                    HistogramValueSample {
                                        timestamp: ts,
                                        bucket_values: bs,
                                        sum,
                                        count,
                                    },
                                ),
                            ),
                        ),
                    },
                },
            },
        }
    } else {
        let mut res: Result<Vec<Quantil>, DecodeError> = Ok(Vec::new());
        let mut j: usize = 0;
        assert(items.take(0) =~= Seq::<Seq<char>>::empty());
        assert(quantiles_view(Seq::<Quantil>::empty()) =~= Seq::<(Seq<char>, Seq<char>)>::empty());
        while j < n - 2
            invariant
                gv == strs_view(g@),
                n == g.len(),
                items == gv.take(n - 2),
                j <= n - 2,
                match res {
                    Ok(qs) => quantiles_of(items.take(j as int)) == Ok::<
                        Seq<(Seq<char>, Seq<char>)>,
                        DecodeErrorV,
                    >(quantiles_view(qs@)),
                    Err(e) => quantiles_of(items.take(j as int)) == Err::<
                        Seq<(Seq<char>, Seq<char>)>,
                        DecodeErrorV,
                    >(e@),
                },
            decreases n - 2 - j,
        {
            assert(items.take(j + 1).drop_last() =~= items.take(j as int));
            assert(items.take(j + 1).last() == g@[j as int]@);
            res = match res {
                Ok(mut qs) => match decode_quantile(g[j].as_str()) {
                    Ok(q) => {
                        let ghost old_qs = qs@;
                        qs.push(q);
                        assert(quantiles_view(qs@) =~= quantiles_view(old_qs).push(q@));
                        Ok(qs)
                    },
                    Err(e) => Err(e),
                },
                Err(e) => Err(e),
            };
            j += 1;
        }
        assert(items.take(j as int) =~= items);
        match res {
            Err(e) => Err(e),
            Ok(qs) => match parse_sample_line(sum_line) {
                None => Err(DecodeError::MalformedSample { line: sum_line.to_owned() }),
                Some((_k, sum)) => match parse_sample_line(count_line) {
                    None => Err(DecodeError::MalformedSample { line: count_line.to_owned() }),
                    Some((key, ct)) => match parse_count(ct.as_str()) {
                        None => Err(DecodeError::MalformedSample { line: count_line.to_owned() }),
                        Some(count) => Ok(
                            (
                                key,
                                Sample::SummarySample(
                                    SummaryValueSample { timestamp: ts, quantiles: qs, sum, count },
                                ),
                            ),
                        ),
                    },
                },
            },
        }
    }
}

/// The samples, one per label key, as a sorted vector of entries.
pub open spec fn samples_match(
    r: Result<Vec<(String, Sample)>, DecodeError>,
    spec: Result<Map<Seq<char>, SampleV>, DecodeErrorV>,
) -> bool {
    match r {
        Ok(v) => sorted_keys(entries_view(v@)) && spec == Ok::<
            Map<Seq<char>, SampleV>,
            DecodeErrorV,
        >(map_of(entries_view(v@))),
        Err(e) => spec == Err::<Map<Seq<char>, SampleV>, DecodeErrorV>(e@),
    }
}

fn decode_single_values(body: &Vec<String>, ts: u64, counter: bool) -> (r: Result<
    Vec<(String, Sample)>,
    DecodeError,
>)
    ensures
        samples_match(r, single_values(strs_view(body@), ts, counter)),
{
    let ghost bv = strs_view(body@);
    let mut res: Result<Vec<(String, Sample)>, DecodeError> = Ok(Vec::new());
    let mut i: usize = 0;
    assert(bv.take(0) =~= Seq::<Seq<char>>::empty());
    assert(map_of(entries_view(Seq::<(String, Sample)>::empty())) =~= Map::<
        Seq<char>,
        SampleV,
    >::empty());
    while i < body.len()
        invariant
            bv == strs_view(body@),
            i <= body.len(),
            samples_match(res, single_values(bv.take(i as int), ts, counter)),
        decreases body.len() - i,
    {
        let line = body[i].as_str();
        assert(bv.take(i + 1).drop_last() =~= bv.take(i as int));
        assert(bv.take(i + 1).last() == line@);
        res = match res {
            Err(e) => Err(e),
            Ok(mut entries) => {
                if !is_sample_line_text(line) {
                    Ok(entries)
                } else {
                    match parse_sample_line(line) {
                        None => Err(DecodeError::MalformedSample { line: line.to_owned() }),
                        Some((key, value)) => {
                            let sample = if counter {
                                Sample::CounterSample(SingleValueSample { timestamp: ts, value })
                            } else {
                                Sample::GaugeSample(SingleValueSample { timestamp: ts, value })
                            };
                            put_entry(&mut entries, key, sample);
                            Ok(entries)
                        },
                    }
                }
            },
        };
        i += 1;
    }
    assert(bv.take(i as int) =~= bv);
    res
}

fn decode_grouped(body: &Vec<String>, ts: u64, histogram: bool) -> (r: Result<
    Vec<(String, Sample)>,
    DecodeError,
>)
    ensures
        samples_match(r, grouped_samples(strs_view(body@), ts, histogram)),
{
    let ghost bv = strs_view(body@);
    let mut data: Vec<String> = Vec::new();
    let mut i: usize = 0;
    assert(bv.take(0) =~= Seq::<Seq<char>>::empty());
    assert(strs_view(data@) =~= Seq::<Seq<char>>::empty());
    while i < body.len()
        invariant
            bv == strs_view(body@),
            i <= body.len(),
            strs_view(data@) == data_lines(bv.take(i as int)),
        decreases body.len() - i,
    {
        assert(bv.take(i + 1).drop_last() =~= bv.take(i as int));
        assert(bv.take(i + 1).last() == body@[i as int]@);
        if is_sample_line_text(body[i].as_str()) {
            let ghost old_data = data@;
            data.push(body[i].clone());
            assert(strs_view(data@) =~= strs_view(old_data).push(body@[i as int]@));
        }
        i += 1;
    }
    assert(bv.take(i as int) =~= bv);
    let (groups, rest) = group_lines(data.as_slice());
    let ghost gv = lines_view(groups@);
    let mut res: Result<Vec<(String, Sample)>, DecodeError> = Ok(Vec::new());
    let mut k: usize = 0;
    assert(gv.take(0) =~= Seq::<Seq<Seq<char>>>::empty());
    assert(map_of(entries_view(Seq::<(String, Sample)>::empty())) =~= Map::<
        Seq<char>,
        SampleV,
    >::empty());
    while k < groups.len()
        invariant
            gv == lines_view(groups@),
            k <= groups.len(),
            samples_match(res, groups_samples(gv.take(k as int), ts, histogram)),
        decreases groups.len() - k,
    {
        assert(gv.take(k + 1).drop_last() =~= gv.take(k as int));
        assert(gv.take(k + 1).last() == strs_view(groups@[k as int]@));
        res = match res {
            Err(e) => Err(e),
            Ok(mut entries) => match decode_group(&groups[k], ts, histogram) {
                Err(e) => Err(e),
                Ok((key, sample)) => {
                    put_entry(&mut entries, key, sample);
                    Ok(entries)
                },
            },
        };
        k += 1;
    }
    assert(gv.take(k as int) =~= gv);
    match res {
        Err(e) => Err(e),
        Ok(entries) => if rest.len() > 0 {
            Err(DecodeError::IncompleteGroup)
        } else {
            Ok(entries)
        },
    }
}

/// Decodes one block of lines, the lines of one metric family.
pub fn decode_single_scrape_metric(lines: Vec<String>, timestamp: u64) -> (r: Result<
    SingleScrapeMetric,
    DecodeError,
>)
    ensures
        match r {
            Ok(m) => m.wf() && decoded(strs_view(lines@), timestamp) == Ok::<
                SnapshotV,
                DecodeErrorV,
            >(m@),
            Err(e) => decoded(strs_view(lines@), timestamp) == Err::<SnapshotV, DecodeErrorV>(
                e@,
            ),
        },
{
    let ghost lv = strs_view(lines@);
    let n = lines.len();
    let mut help: Option<(String, String)> = None;
    let mut i: usize = 0;
    assert(lv.take(0) =~= Seq::<Seq<char>>::empty());
    while i < n && !(is_type_line_text(lines[i].as_str()) || is_sample_line_text(
        lines[i].as_str(),
    ))
        invariant
            lv == strs_view(lines@),
            n == lines.len(),
            i <= n,
            forall|j: int| 0 <= j < i ==> !ends_header(#[trigger] lv[j]),
            match help {
                Some(p) => last_help(lv.take(i as int)) == Some((p.0@, p.1@)),
                None => last_help(lv.take(i as int)) is None,
            },
        decreases n - i,
    {
        assert(lv.take(i + 1).drop_last() =~= lv.take(i as int));
        assert(lv.take(i + 1).last() == lv[i as int]);
        match extract_name_docstring(lines[i].as_str()) {
            Some(p) => {
                help = Some(p);
            },
            None => {},
        }
        i += 1;
    }
    if i == n {
        assert forall|h: int| !is_header_end(lv, h) by {
            if 0 <= h < lv.len() {
                assert(!ends_header(lv[h]));
            }
        }
        return Err(DecodeError::MissingType);
    }
    proof {
        assert(is_header_end(lv, i as int));
        assert forall|h: int| is_header_end(lv, h) implies h == i by {
            if h < i {
                assert(!ends_header(lv[h]));
            } else if h > i {
                assert(!ends_header(lv[i as int]));
            }
        }
    }
    let head = lines[i].as_str();
    if !is_type_line_text(head) {
        return Err(DecodeError::SampleBeforeType { line: head.to_owned() });
    }
    let (declared_name, kind_text) = match extract_type(head) {
        None => {
            return Err(DecodeError::MissingType);
        },
        Some(p) => p,
    };
    let kind = if text_eq(kind_text.as_str(), "gauge") {
        MetricType::Gauge
    } else if text_eq(kind_text.as_str(), "counter") {
        MetricType::Counter
    } else if text_eq(kind_text.as_str(), "histogram") {
        MetricType::Histogram
    } else if text_eq(kind_text.as_str(), "summary") {
        MetricType::Summary
    } else {
        return Err(DecodeError::UnknownKind { kind: kind_text });
    };
    let (name, docstring) = match help {
        Some(p) => p,
        None => (declared_name, String::new()),
    };
    let mut body: Vec<String> = Vec::new();
    let mut j: usize = i + 1;
    assert(lv.subrange(i + 1, i + 1) =~= Seq::<Seq<char>>::empty());
    assert(strs_view(body@) =~= Seq::<Seq<char>>::empty());
    while j < n
        invariant
            lv == strs_view(lines@),
            n == lines.len(),
            i < n,
            i + 1 <= j <= n,
            strs_view(body@) == lv.subrange(i + 1, j as int),
        decreases n - j,
    {
        let ghost old_body = body@;
        body.push(lines[j].clone());
        assert(strs_view(body@) =~= strs_view(old_body).push(lv[j as int]));
        assert(lv.subrange(i + 1, j + 1) =~= lv.subrange(i + 1, j as int).push(lv[j as int]));
        j += 1;
    }
    assert(lv.subrange(i + 1, n as int) =~= lv.skip(i + 1));
    let samples = match kind {
        MetricType::Gauge => decode_single_values(&body, timestamp, false),
        MetricType::Counter => decode_single_values(&body, timestamp, true),
        MetricType::Histogram => decode_grouped(&body, timestamp, true),
        MetricType::Summary => decode_grouped(&body, timestamp, false),
    };
    match samples {
        Err(e) => Err(e),
        Ok(value_per_labels) => Ok(
            SingleScrapeMetric { name, docstring, metric_type: kind, value_per_labels },
        ),
    }
}

pub fn is_type_line_text(l: &str) -> (r: bool)
    ensures
        r == is_type_line(l@),
{
    let cs = chars_of(l);
    has_prefix(&cs, TYPE_PREFIX)
}

} // verus!
