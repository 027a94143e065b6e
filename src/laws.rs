//! Properties that relate several operations of the library.

use crate::model::{merged, strictly_sorted, MetricV, SampleV, SnapshotV};
use crate::numbers::count_value;
use crate::parser::{
    blocks, is_comment,
    bucket_of, buckets_of, data_lines, decoded, grouped, is_count_line, is_sample_line,
    is_type_line, sample_parts, type_decl, kind_of, header_end, is_header_end,
    DecodeErrorV,
};
use crate::scraper::{error_message, scrape_blocks, FETCH_FAILED};
use crate::sorted::{lemma_less_asymmetric, seq_less};
use vstd::prelude::*;

verus! {

/// Merging two snapshots of one metric, decoded from two blocks, in turn into
/// a history that did not know the metric leaves, in the series of each label
/// key that both blocks carry, exactly two samples: the first block's, then
/// the second's.
pub proof fn lemma_two_merges_two_samples(
    h: Map<Seq<char>, MetricV>,
    first: Seq<Seq<char>>,
    t1: u64,
    second: Seq<Seq<char>>,
    t2: u64,
    key: Seq<char>,
)
    requires
        decoded(first, t1) is Ok,
        decoded(second, t2) is Ok,
        decoded(first, t1)->Ok_0.name == decoded(second, t2)->Ok_0.name,
        !h.contains_key(decoded(first, t1)->Ok_0.name),
        decoded(first, t1)->Ok_0.samples.contains_key(key),
        decoded(second, t2)->Ok_0.samples.contains_key(key),
    ensures
        ({
            let a = decoded(first, t1)->Ok_0;
            let b = decoded(second, t2)->Ok_0;
            let s = merged(merged(h, a), b)[a.name].series[key].samples;
            s.len() == 2 && s[0] == a.samples[key] && s[1] == b.samples[key]
        }),
{
    let a = decoded(first, t1)->Ok_0;
    let b = decoded(second, t2)->Ok_0;
    let h1 = merged(h, a);
    assert(h1[a.name].series.contains_key(key));
    assert(h1[a.name].series[key].samples =~= seq![a.samples[key]]);
    let h2 = merged(h1, b);
    assert(h2[a.name].series[key].samples =~= seq![a.samples[key], b.samples[key]]);
}

/// Each merge appends exactly one sample, the snapshot's, to the series of
/// each label key that the snapshot carries, and leaves the other series as
/// they were: no sample is lost or duplicated.
pub proof fn lemma_merge_appends_one(h: Map<Seq<char>, MetricV>, snap: SnapshotV, key: Seq<char>)
    ensures
        ({
            let known = h.contains_key(snap.name) && h[snap.name].series.contains_key(key);
            let before: Seq<SampleV> = if known {
                h[snap.name].series[key].samples
            } else {
                Seq::empty()
            };
            let after = merged(h, snap)[snap.name].series;
            if snap.samples.contains_key(key) {
                after.contains_key(key) && after[key].samples == before.push(snap.samples[key])
            } else {
                after.contains_key(key) == known && (known ==> after[key]
                    == h[snap.name].series[key])
            }
        }),
{
    let after = merged(h, snap)[snap.name].series;
    if snap.samples.contains_key(key) && !(h.contains_key(snap.name)
        && h[snap.name].series.contains_key(key)) {
        assert(after[key].samples =~= Seq::<SampleV>::empty().push(snap.samples[key]));
    }
}

/// Sequences in strictly increasing order that hold the same elements are
/// equal: the order of metric names and of label keys depends on the set
/// alone, so repeated queries of an unchanged history agree.
pub proof fn lemma_sorted_order_unique(a: Seq<Seq<char>>, b: Seq<Seq<char>>)
    requires
        strictly_sorted(a),
        strictly_sorted(b),
        forall|k: Seq<char>| a.contains(k) <==> b.contains(k),
    ensures
        a == b,
    decreases a.len(),
{
    if a.len() == 0 {
        if b.len() > 0 {
            assert(b.contains(b[0]));
        }
        assert(a =~= b);
    } else if b.len() == 0 {
        assert(a.contains(a[0]));
    } else {
        assert(a.contains(a[0]));
        assert(b.contains(b[0]));
        let i = choose|i: int| 0 <= i < a.len() && a[i] == b[0];
        let j = choose|j: int| 0 <= j < b.len() && b[j] == a[0];
        if i > 0 && j > 0 {
            assert(seq_less(a[0], a[i]));
            assert(seq_less(b[0], b[j]));
            lemma_less_asymmetric(a[0], b[0]);
        }
        if i > 0 && j == 0 {
            assert(seq_less(a[0], a[i]));
            crate::sorted::lemma_less_irreflexive(a[0]);
        }
        if i == 0 && j > 0 {
            assert(seq_less(b[0], b[j]));
            crate::sorted::lemma_less_irreflexive(b[0]);
        }
        assert(a[0] == b[0]);
        let a1 = a.drop_first();
        let b1 = b.drop_first();
        assert forall|k: Seq<char>| a1.contains(k) <==> b1.contains(k) by {
            if a1.contains(k) {
                let p = choose|p: int| 0 <= p < a1.len() && a1[p] == k;
                assert(a.contains(k) && a[p + 1] == k);
                assert(seq_less(a[0], a[p + 1]));
                let q = choose|q: int| 0 <= q < b.len() && b[q] == k;
                if q == 0 {
                    crate::sorted::lemma_less_irreflexive(k);
                }
                assert(b1[q - 1] == k);
            }
            if b1.contains(k) {
                let p = choose|p: int| 0 <= p < b1.len() && b1[p] == k;
                assert(b.contains(k) && b[p + 1] == k);
                assert(seq_less(b[0], b[p + 1]));
                let q = choose|q: int| 0 <= q < a.len() && a[q] == k;
                if q == 0 {
                    crate::sorted::lemma_less_irreflexive(k);
                }
                assert(a1[q - 1] == k);
            }
        }
        assert(strictly_sorted(a1)) by {
            assert forall|x: int, y: int| 0 <= x < y < a1.len() implies seq_less(
                #[trigger] a1[x],
                #[trigger] a1[y],
            ) by {
                assert(seq_less(a[x + 1], a[y + 1]));
            }
        }
        assert(strictly_sorted(b1)) by {
            assert forall|x: int, y: int| 0 <= x < y < b1.len() implies seq_less(
                #[trigger] b1[x],
                #[trigger] b1[y],
            ) by {
                assert(seq_less(b[x + 1], b[y + 1]));
            }
        }
        lemma_sorted_order_unique(a1, b1);
        assert(a =~= seq![a[0]] + a1);
        assert(b =~= seq![b[0]] + b1);
    }
}

/// Two header lists of one history, each in strictly increasing order and
/// holding exactly the names of the history's metrics, are identical.
pub proof fn lemma_headers_repeatable(
    h: Map<Seq<char>, MetricV>,
    first: Seq<Seq<char>>,
    second: Seq<Seq<char>>,
)
    requires
        strictly_sorted(first),
        strictly_sorted(second),
        forall|k: Seq<char>| h.contains_key(k) <==> first.contains(k),
        forall|k: Seq<char>| h.contains_key(k) <==> second.contains(k),
    ensures
        first == second,
{
    lemma_sorted_order_unique(first, second);
}

proof fn lemma_data_lines_all(s: Seq<Seq<char>>)
    requires
        forall|i: int| 0 <= i < s.len() ==> is_sample_line(#[trigger] s[i]),
    ensures
        data_lines(s) == s,
    decreases s.len(),
{
    if s.len() > 0 {
        lemma_data_lines_all(s.drop_last());
        assert(is_sample_line(s[s.len() - 1]));
        assert(s.drop_last().push(s.last()) =~= s);
    }
}

proof fn lemma_grouped_open(s: Seq<Seq<char>>)
    requires
        forall|i: int| 0 <= i < s.len() ==> !is_count_line(#[trigger] s[i]),
    ensures
        grouped(s) == (Seq::<Seq<Seq<char>>>::empty(), s),
    decreases s.len(),
{
    if s.len() > 0 {
        lemma_grouped_open(s.drop_last());
        assert(!is_count_line(s[s.len() - 1]));
        assert(s.drop_last().push(s.last()) =~= s);
    }
}

/// What each bucket line of a histogram group reads as.
pub open spec fn bucket_values_of(lines: Seq<Seq<char>>) -> Seq<(Seq<char>, u64)> {
    lines.map_values(|l: Seq<char>| bucket_of(l)->Ok_0)
}

proof fn lemma_buckets_all(s: Seq<Seq<char>>)
    requires
        forall|i: int| 0 <= i < s.len() ==> (#[trigger] bucket_of(s[i])) is Ok,
    ensures
        buckets_of(s) == Ok::<Seq<(Seq<char>, u64)>, DecodeErrorV>(bucket_values_of(s)),
    decreases s.len(),
{
    if s.len() > 0 {
        assert forall|i: int| 0 <= i < s.drop_last().len() implies (#[trigger] bucket_of(
            s.drop_last()[i],
        )) is Ok by {
            assert(s.drop_last()[i] == s[i]);
        }
        lemma_buckets_all(s.drop_last());
        assert(bucket_of(s[s.len() - 1]) is Ok);
        assert(bucket_values_of(s.drop_last()).push(bucket_of(s.last())->Ok_0) =~= bucket_values_of(
            s,
        ));
    } else {
        assert(bucket_values_of(s) =~= Seq::<(Seq<char>, u64)>::empty());
    }
}

/// A histogram block of comment lines (such as `# HELP`), a `# TYPE` line,
/// bucket lines, one `_sum` line and one `_count` line decodes to exactly one histogram sample: its buckets are those
/// of the bucket lines in their order, its sum and count the values of the
/// `_sum` and `_count` lines, and its key the label key of the `_count` line.
#[verifier::spinoff_prover]
#[verifier::rlimit(40)]
pub proof fn lemma_histogram_block(
    header: Seq<Seq<char>>,
    type_line: Seq<char>,
    bucket_lines: Seq<Seq<char>>,
    sum_line: Seq<char>,
    count_line: Seq<char>,
    ts: u64,
)
    requires
        forall|i: int|
            0 <= i < header.len() ==> is_comment(#[trigger] header[i]) && !is_type_line(header[i]),
        type_decl(type_line) is Some,
        kind_of(type_decl(type_line)->Some_0.1) == Some(crate::model::MetricType::Histogram),
        forall|i: int|
            0 <= i < bucket_lines.len() ==> is_sample_line(#[trigger] bucket_lines[i])
                && !is_count_line(bucket_lines[i]) && bucket_of(bucket_lines[i]) is Ok,
        is_sample_line(sum_line),
        !is_count_line(sum_line),
        sample_parts(sum_line) is Some,
        is_sample_line(count_line),
        is_count_line(count_line),
        sample_parts(count_line) is Some,
    ensures
        ({
            let r = decoded(
                header + seq![type_line] + bucket_lines + seq![sum_line, count_line],
                ts,
            );
            &&& r is Ok
            &&& r->Ok_0.samples == Map::<Seq<char>, SampleV>::empty().insert(
                sample_parts(count_line)->Some_0.0,
                SampleV::Histogram {
                    timestamp: ts,
                    buckets: bucket_values_of(bucket_lines),
                    sum: sample_parts(sum_line)->Some_0.1,
                    count: count_value(sample_parts(count_line)->Some_0.1)->Some_0,
                },
            )
        }),
{
    let lines = header + seq![type_line] + bucket_lines + seq![sum_line, count_line];
    let n = bucket_lines.len();
    let hl = header.len() as int;
    assert(is_type_line(type_line));
    assert(lines[hl] == type_line);
    assert forall|j: int| 0 <= j < hl implies !crate::parser::ends_header(#[trigger] lines[j]) by {
        assert(lines[j] == header[j]);
        assert(is_comment(header[j]));
    }
    assert(is_header_end(lines, hl));
    assert forall|h: int| is_header_end(lines, h) implies h == hl by {
        if h > hl {
            assert(!crate::parser::ends_header(lines[hl]));
        } else if h < hl {
            assert(!crate::parser::ends_header(lines[h]));
        }
    }
    assert(header_end(lines) == Some(hl));
    let body = lines.skip(hl + 1);
    assert(body =~= bucket_lines + seq![sum_line, count_line]);
    assert forall|i: int| 0 <= i < body.len() implies is_sample_line(#[trigger] body[i]) by {
        if i < n {
            assert(body[i] == bucket_lines[i]);
        }
    }
    lemma_data_lines_all(body);
    let open_part = body.drop_last();
    assert forall|i: int| 0 <= i < open_part.len() implies !is_count_line(#[trigger] open_part[i]) by {
        if i < n {
            assert(open_part[i] == bucket_lines[i]);
        }
    }
    lemma_grouped_open(open_part);
    assert(body.drop_last() == open_part);
    assert(body.last() == count_line);
    assert(open_part.push(count_line) =~= body);
    assert(Seq::<Seq<Seq<char>>>::empty().push(body) =~= seq![body]);
    assert(grouped(body) == (seq![body], Seq::<Seq<char>>::empty()));
    lemma_buckets_all(bucket_lines);
    assert(body.take(body.len() - 2) =~= bucket_lines);
    assert(body[body.len() - 2] == sum_line);
    assert(body[body.len() - 1] == count_line);
    assert(seq![body].drop_last() =~= Seq::<Seq<Seq<char>>>::empty());
    assert(count_value(sample_parts(count_line)->Some_0.1) is Some);
    let key = sample_parts(count_line)->Some_0.0;
    let sample = SampleV::Histogram {
        timestamp: ts,
        buckets: bucket_values_of(bucket_lines),
        sum: sample_parts(sum_line)->Some_0.1,
        count: count_value(sample_parts(count_line)->Some_0.1)->Some_0,
    };
    assert(crate::parser::group_end(body) == Ok::<(Seq<char>, Seq<char>, u64), DecodeErrorV>(
        (key, sample_parts(sum_line)->Some_0.1, count_value(sample_parts(count_line)->Some_0.1)->Some_0),
    ));
    assert(crate::parser::group_sample(body, ts, true) == Ok::<(Seq<char>, SampleV), DecodeErrorV>(
        (key, sample),
    ));
    assert(crate::parser::groups_samples(Seq::<Seq<Seq<char>>>::empty(), ts, true) == Ok::<
        Map<Seq<char>, SampleV>,
        DecodeErrorV,
    >(Map::empty()));
    assert(seq![body].last() == body);
    assert(crate::parser::groups_samples(seq![body], ts, true) == Ok::<
        Map<Seq<char>, SampleV>,
        DecodeErrorV,
    >(Map::empty().insert(key, sample)));
    assert(crate::parser::grouped_samples(body, ts, true) == Ok::<
        Map<Seq<char>, SampleV>,
        DecodeErrorV,
    >(Map::empty().insert(key, sample)));
}

/// Splitting a payload into blocks loses, adds and reorders no line, and
/// makes no empty block.
pub proof fn lemma_blocks_cover(lines: Seq<Seq<char>>)
    ensures
        blocks(lines).flatten() == lines,
        forall|i: int| 0 <= i < blocks(lines).len() ==> (#[trigger] blocks(lines)[i]).len() > 0,
    decreases lines.len(),
{
    if lines.len() > 0 {
        let prev = lines.drop_last();
        let b = blocks(prev);
        let l = lines.last();
        lemma_blocks_cover(prev);
        crate::parser::lemma_blocks_len(prev);
        assert(lines =~= prev.push(l));
        if b.len() == 0 || (!is_comment(lines[lines.len() - 2]) && is_comment(l)) {
            b.lemma_flatten_push(seq![l]);
            assert(prev + seq![l] =~= prev.push(l));
        } else {
            let front = b.drop_last();
            let last = b.last();
            assert(front.push(last) =~= b);
            front.lemma_flatten_push(last);
            assert(prev == front.flatten() + last);
            let c = b.update(b.len() - 1, last.push(l));
            assert(c =~= front.push(last.push(l)));
            front.lemma_flatten_push(last.push(l));
            assert((front.flatten() + last).push(l) =~= front.flatten() + last.push(l));
        }
    }
}

/// A payload none of whose blocks decodes leaves the history as it was, and
/// the cycle reports the first failure.
pub proof fn lemma_failed_blocks_keep_history(
    h: Map<Seq<char>, MetricV>,
    bs: Seq<Seq<Seq<char>>>,
    ts: u64,
)
    requires
        bs.len() > 0,
        forall|i: int| 0 <= i < bs.len() ==> (#[trigger] decoded(bs[i], ts)) is Err,
    ensures
        scrape_blocks(h, bs, ts) == (h, Some(decoded(bs[0], ts)->Err_0)),
    decreases bs.len(),
{
    let prev = bs.drop_last();
    assert(decoded(bs[bs.len() - 1], ts) is Err);
    if prev.len() > 0 {
        assert forall|i: int| 0 <= i < prev.len() implies (#[trigger] decoded(prev[i], ts)) is Err by {
            assert(prev[i] == bs[i]);
        }
        lemma_failed_blocks_keep_history(h, prev, ts);
        assert(prev[0] == bs[0]);
    } else {
        assert(bs.last() == bs[0]);
    }
}

/// A block whose `# TYPE` line names an unknown kind fails to decode with
/// that kind, so a scrape of it creates or updates no metric.
pub proof fn lemma_unknown_kind_block(
    h: Map<Seq<char>, MetricV>,
    header: Seq<Seq<char>>,
    type_line: Seq<char>,
    body: Seq<Seq<char>>,
    ts: u64,
)
    requires
        forall|i: int|
            0 <= i < header.len() ==> is_comment(#[trigger] header[i]) && !is_type_line(header[i]),
        type_decl(type_line) is Some,
        kind_of(type_decl(type_line)->Some_0.1) is None,
    ensures
        decoded(header + seq![type_line] + body, ts) == Err::<SnapshotV, DecodeErrorV>(
            DecodeErrorV::UnknownKind(type_decl(type_line)->Some_0.1),
        ),
        scrape_blocks(h, seq![header + seq![type_line] + body], ts).0 == h,
{
    let lines = header + seq![type_line] + body;
    let hl = header.len() as int;
    assert(is_type_line(type_line));
    assert(lines[hl] == type_line);
    assert forall|j: int| 0 <= j < hl implies !crate::parser::ends_header(#[trigger] lines[j]) by {
        assert(lines[j] == header[j]);
        assert(is_comment(header[j]));
    }
    assert(is_header_end(lines, hl));
    assert forall|k: int| is_header_end(lines, k) implies k == hl by {
        if k > hl {
            assert(!crate::parser::ends_header(lines[hl]));
        } else if k < hl {
            assert(!crate::parser::ends_header(lines[k]));
        }
    }
    assert(header_end(lines) == Some(hl));
    lemma_failed_blocks_keep_history(h, seq![lines], ts);
}

/// Whatever failed, transport or decoding, the error slot's text is not empty.
pub proof fn lemma_error_text_not_empty(e: DecodeErrorV, reason: Seq<char>)
    ensures
        error_message(e).len() > 0,
        (FETCH_FAILED@ + reason).len() > 0,
{
    reveal_strlit("fetch failed: ");
    reveal_strlit("sample line before the TYPE line: ");
    reveal_strlit("no TYPE line");
    reveal_strlit("invalid metric type: ");
    reveal_strlit("malformed sample line: ");
    reveal_strlit("bucket or quantile line without its threshold: ");
    reveal_strlit("group without its _sum and _count lines");
}

} // verus!
