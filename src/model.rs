//! The data model: samples, time series, metrics, the snapshot that one
//! scrape of one metric family decodes to, and the history that snapshots
//! are merged into.

use crate::labels::{decode_labels, decoded_labels, LabelMap};
use crate::sorted::{
    entries_view, entry_keys, find_key, is_lower_bound, keys_of, lemma_map_of_at, lemma_put_at,
    lower_bound, map_of, put_at, sorted_keys, text_eq,
};
use crate::text::strs_view;
use vstd::prelude::*;

verus! {

/// The declared kind of a metric.
#[derive(Clone, Copy, Debug, PartialEq, Eq, Structural)]
pub enum MetricType {
    Gauge,
    Counter,
    Histogram,
    Summary,
}

/// One value at one instant; `value` is the number as the endpoint wrote it.
#[derive(Clone, Debug)]
pub struct SingleValueSample {
    pub timestamp: u64,
    pub value: String,
}

/// A histogram bucket: its upper bound (the `le` label) and its cumulative count.
#[derive(Clone, Debug, PartialEq)]
pub struct Bucket {
    pub name: String,
    pub value: u64,
}

/// A summary quantile: its designator (the `quantile` label) and its value.
#[derive(Clone, Debug, PartialEq)]
pub struct Quantil {
    pub name: String,
    pub value: String,
}

impl Bucket {
    pub fn new(name: String, value: u64) -> (r: Bucket)
        ensures
            r@ == (name@, value),
    {
        Bucket { name, value }
    }
}

#[derive(Clone, Debug)]
pub struct HistogramValueSample {
    pub timestamp: u64,
    pub bucket_values: Vec<Bucket>,
    pub sum: String,
    pub count: u64,
}

#[derive(Clone, Debug)]
pub struct SummaryValueSample {
    pub timestamp: u64,
    pub quantiles: Vec<Quantil>,
    pub sum: String,
    pub count: u64,
}

/// A sample, tagged with the kind of metric it was decoded for.
#[derive(Clone, Debug)]
pub enum Sample {
    GaugeSample(SingleValueSample),
    CounterSample(SingleValueSample),
    HistogramSample(HistogramValueSample),
    SummarySample(SummaryValueSample),
}

/// What a sample holds.
pub enum SampleV {
    Gauge { timestamp: u64, value: Seq<char> },
    Counter { timestamp: u64, value: Seq<char> },
    Histogram { timestamp: u64, buckets: Seq<(Seq<char>, u64)>, sum: Seq<char>, count: u64 },
    Summary {
        timestamp: u64,
        quantiles: Seq<(Seq<char>, Seq<char>)>,
        sum: Seq<char>,
        count: u64,
    },
}

impl View for Bucket {
    type V = (Seq<char>, u64);

    open spec fn view(&self) -> (Seq<char>, u64) {
        (self.name@, self.value)
    }
}

impl View for Quantil {
    type V = (Seq<char>, Seq<char>);

    open spec fn view(&self) -> (Seq<char>, Seq<char>) {
        (self.name@, self.value@)
    }
}

pub open spec fn buckets_view(b: Seq<Bucket>) -> Seq<(Seq<char>, u64)> {
    b.map_values(|x: Bucket| x@)
}

pub open spec fn quantiles_view(q: Seq<Quantil>) -> Seq<(Seq<char>, Seq<char>)> {
    q.map_values(|x: Quantil| x@)
}

impl View for Sample {
    type V = SampleV;

    open spec fn view(&self) -> SampleV {
        match self {
            Sample::GaugeSample(s) => SampleV::Gauge { timestamp: s.timestamp, value: s.value@ },
            Sample::CounterSample(s) => SampleV::Counter {
                timestamp: s.timestamp,
                value: s.value@,
            },
            Sample::HistogramSample(h) => SampleV::Histogram {
                timestamp: h.timestamp,
                buckets: buckets_view(h.bucket_values@),
                sum: h.sum@,
                count: h.count,
            },
            Sample::SummarySample(q) => SampleV::Summary {
                timestamp: q.timestamp,
                quantiles: quantiles_view(q.quantiles@),
                sum: q.sum@,
                count: q.count,
            },
        }
    }
}

/// The history of one label combination of one metric.
pub struct TimeSeries {
    pub labels: LabelMap,
    pub samples: Vec<Sample>,
}

pub struct TimeSeriesV {
    pub labels: Map<Seq<char>, Seq<char>>,
    pub samples: Seq<SampleV>,
}

pub open spec fn samples_view(s: Seq<Sample>) -> Seq<SampleV> {
    s.map_values(|x: Sample| x@)
}

impl View for TimeSeries {
    type V = TimeSeriesV;

    open spec fn view(&self) -> TimeSeriesV {
        TimeSeriesV { labels: self.labels@, samples: samples_view(self.samples@) }
    }
}

#[derive(Clone, Debug)]
pub struct MetricDetails {
    pub name: String,
    pub docstring: String,
    pub metric_type: MetricType,
}

/// A metric and its time series, keyed by label key in increasing order.
pub struct Metric {
    pub details: MetricDetails,
    pub time_series: Vec<(String, TimeSeries)>,
}

pub struct MetricV {
    pub name: Seq<char>,
    pub docstring: Seq<char>,
    pub kind: MetricType,
    pub series: Map<Seq<char>, TimeSeriesV>,
}

impl View for Metric {
    type V = MetricV;

    open spec fn view(&self) -> MetricV {
        MetricV {
            name: self.details.name@,
            docstring: self.details.docstring@,
            kind: self.details.metric_type,
            series: map_of(entries_view(self.time_series@)),
        }
    }
}

/// What one scrape of one metric family decoded to: one sample per label key.
pub struct SingleScrapeMetric {
    pub name: String,
    pub docstring: String,
    pub metric_type: MetricType,
    pub value_per_labels: Vec<(String, Sample)>,
}

pub struct SnapshotV {
    pub name: Seq<char>,
    pub docstring: Seq<char>,
    pub kind: MetricType,
    pub samples: Map<Seq<char>, SampleV>,
}

impl View for SingleScrapeMetric {
    type V = SnapshotV;

    open spec fn view(&self) -> SnapshotV {
        SnapshotV {
            name: self.name@,
            docstring: self.docstring@,
            kind: self.metric_type,
            samples: map_of(entries_view(self.value_per_labels@)),
        }
    }
}

/// Every metric seen so far, keyed by name in increasing order.
pub struct MetricHistory {
    pub metrics: Vec<(String, Metric)>,
}

impl View for MetricHistory {
    type V = Map<Seq<char>, MetricV>;

    open spec fn view(&self) -> Map<Seq<char>, MetricV> {
        map_of(entries_view(self.metrics@))
    }
}

/// The keys are in strictly increasing order.
pub open spec fn strictly_sorted(keys: Seq<Seq<char>>) -> bool {
    forall|i: int, j: int|
        0 <= i < j < keys.len() ==> crate::sorted::seq_less(#[trigger] keys[i], #[trigger] keys[j])
}

pub proof fn lemma_keys_sorted<W>(s: Seq<(Seq<char>, W)>)
    requires
        sorted_keys(s),
    ensures
        strictly_sorted(keys_of(s)),
        forall|k: Seq<char>| map_of(s).contains_key(k) <==> keys_of(s).contains(k),
{
    assert forall|i: int, j: int| 0 <= i < j < keys_of(s).len() implies crate::sorted::seq_less(
        #[trigger] keys_of(s)[i],
        #[trigger] keys_of(s)[j],
    ) by {
        assert(crate::sorted::seq_less(s[i].0, s[j].0));
    }
    assert forall|k: Seq<char>| map_of(s).contains_key(k) <==> keys_of(s).contains(k) by {
        if keys_of(s).contains(k) {
            let i = choose|i: int| 0 <= i < keys_of(s).len() && keys_of(s)[i] == k;
            lemma_map_of_at(s, i);
        }
        if map_of(s).contains_key(k) {
            let i = crate::sorted::key_index(s, k);
            assert(keys_of(s)[i] == k);
        }
    }
}

/// A new series for label key `k`, its labels decoded from the key.
pub open spec fn new_series(k: Seq<char>, s: SampleV) -> TimeSeriesV {
    TimeSeriesV { labels: decoded_labels(k), samples: seq![s] }
}

/// `old` after each sample of `samples` is appended to the series of its
/// label key, a series being created where there was none.
pub open spec fn appended(
    old: Map<Seq<char>, TimeSeriesV>,
    samples: Map<Seq<char>, SampleV>,
) -> Map<Seq<char>, TimeSeriesV> {
    Map::new(
        |k: Seq<char>| old.contains_key(k) || samples.contains_key(k),
        |k: Seq<char>|
            if samples.contains_key(k) {
                if old.contains_key(k) {
                    TimeSeriesV { labels: old[k].labels, samples: old[k].samples.push(samples[k]) }
                } else {
                    new_series(k, samples[k])
                }
            } else {
                old[k]
            },
    )
}

/// The metric that a snapshot's first sight creates: name, docstring and kind fixed.
pub open spec fn first_sight(snap: SnapshotV) -> MetricV {
    MetricV {
        name: snap.name,
        docstring: snap.docstring,
        kind: snap.kind,
        series: Map::empty(),
    }
}

/// `h` after `snap` is merged: the metric keeps what it had (name, docstring,
/// kind) and each sample joins the series of its label key.
pub open spec fn merged(h: Map<Seq<char>, MetricV>, snap: SnapshotV) -> Map<Seq<char>, MetricV> {
    let base = if h.contains_key(snap.name) {
        h[snap.name]
    } else {
        first_sight(snap)
    };
    h.insert(
        snap.name,
        MetricV {
            name: base.name,
            docstring: base.docstring,
            kind: base.kind,
            series: appended(base.series, snap.samples),
        },
    )
}

pub proof fn lemma_appended_step(
    old: Map<Seq<char>, TimeSeriesV>,
    m: Map<Seq<char>, SampleV>,
    k: Seq<char>,
    v: SampleV,
)
    requires
        !m.contains_key(k),
    ensures
        appended(old, m.insert(k, v)) == appended(old, m).insert(
            k,
            if old.contains_key(k) {
                TimeSeriesV { labels: old[k].labels, samples: old[k].samples.push(v) }
            } else {
                new_series(k, v)
            },
        ),
{
    assert(appended(old, m.insert(k, v)) =~= appended(old, m).insert(
        k,
        if old.contains_key(k) {
            TimeSeriesV { labels: old[k].labels, samples: old[k].samples.push(v) }
        } else {
            new_series(k, v)
        },
    ));
}

pub proof fn lemma_map_of_prefix_step<W>(s: Seq<(Seq<char>, W)>, n: int)
    requires
        sorted_keys(s),
        0 < n <= s.len(),
    ensures
        !map_of(s.skip(n)).contains_key(s[n - 1].0),
        map_of(s.skip(n - 1)) == map_of(s.skip(n)).insert(s[n - 1].0, s[n - 1].1),
        sorted_keys(s.skip(n)),
        sorted_keys(s.skip(n - 1)),
{
    let a = s.skip(n);
    let b = s.skip(n - 1);
    assert(sorted_keys(a)) by {
        assert forall|i: int, j: int| 0 <= i < j < a.len() implies crate::sorted::seq_less(
            #[trigger] a[i].0,
            #[trigger] a[j].0,
        ) by {
            assert(crate::sorted::seq_less(s[n + i].0, s[n + j].0));
        }
    }
    assert(sorted_keys(b)) by {
        assert forall|i: int, j: int| 0 <= i < j < b.len() implies crate::sorted::seq_less(
            #[trigger] b[i].0,
            #[trigger] b[j].0,
        ) by {
            assert(crate::sorted::seq_less(s[n - 1 + i].0, s[n - 1 + j].0));
        }
    }
    let k = s[n - 1].0;
    if map_of(a).contains_key(k) {
        let j = crate::sorted::key_index(a, k);
        assert(crate::sorted::seq_less(s[n - 1].0, s[n + j].0));
        crate::sorted::lemma_less_irreflexive(k);
    }
    assert(is_lower_bound(a, k, 0)) by {
        assert forall|i: int| 0 <= i < a.len() implies !crate::sorted::seq_less(
            #[trigger] a[i].0,
            k,
        ) by {
            assert(crate::sorted::seq_less(s[n - 1].0, s[n + i].0));
            crate::sorted::lemma_less_asymmetric(k, a[i].0);
        }
    }
    lemma_put_at(a, 0, k, s[n - 1].1);
    if 0 < a.len() && a[0].0 == k {
        assert(crate::sorted::seq_less(s[n - 1].0, s[n].0));
        crate::sorted::lemma_less_irreflexive(k);
    }
    assert(put_at(a, 0, k, s[n - 1].1) =~= b);
}

impl Metric {
    pub open spec fn wf(&self) -> bool {
        sorted_keys(entries_view(self.time_series@))
    }

    /// Appends `sample` to the series of `key`, creating the series if there is none.
    fn add_sample(&mut self, key: String, sample: Sample)
        requires
            old(self).wf(),
        ensures
            final(self).wf(),
            final(self).details == old(self).details,
            final(self)@.series == old(self)@.series.insert(
                key@,
                if old(self)@.series.contains_key(key@) {
                    TimeSeriesV {
                        labels: old(self)@.series[key@].labels,
                        samples: old(self)@.series[key@].samples.push(sample@),
                    }
                } else {
                    new_series(key@, sample@)
                },
            ),
    {
        let ghost s = entries_view(self.time_series@);
        let r = lower_bound(&self.time_series, key.as_str());
        if r < self.time_series.len() && text_eq(self.time_series[r].0.as_str(), key.as_str()) {
            proof {
                lemma_map_of_at(s, r as int);
            }
            let (k, mut ts) = self.time_series.remove(r);
            let ghost old_ts = ts@;
            ts.samples.push(sample);
            let ghost new_ts = ts@;
            assert(new_ts.samples =~= old_ts.samples.push(sample@));
            self.time_series.insert(r, (k, ts));
            proof {
                lemma_put_at(s, r as int, key@, new_ts);
                assert(entries_view(self.time_series@) =~= put_at(s, r as int, key@, new_ts));
            }
        } else {
            proof {
                crate::sorted::lemma_lower_bound_absent(s, key@, r as int);
            }
            let labels = decode_labels(key.as_str());
            let mut samples: Vec<Sample> = Vec::new();
            samples.push(sample);
            let ts = TimeSeries { labels, samples };
            assert(ts@.samples =~= seq![sample@]);
            let ghost new_ts = ts@;
            self.time_series.insert(r, (key, ts));
            proof {
                lemma_put_at(s, r as int, key@, new_ts);
                assert(entries_view(self.time_series@) =~= put_at(s, r as int, key@, new_ts));
            }
        }
    }

    /// Appends each sample to the series of its label key; a label key seen
    /// for the first time gets a new series whose labels are decoded from it.
    pub fn update_time_series(&mut self, value_per_labels: Vec<(String, Sample)>)
        requires
            old(self).wf(),
            sorted_keys(entries_view(value_per_labels@)),
        ensures
            final(self).wf(),
            final(self).details == old(self).details,
            final(self)@.series == appended(
                old(self)@.series,
                map_of(entries_view(value_per_labels@)),
            ),
    {
        let ghost all = entries_view(value_per_labels@);
        let ghost start = self@.series;
        let mut rest = value_per_labels;
        assert(all.skip(all.len() as int) =~= Seq::<(Seq<char>, SampleV)>::empty());
        assert(map_of(all.skip(all.len() as int)) =~= Map::<Seq<char>, SampleV>::empty());
        assert(appended(start, Map::empty()) =~= start);
        while rest.len() > 0
            invariant
                self.wf(),
                self.details == old(self).details,
                sorted_keys(all),
                rest.len() <= all.len(),
                entries_view(rest@) == all.take(rest.len() as int),
                self@.series == appended(start, map_of(all.skip(rest.len() as int))),
            decreases rest.len(),
        {
            let ghost n = rest.len() as int;
            proof {
                lemma_map_of_prefix_step(all, n);
                lemma_appended_step(start, map_of(all.skip(n)), all[n - 1].0, all[n - 1].1);
            }
            let ghost old_rest = rest@;
            assert(entries_view(old_rest)[n - 1] == all.take(n)[n - 1]);
            let (key, sample) = rest.pop().unwrap();
            assert((key, sample) == old_rest[n - 1]);
            assert(entries_view(rest@) =~= all.take(n - 1));
            assert(key@ == all[n - 1].0 && sample@ == all[n - 1].1);
            self.add_sample(key, sample);
        }
        assert(all.skip(0) =~= all);
    }

    /// The label keys of the metric's series, in increasing order.
    pub fn get_labels(&self) -> (r: Vec<String>)
        requires
            self.wf(),
        ensures
            strictly_sorted(strs_view(r@)),
            forall|k: Seq<char>| self@.series.contains_key(k) <==> strs_view(r@).contains(k),
    {
        proof {
            lemma_keys_sorted(entries_view(self.time_series@));
        }
        entry_keys(&self.time_series)
    }

    /// The series of one label key.
    pub fn series(&self, key: &str) -> (r: Option<&TimeSeries>)
        requires
            self.wf(),
        ensures
            match r {
                Some(ts) => self@.series.contains_key(key@) && self@.series[key@] == ts@,
                None => !self@.series.contains_key(key@),
            },
    {
        match find_key(&self.time_series, key) {
            Some(i) => {
                proof {
                    lemma_map_of_at(entries_view(self.time_series@), i as int);
                }
                Some(&self.time_series[i].1)
            },
            None => None,
        }
    }
}

impl SingleScrapeMetric {
    pub open spec fn wf(&self) -> bool {
        sorted_keys(entries_view(self.value_per_labels@))
    }

    /// The sample of one label key.
    pub fn sample(&self, key: &str) -> (r: Option<&Sample>)
        requires
            self.wf(),
        ensures
            match r {
                Some(v) => self@.samples.contains_key(key@) && self@.samples[key@] == v@,
                None => !self@.samples.contains_key(key@),
            },
    {
        match find_key(&self.value_per_labels, key) {
            Some(i) => {
                proof {
                    lemma_map_of_at(entries_view(self.value_per_labels@), i as int);
                }
                Some(&self.value_per_labels[i].1)
            },
            None => None,
        }
    }

    /// The metric that the first sight of this snapshot creates.
    pub fn into_metric(self) -> (r: Metric)
        requires
            self.wf(),
        ensures
            r.wf(),
            r@ == merged(Map::empty(), self@)[self@.name],
    {
        let ghost snap = self@;
        let details = MetricDetails {
            name: self.name,
            docstring: self.docstring,
            metric_type: self.metric_type,
        };
        let mut metric = Metric { details, time_series: Vec::new() };
        assert(metric@.series =~= Map::<Seq<char>, TimeSeriesV>::empty());
        metric.update_time_series(self.value_per_labels);
        metric
    }
}

impl MetricHistory {
    pub open spec fn wf(&self) -> bool {
        &&& sorted_keys(entries_view(self.metrics@))
        &&& forall|i: int| 0 <= i < self.metrics@.len() ==> (#[trigger] self.metrics@[i]).1.wf()
        &&& forall|i: int|
            0 <= i < self.metrics@.len() ==> (#[trigger] self.metrics@[i]).1.details.name@
                == self.metrics@[i].0@
    }

    pub fn new() -> (r: MetricHistory)
        ensures
            r.wf(),
            r@ == Map::<Seq<char>, MetricV>::empty(),
    {
        let r = MetricHistory { metrics: Vec::new() };
        assert(r@ =~= Map::<Seq<char>, MetricV>::empty());
        r
    }

    pub fn is_empty(&self) -> (r: bool)
        requires
            self.wf(),
        ensures
            r == (self@ == Map::<Seq<char>, MetricV>::empty()),
    {
        if self.metrics.len() == 0 {
            assert(self@ =~= Map::<Seq<char>, MetricV>::empty());
            true
        } else {
            proof {
                lemma_map_of_at(entries_view(self.metrics@), 0);
                assert(!Map::<Seq<char>, MetricV>::empty().contains_key(self.metrics@[0].0@));
            }
            false
        }
    }

    /// The names of the metrics, in increasing order.
    pub fn get_metrics_headers(&self) -> (r: Vec<String>)
        requires
            self.wf(),
        ensures
            strs_view(r@) == keys_of(entries_view(self.metrics@)),
            strictly_sorted(strs_view(r@)),
            forall|k: Seq<char>| self@.contains_key(k) <==> strs_view(r@).contains(k),
    {
        proof {
            lemma_keys_sorted(entries_view(self.metrics@));
        }
        entry_keys(&self.metrics)
    }

    pub fn get_metric(&self, metric_name: &str) -> (r: Option<&Metric>)
        requires
            self.wf(),
        ensures
            match r {
                Some(m) => self@.contains_key(metric_name@) && self@[metric_name@] == m@ && m.wf()
                    && m.details.name@ == metric_name@,
                None => !self@.contains_key(metric_name@),
            },
    {
        match find_key(&self.metrics, metric_name) {
            Some(i) => {
                proof {
                    lemma_map_of_at(entries_view(self.metrics@), i as int);
                    assert(self.metrics@[i as int].1.details.name@ == self.metrics@[i as int].0@);
                }
                Some(&self.metrics[i].1)
            },
            None => None,
        }
    }

    /// Merges one snapshot: the metric is created at first sight, with the
    /// snapshot's docstring and kind, and keeps them afterwards; each sample is
    /// appended to the series of its label key.
    pub fn merge(&mut self, snapshot: SingleScrapeMetric)
        requires
            old(self).wf(),
            snapshot.wf(),
        ensures
            final(self).wf(),
            final(self)@ == merged(old(self)@, snapshot@),
    {
        let ghost s = entries_view(self.metrics@);
        let ghost snap = snapshot@;
        let r = lower_bound(&self.metrics, snapshot.name.as_str());
        if r < self.metrics.len() && text_eq(self.metrics[r].0.as_str(), snapshot.name.as_str()) {
            proof {
                lemma_map_of_at(s, r as int);
            }
            let (k, mut metric) = self.metrics.remove(r);
            assert(metric.wf()) by {
                assert(old(self).metrics@[r as int].1.wf());
            }
            metric.update_time_series(snapshot.value_per_labels);
            let ghost m = metric@;
            assert(m.name == old(self)@[snap.name].name);
            self.metrics.insert(r, (k, metric));
            proof {
                lemma_put_at(s, r as int, snap.name, m);
                assert(entries_view(self.metrics@) =~= put_at(s, r as int, snap.name, m));
                assert(m == merged(old(self)@, snap)[snap.name]);
                assert(merged(old(self)@, snap) =~= old(self)@.insert(snap.name, m));
                assert(old(self).metrics@[r as int].1.details.name@ == old(self).metrics@[
                    r as int].0@);
                assert forall|i: int| 0 <= i < self.metrics@.len() implies (
                #[trigger] self.metrics@[i]).1.wf() && self.metrics@[i].1.details.name@
                    == self.metrics@[i].0@ by {
                    if i != r {
                        assert(self.metrics@[i] == old(self).metrics@[i]);
                    }
                }
            }
        } else {
            proof {
                crate::sorted::lemma_lower_bound_absent(s, snap.name, r as int);
            }
            let k = snapshot.name.clone();
            let metric = snapshot.into_metric();
            let ghost m = metric@;
            self.metrics.insert(r, (k, metric));
            proof {
                lemma_put_at(s, r as int, snap.name, m);
                assert(entries_view(self.metrics@) =~= put_at(s, r as int, snap.name, m));
                assert(merged(old(self)@, snap) =~= old(self)@.insert(snap.name, m));
                assert forall|i: int| 0 <= i < self.metrics@.len() implies (
                #[trigger] self.metrics@[i]).1.wf() && self.metrics@[i].1.details.name@
                    == self.metrics@[i].0@ by {
                    if i < r {
                        assert(self.metrics@[i] == old(self).metrics@[i]);
                    } else if i > r {
                        assert(self.metrics@[i] == old(self).metrics@[i - 1]);
                    }
                }
            }
        }
    }
}

} // verus!
