//! The decisions of one scrape cycle. Whoever runs the cycle fetches the
//! payload and hands over what came back; the state takes the outcome in.

use crate::model::{merged, MetricHistory, MetricV};
use crate::parser::{
    blocks, decode_single_scrape_metric, decoded, lines_view, split_metric_lines, DecodeError,
    DecodeErrorV,
};
use crate::text::{chars_of, split_on, split_text, strs_view, substring};
use vstd::prelude::*;
use vstd::string::*;

verus! {

pub const FETCH_FAILED: &'static str = "fetch failed: ";

/// `l` without one trailing carriage return.
pub open spec fn strip_cr(l: Seq<char>) -> Seq<char> {
    if l.len() > 0 && l.last() == '\r' {
        l.drop_last()
    } else {
        l
    }
}

/// The lines of a payload: split at each newline, a trailing carriage return
/// dropped from each line, and no empty line after a final newline.
pub open spec fn payload_lines(t: Seq<char>) -> Seq<Seq<char>> {
    let p = split_on(t, '\n');
    let q = if p.last().len() == 0 {
        p.drop_last()
    } else {
        p
    };
    q.map_values(|l: Seq<char>| strip_cr(l))
}

fn without_cr(l: &str) -> (r: String)
    ensures
        r@ == strip_cr(l@),
{
    let cs = chars_of(l);
    if cs.len() > 0 && cs[cs.len() - 1] == '\r' {
        let r = substring(l, 0, cs.len() - 1);
        assert(r@ =~= l@.drop_last());
        r
    } else {
        l.to_owned()
    }
}

/// Splits a payload into its lines.
pub fn split_payload(text: &str) -> (r: Vec<String>)
    ensures
        strs_view(r@) == payload_lines(text@),
{
    let pieces = split_text(text, '\n');
    proof {
        crate::text::lemma_split_on_nonempty(text@, '\n');
    }
    let ghost p = strs_view(pieces@);
    let mut n = pieces.len();
    if pieces[n - 1].unicode_len() == 0 {
        n = n - 1;
    }
    let ghost q = if p.last().len() == 0 {
        p.drop_last()
    } else {
        p
    };
    assert(q =~= p.take(n as int));
    let mut r: Vec<String> = Vec::new();
    let mut i: usize = 0;
    while i < n
        invariant
            p == strs_view(pieces@),
            n <= pieces.len(),
            q == p.take(n as int),
            i <= n,
            strs_view(r@) == q.take(i as int).map_values(|l: Seq<char>| strip_cr(l)),
        decreases n - i,
    {
        let line = without_cr(pieces[i].as_str());
        let ghost old_r = r@;
        r.push(line);
        assert(strs_view(r@) =~= strs_view(old_r).push(line@));
        i += 1;
        assert(strs_view(r@) =~= q.take(i as int).map_values(|l: Seq<char>| strip_cr(l)));
    }
    assert(q.take(n as int) =~= q);
    r
}

/// The text of a decode failure.
pub open spec fn error_message(e: DecodeErrorV) -> Seq<char> {
    match e {
        DecodeErrorV::SampleBeforeType(l) => "sample line before the TYPE line: "@ + l,
        DecodeErrorV::MissingType => "no TYPE line"@,
        DecodeErrorV::UnknownKind(k) => "invalid metric type: "@ + k,
        DecodeErrorV::MalformedSample(l) => "malformed sample line: "@ + l,
        DecodeErrorV::MissingThreshold(l) => "bucket or quantile line without its threshold: "@
            + l,
        DecodeErrorV::IncompleteGroup => "group without its _sum and _count lines"@,
    }
}

impl DecodeError {
    /// A description of the failure, for the error slot.
    pub fn message(&self) -> (r: String)
        ensures
            r@ == error_message(self@),
    {
        match self {
            DecodeError::SampleBeforeType { line } => "sample line before the TYPE line: ".to_owned().concat(
                line.as_str(),
            ),
            DecodeError::MissingType => "no TYPE line".to_owned(),
            DecodeError::UnknownKind { kind } => "invalid metric type: ".to_owned().concat(
                kind.as_str(),
            ),
            DecodeError::MalformedSample { line } => "malformed sample line: ".to_owned().concat(
                line.as_str(),
            ),
            DecodeError::MissingThreshold { line } =>
                "bucket or quantile line without its threshold: ".to_owned().concat(line.as_str()),
            DecodeError::IncompleteGroup => "group without its _sum and _count lines".to_owned(),
        }
    }
}

/// The history after each block of a payload is decoded and, where that
/// succeeds, merged in turn; and the first decode failure, if any.
pub open spec fn scrape_blocks(
    h: Map<Seq<char>, MetricV>,
    bs: Seq<Seq<Seq<char>>>,
    ts: u64,
) -> (Map<Seq<char>, MetricV>, Option<DecodeErrorV>)
    decreases bs.len(),
{
    if bs.len() == 0 {
        (h, None)
    } else {
        let (h1, err) = scrape_blocks(h, bs.drop_last(), ts);
        match decoded(bs.last(), ts) {
            Ok(snap) => (merged(h1, snap), err),
            Err(e) => (
                h1,
                if err is Some {
                    err
                } else {
                    Some(e)
                },
            ),
        }
    }
}

/// Where the scrape cycle stands: waiting for the next tick, or with one
/// fetch in flight.
#[derive(Clone, Copy, Debug, PartialEq, Eq, Structural)]
pub enum Phase {
    Idle,
    Fetching,
}

/// What happened since the last step of the cycle.
pub enum ScrapeEvent {
    /// The interval since the end of the last cycle has elapsed.
    IntervalElapsed,
    /// The fetch in flight brought a payload.
    Fetched { payload: String, timestamp: u64 },
    /// The fetch in flight failed.
    FetchFailed { reason: String },
}

/// What the runner of the cycle does next.
#[derive(Clone, Copy, Debug, PartialEq, Eq, Structural)]
pub enum ScrapeAction {
    /// Start one fetch and report its outcome.
    StartFetch,
    /// Wait for the interval to elapse.
    WaitForInterval,
}

/// The history, the error slot and the phase, which only the scrape cycle changes.
pub struct ScrapeState {
    pub history: MetricHistory,
    pub last_error: Option<String>,
    pub phase: Phase,
}

pub open spec fn opt_view(o: Option<String>) -> Option<Seq<char>> {
    match o {
        Some(s) => Some(s@),
        None => None,
    }
}

impl ScrapeState {
    pub open spec fn wf(&self) -> bool {
        self.history.wf()
    }

    /// An empty history and no error.
    pub fn new() -> (r: ScrapeState)
        ensures
            r.wf(),
            r.history@ == Map::<Seq<char>, MetricV>::empty(),
            r.last_error is None,
            r.phase == Phase::Idle,
    {
        ScrapeState { history: MetricHistory::new(), last_error: None, phase: Phase::Idle }
    }

    /// The description of the last failure, if the last cycle failed.
    pub fn last_error(&self) -> (r: Option<String>)
        ensures
            opt_view(r) == opt_view(self.last_error),
    {
        match &self.last_error {
            Some(e) => Some(e.clone()),
            None => None,
        }
    }

    /// A fetch that failed with `reason`: the history stays as it is, and the
    /// error slot tells of the failure.
    pub fn fetch_failed(&mut self, reason: &str)
        requires
            old(self).wf(),
        ensures
            final(self).wf(),
            final(self).history@ == old(self).history@,
            opt_view(final(self).last_error) == Some(FETCH_FAILED@ + reason@),
            final(self).phase == old(self).phase,
    {
        self.last_error = Some(FETCH_FAILED.to_owned().concat(reason));
    }

    /// A payload fetched at `timestamp`: each of its blocks is decoded and
    /// merged; the error slot then holds the first decode failure, or nothing.
    pub fn payload_received(&mut self, payload: &str, timestamp: u64)
        requires
            old(self).wf(),
        ensures
            final(self).wf(),
            ({
                let (h, err) = scrape_blocks(
                    old(self).history@,
                    blocks(payload_lines(payload@)),
                    timestamp,
                );
                &&& final(self).history@ == h
                &&& opt_view(final(self).last_error) == match err {
                    Some(e) => Some(error_message(e)),
                    None => None::<Seq<char>>,
                }
            }),
            final(self).phase == old(self).phase,
    {
        let lines = split_payload(payload);
        let bs = split_metric_lines(lines);
        let ghost bv = lines_view(bs@);
        let ghost start = self.history@;
        let mut first_error: Option<DecodeError> = None;
        let mut i: usize = 0;
        assert(bv.take(0) =~= Seq::<Seq<Seq<char>>>::empty());
        let mut rest = bs;
        let ghost total = bv.len();
        assert(total == rest.len());
        assert(bv.skip(0) =~= bv);
        while rest.len() > 0
            invariant
                self.wf(),
                self.phase == old(self).phase,
                rest.len() + i == total,
                total == bv.len(),
                total <= usize::MAX,
                lines_view(rest@) == bv.skip(i as int),
                ({
                    let (h, err) = scrape_blocks(start, bv.take(i as int), timestamp);
                    &&& self.history@ == h
                    &&& match first_error {
                        Some(e) => err == Some(e@),
                        None => err is None,
                    }
                }),
            decreases rest.len(),
        {
            let ghost old_rest = rest@;
            let block = rest.remove(0);
            assert(lines_view(old_rest)[0] == bv.skip(i as int)[0]);
            assert(strs_view(block@) == bv[i as int]);
            assert forall|k: int| 0 <= k < rest@.len() implies lines_view(rest@)[k] == bv.skip(
                i + 1,
            )[k] by {
                assert(rest@[k] == old_rest[k + 1]);
                assert(lines_view(old_rest)[k + 1] == bv.skip(i as int)[k + 1]);
            }
            assert(lines_view(rest@) =~= bv.skip(i + 1));
            assert(bv.take(i + 1).drop_last() =~= bv.take(i as int));
            assert(bv.take(i + 1).last() == bv[i as int]);
            match decode_single_scrape_metric(block, timestamp) {
                Ok(snapshot) => {
                    self.history.merge(snapshot);
                },
                Err(e) => {
                    if first_error.is_none() {
                        first_error = Some(e);
                    }
                },
            }
            i += 1;
        }
        assert(bv.take(i as int) =~= bv);
        self.last_error = match first_error {
            Some(e) => Some(e.message()),
            None => None,
        };
    }
}

impl ScrapeState {
    /// One step of the cycle. A tick while idle starts a fetch; a tick while a
    /// fetch is in flight starts none, so at most one is ever in flight; the
    /// outcome of the fetch in flight is taken in and the cycle goes idle; an
    /// outcome while idle, with no fetch in flight, changes nothing.
    pub fn on_event(&mut self, event: ScrapeEvent) -> (r: ScrapeAction)
        requires
            old(self).wf(),
        ensures
            final(self).wf(),
            match (old(self).phase, event) {
                (Phase::Idle, ScrapeEvent::IntervalElapsed) => r == ScrapeAction::StartFetch
                    && final(self).phase == Phase::Fetching && final(self).history@ == old(
                    self,
                ).history@ && final(self).last_error == old(self).last_error,
                (Phase::Fetching, ScrapeEvent::Fetched { payload, timestamp }) => {
                    let (h, err) = scrape_blocks(
                        old(self).history@,
                        blocks(payload_lines(payload@)),
                        timestamp,
                    );
                    &&& r == ScrapeAction::WaitForInterval
                    &&& final(self).phase == Phase::Idle
                    &&& final(self).history@ == h
                    &&& opt_view(final(self).last_error) == match err {
                        Some(e) => Some(error_message(e)),
                        None => None::<Seq<char>>,
                    }
                },
                (Phase::Fetching, ScrapeEvent::FetchFailed { reason }) => r
                    == ScrapeAction::WaitForInterval && final(self).phase == Phase::Idle
                    && final(self).history@ == old(self).history@ && opt_view(
                    final(self).last_error,
                ) == Some(FETCH_FAILED@ + reason@),
                _ => r == ScrapeAction::WaitForInterval && final(self).phase == old(self).phase
                    && final(self).history@ == old(self).history@ && final(self).last_error
                    == old(self).last_error,
            },
    {
        match (self.phase, event) {
            (Phase::Idle, ScrapeEvent::IntervalElapsed) => {
                self.phase = Phase::Fetching;
                ScrapeAction::StartFetch
            },
            (Phase::Fetching, ScrapeEvent::Fetched { payload, timestamp }) => {
                self.payload_received(payload.as_str(), timestamp);
                self.phase = Phase::Idle;
                ScrapeAction::WaitForInterval
            },
            (Phase::Fetching, ScrapeEvent::FetchFailed { reason }) => {
                self.fetch_failed(reason.as_str());
                self.phase = Phase::Idle;
                ScrapeAction::WaitForInterval
            },
            _ => ScrapeAction::WaitForInterval,
        }
    }
}

} // verus!
