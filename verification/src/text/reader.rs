//! The follower's decision logic.
//!
//! The follower reads a growing file one line at a time and must decide,
//! per line, which record the line carries and which handler operation
//! receives it; and, at end-of-file, whether the run is over or the file
//! should be polled again.  Those decisions live here, verified; opening
//! the file, reading bytes and sleeping stay with the surrounding
//! program, which feeds lines and clock readings in and performs the
//! returned actions.

use vstd::prelude::*;

use crate::model::candle::Candle;
use crate::model::candle::CandleModel;
use crate::model::indicator::Indicator;
use crate::model::indicator::IndicatorModel;
use crate::text::parser::candle_of;
use crate::text::parser::indicator_of;
use crate::text::parser::parse_candle;
use crate::text::parser::parse_indicator;

verus! {

/// A record decoded from one line.
#[derive(Debug, PartialEq, Eq, Clone)]
pub enum Record {
    Candle(Candle),
    Indicator(Indicator),
}

/// The mathematical content of a `Record`.
pub enum RecordModel {
    Candle(CandleModel),
    Indicator(IndicatorModel),
}

impl View for Record {
    type V = RecordModel;

    open spec fn view(&self) -> RecordModel {
        match self {
            Record::Candle(c) => RecordModel::Candle(c@),
            Record::Indicator(i) => RecordModel::Indicator(i@),
        }
    }
}

/// What one line means to the follower.  The candle decode is tried
/// first; only when it fails is the indicator decode tried; when both
/// fail the line means nothing and is skipped.  This lenient policy is
/// deliberate: malformed lines are dropped, never a fault.
pub open spec fn classify_line(line: Seq<char>) -> Option<RecordModel> {
    if candle_of(line) is Ok {
        Option::Some(RecordModel::Candle(candle_of(line)->Ok_0))
    } else if indicator_of(line) is Ok {
        Option::Some(RecordModel::Indicator(indicator_of(line)->Ok_0))
    } else {
        Option::None
    }
}

/// The records that a sequence of lines yields: one per line that
/// decodes, in exactly the lines' order, skipping the lines that do not.
pub open spec fn records_of(lines: Seq<Seq<char>>) -> Seq<RecordModel>
    decreases lines.len(),
{
    if lines.len() == 0 {
        Seq::empty()
    } else {
        (match classify_line(lines[0]) {
            Option::Some(r) => seq![r],
            Option::None => Seq::empty(),
        }) + records_of(lines.drop_first())
    }
}

/// Follow semantics: the records of a file extended by appended lines
/// are the records of the old lines followed by the records of the new
/// ones.  Reading N lines and, after the append, M more thus yields each
/// line's record exactly once, in file order: none is lost to the
/// end-of-file pause and none is repeated by the resume.
pub proof fn lemma_records_of_append(a: Seq<Seq<char>>, b: Seq<Seq<char>>)
    ensures
        records_of(a + b) == records_of(a) + records_of(b),
    decreases a.len(),
{
    if a.len() == 0 {
        assert(a + b =~= b);
        assert(records_of(a) + records_of(b) =~= records_of(b));
    } else {
        assert((a + b)[0] == a[0]);
        assert((a + b).drop_first() =~= a.drop_first() + b);
        lemma_records_of_append(a.drop_first(), b);
        assert(records_of(a + b) =~= records_of(a) + records_of(b));
    }
}

/// The records of a single line.
pub proof fn lemma_records_of_one(line: Seq<char>)
    ensures
        records_of(seq![line]) == (match classify_line(line) {
            Option::Some(r) => seq![r],
            Option::None => Seq::<RecordModel>::empty(),
        }),
{
    let h: Seq<RecordModel> = match classify_line(line) {
        Option::Some(r) => seq![r],
        Option::None => Seq::<RecordModel>::empty(),
    };
    assert(seq![line].drop_first() =~= Seq::<Seq<char>>::empty());
    assert(seq![line][0] == line);
    assert(records_of(seq![line]) == h + records_of(Seq::<Seq<char>>::empty()));
    assert(h + Seq::<RecordModel>::empty() =~= h);
}

/// Classifies one line, trying the candle shape first.
pub fn classify(line: &str) -> (r: Option<Record>)
    ensures
        match r {
            Option::Some(rec) => classify_line(line@) == Option::Some(rec@),
            Option::None => classify_line(line@) is None,
        },
{
    match parse_candle(line.to_owned()) {
        Result::Ok(c) => Option::Some(Record::Candle(c)),
        Result::Err(_) => match parse_indicator(line.to_owned()) {
            Result::Ok(i) => Option::Some(Record::Indicator(i)),
            Result::Err(_) => Option::None,
        },
    }
}

/// The capability that consumes decoded records: a sink that stores or
/// forwards each record and reports success or failure.  The follower
/// assumes nothing about what an implementation does; a failure return
/// aborts the whole run.
pub trait Handler {
    /// Consumes one candle record.
    fn handle_candle(&self, candle: Candle) -> Result<(), String>;

    /// Consumes one indicator record.
    fn handle_indicator(&self, indicator: Indicator) -> Result<(), String>;
}

/// Classifies one line and hands its record, if any, to the handler.
/// A line that decodes as neither shape is skipped: no handler call and
/// no error.  A handler failure is the run's fatal error.
pub fn dispatch_line<H: Handler>(handler: &H, line: &str) -> (r: Result<bool, String>)
    ensures
        match r {
            Result::Ok(forwarded) => forwarded == (classify_line(line@) is Some),
            Result::Err(_) => classify_line(line@) is Some,
        },
{
    match classify(line) {
        Option::None => Result::Ok(false),
        Option::Some(Record::Candle(c)) => match handler.handle_candle(c) {
            Result::Ok(()) => Result::Ok(true),
            Result::Err(e) => Result::Err(e),
        },
        Option::Some(Record::Indicator(i)) => match handler.handle_indicator(i) {
            Result::Ok(()) => Result::Ok(true),
            Result::Err(e) => Result::Err(e),
        },
    }
}

/// The views of a vector of lines.
pub open spec fn line_views(lines: Seq<String>) -> Seq<Seq<char>> {
    lines.map_values(|s: String| s@)
}

/// The views of a vector of records.
pub open spec fn record_views(recs: Seq<Record>) -> Seq<RecordModel> {
    recs.map_values(|r: Record| r@)
}

/// Classifies every line in order: the result holds the record of each
/// line that decodes, in exactly the lines' order (order preservation),
/// and nothing for the lines that do not.
#[verifier::loop_isolation(false)]
pub fn process_lines(lines: &Vec<String>) -> (r: Vec<Record>)
    ensures
        record_views(r@) == records_of(line_views(lines@)),
{
    let n = lines.len();
    let mut out: Vec<Record> = Vec::new();
    let mut i: usize = 0;
    proof {
        assert(record_views(Seq::<Record>::empty()) =~= Seq::<RecordModel>::empty());
        assert(line_views(lines@.take(0)) =~= Seq::<Seq<char>>::empty());
    }
    while i < n
        invariant
            i <= n,
            record_views(out@) == records_of(line_views(lines@.take(i as int))),
        decreases n - i,
    {
        let ghost prefix: Seq<Seq<char>> = line_views(lines@.take(i as int));
        let ghost cur: Seq<char> = lines@[i as int]@;
        proof {
            assert(lines@.take(i + 1) =~= lines@.take(i as int).push(lines@[i as int]));
            assert(line_views(lines@.take(i as int).push(lines@[i as int]))
                =~= prefix + seq![cur]);
            lemma_records_of_append(prefix, seq![cur]);
            lemma_records_of_one(cur);
        }
        match classify(lines[i].as_str()) {
            Option::Some(rec) => {
                proof {
                    assert(record_views(out@.push(rec)) =~= record_views(out@).push(rec@));
                    assert(records_of(prefix) + seq![rec@] =~= records_of(prefix).push(rec@));
                }
                out.push(rec);
            },
            Option::None => {
                proof {
                    assert(records_of(prefix) + Seq::<RecordModel>::empty() =~= records_of(
                        prefix,
                    ));
                }
            },
        }
        i = i + 1;
    }
    proof {
        assert(lines@.take(n as int) =~= lines@);
    }
    out
}

/// One follower run over a growing file.
///
/// The session consumes the file's lines one at a time, in order, and
/// accounts (in ghost state) for every line consumed and every record
/// dispatched.  Its invariant ties the two together: the records
/// dispatched so far are exactly `records_of` the lines consumed so far
/// — each line is counted once, no record is dropped or repeated, and
/// the order is the file's.
pub struct FollowSession {
    consumed: Ghost<Seq<Seq<char>>>,
    dispatched: Ghost<Seq<RecordModel>>,
}

impl FollowSession {
    /// The lines consumed so far, in order.
    pub closed spec fn consumed_lines(&self) -> Seq<Seq<char>> {
        self.consumed@
    }

    /// The records dispatched so far, in order.
    pub closed spec fn dispatched_records(&self) -> Seq<RecordModel> {
        self.dispatched@
    }

    /// The session invariant: the dispatched records are exactly the
    /// records of the consumed lines.
    pub open spec fn wf(&self) -> bool {
        self.dispatched_records() == records_of(self.consumed_lines())
    }

    /// Starts a run with nothing consumed.
    pub fn new() -> (s: FollowSession)
        ensures
            s.wf(),
            s.consumed_lines() == Seq::<Seq<char>>::empty(),
            s.dispatched_records() == Seq::<RecordModel>::empty(),
    {
        FollowSession { consumed: Ghost(Seq::empty()), dispatched: Ghost(Seq::empty()) }
    }

    /// Consumes the next line of the file: classifies it, accounts for it
    /// exactly once, and returns its record for dispatch — or nothing for
    /// a line that decodes as neither shape.
    pub fn next_line(&mut self, line: &str) -> (r: Option<Record>)
        requires
            old(self).wf(),
        ensures
            final(self).wf(),
            final(self).consumed_lines() == old(self).consumed_lines().push(line@),
            match r {
                Option::Some(rec) => classify_line(line@) == Option::Some(rec@)
                    && final(self).dispatched_records() == old(self).dispatched_records().push(
                    rec@,
                ),
                Option::None => classify_line(line@) is None && final(self).dispatched_records()
                    == old(self).dispatched_records(),
            },
    {
        proof {
            lemma_records_of_append(self.consumed@, seq![line@]);
            lemma_records_of_one(line@);
            assert(self.consumed@.push(line@) =~= self.consumed@ + seq![line@]);
        }
        let r = classify(line);
        match &r {
            Option::Some(rec) => {
                proof {
                    assert(records_of(self.consumed@.push(line@)) =~= self.dispatched@.push(
                        rec@,
                    ));
                }
                let ghost d = self.dispatched@.push(rec@);
                self.dispatched = Ghost(d);
            },
            Option::None => {
                proof {
                    assert(records_of(self.consumed@.push(line@)) =~= self.dispatched@);
                }
            },
        }
        let ghost c = self.consumed@.push(line@);
        self.consumed = Ghost(c);
        r
    }
}

/// What the follower does on reaching end-of-file.
#[derive(Debug, PartialEq, Eq, Clone, Copy)]
pub enum FollowControl {
    /// The maximum run duration has elapsed: stop the run with success.
    Stop,
    /// Time remains: sleep one poll interval, then read on from the same
    /// position to pick up appended lines.
    SleepAndResume,
}

/// Milliseconds the follower sleeps after end-of-file when time remains.
pub const POLL_INTERVAL_MS: u64 = 1000;

/// The follower's decision at end-of-file: the run stops exactly when
/// the elapsed time has reached the maximum duration; otherwise it
/// pauses one interval and resumes at the same read position.
pub fn eof_policy(elapsed_ms: u64, max_ms: u64) -> (c: FollowControl)
    ensures
        c == (if elapsed_ms >= max_ms {
            FollowControl::Stop
        } else {
            FollowControl::SleepAndResume
        }),
{
    if elapsed_ms >= max_ms {
        FollowControl::Stop
    } else {
        FollowControl::SleepAndResume
    }
}

} // verus!

