//! Day segmentation: grouping the numbered line stream into work days.
//!
//! Every parsed event is fed to the registry builder; blank and comment
//! lines are retained for line bookkeeping. Whenever the builder emits a
//! finished day, the lines that belong to it are flushed with it, keeping
//! back the trailing comment lines that introduce the next day.

use crate::taskregistry::{
    accounted, at_most_one_active, event_avoids_pause, event_keeps_single,
    lemma_avoids_pause_semantic, lemma_finish_keeps_one_active, lemma_step_preserves_accounting,
    lemma_step_preserves_single_active, lemma_step_preserves_wf, single_active, spec_finish,
    spec_step, BuilderModel, Error, ErrorV, RegistryModel, State, TaskRegistry,
    TaskRegistryBuilder,
};
use crate::timelog::{
    lemma_parse_entry_time_wf, parse_entry, EntryV, EventV, ParseError, ParseErrorV, TimelogEntry,
};
use crate::timestamp::Timestamp;
use vstd::prelude::*;

verus! {

/// One line of the log as read: a parsed event entry, or a blank/comment
/// line that is kept only for line bookkeeping.
#[derive(Debug)]
pub enum LogLine {
    Entry(TimelogEntry),
    Ignored(String),
}

/// The mathematical form of a `LogLine`.
pub enum LogLineV {
    Entry(EntryV),
    Ignored(Seq<char>),
}

impl View for LogLine {
    type V = LogLineV;

    open spec fn view(&self) -> LogLineV {
        match self {
            LogLine::Entry(e) => LogLineV::Entry(e@),
            LogLine::Ignored(s) => LogLineV::Ignored(s@),
        }
    }
}

/// How one raw line is read: the empty line and a `#` comment are ignored
/// but retained; anything else must parse as an event entry.
pub open spec fn parse_log_line(s: Seq<char>) -> Result<LogLineV, ParseErrorV> {
    if s.len() == 0 || s[0] == '#' {
        Ok(LogLineV::Ignored(s))
    } else {
        match parse_entry(s) {
            Ok(e) => Ok(LogLineV::Entry(e)),
            Err(err) => Err(err),
        }
    }
}

impl LogLine {
    /// Reads one raw line, exactly as `parse_log_line` states it.
    pub fn from_str(line: &str) -> (r: Result<LogLine, ParseError>)
        ensures
            match r {
                Ok(l) => parse_log_line(line@) == Ok::<LogLineV, ParseErrorV>(l@),
                Err(e) => parse_log_line(line@) == Err::<LogLineV, ParseErrorV>(e@),
            },
    {
        if line.is_empty() {
            return Ok(LogLine::Ignored(line.to_owned()));
        }
        if line.get_char(0) == '#' {
            return Ok(LogLine::Ignored(line.to_owned()));
        }
        match TimelogEntry::parse_from_str(line) {
            Ok(e) => Ok(LogLine::Entry(e)),
            Err(e) => Err(e),
        }
    }
}

/// A line source that numbers its lines from one and reads each.
pub struct LogLines {
    lines: Vec<String>,
    pos: usize,
}

impl LogLines {
    /// The lines this source was built over.
    pub closed spec fn lines_v(self) -> Seq<Seq<char>> {
        self.lines@.map_values(|s: String| s@)
    }

    /// How many lines have been handed out.
    pub closed spec fn pos_v(self) -> int {
        self.pos as int
    }

    pub closed spec fn wf(self) -> bool {
        self.pos as int <= self.lines@.len()
    }

    /// A source over the given lines, none handed out yet.
    pub fn new(src: Vec<String>) -> (r: LogLines)
        ensures
            r.wf(),
            r.lines_v() == src@.map_values(|s: String| s@),
            r.pos_v() == 0,
    {
        LogLines { lines: src, pos: 0 }
    }

    /// The next line with its one-based number and its parse result; `None`
    /// once every line has been handed out.
    pub fn next_line(&mut self) -> (r: Option<(usize, Result<LogLine, ParseError>)>)
        requires
            old(self).wf(),
        ensures
            final(self).wf(),
            final(self).lines_v() == old(self).lines_v(),
            match r {
                None => old(self).pos_v() == old(self).lines_v().len() && final(self).pos_v()
                    == old(self).pos_v(),
                Some((n, res)) => old(self).pos_v() < old(self).lines_v().len() && n as int
                    == old(self).pos_v() + 1 && final(self).pos_v() == old(self).pos_v() + 1
                    && (match res {
                    Ok(l) => parse_log_line(old(self).lines_v()[old(self).pos_v()]) == Ok::<
                        LogLineV,
                        ParseErrorV,
                    >(l@),
                    Err(e) => parse_log_line(old(self).lines_v()[old(self).pos_v()]) == Err::<
                        LogLineV,
                        ParseErrorV,
                    >(e@),
                }),
            },
    {
        if self.pos >= self.lines.len() {
            return None;
        }
        let n = self.pos + 1;
        let res = LogLine::from_str(self.lines[self.pos].as_str());
        self.pos = n;
        Some((n, res))
    }
}

/// Why the stream of days ended early.
#[derive(Debug)]
pub enum DayError {
    /// A line could not be read as an event, with its one-based number.
    Parse { line: usize, err: ParseError },
    /// The state machine rejected an event, with the line's one-based number.
    Transition { line: usize, err: Error },
    /// The state machine rejected the synthetic closing event at the end of
    /// the input.
    Finish { err: Error },
}

/// The mathematical form of a `DayError`.
pub enum DayErrorV {
    Parse(int, ParseErrorV),
    Transition(int, ErrorV),
    Finish(ErrorV),
}

impl View for DayError {
    type V = DayErrorV;

    open spec fn view(&self) -> DayErrorV {
        match self {
            DayError::Parse { line, err } => DayErrorV::Parse(*line as int, err@),
            DayError::Transition { line, err } => DayErrorV::Transition(*line as int, err@),
            DayError::Finish { err } => DayErrorV::Finish(err@),
        }
    }
}

/// One finished work day: its registry and the numbered lines it was read
/// from.
#[derive(Debug)]
pub struct DayCollection {
    pub tasks: TaskRegistry,
    pub lines: Vec<(usize, LogLine)>,
}

/// The mathematical form of a `DayCollection`.
#[verifier::ext_equal]
pub struct DayV {
    pub tasks: RegistryModel,
    pub lines: Seq<(int, LogLineV)>,
}

/// Numbered lines as the model sees them.
pub open spec fn lines_view(s: Seq<(usize, LogLine)>) -> Seq<(int, LogLineV)> {
    s.map_values(|p: (usize, LogLine)| (p.0 as int, p.1@))
}

impl View for DayCollection {
    type V = DayV;

    open spec fn view(&self) -> DayV {
        DayV { tasks: self.tasks@, lines: lines_view(self.lines@) }
    }
}

/// The mathematical form of a `DayCollector`: the builder, the lines
/// buffered since the last flushed day, and how many trailing ignored lines
/// belong to the next day.
#[verifier::ext_equal]
pub struct CollectorModel {
    pub builder: BuilderModel,
    pub buffer: Seq<(int, LogLineV)>,
    pub lookahead: int,
}

/// The collector a run starts from: an idle builder over an empty buffer.
pub open spec fn initial_collector() -> CollectorModel {
    CollectorModel {
        builder: BuilderModel {
            start_time: None,
            state: State::Idle,
            current: None,
            work_start: None,
            registry: RegistryModel::empty(),
        },
        buffer: Seq::empty(),
        lookahead: 0,
    }
}

/// What one numbered line does to the collector: an ignored line is
/// buffered (a comment, or any ignored line after one, counts toward the
/// next day); an event is fed to the builder; when the builder emits a
/// finished day, the buffer up to — but not including — the trailing
/// ignored lines and the triggering line is flushed as that day's lines.
pub open spec fn spec_process_line(c: CollectorModel, n: int, s: Seq<char>) -> Result<
    (CollectorModel, Option<DayV>),
    DayErrorV,
> {
    match parse_log_line(s) {
        Err(e) => Err(DayErrorV::Parse(n, e)),
        Ok(LogLineV::Ignored(txt)) => {
            let la2 = if c.lookahead > 0 || txt.len() > 0 {
                c.lookahead + 1
            } else {
                c.lookahead
            };
            Ok(
                (
                    CollectorModel {
                        buffer: c.buffer.push((n, LogLineV::Ignored(txt))),
                        lookahead: la2,
                        ..c
                    },
                    None,
                ),
            )
        },
        Ok(LogLineV::Entry(ev)) => {
            match spec_step(c.builder, ev) {
                Err(err) => Err(DayErrorV::Transition(n, err)),
                Ok((b2, em)) => {
                    let buf2 = c.buffer.push((n, LogLineV::Entry(ev)));
                    match em {
                        None => Ok(
                            (CollectorModel { builder: b2, buffer: buf2, lookahead: 0 }, None),
                        ),
                        Some(reg) => {
                            let cut = buf2.len() - c.lookahead - 1;
                            Ok(
                                (
                                    CollectorModel {
                                        builder: b2,
                                        buffer: buf2.subrange(cut, buf2.len() as int),
                                        lookahead: 0,
                                    },
                                    Some(DayV { tasks: reg, lines: buf2.subrange(0, cut) }),
                                ),
                            )
                        },
                    }
                },
            }
        },
    }
}

/// What the end of the input does: an empty buffer yields nothing; else the
/// builder is finished (closing an open day at `now`) and the whole buffer
/// is flushed with the resulting registry.
pub open spec fn spec_finish_stream(c: CollectorModel, now: Timestamp) -> Result<
    (CollectorModel, Option<DayV>),
    DayErrorV,
> {
    if c.buffer.len() == 0 {
        Ok((c, None))
    } else {
        match spec_finish(c.builder, now) {
            Ok((reg, b2)) => Ok(
                (
                    CollectorModel { builder: b2, buffer: Seq::empty(), lookahead: 0 },
                    Some(DayV { tasks: reg, lines: c.buffer }),
                ),
            ),
            Err(e) => Err(DayErrorV::Finish(e)),
        }
    }
}

/// Groups the numbered line stream into finished work days.
pub struct DayCollector {
    builder: TaskRegistryBuilder,
    buffer: Vec<(usize, LogLine)>,
    lookahead: usize,
}

impl View for DayCollector {
    type V = CollectorModel;

    closed spec fn view(&self) -> CollectorModel {
        CollectorModel {
            builder: self.builder@,
            buffer: lines_view(self.buffer@),
            lookahead: self.lookahead as int,
        }
    }
}

impl DayCollector {
    pub closed spec fn wf(self) -> bool {
        self.builder.wf() && self.lookahead as int <= self.buffer@.len()
    }

    /// A collector in its initial state.
    pub fn new() -> (r: DayCollector)
        ensures
            r.wf(),
            r@ == initial_collector(),
    {
        let r = DayCollector { builder: TaskRegistryBuilder::new(), buffer: Vec::new(), lookahead: 0 };
        proof {
            assert(r@ =~= initial_collector());
        }
        r
    }

    /// Feeds one numbered raw line, exactly as `spec_process_line` states
    /// it. An error leaves the collector unchanged; the caller is expected
    /// to stop.
    pub fn process_line(&mut self, n: usize, line: &str) -> (r: Result<
        Option<DayCollection>,
        DayError,
    >)
        requires
            old(self).wf(),
        ensures
            final(self).wf(),
            match r {
                Ok(opt) => (spec_process_line(old(self)@, n as int, line@) matches Ok((c2, em))
                    && final(self)@ == c2 && (match (opt, em) {
                    (Some(d), Some(dv)) => d@ == dv && d.tasks.wf(),
                    (None, None) => true,
                    _ => false,
                })),
                Err(e) => (spec_process_line(old(self)@, n as int, line@) matches Err(ev) && e@
                    == ev && final(self)@ == old(self)@),
            },
    {
        let parsed = match LogLine::from_str(line) {
            Ok(l) => l,
            Err(err) => { return Err(DayError::Parse { line: n, err }) },
        };
        match parsed {
            LogLine::Ignored(txt) => {
                let nonempty = !txt.as_str().is_empty();
                self.buffer.push((n, LogLine::Ignored(txt)));
                proof {
                    assert(self@.buffer =~= old(self)@.buffer.push(
                        (n as int, lines_view(self.buffer@).last().1),
                    ));
                }
                let blen = self.buffer.len();
                if self.lookahead > 0 || nonempty {
                    proof {
                        assert(old(self).lookahead as int <= old(self).buffer@.len());
                        assert(self.lookahead < blen);
                    }
                    self.lookahead = self.lookahead + 1;
                }
                proof {
                    assert(spec_process_line(old(self)@, n as int, line@) matches Ok((c2, _))
                        && self@ =~= c2);
                }
                Ok(None)
            },
            LogLine::Entry(entry) => {
                proof {
                    lemma_parse_entry_time_wf(line@);
                }
                let emitted = match self.builder.add_entry(&entry) {
                    Ok(em) => em,
                    Err(err) => { return Err(DayError::Transition { line: n, err }) },
                };
                self.buffer.push((n, LogLine::Entry(entry)));
                proof {
                    assert(self@.buffer =~= old(self)@.buffer.push(
                        (n as int, lines_view(self.buffer@).last().1),
                    ));
                }
                match emitted {
                    None => {
                        self.lookahead = 0;
                        proof {
                            assert(spec_process_line(old(self)@, n as int, line@) matches Ok(
                                (c2, _),
                            ) && self@ =~= c2);
                        }
                        Ok(None)
                    },
                    Some(reg) => {
                        proof {
                            assert(old(self).lookahead as int <= old(self).buffer@.len());
                            assert(self.buffer@.len() == old(self).buffer@.len() + 1);
                        }
                        let cut = self.buffer.len() - self.lookahead - 1;
                        let mut tail = self.buffer.split_off(cut);
                        core::mem::swap(&mut self.buffer, &mut tail);
                        self.lookahead = 0;
                        let day = DayCollection { tasks: reg, lines: tail };
                        proof {
                            let buf2 = old(self)@.buffer.push(
                                (n as int, LogLineV::Entry(entry@)),
                            );
                            assert(lines_view(day.lines@) =~= buf2.subrange(0, cut as int));
                            assert(self@.buffer =~= buf2.subrange(cut as int, buf2.len() as int));
                            assert(spec_process_line(old(self)@, n as int, line@) matches Ok(
                                (c2, _),
                            ) && self@ =~= c2);
                        }
                        Ok(Some(day))
                    },
                }
            },
        }
    }

    /// Ends the input, exactly as `spec_finish_stream` states it: an open
    /// day is closed at `now` and flushed with the buffered lines.
    pub fn finish(&mut self, now: Timestamp) -> (r: Result<Option<DayCollection>, DayError>)
        requires
            old(self).wf(),
            now.wf(),
        ensures
            final(self).wf(),
            match r {
                Ok(opt) => (spec_finish_stream(old(self)@, now) matches Ok((c2, em))
                    && final(self)@ == c2 && (match (opt, em) {
                    (Some(d), Some(dv)) => d@ == dv && d.tasks.wf(),
                    (None, None) => true,
                    _ => false,
                })),
                Err(e) => (spec_finish_stream(old(self)@, now) matches Err(ev) && e@ == ev
                    && final(self)@ == old(self)@),
            },
    {
        if self.buffer.len() == 0 {
            return Ok(None);
        }
        let reg = match self.builder.finish(now) {
            Ok(reg) => reg,
            Err(err) => { return Err(DayError::Finish { err }) },
        };
        let mut taken: Vec<(usize, LogLine)> = Vec::new();
        core::mem::swap(&mut self.buffer, &mut taken);
        self.lookahead = 0;
        let day = DayCollection { tasks: reg, lines: taken };
        proof {
            assert(self@.buffer =~= Seq::<(int, LogLineV)>::empty());
            assert(spec_finish_stream(old(self)@, now) matches Ok((c2, _)) && self@ =~= c2);
        }
        Ok(Some(day))
    }
}

/// What a whole run yields: the days of the stream from line `i` on, fed to
/// collector `c`, with the input ending at `now`.
pub open spec fn run_collect(
    c: CollectorModel,
    lines: Seq<Seq<char>>,
    i: int,
    now: Timestamp,
) -> Result<Seq<DayV>, DayErrorV>
    decreases lines.len() - i,
{
    if i < 0 || i >= lines.len() {
        match spec_finish_stream(c, now) {
            Ok((_, None)) => Ok(Seq::empty()),
            Ok((_, Some(d))) => Ok(seq![d]),
            Err(e) => Err(e),
        }
    } else {
        match spec_process_line(c, i + 1, lines[i]) {
            Err(e) => Err(e),
            Ok((c2, em)) => match run_collect(c2, lines, i + 1, now) {
                Err(e) => Err(e),
                Ok(rest) => Ok(
                    (match em {
                        Some(d) => seq![d],
                        None => Seq::empty(),
                    }) + rest,
                ),
            },
        }
    }
}

/// Interprets a whole log: one finished registry per work day, in order,
/// each with the lines it was read from — or the first error, with its
/// one-based line number. `now` closes a day the log left open.
pub fn collect_days(lines: &Vec<String>, now: Timestamp) -> (r: Result<
    Vec<DayCollection>,
    DayError,
>)
    requires
        now.wf(),
    ensures
        ({
            let lv = lines@.map_values(|s: String| s@);
            match r {
                Ok(days) => run_collect(initial_collector(), lv, 0, now) == Ok::<
                    Seq<DayV>,
                    DayErrorV,
                >(days@.map_values(|d: DayCollection| d@)) && (forall|j: int|
                    0 <= j < days@.len() ==> (#[trigger] days@[j]).tasks.wf()),
                Err(e) => run_collect(initial_collector(), lv, 0, now) == Err::<
                    Seq<DayV>,
                    DayErrorV,
                >(e@),
            }
        }),
{
    let ghost lv = lines@.map_values(|s: String| s@);
    let mut collector = DayCollector::new();
    let mut days: Vec<DayCollection> = Vec::new();
    let n = lines.len();
    let mut i: usize = 0;
    while i < n
        invariant
            0 <= i <= n,
            n == lines@.len(),
            lv == lines@.map_values(|s: String| s@),
            collector.wf(),
            now.wf(),
            forall|j: int| 0 <= j < days@.len() ==> (#[trigger] days@[j]).tasks.wf(),
            run_collect(initial_collector(), lv, 0, now) == (match run_collect(
                collector@,
                lv,
                i as int,
                now,
            ) {
                Ok(rest) => Ok::<Seq<DayV>, DayErrorV>(
                    days@.map_values(|d: DayCollection| d@) + rest,
                ),
                Err(e) => Err::<Seq<DayV>, DayErrorV>(e),
            }),
        decreases n - i,
    {
        let ghost pre_days = days@;
        let ghost pre_c = collector@;
        let line = &lines[i];
        proof {
            assert(lv[i as int] == line@);
        }
        match collector.process_line(i + 1, line.as_str()) {
            Ok(Some(d)) => {
                days.push(d);
                proof {
                    assert(spec_process_line(pre_c, i as int + 1, lv[i as int]) matches Ok(
                        (c2, Some(dv)),
                    ) && collector@ == c2 && days@.last()@ == dv);
                    assert(days@.map_values(|d: DayCollection| d@) =~= pre_days.map_values(
                        |d: DayCollection| d@,
                    ).push(days@.last()@));
                    assert forall|rest: Seq<DayV>|
                        true implies pre_days.map_values(|d: DayCollection| d@) + (seq![
                            days@.last()@,
                        ] + rest) =~= days@.map_values(|d: DayCollection| d@) + rest by {}
                }
            },
            Ok(None) => {
                proof {
                    assert forall|rest: Seq<DayV>|
                        true implies pre_days.map_values(|d: DayCollection| d@) + (Seq::<
                            DayV,
                        >::empty() + rest) =~= days@.map_values(|d: DayCollection| d@) + rest by {}
                }
            },
            Err(e) => {
                return Err(e);
            },
        }
        i = i + 1;
    }
    match collector.finish(now) {
        Ok(Some(d)) => {
            let ghost pre_days = days@;
            days.push(d);
            proof {
                assert(days@.map_values(|d: DayCollection| d@) =~= pre_days.map_values(
                    |d: DayCollection| d@,
                ) + seq![days@.last()@]);
            }
            Ok(days)
        },
        Ok(None) => {
            proof {
                assert(days@.map_values(|d: DayCollection| d@) + Seq::<DayV>::empty()
                    =~= days@.map_values(|d: DayCollection| d@));
            }
            Ok(days)
        },
        Err(e) => Err(e),
    }
}


/// Whether a raw line leaves the "Pause" bucket alone: it is not an event
/// line that starts a task named "Pause" or renames to or from it.
pub open spec fn line_avoids_pause(s: Seq<char>) -> bool {
    match parse_log_line(s) {
        Ok(LogLineV::Entry(e)) => event_avoids_pause(e.event),
        _ => true,
    }
}

proof fn lemma_run_days_balanced(
    c: CollectorModel,
    lines: Seq<Seq<char>>,
    i: int,
    now: Timestamp,
)
    requires
        c.builder.wf(),
        accounted(c.builder),
        now.wf(),
        forall|j: int| i <= j < lines.len() ==> #[trigger] line_avoids_pause(lines[j]),
    ensures
        match run_collect(c, lines, i, now) {
            Ok(days) => forall|k: int|
                0 <= k < days.len() ==> (#[trigger] days[k]).tasks.balanced(),
            Err(_) => true,
        },
    decreases lines.len() - i,
{
    if i < 0 || i >= lines.len() {
        if c.buffer.len() > 0 && c.builder.state != State::Idle {
            let e = EntryV { time: now, event: EventV::OffSnapshot };
            lemma_step_preserves_accounting(c.builder, e);
        }
    } else {
        assert(line_avoids_pause(lines[i]));
        match parse_log_line(lines[i]) {
            Err(_) => {},
            Ok(LogLineV::Ignored(_)) => {
                match spec_process_line(c, i + 1, lines[i]) {
                    Ok((c2, _)) => {
                        lemma_run_days_balanced(c2, lines, i + 1, now);
                        match run_collect(c2, lines, i + 1, now) {
                            Ok(rest) => {
                                assert(Seq::<DayV>::empty() + rest =~= rest);
                            },
                            Err(_) => {},
                        }
                    },
                    Err(_) => {},
                }
            },
            Ok(LogLineV::Entry(ev)) => {
                lemma_parse_entry_time_wf(lines[i]);
                match spec_step(c.builder, ev) {
                    Err(_) => {},
                    Ok((b2, em)) => {
                        lemma_avoids_pause_semantic(c.builder, ev);
                        lemma_step_preserves_accounting(c.builder, ev);
                        lemma_step_preserves_wf(c.builder, ev);
                        match spec_process_line(c, i + 1, lines[i]) {
                            Ok((c2, em2)) => {
                                lemma_run_days_balanced(c2, lines, i + 1, now);
                                match run_collect(c2, lines, i + 1, now) {
                                    Ok(rest) => match em2 {
                                        Some(d) => {
                                            assert forall|k: int|
                                                0 <= k < (seq![d] + rest).len() implies (
                                            #[trigger] (seq![d] + rest)[k]).tasks.balanced() by {
                                                if k > 0 {
                                                    assert((seq![d] + rest)[k] == rest[k - 1]);
                                                }
                                            }
                                        },
                                        None => {
                                            assert(Seq::<DayV>::empty() + rest =~= rest);
                                        },
                                    },
                                    Err(_) => {},
                                }
                            },
                            Err(_) => {},
                        }
                    },
                }
            },
        }
    }
}

/// For every log none of whose lines names the "Pause" bucket explicitly,
/// each day the interpreter yields balances its account: the day's work
/// duration equals the sum of all its task durations except "Pause".
pub proof fn lemma_collected_days_balanced(lines: Seq<Seq<char>>, now: Timestamp)
    requires
        now.wf(),
        forall|j: int| 0 <= j < lines.len() ==> #[trigger] line_avoids_pause(lines[j]),
    ensures
        match run_collect(initial_collector(), lines, 0, now) {
            Ok(days) => forall|k: int|
                0 <= k < days.len() ==> (#[trigger] days[k]).tasks.balanced(),
            Err(_) => true,
        },
{
    assert(initial_collector().builder.wf());
    assert(accounted(initial_collector().builder));
    lemma_run_days_balanced(initial_collector(), lines, 0, now);
}


/// Whether a raw line keeps the active marks single: it is not an event
/// line that names the "Pause" bucket or renames a task other than the
/// open one.
pub open spec fn line_keeps_single(s: Seq<char>) -> bool {
    match parse_log_line(s) {
        Ok(LogLineV::Entry(e)) => event_keeps_single(e.event),
        _ => true,
    }
}

proof fn lemma_run_days_single_active(
    c: CollectorModel,
    lines: Seq<Seq<char>>,
    i: int,
    now: Timestamp,
)
    requires
        c.builder.wf(),
        single_active(c.builder),
        now.wf(),
        forall|j: int| i <= j < lines.len() ==> #[trigger] line_keeps_single(lines[j]),
    ensures
        match run_collect(c, lines, i, now) {
            Ok(days) => forall|k: int|
                0 <= k < days.len() ==> at_most_one_active((#[trigger] days[k]).tasks),
            Err(_) => true,
        },
    decreases lines.len() - i,
{
    if i < 0 || i >= lines.len() {
        if c.buffer.len() > 0 {
            lemma_finish_keeps_one_active(c.builder, now);
        }
    } else {
        assert(line_keeps_single(lines[i]));
        match parse_log_line(lines[i]) {
            Err(_) => {},
            Ok(LogLineV::Ignored(_)) => {
                match spec_process_line(c, i + 1, lines[i]) {
                    Ok((c2, _)) => {
                        lemma_run_days_single_active(c2, lines, i + 1, now);
                        match run_collect(c2, lines, i + 1, now) {
                            Ok(rest) => {
                                assert(Seq::<DayV>::empty() + rest =~= rest);
                            },
                            Err(_) => {},
                        }
                    },
                    Err(_) => {},
                }
            },
            Ok(LogLineV::Entry(ev)) => {
                lemma_parse_entry_time_wf(lines[i]);
                match spec_step(c.builder, ev) {
                    Err(_) => {},
                    Ok((b2, em)) => {
                        lemma_step_preserves_single_active(c.builder, ev);
                        lemma_step_preserves_wf(c.builder, ev);
                        match spec_process_line(c, i + 1, lines[i]) {
                            Ok((c2, em2)) => {
                                lemma_run_days_single_active(c2, lines, i + 1, now);
                                match run_collect(c2, lines, i + 1, now) {
                                    Ok(rest) => match em2 {
                                        Some(d) => {
                                            assert forall|k: int|
                                                0 <= k < (seq![d] + rest).len() implies at_most_one_active(
                                                (#[trigger] (seq![d] + rest)[k]).tasks,
                                            ) by {
                                                if k > 0 {
                                                    assert((seq![d] + rest)[k] == rest[k - 1]);
                                                }
                                            }
                                        },
                                        None => {
                                            assert(Seq::<DayV>::empty() + rest =~= rest);
                                        },
                                    },
                                    Err(_) => {},
                                }
                            },
                            Err(_) => {},
                        }
                    },
                }
            },
        }
    }
}

/// For every log none of whose lines names the "Pause" bucket or renames a
/// task other than the open one, each day the interpreter yields has at
/// most one task marked active: the one open when the input ran out, and
/// none at all for a day closed by an explicit `off`.
pub proof fn lemma_collected_days_single_active(lines: Seq<Seq<char>>, now: Timestamp)
    requires
        now.wf(),
        forall|j: int| 0 <= j < lines.len() ==> #[trigger] line_keeps_single(lines[j]),
    ensures
        match run_collect(initial_collector(), lines, 0, now) {
            Ok(days) => forall|k: int|
                0 <= k < days.len() ==> at_most_one_active((#[trigger] days[k]).tasks),
            Err(_) => true,
        },
{
    assert(initial_collector().builder.wf());
    assert(single_active(initial_collector().builder));
    lemma_run_days_single_active(initial_collector(), lines, 0, now);
}

} // verus!
