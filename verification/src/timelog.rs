//! Log events and the line form they are written in.
//!
//! One log line is `<timestamp>\t<keyword>[\t<arg1>[\t<arg2>]]`. This module
//! holds the typed events, the parser from a line to an event, and the
//! formatter back to the line form, with a proof that formatting and
//! re-parsing yields the event unchanged.

use crate::text::{
    find_tab, first_tab_at, lemma_first_tab_at_props, lemma_first_tab_found, lemma_first_tab_none,
    lemma_strip_tabs_concat, no_tabs, str_equal, strip_tabs,
};
use crate::timestamp::{format_ts, lemma_ts_text_parses, parse_ts, parse_ts_str, ts_text, Timestamp};
use vstd::prelude::*;

verus! {

/// One event of the log: clock-in/out, task switches, renames, pauses.
#[derive(Debug)]
pub enum LogEvent {
    On,
    Off,
    Resume,
    Cancel,
    Start(String),
    Stop,
    Rename { to: String, from: Option<String> },
    /// Synthetic closing event: a day cut off by the end of the input rather
    /// than by an explicit `off`. Never produced by the parser.
    OffSnapshot,
}

/// The mathematical form of a `LogEvent`: task names as character sequences.
pub enum EventV {
    On,
    Off,
    Resume,
    Cancel,
    Start(Seq<char>),
    Stop,
    Rename { to: Seq<char>, from: Option<Seq<char>> },
    OffSnapshot,
}

impl View for LogEvent {
    type V = EventV;

    open spec fn view(&self) -> EventV {
        match self {
            LogEvent::On => EventV::On,
            LogEvent::Off => EventV::Off,
            LogEvent::Resume => EventV::Resume,
            LogEvent::Cancel => EventV::Cancel,
            LogEvent::Start(name) => EventV::Start(name@),
            LogEvent::Stop => EventV::Stop,
            LogEvent::Rename { to, from } => EventV::Rename {
                to: to@,
                from: match from {
                    Some(f) => Some(f@),
                    None => None,
                },
            },
            LogEvent::OffSnapshot => EventV::OffSnapshot,
        }
    }
}

/// Why a line could not be read as an event.
#[derive(Debug)]
pub enum ParseError {
    /// The first field is not a timestamp of the pattern `YYYY-MM-DDTHH:MM±HHMM`.
    BadTimestamp,
    /// The event keyword is none of the seven known ones.
    UnknownEvent(String),
    /// A field the event requires is missing.
    MissingArgument,
    /// Fields remain after the event's own; the payload joins them.
    TrailingContent(String),
}

/// The mathematical form of a `ParseError`.
pub enum ParseErrorV {
    BadTimestamp,
    UnknownEvent(Seq<char>),
    MissingArgument,
    TrailingContent(Seq<char>),
}

impl View for ParseError {
    type V = ParseErrorV;

    open spec fn view(&self) -> ParseErrorV {
        match self {
            ParseError::BadTimestamp => ParseErrorV::BadTimestamp,
            ParseError::UnknownEvent(k) => ParseErrorV::UnknownEvent(k@),
            ParseError::MissingArgument => ParseErrorV::MissingArgument,
            ParseError::TrailingContent(t) => ParseErrorV::TrailingContent(t@),
        }
    }
}

/// One parsed log line: an event and the timestamp it carries.
#[derive(Debug)]
pub struct TimelogEntry {
    pub time: Timestamp,
    pub event: LogEvent,
}

/// The mathematical form of a `TimelogEntry`.
pub struct EntryV {
    pub time: Timestamp,
    pub event: EventV,
}

impl View for TimelogEntry {
    type V = EntryV;

    open spec fn view(&self) -> EntryV {
        EntryV { time: self.time, event: self.event@ }
    }
}

pub open spec fn kw_on() -> Seq<char> {
    seq!['o', 'n']
}

pub open spec fn kw_off() -> Seq<char> {
    seq!['o', 'f', 'f']
}

pub open spec fn kw_resume() -> Seq<char> {
    seq!['r', 'e', 's', 'u', 'm', 'e']
}

pub open spec fn kw_cancel() -> Seq<char> {
    seq!['c', 'a', 'n', 'c', 'e', 'l']
}

pub open spec fn kw_start() -> Seq<char> {
    seq!['s', 't', 'a', 'r', 't']
}

pub open spec fn kw_stop() -> Seq<char> {
    seq!['s', 't', 'o', 'p']
}

pub open spec fn kw_rename() -> Seq<char> {
    seq!['r', 'e', 'n', 'a', 'm', 'e']
}

/// Closes the parse of a line whose event fields end at `p` (the index of a
/// tab, or the line's length): any non-empty joined remainder is trailing
/// content.
pub open spec fn finish_fields(s: Seq<char>, p: int, time: Timestamp, ev: EventV) -> Result<
    EntryV,
    ParseErrorV,
> {
    if p == s.len() {
        Ok(EntryV { time, event: ev })
    } else {
        let rest = strip_tabs(s.subrange(p + 1, s.len() as int));
        if rest.len() == 0 {
            Ok(EntryV { time, event: ev })
        } else {
            Err(ParseErrorV::TrailingContent(rest))
        }
    }
}

/// Reads one log line: a timestamp, a tab, an event keyword, and the fields
/// that keyword requires. This is the whole grammar of a non-ignored line.
pub open spec fn parse_entry(s: Seq<char>) -> Result<EntryV, ParseErrorV> {
    let t1 = first_tab_at(s, 0);
    match parse_ts(s.subrange(0, t1)) {
        None => Err(ParseErrorV::BadTimestamp),
        Some(time) => {
            if t1 == s.len() {
                Err(ParseErrorV::MissingArgument)
            } else {
                let t2 = first_tab_at(s, t1 + 1);
                let kw = s.subrange(t1 + 1, t2);
                if kw == kw_on() {
                    finish_fields(s, t2, time, EventV::On)
                } else if kw == kw_off() {
                    finish_fields(s, t2, time, EventV::Off)
                } else if kw == kw_resume() {
                    finish_fields(s, t2, time, EventV::Resume)
                } else if kw == kw_cancel() {
                    finish_fields(s, t2, time, EventV::Cancel)
                } else if kw == kw_stop() {
                    finish_fields(s, t2, time, EventV::Stop)
                } else if kw == kw_start() {
                    if t2 == s.len() {
                        Err(ParseErrorV::MissingArgument)
                    } else {
                        let t3 = first_tab_at(s, t2 + 1);
                        let name = s.subrange(t2 + 1, t3);
                        finish_fields(s, t3, time, EventV::Start(name))
                    }
                } else if kw == kw_rename() {
                    if t2 == s.len() {
                        Err(ParseErrorV::MissingArgument)
                    } else {
                        let t3 = first_tab_at(s, t2 + 1);
                        let to = s.subrange(t2 + 1, t3);
                        if t3 == s.len() {
                            Ok(EntryV { time, event: EventV::Rename { to, from: None } })
                        } else {
                            let t4 = first_tab_at(s, t3 + 1);
                            let from = s.subrange(t3 + 1, t4);
                            finish_fields(
                                s,
                                t4,
                                time,
                                EventV::Rename { to, from: Some(from) },
                            )
                        }
                    }
                } else {
                    Err(ParseErrorV::UnknownEvent(kw))
                }
            }
        },
    }
}

/// The line form of an entry: timestamp, tab, keyword, arguments. For the
/// synthetic `OffSnapshot`, which has no line form, the empty sequence.
pub open spec fn format_entry(e: EntryV) -> Seq<char> {
    match e.event {
        EventV::On => ts_text(e.time) + seq!['\t'] + kw_on(),
        EventV::Off => ts_text(e.time) + seq!['\t'] + kw_off(),
        EventV::Resume => ts_text(e.time) + seq!['\t'] + kw_resume(),
        EventV::Cancel => ts_text(e.time) + seq!['\t'] + kw_cancel(),
        EventV::Stop => ts_text(e.time) + seq!['\t'] + kw_stop(),
        EventV::Start(name) => ts_text(e.time) + seq!['\t'] + kw_start() + seq!['\t'] + name,
        EventV::Rename { to, from } => ts_text(e.time) + seq!['\t'] + kw_rename() + seq!['\t'] + to
            + (match from {
            Some(f) => seq!['\t'] + f,
            None => Seq::empty(),
        }),
        EventV::OffSnapshot => Seq::empty(),
    }
}

/// Whether an event can be written on a log line at all: it is not the
/// synthetic `OffSnapshot`, and its task names hold no tab (a tab would
/// start a new field).
pub open spec fn event_has_line_form(e: EventV) -> bool {
    match e {
        EventV::OffSnapshot => false,
        EventV::Start(name) => no_tabs(name),
        EventV::Rename { to, from } => no_tabs(to) && (match from {
            Some(f) => no_tabs(f),
            None => true,
        }),
        _ => true,
    }
}

/// The mathematical form of a parse result.
pub open spec fn entry_result_view(r: Result<TimelogEntry, ParseError>) -> Result<
    EntryV,
    ParseErrorV,
> {
    match r {
        Ok(e) => Ok(e@),
        Err(e) => Err(e@),
    }
}

impl PartialEq for LogEvent {
    fn eq(&self, other: &LogEvent) -> (r: bool) {
        match (self, other) {
            (LogEvent::On, LogEvent::On) => true,
            (LogEvent::Off, LogEvent::Off) => true,
            (LogEvent::Resume, LogEvent::Resume) => true,
            (LogEvent::Cancel, LogEvent::Cancel) => true,
            (LogEvent::Start(a), LogEvent::Start(b)) => str_equal(a.as_str(), b.as_str()),
            (LogEvent::Stop, LogEvent::Stop) => true,
            (
                LogEvent::Rename { to: ta, from: fa },
                LogEvent::Rename { to: tb, from: fb },
            ) => str_equal(ta.as_str(), tb.as_str()) && match (fa, fb) {
                (Some(x), Some(y)) => str_equal(x.as_str(), y.as_str()),
                (None, None) => true,
                _ => false,
            },
            (LogEvent::OffSnapshot, LogEvent::OffSnapshot) => true,
            _ => false,
        }
    }
}

impl vstd::std_specs::cmp::PartialEqSpecImpl for LogEvent {
    open spec fn obeys_eq_spec() -> bool {
        true
    }

    open spec fn eq_spec(&self, other: &LogEvent) -> bool {
        self@ == other@
    }
}

impl PartialEq for ParseError {
    fn eq(&self, other: &ParseError) -> (r: bool) {
        match (self, other) {
            (ParseError::BadTimestamp, ParseError::BadTimestamp) => true,
            (ParseError::UnknownEvent(a), ParseError::UnknownEvent(b)) => str_equal(
                a.as_str(),
                b.as_str(),
            ),
            (ParseError::MissingArgument, ParseError::MissingArgument) => true,
            (ParseError::TrailingContent(a), ParseError::TrailingContent(b)) => str_equal(
                a.as_str(),
                b.as_str(),
            ),
            _ => false,
        }
    }
}

impl vstd::std_specs::cmp::PartialEqSpecImpl for ParseError {
    open spec fn obeys_eq_spec() -> bool {
        true
    }

    open spec fn eq_spec(&self, other: &ParseError) -> bool {
        self@ == other@
    }
}

impl PartialEq for TimelogEntry {
    fn eq(&self, other: &TimelogEntry) -> (r: bool) {
        self.time == other.time && self.event == other.event
    }
}

impl vstd::std_specs::cmp::PartialEqSpecImpl for TimelogEntry {
    open spec fn obeys_eq_spec() -> bool {
        true
    }

    open spec fn eq_spec(&self, other: &TimelogEntry) -> bool {
        self@ == other@
    }
}

/// Re-parsing a formatted entry yields the entry unchanged: for every entry
/// with a well-formed timestamp and a line form (tab-free names, not the
/// synthetic `OffSnapshot`), `parse_entry(format_entry(e)) == Ok(e)`.
#[verifier::rlimit(100)]
pub proof fn lemma_format_parse_round_trip(e: EntryV)
    requires
        e.time.wf(),
        event_has_line_form(e.event),
    ensures
        parse_entry(format_entry(e)) == Ok::<EntryV, ParseErrorV>(e),
{
    let s = format_entry(e);
    let ts = ts_text(e.time);
    lemma_ts_text_parses(e.time);
    assert(s.subrange(0, 21) =~= ts);
    assert forall|i: int| 0 <= i < 21 implies s[i] != '\t' by {
        assert(s[i] == ts[i]);
    }
    assert(s[21] == '\t');
    lemma_first_tab_found(s, 0, 21);
    assert(parse_ts(s.subrange(0, first_tab_at(s, 0))) == Some(e.time));
    match e.event {
        EventV::On => {
            assert forall|i: int| 22 <= i < s.len() implies s[i] != '\t' by {
                assert(s[i] == kw_on()[i - 22]);
            }
            lemma_first_tab_none(s, 22);
            assert(s.subrange(22, s.len() as int) =~= kw_on());
        },
        EventV::Off => {
            assert forall|i: int| 22 <= i < s.len() implies s[i] != '\t' by {
                assert(s[i] == kw_off()[i - 22]);
            }
            lemma_first_tab_none(s, 22);
            assert(s.subrange(22, s.len() as int) =~= kw_off());
            assert(kw_off() != kw_on());
        },
        EventV::Resume => {
            assert forall|i: int| 22 <= i < s.len() implies s[i] != '\t' by {
                assert(s[i] == kw_resume()[i - 22]);
            }
            lemma_first_tab_none(s, 22);
            assert(s.subrange(22, s.len() as int) =~= kw_resume());
            assert(kw_resume() != kw_on());
            assert(kw_resume() != kw_off());
        },
        EventV::Cancel => {
            assert forall|i: int| 22 <= i < s.len() implies s[i] != '\t' by {
                assert(s[i] == kw_cancel()[i - 22]);
            }
            lemma_first_tab_none(s, 22);
            assert(s.subrange(22, s.len() as int) =~= kw_cancel());
            assert(kw_cancel() != kw_on());
            assert(kw_cancel() != kw_off());
            assert(kw_cancel()[0] != kw_resume()[0]);
        },
        EventV::Stop => {
            assert forall|i: int| 22 <= i < s.len() implies s[i] != '\t' by {
                assert(s[i] == kw_stop()[i - 22]);
            }
            lemma_first_tab_none(s, 22);
            assert(s.subrange(22, s.len() as int) =~= kw_stop());
            assert(kw_stop() != kw_on());
            assert(kw_stop() != kw_off());
            assert(kw_stop() != kw_resume());
            assert(kw_stop() != kw_cancel());
        },
        EventV::Start(name) => {
            assert forall|i: int| 22 <= i < 27 implies s[i] != '\t' by {
                assert(s[i] == kw_start()[i - 22]);
            }
            assert(s[27] == '\t');
            lemma_first_tab_found(s, 22, 27);
            assert(s.subrange(22, 27) =~= kw_start());
            assert(kw_start() != kw_on());
            assert(kw_start() != kw_off());
            assert(kw_start() != kw_resume());
            assert(kw_start() != kw_cancel());
            assert(kw_start() != kw_stop());
            assert forall|i: int| 28 <= i < s.len() implies s[i] != '\t' by {
                assert(s[i] == name[i - 28]);
            }
            lemma_first_tab_none(s, 28);
            assert(s.subrange(28, s.len() as int) =~= name);
        },
        EventV::Rename { to, from } => {
            assert forall|i: int| 22 <= i < 28 implies s[i] != '\t' by {
                assert(s[i] == kw_rename()[i - 22]);
            }
            assert(s[28] == '\t');
            lemma_first_tab_found(s, 22, 28);
            assert(s.subrange(22, 28) =~= kw_rename());
            assert(kw_rename() != kw_on());
            assert(kw_rename() != kw_off());
            assert(kw_rename()[2] != kw_resume()[2]);
            assert(kw_rename()[0] != kw_cancel()[0]);
            assert(kw_rename() != kw_stop());
            assert(kw_rename() != kw_start());
            match from {
                None => {
                    assert forall|i: int| 29 <= i < s.len() implies s[i] != '\t' by {
                        assert(s[i] == to[i - 29]);
                    }
                    lemma_first_tab_none(s, 29);
                    assert(s.subrange(29, s.len() as int) =~= to);
                },
                Some(f) => {
                    let tf = 29 + to.len() as int;
                    assert forall|i: int| 29 <= i < tf implies s[i] != '\t' by {
                        assert(s[i] == to[i - 29]);
                    }
                    assert(s[tf] == '\t');
                    lemma_first_tab_found(s, 29, tf);
                    assert(s.subrange(29, tf) =~= to);
                    assert forall|i: int| tf + 1 <= i < s.len() implies s[i] != '\t' by {
                        assert(s[i] == f[i - (tf + 1)]);
                    }
                    lemma_first_tab_none(s, tf + 1);
                    assert(s.subrange(tf + 1, s.len() as int) =~= f);
                },
            }
        },
        EventV::OffSnapshot => {},
    }
}

/// Every entry the parser accepts carries a well-formed timestamp.
pub proof fn lemma_parse_entry_time_wf(s: Seq<char>)
    ensures
        parse_entry(s) matches Ok(e) ==> e.time.wf(),
{
}

/// Joins the fields after position `p` (a tab) and reports them as trailing
/// content if any character remains.
fn check_trailing(line: &str, p: usize) -> (r: Result<(), ParseError>)
    requires
        p <= line@.len(),
        p < line@.len() ==> line@[p as int] == '\t',
    ensures
        match r {
            Ok(_) => p == line@.len() || strip_tabs(
                line@.subrange(p as int + 1, line@.len() as int),
            ).len() == 0,
            Err(e) => p < line@.len() && {
                let rest = strip_tabs(line@.subrange(p as int + 1, line@.len() as int));
                rest.len() > 0 && e@ == ParseErrorV::TrailingContent(rest)
            },
        },
{
    let n: usize = line.unicode_len();
    if p == n {
        return Ok(());
    }
    let mut acc = String::new();
    let mut q: usize = p + 1;
    proof {
        assert(strip_tabs(line@.subrange(p as int + 1, n as int)) =~= acc@ + strip_tabs(
            line@.subrange(q as int, n as int),
        ));
    }
    while q < n
        invariant
            q <= n,
            n == line@.len(),
            p < n,
            strip_tabs(line@.subrange(p as int + 1, n as int)) == acc@ + strip_tabs(
                line@.subrange(q as int, n as int),
            ),
        decreases n - q,
    {
        let t = find_tab(line, q);
        proof {
            lemma_first_tab_at_props(line@, q as int);
        }
        let field = line.substring_char(q, t);
        acc.append(field);
        proof {
            assert(line@.subrange(q as int, n as int) =~= line@.subrange(q as int, t as int)
                + line@.subrange(t as int, n as int));
            lemma_strip_tabs_concat(
                line@.subrange(q as int, t as int),
                line@.subrange(t as int, n as int),
            );
            if t < n {
                assert(line@.subrange(t as int, n as int)[0] == '\t');
                assert(line@.subrange(t as int, n as int).skip(1) =~= line@.subrange(
                    t as int + 1,
                    n as int,
                ));
            } else {
                assert(line@.subrange(t as int, n as int) =~= Seq::<char>::empty());
            }
        }
        if t == n {
            q = n;
        } else {
            q = t + 1;
        }
    }
    proof {
        assert(line@.subrange(n as int, n as int) =~= Seq::<char>::empty());
    }
    if acc.as_str().is_empty() {
        Ok(())
    } else {
        Err(ParseError::TrailingContent(acc))
    }
}

impl LogEvent {
    /// A fresh event equal to this one.
    pub fn duplicate(&self) -> (r: LogEvent)
        ensures
            r@ == self@,
    {
        match self {
            LogEvent::On => LogEvent::On,
            LogEvent::Off => LogEvent::Off,
            LogEvent::Resume => LogEvent::Resume,
            LogEvent::Cancel => LogEvent::Cancel,
            LogEvent::Start(name) => LogEvent::Start(name.clone()),
            LogEvent::Stop => LogEvent::Stop,
            LogEvent::Rename { to, from } => LogEvent::Rename {
                to: to.clone(),
                from: match from {
                    Some(f) => Some(f.clone()),
                    None => None,
                },
            },
            LogEvent::OffSnapshot => LogEvent::OffSnapshot,
        }
    }
}

impl TimelogEntry {
    /// Pairs a timestamp with an event.
    pub fn new(time: &Timestamp, event: LogEvent) -> (r: TimelogEntry)
        ensures
            r@ == (EntryV { time: *time, event: event@ }),
    {
        TimelogEntry { time: *time, event }
    }

    /// Reads one log line, exactly as `parse_entry` states it.
    pub fn parse_from_str(line: &str) -> (r: Result<TimelogEntry, ParseError>)
        ensures
            entry_result_view(r) == parse_entry(line@),
    {
        proof {
            reveal_strlit("on");
            reveal_strlit("off");
            reveal_strlit("resume");
            reveal_strlit("cancel");
            reveal_strlit("stop");
            reveal_strlit("start");
            reveal_strlit("rename");
            assert(kw_on() =~= "on"@);
            assert(kw_off() =~= "off"@);
            assert(kw_resume() =~= "resume"@);
            assert(kw_cancel() =~= "cancel"@);
            assert(kw_stop() =~= "stop"@);
            assert(kw_start() =~= "start"@);
            assert(kw_rename() =~= "rename"@);
        }
        let n: usize = line.unicode_len();
        let t1 = find_tab(line, 0);
        proof {
            lemma_first_tab_at_props(line@, 0);
        }
        let ts_part = line.substring_char(0, t1);
        let time = match parse_ts_str(ts_part) {
            Some(t) => t,
            None => { return Err(ParseError::BadTimestamp) },
        };
        if t1 == n {
            return Err(ParseError::MissingArgument);
        }
        let t2 = find_tab(line, t1 + 1);
        proof {
            lemma_first_tab_at_props(line@, t1 as int + 1);
        }
        let kw = line.substring_char(t1 + 1, t2);
        if str_equal(kw, "on") {
            match check_trailing(line, t2) {
                Ok(_) => Ok(TimelogEntry { time, event: LogEvent::On }),
                Err(e) => Err(e),
            }
        } else if str_equal(kw, "off") {
            match check_trailing(line, t2) {
                Ok(_) => Ok(TimelogEntry { time, event: LogEvent::Off }),
                Err(e) => Err(e),
            }
        } else if str_equal(kw, "resume") {
            match check_trailing(line, t2) {
                Ok(_) => Ok(TimelogEntry { time, event: LogEvent::Resume }),
                Err(e) => Err(e),
            }
        } else if str_equal(kw, "cancel") {
            match check_trailing(line, t2) {
                Ok(_) => Ok(TimelogEntry { time, event: LogEvent::Cancel }),
                Err(e) => Err(e),
            }
        } else if str_equal(kw, "stop") {
            match check_trailing(line, t2) {
                Ok(_) => Ok(TimelogEntry { time, event: LogEvent::Stop }),
                Err(e) => Err(e),
            }
        } else if str_equal(kw, "start") {
            if t2 == n {
                return Err(ParseError::MissingArgument);
            }
            let t3 = find_tab(line, t2 + 1);
            proof {
                lemma_first_tab_at_props(line@, t2 as int + 1);
            }
            let name = line.substring_char(t2 + 1, t3);
            match check_trailing(line, t3) {
                Ok(_) => Ok(TimelogEntry { time, event: LogEvent::Start(name.to_owned()) }),
                Err(e) => Err(e),
            }
        } else if str_equal(kw, "rename") {
            if t2 == n {
                return Err(ParseError::MissingArgument);
            }
            let t3 = find_tab(line, t2 + 1);
            proof {
                lemma_first_tab_at_props(line@, t2 as int + 1);
            }
            let to = line.substring_char(t2 + 1, t3);
            if t3 == n {
                return Ok(TimelogEntry {
                    time,
                    event: LogEvent::Rename { to: to.to_owned(), from: None },
                });
            }
            let t4 = find_tab(line, t3 + 1);
            proof {
                lemma_first_tab_at_props(line@, t3 as int + 1);
            }
            let from = line.substring_char(t3 + 1, t4);
            match check_trailing(line, t4) {
                Ok(_) => Ok(TimelogEntry {
                    time,
                    event: LogEvent::Rename { to: to.to_owned(), from: Some(from.to_owned()) },
                }),
                Err(e) => Err(e),
            }
        } else {
            Err(ParseError::UnknownEvent(kw.to_owned()))
        }
    }

    /// Writes the entry back in its line form; `None` for the synthetic
    /// `OffSnapshot`, which has none.
    pub fn format_line(&self) -> (r: Option<String>)
        requires
            self.time.wf(),
        ensures
            match r {
                Some(s) => !(self@.event is OffSnapshot) && s@ == format_entry(self@),
                None => self@.event is OffSnapshot,
            },
    {
        proof {
            reveal_strlit("\ton");
            reveal_strlit("\toff");
            reveal_strlit("\tresume");
            reveal_strlit("\tcancel");
            reveal_strlit("\tstop");
            reveal_strlit("\tstart\t");
            reveal_strlit("\trename\t");
            reveal_strlit("\t");
            assert("\ton"@ =~= seq!['\t'] + kw_on());
            assert("\toff"@ =~= seq!['\t'] + kw_off());
            assert("\tresume"@ =~= seq!['\t'] + kw_resume());
            assert("\tcancel"@ =~= seq!['\t'] + kw_cancel());
            assert("\tstop"@ =~= seq!['\t'] + kw_stop());
            assert("\tstart\t"@ =~= seq!['\t'] + kw_start() + seq!['\t']);
            assert("\trename\t"@ =~= seq!['\t'] + kw_rename() + seq!['\t']);
            assert("\t"@ =~= seq!['\t']);
        }
        let mut s = format_ts(&self.time);
        match &self.event {
            LogEvent::On => {
                s.append("\ton");
                assert(s@ =~= format_entry(self@));
            },
            LogEvent::Off => {
                s.append("\toff");
                assert(s@ =~= format_entry(self@));
            },
            LogEvent::Resume => {
                s.append("\tresume");
                assert(s@ =~= format_entry(self@));
            },
            LogEvent::Cancel => {
                s.append("\tcancel");
                assert(s@ =~= format_entry(self@));
            },
            LogEvent::Stop => {
                s.append("\tstop");
                assert(s@ =~= format_entry(self@));
            },
            LogEvent::Start(name) => {
                s.append("\tstart\t");
                s.append(name.as_str());
                assert(s@ =~= format_entry(self@));
            },
            LogEvent::Rename { to, from } => {
                s.append("\trename\t");
                s.append(to.as_str());
                match from {
                    Some(f) => {
                        s.append("\t");
                        s.append(f.as_str());
                    },
                    None => {},
                }
                assert(s@ =~= format_entry(self@));
            },
            LogEvent::OffSnapshot => {
                return None;
            },
        }
        Some(s)
    }
}

} // verus!
