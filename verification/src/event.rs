//! The event log and the round coordinator.
//!
//! Independent invocations of the runner coordinate through a shared,
//! append-only, line-delimited JSON log. Each invocation derives where it
//! sits in a round purely by scanning the log backward; lifecycle markers are
//! appended when a group begins and when the round's last group ends.
//!
//! The library works on the log as a vector of lines; reading and appending
//! the underlying file is the caller's concern.

use vstd::prelude::*;
use vstd::string::StrSliceExecFns;
use vstd::string::StringSliceAdditionalSpecFns;
use crate::bytes::bytes_eq;
use crate::json::JsonScalar;
use crate::json::ScalarV;
use crate::json::enc_flat_obj;
use crate::json::pairs_view;
use crate::json::parse_flat_obj;
use crate::json::parse_flat_obj_exec;
use crate::json::write_flat_obj;
use crate::json::lemma_parse_flat_obj_of_enc;

verus! {

/// One record of the event log, as the coordinator reads it. Unrecognized or
/// malformed lines classify as `Other` and are skipped, never fatal.
#[derive(Clone, Copy, Debug, PartialEq, Eq, Structural)]
pub enum LogEvent {
    RoundStarted,
    RoundEnded,
    GroupStarted { current_test_group: u64, total_test_groups: u64 },
    Other,
}

// ---------------------------------------------------------------------------
// Wire names
// ---------------------------------------------------------------------------
pub open spec fn key_event() -> Seq<u8> {
    "event".spec_bytes()
}

pub open spec fn key_timestamp() -> Seq<u8> {
    "timestamp".spec_bytes()
}

pub open spec fn key_current() -> Seq<u8> {
    "current_test_group".spec_bytes()
}

pub open spec fn key_total() -> Seq<u8> {
    "total_test_groups".spec_bytes()
}

pub open spec fn name_round_started() -> Seq<u8> {
    "TestRoundStartedEvent".spec_bytes()
}

pub open spec fn name_round_ended() -> Seq<u8> {
    "TestRoundEndedEvent".spec_bytes()
}

pub open spec fn name_group_started() -> Seq<u8> {
    "TestGroupStartedEvent".spec_bytes()
}

/// The wire names are pairwise distinct; every classification proof leans on
/// this.
pub proof fn lemma_wire_names_distinct()
    ensures
        key_event() != key_current(),
        key_event() != key_total(),
        key_timestamp() != key_current(),
        key_timestamp() != key_total(),
        key_current() != key_total(),
        name_round_started() != name_round_ended(),
        name_round_started() != name_group_started(),
        name_round_ended() != name_group_started(),
{
    reveal_strlit("event");
    reveal_strlit("timestamp");
    reveal_strlit("current_test_group");
    reveal_strlit("total_test_groups");
    reveal_strlit("TestRoundStartedEvent");
    reveal_strlit("TestRoundEndedEvent");
    reveal_strlit("TestGroupStartedEvent");
    assert(vstd::utf8::is_ascii_chars("event"@));
    assert(vstd::utf8::is_ascii_chars("timestamp"@));
    assert(vstd::utf8::is_ascii_chars("current_test_group"@));
    assert(vstd::utf8::is_ascii_chars("total_test_groups"@));
    assert(vstd::utf8::is_ascii_chars("TestRoundStartedEvent"@));
    assert(vstd::utf8::is_ascii_chars("TestRoundEndedEvent"@));
    assert(vstd::utf8::is_ascii_chars("TestGroupStartedEvent"@));
    vstd::utf8::is_ascii_chars_encode_utf8("event"@);
    vstd::utf8::is_ascii_chars_encode_utf8("timestamp"@);
    vstd::utf8::is_ascii_chars_encode_utf8("current_test_group"@);
    vstd::utf8::is_ascii_chars_encode_utf8("total_test_groups"@);
    vstd::utf8::is_ascii_chars_encode_utf8("TestRoundStartedEvent"@);
    vstd::utf8::is_ascii_chars_encode_utf8("TestRoundEndedEvent"@);
    vstd::utf8::is_ascii_chars_encode_utf8("TestGroupStartedEvent"@);
    assert(key_event().len() == 5);
    assert(key_timestamp().len() == 9);
    assert(key_current().len() == 18);
    assert(key_total().len() == 17);
    assert(name_round_started().len() == 21);
    assert(name_round_ended().len() == 19);
    assert(name_group_started().len() == 21);
    assert("TestRoundStartedEvent"@[4] == 'R');
    assert("TestGroupStartedEvent"@[4] == 'G');
    assert(name_round_started()[4] == 82);
    assert(name_group_started()[4] == 71);
}

// ---------------------------------------------------------------------------
// Classifying one log line
// ---------------------------------------------------------------------------
/// First value bound to `key` among the members, if any.
pub open spec fn lookup(ps: Seq<(Seq<u8>, ScalarV)>, key: Seq<u8>) -> Option<ScalarV>
    decreases ps.len(),
{
    if ps.len() == 0 {
        None
    } else if ps[0].0 == key {
        Some(ps[0].1)
    } else {
        lookup(ps.skip(1), key)
    }
}

/// String value bound to `key`, if it is bound to a string.
pub open spec fn str_of(ps: Seq<(Seq<u8>, ScalarV)>, key: Seq<u8>) -> Option<Seq<u8>> {
    match lookup(ps, key) {
        Some(ScalarV::Str(s)) => Some(s),
        _ => None,
    }
}

/// Unsigned value bound to `key`, if it is bound to a number.
pub open spec fn u64_of(ps: Seq<(Seq<u8>, ScalarV)>, key: Seq<u8>) -> Option<u64> {
    match lookup(ps, key) {
        Some(ScalarV::UInt(n)) => Some(n),
        _ => None,
    }
}

/// Boolean value bound to `key`, if it is bound to a boolean.
pub open spec fn bool_of(ps: Seq<(Seq<u8>, ScalarV)>, key: Seq<u8>) -> Option<bool> {
    match lookup(ps, key) {
        Some(ScalarV::Bool(b)) => Some(b),
        _ => None,
    }
}

/// How the members of one parsed log record classify.
pub open spec fn pairs_event(ps: Seq<(Seq<u8>, ScalarV)>) -> LogEvent {
    match str_of(ps, key_event()) {
        Some(name) => if name == name_round_started() {
            LogEvent::RoundStarted
        } else if name == name_round_ended() {
            LogEvent::RoundEnded
        } else if name == name_group_started() {
            match (u64_of(ps, key_current()), u64_of(ps, key_total())) {
                (Some(c), Some(t)) => LogEvent::GroupStarted {
                    current_test_group: c,
                    total_test_groups: t,
                },
                _ => LogEvent::Other,
            }
        } else {
            LogEvent::Other
        },
        None => LogEvent::Other,
    }
}

/// How one raw log line classifies.
pub open spec fn line_event(line: Seq<u8>) -> LogEvent {
    match parse_flat_obj(line) {
        Some(ps) => pairs_event(ps),
        None => LogEvent::Other,
    }
}

/// Index of the first member whose key is `key`.
pub(crate) fn find_member(pairs: &Vec<(Vec<u8>, JsonScalar)>, key: &Vec<u8>) -> (r: Option<usize>)
    ensures
        match r {
            Some(ix) => ix < pairs@.len() && lookup(pairs_view(pairs@), key@) == Some(
                pairs@[ix as int].1@,
            ),
            None => lookup(pairs_view(pairs@), key@) is None,
        },
{
    let ghost ps = pairs_view(pairs@);
    proof {
        assert(ps.skip(0) =~= ps);
    }
    let mut k: usize = 0;
    while k < pairs.len()
        invariant
            k <= pairs@.len(),
            ps == pairs_view(pairs@),
            lookup(ps, key@) == lookup(ps.skip(k as int), key@),
        decreases pairs@.len() - k,
    {
        if bytes_eq(&pairs[k].0, key) {
            proof {
                assert(ps.skip(k as int)[0] == ps[k as int]);
                assert(lookup(ps.skip(k as int), key@) == Some(ps[k as int].1));
            }
            return Some(k);
        }
        proof {
            assert(ps.skip(k as int)[0] == ps[k as int]);
            assert(ps.skip(k as int).skip(1) =~= ps.skip(k as int + 1));
        }
        k = k + 1;
    }
    proof {
        assert(ps.skip(ps.len() as int).len() == 0);
    }
    None
}

/// Classify one line of the event log.
pub fn classify_line(line: &Vec<u8>) -> (e: LogEvent)
    ensures
        e == line_event(line@),
{
    let pairs = match parse_flat_obj_exec(line) {
        Some(pairs) => pairs,
        None => {
            return LogEvent::Other;
        },
    };
    let ghost ps = pairs_view(pairs@);
    let name_ix = match find_member(&pairs, &"event".as_bytes_vec()) {
        Some(ix) => ix,
        None => {
            return LogEvent::Other;
        },
    };
    let name = match &pairs[name_ix].1 {
        JsonScalar::Str(name) => name,
        _ => {
            return LogEvent::Other;
        },
    };
    if bytes_eq(name, &"TestRoundStartedEvent".as_bytes_vec()) {
        LogEvent::RoundStarted
    } else if bytes_eq(name, &"TestRoundEndedEvent".as_bytes_vec()) {
        LogEvent::RoundEnded
    } else if bytes_eq(name, &"TestGroupStartedEvent".as_bytes_vec()) {
        let c_ix = match find_member(&pairs, &"current_test_group".as_bytes_vec()) {
            Some(ix) => ix,
            None => {
                return LogEvent::Other;
            },
        };
        let c = match &pairs[c_ix].1 {
            JsonScalar::UInt(c) => *c,
            _ => {
                return LogEvent::Other;
            },
        };
        let t_ix = match find_member(&pairs, &"total_test_groups".as_bytes_vec()) {
            Some(ix) => ix,
            None => {
                return LogEvent::Other;
            },
        };
        let t = match &pairs[t_ix].1 {
            JsonScalar::UInt(t) => *t,
            _ => {
                return LogEvent::Other;
            },
        };
        LogEvent::GroupStarted { current_test_group: c, total_test_groups: t }
    } else {
        LogEvent::Other
    }
}


// ---------------------------------------------------------------------------
// The round coordinator
// ---------------------------------------------------------------------------
/// The log as the coordinator sees it: one event per line.
pub open spec fn events_of(lines: Seq<Seq<u8>>) -> Seq<LogEvent> {
    lines.map_values(|l: Seq<u8>| line_event(l))
}

/// Is the next invocation the start of a round? True when the most recent
/// terminal marker is a round end, or when no terminal marker exists at all.
pub open spec fn round_start_of(events: Seq<LogEvent>) -> bool
    decreases events.len(),
{
    if events.len() == 0 {
        true
    } else {
        match events.last() {
            LogEvent::RoundEnded => true,
            LogEvent::RoundStarted => false,
            _ => round_start_of(events.drop_last()),
        }
    }
}

/// Index of the group the next invocation should run: zero right after a
/// round end (or on an untouched log), one past the most recent group start
/// otherwise.
pub open spec fn group_index_of(events: Seq<LogEvent>) -> int
    decreases events.len(),
{
    if events.len() == 0 {
        0
    } else {
        match events.last() {
            LogEvent::RoundEnded => 0,
            LogEvent::GroupStarted { current_test_group, .. } => current_test_group + 1,
            _ => group_index_of(events.drop_last()),
        }
    }
}

/// Scan the log backward for the most recent terminal marker.
pub fn is_start_of_test_round(lines: &Vec<Vec<u8>>) -> (r: bool)
    ensures
        r == round_start_of(events_of(lines.deep_view())),
{
    let ghost ev = events_of(lines.deep_view());
    let mut k: usize = lines.len();
    proof {
        assert(ev.take(k as int) =~= ev);
    }
    while k > 0
        invariant
            k <= lines@.len(),
            ev == events_of(lines.deep_view()),
            round_start_of(ev) == round_start_of(ev.take(k as int)),
        decreases k,
    {
        k = k - 1;
        let e = classify_line(&lines[k]);
        proof {
            assert(lines.deep_view()[k as int] == lines@[k as int]@);
            assert(ev[k as int] == line_event(lines@[k as int]@));
            assert(ev.take(k as int + 1).last() == ev[k as int]);
            assert(ev.take(k as int + 1).drop_last() =~= ev.take(k as int));
        }
        match e {
            LogEvent::RoundEnded => {
                return true;
            },
            LogEvent::RoundStarted => {
                return false;
            },
            _ => {
            },
        }
    }
    proof {
        assert(ev.take(0) =~= Seq::<LogEvent>::empty());
    }
    true
}

/// Scan the log backward for the most recent round end or group start.
pub fn get_current_test_group(lines: &Vec<Vec<u8>>) -> (idx: u64)
    requires
        group_index_of(events_of(lines.deep_view())) <= u64::MAX,
    ensures
        idx == group_index_of(events_of(lines.deep_view())),
{
    let ghost ev = events_of(lines.deep_view());
    let mut k: usize = lines.len();
    proof {
        assert(ev.take(k as int) =~= ev);
    }
    while k > 0
        invariant
            k <= lines@.len(),
            ev == events_of(lines.deep_view()),
            group_index_of(ev) == group_index_of(ev.take(k as int)),
            group_index_of(ev) <= u64::MAX,
        decreases k,
    {
        k = k - 1;
        let e = classify_line(&lines[k]);
        proof {
            assert(lines.deep_view()[k as int] == lines@[k as int]@);
            assert(ev[k as int] == line_event(lines@[k as int]@));
            assert(ev.take(k as int + 1).last() == ev[k as int]);
            assert(ev.take(k as int + 1).drop_last() =~= ev.take(k as int));
        }
        match e {
            LogEvent::RoundEnded => {
                return 0;
            },
            LogEvent::GroupStarted { current_test_group, .. } => {
                return current_test_group + 1;
            },
            _ => {
            },
        }
    }
    proof {
        assert(ev.take(0) =~= Seq::<LogEvent>::empty());
    }
    0
}

// ---------------------------------------------------------------------------
// The events this library writes
// ---------------------------------------------------------------------------
/// The line appended when a round begins or ends: event name and timestamp.
pub open spec fn enc_marker_line(name: Seq<u8>, timestamp_ms: u64) -> Seq<u8> {
    enc_flat_obj(
        seq![
            (key_event(), ScalarV::Str(name)),
            (key_timestamp(), ScalarV::UInt(timestamp_ms)),
        ],
    )
}

/// The line appended when a group begins.
pub open spec fn enc_group_line(current: u64, total: u64, timestamp_ms: u64) -> Seq<u8> {
    enc_flat_obj(
        seq![
            (key_event(), ScalarV::Str(name_group_started())),
            (key_timestamp(), ScalarV::UInt(timestamp_ms)),
            (key_current(), ScalarV::UInt(current)),
            (key_total(), ScalarV::UInt(total)),
        ],
    )
}

/// Marks the start of a test round.
pub struct TestRoundStartedEvent;

/// Marks the end of a test round.
pub struct TestRoundEndedEvent;

/// Marks the start of one test group within a round; also serves as the
/// group descriptor an invocation keeps for its end-of-group decision.
pub struct TestGroupStartedEvent {
    pub current_test_group: u64,
    pub total_test_groups: u64,
}

impl TestRoundStartedEvent {
    /// The log line for this event, as one compact JSON record.
    pub fn to_json(&self, timestamp_ms: u64) -> (r: Vec<u8>)
        ensures
            r@ == enc_marker_line(name_round_started(), timestamp_ms),
    {
        let mut pairs: Vec<(Vec<u8>, JsonScalar)> = Vec::new();
        pairs.push(("event".as_bytes_vec(), JsonScalar::Str("TestRoundStartedEvent".as_bytes_vec())));
        pairs.push(("timestamp".as_bytes_vec(), JsonScalar::UInt(timestamp_ms)));
        let mut out: Vec<u8> = Vec::new();
        proof {
            assert(pairs_view(pairs@) =~= seq![
                (key_event(), ScalarV::Str(name_round_started())),
                (key_timestamp(), ScalarV::UInt(timestamp_ms)),
            ]);
        }
        write_flat_obj(&mut out, &pairs);
        assert(out@ =~= enc_marker_line(name_round_started(), timestamp_ms));
        out
    }
}

impl TestRoundEndedEvent {
    /// The log line for this event, as one compact JSON record.
    pub fn to_json(&self, timestamp_ms: u64) -> (r: Vec<u8>)
        ensures
            r@ == enc_marker_line(name_round_ended(), timestamp_ms),
    {
        let mut pairs: Vec<(Vec<u8>, JsonScalar)> = Vec::new();
        pairs.push(("event".as_bytes_vec(), JsonScalar::Str("TestRoundEndedEvent".as_bytes_vec())));
        pairs.push(("timestamp".as_bytes_vec(), JsonScalar::UInt(timestamp_ms)));
        let mut out: Vec<u8> = Vec::new();
        proof {
            assert(pairs_view(pairs@) =~= seq![
                (key_event(), ScalarV::Str(name_round_ended())),
                (key_timestamp(), ScalarV::UInt(timestamp_ms)),
            ]);
        }
        write_flat_obj(&mut out, &pairs);
        assert(out@ =~= enc_marker_line(name_round_ended(), timestamp_ms));
        out
    }
}

impl TestGroupStartedEvent {
    /// Descriptor for the group this invocation runs: its index comes from
    /// the log, the group count from the workspace manifest.
    pub fn new(lines: &Vec<Vec<u8>>, total_test_groups: u64) -> (e: TestGroupStartedEvent)
        requires
            group_index_of(events_of(lines.deep_view())) <= u64::MAX,
        ensures
            e.current_test_group == group_index_of(events_of(lines.deep_view())),
            e.total_test_groups == total_test_groups,
    {
        let current_test_group = get_current_test_group(lines);
        TestGroupStartedEvent { current_test_group, total_test_groups }
    }

    /// The log line for this event, as one compact JSON record.
    pub fn to_json(&self, timestamp_ms: u64) -> (r: Vec<u8>)
        ensures
            r@ == enc_group_line(self.current_test_group, self.total_test_groups, timestamp_ms),
    {
        let mut pairs: Vec<(Vec<u8>, JsonScalar)> = Vec::new();
        pairs.push(("event".as_bytes_vec(), JsonScalar::Str("TestGroupStartedEvent".as_bytes_vec())));
        pairs.push(("timestamp".as_bytes_vec(), JsonScalar::UInt(timestamp_ms)));
        pairs.push(("current_test_group".as_bytes_vec(), JsonScalar::UInt(self.current_test_group)));
        pairs.push(("total_test_groups".as_bytes_vec(), JsonScalar::UInt(self.total_test_groups)));
        let mut out: Vec<u8> = Vec::new();
        proof {
            assert(pairs_view(pairs@) =~= seq![
                (key_event(), ScalarV::Str(name_group_started())),
                (key_timestamp(), ScalarV::UInt(timestamp_ms)),
                (key_current(), ScalarV::UInt(self.current_test_group)),
                (key_total(), ScalarV::UInt(self.total_test_groups)),
            ]);
        }
        write_flat_obj(&mut out, &pairs);
        assert(out@ =~= enc_group_line(self.current_test_group, self.total_test_groups, timestamp_ms));
        out
    }
}

/// The lines `write_start_events` appends for a given log.
pub open spec fn start_event_lines(lines: Seq<Seq<u8>>, total: u64, timestamp_ms: u64) -> Seq<
    Seq<u8>,
> {
    let ev = events_of(lines);
    let group = enc_group_line(group_index_of(ev) as u64, total, timestamp_ms);
    if round_start_of(ev) {
        seq![enc_marker_line(name_round_started(), timestamp_ms), group]
    } else {
        seq![group]
    }
}

/// Decide what begins this invocation: a round-start marker when the log says
/// this is a fresh round, then always a group-start record. Returns the lines
/// to append to the log, in order, and the group descriptor.
pub fn write_start_events(lines: &Vec<Vec<u8>>, total_test_groups: u64, timestamp_ms: u64) -> (r:
    (Vec<Vec<u8>>, TestGroupStartedEvent))
    requires
        group_index_of(events_of(lines.deep_view())) <= u64::MAX,
    ensures
        r.0.deep_view() == start_event_lines(lines.deep_view(), total_test_groups, timestamp_ms),
        r.1.current_test_group == group_index_of(events_of(lines.deep_view())),
        r.1.total_test_groups == total_test_groups,
{
    let descriptor = TestGroupStartedEvent::new(lines, total_test_groups);
    let mut to_append: Vec<Vec<u8>> = Vec::new();
    if is_start_of_test_round(lines) {
        let round_started = TestRoundStartedEvent;
        to_append.push(round_started.to_json(timestamp_ms));
    }
    to_append.push(descriptor.to_json(timestamp_ms));
    proof {
        assert(to_append.deep_view() =~~= start_event_lines(
            lines.deep_view(),
            total_test_groups,
            timestamp_ms,
        ));
    }
    (to_append, descriptor)
}

/// Decide what ends this invocation: a round-end marker exactly when this
/// group was the round's last. Returns the line to append, if any.
pub fn write_end_events(start_event: &TestGroupStartedEvent, timestamp_ms: u64) -> (r: Option<
    Vec<u8>,
>)
    ensures
        match r {
            Some(line) => start_event.current_test_group + 1 >= start_event.total_test_groups
                && line@ == enc_marker_line(name_round_ended(), timestamp_ms),
            None => start_event.current_test_group + 1 < start_event.total_test_groups,
        },
{
    if start_event.total_test_groups == 0 || start_event.current_test_group
        >= start_event.total_test_groups - 1 {
        let round_ended = TestRoundEndedEvent;
        Some(round_ended.to_json(timestamp_ms))
    } else {
        None
    }
}


// ---------------------------------------------------------------------------
// Laws: what the coordinator reads back from what it wrote
// ---------------------------------------------------------------------------
/// An untouched log means a fresh round and group index zero.
pub proof fn lemma_empty_log(lines: Seq<Seq<u8>>)
    requires
        lines.len() == 0,
    ensures
        round_start_of(events_of(lines)),
        group_index_of(events_of(lines)) == 0,
{
    assert(events_of(lines).len() == 0);
}

/// A log whose last event is a round end reads as a fresh round with group
/// index zero, whatever came before it.
pub proof fn lemma_round_ended_resets(events: Seq<LogEvent>)
    requires
        events.len() > 0,
        events.last() == LogEvent::RoundEnded,
    ensures
        round_start_of(events),
        group_index_of(events) == 0,
{
}

/// A log whose last event is a group start reads as that group's successor;
/// whether the round is fresh is decided by the earlier events alone.
pub proof fn lemma_group_started_index(events: Seq<LogEvent>, c: u64, t: u64)
    requires
        events.len() > 0,
        events.last() == (LogEvent::GroupStarted { current_test_group: c, total_test_groups: t }),
    ensures
        group_index_of(events) == c + 1,
        round_start_of(events) == round_start_of(events.drop_last()),
{
}

/// A round marker line reads back as the marker it encodes.
pub proof fn lemma_classify_marker_line(name: Seq<u8>, timestamp_ms: u64)
    requires
        name == name_round_started() || name == name_round_ended(),
    ensures
        line_event(enc_marker_line(name, timestamp_ms)) == (if name == name_round_started() {
            LogEvent::RoundStarted
        } else {
            LogEvent::RoundEnded
        }),
{
    let ps = seq![
        (key_event(), ScalarV::Str(name)),
        (key_timestamp(), ScalarV::UInt(timestamp_ms)),
    ];
    lemma_parse_flat_obj_of_enc(ps);
    assert(lookup(ps, key_event()) == Some(ScalarV::Str(name)));
    lemma_wire_names_distinct();
}

/// A group start line reads back as the group start it encodes.
pub proof fn lemma_classify_group_line(c: u64, t: u64, timestamp_ms: u64)
    ensures
        line_event(enc_group_line(c, t, timestamp_ms)) == (LogEvent::GroupStarted {
            current_test_group: c,
            total_test_groups: t,
        }),
{
    let ps = seq![
        (key_event(), ScalarV::Str(name_group_started())),
        (key_timestamp(), ScalarV::UInt(timestamp_ms)),
        (key_current(), ScalarV::UInt(c)),
        (key_total(), ScalarV::UInt(t)),
    ];
    lemma_parse_flat_obj_of_enc(ps);
    lemma_wire_names_distinct();
    assert(lookup(ps, key_event()) == Some(ScalarV::Str(name_group_started())));
    assert(ps.skip(1)[0] == ps[1]);
    assert(ps.skip(1).skip(1) =~= ps.skip(2));
    assert(ps.skip(2)[0] == ps[2]);
    assert(ps.skip(2).skip(1) =~= ps.skip(3));
    assert(ps.skip(3)[0] == ps[3]);
    assert(lookup(ps, key_current()) == lookup(ps.skip(1), key_current()));
    assert(lookup(ps.skip(1), key_current()) == lookup(ps.skip(2), key_current()));
    assert(lookup(ps.skip(2), key_current()) == Some(ScalarV::UInt(c)));
    assert(lookup(ps, key_total()) == lookup(ps.skip(1), key_total()));
    assert(lookup(ps.skip(1), key_total()) == lookup(ps.skip(2), key_total()));
    assert(lookup(ps.skip(2), key_total()) == lookup(ps.skip(3), key_total()));
    assert(lookup(ps.skip(3), key_total()) == Some(ScalarV::UInt(t)));
}

/// Classification distributes over appending lines to the log.
pub proof fn lemma_events_of_append(lines: Seq<Seq<u8>>, added: Seq<Seq<u8>>)
    ensures
        events_of(lines + added) =~= events_of(lines) + events_of(added),
{
}

/// The group index derived from a log is never negative.
pub proof fn lemma_group_index_nonneg(events: Seq<LogEvent>)
    ensures
        group_index_of(events) >= 0,
    decreases events.len(),
{
    if events.len() > 0 {
        lemma_group_index_nonneg(events.drop_last());
    }
}

/// After the lines that begin a group are appended, the log reads as a
/// started round whose next group index is one past the group just begun.
/// This is the consistency the next invocation relies on.
#[verifier::rlimit(30)]
pub proof fn lemma_begin_group_consistent(lines: Seq<Seq<u8>>, total: u64, timestamp_ms: u64)
    requires
        group_index_of(events_of(lines)) <= u64::MAX,
    ensures
        !round_start_of(events_of(lines + start_event_lines(lines, total, timestamp_ms))),
        group_index_of(events_of(lines + start_event_lines(lines, total, timestamp_ms)))
            == group_index_of(events_of(lines)) + 1,
{
    let ev = events_of(lines);
    lemma_group_index_nonneg(ev);
    let idx = group_index_of(ev) as u64;
    let added = start_event_lines(lines, total, timestamp_ms);
    let evall = events_of(lines + added);
    lemma_events_of_append(lines, added);
    lemma_classify_group_line(idx, total, timestamp_ms);
    let g = LogEvent::GroupStarted { current_test_group: idx, total_test_groups: total };
    if round_start_of(ev) {
        lemma_classify_marker_line(name_round_started(), timestamp_ms);
        assert(added.len() == 2);
        assert(evall.len() == ev.len() + 2);
        assert(evall.last() == events_of(added).last());
        assert(events_of(added)[1] == line_event(added[1]));
        assert(evall.last() == g);
        lemma_group_started_index(evall, idx, total);
        assert(evall.drop_last().last() == evall[evall.len() - 2]);
        assert(evall[evall.len() - 2] == events_of(added)[0]);
        assert(evall.drop_last().last() == LogEvent::RoundStarted);
        assert(!round_start_of(evall.drop_last()));
    } else {
        assert(added.len() == 1);
        assert(evall.len() == ev.len() + 1);
        assert(evall.last() == events_of(added)[0]);
        assert(evall.last() == g);
        lemma_group_started_index(evall, idx, total);
        assert(evall.drop_last() =~= ev);
    }
}

/// After the round-end marker is appended, the log reads as a fresh round
/// with group index zero again.
pub proof fn lemma_end_group_consistent(lines: Seq<Seq<u8>>, timestamp_ms: u64)
    ensures
        round_start_of(
            events_of(lines + seq![enc_marker_line(name_round_ended(), timestamp_ms)]),
        ),
        group_index_of(
            events_of(lines + seq![enc_marker_line(name_round_ended(), timestamp_ms)]),
        ) == 0,
{
    let added = seq![enc_marker_line(name_round_ended(), timestamp_ms)];
    let evall = events_of(lines + added);
    lemma_events_of_append(lines, added);
    lemma_classify_marker_line(name_round_ended(), timestamp_ms);
    lemma_wire_names_distinct();
    assert(evall.last() == LogEvent::RoundEnded);
    lemma_round_ended_resets(evall);
}


// ---------------------------------------------------------------------------
// The group count, from the workspace manifest
// ---------------------------------------------------------------------------
/// What the manifest text says about the workspace: nothing usable, no
/// workspace table at all, or the number of members it lists.
pub uninterp spec fn manifest_member_count(manifest: Seq<char>) -> Option<Option<u64>>;

/// Relies on `toml::from_str`, `toml::Value::get` and `toml::Value::as_array`:
/// reads how many members the manifest's workspace table lists. The result is
/// a function of the text alone: `None` when the text is not TOML or the
/// workspace table has no members array, `Some(None)` when there is no
/// workspace table, `Some(Some(n))` for a workspace of `n` members. The
/// members array is a vector in memory, so its length stays below `u64::MAX`.
#[verifier::external_body]
fn read_workspace_members(manifest: &str) -> (r: Option<Option<u64>>)
    ensures
        r == manifest_member_count(manifest@),
        r matches Some(mc) && mc matches Some(n) ==> n < u64::MAX,
{
    match toml::from_str::<toml::Value>(manifest) {
        Err(_) => None,
        Ok(v) => match v.get("workspace") {
            None => Some(None),
            Some(ws) => match ws.get("members").and_then(|m| m.as_array()) {
                Some(arr) => Some(Some(arr.len() as u64)),
                None => None,
            },
        },
    }
}

/// The round's group count for a given manifest: one group per workspace
/// member plus one for the root binary, a fixed two for a single-crate
/// project, nothing for a manifest that cannot be read.
pub open spec fn total_groups_of(m: Option<Option<u64>>) -> Option<int> {
    match m {
        Some(mc) => match mc {
            Some(n) => Some(n + 1),
            None => Some(2),
        },
        None => None,
    }
}

/// How many groups one round of this workspace has. Supplied by the manifest,
/// never derived from the log.
pub fn get_total_test_groups(manifest: &str) -> (r: Result<u64, crate::KbootError>)
    ensures
        match r {
            Ok(n) => total_groups_of(manifest_member_count(manifest@)) == Some(n as int),
            Err(e) => total_groups_of(manifest_member_count(manifest@)) is None && e
                == crate::KbootError::ArgumentFailedToParse,
        },
{
    match read_workspace_members(manifest) {
        Some(mc) => match mc {
            Some(n) => Ok(n + 1),
            None => Ok(2),
        },
        None => Err(crate::KbootError::ArgumentFailedToParse),
    }
}

} // verus!
