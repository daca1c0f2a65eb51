//! Diagnostics: the ring of recent warnings, errors and panics, and the
//! one-line `key=value` format of the log.

pub mod grab;
pub mod logfmt;
pub mod reading;
pub mod tells;

use vstd::prelude::*;
use std::collections::VecDeque;
use std::path::{Path, PathBuf};
use crate::metrics::QueryTrace;
use crate::paths::{join, joined};
use crate::text::{
    chars_of, clip_len, clipped, decimal, lemma_clipped, push_char, push_chars, text_width,
};
use self::logfmt::{field, plain_field, LogfmtVisitor};

verus! {

/// How bad a captured event is, in ascending order.
#[derive(Clone, Copy, Debug, PartialEq, Eq, Structural)]
pub enum Severity {
    /// A degraded path that recovered.
    Warn,
    /// A failure that was handled.
    Error,
    /// A panic that was captured.
    Panic,
}

impl Severity {
    /// The number that events carry.
    pub fn as_u64(self) -> (r: u64)
        ensures
            r == match self {
                Severity::Warn => 1u64,
                Severity::Error => 2u64,
                Severity::Panic => 3u64,
            },
    {
        match self {
            Severity::Warn => 1,
            Severity::Error => 2,
            Severity::Panic => 3,
        }
    }
}

/// One captured event.
#[derive(Debug)]
pub struct ErrorEvent {
    /// Its number, counted from 1.
    pub seq: u64,
    /// Milliseconds since diagnostics started.
    pub uptime_ms: u64,
    /// How bad it is.
    pub severity: Severity,
    /// Where it happened.
    pub area: String,
    /// The volume it is about, where one is known.
    pub volume: Option<String>,
    /// What happened.
    pub message: String,
}

impl Clone for ErrorEvent {
    fn clone(&self) -> (r: ErrorEvent)
        ensures
            r == *self,
    {
        let volume: Option<String> = match &self.volume {
            Some(label) => Some(label.clone()),
            None => None,
        };
        ErrorEvent {
            seq: self.seq,
            uptime_ms: self.uptime_ms,
            severity: self.severity,
            area: self.area.clone(),
            volume,
            message: self.message.clone(),
        }
    }
}

/// How many events the ring keeps.
pub const RING_CAP: usize = 128;

/// How many log files the service keeps, one a day.
pub const SERVICE_MAX_LOG_FILES: usize = 14;

/// How many log files other callers keep, one a day.
pub const DEFAULT_MAX_LOG_FILES: usize = 7;

/// How many bytes of a chain of causes are told, the mark of a cut included.
pub const ERROR_CHAIN_CAP: usize = 4096;

/// How many bytes the mark of a cut takes.
pub const CUT_MARK_BYTES: usize = 3;

/// The registration of a listener.
#[derive(Debug)]
pub struct SinkGuard {
    id: u64,
}

impl SinkGuard {
    /// The number of the registration.
    pub closed spec fn number(&self) -> u64 {
        self.id
    }

    /// The number of the registration.
    pub fn id(&self) -> (r: u64)
        ensures
            r == self.number(),
    {
        self.id
    }
}

/// The ring of recent events, and the listeners that are told of new ones.
pub struct Diagnostics {
    ring: VecDeque<ErrorEvent>,
    next_seq: u64,
    sinks: Vec<u64>,
    next_sink: u64,
}

/// What is done to the diagnostics.
pub enum Step {
    /// A listener is registered under this number.
    Register(u64),
    /// The registration of this number ends.
    Unregister(u64),
    /// This event is recorded.
    Record(ErrorEvent),
}

impl Diagnostics {
    /// The events of the ring, oldest first.
    pub closed spec fn events(&self) -> Seq<ErrorEvent> {
        self.ring@
    }

    /// The number of the next event.
    pub closed spec fn upcoming(&self) -> u64 {
        self.next_seq
    }

    /// The registered listeners, in the order of their registration.
    pub closed spec fn listeners(&self) -> Seq<u64> {
        self.sinks@
    }

    /// The number of the next registration.
    pub closed spec fn upcoming_sink(&self) -> u64 {
        self.next_sink
    }

    /// The ring is no longer than its bound, its numbers ascend, and no
    /// registration has the number of the next.
    pub open spec fn wf(&self) -> bool {
        &&& self.events().len() <= RING_CAP
        &&& self.upcoming() >= 1
        &&& forall|i: int|
            0 <= i < self.events().len() ==> (#[trigger] self.events()[i]).seq < self.upcoming()
        &&& forall|i: int, j: int|
            0 <= i < j < self.events().len() ==> (#[trigger] self.events()[i]).seq < (
            #[trigger] self.events()[j]).seq
        &&& forall|i: int|
            0 <= i < self.listeners().len() ==> (#[trigger] self.listeners()[i])
                < self.upcoming_sink()
        &&& forall|i: int, j: int|
            0 <= i < j < self.listeners().len() ==> (#[trigger] self.listeners()[i]) < (
            #[trigger] self.listeners()[j])
    }

    /// `step` leads from these diagnostics to `after`.
    pub open spec fn steps_to(&self, step: Step, after: &Diagnostics) -> bool {
        match step {
            Step::Register(id) => {
                &&& id == self.upcoming_sink()
                &&& after.listeners() == self.listeners().push(id)
                &&& after.upcoming_sink() == id + 1
                &&& after.events() == self.events()
                &&& after.upcoming() == self.upcoming()
            },
            Step::Unregister(id) => {
                &&& !after.listeners().contains(id)
                &&& forall|other: u64|
                    other != id ==> (#[trigger] after.listeners().contains(other)
                        == self.listeners().contains(other))
                &&& after.upcoming_sink() == self.upcoming_sink()
                &&& after.events() == self.events()
                &&& after.upcoming() == self.upcoming()
            },
            Step::Record(event) => {
                &&& event.seq == self.upcoming()
                &&& after.events() == if self.events().len() == RING_CAP {
                    self.events().drop_first().push(event)
                } else {
                    self.events().push(event)
                }
                &&& after.upcoming() == self.upcoming() + 1
                &&& after.listeners() == self.listeners()
                &&& after.upcoming_sink() == self.upcoming_sink()
            },
        }
    }

    /// Among the listeners, `id` is told of an event exactly once.
    pub open spec fn tells_once(&self, id: u64) -> bool {
        exists|i: int|
            0 <= i < self.listeners().len() && #[trigger] self.listeners()[i] == id && forall|j: int|
                0 <= j < self.listeners().len() && #[trigger] self.listeners()[j] == id ==> j == i
    }

    /// No events and no listeners.
    pub fn new() -> (r: Diagnostics)
        ensures
            r.wf(),
            r.events() == Seq::<ErrorEvent>::empty(),
            r.upcoming() == 1,
            r.upcoming_sink() == 1,
            r.listeners() == Seq::<u64>::empty(),
    {
        Diagnostics { ring: VecDeque::new(), next_seq: 1, sinks: Vec::new(), next_sink: 1 }
    }

    /// Whether there is a number left for one more registration.
    pub fn can_register(&self) -> (r: bool)
        ensures
            r == (self.upcoming_sink() < u64::MAX),
    {
        self.next_sink < u64::MAX
    }

    /// Whether there is a number left for one more event.
    pub fn can_record(&self) -> (r: bool)
        ensures
            r == (self.upcoming() < u64::MAX),
    {
        self.next_seq < u64::MAX
    }

    /// Register a listener.
    pub fn register_sink(&mut self) -> (r: SinkGuard)
        requires
            old(self).wf(),
            old(self).upcoming_sink() < u64::MAX,
        ensures
            final(self).wf(),
            old(self).steps_to(Step::Register(r.number()), final(self)),
    {
        let ghost before = self.listeners();
        let ghost events = self.events();
        let id: u64 = self.next_sink;
        self.sinks.push(id);
        self.next_sink = id + 1;
        proof {
            assert(self.listeners() =~= before.push(id));
            assert(self.events() == events);
        }
        SinkGuard { id }
    }

    /// End a registration.
    pub fn unregister_sink(&mut self, guard: &SinkGuard)
        requires
            old(self).wf(),
        ensures
            final(self).wf(),
            old(self).steps_to(Step::Unregister(guard.number()), final(self)),
    {
        let ghost before = self.listeners();
        let ghost events = self.events();
        let mut kept: Vec<u64> = Vec::new();
        let mut i: usize = 0;
        while i < self.sinks.len()
            invariant
                i <= before.len(),
                self.sinks@ == before,
                forall|a: int, b: int|
                    0 <= a < b < before.len() ==> (#[trigger] before[a]) < (#[trigger] before[b]),
                forall|a: int, b: int|
                    0 <= a < b < kept@.len() ==> (#[trigger] kept@[a]) < (#[trigger] kept@[b]),
                forall|a: int|
                    0 <= a < kept@.len() ==> (#[trigger] kept@[a]) != guard.id && before.take(
                        i as int,
                    ).contains(kept@[a]),
                forall|a: int|
                    0 <= a < i && (#[trigger] before[a]) != guard.id ==> kept@.contains(before[a]),
            decreases before.len() - i,
        {
            let id: u64 = self.sinks[i];
            let ghost held = kept@;
            proof {
                assert(before.take(i + 1) =~= before.take(i as int).push(id));
                assert forall|x: u64| before.take(i as int).contains(x) implies before.take(
                    i + 1,
                ).contains(x) && x < id by {
                    let a = before.take(i as int).index_of(x);
                    assert(before.take(i + 1)[a] == x);
                    assert(before[a] == x);
                }
                assert(before.take(i + 1)[i as int] == id);
            }
            if id != guard.id {
                kept.push(id);
                proof {
                    assert(kept@[held.len() as int] == id);
                    assert forall|a: int|
                        0 <= a < i + 1 && (#[trigger] before[a]) != guard.id implies kept@.contains(
                        before[a],
                    ) by {
                        if a < i {
                            let b = held.index_of(before[a]);
                            assert(kept@[b] == before[a]);
                        }
                    }
                }
            }
            i = i + 1;
        }
        proof {
            assert(before.take(i as int) =~= before);
            assert forall|id: u64| id != guard.number() implies (#[trigger] kept@.contains(id)
                == before.contains(id)) by {
                if before.contains(id) {
                    let a = before.index_of(id);
                    assert(before[a] == id);
                }
                if kept@.contains(id) {
                    let a = kept@.index_of(id);
                    assert(kept@[a] == id);
                }
            }
            assert forall|a: int| 0 <= a < kept@.len() implies (#[trigger] kept@[a])
                < self.next_sink by {
                let b = before.index_of(kept@[a]);
                assert(before[b] == kept@[a]);
                assert(self.listeners()[b] < self.upcoming_sink());
            }
        }
        self.sinks = kept;
        assert(self.listeners() == kept@);
        assert(self.events() == events);
    }

    /// The listeners to tell, in the order of their registration.
    pub fn sinks(&self) -> (r: &Vec<u64>)
        ensures
            r@ == self.listeners(),
    {
        &self.sinks
    }

    /// Record an event: it takes the place of the oldest where the ring is
    /// full. The event is given back for the listeners.
    pub fn record(
        &mut self,
        severity: Severity,
        area: &str,
        volume: Option<String>,
        message: String,
        uptime_ms: u64,
    ) -> (r: ErrorEvent)
        requires
            old(self).wf(),
            old(self).upcoming() < u64::MAX,
        ensures
            final(self).wf(),
            old(self).steps_to(Step::Record(r), final(self)),
            r.uptime_ms == uptime_ms,
            r.severity == severity,
            r.area@ == area@,
            r.volume == volume,
            r.message == message,
    {
        let event: ErrorEvent = ErrorEvent {
            seq: self.next_seq,
            uptime_ms,
            severity,
            area: area.to_owned(),
            volume,
            message,
        };
        let ghost before = self.events();
        let ghost listeners = self.listeners();
        if self.ring.len() == RING_CAP {
            self.ring.pop_front();
            assert(self.ring@ =~= before.drop_first());
        }
        let copy: ErrorEvent = event.clone();
        self.ring.push_back(copy);
        self.next_seq = self.next_seq + 1;
        proof {
            assert(self.listeners() == listeners);
            assert(self.events() =~= if before.len() == RING_CAP {
                before.drop_first().push(event)
            } else {
                before.push(event)
            });
            assert forall|i: int| 0 <= i < self.events().len() implies (
            #[trigger] self.events()[i]).seq < self.upcoming() by {
                if i < self.events().len() - 1 {
                    let k = if before.len() == RING_CAP {
                        i + 1
                    } else {
                        i
                    };
                    assert(self.events()[i] == before[k]);
                }
            }
            assert forall|i: int, j: int| 0 <= i < j < self.events().len() implies (
            #[trigger] self.events()[i]).seq < (#[trigger] self.events()[j]).seq by {
                let shift = if before.len() == RING_CAP {
                    1int
                } else {
                    0
                };
                assert(self.events()[i] == before[i + shift]);
                if j < self.events().len() - 1 {
                    assert(self.events()[j] == before[j + shift]);
                }
            }
        }
        event
    }

    /// The recent events, oldest first.
    pub fn recent_errors(&self) -> (r: Vec<ErrorEvent>)
        ensures
            r@ == self.events(),
    {
        let mut r: Vec<ErrorEvent> = Vec::new();
        let mut i: usize = 0;
        while i < self.ring.len()
            invariant
                i <= self.ring@.len(),
                r@ == self.ring@.take(i as int),
            decreases self.ring@.len() - i,
        {
            r.push(self.ring[i].clone());
            i = i + 1;
            assert(r@ =~= self.ring@.take(i as int));
        }
        assert(self.ring@.take(i as int) =~= self.ring@);
        r
    }
}

/// The steps lead from state to state.
pub open spec fn stepped(states: Seq<Diagnostics>, steps: Seq<Step>) -> bool {
    &&& states.len() == steps.len() + 1
    &&& forall|k: int| 0 <= k < states.len() ==> (#[trigger] states[k]).wf()
    &&& forall|k: int|
        0 <= k < steps.len() ==> states[k].steps_to(#[trigger] steps[k], &states[k + 1])
}

/// Registrations are kept for as long as they are not ended, and numbers are
/// not used again.
proof fn lemma_registration(states: Seq<Diagnostics>, steps: Seq<Step>, id: u64, n: int)
    requires
        stepped(states, steps),
        0 <= n < steps.len(),
        steps[0] == Step::Register(id),
        forall|k: int| 0 < k < n ==> #[trigger] steps[k] != Step::Unregister(id),
    ensures
        states[n + 1].upcoming_sink() > id,
        steps[n] != Step::Unregister(id) ==> states[n + 1].listeners().contains(id),
        steps[n] == Step::Unregister(id) ==> !states[n + 1].listeners().contains(id),
    decreases n,
{
    assert(states[n].steps_to(steps[n], &states[n + 1]));
    if n > 0 {
        lemma_registration(states, steps, id, n - 1);
        match steps[n] {
            Step::Register(other) => {
                let i = states[n].listeners().index_of(id);
                assert(states[n + 1].listeners()[i] == id);
            },
            _ => {},
        }
    } else {
        let i = states[0].listeners().len() as int;
        assert(states[1].listeners()[i] == id);
    }
}

/// Every event that is recorded while a listener is registered is told to it
/// exactly once.
pub proof fn lemma_listener_is_told(states: Seq<Diagnostics>, steps: Seq<Step>, id: u64, n: int)
    requires
        stepped(states, steps),
        0 < n < steps.len(),
        steps[0] == Step::Register(id),
        forall|k: int| 0 < k < n ==> #[trigger] steps[k] != Step::Unregister(id),
        steps[n] is Record,
    ensures
        states[n + 1].tells_once(id),
{
    lemma_registration(states, steps, id, n);
    let d = states[n + 1];
    let i = d.listeners().index_of(id);
    assert(d.wf());
    assert(d.listeners()[i] == id);
    assert forall|j: int| 0 <= j < d.listeners().len() && #[trigger] d.listeners()[j] == id implies j
        == i by {
        if j < i {
            assert(d.listeners()[j] < d.listeners()[i]);
        } else if i < j {
            assert(d.listeners()[i] < d.listeners()[j]);
        }
    }
}

/// Once the registration of a listener has ended, no event is told to it any
/// more; the other listeners are told on.
pub proof fn lemma_listener_is_gone(
    states: Seq<Diagnostics>,
    steps: Seq<Step>,
    id: u64,
    end: int,
    n: int,
)
    requires
        stepped(states, steps),
        0 <= end <= n < steps.len(),
        states[0].upcoming_sink() > id,
        steps[end] == Step::Unregister(id),
    ensures
        !states[n + 1].listeners().contains(id),
        n == end ==> forall|other: u64|
            other != id ==> (#[trigger] states[n + 1].listeners().contains(other)
                == states[n].listeners().contains(other)),
    decreases n,
{
    lemma_numbers_grow(states, steps, n);
    assert(states[n].steps_to(steps[n], &states[n + 1]));
    if n > end {
        lemma_listener_is_gone(states, steps, id, end, n - 1);
        match steps[n] {
            Step::Register(other) => {
                if states[n + 1].listeners().contains(id) {
                    let i = states[n + 1].listeners().index_of(id);
                    assert(states[n].listeners()[i] == id);
                }
            },
            _ => {},
        }
    }
}

/// The next registration never gets a smaller number.
proof fn lemma_numbers_grow(states: Seq<Diagnostics>, steps: Seq<Step>, n: int)
    requires
        stepped(states, steps),
        0 <= n < states.len(),
    ensures
        states[0].upcoming_sink() <= states[n].upcoming_sink(),
    decreases n,
{
    if n > 0 {
        lemma_numbers_grow(states, steps, n - 1);
        assert(states[n - 1].steps_to(steps[n - 1], &states[n]));
    }
}

/// The directory of the log: the one that was asked for, else `logs` next to
/// the index, never one shared by the whole machine.
pub fn resolve_log_dir(explicit: Option<PathBuf>, index_dir: &Path) -> (r: PathBuf)
    ensures
        r == match explicit {
            Some(dir) => dir,
            None => joined(index_dir, "logs"@),
        },
{
    match explicit {
        Some(dir) => dir,
        None => join(index_dir, "logs"),
    }
}

/// The causes one behind the other.
pub open spec fn chained(causes: Seq<String>) -> Seq<char>
    decreases causes.len(),
{
    if causes.len() == 0 {
        Seq::empty()
    } else if causes.len() == 1 {
        causes[0]@
    } else {
        chained(causes.drop_last()) + " \u{2014} caused by: "@ + causes.last()@
    }
}

/// The causes of an error, the error itself first, as one text of at most
/// [`ERROR_CHAIN_CAP`] bytes: where it is longer, it is cut and marked.
pub fn error_chain(causes: &[String]) -> (r: String)
    ensures
        r@ == if text_width(chained(causes@)) > ERROR_CHAIN_CAP {
            clipped(chained(causes@), ERROR_CHAIN_CAP - CUT_MARK_BYTES).push('\u{2026}')
        } else {
            chained(causes@)
        },
        text_width(r@) <= ERROR_CHAIN_CAP,
{
    let mut s: String = String::new();
    let mut i: usize = 0;
    assert(causes@.take(0) =~= Seq::empty());
    while i < causes.len()
        invariant
            i <= causes@.len(),
            s@ == chained(causes@.take(i as int)),
        decreases causes@.len() - i,
    {
        let ghost before = s@;
        proof {
            assert(causes@.take(i + 1).drop_last() =~= causes@.take(i as int));
            assert(causes@.take(i + 1).last() == causes@[i as int]);
        }
        if i > 0 {
            s.append(" \u{2014} caused by: ");
        }
        s.append(causes[i].as_str());
        proof {
            if i == 0 {
                assert(s@ =~= causes@[0]@);
            }
        }
        i = i + 1;
    }
    assert(causes@.take(i as int) =~= causes@);
    let chars: Vec<char> = chars_of(s.as_str());
    if clip_len(chars.as_slice(), ERROR_CHAIN_CAP) == chars.len() {
        return s;
    }
    let kept: usize = clip_len(chars.as_slice(), ERROR_CHAIN_CAP - CUT_MARK_BYTES);
    let mut cut: String = String::new();
    push_chars(&mut cut, vstd::slice::slice_subrange(chars.as_slice(), 0, kept));
    assert(chars@.subrange(0, kept as int) =~= chars@.take(kept as int));
    assert(cut@ =~= chars@.take(kept as int));
    push_char(&mut cut, '\u{2026}');
    proof {
        lemma_clipped(chars@, ERROR_CHAIN_CAP - CUT_MARK_BYTES);
        assert(cut@.drop_last() =~= chars@.take(kept as int));
    }
    cut
}

/// The fields of the line that tells of a served query. The text of the
/// query is left out: only its length is told.
pub open spec fn served_fields(rid: u64, trace: QueryTrace) -> Seq<char> {
    plain_field("rid"@, decimal(rid as nat)) + plain_field("hits"@, decimal(trace.hits as nat))
        + plain_field("qlen"@, decimal(trace.query@.len())) + plain_field(
        "dur_us"@,
        decimal(trace.total_us as nat),
    ) + plain_field("volumes"@, decimal(trace.volumes as nat)) + field("driver"@, trace.driver@)
        + field("cache"@, trace.cache@)
}

/// The line that tells of a served query; none where the result is the one
/// that is presented already.
pub fn log_query_served(rid: u64, trace: &QueryTrace) -> (r: Option<LogfmtVisitor>)
    ensures
        match r {
            None => trace.unchanged,
            Some(line) => {
                &&& !trace.unchanged
                &&& line.area matches Some(area) && area@ == "query"@
                &&& line.message matches Some(message) && message@ == "query served"@
                &&& line.fields@ == served_fields(rid, *trace)
            },
        },
{
    if trace.unchanged {
        return None;
    }
    proof {
        reveal_strlit("message");
        reveal_strlit("area");
        reveal_strlit("driver");
        reveal_strlit("cache");
        assert("area"@.len() != "message"@.len());
    }
    let mut line: LogfmtVisitor = LogfmtVisitor::event();
    line.put("area", "query");
    line.put_number("rid", rid);
    line.put_number("hits", trace.hits);
    line.put_number("qlen", trace.query.as_str().unicode_len() as u64);
    line.put_number("dur_us", trace.total_us);
    line.put_number("volumes", trace.volumes as u64);
    line.put("driver", trace.driver.as_str());
    line.put("cache", trace.cache.as_str());
    line.put("message", "query served");
    assert(line.fields@ =~= served_fields(rid, *trace));
    Some(line)
}

} // verus!
