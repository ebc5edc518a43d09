use std::time::Duration;
use vstd::prelude::*;
use crate::time::{duration_eq, duration_from_nanos, duration_of_nanos, NextEpoch, Pair};

verus! {

/// Events per epoch after which the buffered events are written out at a
/// further processing time within that epoch.
pub const MAX_FUEL: usize = 512;

/// The text that marks the end of the logged computation.
pub open spec fn done_marker() -> Seq<char> {
    "[st] computation done"@
}

/// Whether a text event marks the end of the logged computation: it starts
/// with the marker.
pub open spec fn marks_done(text: Seq<char>) -> bool {
    text.len() >= done_marker().len() && text.take(done_marker().len() as int) == done_marker()
}

/// Tests whether a text event marks the end of the logged computation.
pub fn is_done_marker(text: &str) -> (r: bool)
    ensures
        r == marks_done(text@),
{
    let marker = "[st] computation done";
    let m = marker.unicode_len();
    let n = text.unicode_len();
    if n < m {
        return false;
    }
    let mut i: usize = 0;
    while i < m
        invariant
            m == marker@.len(),
            marker@ == done_marker(),
            n == text@.len(),
            m <= n,
            i <= m,
            forall|j: int| 0 <= j < i ==> text@[j] == marker@[j],
        decreases m - i,
    {
        if text.get_char(i) != marker.get_char(i) {
            assert(text@.take(m as int)[i as int] != done_marker()[i as int]);
            return false;
        }
        i = i + 1;
    }
    assert(text@.take(m as int) =~= done_marker());
    true
}

/// A text marks the end of the computation exactly when its first 21
/// characters are `[st] computation done`; texts that start with
/// `[st] begin` (the start marker) or `[st] closed` (the epoch marker)
/// never do.
pub proof fn lemma_done_marker_exactly(text: Seq<char>)
    ensures
        marks_done(text) <==> (text.len() >= 21 && forall|i: int|
            0 <= i < 21 ==> text[i] == #[trigger] "[st] computation done"@[i]),
        text.len() >= 10 && text.take(10) == "[st] begin"@ ==> !marks_done(text),
        text.len() >= 11 && text.take(11) == "[st] closed"@ ==> !marks_done(text),
{
    reveal_strlit("[st] computation done");
    reveal_strlit("[st] begin");
    reveal_strlit("[st] closed");
    let m = "[st] computation done"@;
    assert(m.len() == 21);
    if text.len() >= 21 && forall|i: int| 0 <= i < 21 ==> text[i] == #[trigger] m[i] {
        assert(text.take(21) =~= m);
    }
    if marks_done(text) {
        assert forall|i: int| 0 <= i < 21 implies text[i] == #[trigger] m[i] by {
            assert(text.take(21)[i] == m[i]);
        }
    }
    if text.len() >= 10 && text.take(10) == "[st] begin"@ && marks_done(text) {
        assert(text.take(10)[5] == text.take(21)[5]);
    }
    if text.len() >= 11 && text.take(11) == "[st] closed"@ && marks_done(text) {
        assert(text.take(11)[6] == text.take(21)[6]);
    }
}

/// Status of the logged computation.
#[derive(Clone, Copy, Debug)]
pub enum ComputationStatus {
    /// The computation is ongoing.
    Ongoing,
    /// The computation has ended; the capability is still held.
    WrappingUp,
    /// The capability has been dropped; nothing more is written.
    WrappedUp,
}

/// What a logged event is, as far as building the activity graph goes.
#[derive(Debug)]
pub enum EventClass {
    /// A text event; text events mark the ends of epochs.
    Text(String),
    /// Operator or channel creation, part of the dataflow's setup.
    Setup,
    /// Progress, message or scheduling activity.
    Activity,
    /// Any other event, which the graph does not need.
    Ignored,
}

/// One logged event: when it happened, on which worker, what it is, and
/// the event itself, which is carried along unread.
pub struct LogTuple<P> {
    pub time: Duration,
    pub worker: usize,
    pub class: EventClass,
    pub payload: P,
}

/// What the logger writes out.
pub enum LogOutput<P> {
    /// A batch of relevant events, all at the given capability.
    Messages(Pair<u64, Duration>, Vec<(u64, (Duration, usize, P))>),
    /// Changes to the capabilities held.
    Progress(Vec<(Pair<u64, Duration>, i64)>),
}

/// The mathematical form of a `LogOutput`.
pub enum LogRecord<P> {
    Messages(Pair<u64, Duration>, Seq<(u64, (Duration, usize, P))>),
    Progress(Seq<(Pair<u64, Duration>, i64)>),
}

impl<P> View for LogOutput<P> {
    type V = LogRecord<P>;

    open spec fn view(&self) -> LogRecord<P> {
        match self {
            LogOutput::Messages(c, v) => LogRecord::Messages(*c, v@),
            LogOutput::Progress(v) => LogRecord::Progress(v@),
        }
    }
}

/// The records that a sequence of outputs stands for.
pub open spec fn records<P>(outs: Seq<LogOutput<P>>) -> Seq<LogRecord<P>> {
    outs.map_values(|o: LogOutput<P>| o@)
}

/// The mathematical state of the logger.
pub struct LoggerState<P> {
    pub curr_cap: Pair<u64, Duration>,
    pub next_cap: Pair<u64, Duration>,
    pub buffer: Seq<(u64, (Duration, usize, P))>,
    pub status: ComputationStatus,
    pub tick_sys: bool,
    pub fuel: nat,
}

/// The capability at which logging starts: epoch 0, system time zero.
pub open spec fn initial_cap() -> Pair<u64, Duration> {
    Pair { first: 0, second: duration_of_nanos(0) }
}

/// The state in which logging starts.
pub open spec fn initial_state<P>() -> LoggerState<P> {
    LoggerState {
        curr_cap: initial_cap(),
        next_cap: initial_cap(),
        buffer: Seq::empty(),
        status: ComputationStatus::Ongoing,
        tick_sys: true,
        fuel: MAX_FUEL as nat,
    }
}

/// The write of the buffer at capability `cap`, if the buffer holds anything.
pub open spec fn flush_records<P>(cap: Pair<u64, Duration>, buffer: Seq<(u64, (Duration, usize, P))>) -> Seq<
    LogRecord<P>,
> {
    if buffer.len() > 0 {
        seq![LogRecord::Messages(cap, buffer)]
    } else {
        Seq::empty()
    }
}

/// The state after the buffer was written out: empty buffer, full fuel,
/// system time free to advance.
pub open spec fn flushed<P>(s: LoggerState<P>) -> LoggerState<P> {
    LoggerState {
        curr_cap: s.curr_cap,
        next_cap: s.next_cap,
        buffer: Seq::empty(),
        status: s.status,
        tick_sys: true,
        fuel: MAX_FUEL as nat,
    }
}

/// The state after an event was buffered at epoch `epoch`.
pub open spec fn buffered<P>(s: LoggerState<P>, entry: (u64, (Duration, usize, P))) -> LoggerState<P> {
    LoggerState {
        curr_cap: s.curr_cap,
        next_cap: s.next_cap,
        buffer: s.buffer.push(entry),
        status: s.status,
        tick_sys: s.tick_sys,
        fuel: (s.fuel - 1) as nat,
    }
}

/// What one event does while the computation runs, before the fuel check.
///   - A text event advances the epoch, writes the buffer out and, if it
///     is the end marker, starts wrapping up.
///   - A setup event is buffered at system time zero.
///   - An activity event first advances the system time and the
///     capability, once per batch written out, then is buffered.
///   - Any other event is dropped.
pub open spec fn event_effect<P>(s: LoggerState<P>, t: LogTuple<P>) -> (LoggerState<P>, Seq<LogRecord<P>>) {
    match t.class {
        EventClass::Text(text) => {
            let status = if marks_done(text@) {
                ComputationStatus::WrappingUp
            } else {
                s.status
            };
            let s1 = LoggerState {
                curr_cap: s.curr_cap,
                next_cap: s.next_cap.ticked_epoch(t.time),
                buffer: s.buffer,
                status,
                tick_sys: s.tick_sys,
                fuel: s.fuel,
            };
            (flushed(s1), flush_records(s.curr_cap, s.buffer))
        },
        EventClass::Setup => (
            buffered(s, (s.curr_cap.first, (duration_of_nanos(0), t.worker, t.payload))),
            Seq::empty(),
        ),
        EventClass::Activity => {
            if s.tick_sys {
                let next = s.next_cap.ticked_sys(t.time);
                let s1 = LoggerState {
                    curr_cap: next,
                    next_cap: next,
                    buffer: s.buffer,
                    status: s.status,
                    tick_sys: false,
                    fuel: s.fuel,
                };
                (
                    buffered(s1, (next.first, (t.time, t.worker, t.payload))),
                    seq![LogRecord::Progress(seq![(next, 1i64), (s.curr_cap, -1i64)])],
                )
            } else {
                (buffered(s, (s.curr_cap.first, (t.time, t.worker, t.payload))), Seq::empty())
            }
        },
        EventClass::Ignored => (s, Seq::empty()),
    }
}

/// What one event does while the computation runs: its effect, then, if
/// the fuel ran out, the buffer is written out.
pub open spec fn event_step<P>(s: LoggerState<P>, t: LogTuple<P>) -> (LoggerState<P>, Seq<LogRecord<P>>) {
    let (s1, o1) = event_effect(s, t);
    if s1.fuel == 0 {
        (flushed(s1), o1 + flush_records(s1.curr_cap, s1.buffer))
    } else {
        (s1, o1)
    }
}

/// Whether one event can be handled: setup events belong to the setup
/// epoch, before any capability moved; the epoch can still advance.
pub open spec fn event_ok<P>(s: LoggerState<P>, t: LogTuple<P>) -> bool {
    match t.class {
        EventClass::Setup => s.next_cap == s.curr_cap && s.curr_cap == initial_cap(),
        EventClass::Text(_) => s.next_cap.can_tick_epoch(),
        _ => true,
    }
}

/// The events of a batch handled one after the other.
pub open spec fn events_run<P>(s: LoggerState<P>, batch: Seq<LogTuple<P>>) -> (LoggerState<P>, Seq<LogRecord<P>>)
    decreases batch.len(),
{
    if batch.len() == 0 {
        (s, Seq::empty())
    } else {
        let (s1, o1) = events_run(s, batch.drop_last());
        let (s2, o2) = event_step(s1, batch.last());
        (s2, o1 + o2)
    }
}

/// Whether every event of a batch can be handled in turn.
pub open spec fn events_ok<P>(s: LoggerState<P>, batch: Seq<LogTuple<P>>) -> bool
    decreases batch.len(),
{
    batch.len() == 0 || (events_ok(s, batch.drop_last()) && event_ok(
        events_run(s, batch.drop_last()).0,
        batch.last(),
    ))
}

/// What one batch of logged events does, by the status at its start:
/// while ongoing, each event is handled; once wrapping up, whatever is
/// still buffered is written out and then the capability is dropped; once
/// wrapped up, nothing happens.
pub open spec fn log_batch<P>(s: LoggerState<P>, batch: Seq<LogTuple<P>>) -> (LoggerState<P>, Seq<LogRecord<P>>) {
    match s.status {
        ComputationStatus::Ongoing => events_run(s, batch),
        ComputationStatus::WrappingUp => (
            LoggerState {
                curr_cap: s.curr_cap,
                next_cap: s.next_cap,
                buffer: Seq::empty(),
                status: ComputationStatus::WrappedUp,
                tick_sys: true,
                fuel: MAX_FUEL as nat,
            },
            flush_records(s.curr_cap, s.buffer) + seq![LogRecord::Progress(seq![(s.curr_cap, -1i64)])],
        ),
        ComputationStatus::WrappedUp => (s, Seq::empty()),
    }
}

/// Whether a batch can be handled: every event, while ongoing; any batch
/// otherwise.
pub open spec fn log_batch_ok<P>(s: LoggerState<P>, batch: Seq<LogTuple<P>>) -> bool {
    match s.status {
        ComputationStatus::Ongoing => events_ok(s, batch),
        _ => true,
    }
}

/// What holds of every state the logger reaches.
pub open spec fn logger_inv<P>(s: LoggerState<P>) -> bool {
    &&& 1 <= s.fuel <= MAX_FUEL
    &&& s.buffer.len() + s.fuel == MAX_FUEL
    &&& forall|i: int| 0 <= i < s.buffer.len() ==> (#[trigger] s.buffer[i]).0 == s.curr_cap.first
    &&& s.buffer.len() > 0 ==> s.next_cap == s.curr_cap
    &&& !s.tick_sys ==> s.next_cap == s.curr_cap
}

proof fn lemma_events_ok_prefix<P>(s: LoggerState<P>, b: Seq<LogTuple<P>>, k: int)
    requires
        events_ok(s, b),
        0 <= k <= b.len(),
    ensures
        events_ok(s, b.take(k)),
    decreases b.len(),
{
    if k == b.len() {
        assert(b.take(k) =~= b);
    } else {
        assert(b.drop_last().take(k) =~= b.take(k));
        lemma_events_ok_prefix(s, b.drop_last(), k);
    }
}

proof fn lemma_take_next<A>(b: Seq<A>, i: int)
    requires
        0 <= i < b.len(),
    ensures
        b.take(i + 1).drop_last() == b.take(i),
        b.take(i + 1).last() == b[i],
        b.take(i + 1).len() == i + 1,
{
    assert(b.take(i + 1).drop_last() =~= b.take(i));
}

/// Writes the event log of a computation out as batches per epoch, with
/// the capability accounting that replaying the log needs.
pub struct PagLogger<P> {
    curr_cap: Pair<u64, Duration>,
    next_cap: Pair<u64, Duration>,
    buffer: Vec<(u64, (Duration, usize, P))>,
    status: ComputationStatus,
    tick_sys: bool,
    fuel: usize,
}

impl<P> View for PagLogger<P> {
    type V = LoggerState<P>;

    closed spec fn view(&self) -> LoggerState<P> {
        LoggerState {
            curr_cap: self.curr_cap,
            next_cap: self.next_cap,
            buffer: self.buffer@,
            status: self.status,
            tick_sys: self.tick_sys,
            fuel: self.fuel as nat,
        }
    }
}

impl<P> PagLogger<P> {
    /// A logger in the setup epoch, holding the initial capability.
    pub fn new() -> (r: Self)
        ensures
            r@ == initial_state::<P>(),
            logger_inv(r@),
    {
        let zero = duration_from_nanos(0);
        PagLogger {
            curr_cap: Pair::new(0, zero),
            next_cap: Pair::new(0, zero),
            buffer: Vec::new(),
            status: ComputationStatus::Ongoing,
            tick_sys: true,
            fuel: MAX_FUEL,
        }
    }

    /// The status of the logged computation.
    pub fn status(&self) -> (r: ComputationStatus)
        ensures
            r == self@.status,
    {
        self.status
    }

    /// Writes the buffer out at the current capability.
    fn flush_buffer(&mut self, outs: &mut Vec<LogOutput<P>>)
        ensures
            final(self)@.buffer == Seq::<(u64, (Duration, usize, P))>::empty(),
            final(self)@.curr_cap == old(self)@.curr_cap,
            final(self)@.next_cap == old(self)@.next_cap,
            final(self)@.status == old(self)@.status,
            final(self)@.tick_sys == old(self)@.tick_sys,
            final(self)@.fuel == old(self)@.fuel,
            records(final(outs)@) == records(old(outs)@) + flush_records(
                old(self)@.curr_cap,
                old(self)@.buffer,
            ),
    {
        let ghost o0 = outs@;
        let mut buffer: Vec<(u64, (Duration, usize, P))> = Vec::new();
        std::mem::swap(&mut buffer, &mut self.buffer);
        if buffer.len() > 0 {
            let ghost b = buffer@;
            outs.push(LogOutput::Messages(self.curr_cap, buffer));
            proof {
                assert(records(outs@) =~= records(o0) + seq![LogRecord::Messages(self.curr_cap, b)]);
            }
        } else {
            proof {
                assert(records(outs@) =~= records(o0) + Seq::<LogRecord<P>>::empty());
            }
        }
    }

    /// Moves the capability forward to the next one, writing the change.
    fn advance_cap(&mut self, outs: &mut Vec<LogOutput<P>>)
        ensures
            final(self)@.curr_cap == old(self)@.next_cap,
            final(self)@.next_cap == old(self)@.next_cap,
            final(self)@.buffer == old(self)@.buffer,
            final(self)@.status == old(self)@.status,
            final(self)@.tick_sys == old(self)@.tick_sys,
            final(self)@.fuel == old(self)@.fuel,
            records(final(outs)@) == records(old(outs)@) + seq![
                LogRecord::Progress(seq![(old(self)@.next_cap, 1i64), (old(self)@.curr_cap, -1i64)]),
            ],
    {
        let ghost o0 = outs@;
        let mut changes: Vec<(Pair<u64, Duration>, i64)> = Vec::new();
        changes.push((self.next_cap, 1));
        changes.push((self.curr_cap, -1));
        let ghost ch = changes@;
        outs.push(LogOutput::Progress(changes));
        self.curr_cap = self.next_cap;
        proof {
            assert(ch =~= seq![(old(self)@.next_cap, 1i64), (old(self)@.curr_cap, -1i64)]);
            assert(records(outs@) =~= records(o0) + seq![LogRecord::Progress(ch)]);
        }
    }

    /// Handles one event while the computation runs.
    fn handle_event(&mut self, t: LogTuple<P>, outs: &mut Vec<LogOutput<P>>)
        requires
            logger_inv(old(self)@),
            event_ok(old(self)@, t),
        ensures
            logger_inv(final(self)@),
            final(self)@ == event_step(old(self)@, t).0,
            records(final(outs)@) == records(old(outs)@) + event_step(old(self)@, t).1,
    {
        let ghost s0 = self@;
        let ghost o0 = records(outs@);
        let ghost t0 = t;
        let LogTuple { time, worker, class, payload } = t;
        match class {
            EventClass::Text(text) => {
                if is_done_marker(text.as_str()) {
                    self.status = ComputationStatus::WrappingUp;
                }
                self.next_cap.tick_epoch(&time);
                self.flush_buffer(outs);
                self.fuel = MAX_FUEL;
                self.tick_sys = true;
            },
            EventClass::Setup => {
                self.fuel = self.fuel - 1;
                let epoch = self.curr_cap.get_epoch();
                self.buffer.push((epoch, (duration_from_nanos(0), worker, payload)));
            },
            EventClass::Activity => {
                self.fuel = self.fuel - 1;
                if self.tick_sys {
                    self.next_cap.tick_sys(&time);
                    self.tick_sys = false;
                    self.advance_cap(outs);
                }
                let epoch = self.curr_cap.get_epoch();
                self.buffer.push((epoch, (time, worker, payload)));
            },
            EventClass::Ignored => {},
        }
        let ghost s1 = self@;
        let ghost o1 = records(outs@);
        assert(s1 == event_effect(s0, t0).0);
        assert(o1 == o0 + event_effect(s0, t0).1);
        if self.fuel == 0 {
            self.flush_buffer(outs);
            self.fuel = MAX_FUEL;
            self.tick_sys = true;
            proof {
                assert(records(outs@) =~= o0 + (event_effect(s0, t0).1 + flush_records(s1.curr_cap, s1.buffer)));
            }
        }
        assert(self@ == event_step(s0, t0).0);
    }

    /// Handles one batch of logged events (see `log_batch`) and returns
    /// what is written out, in order.
    pub fn handle_batch(&mut self, batch: Vec<LogTuple<P>>) -> (outs: Vec<LogOutput<P>>)
        requires
            logger_inv(old(self)@),
            log_batch_ok(old(self)@, batch@),
        ensures
            logger_inv(final(self)@),
            final(self)@ == log_batch(old(self)@, batch@).0,
            records(outs@) == log_batch(old(self)@, batch@).1,
    {
        let mut outs: Vec<LogOutput<P>> = Vec::new();
        let ghost s0 = self@;
        let ghost b = batch@;
        match self.status {
            ComputationStatus::Ongoing => {
                proof {
                    assert(b.take(0) =~= Seq::<LogTuple<P>>::empty());
                    assert(records(outs@) =~= Seq::<LogRecord<P>>::empty());
                }
                for t in it: batch
                    invariant
                        it.seq() == b,
                        events_ok(s0, b),
                        logger_inv(self@),
                        self@ == events_run(s0, b.take(it.index() as int)).0,
                        records(outs@) == events_run(s0, b.take(it.index() as int)).1,
                {
                    let ghost i = it.index() as int;
                    proof {
                        lemma_take_next(b, i);
                        lemma_events_ok_prefix(s0, b, i + 1);
                    }
                    self.handle_event(t, &mut outs);
                    proof {
                        assert(records(outs@) =~= events_run(s0, b.take(i + 1)).1);
                    }
                }
                proof {
                    assert(b.take(b.len() as int) =~= b);
                }
            },
            ComputationStatus::WrappingUp => {
                self.flush_buffer(&mut outs);
                self.fuel = MAX_FUEL;
                self.tick_sys = true;
                let ghost o1 = records(outs@);
                let mut changes: Vec<(Pair<u64, Duration>, i64)> = Vec::new();
                changes.push((self.curr_cap, -1));
                let ghost ch = changes@;
                outs.push(LogOutput::Progress(changes));
                self.status = ComputationStatus::WrappedUp;
                proof {
                    assert(ch =~= seq![(s0.curr_cap, -1i64)]);
                    assert(records(outs@) =~= o1 + seq![LogRecord::Progress(ch)]);
                    assert(o1 =~= Seq::<LogRecord<P>>::empty() + flush_records(s0.curr_cap, s0.buffer));
                }
            },
            ComputationStatus::WrappedUp => {
                proof {
                    assert(records(outs@) =~= Seq::<LogRecord<P>>::empty());
                }
            },
        }
        outs
    }

    /// How many leading events of a batch can be handled (see
    /// `log_batch_ok`): all of them, unless an event breaks the contract
    /// that logging relies on, in which case the events before it.
    pub fn accepted_prefix(&self, batch: &Vec<LogTuple<P>>) -> (k: usize)
        requires
            logger_inv(self@),
        ensures
            k <= batch@.len(),
            log_batch_ok(self@, batch@.take(k as int)),
            k < batch@.len() ==> self@.status is Ongoing && !event_ok(
                events_run(self@, batch@.take(k as int)).0,
                batch@[k as int],
            ),
    {
        let ghost b = batch@;
        match self.status {
            ComputationStatus::Ongoing => {
                let ghost s0 = self@;
                let mut c = Control {
                    curr_cap: self.curr_cap,
                    next_cap: self.next_cap,
                    status: self.status,
                    tick_sys: self.tick_sys,
                    fuel: self.fuel,
                    buffered: self.buffer.len(),
                };
                proof {
                    assert(b.take(0) =~= Seq::<LogTuple<P>>::empty());
                }
                let mut i: usize = 0;
                while i < batch.len()
                    invariant
                        i <= b.len(),
                        b == batch@,
                        s0 == self@,
                        s0.status is Ongoing,
                        logger_inv(s0),
                        events_ok(s0, b.take(i as int)),
                        logger_inv(events_run(s0, b.take(i as int)).0),
                        c.matches(events_run(s0, b.take(i as int)).0),
                    decreases b.len() - i,
                {
                    let ghost si = events_run(s0, b.take(i as int)).0;
                    proof {
                        lemma_take_next(b, i as int);
                    }
                    let ok = c.event_ok(&batch[i]);
                    assert(ok == event_ok(si, b[i as int]));
                    if !ok {
                        return i;
                    }
                    assert(events_ok(s0, b.take(i + 1)));
                    proof {
                        lemma_event_step_inv(si, b[i as int]);
                    }
                    c = c.step(&batch[i], Ghost(si));
                    i = i + 1;
                }
                i
            },
            _ => batch.len(),
        }
    }

    /// Tests whether a batch can be handled (see `log_batch_ok`): where it
    /// cannot, the event log breaks the contract that logging relies on.
    pub fn accepts_batch(&self, batch: &Vec<LogTuple<P>>) -> (r: bool)
        requires
            logger_inv(self@),
        ensures
            r == log_batch_ok(self@, batch@),
    {
        let k = self.accepted_prefix(batch);
        let ghost b = batch@;
        proof {
            if k == b.len() {
                assert(b.take(k as int) =~= b);
            } else if self@.status is Ongoing && events_ok(self@, b) {
                lemma_events_ok_prefix(self@, b, k + 1);
                lemma_take_next(b, k as int);
            }
        }
        k == batch.len()
    }
}

/// The part of the logger's state that decides what it does, without the
/// buffered events themselves.
struct Control {
    curr_cap: Pair<u64, Duration>,
    next_cap: Pair<u64, Duration>,
    status: ComputationStatus,
    tick_sys: bool,
    fuel: usize,
    buffered: usize,
}

impl Control {
    spec fn matches<P>(&self, s: LoggerState<P>) -> bool {
        &&& self.curr_cap == s.curr_cap
        &&& self.next_cap == s.next_cap
        &&& self.status == s.status
        &&& self.tick_sys == s.tick_sys
        &&& self.fuel == s.fuel
        &&& self.buffered == s.buffer.len()
    }

    fn event_ok<P>(&self, t: &LogTuple<P>) -> (r: bool)
        requires
            exists|s: LoggerState<P>| self.matches(s),
        ensures
            forall|s: LoggerState<P>| self.matches(s) ==> r == event_ok(s, *t),
    {
        match &t.class {
            EventClass::Setup => self.next_cap.first == self.curr_cap.first && duration_eq(
                &self.next_cap.second,
                &self.curr_cap.second,
            ) && self.curr_cap.first == 0 && duration_eq(
                &self.curr_cap.second,
                &duration_from_nanos(0),
            ),
            EventClass::Text(_) => self.next_cap.first < u64::MAX,
            _ => true,
        }
    }

    fn step<P>(self, t: &LogTuple<P>, Ghost(s): Ghost<LoggerState<P>>) -> (r: Control)
        requires
            self.matches(s),
            logger_inv(s),
            event_ok(s, *t),
        ensures
            r.matches(event_step(s, *t).0),
    {
        let mut c = self;
        match &t.class {
            EventClass::Text(text) => {
                if is_done_marker(text.as_str()) {
                    c.status = ComputationStatus::WrappingUp;
                }
                c.next_cap.tick_epoch(&t.time);
                c.buffered = 0;
                c.fuel = MAX_FUEL;
                c.tick_sys = true;
            },
            EventClass::Setup => {
                c.fuel = c.fuel - 1;
                c.buffered = c.buffered + 1;
            },
            EventClass::Activity => {
                c.fuel = c.fuel - 1;
                if c.tick_sys {
                    c.next_cap.tick_sys(&t.time);
                    c.tick_sys = false;
                    c.curr_cap = c.next_cap;
                }
                c.buffered = c.buffered + 1;
            },
            EventClass::Ignored => {},
        }
        if c.fuel == 0 {
            c.buffered = 0;
            c.fuel = MAX_FUEL;
            c.tick_sys = true;
        }
        c
    }
}

/// Every step keeps the logger's invariant.
pub proof fn lemma_event_step_inv<P>(s: LoggerState<P>, t: LogTuple<P>)
    requires
        logger_inv(s),
        event_ok(s, t),
    ensures
        logger_inv(event_step(s, t).0),
{
    let (s1, o1) = event_effect(s, t);
    assert forall|i: int| 0 <= i < s1.buffer.len() implies (#[trigger] s1.buffer[i]).0 == s1.curr_cap.first by {
        if i < s.buffer.len() {
            assert(s.buffer[i].0 == s.curr_cap.first);
        }
    }
}

// ---------------------------------------------------------------------------
// Laws of the logger
// ---------------------------------------------------------------------------

/// An event is refused in exactly two situations: a setup event once the
/// capability has left epoch 0 at system time zero (or is about to), and a
/// text event when the epoch can no longer advance. Every other event,
/// activity events in particular, is handled in every state.
pub proof fn lemma_event_refused_exactly<P>(s: LoggerState<P>, t: LogTuple<P>)
    ensures
        !event_ok(s, t) <==> ((t.class is Setup && !(s.next_cap == s.curr_cap && s.curr_cap.first == 0
            && s.curr_cap.second == duration_of_nanos(0))) || (t.class is Text && s.next_cap.first
            == u64::MAX)),
{
}

/// Activity events and ignored events can be handled in every state,
/// whatever epoch or capability the logger is at.
pub proof fn lemma_activity_always_handled<P>(s: LoggerState<P>, t: LogTuple<P>)
    requires
        t.class is Activity || t.class is Ignored,
    ensures
        event_ok(s, t),
{
}

/// How far the epoch moves over a run of events: by one for each text
/// event, while it has room to.
proof fn lemma_events_run_epoch<P>(s: LoggerState<P>, b: Seq<LogTuple<P>>)
    requires
        s.next_cap.first + b.filter(|t: LogTuple<P>| t.class is Text).len() <= u64::MAX,
    ensures
        events_run(s, b).0.next_cap.first == s.next_cap.first + b.filter(|t: LogTuple<P>| t.class is Text).len(),
    decreases b.len(),
{
    reveal(Seq::filter);
    if b.len() > 0 {
        let pre = b.drop_last();
        assert(pre.filter(|t: LogTuple<P>| t.class is Text).len() <= b.filter(|t: LogTuple<P>| t.class is Text).len());
        lemma_events_run_epoch(s, pre);
    }
}

/// A batch without setup events is handled whole, from any state, as
/// long as the epoch has room for one more step per text event in it:
/// activity events never stop a batch, wherever they stand (after an epoch
/// marker too).
pub proof fn lemma_batch_without_setup_accepted<P>(s: LoggerState<P>, b: Seq<LogTuple<P>>)
    requires
        forall|i: int| 0 <= i < b.len() ==> !(#[trigger] b[i].class is Setup),
        s.next_cap.first + b.filter(|t: LogTuple<P>| t.class is Text).len() <= u64::MAX,
    ensures
        events_ok(s, b),
        log_batch_ok(s, b),
    decreases b.len(),
{
    reveal(Seq::filter);
    if b.len() > 0 {
        let pre = b.drop_last();
        assert forall|i: int| 0 <= i < pre.len() implies !(#[trigger] pre[i].class is Setup) by {
            assert(pre[i] == b[i]);
        }
        assert(!(b[b.len() - 1].class is Setup));
        lemma_batch_without_setup_accepted(s, pre);
        lemma_events_run_epoch(s, pre);
    }
}

/// A fresh logger takes an epoch marker followed by an activity event.
pub proof fn lemma_marker_then_activity_accepted<P>(m: LogTuple<P>, a: LogTuple<P>)
    requires
        m.class is Text,
        a.class is Activity,
    ensures
        log_batch_ok(initial_state::<P>(), seq![m, a]),
{
    reveal_with_fuel(Seq::filter, 3);
    lemma_batch_without_setup_accepted(initial_state::<P>(), seq![m, a]);
}

/// The capability count that state `s` holds at `c`: one at the current
/// capability until the logger has wrapped up, none elsewhere.
pub open spec fn held<P>(s: LoggerState<P>, c: Pair<u64, Duration>) -> int {
    if !(s.status is WrappedUp) && s.curr_cap == c {
        1
    } else {
        0
    }
}

/// The total change at `c` in a list of capability changes.
pub open spec fn update_total(u: Seq<(Pair<u64, Duration>, i64)>, c: Pair<u64, Duration>) -> int
    decreases u.len(),
{
    if u.len() == 0 {
        0
    } else {
        update_total(u.drop_last(), c) + if u.last().0 == c {
            u.last().1 as int
        } else {
            0
        }
    }
}

/// The total change at `c` that a sequence of records writes.
pub open spec fn progress_total<P>(outs: Seq<LogRecord<P>>, c: Pair<u64, Duration>) -> int
    decreases outs.len(),
{
    if outs.len() == 0 {
        0
    } else {
        progress_total(outs.drop_last(), c) + match outs.last() {
            LogRecord::Progress(u) => update_total(u, c),
            LogRecord::Messages(_, _) => 0,
        }
    }
}

proof fn lemma_progress_total_concat<P>(a: Seq<LogRecord<P>>, b: Seq<LogRecord<P>>, c: Pair<u64, Duration>)
    ensures
        progress_total(a + b, c) == progress_total(a, c) + progress_total(b, c),
    decreases b.len(),
{
    if b.len() > 0 {
        assert((a + b).drop_last() =~= a + b.drop_last());
        lemma_progress_total_concat(a, b.drop_last(), c);
    } else {
        assert(a + b =~= a);
    }
}

proof fn lemma_flush_no_progress<P>(cap: Pair<u64, Duration>, buffer: Seq<(u64, (Duration, usize, P))>, c: Pair<u64, Duration>)
    ensures
        progress_total(flush_records(cap, buffer), c) == 0,
{
    assert(progress_total(Seq::<LogRecord<P>>::empty(), c) == 0);
    if buffer.len() > 0 {
        let r = flush_records(cap, buffer);
        assert(r.drop_last() =~= Seq::<LogRecord<P>>::empty());
        assert(progress_total(r, c) == progress_total(r.drop_last(), c) + 0);
    }
}

proof fn lemma_event_step_capabilities<P>(s: LoggerState<P>, t: LogTuple<P>, c: Pair<u64, Duration>)
    requires
        !(s.status is WrappedUp),
    ensures
        !(event_step(s, t).0.status is WrappedUp),
        held(s, c) + progress_total(event_step(s, t).1, c) == held(event_step(s, t).0, c),
{
    let (s1, o1) = event_effect(s, t);
    match t.class {
        EventClass::Text(_) => {
            lemma_flush_no_progress(s.curr_cap, s.buffer, c);
        },
        EventClass::Activity => {
            assert(progress_total(Seq::<LogRecord<P>>::empty(), c) == 0);
            if s.tick_sys {
                let u = seq![(s1.curr_cap, 1i64), (s.curr_cap, -1i64)];
                let e = Seq::<(Pair<u64, Duration>, i64)>::empty();
                assert(update_total(e, c) == 0);
                assert(u.drop_last().drop_last() =~= e);
                assert(u.drop_last() =~= seq![(s1.curr_cap, 1i64)]);
                assert(update_total(u.drop_last(), c) == update_total(e, c) + if s1.curr_cap == c { 1int } else { 0int });
                assert(update_total(u, c) == update_total(u.drop_last(), c) + if s.curr_cap == c { -1int } else { 0int });
                assert(o1.drop_last() =~= Seq::<LogRecord<P>>::empty());
                assert(progress_total(o1, c) == progress_total(o1.drop_last(), c) + update_total(u, c));
            }
        },
        _ => {},
    }
    if s1.fuel == 0 {
        lemma_progress_total_concat(o1, flush_records(s1.curr_cap, s1.buffer), c);
        lemma_flush_no_progress(s1.curr_cap, s1.buffer, c);
    }
}

proof fn lemma_events_run_capabilities<P>(s: LoggerState<P>, b: Seq<LogTuple<P>>, c: Pair<u64, Duration>)
    requires
        !(s.status is WrappedUp),
    ensures
        !(events_run(s, b).0.status is WrappedUp),
        held(s, c) + progress_total(events_run(s, b).1, c) == held(events_run(s, b).0, c),
    decreases b.len(),
{
    assert(progress_total(Seq::<LogRecord<P>>::empty(), c) == 0);
    if b.len() > 0 {
        lemma_events_run_capabilities(s, b.drop_last(), c);
        let (s1, o1) = events_run(s, b.drop_last());
        lemma_event_step_capabilities(s1, b.last(), c);
        lemma_progress_total_concat(o1, event_step(s1, b.last()).1, c);
    }
}

/// Capabilities are accounted for exactly: what a state holds, plus the
/// changes that a batch writes, is what the next state holds. Logging
/// starts holding the initial capability (see `PagLogger::new`), moves it
/// forward as the computation progresses, and drops it once wrapped up.
pub proof fn lemma_capabilities_accounted<P>(s: LoggerState<P>, batch: Seq<LogTuple<P>>, c: Pair<u64, Duration>)
    ensures
        held(s, c) + progress_total(log_batch(s, batch).1, c) == held(log_batch(s, batch).0, c),
{
    match s.status {
        ComputationStatus::Ongoing => {
            lemma_events_run_capabilities(s, batch, c);
        },
        ComputationStatus::WrappingUp => {
            let u = seq![(s.curr_cap, -1i64)];
            let e = Seq::<(Pair<u64, Duration>, i64)>::empty();
            assert(update_total(e, c) == 0);
            assert(u.drop_last() =~= e);
            assert(update_total(u, c) == update_total(u.drop_last(), c) + if s.curr_cap == c { -1int } else { 0int });
            let o = seq![LogRecord::<P>::Progress(u)];
            assert(progress_total(Seq::<LogRecord<P>>::empty(), c) == 0);
            assert(o.drop_last() =~= Seq::<LogRecord<P>>::empty());
            assert(progress_total(o, c) == progress_total(o.drop_last(), c) + update_total(u, c));
            lemma_flush_no_progress(s.curr_cap, s.buffer, c);
            lemma_progress_total_concat(flush_records(s.curr_cap, s.buffer), o, c);
        },
        ComputationStatus::WrappedUp => {
            assert(progress_total(Seq::<LogRecord<P>>::empty(), c) == 0);
        },
    }
}

/// Every batch of events written out is non-empty, holds at most
/// `MAX_FUEL` events, and all its events belong to the epoch of the
/// capability it is written at.
pub open spec fn messages_per_epoch<P>(outs: Seq<LogRecord<P>>) -> bool {
    forall|i: int|
        0 <= i < outs.len() ==> match #[trigger] outs[i] {
            LogRecord::Messages(cap, es) => {
                &&& 0 < es.len() <= MAX_FUEL
                &&& forall|j: int| 0 <= j < es.len() ==> (#[trigger] es[j]).0 == cap.first
            },
            LogRecord::Progress(_) => true,
        }
}

proof fn lemma_messages_concat<P>(a: Seq<LogRecord<P>>, b: Seq<LogRecord<P>>)
    requires
        messages_per_epoch(a),
        messages_per_epoch(b),
    ensures
        messages_per_epoch(a + b),
{
    assert forall|i: int| 0 <= i < (a + b).len() implies match #[trigger] (a + b)[i] {
        LogRecord::Messages(cap, es) => {
            &&& 0 < es.len() <= MAX_FUEL
            &&& forall|j: int| 0 <= j < es.len() ==> (#[trigger] es[j]).0 == cap.first
        },
        LogRecord::Progress(_) => true,
    } by {
        if i < a.len() {
            assert((a + b)[i] == a[i]);
        } else {
            assert((a + b)[i] == b[i - a.len()]);
        }
    }
}

proof fn lemma_event_step_messages<P>(s: LoggerState<P>, t: LogTuple<P>)
    requires
        logger_inv(s),
        event_ok(s, t),
    ensures
        messages_per_epoch(event_step(s, t).1),
{
    let (s1, o1) = event_effect(s, t);
    assert(messages_per_epoch(o1));
    assert forall|i: int| 0 <= i < s1.buffer.len() implies (#[trigger] s1.buffer[i]).0 == s1.curr_cap.first by {
        if i < s.buffer.len() {
            assert(s.buffer[i].0 == s.curr_cap.first);
        }
    }
    if s1.fuel == 0 {
        assert(messages_per_epoch(flush_records(s1.curr_cap, s1.buffer)));
        lemma_messages_concat(o1, flush_records(s1.curr_cap, s1.buffer));
    }
}

proof fn lemma_events_run_messages<P>(s: LoggerState<P>, b: Seq<LogTuple<P>>)
    requires
        logger_inv(s),
        events_ok(s, b),
    ensures
        logger_inv(events_run(s, b).0),
        messages_per_epoch(events_run(s, b).1),
    decreases b.len(),
{
    if b.len() > 0 {
        lemma_events_run_messages(s, b.drop_last());
        let (s1, o1) = events_run(s, b.drop_last());
        lemma_event_step_inv(s1, b.last());
        lemma_event_step_messages(s1, b.last());
        lemma_messages_concat(o1, event_step(s1, b.last()).1);
    } else {
        assert(messages_per_epoch(Seq::<LogRecord<P>>::empty()));
    }
}

/// Logged events are written out at one capability per batch, never more
/// than `MAX_FUEL` at a time, each batch within the epoch it is written
/// at; and every handled batch keeps the logger's invariant.
pub proof fn lemma_messages_per_epoch<P>(s: LoggerState<P>, batch: Seq<LogTuple<P>>)
    requires
        logger_inv(s),
        log_batch_ok(s, batch),
    ensures
        logger_inv(log_batch(s, batch).0),
        messages_per_epoch(log_batch(s, batch).1),
{
    match s.status {
        ComputationStatus::Ongoing => {
            lemma_events_run_messages(s, batch);
        },
        ComputationStatus::WrappingUp => {
            let f = flush_records(s.curr_cap, s.buffer);
            let p = seq![LogRecord::<P>::Progress(seq![(s.curr_cap, -1i64)])];
            assert(messages_per_epoch(f));
            assert(messages_per_epoch(p));
            lemma_messages_concat(f, p);
        },
        ComputationStatus::WrappedUp => {},
    }
}

/// Whether a logged entry comes from state `s`'s buffer or from a setup or
/// activity event of `batch`.
pub open spec fn logged_from<P>(entry: (u64, (Duration, usize, P)), s: LoggerState<P>, batch: Seq<LogTuple<P>>) -> bool {
    ||| s.buffer.contains(entry)
    ||| exists|i: int|
        0 <= i < batch.len() && (batch[i].class is Setup || batch[i].class is Activity)
            && entry.1.1 == #[trigger] batch[i].worker && entry.1.2 == batch[i].payload
}

/// Whether every entry written in `outs` or left in the buffer of `s2`
/// comes from `s`'s buffer or from a relevant event of `batch`.
pub open spec fn only_relevant<P>(
    s: LoggerState<P>,
    batch: Seq<LogTuple<P>>,
    s2: LoggerState<P>,
    outs: Seq<LogRecord<P>>,
) -> bool {
    &&& forall|j: int| 0 <= j < s2.buffer.len() ==> logged_from(#[trigger] s2.buffer[j], s, batch)
    &&& forall|i: int|
        0 <= i < outs.len() ==> match #[trigger] outs[i] {
            LogRecord::Messages(_, es) => forall|j: int|
                0 <= j < es.len() ==> logged_from(#[trigger] es[j], s, batch),
            LogRecord::Progress(_) => true,
        }
}

proof fn lemma_events_run_relevant<P>(s: LoggerState<P>, b: Seq<LogTuple<P>>)
    ensures
        only_relevant(s, b, events_run(s, b).0, events_run(s, b).1),
    decreases b.len(),
{
    if b.len() > 0 {
        let bp = b.drop_last();
        let t = b.last();
        lemma_events_run_relevant(s, bp);
        let (s1, o1) = events_run(s, bp);
        let (s2, o2) = event_step(s1, t);
        let (se, oe) = event_effect(s1, t);
        // Anything from the prefix's run is also from the whole batch.
        assert forall|e: (u64, (Duration, usize, P))| logged_from(e, s, bp) implies logged_from(e, s, b) by {
            if !s.buffer.contains(e) {
                let i = choose|i: int|
                    0 <= i < bp.len() && (bp[i].class is Setup || bp[i].class is Activity)
                        && e.1.1 == #[trigger] bp[i].worker && e.1.2 == bp[i].payload;
                assert(b[i] == bp[i]);
            }
        }
        // The event's own entry is from the batch.
        assert forall|e: (u64, (Duration, usize, P))|
            (t.class is Setup || t.class is Activity) && e.1.1 == t.worker && e.1.2 == t.payload
            implies logged_from(e, s, b) by {
            assert(b[b.len() - 1] == t);
        }
        assert forall|j: int| 0 <= j < se.buffer.len() implies logged_from(#[trigger] se.buffer[j], s, b) by {
            if j < s1.buffer.len() {
                assert(se.buffer[j] == s1.buffer[j]);
                assert(logged_from(s1.buffer[j], s, bp));
            }
        }
        assert forall|i: int| 0 <= i < oe.len() implies match #[trigger] oe[i] {
            LogRecord::Messages(_, es) => forall|j: int|
                0 <= j < es.len() ==> logged_from(#[trigger] es[j], s, b),
            LogRecord::Progress(_) => true,
        } by {
            match oe[i] {
                LogRecord::Messages(_, es) => {
                    assert(es == s1.buffer);
                    assert forall|j: int| 0 <= j < es.len() implies logged_from(#[trigger] es[j], s, b) by {
                        assert(logged_from(s1.buffer[j], s, bp));
                    }
                },
                LogRecord::Progress(_) => {},
            }
        }
        let f = flush_records(se.curr_cap, se.buffer);
        assert forall|i: int| 0 <= i < f.len() implies match #[trigger] f[i] {
            LogRecord::Messages(_, es) => forall|j: int|
                0 <= j < es.len() ==> logged_from(#[trigger] es[j], s, b),
            LogRecord::Progress(_) => true,
        } by {
            assert(f[i] == LogRecord::Messages(se.curr_cap, se.buffer));
        }
        let all = o1 + o2;
        assert forall|i: int| 0 <= i < all.len() implies match #[trigger] all[i] {
            LogRecord::Messages(_, es) => forall|j: int|
                0 <= j < es.len() ==> logged_from(#[trigger] es[j], s, b),
            LogRecord::Progress(_) => true,
        } by {
            if i < o1.len() {
                assert(all[i] == o1[i]);
                match o1[i] {
                    LogRecord::Messages(_, es) => {
                        assert forall|j: int| 0 <= j < es.len() implies logged_from(#[trigger] es[j], s, b) by {
                            assert(logged_from(es[j], s, bp));
                        }
                    },
                    LogRecord::Progress(_) => {},
                }
            } else {
                assert(all[i] == o2[i - o1.len()]);
                if se.fuel == 0 {
                    let k = i - o1.len();
                    if k < oe.len() {
                        assert(o2[k] == oe[k]);
                    } else {
                        assert(o2[k] == f[k - oe.len()]);
                    }
                }
            }
        }
    }
}

/// Only relevant events are written: every entry that a batch writes out,
/// or leaves buffered, was already buffered or comes from a setup or
/// activity event of the batch. Text events and other events never are.
pub proof fn lemma_only_relevant_written<P>(s: LoggerState<P>, batch: Seq<LogTuple<P>>)
    ensures
        only_relevant(s, batch, log_batch(s, batch).0, log_batch(s, batch).1),
{
    match s.status {
        ComputationStatus::Ongoing => {
            lemma_events_run_relevant(s, batch);
        },
        ComputationStatus::WrappingUp => {
            let o = log_batch(s, batch).1;
            let f = flush_records(s.curr_cap, s.buffer);
            assert forall|i: int| 0 <= i < o.len() implies match #[trigger] o[i] {
                LogRecord::Messages(_, es) => forall|j: int|
                    0 <= j < es.len() ==> logged_from(#[trigger] es[j], s, batch),
                LogRecord::Progress(_) => true,
            } by {
                if i < f.len() {
                    assert(o[i] == f[i]);
                    assert(f[i] == LogRecord::Messages(s.curr_cap, s.buffer));
                    assert forall|j: int| 0 <= j < s.buffer.len() implies logged_from(#[trigger] s.buffer[j], s, batch) by {
                        assert(s.buffer.contains(s.buffer[j]));
                    }
                } else {
                    assert(o[i] == LogRecord::<P>::Progress(seq![(s.curr_cap, -1i64)]));
                }
            }
        },
        ComputationStatus::WrappedUp => {
            assert forall|j: int| 0 <= j < s.buffer.len() implies logged_from(#[trigger] s.buffer[j], s, batch) by {
                assert(s.buffer.contains(s.buffer[j]));
            }
        },
    }
}

/// Setup events are collapsed into the setup epoch: they are logged at
/// epoch 0 and system time zero, with their worker and event unchanged.
pub proof fn lemma_setup_collapsed<P>(s: LoggerState<P>, t: LogTuple<P>)
    requires
        logger_inv(s),
        event_ok(s, t),
        t.class is Setup,
    ensures
        event_effect(s, t).0.buffer == s.buffer.push((0u64, (duration_of_nanos(0), t.worker, t.payload))),
{
}

/// Once wrapped up, the logger stays silent: no batch changes its state or
/// writes anything.
pub proof fn lemma_wrapped_up_silent<P>(s: LoggerState<P>, batch: Seq<LogTuple<P>>)
    requires
        s.status is WrappedUp,
    ensures
        log_batch(s, batch) == (s, Seq::<LogRecord<P>>::empty()),
{
}

/// After the end marker, the next batch writes out what is still buffered,
/// then drops the current capability, and nothing else; from then on the
/// logger holds no capability and stays silent.
pub proof fn lemma_wrap_up<P>(s: LoggerState<P>, b1: Seq<LogTuple<P>>, b2: Seq<LogTuple<P>>, c: Pair<u64, Duration>)
    requires
        s.status is WrappingUp,
    ensures
        log_batch(s, b1).1 == flush_records(s.curr_cap, s.buffer) + seq![
            LogRecord::Progress(seq![(s.curr_cap, -1i64)]),
        ],
        log_batch(s, b1).0.status is WrappedUp,
        held(log_batch(s, b1).0, c) == 0,
        log_batch(log_batch(s, b1).0, b2) == (log_batch(s, b1).0, Seq::<LogRecord<P>>::empty()),
{
}

/// A sequence of batches handled one after the other.
pub open spec fn log_batches<P>(s: LoggerState<P>, batches: Seq<Seq<LogTuple<P>>>) -> (LoggerState<P>, Seq<LogRecord<P>>)
    decreases batches.len(),
{
    if batches.len() == 0 {
        (s, Seq::empty())
    } else {
        let (s1, o1) = log_batches(s, batches.drop_last());
        let (s2, o2) = log_batch(s1, batches.last());
        (s2, o1 + o2)
    }
}

/// Whether every batch of a sequence can be handled in turn.
pub open spec fn log_batches_ok<P>(s: LoggerState<P>, batches: Seq<Seq<LogTuple<P>>>) -> bool
    decreases batches.len(),
{
    batches.len() == 0 || (log_batches_ok(s, batches.drop_last()) && log_batch_ok(
        log_batches(s, batches.drop_last()).0,
        batches.last(),
    ))
}

proof fn lemma_log_batches<P>(s: LoggerState<P>, batches: Seq<Seq<LogTuple<P>>>, c: Pair<u64, Duration>)
    requires
        logger_inv(s),
        log_batches_ok(s, batches),
    ensures
        logger_inv(log_batches(s, batches).0),
        messages_per_epoch(log_batches(s, batches).1),
        held(s, c) + progress_total(log_batches(s, batches).1, c) == held(log_batches(s, batches).0, c),
    decreases batches.len(),
{
    assert(progress_total(Seq::<LogRecord<P>>::empty(), c) == 0);
    assert(messages_per_epoch(Seq::<LogRecord<P>>::empty()));
    if batches.len() > 0 {
        lemma_log_batches(s, batches.drop_last(), c);
        let (s1, o1) = log_batches(s, batches.drop_last());
        lemma_messages_per_epoch(s1, batches.last());
        lemma_capabilities_accounted(s1, batches.last(), c);
        let o2 = log_batch(s1, batches.last()).1;
        lemma_progress_total_concat(o1, o2, c);
        lemma_messages_concat(o1, o2);
    }
}

/// Over any sequence of batches that the logger accepts, from the start of
/// logging: the initial capability plus every capability change written
/// amounts to exactly one capability at the current one while the
/// computation runs or wraps up, and to none at all once wrapped up; every
/// batch of events written out holds between 1 and `MAX_FUEL` events, all
/// of the epoch it is written at.
pub proof fn lemma_logging_run<P>(batches: Seq<Seq<LogTuple<P>>>, c: Pair<u64, Duration>)
    requires
        log_batches_ok(initial_state::<P>(), batches),
    ensures
        ({
            let (s, outs) = log_batches(initial_state::<P>(), batches);
            &&& (if c == initial_cap() { 1int } else { 0int }) + progress_total(outs, c) == held(s, c)
            &&& held(s, c) == if !(s.status is WrappedUp) && c == s.curr_cap { 1int } else { 0int }
            &&& messages_per_epoch(outs)
        }),
{
    lemma_log_batches(initial_state::<P>(), batches, c);
}

} // verus!
