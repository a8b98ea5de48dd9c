//! The table of messages under reassembly, and the supervisor that decides
//! when the engine winds down.

use crate::clock::precise_time_ns;
use crate::data::{
    content, gaps_of, lemma_add_is_monotone, lemma_sorted_keeps, Message, MessageView, Packet,
    PacketView,
};
use crate::digest::sha256;
use crate::text::{decimal_of, hex_of, push_decimal};
use std::collections::HashMap;
use vstd::prelude::*;
use vstd::string::StringExecFns;

verus! {

/// Nanoseconds in a second.
pub const SECOND: u64 = 1_000_000_000;

/// The durations that govern the supervisor, in nanoseconds.
#[derive(Debug, Clone, Copy, PartialEq, Eq, Structural)]
pub struct Config {
    /// The time between two inspections of the table.
    pub wake_interval: u64,
    /// The age above which a message counts as idle.
    pub idle_threshold: u64,
    /// The age above which the gaps of an incomplete message are reported
    /// when the engine winds down.
    pub stale_threshold: u64,
}

impl Default for Config {
    /// An inspection every 10 seconds, idle after 30 seconds, stale after
    /// 30 minutes.
    fn default() -> (config: Config)
        ensures
            config == (Config {
                wake_interval: 10_000_000_000,
                idle_threshold: 30_000_000_000,
                stale_threshold: 1_800_000_000_000,
            }),
    {
        Config {
            wake_interval: 10 * SECOND,
            idle_threshold: 30 * SECOND,
            stale_threshold: 30 * 60 * SECOND,
        }
    }
}

/// Where the supervisor stands.
#[derive(Debug, Clone, Copy, PartialEq, Eq, Structural)]
pub enum State {
    /// The table is inspected at every wake-up.
    Running,
    /// Every message was found idle; the last pass over the table is due.
    Draining,
    /// The last pass was made. Nothing follows.
    Stopped,
}

/// What a report is, as a mathematical value.
pub enum ReportView {
    Complete { message_id: u32, hash: Seq<char> },
    Gap { message_id: u32, start: u64, end: u64 },
}

impl ReportView {
    /// The line that the report is written as.
    pub open spec fn line(self) -> Seq<char> {
        match self {
            ReportView::Complete { message_id, hash } => decimal_of(message_id as nat) + " - "@
                + hash,
            ReportView::Gap { message_id, start, end } => decimal_of(message_id as nat)
                + " - Data Gap: "@ + decimal_of(start as nat) + "-"@ + decimal_of(end as nat),
        }
    }
}

/// An outcome that the engine hands to whoever writes it down.
#[derive(Debug, PartialEq, Eq)]
pub enum Report {
    /// A message was found complete; `hash` is the digest of its content.
    Complete { message_id: u32, hash: String },
    /// An incomplete message was given up; one report for each of its gaps.
    Gap { message_id: u32, start: u64, end: u64 },
}

impl View for Report {
    type V = ReportView;

    open spec fn view(&self) -> ReportView {
        match *self {
            Report::Complete { message_id, hash } => ReportView::Complete {
                message_id,
                hash: hash@,
            },
            Report::Gap { message_id, start, end } => ReportView::Gap { message_id, start, end },
        }
    }
}

impl Report {
    /// The line that the report is written as: the message id, then either
    /// the digest or the two ends of the gap.
    pub fn line(&self) -> (line: String)
        ensures
            line@ == self@.line(),
    {
        let mut line = String::new();
        match self {
            Report::Complete { message_id, hash } => {
                push_decimal(&mut line, *message_id as u64);
                line.append(" - ");
                line.append(hash.as_str());
            },
            Report::Gap { message_id, start, end } => {
                push_decimal(&mut line, *message_id as u64);
                line.append(" - Data Gap: ");
                push_decimal(&mut line, *start);
                line.append("-");
                push_decimal(&mut line, *end);
            },
        }
        line
    }
}

/// The view of a report that may be absent.
pub open spec fn report_view(report: Option<Report>) -> Option<ReportView> {
    match report {
        Some(r) => Some(r@),
        None => None,
    }
}

/// The views of `reports`, in the same order.
pub open spec fn report_views(reports: Seq<Report>) -> Seq<ReportView> {
    reports.map_values(|r: Report| r@)
}

/// One report for each of `gaps`, in their order, for the message `id`.
pub open spec fn gap_reports(id: u32, gaps: Seq<(u64, u64)>) -> Seq<ReportView> {
    gaps.map_values(|gap: (u64, u64)| ReportView::Gap { message_id: id, start: gap.0, end: gap.1 })
}

/// What is reported of the message `m`, kept under `id`, when the engine
/// winds down at the clock reading `now`: nothing if the message is
/// complete or no older than `stale_threshold`, else one report for each
/// gap of the sorted message.
pub open spec fn final_reports(id: u32, m: MessageView, now: u64, stale_threshold: u64) -> Seq<
    ReportView,
> {
    if !m.complete && m.age(now) > stale_threshold {
        gap_reports(id, gaps_of(m.sorted().packets))
    } else {
        Seq::empty()
    }
}

/// What the engine is, as a mathematical value.
pub struct EventLoopView {
    /// The messages under reassembly, by their id.
    pub messages: Map<u32, MessageView>,
    /// The ids of the messages, in the order in which their first
    /// fragments arrived.
    pub order: Seq<u32>,
    /// Where the supervisor stands.
    pub state: State,
    /// The durations that govern the supervisor.
    pub config: Config,
}

impl EventLoopView {
    /// The engine without messages whose supervisor is running.
    pub open spec fn fresh(config: Config) -> EventLoopView {
        EventLoopView { messages: Map::empty(), order: Seq::empty(), state: State::Running, config }
    }

    /// Each id is listed once, for the message kept under it; every
    /// message is well formed and holds at least one fragment, and only
    /// fragments that carry the id under which it is kept.
    pub open spec fn wf(self) -> bool {
        &&& self.order.no_duplicates()
        &&& forall|id: u32| self.order.contains(id) <==> #[trigger] self.messages.contains_key(id)
        &&& forall|id: u32| #[trigger]
            self.messages.contains_key(id) ==> {
                &&& self.messages[id].wf()
                &&& self.messages[id].belongs_to(id)
                &&& self.messages[id].packets.len() > 0
            }
    }

    /// The message that `p` belongs to, after `p` has arrived at the
    /// clock reading `now`: the message kept under the id of `p`, or a
    /// fresh one, with `p` added, and sorted if that made or left it
    /// complete.
    pub open spec fn message_after(self, p: PacketView, now: u64) -> MessageView {
        let found = if self.messages.contains_key(p.packet_id) {
            self.messages[p.packet_id]
        } else {
            MessageView::fresh(now)
        };
        if found.add(p).complete {
            found.add(p).sorted()
        } else {
            found.add(p)
        }
    }

    /// The engine after `p` has arrived at the clock reading `now`.
    pub open spec fn ingest(self, p: PacketView, now: u64) -> EventLoopView {
        EventLoopView {
            messages: self.messages.insert(p.packet_id, self.message_after(p, now)),
            order: if self.messages.contains_key(p.packet_id) {
                self.order
            } else {
                self.order.push(p.packet_id)
            },
            ..self
        }
    }

    /// What is reported when `p` arrives at the clock reading `now`: the
    /// digest of the message that `p` belongs to, if it is complete with
    /// `p`.
    pub open spec fn ingest_report(self, p: PacketView, now: u64) -> Option<ReportView> {
        let message = self.message_after(p, now);
        if message.complete {
            Some(
                ReportView::Complete {
                    message_id: p.packet_id,
                    hash: hex_of(sha256(content(message.packets))),
                },
            )
        } else {
            None
        }
    }

    /// Every message is older than the idle threshold when the clock
    /// reads `now`.
    pub open spec fn all_idle(self, now: u64) -> bool {
        forall|id: u32| #[trigger]
            self.messages.contains_key(id) ==> self.messages[id].age(now)
                > self.config.idle_threshold
    }

    /// Where the supervisor stands after a wake-up at the clock reading
    /// `now`: it leaves `Running` for `Draining` if there is a message and
    /// every message is idle, and stays where it is otherwise.
    pub open spec fn state_after_wake(self, now: u64) -> State {
        if self.state == State::Running && self.order.len() > 0 && self.all_idle(now) {
            State::Draining
        } else {
            self.state
        }
    }

    /// The engine after a wake-up at the clock reading `now`.
    pub open spec fn wake(self, now: u64) -> EventLoopView {
        EventLoopView { state: self.state_after_wake(now), ..self }
    }

    /// What is reported of the first `n` messages when the engine winds
    /// down at the clock reading `now`, message by message in the order
    /// of their arrival.
    pub open spec fn final_reports_upto(self, n: int, now: u64) -> Seq<ReportView>
        decreases n,
    {
        if n <= 0 {
            Seq::empty()
        } else {
            self.final_reports_upto(n - 1, now) + final_reports(
                self.order[n - 1],
                self.messages[self.order[n - 1]],
                now,
                self.config.stale_threshold,
            )
        }
    }

    /// What is reported when the engine winds down at the clock reading
    /// `now`.
    pub open spec fn drain_reports(self, now: u64) -> Seq<ReportView> {
        self.final_reports_upto(self.order.len() as int, now)
    }

    /// The engine after its last pass: every message sorted, the
    /// supervisor stopped.
    pub open spec fn drained(self) -> EventLoopView {
        EventLoopView {
            messages: self.messages.map_values(|m: MessageView| m.sorted()),
            state: State::Stopped,
            ..self
        }
    }
}

/// A running supervisor leaves `Running` at a wake-up only for `Draining`,
/// and only if there is a message and every message is idle: one message
/// that is not idle keeps it running, however old the others are.
pub proof fn lemma_wake_of_running(engine: EventLoopView, now: u64)
    requires
        engine.state == State::Running,
    ensures
        engine.state_after_wake(now) == State::Running || engine.state_after_wake(now)
            == State::Draining,
        engine.state_after_wake(now) == State::Draining <==> engine.order.len() > 0
            && engine.all_idle(now),
        forall|id: u32|
            engine.messages.contains_key(id) && engine.messages[id].age(now)
                <= engine.config.idle_threshold ==> engine.state_after_wake(now)
                == State::Running,
{
}

/// A supervisor that is not running stays where it is at a wake-up, and
/// the arrival of a fragment never moves the supervisor.
pub proof fn lemma_supervisor_stays(engine: EventLoopView, p: PacketView, now: u64)
    ensures
        engine.state != State::Running ==> engine.wake(now) == engine,
        engine.ingest(p, now).state == engine.state,
        engine.ingest(p, now).config == engine.config,
{
}

/// The arrival of a well-formed fragment leaves a well-formed engine well
/// formed.
pub proof fn lemma_ingest_keeps_wf(engine: EventLoopView, p: PacketView, now: u64)
    requires
        engine.wf(),
        p.wf(),
    ensures
        engine.ingest(p, now).wf(),
{
    let id = p.packet_id;
    let after = engine.ingest(p, now);
    let found = if engine.messages.contains_key(id) {
        engine.messages[id]
    } else {
        MessageView::fresh(now)
    };
    lemma_add_is_monotone(found, p);
    lemma_sorted_keeps(found.add(p), id);
    assert(found.add(p).belongs_to(id));
    assert forall|other: u32| after.order.contains(other) <==> #[trigger]
        after.messages.contains_key(other) by {
        if !engine.messages.contains_key(id) {
            if after.order.contains(other) {
                let k = choose|k: int| 0 <= k < after.order.len() && after.order[k] == other;
                if k < engine.order.len() {
                    assert(engine.order[k] == other);
                    assert(engine.order.contains(other));
                }
            }
            if after.messages.contains_key(other) {
                if other == id {
                    assert(after.order[after.order.len() - 1] == id);
                } else {
                    assert(engine.order.contains(other));
                    let k = choose|k: int|
                        0 <= k < engine.order.len() && engine.order[k] == other;
                    assert(after.order[k] == other);
                }
            }
        }
    }
    assert(after.order.no_duplicates()) by {
        if !engine.messages.contains_key(id) {
            assert forall|i: int, j: int|
                0 <= i < after.order.len() && 0 <= j < after.order.len() && i
                    != j implies after.order[i] != after.order[j] by {
                if i < engine.order.len() {
                    assert(engine.order.contains(engine.order[i]));
                }
                if j < engine.order.len() {
                    assert(engine.order.contains(engine.order[j]));
                }
            }
        }
    }
}

/// The last pass leaves a well-formed engine well formed, and so does a
/// wake-up.
pub proof fn lemma_supervisor_keeps_wf(engine: EventLoopView, now: u64)
    requires
        engine.wf(),
    ensures
        engine.wake(now).wf(),
        engine.drained().wf(),
{
    let after = engine.drained();
    assert forall|id: u32| #[trigger] after.messages.contains_key(id) implies {
        &&& after.messages[id].wf()
        &&& after.messages[id].belongs_to(id)
        &&& after.messages[id].packets.len() > 0
    } by {
        assert(engine.messages.contains_key(id));
        lemma_sorted_keeps(engine.messages[id], id);
    }
    assert forall|id: u32| after.order.contains(id) <==> #[trigger] after.messages.contains_key(
        id,
    ) by {
        assert(engine.messages.contains_key(id) == after.messages.contains_key(id));
    }
}

/// The table of messages under reassembly together with its supervisor.
pub struct EventLoop {
    messages: HashMap<u32, Message>,
    order: Vec<u32>,
    state: State,
    config: Config,
}

impl View for EventLoop {
    type V = EventLoopView;

    closed spec fn view(&self) -> EventLoopView {
        EventLoopView {
            messages: self.messages@.map_values(|m: Message| m@),
            order: self.order@,
            state: self.state,
            config: self.config,
        }
    }
}

impl EventLoop {
    /// Each id is listed once, for the message kept under it; every
    /// message is well formed and holds at least one fragment, and only
    /// fragments that carry the id under which it is kept.
    pub open spec fn wf(&self) -> bool {
        self@.wf()
    }

    /// An engine without messages whose supervisor is running.
    pub(crate) fn new(config: Config) -> (engine: EventLoop)
        ensures
            engine.wf(),
            engine@ == EventLoopView::fresh(config),
    {
        let engine = EventLoop {
            messages: HashMap::new(),
            order: Vec::new(),
            state: State::Running,
            config,
        };
        assert(engine@.messages =~= Map::empty());
        engine
    }

    /// Where the supervisor stands.
    pub fn state(&self) -> (state: State)
        ensures
            state == self@.state,
    {
        self.state
    }

    /// The durations that govern the supervisor.
    pub fn config(&self) -> (config: Config)
        ensures
            config == self@.config,
    {
        self.config
    }

    /// The message kept under `id`, if there is one.
    pub fn message(&self, id: u32) -> (message: Option<&Message>)
        ensures
            match message {
                Some(m) => self@.messages.contains_key(id) && m@ == self@.messages[id],
                None => !self@.messages.contains_key(id),
            },
    {
        self.messages.get(&id)
    }

    /// Takes in a fragment at the clock reading `now`. The fragment goes
    /// to the message kept under its id, which is created if there is
    /// none. If the message is complete with the fragment, it is sorted
    /// and the digest of its content is reported.
    pub fn ingest_at(&mut self, packet: Packet, now: u64) -> (report: Option<Report>)
        requires
            old(self).wf(),
            packet.wf(),
        ensures
            final(self).wf(),
            final(self)@ == old(self)@.ingest(packet@, now),
            report_view(report) == old(self)@.ingest_report(packet@, now),
            report matches Some(Report::Complete { hash, .. }) ==> hash@.len() == 64,
    {
        let ghost p = packet@;
        let id = packet.packet_id();
        let mut message = match self.messages.remove(&id) {
            Some(message) => message,
            None => {
                self.order.push(id);
                Message::started_at(now)
            },
        };
        message.add_packet(packet);
        proof {
            assert(message@.belongs_to(id));
            assert(message@.packets.len() > 0);
        }
        let report = if message.complete() {
            proof {
                lemma_sorted_keeps(message@, id);
            }
            message.sort();
            let label = match message.packets_packet_id() {
                Some(label) => label,
                None => 0,
            };
            Some(Report::Complete { message_id: label, hash: message.sha256() })
        } else {
            None
        };
        self.messages.insert(id, message);
        proof {
            assert(self@.messages =~= old(self)@.ingest(p, now).messages);
            assert(self@.order =~= old(self)@.ingest(p, now).order);
            lemma_ingest_keeps_wf(old(self)@, p, now);
        }
        report
    }

    /// Takes in a fragment at the present reading of the clock.
    pub fn ingest(&mut self, packet: Packet) -> (report: Option<Report>)
        requires
            old(self).wf(),
            packet.wf(),
        ensures
            final(self).wf(),
            exists|now: u64|
                final(self)@ == #[trigger] old(self)@.ingest(packet@, now) && report_view(report)
                    == old(self)@.ingest_report(packet@, now),
            report matches Some(Report::Complete { hash, .. }) ==> hash@.len() == 64,
    {
        let now = precise_time_ns();
        self.ingest_at(packet, now)
    }

    /// Whether every message is older than the idle threshold when the
    /// clock reads `now`.
    pub fn all_idle_at(&self, now: u64) -> (idle: bool)
        requires
            self.wf(),
        ensures
            idle == self@.all_idle(now),
    {
        let mut i: usize = 0;
        while i < self.order.len()
            invariant
                i <= self.order.len(),
                self.wf(),
                forall|k: int|
                    0 <= k < i ==> self@.messages[#[trigger] self.order@[k]].age(now)
                        > self.config.idle_threshold,
            decreases self.order.len() - i,
        {
            let id = self.order[i];
            proof {
                assert(self@.order.contains(id));
                assert(self@.messages.contains_key(id));
            }
            match self.messages.get(&id) {
                Some(message) => {
                    if message.age(now) <= self.config.idle_threshold {
                        return false;
                    }
                },
                None => {},
            }
            i = i + 1;
        }
        proof {
            assert forall|id: u32| #[trigger]
                self@.messages.contains_key(id) implies self@.messages[id].age(now)
                > self.config.idle_threshold by {
                assert(self@.order.contains(id));
                let k = choose|k: int| 0 <= k < self@.order.len() && self@.order[k] == id;
                assert(self.order@[k] == id);
            }
        }
        true
    }

    /// The supervisor's wake-up at the clock reading `now`. A running
    /// supervisor that finds at least one message, and every message idle,
    /// starts to drain. In every other case nothing changes.
    pub fn wake_at(&mut self, now: u64) -> (state: State)
        requires
            old(self).wf(),
        ensures
            final(self).wf(),
            final(self)@ == old(self)@.wake(now),
            state == old(self)@.state_after_wake(now),
    {
        match self.state {
            State::Running => {
                if self.order.len() > 0 && self.all_idle_at(now) {
                    self.state = State::Draining;
                }
            },
            _ => {},
        }
        self.state
    }

    /// The supervisor's wake-up at the present reading of the clock.
    pub fn wake(&mut self) -> (state: State)
        requires
            old(self).wf(),
        ensures
            final(self).wf(),
            exists|now: u64|
                final(self)@ == #[trigger] old(self)@.wake(now) && state
                    == old(self)@.state_after_wake(now),
    {
        let now = precise_time_ns();
        self.wake_at(now)
    }

    /// The supervisor's last pass, at the clock reading `now`. A draining
    /// supervisor sorts every message, reports the gaps of each incomplete
    /// message that is older than the stale threshold, message by message
    /// in the order of their arrival, and stops. A supervisor that is not
    /// draining does nothing.
    pub fn drain_at(&mut self, now: u64) -> (reports: Vec<Report>)
        requires
            old(self).wf(),
        ensures
            final(self).wf(),
            old(self)@.state == State::Draining ==> final(self)@ == old(self)@.drained()
                && report_views(reports@) == old(self)@.drain_reports(now),
            old(self)@.state != State::Draining ==> final(self)@ == old(self)@ && reports@.len()
                == 0,
    {
        let mut reports: Vec<Report> = Vec::new();
        match self.state {
            State::Draining => {},
            _ => {
                return reports;
            },
        }
        let ghost given = self@;
        let mut i: usize = 0;
        proof {
            assert(report_views(reports@) =~= given.final_reports_upto(0, now));
        }
        while i < self.order.len()
            invariant
                i <= self.order.len(),
                given == old(self)@,
                given.wf(),
                self.wf(),
                self@.order == given.order,
                self@.config == given.config,
                self@.state == given.state,
                forall|id: u32|
                    self@.messages.contains_key(id) == given.messages.contains_key(id),
                forall|k: int|
                    0 <= k < i ==> self@.messages[#[trigger] given.order[k]]
                        == given.messages[given.order[k]].sorted(),
                forall|k: int|
                    i <= k < given.order.len() ==> self@.messages[#[trigger] given.order[k]]
                        == given.messages[given.order[k]],
                report_views(reports@) == given.final_reports_upto(i as int, now),
            decreases self.order.len() - i,
        {
            let id = self.order[i];
            let ghost before = self@;
            proof {
                assert(given.order.contains(given.order[i as int]));
                assert(before.messages.contains_key(id));
                assert(before.messages[id] == given.messages[id]);
            }
            match self.messages.remove(&id) {
                Some(message) => {
                    let mut message = message;
                    proof {
                        lemma_sorted_keeps(message@, id);
                    }
                    message.sort();
                    if !message.complete() && message.age(now) > self.config.stale_threshold {
                        let gaps = message.gaps();
                        let label = match message.packets_packet_id() {
                            Some(label) => label,
                            None => 0,
                        };
                        push_gap_reports(&mut reports, label, &gaps);
                    }
                    self.messages.insert(id, message);
                },
                None => {},
            }
            proof {
                let after = self@;
                assert(after.messages =~= before.messages.insert(id, given.messages[id].sorted()));
                assert(report_views(reports@) =~= given.final_reports_upto(i as int, now)
                    + final_reports(id, given.messages[id], now, given.config.stale_threshold));
                assert forall|k: int| 0 <= k < i + 1 implies after.messages[#[trigger]
                given.order[k]] == given.messages[given.order[k]].sorted() by {
                    if k < i {
                        assert(given.order[k] != given.order[i as int]);
                    }
                }
                assert forall|k: int|
                    i + 1 <= k < given.order.len() implies after.messages[#[trigger]
                given.order[k]] == given.messages[given.order[k]] by {
                    assert(given.order[k] != given.order[i as int]);
                }
            }
            i = i + 1;
        }
        self.state = State::Stopped;
        proof {
            let after = self@;
            assert forall|id: u32| #[trigger]
                after.messages.contains_key(id) implies after.messages[id]
                == given.messages[id].sorted() by {
                assert(given.order.contains(id));
                let k = choose|k: int| 0 <= k < given.order.len() && given.order[k] == id;
                assert(after.messages[given.order[k]] == given.messages[given.order[k]].sorted());
            }
            assert(after.messages =~= given.drained().messages);
        }
        reports
    }

    /// The supervisor's last pass, at the present reading of the clock.
    pub fn drain(&mut self) -> (reports: Vec<Report>)
        requires
            old(self).wf(),
        ensures
            final(self).wf(),
            old(self)@.state == State::Draining ==> final(self)@ == old(self)@.drained()
                && exists|now: u64|
                report_views(reports@) == #[trigger] old(self)@.drain_reports(now),
            old(self)@.state != State::Draining ==> final(self)@ == old(self)@ && reports@.len()
                == 0,
    {
        let now = precise_time_ns();
        self.drain_at(now)
    }
}

/// Appends one report for each of `gaps`, in their order, for the message
/// `id`.
fn push_gap_reports(reports: &mut Vec<Report>, id: u32, gaps: &Vec<(u64, u64)>)
    ensures
        report_views(final(reports)@) == report_views(old(reports)@) + gap_reports(id, gaps@),
{
    let mut j: usize = 0;
    proof {
        assert(report_views(reports@) =~= report_views(old(reports)@) + gap_reports(
            id,
            gaps@.take(0),
        ));
    }
    while j < gaps.len()
        invariant
            j <= gaps.len(),
            report_views(reports@) == report_views(old(reports)@) + gap_reports(
                id,
                gaps@.take(j as int),
            ),
        decreases gaps.len() - j,
    {
        let gap = gaps[j];
        let ghost pushed = reports@;
        reports.push(Report::Gap { message_id: id, start: gap.0, end: gap.1 });
        proof {
            assert(gaps@.take(j + 1) =~= gaps@.take(j as int).push(gaps@[j as int]));
            assert(report_views(reports@) =~= report_views(pushed).push(
                ReportView::Gap { message_id: id, start: gap.0, end: gap.1 },
            ));
            assert(gap_reports(id, gaps@.take(j + 1)) =~= gap_reports(
                id,
                gaps@.take(j as int),
            ).push(ReportView::Gap { message_id: id, start: gap.0, end: gap.1 }));
        }
        j = j + 1;
    }
    proof {
        assert(gaps@.take(j as int) =~= gaps@);
    }
}

} // verus!
