//! The dispatcher: a queue of messages and at most one measurement in flight.
//!
//! The dispatcher performs nothing itself. Its phase says what it waits for,
//! the caller does that (waits for a message, pauses and reads the sensor,
//! sends a line) and hands back what happened as an [`Event`]; [`Dispatcher::step`]
//! then says what to report and moves to the next phase. Messages may arrive
//! at any time: they wait in the queue, in order, until the dispatcher is idle.
//! A raw reading is converted by the calibration that the dispatcher was
//! made with.

use std::collections::VecDeque;
use vstd::prelude::*;
use crate::calibration::{value_at, Calibration};
use crate::command::{parse_command, read_command, Command, CommandView, ParseError,
    ParseErrorView};
use crate::telemetry::TelemetryRecord;

verus! {

/// One raw reading of the sensor, with the time it was taken at.
#[derive(Clone, Copy, Debug, PartialEq, Eq)]
pub struct Sample {
    /// What the sensor gave.
    pub reading: u16,
    /// Milliseconds since the node started.
    pub uptime_ms: u128,
}

/// What the dispatcher waits for.
#[derive(Clone, Copy, Debug, PartialEq, Eq)]
pub enum Phase {
    /// No measurement runs and the queue is empty: the next message.
    Idle,
    /// A sample: the caller pauses for `delay_ms` milliseconds, then reads the
    /// sensor once. `remaining` samples are to follow this one.
    Sampling { remaining: u64, delay_ms: u64 },
    /// The outcome of sending `record`.
    Publishing { record: TelemetryRecord, delay_ms: u64 },
}

/// What happened outside the dispatcher.
#[derive(Clone, Debug, PartialEq, Eq)]
pub enum Event {
    /// A message arrived.
    Arrived(String),
    /// The sensor was read.
    Sampled(Sample),
    /// The sample could not be taken.
    SensorFault,
    /// The record was sent.
    Published,
    /// Sending the record failed.
    PublishFault,
}

/// Something for the caller to report. None of these ends the dispatcher.
#[derive(Clone, Debug, PartialEq, Eq)]
pub enum Report {
    /// A message was no command, and was dropped.
    Rejected(ParseError),
    /// A message named this unknown verb, and was dropped.
    UnknownCommand(String),
    /// A sample could not be taken: the measurement was given up with
    /// `remaining` samples still to follow the failed one.
    SensorFault { remaining: u64 },
    /// Sending failed: the measurement was given up at the record that
    /// counted `remaining`.
    PublishFault { remaining: u64 },
    /// An event that does not answer what the dispatcher waits for: it was
    /// ignored.
    OutOfTurn,
}

/// An [`Event`] with its text as a sequence of characters.
pub enum EventView {
    Arrived(Seq<char>),
    Sampled(Sample),
    SensorFault,
    Published,
    PublishFault,
}

/// A [`Report`] with its text as a sequence of characters.
pub enum ReportView {
    Rejected(ParseErrorView),
    UnknownCommand(Seq<char>),
    SensorFault { remaining: u64 },
    PublishFault { remaining: u64 },
    OutOfTurn,
}

impl View for Event {
    type V = EventView;

    open spec fn view(&self) -> EventView {
        match *self {
            Event::Arrived(text) => EventView::Arrived(text@),
            Event::Sampled(sample) => EventView::Sampled(sample),
            Event::SensorFault => EventView::SensorFault,
            Event::Published => EventView::Published,
            Event::PublishFault => EventView::PublishFault,
        }
    }
}

impl View for Report {
    type V = ReportView;

    open spec fn view(&self) -> ReportView {
        match *self {
            Report::Rejected(e) => ReportView::Rejected(e@),
            Report::UnknownCommand(verb) => ReportView::UnknownCommand(verb@),
            Report::SensorFault { remaining } => ReportView::SensorFault { remaining },
            Report::PublishFault { remaining } => ReportView::PublishFault { remaining },
            Report::OutOfTurn => ReportView::OutOfTurn,
        }
    }
}

/// The views of a run of reports.
pub open spec fn report_views(reports: Seq<Report>) -> Seq<ReportView> {
    Seq::new(reports.len(), |k: int| reports[k]@)
}

/// The views of a run of messages.
pub open spec fn texts(messages: Seq<String>) -> Seq<Seq<char>> {
    Seq::new(messages.len(), |k: int| messages[k]@)
}

/// The dispatcher as a value: the messages that wait, oldest first, and the
/// phase.
pub struct Model {
    pub inbox: Seq<Seq<char>>,
    pub phase: Phase,
}

/// What a step comes to: the dispatcher after it, and what to report, in order.
pub struct Turn {
    pub model: Model,
    pub reports: Seq<ReportView>,
}

/// The record that reports `sample`, converted by `calibration`, as the one
/// that `remaining` more will follow.
pub open spec fn sampled_record(
    calibration: Calibration,
    remaining: u64,
    sample: Sample,
) -> TelemetryRecord {
    TelemetryRecord {
        remaining,
        value_hundredths: value_at(calibration@, sample.reading as int) as i64,
        uptime_ms: sample.uptime_ms,
    }
}

/// The phase that a message taken from the queue leads to. Only a `measure`
/// with an amount above zero starts anything; its first record counts
/// `amount - 1`.
pub open spec fn opening_phase(text: Seq<char>) -> Phase {
    match read_command(text) {
        Ok(CommandView::Measure { amount, delay_ms }) => if amount == 0 {
            Phase::Idle
        } else {
            Phase::Sampling { remaining: (amount - 1) as u64, delay_ms }
        },
        _ => Phase::Idle,
    }
}

/// What is reported of a message taken from the queue: nothing for a
/// `measure`, the verb of an unknown command, the error of anything else.
pub open spec fn opening_reports(text: Seq<char>) -> Seq<ReportView> {
    match read_command(text) {
        Ok(CommandView::Measure { .. }) => Seq::empty(),
        Ok(CommandView::Unknown { verb }) => seq![ReportView::UnknownCommand(verb)],
        Err(e) => seq![ReportView::Rejected(e)],
    }
}

/// What an idle dispatcher does with its queue: it takes messages from the
/// front, one by one, until one starts a measurement or none is left.
pub open spec fn settle(inbox: Seq<Seq<char>>) -> Turn
    decreases inbox.len(),
{
    if inbox.len() == 0 {
        Turn { model: Model { inbox, phase: Phase::Idle }, reports: Seq::empty() }
    } else {
        let phase = opening_phase(inbox[0]);
        if phase is Idle {
            let rest = settle(inbox.drop_first());
            Turn { model: rest.model, reports: opening_reports(inbox[0]) + rest.reports }
        } else {
            Turn {
                model: Model { inbox: inbox.drop_first(), phase },
                reports: opening_reports(inbox[0]),
            }
        }
    }
}

/// A measurement that was given up: the fault is reported, and the dispatcher
/// goes on with its queue.
pub open spec fn give_up(inbox: Seq<Seq<char>>, fault: ReportView) -> Turn {
    Turn { model: settle(inbox).model, reports: seq![fault] + settle(inbox).reports }
}

/// An event that answers nothing: the dispatcher stays as it is.
pub open spec fn out_of_turn(m: Model) -> Turn {
    Turn { model: m, reports: seq![ReportView::OutOfTurn] }
}

/// One step of a dispatcher that converts by `calibration`.
///
/// A message that arrives goes to the back of the queue, and is looked at
/// only once the dispatcher is idle. A sample is converted and becomes the
/// record to send. A record that was sent is followed by the next sample, or,
/// where it counted zero, by the queue. A fault gives the measurement up. Any
/// other event is out of turn.
pub open spec fn step(calibration: Calibration, m: Model, event: EventView) -> Turn {
    match event {
        EventView::Arrived(text) => if m.phase is Idle {
            settle(m.inbox.push(text))
        } else {
            Turn {
                model: Model { inbox: m.inbox.push(text), phase: m.phase },
                reports: Seq::empty(),
            }
        },
        EventView::Sampled(sample) => match m.phase {
            Phase::Sampling { remaining, delay_ms } => Turn {
                model: Model {
                    inbox: m.inbox,
                    phase: Phase::Publishing {
                        record: sampled_record(calibration, remaining, sample),
                        delay_ms,
                    },
                },
                reports: Seq::empty(),
            },
            _ => out_of_turn(m),
        },
        EventView::SensorFault => match m.phase {
            Phase::Sampling { remaining, .. } => give_up(
                m.inbox,
                ReportView::SensorFault { remaining },
            ),
            _ => out_of_turn(m),
        },
        EventView::Published => match m.phase {
            Phase::Publishing { record, delay_ms } => if record.remaining == 0 {
                settle(m.inbox)
            } else {
                Turn {
                    model: Model {
                        inbox: m.inbox,
                        phase: Phase::Sampling {
                            remaining: (record.remaining - 1) as u64,
                            delay_ms,
                        },
                    },
                    reports: Seq::empty(),
                }
            },
            _ => out_of_turn(m),
        },
        EventView::PublishFault => match m.phase {
            Phase::Publishing { record, .. } => give_up(
                m.inbox,
                ReportView::PublishFault { remaining: record.remaining },
            ),
            _ => out_of_turn(m),
        },
    }
}

/// Whether `m` is a state that a dispatcher can be in: while it is idle,
/// nothing waits in its queue.
pub open spec fn well_formed(m: Model) -> bool {
    m.phase is Idle ==> m.inbox.len() == 0
}

/// The queue leaves the dispatcher in a state it can be in.
pub proof fn lemma_settle_well_formed(inbox: Seq<Seq<char>>)
    ensures
        well_formed(settle(inbox).model),
    decreases inbox.len(),
{
    if inbox.len() > 0 {
        lemma_settle_well_formed(inbox.drop_first());
    }
}

/// A step leads from a state that a dispatcher can be in to another: an
/// idle dispatcher never holds a message back.
pub proof fn lemma_step_well_formed(c: Calibration, m: Model, event: EventView)
    requires
        well_formed(m),
    ensures
        well_formed(step(c, m, event).model),
{
    lemma_settle_well_formed(m.inbox);
    match event {
        EventView::Arrived(text) => {
            lemma_settle_well_formed(m.inbox.push(text));
        },
        _ => {},
    }
}

/// The dispatcher of one node.
pub struct Dispatcher {
    calibration: Calibration,
    inbox: VecDeque<String>,
    phase: Phase,
}

impl View for Dispatcher {
    type V = Model;

    closed spec fn view(&self) -> Model {
        Model { inbox: texts(self.inbox@), phase: self.phase }
    }
}

impl Dispatcher {
    /// The calibration that the dispatcher converts by.
    pub closed spec fn calibration(&self) -> Calibration {
        self.calibration
    }

    /// An idle dispatcher with an empty queue.
    pub fn new(calibration: Calibration) -> (dispatcher: Dispatcher)
        ensures
            dispatcher@ == (Model { inbox: Seq::empty(), phase: Phase::Idle }),
            dispatcher.calibration() == calibration,
            well_formed(dispatcher@),
    {
        let dispatcher = Dispatcher { calibration, inbox: VecDeque::new(), phase: Phase::Idle };
        assert(texts(dispatcher.inbox@) =~= Seq::empty());
        dispatcher
    }

    /// What the dispatcher waits for.
    pub fn phase(&self) -> (phase: Phase)
        ensures
            phase == self@.phase,
    {
        self.phase
    }

    /// How many messages wait in the queue.
    pub fn queued(&self) -> (n: usize)
        ensures
            n == self@.inbox.len(),
    {
        self.inbox.len()
    }

    /// Takes messages from the queue until one starts a measurement or none
    /// is left, and appends what is to be reported of them.
    fn settle_queue(&mut self, reports: &mut Vec<Report>)
        ensures
            final(self)@ == settle(old(self)@.inbox).model,
            final(self).calibration() == old(self).calibration(),
            report_views(final(reports)@) == report_views(old(reports)@) + settle(
                old(self)@.inbox,
            ).reports,
    {
        self.phase = Phase::Idle;
        let ghost goal = settle(old(self)@.inbox);
        let ghost before = report_views(old(reports)@);
        assert(report_views(reports@) + settle(self@.inbox).reports =~= before + goal.reports);
        while self.inbox.len() > 0
            invariant
                self.phase is Idle,
                self.calibration == old(self).calibration,
                goal == settle(old(self)@.inbox),
                before == report_views(old(reports)@),
                goal.model == settle(self@.inbox).model,
                before + goal.reports == report_views(reports@) + settle(self@.inbox).reports,
            decreases self.inbox.len(),
        {
            let ghost queue = self@.inbox;
            let ghost so_far = report_views(reports@);
            let text: String = match self.inbox.pop_front() {
                Some(text) => text,
                None => {
                    return ;
                },
            };
            assert(text@ == queue[0]);
            assert(self@.inbox =~= queue.drop_first());
            match parse_command(text.as_str()) {
                Ok(Command::Measure { amount, delay_ms }) => {
                    if amount > 0 {
                        self.phase = Phase::Sampling { remaining: amount - 1, delay_ms };
                        assert(so_far + settle(queue).reports =~= so_far);
                        return ;
                    }
                    assert(so_far + settle(queue).reports =~= so_far + settle(
                        queue.drop_first(),
                    ).reports);
                },
                Ok(Command::Unknown { verb }) => {
                    let report = Report::UnknownCommand(verb);
                    reports.push(report);
                    assert(report_views(reports@) =~= so_far.push(report@));
                    assert(so_far + settle(queue).reports =~= so_far.push(report@) + settle(
                        queue.drop_first(),
                    ).reports);
                },
                Err(e) => {
                    let report = Report::Rejected(e);
                    reports.push(report);
                    assert(report_views(reports@) =~= so_far.push(report@));
                    assert(so_far + settle(queue).reports =~= so_far.push(report@) + settle(
                        queue.drop_first(),
                    ).reports);
                },
            }
        }
        assert(self@.inbox =~= Seq::empty());
        assert(report_views(reports@) + settle(self@.inbox).reports =~= report_views(reports@));
    }

    /// Takes one event, and returns what is to be reported, in order.
    pub fn step(&mut self, event: Event) -> (reports: Vec<Report>)
        ensures
            final(self)@ == step(old(self).calibration(), old(self)@, event@).model,
            report_views(reports@) == step(old(self).calibration(), old(self)@, event@).reports,
            final(self).calibration() == old(self).calibration(),
            well_formed(old(self)@) ==> well_formed(final(self)@),
    {
        proof {
            if well_formed(self@) {
                lemma_step_well_formed(self.calibration, self@, event@);
            }
        }
        let mut reports: Vec<Report> = Vec::new();
        assert(report_views(reports@) =~= Seq::empty());
        match event {
            Event::Arrived(text) => {
                self.inbox.push_back(text);
                assert(self@.inbox =~= old(self)@.inbox.push(text@));
                if let Phase::Idle = self.phase {
                    self.settle_queue(&mut reports);
                    assert(report_views(reports@) =~= settle(old(self)@.inbox.push(text@)).reports);
                }
            },
            Event::Sampled(sample) => match self.phase {
                Phase::Sampling { remaining, delay_ms } => {
                    let value_hundredths: i64 = self.calibration.convert(sample.reading);
                    self.phase = Phase::Publishing {
                        record: TelemetryRecord {
                            remaining,
                            value_hundredths,
                            uptime_ms: sample.uptime_ms,
                        },
                        delay_ms,
                    };
                },
                _ => {
                    reports.push(Report::OutOfTurn);
                    assert(report_views(reports@) =~= seq![ReportView::OutOfTurn]);
                },
            },
            Event::SensorFault => match self.phase {
                Phase::Sampling { remaining, .. } => {
                    reports.push(Report::SensorFault { remaining });
                    assert(report_views(reports@) =~= seq![ReportView::SensorFault { remaining }]);
                    self.settle_queue(&mut reports);
                },
                _ => {
                    reports.push(Report::OutOfTurn);
                    assert(report_views(reports@) =~= seq![ReportView::OutOfTurn]);
                },
            },
            Event::Published => match self.phase {
                Phase::Publishing { record, delay_ms } => {
                    if record.remaining == 0 {
                        self.settle_queue(&mut reports);
                        assert(report_views(reports@) =~= settle(old(self)@.inbox).reports);
                    } else {
                        self.phase = Phase::Sampling { remaining: record.remaining - 1, delay_ms };
                    }
                },
                _ => {
                    reports.push(Report::OutOfTurn);
                    assert(report_views(reports@) =~= seq![ReportView::OutOfTurn]);
                },
            },
            Event::PublishFault => match self.phase {
                Phase::Publishing { record, .. } => {
                    reports.push(Report::PublishFault { remaining: record.remaining });
                    assert(report_views(reports@) =~= seq![
                        ReportView::PublishFault { remaining: record.remaining },
                    ]);
                    self.settle_queue(&mut reports);
                },
                _ => {
                    reports.push(Report::OutOfTurn);
                    assert(report_views(reports@) =~= seq![ReportView::OutOfTurn]);
                },
            },
        }
        reports
    }
}

} // verus!
