//! Runs of the dispatcher: what a sequence of events comes to, and what holds
//! of every run of a measurement.

use vstd::prelude::*;
use crate::command::{read_command, CommandView, ParseErrorView};
use crate::calibration::Calibration;
use crate::dispatcher::{opening_phase, opening_reports, sampled_record, settle, step,
    EventView, Model, Phase, ReportView, Sample};
use crate::telemetry::TelemetryRecord;

verus! {

/// What a run comes to: the dispatcher after it, what was reported, and the
/// records whose sending was acknowledged, each in order.
pub struct Trace {
    pub model: Model,
    pub reports: Seq<ReportView>,
    pub published: Seq<TelemetryRecord>,
}

/// The record whose sending `event` acknowledges, if it does.
pub open spec fn acknowledged(m: Model, event: EventView) -> Seq<TelemetryRecord> {
    match m.phase {
        Phase::Publishing { record, .. } => if event is Published {
            seq![record]
        } else {
            Seq::empty()
        },
        _ => Seq::empty(),
    }
}

/// The dispatcher `m`, which converts by `c`, taking `events` one after the
/// other.
pub open spec fn run(c: Calibration, m: Model, events: Seq<EventView>) -> Trace
    decreases events.len(),
{
    if events.len() == 0 {
        Trace { model: m, reports: Seq::empty(), published: Seq::empty() }
    } else {
        let turn = step(c, m, events[0]);
        let rest = run(c, turn.model, events.drop_first());
        Trace {
            model: rest.model,
            reports: turn.reports + rest.reports,
            published: acknowledged(m, events[0]) + rest.published,
        }
    }
}

/// The events of a measurement on which nothing fails: each sample is taken
/// and its record is sent.
pub open spec fn answers(samples: Seq<Sample>) -> Seq<EventView>
    decreases samples.len(),
{
    if samples.len() == 0 {
        Seq::empty()
    } else {
        seq![EventView::Sampled(samples[0]), EventView::Published] + answers(
            samples.drop_first(),
        )
    }
}

/// The records of a measurement that takes `samples`: one for each, in
/// order, converted by `c` and counting down to zero.
pub open spec fn countdown(c: Calibration, samples: Seq<Sample>) -> Seq<TelemetryRecord> {
    Seq::new(
        samples.len(),
        |i: int| sampled_record(c, (samples.len() - 1 - i) as u64, samples[i]),
    )
}

/// A run in two parts is the run of the first part followed, from where
/// that one ends, by the run of the second.
pub proof fn lemma_run_in_two_parts(
    c: Calibration,
    m: Model,
    first: Seq<EventView>,
    second: Seq<EventView>,
)
    ensures
        run(c, m, first + second) == (Trace {
            model: run(c, run(c, m, first).model, second).model,
            reports: run(c, m, first).reports + run(c, run(c, m, first).model, second).reports,
            published: run(c, m, first).published + run(
                c,
                run(c, m, first).model,
                second,
            ).published,
        }),
    decreases first.len(),
{
    let whole = run(c, m, first + second);
    let head = run(c, m, first);
    let tail = run(c, head.model, second);
    if first.len() == 0 {
        assert(first + second =~= second);
        assert(whole.reports =~= head.reports + tail.reports);
        assert(whole.published =~= head.published + tail.published);
    } else {
        let next = step(c, m, first[0]).model;
        assert((first + second).drop_first() =~= first.drop_first() + second);
        lemma_run_in_two_parts(c, next, first.drop_first(), second);
        assert(whole.reports =~= head.reports + tail.reports);
        assert(whole.published =~= head.published + tail.published);
    }
}

/// The events of messages arriving one after the other.
pub open spec fn arrivals(texts: Seq<Seq<char>>) -> Seq<EventView> {
    Seq::new(texts.len(), |i: int| EventView::Arrived(texts[i]))
}

/// What is reported of messages that are taken from the queue one after the
/// other, in that order.
pub open spec fn dropped_reports(messages: Seq<Seq<char>>) -> Seq<ReportView>
    decreases messages.len(),
{
    if messages.len() == 0 {
        Seq::empty()
    } else {
        opening_reports(messages[0]) + dropped_reports(messages.drop_first())
    }
}

/// Messages that arrive while the dispatcher is not idle, however many, join
/// the queue in the order of their arrival, behind those that wait already.
/// Nothing else changes, and nothing is reported or published.
pub proof fn lemma_arrivals_wait_in_order(c: Calibration, m: Model, texts: Seq<Seq<char>>)
    requires
        !(m.phase is Idle),
    ensures
        run(c, m, arrivals(texts)) == (Trace {
            model: Model { inbox: m.inbox + texts, phase: m.phase },
            reports: Seq::empty(),
            published: Seq::empty(),
        }),
    decreases texts.len(),
{
    let result = run(c, m, arrivals(texts));
    if texts.len() == 0 {
        assert(m.inbox + texts =~= m.inbox);
    } else {
        let next = Model { inbox: m.inbox.push(texts[0]), phase: m.phase };
        assert(arrivals(texts)[0] == EventView::Arrived(texts[0]));
        assert(arrivals(texts).drop_first() =~= arrivals(texts.drop_first()));
        assert(step(c, m, arrivals(texts)[0]).model == next);
        lemma_arrivals_wait_in_order(c, next, texts.drop_first());
        assert(next.inbox + texts.drop_first() =~= m.inbox + texts);
        assert(result.reports =~= Seq::empty());
        assert(result.published =~= Seq::empty());
    }
}

/// An idle dispatcher takes its queue from the front. With `k` the place of
/// the first message that starts a measurement, the messages before it are
/// reported on in their order, that measurement starts, and the messages
/// behind it stay in the queue in their order. Where no message starts a
/// measurement, all are reported on and the dispatcher stays idle.
pub proof fn lemma_queue_taken_in_order(inbox: Seq<Seq<char>>, k: int)
    requires
        0 <= k <= inbox.len(),
        forall|i: int| 0 <= i < k ==> opening_phase(#[trigger] inbox[i]) is Idle,
        k < inbox.len() ==> !(opening_phase(inbox[k]) is Idle),
    ensures
        settle(inbox).reports == dropped_reports(inbox.take(k)),
        k < inbox.len() ==> settle(inbox).model == (Model {
            inbox: inbox.skip(k + 1),
            phase: opening_phase(inbox[k]),
        }),
        k == inbox.len() ==> settle(inbox).model == (Model {
            inbox: Seq::empty(),
            phase: Phase::Idle,
        }),
    decreases k,
{
    if k == 0 {
        assert(inbox.take(0) =~= Seq::empty());
        if inbox.len() > 0 {
            assert(inbox.skip(1) =~= inbox.drop_first());
            assert(opening_reports(inbox[0]) =~= Seq::empty());
        } else {
            assert(inbox =~= Seq::empty());
        }
    } else {
        let rest = inbox.drop_first();
        assert forall|i: int| 0 <= i < k - 1 implies opening_phase(#[trigger] rest[i]) is Idle by {
            assert(rest[i] == inbox[i + 1]);
        }
        lemma_queue_taken_in_order(rest, k - 1);
        assert(inbox.take(k)[0] == inbox[0]);
        assert(inbox.take(k).drop_first() =~= rest.take(k - 1));
        if k < inbox.len() {
            assert(rest.skip(k) =~= inbox.skip(k + 1));
            assert(rest[k - 1] == inbox[k]);
        }
    }
}

/// Two events are answered for each sample.
pub proof fn lemma_answers_len(samples: Seq<Sample>)
    ensures
        answers(samples).len() == 2 * samples.len(),
    decreases samples.len(),
{
    if samples.len() > 0 {
        lemma_answers_len(samples.drop_first());
    }
}

/// A measurement on which nothing fails publishes one record for each
/// sample, counting down to zero, and reports nothing of its own; then the
/// dispatcher goes on with its queue, and reports what the queue gives.
pub proof fn lemma_measurement_counts_down(
    c: Calibration,
    inbox: Seq<Seq<char>>,
    remaining: u64,
    delay_ms: u64,
    samples: Seq<Sample>,
)
    requires
        samples.len() == remaining + 1,
    ensures
        run(
            c,
            Model { inbox, phase: Phase::Sampling { remaining, delay_ms } },
            answers(samples),
        ) == (Trace {
            model: settle(inbox).model,
            reports: settle(inbox).reports,
            published: countdown(c, samples),
        }),
    decreases samples.len(),
{
    let m = Model { inbox, phase: Phase::Sampling { remaining, delay_ms } };
    let events = answers(samples);
    let record = sampled_record(c, remaining, samples[0]);
    let m1 = Model { inbox, phase: Phase::Publishing { record, delay_ms } };
    let later = answers(samples.drop_first());
    assert(events.drop_first() =~= seq![EventView::Published] + later);
    assert(events.drop_first().drop_first() =~= later);
    assert(step(c, m, events[0]).model == m1);
    let m2 = step(c, m1, EventView::Published).model;
    let tail = run(c, m2, later);
    assert(run(c, m1, events.drop_first()).model == tail.model);
    let result = run(c, m, events);
    if remaining == 0 {
        assert(samples.drop_first() =~= Seq::empty());
        assert(later =~= Seq::empty());
        assert(result.reports =~= settle(inbox).reports);
        assert(result.published =~= countdown(c, samples));
    } else {
        lemma_measurement_counts_down(
            c,
            inbox,
            (remaining - 1) as u64,
            delay_ms,
            samples.drop_first(),
        );
        assert(result.reports =~= settle(inbox).reports);
        assert(result.published =~= seq![record] + countdown(c, samples.drop_first()));
        assert(seq![record] + countdown(c, samples.drop_first()) =~= countdown(c, samples));
    }
}

/// A `measure` command that reaches an idle dispatcher, on which nothing
/// fails, publishes as many records as its amount, counting down from the
/// amount less one to zero, and reports nothing; with an amount of zero it
/// publishes nothing. Afterwards the dispatcher is idle again.
pub proof fn lemma_measure_publishes_amount(
    c: Calibration,
    text: Seq<char>,
    amount: u64,
    delay_ms: u64,
    samples: Seq<Sample>,
)
    requires
        read_command(text) == Ok::<CommandView, ParseErrorView>(
            CommandView::Measure { amount, delay_ms },
        ),
        samples.len() == amount,
    ensures
        run(
            c,
            Model { inbox: Seq::empty(), phase: Phase::Idle },
            seq![EventView::Arrived(text)] + answers(samples),
        ) == (Trace {
            model: Model { inbox: Seq::empty(), phase: Phase::Idle },
            reports: Seq::empty(),
            published: countdown(c, samples),
        }),
        countdown(c, samples).len() == amount,
        forall|i: int|
            0 <= i < amount ==> (#[trigger] countdown(c, samples)[i]).remaining == amount - 1 - i,
{
    let idle = Model { inbox: Seq::<Seq<char>>::empty(), phase: Phase::Idle };
    let events = seq![EventView::Arrived(text)] + answers(samples);
    assert(events.drop_first() =~= answers(samples));
    let queue = idle.inbox.push(text);
    assert(queue.drop_first() =~= Seq::<Seq<char>>::empty());
    let turn = step(c, idle, events[0]);
    assert(turn == settle(queue));
    let result = run(c, idle, events);
    if amount == 0 {
        assert(answers(samples) =~= Seq::empty());
        assert(settle(queue.drop_first()).reports =~= Seq::empty());
        assert(settle(queue.drop_first()).model == idle);
        assert(turn.reports =~= Seq::empty());
        assert(turn.model == idle);
        let rest = run(c, turn.model, events.drop_first());
        assert(events.drop_first().len() == 0);
        assert(rest.reports =~= Seq::empty());
        assert(rest.published =~= Seq::empty());
        assert(result.reports =~= Seq::empty());
        assert(result.published =~= countdown(c, samples));
    } else {
        lemma_measurement_counts_down(
            c,
            Seq::empty(),
            (amount - 1) as u64,
            delay_ms,
            samples,
        );
        assert(turn.model == (Model {
            inbox: Seq::empty(),
            phase: Phase::Sampling { remaining: (amount - 1) as u64, delay_ms },
        }));
        assert(result.reports =~= Seq::empty());
        assert(result.published =~= countdown(c, samples));
    }
}

/// A message that arrives while a measurement runs changes nothing of that
/// measurement: whenever it arrives before the last record is acknowledged,
/// the same records are published in the same order. When the last is
/// acknowledged the dispatcher goes on with its queue, in which the message
/// stands behind those that waited before it. That nothing is reported
/// earlier is [`lemma_arrival_is_silent_until_last`].
pub proof fn lemma_arrival_waits_its_turn(
    c: Calibration,
    inbox: Seq<Seq<char>>,
    remaining: u64,
    delay_ms: u64,
    samples: Seq<Sample>,
    text: Seq<char>,
    at: int,
)
    requires
        samples.len() == remaining + 1,
        0 <= at < answers(samples).len(),
    ensures
        run(
            c,
            Model { inbox, phase: Phase::Sampling { remaining, delay_ms } },
            answers(samples).insert(at, EventView::Arrived(text)),
        ) == (Trace {
            model: settle(inbox.push(text)).model,
            reports: settle(inbox.push(text)).reports,
            published: countdown(c, samples),
        }),
    decreases samples.len(),
{
    let m = Model { inbox, phase: Phase::Sampling { remaining, delay_ms } };
    let plain = answers(samples);
    let arrival = EventView::Arrived(text);
    let events = plain.insert(at, arrival);
    let later = answers(samples.drop_first());
    let record = sampled_record(c, remaining, samples[0]);
    let grown = inbox.push(text);
    let result = run(c, m, events);
    lemma_answers_len(samples);
    assert(plain.drop_first() =~= seq![EventView::Published] + later);
    assert(plain.drop_first().drop_first() =~= later);
    if at == 0 {
        assert(events[0] == arrival);
        assert(events.drop_first() =~= plain);
        lemma_measurement_counts_down(c, grown, remaining, delay_ms, samples);
        assert(result.reports =~= settle(grown).reports);
        assert(result.published =~= countdown(c, samples));
    } else if at == 1 {
        let m1 = Model { inbox, phase: Phase::Publishing { record, delay_ms } };
        let m2 = Model { inbox: grown, phase: Phase::Publishing { record, delay_ms } };
        assert(events[0] == EventView::Sampled(samples[0]));
        assert(events.drop_first()[0] == arrival);
        assert(events.drop_first().drop_first() =~= seq![EventView::Published] + later);
        assert(events.drop_first().drop_first().drop_first() =~= later);
        assert(step(c, m, events[0]).model == m1);
        assert(step(c, m1, arrival).model == m2);
        let after = run(c, m2, events.drop_first().drop_first());
        assert(run(c, m1, events.drop_first()).model == after.model);
        let m3 = step(c, m2, EventView::Published).model;
        assert(after.model == run(c, m3, later).model);
        if remaining == 0 {
            assert(samples.drop_first() =~= Seq::empty());
            assert(later =~= Seq::empty());
        } else {
            lemma_measurement_counts_down(
                c,
                grown,
                (remaining - 1) as u64,
                delay_ms,
                samples.drop_first(),
            );
            assert(seq![record] + countdown(c, samples.drop_first()) =~= countdown(c, samples));
        }
        assert(result.reports =~= settle(grown).reports);
        assert(result.published =~= countdown(c, samples));
    } else {
        let m1 = Model { inbox, phase: Phase::Publishing { record, delay_ms } };
        let m2 = Model {
            inbox,
            phase: Phase::Sampling { remaining: (remaining - 1) as u64, delay_ms },
        };
        lemma_answers_len(samples.drop_first());
        assert(events[0] == EventView::Sampled(samples[0]));
        assert(events.drop_first()[0] == EventView::Published);
        assert(events.drop_first().drop_first() =~= later.insert(at - 2, arrival));
        assert(step(c, m, events[0]).model == m1);
        assert(step(c, m1, EventView::Published).model == m2);
        let after = run(c, m2, events.drop_first().drop_first());
        assert(run(c, m1, events.drop_first()).model == after.model);
        lemma_arrival_waits_its_turn(
            c,
            inbox,
            (remaining - 1) as u64,
            delay_ms,
            samples.drop_first(),
            text,
            at - 2,
        );
        assert(seq![record] + countdown(c, samples.drop_first()) =~= countdown(c, samples));
        assert(result.reports =~= settle(grown).reports);
        assert(result.published =~= countdown(c, samples));
    }
}

/// A second `measure` that arrives while a first one runs is served after
/// it: whenever it arrives before the last record of the first is
/// acknowledged, all records of the first are published, counting down to
/// zero, before any record of the second, and then those of the second, in
/// the same way. Nothing is reported, and the dispatcher ends idle.
pub proof fn lemma_measures_do_not_overlap(
    c: Calibration,
    first_delay_ms: u64,
    first_samples: Seq<Sample>,
    text: Seq<char>,
    amount: u64,
    delay_ms: u64,
    samples: Seq<Sample>,
    at: int,
)
    requires
        0 < first_samples.len() <= u64::MAX,
        0 <= at < answers(first_samples).len(),
        read_command(text) == Ok::<CommandView, ParseErrorView>(
            CommandView::Measure { amount, delay_ms },
        ),
        samples.len() == amount,
    ensures
        run(
            c,
            Model {
                inbox: Seq::empty(),
                phase: Phase::Sampling {
                    remaining: (first_samples.len() - 1) as u64,
                    delay_ms: first_delay_ms,
                },
            },
            answers(first_samples).insert(at, EventView::Arrived(text)) + answers(samples),
        ) == (Trace {
            model: Model { inbox: Seq::empty(), phase: Phase::Idle },
            reports: Seq::empty(),
            published: countdown(c, first_samples) + countdown(c, samples),
        }),
{
    let remaining = (first_samples.len() - 1) as u64;
    let start = Model {
        inbox: Seq::<Seq<char>>::empty(),
        phase: Phase::Sampling { remaining, delay_ms: first_delay_ms },
    };
    let idle = Model { inbox: Seq::<Seq<char>>::empty(), phase: Phase::Idle };
    let first = answers(first_samples).insert(at, EventView::Arrived(text));
    let second = answers(samples);
    lemma_arrival_waits_its_turn(c, start.inbox, remaining, first_delay_ms, first_samples, text, at);
    lemma_run_in_two_parts(c, start, first, second);
    let queue = start.inbox.push(text);
    assert(queue.drop_first() =~= Seq::<Seq<char>>::empty());
    let taken = settle(queue);
    assert(settle(queue.drop_first()).model == idle);
    assert(settle(queue.drop_first()).reports =~= Seq::empty());
    assert(taken.reports =~= Seq::empty());
    let whole = run(c, start, first + second);
    if amount == 0 {
        assert(taken.model == idle);
        assert(second =~= Seq::empty());
        assert(countdown(c, samples) =~= Seq::empty());
    } else {
        lemma_measurement_counts_down(c, Seq::empty(), (amount - 1) as u64, delay_ms, samples);
        assert(settle(Seq::<Seq<char>>::empty()).model == idle);
    }
    assert(whole.reports =~= Seq::empty());
    assert(whole.published =~= countdown(c, first_samples) + countdown(c, samples));
}

/// Up to the last acknowledgement, a measurement on which nothing fails
/// reports nothing, leaves the queue alone, and has published all records
/// but the last, which it waits to see sent.
pub proof fn lemma_measurement_is_silent_until_last(
    c: Calibration,
    inbox: Seq<Seq<char>>,
    remaining: u64,
    delay_ms: u64,
    samples: Seq<Sample>,
)
    requires
        samples.len() == remaining + 1,
    ensures
        run(
            c,
            Model { inbox, phase: Phase::Sampling { remaining, delay_ms } },
            answers(samples).drop_last(),
        ) == (Trace {
            model: Model {
                inbox,
                phase: Phase::Publishing {
                    record: sampled_record(c, 0, samples.last()),
                    delay_ms,
                },
            },
            reports: Seq::empty(),
            published: countdown(c, samples).drop_last(),
        }),
    decreases samples.len(),
{
    let m = Model { inbox, phase: Phase::Sampling { remaining, delay_ms } };
    let plain = answers(samples);
    let events = plain.drop_last();
    let later = answers(samples.drop_first());
    let record = sampled_record(c, remaining, samples[0]);
    let m1 = Model { inbox, phase: Phase::Publishing { record, delay_ms } };
    let result = run(c, m, events);
    lemma_answers_len(samples);
    lemma_answers_len(samples.drop_first());
    assert(plain =~= seq![EventView::Sampled(samples[0]), EventView::Published] + later);
    assert(events[0] == EventView::Sampled(samples[0]));
    assert(step(c, m, events[0]).model == m1);
    if remaining == 0 {
        assert(events.drop_first() =~= Seq::empty());
        assert(result.reports =~= Seq::empty());
        assert(result.published =~= countdown(c, samples).drop_last());
    } else {
        let m2 = Model {
            inbox,
            phase: Phase::Sampling { remaining: (remaining - 1) as u64, delay_ms },
        };
        assert(events.drop_first()[0] == EventView::Published);
        assert(events.drop_first().drop_first() =~= later.drop_last());
        assert(step(c, m1, EventView::Published).model == m2);
        let after = run(c, m2, events.drop_first().drop_first());
        assert(run(c, m1, events.drop_first()).model == after.model);
        lemma_measurement_is_silent_until_last(
            c,
            inbox,
            (remaining - 1) as u64,
            delay_ms,
            samples.drop_first(),
        );
        assert(samples.drop_first().last() == samples.last());
        assert(seq![record] + countdown(c, samples.drop_first()).drop_last() =~= countdown(
            c,
            samples,
        ).drop_last());
        assert(result.reports =~= Seq::empty());
        assert(result.published =~= countdown(c, samples).drop_last());
    }
}

/// A message that arrives while a measurement runs is not looked at before
/// the last record is acknowledged: until then nothing is reported, the
/// message waits at the back of the queue, and the records published are
/// those of the measurement, all but the last, which waits to be sent.
pub proof fn lemma_arrival_is_silent_until_last(
    c: Calibration,
    inbox: Seq<Seq<char>>,
    remaining: u64,
    delay_ms: u64,
    samples: Seq<Sample>,
    text: Seq<char>,
    at: int,
)
    requires
        samples.len() == remaining + 1,
        0 <= at < answers(samples).len(),
    ensures
        run(
            c,
            Model { inbox, phase: Phase::Sampling { remaining, delay_ms } },
            answers(samples).insert(at, EventView::Arrived(text)).drop_last(),
        ) == (Trace {
            model: Model {
                inbox: inbox.push(text),
                phase: Phase::Publishing {
                    record: sampled_record(c, 0, samples.last()),
                    delay_ms,
                },
            },
            reports: Seq::empty(),
            published: countdown(c, samples).drop_last(),
        }),
    decreases samples.len(),
{
    let m = Model { inbox, phase: Phase::Sampling { remaining, delay_ms } };
    let plain = answers(samples);
    let arrival = EventView::Arrived(text);
    let events = plain.insert(at, arrival).drop_last();
    let later = answers(samples.drop_first());
    let record = sampled_record(c, remaining, samples[0]);
    let grown = inbox.push(text);
    let result = run(c, m, events);
    lemma_answers_len(samples);
    lemma_answers_len(samples.drop_first());
    assert(plain =~= seq![EventView::Sampled(samples[0]), EventView::Published] + later);
    if at == 0 {
        assert(events[0] == arrival);
        assert(events.drop_first() =~= plain.drop_last());
        assert(step(c, m, arrival).model == (Model { inbox: grown, phase: m.phase }));
        lemma_measurement_is_silent_until_last(c, grown, remaining, delay_ms, samples);
        assert(result.reports =~= Seq::empty());
        assert(result.published =~= countdown(c, samples).drop_last());
    } else if at == 1 {
        let m1 = Model { inbox, phase: Phase::Publishing { record, delay_ms } };
        let m2 = Model { inbox: grown, phase: Phase::Publishing { record, delay_ms } };
        assert(events[0] == EventView::Sampled(samples[0]));
        assert(events.drop_first()[0] == arrival);
        assert(step(c, m, events[0]).model == m1);
        assert(step(c, m1, arrival).model == m2);
        let after = run(c, m2, events.drop_first().drop_first());
        assert(run(c, m1, events.drop_first()).model == after.model);
        if remaining == 0 {
            assert(events.drop_first().drop_first() =~= Seq::empty());
        } else {
            let m3 = Model {
                inbox: grown,
                phase: Phase::Sampling { remaining: (remaining - 1) as u64, delay_ms },
            };
            assert(events.drop_first().drop_first()[0] == EventView::Published);
            assert(events.drop_first().drop_first().drop_first() =~= later.drop_last());
            assert(step(c, m2, EventView::Published).model == m3);
            assert(after.model == run(c, m3, later.drop_last()).model);
            lemma_measurement_is_silent_until_last(
                c,
                grown,
                (remaining - 1) as u64,
                delay_ms,
                samples.drop_first(),
            );
            assert(samples.drop_first().last() == samples.last());
            assert(seq![record] + countdown(c, samples.drop_first()).drop_last() =~= countdown(
                c,
                samples,
            ).drop_last());
        }
        assert(result.reports =~= Seq::empty());
        assert(result.published =~= countdown(c, samples).drop_last());
    } else {
        let m1 = Model { inbox, phase: Phase::Publishing { record, delay_ms } };
        let m2 = Model {
            inbox,
            phase: Phase::Sampling { remaining: (remaining - 1) as u64, delay_ms },
        };
        assert(events[0] == EventView::Sampled(samples[0]));
        assert(events.drop_first()[0] == EventView::Published);
        assert(events.drop_first().drop_first() =~= later.insert(at - 2, arrival).drop_last());
        assert(step(c, m, events[0]).model == m1);
        assert(step(c, m1, EventView::Published).model == m2);
        let after = run(c, m2, events.drop_first().drop_first());
        assert(run(c, m1, events.drop_first()).model == after.model);
        lemma_arrival_is_silent_until_last(
            c,
            inbox,
            (remaining - 1) as u64,
            delay_ms,
            samples.drop_first(),
            text,
            at - 2,
        );
        assert(samples.drop_first().last() == samples.last());
        assert(seq![record] + countdown(c, samples.drop_first()).drop_last() =~= countdown(
            c,
            samples,
        ).drop_last());
        assert(result.reports =~= Seq::empty());
        assert(result.published =~= countdown(c, samples).drop_last());
    }
}

} // verus!
