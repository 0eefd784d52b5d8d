//! The filter on inbound transport events: which of them carry a message for
//! the command queue.

use vstd::prelude::*;
use vstd::string::StringExecFns;
use vstd::utf8::{decode_utf8, valid_utf8};

verus! {

/// An event of the transport, reduced to what the filter reads.
#[derive(Clone, Debug, PartialEq, Eq)]
pub enum InboundEvent {
    /// The connection to the broker stands.
    Connected,
    /// The broker acknowledged a subscription; the number names the request.
    Subscribed(u32),
    /// The broker acknowledged a publication; the number names the request.
    Published(u32),
    /// A message arrived on a subscribed topic, with these bytes as payload.
    Received(Vec<u8>),
    /// Any other event.
    Other,
}

/// What becomes of an inbound event.
#[derive(Clone, Debug, PartialEq, Eq)]
pub enum Intake {
    /// The payload is text: it goes to the back of the command queue.
    Forward(String),
    /// The event carries no message and is only noted.
    Noted,
    /// A message arrived without payload: nothing is done.
    Skipped,
    /// The payload is not UTF-8: it is reported and dropped.
    Undecodable,
    /// The event is of no expected kind: it is reported as an error.
    Unexpected,
}

/// An [`Intake`] with its text as a sequence of characters.
pub enum IntakeView {
    Forward(Seq<char>),
    Noted,
    Skipped,
    Undecodable,
    Unexpected,
}

impl View for Intake {
    type V = IntakeView;

    open spec fn view(&self) -> IntakeView {
        match *self {
            Intake::Forward(text) => IntakeView::Forward(text@),
            Intake::Noted => IntakeView::Noted,
            Intake::Skipped => IntakeView::Skipped,
            Intake::Undecodable => IntakeView::Undecodable,
            Intake::Unexpected => IntakeView::Unexpected,
        }
    }
}

/// What becomes of a payload: nothing where it is empty, the text it encodes
/// where it is UTF-8, and a report otherwise.
pub open spec fn payload_intake(data: Seq<u8>) -> IntakeView {
    if data.len() == 0 {
        IntakeView::Skipped
    } else if valid_utf8(data) {
        IntakeView::Forward(decode_utf8(data))
    } else {
        IntakeView::Undecodable
    }
}

/// What becomes of an event. Only a received message can reach the queue.
pub open spec fn event_intake(event: InboundEvent) -> IntakeView {
    match event {
        InboundEvent::Connected => IntakeView::Noted,
        InboundEvent::Subscribed(_) => IntakeView::Noted,
        InboundEvent::Published(_) => IntakeView::Noted,
        InboundEvent::Received(data) => payload_intake(data@),
        InboundEvent::Other => IntakeView::Unexpected,
    }
}

/// `std::str::from_utf8`, with its error dropped. The contract, which is not
/// proved here, says what the function is documented to do: it accepts exactly
/// the byte sequences that are well-formed UTF-8, and the text it returns is
/// the decoding of those bytes.
#[verifier::external_body]
fn utf8_text(data: &[u8]) -> (text: Option<&str>)
    ensures
        text is Some <==> valid_utf8(data@),
        text matches Some(t) ==> t@ == decode_utf8(data@),
{
    std::str::from_utf8(data).ok()
}

/// Decides what becomes of the payload of a received message.
pub fn ingest_payload(data: &[u8]) -> (intake: Intake)
    ensures
        intake@ == payload_intake(data@),
{
    if data.len() == 0 {
        return Intake::Skipped;
    }
    match utf8_text(data) {
        Some(text) => Intake::Forward(String::from_str(text)),
        None => Intake::Undecodable,
    }
}

/// Decides what becomes of an inbound event.
pub fn ingest(event: &InboundEvent) -> (intake: Intake)
    ensures
        intake@ == event_intake(*event),
{
    match event {
        InboundEvent::Connected => Intake::Noted,
        InboundEvent::Subscribed(_) => Intake::Noted,
        InboundEvent::Published(_) => Intake::Noted,
        InboundEvent::Received(data) => ingest_payload(data.as_slice()),
        InboundEvent::Other => Intake::Unexpected,
    }
}

} // verus!
