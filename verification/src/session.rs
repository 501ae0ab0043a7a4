//! Waiting for the answer to one query.

use crate::response;
use crate::response::{validate_dns_response, DnsValidationError};
use crate::wire::DNS_HEADER_LEN;
use vstd::prelude::*;

verus! {

/// How the wait for an answer ended.
#[derive(Clone, Copy, Debug, PartialEq, Eq, Structural)]
pub enum RecvResult {
    /// The answer came.
    Match,
    /// Something came, but not the answer.
    Mismatch,
    /// Nothing came.
    Timeout,
}

impl RecvResult {
    /// The exit status of a probe that ended so: zero for an answer, one for anything else.
    pub fn exit_code(self) -> (code: i32)
        ensures
            code == if self is Match {
                0i32
            } else {
                1i32
            },
    {
        match self {
            RecvResult::Match => 0,
            RecvResult::Mismatch => 1,
            RecvResult::Timeout => 1,
        }
    }
}

/// Whether the deadline of a wait has passed: strictly more time has gone by since its start, in
/// nanoseconds, than the timeout allows, in milliseconds.
pub fn deadline_passed(elapsed_ns: u128, timeout_ms: u64) -> (past: bool)
    ensures
        past == (elapsed_ns > timeout_ms * 1_000_000),
{
    elapsed_ns > timeout_ms as u128 * 1_000_000
}

/// What one turn of waiting brought.
pub enum RecvEvent<'a> {
    /// The deadline had passed, and nothing more was received.
    Expired,
    /// A packet was received.
    Packet(&'a [u8]),
    /// Receiving failed, or timed out before the deadline.
    NoPacket,
}

/// What to do after one turn of waiting.
pub enum RecvStep {
    /// Receive again.
    Retry,
    /// The packet belongs to another query. Receive again.
    Skip,
    /// The packet belongs to this query but does not answer it, for the reason given. The wait
    /// ends with a mismatch.
    Reject(&'static str),
    /// The wait ends.
    Finish(RecvResult),
}

impl RecvStep {
    /// How the wait ended, if it did.
    pub open spec fn spec_result(self) -> Option<RecvResult> {
        match self {
            RecvStep::Retry => None,
            RecvStep::Skip => None,
            RecvStep::Reject(_) => Some(RecvResult::Mismatch),
            RecvStep::Finish(result) => Some(result),
        }
    }

    /// How the wait ended, if it did.
    pub fn result(&self) -> (result: Option<RecvResult>)
        ensures
            result == self.spec_result(),
            self is Retry || self is Skip ==> result is None,
            self is Reject ==> result == Some(RecvResult::Mismatch),
            *self matches RecvStep::Finish(ended) ==> result == Some(ended),
    {
        match self {
            RecvStep::Retry => None,
            RecvStep::Skip => None,
            RecvStep::Reject(_) => Some(RecvResult::Mismatch),
            RecvStep::Finish(result) => Some(*result),
        }
    }
}

/// [`RecvEvent`] with the bytes of the packet.
pub ghost enum Event {
    Expired,
    Packet(Seq<u8>),
    NoPacket,
}

impl<'a> View for RecvEvent<'a> {
    type V = Event;

    open spec fn view(&self) -> Event {
        match self {
            RecvEvent::Expired => Event::Expired,
            RecvEvent::Packet(packet) => Event::Packet(packet@),
            RecvEvent::NoPacket => Event::NoPacket,
        }
    }
}

/// The query that is waited for: the packet that was sent, and the id in it.
pub ghost struct Sent {
    pub request: Seq<u8>,
    pub txid: u16,
}

/// How an event ends the wait, if it does. Only a packet that answers the query ends it well. A
/// packet with another id, and a failure to receive, do not end it. At the deadline it matters
/// whether any packet was seen.
pub open spec fn outcome(sent: Sent, saw_packet: bool, event: Event) -> Option<RecvResult> {
    match event {
        Event::Expired => Some(
            if saw_packet {
                RecvResult::Mismatch
            } else {
                RecvResult::Timeout
            },
        ),
        Event::NoPacket => None,
        Event::Packet(packet) => match response::response_fault(packet, sent.request, sent.txid) {
            None => Some(RecvResult::Match),
            Some(response::Fault::OtherTxid) => None,
            Some(_) => Some(RecvResult::Mismatch),
        },
    }
}

/// The wait for the answer to one query.
pub struct RecvSession<'a> {
    request: &'a [u8],
    txid: u16,
    saw_packet: bool,
}

impl<'a> RecvSession<'a> {
    /// The query that is waited for.
    pub closed spec fn sent(self) -> Sent {
        Sent { request: self.request@, txid: self.txid }
    }

    /// Whether a packet was seen.
    pub closed spec fn saw_packet(self) -> bool {
        self.saw_packet
    }

    /// Starts to wait. No packet was seen yet.
    pub fn new(request: &'a [u8], txid: u16) -> (session: RecvSession<'a>)
        ensures
            session.sent() == (Sent { request: request@, txid }),
            !session.saw_packet(),
    {
        RecvSession { request, txid, saw_packet: false }
    }

    /// Takes in what one turn of waiting brought, and says what to do next. A packet with nothing
    /// wrong in itself is held against the request, which must then have a header.
    pub fn step(&mut self, event: RecvEvent<'_>) -> (step: RecvStep)
        requires
            event@ matches Event::Packet(packet) ==> response::packet_fault(
                packet,
                old(self).sent().txid,
            ) is None ==> old(self).sent().request.len() >= DNS_HEADER_LEN,
        ensures
            final(self).sent() == old(self).sent(),
            final(self).saw_packet() == (old(self).saw_packet() || event@ is Packet),
            step.spec_result() == outcome(old(self).sent(), old(self).saw_packet(), event@),
            step is Retry <==> event@ is NoPacket,
            step is Skip <==> (event@ matches Event::Packet(packet) && response::response_fault(
                packet,
                old(self).sent().request,
                old(self).sent().txid,
            ) == Some(response::Fault::OtherTxid)),
            step matches RecvStep::Reject(text) ==> (event@ matches Event::Packet(packet)
                && text@ == response::reason(
                response::response_fault(
                    packet,
                    old(self).sent().request,
                    old(self).sent().txid,
                )->0,
            )),
            step == RecvStep::Finish(RecvResult::Mismatch) ==> event@ is Expired,
            event is Packet ==> final(self).saw_packet(),
            event !is Packet ==> final(self).saw_packet() == old(self).saw_packet(),
            event is NoPacket ==> step is Retry,
            event is Expired && old(self).saw_packet() ==> step == RecvStep::Finish(
                RecvResult::Mismatch,
            ),
            event is Expired && !old(self).saw_packet() ==> step == RecvStep::Finish(
                RecvResult::Timeout,
            ),
            event matches RecvEvent::Packet(packet) ==> if packet@.len() >= 12 && packet@[0] * 256
                + packet@[1] != old(self).sent().txid {
                step is Skip
            } else {
                match response::response_fault(
                    packet@,
                    old(self).sent().request,
                    old(self).sent().txid,
                ) {
                    None => step == RecvStep::Finish(RecvResult::Match),
                    Some(fault) => step matches RecvStep::Reject(text) && text@
                        == response::reason(fault),
                }
            },
    {
        match event {
            RecvEvent::Expired => if self.saw_packet {
                RecvStep::Finish(RecvResult::Mismatch)
            } else {
                RecvStep::Finish(RecvResult::Timeout)
            },
            RecvEvent::NoPacket => RecvStep::Retry,
            RecvEvent::Packet(packet) => {
                self.saw_packet = true;
                match validate_dns_response(packet, self.request, self.txid) {
                    Ok(()) => RecvStep::Finish(RecvResult::Match),
                    Err(DnsValidationError::Mismatch(reason)) => RecvStep::Reject(reason),
                    Err(DnsValidationError::TxidMismatch) => RecvStep::Skip,
                }
            },
        }
    }
}

/// How a wait ends over a sequence of events, if it does: the first event with an outcome decides.
pub open spec fn run(sent: Sent, saw_packet: bool, events: Seq<Event>) -> Option<RecvResult>
    decreases events.len(),
{
    if events.len() == 0 {
        None
    } else {
        match outcome(sent, saw_packet, events[0]) {
            Some(result) => Some(result),
            None => run(sent, saw_packet || events[0] is Packet, events.drop_first()),
        }
    }
}

/// A wait over a sequence of events is what [`RecvSession::step`] makes of them one by one: the
/// step on the first event ends it, or it goes on with the rest from the state after that step.
pub proof fn run_is_step_by_step(sent: Sent, saw_packet: bool, event: Event, later: Seq<Event>)
    ensures
        run(sent, saw_packet, seq![event] + later) == match outcome(sent, saw_packet, event) {
            Some(result) => Some(result),
            None => run(sent, saw_packet || event is Packet, later),
        },
{
    assert((seq![event] + later).drop_first() =~= later);
}

/// Whether an event leaves the wait going on: a failure to receive, or another query's packet.
pub open spec fn passed_over(sent: Sent, event: Event) -> bool {
    match event {
        Event::Expired => false,
        Event::NoPacket => true,
        Event::Packet(packet) => response::response_fault(packet, sent.request, sent.txid) == Some(
            response::Fault::OtherTxid,
        ),
    }
}

/// Whether there is a packet among events.
pub open spec fn any_packet(events: Seq<Event>) -> bool {
    exists|i: int| 0 <= i < events.len() && events[i] is Packet
}

/// Failures to receive and other queries' packets never end the wait, however many they are.
pub proof fn wait_goes_on_while_passed_over(sent: Sent, saw_packet: bool, events: Seq<Event>)
    requires
        forall|i: int| 0 <= i < events.len() ==> passed_over(sent, #[trigger] events[i]),
    ensures
        run(sent, saw_packet, events) is None,
    decreases events.len(),
{
    if events.len() > 0 {
        assert(passed_over(sent, events[0]));
        wait_goes_on_while_passed_over(
            sent,
            saw_packet || events[0] is Packet,
            events.drop_first(),
        );
    }
}

/// The first event that is not passed over ends the wait. What came before it matters only in
/// whether it held a packet.
pub proof fn first_other_event_decides(
    sent: Sent,
    saw_packet: bool,
    events: Seq<Event>,
    at: int,
)
    requires
        0 <= at < events.len(),
        forall|i: int| 0 <= i < at ==> passed_over(sent, #[trigger] events[i]),
        !passed_over(sent, events[at]),
    ensures
        run(sent, saw_packet, events) is Some,
        run(sent, saw_packet, events) == outcome(
            sent,
            saw_packet || any_packet(events.take(at)),
            events[at],
        ),
    decreases events.len(),
{
    let before = events.take(at);
    if at > 0 {
        assert(passed_over(sent, events[0]));
        let rest = events.drop_first();
        let between = rest.take(at - 1);
        first_other_event_decides(sent, saw_packet || events[0] is Packet, rest, at - 1);
        assert(any_packet(before) == (events[0] is Packet || any_packet(between))) by {
            if events[0] is Packet {
                assert(before[0] is Packet);
            }
            if any_packet(between) {
                let i = choose|i: int| 0 <= i < between.len() && between[i] is Packet;
                assert(before[i + 1] is Packet);
            }
            if any_packet(before) && !(events[0] is Packet) {
                let i = choose|i: int| 0 <= i < before.len() && before[i] is Packet;
                assert(between[i - 1] is Packet);
            }
        }
    } else {
        assert(!any_packet(before));
    }
}

/// The index of the event that ended a wait.
proof fn lemma_deciding_event(sent: Sent, saw_packet: bool, events: Seq<Event>) -> (at: int)
    requires
        run(sent, saw_packet, events) is Some,
    ensures
        0 <= at < events.len(),
        forall|i: int| 0 <= i < at ==> passed_over(sent, #[trigger] events[i]),
        !passed_over(sent, events[at]),
    decreases events.len(),
{
    if passed_over(sent, events[0]) {
        let rest = events.drop_first();
        let at = lemma_deciding_event(sent, saw_packet || events[0] is Packet, rest);
        assert forall|i: int| 0 <= i < at + 1 implies passed_over(sent, #[trigger] events[i]) by {
            if i > 0 {
                assert(passed_over(sent, rest[i - 1]));
            }
        }
        at + 1
    } else {
        0
    }
}

/// A wait ends with a match only on a packet that answers the query, before which there was none
/// that was neither the answer nor another query's.
pub proof fn match_means_an_answer_came(sent: Sent, events: Seq<Event>)
    ensures
        run(sent, false, events) == Some(RecvResult::Match) <==> exists|at: int|
            #![trigger events[at]]
            {
                &&& 0 <= at < events.len()
                &&& forall|i: int| 0 <= i < at ==> passed_over(sent, #[trigger] events[i])
                &&& events[at] matches Event::Packet(packet) && response::response_fault(
                    packet,
                    sent.request,
                    sent.txid,
                ) is None
            },
{
    if run(sent, false, events) == Some(RecvResult::Match) {
        let at = lemma_deciding_event(sent, false, events);
        first_other_event_decides(sent, false, events, at);
        assert(!passed_over(sent, events[at]));
    }
    assert forall|at: int|
        #![trigger events[at]]
        {
            &&& 0 <= at < events.len()
            &&& forall|i: int| 0 <= i < at ==> passed_over(sent, #[trigger] events[i])
            &&& events[at] matches Event::Packet(packet) && response::response_fault(
                packet,
                sent.request,
                sent.txid,
            ) is None
        } implies run(sent, false, events) == Some(RecvResult::Match) by {
        first_other_event_decides(sent, false, events, at);
    }
}

/// A wait ends with a timeout exactly when the deadline passes and no packet came before it.
pub proof fn timeout_means_silence(sent: Sent, events: Seq<Event>)
    ensures
        run(sent, false, events) == Some(RecvResult::Timeout) <==> exists|at: int|
            #![trigger events[at]]
            {
                &&& 0 <= at < events.len()
                &&& events[at] is Expired
                &&& forall|i: int| 0 <= i < at ==> #[trigger] events[i] is NoPacket
            },
{
    if run(sent, false, events) == Some(RecvResult::Timeout) {
        let at = lemma_deciding_event(sent, false, events);
        first_other_event_decides(sent, false, events, at);
        assert(events[at] is Expired);
        assert forall|i: int| 0 <= i < at implies #[trigger] events[i] is NoPacket by {
            assert(passed_over(sent, events[i]));
            assert(!(events.take(at)[i] is Packet));
        }
    }
    assert forall|at: int|
        #![trigger events[at]]
        {
            &&& 0 <= at < events.len()
            &&& events[at] is Expired
            &&& forall|i: int| 0 <= i < at ==> #[trigger] events[i] is NoPacket
        } implies run(sent, false, events) == Some(RecvResult::Timeout) by {
        first_other_event_decides(sent, false, events, at);
        assert(!any_packet(events.take(at)));
    }
}

/// A wait ends with a mismatch exactly when a packet of the query does not answer it, or when the
/// deadline passes after other queries' packets.
pub proof fn mismatch_means_a_wrong_packet_came(sent: Sent, events: Seq<Event>)
    ensures
        run(sent, false, events) == Some(RecvResult::Mismatch) <==> exists|at: int|
            #![trigger events[at]]
            {
                &&& 0 <= at < events.len()
                &&& forall|i: int| 0 <= i < at ==> passed_over(sent, #[trigger] events[i])
                &&& match events[at] {
                    Event::Expired => any_packet(events.take(at)),
                    Event::NoPacket => false,
                    Event::Packet(packet) => {
                        let fault = response::response_fault(packet, sent.request, sent.txid);
                        fault is Some && fault != Some(response::Fault::OtherTxid)
                    },
                }
            },
{
    if run(sent, false, events) == Some(RecvResult::Mismatch) {
        let at = lemma_deciding_event(sent, false, events);
        first_other_event_decides(sent, false, events, at);
        assert(!passed_over(sent, events[at]));
    }
    assert forall|at: int|
        #![trigger events[at]]
        {
            &&& 0 <= at < events.len()
            &&& forall|i: int| 0 <= i < at ==> passed_over(sent, #[trigger] events[i])
            &&& match events[at] {
                Event::Expired => any_packet(events.take(at)),
                Event::NoPacket => false,
                Event::Packet(packet) => {
                    let fault = response::response_fault(packet, sent.request, sent.txid);
                    fault is Some && fault != Some(response::Fault::OtherTxid)
                },
            }
        } implies run(sent, false, events) == Some(RecvResult::Mismatch) by {
        first_other_event_decides(sent, false, events, at);
    }
}

} // verus!
