//! Whether a received packet answers the query that was sent.

use crate::question::dns_question_end;
use crate::wire::{read_u16, DNS_HEADER_LEN, DNS_QUESTION_TRAILER_LEN};
use crate::{address, name, query, question, wire};
use vstd::prelude::*;

verus! {

/// Why a packet is not the answer.
#[derive(Debug)]
pub enum DnsValidationError {
    /// It belongs to a query with another id.
    TxidMismatch,
    /// It belongs to this query by its id, but does not answer it. The text says why.
    Mismatch(&'static str),
}

/// What can be wrong with a packet.
pub ghost enum Fault {
    TooShort,
    OtherTxid,
    NotAResponse,
    ErrorCode,
    NoQuestion,
    NoAnswer,
    BadQuestion,
    OtherQuestion,
}

/// The text that is given for a fault. Another query's packet is reported without one.
pub open spec fn reason(fault: Fault) -> Seq<char> {
    match fault {
        Fault::OtherTxid => Seq::empty(),
        Fault::TooShort => "packet too short"@,
        Fault::NotAResponse => "not a DNS response"@,
        Fault::ErrorCode => "rcode is non-zero"@,
        Fault::NoQuestion => "missing question section"@,
        Fault::NoAnswer => "no answers in response"@,
        Fault::BadQuestion => "invalid response question"@,
        Fault::OtherQuestion => "question mismatch"@,
    }
}

/// Whether an error reports a fault: one variant stands for another query's packet, the other
/// carries the text for everything else.
pub open spec fn reports(error: DnsValidationError, fault: Fault) -> bool {
    match error {
        DnsValidationError::TxidMismatch => fault is OtherTxid,
        DnsValidationError::Mismatch(text) => fault !is OtherTxid && text@ == reason(fault),
    }
}

/// The response flag: the highest bit of the third byte.
pub open spec fn is_response(packet: Seq<u8>) -> bool {
    packet[2] >= 0x80
}

/// The response code: the lower half of the fourth byte.
pub open spec fn rcode(packet: Seq<u8>) -> int {
    packet[3] as int % 16
}

/// What is wrong with the packet on its own account, whatever the request asked.
pub open spec fn packet_fault(packet: Seq<u8>, txid: u16) -> Option<Fault> {
    if packet.len() < DNS_HEADER_LEN {
        Some(Fault::TooShort)
    } else if wire::be_u16(packet, 0) != txid {
        Some(Fault::OtherTxid)
    } else if !is_response(packet) {
        Some(Fault::NotAResponse)
    } else if rcode(packet) != 0 {
        Some(Fault::ErrorCode)
    } else if wire::be_u16(packet, 4) == 0 {
        Some(Fault::NoQuestion)
    } else if wire::be_u16(packet, 6) == 0 {
        Some(Fault::NoAnswer)
    } else if question::question_end(packet) is None {
        Some(Fault::BadQuestion)
    } else {
        None
    }
}

/// The bytes of the packet's first question.
pub open spec fn asked(packet: Seq<u8>) -> Seq<u8> {
    packet.subrange(DNS_HEADER_LEN as int, question::question_end(packet)->0)
}

/// What is wrong with the packet as an answer to the request: the first fault in the order in
/// which they are looked for, or none.
pub open spec fn response_fault(packet: Seq<u8>, request: Seq<u8>, txid: u16) -> Option<Fault> {
    if packet_fault(packet, txid) is Some {
        packet_fault(packet, txid)
    } else if request.skip(DNS_HEADER_LEN as int) != asked(packet) {
        Some(Fault::OtherQuestion)
    } else {
        None
    }
}

/// Whether two byte strings are equal.
fn same_bytes(a: &[u8], b: &[u8]) -> (same: bool)
    ensures
        same == (a@ == b@),
{
    if a.len() != b.len() {
        return false;
    }
    let mut i: usize = 0;
    while i < a.len()
        invariant
            i <= a@.len(),
            a@.len() == b@.len(),
            forall|j: int| 0 <= j < i ==> a@[j] == b@[j],
        decreases a@.len() - i,
    {
        if a[i] != b[i] {
            assert(a@[i as int] != b@[i as int]);
            return false;
        }
        i = i + 1;
    }
    assert(a@ =~= b@);
    true
}

/// Checks what can be checked of a packet without the request that it is to answer: its id, that
/// it is a response without an error code, and that it holds a question and an answer. Returns
/// where its question ends.
pub fn check_packet(packet: &[u8], txid: u16) -> (checked: Result<usize, DnsValidationError>)
    ensures
        match checked {
            Ok(end) => packet_fault(packet@, txid) is None && question::question_end(packet@)
                == Some(end as int),
            Err(error) => packet_fault(packet@, txid) is Some && reports(
                error,
                packet_fault(packet@, txid)->0,
            ),
        },
{
    if packet.len() < DNS_HEADER_LEN {
        return Err(DnsValidationError::Mismatch("packet too short"));
    }
    let resp_txid: u16 = read_u16(packet, 0);
    if resp_txid != txid {
        return Err(DnsValidationError::TxidMismatch);
    }
    let flags: u16 = read_u16(packet, 2);
    proof {
        let high = packet@[2] as u16;
        let low = packet@[3] as u16;
        assert(flags == high * 256 + low && high < 256 && low < 256 ==> ((flags & 0x8000 == 0)
            <==> high < 0x80) && flags & 0x000f == low % 16) by (bit_vector);
    }
    if flags & 0x8000 == 0 {
        return Err(DnsValidationError::Mismatch("not a DNS response"));
    }
    let rcode: u16 = flags & 0x000f;
    if rcode != 0 {
        return Err(DnsValidationError::Mismatch("rcode is non-zero"));
    }
    let qdcount: u16 = read_u16(packet, 4);
    let ancount: u16 = read_u16(packet, 6);
    if qdcount == 0 {
        return Err(DnsValidationError::Mismatch("missing question section"));
    }
    if ancount == 0 {
        return Err(DnsValidationError::Mismatch("no answers in response"));
    }
    match dns_question_end(packet) {
        Some(end) => Ok(end),
        None => Err(DnsValidationError::Mismatch("invalid response question")),
    }
}

/// Checks that a packet is a successful answer to the request, which was sent with the given id:
/// it has the id, is a response without an error code, holds a question and an answer, and echoes
/// the question of the request byte for byte.
///
/// The request is looked at only once nothing is wrong with the packet itself. It must then have
/// a header in front of its question.
pub fn validate_dns_response(packet: &[u8], request: &[u8], txid: u16) -> (checked: Result<
    (),
    DnsValidationError,
>)
    requires
        packet_fault(packet@, txid) is None ==> request@.len() >= DNS_HEADER_LEN,
    ensures
        match checked {
            Ok(()) => response_fault(packet@, request@, txid) is None,
            Err(error) => response_fault(packet@, request@, txid) is Some && reports(
                error,
                response_fault(packet@, request@, txid)->0,
            ),
        },
{
    let resp_q_end: usize = match check_packet(packet, txid) {
        Ok(end) => end,
        Err(error) => return Err(error),
    };
    proof {
        question::question_depends_on_its_bytes(packet@, packet@.len() as int);
    }
    let request_question: &[u8] = &request[DNS_HEADER_LEN..request.len()];
    let response_question: &[u8] = &packet[DNS_HEADER_LEN..resp_q_end];
    assert(request_question@ =~= request@.skip(DNS_HEADER_LEN as int));
    if !same_bytes(request_question, response_question) {
        return Err(DnsValidationError::Mismatch("question mismatch"));
    }
    Ok(())
}

/// Each text is given for one fault only, so an error tells what was wrong.
pub proof fn reasons_are_distinct(a: Fault, b: Fault)
    requires
        reason(a) == reason(b),
    ensures
        a == b,
{
    reveal_strlit("packet too short");
    reveal_strlit("not a DNS response");
    reveal_strlit("rcode is non-zero");
    reveal_strlit("missing question section");
    reveal_strlit("no answers in response");
    reveal_strlit("invalid response question");
    reveal_strlit("question mismatch");
    assert("packet too short"@.len() == 16);
    assert("not a DNS response"@.len() == 18);
    assert("rcode is non-zero"@.len() == 17);
    assert("missing question section"@.len() == 24);
    assert("no answers in response"@.len() == 22);
    assert("invalid response question"@.len() == 25);
    assert("question mismatch"@.len() == 17);
    assert("rcode is non-zero"@[0] == 'r');
    assert("question mismatch"@[0] == 'q');
}

/// A packet is accepted exactly when it has the id, is a response with code zero, holds a question
/// and an answer, and its question is found and is the question of the request.
pub proof fn accepted_exactly(packet: Seq<u8>, request: Seq<u8>, txid: u16)
    ensures
        response_fault(packet, request, txid) is None <==> {
            &&& packet.len() >= DNS_HEADER_LEN
            &&& wire::be_u16(packet, 0) == txid
            &&& is_response(packet)
            &&& rcode(packet) == 0
            &&& wire::be_u16(packet, 4) != 0
            &&& wire::be_u16(packet, 6) != 0
            &&& question::question_end(packet) is Some
            &&& asked(packet) == request.skip(DNS_HEADER_LEN as int)
        },
{
}

/// A packet is set aside as another query's exactly when it has a header with another id in it,
/// whatever else it holds.
pub proof fn set_aside_exactly(packet: Seq<u8>, request: Seq<u8>, txid: u16)
    ensures
        response_fault(packet, request, txid) == Some(Fault::OtherTxid) <==> packet.len()
            >= DNS_HEADER_LEN && wire::be_u16(packet, 0) != txid,
{
}

/// The question that a packet echoes from a request is found in it whole.
proof fn lemma_echoed_question(packet: Seq<u8>, request: Seq<u8>)
    requires
        packet.len() >= request.len(),
        question::question_end(request) == Some(request.len() as int),
        packet.subrange(DNS_HEADER_LEN as int, request.len() as int) == request.skip(
            DNS_HEADER_LEN as int,
        ),
    ensures
        question::question_end(packet) == Some(request.len() as int),
        asked(packet) == request.skip(DNS_HEADER_LEN as int),
{
    let start = DNS_HEADER_LEN as int;
    let end = request.len() as int;
    question::question_depends_on_its_bytes(request, end);
    question::question_is_encoded_labels(request, end);
    question::question_is_encoded_labels(packet, end);
    assert(request.subrange(start, end - DNS_QUESTION_TRAILER_LEN) =~= packet.subrange(
        start,
        end - DNS_QUESTION_TRAILER_LEN,
    )) by {
        assert forall|i: int| start <= i < end implies request[i] == packet[i] by {
            assert(request.skip(start)[i - start] == packet.subrange(start, end)[i - start]);
        }
    }
}

/// Every successful response that echoes the question of a request is accepted, whatever other
/// flags it sets and whatever follows the question. The request may be any whose question fills
/// it.
pub proof fn matching_response_is_accepted(packet: Seq<u8>, request: Seq<u8>, txid: u16)
    requires
        question::question_end(request) == Some(request.len() as int),
        packet.len() >= request.len(),
        wire::be_u16(packet, 0) == txid,
        is_response(packet),
        rcode(packet) == 0,
        wire::be_u16(packet, 4) != 0,
        wire::be_u16(packet, 6) != 0,
        packet.subrange(DNS_HEADER_LEN as int, request.len() as int) == request.skip(
            DNS_HEADER_LEN as int,
        ),
    ensures
        response_fault(packet, request, txid) is None,
{
    lemma_echoed_question(packet, request);
    question::question_depends_on_its_bytes(request, request.len() as int);
}

/// Every successful response that echoes the question of a query is accepted as its answer, for
/// every name without empty labels and labels longer than 63 bytes.
pub proof fn answer_to_a_query_is_accepted(packet: Seq<u8>, txid: u16, name: Seq<char>)
    requires
        question::well_formed(name::labels(name)),
        wire::be_u16(packet, 0) == txid,
        is_response(packet),
        rcode(packet) == 0,
        wire::be_u16(packet, 4) != 0,
        wire::be_u16(packet, 6) != 0,
        ({
            let request = query::query(txid, name)->0;
            &&& packet.len() >= request.len()
            &&& packet.subrange(DNS_HEADER_LEN as int, request.len() as int) == request.skip(
                DNS_HEADER_LEN as int,
            )
        }),
    ensures
        query::query(txid, name) is Some,
        response_fault(packet, query::query(txid, name)->0, txid) is None,
{
    query::well_formed_names_are_encoded(txid, name);
    query::query_question_is_whole(txid, name);
    matching_response_is_accepted(packet, query::query(txid, name)->0, txid);
}

/// Every successful response that echoes the question of an endpoint's probe is accepted as its
/// answer, for every endpoint.
pub proof fn answer_about_the_endpoint_is_accepted(packet: Seq<u8>, txid: u16, octets: Seq<u8>)
    requires
        octets.len() == 4,
        wire::be_u16(packet, 0) == txid,
        is_response(packet),
        rcode(packet) == 0,
        wire::be_u16(packet, 4) != 0,
        wire::be_u16(packet, 6) != 0,
        ({
            let request = query::query(txid, address::reverse_name(octets))->0;
            &&& packet.len() >= request.len()
            &&& packet.subrange(DNS_HEADER_LEN as int, request.len() as int) == request.skip(
                DNS_HEADER_LEN as int,
            )
        }),
    ensures
        query::query(txid, address::reverse_name(octets)) is Some,
        response_fault(
            packet,
            query::query(txid, address::reverse_name(octets))->0,
            txid,
        ) is None,
{
    query::reverse_name_is_well_formed(octets);
    answer_to_a_query_is_accepted(packet, txid, address::reverse_name(octets));
}

/// A response to the query for one name is never accepted as the answer to the query for another.
/// With nothing else wrong, the question is what it is rejected for.
pub proof fn answer_to_another_name_is_rejected(
    packet: Seq<u8>,
    txid: u16,
    name: Seq<char>,
    other_txid: u16,
    other_name: Seq<char>,
)
    requires
        query::query(txid, name) is Some,
        name != other_name,
        question::well_formed(name::labels(other_name)),
        ({
            let other = query::query(other_txid, other_name)->0;
            &&& packet.len() >= other.len()
            &&& packet.subrange(DNS_HEADER_LEN as int, other.len() as int) == other.skip(
                DNS_HEADER_LEN as int,
            )
        }),
    ensures
        response_fault(packet, query::query(txid, name)->0, txid) is Some,
        packet_fault(packet, txid) is None ==> response_fault(
            packet,
            query::query(txid, name)->0,
            txid,
        ) == Some(Fault::OtherQuestion),
{
    query::well_formed_names_are_encoded(other_txid, other_name);
    query::query_question_is_whole(other_txid, other_name);
    lemma_echoed_question(packet, query::query(other_txid, other_name)->0);
    query::different_names_ask_different_questions(txid, name, other_txid, other_name);
}

/// A response to the probe of one endpoint is never accepted as the answer to the probe of
/// another, so an accepted answer is about the endpoint that was asked.
pub proof fn answer_about_another_endpoint_is_rejected(
    packet: Seq<u8>,
    txid: u16,
    octets: Seq<u8>,
    other_txid: u16,
    other_octets: Seq<u8>,
)
    requires
        octets.len() == 4,
        other_octets.len() == 4,
        octets != other_octets,
        ({
            let other = query::query(other_txid, address::reverse_name(other_octets))->0;
            &&& packet.len() >= other.len()
            &&& packet.subrange(DNS_HEADER_LEN as int, other.len() as int) == other.skip(
                DNS_HEADER_LEN as int,
            )
        }),
    ensures
        query::query(txid, address::reverse_name(octets)) is Some,
        response_fault(
            packet,
            query::query(txid, address::reverse_name(octets))->0,
            txid,
        ) is Some,
        packet_fault(packet, txid) is None ==> response_fault(
            packet,
            query::query(txid, address::reverse_name(octets))->0,
            txid,
        ) == Some(Fault::OtherQuestion),
{
    let name = address::reverse_name(octets);
    let other_name = address::reverse_name(other_octets);
    query::reverse_name_is_well_formed(octets);
    query::well_formed_names_are_encoded(txid, name);
    query::reverse_name_is_well_formed(other_octets);
    if name == other_name {
        address::reverse_name_is_injective(octets, other_octets);
    }
    answer_to_another_name_is_rejected(packet, txid, name, other_txid, other_name);
}

/// A query that comes back unchanged is not taken for its answer.
pub proof fn query_is_not_its_own_answer(txid: u16, name: Seq<char>)
    requires
        query::query(txid, name) is Some,
    ensures
        response_fault(query::query(txid, name)->0, query::query(txid, name)->0, txid) == Some(
            Fault::NotAResponse,
        ),
{
    query::query_says_what_was_asked(txid, name);
}

} // verus!
