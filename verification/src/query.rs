//! DNS queries for the PTR record of a name.

use crate::address::{reverse_ptr_qname, Ipv4Addr};
use crate::name::encode_qname;
use crate::wire::{push_u16, DNS_HEADER_LEN, DNS_MAX_LABEL_LEN, DNS_QUESTION_TRAILER_LEN};
use crate::{address, name, question, wire};
use vstd::prelude::*;
use vstd::utf8;

verus! {

/// The flags of a standard query: recursion desired, all else zero.
pub const QUERY_FLAGS: u16 = 0x0100;

/// The type of a PTR record.
pub const QTYPE_PTR: u16 = 12;

/// The class of internet records.
pub const QCLASS_IN: u16 = 1;

/// The header of a query with one question: id, flags, and the counts of questions, answers,
/// authorities and additional records.
pub open spec fn query_header(txid: u16) -> Seq<u8> {
    wire::be_bytes(txid) + wire::be_bytes(QUERY_FLAGS) + wire::be_bytes(1) + wire::be_bytes(0)
        + wire::be_bytes(0) + wire::be_bytes(0)
}

/// The question for the PTR record of an encoded name.
pub open spec fn ptr_question(qname: Seq<u8>) -> Seq<u8> {
    qname + wire::be_bytes(QTYPE_PTR) + wire::be_bytes(QCLASS_IN)
}

/// The query for the PTR record of a name. There is none where the name cannot be encoded.
pub open spec fn query(txid: u16, name: Seq<char>) -> Option<Seq<u8>> {
    match name::qname(name) {
        Some(qname) => Some(query_header(txid) + ptr_question(qname)),
        None => None,
    }
}

/// Builds the query for the PTR record of a name. Returns `None` where a label of the name is
/// longer than 255 bytes.
pub fn build_dns_query(txid: u16, qname: &str) -> (packet: Option<Vec<u8>>)
    ensures
        match packet {
            Some(packet) => query(txid, qname@) == Some(packet@),
            None => query(txid, qname@) is None,
        },
{
    let encoded: Vec<u8> = match encode_qname(qname) {
        Some(encoded) => encoded,
        None => return None,
    };
    let mut packet: Vec<u8> = Vec::new();
    push_u16(&mut packet, txid);
    push_u16(&mut packet, QUERY_FLAGS);
    push_u16(&mut packet, 1);
    push_u16(&mut packet, 0);
    push_u16(&mut packet, 0);
    push_u16(&mut packet, 0);
    assert(packet@ =~= query_header(txid));
    packet.extend_from_slice(encoded.as_slice());
    assert(packet@ =~= query_header(txid) + encoded@);
    push_u16(&mut packet, QTYPE_PTR);
    push_u16(&mut packet, QCLASS_IN);
    assert(packet@ =~= query_header(txid) + ptr_question(encoded@));
    Some(packet)
}

/// What a query says: the id it was built with, recursion desired, one question and nothing else,
/// and a question for the PTR record of the name, in the internet class.
pub proof fn query_says_what_was_asked(txid: u16, name: Seq<char>)
    requires
        query(txid, name) is Some,
    ensures
        ({
            let packet = query(txid, name)->0;
            let qname = name::qname(name)->0;
            let end = packet.len() as int;
            &&& end == DNS_HEADER_LEN + qname.len() + DNS_QUESTION_TRAILER_LEN
            &&& wire::be_u16(packet, 0) == txid
            &&& wire::be_u16(packet, 2) == QUERY_FLAGS
            &&& wire::be_u16(packet, 4) == 1
            &&& wire::be_u16(packet, 6) == 0
            &&& wire::be_u16(packet, 8) == 0
            &&& wire::be_u16(packet, 10) == 0
            &&& packet.subrange(DNS_HEADER_LEN as int, end - DNS_QUESTION_TRAILER_LEN) == qname
            &&& wire::be_u16(packet, end - 4) == QTYPE_PTR
            &&& wire::be_u16(packet, end - 2) == QCLASS_IN
        }),
{
    let packet = query(txid, name)->0;
    let qname = name::qname(name)->0;
    assert(packet.subrange(DNS_HEADER_LEN as int, packet.len() - DNS_QUESTION_TRAILER_LEN)
        =~= qname);
}

/// The question of a query fills the rest of the packet exactly when no label of the name is empty
/// or longer than 63 bytes. So the question of such a query is found whole.
pub proof fn query_question_is_whole(txid: u16, name: Seq<char>)
    requires
        query(txid, name) is Some,
    ensures
        question::question_end(query(txid, name)->0) == Some(query(txid, name)->0.len() as int)
            <==> question::well_formed(name::labels(name)),
{
    let packet = query(txid, name)->0;
    let end = packet.len() as int;
    let labels = name::labels(name);
    query_says_what_was_asked(txid, name);
    question::question_is_encoded_labels(packet, end);
    assert(question::encoded(labels) == name::qname(name)->0);
    if question::question_end(packet) == Some(end) {
        let found = choose|found: Seq<Seq<u8>>|
            #![trigger question::encoded(found)]
            {
                &&& question::well_formed(found)
                &&& end == DNS_HEADER_LEN + question::encoded(found).len()
                    + DNS_QUESTION_TRAILER_LEN
                &&& end <= packet.len()
                &&& packet.subrange(DNS_HEADER_LEN as int, end - DNS_QUESTION_TRAILER_LEN)
                    == question::encoded(found)
            };
        assert(question::encoded(found).drop_last() =~= name::wire_labels(found));
        assert(question::encoded(labels).drop_last() =~= name::wire_labels(labels));
        name::lemma_wire_injective(found, labels);
    }
}

/// A name whose labels are not empty and at most 63 bytes long always gives a query.
pub proof fn well_formed_names_are_encoded(txid: u16, name: Seq<char>)
    requires
        question::well_formed(name::labels(name)),
    ensures
        query(txid, name) is Some,
{
    assert(name::lengths_fit(name::labels(name)));
}

/// Queries for two different names ask different questions.
pub proof fn different_names_ask_different_questions(
    txid_a: u16,
    name_a: Seq<char>,
    txid_b: u16,
    name_b: Seq<char>,
)
    requires
        query(txid_a, name_a) is Some,
        query(txid_b, name_b) is Some,
        name_a != name_b,
    ensures
        query(txid_a, name_a)->0.skip(DNS_HEADER_LEN as int) != query(txid_b, name_b)->0.skip(
            DNS_HEADER_LEN as int,
        ),
{
    let a = query(txid_a, name_a)->0;
    let b = query(txid_b, name_b)->0;
    query_says_what_was_asked(txid_a, name_a);
    query_says_what_was_asked(txid_b, name_b);
    let start = DNS_HEADER_LEN as int;
    if a.skip(start) == b.skip(start) {
        assert(a.len() - start == a.skip(start).len());
        assert(b.len() - start == b.skip(start).len());
        assert(a.subrange(start, a.len() - DNS_QUESTION_TRAILER_LEN) =~= a.skip(start).take(
            a.len() - start - DNS_QUESTION_TRAILER_LEN,
        ));
        assert(b.subrange(start, b.len() - DNS_QUESTION_TRAILER_LEN) =~= b.skip(start).take(
            b.len() - start - DNS_QUESTION_TRAILER_LEN,
        ));
        name::encoding_is_injective(name_a, name_b);
    }
}

/// Every address has a name for reverse lookup that can be asked for.
pub proof fn reverse_name_is_well_formed(octets: Seq<u8>)
    ensures
        question::well_formed(name::labels(address::reverse_name(octets))),
{
    address::reverse_name_has_reverse_labels(octets);
    let pieces = address::reverse_labels(octets);
    let labels = name::labels(address::reverse_name(octets));
    assert forall|i: int| 0 <= i < labels.len() implies 1 <= (#[trigger] labels[i]).len()
        <= DNS_MAX_LABEL_LEN by {
        address::lemma_reverse_label(octets, i);
        assert(labels[i] == utf8::encode_utf8(pieces[i]));
        utf8::is_ascii_chars_encode_utf8(pieces[i]);
    }
}

/// Builds the query for the PTR record of an endpoint's own address. There is one for every
/// address, and its question is found whole.
pub fn endpoint_query(txid: u16, endpoint_ip: Ipv4Addr) -> (packet: Vec<u8>)
    ensures
        query(txid, address::reverse_name(endpoint_ip@)) == Some(packet@),
        question::question_end(packet@) == Some(packet@.len() as int),
{
    let name: String = reverse_ptr_qname(endpoint_ip);
    proof {
        reverse_name_is_well_formed(endpoint_ip@);
        well_formed_names_are_encoded(txid, name@);
        query_question_is_whole(txid, name@);
    }
    build_dns_query(txid, name.as_str()).unwrap()
}

} // verus!
