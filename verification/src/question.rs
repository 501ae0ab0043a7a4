//! Where the question of a DNS message ends.

use crate::name;
use crate::wire::{DNS_HEADER_LEN, DNS_MAX_LABEL_LEN, DNS_QUESTION_TRAILER_LEN};
use vstd::prelude::*;

verus! {

/// The index behind the name that starts at `at`, if the packet holds all of it and no length
/// byte in it exceeds the longest label.
pub open spec fn name_end(packet: Seq<u8>, at: int) -> Option<int>
    decreases packet.len() - at,
{
    if at >= packet.len() {
        None
    } else if packet[at] == 0 {
        Some(at + 1)
    } else if packet[at] > DNS_MAX_LABEL_LEN || at + 1 + packet[at] > packet.len() {
        None
    } else {
        name_end(packet, at + 1 + packet[at])
    }
}

/// The index behind the first question of a packet, if the packet holds all of it.
pub open spec fn question_end(packet: Seq<u8>) -> Option<int> {
    if packet.len() < DNS_HEADER_LEN {
        None
    } else {
        match name_end(packet, DNS_HEADER_LEN as int) {
            Some(end) => if end + DNS_QUESTION_TRAILER_LEN <= packet.len() {
                Some(end + DNS_QUESTION_TRAILER_LEN)
            } else {
                None
            },
            None => None,
        }
    }
}

/// Finds the end of the question that follows the header. Returns `None` where the packet breaks
/// off before it, or where a label is longer than 63 bytes.
pub fn dns_question_end(packet: &[u8]) -> (end: Option<usize>)
    ensures
        match end {
            Some(end) => question_end(packet@) == Some(end as int),
            None => question_end(packet@) is None,
        },
{
    if packet.len() < DNS_HEADER_LEN {
        return None;
    }
    let mut idx: usize = DNS_HEADER_LEN;
    loop
        invariant_except_break
            idx <= packet@.len(),
            name_end(packet@, DNS_HEADER_LEN as int) == name_end(packet@, idx as int),
        invariant
            packet@.len() >= DNS_HEADER_LEN,
        ensures
            idx <= packet@.len(),
            name_end(packet@, DNS_HEADER_LEN as int) == Some(idx as int),
        decreases packet@.len() - idx,
    {
        if idx >= packet.len() {
            return None;
        }
        let len: usize = packet[idx] as usize;
        idx = idx + 1;
        if len == 0 {
            break;
        }
        if len > DNS_MAX_LABEL_LEN || len > packet.len() - idx {
            return None;
        }
        idx = idx + len;
    }
    match idx.checked_add(DNS_QUESTION_TRAILER_LEN) {
        Some(end) if end <= packet.len() => Some(end),
        _ => None,
    }
}

/// Whether every label is one that a question may hold: not empty, and not too long.
pub open spec fn well_formed(labels: Seq<Seq<u8>>) -> bool {
    forall|i: int|
        0 <= i < labels.len() ==> 1 <= (#[trigger] labels[i]).len() <= DNS_MAX_LABEL_LEN
}

/// The encoded form of a name that consists of these labels.
pub open spec fn encoded(labels: Seq<Seq<u8>>) -> Seq<u8> {
    name::wire_labels(labels).push(0)
}

/// Where well-formed labels stand encoded in a packet, the name ends behind them.
proof fn lemma_name_end_of_labels(packet: Seq<u8>, at: int, labels: Seq<Seq<u8>>)
    requires
        0 <= at,
        well_formed(labels),
        at + encoded(labels).len() <= packet.len(),
        packet.subrange(at, at + encoded(labels).len()) == encoded(labels),
    ensures
        name_end(packet, at) == Some(at + encoded(labels).len()),
    decreases labels.len(),
{
    let bytes = encoded(labels);
    let here = packet.subrange(at, at + bytes.len());
    assert(here[0] == packet[at]);
    if labels.len() > 0 {
        let len = labels[0].len() as int;
        let rest = labels.drop_first();
        assert(bytes =~= name::wire_label(labels[0]) + encoded(rest));
        assert(here[0] == len);
        assert(packet.subrange(at + 1 + len, at + 1 + len + encoded(rest).len()) =~= encoded(rest))
            by {
            assert forall|i: int| 0 <= i < encoded(rest).len() implies packet[at + 1 + len + i]
                == encoded(rest)[i] by {
                assert(here[1 + len + i] == bytes[1 + len + i]);
            }
        }
        lemma_name_end_of_labels(packet, at + 1 + len, rest);
    }
}

/// Where a name ends in a packet, well-formed labels stand encoded before that end.
proof fn lemma_labels_of_name_end(packet: Seq<u8>, at: int) -> (labels: Seq<Seq<u8>>)
    requires
        0 <= at,
        name_end(packet, at) is Some,
    ensures
        at < name_end(packet, at)->0 <= packet.len(),
        well_formed(labels),
        packet.subrange(at, name_end(packet, at)->0) == encoded(labels),
    decreases packet.len() - at,
{
    let end = name_end(packet, at)->0;
    if packet[at] == 0 {
        let none: Seq<Seq<u8>> = seq![];
        assert(packet.subrange(at, end) =~= encoded(none));
        none
    } else {
        let len = packet[at] as int;
        let rest = lemma_labels_of_name_end(packet, at + 1 + len);
        let label = packet.subrange(at + 1, at + 1 + len);
        let all = seq![label] + rest;
        assert(all.drop_first() =~= rest);
        assert(packet.subrange(at, end) =~= name::wire_label(label) + packet.subrange(
            at + 1 + len,
            end,
        ));
        assert(encoded(all) =~= name::wire_label(label) + encoded(rest));
        all
    }
}

/// A packet has a question that ends at `end` exactly when well-formed labels stand encoded
/// between the header and the four bytes before `end`. Reading a question is the inverse of
/// writing one.
pub proof fn question_is_encoded_labels(packet: Seq<u8>, end: int)
    ensures
        question_end(packet) == Some(end) <==> exists|labels: Seq<Seq<u8>>|
            #![trigger encoded(labels)]
            {
                &&& well_formed(labels)
                &&& end == DNS_HEADER_LEN + encoded(labels).len() + DNS_QUESTION_TRAILER_LEN
                &&& end <= packet.len()
                &&& packet.subrange(DNS_HEADER_LEN as int, end - DNS_QUESTION_TRAILER_LEN)
                    == encoded(labels)
            },
{
    let start = DNS_HEADER_LEN as int;
    if question_end(packet) == Some(end) {
        let labels = lemma_labels_of_name_end(packet, start);
        assert(packet.subrange(start, end - DNS_QUESTION_TRAILER_LEN) == encoded(labels));
    }
    assert forall|labels: Seq<Seq<u8>>|
        #![trigger encoded(labels)]
        {
            &&& well_formed(labels)
            &&& end == DNS_HEADER_LEN + encoded(labels).len() + DNS_QUESTION_TRAILER_LEN
            &&& end <= packet.len()
            &&& packet.subrange(start, end - DNS_QUESTION_TRAILER_LEN) == encoded(labels)
        } implies question_end(packet) == Some(end) by {
        lemma_name_end_of_labels(packet, start, labels);
    }
}

/// How much of a packet a name in it depends on.
proof fn lemma_name_end_of_prefix(packet: Seq<u8>, at: int, len: int)
    requires
        0 <= at,
        0 <= len <= packet.len(),
        name_end(packet, at) is Some,
    ensures
        at < name_end(packet, at)->0 <= packet.len(),
        name_end(packet.take(len), at) == if name_end(packet, at)->0 <= len {
            name_end(packet, at)
        } else {
            None
        },
    decreases packet.len() - at,
{
    if packet[at] != 0 {
        lemma_name_end_of_prefix(packet, at + 1 + packet[at], len);
    }
}

/// A question ends inside its packet, is found in every prefix that holds all of it, and in none
/// that does not: cutting off even the last byte of the question makes the packet be rejected.
pub proof fn question_depends_on_its_bytes(packet: Seq<u8>, len: int)
    requires
        0 <= len <= packet.len(),
        question_end(packet) is Some,
    ensures
        DNS_HEADER_LEN + 1 + DNS_QUESTION_TRAILER_LEN <= question_end(packet)->0 <= packet.len(),
        question_end(packet.take(len)) == if question_end(packet)->0 <= len {
            question_end(packet)
        } else {
            None
        },
{
    lemma_name_end_of_prefix(packet, DNS_HEADER_LEN as int, len);
}

/// What follows a question does not change where it ends.
pub proof fn question_ignores_what_follows(packet: Seq<u8>, rest: Seq<u8>)
    requires
        question_end(packet) is Some,
    ensures
        question_end(packet + rest) == question_end(packet),
{
    let labels = lemma_labels_of_name_end(packet, DNS_HEADER_LEN as int);
    let end = name_end(packet, DNS_HEADER_LEN as int)->0;
    assert((packet + rest).subrange(DNS_HEADER_LEN as int, end) =~= packet.subrange(
        DNS_HEADER_LEN as int,
        end,
    ));
    lemma_name_end_of_labels(packet + rest, DNS_HEADER_LEN as int, labels);
}

} // verus!
