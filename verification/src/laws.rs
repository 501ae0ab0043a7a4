//! What the operations are for, said of their inputs and results in plain numbers, bytes and
//! characters.

use crate::config::{CliArgs, Config, ConfigError};
use crate::response;
use crate::response::DnsValidationError;
use crate::session::{Event, RecvResult, Sent};
use crate::{address, config, cpus, name, query, question, session, split, wire};
use vstd::prelude::*;
use vstd::utf8;

verus! {

/// The sizes that a DNS message goes by, and the room for a payload that fits in the smallest
/// packet that IPv6 must carry.
pub proof fn sizes_of_a_message()
    ensures
        wire::DNS_HEADER_LEN == 12,
        wire::DNS_QUESTION_TRAILER_LEN == 4,
        wire::DNS_MAX_LABEL_LEN == 63,
        wire::DNS_RECV_BUF_SIZE == 1232,
{
}

/// Numbers travel as two bytes, the high one first.
pub proof fn numbers_travel_high_byte_first(number: u16)
    ensures
        wire::be_bytes(number).len() == 2,
        wire::be_bytes(number)[0] == number / 256,
        wire::be_bytes(number)[1] == number % 256,
{
}

/// A number is read from two bytes with the first one as the high one.
pub proof fn numbers_are_read_high_byte_first(bytes: Seq<u8>, at: int)
    requires
        0 <= at,
        at + 1 < bytes.len(),
    ensures
        wire::be_u16(bytes, at) / 256 == bytes[at],
        wire::be_u16(bytes, at) % 256 == bytes[at + 1],
{
}

/// A name without a dot is encoded as the number of its bytes, the bytes as they are, and a zero.
/// Where the number does not fit in a byte, it is not encoded.
pub proof fn one_label_is_encoded_unchanged(name: Seq<char>)
    requires
        forall|i: int| 0 <= i < name.len() ==> name[i] != '.',
    ensures
        name::qname(name) == if utf8::encode_utf8(name).len() <= 255 {
            Some(
                seq![utf8::encode_utf8(name).len() as u8] + utf8::encode_utf8(name) + seq![0u8],
            )
        } else {
            None
        },
{
    let label = utf8::encode_utf8(name);
    split::lemma_split_single(name, '.');
    let labels = name::labels(name);
    assert(labels =~= seq![label]);
    let none: Seq<Seq<u8>> = seq![];
    assert(none.push(label) =~= labels);
    name::lemma_wire_push(none, label);
    assert(labels[0] == label);
    if label.len() <= 255 {
        assert(name::lengths_fit(labels));
        assert(name::wire_labels(labels).push(0) =~= seq![label.len() as u8] + label + seq![0u8]);
    }
}

/// A label and a dot in front of a name put the number of the label's bytes, and the bytes as they
/// are, in front of the encoded name. Where the number does not fit in a byte, or the name is not
/// encoded, neither is the longer one.
pub proof fn first_label_is_encoded_unchanged(label: Seq<char>, rest: Seq<char>)
    requires
        forall|i: int| 0 <= i < label.len() ==> label[i] != '.',
    ensures
        name::qname(label + seq!['.'] + rest) == match name::qname(rest) {
            Some(tail) => if utf8::encode_utf8(label).len() <= 255 {
                Some(
                    seq![utf8::encode_utf8(label).len() as u8] + utf8::encode_utf8(label) + tail,
                )
            } else {
                None
            },
            None => None,
        },
{
    let whole = label + seq!['.'] + rest;
    let bytes = utf8::encode_utf8(label);
    split::lemma_split_cons(label, '.', rest);
    let labels = name::labels(whole);
    let tail = name::labels(rest);
    assert(labels =~= seq![bytes] + tail);
    assert(labels.drop_first() =~= tail);
    assert(labels[0] == bytes);
    assert(name::lengths_fit(labels) <==> bytes.len() <= 255 && name::lengths_fit(tail)) by {
        assert forall|i: int| 0 <= i < tail.len() implies tail[i] == #[trigger] labels[i + 1] by {}
        if name::lengths_fit(labels) {
            assert forall|i: int| 0 <= i < tail.len() implies (#[trigger] tail[i]).len()
                <= u8::MAX by {
                assert(labels[i + 1].len() <= u8::MAX);
            }
        }
        if bytes.len() <= 255 && name::lengths_fit(tail) {
            assert forall|i: int| 0 <= i < labels.len() implies (#[trigger] labels[i]).len()
                <= u8::MAX by {
                if i > 0 {
                    assert(tail[i - 1].len() <= u8::MAX);
                }
            }
        }
    }
    if name::lengths_fit(labels) {
        assert(name::wire_labels(labels).push(0) =~= seq![bytes.len() as u8] + bytes
            + name::wire_labels(tail).push(0));
    }
}

proof fn lemma_offset(pieces: Seq<Seq<char>>, k: int)
    requires
        0 <= k <= pieces.len(),
    ensures
        name::wire_labels(
            pieces.map_values(|piece: Seq<char>| utf8::encode_utf8(piece)).take(k),
        ).len() == pieces.take(k).fold_left(
            0int,
            |sum: int, piece: Seq<char>| sum + 1 + utf8::encode_utf8(piece).len(),
        ),
    decreases k,
{
    let labels = pieces.map_values(|piece: Seq<char>| utf8::encode_utf8(piece));
    if k == 0 {
        assert(labels.take(0) =~= Seq::<Seq<u8>>::empty());
    } else {
        lemma_offset(pieces, k - 1);
        assert(pieces.take(k).drop_last() =~= pieces.take(k - 1));
        assert(labels.take(k) =~= labels.take(k - 1).push(labels[k - 1]));
        name::lemma_wire_push(labels.take(k - 1), labels[k - 1]);
    }
}

/// The bytes of every label stand in the encoded name unchanged and in order: label `k` stands
/// behind a byte with its length, behind all labels before it and theirs. The last byte is zero.
pub proof fn every_label_stands_unchanged(name: Seq<char>, k: int)
    requires
        name::qname(name) is Some,
        0 <= k < split::split(name, '.').len(),
    ensures
        ({
            let encoded = name::qname(name)->0;
            let pieces = split::split(name, '.');
            let bytes = utf8::encode_utf8(pieces[k]);
            let offset = pieces.take(k).fold_left(
                0int,
                |sum: int, piece: Seq<char>| sum + 1 + utf8::encode_utf8(piece).len(),
            );
            &&& 0 <= offset
            &&& offset + 1 + bytes.len() < encoded.len()
            &&& encoded[offset] == bytes.len()
            &&& encoded.subrange(offset + 1, offset + 1 + bytes.len()) == bytes
            &&& encoded.last() == 0
        }),
{
    let encoded = name::qname(name)->0;
    let pieces = split::split(name, '.');
    let labels = name::labels(name);
    let bytes = utf8::encode_utf8(pieces[k]);
    lemma_offset(pieces, k);
    let before = name::wire_labels(labels.take(k));
    let after = name::wire_labels(labels.skip(k + 1));
    assert(labels[k] == bytes);
    assert(labels =~= labels.take(k).push(bytes) + labels.skip(k + 1));
    name::lemma_wire_concat(labels.take(k).push(bytes), labels.skip(k + 1));
    name::lemma_wire_push(labels.take(k), bytes);
    assert(encoded =~= before + (seq![bytes.len() as u8] + bytes) + after + seq![0u8]);
    let start = before.len() as int + 1;
    assert(encoded.subrange(start, start + bytes.len()) =~= bytes);
}

/// The digits of an octet, written out by the number of them: one below 10, two below 100, three
/// from there on.
pub proof fn octets_are_written_in_decimal(octet: u8)
    ensures
        octet < 10 ==> address::decimal(octet as nat) == seq![(48 + octet) as char],
        10 <= octet < 100 ==> address::decimal(octet as nat) == seq![
            (48 + octet / 10) as char,
            (48 + octet % 10) as char,
        ],
        100 <= octet ==> address::decimal(octet as nat) == seq![
            (48 + octet / 100) as char,
            (48 + octet / 10 % 10) as char,
            (48 + octet % 10) as char,
        ],
{
    reveal_with_fuel(address::decimal, 3);
    if octet >= 100 {
        assert(octet as nat / 10 / 10 == octet / 100);
        assert(address::decimal(octet as nat) =~= seq![
            (48 + octet / 100) as char,
            (48 + octet / 10 % 10) as char,
            (48 + octet % 10) as char,
        ]);
    } else if octet >= 10 {
        assert(address::decimal(octet as nat) =~= seq![
            (48 + octet / 10) as char,
            (48 + octet % 10) as char,
        ]);
    }
}

proof fn lemma_reverse_text(octets: Seq<u8>)
    ensures
        address::reverse_name(octets) == address::decimal(octets[3] as nat) + seq!['.']
            + address::decimal(octets[2] as nat) + seq!['.'] + address::decimal(octets[1] as nat)
            + seq!['.'] + address::decimal(octets[0] as nat) + seq![
            '.',
            'i',
            'n',
            '-',
            'a',
            'd',
            'd',
            'r',
            '.',
            'a',
            'r',
            'p',
            'a',
        ],
        address::reverse_labels(octets)[4] == seq!['i', 'n', '-', 'a', 'd', 'd', 'r'],
        address::reverse_labels(octets)[5] == seq!['a', 'r', 'p', 'a'],
{
    reveal_strlit("in-addr");
    reveal_strlit("arpa");
    assert("in-addr"@ =~= seq!['i', 'n', '-', 'a', 'd', 'd', 'r']);
    assert("arpa"@ =~= seq!['a', 'r', 'p', 'a']);
    let all = address::reverse_labels(octets);
    let tail5 = all.skip(5);
    let tail4 = all.skip(4);
    let tail3 = all.skip(3);
    let tail2 = all.skip(2);
    let tail1 = all.skip(1);
    assert(all.drop_first() =~= tail1);
    assert(tail1.drop_first() =~= tail2);
    assert(tail2.drop_first() =~= tail3);
    assert(tail3.drop_first() =~= tail4);
    assert(tail4.drop_first() =~= tail5);
    let zone = seq!['i', 'n', '-', 'a', 'd', 'd', 'r', '.', 'a', 'r', 'p', 'a'];
    assert(split::join(tail5, '.') == all[5]);
    assert(split::join(tail4, '.') =~= zone);
    assert(split::join(tail3, '.') == all[3] + seq!['.'] + zone);
    assert(split::join(tail2, '.') == all[2] + seq!['.'] + split::join(tail3, '.'));
    assert(split::join(tail1, '.') == all[1] + seq!['.'] + split::join(tail2, '.'));
    assert(split::join(all, '.') == all[0] + seq!['.'] + split::join(tail1, '.'));
    assert(seq!['.'] + zone =~= seq![
        '.',
        'i',
        'n',
        '-',
        'a',
        'd',
        'd',
        'r',
        '.',
        'a',
        'r',
        'p',
        'a',
    ]);
    assert(address::reverse_name(octets) =~= all[0] + seq!['.'] + all[1] + seq!['.'] + all[2]
        + seq!['.'] + all[3] + (seq!['.'] + zone));
}

/// The name for reverse lookup has six labels: the four octets in decimal, the last octet first,
/// then the zone.
pub proof fn reverse_name_holds_the_octets_backwards(octets: Seq<u8>)
    requires
        octets.len() == 4,
    ensures
        ({
            let text = |octet: u8|
                if octet < 10 {
                    seq![(48 + octet) as char]
                } else if octet < 100 {
                    seq![(48 + octet / 10) as char, (48 + octet % 10) as char]
                } else {
                    seq![
                        (48 + octet / 100) as char,
                        (48 + octet / 10 % 10) as char,
                        (48 + octet % 10) as char,
                    ]
                };
            let zone = seq!['.', 'i', 'n', '-', 'a', 'd', 'd', 'r', '.', 'a', 'r', 'p', 'a'];
            let pieces = split::split(address::reverse_name(octets), '.');
            &&& address::reverse_name(octets) == text(octets[3]) + seq!['.'] + text(octets[2])
                + seq!['.'] + text(octets[1]) + seq!['.'] + text(octets[0]) + zone
            &&& pieces.len() == 6
            &&& forall|i: int| 0 <= i < 4 ==> #[trigger] pieces[i] == text(octets[3 - i])
            &&& pieces[4] == seq!['i', 'n', '-', 'a', 'd', 'd', 'r']
            &&& pieces[5] == seq!['a', 'r', 'p', 'a']
        }),
{
    let text = |octet: u8|
        if octet < 10 {
            seq![(48 + octet) as char]
        } else if octet < 100 {
            seq![(48 + octet / 10) as char, (48 + octet % 10) as char]
        } else {
            seq![
                (48 + octet / 100) as char,
                (48 + octet / 10 % 10) as char,
                (48 + octet % 10) as char,
            ]
        };
    assert forall|octet: u8| #[trigger] text(octet) == address::decimal(octet as nat) by {
        octets_are_written_in_decimal(octet);
    }
    address::reverse_name_has_reverse_labels(octets);
    lemma_reverse_text(octets);
}

/// A query, byte by byte: the id with its high byte first, the flag that asks for recursion, one
/// question and nothing else, the encoded name, the type of a PTR record, the internet class.
pub proof fn query_bytes(txid: u16, name: Seq<char>)
    ensures
        query::query(txid, name) is Some <==> name::qname(name) is Some,
        query::query(txid, name) matches Some(packet) ==> {
            let end = packet.len() as int;
            &&& end == 12 + name::qname(name)->0.len() + 4
            &&& packet[0] == txid / 256
            &&& packet[1] == txid % 256
            &&& packet[2] == 1
            &&& packet[3] == 0
            &&& packet[4] == 0
            &&& packet[5] == 1
            &&& forall|i: int| 6 <= i < 12 ==> packet[i] == 0
            &&& packet.subrange(12, end - 4) == name::qname(name)->0
            &&& packet[end - 4] == 0
            &&& packet[end - 3] == 12
            &&& packet[end - 2] == 0
            &&& packet[end - 1] == 1
        },
{
    if let Some(packet) = query::query(txid, name) {
        assert(packet.subrange(12, packet.len() - 4) =~= name::qname(name)->0);
    }
}

/// Two queries for one name differ in their id alone, and one id gives one query.
pub proof fn queries_for_one_name_differ_in_the_id(a: u16, b: u16, name: Seq<char>)
    requires
        name::qname(name) is Some,
    ensures
        query::query(a, name)->0.skip(2) == query::query(b, name)->0.skip(2),
        query::query(a, name) == query::query(b, name) <==> a == b,
{
    query_bytes(a, name);
    query_bytes(b, name);
    let x = query::query(a, name)->0;
    let y = query::query(b, name)->0;
    assert(x.skip(2) =~= y.skip(2)) by {
        assert forall|i: int| 2 <= i < x.len() implies x[i] == y[i] by {
            if 12 <= i < x.len() - 4 {
                assert(x[i] == x.subrange(12, x.len() - 4)[i - 12]);
                assert(y[i] == y.subrange(12, y.len() - 4)[i - 12]);
            }
        }
    }
    if x == y {
        assert(a / 256 == b / 256 && a % 256 == b % 256);
    }
}

/// A name ends at the same distance in two packets that hold the same from where it starts.
proof fn lemma_name_end_shift(a: Seq<u8>, at: int, b: Seq<u8>, bt: int)
    requires
        0 <= at <= a.len(),
        0 <= bt <= b.len(),
        a.skip(at) == b.skip(bt),
    ensures
        question::name_end(b, bt) == match question::name_end(a, at) {
            Some(end) => Some(end - at + bt),
            None => None,
        },
    decreases a.len() - at,
{
    assert(a.skip(at).len() == a.len() - at);
    assert(b.skip(bt).len() == b.len() - bt);
    if at < a.len() {
        assert(a[at] == a.skip(at)[0]);
        assert(b[bt] == b.skip(bt)[0]);
        let step = 1 + a[at];
        if a[at] != 0 && a[at] <= 63 && at + step <= a.len() {
            assert(a.skip(at + step) =~= a.skip(at).skip(step));
            assert(b.skip(bt + step) =~= b.skip(bt).skip(step));
            lemma_name_end_shift(a, at + step, b, bt + step);
        }
    }
}

/// A label of 1 to 63 bytes behind its length, put between the header and the rest, moves the end
/// of the question by as many bytes. Where there was none, there is none.
pub proof fn label_moves_the_end_of_the_question(header: Seq<u8>, label: Seq<u8>, rest: Seq<u8>)
    requires
        header.len() == 12,
        1 <= label.len() <= 63,
    ensures
        question::question_end(header + seq![label.len() as u8] + label + rest)
            == match question::question_end(header + rest) {
            Some(end) => Some(end + 1 + label.len()),
            None => None,
        },
{
    let packet = header + seq![label.len() as u8] + label + rest;
    let behind = 13 + label.len() as int;
    assert(packet.skip(behind) =~= rest);
    assert((header + rest).skip(12) =~= rest);
    lemma_name_end_shift(header + rest, 12, packet, behind);
    assert(packet[12] == label.len());
}

/// A question whose name ends at once is five bytes long: the zero, and four bytes that must all
/// be there.
pub proof fn empty_name_ends_the_question(header: Seq<u8>, rest: Seq<u8>)
    requires
        header.len() == 12,
    ensures
        question::question_end(header + seq![0u8] + rest) == if rest.len() >= 4 {
            Some(17int)
        } else {
            None
        },
{
    assert((header + seq![0u8] + rest)[12] == 0);
}

/// There is no question in a packet without a byte behind the header, behind a length byte above
/// 63, and behind one that says more than the packet holds.
pub proof fn broken_name_has_no_question(header: Seq<u8>, len: u8, rest: Seq<u8>)
    requires
        header.len() == 12,
    ensures
        forall|i: int| 0 <= i <= 12 ==> question::question_end(#[trigger] header.take(i)) is None,
        len > 63 || len > rest.len() ==> question::question_end(header + seq![len] + rest) is None,
{
    let packet = header + seq![len] + rest;
    assert(packet[12] == len);
}

/// What is made of a packet, in plain bytes and in the order of the checks. The premise is what
/// the check of a response promises of its result.
pub proof fn verdict_in_plain_bytes(
    packet: Seq<u8>,
    request: Seq<u8>,
    txid: u16,
    checked: Result<(), DnsValidationError>,
)
    requires
        match checked {
            Ok(()) => response::response_fault(packet, request, txid) is None,
            Err(error) => response::response_fault(packet, request, txid) is Some
                && response::reports(error, response::response_fault(packet, request, txid)->0),
        },
    ensures
        if packet.len() < 12 {
            checked matches Err(DnsValidationError::Mismatch(text)) && text@
                == "packet too short"@
        } else if packet[0] * 256 + packet[1] != txid {
            checked matches Err(DnsValidationError::TxidMismatch)
        } else if packet[2] < 128 {
            checked matches Err(DnsValidationError::Mismatch(text)) && text@
                == "not a DNS response"@
        } else if packet[3] % 16 != 0 {
            checked matches Err(DnsValidationError::Mismatch(text)) && text@
                == "rcode is non-zero"@
        } else if packet[4] == 0 && packet[5] == 0 {
            checked matches Err(DnsValidationError::Mismatch(text)) && text@
                == "missing question section"@
        } else if packet[6] == 0 && packet[7] == 0 {
            checked matches Err(DnsValidationError::Mismatch(text)) && text@
                == "no answers in response"@
        } else {
            match question::question_end(packet) {
                None => checked matches Err(DnsValidationError::Mismatch(text)) && text@
                    == "invalid response question"@,
                Some(end) => if packet.subrange(12, end) == request.subrange(
                    12,
                    request.len() as int,
                ) {
                    checked is Ok
                } else {
                    checked matches Err(DnsValidationError::Mismatch(text)) && text@
                        == "question mismatch"@
                },
            }
        },
{
}

/// Which fault a packet has, in plain bytes and in the order of the checks.
pub proof fn faults_in_plain_bytes(packet: Seq<u8>, request: Seq<u8>, txid: u16)
    ensures
        response::response_fault(packet, request, txid) == if packet.len() < 12 {
            Some(response::Fault::TooShort)
        } else if packet[0] * 256 + packet[1] != txid {
            Some(response::Fault::OtherTxid)
        } else if packet[2] < 128 {
            Some(response::Fault::NotAResponse)
        } else if packet[3] % 16 != 0 {
            Some(response::Fault::ErrorCode)
        } else if packet[4] == 0 && packet[5] == 0 {
            Some(response::Fault::NoQuestion)
        } else if packet[6] == 0 && packet[7] == 0 {
            Some(response::Fault::NoAnswer)
        } else {
            match question::question_end(packet) {
                None => Some(response::Fault::BadQuestion),
                Some(end) => if packet.subrange(12, end) == request.subrange(
                    12,
                    request.len() as int,
                ) {
                    None
                } else {
                    Some(response::Fault::OtherQuestion)
                },
            }
        },
        response::reason(response::Fault::TooShort) == "packet too short"@,
        response::reason(response::Fault::NotAResponse) == "not a DNS response"@,
        response::reason(response::Fault::ErrorCode) == "rcode is non-zero"@,
        response::reason(response::Fault::NoQuestion) == "missing question section"@,
        response::reason(response::Fault::NoAnswer) == "no answers in response"@,
        response::reason(response::Fault::BadQuestion) == "invalid response question"@,
        response::reason(response::Fault::OtherQuestion) == "question mismatch"@,
{
}

/// What is made of a packet before the request is looked at, in plain bytes. The premise is what
/// [`response::check_packet`] promises of its result.
pub proof fn packet_verdict_in_plain_bytes(
    packet: Seq<u8>,
    txid: u16,
    checked: Result<usize, DnsValidationError>,
)
    requires
        match checked {
            Ok(end) => response::packet_fault(packet, txid) is None && question::question_end(
                packet,
            ) == Some(end as int),
            Err(error) => response::packet_fault(packet, txid) is Some && response::reports(
                error,
                response::packet_fault(packet, txid)->0,
            ),
        },
    ensures
        checked is Ok <==> {
            &&& packet.len() >= 12
            &&& packet[0] * 256 + packet[1] == txid
            &&& packet[2] / 128 == 1
            &&& packet[3] % 16 == 0
            &&& packet[4] + packet[5] > 0
            &&& packet[6] + packet[7] > 0
            &&& question::question_end(packet) is Some
        },
        checked matches Err(DnsValidationError::TxidMismatch) <==> packet.len() >= 12 && packet[0]
            * 256 + packet[1] != txid,
{
}

/// A packet is a response exactly when the highest bit of its third byte is set, and its code is
/// what the lower four bits of the fourth are worth.
pub proof fn flags_in_plain_bytes(packet: Seq<u8>)
    requires
        packet.len() >= 12,
    ensures
        response::is_response(packet) <==> packet[2] as int / 128 == 1,
        response::rcode(packet) == packet[3] as int - packet[3] as int / 16 * 16,
{
}

/// The other flags do not matter: packets that differ only in the lower seven bits of the third
/// byte and the higher four bits of the fourth have the same fault, or both have none. Nor do the
/// counts of authorities and additional records.
pub proof fn other_header_bits_do_not_matter(
    a: Seq<u8>,
    b: Seq<u8>,
    request: Seq<u8>,
    txid: u16,
)
    requires
        a.len() == b.len(),
        a.len() >= 12,
        a[2] as int / 128 == b[2] as int / 128,
        a[3] as int % 16 == b[3] as int % 16,
        forall|i: int|
            0 <= i < a.len() && i != 2 && i != 3 && !(8 <= i < 12) ==> #[trigger] a[i] == b[i],
    ensures
        response::response_fault(a, request, txid) == response::response_fault(b, request, txid),
{
    assert(a.skip(12) =~= b.skip(12));
    lemma_name_end_shift(a, 12, b, 12);
    if question::question_end(a) is Some {
        question::question_depends_on_its_bytes(a, a.len() as int);
        question::question_depends_on_its_bytes(b, b.len() as int);
        assert(response::asked(a) =~= response::asked(b));
    }
}

/// Every successful response that echoes the question of an endpoint's probe is accepted, whatever
/// else its header says and whatever follows the question. All is said in plain bytes.
pub proof fn echo_of_a_probe_is_accepted(packet: Seq<u8>, txid: u16, octets: Seq<u8>)
    requires
        octets.len() == 4,
        packet.len() >= 12,
        packet[0] == txid / 256,
        packet[1] == txid % 256,
        packet[2] >= 128,
        packet[3] % 16 == 0,
        packet[4] != 0 || packet[5] != 0,
        packet[6] != 0 || packet[7] != 0,
        ({
            let request = query::query(txid, address::reverse_name(octets))->0;
            &&& request.len() <= packet.len()
            &&& forall|i: int| 12 <= i < request.len() ==> #[trigger] packet[i] == request[i]
        }),
    ensures
        query::query(txid, address::reverse_name(octets)) is Some,
        response::response_fault(
            packet,
            query::query(txid, address::reverse_name(octets))->0,
            txid,
        ) is None,
{
    let name = address::reverse_name(octets);
    query::reverse_name_is_well_formed(octets);
    query::well_formed_names_are_encoded(txid, name);
    query_bytes(txid, name);
    let request = query::query(txid, name)->0;
    assert(packet.subrange(12, request.len() as int) =~= request.skip(12));
    response::answer_about_the_endpoint_is_accepted(packet, txid, octets);
}

/// What one event does to a wait, in plain terms: the deadline ends it, by whether a packet was
/// seen; a failure to receive does not; a packet with another id does not; every other packet
/// does, well if nothing is wrong with it and badly if something is.
pub proof fn outcome_in_plain_terms(sent: Sent, saw_packet: bool, event: Event)
    ensures
        event is Expired && saw_packet ==> session::outcome(sent, saw_packet, event) == Some(
            RecvResult::Mismatch,
        ),
        event is Expired && !saw_packet ==> session::outcome(sent, saw_packet, event) == Some(
            RecvResult::Timeout,
        ),
        event is NoPacket ==> session::outcome(sent, saw_packet, event) is None,
        event matches Event::Packet(packet) ==> session::outcome(sent, saw_packet, event)
            == if packet.len() >= 12 && packet[0] * 256 + packet[1] != sent.txid {
            None
        } else if response::response_fault(packet, sent.request, sent.txid) is None {
            Some(RecvResult::Match)
        } else {
            Some(RecvResult::Mismatch)
        },
{
}

/// A wait over events, one by one: it has not ended before the first, an event that ends it makes
/// what comes later not matter, and one that does not leaves it to what comes later, where a
/// packet is remembered.
pub proof fn wait_in_plain_terms(sent: Sent, saw_packet: bool, event: Event, later: Seq<Event>)
    ensures
        session::run(sent, saw_packet, Seq::empty()) is None,
        event is Expired ==> session::run(sent, saw_packet, seq![event] + later) == Some(
            if saw_packet {
                RecvResult::Mismatch
            } else {
                RecvResult::Timeout
            },
        ),
        event is NoPacket ==> session::run(sent, saw_packet, seq![event] + later) == session::run(
            sent,
            saw_packet,
            later,
        ),
        event matches Event::Packet(packet) ==> session::run(sent, saw_packet, seq![event] + later)
            == if packet.len() >= 12 && packet[0] * 256 + packet[1] != sent.txid {
            session::run(sent, true, later)
        } else if response::response_fault(packet, sent.request, sent.txid) is None {
            Some(RecvResult::Match)
        } else {
            Some(RecvResult::Mismatch)
        },
{
    session::run_is_step_by_step(sent, saw_packet, event, later);
}

/// The options are followed: what was asked for is what the configuration says, with the DNS port
/// and, where no list of cores was given, core zero.
pub proof fn options_are_followed(
    args: CliArgs,
    read: Option<Result<Seq<usize>, Seq<char>>>,
    result: Result<Config, ConfigError>,
)
    requires
        config::configures(args, read, result),
    ensures
        result matches Ok(config) ==> {
            &&& config.endpoint_ip@ == args.endpoint_ip@
            &&& config.endpoint_port == 53
            &&& config.timeout_ms == args.timeout_ms
            &&& config.xdp_config.interface == args.retransmit_xdp_interface
            &&& config.xdp_config.zero_copy == args.retransmit_xdp_zero_copy
            &&& read is None ==> config.xdp_config.cpus@ == seq![0usize]
            &&& read matches Some(list) ==> list == Ok::<Seq<usize>, Seq<char>>(
                config.xdp_config.cpus@,
            )
        },
        result matches Err(ConfigError::CpuCores(text)) <==> (read matches Some(list)
            && list is Err),
        result matches Err(ConfigError::CpuCores(text)) ==> read == Some(
            Err::<Seq<usize>, Seq<char>>(text@),
        ),
        result matches Err(ConfigError::MissingCpuCores) <==> read is None && (
        args.retransmit_xdp_interface is Some || args.retransmit_xdp_zero_copy),
{
}

/// Cutting at a separator, from the front: what holds none is one piece, and what stands before
/// the first is the first piece, with the pieces of what stands behind it after that.
pub proof fn pieces_are_cut_at_every_separator<T>(piece: Seq<T>, sep: T, rest: Seq<T>)
    requires
        forall|i: int| 0 <= i < piece.len() ==> piece[i] != sep,
    ensures
        split::split(piece, sep) == seq![piece],
        split::split(piece + seq![sep] + rest, sep) == seq![piece] + split::split(rest, sep),
{
    split::lemma_split_single(piece, sep);
    split::lemma_split_cons(piece, sep, rest);
}

/// An entry without a hyphen or a comma is read as its number.
proof fn lemma_single(entry: Seq<char>)
    requires
        forall|i: int| 0 <= i < entry.len() ==> entry[i] != ',' && entry[i] != '-',
    ensures
        cpus::cpu_ranges(entry) == match cpus::number(entry) {
            Some(core) => Ok::<Seq<usize>, Seq<char>>(seq![core]),
            None => Err(entry),
        },
{
    split::lemma_split_single(entry, ',');
    split::lemma_split_single(entry, '-');
    if cpus::number(entry) is Some {
        let core = cpus::number(entry)->0;
        cpus::lemma_one_entry(entry);
        assert(cpus::range_cores((core, core)) =~= seq![core]);
    } else {
        assert(seq![entry][0] == entry);
    }
}

/// A list of one digit stands for the core with that number.
pub proof fn digit_names_its_core(c: char)
    requires
        '0' <= c <= '9',
    ensures
        cpus::cpu_ranges(seq![c]) == Ok::<Seq<usize>, Seq<char>>(seq![(c as int - 48) as usize]),
{
    let text = seq![c];
    lemma_single(text);
    assert(text.drop_last() =~= Seq::<char>::empty());
    assert(cpus::digits_value(text.drop_last()) == 0);
    assert(cpus::is_digit(text[0]));
    assert(cpus::digits_value(text) == c as int - 48);
}

/// One more digit multiplies the core of a list of digits by ten and adds the digit, as long as
/// the number fits. From there on the list cannot be read.
pub proof fn digit_extends_its_core(text: Seq<char>, c: char)
    requires
        text.len() > 0,
        forall|i: int| 0 <= i < text.len() ==> '0' <= #[trigger] text[i] <= '9',
        '0' <= c <= '9',
    ensures
        cpus::cpu_ranges(text) matches Ok(cores) ==> cores.len() == 1 && cpus::cpu_ranges(
            text.push(c),
        ) == if cores[0] * 10 + (c as int - 48) <= usize::MAX {
            Ok::<Seq<usize>, Seq<char>>(seq![(cores[0] * 10 + (c as int - 48)) as usize])
        } else {
            Err(text.push(c))
        },
        cpus::cpu_ranges(text) is Err ==> cpus::cpu_ranges(text) == Err::<Seq<usize>, Seq<char>>(
            text,
        ) && cpus::cpu_ranges(text.push(c)) == Err::<Seq<usize>, Seq<char>>(text.push(c)),
{
    let longer = text.push(c);
    assert forall|i: int| 0 <= i < longer.len() implies '0' <= #[trigger] longer[i] <= '9' by {
        if i < text.len() {
            assert(longer[i] == text[i]);
        }
    }
    lemma_single(text);
    lemma_single(longer);
    assert(longer.drop_last() =~= text);
    assert('0' <= text[0] <= '9');
    assert('0' <= longer[0] <= '9');
    assert(cpus::all_digits(text));
    assert(cpus::all_digits(longer));
    assert(cpus::digits_value(longer) == cpus::digits_value(text) * 10 + (c as int - 48));
}

/// A plus sign in front of digits changes nothing but the text of an error.
pub proof fn plus_sign_is_skipped(text: Seq<char>)
    requires
        forall|i: int| 0 <= i < text.len() ==> '0' <= #[trigger] text[i] <= '9',
    ensures
        cpus::cpu_ranges(seq!['+'] + text) == match cpus::cpu_ranges(text) {
            Ok(cores) => Ok::<Seq<usize>, Seq<char>>(cores),
            Err(_) => Err(seq!['+'] + text),
        },
{
    let signed = seq!['+'] + text;
    assert forall|i: int| 0 <= i < signed.len() implies signed[i] != ',' && signed[i] != '-' by {
        if i > 0 {
            assert(signed[i] == text[i - 1]);
        }
    }
    lemma_single(text);
    lemma_single(signed);
    assert(signed.drop_first() =~= text);
    assert(text.len() > 0 ==> '0' <= text[0] <= '9');
}

/// An entry without a hyphen that is empty, only a plus sign, or holds anything but digits behind
/// its first place or anything but a digit or a plus sign there, cannot be read.
pub proof fn other_characters_cannot_be_read(entry: Seq<char>, at: int)
    requires
        forall|i: int| 0 <= i < entry.len() ==> entry[i] != ',' && entry[i] != '-',
        ({
            ||| entry.len() == 0
            ||| entry == seq!['+']
            ||| 0 <= at < entry.len() && !('0' <= entry[at] <= '9') && (at > 0 || entry[at] != '+')
        }),
    ensures
        cpus::cpu_ranges(entry) == Err::<Seq<usize>, Seq<char>>(entry),
{
    lemma_single(entry);
    let digits = cpus::unsigned(entry);
    if entry == seq!['+'] {
        assert(digits.len() == 0);
    } else if entry.len() > 0 {
        if entry[0] == '+' {
            assert(digits[at - 1] == entry[at]);
        } else {
            assert(digits[at] == entry[at]);
        }
    }
}

/// Two cores with a hyphen between them stand for all cores from the first to the last, in
/// ascending order, and for none where the first is larger. Where one of the two cannot be read,
/// the whole entry cannot.
pub proof fn hyphen_names_the_cores_between(first: Seq<char>, last: Seq<char>)
    requires
        forall|i: int| 0 <= i < first.len() ==> first[i] != ',' && first[i] != '-',
        forall|i: int| 0 <= i < last.len() ==> last[i] != ',' && last[i] != '-',
    ensures
        ({
            let whole = first + seq!['-'] + last;
            match (cpus::cpu_ranges(first), cpus::cpu_ranges(last)) {
                (Ok(a), Ok(b)) => {
                    &&& a.len() == 1
                    &&& b.len() == 1
                    &&& cpus::cpu_ranges(whole) matches Ok(cores) && cores.len() == if a[0] <= b[0] {
                        b[0] - a[0] + 1
                    } else {
                        0
                    } && forall|i: int| 0 <= i < cores.len() ==> #[trigger] cores[i] == a[0] + i
                },
                _ => cpus::cpu_ranges(whole) == Err::<Seq<usize>, Seq<char>>(whole),
            }
        }),
{
    let whole = first + seq!['-'] + last;
    lemma_single(first);
    lemma_single(last);
    assert forall|i: int| 0 <= i < whole.len() implies whole[i] != ',' by {
        if i < first.len() {
            assert(whole[i] == first[i]);
        } else if i > first.len() {
            assert(whole[i] == last[i - first.len() - 1]);
        }
    }
    split::lemma_split_single(whole, ',');
    split::lemma_split_cons(first, '-', last);
    split::lemma_split_single(last, '-');
    assert(split::split(whole, '-') =~= seq![first, last]);
    if cpus::entry_range(whole) is Some {
        cpus::lemma_one_entry(whole);
    } else {
        assert(seq![whole][0] == whole);
    }
}

/// An entry with two hyphens or more cannot be read.
pub proof fn second_hyphen_cannot_be_read(a: Seq<char>, b: Seq<char>, c: Seq<char>)
    requires
        forall|i: int| 0 <= i < a.len() ==> a[i] != ',' && a[i] != '-',
        forall|i: int| 0 <= i < b.len() ==> b[i] != ',' && b[i] != '-',
        forall|i: int| 0 <= i < c.len() ==> c[i] != ',',
    ensures
        ({
            let whole = a + seq!['-'] + (b + seq!['-'] + c);
            cpus::cpu_ranges(whole) == Err::<Seq<usize>, Seq<char>>(whole)
        }),
{
    let tail = b + seq!['-'] + c;
    let whole = a + seq!['-'] + tail;
    assert forall|i: int| 0 <= i < tail.len() implies tail[i] != ',' by {
        if i < b.len() {
            assert(tail[i] == b[i]);
        } else if i > b.len() {
            assert(tail[i] == c[i - b.len() - 1]);
        }
    }
    assert forall|i: int| 0 <= i < whole.len() implies whole[i] != ',' by {
        if i < a.len() {
            assert(whole[i] == a[i]);
        } else if i > a.len() {
            assert(whole[i] == tail[i - a.len() - 1]);
        }
    }
    split::lemma_split_single(whole, ',');
    split::lemma_split_cons(a, '-', tail);
    split::lemma_split_cons(b, '-', c);
    split::join_undoes_split(c, '-');
    assert(split::split(whole, '-').len() >= 3);
    assert(seq![whole][0] == whole);
}

/// A comma puts the cores of an entry in front of those of the rest. The error is that of the
/// entry, or else that of the rest.
pub proof fn comma_puts_cores_in_a_row(entry: Seq<char>, rest: Seq<char>)
    requires
        forall|i: int| 0 <= i < entry.len() ==> entry[i] != ',',
    ensures
        ({
            let whole = entry + seq![','] + rest;
            &&& cpus::cpu_ranges(entry) is Err ==> cpus::cpu_ranges(whole) == cpus::cpu_ranges(
                entry,
            )
            &&& cpus::cpu_ranges(entry) is Ok && cpus::cpu_ranges(rest) is Err
                ==> cpus::cpu_ranges(whole) == cpus::cpu_ranges(rest)
            &&& cpus::cpu_ranges(entry) is Ok && cpus::cpu_ranges(rest) is Ok ==> cpus::cpu_ranges(
                whole,
            ) == Ok::<Seq<usize>, Seq<char>>(
                cpus::cpu_ranges(entry)->Ok_0 + cpus::cpu_ranges(rest)->Ok_0,
            )
        }),
{
    cpus::list_is_read_entry_by_entry(entry, rest);
}

/// A list that can be read is expandable exactly when it has not too many cores.
pub proof fn readable_list_is_expandable_by_its_cores(list: Seq<char>)
    requires
        cpus::cpu_ranges(list) is Ok,
    ensures
        cpus::expandable(list) <==> cpus::cpu_ranges(list)->Ok_0.len() * 32 <= isize::MAX,
{
    cpus::readable_list_has_the_counted_cores(list);
}

/// An entry that cannot be read makes what follows it not matter. A list is then expandable
/// exactly when it is without that entry and what follows.
pub proof fn unreadable_entry_ends_the_count(list: Seq<char>, entry: Seq<char>, rest: Seq<char>)
    requires
        cpus::cpu_ranges(list) is Ok,
        forall|i: int| 0 <= i < entry.len() ==> entry[i] != ',',
        cpus::cpu_ranges(entry) is Err,
    ensures
        cpus::expandable(entry),
        cpus::expandable(entry + seq![','] + rest),
        cpus::expandable(list + seq![','] + entry) <==> cpus::expandable(list),
        cpus::expandable(list + seq![','] + (entry + seq![','] + rest)) <==> cpus::expandable(list),
{
    let behind = entry + seq![','] + rest;
    split::lemma_split_single(entry, ',');
    split::lemma_split_cons(entry, ',', rest);
    assert(seq![entry][0] == entry);
    assert(split::split(behind, ',')[0] == entry);
    if cpus::entry_range(entry) is Some {
        cpus::lemma_one_entry(entry);
    }
    assert(cpus::readable_len(split::split(entry, ',')) == 0);
    assert(cpus::readable_len(split::split(behind, ',')) == 0);
    lemma_split_concat(list, ',', entry);
    lemma_split_concat(list, ',', behind);
    lemma_readable_concat(split::split(list, ','), split::split(entry, ','));
    lemma_readable_concat(split::split(list, ','), split::split(behind, ','));
}

/// The pieces of two sequences with a separator between them are those of both in a row.
proof fn lemma_split_concat<T>(a: Seq<T>, sep: T, b: Seq<T>)
    ensures
        split::split(a + seq![sep] + b, sep) == split::split(a, sep) + split::split(b, sep),
    decreases a.len(),
{
    split::join_undoes_split(a, sep);
    let pieces = split::split(a, sep);
    let head = pieces[0];
    if pieces.len() == 1 {
        assert(a == head);
        split::lemma_split_cons(head, sep, b);
        assert(pieces =~= seq![head]);
    } else {
        let rest = split::join(pieces.drop_first(), sep);
        assert(a == head + seq![sep] + rest);
        lemma_split_concat(rest, sep, b);
        split::lemma_split_cons(head, sep, rest);
        split::lemma_split_cons(head, sep, rest + seq![sep] + b);
        assert(a + seq![sep] + b =~= head + seq![sep] + (rest + seq![sep] + b));
        assert(split::split(a + seq![sep] + b, sep) =~= pieces + split::split(b, sep));
    }
}

/// Behind entries that can all be read the count goes on.
proof fn lemma_readable_concat(a: Seq<Seq<char>>, b: Seq<Seq<char>>)
    requires
        cpus::entries_cores(a) is Ok,
    ensures
        cpus::readable_len(a + b) == cpus::readable_len(a) + cpus::readable_len(b),
    decreases a.len(),
{
    if a.len() == 0 {
        assert(a + b =~= b);
    } else {
        assert((a + b)[0] == a[0]);
        assert((a + b).drop_first() =~= a.drop_first() + b);
        lemma_readable_concat(a.drop_first(), b);
    }
}

} // verus!
