//! Domain names in the form in which they travel in a DNS message.

use crate::split;
use vstd::prelude::*;
use vstd::utf8;

verus! {

/// The labels of a dotted name: the UTF-8 bytes between its dots.
pub open spec fn labels(name: Seq<char>) -> Seq<Seq<u8>> {
    split::split(name, '.').map_values(|label: Seq<char>| utf8::encode_utf8(label))
}

/// A label behind its length.
pub open spec fn wire_label(label: Seq<u8>) -> Seq<u8> {
    seq![label.len() as u8] + label
}

/// Labels in a row, each behind its length.
pub open spec fn wire_labels(labels: Seq<Seq<u8>>) -> Seq<u8>
    decreases labels.len(),
{
    if labels.len() == 0 {
        seq![]
    } else {
        wire_label(labels[0]) + wire_labels(labels.drop_first())
    }
}

/// Whether the length of every label fits in the byte before it.
pub open spec fn lengths_fit(labels: Seq<Seq<u8>>) -> bool {
    forall|i: int| 0 <= i < labels.len() ==> (#[trigger] labels[i]).len() <= u8::MAX
}

/// The encoded form of a name: its labels, then the zero length that ends it. There is none where
/// a label is longer than its length byte can say.
pub open spec fn qname(name: Seq<char>) -> Option<Seq<u8>> {
    if lengths_fit(labels(name)) {
        Some(wire_labels(labels(name)).push(0))
    } else {
        None
    }
}

/// Two runs of labels one after the other.
pub proof fn lemma_wire_concat(a: Seq<Seq<u8>>, b: Seq<Seq<u8>>)
    ensures
        wire_labels(a + b) == wire_labels(a) + wire_labels(b),
    decreases a.len(),
{
    if a.len() == 0 {
        assert(a + b =~= b);
        assert(wire_labels(a) + wire_labels(b) =~= wire_labels(b));
    } else {
        lemma_wire_concat(a.drop_first(), b);
        assert((a + b).drop_first() =~= a.drop_first() + b);
        assert(wire_labels(a + b) =~= wire_labels(a) + wire_labels(b));
    }
}

/// One more label at the end.
pub proof fn lemma_wire_push(labels: Seq<Seq<u8>>, label: Seq<u8>)
    ensures
        wire_labels(labels.push(label)) == wire_labels(labels) + wire_label(label),
{
    let one = seq![label];
    assert(labels.push(label) =~= labels + one);
    lemma_wire_concat(labels, one);
    assert(wire_labels(one) =~= wire_label(label)) by {
        reveal_with_fuel(wire_labels, 2);
        assert(one.drop_first() =~= Seq::<Seq<u8>>::empty());
    }
}

/// Labels whose lengths fit in a byte are recovered from their encoded form.
pub proof fn lemma_wire_injective(a: Seq<Seq<u8>>, b: Seq<Seq<u8>>)
    requires
        lengths_fit(a),
        lengths_fit(b),
        wire_labels(a) == wire_labels(b),
    ensures
        a == b,
    decreases a.len(),
{
    if a.len() == 0 {
        assert(b.len() == 0) by {
            if b.len() > 0 {
                assert(wire_labels(b).len() >= 1);
            }
        }
    } else {
        let bytes = wire_labels(a);
        assert(b.len() > 0) by {
            assert(bytes.len() >= 1);
        }
        let len = a[0].len() as int;
        assert(bytes[0] == a[0].len());
        assert(bytes[0] == b[0].len());
        assert(a[0] =~= bytes.subrange(1, 1 + len));
        assert(b[0] =~= bytes.subrange(1, 1 + len));
        assert(wire_labels(a.drop_first()) =~= bytes.skip(1 + len));
        assert(wire_labels(b.drop_first()) =~= bytes.skip(1 + len));
        assert(lengths_fit(a.drop_first()));
        assert(lengths_fit(b.drop_first()));
        lemma_wire_injective(a.drop_first(), b.drop_first());
        assert(a =~= seq![a[0]] + a.drop_first());
        assert(b =~= seq![b[0]] + b.drop_first());
    }
}

/// Names with the same labels are the same.
proof fn lemma_labels_injective(a: Seq<char>, b: Seq<char>)
    requires
        labels(a) == labels(b),
    ensures
        a == b,
{
    let pieces_a = split::split(a, '.');
    let pieces_b = split::split(b, '.');
    assert(pieces_a.len() == labels(a).len());
    assert(pieces_b.len() == labels(b).len());
    assert forall|i: int| 0 <= i < pieces_a.len() implies pieces_a[i] == pieces_b[i] by {
        assert(labels(a)[i] == utf8::encode_utf8(pieces_a[i]));
        assert(labels(b)[i] == utf8::encode_utf8(pieces_b[i]));
        utf8::encode_utf8_decode_utf8(pieces_a[i]);
        utf8::encode_utf8_decode_utf8(pieces_b[i]);
    }
    assert(pieces_a =~= pieces_b);
    split::join_undoes_split(a, '.');
    split::join_undoes_split(b, '.');
}

/// Two names have the same encoded form only if they are the same name: what stands in a question
/// tells which name was asked for.
pub proof fn encoding_is_injective(a: Seq<char>, b: Seq<char>)
    requires
        qname(a) is Some,
        qname(a) == qname(b),
    ensures
        a == b,
{
    assert(qname(a)->0.drop_last() =~= wire_labels(labels(a)));
    assert(qname(b)->0.drop_last() =~= wire_labels(labels(b)));
    lemma_wire_injective(labels(a), labels(b));
    lemma_labels_injective(a, b);
}

/// Encodes a dotted name as a sequence of labels, each behind its length, with the zero length at
/// the end. Returns `None` where a label is longer than 255 bytes. Labels may be empty: an empty
/// name has one empty label.
pub fn encode_qname(name: &str) -> (encoded: Option<Vec<u8>>)
    ensures
        match encoded {
            Some(bytes) => qname(name@) == Some(bytes@),
            None => qname(name@) is None,
        },
{
    let bytes: &[u8] = name.as_bytes();
    let mut out: Vec<u8> = Vec::new();
    let mut start: usize = 0;
    let ghost mut done: Seq<Seq<u8>> = seq![];
    proof {
        split::lemma_split_encode(name@);
        assert(bytes@.skip(0) =~= bytes@);
        assert(done + split::split(bytes@, 0x2eu8) =~= split::split(bytes@, 0x2eu8));
    }
    loop
        invariant_except_break
            split::split(bytes@, 0x2eu8) == done + split::split(bytes@.skip(start as int), 0x2eu8),
        invariant
            labels(name@) == split::split(bytes@, 0x2eu8),
            start <= bytes@.len(),
            lengths_fit(done),
            out@ == wire_labels(done),
        ensures
            split::split(bytes@, 0x2eu8) == done,
        decreases bytes@.len() - start,
    {
        let mut end: usize = start;
        while end < bytes.len() && bytes[end] != 0x2e
            invariant
                start <= end <= bytes@.len(),
                forall|i: int| start <= i < end ==> bytes@[i] != 0x2e,
            ensures
                end < bytes@.len() ==> bytes@[end as int] == 0x2e,
            decreases bytes@.len() - end,
        {
            end = end + 1;
        }
        let label: &[u8] = &bytes[start..end];
        let ghost rest = bytes@.skip(start as int);
        proof {
            split::lemma_first_is(rest, 0x2eu8, end - start);
            assert(rest.take(end - start) =~= label@);
            assert(end < bytes@.len() ==> rest.skip(end - start + 1) =~= bytes@.skip(end + 1));
            assert(split::split(rest, 0x2eu8)[0] =~= label@);
            assert(split::split(bytes@, 0x2eu8)[done.len() as int] == label@);
        }
        if label.len() > 255 {
            return None;
        }
        let ghost before = out@;
        out.push(label.len() as u8);
        out.extend_from_slice(label);
        proof {
            assert(out@ =~= before + wire_label(label@));
            lemma_wire_push(done, label@);
            let grown = done.push(label@);
            assert(split::split(bytes@, 0x2eu8) =~= if end < bytes@.len() {
                grown + split::split(bytes@.skip(end + 1), 0x2eu8)
            } else {
                grown
            });
            done = grown;
        }
        if end >= bytes.len() {
            break;
        }
        start = end + 1;
    }
    out.push(0);
    Some(out)
}

} // verus!
