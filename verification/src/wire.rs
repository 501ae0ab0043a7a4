//! Sizes of the parts of a DNS message, and the two-byte numbers in it.

use vstd::prelude::*;

verus! {

/// Room for one received payload: 1280 bytes less the IPv6 header and the UDP header.
pub const DNS_RECV_BUF_SIZE: usize = 1280 - 40 - 8;

/// Length of the header in front of the question.
pub const DNS_HEADER_LEN: usize = 12;

/// Length of what follows the name in a question: its type and its class.
pub const DNS_QUESTION_TRAILER_LEN: usize = 4;

/// The longest label that a name in a question may have.
pub const DNS_MAX_LABEL_LEN: usize = 63;

/// A number as two bytes, the high one first.
pub open spec fn be_bytes(number: u16) -> Seq<u8> {
    seq![(number / 256) as u8, (number % 256) as u8]
}

/// The number in the two bytes from `at` on.
pub open spec fn be_u16(bytes: Seq<u8>, at: int) -> int {
    bytes[at] * 256 + bytes[at + 1]
}

/// A number that was written as two bytes is read back from them, wherever they stand.
pub proof fn be_u16_reads_be_bytes(bytes: Seq<u8>, at: int, number: u16)
    requires
        0 <= at,
        at + 2 <= bytes.len(),
        bytes.subrange(at, at + 2) == be_bytes(number),
    ensures
        be_u16(bytes, at) == number,
{
    assert(bytes.subrange(at, at + 2)[0] == bytes[at]);
    assert(bytes.subrange(at, at + 2)[1] == bytes[at + 1]);
}

/// Appends a number as two bytes.
pub(crate) fn push_u16(out: &mut Vec<u8>, number: u16)
    ensures
        final(out)@ == old(out)@ + be_bytes(number),
{
    out.push((number / 256) as u8);
    out.push((number % 256) as u8);
    assert(out@ =~= old(out)@ + be_bytes(number));
}

/// Reads the number in the two bytes from `at` on.
pub(crate) fn read_u16(bytes: &[u8], at: usize) -> (number: u16)
    requires
        at + 2 <= bytes@.len(),
    ensures
        number == be_u16(bytes@, at as int),
{
    bytes[at] as u16 * 256 + bytes[at + 1] as u16
}

} // verus!
