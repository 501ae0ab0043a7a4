//! Lists of CPU cores as they are written on the command line.
//!
//! A list is in the cpuset format: entries with commas between them, each a core or a range of
//! cores, such as `0-2,7,12-14`.

use crate::{address, split};
use vstd::prelude::*;

verus! {

/// Whether a character is a decimal digit.
pub open spec fn is_digit(c: char) -> bool {
    '0' <= c <= '9'
}

/// Whether a text consists of digits.
pub open spec fn all_digits(text: Seq<char>) -> bool {
    forall|i: int| 0 <= i < text.len() ==> is_digit(#[trigger] text[i])
}

/// The value of a text of digits.
pub open spec fn digits_value(text: Seq<char>) -> nat
    decreases text.len(),
{
    if text.len() == 0 {
        0
    } else {
        (digits_value(text.drop_last()) * 10 + (text.last() as int - '0' as int)) as nat
    }
}

/// The digits of a number, which a plus sign may stand before.
pub open spec fn unsigned(text: Seq<char>) -> Seq<char> {
    if text.len() > 0 && text[0] == '+' {
        text.drop_first()
    } else {
        text
    }
}

/// The number that a text stands for, if it is one and fits in `usize`.
pub open spec fn number(text: Seq<char>) -> Option<usize> {
    let digits = unsigned(text);
    if digits.len() > 0 && all_digits(digits) && digits_value(digits) <= usize::MAX {
        Some(digits_value(digits) as usize)
    } else {
        None
    }
}

/// The first and the last core of an entry, if it can be read: one number stands for both, two
/// numbers have a hyphen between them.
pub open spec fn entry_range(entry: Seq<char>) -> Option<(usize, usize)> {
    let parts = split::split(entry, '-');
    if parts.len() == 1 {
        match number(parts[0]) {
            Some(core) => Some((core, core)),
            None => None,
        }
    } else if parts.len() == 2 {
        match (number(parts[0]), number(parts[1])) {
            (Some(first), Some(last)) => Some((first, last)),
            _ => None,
        }
    } else {
        None
    }
}

/// How many cores lie between two, both included. There are none where the range runs backwards.
pub open spec fn range_len(range: (usize, usize)) -> nat {
    if range.0 <= range.1 {
        (range.1 - range.0 + 1) as nat
    } else {
        0
    }
}

/// The cores between two, both included, in ascending order.
pub open spec fn range_cores(range: (usize, usize)) -> Seq<usize> {
    Seq::new(range_len(range), |i: int| (range.0 + i) as usize)
}

/// The cores of entries in a row, or the first entry that cannot be read.
pub open spec fn entries_cores(entries: Seq<Seq<char>>) -> Result<Seq<usize>, Seq<char>>
    decreases entries.len(),
{
    if entries.len() == 0 {
        Ok(seq![])
    } else {
        match entry_range(entries[0]) {
            None => Err(entries[0]),
            Some(range) => match entries_cores(entries.drop_first()) {
                Ok(cores) => Ok(range_cores(range) + cores),
                Err(entry) => Err(entry),
            },
        }
    }
}

/// The cores that a list stands for, or its first entry that cannot be read.
pub open spec fn cpu_ranges(list: Seq<char>) -> Result<Seq<usize>, Seq<char>> {
    entries_cores(split::split(list, ','))
}

/// How many cores stand in the entries before the first that cannot be read.
pub open spec fn readable_len(entries: Seq<Seq<char>>) -> nat
    decreases entries.len(),
{
    if entries.len() == 0 {
        0
    } else {
        match entry_range(entries[0]) {
            None => 0,
            Some(range) => range_len(range) + readable_len(entries.drop_first()),
        }
    }
}

/// Whether the cores of a list can be written out one by one: as many as are read must fit in the
/// address space with room for a growing vector, 32 bytes for each.
pub open spec fn expandable(list: Seq<char>) -> bool {
    readable_len(split::split(list, ',')) <= isize::MAX / 32
}

/// Calls `solana_clap_utils::input_parsers::parse_cpu_ranges`, and turns its error into text.
///
/// Claimed of it: it cuts the list at commas and each entry at hyphens, reads one number or two
/// with `usize::from_str`, and writes out the ranges one after the other. The error is the text of
/// the first entry that it cannot read. It writes out each range before it looks at the next
/// entry, which panics where the cores exceed the address space; the precondition leaves such
/// lists out.
#[verifier::external_body]
pub(crate) fn parse_ranges(list: &str) -> (parsed: Result<Vec<usize>, String>)
    requires
        expandable(list@),
    ensures
        match parsed {
            Ok(cpus) => cpu_ranges(list@) == Ok::<Seq<usize>, Seq<char>>(cpus@),
            Err(text) => cpu_ranges(list@) == Err::<Seq<usize>, Seq<char>>(text@),
        },
{
    match solana_clap_utils::input_parsers::parse_cpu_ranges(list) {
        Ok(cpus) => Ok(cpus),
        Err(error) => Err(error.to_string()),
    }
}

/// Calls `solana_clap_utils::input_validators::validate_cpu_ranges`.
///
/// Claimed of it: it accepts exactly the lists that `parse_cpu_ranges` reads, and otherwise gives
/// the text of that function's error behind the prefix and a space. It writes out the cores as
/// that function does, hence the same precondition.
#[verifier::external_body]
fn check_ranges(list: &str, prefix: &str) -> (checked: Result<(), String>)
    requires
        expandable(list@),
    ensures
        match checked {
            Ok(()) => cpu_ranges(list@) is Ok,
            Err(text) => cpu_ranges(list@) is Err && text@ == prefix@ + seq![' '] + cpu_ranges(
                list@,
            )->Err_0,
        },
{
    solana_clap_utils::input_validators::validate_cpu_ranges(list, prefix)
}

/// A text of digits is worth at least what each text is worth that it goes on from.
proof fn lemma_value_grows(text: Seq<char>, len: int)
    requires
        0 <= len <= text.len(),
        all_digits(text),
    ensures
        digits_value(text.take(len)) <= digits_value(text),
    decreases text.len(),
{
    if len == text.len() {
        assert(text.take(len) =~= text);
    } else {
        lemma_value_grows(text.drop_last(), len);
        assert(text.drop_last().take(len) =~= text.take(len));
        assert(is_digit(text[text.len() - 1]));
    }
}

/// Finds the first separator from `from` on, or the end.
fn find(text: &[char], from: usize, sep: char) -> (at: usize)
    requires
        from <= text@.len(),
    ensures
        from <= at <= text@.len(),
        at - from == split::first(text@.skip(from as int), sep),
{
    let mut at: usize = from;
    while at < text.len() && text[at] != sep
        invariant
            from <= at <= text@.len(),
            forall|i: int| from <= i < at ==> text@[i] != sep,
        ensures
            at < text@.len() ==> text@[at as int] == sep,
        decreases text@.len() - at,
    {
        at = at + 1;
    }
    proof {
        split::lemma_first_is(text@.skip(from as int), sep, at - from);
    }
    at
}

/// Reads a number as far as it fits in `usize`.
fn read_number(text: &[char]) -> (read: Option<usize>)
    ensures
        read == number(text@),
{
    let start: usize = if text.len() > 0 && text[0] == '+' {
        1
    } else {
        0
    };
    let ghost digits = unsigned(text@);
    assert(digits =~= text@.skip(start as int));
    if start == text.len() {
        return None;
    }
    let mut value: usize = 0;
    let mut at: usize = start;
    while at < text.len()
        invariant
            start <= at <= text@.len(),
            start < text@.len(),
            digits == unsigned(text@),
            digits == text@.skip(start as int),
            all_digits(digits.take(at - start)),
            value == digits_value(digits.take(at - start)),
        decreases text@.len() - at,
    {
        let c: char = text[at];
        let ghost here = at - start;
        assert(digits[here] == c);
        if c < '0' || c > '9' {
            return None;
        }
        let digit: usize = (c as u32 - '0' as u32) as usize;
        proof {
            assert(digits.take(here + 1).drop_last() =~= digits.take(here));
            if all_digits(digits) {
                lemma_value_grows(digits, here + 1);
            }
        }
        if value > (usize::MAX - digit) / 10 {
            return None;
        }
        value = value * 10 + digit;
        at = at + 1;
    }
    assert(digits.take(at - start) =~= digits);
    Some(value)
}

/// Reads an entry as the range of cores that it stands for.
fn read_entry(entry: &[char]) -> (read: Option<(usize, usize)>)
    ensures
        read == entry_range(entry@),
{
    let at: usize = find(entry, 0, '-');
    assert(entry@.skip(0) =~= entry@);
    if at == entry.len() {
        return match read_number(entry) {
            Some(core) => Some((core, core)),
            None => None,
        };
    }
    let head: &[char] = &entry[0..at];
    let tail: &[char] = &entry[at + 1..entry.len()];
    proof {
        assert(head@ =~= entry@.take(at as int));
        assert(tail@ =~= entry@.skip(at + 1));
        split::join_undoes_split(tail@, '-');
        assert(split::split(entry@, '-') =~= seq![head@] + split::split(tail@, '-'));
    }
    let second: usize = find(tail, 0, '-');
    assert(tail@.skip(0) =~= tail@);
    if second < tail.len() {
        proof {
            split::join_undoes_split(tail@.skip(second + 1), '-');
        }
        return None;
    }
    match (read_number(head), read_number(tail)) {
        (Some(first), Some(last)) => Some((first, last)),
        _ => None,
    }
}

/// Whether the cores of a list can be written out one by one without exceeding the address space.
/// [`validate_cpu_list`] and [`crate::parse_args`] take such lists only.
pub fn is_expandable(list: &str) -> (yes: bool)
    ensures
        yes == expandable(list@),
{
    let limit: usize = (isize::MAX / 32) as usize;
    let mut text: Vec<char> = Vec::new();
    for c in iter: list.chars()
        invariant
            iter.seq() == list@,
            text@ == list@.take(iter.index() as int),
    {
        assert(list@.take(iter.index() + 1) =~= text@.push(c));
        text.push(c);
    }
    assert(text@ =~= list@);
    let text: &[char] = text.as_slice();
    let mut counted: usize = 0;
    let mut start: usize = 0;
    assert(list@.skip(0) =~= list@);
    loop
        invariant
            text@ == list@,
            start <= text@.len(),
            limit == isize::MAX / 32,
            counted <= limit,
            readable_len(split::split(list@, ',')) == counted + readable_len(
                split::split(list@.skip(start as int), ','),
            ),
        decreases text@.len() - start,
    {
        let end: usize = find(text, start, ',');
        let entry: &[char] = &text[start..end];
        let ghost rest = list@.skip(start as int);
        let ghost entries = split::split(rest, ',');
        proof {
            assert(rest.take(end - start) =~= entry@);
            if end < text@.len() {
                assert(rest.skip(end - start + 1) =~= list@.skip(end + 1));
                assert(entries.drop_first() =~= split::split(list@.skip(end + 1), ','));
            } else {
                assert(entry@ =~= rest);
                let none: Seq<Seq<char>> = seq![];
                assert(entries.drop_first() =~= none);
                assert(readable_len(none) == 0);
            }
            assert(entries[0] == entry@);
        }
        match read_entry(entry) {
            None => {
                return true;
            },
            Some((first, last)) => {
                if first <= last {
                    if last - first >= limit - counted {
                        return false;
                    }
                    counted = counted + (last - first) + 1;
                }
            },
        }
        if end == text.len() {
            return true;
        }
        start = end + 1;
    }
}

/// Checks a list of CPU cores that was given on the command line. The error names the option and
/// quotes the first entry that cannot be read.
pub fn validate_cpu_list(list: &str) -> (checked: Result<(), String>)
    requires
        expandable(list@),
    ensures
        match checked {
            Ok(()) => cpu_ranges(list@) is Ok,
            Err(text) => cpu_ranges(list@) is Err && text@
                == "--experimental-retransmit-xdp-cpu-cores"@ + seq![' '] + cpu_ranges(
                list@,
            )->Err_0,
        },
{
    check_ranges(list, "--experimental-retransmit-xdp-cpu-cores")
}

/// A list that can be read stands for as many cores as were counted.
pub proof fn readable_list_has_the_counted_cores(list: Seq<char>)
    requires
        cpu_ranges(list) is Ok,
    ensures
        cpu_ranges(list)->Ok_0.len() == readable_len(split::split(list, ',')),
{
    lemma_entries_len(split::split(list, ','));
}

proof fn lemma_entries_len(entries: Seq<Seq<char>>)
    requires
        entries_cores(entries) is Ok,
    ensures
        entries_cores(entries)->Ok_0.len() == readable_len(entries),
    decreases entries.len(),
{
    if entries.len() > 0 {
        lemma_entries_len(entries.drop_first());
    }
}

/// The decimal form of a number consists of digits, and is worth the number.
proof fn lemma_decimal_value(value: nat)
    ensures
        address::decimal(value).len() >= 1,
        all_digits(address::decimal(value)),
        digits_value(address::decimal(value)) == value,
    decreases value,
{
    let text = address::decimal(value);
    if value < 10 {
        assert(text.drop_last() =~= Seq::<char>::empty());
        assert(digits_value(text.drop_last()) == 0);
    } else {
        lemma_decimal_value(value / 10);
        assert(text.drop_last() =~= address::decimal(value / 10));
    }
}

/// A core written in decimal is read as a number, and holds neither a comma nor a hyphen.
proof fn lemma_decimal_number(core: usize)
    ensures
        number(address::decimal(core as nat)) == Some(core),
        split::lacks(address::decimal(core as nat), ','),
        split::lacks(address::decimal(core as nat), '-'),
{
    let text = address::decimal(core as nat);
    lemma_decimal_value(core as nat);
    assert(is_digit(text[0]));
    assert forall|i: int| 0 <= i < text.len() implies text[i] != ',' && text[i] != '-' by {
        assert(is_digit(text[i]));
    }
}

/// A list of one core, written in decimal, stands for that core.
pub proof fn one_core_is_read_back(core: usize)
    ensures
        cpu_ranges(address::decimal(core as nat)) == Ok::<Seq<usize>, Seq<char>>(seq![core]),
{
    let text = address::decimal(core as nat);
    lemma_decimal_number(core);
    split::lemma_split_single(text, ',');
    split::lemma_split_single(text, '-');
    lemma_one_entry(text);
    assert(range_cores((core, core)) =~= seq![core]);
}

/// A list of one range, written in decimal, stands for the cores between its ends, both included.
pub proof fn one_range_is_read_back(first: usize, last: usize)
    ensures
        cpu_ranges(
            address::decimal(first as nat) + seq!['-'] + address::decimal(last as nat),
        ) == Ok::<Seq<usize>, Seq<char>>(range_cores((first, last))),
{
    let head = address::decimal(first as nat);
    let tail = address::decimal(last as nat);
    let text = head + seq!['-'] + tail;
    lemma_decimal_number(first);
    lemma_decimal_number(last);
    assert forall|i: int| 0 <= i < text.len() implies text[i] != ',' by {
        if i < head.len() {
            assert(text[i] == head[i]);
        } else if i > head.len() {
            assert(text[i] == tail[i - head.len() - 1]);
        }
    }
    split::lemma_split_single(text, ',');
    split::lemma_split_cons(head, '-', tail);
    split::lemma_split_single(tail, '-');
    assert(split::split(text, '-') =~= seq![head, tail]);
    lemma_one_entry(text);
}

/// The cores of a list of one entry that can be read.
pub proof fn lemma_one_entry(entry: Seq<char>)
    requires
        entry_range(entry) is Some,
    ensures
        entries_cores(seq![entry]) == Ok::<Seq<usize>, Seq<char>>(
            range_cores(entry_range(entry)->0),
        ),
{
    let entries = seq![entry];
    let none: Seq<Seq<char>> = seq![];
    assert(entries.drop_first() =~= none);
    assert(entries_cores(none) == Ok::<Seq<usize>, Seq<char>>(seq![]));
    assert(range_cores(entry_range(entry)->0) + Seq::<usize>::empty() =~= range_cores(
        entry_range(entry)->0,
    ));
}

/// An entry in front of a list adds its cores in front, or is itself what cannot be read.
pub proof fn list_is_read_entry_by_entry(entry: Seq<char>, list: Seq<char>)
    requires
        split::lacks(entry, ','),
    ensures
        cpu_ranges(entry + seq![','] + list) == match (cpu_ranges(entry), cpu_ranges(list)) {
            (Ok(first), Ok(rest)) => Ok::<Seq<usize>, Seq<char>>(first + rest),
            (Ok(_), Err(text)) => Err(text),
            (Err(text), _) => Err(text),
        },
{
    split::lemma_split_cons(entry, ',', list);
    split::lemma_split_single(entry, ',');
    let entries = seq![entry] + split::split(list, ',');
    assert(entries.drop_first() =~= split::split(list, ','));
    assert(entries[0] == entry);
    if entry_range(entry) is Some {
        lemma_one_entry(entry);
    }
}

} // verus!
