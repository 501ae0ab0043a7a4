//! Sequences cut at a separator, and how cutting commutes with UTF-8.

use vstd::prelude::*;
use vstd::utf8;

verus! {

/// Whether `sep` does not occur in `s`.
pub open spec fn lacks<T>(s: Seq<T>, sep: T) -> bool {
    forall|i: int| 0 <= i < s.len() ==> s[i] != sep
}

/// Index of the first `sep` in `s`, or the length of `s` where there is none.
pub open spec fn first<T>(s: Seq<T>, sep: T) -> int
    decreases s.len(),
{
    if s.len() == 0 || s[0] == sep {
        0
    } else {
        1 + first(s.drop_first(), sep)
    }
}

/// The pieces between the separators of `s`, in order. There is always at least one, and a
/// piece may be empty.
pub open spec fn split<T>(s: Seq<T>, sep: T) -> Seq<Seq<T>>
    decreases s.len(),
    via split_decreases::<T>
{
    let at = first(s, sep);
    if at >= s.len() {
        seq![s]
    } else {
        seq![s.take(at)] + split(s.skip(at + 1), sep)
    }
}

#[via_fn]
proof fn split_decreases<T>(s: Seq<T>, sep: T) {
    lemma_first(s, sep);
}

/// The pieces put together again, with a separator between each two of them.
pub open spec fn join<T>(pieces: Seq<Seq<T>>, sep: T) -> Seq<T>
    decreases pieces.len(),
{
    if pieces.len() == 0 {
        seq![]
    } else if pieces.len() == 1 {
        pieces[0]
    } else {
        pieces[0] + seq![sep] + join(pieces.drop_first(), sep)
    }
}

/// What [`first`] finds: nothing before it is a separator, and it is one unless it is the end.
proof fn lemma_first<T>(s: Seq<T>, sep: T)
    ensures
        0 <= first(s, sep) <= s.len(),
        forall|i: int| 0 <= i < first(s, sep) ==> s[i] != sep,
        first(s, sep) < s.len() ==> s[first(s, sep)] == sep,
    decreases s.len(),
{
    if s.len() != 0 && s[0] != sep {
        lemma_first(s.drop_first(), sep);
        assert forall|i: int| 0 <= i < first(s, sep) implies s[i] != sep by {
            if i > 0 {
                assert(s.drop_first()[i - 1] == s[i]);
            }
        }
    }
}

/// [`first`] is the only index with that property.
pub proof fn lemma_first_is<T>(s: Seq<T>, sep: T, at: int)
    requires
        0 <= at <= s.len(),
        forall|i: int| 0 <= i < at ==> s[i] != sep,
        at < s.len() ==> s[at] == sep,
    ensures
        first(s, sep) == at,
{
    lemma_first(s, sep);
    let found = first(s, sep);
    if found < at {
        assert(s[found] != sep);
    }
}

/// A sequence is its pieces joined by the separator, and no piece holds the separator. Cutting
/// loses nothing.
pub proof fn join_undoes_split<T>(s: Seq<T>, sep: T)
    ensures
        split(s, sep).len() >= 1,
        join(split(s, sep), sep) == s,
        forall|i: int| 0 <= i < split(s, sep).len() ==> lacks(#[trigger] split(s, sep)[i], sep),
    decreases s.len(),
{
    lemma_first(s, sep);
    let at = first(s, sep);
    let pieces = split(s, sep);
    if at < s.len() {
        let rest = split(s.skip(at + 1), sep);
        join_undoes_split(s.skip(at + 1), sep);
        assert(pieces.drop_first() =~= rest);
        assert(pieces[0] == s.take(at));
        assert(s.take(at) + seq![sep] + s.skip(at + 1) =~= s);
        assert forall|i: int| 0 <= i < pieces.len() implies lacks(#[trigger] pieces[i], sep) by {
            if i > 0 {
                assert(pieces[i] == rest[i - 1]);
            }
        }
    }
}

/// Cutting off a first piece that holds no separator.
pub proof fn lemma_split_cons<T>(piece: Seq<T>, sep: T, rest: Seq<T>)
    requires
        lacks(piece, sep),
    ensures
        split(piece + seq![sep] + rest, sep) == seq![piece] + split(rest, sep),
{
    let s = piece + seq![sep] + rest;
    lemma_first_is(s, sep, piece.len() as int);
    assert(s.take(piece.len() as int) =~= piece);
    assert(s.skip(piece.len() as int + 1) =~= rest);
}

/// A sequence without a separator is its own only piece.
pub proof fn lemma_split_single<T>(piece: Seq<T>, sep: T)
    requires
        lacks(piece, sep),
    ensures
        split(piece, sep) == seq![piece],
{
    lemma_first_is(piece, sep, piece.len() as int);
}

/// Pieces without a separator in them are recovered from their join.
pub proof fn split_undoes_join<T>(pieces: Seq<Seq<T>>, sep: T)
    requires
        pieces.len() >= 1,
        forall|i: int| 0 <= i < pieces.len() ==> lacks(#[trigger] pieces[i], sep),
    ensures
        split(join(pieces, sep), sep) == pieces,
    decreases pieces.len(),
{
    if pieces.len() == 1 {
        lemma_split_single(pieces[0], sep);
        assert(seq![pieces[0]] =~= pieces);
    } else {
        let rest = pieces.drop_first();
        assert forall|i: int| 0 <= i < rest.len() implies lacks(#[trigger] rest[i], sep) by {
            assert(rest[i] == pieces[i + 1]);
        }
        split_undoes_join(rest, sep);
        lemma_split_cons(pieces[0], sep, join(rest, sep));
        assert(seq![pieces[0]] + rest =~= pieces);
    }
}

/// The UTF-8 form of a text in two parts is the UTF-8 forms of the parts in a row.
proof fn lemma_encode_concat(a: Seq<char>, b: Seq<char>)
    ensures
        utf8::encode_utf8(a + b) == utf8::encode_utf8(a) + utf8::encode_utf8(b),
    decreases a.len(),
{
    if a.len() == 0 {
        assert(a + b =~= b);
        assert(utf8::encode_utf8(a) + utf8::encode_utf8(b) =~= utf8::encode_utf8(b));
    } else {
        lemma_encode_concat(a.drop_first(), b);
        assert((a + b).drop_first() =~= a.drop_first() + b);
        assert(utf8::encode_utf8(a + b) =~= utf8::encode_utf8(a) + utf8::encode_utf8(b));
    }
}

/// A dot is one byte, and no other character has that byte in its UTF-8 form.
proof fn lemma_encode_char(c: char)
    ensures
        c == '.' ==> utf8::encode_scalar(c as u32) == seq![0x2eu8],
        c != '.' ==> lacks(utf8::encode_scalar(c as u32), 0x2eu8),
{
    let v = c as u32;
    assert(v <= 0x7f ==> (v & 0x7f) as u8 == v) by (bit_vector);
    assert(0xC0u8 | ((v >> 6) & 0x1F) as u8 != 0x2e) by (bit_vector);
    assert(0xE0u8 | ((v >> 12) & 0x0F) as u8 != 0x2e) by (bit_vector);
    assert(0xF0u8 | ((v >> 18) & 0x7) as u8 != 0x2e) by (bit_vector);
    assert(0x80u8 | (v & 0x3F) as u8 != 0x2e) by (bit_vector);
    assert(0x80u8 | ((v >> 6) & 0x3F) as u8 != 0x2e) by (bit_vector);
    assert(0x80u8 | ((v >> 12) & 0x3F) as u8 != 0x2e) by (bit_vector);
    if c == '.' {
        assert(utf8::encode_scalar(v) =~= seq![0x2eu8]);
    }
}

/// A text without a dot has no dot byte in its UTF-8 form.
proof fn lemma_encode_dotless(s: Seq<char>)
    requires
        lacks(s, '.'),
    ensures
        lacks(utf8::encode_utf8(s), 0x2eu8),
    decreases s.len(),
{
    if s.len() != 0 {
        lemma_encode_char(s[0]);
        lemma_encode_dotless(s.drop_first());
    }
}

/// Cutting a text at its dots and encoding the pieces gives the same as encoding the text and
/// cutting the bytes at the dot byte.
pub proof fn lemma_split_encode(s: Seq<char>)
    ensures
        split(utf8::encode_utf8(s), 0x2eu8) == split(s, '.').map_values(
            |piece: Seq<char>| utf8::encode_utf8(piece),
        ),
    decreases s.len(),
{
    let encode = |piece: Seq<char>| utf8::encode_utf8(piece);
    lemma_first(s, '.');
    let at = first(s, '.');
    let bytes = utf8::encode_utf8(s);
    if at >= s.len() {
        lemma_encode_dotless(s);
        lemma_split_single(bytes, 0x2eu8);
        assert(split(s, '.').map_values(encode) =~= seq![bytes]);
    } else {
        let head = s.take(at);
        let tail = s.skip(at + 1);
        assert(s =~= head + (seq!['.'] + tail));
        lemma_encode_concat(head, seq!['.'] + tail);
        lemma_encode_concat(seq!['.'], tail);
        lemma_encode_char('.');
        assert(utf8::encode_utf8(seq!['.']) =~= seq![0x2eu8]) by {
            reveal_with_fuel(utf8::encode_utf8, 2);
            assert(seq!['.'].drop_first() =~= Seq::<char>::empty());
        }
        lemma_encode_dotless(head);
        assert(bytes =~= utf8::encode_utf8(head) + seq![0x2eu8] + utf8::encode_utf8(tail));
        lemma_split_cons(utf8::encode_utf8(head), 0x2eu8, utf8::encode_utf8(tail));
        lemma_split_encode(tail);
        assert(split(s, '.').map_values(encode) =~= seq![utf8::encode_utf8(head)] + split(
            tail,
            '.',
        ).map_values(encode));
    }
}

} // verus!
