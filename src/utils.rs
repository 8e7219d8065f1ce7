//! The byte-string escape codec and the order-preserving float transform.
use vstd::prelude::*;

use crate::constants::{NULL, NULL_ESCAPE};

verus! {

/// How one payload byte is written: a zero byte is escaped as `0x00 0xFF`.
pub open spec fn escape_piece(b: u8) -> Seq<u8> {
    if b == NULL {
        seq![NULL, NULL_ESCAPE]
    } else {
        seq![b]
    }
}

/// A payload with each of its zero bytes escaped.
pub open spec fn escape(b: Seq<u8>) -> Seq<u8>
    decreases b.len(),
{
    if b.len() == 0 {
        Seq::empty()
    } else {
        escape(b.drop_last()) + escape_piece(b.last())
    }
}

/// A tag, the escaped payload and the terminator.
pub open spec fn encode_bytes(tag: u8, b: Seq<u8>) -> Seq<u8> {
    seq![tag] + escape(b) + seq![NULL]
}

/// Scans `s` from `i` for the terminator, adding the unescaped payload to
/// `acc`: the payload and the position after the terminator, or `None` when
/// the input ends first.
pub open spec fn unescape_from(s: Seq<u8>, i: int, acc: Seq<u8>) -> Option<(Seq<u8>, int)>
    decreases s.len() - i,
{
    if i < 0 || i >= s.len() {
        None
    } else if s[i] == NULL {
        if i + 1 < s.len() && s[i + 1] == NULL_ESCAPE {
            unescape_from(s, i + 2, acc.push(NULL))
        } else {
            Some((acc, i + 1))
        }
    } else {
        unescape_from(s, i + 1, acc.push(s[i]))
    }
}

/// Scans `input` from `start` for the terminator of an escaped payload.
pub(crate) fn unescape_at(input: &[u8], start: usize) -> (r: Option<(Vec<u8>, usize)>)
    ensures
        r is None <==> unescape_from(input@, start as int, Seq::empty()) is None,
        r matches Some((b, end)) ==> unescape_from(input@, start as int, Seq::empty()) == Some(
            (b@, end as int),
        ) && start < end <= input@.len(),
{
    let len = input.len();
    let mut bytes: Vec<u8> = Vec::new();
    let mut i = start;
    while i < len
        invariant
            len == input@.len(),
            start <= i,
            unescape_from(input@, start as int, Seq::empty()) == unescape_from(
                input@,
                i as int,
                bytes@,
            ),
        decreases len - i,
    {
        if input[i] == NULL {
            if i + 1 < len && input[i + 1] == NULL_ESCAPE {
                bytes.push(NULL);
                i += 2;
            } else {
                return Some((bytes, i + 1));
            }
        } else {
            bytes.push(input[i]);
            i += 1;
        }
    }
    None
}

/// Reads an escaped, terminated payload from the start of `input`: the number
/// of bytes consumed, terminator included, and the payload. When the input
/// ends before a terminator, the count is `input.len() + 1`.
pub fn decode_byte_string(input: &[u8]) -> (r: (usize, Vec<u8>))
    requires
        input@.len() < usize::MAX,
    ensures
        match unescape_from(input@, 0, Seq::empty()) {
            Some((p, end)) => r.0 == end && r.1@ == p,
            None => r.0 == input@.len() + 1,
        },
{
    match unescape_at(input, 0) {
        Some((bytes, end)) => (end, bytes),
        None => (input.len() + 1, Vec::new()),
    }
}

/// Appends `type_code`, the escaped `input` and the terminator to `buffer`.
pub fn encode_byte_string(type_code: u8, input: &[u8], buffer: &mut Vec<u8>)
    ensures
        final(buffer)@ == old(buffer)@ + encode_bytes(type_code, input@),
{
    buffer.push(type_code);
    let mut i: usize = 0;
    while i < input.len()
        invariant
            i <= input@.len(),
            buffer@ == old(buffer)@ + seq![type_code] + escape(input@.subrange(0, i as int)),
        decreases input@.len() - i,
    {
        assert(input@.subrange(0, i + 1).drop_last() =~= input@.subrange(0, i as int));
        if input[i] == NULL {
            buffer.push(NULL);
            buffer.push(NULL_ESCAPE);
        } else {
            buffer.push(input[i]);
        }
        i += 1;
        assert(buffer@ =~= old(buffer)@ + seq![type_code] + escape(input@.subrange(0, i as int)));
    }
    buffer.push(NULL);
    assert(input@.subrange(0, i as int) =~= input@);
    assert(buffer@ =~= old(buffer)@ + encode_bytes(type_code, input@));
}

/// Escaping distributes over concatenation.
pub proof fn lemma_escape_concat(x: Seq<u8>, y: Seq<u8>)
    ensures
        escape(x + y) == escape(x) + escape(y),
    decreases y.len(),
{
    if y.len() == 0 {
        assert(x + y =~= x);
        assert(escape(x) + escape(y) =~= escape(x));
    } else {
        assert((x + y).drop_last() =~= x + y.drop_last());
        lemma_escape_concat(x, y.drop_last());
        assert(escape(x + y) =~= escape(x) + escape(y));
    }
}

/// Scanning an escaped payload, wherever it stands, recovers it, provided the
/// byte after its terminator is not the escape byte.
pub proof fn lemma_unescape_escape(pre: Seq<u8>, b: Seq<u8>, rest: Seq<u8>, acc: Seq<u8>)
    requires
        rest.len() == 0 || rest[0] != NULL_ESCAPE,
    ensures
        unescape_from(pre + escape(b) + seq![NULL] + rest, pre.len() as int, acc) == Some(
            (acc + b, pre.len() + escape(b).len() + 1 as int),
        ),
    decreases b.len(),
{
    let s = pre + escape(b) + seq![NULL] + rest;
    if b.len() == 0 {
        assert(escape(b) =~= Seq::<u8>::empty());
        assert(s[pre.len() as int] == NULL);
        if pre.len() + 1 < s.len() {
            assert(s[pre.len() as int + 1] == rest[0]);
        }
        assert(acc + b =~= acc);
    } else {
        let b0 = b[0];
        let tail = b.drop_first();
        assert(b =~= seq![b0] + tail);
        lemma_escape_concat(seq![b0], tail);
        assert(seq![b0].drop_last() =~= Seq::<u8>::empty());
        assert(escape(Seq::<u8>::empty()) =~= Seq::<u8>::empty());
        assert(seq![b0].last() == b0);
        assert(escape(seq![b0]) =~= escape_piece(b0));
        let pre2 = pre + escape_piece(b0);
        assert(s =~= pre2 + escape(tail) + seq![NULL] + rest);
        lemma_unescape_escape(pre2, tail, rest, acc.push(b0));
        assert(acc.push(b0) + tail =~= acc + b);
        if b0 == NULL {
            assert(s[pre.len() as int] == NULL);
            assert(s[pre.len() as int + 1] == NULL_ESCAPE);
        } else {
            assert(s[pre.len() as int] == b0);
        }
    }
}

/// Decoding an encoded byte string, from the byte after its tag, gives back
/// the payload and consumes the rest of the encoding, embedded zero bytes
/// included.
pub proof fn lemma_byte_string_round_trip(tag: u8, b: Seq<u8>)
    ensures
        unescape_from(encode_bytes(tag, b).drop_first(), 0, Seq::empty()) == Some(
            (b, encode_bytes(tag, b).len() - 1),
        ),
{
    let framed = escape(b) + seq![NULL];
    lemma_unescape_escape(Seq::empty(), b, Seq::empty(), Seq::empty());
    assert(Seq::<u8>::empty() + escape(b) + seq![NULL] + Seq::<u8>::empty() =~= framed);
    assert(encode_bytes(tag, b).drop_first() =~= framed);
    assert(Seq::<u8>::empty() + b =~= b);
}

/// The sign bit of the first byte is set.
pub open spec fn sign_set(b: u8) -> bool {
    b & 0x80 != 0
}

/// Every bit of every byte inverted.
pub open spec fn invert_all(b: Seq<u8>) -> Seq<u8> {
    Seq::new(b.len(), |i: int| b[i] ^ 0xFF)
}

/// The order-preserving transform of a big-endian IEEE-754 pattern: a
/// negative value has all its bits inverted, any other its sign bit.
pub open spec fn sortable(b: Seq<u8>) -> Seq<u8> {
    if sign_set(b[0]) {
        invert_all(b)
    } else {
        b.update(0, b[0] ^ 0x80)
    }
}

/// The inverse transform, which branches on the transformed sign bit.
pub open spec fn unsortable(b: Seq<u8>) -> Seq<u8> {
    if !sign_set(b[0]) {
        invert_all(b)
    } else {
        b.update(0, b[0] ^ 0x80)
    }
}

/// Applies the order-preserving transform to a big-endian float or double, in place.
pub fn encode_sortable_float(bytes: &mut [u8])
    requires
        old(bytes)@.len() >= 1,
    ensures
        final(bytes)@ == sortable(old(bytes)@),
{
    if (bytes[0] & 0x80) != 0x00 {
        invert_bytes(bytes);
    } else {
        bytes[0] = bytes[0] ^ 0x80;
    }
}

/// Reverses `encode_sortable_float`, in place.
pub fn decode_sortable_float(bytes: &mut [u8])
    requires
        old(bytes)@.len() >= 1,
    ensures
        final(bytes)@ == unsortable(old(bytes)@),
{
    let first = bytes[0];
    assert((first & 0x80 != 0x80) == (first & 0x80 == 0)) by (bit_vector);
    if (bytes[0] & 0x80) != 0x80 {
        invert_bytes(bytes);
    } else {
        bytes[0] = bytes[0] ^ 0x80;
    }
}

fn invert_bytes(bytes: &mut [u8])
    ensures
        final(bytes)@ == invert_all(old(bytes)@),
{
    let mut i: usize = 0;
    while i < bytes.len()
        invariant
            i <= bytes@.len(),
            bytes@.len() == old(bytes)@.len(),
            forall|j: int| 0 <= j < i ==> bytes@[j] == old(bytes)@[j] ^ 0xFF,
            forall|j: int| i <= j < bytes@.len() ==> bytes@[j] == old(bytes)@[j],
        decreases bytes@.len() - i,
    {
        bytes[i] = bytes[i] ^ 0xFF;
        i += 1;
    }
    assert(bytes@ =~= invert_all(old(bytes)@));
}

/// The inverse transform undoes the transform.
pub proof fn lemma_sortable_inverse(b: Seq<u8>)
    requires
        b.len() >= 1,
    ensures
        unsortable(sortable(b)) == b,
{
    let x = b[0];
    if sign_set(x) {
        assert(!sign_set(x ^ 0xFF)) by (bit_vector)
            requires
                x & 0x80 != 0,
        ;
        assert forall|i: int| 0 <= i < b.len() implies (b[i] ^ 0xFF) ^ 0xFF == b[i] by {
            let y = b[i];
            assert((y ^ 0xFF) ^ 0xFF == y) by (bit_vector);
        }
        assert(unsortable(sortable(b)) =~= b);
    } else {
        assert(sign_set(x ^ 0x80) && (x ^ 0x80) ^ 0x80 == x) by (bit_vector)
            requires
                x & 0x80 == 0,
        ;
        assert(unsortable(sortable(b)) =~= b);
    }
}

} // verus!
