//! Segments, their encoding, and the decoder of encoded tuples.
use vstd::prelude::*;
use vstd::utf8::{decode_utf8, encode_utf8, valid_utf8};

use crate::bridge::{be_u32_bytes, be_u32_value, be_u64_bytes, be_u64_value, utf8_string, uuid_from_slice};
use crate::constants::{
    INT_NEG_MIN_CODE, INT_POS_MAX_CODE, BYTES_CODE, DOUBLE_CODE, FALSE_CODE, FLOAT_CODE, NESTED_CODE, NULL, STRING_CODE, TRUE_CODE,
    UUID_CODE,
};
use crate::errors::TupleError;
use crate::integer::{
    be_bytes, be_value, decode_integer, encode_int, encode_integer, int_value, int_width,
    is_int_tag, push_tail,
};
use crate::utils::{
    decode_sortable_float, encode_byte_string, encode_bytes, encode_sortable_float, sortable,
    unescape_at, unescape_from, unsortable,
};

verus! {

/// One typed value of a tuple. Floats and doubles are held as their IEEE-754
/// bit patterns (`f32::to_bits`, `f64::to_bits`); a UUID as its 16 bytes.
#[derive(PartialEq, Debug)]
pub enum Segment {
    Bytes(Vec<u8>),
    String(String),
    Const(&'static str),
    Nested(Vec<Segment>),
    Integer(i64),
    Float(u32),
    Double(u64),
    Boolean(bool),
    UUID([u8; 16]),
    /// Bytes of an already encoded tuple, written as they stand. Never
    /// produced by decoding.
    Tuple(Vec<u8>),
}

/// What a segment denotes.
pub enum Value {
    Bytes(Seq<u8>),
    Text(Seq<char>),
    Nested(Seq<Value>),
    Integer(i64),
    Float(u32),
    Double(u64),
    Boolean(bool),
    Uuid(Seq<u8>),
    Raw(Seq<u8>),
}

pub open spec fn value_of(s: Segment) -> Value
    decreases s,
{
    match s {
        Segment::Bytes(b) => Value::Bytes(b@),
        Segment::String(t) => Value::Text(t@),
        Segment::Const(t) => Value::Text(t@),
        Segment::Nested(v) => Value::Nested(values_of(v@)),
        Segment::Integer(i) => Value::Integer(i),
        Segment::Float(f) => Value::Float(f),
        Segment::Double(d) => Value::Double(d),
        Segment::Boolean(b) => Value::Boolean(b),
        Segment::UUID(u) => Value::Uuid(u@),
        Segment::Tuple(b) => Value::Raw(b@),
    }
}

pub open spec fn values_of(s: Seq<Segment>) -> Seq<Value>
    decreases s,
{
    if s.len() == 0 {
        Seq::empty()
    } else {
        values_of(s.subrange(0, s.len() - 1)).push(value_of(s[s.len() - 1]))
    }
}

/// The encoding of one value.
pub open spec fn encode_value(v: Value) -> Seq<u8>
    decreases v,
{
    match v {
        Value::Bytes(b) => encode_bytes(BYTES_CODE, b),
        Value::Text(t) => encode_bytes(STRING_CODE, encode_utf8(t)),
        Value::Nested(vs) => seq![NESTED_CODE] + encode_values(vs) + seq![NULL],
        Value::Integer(i) => encode_int(i),
        Value::Float(f) => seq![FLOAT_CODE] + sortable(be_bytes(f as nat, 4)),
        Value::Double(d) => seq![DOUBLE_CODE] + sortable(be_bytes(d as nat, 8)),
        Value::Boolean(b) => if b {
            seq![TRUE_CODE]
        } else {
            seq![FALSE_CODE]
        },
        Value::Uuid(u) => seq![UUID_CODE] + u,
        Value::Raw(r) => r,
    }
}

/// The encoding of a sequence of values: their encodings, concatenated.
pub open spec fn encode_values(vs: Seq<Value>) -> Seq<u8>
    decreases vs,
{
    if vs.len() == 0 {
        Seq::empty()
    } else {
        encode_values(vs.subrange(0, vs.len() - 1)) + encode_value(vs[vs.len() - 1])
    }
}

/// Reads the segment whose tag stands at `pos`: its value and the position
/// after it. Positions in errors count from `base`, the start of the
/// innermost tuple being read.
pub open spec fn parse_one(s: Seq<u8>, base: int, pos: int) -> Result<(Value, int), TupleError>
    decreases s.len() - pos, 0int,
{
    if pos < 0 || pos >= s.len() {
        Err(TupleError::TruncatedTuple)
    } else {
        let tag = s[pos];
        let here = (pos - base) as usize;
        if tag == BYTES_CODE {
            match unescape_from(s, pos + 1, Seq::empty()) {
                None => Err(TupleError::TruncatedTuple),
                Some((p, end)) => Ok((Value::Bytes(p), end)),
            }
        } else if tag == STRING_CODE {
            match unescape_from(s, pos + 1, Seq::empty()) {
                None => Err(TupleError::TruncatedTuple),
                Some((p, end)) => if valid_utf8(p) {
                    Ok((Value::Text(decode_utf8(p)), end))
                } else {
                    Err(TupleError::StringDecodeError)
                },
            }
        } else if tag == NESTED_CODE {
            match parse_seq(s, pos + 1, pos + 1) {
                Err(e) => Err(e),
                Ok((vs, end)) => if pos < end < s.len() && s[end] == NULL {
                    Ok((Value::Nested(vs), end + 1))
                } else {
                    Err(TupleError::TruncatedNestedTuple)
                },
            }
        } else if is_int_tag(tag) {
            let next = pos + 1 + int_width(tag);
            if next > s.len() {
                Err(TupleError::IntegerDecodeError { position: here })
            } else {
                Ok((Value::Integer(int_value(tag, s.subrange(pos + 1, next))), next))
            }
        } else if tag == FLOAT_CODE {
            if pos + 5 > s.len() {
                Err(TupleError::DecimalDecodeError { position: here })
            } else {
                Ok(
                    (
                        Value::Float(be_value(unsortable(s.subrange(pos + 1, pos + 5))) as u32),
                        pos + 5,
                    ),
                )
            }
        } else if tag == DOUBLE_CODE {
            if pos + 9 > s.len() {
                Err(TupleError::DecimalDecodeError { position: here })
            } else {
                Ok(
                    (
                        Value::Double(be_value(unsortable(s.subrange(pos + 1, pos + 9))) as u64),
                        pos + 9,
                    ),
                )
            }
        } else if tag == TRUE_CODE {
            Ok((Value::Boolean(true), pos + 1))
        } else if tag == FALSE_CODE {
            Ok((Value::Boolean(false), pos + 1))
        } else if tag == UUID_CODE {
            if pos + 17 > s.len() {
                Err(TupleError::UuidDecodeError { position: here })
            } else {
                Ok((Value::Uuid(s.subrange(pos + 1, pos + 17)), pos + 17))
            }
        } else {
            Err(TupleError::DecodeError { position: here, type_code: tag })
        }
    }
}

/// Reads segments from `pos` until the input ends or a terminator byte is
/// reached: their values and the position where reading stopped, which is
/// that of the terminator, not consumed.
pub open spec fn parse_seq(s: Seq<u8>, base: int, pos: int) -> Result<(Seq<Value>, int), TupleError>
    decreases s.len() - pos, 1int,
{
    if pos < 0 || pos >= s.len() || s[pos] == NULL {
        Ok((Seq::empty(), pos))
    } else {
        match parse_one(s, base, pos) {
            Err(e) => Err(e),
            Ok((v, next)) => if pos < next <= s.len() {
                prepend(seq![v], parse_seq(s, base, next))
            } else {
                Err(TupleError::TruncatedTuple)
            },
        }
    }
}

/// `acc` in front of the values of a successful read.
pub open spec fn prepend(acc: Seq<Value>, r: Result<(Seq<Value>, int), TupleError>) -> Result<
    (Seq<Value>, int),
    TupleError,
> {
    match r {
        Ok((vs, end)) => Ok((acc + vs, end)),
        Err(e) => Err(e),
    }
}

/// What decoding a whole tuple gives: every byte must be read.
pub open spec fn decode_values(s: Seq<u8>) -> Result<Seq<Value>, TupleError> {
    match parse_seq(s, 0, 0) {
        Err(e) => Err(e),
        Ok((vs, end)) => if end == s.len() {
            Ok(vs)
        } else {
            Err(TupleError::TruncatedTuple)
        },
    }
}

proof fn lemma_values_of_push(s: Seq<Segment>, x: Segment)
    ensures
        values_of(s.push(x)) == values_of(s).push(value_of(x)),
{
    assert(s.push(x).subrange(0, s.len() as int) =~= s);
}

/// Appends the encodings of `input`, in order, to `buffer`.
pub(crate) fn encode_slice(input: &[Segment], buffer: &mut Vec<u8>)
    ensures
        final(buffer)@ == old(buffer)@ + encode_values(values_of(input@)),
    decreases input@, 0nat,
{
    let mut i: usize = 0;
    while i < input.len()
        invariant
            i <= input@.len(),
            buffer@ == old(buffer)@ + encode_values(values_of(input@.subrange(0, i as int))),
        decreases input@.len() - i,
    {
        proof {
            let next = input@.subrange(0, i + 1);
            assert(next.subrange(0, i as int) =~= input@.subrange(0, i as int));
            assert(decreases_to!(input@ => input@[i as int]));
        }
        input[i].encode(buffer);
        i += 1;
        proof {
            let cur = input@.subrange(0, i as int);
            let vs = values_of(cur);
            assert(vs.subrange(0, vs.len() - 1) =~= values_of(input@.subrange(0, i - 1)));
            assert(buffer@ =~= old(buffer)@ + encode_values(vs));
        }
    }
    assert(input@.subrange(0, i as int) =~= input@);
}

impl Segment {
    /// Appends the encoding of this segment to `buffer`.
    pub fn encode(&self, buffer: &mut Vec<u8>)
        ensures
            final(buffer)@ == old(buffer)@ + encode_value(value_of(*self)),
        decreases *self, 1nat,
    {
        match self {
            Segment::Bytes(data) => {
                encode_byte_string(BYTES_CODE, data.as_slice(), buffer);
            },
            Segment::String(data) => {
                encode_byte_string(STRING_CODE, data.as_str().as_bytes(), buffer);
            },
            Segment::Const(data) => {
                encode_byte_string(STRING_CODE, data.as_bytes(), buffer);
            },
            Segment::Nested(inner) => {
                buffer.push(NESTED_CODE);
                proof {
                    assert(decreases_to!(*self => *inner));
                    assert(decreases_to!(*inner => inner@));
                }
                encode_slice(inner.as_slice(), buffer);
                buffer.push(NULL);
                assert(buffer@ =~= old(buffer)@ + encode_value(value_of(*self)));
            },
            Segment::Integer(value) => {
                encode_integer(*value, buffer);
            },
            Segment::Tuple(value) => {
                push_tail(buffer, value, 0);
                assert(value@.subrange(0, value@.len() as int) =~= value@);
            },
            Segment::Boolean(value) => {
                if *value {
                    buffer.push(TRUE_CODE);
                } else {
                    buffer.push(FALSE_CODE);
                }
                assert(buffer@ =~= old(buffer)@ + encode_value(value_of(*self)));
            },
            Segment::UUID(value) => {
                buffer.push(UUID_CODE);
                let mut i: usize = 0;
                while i < 16
                    invariant
                        i <= 16,
                        buffer@ == old(buffer)@ + seq![UUID_CODE] + value@.subrange(0, i as int),
                    decreases 16 - i,
                {
                    buffer.push(value[i]);
                    i += 1;
                    assert(buffer@ =~= old(buffer)@ + seq![UUID_CODE] + value@.subrange(0, i as int));
                }
                assert(value@.subrange(0, 16) =~= value@);
                assert(buffer@ =~= old(buffer)@ + encode_value(value_of(*self)));
            },
            Segment::Float(value) => {
                buffer.push(FLOAT_CODE);
                let mut bytes = be_u32_bytes(*value);
                proof {
                    crate::integer::lemma_be_bytes_len(*value as nat, 4);
                }
                encode_sortable_float(bytes.as_mut_slice());
                push_tail(buffer, &bytes, 0);
                assert(bytes@.subrange(0, 4) =~= bytes@);
                assert(buffer@ =~= old(buffer)@ + encode_value(value_of(*self)));
            },
            Segment::Double(value) => {
                buffer.push(DOUBLE_CODE);
                let mut bytes = be_u64_bytes(*value);
                proof {
                    crate::integer::lemma_be_bytes_len(*value as nat, 8);
                }
                encode_sortable_float(bytes.as_mut_slice());
                push_tail(buffer, &bytes, 0);
                assert(bytes@.subrange(0, 8) =~= bytes@);
                assert(buffer@ =~= old(buffer)@ + encode_value(value_of(*self)));
            },
        }
    }
}

impl Segment {
    /// Reads the segment whose tag stands at `pos`.
    fn decode_one(input: &[u8], base: usize, pos: usize) -> (r: Result<(Segment, usize), TupleError>)
        requires
            base <= pos < input@.len(),
            input@[pos as int] != NULL,
        ensures
            match (r, parse_one(input@, base as int, pos as int)) {
                (Ok((seg, next)), Ok((v, n))) => value_of(seg) == v && next == n && pos < next
                    <= input@.len(),
                (Err(e), Err(f)) => e == f,
                _ => false,
            },
        decreases input@.len() - pos, 0nat,
    {
        let len = input.len();
        let tag = input[pos];
        if tag == BYTES_CODE {
            match unescape_at(input, pos + 1) {
                None => Err(TupleError::TruncatedTuple),
                Some((bytes, end)) => Ok((Segment::Bytes(bytes), end)),
            }
        } else if tag == STRING_CODE {
            match unescape_at(input, pos + 1) {
                None => Err(TupleError::TruncatedTuple),
                Some((bytes, end)) => match utf8_string(bytes) {
                    Some(text) => Ok((Segment::String(text), end)),
                    None => Err(TupleError::StringDecodeError),
                },
            }
        } else if tag == NESTED_CODE {
            match Segment::decode_segments(input, pos + 1, pos + 1) {
                Err(e) => Err(e),
                Ok((inner, end)) => {
                    if end < len && input[end] == NULL {
                        Ok((Segment::Nested(inner), end + 1))
                    } else {
                        Err(TupleError::TruncatedNestedTuple)
                    }
                },
            }
        } else if INT_NEG_MIN_CODE <= tag && tag <= INT_POS_MAX_CODE {
            match decode_integer(input, pos) {
                None => Err(TupleError::IntegerDecodeError { position: pos - base }),
                Some((value, next)) => Ok((Segment::Integer(value), next)),
            }
        } else if tag == FLOAT_CODE {
            if len - pos < 5 {
                return Err(TupleError::DecimalDecodeError { position: pos - base });
            }
            let bits = decode_float_bits(input, pos + 1, 4);
            Ok((Segment::Float(bits as u32), pos + 5))
        } else if tag == DOUBLE_CODE {
            if len - pos < 9 {
                return Err(TupleError::DecimalDecodeError { position: pos - base });
            }
            let bits = decode_float_bits(input, pos + 1, 8);
            Ok((Segment::Double(bits), pos + 9))
        } else if tag == TRUE_CODE {
            Ok((Segment::Boolean(true), pos + 1))
        } else if tag == FALSE_CODE {
            Ok((Segment::Boolean(false), pos + 1))
        } else if tag == UUID_CODE {
            let mut bytes: Vec<u8> = Vec::new();
            let mut i = pos + 1;
            while i < len && i - pos < 17
                invariant
                    pos < i <= len,
                    i <= pos + 17,
                    len == input@.len(),
                    bytes@ == input@.subrange(pos + 1, i as int),
                decreases len - i,
            {
                bytes.push(input[i]);
                i += 1;
                assert(bytes@ =~= input@.subrange(pos + 1, i as int));
            }
            match uuid_from_slice(bytes.as_slice()) {
                Some(uuid) => Ok((Segment::UUID(uuid), pos + 17)),
                None => Err(TupleError::UuidDecodeError { position: pos - base }),
            }
        } else {
            Err(TupleError::DecodeError { position: pos - base, type_code: tag })
        }
    }

    /// Reads segments from `pos` until the input ends or a terminator byte is
    /// reached; the position returned is where reading stopped.
    fn decode_segments(input: &[u8], base: usize, pos: usize) -> (r: Result<
        (Vec<Segment>, usize),
        TupleError,
    >)
        requires
            base <= pos <= input@.len(),
        ensures
            match (r, parse_seq(input@, base as int, pos as int)) {
                (Ok((segs, end)), Ok((vs, e))) => values_of(segs@) == vs && end == e && pos <= end
                    <= input@.len(),
                (Err(x), Err(y)) => x == y,
                _ => false,
            },
        decreases input@.len() - pos, 1nat,
    {
        let len = input.len();
        let mut segments: Vec<Segment> = Vec::new();
        let mut index = pos;
        while index < len && input[index] != NULL
            invariant
                len == input@.len(),
                base <= pos <= index <= len,
                parse_seq(input@, base as int, pos as int) == prepend(
                    values_of(segments@),
                    parse_seq(input@, base as int, index as int),
                ),
            decreases len - index,
        {
            match Segment::decode_one(input, base, index) {
                Err(e) => {
                    return Err(e);
                },
                Ok((segment, next)) => {
                    proof {
                        lemma_values_of_push(segments@, segment);
                        let acc = values_of(segments@);
                        let v = value_of(segment);
                        let rest = parse_seq(input@, base as int, next as int);
                        match rest {
                            Ok((vs, e)) => {
                                assert(acc + (seq![v] + vs) =~= acc.push(v) + vs);
                            },
                            Err(_) => {},
                        }
                    }
                    segments.push(segment);
                    index = next;
                },
            }
        }
        proof {
            assert(values_of(segments@) + Seq::<Value>::empty() =~= values_of(segments@));
        }
        Ok((segments, index))
    }

    /// Decodes a whole tuple into its segments.
    pub fn decode(input: &[u8]) -> (r: Result<Vec<Segment>, TupleError>)
        ensures
            match (r, decode_values(input@)) {
                (Ok(segs), Ok(vs)) => values_of(segs@) == vs,
                (Err(x), Err(y)) => x == y,
                _ => false,
            },
    {
        match Segment::decode_segments(input, 0, 0) {
            Err(e) => Err(e),
            Ok((segments, read)) => {
                if read != input.len() {
                    Err(TupleError::TruncatedTuple)
                } else {
                    Ok(segments)
                }
            },
        }
    }
}

/// The bit pattern of a float or double: `width` payload bytes from `start`,
/// with the order-preserving transform undone.
fn decode_float_bits(input: &[u8], start: usize, width: usize) -> (r: u64)
    requires
        width == 4 || width == 8,
        start + width <= input@.len(),
    ensures
        r as nat == be_value(unsortable(input@.subrange(start as int, start + width))),
        width == 4 ==> r < 0x1_0000_0000,
{
    let len = input.len();
    let mut bytes: Vec<u8> = Vec::new();
    let mut i: usize = 0;
    while i < width
        invariant
            len == input@.len(),
            i <= width,
            start + width <= input@.len(),
            bytes@ == input@.subrange(start as int, start + i),
        decreases width - i,
    {
        bytes.push(input[start + i]);
        i += 1;
        assert(bytes@ =~= input@.subrange(start as int, start + i));
    }
    decode_sortable_float(bytes.as_mut_slice());
    proof {
        crate::integer::lemma_be_value_bound(bytes@);
        crate::integer::lemma_pow256_values();
    }
    if width == 4 {
        be_u32_value(bytes.as_slice()) as u64
    } else {
        be_u64_value(bytes.as_slice())
    }
}

} // verus!
