//! Decoding what was encoded gives back the values, alone or concatenated.
use vstd::prelude::*;
use vstd::utf8::{encode_utf8, encode_utf8_decode_utf8, encode_utf8_valid_utf8};

use crate::constants::{BYTES_CODE, NESTED_CODE, NULL, NULL_ESCAPE, STRING_CODE};
use crate::errors::TupleError;
use crate::integer::{
    be_bytes, int_payload, int_tag, int_width, lemma_be_bytes_len, lemma_be_value_bytes,
    lemma_int_round_trip, lemma_int_shape, lemma_pow256_values,
};
use crate::segment::{decode_values, encode_value, encode_values, parse_one, parse_seq, Value};
use crate::utils::{escape, lemma_sortable_inverse, lemma_unescape_escape, sortable};

verus! {

/// A value that decoding can produce: no spliced raw bytes, a UUID of 16
/// bytes, and nested values that are decodable too.
pub open spec fn decodable(v: Value) -> bool
    decreases v,
{
    match v {
        Value::Nested(vs) => decodable_all(vs),
        Value::Uuid(u) => u.len() == 16,
        Value::Raw(_) => false,
        _ => true,
    }
}

/// Every value of `vs` is decodable.
pub open spec fn decodable_all(vs: Seq<Value>) -> bool
    decreases vs,
{
    if vs.len() == 0 {
        true
    } else {
        decodable(vs[0]) && decodable_all(vs.subrange(1, vs.len() as int))
    }
}

/// Encoding a sequence of values distributes over concatenation.
pub proof fn lemma_encode_values_concat(a: Seq<Value>, b: Seq<Value>)
    ensures
        encode_values(a + b) == encode_values(a) + encode_values(b),
    decreases b.len(),
{
    if b.len() == 0 {
        assert(a + b =~= a);
        assert(encode_values(a) + encode_values(b) =~= encode_values(a));
    } else {
        let ab = a + b;
        let bl = b.subrange(0, b.len() - 1);
        assert(ab.subrange(0, ab.len() - 1) =~= a + bl);
        lemma_encode_values_concat(a, bl);
        assert(ab[ab.len() - 1] == b[b.len() - 1]);
        assert(encode_values(ab) =~= encode_values(a) + encode_values(b));
    }
}

proof fn lemma_encode_values_single(v: Value)
    ensures
        encode_values(seq![v]) == encode_value(v),
{
    let one = seq![v];
    assert(one.subrange(0, 0) =~= Seq::<Value>::empty());
    assert(encode_values(Seq::<Value>::empty()) =~= Seq::<u8>::empty());
    assert(one[0] == v);
    assert(encode_values(one) =~= encode_value(v));
}

/// The encoding of a decodable value is not empty and starts with a tag
/// that is neither the terminator nor the escape byte.
proof fn lemma_encode_value_tag(v: Value)
    requires
        decodable(v),
    ensures
        encode_value(v).len() >= 1,
        encode_value(v)[0] != NULL,
        encode_value(v)[0] != NULL_ESCAPE,
{
    match v {
        Value::Integer(i) => {
            lemma_int_shape(i);
        },
        Value::Float(f) => {
            lemma_be_bytes_len(f as nat, 4);
        },
        Value::Double(d) => {
            lemma_be_bytes_len(d as nat, 8);
        },
        _ => {},
    }
}

/// A decodable value, read where its encoding stands, is read back whole.
pub proof fn lemma_parse_one_encoded(pre: Seq<u8>, v: Value, rest: Seq<u8>, base: int)
    requires
        decodable(v),
        0 <= base <= pre.len(),
        rest.len() == 0 || rest[0] != NULL_ESCAPE,
    ensures
        parse_one(pre + encode_value(v) + rest, base, pre.len() as int) == Ok::<(Value, int), TupleError>(
            (v, pre.len() + encode_value(v).len() as int),
        ),
    decreases v, 0nat,
{
    let s = pre + encode_value(v) + rest;
    let p = pre.len() as int;
    lemma_encode_value_tag(v);
    assert(s[p] == encode_value(v)[0]);
    match v {
        Value::Bytes(b) => {
            lemma_unescape_escape(pre + seq![BYTES_CODE], b, rest, Seq::empty());
            assert(s =~= pre + seq![BYTES_CODE] + escape(b) + seq![NULL] + rest);
            assert(Seq::<u8>::empty() + b =~= b);
        },
        Value::Text(t) => {
            let b = encode_utf8(t);
            lemma_unescape_escape(pre + seq![STRING_CODE], b, rest, Seq::empty());
            assert(s =~= pre + seq![STRING_CODE] + escape(b) + seq![NULL] + rest);
            assert(Seq::<u8>::empty() + b =~= b);
            encode_utf8_valid_utf8(t);
            encode_utf8_decode_utf8(t);
        },
        Value::Nested(vs) => {
            let inner = encode_values(vs);
            let pre2 = pre + seq![NESTED_CODE];
            let rest2 = seq![NULL] + rest;
            assert(s =~= pre2 + inner + rest2);
            lemma_parse_seq_encoded(pre2, vs, rest2, p + 1);
            let end = p + 1 + inner.len();
            assert(s[end] == NULL);
        },
        Value::Integer(i) => {
            lemma_int_shape(i);
            lemma_int_round_trip(i);
            assert(s.subrange(p + 1, p + 1 + int_width(int_tag(i))) =~= int_payload(i));
        },
        Value::Float(f) => {
            let b = be_bytes(f as nat, 4);
            lemma_be_bytes_len(f as nat, 4);
            lemma_sortable_inverse(b);
            lemma_pow256_values();
            lemma_be_value_bytes(f as nat, 4);
            assert(s.subrange(p + 1, p + 5) =~= sortable(b));
        },
        Value::Double(d) => {
            let b = be_bytes(d as nat, 8);
            lemma_be_bytes_len(d as nat, 8);
            lemma_sortable_inverse(b);
            lemma_pow256_values();
            lemma_be_value_bytes(d as nat, 8);
            assert(s.subrange(p + 1, p + 9) =~= sortable(b));
        },
        Value::Boolean(_) => {},
        Value::Uuid(u) => {
            assert(s.subrange(p + 1, p + 17) =~= u);
        },
        Value::Raw(_) => {},
    }
}

/// Decodable values, read from where their encodings stand, are read back,
/// and reading stops at a terminator or at the end of the input.
pub proof fn lemma_parse_seq_encoded(pre: Seq<u8>, vs: Seq<Value>, rest: Seq<u8>, base: int)
    requires
        decodable_all(vs),
        0 <= base <= pre.len(),
        rest.len() == 0 || rest[0] == NULL,
    ensures
        parse_seq(pre + encode_values(vs) + rest, base, pre.len() as int) == Ok::<(Seq<Value>, int), TupleError>(
            (vs, pre.len() + encode_values(vs).len() as int),
        ),
    decreases vs, 1nat,
{
    let s = pre + encode_values(vs) + rest;
    let p = pre.len() as int;
    if vs.len() == 0 {
        assert(encode_values(vs) =~= Seq::<u8>::empty());
        if p < s.len() {
            assert(s[p] == rest[0]);
        }
        assert(vs =~= Seq::<Value>::empty());
    } else {
        let v = vs[0];
        let tail = vs.subrange(1, vs.len() as int);
        assert(vs =~= seq![v] + tail);
        lemma_encode_values_concat(seq![v], tail);
        lemma_encode_values_single(v);
        let rest1 = encode_values(tail) + rest;
        assert(s =~= pre + encode_value(v) + rest1);
        if tail.len() > 0 {
            lemma_encode_values_concat(seq![tail[0]], tail.subrange(1, tail.len() as int));
            assert(tail =~= seq![tail[0]] + tail.subrange(1, tail.len() as int));
            lemma_encode_values_single(tail[0]);
            assert(decodable_all(tail));
            assert(decodable(tail[0]));
            lemma_encode_value_tag(tail[0]);
            assert(rest1[0] == encode_value(tail[0])[0]);
        } else {
            assert(encode_values(tail) =~= Seq::<u8>::empty());
            assert(rest1 =~= rest);
        }
        lemma_encode_value_tag(v);
        assert(s[p] == encode_value(v)[0]);
        lemma_parse_one_encoded(pre, v, rest1, base);
        let pre2 = pre + encode_value(v);
        assert(s =~= pre2 + encode_values(tail) + rest);
        lemma_parse_seq_encoded(pre2, tail, rest, base);
        assert(seq![v] + tail =~= vs);
    }
}

/// Decoding the encoding of decodable values gives them back.
pub proof fn lemma_tuple_round_trip(vs: Seq<Value>)
    requires
        decodable_all(vs),
    ensures
        decode_values(encode_values(vs)) == Ok::<Seq<Value>, TupleError>(vs),
{
    lemma_parse_seq_encoded(Seq::empty(), vs, Seq::empty(), 0);
    assert(Seq::<u8>::empty() + encode_values(vs) + Seq::<u8>::empty() =~= encode_values(vs));
}

/// Decoding the encoding of one decodable value gives back that value alone.
pub proof fn lemma_round_trip(v: Value)
    requires
        decodable(v),
    ensures
        decode_values(encode_value(v)) == Ok::<Seq<Value>, TupleError>(seq![v]),
{
    assert(seq![v].subrange(1, 1) =~= Seq::<Value>::empty());
    assert(decodable_all(Seq::<Value>::empty()));
    assert(decodable_all(seq![v]));
    lemma_encode_values_single(v);
    lemma_tuple_round_trip(seq![v]);
}

/// Two encoded tuples, concatenated, decode as one tuple: the values of the
/// first followed by those of the second.
pub proof fn lemma_concatenation(a: Seq<Value>, b: Seq<Value>)
    requires
        decodable_all(a),
        decodable_all(b),
    ensures
        decode_values(encode_values(a) + encode_values(b)) == Ok::<Seq<Value>, TupleError>(a + b),
{
    lemma_decodable_all_concat(a, b);
    lemma_encode_values_concat(a, b);
    lemma_tuple_round_trip(a + b);
}

proof fn lemma_decodable_all_concat(a: Seq<Value>, b: Seq<Value>)
    requires
        decodable_all(a),
        decodable_all(b),
    ensures
        decodable_all(a + b),
    decreases a.len(),
{
    if a.len() == 0 {
        assert(a + b =~= b);
    } else {
        let ab = a + b;
        assert(ab.subrange(1, ab.len() as int) =~= a.subrange(1, a.len() as int) + b);
        lemma_decodable_all_concat(a.subrange(1, a.len() as int), b);
    }
}

} // verus!
