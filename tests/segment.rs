use binary_tuples::constants::{
    BYTES_CODE, DOUBLE_CODE, FALSE_CODE, FLOAT_CODE, INT_ZERO_CODE, NESTED_CODE, NULL,
    STRING_CODE, TRUE_CODE, UUID_CODE,
};
use binary_tuples::errors::TupleError;
use binary_tuples::segment::Segment;
use uuid::Uuid;

fn encode(segment: Segment) -> Vec<u8> {
    let mut buffer = Vec::new();
    segment.encode(&mut buffer);
    buffer
}

fn decode(buffer: &[u8]) -> Segment {
    let mut result = Segment::decode(buffer).unwrap();
    assert_eq!(result.len(), 1);
    result.remove(0)
}

#[test]
fn test_encode_integer() {
    let result = encode(Segment::Integer(1));

    assert_eq!(result, vec![INT_ZERO_CODE + 1, 1])
}

#[test]
fn test_encode_large_integer() {
    let result = encode(Segment::Integer(257));

    assert_eq!(result, vec![INT_ZERO_CODE + 2, 1, 1])
}

#[test]
fn test_encode_max_integer() {
    let result = encode(Segment::Integer(std::i64::MAX));

    assert_eq!(result, vec![INT_ZERO_CODE + 8, 127, 255, 255, 255, 255, 255, 255, 255])
}

#[test]
fn test_encode_neg_255_integer() {
    let result = encode(Segment::Integer(-255));

    assert_eq!(result, vec![INT_ZERO_CODE - 1, 0])
}

#[test]
fn test_encode_neg_256_integer() {
    let result = encode(Segment::Integer(-256));

    assert_eq!(result, vec![INT_ZERO_CODE - 2, 254, 255])
}

#[test]
fn test_encode_min_integer() {
    let result = encode(Segment::Integer(std::i64::MIN));

    assert_eq!(result, vec![INT_ZERO_CODE - 8, 127, 255, 255, 255, 255, 255, 255, 255])
}

#[test]
fn test_encode_sort_integer() {
    let max = encode(Segment::Integer(std::i64::MAX));
    let p257 = encode(Segment::Integer(256));
    let p256 = encode(Segment::Integer(256));
    let pos_one = encode(Segment::Integer(1));
    let _0 = encode(Segment::Integer(0));
    let n1 = encode(Segment::Integer(-1));
    let n255 = encode(Segment::Integer(-256));
    let n256 = encode(Segment::Integer(-256));
    let min_plus_one = encode(Segment::Integer(std::i64::MIN + 1));
    let min = encode(Segment::Integer(std::i64::MIN));

    let input = vec![min, min_plus_one, n256, n255, n1, _0, pos_one, p256, p257, max];

    let mut reversed = input.clone();
    reversed.reverse();
    reversed.sort();

    assert_eq!(input, reversed);
}

#[test]
fn integer_boundaries_sort_strictly() {
    let values = vec![
        std::i64::MIN,
        std::i64::MIN + 1,
        -65536,
        -65535,
        -256,
        -255,
        -1,
        0,
        1,
        255,
        256,
        65535,
        65536,
        std::i64::MAX - 1,
        std::i64::MAX,
    ];
    let encoded: Vec<Vec<u8>> = values.iter().map(|v| encode(Segment::Integer(*v))).collect();
    for i in 1..encoded.len() {
        assert!(encoded[i - 1] < encoded[i], "{} vs {}", values[i - 1], values[i]);
    }
}

#[test]
fn integer_boundaries_round_trip() {
    for v in [std::i64::MIN, std::i64::MIN + 1, -256, -255, -1, 0, 1, 255, 256, std::i64::MAX] {
        assert_eq!(decode(&encode(Segment::Integer(v))), Segment::Integer(v));
    }
}

#[test]
fn encode_const() {
    let builder = encode(Segment::Const("wow"));

    assert_eq!(builder, vec![STRING_CODE, 119, 111, 119, 0]);
}

#[test]
fn encode_string() {
    let builder = encode(Segment::String(String::from("wow")));

    assert_eq!(builder, vec![STRING_CODE, 119, 111, 119, 0]);
}

#[test]
fn encode_string_escaped() {
    let builder = encode(Segment::String(String::from("wow\0")));

    assert_eq!(builder, vec![STRING_CODE, 119, 111, 119, 0, 255, 0]);
}

#[test]
fn encode_bytes() {
    let builder = encode(Segment::Bytes(vec![1, 2, 3, 4]));

    assert_eq!(builder, vec![BYTES_CODE, 1, 2, 3, 4, 0]);
}

#[test]
fn encode_bytes_escaped() {
    let builder = encode(Segment::Bytes(vec![1, 2, 0, 3, 4]));

    assert_eq!(builder, vec![BYTES_CODE, 1, 2, 0, 255, 3, 4, 0]);
}

#[test]
fn encode_int_zero() {
    let builder = encode(Segment::Integer(0));

    assert_eq!(builder, vec![INT_ZERO_CODE]);
}

#[test]
fn encode_float() {
    let builder = encode(Segment::Float(1.0f32.to_bits()));

    assert_eq!(builder, vec![FLOAT_CODE, 191, 128, 0, 0]);
}

#[test]
fn encode_larger_float() {
    let builder = encode(Segment::Float(2.0f32.to_bits()));

    assert_eq!(builder, vec![FLOAT_CODE, 192, 0, 0, 0]);
}

#[test]
fn encode_even_larger_float() {
    let builder = encode(Segment::Float(31415.514f32.to_bits()));

    assert_eq!(builder, vec![FLOAT_CODE, 198, 245, 111, 7]);
}

#[test]
fn test_encode_sort_float() {
    let p_inf = encode(Segment::Float(std::f32::INFINITY.to_bits()));
    let p_max = encode(Segment::Float(std::f32::MAX.to_bits()));
    let pos_one = encode(Segment::Float(1.0f32.to_bits()));
    let p_min = encode(Segment::Float(std::f32::MIN_POSITIVE.to_bits()));
    let _0 = encode(Segment::Float(0.0f32.to_bits()));
    let n_min = encode(Segment::Float((-std::f32::MIN_POSITIVE).to_bits()));
    let n1 = encode(Segment::Float((-1.0f32).to_bits()));
    let n_max = encode(Segment::Float((-std::f32::MAX).to_bits()));
    let n_inf = encode(Segment::Float(std::f32::NEG_INFINITY.to_bits()));

    let input = vec![n_inf, n_max, n1, n_min, _0, p_min, pos_one, p_max, p_inf];

    let mut reversed = input.clone();
    reversed.reverse();
    reversed.sort();

    assert_eq!(input, reversed);
}

#[test]
fn signed_zeros_are_adjacent_between_signs() {
    let neg_zero = encode(Segment::Float((-0.0f32).to_bits()));
    let pos_zero = encode(Segment::Float(0.0f32.to_bits()));
    let neg_tiny = encode(Segment::Float((-1.0e-45f32).to_bits()));
    let pos_tiny = encode(Segment::Float(1.0e-45f32.to_bits()));

    assert_eq!(neg_zero, vec![FLOAT_CODE, 127, 255, 255, 255]);
    assert_eq!(pos_zero, vec![FLOAT_CODE, 128, 0, 0, 0]);
    assert!(neg_tiny < neg_zero);
    assert!(neg_zero < pos_zero);
    assert!(pos_zero < pos_tiny);
}

#[test]
fn encode_double() {
    let builder = encode(Segment::Double(1.0f64.to_bits()));

    assert_eq!(builder, vec![DOUBLE_CODE, 191, 240, 0, 0, 0, 0, 0, 0]);
}

#[test]
fn encode_larger_double() {
    let builder = encode(Segment::Double(2.0f64.to_bits()));

    assert_eq!(builder, vec![DOUBLE_CODE, 192, 0, 0, 0, 0, 0, 0, 0]);
}

#[test]
fn encode_max_double() {
    let builder = encode(Segment::Double(std::f64::MAX.to_bits()));

    assert_eq!(builder, vec![DOUBLE_CODE, 255, 239, 255, 255, 255, 255, 255, 255]);
}

#[test]
fn encode_min_positive_double() {
    let builder = encode(Segment::Double(std::f64::MIN_POSITIVE.to_bits()));

    assert_eq!(builder, vec![DOUBLE_CODE, 128, 16, 0, 0, 0, 0, 0, 0]);
}

#[test]
fn encode_inf_double() {
    let builder = encode(Segment::Double(std::f64::INFINITY.to_bits()));

    assert_eq!(builder, vec![DOUBLE_CODE, 255, 240, 0, 0, 0, 0, 0, 0]);
}

#[test]
fn encode_neg_inf_double() {
    let builder = encode(Segment::Double(std::f64::NEG_INFINITY.to_bits()));

    assert_eq!(builder, vec![DOUBLE_CODE, 0, 15, 255, 255, 255, 255, 255, 255]);
}

#[test]
fn test_encode_sort_double() {
    let p_inf = encode(Segment::Double(std::f64::INFINITY.to_bits()));
    let p_max = encode(Segment::Double(std::f64::MAX.to_bits()));
    let pos_one = encode(Segment::Double(1.0f64.to_bits()));
    let p_min = encode(Segment::Double(std::f64::MIN_POSITIVE.to_bits()));
    let _0 = encode(Segment::Double(0.0f64.to_bits()));
    let n_min = encode(Segment::Double((-std::f64::MIN_POSITIVE).to_bits()));
    let n1 = encode(Segment::Double((-1.0f64).to_bits()));
    let n_max = encode(Segment::Double((-std::f64::MAX).to_bits()));
    let n_inf = encode(Segment::Double(std::f64::NEG_INFINITY.to_bits()));

    let input = vec![n_inf, n_max, n1, n_min, _0, p_min, pos_one, p_max, p_inf];

    let mut reversed = input.clone();
    reversed.reverse();
    reversed.sort();

    assert_eq!(input, reversed);
}

#[test]
fn decode_string() {
    let result = decode(&vec![STRING_CODE, 119, 111, 119, 0]);

    assert_eq!(result, Segment::String(String::from("wow")));
}

#[test]
fn decode_string_escaped() {
    let result = decode(&vec![STRING_CODE, 119, 111, 119, 0, 255, 0]);

    assert_eq!(result, Segment::String(String::from("wow\0")));
}

#[test]
fn decode_string_start() {
    let result = decode(&vec![STRING_CODE, 0, 255, 119, 0, 255, 0]);

    assert_eq!(result, Segment::String(String::from("\0w\0")));
}

#[test]
fn decode_invalid_utf8_string() {
    let result = Segment::decode(&vec![STRING_CODE, 0xC3, 0x28, 0]).unwrap_err();

    assert_eq!(result, TupleError::StringDecodeError);
}

#[test]
fn decode_bytes() {
    let result = decode(&vec![BYTES_CODE, 1, 2, 3, 4, 0]);

    assert_eq!(result, Segment::Bytes(vec![1, 2, 3, 4]));
}

#[test]
fn decode_bytes_escaped() {
    let result = decode(&vec![BYTES_CODE, 1, 2, 0, 255, 3, 4, 0]);

    assert_eq!(result, Segment::Bytes(vec![1, 2, 0, 3, 4]));
}

#[test]
fn decode_unterminated_bytes() {
    let result = Segment::decode(&vec![BYTES_CODE, 1, 2]).unwrap_err();

    assert_eq!(result, TupleError::TruncatedTuple);
}

#[test]
fn decode_int_zero() {
    let result = decode(&vec![INT_ZERO_CODE]);

    assert_eq!(result, Segment::Integer(0));
}

#[test]
fn decode_float() {
    let result = decode(&vec![FLOAT_CODE, 191, 128, 0, 0]);

    assert_eq!(result, Segment::Float(1.0f32.to_bits()));
}

#[test]
fn decode_larger_float() {
    let result = decode(&vec![FLOAT_CODE, 192, 0, 0, 0]);

    assert_eq!(result, Segment::Float(2.0f32.to_bits()));
}

#[test]
fn decode_even_larger_float() {
    let result = decode(&vec![FLOAT_CODE, 198, 245, 111, 7]);

    assert_eq!(result, Segment::Float(31415.514f32.to_bits()));
}

#[test]
fn decode_negative_float() {
    let result = decode(&vec![FLOAT_CODE, 64, 127, 255, 255]);

    assert_eq!(result, Segment::Float((-1.0f32).to_bits()));
}

#[test]
fn decode_double() {
    let result = decode(&vec![DOUBLE_CODE, 191, 240, 0, 0, 0, 0, 0, 0]);

    assert_eq!(result, Segment::Double(1.0f64.to_bits()));
}

#[test]
fn decode_larger_double() {
    let result = decode(&vec![DOUBLE_CODE, 192, 0, 0, 0, 0, 0, 0, 0]);

    assert_eq!(result, Segment::Double(2.0f64.to_bits()));
}

#[test]
fn decode_even_larger_double() {
    let result = decode(&vec![DOUBLE_CODE, 192, 222, 173, 224, 229, 96, 65, 137]);

    assert_eq!(result, Segment::Double(31415.514f64.to_bits()));
}

#[test]
fn test_decode_integer() {
    let result = decode(&vec![INT_ZERO_CODE + 1, 1]);

    assert_eq!(result, Segment::Integer(1));
}

#[test]
fn test_decode_large_integer() {
    let result = decode(&vec![INT_ZERO_CODE + 2, 19, 136]);

    assert_eq!(result, Segment::Integer(5000));
}

#[test]
fn test_decode_larger_integer() {
    let result = decode(&vec![INT_ZERO_CODE + 2, 1, 1]);

    assert_eq!(result, Segment::Integer(257));
}

#[test]
fn test_decode_neg_integer() {
    let result = decode(&vec![INT_ZERO_CODE - 1, 254]);

    assert_eq!(result, Segment::Integer(-1));
}

#[test]
fn test_decode_neg_one_integer() {
    let result = decode(&vec![INT_ZERO_CODE - 1, 1]);

    assert_eq!(result, Segment::Integer(-254));
}

#[test]
fn test_decode_neg_malformed() {
    let result = Segment::decode(&vec![INT_ZERO_CODE - 1]).unwrap_err();

    assert_eq!(result, TupleError::IntegerDecodeError { position: 0 });
}

#[test]
fn test_decode_pos_malformed() {
    let result = Segment::decode(&vec![INT_ZERO_CODE + 1]).unwrap_err();

    assert_eq!(result, TupleError::IntegerDecodeError { position: 0 });
}

#[test]
fn test_decode_float_malformed() {
    let result = Segment::decode(&vec![FLOAT_CODE]).unwrap_err();

    assert_eq!(result, TupleError::DecimalDecodeError { position: 0 });
}

#[test]
fn test_decode_decimal_malformed() {
    let result = Segment::decode(&vec![DOUBLE_CODE]).unwrap_err();

    assert_eq!(result, TupleError::DecimalDecodeError { position: 0 });
}

#[test]
fn decode_short_double_is_malformed() {
    let result = Segment::decode(&vec![DOUBLE_CODE, 1, 2, 3, 4, 5, 6, 7]).unwrap_err();

    assert_eq!(result, TupleError::DecimalDecodeError { position: 0 });
}

#[test]
fn decode_unknown_tag() {
    let result = Segment::decode(&vec![0xFF]).unwrap_err();

    assert_eq!(result, TupleError::DecodeError { position: 0, type_code: 0xFF });
}

#[test]
fn decode_unknown_tag_after_segment() {
    let result = Segment::decode(&vec![TRUE_CODE, 0x03]).unwrap_err();

    assert_eq!(result, TupleError::DecodeError { position: 1, type_code: 0x03 });
}

#[test]
fn decode_stray_terminator() {
    let result = Segment::decode(&vec![TRUE_CODE, NULL, TRUE_CODE]).unwrap_err();

    assert_eq!(result, TupleError::TruncatedTuple);
}

#[test]
fn test_decode_max_integer() {
    let result = decode(&vec![INT_ZERO_CODE + 8, 127, 255, 255, 255, 255, 255, 255, 255]);

    assert_eq!(result, Segment::Integer(std::i64::MAX));
}

#[test]
fn test_decode_max_neg_integer() {
    let result = decode(&vec![INT_ZERO_CODE - 8, 127, 255, 255, 255, 255, 255, 255, 255]);

    assert_eq!(result, Segment::Integer(std::i64::MIN));
}

#[test]
fn test_decode_neg_boundary_integer() {
    let result = decode(&vec![INT_ZERO_CODE - 2, 254, 255]);

    assert_eq!(result, Segment::Integer(-256));
}

#[test]
fn test_encode_double_true() {
    let builder = encode(Segment::Boolean(true));

    assert_eq!(builder, vec![TRUE_CODE]);
}

#[test]
fn test_encode_double_false() {
    let builder = encode(Segment::Boolean(false));

    assert_eq!(builder, vec![FALSE_CODE]);
}

#[test]
fn test_decode_boolen_true() {
    let result = decode(&vec![TRUE_CODE]);

    assert_eq!(result, Segment::Boolean(true));
}

#[test]
fn test_decode_boolen_false() {
    let result = decode(&vec![FALSE_CODE]);

    assert_eq!(result, Segment::Boolean(false));
}

#[test]
fn test_encode_uuid() {
    let uuid = Uuid::new_v4();
    let builder = encode(Segment::UUID(*uuid.as_bytes()));

    let mut expected_result = vec![UUID_CODE];
    expected_result.extend_from_slice(uuid.as_bytes());
    assert_eq!(builder, expected_result);
}

#[test]
fn test_decode_uuid() {
    let input = vec![
        48, 197, 194, 162, 128, 228, 124, 65, 129, 148, 179, 194, 60, 213, 250, 237, 232,
    ];
    let result = decode(&input);
    let uuid_bytes = &input[1..];

    assert_eq!(result, Segment::UUID(*Uuid::from_slice(uuid_bytes).unwrap().as_bytes()));
}

#[test]
fn decode_short_uuid() {
    let result = Segment::decode(&vec![UUID_CODE, 1, 2, 3]).unwrap_err();

    assert_eq!(result, TupleError::UuidDecodeError { position: 0 });
}

#[test]
fn test_encode_nested() {
    let builder = encode(Segment::Nested(vec![Segment::Const("Hello"), Segment::Boolean(true)]));

    assert_eq!(
        builder,
        vec![NESTED_CODE, STRING_CODE, 72, 101, 108, 108, 111, NULL, TRUE_CODE, NULL]
    );
}

#[test]
fn test_encode_recursive_nested() {
    let builder = encode(Segment::Nested(vec![
        Segment::Nested(vec![Segment::Boolean(true), Segment::Const("Hello")]),
        Segment::Integer(5000),
    ]));

    assert_eq!(
        builder,
        vec![
            NESTED_CODE,
            NESTED_CODE,
            TRUE_CODE,
            STRING_CODE,
            72,
            101,
            108,
            108,
            111,
            NULL,
            NULL,
            INT_ZERO_CODE + 2,
            19,
            136,
            NULL
        ]
    );
}

#[test]
fn test_decode_nested() {
    let result = decode(&vec![NESTED_CODE, STRING_CODE, 72, 101, 108, 108, 111, NULL, TRUE_CODE, NULL]);

    assert_eq!(
        result,
        Segment::Nested(vec![Segment::String(String::from("Hello")), Segment::Boolean(true)])
    )
}

#[test]
fn test_decode_recursive_nested() {
    let builder = decode(&vec![
        NESTED_CODE,
        NESTED_CODE,
        TRUE_CODE,
        STRING_CODE,
        72,
        101,
        108,
        108,
        111,
        NULL,
        NULL,
        INT_ZERO_CODE + 2,
        19,
        136,
        NULL,
    ]);

    assert_eq!(
        builder,
        Segment::Nested(vec![
            Segment::Nested(vec![Segment::Boolean(true), Segment::String(String::from("Hello"))]),
            Segment::Integer(5000)
        ])
    );
}

#[test]
fn nested_round_trip() {
    let encoded = encode(Segment::Nested(vec![Segment::Boolean(true), Segment::Integer(1)]));

    assert_eq!(encoded, vec![NESTED_CODE, TRUE_CODE, INT_ZERO_CODE + 1, 1, NULL]);
    assert_eq!(
        decode(&encoded),
        Segment::Nested(vec![Segment::Boolean(true), Segment::Integer(1)])
    );
}

#[test]
fn nested_missing_terminator() {
    let result = Segment::decode(&vec![NESTED_CODE, TRUE_CODE, INT_ZERO_CODE + 1, 1]).unwrap_err();

    assert_eq!(result, TupleError::TruncatedNestedTuple);
}

#[test]
fn nested_error_positions_count_from_nested_start() {
    let result = Segment::decode(&vec![TRUE_CODE, NESTED_CODE, TRUE_CODE, 0x03, NULL]).unwrap_err();

    assert_eq!(result, TupleError::DecodeError { position: 1, type_code: 0x03 });
}

#[test]
fn raw_tuple_segment_is_spliced() {
    let builder = encode(Segment::Tuple(vec![INT_ZERO_CODE + 1, 7]));

    assert_eq!(builder, vec![INT_ZERO_CODE + 1, 7]);
}

#[test]
fn every_kind_round_trips() {
    let values = vec![
        Segment::Bytes(vec![0, 1, 0, 255]),
        Segment::String(String::from("h\u{e9}llo")),
        Segment::Nested(vec![Segment::Nested(vec![]), Segment::Bytes(vec![])]),
        Segment::Integer(-70000),
        Segment::Float((-2.5f32).to_bits()),
        Segment::Double(std::f64::consts::PI.to_bits()),
        Segment::Boolean(false),
        Segment::UUID([7; 16]),
    ];
    for value in values {
        let encoded = encode(clone_segment(&value));
        assert_eq!(decode(&encoded), value);
    }
}

fn clone_segment(segment: &Segment) -> Segment {
    match segment {
        Segment::Bytes(b) => Segment::Bytes(b.clone()),
        Segment::String(s) => Segment::String(s.clone()),
        Segment::Const(s) => Segment::Const(s),
        Segment::Nested(v) => Segment::Nested(v.iter().map(clone_segment).collect()),
        Segment::Integer(i) => Segment::Integer(*i),
        Segment::Float(f) => Segment::Float(*f),
        Segment::Double(d) => Segment::Double(*d),
        Segment::Boolean(b) => Segment::Boolean(*b),
        Segment::UUID(u) => Segment::UUID(*u),
        Segment::Tuple(b) => Segment::Tuple(b.clone()),
    }
}
