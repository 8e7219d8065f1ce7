use binary_tuples::utils::{
    decode_byte_string, decode_sortable_float, encode_byte_string, encode_sortable_float,
};

#[test]
fn byte_string_escaping_round_trip() {
    let mut buffer = Vec::new();
    encode_byte_string(0x01, &[1, 2, 0, 3, 4], &mut buffer);

    assert_eq!(buffer, vec![0x01, 1, 2, 0, 0xFF, 3, 4, 0x00]);
    assert_eq!(decode_byte_string(&buffer[1..]), (7, vec![1, 2, 0, 3, 4]));
}

#[test]
fn byte_string_stops_at_first_terminator() {
    assert_eq!(decode_byte_string(&[5, 0, 9, 0]), (2, vec![5]));
}

#[test]
fn byte_string_terminator_at_end_of_input() {
    assert_eq!(decode_byte_string(&[0]), (1, vec![]));
    assert_eq!(decode_byte_string(&[0, 0xFF, 0]), (3, vec![0]));
}

#[test]
fn byte_string_without_terminator_runs_past_end() {
    assert_eq!(decode_byte_string(&[1, 2]).0, 3);
    assert_eq!(decode_byte_string(&[]).0, 1);
    assert_eq!(decode_byte_string(&[0, 0xFF]).0, 3);
}

#[test]
fn sortable_float_flips_sign_of_positive() {
    let mut bytes = [0x3F, 0x80, 0, 0];
    encode_sortable_float(&mut bytes);
    assert_eq!(bytes, [0xBF, 0x80, 0, 0]);
    decode_sortable_float(&mut bytes);
    assert_eq!(bytes, [0x3F, 0x80, 0, 0]);
}

#[test]
fn sortable_float_inverts_negative() {
    let mut bytes = [0xBF, 0x80, 0, 0];
    encode_sortable_float(&mut bytes);
    assert_eq!(bytes, [0x40, 0x7F, 0xFF, 0xFF]);
    decode_sortable_float(&mut bytes);
    assert_eq!(bytes, [0xBF, 0x80, 0, 0]);
}
