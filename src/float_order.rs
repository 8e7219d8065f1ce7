//! The float and double encodings are ordered as the numbers are.
use vstd::arithmetic::div_mod::{
    lemma_fundamental_div_mod, lemma_fundamental_div_mod_converse_div,
    lemma_fundamental_div_mod_converse_mod,
};
use vstd::prelude::*;

use crate::constants::{DOUBLE_CODE, FLOAT_CODE};
use crate::integer::{
    be_bytes, lemma_be_bytes_len, lemma_be_bytes_order, lemma_pow256_positive,
    lemma_pow256_values, pow256,
};
use crate::order::{lemma_lex_asymmetric, lemma_lex_cons, lex_lt};
use crate::segment::{encode_value, Value};
use crate::utils::{invert_all, sign_set, sortable};

verus! {

/// The order of two IEEE-754 patterns as numbers, where `h` is the sign bit:
/// negatives below non-negatives, larger magnitudes further from zero, and
/// the two zeros equal.
pub open spec fn sign_magnitude_lt(a: nat, b: nat, h: nat) -> bool {
    let ma = if a >= h { a - h } else { a as int };
    let mb = if b >= h { b - h } else { b as int };
    if a >= h && b >= h {
        ma > mb
    } else if a < h && b < h {
        ma < mb
    } else if a >= h {
        !(ma == 0 && mb == 0)
    } else {
        false
    }
}

/// The numeric order of two `f32` bit patterns.
pub open spec fn float_lt(a: u32, b: u32) -> bool {
    sign_magnitude_lt(a as nat, b as nat, 0x8000_0000)
}

/// The numeric order of two `f64` bit patterns.
pub open spec fn double_lt(a: u64, b: u64) -> bool {
    sign_magnitude_lt(a as nat, b as nat, 0x8000_0000_0000_0000)
}

/// An `f32` bit pattern that is not a number.
pub open spec fn float_is_nan(a: u32) -> bool {
    a as nat % 0x8000_0000 > 0x7F80_0000
}

/// An `f64` bit pattern that is not a number.
pub open spec fn double_is_nan(a: u64) -> bool {
    a as nat % 0x8000_0000_0000_0000 > 0x7FF0_0000_0000_0000
}

/// Where the transformed pattern of `x` stands among `n`-byte numbers.
pub open spec fn float_key(x: nat, n: nat) -> nat {
    let h = pow256(n) / 2;
    if x >= h {
        (pow256(n) - 1 - x) as nat
    } else {
        x + h
    }
}

proof fn lemma_div_mod_unique(x: int, d: int, q: int, r: int)
    requires
        0 < d,
        0 <= r < d,
        x == q * d + r,
    ensures
        x / d == q,
        x % d == r,
{
    lemma_fundamental_div_mod_converse_div(x, d, q, r);
    lemma_fundamental_div_mod_converse_mod(x, d, q, r);
}

/// The first byte of `n` big-endian bytes, and the rest.
proof fn lemma_be_bytes_front(x: nat, n: nat)
    requires
        n >= 1,
        x < pow256(n),
    ensures
        be_bytes(x, n) == seq![(x / pow256((n - 1) as nat)) as u8] + be_bytes(
            x % pow256((n - 1) as nat),
            (n - 1) as nat,
        ),
    decreases n,
{
    if n == 1 {
        lemma_div_mod_unique(x as int, 1, x as int, 0);
        lemma_div_mod_unique(x as int, 256, 0, x as int);
        assert(be_bytes(x, 1) =~= seq![(x / pow256(0)) as u8] + be_bytes(x % pow256(0), 0));
    } else {
        let q = pow256((n - 2) as nat);
        let p = pow256((n - 1) as nat);
        lemma_pow256_positive((n - 2) as nat);
        assert(p == 256 * q);
        lemma_fundamental_div_mod(x as int, 256);
        let a = x / 256;
        let r = x % 256;
        lemma_fundamental_div_mod(a as int, q as int);
        let b = a / q;
        let c = a % q;
        assert(a < p) by (nonlinear_arith)
            requires
                x < 256 * p,
                x == 256 * a + r,
                0 <= r,
        ;
        lemma_be_bytes_front(a, (n - 1) as nat);
        assert(x == b * p + (256 * c + r) && 256 * c + r < p) by (nonlinear_arith)
            requires
                x == 256 * a + r,
                a == q * b + c,
                p == 256 * q,
                0 <= r < 256,
                0 <= c < q,
        ;
        lemma_div_mod_unique(x as int, p as int, b as int, (256 * c + r) as int);
        lemma_div_mod_unique((256 * c + r) as int, 256, c as int, r as int);
        assert(be_bytes(x, n) =~= seq![(x / p) as u8] + be_bytes(x % p, (n - 1) as nat));
    }
}

/// Inverting every bit of `n` bytes spells the complement against `256^n - 1`.
proof fn lemma_invert_be_bytes(x: nat, n: nat)
    requires
        x < pow256(n),
    ensures
        invert_all(be_bytes(x, n)) == be_bytes((pow256(n) - 1 - x) as nat, n),
    decreases n,
{
    lemma_be_bytes_len(x, n);
    lemma_be_bytes_len((pow256(n) - 1 - x) as nat, n);
    if n == 0 {
        assert(invert_all(be_bytes(x, n)) =~= be_bytes((pow256(n) - 1 - x) as nat, n));
    } else {
        let p = pow256((n - 1) as nat);
        let y = (pow256(n) - 1 - x) as nat;
        lemma_fundamental_div_mod(x as int, 256);
        let a = x / 256;
        let r = x % 256;
        assert(a < p && y == (p - 1 - a) * 256 + (255 - r) && p - 1 - a >= 0) by (nonlinear_arith)
            requires
                x < 256 * p,
                x == 256 * a + r,
                0 <= r < 256,
                y == 256 * p - 1 - x,
        ;
        lemma_div_mod_unique(y as int, 256, p - 1 - a, 255 - r);
        lemma_invert_be_bytes(a, (n - 1) as nat);
        let rb = r as u8;
        assert(rb ^ 0xFF == 255 - rb) by (bit_vector);
        lemma_be_bytes_len(a, (n - 1) as nat);
        assert(invert_all(be_bytes(x, n)) =~= be_bytes(y, n));
    }
}

/// The transform maps the pattern of `x` to the bytes of its key.
proof fn lemma_sortable_key(x: nat, n: nat)
    requires
        n >= 1,
        x < pow256(n),
    ensures
        sortable(be_bytes(x, n)) == be_bytes(float_key(x, n), n),
{
    let p = pow256((n - 1) as nat);
    let h = pow256(n) / 2;
    lemma_pow256_positive((n - 1) as nat);
    assert(h == 128 * p);
    lemma_be_bytes_front(x, n);
    let first = x / p;
    lemma_fundamental_div_mod(x as int, p as int);
    assert(first < 256) by (nonlinear_arith)
        requires
            x < 256 * p,
            x == p * first + x % p,
            0 <= x % p,
            p > 0,
    ;
    assert(x >= h <==> first >= 128) by (nonlinear_arith)
        requires
            h == 128 * p,
            x == p * first + x % p,
            0 <= x % p < p,
    ;
    let fb = first as u8;
    assert(sign_set(fb) <==> fb >= 128) by (bit_vector);
    lemma_be_bytes_len(x, n);
    if x >= h {
        lemma_invert_be_bytes(x, n);
    } else {
        let y = x + h;
        assert(y == (first + 128) * p + x % p) by (nonlinear_arith)
            requires
                y == x + h,
                h == 128 * p,
                x == p * first + x % p,
        ;
        lemma_div_mod_unique(y as int, p as int, (first + 128) as int, (x % p) as int);
        lemma_be_bytes_front(y, n);
        assert(fb ^ 0x80 == fb + 128) by (bit_vector)
            requires
                fb < 128,
        ;
        assert(sortable(be_bytes(x, n)) =~= be_bytes(y, n));
    }
}

/// Keys are ordered as the numbers, except that negative zero sorts just below zero.
proof fn lemma_key_order(a: nat, b: nat, n: nat)
    requires
        n >= 1,
        a < pow256(n),
        b < pow256(n),
    ensures
        float_key(a, n) < float_key(b, n) <==> (sign_magnitude_lt(a, b, pow256(n) / 2) || (a
            == pow256(n) / 2 && b == 0)),
        float_key(a, n) < pow256(n),
{
    lemma_pow256_positive((n - 1) as nat);
    assert(pow256(n) == 2 * (pow256(n) / 2));
}

/// The encodings of two `n`-byte patterns compare as their keys do.
proof fn lemma_encoded_key_order(tag: u8, a: nat, b: nat, n: nat)
    requires
        n >= 1,
        a < pow256(n),
        b < pow256(n),
    ensures
        lex_lt(seq![tag] + sortable(be_bytes(a, n)), seq![tag] + sortable(be_bytes(b, n)))
            <==> float_key(a, n) < float_key(b, n),
{
    lemma_sortable_key(a, n);
    lemma_sortable_key(b, n);
    lemma_key_order(a, b, n);
    lemma_key_order(b, a, n);
    let ka = float_key(a, n);
    let kb = float_key(b, n);
    lemma_lex_cons(tag, be_bytes(ka, n), tag, be_bytes(kb, n));
    if ka < kb {
        lemma_be_bytes_order(ka, kb, n);
    } else if kb < ka {
        lemma_be_bytes_order(kb, ka, n);
        lemma_lex_asymmetric(be_bytes(kb, n), be_bytes(ka, n));
    } else if lex_lt(be_bytes(ka, n), be_bytes(kb, n)) {
        lemma_lex_asymmetric(be_bytes(ka, n), be_bytes(kb, n));
    }
}

/// Floats that are numbers, infinities included, are ordered as their
/// encodings are, but for negative zero, whose encoding sorts just below
/// that of zero.
pub proof fn lemma_float_order(a: u32, b: u32)
    requires
        !float_is_nan(a),
        !float_is_nan(b),
        !(a == 0x8000_0000 && b == 0),
    ensures
        float_lt(a, b) <==> lex_lt(
            encode_value(Value::Float(a)),
            encode_value(Value::Float(b)),
        ),
{
    lemma_pow256_values();
    lemma_encoded_key_order(FLOAT_CODE, a as nat, b as nat, 4);
    lemma_key_order(a as nat, b as nat, 4);
}

/// The encodings of negative zero and zero are adjacent: negative zero sorts
/// first, and no float sorts between them.
pub proof fn lemma_float_signed_zeros(c: u32)
    ensures
        lex_lt(encode_value(Value::Float(0x8000_0000)), encode_value(Value::Float(0))),
        !(lex_lt(encode_value(Value::Float(0x8000_0000)), encode_value(Value::Float(c))) && lex_lt(
            encode_value(Value::Float(c)),
            encode_value(Value::Float(0)),
        )),
{
    lemma_pow256_values();
    lemma_encoded_key_order(FLOAT_CODE, 0x8000_0000, 0, 4);
    lemma_encoded_key_order(FLOAT_CODE, 0x8000_0000, c as nat, 4);
    lemma_encoded_key_order(FLOAT_CODE, c as nat, 0, 4);
}

/// Doubles that are numbers, infinities included, are ordered as their
/// encodings are, but for negative zero, whose encoding sorts just below
/// that of zero.
pub proof fn lemma_double_order(a: u64, b: u64)
    requires
        !double_is_nan(a),
        !double_is_nan(b),
        !(a == 0x8000_0000_0000_0000 && b == 0),
    ensures
        double_lt(a, b) <==> lex_lt(
            encode_value(Value::Double(a)),
            encode_value(Value::Double(b)),
        ),
{
    lemma_pow256_values();
    lemma_encoded_key_order(DOUBLE_CODE, a as nat, b as nat, 8);
    lemma_key_order(a as nat, b as nat, 8);
}

/// The encodings of negative zero and zero are adjacent: negative zero sorts
/// first, and no double sorts between them.
pub proof fn lemma_double_signed_zeros(c: u64)
    ensures
        lex_lt(encode_value(Value::Double(0x8000_0000_0000_0000)), encode_value(Value::Double(0))),
        !(lex_lt(encode_value(Value::Double(0x8000_0000_0000_0000)), encode_value(Value::Double(c)))
            && lex_lt(encode_value(Value::Double(c)), encode_value(Value::Double(0)))),
{
    lemma_pow256_values();
    lemma_encoded_key_order(DOUBLE_CODE, 0x8000_0000_0000_0000, 0, 8);
    lemma_encoded_key_order(DOUBLE_CODE, 0x8000_0000_0000_0000, c as nat, 8);
    lemma_encoded_key_order(DOUBLE_CODE, c as nat, 0, 8);
}

} // verus!
