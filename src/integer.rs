//! Big-endian byte arithmetic and the variable-length integer codec.
use vstd::prelude::*;


use crate::bridge::{be_u64_bytes, be_u64_value};
use crate::constants::{size_limit, INT_NEG_MIN_CODE, INT_POS_MAX_CODE, INT_ZERO_CODE};
use crate::order::{lemma_lex_asymmetric, lemma_lex_cons, lemma_lex_push, lex_lt};

verus! {

/// `256^n`.
pub open spec fn pow256(n: nat) -> nat
    decreases n,
{
    if n == 0 {
        1
    } else {
        256 * pow256((n - 1) as nat)
    }
}

/// The `n` low-order bytes of `x`, most significant first.
pub open spec fn be_bytes(x: nat, n: nat) -> Seq<u8>
    decreases n,
{
    if n == 0 {
        Seq::empty()
    } else {
        be_bytes(x / 256, (n - 1) as nat).push((x % 256) as u8)
    }
}

/// The number that the bytes `s` spell, most significant first.
pub open spec fn be_value(s: Seq<u8>) -> nat
    decreases s.len(),
{
    if s.len() == 0 {
        0
    } else {
        be_value(s.drop_last()) * 256 + s.last() as nat
    }
}

/// `k` zero bytes.
pub open spec fn zeros(k: nat) -> Seq<u8> {
    Seq::new(k, |_i: int| 0u8)
}

/// The fewest bytes that hold `m`.
pub open spec fn byte_len(m: nat) -> nat
    decreases m,
{
    if m == 0 {
        0
    } else {
        1 + byte_len(m / 256)
    }
}

/// The tag byte of an integer: its sign and its byte length.
pub open spec fn int_tag(v: i64) -> u8 {
    if v >= 0 {
        (INT_ZERO_CODE + byte_len(v as nat)) as u8
    } else {
        (INT_ZERO_CODE - byte_len((-v) as nat)) as u8
    }
}

/// The payload of an integer: its magnitude, or for a negative value the
/// complement of its magnitude against the ceiling of its byte length.
pub open spec fn int_payload(v: i64) -> Seq<u8> {
    if v >= 0 {
        be_bytes(v as nat, byte_len(v as nat))
    } else {
        let m = (-v) as nat;
        let n = byte_len(m);
        be_bytes((pow256(n) - 1 - m) as nat, n)
    }
}

/// The encoding of an integer segment.
pub open spec fn encode_int(v: i64) -> Seq<u8> {
    seq![int_tag(v)] + int_payload(v)
}

/// A tag byte of the integer range, zero included.
pub open spec fn is_int_tag(tag: u8) -> bool {
    INT_NEG_MIN_CODE <= tag <= INT_POS_MAX_CODE
}

/// How many payload bytes an integer tag declares.
pub open spec fn int_width(tag: u8) -> nat {
    if tag < INT_ZERO_CODE {
        (INT_ZERO_CODE - tag) as nat
    } else {
        (tag - INT_ZERO_CODE) as nat
    }
}

/// Two's-complement wrap-around of `x` into the range of `i64`.
pub open spec fn wrap_i64(x: int) -> i64 {
    if x > i64::MAX {
        (x - 0x1_0000_0000_0000_0000) as i64
    } else if x < i64::MIN {
        (x + 0x1_0000_0000_0000_0000) as i64
    } else {
        x as i64
    }
}

/// The integer that a tag and its payload denote. A negative payload is
/// taken less the ceiling of its byte length.
pub open spec fn int_value(tag: u8, payload: Seq<u8>) -> i64 {
    if tag < INT_ZERO_CODE {
        wrap_i64(be_value(payload) - (pow256(payload.len()) - 1))
    } else {
        wrap_i64(be_value(payload) as int)
    }
}

pub proof fn lemma_pow256_values()
    ensures
        pow256(0) == 1,
        pow256(1) == 0x100,
        pow256(2) == 0x1_0000,
        pow256(3) == 0x100_0000,
        pow256(4) == 0x1_0000_0000,
        pow256(5) == 0x100_0000_0000,
        pow256(6) == 0x1_0000_0000_0000,
        pow256(7) == 0x100_0000_0000_0000,
        pow256(8) == 0x1_0000_0000_0000_0000,
{
    reveal_with_fuel(pow256, 9);
}

pub proof fn lemma_pow256_positive(n: nat)
    ensures
        pow256(n) >= 1,
    decreases n,
{
    if n > 0 {
        lemma_pow256_positive((n - 1) as nat);
    }
}

pub proof fn lemma_pow256_mono(a: nat, b: nat)
    requires
        a <= b,
    ensures
        pow256(a) <= pow256(b),
    decreases b,
{
    if a < b {
        lemma_pow256_mono(a, (b - 1) as nat);
        lemma_pow256_positive((b - 1) as nat);
    }
}

pub proof fn lemma_be_bytes_len(x: nat, n: nat)
    ensures
        be_bytes(x, n).len() == n,
    decreases n,
{
    if n > 0 {
        lemma_be_bytes_len(x / 256, (n - 1) as nat);
    }
}

/// The bytes of a number that fits read back as that number.
pub proof fn lemma_be_value_bytes(x: nat, n: nat)
    requires
        x < pow256(n),
    ensures
        be_value(be_bytes(x, n)) == x,
    decreases n,
{
    if n > 0 {
        let p = pow256((n - 1) as nat);
        assert(x / 256 < p) by (nonlinear_arith)
            requires
                x < 256 * p,
        ;
        lemma_be_value_bytes(x / 256, (n - 1) as nat);
        let s = be_bytes(x, n);
        assert(s.drop_last() =~= be_bytes(x / 256, (n - 1) as nat));
    }
}

/// What `n` bytes spell is below `256^n`.
pub proof fn lemma_be_value_bound(s: Seq<u8>)
    ensures
        be_value(s) < pow256(s.len()),
    decreases s.len(),
{
    if s.len() > 0 {
        lemma_be_value_bound(s.drop_last());
        let v = be_value(s.drop_last());
        let p = pow256((s.len() - 1) as nat);
        let l = s.last();
        assert(v * 256 + l < 256 * p) by (nonlinear_arith)
            requires
                v < p,
                l < 256,
        ;
    }
}

/// Leading zero bytes do not change the value.
pub proof fn lemma_be_value_zeros(k: nat, p: Seq<u8>)
    ensures
        be_value(zeros(k) + p) == be_value(p),
    decreases p.len(), k,
{
    if p.len() == 0 {
        assert(zeros(k) + p =~= zeros(k));
        if k > 0 {
            assert(zeros(k).drop_last() =~= zeros((k - 1) as nat));
            lemma_be_value_zeros((k - 1) as nat, p);
            assert(zeros((k - 1) as nat) + p =~= zeros((k - 1) as nat));
        }
    } else {
        assert((zeros(k) + p).drop_last() =~= zeros(k) + p.drop_last());
        lemma_be_value_zeros(k, p.drop_last());
    }
}

/// Writing a number that fits in `m` bytes with `k` more bytes pads it with zeros.
pub proof fn lemma_be_bytes_pad(x: nat, m: nat, k: nat)
    requires
        x < pow256(m),
    ensures
        be_bytes(x, m + k) == zeros(k) + be_bytes(x, m),
    decreases m, k,
{
    if m == 0 {
        assert(x == 0);
        if k == 0 {
            assert(be_bytes(x, 0) =~= zeros(0) + be_bytes(x, 0));
        } else {
            lemma_be_bytes_pad(0, 0, (k - 1) as nat);
            assert(be_bytes(0, k) =~= zeros(k) + be_bytes(0, 0));
        }
    } else {
        let p = pow256((m - 1) as nat);
        assert(x / 256 < p) by (nonlinear_arith)
            requires
                x < 256 * p,
        ;
        lemma_be_bytes_pad(x / 256, (m - 1) as nat, k);
        assert((m + k - 1) as nat == (m - 1) as nat + k);
        assert(be_bytes(x, m + k) =~= zeros(k) + be_bytes(x, m));
    }
}

/// The first of the fewest bytes of a positive number is not zero.
pub proof fn lemma_be_bytes_first(x: nat, n: nat)
    requires
        n >= 1,
        pow256((n - 1) as nat) <= x < pow256(n),
    ensures
        be_bytes(x, n)[0] != 0,
    decreases n,
{
    lemma_be_bytes_len(x, n);
    if n == 1 {
        assert(be_bytes(x, 1) =~= seq![(x % 256) as u8]);
    } else {
        let p = pow256((n - 2) as nat);
        assert(p <= x / 256 < 256 * p) by (nonlinear_arith)
            requires
                256 * p <= x < 256 * (256 * p),
        ;
        lemma_be_bytes_first(x / 256, (n - 1) as nat);
        lemma_be_bytes_len(x / 256, (n - 1) as nat);
    }
}

/// `byte_len(m)` bytes hold `m`, and no fewer do.
pub proof fn lemma_byte_len(m: nat)
    ensures
        m < pow256(byte_len(m)),
        m > 0 ==> byte_len(m) >= 1 && pow256((byte_len(m) - 1) as nat) <= m,
    decreases m,
{
    if m > 0 {
        lemma_byte_len(m / 256);
        let p = pow256(byte_len(m / 256));
        assert(m < 256 * p) by (nonlinear_arith)
            requires
                m / 256 < p,
        ;
        if m / 256 > 0 {
            let q = pow256((byte_len(m / 256) - 1) as nat);
            assert(256 * q <= m) by (nonlinear_arith)
                requires
                    q <= m / 256,
            ;
        }
    }
}

/// A number below `256^k` needs at most `k` bytes.
pub proof fn lemma_byte_len_at_most(m: nat, k: nat)
    requires
        m < pow256(k),
    ensures
        byte_len(m) <= k,
    decreases m,
{
    if m > 0 {
        assert(k > 0);
        let p = pow256((k - 1) as nat);
        assert(m / 256 < p) by (nonlinear_arith)
            requires
                m < 256 * p,
        ;
        lemma_byte_len_at_most(m / 256, (k - 1) as nat);
    }
}

/// A larger number needs at least as many bytes.
pub proof fn lemma_byte_len_mono(a: nat, b: nat)
    requires
        a <= b,
    ensures
        byte_len(a) <= byte_len(b),
    decreases b,
{
    if a > 0 {
        assert(a / 256 <= b / 256) by (nonlinear_arith)
            requires
                a <= b,
        ;
        lemma_byte_len_mono(a / 256, b / 256);
    }
}

/// Same-length big-endian bytes are ordered as the numbers they spell.
pub proof fn lemma_be_bytes_order(x: nat, y: nat, n: nat)
    requires
        x < y < pow256(n),
    ensures
        lex_lt(be_bytes(x, n), be_bytes(y, n)),
    decreases n,
{
    if n > 0 {
        let p = pow256((n - 1) as nat);
        assert(x / 256 <= y / 256 && y / 256 < p) by (nonlinear_arith)
            requires
                x < y < 256 * p,
        ;
        lemma_be_bytes_len(x / 256, (n - 1) as nat);
        lemma_be_bytes_len(y / 256, (n - 1) as nat);
        lemma_lex_push(
            be_bytes(x / 256, (n - 1) as nat),
            be_bytes(y / 256, (n - 1) as nat),
            (x % 256) as u8,
            (y % 256) as u8,
        );
        if x / 256 < y / 256 {
            lemma_be_bytes_order(x / 256, y / 256, (n - 1) as nat);
        } else {
            assert(x % 256 < y % 256) by (nonlinear_arith)
                requires
                    x < y,
                    x / 256 == y / 256,
            ;
        }
    }
}

/// The byte length of a nonzero `i64` magnitude is between 1 and 8.
pub proof fn lemma_int_byte_len(v: i64)
    ensures
        v > 0 ==> 1 <= byte_len(v as nat) <= 8,
        v < 0 ==> 1 <= byte_len((-v) as nat) <= 8,
        v == 0 ==> byte_len(0) == 0,
{
    lemma_pow256_values();
    if v > 0 {
        lemma_byte_len(v as nat);
        lemma_byte_len_at_most(v as nat, 8);
    } else if v < 0 {
        lemma_byte_len((-v) as nat);
        lemma_byte_len_at_most((-v) as nat, 8);
    }
}

/// The tag of an integer lies in the integer range and declares the length of its payload.
pub proof fn lemma_int_shape(v: i64)
    ensures
        is_int_tag(int_tag(v)),
        int_payload(v).len() == int_width(int_tag(v)),
        v < 0 <==> int_tag(v) < INT_ZERO_CODE,
        v == 0 <==> int_tag(v) == INT_ZERO_CODE,
{
    lemma_int_byte_len(v);
    if v >= 0 {
        lemma_be_bytes_len(v as nat, byte_len(v as nat));
    } else {
        let m = (-v) as nat;
        lemma_be_bytes_len((pow256(byte_len(m)) - 1 - m) as nat, byte_len(m));
    }
}

/// Decoding the payload of an encoded integer gives it back.
pub proof fn lemma_int_round_trip(v: i64)
    ensures
        int_value(int_tag(v), int_payload(v)) == v,
{
    lemma_int_shape(v);
    if v >= 0 {
        lemma_byte_len(v as nat);
        lemma_be_value_bytes(v as nat, byte_len(v as nat));
    } else {
        let m = (-v) as nat;
        let n = byte_len(m);
        lemma_byte_len(m);
        lemma_be_value_bytes((pow256(n) - 1 - m) as nat, n);
        lemma_be_bytes_len((pow256(n) - 1 - m) as nat, n);
    }
}

proof fn lemma_int_lt(a: i64, b: i64)
    requires
        a < b,
    ensures
        lex_lt(encode_int(a), encode_int(b)),
{
    lemma_int_byte_len(a);
    lemma_int_byte_len(b);
    lemma_lex_cons(int_tag(a), int_payload(a), int_tag(b), int_payload(b));
    if 0 < a {
        lemma_byte_len_mono(a as nat, b as nat);
        if byte_len(a as nat) == byte_len(b as nat) {
            lemma_byte_len(b as nat);
            lemma_be_bytes_order(a as nat, b as nat, byte_len(a as nat));
        }
    } else if b < 0 {
        let ma = (-a) as nat;
        let mb = (-b) as nat;
        lemma_byte_len_mono(mb, ma);
        if byte_len(ma) == byte_len(mb) {
            let n = byte_len(ma);
            lemma_byte_len(ma);
            lemma_be_bytes_order((pow256(n) - 1 - ma) as nat, (pow256(n) - 1 - mb) as nat, n);
        }
    }
}

/// Integers are ordered as their encodings are ordered, byte by byte.
pub proof fn lemma_integer_order(a: i64, b: i64)
    ensures
        a < b <==> lex_lt(encode_int(a), encode_int(b)),
{
    if a < b {
        lemma_int_lt(a, b);
    } else if b < a {
        lemma_int_lt(b, a);
        lemma_lex_asymmetric(encode_int(b), encode_int(a));
    } else if lex_lt(encode_int(a), encode_int(b)) {
        lemma_lex_asymmetric(encode_int(a), encode_int(b));
    }
}

/// Appends `src[from..]` to `buffer`.
pub(crate) fn push_tail(buffer: &mut Vec<u8>, src: &Vec<u8>, from: usize)
    requires
        from <= src@.len(),
    ensures
        final(buffer)@ == old(buffer)@ + src@.subrange(from as int, src@.len() as int),
{
    let mut i = from;
    while i < src.len()
        invariant
            from <= i <= src@.len(),
            buffer@ == old(buffer)@ + src@.subrange(from as int, i as int),
        decreases src@.len() - i,
    {
        buffer.push(src[i]);
        i += 1;
        assert(buffer@ =~= old(buffer)@ + src@.subrange(from as int, i as int));
    }
}

/// The number of zero bytes that `buf` starts with.
fn leading_zero_bytes(buf: &Vec<u8>) -> (k: usize)
    ensures
        k <= buf@.len(),
        forall|i: int| 0 <= i < k ==> buf@[i] == 0,
        k < buf@.len() ==> buf@[k as int] != 0,
{
    let mut k: usize = 0;
    while k < buf.len() && buf[k] == 0
        invariant
            k <= buf@.len(),
            forall|i: int| 0 <= i < k ==> buf@[i] == 0,
        decreases buf@.len() - k,
    {
        k += 1;
    }
    k
}

/// Where the fewest bytes of `x` start among its eight big-endian bytes.
proof fn lemma_skip_zeros(x: nat, buf: Seq<u8>, k: nat)
    requires
        0 < x < pow256(8),
        buf == be_bytes(x, 8),
        k <= 8,
        forall|i: int| 0 <= i < k ==> buf[i] == 0,
        k < 8 ==> buf[k as int] != 0,
    ensures
        k == 8 - byte_len(x),
        1 <= byte_len(x) <= 8,
{
    lemma_byte_len(x);
    lemma_byte_len_at_most(x, 8);
    let n = byte_len(x);
    lemma_be_bytes_pad(x, n, (8 - n) as nat);
    lemma_be_bytes_first(x, n);
    lemma_be_bytes_len(x, n);
    assert(buf[8 - n] == be_bytes(x, n)[0]);
    if k < 8 - n {
        assert(buf[k as int] == 0);
    }
}

/// Appends the encoding of the integer `value` to `buffer`.
pub fn encode_integer(value: i64, buffer: &mut Vec<u8>)
    ensures
        final(buffer)@ == old(buffer)@ + encode_int(value),
{
    proof {
        lemma_pow256_values();
        lemma_int_byte_len(value);
    }
    if value == 0 {
        buffer.push(INT_ZERO_CODE);
        assert(int_payload(0) =~= Seq::<u8>::empty());
        assert(buffer@ =~= old(buffer)@ + encode_int(value));
    } else if value == i64::MIN {
        buffer.push(INT_NEG_MIN_CODE);
        let buf = be_u64_bytes(0x7FFF_FFFF_FFFF_FFFF);
        push_tail(buffer, &buf, 0);
        proof {
            let m = (-value) as nat;
            lemma_byte_len(m);
            lemma_byte_len_at_most(m, 8);
            assert(pow256(7) <= m);
            assert(byte_len(m) == 8) by {
                if byte_len(m) < 8 {
                    lemma_pow256_mono(byte_len(m), 7);
                }
            }
            lemma_be_bytes_len(0x7FFF_FFFF_FFFF_FFFF, 8);
            assert(buffer@ =~= old(buffer)@ + encode_int(value));
        }
    } else if value > 0 {
        let buf = be_u64_bytes(value as u64);
        proof {
            lemma_be_bytes_len(value as nat, 8);
        }
        let skip = leading_zero_bytes(&buf);
        proof {
            lemma_skip_zeros(value as nat, buf@, skip as nat);
        }
        let n = 8 - skip;
        buffer.push(INT_ZERO_CODE + n as u8);
        push_tail(buffer, &buf, skip);
        proof {
            let x = value as nat;
            lemma_byte_len(x);
            lemma_be_bytes_pad(x, n as nat, skip as nat);
            lemma_be_bytes_len(x, n as nat);
            assert(buf@.subrange(skip as int, 8) =~= be_bytes(x, n as nat));
            assert(buffer@ =~= old(buffer)@ + encode_int(value));
        }
    } else {
        let complement = (-value) as u64;
        let buf = be_u64_bytes(complement);
        proof {
            lemma_be_bytes_len(complement as nat, 8);
        }
        let skip = leading_zero_bytes(&buf);
        proof {
            lemma_skip_zeros(complement as nat, buf@, skip as nat);
        }
        let n = 8 - skip;
        let limit = size_limit(n);
        proof {
            lemma_byte_len(complement as nat);
        }
        let rest = be_u64_bytes(limit - complement);
        proof {
            lemma_be_bytes_len((limit - complement) as nat, 8);
        }
        buffer.push(INT_ZERO_CODE - n as u8);
        push_tail(buffer, &rest, skip);
        proof {
            let x = (limit - complement) as nat;
            lemma_be_bytes_pad(x, n as nat, skip as nat);
            lemma_be_bytes_len(x, n as nat);
            assert(rest@.subrange(skip as int, 8) =~= be_bytes(x, n as nat));
            assert(buffer@ =~= old(buffer)@ + encode_int(value));
        }
    }
}

/// Decodes the integer whose tag stands at `pos`: its value and the position
/// after its payload, or `None` when the payload runs past the input.
pub fn decode_integer(input: &[u8], pos: usize) -> (r: Option<(i64, usize)>)
    requires
        pos < input@.len(),
        is_int_tag(input@[pos as int]),
    ensures
        r is None <==> pos + 1 + int_width(input@[pos as int]) > input@.len(),
        r matches Some((v, next)) ==> next == pos + 1 + int_width(input@[pos as int]) && v
            == int_value(input@[pos as int], input@.subrange(pos + 1, next as int)),
{
    let len = input.len();
    let tag = input[pos];
    let n: usize = if tag < INT_ZERO_CODE {
        (INT_ZERO_CODE - tag) as usize
    } else {
        (tag - INT_ZERO_CODE) as usize
    };
    if n > len - pos - 1 {
        return None;
    }
    let mut buf: Vec<u8> = Vec::new();
    while buf.len() < 8 - n
        invariant
            n <= 8,
            buf@.len() <= 8 - n,
            buf@ == zeros(buf@.len() as nat),
        decreases 8 - n - buf@.len(),
    {
        buf.push(0);
        assert(buf@ =~= zeros(buf@.len() as nat));
    }
    let start = pos + 1;
    let mut i: usize = 0;
    while i < n
        invariant
            n <= 8,
            start == pos + 1,
            start + n <= len,
            len == input@.len(),
            0 <= i <= n,
            buf@ == zeros((8 - n) as nat) + input@.subrange(start as int, start + i),
        decreases n - i,
    {
        buf.push(input[start + i]);
        i += 1;
        assert(buf@ =~= zeros((8 - n) as nat) + input@.subrange(start as int, start + i));
    }
    let payload = Ghost(input@.subrange(start as int, start + n));
    let raw = be_u64_value(buf.as_slice());
    proof {
        lemma_be_value_zeros((8 - n) as nat, payload@);
        lemma_be_value_bound(payload@);
        lemma_pow256_values();
        lemma_pow256_mono(n as nat, 8);
    }
    let value: i64 = if tag < INT_ZERO_CODE {
        let limit = size_limit(n);
        if raw == 0x7FFF_FFFF_FFFF_FFFF {
            i64::MIN
        } else if n == 8 && raw < 0x7FFF_FFFF_FFFF_FFFF {
            (raw + 1) as i64
        } else {
            proof {
                if n < 8 {
                    lemma_pow256_mono(n as nat, 7);
                }
            }
            -((limit - raw) as i64)
        }
    } else if raw > 0x7FFF_FFFF_FFFF_FFFF {
        ((raw - 0x8000_0000_0000_0000u64) as i64) + i64::MIN
    } else {
        raw as i64
    };
    Some((value, start + n))
}

} // verus!
