//! Byte-lexicographic order on encodings.
use vstd::prelude::*;

verus! {

/// `a` sorts strictly before `b` byte by byte; a proper prefix sorts first.
pub open spec fn lex_lt(a: Seq<u8>, b: Seq<u8>) -> bool
    decreases a.len(),
{
    if a.len() == 0 {
        b.len() > 0
    } else if b.len() == 0 {
        false
    } else if a[0] != b[0] {
        a[0] < b[0]
    } else {
        lex_lt(a.drop_first(), b.drop_first())
    }
}

/// The order is strict: it is asymmetric, hence irreflexive.
pub proof fn lemma_lex_asymmetric(a: Seq<u8>, b: Seq<u8>)
    requires
        lex_lt(a, b),
    ensures
        !lex_lt(b, a),
        a != b,
    decreases a.len(),
{
    if a.len() > 0 && b.len() > 0 && a[0] == b[0] {
        lemma_lex_asymmetric(a.drop_first(), b.drop_first());
    }
}

/// Two sequences that start with one byte each compare by that byte first.
pub proof fn lemma_lex_cons(t: u8, a: Seq<u8>, u: u8, b: Seq<u8>)
    ensures
        lex_lt(seq![t] + a, seq![u] + b) == if t != u {
            t < u
        } else {
            lex_lt(a, b)
        },
{
    assert((seq![t] + a).drop_first() =~= a);
    assert((seq![u] + b).drop_first() =~= b);
}

/// Appending one byte to sequences of equal length.
pub proof fn lemma_lex_push(a: Seq<u8>, b: Seq<u8>, x: u8, y: u8)
    requires
        a.len() == b.len(),
    ensures
        lex_lt(a.push(x), b.push(y)) == (lex_lt(a, b) || (a == b && x < y)),
    decreases a.len(),
{
    if a.len() == 0 {
        assert(a =~= b);
        assert(a.push(x).drop_first() =~= Seq::<u8>::empty());
        assert(b.push(y).drop_first() =~= Seq::<u8>::empty());
        assert(!lex_lt(Seq::<u8>::empty(), Seq::<u8>::empty()));
        assert(!lex_lt(a, b));
        assert(a.push(x)[0] == x && b.push(y)[0] == y);
    } else {
        assert(a.push(x)[0] == a[0]);
        assert(b.push(y)[0] == b[0]);
        assert(a.push(x).drop_first() =~= a.drop_first().push(x));
        assert(b.push(y).drop_first() =~= b.drop_first().push(y));
        lemma_lex_push(a.drop_first(), b.drop_first(), x, y);
        if a == b {
            assert(a.drop_first() == b.drop_first());
        }
        if a[0] == b[0] && a.drop_first() == b.drop_first() {
            assert(a =~= seq![a[0]] + a.drop_first());
            assert(b =~= seq![b[0]] + b.drop_first());
        }
    }
}

} // verus!
