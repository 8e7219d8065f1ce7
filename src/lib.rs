//! Order-preserving binary encoding of typed tuples.
//!
//! A tuple is a sequence of segments; its encoding is the concatenation of
//! the segments' encodings, and comparing two encodings byte by byte orders
//! them as their values are ordered.
use vstd::prelude::*;

mod bridge;
pub mod constants;
pub mod errors;
pub mod float_order;
pub mod integer;
pub mod order;
pub mod round_trip;
pub mod segment;
pub mod utils;

use crate::errors::TupleError;
use vstd::utf8::encode_utf8;

use crate::constants::{BYTES_CODE, STRING_CODE};
use crate::integer::encode_int;
use crate::segment::{decode_values, encode_value, value_of, values_of, Segment, Value};
use crate::utils::encode_bytes;

verus! {

/// A builder of encoded tuples: a buffer that segments are appended to.
#[derive(Clone)]
pub struct Tuple {
    buffer: Vec<u8>,
}

impl View for Tuple {
    type V = Seq<u8>;

    /// The bytes encoded so far.
    closed spec fn view(&self) -> Seq<u8> {
        self.buffer@
    }
}

fn copy_bytes(bytes: &[u8]) -> (r: Vec<u8>)
    ensures
        r@ == bytes@,
{
    let mut buffer: Vec<u8> = Vec::with_capacity(bytes.len());
    let mut i: usize = 0;
    while i < bytes.len()
        invariant
            i <= bytes@.len(),
            buffer@ == bytes@.subrange(0, i as int),
        decreases bytes@.len() - i,
    {
        buffer.push(bytes[i]);
        i += 1;
        assert(buffer@ =~= bytes@.subrange(0, i as int));
    }
    assert(bytes@.subrange(0, i as int) =~= bytes@);
    buffer
}

impl Tuple {
    /// An empty tuple.
    pub fn new() -> (r: Tuple)
        ensures
            r@ == Seq::<u8>::empty(),
    {
        Tuple { buffer: Vec::with_capacity(128) }
    }

    /// An empty tuple whose buffer has room for `capacity` bytes.
    pub fn with_capacity(capacity: usize) -> (r: Tuple)
        ensures
            r@ == Seq::<u8>::empty(),
    {
        Tuple { buffer: Vec::with_capacity(capacity) }
    }

    /// A tuple that holds `bytes`, an encoded tuple, as they stand.
    pub fn from_bytes(bytes: &[u8]) -> (r: Tuple)
        ensures
            r@ == bytes@,
    {
        Tuple { buffer: copy_bytes(bytes) }
    }

    /// Appends the encoding of one segment.
    pub fn add_segment(&mut self, input: &Segment)
        ensures
            final(self)@ == old(self)@ + encode_value(value_of(*input)),
    {
        input.encode(&mut self.buffer);
    }

    /// Appends the bytes of another tuple as they stand.
    pub fn add_builder(&mut self, input: &Tuple)
        ensures
            final(self)@ == old(self)@ + input@,
    {
        let mut i: usize = 0;
        while i < input.buffer.len()
            invariant
                i <= input.buffer@.len(),
                self.buffer@ == old(self).buffer@ + input.buffer@.subrange(0, i as int),
            decreases input.buffer@.len() - i,
        {
            self.buffer.push(input.buffer[i]);
            i += 1;
            assert(self.buffer@ =~= old(self).buffer@ + input.buffer@.subrange(0, i as int));
        }
        assert(input.buffer@.subrange(0, i as int) =~= input.buffer@);
    }

    /// The encoded tuple.
    pub fn into_bytes(self) -> (r: Vec<u8>)
        ensures
            r@ == self@,
    {
        self.buffer
    }

    /// The encoded tuple, borrowed.
    pub fn as_bytes(&self) -> (r: &[u8])
        ensures
            r@ == self@,
    {
        self.buffer.as_slice()
    }

    /// Decodes the tuple into its segments.
    pub fn as_segments(&self) -> (r: Result<Vec<Segment>, TupleError>)
        ensures
            match (r, decode_values(self@)) {
                (Ok(segs), Ok(vs)) => values_of(segs@) == vs,
                (Err(x), Err(y)) => x == y,
                _ => false,
            },
    {
        Segment::decode(self.buffer.as_slice())
    }
}

/// Appending plain values to a tuple, each as the segment it stands for.
pub trait AddToTuple<T> where Self: Sized + View<V = Seq<u8>> {
    /// The bytes that appending `input` adds.
    spec fn encoding_of(input: T) -> Seq<u8>;

    /// Appends `input` to this tuple.
    fn add(&mut self, input: T)
        ensures
            final(self)@ == old(self)@ + Self::encoding_of(input),
    ;

    /// Appends `input` and hands the tuple back, for chained calls.
    fn with(self, input: T) -> (r: Self)
        ensures
            r@ == self@ + Self::encoding_of(input),
    {
        let mut tuple = self;
        tuple.add(input);
        tuple
    }
}

impl AddToTuple<i64> for Tuple {
    open spec fn encoding_of(input: i64) -> Seq<u8> {
        encode_int(input)
    }

    fn add(&mut self, v: i64) {
        self.add_segment(&Segment::Integer(v));
    }
}

impl AddToTuple<String> for Tuple {
    open spec fn encoding_of(input: String) -> Seq<u8> {
        encode_bytes(STRING_CODE, encode_utf8(input@))
    }

    fn add(&mut self, v: String) {
        self.add_segment(&Segment::String(v));
    }
}

impl<'a> AddToTuple<&'a [u8]> for Tuple {
    open spec fn encoding_of(input: &'a [u8]) -> Seq<u8> {
        encode_bytes(BYTES_CODE, input@)
    }

    fn add(&mut self, v: &'a [u8]) {
        self.add_segment(&Segment::Bytes(copy_bytes(v)));
    }
}

impl<'a> AddToTuple<&'a Vec<u8>> for Tuple {
    open spec fn encoding_of(input: &'a Vec<u8>) -> Seq<u8> {
        encode_bytes(BYTES_CODE, input@)
    }

    fn add(&mut self, v: &'a Vec<u8>) {
        self.add_segment(&Segment::Bytes(copy_bytes(v.as_slice())));
    }
}

impl AddToTuple<Vec<u8>> for Tuple {
    open spec fn encoding_of(input: Vec<u8>) -> Seq<u8> {
        encode_bytes(BYTES_CODE, input@)
    }

    fn add(&mut self, v: Vec<u8>) {
        self.add_segment(&Segment::Bytes(v));
    }
}

impl AddToTuple<&'static str> for Tuple {
    open spec fn encoding_of(input: &'static str) -> Seq<u8> {
        encode_bytes(STRING_CODE, encode_utf8(input@))
    }

    fn add(&mut self, v: &'static str) {
        self.add_segment(&Segment::Const(v));
    }
}

impl AddToTuple<Vec<Segment>> for Tuple {
    open spec fn encoding_of(input: Vec<Segment>) -> Seq<u8> {
        encode_value(Value::Nested(values_of(input@)))
    }

    fn add(&mut self, v: Vec<Segment>) {
        self.add_segment(&Segment::Nested(v));
    }
}

impl<'a> AddToTuple<&'a Tuple> for Tuple {
    open spec fn encoding_of(input: &'a Tuple) -> Seq<u8> {
        input@
    }

    fn add(&mut self, v: &'a Tuple) {
        self.add_builder(v);
    }
}

impl AddToTuple<Tuple> for Tuple {
    open spec fn encoding_of(input: Tuple) -> Seq<u8> {
        input@
    }

    fn add(&mut self, v: Tuple) {
        self.add_builder(&v);
    }
}

} // verus!
