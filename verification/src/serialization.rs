//! Values as bytes.
//!
//! A number is written in one to nine bytes: the position of the lowest one bit of the first byte
//! says how many there are. A word is written as its four elements, each as eight bytes, and a list
//! of words as their number followed by the words. All bytes are in little-endian order.

use crate::felt::Felt;
use crate::word;
use crate::word::Word;
use vstd::arithmetic::power2::pow2;
use vstd::prelude::*;
use vstd::string::StringExecFns;

verus! {

// BYTES
// ================================================================================================

/// The number of values that `n` bytes can hold.
pub open spec fn byte_range(n: nat) -> nat
    decreases n,
{
    if n == 0 {
        1
    } else {
        256 * byte_range((n - 1) as nat)
    }
}

/// The lowest `n` bytes of a number, the lowest one first.
pub open spec fn le_bytes(x: nat, n: nat) -> Seq<u8>
    decreases n,
{
    if n == 0 {
        seq![]
    } else {
        seq![(x % 256) as u8] + le_bytes(x / 256, (n - 1) as nat)
    }
}

/// The number that the given bytes stand for, the lowest one first.
pub open spec fn le_value(bytes: Seq<u8>) -> nat
    decreases bytes.len(),
{
    if bytes.len() == 0 {
        0
    } else {
        bytes[0] as nat + 256 * le_value(bytes.drop_first())
    }
}

/// Bytes hold no more than they can.
pub proof fn lemma_le_value_bound(bytes: Seq<u8>)
    ensures
        le_value(bytes) < byte_range(bytes.len()),
    decreases bytes.len(),
{
    if bytes.len() > 0 {
        lemma_le_value_bound(bytes.drop_first());
    }
}

/// The bytes of a number that fits in them stand for that number.
pub proof fn lemma_le_bytes(x: nat, n: nat)
    requires
        x < byte_range(n),
    ensures
        le_bytes(x, n).len() == n,
        le_value(le_bytes(x, n)) == x,
    decreases n,
{
    if n > 0 {
        lemma_le_bytes(x / 256, (n - 1) as nat);
        assert(le_bytes(x, n).drop_first() =~= le_bytes(x / 256, (n - 1) as nat));
    }
}

/// What one to eight bytes can hold.
proof fn lemma_byte_ranges()
    ensures
        byte_range(0) == 1,
        byte_range(1) == 0x100,
        byte_range(2) == 0x1_0000,
        byte_range(3) == 0x100_0000,
        byte_range(4) == 0x1_0000_0000,
        byte_range(5) == 0x100_0000_0000,
        byte_range(6) == 0x1_0000_0000_0000,
        byte_range(7) == 0x100_0000_0000_0000,
        byte_range(8) == 0x1_0000_0000_0000_0000,
{
    reveal_with_fuel(byte_range, 9);
}

// FORMAT
// ================================================================================================

/// The number of bytes that a number is written in.
pub open spec fn usize_len(x: nat) -> nat {
    if x < 0x80 {
        1
    } else if x < 0x4000 {
        2
    } else if x < 0x20_0000 {
        3
    } else if x < 0x1000_0000 {
        4
    } else if x < 0x8_0000_0000 {
        5
    } else if x < 0x400_0000_0000 {
        6
    } else if x < 0x2_0000_0000_0000 {
        7
    } else if x < 0x100_0000_0000_0000 {
        8
    } else {
        9
    }
}

/// The powers of two below `2^8`.
pub open spec fn small_power(n: nat) -> nat
    decreases n,
{
    if n == 0 {
        1
    } else {
        2 * small_power((n - 1) as nat)
    }
}

/// The bytes of a number. Up to eight bytes hold the number above a one bit and as many zero bits
/// as bytes follow; nine bytes are a zero byte and the number itself.
pub open spec fn usize_bytes(x: nat) -> Seq<u8> {
    let n: nat = usize_len(x);
    if n == 9 {
        seq![0u8] + le_bytes(x, 8)
    } else {
        le_bytes((2 * x + 1) * small_power((n - 1) as nat), n)
    }
}

/// The bytes of a word.
pub open spec fn word_bytes(w: Word) -> Seq<u8> {
    le_bytes(w@[0] as nat, 8) + le_bytes(w@[1] as nat, 8) + le_bytes(w@[2] as nat, 8) + le_bytes(
        w@[3] as nat,
        8,
    )
}

/// The bytes of a list of words, without their number.
pub open spec fn words_bytes(words: Seq<Word>) -> Seq<u8>
    decreases words.len(),
{
    if words.len() == 0 {
        seq![]
    } else {
        word_bytes(words[0]) + words_bytes(words.drop_first())
    }
}

/// What reading a value from the front of some bytes comes to.
pub enum Parsed<T> {
    /// A value, and the bytes that follow it.
    Value(T, Seq<u8>),
    /// The bytes end too early. All of them have been read.
    UnexpectedEOF,
    /// The bytes stand for nothing valid, for the given reason, and these bytes follow those that
    /// were read to find out.
    InvalidValue(Seq<char>, Seq<u8>),
}

/// The number of zero bits below the lowest one bit of a byte.
pub open spec fn trailing_zeros(b: nat) -> nat
    decreases b,
{
    if b == 0 {
        8
    } else if b % 2 == 1 {
        0
    } else {
        1 + trailing_zeros(b / 2)
    }
}

/// What is said of a number that is too large for the machine.
pub open spec fn too_large_text() -> Seq<char> {
    "encoded value does not fit in a machine word"@
}

/// What is said of eight bytes that are no canonical field element.
pub open spec fn not_canonical_text() -> Seq<char> {
    "encoded value is not a canonical field element"@
}

/// A number at the front of some bytes.
pub open spec fn parse_usize(input: Seq<u8>) -> Parsed<nat> {
    if input.len() == 0 {
        Parsed::UnexpectedEOF
    } else {
        let n: nat = trailing_zeros(input[0] as nat) + 1;
        if input.len() < n {
            Parsed::UnexpectedEOF
        } else {
            let x: nat = if n == 9 {
                le_value(input.subrange(1, 9))
            } else {
                le_value(input.take(n as int)) / small_power(n)
            };
            if x > usize::MAX {
                Parsed::InvalidValue(too_large_text(), input.skip(n as int))
            } else {
                Parsed::Value(x, input.skip(n as int))
            }
        }
    }
}

/// The element whose bytes stand at the given place.
pub open spec fn element_at(input: Seq<u8>, i: int) -> nat {
    le_value(input.subrange(8 * i, 8 * i + 8))
}

/// A word at the front of some bytes.
pub open spec fn parse_word(input: Seq<u8>) -> Parsed<Word> {
    if input.len() < 32 {
        Parsed::UnexpectedEOF
    } else if exists|i: int| 0 <= i < 4 && #[trigger] element_at(input, i) >= Felt::ORDER {
        Parsed::InvalidValue(not_canonical_text(), input.skip(32))
    } else {
        Parsed::Value(
            word::word(
                seq![
                    element_at(input, 0) as int,
                    element_at(input, 1) as int,
                    element_at(input, 2) as int,
                    element_at(input, 3) as int,
                ],
            ),
            input.skip(32),
        )
    }
}

/// The given number of words at the front of some bytes.
pub open spec fn parse_words(input: Seq<u8>, count: nat) -> Parsed<Seq<Word>>
    decreases count,
{
    if count == 0 {
        Parsed::Value(seq![], input)
    } else {
        match parse_word(input) {
            Parsed::Value(first, rest) => match parse_words(rest, (count - 1) as nat) {
                Parsed::Value(others, rest) => Parsed::Value(seq![first] + others, rest),
                Parsed::UnexpectedEOF => Parsed::UnexpectedEOF,
                Parsed::InvalidValue(text, rest) => Parsed::InvalidValue(text, rest),
            },
            Parsed::UnexpectedEOF => Parsed::UnexpectedEOF,
            Parsed::InvalidValue(text, rest) => Parsed::InvalidValue(text, rest),
        }
    }
}

/// A number is read back as it was written.
pub proof fn law_usize_round_trip(x: usize, rest: Seq<u8>)
    ensures
        parse_usize(usize_bytes(x as nat) + rest) == Parsed::Value(x as nat, rest),
{
    let n: nat = usize_len(x as nat);
    let bytes: Seq<u8> = usize_bytes(x as nat);
    let input: Seq<u8> = bytes + rest;
    lemma_byte_ranges();
    if n == 9 {
        lemma_le_bytes(x as nat, 8);
        assert(input.subrange(1, 9) =~= le_bytes(x as nat, 8));
        assert(input.skip(9) =~= rest);
    } else {
        let e: nat = (2 * x + 1) as nat * small_power((n - 1) as nat);
        lemma_encoded_bound(x as nat);
        lemma_le_bytes(e, n);
        assert(input[0] == e % 256);
        assert(input.take(n as int) =~= bytes);
        assert(input.skip(n as int) =~= rest);
    }
}

/// An odd number shifted left has as many trailing zeros as it was shifted by.
proof fn lemma_trailing_zeros(q: nat, k: nat)
    ensures
        trailing_zeros((2 * q + 1) * small_power(k)) == k,
        (2 * q + 1) * small_power(k) > 0,
    decreases k,
{
    if k > 0 {
        let p: nat = small_power((k - 1) as nat);
        lemma_trailing_zeros(q, (k - 1) as nat);
        assert((2 * q + 1) * (2 * p) == 2 * ((2 * q + 1) * p)) by (nonlinear_arith);
    } else {
        assert((2 * q + 1) * 1 == 2 * q + 1);
    }
}

/// Only the lowest bits of a number make it into the first byte above its length.
proof fn lemma_first_byte(x: nat, p: nat, q: nat)
    requires
        p * q == 128,
        p > 0,
        q > 0,
    ensures
        ((2 * x + 1) * p) % 256 == (2 * (x % q) + 1) * p,
        ((2 * x + 1) * p) / (2 * p) == x,
{
    let r: int = (x % q) as int;
    let d: int = (x / q) as int;
    vstd::arithmetic::div_mod::lemma_fundamental_div_mod(x as int, q as int);
    assert((2 * x + 1) * p == 256 * d + (2 * r + 1) * p) by (nonlinear_arith)
        requires
            x == q * d + r,
            p * q == 128,
    ;
    assert(0 <= (2 * r + 1) * p < 256) by (nonlinear_arith)
        requires
            0 <= r < q,
            p * q == 128,
            p > 0,
    ;
    vstd::arithmetic::div_mod::lemma_fundamental_div_mod_converse(
        ((2 * x + 1) * p) as int,
        256,
        d,
        (2 * r + 1) * p,
    );
    assert((2 * x + 1) * p == x * (2 * p) + p) by (nonlinear_arith);
    vstd::arithmetic::div_mod::lemma_fundamental_div_mod_converse(
        ((2 * x + 1) * p) as int,
        (2 * p) as int,
        x as int,
        p as int,
    );
}

/// The number above its length fits in the bytes that it is written in, and the length can be read
/// off the first of them.
proof fn lemma_encoded_bound(x: nat)
    requires
        usize_len(x) < 9,
    ensures
        ({
            let n: nat = usize_len(x);
            let e: nat = (2 * x + 1) * small_power((n - 1) as nat);
            &&& e < byte_range(n)
            &&& trailing_zeros(e % 256) + 1 == n
            &&& e / small_power(n) == x
        }),
{
    lemma_byte_ranges();
    assert(small_power(0) == 1);
    assert(small_power(1) == 2);
    assert(small_power(2) == 4);
    assert(small_power(3) == 8);
    assert(small_power(4) == 16);
    assert(small_power(5) == 32);
    assert(small_power(6) == 64);
    assert(small_power(7) == 128);
    assert(small_power(8) == 256);
    let n: nat = usize_len(x);
    if n == 1 {
        lemma_trailing_zeros(x % 128, 0);
        lemma_first_byte(x, 1, 128);
    } else if n == 2 {
        lemma_trailing_zeros(x % 64, 1);
        lemma_first_byte(x, 2, 64);
    } else if n == 3 {
        lemma_trailing_zeros(x % 32, 2);
        lemma_first_byte(x, 4, 32);
    } else if n == 4 {
        lemma_trailing_zeros(x % 16, 3);
        lemma_first_byte(x, 8, 16);
    } else if n == 5 {
        lemma_trailing_zeros(x % 8, 4);
        lemma_first_byte(x, 16, 8);
    } else if n == 6 {
        lemma_trailing_zeros(x % 4, 5);
        lemma_first_byte(x, 32, 4);
    } else if n == 7 {
        lemma_trailing_zeros(x % 2, 6);
        lemma_first_byte(x, 64, 2);
    } else {
        lemma_trailing_zeros(x % 1, 7);
        lemma_first_byte(x, 128, 1);
    }
}

/// The same elements, in their canonical representations.
pub open spec fn canonical_words(words: Seq<Word>) -> Seq<Word> {
    Seq::new(words.len(), |i: int| word::word(words[i]@))
}

/// The elements of a word are read back as they were written, in their canonical representations.
pub proof fn law_word_round_trip(w: Word, rest: Seq<u8>)
    ensures
        parse_word(word_bytes(w) + rest) == Parsed::Value(word::word(w@), rest),
{
    let input: Seq<u8> = word_bytes(w) + rest;
    lemma_byte_ranges();
    lemma_le_bytes(w@[0] as nat, 8);
    lemma_le_bytes(w@[1] as nat, 8);
    lemma_le_bytes(w@[2] as nat, 8);
    lemma_le_bytes(w@[3] as nat, 8);
    assert(input.subrange(0, 8) =~= le_bytes(w@[0] as nat, 8));
    assert(input.subrange(8, 16) =~= le_bytes(w@[1] as nat, 8));
    assert(input.subrange(16, 24) =~= le_bytes(w@[2] as nat, 8));
    assert(input.subrange(24, 32) =~= le_bytes(w@[3] as nat, 8));
    assert(element_at(input, 0) == w@[0]);
    assert(element_at(input, 1) == w@[1]);
    assert(element_at(input, 2) == w@[2]);
    assert(element_at(input, 3) == w@[3]);
    assert(input.skip(32) =~= rest);
    assert(seq![
        element_at(input, 0) as int,
        element_at(input, 1) as int,
        element_at(input, 2) as int,
        element_at(input, 3) as int,
    ] =~= w@);
}

/// Words are read back as they were written, in their canonical representations.
pub proof fn law_words_round_trip(words: Seq<Word>, rest: Seq<u8>)
    ensures
        parse_words(words_bytes(words) + rest, words.len()) == Parsed::Value(
            canonical_words(words),
            rest,
        ),
    decreases words.len(),
{
    if words.len() == 0 {
        assert(canonical_words(words) =~= seq![]);
        assert(words_bytes(words) + rest =~= rest);
    } else {
        let tail: Seq<Word> = words.drop_first();
        assert(words_bytes(words) + rest =~= word_bytes(words[0]) + (words_bytes(tail) + rest));
        law_word_round_trip(words[0], words_bytes(tail) + rest);
        law_words_round_trip(tail, rest);
        assert(seq![word::word(words[0]@)] + canonical_words(tail) =~= canonical_words(words));
    }
}

// WRITING
// ================================================================================================

/// Something that bytes can be written to.
pub trait ByteWriter: Sized {
    /// The bytes written so far.
    spec fn written(&self) -> Seq<u8>;

    /// Writes a byte.
    fn write_u8(&mut self, value: u8)
        ensures
            final(self).written() == old(self).written().push(value),
    ;
}

impl ByteWriter for Vec<u8> {
    open spec fn written(&self) -> Seq<u8> {
        self@
    }

    fn write_u8(&mut self, value: u8) {
        self.push(value);
    }
}

/// A value that can be written as bytes.
pub trait Serializable {
    /// The bytes of the value.
    spec fn bytes(&self) -> Seq<u8>;

    /// Writes the bytes of the value.
    fn write_into<W: ByteWriter>(&self, target: &mut W)
        ensures
            final(target).written() == old(target).written() + self.bytes(),
    ;
}

/// Writes the lowest `n` bytes of a number.
fn write_le<W: ByteWriter>(target: &mut W, x: u64, n: usize)
    ensures
        final(target).written() == old(target).written() + le_bytes(x as nat, n as nat),
    decreases n,
{
    proof {
        assert(old(target).written() + Seq::<u8>::empty() =~= old(target).written());
    }
    if n > 0 {
        target.write_u8((x % 256) as u8);
        write_le(target, x / 256, n - 1);
        proof {
            assert(target.written() =~= old(target).written() + le_bytes(x as nat, n as nat));
        }
    }
}

/// The number of bytes that a number is written in.
fn encoded_len(x: u64) -> (r: usize)
    ensures
        r == usize_len(x as nat),
{
    if x < 0x80 {
        1
    } else if x < 0x4000 {
        2
    } else if x < 0x20_0000 {
        3
    } else if x < 0x1000_0000 {
        4
    } else if x < 0x8_0000_0000 {
        5
    } else if x < 0x400_0000_0000 {
        6
    } else if x < 0x2_0000_0000_0000 {
        7
    } else if x < 0x100_0000_0000_0000 {
        8
    } else {
        9
    }
}

/// Two to the given power.
fn power_of_two(n: usize) -> (r: u64)
    requires
        n <= 8,
    ensures
        r == small_power(n as nat),
        1 <= r <= 256,
{
    assert(small_power(0) == 1);
    assert(small_power(1) == 2);
    assert(small_power(2) == 4);
    assert(small_power(3) == 8);
    assert(small_power(4) == 16);
    assert(small_power(5) == 32);
    assert(small_power(6) == 64);
    assert(small_power(7) == 128);
    assert(small_power(8) == 256);
    match n {
        0 => 1,
        1 => 2,
        2 => 4,
        3 => 8,
        4 => 16,
        5 => 32,
        6 => 64,
        7 => 128,
        _ => 256,
    }
}

impl Serializable for usize {
    open spec fn bytes(&self) -> Seq<u8> {
        usize_bytes(*self as nat)
    }

    fn write_into<W: ByteWriter>(&self, target: &mut W) {
        let x: u64 = *self as u64;
        let n: usize = encoded_len(x);
        if n == 9 {
            target.write_u8(0);
            write_le(target, x, 8);
            proof {
                assert(target.written() =~= old(target).written() + self.bytes());
            }
        } else {
            proof {
                lemma_encoded_bound(x as nat);
                lemma_byte_ranges();
            }
            let p: u64 = power_of_two(n - 1);
            proof {
                lemma_encoded_fits(n as nat);
                assert((2 * x + 1) <= (2 * x + 1) * p) by (nonlinear_arith)
                    requires
                        p >= 1,
                ;
            }
            write_le(target, (2 * x + 1) * p, n);
        }
    }
}

/// What up to eight bytes hold fits in 64 bits.
proof fn lemma_encoded_fits(n: nat)
    requires
        n <= 8,
    ensures
        byte_range(n) <= 0x1_0000_0000_0000_0000,
    decreases 8 - n,
{
    lemma_byte_ranges();
    if n < 8 {
        lemma_encoded_fits(n + 1);
    }
}

impl Serializable for Word {
    open spec fn bytes(&self) -> Seq<u8> {
        word_bytes(*self)
    }

    fn write_into<W: ByteWriter>(&self, target: &mut W) {
        let elements: [u64; 4] = self.as_canonical_u64s();
        proof {
            assert(elements@.map_values(|x: u64| x as int)[0] == elements[0]);
            assert(elements@.map_values(|x: u64| x as int)[1] == elements[1]);
            assert(elements@.map_values(|x: u64| x as int)[2] == elements[2]);
            assert(elements@.map_values(|x: u64| x as int)[3] == elements[3]);
        }
        write_le(target, elements[0], 8);
        write_le(target, elements[1], 8);
        write_le(target, elements[2], 8);
        write_le(target, elements[3], 8);
        proof {
            assert(target.written() =~= old(target).written() + self.bytes());
        }
    }
}

impl Serializable for Vec<Word> {
    open spec fn bytes(&self) -> Seq<u8> {
        usize_bytes(self@.len()) + words_bytes(self@)
    }

    fn write_into<W: ByteWriter>(&self, target: &mut W) {
        let len: usize = self.len();
        len.write_into(target);
        let ghost start: Seq<u8> = target.written();
        proof {
            assert(self@.skip(0) =~= self@);
        }
        for i in 0..len
            invariant
                len == self@.len(),
                target.written() + words_bytes(self@.skip(i as int)) == start + words_bytes(self@),
        {
            let ghost before: Seq<u8> = target.written();
            self[i].write_into(target);
            proof {
                assert(self@.skip(i as int).drop_first() =~= self@.skip(i + 1));
                assert(target.written() + words_bytes(self@.skip(i + 1)) =~= before + words_bytes(
                    self@.skip(i as int),
                ));
            }
        }
        proof {
            assert(words_bytes(self@.skip(len as int)) =~= seq![]);
            assert(target.written() + Seq::<u8>::empty() =~= target.written());
            assert(target.written() =~= old(target).written() + self.bytes());
        }
    }
}

// READING
// ================================================================================================

/// Why bytes could not be read as a value.
#[derive(Clone, Debug, PartialEq, Eq)]
pub enum DeserializationError {
    /// The bytes stand for nothing valid, for the given reason.
    InvalidValue(String),
    /// The bytes end too early.
    UnexpectedEOF,
}

/// Something that bytes can be read from.
pub trait ByteReader: Sized {
    /// The bytes that are left to read.
    spec fn remaining(&self) -> Seq<u8>;

    /// Reads a byte.
    fn read_u8(&mut self) -> (r: Result<u8, DeserializationError>)
        ensures
            old(self).remaining().len() > 0 ==> r == Ok::<u8, DeserializationError>(
                old(self).remaining()[0],
            ) && final(self).remaining() == old(self).remaining().drop_first(),
            old(self).remaining().len() == 0 ==> r == Err::<u8, DeserializationError>(
                DeserializationError::UnexpectedEOF,
            ) && final(self).remaining() == old(self).remaining(),
    ;
}

/// Reads the bytes of a slice one after the other.
pub struct SliceReader<'a> {
    source: &'a [u8],
    pos: usize,
}

impl<'a> SliceReader<'a> {
    #[verifier::type_invariant]
    spec fn inv(self) -> bool {
        self.pos <= self.source@.len()
    }

    /// Starts reading at the front of the slice.
    pub fn new(source: &'a [u8]) -> (r: SliceReader<'a>)
        ensures
            r.remaining() == source@,
    {
        assert(source@.skip(0) =~= source@);
        SliceReader { source, pos: 0 }
    }
}

impl<'a> ByteReader for SliceReader<'a> {
    closed spec fn remaining(&self) -> Seq<u8> {
        self.source@.skip(self.pos as int)
    }

    fn read_u8(&mut self) -> (r: Result<u8, DeserializationError>) {
        proof {
            use_type_invariant(&*self);
        }
        if self.pos < self.source.len() {
            let r: u8 = self.source[self.pos];
            self.pos = self.pos + 1;
            proof {
                assert(self.remaining() =~= old(self).remaining().drop_first());
            }
            Ok(r)
        } else {
            Err(DeserializationError::UnexpectedEOF)
        }
    }
}

/// A value that can be read from bytes.
pub trait Deserializable: Sized {
    /// Reads a value. Whatever comes of it, some bytes at the front have been read.
    fn read_from<R: ByteReader>(source: &mut R) -> (r: Result<Self, DeserializationError>)
        ensures
            final(source).remaining().is_suffix_of(old(source).remaining()),
    ;
}

/// Reads a number of `n` bytes.
fn read_le<R: ByteReader>(source: &mut R, n: usize) -> (r: Result<u64, DeserializationError>)
    requires
        n <= 8,
    ensures
        old(source).remaining().len() >= n ==> r == Ok::<u64, DeserializationError>(
            le_value(old(source).remaining().take(n as int)) as u64,
        ) && final(source).remaining() == old(source).remaining().skip(n as int),
        old(source).remaining().len() >= n ==> le_value(old(source).remaining().take(n as int))
            < byte_range(n as nat),
        old(source).remaining().len() < n ==> r == Err::<u64, DeserializationError>(
            DeserializationError::UnexpectedEOF,
        ) && final(source).remaining().len() == 0,
        final(source).remaining().is_suffix_of(old(source).remaining()),
    decreases n,
{
    let ghost input: Seq<u8> = source.remaining();
    if n == 0 {
        assert(input.take(0) =~= Seq::<u8>::empty());
        assert(input.skip(0) =~= input);
        return Ok(0);
    }
    let first: u8 = source.read_u8()?;
    let rest: u64 = read_le(source, n - 1)?;
    proof {
        assert(input.take(n as int).drop_first() =~= input.drop_first().take(n - 1));
        assert(input.skip(n as int) =~= input.drop_first().skip(n - 1));
        lemma_le_value_bound(input.take(n as int));
        lemma_encoded_fits(n as nat);
    }
    Ok(first as u64 + 256 * rest)
}

/// The number of zero bits below the lowest one bit of a byte.
fn count_trailing_zeros(b: u8) -> (r: usize)
    ensures
        r == trailing_zeros(b as nat),
        r <= 8,
{
    if b == 0 {
        return 8;
    }
    let mut rest: u8 = b;
    let mut r: usize = 0;
    assert(1 * rest == b);
    while rest % 2 == 0
        invariant
            rest > 0,
            r + trailing_zeros(rest as nat) == trailing_zeros(b as nat),
            small_power(r as nat) * rest == b,
            r <= 7,
        decreases rest,
    {
        proof {
            let p: nat = small_power(r as nat);
            assert(p * rest == (2 * p) * (rest / 2)) by (nonlinear_arith)
                requires
                    rest % 2 == 0,
            ;
            if r == 7 {
                assert(small_power(0) == 1);
                assert(small_power(1) == 2);
                assert(small_power(2) == 4);
                assert(small_power(3) == 8);
                assert(small_power(4) == 16);
                assert(small_power(5) == 32);
                assert(small_power(6) == 64);
                assert(small_power(7) == 128);
                assert(128 * rest == b);
            }
        }
        rest = rest / 2;
        r = r + 1;
    }
    r
}

impl Deserializable for usize {
    fn read_from<R: ByteReader>(source: &mut R) -> (r: Result<usize, DeserializationError>)
        ensures
            match parse_usize(old(source).remaining()) {
                Parsed::Value(x, rest) => r == Ok::<usize, DeserializationError>(x as usize)
                    && final(source).remaining() == rest && x <= usize::MAX,
                Parsed::UnexpectedEOF => r == Err::<usize, DeserializationError>(
                    DeserializationError::UnexpectedEOF,
                ) && final(source).remaining().len() == 0,
                Parsed::InvalidValue(text, rest) => (r matches Err(
                    DeserializationError::InvalidValue(message),
                ) && message@ == text) && final(source).remaining() == rest,
            },
    {
        let ghost input: Seq<u8> = source.remaining();
        let first: u8 = source.read_u8()?;
        let n: usize = count_trailing_zeros(first) + 1;
        let result: u64 = if n == 9 {
            let x: u64 = read_le(source, 8)?;
            proof {
                assert(input.drop_first().take(8) =~= input.subrange(1, 9));
                assert(input.drop_first().skip(8) =~= input.skip(9));
                lemma_byte_ranges();
            }
            x
        } else {
            let rest: u64 = read_le(source, n - 1)?;
            proof {
                assert(input.take(n as int).drop_first() =~= input.drop_first().take(n - 1));
                assert(input.drop_first().skip(n - 1) =~= input.skip(n as int));
                lemma_le_value_bound(input.take(n as int));
                lemma_encoded_fits(n as nat);
            }
            (first as u64 + 256 * rest) / power_of_two(n)
        };
        if result > usize::MAX as u64 {
            return Err(
                DeserializationError::InvalidValue(
                    String::from_str("encoded value does not fit in a machine word"),
                ),
            );
        }
        Ok(result as usize)
    }
}

impl Deserializable for Word {
    fn read_from<R: ByteReader>(source: &mut R) -> (r: Result<Word, DeserializationError>)
        ensures
            match parse_word(old(source).remaining()) {
                Parsed::Value(x, rest) => r == Ok::<Word, DeserializationError>(x)
                    && final(source).remaining() == rest,
                Parsed::UnexpectedEOF => r == Err::<Word, DeserializationError>(
                    DeserializationError::UnexpectedEOF,
                ) && final(source).remaining().len() == 0,
                Parsed::InvalidValue(text, rest) => (r matches Err(
                    DeserializationError::InvalidValue(message),
                ) && message@ == text) && final(source).remaining() == rest,
            },
    {
        let ghost input: Seq<u8> = source.remaining();
        let a: u64 = read_le(source, 8)?;
        assert(input.take(8) =~= input.subrange(0, 8));
        let b: u64 = read_le(source, 8)?;
        assert(input.skip(8).take(8) =~= input.subrange(8, 16));
        assert(input.skip(8).skip(8) =~= input.skip(16));
        let c: u64 = read_le(source, 8)?;
        assert(input.skip(16).take(8) =~= input.subrange(16, 24));
        assert(input.skip(16).skip(8) =~= input.skip(24));
        let d: u64 = read_le(source, 8)?;
        assert(input.skip(24).take(8) =~= input.subrange(24, 32));
        assert(input.skip(24).skip(8) =~= input.skip(32));
        proof {
            lemma_byte_ranges();
            assert(element_at(input, 0) == a);
            assert(element_at(input, 1) == b);
            assert(element_at(input, 2) == c);
            assert(element_at(input, 3) == d);
        }
        if a >= Felt::ORDER || b >= Felt::ORDER || c >= Felt::ORDER || d >= Felt::ORDER {
            return Err(
                DeserializationError::InvalidValue(
                    String::from_str("encoded value is not a canonical field element"),
                ),
            );
        }
        let r: Word = Word::new([Felt::new(a), Felt::new(b), Felt::new(c), Felt::new(d)]);
        proof {
            assert(r.0 =~= word::word(seq![a as int, b as int, c as int, d as int]).0);
            assert forall|i: int| 0 <= i < 4 implies #[trigger] element_at(input, i) < Felt::ORDER by {
                assert(i == 0 || i == 1 || i == 2 || i == 3);
            }
        }
        Ok(r)
    }
}

/// As many words are read as were asked for.
pub proof fn lemma_parsed_count(input: Seq<u8>, count: nat)
    ensures
        parse_words(input, count) matches Parsed::Value(words, _) ==> words.len() == count,
    decreases count,
{
    if count > 0 {
        match parse_word(input) {
            Parsed::Value(_, rest) => {
                lemma_parsed_count(rest, (count - 1) as nat);
            },
            _ => {},
        }
    }
}

/// What is left of what is left is left of the whole.
pub proof fn lemma_suffix(inner: Seq<u8>, middle: Seq<u8>, outer: Seq<u8>)
    requires
        inner.is_suffix_of(middle),
        middle.is_suffix_of(outer),
    ensures
        inner.is_suffix_of(outer),
{
    assert(outer.subrange(outer.len() - inner.len(), outer.len() as int) =~= middle.subrange(
        middle.len() - inner.len(),
        middle.len() as int,
    ));
}

/// Reads the given number of words.
pub fn read_words<R: ByteReader>(source: &mut R, count: usize) -> (r: Result<
    Vec<Word>,
    DeserializationError,
>)
    ensures
        match parse_words(old(source).remaining(), count as nat) {
            Parsed::Value(x, rest) => (r matches Ok(words) && words@ == x)
                && final(source).remaining() == rest,
            Parsed::UnexpectedEOF => r == Err::<Vec<Word>, DeserializationError>(
                DeserializationError::UnexpectedEOF,
            ) && final(source).remaining().len() == 0,
            Parsed::InvalidValue(text, rest) => (r matches Err(
                DeserializationError::InvalidValue(message),
            ) && message@ == text) && final(source).remaining() == rest,
        },
        final(source).remaining().is_suffix_of(old(source).remaining()),
{
    let mut words: Vec<Word> = Vec::new();
    let ghost input: Seq<u8> = source.remaining();
    for i in 0..count
        invariant
            words@.len() == i,
            input == old(source).remaining(),
            source.remaining().is_suffix_of(input),
            parse_words(input, count as nat) == prepended(
                words@,
                parse_words(source.remaining(), (count - i) as nat),
            ),
    {
        let ghost before: Seq<u8> = source.remaining();
        let ghost earlier: Seq<Word> = words@;
        let outcome: Result<Word, DeserializationError> = Word::read_from(source);
        proof {
            lemma_suffix(source.remaining(), before, input);
        }
        let w: Word = outcome?;
        words.push(w);
        proof {
            match parse_words(source.remaining(), (count - i - 1) as nat) {
                Parsed::Value(others, _) => {
                    assert(earlier + (seq![w] + others) =~= words@ + others);
                },
                _ => {},
            }
        }
    }
    assert(words@ + Seq::<Word>::empty() =~= words@);
    Ok(words)
}

/// The outcome of reading a list whose first words have been read already.
pub open spec fn prepended(first: Seq<Word>, outcome: Parsed<Seq<Word>>) -> Parsed<Seq<Word>> {
    match outcome {
        Parsed::Value(others, rest) => Parsed::Value(first + others, rest),
        Parsed::UnexpectedEOF => Parsed::UnexpectedEOF,
        Parsed::InvalidValue(text, rest) => Parsed::InvalidValue(text, rest),
    }
}

// LAWS
// ================================================================================================

/// Bytes hold as many values as two to the number of their bits, and the powers of two are what they
/// are called.
pub proof fn law_powers(n: nat)
    ensures
        byte_range(n) == pow2(8 * n),
        small_power(n) == pow2(n),
    decreases n,
{
    vstd::arithmetic::power2::lemma2_to64();
    if n > 0 {
        law_powers((n - 1) as nat);
        vstd::arithmetic::power2::lemma_pow2_unfold(n);
        vstd::arithmetic::power2::lemma_pow2_adds(8, (8 * (n - 1)) as nat);
    }
}

/// Byte `i` of a number is the number without its `8 * i` lowest bits, modulo `2^8`.
pub proof fn law_le_bytes(x: nat, n: nat, i: int)
    ensures
        le_bytes(x, n).len() == n,
        0 <= i < n ==> le_bytes(x, n)[i] == (x / pow2((8 * i) as nat)) % 256,
    decreases n,
{
    vstd::arithmetic::power2::lemma2_to64();
    assert(x / 1 == x);
    if n > 0 {
        law_le_bytes(x / 256, (n - 1) as nat, i - 1);
        if 0 < i < n {
            let k: nat = (8 * (i - 1)) as nat;
            vstd::arithmetic::power2::lemma_pow2_adds(8, k);
            vstd::arithmetic::power2::lemma_pow2_pos(k);
            vstd::arithmetic::div_mod::lemma_div_denominator(x as int, 256, pow2(k) as int);
            assert(le_bytes(x, n)[i] == le_bytes(x / 256, (n - 1) as nat)[i - 1]);
        }
    }
}

/// No bytes stand for zero, and one more byte at the end adds its value above all bits before it.
pub proof fn law_le_value(bytes: Seq<u8>, b: u8)
    ensures
        le_value(seq![]) == 0,
        le_value(bytes.push(b)) == le_value(bytes) + b * pow2(8 * bytes.len()),
    decreases bytes.len(),
{
    let more: Seq<u8> = bytes.push(b);
    vstd::arithmetic::power2::lemma2_to64();
    if bytes.len() == 0 {
        assert(more.drop_first() =~= seq![]);
        assert(le_value(more.drop_first()) == 0);
        assert(b * 1 == b);
    } else {
        let n: nat = (bytes.len() - 1) as nat;
        assert(more.drop_first() =~= bytes.drop_first().push(b));
        law_le_value(bytes.drop_first(), b);
        vstd::arithmetic::power2::lemma_pow2_adds(8, 8 * n);
        assert(256 * (b * pow2(8 * n)) == b * (256 * pow2(8 * n))) by (nonlinear_arith);
    }
}

/// A number is written in as few bytes as hold seven of its bits each, or in nine bytes where eight
/// such bytes are too few.
pub proof fn law_usize_len(x: nat)
    ensures
        1 <= usize_len(x) <= 9,
        usize_len(x) < 9 ==> x < pow2(7 * usize_len(x)),
        usize_len(x) > 1 ==> x >= pow2((7 * (usize_len(x) - 1)) as nat),
{
    vstd::arithmetic::power2::lemma2_to64();
    vstd::arithmetic::power2::lemma2_to64_rest();
}

/// Up to eight bytes stand for the number above a one bit and as many zero bits as bytes follow the
/// first one. Nine bytes are a zero byte, and eight bytes that stand for the number.
pub proof fn law_usize_bytes(x: usize)
    ensures
        usize_bytes(x as nat).len() == usize_len(x as nat),
        usize_len(x as nat) < 9 ==> le_value(usize_bytes(x as nat)) == (2 * x + 1) * pow2(
            (usize_len(x as nat) - 1) as nat,
        ),
        usize_len(x as nat) == 9 ==> usize_bytes(x as nat)[0] == 0 && le_value(
            usize_bytes(x as nat).skip(1),
        ) == x,
{
    let n: nat = usize_len(x as nat);
    lemma_byte_ranges();
    if n == 9 {
        lemma_le_bytes(x as nat, 8);
        assert(usize_bytes(x as nat).skip(1) =~= le_bytes(x as nat, 8));
    } else {
        lemma_encoded_bound(x as nat);
        law_powers((n - 1) as nat);
        lemma_le_bytes((2 * x + 1) as nat * small_power((n - 1) as nat), n);
    }
}

/// The bytes of a word are those of the canonical representatives of its elements, eight bytes each.
pub proof fn law_word_bytes(w: Word, i: int, k: int)
    requires
        0 <= i < 4,
        0 <= k < 8,
    ensures
        word_bytes(w).len() == 32,
        word_bytes(w)[8 * i + k] == (w@[i] as nat / pow2((8 * k) as nat)) % 256,
{
    assert(i == 0 || i == 1 || i == 2 || i == 3);
    law_le_bytes(w@[0] as nat, 8, k);
    law_le_bytes(w@[1] as nat, 8, k);
    law_le_bytes(w@[2] as nat, 8, k);
    law_le_bytes(w@[3] as nat, 8, k);
}

/// The bytes of a list of words are those of its words one after the other: one more word at the end
/// adds its bytes at the end.
pub proof fn law_words_bytes(words: Seq<Word>, w: Word)
    ensures
        words_bytes(seq![]).len() == 0,
        words_bytes(words.push(w)) == words_bytes(words) + word_bytes(w),
    decreases words.len(),
{
    let more: Seq<Word> = words.push(w);
    if words.len() == 0 {
        assert(more.drop_first() =~= seq![]);
        assert(words_bytes(more.drop_first()) =~= seq![]);
        assert(words_bytes(words) =~= seq![]);
        assert(words_bytes(more) =~= words_bytes(words) + word_bytes(w));
    } else {
        assert(more.drop_first() =~= words.drop_first().push(w));
        law_words_bytes(words.drop_first(), w);
        assert(words_bytes(more) =~= words_bytes(words) + word_bytes(w));
    }
}

/// Numbers and words are written as their bytes, and a list of words as their number followed by the
/// words. What has been written to a list of bytes is that list.
pub proof fn law_written_values(x: usize, w: Word, words: Vec<Word>, target: Vec<u8>)
    ensures
        target.written() == target@,
        x.bytes() == usize_bytes(x as nat),
        w.bytes() == word_bytes(w),
        words.bytes() == usize_bytes(words@.len()) + words_bytes(words@),
{
}

/// An odd number shifted left by `k` bits has `k` zero bits at its end, and zero has as many as a byte
/// has bits.
pub proof fn law_trailing_zeros(q: nat, k: nat)
    ensures
        trailing_zeros(0) == 8,
        trailing_zeros((2 * q + 1) * pow2(k)) == k,
{
    law_powers(k);
    lemma_trailing_zeros(q, k);
}

/// A number is read from as many bytes as the first byte has zero bits at its end, and one more. Eight
/// zero bits announce eight bytes that are the number itself; otherwise it stands above the lowest one
/// bit. Where there are fewer bytes the input ends too early, and a number that is too large for the
/// machine is refused after its bytes have been read.
pub proof fn law_parse_usize(input: Seq<u8>, n: nat, q: nat, x: nat)
    requires
        1 <= n <= 9,
        input.len() > 0,
        n < 9 ==> input[0] == (2 * q + 1) * pow2((n - 1) as nat),
        n == 9 ==> input[0] == 0,
        n < 9 && n <= input.len() ==> x == le_value(input.take(n as int)) / pow2(n),
        n == 9 && n <= input.len() ==> x == le_value(input.subrange(1, 9)),
    ensures
        parse_usize(seq![]) is UnexpectedEOF,
        input.len() < n ==> parse_usize(input) is UnexpectedEOF,
        input.len() >= n && x <= usize::MAX ==> parse_usize(input) == Parsed::Value(
            x,
            input.skip(n as int),
        ),
        input.len() >= n && x > usize::MAX ==> parse_usize(input) == Parsed::<nat>::InvalidValue(
            "encoded value does not fit in a machine word"@,
            input.skip(n as int),
        ),
{
    law_powers(n);
    law_trailing_zeros(q, (n - 1) as nat);
}

/// A word is read from 32 bytes, eight for each element. Where one of the elements is not below the
/// order of the field, the bytes are refused after they have been read.
pub proof fn law_parse_word(input: Seq<u8>, i: int)
    requires
        0 <= i < 4,
    ensures
        input.len() < 32 <==> parse_word(input) is UnexpectedEOF,
        parse_word(input) matches Parsed::Value(w, rest) ==> rest == input.skip(32)
            && w.0[i].value == le_value(input.subrange(8 * i, 8 * i + 8)) && le_value(
            input.subrange(8 * i, 8 * i + 8),
        ) <= 0xFFFF_FFFF_0000_0000,
        input.len() >= 32 && le_value(input.subrange(8 * i, 8 * i + 8)) > 0xFFFF_FFFF_0000_0000
            ==> parse_word(input) is InvalidValue,
        input.len() >= 32 && (forall|j: int|
            0 <= j < 4 ==> le_value(#[trigger] input.subrange(8 * j, 8 * j + 8))
                <= 0xFFFF_FFFF_0000_0000) ==> parse_word(input) is Value,
        parse_word(input) matches Parsed::InvalidValue(text, rest) ==> rest == input.skip(32) && text
            == "encoded value is not a canonical field element"@,
{
    let x: nat = element_at(input, i);
    assert(i == 0 || i == 1 || i == 2 || i == 3);
    if input.len() >= 32 && (forall|j: int|
        0 <= j < 4 ==> le_value(#[trigger] input.subrange(8 * j, 8 * j + 8))
            <= 0xFFFF_FFFF_0000_0000) {
        assert forall|j: int| 0 <= j < 4 implies #[trigger] element_at(input, j) < Felt::ORDER by {
            assert(le_value(input.subrange(8 * j, 8 * j + 8)) <= 0xFFFF_FFFF_0000_0000);
        }
    }
}

/// Words are read one after the other: a list of words is read where each of them is, from the place
/// where the one before it ends, and what is left comes after the last one.
#[verifier::spinoff_prover]
pub proof fn law_parse_words(input: Seq<u8>, count: nat, i: int)
    ensures
        parse_words(input, 0) == Parsed::<Seq<Word>>::Value(seq![], input),
        parse_words(input, count) matches Parsed::Value(words, rest) ==> {
            &&& words.len() == count
            &&& input.len() >= 32 * count
            &&& rest == input.skip(32 * count as int)
            &&& 0 <= i < count ==> parse_word(input.skip(32 * i)) == Parsed::Value(
                words[i],
                input.skip(32 * i + 32),
            )
        },
    decreases count,
{
    if count == 0 {
        assert(input.skip(0) =~= input);
    } else {
        match parse_word(input) {
            Parsed::Value(first, rest) => {
                let n: nat = (count - 1) as nat;
                law_parse_words(rest, n, i - 1);
                match parse_words(rest, n) {
                    Parsed::Value(others, left) => {
                        assert(rest.skip(32 * n as int) =~= input.skip(32 * count as int));
                        assert(input.skip(0) =~= input);
                        if 0 < i < count {
                            assert(rest.skip(32 * (i - 1)) =~= input.skip(32 * i));
                            assert(rest.skip(32 * (i - 1) + 32) =~= input.skip(32 * i + 32));
                        }
                    },
                    _ => {},
                }
            },
            _ => {},
        }
    }
}

/// Where all words can be read, so can their list, and where one of them cannot, the list is refused
/// as that word is. `inputs` holds what is left to read before each of the words that can be read,
/// and after the last of them.
pub proof fn law_refused_words(inputs: Seq<Seq<u8>>, words: Seq<Word>, count: nat)
    requires
        inputs.len() == words.len() + 1,
        words.len() <= count,
        forall|j: int, next: int|
            next == j + 1 && 0 <= j < words.len() ==> parse_word(#[trigger] inputs[j])
                == Parsed::Value(words[j], #[trigger] inputs[next]),
    ensures
        words.len() == count ==> parse_words(inputs[0], count) == Parsed::Value(
            words,
            inputs.last(),
        ),
        words.len() < count && parse_word(inputs.last()) is UnexpectedEOF ==> parse_words(
            inputs[0],
            count,
        ) is UnexpectedEOF,
        words.len() < count ==> (parse_word(inputs.last()) matches Parsed::InvalidValue(
            text,
            rest,
        ) ==> parse_words(inputs[0], count) == Parsed::<Seq<Word>>::InvalidValue(text, rest)),
    decreases count,
{
    if words.len() == 0 {
        assert(words =~= seq![]);
    } else {
        let later: Seq<Seq<u8>> = inputs.drop_first();
        let others: Seq<Word> = words.drop_first();
        assert forall|j: int, next: int| next == j + 1 && 0 <= j < others.len() implies parse_word(
            #[trigger] later[j],
        ) == Parsed::Value(others[j], #[trigger] later[next]) by {
            let (k, after): (int, int) = (j + 1, next + 1);
            assert(inputs[k] == later[j] && inputs[after] == later[next]);
        }
        let (first, second): (int, int) = (0, 1);
        assert(parse_word(inputs[first]) == Parsed::Value(words[0], inputs[second]));
        law_refused_words(later, others, (count - 1) as nat);
        assert(later.last() == inputs.last());
        assert(seq![words[0]] + others =~= words);
    }
}

/// Words in their canonical representations hold the same elements, place by place.
pub proof fn law_canonical_words(words: Seq<Word>, i: int, j: int)
    requires
        0 <= i < words.len(),
        0 <= j < 4,
    ensures
        canonical_words(words).len() == words.len(),
        canonical_words(words)[i].0[j].value == words[i].0[j].value as int
            % 0xFFFF_FFFF_0000_0001,
{
    word::law_elements(words[i], words[i]@, j);
}

} // verus!
