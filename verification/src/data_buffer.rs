use crate::text::string_push;
use vstd::prelude::*;

verus! {

// ---------------------------------------------------------------------------
// Byte layout of the values a buffer holds (big-endian, most significant first)
// ---------------------------------------------------------------------------

/// The two bytes of a `u16`, most significant first.
pub open spec fn u16_bytes(v: u16) -> Seq<u8> {
    seq![(v / 0x100) as u8, (v % 0x100) as u8]
}

/// The four bytes of a `u32`, most significant first.
pub open spec fn u32_bytes(v: u32) -> Seq<u8> {
    seq![
        (v / 0x100_0000) as u8,
        (v / 0x1_0000 % 0x100) as u8,
        (v / 0x100 % 0x100) as u8,
        (v % 0x100) as u8,
    ]
}

/// The eight bytes of a `u64`: the high word, then the low word.
pub open spec fn u64_bytes(v: u64) -> Seq<u8> {
    u32_bytes((v / 0x1_0000_0000) as u32) + u32_bytes((v % 0x1_0000_0000) as u32)
}

/// The `u16` whose bytes, most significant first, are `s[i]` and `s[i + 1]`.
pub open spec fn u16_at(s: Seq<u8>, i: int) -> u16 {
    (s[i] * 0x100 + s[i + 1]) as u16
}

/// The `u32` whose bytes, most significant first, are `s[i]` to `s[i + 3]`.
pub open spec fn u32_at(s: Seq<u8>, i: int) -> u32 {
    (s[i] * 0x100_0000 + s[i + 1] * 0x1_0000 + s[i + 2] * 0x100 + s[i + 3]) as u32
}

/// The `u64` whose eight bytes, most significant first, are those of `s`.
pub open spec fn u64_of(s: Seq<u8>) -> u64 {
    (s[0] * 0x100_0000_0000_0000 + s[1] * 0x1_0000_0000_0000 + s[2] * 0x100_0000_0000
        + s[3] * 0x1_0000_0000 + s[4] * 0x100_0000 + s[5] * 0x1_0000 + s[6] * 0x100
        + s[7]) as u64
}

/// What `get_u64` reads at `i`: byte `i` fills the five high bytes of the value,
/// bytes `i + 1` to `i + 3` the three low ones (bytes `i + 4` to `i + 7` are skipped).
pub open spec fn u64_read_at(s: Seq<u8>, i: int) -> u64 {
    u64_of(seq![s[i], s[i], s[i], s[i], s[i], s[i + 1], s[i + 2], s[i + 3]])
}

/// A character as the buffer stores it: the low byte of its code point.
pub open spec fn char_byte(c: char) -> u8 {
    c as u8
}

/// A byte as the buffer reads it back as a character: the code point of the same value.
pub open spec fn byte_char(b: u8) -> char {
    b as char
}

/// The bytes `set_string` writes for the characters `s`: one byte per character, then 0.
pub open spec fn string_bytes(s: Seq<char>) -> Seq<u8> {
    s.map_values(|c: char| char_byte(c)).push(0u8)
}

/// The position of the first zero byte of `s` at or after `i`, or `s.len()` if none
/// (or `i` itself when `i` is past the end).
pub open spec fn zero_from(s: Seq<u8>, i: int) -> int
    decreases s.len() - i,
{
    if i < 0 || i >= s.len() || s[i] == 0 {
        i
    } else {
        zero_from(s, i + 1)
    }
}

/// The characters `get_string` reads starting at `i`: the bytes up to the next zero byte.
pub open spec fn string_at(s: Seq<u8>, i: int) -> Seq<char> {
    if i < s.len() {
        s.subrange(i, zero_from(s, i)).map_values(|b: u8| byte_char(b))
    } else {
        Seq::empty()
    }
}

/// The read index after `get_string` started at `i`: just past the zero byte, or the end.
pub open spec fn index_after_string(s: Seq<u8>, i: int) -> int {
    if zero_from(s, i) < s.len() {
        zero_from(s, i) + 1
    } else {
        zero_from(s, i)
    }
}

/// A character that a string can carry through a buffer: its code point is a non-zero byte.
pub open spec fn is_latin1_nonzero(c: char) -> bool {
    0 < (c as u32) < 0x100
}

// ---------------------------------------------------------------------------
// The buffer
// ---------------------------------------------------------------------------

/// A byte buffer that values are written to at the end and read from at a read index.
#[derive(Clone)]
pub struct DataBuffer {
    pub data_vec: Vec<u8>,
    pub index: usize,
}

impl DataBuffer {
    /// `n` more bytes can be read from the read index on.
    pub open spec fn has(&self, n: int) -> bool {
        self.index + n <= self.data_vec@.len()
    }

    /// An empty buffer, read index 0.
    pub fn new() -> (r: Self)
        ensures
            r.data_vec@ == Seq::<u8>::empty(),
            r.index == 0,
    {
        DataBuffer { data_vec: Vec::new(), index: 0 }
    }

    /// Appends one byte.
    pub fn set_u8(&mut self, input: u8)
        ensures
            final(self).data_vec@ == old(self).data_vec@.push(input),
            final(self).index == old(self).index,
    {
        self.data_vec.push(input);
    }

    /// Reads one byte and advances; 0 with nothing read when no byte is left.
    pub fn get_u8(&mut self) -> (r: u8)
        ensures
            final(self).data_vec@ == old(self).data_vec@,
            old(self).has(1) ==> r == old(self).data_vec@[old(self).index as int]
                && final(self).index == old(self).index + 1,
            !old(self).has(1) ==> r == 0 && final(self).index == old(self).index,
    {
        let mut result: u8 = 0;
        let size = self.data_vec.len();
        if self.index < size {
            result = self.data_vec[self.index];
            self.index += 1;
        }
        result
    }

    /// Appends the two's-complement byte of `input`.
    pub fn set_i8(&mut self, input: i8)
        ensures
            final(self).data_vec@ == old(self).data_vec@.push(input as u8),
            final(self).index == old(self).index,
    {
        self.data_vec.push(input as u8);
    }

    /// Reads one byte as a two's-complement `i8` and advances; 0 when no byte is left.
    pub fn get_i8(&mut self) -> (r: i8)
        ensures
            final(self).data_vec@ == old(self).data_vec@,
            old(self).has(1) ==> r == old(self).data_vec@[old(self).index as int] as i8
                && final(self).index == old(self).index + 1,
            !old(self).has(1) ==> r == 0 && final(self).index == old(self).index,
    {
        let mut result: i8 = 0;
        let size = self.data_vec.len();
        if self.index < size {
            result = self.data_vec[self.index] as i8;
            self.index += 1;
        }
        result
    }

    /// Appends the two bytes of `input`, most significant first.
    pub fn set_u16(&mut self, input: u16)
        ensures
            final(self).data_vec@ == old(self).data_vec@ + u16_bytes(input),
            final(self).index == old(self).index,
    {
        self.data_vec.push((input / 0x100) as u8);
        self.data_vec.push((input % 0x100) as u8);
    }

    /// Reads two bytes as a big-endian `u16` and advances by two; 0 with nothing read
    /// when fewer than two bytes are left.
    pub fn get_u16(&mut self) -> (r: u16)
        ensures
            final(self).data_vec@ == old(self).data_vec@,
            old(self).has(2) ==> r == u16_at(old(self).data_vec@, old(self).index as int)
                && final(self).index == old(self).index + 2,
            !old(self).has(2) ==> r == 0 && final(self).index == old(self).index,
    {
        let mut result: u16 = 0;
        let size = self.data_vec.len();
        if self.index < size && size - self.index > 1 {
            let hi = self.data_vec[self.index] as u16;
            let lo = self.data_vec[self.index + 1] as u16;
            result = hi * 0x100 + lo;
            self.index += 2;
        }
        result
    }

    /// Appends the two bytes of `input` in two's complement, most significant first.
    pub fn set_i16(&mut self, input: i16)
        ensures
            final(self).data_vec@ == old(self).data_vec@ + u16_bytes(input as u16),
            final(self).index == old(self).index,
    {
        self.set_u16(input as u16);
    }

    /// Reads two bytes as a big-endian two's-complement `i16`; 0 when fewer than two are left.
    pub fn get_i16(&mut self) -> (r: i16)
        ensures
            final(self).data_vec@ == old(self).data_vec@,
            old(self).has(2) ==> r == u16_at(old(self).data_vec@, old(self).index as int) as i16
                && final(self).index == old(self).index + 2,
            !old(self).has(2) ==> r == 0 && final(self).index == old(self).index,
    {
        self.get_u16() as i16
    }

    /// Appends the four bytes of `input` in two's complement, most significant first.
    pub fn set_i32(&mut self, input: i32)
        ensures
            final(self).data_vec@ == old(self).data_vec@ + u32_bytes(input as u32),
            final(self).index == old(self).index,
    {
        self.set_u32(input as u32);
    }

    /// Reads four bytes as a big-endian two's-complement `i32`; 0 when fewer than four are left.
    pub fn get_i32(&mut self) -> (r: i32)
        ensures
            final(self).data_vec@ == old(self).data_vec@,
            old(self).has(4) ==> r == u32_at(old(self).data_vec@, old(self).index as int) as i32
                && final(self).index == old(self).index + 4,
            !old(self).has(4) ==> r == 0 && final(self).index == old(self).index,
    {
        self.get_u32() as i32
    }

    /// Appends the four bytes of `input`, most significant first.
    pub fn set_u32(&mut self, input: u32)
        ensures
            final(self).data_vec@ == old(self).data_vec@ + u32_bytes(input),
            final(self).index == old(self).index,
    {
        self.data_vec.push((input / 0x100_0000) as u8);
        self.data_vec.push((input / 0x1_0000 % 0x100) as u8);
        self.data_vec.push((input / 0x100 % 0x100) as u8);
        self.data_vec.push((input % 0x100) as u8);
        proof {
            assert(final(self).data_vec@ =~= old(self).data_vec@ + u32_bytes(input));
        }
    }

    /// Reads four bytes as a big-endian `u32` and advances by four; 0 with nothing read
    /// when fewer than four bytes are left.
    pub fn get_u32(&mut self) -> (r: u32)
        ensures
            final(self).data_vec@ == old(self).data_vec@,
            old(self).has(4) ==> r == u32_at(old(self).data_vec@, old(self).index as int)
                && final(self).index == old(self).index + 4,
            !old(self).has(4) ==> r == 0 && final(self).index == old(self).index,
    {
        let mut result: u32 = 0;
        let size = self.data_vec.len();
        if self.index < size && size - self.index > 3 {
            let i = self.index;
            let b0 = self.data_vec[i] as u32;
            let b1 = self.data_vec[i + 1] as u32;
            let b2 = self.data_vec[i + 2] as u32;
            let b3 = self.data_vec[i + 3] as u32;
            result = b0 * 0x100_0000 + b1 * 0x1_0000 + b2 * 0x100 + b3;
            self.index += 4;
        }
        result
    }

    /// Appends the eight bytes of `input`: the high word, then the low word.
    pub fn set_u64(&mut self, input: u64)
        ensures
            final(self).data_vec@ == old(self).data_vec@ + u64_bytes(input),
            final(self).index == old(self).index,
    {
        self.set_u32((input / 0x1_0000_0000) as u32);
        self.set_u32((input % 0x1_0000_0000) as u32);
        proof {
            assert(final(self).data_vec@ =~= old(self).data_vec@ + u64_bytes(input));
        }
    }

    /// Reads a `u64` and advances by eight when eight bytes are left; 0 with nothing read
    /// otherwise. The value is built from the first four of the eight bytes only: the
    /// first byte fills the five high bytes of the value, the next three the low bytes.
    pub fn get_u64(&mut self) -> (r: u64)
        ensures
            final(self).data_vec@ == old(self).data_vec@,
            old(self).has(8) ==> r == u64_read_at(old(self).data_vec@, old(self).index as int)
                && final(self).index == old(self).index + 8,
            !old(self).has(8) ==> r == 0 && final(self).index == old(self).index,
    {
        let mut result: u64 = 0;
        let size = self.data_vec.len();
        if self.index < size && size - self.index > 7 {
            let i = self.index;
            let b0 = self.data_vec[i] as u64;
            let b1 = self.data_vec[i + 1] as u64;
            let b2 = self.data_vec[i + 2] as u64;
            let b3 = self.data_vec[i + 3] as u64;
            result = b0 * 0x100_0000_0000_0000 + b0 * 0x1_0000_0000_0000 + b0 * 0x100_0000_0000
                + b0 * 0x1_0000_0000 + b0 * 0x100_0000 + b1 * 0x1_0000 + b2 * 0x100 + b3;
            self.index += 8;
        }
        result
    }
    /// Appends the low byte of the code point of `input`.
    pub fn set_char(&mut self, input: char)
        ensures
            final(self).data_vec@ == old(self).data_vec@.push(char_byte(input)),
            final(self).index == old(self).index,
    {
        self.data_vec.push(input as u8);
    }

    /// Reads one byte as the character of that code point and advances;
    /// `'\0'` with nothing read when no byte is left.
    pub fn get_char(&mut self) -> (r: char)
        ensures
            final(self).data_vec@ == old(self).data_vec@,
            old(self).has(1) ==> r == byte_char(old(self).data_vec@[old(self).index as int])
                && final(self).index == old(self).index + 1,
            !old(self).has(1) ==> r == '\0' && final(self).index == old(self).index,
    {
        let mut result: char = '\0';
        let size = self.data_vec.len();
        if self.index < size {
            result = self.data_vec[self.index] as char;
            self.index += 1;
        }
        result
    }
    /// Appends one byte per character of `input` (the low byte of its code point),
    /// then a zero byte.
    pub fn set_string(&mut self, input: String)
        ensures
            final(self).data_vec@ == old(self).data_vec@ + string_bytes(input@),
            final(self).index == old(self).index,
    {
        broadcast use vstd::string::group_string_axioms;
        let s = input.as_str();
        let ghost start = self.data_vec@;
        for c in iter: s.chars()
            invariant
                self.index == old(self).index,
                start == old(self).data_vec@,
                iter.seq() == s@,
                self.data_vec@ == start + s@.take(iter.index() as int).map_values(
                    |c: char| char_byte(c),
                ),
        {
            self.set_char(c);
            proof {
                assert(s@.take(iter.index() + 1) =~= s@.take(iter.index() as int).push(c));
            }
        }
        self.set_char('\0');
        proof {
            assert(s@.take(s@.len() as int) =~= s@);
            assert(self.data_vec@ =~= start + string_bytes(input@));
        }
    }
    /// Reads characters up to the next zero byte, or up to the end of the buffer, and
    /// advances past them (and past the zero byte when there is one).
    pub fn get_string(&mut self) -> (r: String)
        ensures
            final(self).data_vec@ == old(self).data_vec@,
            r@ == string_at(old(self).data_vec@, old(self).index as int),
            final(self).index == index_after_string(old(self).data_vec@, old(self).index as int),
    {
        let ghost s = self.data_vec@;
        let ghost i0 = self.index as int;
        let ghost e = zero_from(s, i0);
        let mut result = String::new();
        proof {
            lemma_zero_from_bounds(s, i0);
            if i0 <= s.len() {
                assert(s.subrange(i0, i0).map_values(|b: u8| byte_char(b)) =~= result@);
            }
        }
        loop
            invariant_except_break
                i0 <= self.index <= e,
                zero_from(s, self.index as int) == e,
                i0 <= s.len() ==> result@ == s.subrange(i0, self.index as int).map_values(
                    |b: u8| byte_char(b),
                ),
                i0 > s.len() ==> result@ == Seq::<char>::empty(),
            invariant
                self.data_vec@ == s,
                e == zero_from(s, i0),
                i0 < s.len() ==> e <= s.len(),
                i0 >= s.len() ==> e == i0,
                e < s.len() ==> s[e] == 0,
            ensures
                result@ == string_at(s, i0),
                self.index == index_after_string(s, i0),
            decreases s.len() - self.index,
        {
            let ghost before = self.index as int;
            let ch = self.get_char();
            if ch == '\0' {
                proof {
                    if before < s.len() {
                        lemma_byte_char_zero(s[before]);
                        assert(before == e);
                    } else {
                        assert(before == e);
                    }
                    if i0 == s.len() {
                        assert(result@ =~= Seq::<char>::empty());
                    }
                }
                break;
            }
            proof {
                lemma_byte_char_zero(s[before]);
                assert(s.subrange(i0, self.index as int).map_values(|b: u8| byte_char(b))
                    =~= s.subrange(i0, before).map_values(|b: u8| byte_char(b)).push(ch));
            }
            string_push(&mut result, ch);
        }
        result
    }
    /// `set_string` of a copy of `input`.
    pub fn set_str(&mut self, input: &str)
        ensures
            final(self).data_vec@ == old(self).data_vec@ + string_bytes(input@),
            final(self).index == old(self).index,
    {
        self.set_string(input.to_owned());
    }

    /// Removes every byte and sets the read index to 0.
    pub fn clear_buffer(&mut self)
        ensures
            final(self).data_vec@ == Seq::<u8>::empty(),
            final(self).index == 0,
    {
        self.data_vec.clear();
        self.index = 0;
    }

    /// Appends every byte of `input` (from its start, whatever its read index);
    /// `input` is left as it was.
    pub fn set_buffer(&mut self, input: &mut DataBuffer)
        ensures
            final(self).data_vec@ == old(self).data_vec@ + old(input).data_vec@,
            final(self).index == old(self).index,
            final(input).data_vec@ == old(input).data_vec@,
            final(input).index == old(input).index,
    {
        let backup = input.index;
        input.reset_index();
        while !input.is_no_data()
            invariant
                input.data_vec@ == old(input).data_vec@,
                input.index <= input.data_vec@.len(),
                self.index == old(self).index,
                self.data_vec@ == old(self).data_vec@ + input.data_vec@.take(input.index as int),
            decreases input.data_vec@.len() - input.index,
        {
            let ghost at = input.index as int;
            let b = input.get_u8();
            self.set_u8(b);
            proof {
                assert(input.data_vec@.take(at + 1) =~= input.data_vec@.take(at).push(b));
            }
        }
        proof {
            assert(input.data_vec@.take(input.index as int) =~= input.data_vec@);
        }
        input.index = backup;
    }

    /// Sets the read index to 0.
    pub fn reset_index(&mut self)
        ensures
            final(self).data_vec@ == old(self).data_vec@,
            final(self).index == 0,
    {
        self.index = 0;
    }

    /// The read index.
    pub fn get_index(&mut self) -> (r: usize)
        ensures
            r == old(self).index,
            *final(self) == *old(self),
    {
        self.index
    }

    /// The buffer holds no byte.
    pub fn is_empty(&mut self) -> (r: bool)
        ensures
            r == (old(self).data_vec@.len() == 0),
            *final(self) == *old(self),
    {
        self.data_vec.is_empty()
    }

    /// No byte is left to read: the read index is at or past the end.
    pub fn is_no_data(&mut self) -> (r: bool)
        ensures
            r == (old(self).data_vec@.len() <= old(self).index),
            *final(self) == *old(self),
    {
        self.data_vec.len() <= self.index
    }

    /// The number of bytes held.
    pub fn get_size(&mut self) -> (r: usize)
        ensures
            r == old(self).data_vec@.len(),
            *final(self) == *old(self),
    {
        self.data_vec.len()
    }

    /// The bytes held, taking the buffer.
    pub fn get_buffer_vec(self) -> (r: Vec<u8>)
        ensures
            r@ == self.data_vec@,
    {
        self.data_vec
    }

    /// Replaces the bytes held by `data`; the read index stays as it was.
    pub fn set_buffer_vec(&mut self, data: Vec<u8>)
        ensures
            final(self).data_vec@ == data@,
            final(self).index == old(self).index,
    {
        self.data_vec = data;
    }
}

/// Where `zero_from` stops: at or after its start, and at the end at the latest.
pub proof fn lemma_zero_from_bounds(s: Seq<u8>, i: int)
    requires
        0 <= i,
    ensures
        i <= zero_from(s, i),
        i < s.len() ==> zero_from(s, i) <= s.len(),
        i >= s.len() ==> zero_from(s, i) == i,
        zero_from(s, i) < s.len() ==> s[zero_from(s, i)] == 0,
    decreases s.len() - i,
{
    if i < s.len() && s[i] != 0 {
        lemma_zero_from_bounds(s, i + 1);
    }
}

/// Only the zero byte reads back as the character `'\0'`.
pub proof fn lemma_byte_char_zero(b: u8)
    ensures
        (byte_char(b) == '\0') == (b == 0),
{
}

} // verus!

verus! {

// ---------------------------------------------------------------------------
// Laws: what a read gives back of a write
// ---------------------------------------------------------------------------

/// A byte written after `p` and followed by anything is read back by `get_u8` at `p.len()`.
pub proof fn law_u8_round_trip(p: Seq<u8>, v: u8, q: Seq<u8>)
    ensures
        (p.push(v) + q)[p.len() as int] == v,
{
}

/// An `i8` written by `set_i8` is read back by `get_i8`.
pub proof fn law_i8_round_trip(p: Seq<u8>, v: i8, q: Seq<u8>)
    ensures
        (p.push(v as u8) + q)[p.len() as int] as i8 == v,
{
    assert((v as u8) as i8 == v) by (bit_vector);
}

/// A `u16` written by `set_u16` after `p`, whatever follows it, is read back by `get_u16`
/// from position `p.len()`, which then has its two bytes.
pub proof fn law_u16_round_trip(p: Seq<u8>, v: u16, q: Seq<u8>)
    ensures
        p.len() + 2 <= (p + u16_bytes(v) + q).len(),
        u16_at(p + u16_bytes(v) + q, p.len() as int) == v,
{
    let t = p + u16_bytes(v) + q;
    assert(t[p.len() as int] == u16_bytes(v)[0]);
    assert(t[p.len() + 1int] == u16_bytes(v)[1]);
}

/// An `i16` written by `set_i16` is read back by `get_i16`.
pub proof fn law_i16_round_trip(p: Seq<u8>, v: i16, q: Seq<u8>)
    ensures
        u16_at(p + u16_bytes(v as u16) + q, p.len() as int) as i16 == v,
{
    law_u16_round_trip(p, v as u16, q);
    assert((v as u16) as i16 == v) by (bit_vector);
}

/// A `u32` written by `set_u32` after `p`, whatever follows it, is read back by `get_u32`
/// from position `p.len()`, which then has its four bytes.
pub proof fn law_u32_round_trip(p: Seq<u8>, v: u32, q: Seq<u8>)
    ensures
        p.len() + 4 <= (p + u32_bytes(v) + q).len(),
        u32_at(p + u32_bytes(v) + q, p.len() as int) == v,
{
    let t = p + u32_bytes(v) + q;
    let n = p.len() as int;
    assert(t[n] == u32_bytes(v)[0]);
    assert(t[n + 1] == u32_bytes(v)[1]);
    assert(t[n + 2] == u32_bytes(v)[2]);
    assert(t[n + 3] == u32_bytes(v)[3]);
    lemma_u32_bytes_value(v);
}

/// An `i32` written by `set_i32` is read back by `get_i32`.
pub proof fn law_i32_round_trip(p: Seq<u8>, v: i32, q: Seq<u8>)
    ensures
        u32_at(p + u32_bytes(v as u32) + q, p.len() as int) as i32 == v,
{
    law_u32_round_trip(p, v as u32, q);
    assert((v as u32) as i32 == v) by (bit_vector);
}

/// A `u64` written by `set_u64` is read back by `get_u64` when its eight bytes are all
/// the same byte `b` (`get_u64` builds its value from the first four bytes only).
pub proof fn law_u64_round_trip(p: Seq<u8>, b: u8, q: Seq<u8>)
    ensures
        u64_read_at(p + u64_bytes((b * 0x0101_0101_0101_0101) as u64) + q, p.len() as int)
            == (b * 0x0101_0101_0101_0101) as u64,
{
    let v = (b * 0x0101_0101_0101_0101) as u64;
    let t = p + u64_bytes(v) + q;
    let n = p.len() as int;
    assert(v / 0x1_0000_0000 == b * 0x0101_0101) by (nonlinear_arith)
        requires v == b * 0x0101_0101_0101_0101, b <= 255;
    assert(v % 0x1_0000_0000 == b * 0x0101_0101) by (nonlinear_arith)
        requires v == b * 0x0101_0101_0101_0101, b <= 255;
    lemma_u32_bytes_repeated(b);
    assert(t[n] == b);
    assert(t[n + 1] == b);
    assert(t[n + 2] == b);
    assert(t[n + 3] == b);
}

/// A character whose code point is below 0x100 is read back by `get_char` as written by
/// `set_char`.
pub proof fn law_char_round_trip(c: char)
    requires
        (c as u32) < 0x100,
    ensures
        byte_char(char_byte(c)) == c,
{
}

/// A string of characters with non-zero code points below 0x100, written by `set_string`
/// after `p` and followed by anything, is read back by `get_string` from position `p.len()`,
/// which then stands just past the string's zero byte.
pub proof fn law_string_round_trip(p: Seq<u8>, s: Seq<char>, q: Seq<u8>)
    requires
        forall|k: int| 0 <= k < s.len() ==> is_latin1_nonzero(#[trigger] s[k]),
    ensures
        string_at(p + string_bytes(s) + q, p.len() as int) == s,
        index_after_string(p + string_bytes(s) + q, p.len() as int) == p.len() + s.len() + 1,
{
    let t = p + string_bytes(s) + q;
    let n = p.len() as int;
    assert forall|k: int| 0 <= k < s.len() implies t[n + k] == char_byte(s[k]) by {
        assert(t[n + k] == string_bytes(s)[k]);
    }
    assert(t[n + s.len()] == 0) by {
        assert(t[n + s.len()] == string_bytes(s)[s.len() as int]);
    }
    lemma_zero_from_run(t, n, s);
    assert forall|k: int| 0 <= k < s.len() implies byte_char(t[n + k]) == s[k] by {
        law_char_round_trip(s[k]);
    }
    assert(t.subrange(n, n + s.len()).map_values(|b: u8| byte_char(b)) =~= s);
}

/// Non-zero bytes from `n` on, then a zero byte: `zero_from` stops at that zero byte.
proof fn lemma_zero_from_run(t: Seq<u8>, n: int, s: Seq<char>)
    requires
        0 <= n,
        n + s.len() < t.len(),
        forall|k: int| 0 <= k < s.len() ==> is_latin1_nonzero(#[trigger] s[k]),
        forall|k: int| 0 <= k < s.len() ==> t[n + k] == char_byte(#[trigger] s[k]),
        t[n + s.len()] == 0,
    ensures
        zero_from(t, n) == n + s.len(),
    decreases s.len(),
{
    if s.len() > 0 {
        let c = s[0];
        assert(is_latin1_nonzero(c));
        assert(t[n] == char_byte(c));
        lemma_char_byte_nonzero(c);
        let rest = s.drop_first();
        assert forall|k: int| 0 <= k < rest.len() implies t[(n + 1) + k] == char_byte(
            #[trigger] rest[k],
        ) by {
            assert(rest[k] == s[k + 1]);
        }
        assert forall|k: int| 0 <= k < rest.len() implies is_latin1_nonzero(#[trigger] rest[k]) by {
            assert(rest[k] == s[k + 1]);
        }
        lemma_zero_from_run(t, n + 1, rest);
    }
}

/// A character with a non-zero code point below 0x100 is stored as a non-zero byte.
proof fn lemma_char_byte_nonzero(c: char)
    requires
        is_latin1_nonzero(c),
    ensures
        char_byte(c) != 0,
{
    assert(c as int == c as u32);
    assert((c as u8) as int == c as int);
}

/// The four bytes of a `u32` put back together give the `u32`.
proof fn lemma_u32_bytes_value(v: u32)
    ensures
        u32_at(u32_bytes(v), 0) == v,
{
    let b = u32_bytes(v);
    assert(b[0] * 0x100_0000 + b[1] * 0x1_0000 + b[2] * 0x100 + b[3] == v) by (nonlinear_arith)
        requires
            b[0] == v / 0x100_0000,
            b[1] == v / 0x1_0000 % 0x100,
            b[2] == v / 0x100 % 0x100,
            b[3] == v % 0x100,
            v <= 0xffff_ffff,
    ;
}

/// The four bytes of `b * 0x01010101` are all `b`.
proof fn lemma_u32_bytes_repeated(b: u8)
    ensures
        u32_bytes((b * 0x0101_0101) as u32) == seq![b, b, b, b],
{
    let v = (b * 0x0101_0101) as u32;
    assert(v / 0x100_0000 == b && v / 0x1_0000 % 0x100 == b && v / 0x100 % 0x100 == b && v
        % 0x100 == b) by (nonlinear_arith)
        requires v == b * 0x0101_0101, b <= 255;
    assert(u32_bytes(v) =~= seq![b, b, b, b]);
}

} // verus!
