//! Reading bytes as the grid formats need it: characters byte by byte, little-endian
//! integers, and text lines, from a byte buffer with a read position.

use byteorder::{ByteOrder, LittleEndian};
use vstd::prelude::*;
use vstd::utf8::{decode_utf8, valid_utf8};

verus! {

/// The character that stands for one byte when bytes are read as text one by one.
pub open spec fn byte_char(b: u8) -> char {
    b as char
}

/// The characters that stand for the bytes `bytes`, one each, in order.
pub open spec fn byte_chars(bytes: Seq<u8>) -> Seq<char> {
    bytes.map_values(|b: u8| byte_char(b))
}

/// Appends one character to a string.
///
/// Trusted: `String::push` (std); the contract claims that the string afterwards
/// holds its old characters followed by `c`.
#[verifier::external_body]
pub(crate) fn push_char(s: &mut String, c: char)
    ensures
        final(s)@ == old(s)@.push(c),
{
    s.push(c);
}

/// The text that the bytes encode in UTF-8, if they are valid UTF-8.
///
/// Trusted: `String::from_utf8` (std); the contract claims that it succeeds
/// exactly on valid UTF-8 and then holds the decoded characters.
#[verifier::external_body]
pub(crate) fn utf8_string(bytes: Vec<u8>) -> (r: Option<String>)
    ensures
        r is Some <==> valid_utf8(bytes@),
        r matches Some(s) ==> s@ == decode_utf8(bytes@),
{
    String::from_utf8(bytes).ok()
}

/// The value of the first four bytes read as a little-endian unsigned integer.
pub open spec fn le_u32_value(b: Seq<u8>) -> int {
    b[0] + b[1] * 0x100 + b[2] * 0x1_0000 + b[3] * 0x100_0000
}

/// The value of the first four bytes read as a little-endian two's-complement integer.
pub open spec fn le_i32_value(b: Seq<u8>) -> int {
    let u = le_u32_value(b);
    if u < 0x8000_0000 {
        u
    } else {
        u - 0x1_0000_0000
    }
}

/// The value of the first eight bytes read as a little-endian unsigned integer.
pub open spec fn le_u64_value(b: Seq<u8>) -> int {
    le_u32_value(b) + le_u32_value(b.skip(4)) * 0x1_0000_0000
}

/// Reads a little-endian `i32` from the start of `buf`.
///
/// Trusted: `LittleEndian::read_i32` (byteorder); the contract claims that it
/// gives the first four bytes as a little-endian two's-complement integer. It
/// panics on fewer than four bytes, which `requires` rules out.
#[verifier::external_body]
fn le_read_i32(buf: &[u8]) -> (v: i32)
    requires
        buf@.len() >= 4,
    ensures
        v as int == le_i32_value(buf@),
{
    LittleEndian::read_i32(buf)
}

/// Reads a little-endian `u64` from the start of `buf`.
///
/// Trusted: `LittleEndian::read_u64` (byteorder); the contract claims that it
/// gives the first eight bytes as a little-endian unsigned integer. It panics on
/// fewer than eight bytes, which `requires` rules out.
#[verifier::external_body]
fn le_read_u64(buf: &[u8]) -> (v: u64)
    requires
        buf@.len() >= 8,
    ensures
        v as int == le_u64_value(buf@),
{
    LittleEndian::read_u64(buf)
}


/// The position of the first byte `b` in `s`, or the length of `s` when there is none.
pub open spec fn index_of_byte(s: Seq<u8>, b: u8) -> nat
    decreases s.len(),
{
    if s.len() == 0 {
        0
    } else if s[0] == b {
        0
    } else {
        1 + index_of_byte(s.drop_first(), b)
    }
}

pub proof fn lemma_index_of_byte_at(s: Seq<u8>, b: u8, k: int)
    requires
        0 <= k <= s.len(),
        forall|j: int| 0 <= j < k ==> s[j] != b,
        k < s.len() ==> s[k] == b,
    ensures
        index_of_byte(s, b) == k,
    decreases k,
{
    if k > 0 {
        assert(s[0] != b);
        lemma_index_of_byte_at(s.drop_first(), b, k - 1);
    }
}

pub proof fn lemma_index_of_byte_bound(s: Seq<u8>, b: u8)
    ensures
        index_of_byte(s, b) <= s.len(),
    decreases s.len(),
{
    if s.len() > 0 && s[0] != b {
        lemma_index_of_byte_bound(s.drop_first(), b);
    }
}

/// The first line of `s` as `BufRead::lines` gives it: the bytes before the first
/// `'\n'`, without one `'\r'` just before that `'\n'`; all of `s` when it holds no `'\n'`.
pub open spec fn first_line(s: Seq<u8>) -> Seq<u8> {
    let k = index_of_byte(s, 10);
    if k < s.len() {
        let l = s.take(k as int);
        if l.len() > 0 && l.last() == 13 {
            l.drop_last()
        } else {
            l
        }
    } else {
        s
    }
}

/// What follows the first line of `s` and its `'\n'`.
pub open spec fn after_first_line(s: Seq<u8>) -> Seq<u8> {
    let k = index_of_byte(s, 10);
    if k < s.len() {
        s.skip(k as int + 1)
    } else {
        seq![]
    }
}

/// What follows the first line is shorter than the text.
pub proof fn lemma_after_first_line_shorter(s: Seq<u8>)
    requires
        s.len() > 0,
    ensures
        after_first_line(s).len() < s.len(),
{
    lemma_index_of_byte_bound(s, 10);
}

/// The lines of `s` as `BufRead::lines` gives them, before they are decoded.
pub open spec fn byte_lines(s: Seq<u8>) -> Seq<Seq<u8>>
    decreases s.len(),
{
    if s.len() == 0 {
        seq![]
    } else {
        proof {
            lemma_index_of_byte_bound(s, 10);
        }
        seq![first_line(s)] + byte_lines(after_first_line(s))
    }
}

/// A line decoded as UTF-8, or `None` when its bytes are not UTF-8.
pub open spec fn line_text(l: Seq<u8>) -> Option<Seq<char>> {
    if valid_utf8(l) {
        Some(decode_utf8(l))
    } else {
        None
    }
}

/// Why a line could not be read.
#[derive(Debug, Clone, Copy, PartialEq, Eq, Structural)]
pub enum LineError {
    /// The line's bytes are not UTF-8.
    InvalidUtf8,
}

/// Turns each byte into the character with the same code, in order.
pub fn u8_arr_to_string(u8_arr: Vec<u8>) -> (rs: String)
    ensures
        rs@ == byte_chars(u8_arr@),
{
    let mut rs = String::new();
    let mut i: usize = 0;
    while i < u8_arr.len()
        invariant
            i <= u8_arr.len(),
            rs@ == byte_chars(u8_arr@.take(i as int)),
        decreases u8_arr.len() - i,
    {
        let ch = u8_arr[i] as char;
        push_char(&mut rs, ch);
        assert(u8_arr@.take(i + 1) == u8_arr@.take(i as int).push(u8_arr@[i as int]));
        assert(byte_chars(u8_arr@.take(i + 1)) =~= byte_chars(u8_arr@.take(i as int)).push(ch));
        i = i + 1;
    }
    assert(u8_arr@.take(i as int) == u8_arr@);
    rs
}

/// Reading a fixed number of bytes as text, one character per byte.
pub trait ReadEx {
    /// The bytes that have not been read yet.
    spec fn unread(&self) -> Seq<u8>;

    /// Reads the next `n` bytes and gives the characters with the same codes.
    fn read_str(&mut self, n: usize) -> (s: String)
        requires
            n <= old(self).unread().len(),
        ensures
            s@ == byte_chars(old(self).unread().take(n as int)),
            final(self).unread() == old(self).unread().skip(n as int),
    ;
}

/// A byte buffer read from a position that moves forward as bytes are read and
/// can be set anywhere, past the end too.
pub struct ByteReader {
    bytes: Vec<u8>,
    pos: usize,
}

impl ByteReader {
    /// All the bytes of the buffer.
    pub closed spec fn data(&self) -> Seq<u8> {
        self.bytes@
    }

    /// The read position.
    pub closed spec fn position(&self) -> nat {
        self.pos as nat
    }

    /// The bytes from the read position to the end; none when it is past the end.
    pub open spec fn rest(&self) -> Seq<u8> {
        if self.position() <= self.data().len() {
            self.data().skip(self.position() as int)
        } else {
            seq![]
        }
    }

    /// A reader at the start of `bytes`.
    pub fn new(bytes: Vec<u8>) -> (r: ByteReader)
        ensures
            r.data() == bytes@,
            r.position() == 0,
    {
        ByteReader { bytes, pos: 0 }
    }

    /// Moves the read position to `pos` bytes from the start.
    pub fn seek_to(&mut self, pos: usize)
        ensures
            final(self).data() == old(self).data(),
            final(self).position() == pos,
    {
        self.pos = pos;
    }

    /// The number of bytes in the whole buffer.
    pub fn len(&self) -> (n: usize)
        ensures
            n == self.data().len(),
    {
        self.bytes.len()
    }

    /// The number of bytes from the read position to the end.
    pub fn remaining(&self) -> (n: usize)
        ensures
            n == self.rest().len(),
    {
        if self.pos <= self.bytes.len() {
            self.bytes.len() - self.pos
        } else {
            0
        }
    }

    /// Reads a little-endian `i32`, or gives `None`, moving nothing, when fewer
    /// than four bytes are left.
    pub fn read_i32_le(&mut self) -> (v: Option<i32>)
        ensures
            final(self).data() == old(self).data(),
            old(self).rest().len() >= 4 ==> v == Some(le_i32_value(old(self).rest()) as i32)
                && final(self).position() == old(self).position() + 4,
            old(self).rest().len() < 4 ==> v is None && final(self).position() == old(
                self,
            ).position(),
    {
        if self.pos > self.bytes.len() || self.bytes.len() - self.pos < 4 {
            return None;
        }
        let buf = vstd::slice::slice_subrange(self.bytes.as_slice(), self.pos, self.pos + 4);
        let v = le_read_i32(buf);
        assert(buf@ == self.rest().take(4));
        assert(le_i32_value(buf@) == le_i32_value(self.rest()));
        self.pos = self.pos + 4;
        Some(v)
    }

    /// Reads a little-endian `u64`, or gives `None`, moving nothing, when fewer
    /// than eight bytes are left.
    pub fn read_u64_le(&mut self) -> (v: Option<u64>)
        ensures
            final(self).data() == old(self).data(),
            old(self).rest().len() >= 8 ==> v == Some(le_u64_value(old(self).rest()) as u64)
                && final(self).position() == old(self).position() + 8,
            old(self).rest().len() < 8 ==> v is None && final(self).position() == old(
                self,
            ).position(),
    {
        if self.pos > self.bytes.len() || self.bytes.len() - self.pos < 8 {
            return None;
        }
        let buf = vstd::slice::slice_subrange(self.bytes.as_slice(), self.pos, self.pos + 8);
        let v = le_read_u64(buf);
        assert(buf@ == self.rest().take(8));
        assert(buf@.skip(4) == self.rest().skip(4).take(4));
        assert(le_u64_value(buf@) == le_u64_value(self.rest()));
        self.pos = self.pos + 8;
        Some(v)
    }
}

impl ByteReader {
    /// Reads the next line, as `Lines::next` does: `None` at the end, otherwise the
    /// line decoded, or an error when it is not UTF-8; the line is consumed either way.
    pub fn read_line(&mut self) -> (r: Option<Result<String, LineError>>)
        ensures
            final(self).data() == old(self).data(),
            old(self).rest().len() == 0 ==> r is None && final(self).rest() == old(self).rest(),
            old(self).rest().len() > 0 ==> {
                &&& r is Some
                &&& final(self).rest() == after_first_line(old(self).rest())
                &&& match line_text(first_line(old(self).rest())) {
                    Some(text) => r matches Some(Ok(s)) && s@ == text,
                    None => r == Some(Err::<String, LineError>(LineError::InvalidUtf8)),
                }
            },
    {
        if self.pos >= self.bytes.len() {
            return None;
        }
        let ghost rest = self.rest();
        let start = self.pos;
        let mut k = start;
        while k < self.bytes.len()
            invariant
                start <= k <= self.bytes.len(),
                start == self.pos,
                rest == self.bytes@.skip(start as int),
                forall|j: int| start <= j < k ==> self.bytes@[j] != 10,
            ensures
                start <= k <= self.bytes.len(),
                forall|j: int| start <= j < k ==> self.bytes@[j] != 10,
                k < self.bytes.len() ==> self.bytes@[k as int] == 10,
            decreases self.bytes.len() - k,
        {
            if self.bytes[k] == 10 {
                break;
            }
            k = k + 1;
        }
        proof {
            lemma_index_of_byte_at(rest, 10, k - start);
        }
        let mut line: Vec<u8> = Vec::new();
        let mut i = start;
        while i < k
            invariant
                start <= i <= k <= self.bytes.len(),
                line@ == self.bytes@.subrange(start as int, i as int),
            decreases k - i,
        {
            line.push(self.bytes[i]);
            assert(self.bytes@.subrange(start as int, i + 1) == self.bytes@.subrange(
                start as int,
                i as int,
            ).push(self.bytes@[i as int]));
            i = i + 1;
        }
        assert(line@ == rest.take(k - start));
        if k < self.bytes.len() {
            if line.len() > 0 && line[line.len() - 1] == 13 {
                line.pop();
            }
            self.pos = k + 1;
            assert(self.rest() == rest.skip(k - start + 1));
        } else {
            self.pos = k;
            assert(line@ == rest);
            assert(self.rest() == Seq::<u8>::empty());
        }
        match utf8_string(line) {
            Some(s) => Some(Ok(s)),
            None => Some(Err(LineError::InvalidUtf8)),
        }
    }
}

impl ReadEx for ByteReader {
    open spec fn unread(&self) -> Seq<u8> {
        self.rest()
    }

    fn read_str(&mut self, n: usize) -> (s: String)
        ensures
            final(self).data() == old(self).data(),
            final(self).position() == old(self).position() + n,
    {
        let mut buf: Vec<u8> = Vec::new();
        if n == 0 {
            assert(old(self).rest().skip(0) == old(self).rest());
            assert(old(self).rest().take(0) == Seq::<u8>::empty());
            return u8_arr_to_string(buf);
        }
        let mut i: usize = 0;
        assert(self.pos <= self.bytes.len());
        assert(self.rest().len() == self.bytes.len() - self.pos);
        while i < n
            invariant
                i <= n <= self.rest().len(),
                self.position() <= self.data().len(),
                self.pos == self.position(),
                self.bytes@ == self.data(),
                self.pos + n <= self.bytes.len(),
                buf@ == self.rest().take(i as int),
            decreases n - i,
        {
            buf.push(self.bytes[self.pos + i]);
            assert(self.rest().take(i + 1) == self.rest().take(i as int).push(self.rest()[i as int]));
            i = i + 1;
        }
        let s = u8_arr_to_string(buf);
        self.pos = self.pos + n;
        assert(self.rest() == old(self).rest().skip(n as int));
        s
    }
}

/// Law: reading `n` bytes as text and then `m` more gives the text of reading
/// `n + m` bytes at once.
pub proof fn lemma_reads_concatenate(u: Seq<u8>, n: int, m: int)
    requires
        0 <= n,
        0 <= m,
        n + m <= u.len(),
    ensures
        byte_chars(u.take(n)) + byte_chars(u.skip(n).take(m)) == byte_chars(u.take(n + m)),
{
    assert(u.take(n + m) == u.take(n) + u.skip(n).take(m));
    assert(byte_chars(u.take(n) + u.skip(n).take(m)) =~= byte_chars(u.take(n)) + byte_chars(
        u.skip(n).take(m),
    ));
}

/// Law: each byte read as text becomes the character whose code is the byte.
pub proof fn lemma_byte_char_code(b: u8)
    ensures
        byte_char(b) as u32 == b,
{
}

/// Law: a line followed by `"\r\n"` reads as itself, then the lines after it.
pub proof fn lemma_byte_lines_crlf(a: Seq<u8>, rest: Seq<u8>)
    requires
        !a.contains(10),
    ensures
        byte_lines(a + seq![13u8, 10u8] + rest) == seq![a] + byte_lines(rest),
{
    let s = a + seq![13u8, 10u8] + rest;
    let k = a.len() + 1int;
    assert forall|j: int| 0 <= j < k implies s[j] != 10 by {
        if j < a.len() {
            assert(s[j] == a[j]);
        }
    }
    lemma_index_of_byte_at(s, 10, k);
    assert(s.take(k) == a.push(13));
    assert(a.push(13).drop_last() == a);
    assert(s.skip(k + 1) == rest);
}

/// Law: a last line without `'\n'` reads as it is, a `'\r'` at its end included.
pub proof fn lemma_byte_lines_last(a: Seq<u8>)
    requires
        a.len() > 0,
        !a.contains(10),
    ensures
        byte_lines(a) == seq![a],
{
    assert forall|j: int| 0 <= j < a.len() implies a[j] != 10 by {
        if a[j] == 10 {
            assert(a.contains(10));
        }
    }
    lemma_index_of_byte_at(a, 10, a.len() as int);
    assert(byte_lines(Seq::<u8>::empty()) == Seq::<Seq<u8>>::empty());
}

} // verus!
