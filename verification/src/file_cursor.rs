use crate::data_buffer::{byte_char, lemma_byte_char_zero};
use crate::text::string_push;
use vstd::prelude::*;

verus! {

/// Where a reader of a file's bytes stands, and the last character it read
/// (`'\0'` after it found the end). Every byte reads as the character of the same code.
#[derive(Clone, Copy, Debug, PartialEq, Eq)]
pub struct ReadCursor {
    pub pos: usize,
    pub last_char: char,
}

/// A cursor at the start of a file that has read nothing yet.
pub fn start_cursor() -> (r: ReadCursor)
    ensures
        r.pos == 0,
        r.last_char == '\0',
{
    ReadCursor { pos: 0, last_char: '\0' }
}

/// The characters of the bytes `b`, one each.
pub open spec fn latin1(b: Seq<u8>) -> Seq<char> {
    b.map_values(|x: u8| byte_char(x))
}

/// A `String` of the characters of the bytes `b`, one each.
pub fn latin1_string(b: &[u8]) -> (r: String)
    ensures
        r@ == latin1(b@),
{
    let r = latin1_substring(b, 0, b.len());
    proof {
        assert(b@.subrange(0, b@.len() as int) =~= b@);
    }
    r
}

/// A `String` of the characters of the bytes `b[from..to]`, one each.
pub fn latin1_substring(b: &[u8], from: usize, to: usize) -> (r: String)
    requires
        from <= to <= b@.len(),
    ensures
        r@ == latin1(b@.subrange(from as int, to as int)),
{
    let mut s = String::new();
    let mut i: usize = from;
    while i < to
        invariant
            from <= i <= to,
            to <= b@.len(),
            s@ == latin1(b@.subrange(from as int, i as int)),
        decreases to - i,
    {
        string_push(&mut s, b[i] as char);
        proof {
            assert(latin1(b@.subrange(from as int, i + 1)) =~= latin1(
                b@.subrange(from as int, i as int),
            ).push(byte_char(b@[i as int])));
        }
        i += 1;
    }
    s
}

/// Every character of `s` has a code below 0x100.
pub open spec fn fits_latin1(s: Seq<char>) -> bool {
    forall|k: int| 0 <= k < s.len() ==> (#[trigger] s[k] as u32) < 0x100
}

// ---------------------------------------------------------------------------
// Reading up to a delimiter
// ---------------------------------------------------------------------------

/// The first position at or after `p` that holds a zero byte or one of `d`, or where the
/// bytes end (`p` itself when it is past the end).
pub open spec fn scan_end(c: Seq<u8>, p: int, d: Seq<u8>) -> int
    decreases c.len() - p,
{
    if p < 0 || p >= c.len() || c[p] == 0 || d.contains(c[p]) {
        p
    } else {
        scan_end(c, p + 1, d)
    }
}

/// What reading up to a delimiter of `d` gives: the bytes before the first zero byte or
/// delimiter (which is read too, and is the last character), or before the end (where the
/// last character is `'\0'`); and where the reader then stands.
pub open spec fn read_till(c: Seq<u8>, cur: ReadCursor, d: Seq<u8>) -> (Seq<u8>, ReadCursor) {
    let e = scan_end(c, cur.pos as int, d);
    let text = if cur.pos < c.len() {
        c.subrange(cur.pos as int, e)
    } else {
        Seq::empty()
    };
    if e < c.len() {
        (text, ReadCursor { pos: (e + 1) as usize, last_char: byte_char(c[e]) })
    } else {
        (text, ReadCursor { pos: e as usize, last_char: '\0' })
    }
}

/// Bytes left to read after the reader's position.
pub open spec fn rest(c: Seq<u8>, cur: ReadCursor) -> int {
    if cur.pos < c.len() {
        c.len() - cur.pos
    } else {
        0
    }
}

/// Where `scan_end` stops: at or after its start, at the end at the latest, and past
/// bytes that are neither zero nor delimiters.
pub proof fn lemma_scan_end(c: Seq<u8>, p: int, d: Seq<u8>)
    requires
        0 <= p,
    ensures
        p <= scan_end(c, p, d),
        p < c.len() ==> scan_end(c, p, d) <= c.len(),
        p >= c.len() ==> scan_end(c, p, d) == p,
        forall|k: int| p <= k < scan_end(c, p, d) ==> c[k] != 0 && !d.contains(c[k]),
    decreases c.len() - p,
{
    if p < c.len() && c[p] != 0 && !d.contains(c[p]) {
        lemma_scan_end(c, p + 1, d);
    }
}

/// Reading up to a delimiter never moves the reader back, and moves it on when bytes are
/// left; when it stops on a delimiter or zero byte, that byte was read.
pub proof fn lemma_read_till_progress(c: Seq<u8>, cur: ReadCursor, d: Seq<u8>)
    requires
        c.len() <= usize::MAX,
    ensures
        rest(c, read_till(c, cur, d).1) <= rest(c, cur),
        cur.pos < c.len() ==> rest(c, read_till(c, cur, d).1) < rest(c, cur),
        read_till(c, cur, d).1.pos >= cur.pos,
        read_till(c, cur, d).1.pos <= if cur.pos < c.len() {
            c.len() as int
        } else {
            cur.pos as int
        },
        read_till(c, cur, d).1.last_char != '\0' ==> rest(c, read_till(c, cur, d).1) < rest(
            c,
            cur,
        ),
        read_till(c, cur, d).0.len() > 0 ==> rest(c, read_till(c, cur, d).1) < rest(c, cur),
{
    lemma_scan_end(c, cur.pos as int, d);
}

/// Reads characters up to the first of `delimiters`, a zero byte or the end of `content`;
/// the delimiter or zero byte is read too and is left as the last character (`'\0'` at
/// the end).
pub fn read_till_delimiters(content: &[u8], cursor: &mut ReadCursor, delimiters: &[u8]) -> (r:
    Vec<u8>)
    ensures
        (r@, *final(cursor)) == read_till(content@, *old(cursor), delimiters@),
{
    let mut text: Vec<u8> = Vec::new();
    let mut p = cursor.pos;
    let ghost start = cursor.pos as int;
    proof {
        lemma_scan_end(content@, start, delimiters@);
    }
    while p < content.len()
        invariant
            start <= p,
            p <= content@.len() || p == start,
            p <= scan_end(content@, start, delimiters@),
            scan_end(content@, p as int, delimiters@) == scan_end(content@, start, delimiters@),
            start < content@.len() ==> text@ == content@.subrange(start, p as int),
            start >= content@.len() ==> text@ == Seq::<u8>::empty(),
        ensures
            p >= content@.len() || content@[p as int] == 0 || delimiters@.contains(
                content@[p as int],
            ),
            p == scan_end(content@, start, delimiters@),
            start < content@.len() ==> text@ == content@.subrange(start, p as int),
            start >= content@.len() ==> text@ == Seq::<u8>::empty(),
        decreases content@.len() - p,
    {
        let b = content[p];
        if b == 0 || contains_byte(delimiters, b) {
            break;
        }
        text.push(b);
        proof {
            lemma_scan_end(content@, p + 1, delimiters@);
            assert(content@.subrange(start, p + 1) =~= content@.subrange(start, p as int).push(b));
        }
        p += 1;
    }
    if p < content.len() {
        cursor.pos = p + 1;
        cursor.last_char = content[p] as char;
    } else {
        cursor.pos = p;
        cursor.last_char = '\0';
    }
    text
}

/// `b` is one of the bytes of `set`.
pub fn contains_byte(set: &[u8], b: u8) -> (r: bool)
    ensures
        r == set@.contains(b),
{
    let mut i: usize = 0;
    while i < set.len()
        invariant
            i <= set@.len(),
            forall|k: int| 0 <= k < i ==> set@[k] != b,
        decreases set@.len() - i,
    {
        if set[i] == b {
            return true;
        }
        i += 1;
    }
    false
}

/// A line: the characters up to the next newline (`read_till_delimiters` with `'\n'`).
pub fn read_line(content: &[u8], cursor: &mut ReadCursor) -> (r: Vec<u8>)
    ensures
        (r@, *final(cursor)) == read_till(content@, *old(cursor), seq![10u8]),
{
    let newline: [u8; 1] = [10u8];
    proof {
        assert(newline@ =~= seq![10u8]);
    }
    read_till_delimiters(content, cursor, &newline)
}

// ---------------------------------------------------------------------------
// Reading a number of bytes
// ---------------------------------------------------------------------------

/// What reading `n` characters one by one from position `p` gives: the bytes there,
/// with `'\0'` for every read past the end.
pub open spec fn bytes_read(c: Seq<u8>, p: int, n: nat) -> Seq<u8> {
    Seq::new(n, |k: int| if p + k < c.len() { c[p + k] } else { 0u8 })
}

/// Where the reader stands after reading `n` characters from `cur`, and its last character.
pub open spec fn after_reading(c: Seq<u8>, cur: ReadCursor, n: nat) -> ReadCursor {
    if n == 0 {
        cur
    } else if cur.pos + n <= c.len() {
        ReadCursor { pos: (cur.pos + n) as usize, last_char: byte_char(c[cur.pos + n - 1]) }
    } else if cur.pos < c.len() {
        ReadCursor { pos: c.len() as usize, last_char: '\0' }
    } else {
        ReadCursor { pos: cur.pos, last_char: '\0' }
    }
}

/// Reads `size` characters one by one; each read past the end gives `'\0'`.
pub fn read_bytes(content: &[u8], cursor: &mut ReadCursor, size: usize) -> (r: Vec<u8>)
    ensures
        r@ == bytes_read(content@, old(cursor).pos as int, size as nat),
        *final(cursor) == after_reading(content@, *old(cursor), size as nat),
{
    let mut out: Vec<u8> = Vec::new();
    let mut k: usize = 0;
    let ghost start = *cursor;
    let len = content.len();
    while k < size
        invariant
            len == content@.len(),
            k <= size,
            out@ == bytes_read(content@, start.pos as int, k as nat),
            *cursor == after_reading(content@, start, k as nat),
        decreases size - k,
    {
        proof {
            lemma_read_step(content@, start, k as nat);
        }
        let b = read_byte(content, cursor);
        out.push(b);
        proof {
            assert(out@ =~= bytes_read(content@, start.pos as int, (k + 1) as nat));
        }
        k += 1;
    }
    out
}

/// One more character read: from where `k` reads left the reader.
proof fn lemma_read_step(c: Seq<u8>, cur: ReadCursor, k: nat)
    requires
        c.len() <= usize::MAX,
    ensures
        ({
            let a = after_reading(c, cur, k);
            &&& (a.pos < c.len()) == (cur.pos + k < c.len())
            &&& a.pos < c.len() ==> a.pos == cur.pos + k
            &&& after_reading(c, cur, k + 1) == (if a.pos < c.len() {
                ReadCursor { pos: (a.pos + 1) as usize, last_char: byte_char(c[a.pos as int]) }
            } else {
                ReadCursor { pos: a.pos, last_char: '\0' }
            })
        }),
{
}

/// Reads one character: the byte at the reader's position (which moves on), or `'\0'`
/// at the end (where it stays). It is left as the last character.
fn read_byte(content: &[u8], cursor: &mut ReadCursor) -> (b: u8)
    ensures
        old(cursor).pos < content@.len() ==> b == content@[old(cursor).pos as int]
            && final(cursor).pos == old(cursor).pos + 1 && final(cursor).last_char == byte_char(b),
        old(cursor).pos >= content@.len() ==> b == 0 && final(cursor).pos == old(cursor).pos
            && final(cursor).last_char == '\0',
{
    if cursor.pos < content.len() {
        let b = content[cursor.pos];
        cursor.pos = cursor.pos + 1;
        cursor.last_char = b as char;
        b
    } else {
        cursor.last_char = '\0';
        0
    }
}

/// The reader is at the end: the next character is `'\0'` (the end, or a zero byte). It
/// is left as the last character; the position stays.
pub fn is_end_of_file(content: &[u8], cursor: &mut ReadCursor) -> (r: bool)
    ensures
        r == (old(cursor).pos >= content@.len() || content@[old(cursor).pos as int] == 0),
        final(cursor).pos == old(cursor).pos,
        final(cursor).last_char == (if old(cursor).pos < content@.len() {
            byte_char(content@[old(cursor).pos as int])
        } else {
            '\0'
        }),
{
    let p = cursor.pos;
    let b = read_byte(content, cursor);
    cursor.pos = p;
    proof {
        if old(cursor).pos < content@.len() {
            lemma_byte_char_zero(b);
        }
    }
    b == 0
}

} // verus!
