use crate::data_buffer::byte_char;
use crate::file_cursor::{latin1, read_till, rest, scan_end, ReadCursor};
use crate::json::{
    array_read, colon, entries_text, entry_text, find_read, get_read, has_key, int_text, json_text,
    key_read, pieces_text, quote, scalar_value, set_object_text, unique_keys, value_delims,
    value_read, values_text, JsonView,
};
use crate::text::{all_digits, decimal, digit_char, digits_value, is_space, trim};
use vstd::prelude::*;

verus! {

// ---------------------------------------------------------------------------
// Texts of values
// ---------------------------------------------------------------------------

/// Every character of `s` is ASCII (its UTF-8 bytes are its codes).
pub open spec fn is_ascii_text(s: Seq<char>) -> bool {
    forall|k: int| 0 <= k < s.len() ==> (#[trigger] s[k] as u32) < 0x80
}

/// The bytes of an ASCII text as a file holds them.
pub open spec fn ascii_bytes(s: Seq<char>) -> Seq<u8> {
    s.map_values(|c: char| c as u8)
}

/// The bytes from `p` to `q` neither are zero nor in `d`, and the byte at `q` is one of
/// `d`: `scan_end` from `p` stops at `q`.
proof fn lemma_scan_run(c: Seq<u8>, p: int, q: int, d: Seq<u8>)
    requires
        0 <= p <= q < c.len(),
        forall|k: int| p <= k < q ==> c[k] != 0 && !d.contains(c[k]),
        d.contains(c[q]),
    ensures
        scan_end(c, p, d) == q,
    decreases q - p,
{
    if p < q {
        lemma_scan_run(c, p + 1, q, d);
    }
}

/// The digits of `n` are ASCII digits, one at least.
pub proof fn lemma_decimal_digits(n: nat)
    ensures
        decimal(n).len() >= 1,
        forall|k: int| 0 <= k < decimal(n).len() ==> 48 <= #[trigger] (decimal(n)[k] as u32) <= 57,
        digits_value(ascii_bytes(decimal(n))) == n,
    decreases n,
{
    lemma_digit_char((n % 10) as nat);
    if n >= 10 {
        lemma_decimal_digits(n / 10);
        let d = decimal(n / 10);
        assert(decimal(n) == d.push(digit_char((n % 10) as nat)));
        assert(ascii_bytes(decimal(n)).drop_last() =~= ascii_bytes(d));
        assert(ascii_bytes(decimal(n)).last() == 48 + n % 10);
        let t = ascii_bytes(decimal(n));
        assert(t.len() > 0);
        assert(digits_value(t) == digits_value(t.drop_last()) * 10 + (t.last() - 48));
        assert(digits_value(t) == (n / 10) * 10 + n % 10);
    } else {
        assert(ascii_bytes(decimal(n)).drop_last() =~= Seq::<u8>::empty());
        assert(ascii_bytes(decimal(n)).last() == 48 + n % 10);
        let t = ascii_bytes(decimal(n));
        assert(digits_value(t) == digits_value(t.drop_last()) * 10 + (t.last() - 48));
    }
}

/// The character of a decimal digit has the code 48 plus the digit.
proof fn lemma_digit_char(d: nat)
    requires
        d < 10,
    ensures
        digit_char(d) as u32 == 48 + d,
        digit_char(d) as u8 == 48 + d,
{
    let c = digit_char(d);
    assert(((48 + d) as u8) as int == 48 + d);
    assert(c as int == 48 + d);
    assert(c as u32 as int == c as int);
    assert(c as u8 as int == c as int);
}

/// An ASCII character's byte reads back as the character; the byte is its code.
proof fn lemma_ascii_char(c: char)
    requires
        (c as u32) < 0x80,
    ensures
        byte_char(c as u8) == c,
        (c as u8) as int == c as u32,
{
    assert(c as int == c as u32);
    assert((c as u8) as int == c as int);
}

/// The bytes of an ASCII text read back as the text.
proof fn lemma_ascii_latin1(s: Seq<char>)
    requires
        is_ascii_text(s),
    ensures
        latin1(ascii_bytes(s)) == s,
{
    assert forall|k: int| 0 <= k < s.len() implies latin1(ascii_bytes(s))[k] == s[k] by {
        lemma_ascii_char(s[k]);
    }
    assert(latin1(ascii_bytes(s)) =~= s);
}

/// Text whose first and last bytes are no white space is its own trim.
proof fn lemma_trim_noop(t: Seq<u8>)
    requires
        t.len() > 0,
        !is_space(t[0]),
        !is_space(t.last()),
    ensures
        trim(t) == t,
{
}

/// An integer's text is ASCII and reads back as the integer.
pub proof fn law_integer_text_round_trip(n: i32)
    ensures
        is_ascii_text(int_text(n)),
        scalar_value(trim(ascii_bytes(int_text(n)))) == Some(JsonView::Integer(n)),
{
    let m: nat = if n < 0 {
        (-n) as nat
    } else {
        n as nat
    };
    lemma_decimal_digits(m);
    let d = decimal(m);
    let t = ascii_bytes(int_text(n));
    let db = ascii_bytes(d);
    assert forall|k: int| 0 <= k < d.len() implies 48 <= #[trigger] db[k] <= 57 by {
        assert(48 <= (d[k] as u32) <= 57);
        lemma_ascii_char(d[k]);
    }
    assert(all_digits(db));
    if n < 0 {
        assert(int_text(n) == seq!['-'] + d);
        assert(t.drop_first() =~= db);
        assert(('-' as u8) == 45u8);
        assert(t[0] == 45);
        assert(t.last() == db.last());
        assert(!t.contains(46)) by {
            if t.contains(46) {
                let k = choose|k: int| 0 <= k < t.len() && t[k] == 46;
                if k > 0 {
                    assert(t[k] == db[k - 1]);
                }
            }
        }
        assert(t != seq![116u8, 114u8, 117u8, 101u8]);
        assert(t != seq![102u8, 97u8, 108u8, 115u8, 101u8]);
        assert(is_ascii_text(int_text(n))) by {
            assert forall|k: int| 0 <= k < int_text(n).len() implies (#[trigger] int_text(n)[k]
                as u32) < 0x80 by {
                if k > 0 {
                    assert(int_text(n)[k] == d[k - 1]);
                    assert((d[k - 1] as u32) <= 57);
                }
            }
        }
    } else {
        assert(int_text(n) == d);
        assert(t =~= db);
        assert(!t.contains(46)) by {
            if t.contains(46) {
                let k = choose|k: int| 0 <= k < t.len() && t[k] == 46;
                assert(t[k] == db[k]);
            }
        }
        assert(t[0] == db[0]);
        assert(t != seq![116u8, 114u8, 117u8, 101u8]);
        assert(t != seq![102u8, 97u8, 108u8, 115u8, 101u8]);
        assert(is_ascii_text(int_text(n))) by {
            assert forall|k: int| 0 <= k < int_text(n).len() implies (#[trigger] int_text(n)[k]
                as u32) < 0x80 by {
                assert((d[k] as u32) <= 57);
            }
        }
    }
    lemma_trim_noop(t);
}

/// A key that the text can hold: not empty, ASCII, no double quote or zero character.
pub open spec fn is_plain_key(key: Seq<char>) -> bool {
    &&& key.len() > 0
    &&& is_ascii_text(key)
    &&& forall|k: int| 0 <= k < key.len() ==> #[trigger] key[k] != '"' && key[k] != '\0'
}

/// A value text that the text can hold whole: ASCII, without any of `,`, `]`, `[`, `}`,
/// `{` or the zero character.
pub open spec fn is_plain_data(data: Seq<char>) -> bool {
    &&& is_ascii_text(data)
    &&& forall|k: int|
        0 <= k < data.len() ==> #[trigger] data[k] != ',' && data[k] != ']' && data[k] != '['
            && data[k] != '}' && data[k] != '{' && data[k] != '\0'
}

/// The text of an integer is plain: ASCII, with no delimiter or zero character.
proof fn lemma_int_text_plain(n: i32)
    ensures
        is_plain_data(int_text(n)),
{
    law_integer_text_round_trip(n);
    let m: nat = if n < 0 {
        (-n) as nat
    } else {
        n as nat
    };
    lemma_decimal_digits(m);
    assert(is_plain_data(int_text(n))) by {
        assert forall|k: int| 0 <= k < int_text(n).len() implies #[trigger] int_text(n)[k] != ','
            && int_text(n)[k] != ']' && int_text(n)[k] != '[' && int_text(n)[k] != '}'
            && int_text(n)[k] != '{' && int_text(n)[k] != '\0' by {
            let c = int_text(n)[k];
            if n < 0 && k == 0 {
                assert(c == '-');
            } else if n < 0 {
                assert(c == decimal(m)[k - 1]);
                assert(48 <= (c as u32) <= 57);
            } else {
                assert(c == decimal(m)[k]);
                assert(48 <= (c as u32) <= 57);
            }
        }
    }
}

/// Setting an integer under a plain key of an object as `law_set_then_get` has it, then
/// getting that key, gives the integer.
pub proof fn law_set_then_get_integer(
    es: Seq<(Seq<char>, JsonView)>,
    key: Seq<char>,
    n: i32,
    cur: ReadCursor,
)
    requires
        is_plain_key(key),
        forall|i: int|
            0 <= i < es.len() ==> is_plain_key(#[trigger] es[i].0) && is_plain_data(
                json_text(es[i].1),
            ) && scalar_value(trim(ascii_bytes(json_text(es[i].1)))) is Some,
        ascii_bytes(set_object_text(es, key, int_text(n))).len() <= usize::MAX,
    ensures
        get_read(ascii_bytes(set_object_text(es, key, int_text(n))), cur, key) matches Some(r)
            && r.0 == JsonView::Integer(n),
{
    law_integer_text_round_trip(n);
    lemma_int_text_plain(n);
    law_set_then_get(es, key, int_text(n), cur);
}

/// Setting a text under a plain key of an object as `law_set_then_get` has it, then
/// getting that key, gives the text, when the text is ASCII without delimiters or the zero
/// character.
pub proof fn law_set_then_get_text(
    es: Seq<(Seq<char>, JsonView)>,
    key: Seq<char>,
    s: Seq<char>,
    cur: ReadCursor,
)
    requires
        is_plain_key(key),
        is_plain_data(s),
        forall|i: int|
            0 <= i < es.len() ==> is_plain_key(#[trigger] es[i].0) && is_plain_data(
                json_text(es[i].1),
            ) && scalar_value(trim(ascii_bytes(json_text(es[i].1)))) is Some,
        ascii_bytes(set_object_text(es, key, json_text(JsonView::Text(s)))).len() <= usize::MAX,
    ensures
        get_read(ascii_bytes(set_object_text(es, key, json_text(JsonView::Text(s)))), cur, key) matches Some(
            r,
        ) && r.0 == JsonView::Text(s),
{
    let data = json_text(JsonView::Text(s));
    assert(data == seq!['"'] + s + seq!['"']);
    lemma_ascii_char('"');
    assert(is_plain_data(data)) by {
        assert forall|k: int| 0 <= k < data.len() implies #[trigger] data[k] != ',' && data[k]
            != ']' && data[k] != '[' && data[k] != '}' && data[k] != '{' && data[k] != '\0' by {
            if 0 < k < data.len() - 1 {
                assert(data[k] == s[k - 1]);
            }
        }
        assert forall|k: int| 0 <= k < data.len() implies (#[trigger] data[k] as u32) < 0x80 by {
            if 0 < k < data.len() - 1 {
                assert(data[k] == s[k - 1]);
            }
        }
    }
    law_set_then_get(es, key, data, cur);
    let t = ascii_bytes(data);
    assert(t[0] == 34u8);
    assert(t.last() == 34u8);
    lemma_trim_noop(t);
    lemma_ascii_latin1(s);
    assert(t.subrange(1, t.len() - 1) =~= ascii_bytes(s));
}

// ---------------------------------------------------------------------------
// Law: a value set under a key of an object is what reading that key gives
// ---------------------------------------------------------------------------

/// The text of an object whose entries are the key and value-text pairs `l`:
/// the first `n` entries joined by commas.
pub open spec fn list_text(l: Seq<(Seq<char>, Seq<char>)>, n: int) -> Seq<char>
    decreases n,
{
    if n <= 0 || n > l.len() {
        Seq::empty()
    } else if n == 1 {
        entry_text(l[0].0, l[0].1)
    } else {
        list_text(l, n - 1) + seq![','] + entry_text(l[n - 1].0, l[n - 1].1)
    }
}

/// The key and value-text pairs that setting `data` under `key` writes for the object
/// `es`: every entry, those with key `key` with `data`, and `key` with `data` at the end
/// where no key is `key`.
pub open spec fn written_entries(es: Seq<(Seq<char>, JsonView)>, key: Seq<char>, data: Seq<char>) -> Seq<
    (Seq<char>, Seq<char>),
> {
    let kept = Seq::new(
        es.len(),
        |i: int|
            (
                es[i].0,
                if es[i].0 == key {
                    data
                } else {
                    json_text(es[i].1)
                },
            ),
    );
    if has_key(es, key) {
        kept
    } else {
        kept.push((key, data))
    }
}

/// The first position from `i` on whose key is `key`, or the length.
pub open spec fn first_key_from(l: Seq<(Seq<char>, Seq<char>)>, key: Seq<char>, i: int) -> int
    decreases l.len() - i,
{
    if i < 0 || i >= l.len() {
        l.len() as int
    } else if l[i].0 == key {
        i
    } else {
        first_key_from(l, key, i + 1)
    }
}

/// Where `first_key_from` lands.
proof fn lemma_first_key(l: Seq<(Seq<char>, Seq<char>)>, key: Seq<char>, i: int)
    requires
        0 <= i <= l.len(),
    ensures
        i <= first_key_from(l, key, i) <= l.len(),
        forall|j: int| i <= j < first_key_from(l, key, i) ==> l[j].0 != key,
        first_key_from(l, key, i) < l.len() ==> l[first_key_from(l, key, i)].0 == key,
        (exists|j: int| i <= j < l.len() && l[j].0 == key) ==> first_key_from(l, key, i) < l.len(),
    decreases l.len() - i,
{
    if i < l.len() && l[i].0 != key {
        lemma_first_key(l, key, i + 1);
    }
}

/// The text of the first `n` entries is the start of the text of more of them.
proof fn lemma_list_text_prefix(l: Seq<(Seq<char>, Seq<char>)>, n: int, m: int)
    requires
        1 <= n <= m <= l.len(),
    ensures
        list_text(l, m).len() >= list_text(l, n).len(),
        list_text(l, m).subrange(0, list_text(l, n).len() as int) == list_text(l, n),
        n < m ==> list_text(l, m)[list_text(l, n).len() as int] == ',',
    decreases m - n,
{
    if n < m {
        lemma_list_text_prefix(l, n, m - 1);
        let a = list_text(l, m - 1);
        let b = list_text(l, m);
        assert(b == a + seq![','] + entry_text(l[m - 1].0, l[m - 1].1));
        assert(b.subrange(0, a.len() as int) =~= a);
        assert(b.subrange(0, list_text(l, n).len() as int) =~= a.subrange(
            0,
            list_text(l, n).len() as int,
        ));
        if n < m - 1 {
            assert(b[list_text(l, n).len() as int] == a[list_text(l, n).len() as int]);
        }
    }
}

/// The text of the first `n` entries of `l` with one more entry added at the end.
proof fn lemma_list_text_push(l: Seq<(Seq<char>, Seq<char>)>, x: (Seq<char>, Seq<char>), n: int)
    requires
        0 <= n <= l.len(),
    ensures
        list_text(l.push(x), n) == list_text(l, n),
    decreases n,
{
    if n > 1 {
        lemma_list_text_push(l, x, n - 1);
    }
}

/// The object text that setting a key writes, as the text of its written entries.
proof fn lemma_set_object_as_list(es: Seq<(Seq<char>, JsonView)>, key: Seq<char>, data: Seq<char>)
    ensures
        set_object_text(es, key, data) == seq!['{'] + list_text(
            written_entries(es, key, data),
            written_entries(es, key, data).len() as int,
        ) + seq!['}'],
{
    let w = written_entries(es, key, data);
    let n = es.len() as int;
    lemma_pieces_as_list(es, key, data, n);
    if !has_key(es, key) {
        let kept = w.drop_last();
        assert(w == kept.push((key, data)));
        lemma_list_text_push(kept, (key, data), n);
        if n > 0 {
            assert(list_text(w, n + 1) == list_text(w, n) + seq![','] + entry_text(key, data));
        }
        assert(set_object_text(es, key, data) =~= seq!['{'] + list_text(w, n + 1) + seq!['}']);
    } else {
        assert(set_object_text(es, key, data) =~= seq!['{'] + list_text(w, n) + seq!['}']);
    }
}

/// The pieces that setting a key writes for the first `n` entries are their written
/// entries' text.
proof fn lemma_pieces_as_list(es: Seq<(Seq<char>, JsonView)>, key: Seq<char>, data: Seq<char>, n: int)
    requires
        0 <= n <= es.len(),
    ensures
        pieces_text(es, key, data, n) == list_text(written_entries(es, key, data), n),
    decreases n,
{
    let w = written_entries(es, key, data);
    if n > 0 {
        assert(w[n - 1].0 == es[n - 1].0);
        assert(w[0].0 == es[0].0);
    }
    if n > 1 {
        lemma_pieces_as_list(es, key, data, n - 1);
    }
}

/// Where entry `i` of the object text of `l` starts (its opening double quote).
pub open spec fn entry_start(l: Seq<(Seq<char>, Seq<char>)>, i: int) -> int {
    if i == 0 {
        1
    } else {
        2 + list_text(l, i).len() as int
    }
}

/// Where the reader stands before it reads entry `i` of the object text of `l`.
pub open spec fn entry_cursor(l: Seq<(Seq<char>, Seq<char>)>, i: int, last: char) -> ReadCursor {
    if i == 0 {
        ReadCursor { pos: 0, last_char: last }
    } else {
        ReadCursor { pos: entry_start(l, i) as usize, last_char: ',' }
    }
}

/// Where the reader stands after the key of entry `f` of the object text of `l`.
pub open spec fn key_cursor(l: Seq<(Seq<char>, Seq<char>)>, f: int) -> ReadCursor {
    ReadCursor { pos: (entry_start(l, f) + 3 + l[f].0.len()) as usize, last_char: ':' }
}

/// The object text of `l`, as bytes.
pub open spec fn list_object_bytes(l: Seq<(Seq<char>, Seq<char>)>) -> Seq<u8> {
    ascii_bytes(seq!['{'] + list_text(l, l.len() as int) + seq!['}'])
}

/// Every key of `l` can be held by the text, and every value text too.
pub open spec fn plain_list(l: Seq<(Seq<char>, Seq<char>)>) -> bool {
    forall|i: int| 0 <= i < l.len() ==> is_plain_key(#[trigger] l[i].0) && is_plain_data(l[i].1)
}

/// Entry `i` of the object text of `l` lies at `entry_start(l, i)`, followed by a comma,
/// or by the closing brace after the last entry.
proof fn lemma_entry_layout(l: Seq<(Seq<char>, Seq<char>)>, i: int)
    requires
        0 <= i < l.len(),
    ensures
        ({
            let t = seq!['{'] + list_text(l, l.len() as int) + seq!['}'];
            let e = entry_text(l[i].0, l[i].1);
            let s = entry_start(l, i);
            &&& s + e.len() < t.len()
            &&& t.subrange(s, s + e.len()) == e
            &&& t[s + e.len()] == (if i + 1 < l.len() {
                ','
            } else {
                '}'
            })
            &&& i + 1 < l.len() ==> entry_start(l, i + 1) == s + e.len() + 1
            &&& i == 0 ==> t[0] == '{'
        }),
{
    let m = l.len() as int;
    let t = seq!['{'] + list_text(l, m) + seq!['}'];
    let e = entry_text(l[i].0, l[i].1);
    let s = entry_start(l, i);
    lemma_list_text_prefix(l, i + 1, m);
    let a = list_text(l, i + 1);
    if i == 0 {
        assert(a == e);
    } else {
        assert(a == list_text(l, i) + seq![','] + e);
    }
    assert(a.subrange(a.len() - e.len(), a.len() as int) =~= e);
    assert(s == 1 + a.len() - e.len());
    assert(t.subrange(1, 1 + list_text(l, m).len() as int) =~= list_text(l, m));
    assert forall|k: int| 0 <= k < e.len() implies t.subrange(s, s + e.len())[k] == e[k] by {
        assert(t[s + k] == list_text(l, m)[s - 1 + k]);
        assert(list_text(l, m)[s - 1 + k] == a[s - 1 + k]);
        assert(a[s - 1 + k] == e[k]);
    }
    assert(t.subrange(s, s + e.len()) =~= e);
    if i + 1 < m {
        lemma_list_text_prefix(l, i + 2, m);
        assert(list_text(l, i + 2).len() == a.len() + 1 + entry_text(l[i + 1].0, l[i + 1].1).len());
        assert(a.len() < list_text(l, m).len());
        assert(t[s + e.len()] == list_text(l, m)[a.len() as int]);
    } else {
        assert(s + e.len() == 1 + list_text(l, m).len());
    }
}

/// The bytes of entry `i` of the object text of `l`, and the byte after it.
proof fn lemma_entry_bytes(l: Seq<(Seq<char>, Seq<char>)>, i: int)
    requires
        0 <= i < l.len(),
        plain_list(l),
    ensures
        ({
            let c = list_object_bytes(l);
            let k = l[i].0;
            let d = l[i].1;
            let s = entry_start(l, i);
            &&& s + 3 + k.len() + d.len() < c.len()
            &&& c[s] == 34u8
            &&& forall|j: int| 0 <= j < k.len() ==> c[s + 1 + j] == ascii_bytes(k)[j]
            &&& c[s + 1 + k.len()] == 34u8
            &&& c[s + 2 + k.len()] == 58u8
            &&& forall|j: int| 0 <= j < d.len() ==> c[s + 3 + k.len() + j] == ascii_bytes(d)[j]
            &&& c[s + 3 + k.len() + d.len()] == (if i + 1 < l.len() {
                44u8
            } else {
                125u8
            })
            &&& i == 0 ==> c[0] == 123u8
        }),
{
    let m = l.len() as int;
    let t = seq!['{'] + list_text(l, m) + seq!['}'];
    let c = list_object_bytes(l);
    let k = l[i].0;
    let d = l[i].1;
    let e = entry_text(k, d);
    let s = entry_start(l, i);
    lemma_entry_layout(l, i);
    assert(e == seq!['"'] + k + seq!['"', ':'] + d);
    assert(forall|j: int| 0 <= j < e.len() ==> t[s + j] == e[j]) by {
        assert forall|j: int| 0 <= j < e.len() implies t[s + j] == e[j] by {
            assert(t.subrange(s, s + e.len())[j] == e[j]);
        }
    }
    lemma_ascii_char('"');
    lemma_ascii_char(':');
    lemma_ascii_char(',');
    lemma_ascii_char('}');
    lemma_ascii_char('{');
    assert(t.subrange(s, s + e.len())[0] == e[0]);
    assert(t[s] == '"');
    assert forall|j: int| 0 <= j < k.len() implies c[s + 1 + j] == ascii_bytes(k)[j] by {
        assert(t[s + 1 + j] == e[1 + j]);
        assert(e[1 + j] == k[j]);
    }
    assert(t[s + 1 + k.len()] == e[1 + k.len() as int]);
    assert(t[s + 2 + k.len()] == e[2 + k.len() as int]);
    assert forall|j: int| 0 <= j < d.len() implies c[s + 3 + k.len() + j] == ascii_bytes(d)[j] by {
        assert(t[s + 3 + k.len() + j] == e[3 + k.len() + j]);
        assert(e[3 + k.len() + j] == d[j]);
    }
}

/// Reading the key of entry `i` of the object text of `l`, from where the reader stands
/// before it, and then the text of its value.
proof fn lemma_entry_read(l: Seq<(Seq<char>, Seq<char>)>, i: int, last: char)
    requires
        0 <= i < l.len(),
        plain_list(l),
        list_object_bytes(l).len() <= usize::MAX,
    ensures
        ({
            let c = list_object_bytes(l);
            let k = l[i].0;
            let d = l[i].1;
            let s = entry_start(l, i);
            let kc = key_cursor(l, i);
            &&& key_read(c, entry_cursor(l, i, last)) == (ascii_bytes(k), kc)
            &&& read_till(c, kc, value_delims()) == (
                ascii_bytes(d),
                ReadCursor {
                    pos: (s + 4 + k.len() + d.len()) as usize,
                    last_char: if i + 1 < l.len() {
                        ','
                    } else {
                        '}'
                    },
                },
            )
        }),
{
    let c = list_object_bytes(l);
    let k = l[i].0;
    let d = l[i].1;
    let kl = k.len() as int;
    let dl = d.len() as int;
    let s = entry_start(l, i);
    lemma_entry_bytes(l, i);
    assert(is_plain_key(k) && is_plain_data(d));
    assert(quote()[0] == 34u8);
    if i == 0 {
        assert(!quote().contains(c[0])) by {
            if quote().contains(c[0]) {
                let j = choose|j: int| 0 <= j < quote().len() && quote()[j] == c[0];
                assert(j == 0);
            }
        }
        lemma_scan_run(c, 0, s, quote());
    } else {
        lemma_scan_run(c, s, s, quote());
    }
    let c1 = read_till(c, entry_cursor(l, i, last), quote()).1;
    assert(c1.pos == s + 1);
    assert forall|j: int| s + 1 <= j < s + 1 + kl implies c[j] != 0 && !quote().contains(c[j]) by {
        assert(c[j] == ascii_bytes(k)[j - s - 1]);
        lemma_ascii_char(k[j - s - 1]);
        lemma_ascii_char('"');
        if quote().contains(c[j]) {
            let q = choose|q: int| 0 <= q < quote().len() && quote()[q] == c[j];
            assert(q == 0);
        }
    }
    lemma_scan_run(c, s + 1, s + 1 + kl, quote());
    let r2 = read_till(c, c1, quote());
    assert(r2.0 =~= ascii_bytes(k)) by {
        assert forall|j: int| 0 <= j < kl implies r2.0[j] == ascii_bytes(k)[j] by {
            assert(r2.0[j] == c[s + 1 + j]);
        }
    }
    assert(colon()[0] == 58u8);
    lemma_scan_run(c, s + 2 + kl, s + 2 + kl, colon());
    lemma_ascii_char(':');
    assert forall|j: int| s + 3 + kl <= j < s + 3 + kl + dl implies c[j] != 0
        && !value_delims().contains(c[j]) by {
        let x = j - s - 3 - kl;
        assert(c[j] == ascii_bytes(d)[x]);
        lemma_ascii_char(d[x]);
        lemma_ascii_char(',');
        lemma_ascii_char(']');
        lemma_ascii_char('[');
        lemma_ascii_char('}');
        lemma_ascii_char('{');
        if value_delims().contains(c[j]) {
            let q = choose|q: int| 0 <= q < value_delims().len() && value_delims()[q] == c[j];
            assert(q == 0 || q == 1 || q == 2 || q == 3 || q == 4);
        }
    }
    assert(value_delims()[0] == 44u8);
    assert(value_delims()[3] == 125u8);
    lemma_scan_run(c, s + 3 + kl, s + 3 + kl + dl, value_delims());
    let kc = ReadCursor { pos: (s + 3 + kl) as usize, last_char: ':' };
    let r4 = read_till(c, kc, value_delims());
    assert(r4.0 =~= ascii_bytes(d)) by {
        assert forall|j: int| 0 <= j < dl implies r4.0[j] == ascii_bytes(d)[j] by {
            assert(r4.0[j] == c[s + 3 + kl + j]);
        }
    }
    lemma_ascii_char(',');
    lemma_ascii_char('}');
}

/// Looking for `key` from entry `i` on, where entry `f` is the first with that key and
/// every value before it reads whole, reads on to entry `f` and then reads its value.
proof fn lemma_find_in_list(l: Seq<(Seq<char>, Seq<char>)>, key: Seq<char>, i: int, f: int, last: char)
    requires
        0 <= i <= f < l.len(),
        plain_list(l),
        list_object_bytes(l).len() <= usize::MAX,
        l[f].0 == key,
        forall|j: int| i <= j < f ==> #[trigger] l[j].0 != key,
        forall|j: int| i <= j < f ==> #[trigger] scalar_value(trim(ascii_bytes(l[j].1))) is Some,
    ensures
        find_read(list_object_bytes(l), entry_cursor(l, i, last), key) == value_read(
            list_object_bytes(l),
            key_cursor(l, f),
        ),
    decreases f - i,
{
    let c = list_object_bytes(l);
    lemma_entry_read(l, i, last);
    assert(is_plain_key(l[i].0));
    lemma_ascii_latin1(l[i].0);
    let kc = key_cursor(l, i);
    if i < f {
        lemma_entry_layout(l, i);
        let next = entry_cursor(l, i + 1, last);
        let r = read_till(c, kc, value_delims());
        assert(r.1 == next);
        assert(scalar_value(trim(ascii_bytes(l[i].1))) is Some);
        assert(rest(c, next) < rest(c, entry_cursor(l, i, last)));
        assert(l[i].0 != key);
        lemma_find_in_list(l, key, i + 1, f, last);
    }
}

/// Setting `data` under a plain key of an object whose keys are plain and whose values'
/// texts are plain and read whole, then getting that key, reads the value of `data`:
/// the first entry with that key carries `data` (it is added at the end where no key is
/// the key), every entry before it is passed over, and reading its value stops at the next
/// comma or at the closing brace.
pub proof fn law_set_then_get(
    es: Seq<(Seq<char>, JsonView)>,
    key: Seq<char>,
    data: Seq<char>,
    cur: ReadCursor,
)
    requires
        is_plain_key(key),
        is_plain_data(data),
        forall|i: int|
            0 <= i < es.len() ==> is_plain_key(#[trigger] es[i].0) && is_plain_data(
                json_text(es[i].1),
            ) && scalar_value(trim(ascii_bytes(json_text(es[i].1)))) is Some,
        ascii_bytes(set_object_text(es, key, data)).len() <= usize::MAX,
    ensures
        get_read(ascii_bytes(set_object_text(es, key, data)), cur, key) is Some <==> scalar_value(
            trim(ascii_bytes(data)),
        ) is Some,
        get_read(ascii_bytes(set_object_text(es, key, data)), cur, key) matches Some(r)
            ==> scalar_value(trim(ascii_bytes(data))) == Some(r.0),
{
    let w = written_entries(es, key, data);
    let n = es.len() as int;
    lemma_set_object_as_list(es, key, data);
    let c = ascii_bytes(set_object_text(es, key, data));
    assert(c == list_object_bytes(w));
    assert(plain_list(w)) by {
        assert forall|i: int| 0 <= i < w.len() implies is_plain_key(#[trigger] w[i].0)
            && is_plain_data(w[i].1) by {
            if i < n {
                assert(w[i].0 == es[i].0);
            }
        }
    }
    lemma_first_key(w, key, 0);
    let f = first_key_from(w, key, 0);
    if has_key(es, key) {
        let j = choose|j: int| 0 <= j < es.len() && (#[trigger] es[j]).0 == key;
        assert(w[j].0 == key);
    } else {
        assert(w[n].0 == key);
    }
    assert(f < w.len());
    assert(w[f].1 == data);
    assert forall|j: int| 0 <= j < f implies #[trigger] scalar_value(trim(ascii_bytes(w[j].1))) is Some by {
        assert(w[j].0 != key);
        assert(j < n);
        assert(w[j].1 == json_text(es[j].1));
    }
    assert(get_read(c, cur, key) == find_read(c, entry_cursor(w, 0, cur.last_char), key));
    lemma_find_in_list(w, key, 0, f, cur.last_char);
    lemma_entry_read(w, f, cur.last_char);
    lemma_entry_layout(w, f);
}

/// Looking for `key` from entry `i` on, where no entry from there on has that key and every
/// value from there on reads whole, reads to the end of the text and gives null.
proof fn lemma_find_absent(l: Seq<(Seq<char>, Seq<char>)>, key: Seq<char>, i: int, last: char)
    requires
        0 <= i < l.len(),
        plain_list(l),
        list_object_bytes(l).len() <= usize::MAX,
        forall|j: int| i <= j < l.len() ==> #[trigger] l[j].0 != key,
        forall|j: int| i <= j < l.len() ==> #[trigger] scalar_value(trim(ascii_bytes(l[j].1))) is Some,
    ensures
        find_read(list_object_bytes(l), entry_cursor(l, i, last), key) matches Some(r) && r.0
            == JsonView::Null(0),
    decreases l.len() - i,
{
    let c = list_object_bytes(l);
    lemma_entry_read(l, i, last);
    lemma_entry_layout(l, i);
    assert(is_plain_key(l[i].0));
    lemma_ascii_latin1(l[i].0);
    assert(l[i].0 != key);
    assert(scalar_value(trim(ascii_bytes(l[i].1))) is Some);
    let next = read_till(c, key_cursor(l, i), value_delims()).1;
    assert(next.last_char == ',' || next.last_char == '}');
    assert(value_read(c, key_cursor(l, i)) matches Some(vr) && vr.1 == next);
    assert(rest(c, next) < rest(c, entry_cursor(l, i, last)));
    assert(find_read(c, entry_cursor(l, i, last), key) == find_read(c, next, key));
    if i + 1 < l.len() {
        assert(next == entry_cursor(l, i + 1, last));
        lemma_find_absent(l, key, i + 1, last);
    } else {
        let m = l.len() as int;
        let e = entry_text(l[i].0, l[i].1);
        assert(e.len() == 3 + l[i].0.len() + l[i].1.len());
        if i == 0 {
            assert(list_text(l, m) == e);
        } else {
            assert(list_text(l, m) == list_text(l, i) + seq![','] + e);
        }
        assert(next.pos == c.len());
        assert(key_read(c, next).0.len() == 0);
    }
}

/// Setting `data` under a plain key of an object as `law_set_then_get` has it, where `data`
/// reads whole, then getting a key that is neither that key nor a key of the object gives
/// null: every entry is passed over and the reading ends at the end of the text.
pub proof fn law_get_unset_key(
    es: Seq<(Seq<char>, JsonView)>,
    key: Seq<char>,
    data: Seq<char>,
    other: Seq<char>,
    cur: ReadCursor,
)
    requires
        is_plain_key(key),
        is_plain_data(data),
        scalar_value(trim(ascii_bytes(data))) is Some,
        other.len() > 0,
        other != key,
        !has_key(es, other),
        forall|i: int|
            0 <= i < es.len() ==> is_plain_key(#[trigger] es[i].0) && is_plain_data(
                json_text(es[i].1),
            ) && scalar_value(trim(ascii_bytes(json_text(es[i].1)))) is Some,
        ascii_bytes(set_object_text(es, key, data)).len() <= usize::MAX,
    ensures
        get_read(ascii_bytes(set_object_text(es, key, data)), cur, other) matches Some(r) && r.0
            == JsonView::Null(0),
{
    let w = written_entries(es, key, data);
    let n = es.len() as int;
    lemma_set_object_as_list(es, key, data);
    let c = ascii_bytes(set_object_text(es, key, data));
    assert(c == list_object_bytes(w));
    assert(plain_list(w)) by {
        assert forall|i: int| 0 <= i < w.len() implies is_plain_key(#[trigger] w[i].0)
            && is_plain_data(w[i].1) by {
            if i < n {
                assert(w[i].0 == es[i].0);
            }
        }
    }
    assert forall|j: int| 0 <= j < w.len() implies #[trigger] w[j].0 != other by {
        if j < n {
            assert(w[j].0 == es[j].0);
            if es[j].0 == other {
                assert(has_key(es, other));
            }
        }
    }
    assert forall|j: int| 0 <= j < w.len() implies #[trigger] scalar_value(
        trim(ascii_bytes(w[j].1)),
    ) is Some by {
        if j < n {
            assert(w[j].0 == es[j].0);
        }
    }
    if has_key(es, key) {
        let j = choose|j: int| 0 <= j < es.len() && (#[trigger] es[j]).0 == key;
        assert(w.len() > j);
    } else {
        assert(w.len() == n + 1);
    }
    assert(get_read(c, cur, other) == find_read(c, entry_cursor(w, 0, cur.last_char), other));
    lemma_find_absent(w, other, 0, cur.last_char);
}

// ---------------------------------------------------------------------------
// Law: the text of an object reads back as its values
// ---------------------------------------------------------------------------

/// The key and value-text pairs of the entries `es`.
pub open spec fn object_list(es: Seq<(Seq<char>, JsonView)>) -> Seq<(Seq<char>, Seq<char>)> {
    Seq::new(es.len(), |j: int| (es[j].0, json_text(es[j].1)))
}

/// The text of the first `n` entries of an object is that of their key and value-text pairs.
proof fn lemma_entries_as_list(es: Seq<(Seq<char>, JsonView)>, n: int)
    requires
        0 <= n <= es.len(),
    ensures
        entries_text(es, n) == list_text(object_list(es), n),
    decreases n,
{
    if n > 1 {
        lemma_entries_as_list(es, n - 1);
    }
}

/// The text of an object whose keys are plain and distinct, and whose values' texts are
/// plain and read whole, reads back entry by entry: getting the key of any entry gives
/// the value that entry's text reads as. So the entries are written in braces, each as
/// `"key":value`, with a comma between any two of them.
pub proof fn law_object_text_reads_back(es: Seq<(Seq<char>, JsonView)>, i: int, cur: ReadCursor)
    requires
        0 <= i < es.len(),
        unique_keys(es),
        forall|j: int|
            0 <= j < es.len() ==> is_plain_key(#[trigger] es[j].0) && is_plain_data(
                json_text(es[j].1),
            ) && scalar_value(trim(ascii_bytes(json_text(es[j].1)))) is Some,
        ascii_bytes(json_text(JsonView::Object(es))).len() <= usize::MAX,
    ensures
        get_read(ascii_bytes(json_text(JsonView::Object(es))), cur, es[i].0) matches Some(r)
            && Some(r.0) == scalar_value(trim(ascii_bytes(json_text(es[i].1)))),
{
    let l = object_list(es);
    let n = es.len() as int;
    lemma_entries_as_list(es, n);
    let c = ascii_bytes(json_text(JsonView::Object(es)));
    assert(c == list_object_bytes(l));
    assert(plain_list(l)) by {
        assert forall|j: int| 0 <= j < l.len() implies is_plain_key(#[trigger] l[j].0)
            && is_plain_data(l[j].1) by {
            assert(l[j].0 == es[j].0);
        }
    }
    let key = es[i].0;
    assert(is_plain_key(key));
    assert(l[i].0 == key);
    assert forall|j: int| 0 <= j < i implies #[trigger] l[j].0 != key by {
        assert(es[j].0 != es[i].0);
    }
    assert forall|j: int| 0 <= j < i implies #[trigger] scalar_value(trim(ascii_bytes(l[j].1))) is Some by {
        assert(l[j].1 == json_text(es[j].1));
    }
    assert(get_read(c, cur, key) == find_read(c, entry_cursor(l, 0, cur.last_char), key));
    lemma_find_in_list(l, key, 0, i, cur.last_char);
    lemma_entry_read(l, i, cur.last_char);
    lemma_entry_layout(l, i);
    assert(l[i].1 == json_text(es[i].1));
}

/// Writing an object of integers under plain distinct keys and reading a key back gives
/// that key's integer.
pub proof fn law_object_of_integers_reads_back(
    es: Seq<(Seq<char>, JsonView)>,
    i: int,
    cur: ReadCursor,
)
    requires
        0 <= i < es.len(),
        unique_keys(es),
        forall|j: int| 0 <= j < es.len() ==> is_plain_key(#[trigger] es[j].0) && es[j].1 is Integer,
        ascii_bytes(json_text(JsonView::Object(es))).len() <= usize::MAX,
    ensures
        get_read(ascii_bytes(json_text(JsonView::Object(es))), cur, es[i].0) matches Some(r)
            && r.0 == es[i].1,
{
    assert forall|j: int| 0 <= j < es.len() implies is_plain_key(#[trigger] es[j].0)
        && is_plain_data(json_text(es[j].1)) && scalar_value(trim(ascii_bytes(json_text(es[j].1))))
        is Some by {
        let v = es[j].1;
        let x = v->Integer_0;
        law_integer_text_round_trip(x);
        lemma_int_text_plain(x);
    }
    law_object_text_reads_back(es, i, cur);
    let x = es[i].1->Integer_0;
    law_integer_text_round_trip(x);
}

// ---------------------------------------------------------------------------
// Law: reading an array keeps every item that is not null, in order
// ---------------------------------------------------------------------------

/// The items of `s` that are not null, in order.
pub open spec fn non_null(s: Seq<JsonView>) -> Seq<JsonView> {
    s.filter(|v: JsonView| !(v is Null))
}

/// The values that the texts of `items` read as, one each.
pub open spec fn read_values(items: Seq<JsonView>) -> Seq<JsonView> {
    Seq::new(items.len(), |j: int| scalar_value(trim(ascii_bytes(json_text(items[j])))).unwrap())
}

/// The text of an array holding `items`.
pub open spec fn array_chars(items: Seq<JsonView>) -> Seq<char> {
    seq!['['] + values_text(items, items.len() as int) + seq![']']
}

/// Where item `j` of the array text of `items` starts.
pub open spec fn item_start(items: Seq<JsonView>, j: int) -> int {
    if j == 0 {
        1
    } else {
        2 + values_text(items, j).len() as int
    }
}

/// Where the reader stands before it reads item `j` of the array text of `items`.
pub open spec fn item_cursor(items: Seq<JsonView>, j: int) -> ReadCursor {
    ReadCursor {
        pos: item_start(items, j) as usize,
        last_char: if j == 0 {
            '['
        } else {
            ','
        },
    }
}

/// Every item's text is plain and reads whole.
pub open spec fn plain_items(items: Seq<JsonView>) -> bool {
    forall|j: int|
        0 <= j < items.len() ==> is_plain_data(#[trigger] json_text(items[j])) && scalar_value(
            trim(ascii_bytes(json_text(items[j]))),
        ) is Some
}

/// The text of the first `n` items is the start of the text of more of them.
proof fn lemma_values_text_prefix(items: Seq<JsonView>, n: int, m: int)
    requires
        1 <= n <= m <= items.len(),
    ensures
        values_text(items, m).len() >= values_text(items, n).len(),
        values_text(items, m).subrange(0, values_text(items, n).len() as int) == values_text(
            items,
            n,
        ),
        n < m ==> values_text(items, m)[values_text(items, n).len() as int] == ',',
    decreases m - n,
{
    if n < m {
        lemma_values_text_prefix(items, n, m - 1);
        let a = values_text(items, m - 1);
        let b = values_text(items, m);
        assert(b == a + seq![','] + json_text(items[m - 1]));
        assert(b.subrange(0, a.len() as int) =~= a);
        assert(b.subrange(0, values_text(items, n).len() as int) =~= a.subrange(
            0,
            values_text(items, n).len() as int,
        ));
        if n < m - 1 {
            assert(b[values_text(items, n).len() as int] == a[values_text(items, n).len() as int]);
        }
    }
}

/// Item `j` of the array text of `items` lies at `item_start(items, j)`, followed by a
/// comma, or by the closing bracket after the last item.
proof fn lemma_item_layout(items: Seq<JsonView>, j: int)
    requires
        0 <= j < items.len(),
    ensures
        ({
            let t = array_chars(items);
            let e = json_text(items[j]);
            let s = item_start(items, j);
            &&& s + e.len() < t.len()
            &&& t.subrange(s, s + e.len()) == e
            &&& t[s + e.len()] == (if j + 1 < items.len() {
                ','
            } else {
                ']'
            })
            &&& j + 1 < items.len() ==> item_start(items, j + 1) == s + e.len() + 1
            &&& j + 1 == items.len() ==> s + e.len() + 1 == t.len()
            &&& t[0] == '['
        }),
{
    let m = items.len() as int;
    let t = array_chars(items);
    let e = json_text(items[j]);
    let s = item_start(items, j);
    lemma_values_text_prefix(items, j + 1, m);
    let a = values_text(items, j + 1);
    if j == 0 {
        assert(a == e);
    } else {
        assert(a == values_text(items, j) + seq![','] + e);
    }
    assert(a.subrange(a.len() - e.len(), a.len() as int) =~= e);
    assert(s == 1 + a.len() - e.len());
    assert forall|k: int| 0 <= k < e.len() implies t.subrange(s, s + e.len())[k] == e[k] by {
        assert(t[s + k] == values_text(items, m)[s - 1 + k]);
        assert(values_text(items, m)[s - 1 + k] == a[s - 1 + k]);
        assert(a[s - 1 + k] == e[k]);
    }
    assert(t.subrange(s, s + e.len()) =~= e);
    if j + 1 < m {
        lemma_values_text_prefix(items, j + 2, m);
        assert(values_text(items, j + 2).len() == a.len() + 1 + json_text(items[j + 1]).len());
        assert(a.len() < values_text(items, m).len());
        assert(t[s + e.len()] == values_text(items, m)[a.len() as int]);
    } else {
        assert(s + e.len() == 1 + values_text(items, m).len());
    }
}

/// Reading up to a value delimiter from the start of item `j` gives the bytes of its text,
/// and leaves the reader after the comma or closing bracket that follows it.
proof fn lemma_item_read(items: Seq<JsonView>, j: int)
    requires
        0 <= j < items.len(),
        plain_items(items),
        ascii_bytes(array_chars(items)).len() <= usize::MAX,
    ensures
        ({
            let c = ascii_bytes(array_chars(items));
            let e = json_text(items[j]);
            let s = item_start(items, j);
            read_till(c, item_cursor(items, j), value_delims()) == (
                ascii_bytes(e),
                ReadCursor {
                    pos: (s + e.len() + 1) as usize,
                    last_char: if j + 1 < items.len() {
                        ','
                    } else {
                        ']'
                    },
                },
            )
        }),
{
    let t = array_chars(items);
    let c = ascii_bytes(t);
    let e = json_text(items[j]);
    let s = item_start(items, j);
    let el = e.len() as int;
    lemma_item_layout(items, j);
    assert(is_plain_data(e));
    assert forall|k: int| s <= k < s + el implies c[k] != 0 && !value_delims().contains(c[k]) by {
        let x = k - s;
        assert(t[k] == t.subrange(s, s + el)[x]);
        assert(t[k] == e[x]);
        lemma_ascii_char(e[x]);
        lemma_ascii_char(',');
        lemma_ascii_char(']');
        lemma_ascii_char('[');
        lemma_ascii_char('}');
        lemma_ascii_char('{');
        if value_delims().contains(c[k]) {
            let q = choose|q: int| 0 <= q < value_delims().len() && value_delims()[q] == c[k];
            assert(q == 0 || q == 1 || q == 2 || q == 3 || q == 4);
        }
    }
    lemma_ascii_char(',');
    lemma_ascii_char(']');
    assert(value_delims()[0] == 44u8);
    assert(value_delims()[1] == 93u8);
    lemma_scan_run(c, s, s + el, value_delims());
    let r = read_till(c, item_cursor(items, j), value_delims());
    assert(r.0 =~= ascii_bytes(e)) by {
        assert forall|k: int| 0 <= k < el implies r.0[k] == ascii_bytes(e)[k] by {
            assert(r.0[k] == c[s + k]);
            assert(t[s + k] == t.subrange(s, s + el)[k]);
        }
    }
}

/// Reading the rest of the array text of `items` from item `j` on, with the items before
/// it already read, gives the items that are not null.
proof fn lemma_array_read_from(items: Seq<JsonView>, j: int)
    requires
        0 <= j < items.len(),
        plain_items(items),
        ascii_bytes(array_chars(items)).len() <= usize::MAX,
    ensures
        array_read(
            ascii_bytes(array_chars(items)),
            item_cursor(items, j),
            non_null(read_values(items).take(j)),
        ) matches Some(r) && r.0 == JsonView::Array(non_null(read_values(items))),
    decreases items.len() - j,
{
    let c = ascii_bytes(array_chars(items));
    let rv = read_values(items);
    let e = json_text(items[j]);
    lemma_item_read(items, j);
    lemma_item_layout(items, j);
    assert(scalar_value(trim(ascii_bytes(e))) is Some);
    let next = read_till(c, item_cursor(items, j), value_delims()).1;
    let v = rv[j];
    assert(value_read(c, item_cursor(items, j)) == Some((v, next)));
    assert(rv.take(j + 1).drop_last() =~= rv.take(j));
    let acc = non_null(rv.take(j));
    let acc2 = if v is Null {
        acc
    } else {
        acc.push(v)
    };
    let tk = rv.take(j + 1);
    reveal(Seq::filter);
    assert(tk.len() > 0);
    assert(tk.last() == v);
    assert(non_null(tk) == (if !(tk.last() is Null) {
        non_null(tk.drop_last()).push(tk.last())
    } else {
        non_null(tk.drop_last())
    }));
    assert(non_null(rv.take(j + 1)) == acc2);
    assert(array_read(c, item_cursor(items, j), acc) == array_read(c, next, acc2));
    if j + 1 < items.len() {
        assert(next == item_cursor(items, j + 1));
        lemma_array_read_from(items, j + 1);
    } else {
        assert(rv.take(j + 1) =~= rv);
    }
}

/// The text of an array whose items' texts are plain and read whole reads back as the
/// values those texts read as, every one that is not null, in order: the items are written
/// in brackets with a comma between any two of them, and reading leaves out exactly the
/// nulls.
pub proof fn law_array_text_reads_back(items: Seq<JsonView>, last: char)
    requires
        items.len() > 0,
        plain_items(items),
        ascii_bytes(json_text(JsonView::Array(items))).len() <= usize::MAX,
    ensures
        value_read(
            ascii_bytes(json_text(JsonView::Array(items))),
            ReadCursor { pos: 0, last_char: last },
        ) matches Some(r) && r.0 == JsonView::Array(non_null(read_values(items))),
{
    let t = array_chars(items);
    let c = ascii_bytes(t);
    assert(json_text(JsonView::Array(items)) == t);
    lemma_item_layout(items, 0);
    lemma_ascii_char('[');
    assert(value_delims()[2] == 91u8);
    lemma_scan_run(c, 0, 0, value_delims());
    let cur = ReadCursor { pos: 0, last_char: last };
    let c1 = read_till(c, cur, value_delims()).1;
    assert(c1 == item_cursor(items, 0));
    assert(read_values(items).take(0) =~= Seq::<JsonView>::empty());
    reveal(Seq::filter);
    assert(non_null(read_values(items).take(0)) == Seq::<JsonView>::empty());
    lemma_array_read_from(items, 0);
}

/// An array of integers is read back from its text as the same integers, zeros included.
pub proof fn law_array_of_integers_reads_back(items: Seq<JsonView>, last: char)
    requires
        items.len() > 0,
        forall|j: int| 0 <= j < items.len() ==> (#[trigger] items[j]) is Integer,
        ascii_bytes(json_text(JsonView::Array(items))).len() <= usize::MAX,
    ensures
        value_read(
            ascii_bytes(json_text(JsonView::Array(items))),
            ReadCursor { pos: 0, last_char: last },
        ) matches Some(r) && r.0 == JsonView::Array(items),
{
    assert forall|j: int| 0 <= j < items.len() implies is_plain_data(
        #[trigger] json_text(items[j]),
    ) && scalar_value(trim(ascii_bytes(json_text(items[j])))) is Some by {
        let x = items[j]->Integer_0;
        law_integer_text_round_trip(x);
        lemma_int_text_plain(x);
    }
    law_array_text_reads_back(items, last);
    let rv = read_values(items);
    assert forall|j: int| 0 <= j < items.len() implies rv[j] == items[j] by {
        let x = items[j]->Integer_0;
        law_integer_text_round_trip(x);
    }
    assert(rv =~= items);
    lemma_non_null_keeps_all(items);
}

/// A sequence without nulls is kept whole.
proof fn lemma_non_null_keeps_all(s: Seq<JsonView>)
    requires
        forall|j: int| 0 <= j < s.len() ==> !((#[trigger] s[j]) is Null),
    ensures
        non_null(s) == s,
    decreases s.len(),
{
    if s.len() > 0 {
        lemma_non_null_keeps_all(s.drop_last());
        reveal(Seq::filter);
        assert(!(s.last() is Null));
        assert(non_null(s) == non_null(s.drop_last()).push(s.last()));
        assert(s.drop_last().push(s.last()) =~= s);
    }
}

} // verus!
