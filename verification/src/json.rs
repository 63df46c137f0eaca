use crate::file_cursor::{
    contains_byte, latin1, latin1_string, latin1_substring, lemma_read_till_progress,
    read_till, read_till_delimiters, rest, ReadCursor,
};
use crate::text::{decimal, i32_of_text, parse_i32, push_decimal, string_push, trim, trim_bytes};
use vstd::prelude::*;
use vstd::string::StringExecFns;

verus! {

// ---------------------------------------------------------------------------
// Values
// ---------------------------------------------------------------------------

/// A value of the JSON text. A float is held as the text it was read from: any trimmed
/// value text holding a `.` (such as `1.50` or `1.2.3`), which app/ turns into a number.
/// An object is held as its entries; `json_wf` says that each key is there once, and every
/// object read from a text has it.
#[derive(Debug, PartialEq)]
pub enum JsonValue {
    Null(u8),
    Integer(i32),
    Float(String),
    Text(String),
    Bool(bool),
    Object(Vec<(String, JsonValue)>),
    Array(Vec<JsonValue>),
}

/// A `JsonValue` as a mathematical value.
pub enum JsonView {
    Null(u8),
    Integer(i32),
    Float(Seq<char>),
    Text(Seq<char>),
    Bool(bool),
    Object(Seq<(Seq<char>, JsonView)>),
    Array(Seq<JsonView>),
}

/// The mathematical value of `v`.
pub open spec fn json_view(v: JsonValue) -> JsonView
    decreases v,
{
    match v {
        JsonValue::Null(n) => JsonView::Null(n),
        JsonValue::Integer(n) => JsonView::Integer(n),
        JsonValue::Float(t) => JsonView::Float(t@),
        JsonValue::Text(s) => JsonView::Text(s@),
        JsonValue::Bool(b) => JsonView::Bool(b),
        JsonValue::Object(items) => JsonView::Object(
            Seq::new(
                items@.len(),
                |i: int|
                    if 0 <= i < items@.len() {
                        (items@[i].0@, json_view(items@[i].1))
                    } else {
                        (Seq::empty(), JsonView::Null(0))
                    },
            ),
        ),
        JsonValue::Array(items) => JsonView::Array(
            Seq::new(
                items@.len(),
                |i: int|
                    if 0 <= i < items@.len() {
                        json_view(items@[i])
                    } else {
                        JsonView::Null(0)
                    },
            ),
        ),
    }
}

/// The mathematical entries of an object's entries.
pub open spec fn entries_view(items: Seq<(String, JsonValue)>) -> Seq<(Seq<char>, JsonView)> {
    Seq::new(items.len(), |i: int| (items[i].0@, json_view(items[i].1)))
}

/// The mathematical values of an array's items.
pub open spec fn values_view(items: Seq<JsonValue>) -> Seq<JsonView> {
    Seq::new(items.len(), |i: int| json_view(items[i]))
}

/// An object's value is made of its entries' values.
pub proof fn lemma_object_view(items: Vec<(String, JsonValue)>)
    ensures
        json_view(JsonValue::Object(items)) == JsonView::Object(entries_view(items@)),
{
    if let JsonView::Object(s) = json_view(JsonValue::Object(items)) {
        assert(s =~= entries_view(items@));
    }
}

/// An array's value is made of its items' values.
pub proof fn lemma_array_view(items: Vec<JsonValue>)
    ensures
        json_view(JsonValue::Array(items)) == JsonView::Array(values_view(items@)),
{
    if let JsonView::Array(s) = json_view(JsonValue::Array(items)) {
        assert(s =~= values_view(items@));
    }
}

// ---------------------------------------------------------------------------
// Writing values as text
// ---------------------------------------------------------------------------

/// The characters of an `i32` in decimal, with `-` before a negative one.
pub open spec fn int_text(n: i32) -> Seq<char> {
    if n < 0 {
        seq!['-'] + decimal((-n) as nat)
    } else {
        decimal(n as nat)
    }
}

/// The text of `v`: nothing for null; the number; the float's text; a text in double
/// quotes as it is; `true` or `false`; an object's entries as `"key":value` joined by
/// commas in braces; an array's items joined by commas in brackets.
pub open spec fn json_text(v: JsonView) -> Seq<char>
    decreases v, 0int,
{
    match v {
        JsonView::Null(_) => Seq::empty(),
        JsonView::Integer(n) => int_text(n),
        JsonView::Float(t) => t,
        JsonView::Text(s) => seq!['"'] + s + seq!['"'],
        JsonView::Bool(b) => if b {
            seq!['t', 'r', 'u', 'e']
        } else {
            seq!['f', 'a', 'l', 's', 'e']
        },
        JsonView::Object(items) => seq!['{'] + entries_text(items, items.len() as int) + seq!['}'],
        JsonView::Array(items) => seq!['['] + values_text(items, items.len() as int) + seq![']'],
    }
}

/// The text of one entry: the key in double quotes, a colon, the value's text.
pub open spec fn entry_text(key: Seq<char>, value_text: Seq<char>) -> Seq<char> {
    seq!['"'] + key + seq!['"', ':'] + value_text
}

/// The first `n` entries of `items` as text, joined by commas.
pub open spec fn entries_text(items: Seq<(Seq<char>, JsonView)>, n: int) -> Seq<char>
    decreases items, n,
{
    if n <= 0 || n > items.len() {
        Seq::empty()
    } else {
        let last = entry_text(items[n - 1].0, json_text(items[n - 1].1));
        if n == 1 {
            last
        } else {
            entries_text(items, n - 1) + seq![','] + last
        }
    }
}

/// The first `n` items of `items` as text, joined by commas.
pub open spec fn values_text(items: Seq<JsonView>, n: int) -> Seq<char>
    decreases items, n,
{
    if n <= 0 || n > items.len() {
        Seq::empty()
    } else {
        let last = json_text(items[n - 1]);
        if n == 1 {
            last
        } else {
            values_text(items, n - 1) + seq![','] + last
        }
    }
}

/// The text of `v` (see `json_text`).
pub fn value_text(v: &JsonValue) -> (r: String)
    ensures
        r@ == json_text(json_view(*v)),
    decreases v,
{
    match v {
        JsonValue::Null(_) => String::new(),
        JsonValue::Integer(n) => {
            let mut s = String::new();
            if *n < 0 {
                string_push(&mut s, '-');
                push_decimal(&mut s, (-(*n as i64)) as u64);
            } else {
                push_decimal(&mut s, *n as u64);
            }
            proof {
                assert(s@ =~= int_text(*n));
            }
            s
        },
        JsonValue::Float(t) => t.clone(),
        JsonValue::Text(t) => {
            let mut s = String::new();
            string_push(&mut s, '"');
            s.append(t.as_str());
            string_push(&mut s, '"');
            proof {
                assert(s@ =~= seq!['"'] + t@ + seq!['"']);
            }
            s
        },
        JsonValue::Bool(b) => {
            let mut s = String::new();
            if *b {
                string_push(&mut s, 't');
                string_push(&mut s, 'r');
                string_push(&mut s, 'u');
                string_push(&mut s, 'e');
            } else {
                string_push(&mut s, 'f');
                string_push(&mut s, 'a');
                string_push(&mut s, 'l');
                string_push(&mut s, 's');
                string_push(&mut s, 'e');
            }
            proof {
                if *b {
                    assert(s@ =~= seq!['t', 'r', 'u', 'e']);
                } else {
                    assert(s@ =~= seq!['f', 'a', 'l', 's', 'e']);
                }
            }
            s
        },
        JsonValue::Object(items) => {
            let ghost vs = entries_view(items@);
            proof {
                lemma_object_view(*items);
            }
            let mut s = String::new();
            string_push(&mut s, '{');
            let mut i: usize = 0;
            while i < items.len()
                invariant
                    i <= items@.len(),
                    vs == entries_view(items@),
                    *v == JsonValue::Object(*items),
                    s@ == seq!['{'] + entries_text(vs, i as int),
                decreases items@.len() - i,
            {
                if i > 0 {
                    string_push(&mut s, ',');
                }
                string_push(&mut s, '"');
                s.append(items[i].0.as_str());
                string_push(&mut s, '"');
                string_push(&mut s, ':');
                proof {
                    assert(decreases_to!(*v => (*v)->Object_0));
                    assert(decreases_to!(*items => items@));
                    assert(decreases_to!(items@ => items@[i as int]));
                    assert(decreases_to!(items@[i as int] => items@[i as int].1));
                }
                let t = value_text(&items[i].1);
                s.append(t.as_str());
                proof {
                    let e = entry_text(vs[i as int].0, json_text(vs[i as int].1));
                    if i == 0 {
                        assert(s@ =~= seq!['{'] + e);
                    } else {
                        assert(s@ =~= seq!['{'] + entries_text(vs, i as int) + seq![','] + e);
                    }
                }
                i += 1;
            }
            string_push(&mut s, '}');
            s
        },
        JsonValue::Array(items) => {
            let ghost vs = values_view(items@);
            proof {
                lemma_array_view(*items);
            }
            let mut s = String::new();
            string_push(&mut s, '[');
            let mut i: usize = 0;
            while i < items.len()
                invariant
                    i <= items@.len(),
                    vs == values_view(items@),
                    *v == JsonValue::Array(*items),
                    s@ == seq!['['] + values_text(vs, i as int),
                decreases items@.len() - i,
            {
                if i > 0 {
                    string_push(&mut s, ',');
                }
                proof {
                    assert(decreases_to!(*v => (*v)->Array_0));
                    assert(decreases_to!(*items => items@));
                    assert(decreases_to!(items@ => items@[i as int]));
                }
                let t = value_text(&items[i]);
                s.append(t.as_str());
                proof {
                    let e = json_text(vs[i as int]);
                    if i == 0 {
                        assert(s@ =~= seq!['['] + e);
                    } else {
                        assert(s@ =~= seq!['['] + values_text(vs, i as int) + seq![','] + e);
                    }
                }
                i += 1;
            }
            string_push(&mut s, ']');
            s
        },
    }
}

// ---------------------------------------------------------------------------
// Reading values from a text
// ---------------------------------------------------------------------------

/// The bytes a value ends at: `,`, `]`, `[`, `}`, `{`.
pub open spec fn value_delims() -> Seq<u8> {
    seq![44u8, 93u8, 91u8, 125u8, 123u8]
}

/// The double quote.
pub open spec fn quote() -> Seq<u8> {
    seq![34u8]
}

/// The colon.
pub open spec fn colon() -> Seq<u8> {
    seq![58u8]
}

/// The position of the entry with key `k` in `acc` (the last one), or -1.
pub open spec fn key_position(acc: Seq<(Seq<char>, JsonView)>, k: Seq<char>) -> int
    decreases acc.len(),
{
    if acc.len() == 0 {
        -1
    } else if acc.last().0 == k {
        acc.len() - 1
    } else {
        key_position(acc.drop_last(), k)
    }
}

/// `acc` with the value of key `k` set to `v`: replaced where `k` is a key, added at the
/// end where it is not.
pub open spec fn obj_insert(acc: Seq<(Seq<char>, JsonView)>, k: Seq<char>, v: JsonView) -> Seq<
    (Seq<char>, JsonView),
> {
    let j = key_position(acc, k);
    if j >= 0 {
        acc.update(j, (k, v))
    } else {
        acc.push((k, v))
    }
}

/// No two entries of `es` have the same key.
pub open spec fn unique_keys(es: Seq<(Seq<char>, JsonView)>) -> bool {
    forall|i: int, j: int| 0 <= i < j < es.len() ==> (#[trigger] es[i]).0 != (#[trigger] es[j]).0
}

/// Every object in `v`, at any depth, holds each key once.
pub open spec fn json_wf(v: JsonView) -> bool
    decreases v,
{
    match v {
        JsonView::Object(es) => unique_keys(es) && forall|i: int|
            0 <= i < es.len() ==> json_wf(#[trigger] es[i].1),
        JsonView::Array(items) => forall|i: int|
            0 <= i < items.len() ==> json_wf(#[trigger] items[i]),
        _ => true,
    }
}

/// Where `key_position` lands: at an entry with the key, or at -1 when no entry has it.
pub proof fn lemma_key_position(acc: Seq<(Seq<char>, JsonView)>, k: Seq<char>)
    ensures
        -1 <= key_position(acc, k) < acc.len(),
        key_position(acc, k) >= 0 ==> acc[key_position(acc, k)].0 == k,
        key_position(acc, k) == -1 ==> forall|i: int| 0 <= i < acc.len() ==> (#[trigger] acc[i]).0
            != k,
    decreases acc.len(),
{
    if acc.len() > 0 && acc.last().0 != k {
        lemma_key_position(acc.drop_last(), k);
        assert forall|i: int| 0 <= i < acc.len() - 1 implies acc.drop_last()[i] == #[trigger] acc[i] by {}
    }
}

/// Setting a key's value keeps each key once, and keeps every value well formed when the
/// new one is.
pub proof fn lemma_obj_insert_wf(acc: Seq<(Seq<char>, JsonView)>, k: Seq<char>, v: JsonView)
    requires
        unique_keys(acc),
        forall|i: int| 0 <= i < acc.len() ==> json_wf(#[trigger] acc[i].1),
        json_wf(v),
    ensures
        unique_keys(obj_insert(acc, k, v)),
        forall|i: int| 0 <= i < obj_insert(acc, k, v).len() ==> json_wf(
            #[trigger] obj_insert(acc, k, v)[i].1,
        ),
{
    lemma_key_position(acc, k);
    let r = obj_insert(acc, k, v);
    let j = key_position(acc, k);
    assert forall|a: int, b: int| 0 <= a < b < r.len() implies (#[trigger] r[a]).0 != (
    #[trigger] r[b]).0 by {
        if j >= 0 {
            if a != j && b != j {
                assert(acc[a].0 != acc[b].0);
            } else if a == j {
                assert(acc[a].0 != acc[b].0);
            } else {
                assert(acc[a].0 != acc[b].0);
            }
        } else if b < acc.len() {
            assert(acc[a].0 != acc[b].0);
        } else {
            assert(acc[a].0 != k);
        }
    }
    assert forall|i: int| 0 <= i < r.len() implies json_wf(#[trigger] r[i].1) by {
        if i != j && i < acc.len() {
            assert(r[i] == acc[i]);
        }
    }
}

/// The value of a text that is no object or array (already trimmed): a text in double
/// quotes (`None` when it is a lone quote or ends in a character of code 0x80 or more,
/// where the text cannot be cut), `true`, `false`, a float when it holds a `.`, an
/// `i32`, or else null.
pub open spec fn scalar_value(t: Seq<u8>) -> Option<JsonView> {
    if t.len() > 0 && t[0] == 34 {
        if t.len() >= 2 && t[t.len() - 1] < 0x80 {
            Some(JsonView::Text(latin1(t.subrange(1, t.len() - 1))))
        } else {
            None
        }
    } else if t == seq![116u8, 114u8, 117u8, 101u8] {
        Some(JsonView::Bool(true))
    } else if t == seq![102u8, 97u8, 108u8, 115u8, 101u8] {
        Some(JsonView::Bool(false))
    } else if t.contains(46) {
        Some(JsonView::Float(latin1(t)))
    } else {
        match i32_of_text(t) {
            Some(n) => Some(JsonView::Integer(n)),
            None => Some(JsonView::Null(0)),
        }
    }
}

/// Reading a key: up to a double quote, the key up to the next one, then up to a colon.
pub open spec fn key_read(c: Seq<u8>, cur: ReadCursor) -> (Seq<u8>, ReadCursor) {
    let c1 = read_till(c, cur, quote()).1;
    let (k, c2) = read_till(c, c1, quote());
    (k, read_till(c, c2, colon()).1)
}

/// Reading a value: the text up to a value delimiter; an object after `{`, an array after
/// `[`, else the trimmed text's value. `None` where the reading never ends normally.
pub open spec fn value_read(c: Seq<u8>, cur: ReadCursor) -> Option<(JsonView, ReadCursor)>
    decreases rest(c, cur), 0int,
{
    let (t, c1) = read_till(c, cur, value_delims());
    if c1.last_char == '{' && rest(c, c1) < rest(c, cur) {
        object_read(c, c1, Seq::empty())
    } else if c1.last_char == '[' && rest(c, c1) < rest(c, cur) {
        array_read(c, c1, Seq::empty())
    } else {
        match scalar_value(trim(t)) {
            Some(v) => Some((v, c1)),
            None => None,
        }
    }
}

/// Reading a key and then a value.
pub open spec fn data_read(c: Seq<u8>, cur: ReadCursor) -> Option<(Seq<u8>, JsonView, ReadCursor)>
    decreases rest(c, cur), 1int,
{
    let (k, c3) = key_read(c, cur);
    if rest(c, c3) <= rest(c, cur) {
        match value_read(c, c3) {
            Some((v, c4)) => Some((k, v, c4)),
            None => None,
        }
    } else {
        None
    }
}

/// Reading the rest of an object whose entries so far are `acc`: entries until the last
/// character is `}` or a key is empty.
pub open spec fn object_read(c: Seq<u8>, cur: ReadCursor, acc: Seq<(Seq<char>, JsonView)>) -> Option<
    (JsonView, ReadCursor),
>
    decreases rest(c, cur), 2int,
{
    if cur.last_char == '}' {
        Some((JsonView::Object(acc), cur))
    } else {
        match data_read(c, cur) {
            None => None,
            Some((k, v, c4)) => if k.len() == 0 {
                Some((JsonView::Object(acc), c4))
            } else if rest(c, c4) < rest(c, cur) {
                object_read(c, c4, obj_insert(acc, latin1(k), v))
            } else {
                None
            },
        }
    }
}

/// Reading the rest of an array whose items so far are `acc`: values (nulls left out)
/// until the last character is `]`. `None` where a value is read at the end of the text,
/// where the reading goes on for ever.
pub open spec fn array_read(c: Seq<u8>, cur: ReadCursor, acc: Seq<JsonView>) -> Option<
    (JsonView, ReadCursor),
>
    decreases rest(c, cur), 2int,
{
    if cur.last_char == ']' {
        Some((JsonView::Array(acc), cur))
    } else {
        match value_read(c, cur) {
            None => None,
            Some((v, c4)) => if rest(c, c4) < rest(c, cur) {
                array_read(
                    c,
                    c4,
                    if v is Null {
                        acc
                    } else {
                        acc.push(v)
                    },
                )
            } else {
                None
            },
        }
    }
}

/// Reading key and value after key and value until the key is `key` (its value is the
/// result) or empty (null is).
pub open spec fn find_read(c: Seq<u8>, cur: ReadCursor, key: Seq<char>) -> Option<
    (JsonView, ReadCursor),
>
    decreases rest(c, cur),
{
    let (k, c3) = key_read(c, cur);
    if k.len() == 0 {
        Some((JsonView::Null(0), c3))
    } else if latin1(k) == key {
        value_read(c, c3)
    } else {
        match value_read(c, c3) {
            None => None,
            Some((_, c4)) => if rest(c, c4) < rest(c, cur) {
                find_read(c, c4, key)
            } else {
                None
            },
        }
    }
}

/// What getting the value of `key` gives: for an empty key the next value from where the
/// reader stands, else the value of `key` read from the start of the text.
pub open spec fn get_read(c: Seq<u8>, cur: ReadCursor, key: Seq<char>) -> Option<
    (JsonView, ReadCursor),
> {
    if key.len() == 0 {
        value_read(c, cur)
    } else {
        find_read(c, ReadCursor { pos: 0, last_char: cur.last_char }, key)
    }
}

/// Reading the entries after `acc` until a key is empty, keeping every entry read.
pub open spec fn entries_read(c: Seq<u8>, cur: ReadCursor, acc: Seq<(Seq<char>, JsonView)>) -> Option<
    (Seq<(Seq<char>, JsonView)>, ReadCursor),
>
    decreases rest(c, cur),
{
    match data_read(c, cur) {
        None => None,
        Some((k, v, c4)) => if k.len() == 0 {
            Some((acc, c4))
        } else if rest(c, c4) < rest(c, cur) {
            entries_read(c, c4, acc.push((latin1(k), v)))
        } else {
            None
        },
    }
}

/// Reads a key: up to a double quote, the key up to the next one, then up to a colon.
pub fn next_key(content: &[u8], cursor: &mut ReadCursor) -> (r: Vec<u8>)
    ensures
        (r@, *final(cursor)) == key_read(content@, *old(cursor)),
        rest(content@, *final(cursor)) <= rest(content@, *old(cursor)),
        r@.len() > 0 ==> rest(content@, *final(cursor)) < rest(content@, *old(cursor)),
{
    let q: [u8; 1] = [34u8];
    let colon_byte: [u8; 1] = [58u8];
    proof {
        assert(q@ =~= quote());
        assert(colon_byte@ =~= colon());
    }
    let ghost c0 = *cursor;
    let _ = read_till_delimiters(content, cursor, &q);
    let ghost c1 = *cursor;
    let key = read_till_delimiters(content, cursor, &q);
    let ghost c2 = *cursor;
    let _ = read_till_delimiters(content, cursor, &colon_byte);
    proof {
        let n = content.len();
        assert(content@.len() == n);
        lemma_read_till_progress(content@, c0, quote());
        lemma_read_till_progress(content@, c1, quote());
        lemma_read_till_progress(content@, c2, colon());
    }
    key
}

/// The value of a trimmed text that is no object or array (see `scalar_value`).
fn scalar(t: &Vec<u8>) -> (r: Option<JsonValue>)
    ensures
        r is Some <==> scalar_value(t@) is Some,
        r matches Some(v) ==> scalar_value(t@) == Some(json_view(v)),
        r matches Some(v) ==> json_wf(json_view(v)),
{
    let n = t.len();
    let true_text: [u8; 4] = [116u8, 114u8, 117u8, 101u8];
    let false_text: [u8; 5] = [102u8, 97u8, 108u8, 115u8, 101u8];
    proof {
        assert(true_text@ =~= seq![116u8, 114u8, 117u8, 101u8]);
        assert(false_text@ =~= seq![102u8, 97u8, 108u8, 115u8, 101u8]);
    }
    if n > 0 && t[0] == 34 {
        if n >= 2 && t[n - 1] < 0x80 {
            Some(JsonValue::Text(latin1_substring(t.as_slice(), 1, n - 1)))
        } else {
            None
        }
    } else if bytes_equal(t.as_slice(), &true_text) {
        Some(JsonValue::Bool(true))
    } else if bytes_equal(t.as_slice(), &false_text) {
        Some(JsonValue::Bool(false))
    } else if contains_byte(t.as_slice(), 46) {
        Some(JsonValue::Float(latin1_string(t.as_slice())))
    } else {
        match parse_i32(t.as_slice()) {
            Some(v) => Some(JsonValue::Integer(v)),
            None => Some(JsonValue::Null(0)),
        }
    }
}

/// `a` and `b` hold the same bytes.
fn bytes_equal(a: &[u8], b: &[u8]) -> (r: bool)
    ensures
        r == (a@ == b@),
{
    if a.len() != b.len() {
        return false;
    }
    let mut i: usize = 0;
    while i < a.len()
        invariant
            a@.len() == b@.len(),
            i <= a@.len(),
            forall|k: int| 0 <= k < i ==> a@[k] == b@[k],
        decreases a@.len() - i,
    {
        if a[i] != b[i] {
            return false;
        }
        i += 1;
    }
    proof {
        assert(a@ =~= b@);
    }
    true
}

/// Reads a value (see `value_read`); `None` where the reading would not end normally.
pub fn next_value(content: &[u8], cursor: &mut ReadCursor) -> (r: Option<JsonValue>)
    ensures
        r is Some <==> value_read(content@, *old(cursor)) is Some,
        r matches Some(v) ==> value_read(content@, *old(cursor)) == Some(
            (json_view(v), *final(cursor)),
        ),
        r is Some ==> rest(content@, *final(cursor)) <= rest(content@, *old(cursor)),
        r matches Some(v) ==> json_wf(json_view(v)),
    decreases rest(content@, *old(cursor)), 0int,
{
    let delims: [u8; 5] = [44u8, 93u8, 91u8, 125u8, 123u8];
    proof {
        assert(delims@ =~= value_delims());
    }
    let ghost c0 = *cursor;
    let text = read_till_delimiters(content, cursor, &delims);
    proof {
        let n = content.len();
        assert(content@.len() == n);
        lemma_read_till_progress(content@, c0, value_delims());
    }
    if cursor.last_char == '{' {
        parse_object(content, cursor)
    } else if cursor.last_char == '[' {
        parse_array(content, cursor)
    } else {
        let t = trim_bytes(text.as_slice());
        scalar(&t)
    }
}

/// Reads a key and then a value.
fn next_item(content: &[u8], cursor: &mut ReadCursor) -> (r: Option<(Vec<u8>, JsonValue)>)
    ensures
        r is Some <==> data_read(content@, *old(cursor)) is Some,
        r matches Some(e) ==> data_read(content@, *old(cursor)) == Some(
            (e.0@, json_view(e.1), *final(cursor)),
        ),
        r is Some ==> rest(content@, *final(cursor)) <= rest(content@, *old(cursor)),
        r matches Some(e) ==> (e.0@.len() > 0 ==> rest(content@, *final(cursor)) < rest(
            content@,
            *old(cursor),
        )),
        r matches Some(e) ==> json_wf(json_view(e.1)),
    decreases rest(content@, *old(cursor)), 1int,
{
    let k = next_key(content, cursor);
    match next_value(content, cursor) {
        Some(v) => Some((k, v)),
        None => None,
    }
}

/// Reads a key and then a value (see `data_read`); the key as characters.
pub fn next_data(content: &[u8], cursor: &mut ReadCursor) -> (r: Option<(String, JsonValue)>)
    ensures
        r is Some <==> data_read(content@, *old(cursor)) is Some,
        r matches Some(e) ==> data_read(content@, *old(cursor)) matches Some(d) && e.0@ == latin1(
            d.0,
        ) && json_view(e.1) == d.1 && *final(cursor) == d.2,
        r matches Some(e) ==> json_wf(json_view(e.1)),
{
    match next_item(content, cursor) {
        Some((k, v)) => Some((latin1_string(k.as_slice()), v)),
        None => None,
    }
}

/// Reads the rest of an object after its `{` (see `object_read`).
fn parse_object(content: &[u8], cursor: &mut ReadCursor) -> (r: Option<JsonValue>)
    ensures
        r is Some <==> object_read(content@, *old(cursor), Seq::empty()) is Some,
        r matches Some(v) ==> object_read(content@, *old(cursor), Seq::empty()) == Some(
            (json_view(v), *final(cursor)),
        ),
        r is Some ==> rest(content@, *final(cursor)) <= rest(content@, *old(cursor)),
        r matches Some(v) ==> json_wf(json_view(v)),
    decreases rest(content@, *old(cursor)), 2int,
{
    let ghost c0 = *cursor;
    let mut entries: Vec<(String, JsonValue)> = Vec::new();
    proof {
        assert(entries_view(entries@) =~= Seq::empty());
    }
    loop
        invariant
            rest(content@, *cursor) <= rest(content@, c0),
            c0 == *old(cursor),
            object_read(content@, *cursor, entries_view(entries@)) == object_read(
                content@,
                c0,
                Seq::empty(),
            ),
            unique_keys(entries_view(entries@)),
            forall|i: int|
                0 <= i < entries_view(entries@).len() ==> json_wf(
                    #[trigger] entries_view(entries@)[i].1,
                ),
        decreases rest(content@, *cursor),
    {
        if cursor.last_char == '}' {
            proof {
                lemma_object_view(entries);
            }
            return Some(JsonValue::Object(entries));
        }
        match next_item(content, cursor) {
            None => {
                return None;
            },
            Some((k, v)) => {
                if k.len() == 0 {
                    proof {
                        lemma_object_view(entries);
                    }
                    return Some(JsonValue::Object(entries));
                }
                let key = latin1_string(k.as_slice());
                proof {
                    lemma_obj_insert_wf(entries_view(entries@), key@, json_view(v));
                }
                insert_entry(&mut entries, key, v);
            },
        }
    }
}

/// Reads the rest of an array after its `[` (see `array_read`).
fn parse_array(content: &[u8], cursor: &mut ReadCursor) -> (r: Option<JsonValue>)
    ensures
        r is Some <==> array_read(content@, *old(cursor), Seq::empty()) is Some,
        r matches Some(v) ==> array_read(content@, *old(cursor), Seq::empty()) == Some(
            (json_view(v), *final(cursor)),
        ),
        r is Some ==> rest(content@, *final(cursor)) <= rest(content@, *old(cursor)),
        r matches Some(v) ==> json_wf(json_view(v)),
    decreases rest(content@, *old(cursor)), 2int,
{
    let ghost c0 = *cursor;
    let mut items: Vec<JsonValue> = Vec::new();
    proof {
        assert(values_view(items@) =~= Seq::empty());
    }
    loop
        invariant
            rest(content@, *cursor) <= rest(content@, c0),
            c0 == *old(cursor),
            array_read(content@, *cursor, values_view(items@)) == array_read(
                content@,
                c0,
                Seq::empty(),
            ),
            forall|i: int|
                0 <= i < values_view(items@).len() ==> json_wf(#[trigger] values_view(items@)[i]),
        decreases rest(content@, *cursor),
    {
        if cursor.last_char == ']' {
            proof {
                lemma_array_view(items);
            }
            return Some(JsonValue::Array(items));
        }
        let before_rest = remaining(content, cursor);
        match next_value(content, cursor) {
            None => {
                return None;
            },
            Some(v) => {
                let after_rest = remaining(content, cursor);
                if after_rest == before_rest {
                    return None;
                }
                match v {
                    JsonValue::Null(_) => {},
                    _ => {
                        let ghost old_items = items@;
                        items.push(v);
                        proof {
                            assert(values_view(items@) =~= values_view(old_items).push(
                                json_view(v),
                            ));
                        }
                    },
                }
            },
        }
    }
}

/// The bytes left to read after the reader's position (see `rest`).
fn remaining(content: &[u8], cursor: &ReadCursor) -> (r: usize)
    ensures
        r == rest(content@, *cursor),
{
    if cursor.pos < content.len() {
        content.len() - cursor.pos
    } else {
        0
    }
}

/// Sets the value of `k` in `entries` to `v` (see `obj_insert`).
fn insert_entry(entries: &mut Vec<(String, JsonValue)>, k: String, v: JsonValue)
    ensures
        entries_view(final(entries)@) == obj_insert(entries_view(old(entries)@), k@, json_view(v)),
{
    let ghost acc = entries_view(entries@);
    let mut j: usize = entries.len();
    proof {
        assert(acc.take(j as int) =~= acc);
    }
    while j > 0
        invariant
            j <= entries@.len(),
            entries@ == old(entries)@,
            acc == entries_view(entries@),
            key_position(acc, k@) == key_position(acc.take(j as int), k@),
        decreases j,
    {
        if entries[j - 1].0 == k {
            proof {
                assert(acc.take(j as int).last().0 == k@);
            }
            entries.set(j - 1, (k, v));
            proof {
                assert(entries_view(entries@) =~= acc.update(j - 1, (k@, json_view(v))));
            }
            return;
        }
        proof {
            assert(acc.take(j as int).drop_last() =~= acc.take(j - 1));
        }
        j -= 1;
    }
    proof {
        assert(acc.take(0) =~= Seq::<(Seq<char>, JsonView)>::empty());
    }
    entries.push((k, v));
    proof {
        assert(entries_view(entries@) =~= acc.push((k@, json_view(v))));
    }
}

/// The value of `find_key` (see `get_read`): for an empty key the next value from where
/// the reader stands; else, from the start of the text, the value after the first key equal
/// to `find_key`, or null where an empty key comes first. `None` where the reading would not
/// end normally.
pub fn get_value(content: &[u8], cursor: &mut ReadCursor, find_key: &str) -> (r: Option<
    JsonValue,
>)
    ensures
        r is Some <==> get_read(content@, *old(cursor), find_key@) is Some,
        r matches Some(v) ==> get_read(content@, *old(cursor), find_key@) == Some(
            (json_view(v), *final(cursor)),
        ),
        r matches Some(v) ==> json_wf(json_view(v)),
{
    if find_key.is_empty() {
        return next_value(content, cursor);
    }
    cursor.pos = 0;
    let ghost c0 = *cursor;
    loop
        invariant
            find_key@.len() > 0,
            find_read(content@, *cursor, find_key@) == find_read(content@, c0, find_key@),
            c0 == (ReadCursor { pos: 0, last_char: old(cursor).last_char }),
        decreases rest(content@, *cursor),
    {
        let k = next_key(content, cursor);
        if k.len() == 0 {
            return Some(JsonValue::Null(0));
        }
        let key = latin1_string(k.as_slice());
        if str_equal(key.as_str(), find_key) {
            return next_value(content, cursor);
        }
        match next_value(content, cursor) {
            None => {
                return None;
            },
            Some(_) => {},
        }
    }
}

/// `a` and `b` hold the same characters.
fn str_equal(a: &str, b: &str) -> (r: bool)
    ensures
        r == (a@ == b@),
{
    let x = a.to_owned();
    let y = b.to_owned();
    x == y
}

/// Every entry from the start of the text on, until an empty key (see `entries_read`);
/// the reader's last character stays what it was before it reads. `None` where the reading
/// would not end normally.
pub fn read_entries(content: &[u8], cursor: &mut ReadCursor) -> (r: Option<
    Vec<(String, JsonValue)>,
>)
    ensures
        r is Some <==> entries_read(
            content@,
            ReadCursor { pos: 0, last_char: old(cursor).last_char },
            Seq::empty(),
        ) is Some,
        r matches Some(es) ==> entries_read(
            content@,
            ReadCursor { pos: 0, last_char: old(cursor).last_char },
            Seq::empty(),
        ) == Some((entries_view(es@), *final(cursor))),
        r matches Some(es) ==> forall|i: int|
            0 <= i < es@.len() ==> json_wf(#[trigger] entries_view(es@)[i].1),
{
    cursor.pos = 0;
    let ghost c0 = *cursor;
    let mut entries: Vec<(String, JsonValue)> = Vec::new();
    proof {
        assert(entries_view(entries@) =~= Seq::empty());
    }
    loop
        invariant
            entries_read(content@, *cursor, entries_view(entries@)) == entries_read(
                content@,
                c0,
                Seq::empty(),
            ),
            c0 == (ReadCursor { pos: 0, last_char: old(cursor).last_char }),
            forall|i: int|
                0 <= i < entries@.len() ==> json_wf(#[trigger] entries_view(entries@)[i].1),
        decreases rest(content@, *cursor),
    {
        match next_item(content, cursor) {
            None => {
                return None;
            },
            Some((k, v)) => {
                if k.len() == 0 {
                    return Some(entries);
                }
                let key = latin1_string(k.as_slice());
                let ghost old_entries = entries@;
                entries.push((key, v));
                proof {
                    assert(entries_view(entries@) =~= entries_view(old_entries).push(
                        (latin1(k@), json_view(v)),
                    ));
                }
            },
        }
    }
}

// ---------------------------------------------------------------------------
// Writing an object with one value set
// ---------------------------------------------------------------------------

/// The text of entry `e` of an object in which key `key` is set to the text `data`.
pub open spec fn entry_piece(e: (Seq<char>, JsonView), key: Seq<char>, data: Seq<char>) -> Seq<
    char,
> {
    if e.0 == key {
        entry_text(key, data)
    } else {
        entry_text(e.0, json_text(e.1))
    }
}

/// The first `n` entries of `es` with `key` set to `data`, joined by commas.
pub open spec fn pieces_text(
    es: Seq<(Seq<char>, JsonView)>,
    key: Seq<char>,
    data: Seq<char>,
    n: int,
) -> Seq<char>
    decreases n,
{
    if n <= 0 || n > es.len() {
        Seq::empty()
    } else if n == 1 {
        entry_piece(es[0], key, data)
    } else {
        pieces_text(es, key, data, n - 1) + seq![','] + entry_piece(es[n - 1], key, data)
    }
}

/// Some entry of `es` has key `key`.
pub open spec fn has_key(es: Seq<(Seq<char>, JsonView)>, key: Seq<char>) -> bool {
    exists|i: int| 0 <= i < es.len() && (#[trigger] es[i]).0 == key
}

/// The text of the object `es` with key `key` set to the text `data`: every entry in
/// order, those with key `key` with `data` as value; a new entry at the end when no key
/// is `key`.
pub open spec fn set_object_text(es: Seq<(Seq<char>, JsonView)>, key: Seq<char>, data: Seq<char>) -> Seq<
    char,
> {
    let old_part = pieces_text(es, key, data, es.len() as int);
    let new_part = if has_key(es, key) {
        Seq::empty()
    } else if es.len() > 0 {
        seq![','] + entry_text(key, data)
    } else {
        entry_text(key, data)
    };
    seq!['{'] + old_part + new_part + seq!['}']
}

/// The text of the object `entries` with key `key` set to the text `data` (see
/// `set_object_text`).
pub fn object_text(entries: &Vec<(String, JsonValue)>, key: &str, data: &str) -> (r: String)
    ensures
        r@ == set_object_text(entries_view(entries@), key@, data@),
{
    let ghost es = entries_view(entries@);
    let mut s = String::new();
    string_push(&mut s, '{');
    let mut is_first = true;
    let mut is_new_key = true;
    let mut i: usize = 0;
    while i < entries.len()
        invariant
            i <= entries@.len(),
            es == entries_view(entries@),
            is_first == (i == 0),
            is_new_key == !(exists|j: int| 0 <= j < i && (#[trigger] es[j]).0 == key@),
            s@ == seq!['{'] + pieces_text(es, key@, data@, i as int),
        decreases entries@.len() - i,
    {
        if !is_first {
            string_push(&mut s, ',');
        } else {
            is_first = false;
        }
        let e = &entries[i];
        let piece = if str_equal(key, e.0.as_str()) {
            is_new_key = false;
            entry_string(key, data)
        } else {
            let t = value_text(&e.1);
            entry_string(e.0.as_str(), t.as_str())
        };
        s.append(piece.as_str());
        proof {
            let p = entry_piece(es[i as int], key@, data@);
            assert(es[i as int].0 == e.0@);
            if i == 0 {
                assert(s@ =~= seq!['{'] + p);
            } else {
                assert(s@ =~= seq!['{'] + pieces_text(es, key@, data@, i as int) + seq![','] + p);
            }
            if es[i as int].0 == key@ {
                assert(exists|j: int| 0 <= j < i + 1 && (#[trigger] es[j]).0 == key@);
            }
        }
        i += 1;
    }
    if is_new_key {
        if !is_first {
            string_push(&mut s, ',');
        }
        let piece = entry_string(key, data);
        s.append(piece.as_str());
    }
    string_push(&mut s, '}');
    proof {
        assert(has_key(es, key@) == !is_new_key);
        assert(s@ =~= set_object_text(es, key@, data@));
    }
    s
}

/// The text `"key":value`.
fn entry_string(key: &str, value: &str) -> (r: String)
    ensures
        r@ == entry_text(key@, value@),
{
    let mut s = String::new();
    string_push(&mut s, '"');
    s.append(key);
    string_push(&mut s, '"');
    string_push(&mut s, ':');
    s.append(value);
    proof {
        assert(s@ =~= entry_text(key@, value@));
    }
    s
}

/// How a value is stored under `key`: an object under the empty key replaces the whole
/// text (`None`); any other value is set under its key, where the empty key stands for
/// `root`, as its text.
pub fn set_data_entry(key: &str, value: &JsonValue) -> (r: Option<(String, String)>)
    ensures
        r is None <==> (key@.len() == 0 && value is Object),
        r matches Some(e) ==> e.1@ == json_text(json_view(*value)) && e.0@ == (if key@.len()
            == 0 {
            seq!['r', 'o', 'o', 't']
        } else {
            key@
        }),
{
    if key.is_empty() {
        match value {
            JsonValue::Object(_) => None,
            _ => {
                let mut root = String::new();
                string_push(&mut root, 'r');
                string_push(&mut root, 'o');
                string_push(&mut root, 'o');
                string_push(&mut root, 't');
                proof {
                    assert(root@ =~= seq!['r', 'o', 'o', 't']);
                }
                Some((root, value_text(value)))
            },
        }
    } else {
        Some((key.to_owned(), value_text(value)))
    }
}

} // verus!
