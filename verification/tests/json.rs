use appkit::file_cursor::{start_cursor, ReadCursor};
use appkit::json::{
    get_value, next_data, next_key, next_value, object_text, read_entries, set_data_entry,
    value_text, JsonValue,
};

fn get(content: &str, key: &str) -> Option<JsonValue> {
    let mut cursor = start_cursor();
    get_value(content.as_bytes(), &mut cursor, key)
}

fn text(s: &str) -> JsonValue {
    JsonValue::Text(String::from(s))
}

#[test]
fn get_value_finds_key() {
    assert_eq!(get("{\"a\":1,\"b\":\"x\"}", "b"), Some(text("x")));
    assert_eq!(get("{\"a\":1,\"b\":\"x\"}", "a"), Some(JsonValue::Integer(1)));
}

#[test]
fn get_value_missing_key_is_null() {
    assert_eq!(get("{\"a\":1}", "z"), Some(JsonValue::Null(0)));
}

#[test]
fn get_value_trims_white_space() {
    assert_eq!(get("{ \"a\" : 12 , \"b\" : true }", "a"), Some(JsonValue::Integer(12)));
    assert_eq!(get("{ \"a\" : 12 , \"b\" : true }", "b"), Some(JsonValue::Bool(true)));
}

#[test]
fn empty_key_reads_next_value() {
    let v = get("[1,2,3]", "");
    assert_eq!(
        v,
        Some(JsonValue::Array(vec![
            JsonValue::Integer(1),
            JsonValue::Integer(2),
            JsonValue::Integer(3)
        ]))
    );
}

#[test]
fn empty_key_reads_on_from_the_cursor() {
    let content = "{\"a\":1,\"b\":2}".as_bytes();
    let mut cursor = start_cursor();
    assert_eq!(get_value(content, &mut cursor, "a"), Some(JsonValue::Integer(1)));
    assert_eq!(cursor.last_char, ',');
    // the rest, `"b":2`, up to `}` reads as a text cut at both ends
    assert_eq!(get_value(content, &mut cursor, ""), Some(text("b\":")));
}

#[test]
fn floats_keep_their_text() {
    assert_eq!(get("{\"f\":1.50}", "f"), Some(JsonValue::Float(String::from("1.50"))));
}

#[test]
fn integers_follow_i32_syntax() {
    assert_eq!(get("{\"a\":+7}", "a"), Some(JsonValue::Integer(7)));
    assert_eq!(get("{\"a\":-2147483648}", "a"), Some(JsonValue::Integer(i32::MIN)));
    assert_eq!(get("{\"a\":2147483648}", "a"), Some(JsonValue::Null(0)));
    assert_eq!(get("{\"a\":1x}", "a"), Some(JsonValue::Null(0)));
    assert_eq!(get("{\"a\":-}", "a"), Some(JsonValue::Null(0)));
}

#[test]
fn arrays_leave_out_nulls() {
    assert_eq!(
        get("[1,,x,2]", ""),
        Some(JsonValue::Array(vec![JsonValue::Integer(1), JsonValue::Integer(2)]))
    );
}

#[test]
fn unterminated_array_never_ends() {
    assert_eq!(get("[1,2", ""), None);
}

#[test]
fn lone_quote_cannot_be_cut() {
    assert_eq!(get("{\"a\":\"}", "a"), None);
}

#[test]
fn text_ending_in_high_byte_cannot_be_cut() {
    let content = [b'"', b'a', 0xe9u8];
    let mut cursor = start_cursor();
    assert_eq!(next_value(&content, &mut cursor), None);
}

#[test]
fn nested_object_ends_the_outer_one() {
    let v = get("{\"a\":{\"b\":1},\"c\":2}", "");
    assert_eq!(
        v,
        Some(JsonValue::Object(vec![(
            String::from("a"),
            JsonValue::Object(vec![(String::from("b"), JsonValue::Integer(1))])
        )]))
    );
}

#[test]
fn repeated_key_keeps_last_value() {
    let v = get("{\"a\":1,\"a\":2}", "");
    assert_eq!(v, Some(JsonValue::Object(vec![(String::from("a"), JsonValue::Integer(2))])));
}

#[test]
fn next_key_and_data() {
    let content = " \"key\" : \"v\" ".as_bytes();
    let mut cursor = start_cursor();
    let k = next_key(content, &mut cursor);
    assert_eq!(k, b"key".to_vec());
    assert_eq!(cursor, ReadCursor { pos: 8, last_char: ':' });
    let mut cursor = start_cursor();
    assert_eq!(next_data(content, &mut cursor), Some((String::from("key"), text("v"))));
}

#[test]
fn read_entries_keeps_every_entry() {
    let content = "{\"a\":1,\"b\":true,\"a\":\"s\"}".as_bytes();
    let mut cursor = ReadCursor { pos: 5, last_char: 'q' };
    let es = read_entries(content, &mut cursor).unwrap();
    assert_eq!(
        es,
        vec![
            (String::from("a"), JsonValue::Integer(1)),
            (String::from("b"), JsonValue::Bool(true)),
            (String::from("a"), text("s")),
        ]
    );
}

#[test]
fn object_text_sets_a_key() {
    let es = vec![(String::from("a"), JsonValue::Integer(1)), (String::from("b"), text("x"))];
    assert_eq!(object_text(&es, "b", "5"), "{\"a\":1,\"b\":5}");
    assert_eq!(object_text(&es, "c", "5"), "{\"a\":1,\"b\":\"x\",\"c\":5}");
    assert_eq!(object_text(&Vec::new(), "c", "5"), "{\"c\":5}");
}

#[test]
fn set_then_get_gives_the_value() {
    let es = vec![(String::from("a"), JsonValue::Integer(1))];
    let t = object_text(&es, "b", "42");
    assert_eq!(get(&t, "b"), Some(JsonValue::Integer(42)));
    assert_eq!(get(&t, "a"), Some(JsonValue::Integer(1)));
}

#[test]
fn value_text_of_each_kind() {
    let v = JsonValue::Array(vec![
        JsonValue::Integer(-3),
        text("t"),
        JsonValue::Bool(false),
        JsonValue::Null(0),
        JsonValue::Float(String::from("0.5")),
        JsonValue::Object(vec![(String::from("k"), JsonValue::Bool(true))]),
    ]);
    assert_eq!(value_text(&v), "[-3,\"t\",false,,0.5,{\"k\":true}]");
    assert_eq!(value_text(&JsonValue::Integer(i32::MIN)), "-2147483648");
}

#[test]
fn set_data_entry_choices() {
    let obj = JsonValue::Object(vec![]);
    assert_eq!(set_data_entry("", &obj), None);
    assert_eq!(
        set_data_entry("", &JsonValue::Integer(5)),
        Some((String::from("root"), String::from("5")))
    );
    assert_eq!(set_data_entry("k", &obj), Some((String::from("k"), String::from("{}"))));
}

#[test]
fn integer_text_reads_back() {
    for n in [0, 7, -17, i32::MAX, i32::MIN] {
        let t = value_text(&JsonValue::Integer(n));
        let mut cursor = start_cursor();
        assert_eq!(next_value(t.as_bytes(), &mut cursor), Some(JsonValue::Integer(n)));
    }
}

#[test]
fn set_text_then_get_in_object() {
    let es = vec![
        (String::from("n"), JsonValue::Null(0)),
        (String::from("t"), text("old")),
        (String::from("b"), JsonValue::Bool(false)),
    ];
    let data = value_text(&text("new value"));
    let t = object_text(&es, "t", &data);
    assert_eq!(t, "{\"n\":,\"t\":\"new value\",\"b\":false}");
    assert_eq!(get(&t, "t"), Some(text("new value")));
    assert_eq!(get(&t, "b"), Some(JsonValue::Bool(false)));
    assert_eq!(get(&t, "n"), Some(JsonValue::Null(0)));
}

#[test]
fn get_unset_key_after_set_is_null() {
    let es = vec![(String::from("a"), JsonValue::Integer(1)), (String::from("b"), text("x"))];
    let t = object_text(&es, "c", "true");
    assert_eq!(get(&t, "z"), Some(JsonValue::Null(0)));
    let t = object_text(&Vec::new(), "c", "7");
    assert_eq!(get(&t, "a"), Some(JsonValue::Null(0)));
}
