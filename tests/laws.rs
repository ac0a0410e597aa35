use brace_config::variant::{newtype_payload, struct_payload, tuple_payload, unit_payload};
use brace_config::text::{char_text, signed_text, unsigned_text};
use brace_config::{from_value, to_value, Array, Config, Key, Table, Value};

#[test]
fn scalars_round_trip_at_their_limits() {
    let mut cfg = Config::new();
    cfg.set("a", i8::MIN).unwrap();
    cfg.set("b", i128::MIN).unwrap();
    cfg.set("c", u128::MAX).unwrap();
    cfg.set("d", i64::MAX).unwrap();
    cfg.set("e", usize::MAX).unwrap();
    cfg.set("f", isize::MIN).unwrap();
    cfg.set("g", 0 as u16).unwrap();

    assert_eq!(cfg.get::<_, i8>("a"), Ok(i8::MIN));
    assert_eq!(cfg.get::<_, String>("a"), Ok(String::from("-128")));
    assert_eq!(cfg.get::<_, i128>("b"), Ok(i128::MIN));
    assert_eq!(
        cfg.get::<_, String>("b"),
        Ok(String::from("-170141183460469231731687303715884105728"))
    );
    assert_eq!(cfg.get::<_, u128>("c"), Ok(u128::MAX));
    assert_eq!(
        cfg.get::<_, String>("c"),
        Ok(String::from("340282366920938463463374607431768211455"))
    );
    assert_eq!(cfg.get::<_, i64>("d"), Ok(i64::MAX));
    assert_eq!(cfg.get::<_, usize>("e"), Ok(usize::MAX));
    assert_eq!(cfg.get::<_, isize>("f"), Ok(isize::MIN));
    assert_eq!(cfg.get::<_, String>("g"), Ok(String::from("0")));
    assert_eq!(cfg.get::<_, u16>("g"), Ok(0));
}

#[test]
fn bool_and_char_round_trip() {
    let mut cfg = Config::new();
    cfg.set("t", true).unwrap();
    cfg.set("c", 'é').unwrap();

    assert_eq!(cfg.get::<_, String>("t"), Ok(String::from("true")));
    assert_eq!(cfg.get::<_, bool>("t"), Ok(true));
    assert_eq!(cfg.get::<_, String>("c"), Ok(String::from("é")));
    assert_eq!(cfg.get::<_, char>("c"), Ok('é'));
}

#[test]
fn cross_width_reads_of_a_small_integer() {
    let mut cfg = Config::new();
    assert!(cfg.set("n", 8 as u8).is_ok());

    assert_eq!(cfg.get::<_, i8>("n"), Ok(8));
    assert_eq!(cfg.get::<_, i16>("n"), Ok(8));
    assert_eq!(cfg.get::<_, i32>("n"), Ok(8));
    assert_eq!(cfg.get::<_, i64>("n"), Ok(8));
    assert_eq!(cfg.get::<_, i128>("n"), Ok(8));
    assert_eq!(cfg.get::<_, String>("n"), Ok(String::from("8")));
}

#[test]
fn array_growth_is_sequential() {
    let mut cfg = Config::new();

    assert!(cfg.set("s.0", "x").is_ok());
    let err = cfg.set("s.2", "z").unwrap_err();
    assert_eq!(err.message(), "invalid index '2'");
    assert!(cfg.set("s.1", "y").is_ok());
    assert!(cfg.set("s.2", "z").is_ok());

    assert_eq!(cfg.get::<_, String>("s.2"), Ok(String::from("z")));
    assert_eq!(cfg.get::<_, Vec<String>>("s"), Ok(vec![
        String::from("x"),
        String::from("y"),
        String::from("z"),
    ]));
}

#[test]
fn array_write_below_length_inserts_and_shifts() {
    let mut cfg = Config::new();
    cfg.set("l.0", "a").unwrap();
    cfg.set("l.1", "b").unwrap();
    cfg.set("l.0", "z").unwrap();

    assert_eq!(cfg.get::<_, Vec<String>>("l"), Ok(vec![
        String::from("z"),
        String::from("a"),
        String::from("b"),
    ]));
}

#[test]
fn nested_tables_are_created() {
    let mut cfg = Config::new();

    assert!(cfg.set("a.b.c", 5 as u32).is_ok());

    assert_eq!(cfg.get::<_, u32>("a.b.c"), Ok(5));
    assert!(cfg.get::<_, Value>("a").unwrap().is_table());
    assert!(cfg.get::<_, Value>("a.b").unwrap().is_table());
}

#[test]
fn entries_are_promoted_by_key_shape() {
    let mut cfg = Config::new();

    cfg.set("k", "1").unwrap();
    cfg.set("k.0", "a").unwrap();
    assert!(cfg.get::<_, Value>("k").unwrap().is_array());
    assert_eq!(cfg.get::<_, String>("k.0"), Ok(String::from("a")));

    cfg.set("m", "1").unwrap();
    cfg.set("m.name", "a").unwrap();
    assert!(cfg.get::<_, Value>("m").unwrap().is_table());
    assert_eq!(cfg.get::<_, String>("m.name"), Ok(String::from("a")));

    assert!(cfg.set("p", "1").is_ok());
    assert!(cfg.set("p.3", "a").is_err());
    assert_eq!(cfg.get::<_, String>("p"), Ok(String::from("1")));
}

#[test]
fn arrays_become_tables_keyed_by_index() {
    let mut cfg = Config::new();
    cfg.set("l.0", "a").unwrap();
    cfg.set("l.1", "b").unwrap();
    cfg.set("l.x", "c").unwrap();

    assert!(cfg.get::<_, Value>("l").unwrap().is_table());
    assert_eq!(cfg.get::<_, String>("l.0"), Ok(String::from("a")));
    assert_eq!(cfg.get::<_, String>("l.1"), Ok(String::from("b")));
    assert_eq!(cfg.get::<_, String>("l.x"), Ok(String::from("c")));
}

#[test]
fn empty_paths_and_missing_keys_are_errors() {
    let mut cfg = Config::new();
    cfg.set("a", 1 as u8).unwrap();

    assert_eq!(cfg.get::<_, String>("").unwrap_err().message(), "empty key");
    assert_eq!(cfg.get::<_, String>("..").unwrap_err().message(), "empty key");
    assert_eq!(cfg.set("", 1 as u8).unwrap_err().message(), "empty key");
    assert_eq!(
        cfg.get::<_, String>("b").unwrap_err().message(),
        "missing value for key 'b'"
    );
    assert_eq!(
        cfg.get::<_, String>("a.b").unwrap_err().message(),
        "missing value for key 'b'"
    );
    assert_eq!(cfg.get::<_, u8>("a"), Ok(1));
}

#[test]
fn failed_writes_change_nothing() {
    let mut cfg = Config::new();
    cfg.set("a.0", "x").unwrap();
    let before = cfg.get::<_, Value>("a").unwrap();

    assert!(cfg.set("a.5.b", "y").is_err());
    assert!(cfg.set("n.b.3", "y").is_err());

    assert_eq!(cfg.get::<_, Value>("a").unwrap(), before);
    assert!(cfg.get::<_, String>("n").is_err());
}

#[test]
fn array_paths_need_index_keys() {
    let mut array = Array::new();
    assert_eq!(
        array.set("name", "x").unwrap_err().message(),
        "invalid key 'name'"
    );
    array.set(0 as usize, "x").unwrap();
    assert_eq!(
        array.get::<_, String>("name").unwrap_err().message(),
        "invalid key 'name'"
    );
    assert_eq!(
        array.get::<_, String>(3 as usize).unwrap_err().message(),
        "missing value for key '3'"
    );
    assert_eq!(array.get::<_, String>("+0"), Ok(String::from("x")));
}

#[test]
fn scalar_parse_errors() {
    let mut cfg = Config::new();
    cfg.set("word", "abc").unwrap();
    cfg.set("big", 300 as u16).unwrap();
    cfg.set("neg", -1 as i32).unwrap();
    cfg.set("low", -129 as i32).unwrap();
    cfg.set("empty", "").unwrap();
    cfg.set("plus", "+5").unwrap();
    cfg.set("list.0", "1").unwrap();

    assert_eq!(
        cfg.get::<_, u8>("word").unwrap_err().message(),
        "invalid digit found in string"
    );
    assert_eq!(
        cfg.get::<_, u8>("big").unwrap_err().message(),
        "number too large to fit in target type"
    );
    assert_eq!(
        cfg.get::<_, u8>("neg").unwrap_err().message(),
        "invalid digit found in string"
    );
    assert_eq!(cfg.get::<_, i8>("neg"), Ok(-1));
    assert_eq!(
        cfg.get::<_, i8>("low").unwrap_err().message(),
        "number too small to fit in target type"
    );
    assert_eq!(
        cfg.get::<_, i32>("empty").unwrap_err().message(),
        "cannot parse integer from empty string"
    );
    assert_eq!(cfg.get::<_, u8>("plus"), Ok(5));
    assert_eq!(
        cfg.get::<_, u8>("list").unwrap_err().message(),
        "cannot deserialize array variant as u8"
    );
    assert_eq!(
        cfg.get::<_, String>("list").unwrap_err().message(),
        "cannot deserialize array variant as string"
    );
    assert!(cfg.get::<_, bool>("word").is_err());
    assert!(cfg.get::<_, char>("word").is_err());
}

#[test]
fn variants_are_read_back() {
    let unit = Value::unit_variant("A");
    let (name, payload) = unit.variant().unwrap();
    assert_eq!(name, "A");
    assert!(payload.is_none());

    let single = Value::newtype_variant("B", Value::text("x"));
    let (name, payload) = single.variant().unwrap();
    assert_eq!(name, "B");
    assert_eq!(payload.unwrap(), &Value::text("x"));
    assert_eq!(single.get::<_, String>("B"), Ok(String::from("x")));

    let mut two = Table::new();
    two.set("a", "1").unwrap();
    two.set("b", "2").unwrap();
    assert!(Value::from(two).variant().is_err());
    assert!(Value::array().variant().is_err());
    assert!(Value::table().variant().is_err());
}

#[test]
fn keys_split_on_dots() {
    let mut key = Key::parse("a..b.c.");
    assert_eq!(key.len(), 3);
    assert_eq!(key.peek(), Some("a"));
    assert_eq!(key.next(), Some(String::from("a")));
    assert_eq!(key.segment(1), "c");

    let index = Key::index(12);
    assert_eq!(index.peek(), Some("12"));
    assert_eq!(Key::parse("").peek(), None);
}

#[test]
fn canonical_text_of_integers_and_chars() {
    assert_eq!(signed_text(-42), "-42");
    assert_eq!(signed_text(0), "0");
    assert_eq!(unsigned_text(1000), "1000");
    assert_eq!(char_text('q'), "q");
}

#[test]
fn whole_values_convert() {
    let v = to_value(vec![1 as u8, 2, 3]).unwrap();
    assert!(v.is_array());
    assert_eq!(from_value::<Vec<u8>>(v), Ok(vec![1, 2, 3]));
    assert!(to_value(()).is_err());
    assert!(from_value::<(u8, u8)>(Value::from(vec![Value::text("1")])).is_err());
}

#[test]
fn writes_chain() {
    let mut cfg = Config::new();
    cfg.set("a", 1 as u8)
        .unwrap()
        .set("b.c", "x")
        .unwrap()
        .set("b.d", 'y')
        .unwrap();

    assert_eq!(cfg.get::<_, u8>("a"), Ok(1));
    assert_eq!(cfg.get::<_, String>("b.c"), Ok(String::from("x")));
    assert_eq!(cfg.get::<_, char>("b.d"), Ok('y'));
}

#[test]
fn tables_round_trip_and_insert_raw_keys() {
    let mut table = Table::new();
    table.insert(String::from("a.b"), Value::text("1"));
    table.insert(String::from("c"), Value::text("2"));
    table.insert(String::from("a.b"), Value::text("3"));
    assert_eq!(table.len(), 2);

    let mut cfg = Config::new();
    cfg.set("t", table).unwrap();
    let back: Table = cfg.get("t").unwrap();
    assert_eq!(back.bindings()[0].0, "a.b");
    assert_eq!(back.bindings()[0].1, Value::text("3"));
    assert!(cfg.get::<_, Table>("t.c").is_err());
    assert_eq!(cfg.get::<_, String>("t.c"), Ok(String::from("2")));
}

#[test]
fn variant_payload_shapes() {
    let text = Value::text("x");
    let list = Value::from(vec![Value::text("a")]);
    let table = Value::table();

    assert!(unit_payload(None).is_ok());
    assert!(unit_payload(Some(&text)).is_err());
    assert!(newtype_payload(None).is_err());
    assert_eq!(newtype_payload(Some(&text)).unwrap(), &text);
    assert_eq!(tuple_payload(Some(&list)).unwrap().len(), 1);
    assert!(tuple_payload(Some(&text)).is_err());
    assert!(tuple_payload(None).is_err());
    assert_eq!(struct_payload(Some(&table)).unwrap().len(), 0);
    assert!(struct_payload(Some(&list)).is_err());
    assert!(struct_payload(None).is_err());

    let tuple = Value::tuple_variant("C", vec![Value::text("a"), Value::text("b")]);
    assert_eq!(tuple.get::<_, String>("C.1"), Ok(String::from("b")));
    let mut fields = Table::new();
    fields.set("a", "A").unwrap();
    let record = Value::struct_variant("D", fields);
    assert_eq!(record.get::<_, String>("D.a"), Ok(String::from("A")));
}
