use brace_config::{Array, Config, Entry, Table, Value};

#[test]
fn macros_test_config() {
    let mut config1 = Config::new();
    config1.set("key", "value").unwrap();
    let config2 = Config::new();

    assert_eq!(config1.get::<_, String>("key").unwrap(), "value");
    assert!(config2.get::<_, String>("key").is_err());
}

#[test]
fn macros_test_value() {
    let entry = Value::text("entry");
    let array = Value::from(vec![Value::text("array")]);
    let mut table = Value::table();
    table.set("table", true).unwrap();

    assert!(entry.is_entry());
    assert!(array.is_array());
    assert!(table.is_table());

    assert_eq!(entry.as_entry().unwrap().value(), "entry");
    assert_eq!(array.get::<_, String>("0").unwrap(), "array");
    assert_eq!(table.get::<_, bool>("table").unwrap(), true);
}

#[test]
fn macros_test_entry() {
    let entry1 = Entry::text("hello");
    let entry2 = Entry::from(String::from("hello"));

    assert_eq!(entry1.value(), "hello");
    assert_eq!(entry2.value(), "hello");
}

#[test]
fn macros_test_array() {
    let array1 = Array::new();
    let mut array2 = Array::new();
    array2.set(0 as usize, Value::array()).unwrap();
    let mut array3 = Array::new();
    array3.set(0 as usize, Value::table()).unwrap();
    let mut array4 = Array::new();
    array4.set(0 as usize, "a").unwrap();
    let mut array5 = Array::new();
    array5.set(0 as usize, Value::array()).unwrap();
    array5.set(1 as usize, Value::table()).unwrap();
    array5.set(2 as usize, "a").unwrap();
    let mut array6 = Array::new();
    array6.set(0 as usize, 'a').unwrap();
    array6.set(1 as usize, "b").unwrap();
    array6.set(2 as usize, ("c", "d")).unwrap();

    assert_eq!(array1.len(), 0);
    assert_eq!(array2.len(), 1);
    assert_eq!(array3.len(), 1);
    assert_eq!(array4.len(), 1);
    assert_eq!(array5.len(), 3);
    assert_eq!(array6.len(), 3);
}

#[test]
fn macros_test_table() {
    let mut t = Table::new();
    t.set("a", "a").unwrap();
    t.set("b", "b").unwrap();
    t.set("c", Value::table()).unwrap();
    t.set("d", Value::array()).unwrap();
    t.set("e", ('f', "g", ("h", "i", true))).unwrap();
    t.set("j.k", "l").unwrap();
    t.set("j.m.n", vec!["o", "p"]).unwrap();
    t.set("q", ("r", "s")).unwrap();

    assert_eq!(t.get::<_, String>("a").unwrap(), "a");
    assert_eq!(t.get::<_, String>("b").unwrap(), "b");
    assert_eq!(t.get::<_, String>("e.2.1").unwrap(), "i");
    assert_eq!(t.get::<_, String>("j.k").unwrap(), "l");
    assert_eq!(t.get::<_, String>("j.m.n.0").unwrap(), "o");
    assert_eq!(t.get::<_, String>("q.0").unwrap(), "r");
}
