use brace_config::{Array, Entry, Table, Value};

#[test]
fn mod_test_entry() {
    assert!(Value::entry().is_entry());
    assert!(!Value::entry().is_array());
    assert!(!Value::entry().is_table());
    assert!(Value::from(Entry::new()).is_entry());

    assert_eq!(Value::entry().as_entry(), Some(&Entry::new()));
    assert_eq!(
        Value::text("hi").as_entry(),
        Some(&Entry(String::from("hi")))
    );
    assert_eq!(
        Value::from(String::from("hello")).as_entry(),
        Some(&Entry(String::from("hello")))
    );
}

#[test]
fn mod_test_array() {
    assert!(Value::array().is_array());
    assert!(!Value::array().is_entry());
    assert!(!Value::array().is_table());
    assert!(Value::from(Array::new()).is_array());

    assert_eq!(Value::array().as_array(), Some(&Array::new()));
}

#[test]
fn mod_test_table() {
    assert!(Value::table().is_table());
    assert!(!Value::table().is_entry());
    assert!(!Value::table().is_array());
    assert!(Value::from(Table::new()).is_table());

    assert_eq!(Value::table().as_table(), Some(&Table::new()));
}

#[test]
fn array_test_array() {
    let mut array = Array::new();

    assert!(array.set(0 as usize, "joe.bloggs").is_ok());
    assert!(array.set(1 as usize, "hunter2").is_ok());
    assert!(array.set(2 as usize, "42").is_ok());

    assert_eq!(
        array.get::<_, String>(0 as usize),
        Ok(String::from("joe.bloggs"))
    );
    assert_eq!(
        array.get::<_, String>(1 as usize),
        Ok(String::from("hunter2"))
    );
    assert_eq!(array.get::<_, String>(2 as usize), Ok(String::from("42")));
    assert_eq!(array.get::<_, i32>(2 as usize), Ok(42));
}

#[test]
fn table_test_table() {
    let mut table = Table::new();

    assert!(table.set("username", "joe.bloggs").is_ok());
    assert!(table.set("password", "hunter2").is_ok());
    assert!(table.set("age", "42").is_ok());

    assert_eq!(
        table.get::<_, String>("username"),
        Ok(String::from("joe.bloggs"))
    );
    assert_eq!(
        table.get::<_, String>(String::from("password")),
        Ok(String::from("hunter2"))
    );
    assert_eq!(table.get::<_, String>("age"), Ok(String::from("42")));
    assert_eq!(table.get::<_, i32>("age"), Ok(42));
}
