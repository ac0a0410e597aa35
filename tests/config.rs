use std::collections::HashMap;

use brace_config::variant::{newtype_payload, struct_payload, tuple_payload, unit_payload};
use brace_config::{Config, Decode, Encode, Error, Table, Value};

#[test]
fn test_boolean() {
    let mut cfg = Config::new();

    assert!(cfg.set("true", true).is_ok());
    assert!(cfg.set("false", false).is_ok());

    assert_eq!(cfg.get::<_, bool>("true"), Ok(true));
    assert_eq!(cfg.get::<_, bool>("false"), Ok(false));
}

#[test]
fn test_integer_signed() {
    let mut cfg = Config::new();

    assert!(cfg.set("i8", 8 as i8).is_ok());
    assert!(cfg.set("i16", 16 as i16).is_ok());
    assert!(cfg.set("i32", 32 as i32).is_ok());
    assert!(cfg.set("i64", 64 as i64).is_ok());
    assert!(cfg.set("i128", 128 as i128).is_ok());

    assert_eq!(cfg.get::<_, i8>("i8"), Ok(8));
    assert_eq!(cfg.get::<_, i16>("i8"), Ok(8));
    assert_eq!(cfg.get::<_, i32>("i8"), Ok(8));
    assert_eq!(cfg.get::<_, i64>("i8"), Ok(8));
    assert_eq!(cfg.get::<_, i128>("i8"), Ok(8));
    assert_eq!(cfg.get::<_, String>("i8"), Ok(String::from("8")));
}

#[test]
fn test_integer_unsigned() {
    let mut cfg = Config::new();

    assert!(cfg.set("u8", 8 as u8).is_ok());
    assert!(cfg.set("u16", 16 as u16).is_ok());
    assert!(cfg.set("u32", 32 as u32).is_ok());
    assert!(cfg.set("u64", 64 as u64).is_ok());
    assert!(cfg.set("u128", 128 as u128).is_ok());

    assert_eq!(cfg.get::<_, u8>("u8"), Ok(8));
    assert_eq!(cfg.get::<_, u16>("u8"), Ok(8));
    assert_eq!(cfg.get::<_, u32>("u8"), Ok(8));
    assert_eq!(cfg.get::<_, u64>("u8"), Ok(8));
    assert_eq!(cfg.get::<_, u128>("u8"), Ok(8));
    assert_eq!(cfg.get::<_, String>("u8"), Ok(String::from("8")));
}

// Floats are kept as text: the tree stores their rendering and the reader parses it back.
#[test]
fn test_float() {
    let mut cfg = Config::new();

    assert!(cfg.set("f32", format!("{}", 32.0 as f32)).is_ok());
    assert!(cfg.set("f64", format!("{}", 64.0 as f64)).is_ok());

    assert_eq!(cfg.get::<_, String>("f32").unwrap().parse::<f32>(), Ok(32.0 as f32));
    assert_eq!(cfg.get::<_, String>("f64").unwrap().parse::<f64>(), Ok(64.0 as f64));
}

#[test]
fn test_text() {
    let mut cfg = Config::new();

    assert!(cfg.set("char", 'c').is_ok());
    assert!(cfg.set("str", "str").is_ok());
    assert!(cfg.set("string", String::from("string")).is_ok());

    assert_eq!(cfg.get::<_, char>("char"), Ok('c'));
    assert_eq!(cfg.get::<_, String>("str"), Ok(String::from("str")));
    assert_eq!(cfg.get::<_, String>("string"), Ok(String::from("string")));
}

#[test]
fn test_tuple() {
    let mut cfg = Config::new();

    assert!(cfg.set("tuple", ('a', "bee", 3 as usize, false)).is_ok());

    assert_eq!(
        cfg.get::<_, (String, String, String, String)>("tuple"),
        Ok((
            String::from("a"),
            String::from("bee"),
            String::from("3"),
            String::from("false"),
        ))
    );
    assert_eq!(
        cfg.get::<_, (char, String, usize, bool)>("tuple"),
        Ok(('a', String::from("bee"), 3, false))
    );
}

#[test]
fn test_seq() {
    let mut cfg = Config::new();

    assert!(cfg.set("seq", vec!["hello", "world"]).is_ok());

    assert_eq!(
        cfg.get::<_, Vec<String>>("seq"),
        Ok(vec![String::from("hello"), String::from("world")])
    );
}

/// A map of text keys, stored as a table.
#[derive(Clone, Debug, PartialEq)]
struct TextMap<T>(HashMap<String, T>);

impl<T: Encode> Encode for TextMap<T> {
    fn encode(&self) -> Result<Value, Error> {
        let mut table = Table::new();
        for (key, value) in &self.0 {
            table.set(key.as_str(), value.encode()?)?;
        }
        Ok(Value::from(table))
    }
}

impl<T: Decode> Decode for TextMap<T> {
    fn decode(v: &Value) -> Result<Self, Error> {
        let table = match v.as_table() {
            Some(t) => t,
            None => return Err(Error::custom("expected a table")),
        };
        let mut map = HashMap::new();
        for (key, value) in table.bindings() {
            map.insert(key.clone(), T::decode(value)?);
        }
        Ok(TextMap(map))
    }
}

#[test]
fn test_map() {
    let mut cfg = Config::new();
    let mut map = HashMap::<String, Vec<String>>::new();

    map.insert(
        String::from("a"),
        vec![String::from("hello"), String::from("world")],
    );
    map.insert(String::from("b"), Vec::new());

    assert!(cfg.set("map", TextMap(map.clone())).is_ok());

    assert_eq!(cfg.get::<_, TextMap<Vec<String>>>("map"), Ok(TextMap(map)));
}

#[derive(Clone, Debug, PartialEq, Eq)]
struct A {
    one: String,
    two: usize,
}

impl Encode for A {
    fn encode(&self) -> Result<Value, Error> {
        let mut v = Value::table();
        v.set("one", self.one.clone())?;
        v.set("two", self.two)?;
        Ok(v)
    }
}

impl Decode for A {
    fn decode(v: &Value) -> Result<Self, Error> {
        Ok(A {
            one: v.get("one")?,
            two: v.get("two")?,
        })
    }
}

#[test]
fn test_struct() {
    let mut cfg = Config::new();

    let a = A {
        one: String::from("first"),
        two: 42,
    };

    assert!(cfg.set("struct", a.clone()).is_ok());

    assert_eq!(cfg.get::<_, A>("struct"), Ok(a));
}

struct Unit;

impl Encode for Unit {
    fn encode(&self) -> Result<Value, Error> {
        ().encode()
    }
}

#[test]
fn test_unit() {
    let mut cfg = Config::new();

    assert!(cfg.set("unit", ()).is_err());
    assert!(cfg.set("unit_struct", Unit).is_err());
}

#[derive(Debug, PartialEq)]
enum Simple {
    One,
    Two,
}

impl Encode for Simple {
    fn encode(&self) -> Result<Value, Error> {
        Ok(match self {
            Simple::One => Value::unit_variant("one"),
            Simple::Two => Value::unit_variant("two"),
        })
    }
}

impl Decode for Simple {
    fn decode(v: &Value) -> Result<Self, Error> {
        let (name, payload) = v.variant()?;
        unit_payload(payload)?;
        match name {
            "one" => Ok(Simple::One),
            "two" => Ok(Simple::Two),
            _ => Err(Error::custom("unknown variant")),
        }
    }
}

#[test]
fn test_enum_simple() {
    let mut cfg = Config::new();

    assert!(cfg.set("one", Simple::One).is_ok());
    assert!(cfg.set("two", Simple::Two).is_ok());

    assert_eq!(cfg.get::<_, String>("one"), Ok(String::from("one")));
    assert_eq!(cfg.get::<_, String>("two"), Ok(String::from("two")));

    assert_eq!(cfg.get::<_, Simple>("one"), Ok(Simple::One));
    assert_eq!(cfg.get::<_, Simple>("two"), Ok(Simple::Two));
}

#[derive(Debug, Clone, PartialEq)]
enum Complex {
    A,
    B(String),
    C(String, HashMap<String, usize>, Vec<String>),
    D {
        a: String,
    },
    E {
        a: String,
        b: HashMap<String, usize>,
        c: Vec<String>,
    },
}

impl Encode for Complex {
    fn encode(&self) -> Result<Value, Error> {
        Ok(match self {
            Complex::A => Value::unit_variant("A"),
            Complex::B(s) => Value::newtype_variant("B", s.encode()?),
            Complex::C(s, m, v) => Value::tuple_variant(
                "C",
                vec![s.encode()?, TextMap(m.clone()).encode()?, v.encode()?],
            ),
            Complex::D { a } => {
                let mut fields = Table::new();
                fields.set("a", a.clone())?;
                Value::struct_variant("D", fields)
            }
            Complex::E { a, b, c } => {
                let mut fields = Table::new();
                fields.set("a", a.clone())?;
                fields.set("b", TextMap(b.clone()))?;
                fields.set("c", c.clone())?;
                Value::struct_variant("E", fields)
            }
        })
    }
}

impl Decode for Complex {
    fn decode(v: &Value) -> Result<Self, Error> {
        let (name, payload) = v.variant()?;
        match name {
            "A" => {
                unit_payload(payload)?;
                Ok(Complex::A)
            }
            "B" => Ok(Complex::B(String::decode(newtype_payload(payload)?)?)),
            "C" => {
                tuple_payload(payload)?;
                let (s, m, c): (String, TextMap<usize>, Vec<String>) =
                    Decode::decode(newtype_payload(payload)?)?;
                Ok(Complex::C(s, m.0, c))
            }
            "D" => {
                let fields = struct_payload(payload)?;
                Ok(Complex::D { a: fields.get("a")? })
            }
            "E" => {
                let fields = struct_payload(payload)?;
                let b: TextMap<usize> = fields.get("b")?;
                Ok(Complex::E {
                    a: fields.get("a")?,
                    b: b.0,
                    c: fields.get("c")?,
                })
            }
            _ => Err(Error::custom("unknown variant")),
        }
    }
}

#[test]
fn test_enum_complex() {
    let mut cfg = Config::new();
    let mut map = HashMap::<String, usize>::new();
    let mut arr = Vec::new();

    map.insert("a".to_string(), 1);
    map.insert("b".to_string(), 2);

    arr.push(String::from("a"));
    arr.push(String::from("b"));

    assert!(cfg.set("a", Complex::A).is_ok());
    assert!(cfg.set("b", Complex::B(String::from("B"))).is_ok());
    assert!(cfg
        .set("c", Complex::C(String::from("C"), map.clone(), arr.clone()))
        .is_ok());
    assert!(cfg
        .set(
            "d",
            Complex::D {
                a: String::from("A")
            }
        )
        .is_ok());
    assert!(cfg
        .set(
            "e",
            Complex::E {
                a: String::from("a"),
                b: map.clone(),
                c: arr.clone(),
            }
        )
        .is_ok());

    assert_eq!(cfg.get::<_, String>("a"), Ok(String::from("A")));
    assert_eq!(cfg.get::<_, Complex>("a"), Ok(Complex::A));
    assert_eq!(
        cfg.get::<_, Complex>("b"),
        Ok(Complex::B(String::from("B")))
    );
    assert_eq!(
        cfg.get::<_, Complex>("c"),
        Ok(Complex::C(String::from("C"), map.clone(), arr.clone()))
    );
    assert_eq!(
        cfg.get::<_, Complex>("d"),
        Ok(Complex::D {
            a: String::from("A")
        })
    );
    assert_eq!(
        cfg.get::<_, Complex>("e"),
        Ok(Complex::E {
            a: String::from("a"),
            b: map,
            c: arr,
        })
    );

    assert_eq!(cfg.get::<_, String>("a"), Ok(String::from("A")));
    assert_eq!(cfg.get::<_, String>("b.B"), Ok(String::from("B")));
    assert_eq!(cfg.get::<_, String>("c.C.0"), Ok(String::from("C")));
    assert_eq!(cfg.get::<_, String>("c.C.1.b"), Ok(String::from("2")));
    assert_eq!(cfg.get::<_, String>("c.C.2.0"), Ok(String::from("a")));
    assert_eq!(cfg.get::<_, String>("d.D.a"), Ok(String::from("A")));
    assert_eq!(cfg.get::<_, String>("e.E.c.1"), Ok(String::from("b")));
    assert_eq!(cfg.get::<_, String>("e.E.b.a"), Ok(String::from("1")));
}

#[test]
fn test_nested() {
    let mut cfg = Config::new();

    assert!(cfg.set("one", "1").is_ok());
    assert!(cfg.set("two", "2").is_ok());

    assert_eq!(cfg.get::<_, String>("one"), Ok(String::from("1")));
    assert_eq!(cfg.get::<_, String>("two"), Ok(String::from("2")));

    assert!(cfg.set("one.two", "3").is_ok());
    assert!(cfg.set("two.0", "a").is_ok());
    assert!(cfg.set("two.2", "c").is_err());
    assert!(cfg.set("two.1", "b").is_ok());
    assert!(cfg.set("two.2", "c").is_ok());

    assert_eq!(cfg.get::<_, String>("one.two"), Ok(String::from("3")));
    assert_eq!(cfg.get::<_, String>("two.0"), Ok(String::from("a")));
    assert_eq!(cfg.get::<_, String>("two.1"), Ok(String::from("b")));
    assert_eq!(cfg.get::<_, String>("two.2"), Ok(String::from("c")));

    assert!(cfg.set("one.two.three", "6").is_ok());
    assert!(cfg.set("0.0.0.a.0", "A").is_ok());
    assert!(cfg.set("0.1.0.b.0", "B").is_ok());

    assert_eq!(cfg.get::<_, String>("one.two.three"), Ok(String::from("6")));
    assert_eq!(cfg.get::<_, String>("0.0.0.a.0"), Ok(String::from("A")));
    assert_eq!(cfg.get::<_, String>("0.1.0.b.0"), Ok(String::from("B")));

    assert!(cfg.set("0.zero.0.a.0", "A").is_ok());

    assert_eq!(cfg.get::<_, String>("0.0.0.a.0"), Ok(String::from("A")));
    assert_eq!(cfg.get::<_, String>("0.zero.0.a.0"), Ok(String::from("A")));
}
