use envit::array::FlatArray;
use envit::literal::{Decimal, Literal};
use envit::querable::{QueryError, QueryKind};
use envit::value::{ObjectMap, Value};

fn sample_object() -> Value {
    let mut value = Value::empty_object();
    assert!(value.insert("name".to_string(), Value::string("n")).is_none());
    assert!(value.insert("count".to_string(), Value::integer(3)).is_none());
    assert!(value
        .insert(
            "list".to_string(),
            Value::Array(FlatArray::new(vec![Literal::integer(1), Literal::bool(true)]))
        )
        .is_none());
    value
}

#[test]
fn values_give_what_they_hold_and_nothing_else() {
    assert_eq!(Value::string("x").as_str(), Some("x"));
    assert_eq!(Value::integer(1).as_str(), None);
    assert_eq!(Value::integer(-4).as_int(), Some(-4));
    assert_eq!(Value::string("4").as_int(), None);
    assert_eq!(Value::bool(true), Value::Literal(Literal::Bool(true)));
    let d = Value::double(Decimal::parse("0.5").unwrap());
    assert_eq!(d.as_double().map(|d| d.as_str()), Some("0.5"));
    assert_eq!(Value::integer(1).as_double(), None);
    assert_eq!(Value::empty_list().as_vec().map(|v| v.len()), Some(0));
    assert!(Value::integer(1).as_vec().is_none());
    assert!(Value::empty_object().as_object().is_some());
    assert!(Value::empty_list().as_object().is_none());
}

#[test]
fn insert_binds_in_objects_only() {
    let mut scalar = Value::integer(1);
    assert_eq!(scalar.insert("k".to_string(), Value::integer(2)), None);
    assert_eq!(scalar, Value::integer(1));
    let mut list = Value::empty_list();
    assert_eq!(list.insert("k".to_string(), Value::integer(2)), None);
    assert_eq!(list, Value::empty_list());
    let mut object = Value::empty_object();
    assert_eq!(object.insert("k".to_string(), Value::integer(2)), None);
    assert_eq!(object.insert("k".to_string(), Value::integer(3)), Some(Value::integer(2)));
    assert_eq!(object.as_object().unwrap().get("k"), Some(&Value::integer(3)));
    assert_eq!(object.as_object().unwrap().len(), 1);
}

#[test]
fn objects_are_the_same_whatever_the_order_of_insertion() {
    let mut a = ObjectMap::new();
    a.insert("x".to_string(), Value::integer(1));
    a.insert("y".to_string(), Value::integer(2));
    a.insert("a".to_string(), Value::integer(0));
    let mut b = ObjectMap::new();
    b.insert("a".to_string(), Value::integer(0));
    b.insert("y".to_string(), Value::integer(7));
    b.insert("x".to_string(), Value::integer(1));
    b.insert("y".to_string(), Value::integer(2));
    assert_eq!(a, b);
    let keys: Vec<&str> = a.entries().iter().map(|e| e.0.as_str()).collect();
    assert_eq!(keys, vec!["a", "x", "y"]);
    assert_eq!(a.len(), 3);
    assert_eq!(a.get("y"), Some(&Value::integer(2)));
    assert_eq!(a.get("z"), None);
    assert_eq!(ObjectMap::new().len(), 0);
}

#[test]
fn query_kind_tells_containers_apart() {
    assert_eq!(Value::integer(1).query_kind(), None);
    assert_eq!(Value::empty_list().query_kind(), Some(QueryKind::Array));
    assert_eq!(Value::empty_object().query_kind(), Some(QueryKind::Dictionary));
}

#[test]
fn query_dict_finds_keys_of_objects() {
    let object = sample_object();
    assert_eq!(object.query_dict("count"), Ok(&Value::integer(3)));
    assert_eq!(object.query_dict("nope"), Err(QueryError::KeyNotExist("nope".to_string())));
    assert_eq!(
        Value::empty_list().query_dict("k"),
        Err(QueryError::TypeError("k".to_string(), QueryKind::Array, QueryKind::Dictionary))
    );
    assert_eq!(
        Value::integer(1).query_dict("k"),
        Err(QueryError::UnknownType("k".to_string()))
    );
}

#[test]
fn query_array_finds_elements_of_arrays() {
    let object = sample_object();
    let list = object.query_dict("list").unwrap();
    assert_eq!(list.query_array(0), Ok(&Literal::integer(1)));
    assert_eq!(list.query_array(1), Ok(&Literal::bool(true)));
    assert_eq!(list.query_array(2), Err(QueryError::IndexNotExist(2)));
    assert_eq!(
        object.query_array(12),
        Err(QueryError::TypeError("[12]".to_string(), QueryKind::Dictionary, QueryKind::Array))
    );
    assert_eq!(
        Value::integer(1).query_array(0),
        Err(QueryError::UnknownType("[0]".to_string()))
    );
}
