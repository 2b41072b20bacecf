use envit::assemble::{assemble, is_sorted};
use envit::de::EnvPair;
use envit::error::{ArrayError, AssembleError, LiteralError};
use envit::value::Value;

fn pair(path: &[&str], raw: &str) -> EnvPair {
    EnvPair::new(path.iter().map(|s| s.to_string()).collect(), raw.to_string()).expect("a path")
}

fn path(segments: &[&str]) -> Vec<String> {
    segments.iter().map(|s| s.to_string()).collect()
}

fn object(entries: Vec<(&str, Value)>) -> Value {
    let mut value = Value::empty_object();
    for (key, entry) in entries {
        assert!(value.insert(key.to_string(), entry).is_none());
    }
    value
}

#[test]
fn assembler_same_parent() {
    let pairs = vec![pair(&["A", "B", "X"], "1"), pair(&["A", "B", "Y"], "2")];
    let expected = object(vec![(
        "A",
        object(vec![("B", object(vec![("X", Value::integer(1)), ("Y", Value::integer(2))]))]),
    )]);
    assert_eq!(assemble(&pairs), Ok(expected));
}

#[test]
fn assembler_divergence_with_shared_ancestor() {
    let pairs = vec![pair(&["A", "B", "X"], "1"), pair(&["A", "C", "Y"], "2")];
    let expected = object(vec![(
        "A",
        object(vec![
            ("B", object(vec![("X", Value::integer(1))])),
            ("C", object(vec![("Y", Value::integer(2))])),
        ]),
    )]);
    assert_eq!(assemble(&pairs), Ok(expected));
}

#[test]
fn assembler_divergence_with_no_shared_ancestor() {
    let pairs = vec![pair(&["A", "X"], "1"), pair(&["B", "Y"], "2")];
    let expected = object(vec![
        ("A", object(vec![("X", Value::integer(1))])),
        ("B", object(vec![("Y", Value::integer(2))])),
    ]);
    assert_eq!(assemble(&pairs), Ok(expected));
}

#[test]
fn duplicate_key_rejection() {
    let pairs = vec![pair(&["A", "X"], "1"), pair(&["A", "X"], "2")];
    assert_eq!(assemble(&pairs), Err(AssembleError::DuplicateKey(path(&["A", "X"]))));
}

#[test]
fn type_conflict_rejection() {
    let pairs = vec![pair(&["A"], "1"), pair(&["A", "B"], "2")];
    assert_eq!(assemble(&pairs), Err(AssembleError::TypeConflict(path(&["A"]))));
}

#[test]
fn unsorted_input_is_refused() {
    let pairs = vec![pair(&["B", "Y"], "2"), pair(&["A", "X"], "1")];
    assert!(!is_sorted(&pairs));
    assert_eq!(assemble(&pairs), Err(AssembleError::UnsortedInput));
    let pairs = vec![pair(&["A", "B"], "2"), pair(&["A"], "1")];
    assert_eq!(assemble(&pairs), Err(AssembleError::UnsortedInput));
}

#[test]
fn unsorted_input_is_refused_before_any_value_is_read() {
    let pairs = vec![pair(&["A"], "-"), pair(&["C"], "1"), pair(&["B"], "2")];
    assert_eq!(assemble(&pairs), Err(AssembleError::UnsortedInput));
}

#[test]
fn no_pairs_assemble_to_the_empty_object() {
    let pairs: Vec<EnvPair> = Vec::new();
    assert!(is_sorted(&pairs));
    assert_eq!(assemble(&pairs), Ok(Value::empty_object()));
}

#[test]
fn a_single_scalar_pair_is_an_object_of_one_key() {
    let pairs = vec![pair(&["A"], "true")];
    assert_eq!(assemble(&pairs), Ok(object(vec![("A", Value::bool(true))])));
}

#[test]
fn values_of_pairs_fail_the_assembly() {
    let pairs = vec![pair(&["A"], "1"), pair(&["B"], "-"), pair(&["C"], "")];
    assert_eq!(
        assemble(&pairs),
        Err(AssembleError::LiteralError(LiteralError::NumberError))
    );
    let pairs = vec![pair(&["A"], "")];
    assert_eq!(
        assemble(&pairs),
        Err(AssembleError::LiteralError(LiteralError::EmptyInput))
    );
    let pairs = vec![pair(&["A"], "[1, -]")];
    assert_eq!(
        assemble(&pairs),
        Err(AssembleError::ArrayError(ArrayError::LiteralError(LiteralError::NumberError)))
    );
}

#[test]
fn the_first_failing_pair_decides() {
    let pairs = vec![pair(&["A"], "1"), pair(&["A", "B"], "-"), pair(&["A", "B"], "2")];
    assert_eq!(assemble(&pairs), Err(AssembleError::TypeConflict(path(&["A"]))));
    let pairs = vec![pair(&["A"], "1"), pair(&["A"], "-")];
    assert_eq!(
        assemble(&pairs),
        Err(AssembleError::LiteralError(LiteralError::NumberError))
    );
}

#[test]
fn deep_paths_close_and_open_many_objects() {
    let pairs = vec![
        pair(&["CONFIG", "APPLICATION", "LOGGER", "LEVEL"], "info"),
        pair(&["CONFIG", "DATABASE", "CONNECTION", "POOL"], "10"),
        pair(&["CONFIG", "DATABASE", "CONNECTION", "RETRIES"], "[10,20,30]"),
        pair(&["CONFIG", "DATABASE", "NAME"], "name"),
        pair(&["VERSION"], "1.5"),
    ];
    let tree = assemble(&pairs).expect("a tree");
    let config = tree.as_object().unwrap().get("CONFIG").unwrap().as_object().unwrap();
    assert_eq!(config.len(), 2);
    let logger = config.get("APPLICATION").unwrap().as_object().unwrap().get("LOGGER").unwrap();
    assert_eq!(logger.as_object().unwrap().get("LEVEL").unwrap().as_str(), Some("info"));
    let database = config.get("DATABASE").unwrap().as_object().unwrap();
    assert_eq!(database.get("NAME").unwrap().as_str(), Some("name"));
    let connection = database.get("CONNECTION").unwrap().as_object().unwrap();
    assert_eq!(connection.get("POOL").unwrap().as_int(), Some(10));
    assert_eq!(connection.get("RETRIES").unwrap().as_vec().unwrap().len(), 3);
    assert_eq!(
        tree.as_object().unwrap().get("VERSION").unwrap().as_double().unwrap().as_str(),
        "1.5"
    );
    assert!(tree.as_object().unwrap().get("MISSING").is_none());
}
