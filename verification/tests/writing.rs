use envit::error::{DeserializeError, SerializeError};
use envit::options::{OptionsBuilder, OptionsError};
use envit::ser::{
    DefaultArrayFormatter, DefaultFieldFormatter, DefaultStringFormatter, MapFlow, SeqFlow,
    Serializer,
};
use envit::types::{ArrayFormatter, FieldFormatter, StringFormatter};

type Plain = Serializer<DefaultArrayFormatter, DefaultFieldFormatter, DefaultStringFormatter>;

#[test]
fn formatters_append_their_marks() {
    let mut text = String::from("x");
    DefaultStringFormatter::format(&mut text, "a b");
    assert_eq!(text, "x\"a b\"");
    let mut text = String::new();
    DefaultArrayFormatter::begin(&mut text);
    DefaultArrayFormatter::separate(&mut text);
    DefaultArrayFormatter::end(&mut text);
    assert_eq!(text, "[,]");
    let mut text = String::new();
    DefaultFieldFormatter::field_sep(&mut text);
    DefaultFieldFormatter::pair_sep(&mut text);
    DefaultFieldFormatter::value_sep(&mut text);
    assert_eq!(text, "__=\n");
}

#[test]
fn the_separator_of_a_pair_is_written_once_before_its_value() {
    let mut ser = Plain::new();
    assert!(!ser.is_value());
    ser.serialize_str("KEY");
    ser.set_value();
    assert!(ser.is_value());
    ser.serialize_i64(-12);
    assert!(!ser.is_value());
    ser.serialize_bool(true);
    ser.end_pair();
    assert_eq!(ser.output(), "\"KEY\"=-12true\n");
}

#[test]
fn scalars_are_written_in_their_canonical_text() {
    let mut ser = Plain::new();
    ser.serialize_u64(u64::MAX);
    ser.serialize_char('c');
    ser.serialize_unit();
    ser.serialize_bool(false);
    ser.serialize_i64(i64::MIN);
    ser.serialize_raw("1.5");
    ser.serialize_u64(0);
    assert_eq!(
        ser.into_output(),
        "18446744073709551615\"c\"nullfalse-92233720368547758081.50"
    );
}

#[test]
fn render_pair_sep_and_the_flag() {
    let mut ser = Plain::new();
    ser.render_pair_sep();
    assert_eq!(ser.output(), "");
    ser.set_value();
    ser.render_pair_sep();
    assert_eq!(ser.output(), "=");
    ser.render_pair_sep();
    assert_eq!(ser.output(), "=");
    ser.set_value();
    ser.non_value();
    ser.render_pair_sep();
    assert_eq!(ser.output(), "=");
}

#[test]
fn a_sequence_is_opened_separated_and_closed() {
    let mut ser = Plain::new();
    ser.set_value();
    let mut flow = ser.serialize_seq();
    flow.serialize_element(&mut ser);
    ser.serialize_i64(1);
    flow.serialize_element(&mut ser);
    ser.serialize_i64(2);
    flow.serialize_element(&mut ser);
    ser.serialize_str("x");
    assert_eq!(flow.end(&mut ser), Ok(()));
    assert_eq!(ser.output(), "=[1,2,\"x\"]");
}

#[test]
fn a_sequence_without_elements_is_a_state_error() {
    let mut ser = Plain::new();
    let flow = ser.serialize_seq();
    assert_eq!(flow.end(&mut ser), Err(SerializeError::StateError));
    assert_eq!(ser.output(), "[");
    let mut flow = SeqFlow::initial();
    flow.set_next();
    flow.set_initial();
    assert_eq!(flow.end(&mut ser), Err(SerializeError::StateError));
    let mut flow = SeqFlow::initial();
    flow.set_next();
    assert_eq!(flow.end(&mut ser), Ok(()));
    assert_eq!(ser.output(), "[]");
}

#[test]
fn bytes_are_a_sequence_of_numbers() {
    let mut ser = Plain::new();
    assert_eq!(ser.serialize_bytes(&[1, 20, 255]), Ok(()));
    assert_eq!(ser.output(), "[1,20,255]");
    let mut ser = Plain::new();
    ser.set_value();
    assert_eq!(ser.serialize_bytes(&[7]), Ok(()));
    assert_eq!(ser.output(), "=[7]");
    let mut ser = Plain::new();
    assert_eq!(ser.serialize_bytes(&[]), Err(SerializeError::StateError));
    assert_eq!(ser.output(), "[");
}

#[test]
fn fields_of_a_structure() {
    let mut ser = Plain::new();
    let mut flow = SeqFlow::initial();
    flow.serialize_field(&mut ser, "a");
    ser.serialize_i64(1);
    flow.serialize_field(&mut ser, "b");
    ser.serialize_i64(2);
    assert_eq!(ser.output(), "\"a\"1__\"b\"=2");
}

#[test]
fn a_map_needs_a_key_and_a_value() {
    let mut ser = Plain::new();
    let flow = ser.serialize_map();
    assert_eq!(flow.end(&mut ser), Err(SerializeError::StateError));
    let mut flow = MapFlow::initial();
    flow.serialize_key(&mut ser);
    assert_eq!(flow.end(&mut ser), Err(SerializeError::StateError));
    let mut flow = MapFlow::initial();
    flow.serialize_value();
    assert_eq!(flow.end(&mut ser), Err(SerializeError::StateError));
    assert_eq!(ser.output(), "");
    let mut flow = MapFlow::initial();
    flow.serialize_key(&mut ser);
    ser.serialize_str("A");
    flow.serialize_key(&mut ser);
    ser.serialize_str("B");
    flow.serialize_value();
    ser.set_value();
    ser.serialize_u64(5);
    assert_eq!(flow.end(&mut ser), Ok(()));
    assert_eq!(ser.output(), "\"A\"__\"B\"=5\n");
}

#[test]
fn errors_in_words() {
    assert_eq!(
        SerializeError::custom("bad"),
        SerializeError::CustomError("custom error: bad".to_string())
    );
    assert_eq!(SerializeError::custom("bad").message(), "custom error: custom error: bad");
    assert_eq!(SerializeError::CustomError("x".to_string()).message(), "custom error: x");
    assert_eq!(SerializeError::IoError("disk full".to_string()).message(), "disk full");
    assert_eq!(SerializeError::StateError.message(), "StateError");
    assert_eq!(
        DeserializeError::custom("bad"),
        DeserializeError::CustomError("custom error: bad".to_string())
    );
    assert_eq!(DeserializeError::CustomError("x".to_string()).message(), "custom error: x");
}

#[test]
fn options_are_built_when_each_is_set() {
    let options = OptionsBuilder::default()
        .array_sep(",")
        .field_sep("=")
        .root(Some("sample"))
        .build()
        .expect("options");
    assert_eq!(options.array_sep(), ",");
    assert_eq!(options.field_sep(), "=");
    assert_eq!(options.root(), Some("sample"));
    let options =
        OptionsBuilder::default().array_sep(";").field_sep("__").root(None).build().unwrap();
    assert_eq!(options.root(), None);
}

#[test]
fn the_first_missing_option_is_named() {
    assert_eq!(OptionsBuilder::default().build(), Err(OptionsError::MissingArraySep));
    assert_eq!(
        OptionsBuilder::default().field_sep("_").root(None).build(),
        Err(OptionsError::MissingArraySep)
    );
    assert_eq!(
        OptionsBuilder::default().array_sep(",").root(None).build(),
        Err(OptionsError::MissingFieldSep)
    );
    assert_eq!(
        OptionsBuilder::default().array_sep(",").field_sep("_").build(),
        Err(OptionsError::MissingRoot)
    );
}
