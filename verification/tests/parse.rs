use doson::{Binary, DataValue, Num, Order, ValueParser};

fn num(n: u64) -> DataValue {
    DataValue::Number(Num::from_int(n))
}

#[test]
fn list() {
    let value = "[1, 2, 3, 4, 5, 6]";
    let parsed = ValueParser::parse(value).unwrap();
    let expected = DataValue::List(vec![num(1), num(2), num(3), num(4), num(5), num(6)]);
    assert!(parsed.0.eq_value(&expected));
    assert_eq!(parsed.1, value.len());
}

#[test]
fn tuple() {
    let value = "(true,1)";
    let parsed = ValueParser::parse(value).unwrap();
    let expected = DataValue::Tuple((
        Box::new(DataValue::Boolean(true)),
        Box::new(num(1)),
    ));
    assert!(parsed.0.eq_value(&expected));
    assert_eq!(parsed.1, value.len());
}

#[test]
fn binary() {
    let message = "binary!(DOREASERVERTEST)";
    assert_eq!(&message[8..message.len() - 1], "DOREASERVERTEST");
    let parsed = ValueParser::parse(message).unwrap();
    assert_eq!(parsed.0.datatype(), "Binary");
}

#[test]
fn to_json() {
    let value = DataValue::List(vec![num(1), num(2), num(3)]);
    assert_eq!(
        value.to_json(),
        String::from("{\"List\":[{\"Number\":1.0},{\"Number\":2.0},{\"Number\":3.0}]}")
    )
}

#[test]
fn list_weight_and_size() {
    let v = DataValue::from("[1, 2, 3, 4, 5, 6]");
    assert_eq!(v.weight(), Some(Num::from_int(21)));
    assert_eq!(v.size(), 48);
}

#[test]
fn tuple_weight_and_size() {
    let v = DataValue::from("(true,1)");
    assert_eq!(v.weight(), Some(Num::from_int(1)));
    assert_eq!(v.size(), 9);
}

#[test]
fn dict_weight_and_reparse() {
    let v = DataValue::from("{\"a\":1,\"b\":2}");
    assert_eq!(v.weight(), Some(Num::from_int(3)));
    let again = DataValue::from(&v.to_string());
    assert!(v.eq_value(&again));
    let entries = again.as_dict().unwrap();
    assert_eq!(entries.len(), 2);
}

#[test]
fn empty_binary_round_trip() {
    let v = DataValue::from("binary!()");
    assert_eq!(v.size(), 0);
    assert_eq!(v.to_string(), "binary!()");
}

#[test]
fn unpadded_binary_body_collapses_to_empty() {
    let v = DataValue::from("binary!(SGVsbG8)");
    assert_eq!(v.datatype(), "Binary");
    assert_eq!(v.size(), 0);
}

#[test]
fn envelope_transparency() {
    let text = "[1,2]";
    let wrapped = format!("b:{}:", base64::encode(text));
    let via_envelope = DataValue::from(&wrapped);
    let direct = DataValue::from(text);
    assert!(via_envelope.eq_value(&direct));
    let items = via_envelope.as_list().unwrap();
    assert_eq!(items.len(), 2);
}

#[test]
fn garbage_parses_to_none() {
    let v = DataValue::from("garbage");
    assert_eq!(v.datatype(), "None");
    assert_eq!(v.size(), 0);
}

#[test]
fn blob_constructors() {
    let b = Binary::build(vec![72, 101, 108, 108, 111]);
    assert_eq!(b.size(), 5);
    assert_eq!(b.to_string(), "binary!(SGVsbG8=)");
    let d = Binary::from_b64(String::from("SGVsbG8=")).unwrap();
    assert_eq!(d.size(), 5);
    assert!(Binary::from_b64(String::from("SGVsbG8")).is_err());
    assert!(Binary::from_b64(String::from("@@@@")).is_err());
}

#[test]
fn numbers_round_trip() {
    for text in ["0", "1", "-1", "3.14", "-2.5", "1e3", "1.5e2", "12e-2", "+7"] {
        let v = DataValue::from(text);
        assert_eq!(v.datatype(), "Number");
        let again = DataValue::from(&v.to_string());
        assert!(v.eq_value(&again));
    }
    assert_eq!(DataValue::from("1e3").to_string(), "1000");
    assert_eq!(DataValue::from("12e-2").to_string(), "0.12");
    assert_eq!(DataValue::from("3.14").to_string(), "3.14");
}

#[test]
fn strings_keep_escapes_verbatim() {
    let v = DataValue::from("\"a\\nb\"");
    assert_eq!(v.as_string().unwrap(), "a\\nb");
    assert_eq!(v.to_string(), "\"a\\nb\"");
    let empty = DataValue::from("\"\"");
    assert_eq!(empty.as_string().unwrap(), "");
}

#[test]
fn booleans_case_insensitive() {
    assert_eq!(DataValue::from("TRUE").as_bool(), Some(true));
    assert_eq!(DataValue::from("False").as_bool(), Some(false));
    assert_eq!(DataValue::from("true").to_string(), "true");
}

#[test]
fn accessors_are_exact() {
    let n = DataValue::from("5");
    assert_eq!(n.as_number(), Some(Num::from_int(5)));
    assert!(n.as_bool().is_none());
    assert!(n.as_string().is_none());
    assert!(n.as_list().is_none());
    assert!(n.as_dict().is_none());
    assert!(n.as_tuple().is_none());
    let t = DataValue::from("(1,2)");
    let (a, b) = t.as_tuple().unwrap();
    assert!(a.eq_value(&num(1)));
    assert!(b.eq_value(&num(2)));
}

#[test]
fn ordering_by_weight() {
    let a = DataValue::from("1");
    let b = DataValue::from("2");
    assert_eq!(a.compare(&b), Order::Less);
    assert_eq!(b.compare(&a), Order::Greater);
    assert_eq!(a.compare(&a), Order::Equal);
    // weightless values sit above every weighted one
    let s = DataValue::from("\"hi\"");
    assert_eq!(s.compare(&b), Order::Greater);
    assert_eq!(b.compare(&s), Order::Less);
    assert_eq!(s.compare(&s), Order::Equal);
    // fractions compare exactly
    let x = DataValue::from("0.3");
    let y = DataValue::from("0.25");
    assert_eq!(x.compare(&y), Order::Greater);
}

#[test]
fn sentinel_suppression() {
    // only non-numeric leaves: the composite weighs zero
    let v = DataValue::from("[\"a\",true]");
    assert_eq!(v.weight(), Some(Num::zero()));
    // mixed: the numbers alone decide
    let m = DataValue::from("[\"a\",2,3]");
    assert_eq!(m.weight(), Some(Num::from_int(5)));
}

#[test]
fn dict_duplicate_keys_overwrite() {
    let v = DataValue::from("{\"a\":1,\"a\":2}");
    let entries = v.as_dict().unwrap();
    assert_eq!(entries.len(), 1);
    assert_eq!(entries[0].0, "a");
    assert!(entries[0].1.eq_value(&num(2)));
}

#[test]
fn malformed_documents_are_none() {
    for text in ["(1)", "[1,]", "[ ]", "{\"a\" 1}", "1e", ""] {
        assert_eq!(DataValue::from(text).datatype(), "None", "input {:?}", text);
    }
}

#[test]
fn whitespace_is_skipped() {
    let v = DataValue::from("  [ 1 , 2 ]  ");
    let items = v.as_list().unwrap();
    assert_eq!(items.len(), 2);
}
