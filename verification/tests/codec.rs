use recstore::codec::{
    marshall, marshall_i32, marshall_str, marshall_u64, unmarshall, unmarshall_i32, unmarshall_str,
    unmarshall_u64, Record,
};
use recstore::types::FieldName;

fn record(pairs: &[(&str, &str)]) -> Record {
    let mut data = Record::new();
    for (field, value) in pairs {
        data.set(FieldName(field.to_string()), value.to_string());
    }
    data
}

#[test]
fn marshall_int() {
    let input = marshall_i32(1234);
    let out: i32 = unmarshall_i32(&input).unwrap();
    assert_eq!(1234, out);
}

#[test]
fn marshall_string() {
    let input = marshall_str(&"foobar".to_string());
    let out: String = unmarshall_str(&input).unwrap();
    assert_eq!("foobar", &out);
}

#[test]
fn marshall_unsigned() {
    let input = marshall_u64(0xdead_beef_0123_4567);
    assert_eq!(input.len(), 8);
    assert_eq!(unmarshall_u64(&input).unwrap(), 0xdead_beef_0123_4567);
}

#[test]
fn marshall_negative_int() {
    let input = marshall_i32(-1234);
    assert_eq!(input.len(), 4);
    assert_eq!(unmarshall_i32(&input).unwrap(), -1234);
}

#[test]
fn string_encoding_is_length_prefixed_utf8() {
    let bytes = marshall_str(&"ab".to_string());
    assert_eq!(bytes, vec![2, 0, 0, 0, 0, 0, 0, 0, b'a', b'b']);
}

#[test]
fn record_round_trips() {
    let data = record(&[("name", "foo"), ("age", "123"), ("note", "naïve ✓")]);
    let bytes = marshall(&data).unwrap();
    assert_eq!(unmarshall(&bytes).unwrap(), data);
}

#[test]
fn empty_record_round_trips() {
    let data = record(&[]);
    let bytes = marshall(&data).unwrap();
    assert_eq!(bytes, vec![0; 8]);
    let back = unmarshall(&bytes).unwrap();
    assert_eq!(back.len(), 0);
}

#[test]
fn scalar_length_mismatch_is_an_error() {
    assert!(unmarshall_u64(&vec![1, 2, 3]).is_err());
    assert!(unmarshall_i32(&vec![1, 2, 3, 4, 5]).is_err());
}

#[test]
fn truncated_string_is_an_error() {
    let mut bytes = marshall_str(&"foobar".to_string());
    bytes.pop();
    assert!(unmarshall_str(&bytes).is_err());
    assert!(unmarshall_str(&vec![1, 2]).is_err());
}

#[test]
fn trailing_bytes_are_an_error() {
    let mut bytes = marshall_str(&"foobar".to_string());
    bytes.push(0);
    assert!(unmarshall_str(&bytes).is_err());

    let mut rec_bytes = marshall(&record(&[("a", "b")])).unwrap();
    rec_bytes.push(0);
    assert!(unmarshall(&rec_bytes).is_err());
}

#[test]
fn malformed_utf8_is_an_error() {
    let mut bytes = marshall_u64(1);
    bytes.push(0xff);
    assert!(unmarshall_str(&bytes).is_err());
}

#[test]
fn truncated_record_is_an_error() {
    let mut bytes = marshall(&record(&[("foo", "1234")])).unwrap();
    bytes.pop();
    assert!(unmarshall(&bytes).is_err());
    assert!(unmarshall(&vec![]).is_err());
}

#[test]
fn repeated_field_name_is_an_error() {
    let mut bytes = marshall_u64(2);
    bytes.extend(marshall_str(&"a".to_string()));
    bytes.extend(marshall_str(&"1".to_string()));
    bytes.extend(marshall_str(&"a".to_string()));
    bytes.extend(marshall_str(&"2".to_string()));
    assert!(unmarshall(&bytes).is_err());
}

#[test]
fn set_replaces_in_place() {
    let mut data = Record::new();
    data.set(FieldName("foo".to_string()), "1".to_string());
    data.set(FieldName("bar".to_string()), "2".to_string());
    data.set(FieldName("foo".to_string()), "3".to_string());
    assert_eq!(data.len(), 2);
    assert_eq!(data.get(&FieldName("foo".to_string())), Some(&"3".to_string()));
    assert_eq!(data.get(&FieldName("bar".to_string())), Some(&"2".to_string()));
    assert_eq!(data.get(&FieldName("baz".to_string())), None);
}
