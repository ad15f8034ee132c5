use haste_entities::instancebaseline::{
    parse_class_id, Error, InstanceBaseline, StringTableItem, INSTANCE_BASELINE_TABLE_NAME,
};

fn item(name: &str, data: Option<&[u8]>) -> StringTableItem {
    StringTableItem { string: Some(name.as_bytes().to_vec()), user_data: data.map(|d| d.to_vec()) }
}

#[test]
fn table_name() {
    assert_eq!(INSTANCE_BASELINE_TABLE_NAME, "instancebaseline");
}

#[test]
fn parse_class_id_reads_decimal() {
    assert_eq!(parse_class_id(b"0"), Some(0));
    assert_eq!(parse_class_id(b"12"), Some(12));
    assert_eq!(parse_class_id(b"0042"), Some(42));
    assert_eq!(parse_class_id(b"9999"), Some(9999));
    assert_eq!(parse_class_id(b"+7"), Some(7));
    assert_eq!(parse_class_id(b"-3"), Some(-3));
    assert_eq!(parse_class_id(b"-0"), Some(0));
}

#[test]
fn parse_class_id_at_the_limits() {
    assert_eq!(parse_class_id(b"2147483647"), Some(i32::MAX));
    assert_eq!(parse_class_id(b"2147483648"), None);
    assert_eq!(parse_class_id(b"-2147483648"), Some(i32::MIN));
    assert_eq!(parse_class_id(b"-2147483649"), None);
    assert_eq!(parse_class_id(b"99999999999999999999999999"), None);
    assert_eq!(parse_class_id(b"00000000000000000000000001"), Some(1));
}

#[test]
fn parse_class_id_rejects_what_is_no_number() {
    assert_eq!(parse_class_id(b""), None);
    assert_eq!(parse_class_id(b"+"), None);
    assert_eq!(parse_class_id(b"-"), None);
    assert_eq!(parse_class_id(b"12a"), None);
    assert_eq!(parse_class_id(b"a12"), None);
    assert_eq!(parse_class_id(b" 12"), None);
    assert_eq!(parse_class_id(b"1 2"), None);
    assert_eq!(parse_class_id(b"--1"), None);
    assert_eq!(parse_class_id(b"1-"), None);
    assert_eq!(parse_class_id(b"/"), None);
    assert_eq!(parse_class_id(b":"), None);
    assert_eq!(parse_class_id(&[0xff]), None);
}

#[test]
fn parse_class_id_agrees_with_std() {
    for text in ["0", "7", "-7", "+7", "123456", "2147483647", "2147483648", "-2147483648", "", "x", "1x", "+-1"] {
        assert_eq!(parse_class_id(text.as_bytes()), text.parse::<i32>().ok(), "{}", text);
    }
}

#[test]
fn update_puts_each_blob_at_its_class_id() {
    let mut table = InstanceBaseline::new();
    let items = vec![item("2", Some(&[1, 2, 3])), item("0", Some(&[9])), item("1", None)];
    assert_eq!(table.update(&items, 4), Ok(()));
    assert_eq!(table.get_data(0), Some(&[9u8][..]));
    assert_eq!(table.get_data(1), None);
    assert_eq!(table.get_data(2), Some(&[1u8, 2, 3][..]));
    assert_eq!(table.get_data(3), None);
    assert_eq!(table.get_data(4), None);
    assert_eq!(table.get_data(-1), None);
}

#[test]
fn update_later_item_replaces_earlier() {
    let mut table = InstanceBaseline::default();
    let items = vec![item("1", Some(&[1])), item("1", Some(&[2, 2])), item("0", Some(&[3]))];
    assert_eq!(table.update(&items, 2), Ok(()));
    assert_eq!(table.get_data(1), Some(&[2u8, 2][..]));
    let again = vec![item("1", None)];
    assert_eq!(table.update(&again, 1), Ok(()));
    // the table does not shrink, and an absent blob clears the place
    assert_eq!(table.get_data(1), None);
    assert_eq!(table.get_data(0), Some(&[3u8][..]));
}

#[test]
fn update_with_invalid_digits_is_a_parse_error() {
    let mut table = InstanceBaseline::new();
    let items = vec![item("0", Some(&[1])), item("1x", Some(&[2])), item("1", Some(&[3]))];
    assert_eq!(table.update(&items, 2), Err(Error::ParseIntError));
    // the item before the failing one stands, the one after it was not read
    assert_eq!(table.get_data(0), Some(&[1u8][..]));
    assert_eq!(table.get_data(1), None);
}

#[test]
fn update_without_a_name_is_an_error() {
    let mut table = InstanceBaseline::new();
    let items = vec![StringTableItem { string: None, user_data: Some(vec![1]) }];
    assert_eq!(table.update(&items, 2), Err(Error::MissingClassId));
    assert_eq!(table.get_data(0), None);
}

#[test]
fn update_with_a_class_id_out_of_range_is_an_error() {
    let mut table = InstanceBaseline::new();
    assert_eq!(table.update(&vec![item("2", Some(&[1]))], 2), Err(Error::ClassIdOutOfRange));
    assert_eq!(table.update(&vec![item("-1", Some(&[1]))], 2), Err(Error::ClassIdOutOfRange));
    assert_eq!(table.update(&vec![item("1", Some(&[1]))], 2), Ok(()));
    assert_eq!(table.get_data(1), Some(&[1u8][..]));
    let mut empty = InstanceBaseline::new();
    assert_eq!(empty.update(&vec![item("0", None)], 0), Err(Error::ClassIdOutOfRange));
    assert_eq!(empty.update(&Vec::new(), 0), Ok(()));
}
