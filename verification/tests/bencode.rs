use rdest::BValue;

#[test]
fn bencode_empty_input() {
    assert_eq!(BValue::parse(b""), Ok(vec![]));
}

#[test]
fn bencode_incorrect_character() {
    assert_eq!(
        BValue::parse(b"x"),
        Err(String::from("Loop [0]: Incorrect character"))
    );
}

#[test]
fn bencode_byte_str() {
    assert_eq!(
        BValue::parse(b"9:spamIsLoL"),
        Ok(vec![BValue::ByteStr(b"spamIsLoL".to_vec())])
    );
}

#[test]
fn bencode_byte_str_unexpected_end() {
    assert_eq!(
        BValue::parse(b"4"),
        Err(String::from("ByteStr [0]: Not enough characters"))
    );
}

#[test]
fn bencode_byte_str_missing_value() {
    assert_eq!(
        BValue::parse(b"4:"),
        Err(String::from("ByteStr [0]: Not enough characters"))
    );
}

#[test]
fn bencode_byte_str_not_enough_characters() {
    assert_eq!(
        BValue::parse(b"4:spa"),
        Err(String::from("ByteStr [0]: Not enough characters"))
    );
}

#[test]
fn bencode_byte_str_invalid_len_character() {
    assert_eq!(
        BValue::parse(b"4+3:spa"),
        Err(String::from("ByteStr [0]: Incorrect character"))
    );
}

#[test]
fn bencode_byte_str_zero_length() {
    assert_eq!(BValue::parse(b"0:"), Ok(vec![BValue::ByteStr(vec![])]));
}

#[test]
fn bencode_int_missing_e() {
    assert_eq!(
        BValue::parse(b"i"),
        Err(String::from("Int [0]: Missing terminate character 'e'"))
    );
}

#[test]
fn bencode_int_missing_value() {
    assert_eq!(
        BValue::parse(b"ie"),
        Err(String::from("Int [0]: Unable convert to int"))
    );
}

#[test]
fn bencode_int_incorrect_format1() {
    assert_eq!(
        BValue::parse(b"i-e"),
        Err(String::from("Int [0]: Unable convert to int"))
    );
}

#[test]
fn bencode_int_incorrect_format2() {
    assert_eq!(
        BValue::parse(b"i--4e"),
        Err(String::from("Int [0]: Unable convert to int"))
    );
}

#[test]
fn bencode_int_incorrect_format3() {
    assert_eq!(
        BValue::parse(b"i-4-e"),
        Err(String::from("Int [0]: Unable convert to int"))
    );
}

#[test]
fn bencode_int_incorrect_character() {
    assert_eq!(
        BValue::parse(b"i+4e"),
        Err(String::from("Int [0]: Incorrect character"))
    );
}

#[test]
fn bencode_int_leading_zero() {
    assert_eq!(
        BValue::parse(b"i01e"),
        Err(String::from("Int [0]: Leading zero"))
    );
}

#[test]
fn bencode_int_leading_zero_for_negative() {
    assert_eq!(
        BValue::parse(b"i-01e"),
        Err(String::from("Int [0]: Leading zero"))
    );
}

#[test]
fn bencode_int_zero() {
    assert_eq!(BValue::parse(b"i0e"), Ok(vec![BValue::Int(0)]));
}

#[test]
fn bencode_int_positive() {
    assert_eq!(BValue::parse(b"i4e"), Ok(vec![BValue::Int(4)]));
}

#[test]
fn bencode_int_negative() {
    assert_eq!(BValue::parse(b"i-4e"), Ok(vec![BValue::Int(-4)]));
}

#[test]
fn bencode_int_above_u32() {
    assert_eq!(
        BValue::parse(b"i4294967297e"),
        Ok(vec![BValue::Int(4294967297)])
    );
}


#[test]
fn bencode_list_of_strings() {
    assert_eq!(
        BValue::parse(b"l4:spam4:eggse"),
        Ok(vec![BValue::List(vec![
            BValue::ByteStr(b"spam".to_vec()),
            BValue::ByteStr(b"eggs".to_vec())
        ])])
    );
}

#[test]
fn bencode_list_of_ints() {
    assert_eq!(
        BValue::parse(b"li1ei9ee"),
        Ok(vec![BValue::List(vec![BValue::Int(1), BValue::Int(9)])])
    );
}

#[test]
fn bencode_list_of_nested_values() {
    assert_eq!(
        BValue::parse(b"lli1ei5ee3:abce"),
        Ok(vec![BValue::List(vec![
            BValue::List(vec![BValue::Int(1), BValue::Int(5)]),
            BValue::ByteStr(b"abc".to_vec())
        ])])
    );
}

#[test]
fn bencode_dict_odd_number_of_elements() {
    assert_eq!(
        BValue::parse(b"di1ee"),
        Err(String::from("Dict [0]: Odd number of elements"))
    );
}

#[test]
fn bencode_dict_key_not_string() {
    assert_eq!(
        BValue::parse(b"di1ei1ee"),
        Err(String::from("Dict [0]: Key not string"))
    );
}

#[test]
fn bencode_dict() {
    assert_eq!(
        BValue::parse(b"d1:ki5ee"),
        Ok(vec![BValue::Dict(vec![(vec![b'k'], BValue::Int(5))]),])
    );
}

#[test]
fn bencode_two_ints() {
    assert_eq!(
        BValue::parse(b"i2ei-3e"),
        Ok(vec![BValue::Int(2), BValue::Int(-3)])
    );
}

#[test]
fn bencode_empty_string_and_int() {
    assert_eq!(
        BValue::parse(b"0:i4e"),
        Ok(vec![BValue::ByteStr(vec![]), BValue::Int(4)])
    );
}

#[test]
fn bencode_incorrect_value_char_pointer_change() {
    assert_eq!(
        BValue::parse(b"i1ei2ei01e"),
        Err(String::from("Int [6]: Leading zero"))
    );
}

#[test]
fn bencode_find_raw_int_value() {
    assert_eq!(
        BValue::find_raw_value("1:k", b"d1:ki-5ee"),
        Some(b"i-5e".to_vec())
    );
}

#[test]
fn bencode_find_raw_str_value() {
    assert_eq!(
        BValue::find_raw_value("1:k", b"d1:k4:spame"),
        Some(b"4:spam".to_vec())
    );
}

#[test]
fn bencode_find_raw_list_value() {
    assert_eq!(
        BValue::find_raw_value("1:k", b"d1:kli10ei20ee"),
        Some(b"li10ei20ee".to_vec())
    );
}

#[test]
fn bencode_find_raw_dict_value() {
    assert_eq!(
        BValue::find_raw_value("1:k", b"i4ed1:kdi5ei0eee"),
        Some(b"di5ei0ee".to_vec())
    );
}

#[test]
fn bencode_find_raw_first_find() {
    assert_eq!(
        BValue::find_raw_value("1:k", b"d1:ki1eed1:ki2ee"),
        Some(b"i1e".to_vec())
    );
}

#[test]
fn find_raw_value_not_found() {
    assert_eq!(
        BValue::find_raw_value("1:k", b"di0ei1ee"),
        None
    );
}

#[test]
fn find_raw_value_of_last_key() {
    assert_eq!(
        BValue::find_raw_value("i2e", b"di0ei1ei2ei3ee"),
        Some(b"i3e".to_vec())
    );
}

#[test]
fn find_raw_value_in_sub_dict() {
    assert_eq!(
        BValue::find_raw_value("i1e", b"i4ed1:kdi1ei9eee"),
        Some(b"i9e".to_vec())
    );
}

#[test]
fn find_raw_value_in_dict_key() {
    assert_eq!(
        BValue::find_raw_value("i1e", b"ddi1ei9ee1:ke"),
        Some(b"i9e".to_vec())
    );
}

#[test]
fn find_raw_value_key_as_dict() {
    assert_eq!(
        BValue::find_raw_value("di1ei9ee", b"ddi1ei9ee1:ke"),
        Some(b"1:k".to_vec())
    );
}
