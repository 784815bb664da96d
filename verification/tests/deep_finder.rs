use rdest::{DeepFinder, RawFinder};

#[test]
fn deep_finder_find_raw_int_value() {
    assert_eq!(
        DeepFinder::find_first("1:k", b"d1:ki-5ee"),
        Some(b"i-5e".to_vec())
    );
}

#[test]
fn deep_finder_find_raw_str_value() {
    assert_eq!(
        DeepFinder::find_first("1:k", b"d1:k4:spame"),
        Some(b"4:spam".to_vec())
    );
}

#[test]
fn deep_finder_find_raw_list_value() {
    assert_eq!(
        DeepFinder::find_first("1:k", b"d1:kli10ei20ee"),
        Some(b"li10ei20ee".to_vec())
    );
}

#[test]
fn deep_finder_find_raw_dict_value() {
    assert_eq!(
        DeepFinder::find_first("1:k", b"i4ed1:kdi5ei0eee"),
        Some(b"di5ei0ee".to_vec())
    );
}

#[test]
fn deep_finder_find_raw_first_find() {
    assert_eq!(
        DeepFinder::find_first("1:k", b"d1:ki1eed1:ki2ee"),
        Some(b"i1e".to_vec())
    );
}

#[test]
fn deep_finder_find_deep_not_found() {
    assert_eq!(DeepFinder::find_first("1:k", b"di0ei1ee"), None);
}

#[test]
fn deep_finder_find_deep_incorrect_bencode() {
    assert_eq!(DeepFinder::find_first("1:k", b"d1:kX4:spame"), None);
}

#[test]
fn deep_finder_find_deep_of_last_key() {
    assert_eq!(
        DeepFinder::find_first("i2e", b"di0ei1ei2ei3ee"),
        Some(b"i3e".to_vec())
    );
}

#[test]
fn deep_finder_find_deep_in_sub_dict() {
    assert_eq!(
        DeepFinder::find_first("i1e", b"i4ed1:kdi1ei9eee"),
        Some(b"i9e".to_vec())
    );
}

#[test]
fn deep_finder_find_deep_in_dict_key() {
    assert_eq!(
        DeepFinder::find_first("i1e", b"ddi1ei9ee1:ke"),
        Some(b"i9e".to_vec())
    );
}

#[test]
fn deep_finder_find_deep_key_as_dict() {
    assert_eq!(
        DeepFinder::find_first("di1ei9ee", b"ddi1ei9ee1:ke"),
        Some(b"1:k".to_vec())
    );
}

#[test]
fn test_deep_finder_find_raw_int_value() {
    assert_eq!(
        DeepFinder::find_first("1:k", b"d1:ki-5ee"),
        Some(b"i-5e".to_vec())
    );
}

#[test]
fn test_deep_finder_find_raw_str_value() {
    assert_eq!(
        DeepFinder::find_first("1:k", b"d1:k4:spame"),
        Some(b"4:spam".to_vec())
    );
}

#[test]
fn test_deep_finder_find_raw_list_value() {
    assert_eq!(
        DeepFinder::find_first("1:k", b"d1:kli10ei20ee"),
        Some(b"li10ei20ee".to_vec())
    );
}

#[test]
fn test_deep_finder_find_raw_dict_value() {
    assert_eq!(
        DeepFinder::find_first("1:k", b"i4ed1:kdi5ei0eee"),
        Some(b"di5ei0ee".to_vec())
    );
}

#[test]
fn test_deep_finder_find_raw_first_find() {
    assert_eq!(
        DeepFinder::find_first("1:k", b"d1:ki1eed1:ki2ee"),
        Some(b"i1e".to_vec())
    );
}

#[test]
fn test_deep_finder_find_deep_not_found() {
    assert_eq!(DeepFinder::find_first("1:k", b"di0ei1ee"), None);
}

#[test]
fn test_deep_finder_find_deep_incorrect_bencode() {
    assert_eq!(DeepFinder::find_first("1:k", b"d1:kX4:spame"), None);
}

#[test]
fn test_deep_finder_find_deep_of_last_key() {
    assert_eq!(
        DeepFinder::find_first("i2e", b"di0ei1ei2ei3ee"),
        Some(b"i3e".to_vec())
    );
}

#[test]
fn test_deep_finder_find_deep_in_sub_dict() {
    assert_eq!(
        DeepFinder::find_first("i1e", b"i4ed1:kdi1ei9eee"),
        Some(b"i9e".to_vec())
    );
}

#[test]
fn test_deep_finder_find_deep_in_dict_key() {
    assert_eq!(
        DeepFinder::find_first("i1e", b"ddi1ei9ee1:ke"),
        Some(b"i9e".to_vec())
    );
}

#[test]
fn test_deep_finder_find_deep_key_as_dict() {
    assert_eq!(
        DeepFinder::find_first("di1ei9ee", b"ddi1ei9ee1:ke"),
        Some(b"1:k".to_vec())
    );
}

#[test]
fn deep_finder_first_key_in_document_order() {
    // A dictionary met as a value is searched before the pairs after it.
    assert_eq!(
        DeepFinder::find_first("4:name", b"d4:infod4:name1:ae4:name1:be"),
        Some(b"1:a".to_vec())
    );
    // Otherwise the first pair with the key wins.
    assert_eq!(
        DeepFinder::find_first("4:name", b"d1:ai1e4:name1:b1:zd4:name1:cee"),
        Some(b"1:b".to_vec())
    );
    // A key that is not there is not found.
    assert_eq!(DeepFinder::find_first("4:none", b"d1:ai1e4:name1:be"), None);
}
