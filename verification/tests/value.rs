use bencode::{bytes_equal, Dictionary, TypeMismatch, Value};

#[test]
fn projections_give_the_matching_shape() {
    let number = Value::Integer(-3);
    let text = Value::ByteString(b"abc".to_vec());
    let list = Value::List(vec![Value::Integer(1)]);
    let mut dict = Dictionary::new();
    dict.insert(b"k".to_vec(), Value::Integer(9));
    let dictionary = Value::Dictionary(dict);

    assert_eq!(number.as_integer(), Ok(-3));
    assert_eq!(text.as_string(), Ok(&b"abc".to_vec()));
    assert_eq!(list.as_list(), Ok(&vec![Value::Integer(1)]));
    assert_eq!(dictionary.as_dictionary().unwrap().get(b"k"), Some(&Value::Integer(9)));
}

#[test]
fn projections_refuse_the_other_shapes() {
    let number = Value::Integer(-3);
    let text = Value::ByteString(b"abc".to_vec());
    let list = Value::List(vec![]);
    let dictionary = Value::Dictionary(Dictionary::new());

    assert_eq!(text.as_integer(), Err(TypeMismatch));
    assert_eq!(list.as_integer(), Err(TypeMismatch));
    assert_eq!(dictionary.as_integer(), Err(TypeMismatch));
    assert_eq!(number.as_string(), Err(TypeMismatch));
    assert_eq!(list.as_string(), Err(TypeMismatch));
    assert_eq!(dictionary.as_string(), Err(TypeMismatch));
    assert_eq!(number.as_list(), Err(TypeMismatch));
    assert_eq!(text.as_list(), Err(TypeMismatch));
    assert_eq!(dictionary.as_list(), Err(TypeMismatch));
    assert_eq!(number.as_dictionary(), Err(TypeMismatch));
    assert_eq!(text.as_dictionary(), Err(TypeMismatch));
    assert_eq!(list.as_dictionary(), Err(TypeMismatch));
}

#[test]
fn new_dictionary_is_empty() {
    let dict = Dictionary::new();
    assert_eq!(dict.len(), 0);
    assert!(dict.entries().is_empty());
    assert_eq!(dict.get(b"a"), None);
}

#[test]
fn insert_appends_new_keys() {
    let mut dict = Dictionary::new();
    dict.insert(b"b".to_vec(), Value::Integer(1));
    dict.insert(b"a".to_vec(), Value::Integer(2));
    dict.insert(b"".to_vec(), Value::Integer(3));
    assert_eq!(dict.len(), 3);
    assert_eq!(
        dict.entries(),
        &vec![
            (b"b".to_vec(), Value::Integer(1)),
            (b"a".to_vec(), Value::Integer(2)),
            (b"".to_vec(), Value::Integer(3)),
        ]
    );
    assert_eq!(dict.get(b"a"), Some(&Value::Integer(2)));
    assert_eq!(dict.get(b""), Some(&Value::Integer(3)));
    assert_eq!(dict.get(b"ab"), None);
}

#[test]
fn insert_replaces_in_place() {
    let mut dict = Dictionary::new();
    dict.insert(b"b".to_vec(), Value::Integer(1));
    dict.insert(b"a".to_vec(), Value::Integer(2));
    dict.insert(b"b".to_vec(), Value::ByteString(b"later".to_vec()));
    assert_eq!(dict.len(), 2);
    assert_eq!(
        dict.entries(),
        &vec![
            (b"b".to_vec(), Value::ByteString(b"later".to_vec())),
            (b"a".to_vec(), Value::Integer(2)),
        ]
    );
    assert_eq!(dict.get(b"b"), Some(&Value::ByteString(b"later".to_vec())));
}

#[test]
fn dictionaries_compare_entry_by_entry() {
    let mut one = Dictionary::new();
    one.insert(b"a".to_vec(), Value::Integer(1));
    one.insert(b"b".to_vec(), Value::Integer(2));
    let mut same = Dictionary::new();
    same.insert(b"a".to_vec(), Value::Integer(0));
    same.insert(b"b".to_vec(), Value::Integer(2));
    same.insert(b"a".to_vec(), Value::Integer(1));
    let mut other = Dictionary::new();
    other.insert(b"b".to_vec(), Value::Integer(2));
    other.insert(b"a".to_vec(), Value::Integer(1));
    assert_eq!(one, same);
    assert_ne!(one, other);
}

#[test]
fn bytes_equal_compares_content() {
    assert!(bytes_equal(b"", b""));
    assert!(bytes_equal(b"abc", b"abc"));
    assert!(!bytes_equal(b"abc", b"abd"));
    assert!(!bytes_equal(b"abc", b"ab"));
    assert!(!bytes_equal(b"", b"a"));
    assert!(!bytes_equal(b"xbc", b"abc"));
}
