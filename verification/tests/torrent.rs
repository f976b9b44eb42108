use bencode::{
    decode_command, decode_torrent, extract, Dictionary, Error, MalformedInput, SchemaMismatch,
    Torrent, Value,
};

fn description(announce: Value, info: Value) -> Value {
    let mut root = Dictionary::new();
    root.insert(b"announce".to_vec(), announce);
    root.insert(b"info".to_vec(), info);
    Value::Dictionary(root)
}

fn info_with(length: Value) -> Value {
    let mut info = Dictionary::new();
    info.insert(b"length".to_vec(), length);
    Value::Dictionary(info)
}

fn text(value: &str) -> Value {
    Value::ByteString(value.as_bytes().to_vec())
}

#[test]
fn info_scenario_prints_tracker_and_length() {
    let input = "d8:announce31:http://tracker.example/announce4:infod6:lengthi100eee";
    let decoded = decode_command(input.as_bytes()).unwrap();
    assert_eq!(
        decoded,
        description(text("http://tracker.example/announce"), info_with(Value::Integer(100)))
    );
    let torrent = decode_torrent(input.as_bytes()).unwrap();
    assert_eq!(
        torrent,
        Torrent { announce: "http://tracker.example/announce".to_string(), length: 100 }
    );
    let printed =
        format!("Tracker URL: {}\nLength: {}\n", torrent.announce, torrent.length);
    assert_eq!(printed, "Tracker URL: http://tracker.example/announce\nLength: 100\n");
}

#[test]
fn extract_reads_only_what_it_needs() {
    let mut info = Dictionary::new();
    info.insert(b"name".to_vec(), text("file.iso"));
    info.insert(b"length".to_vec(), Value::Integer(92063));
    info.insert(b"piece length".to_vec(), Value::Integer(32768));
    info.insert(b"pieces".to_vec(), Value::ByteString(vec![0xe8, 0x76, 0xf6, 0x7a, 0x2a]));
    let mut root = Dictionary::new();
    root.insert(b"created by".to_vec(), text("mktorrent"));
    root.insert(b"info".to_vec(), Value::Dictionary(info));
    root.insert(b"announce".to_vec(), text("http://t.example:6969/a"));
    assert_eq!(
        extract(&Value::Dictionary(root)),
        Ok(Torrent { announce: "http://t.example:6969/a".to_string(), length: 92063 })
    );
}

#[test]
fn announce_is_converted_from_utf8() {
    let value = description(
        Value::ByteString(vec![0x68, 0xc3, 0xa9, 0x2f, 0xe2, 0x82, 0xac]),
        info_with(Value::Integer(1)),
    );
    let torrent = extract(&value).unwrap();
    assert_eq!(torrent.announce, "h\u{e9}/\u{20ac}");
    assert_eq!(torrent.announce.chars().count(), 4);

    let empty = description(text(""), info_with(Value::Integer(1)));
    assert_eq!(extract(&empty), Ok(Torrent { announce: String::new(), length: 1 }));
}

#[test]
fn length_spans_the_non_negative_integers() {
    let zero = description(text("u"), info_with(Value::Integer(0)));
    assert_eq!(extract(&zero).unwrap().length, 0);
    let largest = description(text("u"), info_with(Value::Integer(i64::MAX)));
    assert_eq!(extract(&largest).unwrap().length, 9223372036854775807);
}

#[test]
fn root_must_be_a_dictionary() {
    assert_eq!(extract(&Value::Integer(1)), Err(SchemaMismatch::RootNotDictionary));
    assert_eq!(extract(&text("d")), Err(SchemaMismatch::RootNotDictionary));
    assert_eq!(extract(&Value::List(vec![])), Err(SchemaMismatch::RootNotDictionary));
}

#[test]
fn announce_must_be_text() {
    let mut without = Dictionary::new();
    without.insert(b"info".to_vec(), info_with(Value::Integer(1)));
    assert_eq!(extract(&Value::Dictionary(without)), Err(SchemaMismatch::Announce));
    assert_eq!(extract(&Value::Dictionary(Dictionary::new())), Err(SchemaMismatch::Announce));

    let number = description(Value::Integer(5), info_with(Value::Integer(1)));
    assert_eq!(extract(&number), Err(SchemaMismatch::Announce));

    let no_utf8 = description(Value::ByteString(vec![0x61, 0xff]), info_with(Value::Integer(1)));
    assert_eq!(extract(&no_utf8), Err(SchemaMismatch::Announce));
    let cut_short = description(Value::ByteString(vec![0xe2, 0x82]), info_with(Value::Integer(1)));
    assert_eq!(extract(&cut_short), Err(SchemaMismatch::Announce));
    let surrogate =
        description(Value::ByteString(vec![0xed, 0xa0, 0x80]), info_with(Value::Integer(1)));
    assert_eq!(extract(&surrogate), Err(SchemaMismatch::Announce));
    let overlong = description(Value::ByteString(vec![0xc0, 0xaf]), info_with(Value::Integer(1)));
    assert_eq!(extract(&overlong), Err(SchemaMismatch::Announce));
}

#[test]
fn info_must_be_a_dictionary() {
    let mut without = Dictionary::new();
    without.insert(b"announce".to_vec(), text("u"));
    assert_eq!(extract(&Value::Dictionary(without)), Err(SchemaMismatch::Info));
    assert_eq!(extract(&description(text("u"), Value::Integer(1))), Err(SchemaMismatch::Info));
    assert_eq!(extract(&description(text("u"), Value::List(vec![]))), Err(SchemaMismatch::Info));
}

#[test]
fn length_must_be_a_non_negative_integer() {
    let without = description(text("u"), Value::Dictionary(Dictionary::new()));
    assert_eq!(extract(&without), Err(SchemaMismatch::Length));
    let negative = description(text("u"), info_with(Value::Integer(-1)));
    assert_eq!(extract(&negative), Err(SchemaMismatch::Length));
    let lowest = description(text("u"), info_with(Value::Integer(i64::MIN)));
    assert_eq!(extract(&lowest), Err(SchemaMismatch::Length));
    let as_text = description(text("u"), info_with(text("100")));
    assert_eq!(extract(&as_text), Err(SchemaMismatch::Length));
}

#[test]
fn announce_is_checked_before_info() {
    let mut root = Dictionary::new();
    root.insert(b"announce".to_vec(), Value::Integer(1));
    root.insert(b"info".to_vec(), Value::Integer(2));
    assert_eq!(extract(&Value::Dictionary(root)), Err(SchemaMismatch::Announce));
}

#[test]
fn decode_torrent_reports_both_kinds_of_failure() {
    assert_eq!(
        decode_torrent("d8:announce3:abc".as_bytes()),
        Err(Error::MalformedInput(MalformedInput::MissingTerminator))
    );
    assert_eq!(
        decode_torrent("".as_bytes()),
        Err(Error::MalformedInput(MalformedInput::UnexpectedEnd))
    );
    assert_eq!(
        decode_torrent("i5e".as_bytes()),
        Err(Error::SchemaMismatch(SchemaMismatch::RootNotDictionary))
    );
    assert_eq!(
        decode_torrent("de".as_bytes()),
        Err(Error::SchemaMismatch(SchemaMismatch::Announce))
    );
    assert_eq!(
        decode_torrent("d8:announce1:ue".as_bytes()),
        Err(Error::SchemaMismatch(SchemaMismatch::Info))
    );
    assert_eq!(
        decode_torrent("d8:announce1:u4:infodee".as_bytes()),
        Err(Error::SchemaMismatch(SchemaMismatch::Length))
    );
    assert_eq!(
        decode_torrent("d8:announce1:u4:infod6:lengthi-5eee".as_bytes()),
        Err(Error::SchemaMismatch(SchemaMismatch::Length))
    );
}

#[test]
fn decode_torrent_uses_the_last_of_duplicate_keys() {
    let input = "d8:announce1:a8:announce1:b4:infod6:lengthi1e6:lengthi2eee";
    assert_eq!(
        decode_torrent(input.as_bytes()),
        Ok(Torrent { announce: "b".to_string(), length: 2 })
    );
}
