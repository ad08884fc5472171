//! Tests of the record codec and the segment-file naming.

use kvs::codec::{decode_command, encode_command};
use kvs::dir::{log_path, parse_gen, sorted_gen_list};
use kvs::{Command, KvsError};

#[test]
fn encode_set_is_canonical() {
    let cmd = Command::set("key1".to_owned(), "value1".to_owned());
    let out = encode_command(&cmd);
    assert_eq!(out.as_slice(), br#"{"Set":{"key":"key1","value":"value1"}}"#);
}

#[test]
fn encode_remove_is_canonical() {
    let cmd = Command::remove("key1".to_owned());
    let out = encode_command(&cmd);
    assert_eq!(out.as_slice(), br#"{"Remove":{"key":"key1"}}"#);
}

#[test]
fn encode_escapes_quotes_and_backslashes() {
    let cmd = Command::set("a\"b".to_owned(), "c\\d".to_owned());
    let out = encode_command(&cmd);
    assert_eq!(out.as_slice(), br#"{"Set":{"key":"a\"b","value":"c\\d"}}"#);
}

#[test]
fn decode_recovers_set() {
    let data = br#"{"Set":{"key":"k","value":"v"}}"#;
    let (cmd, next) = decode_command(data, 0).unwrap();
    assert_eq!(next, data.len());
    match cmd {
        Command::Put { key, value } => {
            assert_eq!(key, "k");
            assert_eq!(value, "v");
        }
        _ => panic!("expected a set record"),
    }
}

#[test]
fn decode_recovers_remove() {
    let data = br#"{"Remove":{"key":"gone"}}"#;
    let (cmd, next) = decode_command(data, 0).unwrap();
    assert_eq!(next, data.len());
    match cmd {
        Command::Remove { key } => assert_eq!(key, "gone"),
        _ => panic!("expected a remove record"),
    }
}

#[test]
fn decode_tracks_offsets_across_a_stream() {
    let mut data = Vec::new();
    data.extend_from_slice(br#"{"Set":{"key":"a","value":"1"}}"#);
    let first_end = data.len();
    data.extend_from_slice(br#"{"Remove":{"key":"a"}}"#);
    let (cmd1, next1) = decode_command(&data, 0).unwrap();
    assert!(matches!(cmd1, Command::Put { .. }));
    assert_eq!(next1, first_end);
    let (cmd2, next2) = decode_command(&data, next1).unwrap();
    assert!(matches!(cmd2, Command::Remove { .. }));
    assert_eq!(next2, data.len());
}

#[test]
fn decode_skips_leading_whitespace() {
    let data = b"  \n\t{\"Remove\":{\"key\":\"k\"}}";
    let (cmd, next) = decode_command(data, 0).unwrap();
    assert!(matches!(cmd, Command::Remove { .. }));
    assert_eq!(next, data.len());
}

#[test]
fn decode_round_trips_unicode() {
    let cmd = Command::set("schlüssel".to_owned(), "värde \u{1F600}".to_owned());
    let out = encode_command(&cmd);
    let (back, next) = decode_command(&out, 0).unwrap();
    assert_eq!(next, out.len());
    match back {
        Command::Put { key, value } => {
            assert_eq!(key, "schlüssel");
            assert_eq!(value, "värde \u{1F600}");
        }
        _ => panic!("expected a set record"),
    }
}

#[test]
fn decode_rejects_malformed_input() {
    assert!(matches!(
        decode_command(b"{\"Set\":{\"key\":\"k\"", 0),
        Err(KvsError::Serde(_))
    ));
    assert!(matches!(decode_command(b"nonsense", 0), Err(KvsError::Serde(_))));
    assert!(matches!(decode_command(b"", 0), Err(KvsError::Serde(_))));
}

#[test]
fn log_path_names_segments() {
    assert_eq!(log_path(1), "1.log");
    assert_eq!(log_path(42), "42.log");
    assert_eq!(log_path(0), "0.log");
    assert_eq!(log_path(u64::MAX), format!("{}.log", u64::MAX));
}

#[test]
fn parse_gen_reads_names_back() {
    assert_eq!(parse_gen("1.log"), Some(1));
    assert_eq!(parse_gen("42.log"), Some(42));
    assert_eq!(parse_gen("engine"), None);
    assert_eq!(parse_gen(".log"), None);
    assert_eq!(parse_gen("4a.log"), None);
    assert_eq!(parse_gen("5.txt"), None);
    assert_eq!(parse_gen("99999999999999999999999.log"), None);
    assert_eq!(parse_gen(&format!("{}.log", u64::MAX)), Some(u64::MAX));
}

#[test]
fn sorted_gen_list_orders_and_filters() {
    let names = vec![
        "9.log".to_owned(),
        "engine".to_owned(),
        "2.log".to_owned(),
        "notes.txt".to_owned(),
        "10.log".to_owned(),
    ];
    let gens = sorted_gen_list(&names);
    assert_eq!(gens, vec![2, 9, 10]);
}
