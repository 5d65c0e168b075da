use kvs::command::{encode, value_of, Command, CommandPos, KvsError};
use kvs::gens::{log_file_name, log_path, parse_gen, sorted_gen_list};
use kvs::server::{engine_of_marker, respond_done, respond_get, select_engine, EngineKind, Response};

#[test]
fn parse_gen_accepts_digits_dot_log() {
    assert_eq!(parse_gen("12.log"), Some(12));
    assert_eq!(parse_gen("0.log"), Some(0));
    assert_eq!(parse_gen("18446744073709551615.log"), Some(u64::MAX));
}

#[test]
fn parse_gen_rejects_malformed_names() {
    assert_eq!(parse_gen("18446744073709551616.log"), None);
    assert_eq!(parse_gen(".log"), None);
    assert_eq!(parse_gen("a1.log"), None);
    assert_eq!(parse_gen("12.txt"), None);
    assert_eq!(parse_gen("engine"), None);
    assert_eq!(parse_gen("12.logx"), None);
}

#[test]
fn gen_list_is_sorted_and_skips_others() {
    let names: Vec<String> = ["10.log", "engine", "2.log", "x.log", "7.log", "2.log"]
        .iter()
        .map(|s| s.to_string())
        .collect();
    assert_eq!(sorted_gen_list(&names), vec![2, 7, 10]);
    assert_eq!(sorted_gen_list(&Vec::new()), Vec::<u64>::new());
}

#[test]
fn log_names_read_back() {
    assert_eq!(log_file_name(42), "42.log");
    assert_eq!(parse_gen(&log_file_name(9001)), Some(9001));
    assert_eq!(log_path("/data", 3), "/data/3.log");
}

#[test]
fn records_are_tagged_json() {
    let set = Command::set("k\"1".to_string(), "v".to_string());
    assert_eq!(encode(&set), "{\"Set\":{\"key\":\"k\\\"1\",\"value\":\"v\"}}");
    let rm = Command::remove("k".to_string());
    assert_eq!(encode(&rm), "{\"Remove\":{\"key\":\"k\"}}");
}

#[test]
fn command_pos_from_range() {
    assert_eq!(CommandPos::from((4, 10..25)), CommandPos { gen: 4, pos: 10, len: 15 });
}

#[test]
fn value_of_put_and_tombstone() {
    assert_eq!(value_of(Command::set("k".to_string(), "v".to_string())).ok(), Some("v".to_string()));
    assert!(matches!(value_of(Command::remove("k".to_string())), Err(KvsError::UnexpectedCommandType)));
}

#[test]
fn responses_carry_values_and_messages() {
    assert!(matches!(respond_get(Ok(Some("v".to_string()))), Response::Value(Some(v)) if v == "v"));
    assert!(matches!(respond_get(Err(KvsError::KeyNotFound)), Response::Failed(m) if m == "Key not found"));
    assert!(matches!(respond_done(Ok(())), Response::Done));
    assert!(matches!(
        respond_done(Err(KvsError::UnexpectedCommandType)),
        Response::Failed(m) if m == "Unexpected command type"
    ));
    assert!(matches!(respond_done(Err(KvsError::Io("disk".to_string()))), Response::Failed(m) if m == "disk"));
}

#[test]
fn engine_marker_names() {
    assert_eq!(engine_of_marker("kvs"), Some(EngineKind::Kvs));
    assert_eq!(engine_of_marker("sled"), Some(EngineKind::Sled));
    assert_eq!(engine_of_marker("kvs\n"), None);
    assert_eq!(engine_of_marker(""), None);
    assert_eq!(EngineKind::Sled.name(), "sled");
}

#[test]
fn engine_selection_refuses_foreign_directory() {
    assert_eq!(select_engine(None, EngineKind::Sled).ok(), Some(EngineKind::Sled));
    assert_eq!(select_engine(Some(EngineKind::Kvs), EngineKind::Kvs).ok(), Some(EngineKind::Kvs));
    assert!(matches!(select_engine(Some(EngineKind::Kvs), EngineKind::Sled), Err(KvsError::StringError(_))));
}

#[test]
fn parse_gen_rejects_leading_zeros() {
    assert_eq!(parse_gen("007.log"), None);
    assert_eq!(parse_gen("00.log"), None);
    assert_eq!(parse_gen("0.log"), Some(0));
    assert_eq!(parse_gen("100.log"), Some(100));
    let names: Vec<String> = ["7.log", "07.log"].iter().map(|s| s.to_string()).collect();
    assert_eq!(sorted_gen_list(&names), vec![7]);
}

#[test]
fn record_text_escapes_controls_and_backslashes() {
    let set = Command::set("a\tb\\".to_string(), "\u{1}\n\u{1f}é".to_string());
    assert_eq!(encode(&set), "{\"Set\":{\"key\":\"a\\tb\\\\\",\"value\":\"\\u0001\\n\\u001fé\"}}");
}
