use memcached::server::{dispatch, get_response, set_response};
use memcached::{command_parse, Command, CommandResponse, GetResult, MemKV, KV};

#[test]
fn test_get_call() {
    let mut kv = MemKV::default();
    let cmd = command_parse(&Command::Get(vec!["abcd".to_string()]).to_string_command());
    assert!(cmd.is_ok());
    let resp = dispatch(&mut kv, &cmd.unwrap());
    assert_eq!(
        resp,
        CommandResponse::GetResponse(vec![GetResult::NotFound("abcd".to_string())])
    );
}

#[test]
fn test_command_to_string_command() {
    assert_eq!("get a\r\n", Command::Get(vec!["a".to_string()]).to_string_command());
    assert_eq!(
        "set key 1 2 5 value\r\n",
        Command::Store("key".to_string(), "value".to_string()).to_string_command()
    );
}

#[test]
fn to_string_command_joins_keys_and_counts_long_values() {
    assert_eq!(
        "get a bb c\r\n",
        Command::Get(vec!["a".to_string(), "bb".to_string(), "c".to_string()]).to_string_command()
    );
    let value = "x".repeat(123);
    assert_eq!(
        format!("set k 1 2 123 {value}\r\n"),
        Command::Store("k".to_string(), value.clone()).to_string_command()
    );
    assert_eq!(
        "set k 1 2 2 é\r\n",
        Command::Store("k".to_string(), "é".to_string()).to_string_command()
    );
}

#[test]
fn memkv_store_reports_prior_existence() {
    let mut kv = MemKV::new();
    assert!(!kv.store("a", "1"));
    assert!(kv.store("a", "2"));
    assert_eq!(kv.get("a"), Some(&"2".to_string()));
    assert_eq!(kv.get("b"), None);
}

#[test]
fn set_then_get_round_trip() {
    let mut kv = MemKV::new();
    set_response(&mut kv, &"a".to_string(), &"1".to_string());
    let rs = get_response(&kv, &vec!["a".to_string()]);
    assert_eq!(
        rs,
        vec![GetResult::Found { key: "a".to_string(), value: "1".to_string() }]
    );
}

#[test]
fn repeated_reads_agree() {
    let mut kv = MemKV::new();
    set_response(&mut kv, &"a".to_string(), &"1".to_string());
    let keys = vec!["a".to_string(), "z".to_string()];
    assert_eq!(get_response(&kv, &keys), get_response(&kv, &keys));
}

#[test]
fn overwrite_keeps_last_value() {
    let mut kv = MemKV::new();
    let first = set_response(&mut kv, &"a".to_string(), &"1".to_string());
    let second = set_response(&mut kv, &"a".to_string(), &"2".to_string());
    assert_eq!(first, CommandResponse::SetUpdated);
    assert_eq!(second, CommandResponse::SetStored);
    let rs = get_response(&kv, &vec!["a".to_string()]);
    assert_eq!(
        rs,
        vec![GetResult::Found { key: "a".to_string(), value: "2".to_string() }]
    );
}

#[test]
fn serialized_writers_leave_one_value() {
    let mut kv = MemKV::new();
    let values = ["v1", "v2", "v3", "v4"];
    for v in values.iter() {
        kv.store("k", v);
    }
    let held = kv.get("k").unwrap().clone();
    assert!(values.contains(&held.as_str()));
    assert_eq!(held, "v4");
}

#[test]
fn missing_key_gives_only_end() {
    let kv = MemKV::new();
    let rs = get_response(&kv, &vec!["missing".to_string()]);
    assert_eq!(rs, vec![GetResult::NotFound("missing".to_string())]);
    assert_eq!(CommandResponse::GetResponse(rs).to_wire(), "END\r\n");
}

#[test]
fn malformed_input_leaves_store_unchanged() {
    let mut kv = MemKV::new();
    kv.store("a", "1");
    assert!(command_parse("foo\r\n").is_err());
    assert_eq!(kv.get("a"), Some(&"1".to_string()));
    assert_eq!(kv.get("foo"), None);
}

#[test]
fn wire_text_of_each_response() {
    let rs = vec![
        GetResult::Found { key: "a".to_string(), value: "x".to_string() },
        GetResult::NotFound("b".to_string()),
        GetResult::Found { key: "c".to_string(), value: "yz".to_string() },
    ];
    assert_eq!(CommandResponse::GetResponse(rs).to_wire(), "x\r\nyz\r\nEND\r\n");
    assert_eq!(CommandResponse::SetStored.to_wire(), "STORED\r\n");
    assert_eq!(CommandResponse::SetUpdated.to_wire(), "UPDATED\r\n");
}
