use variadb::{
    del_pathing, get_pathing, json_key, origin_allowed, parse_log_level, parse_origins, put_pathing, weight, ErrorKind,
    GetPathing, LogLevel, Primary, Value,
};

#[test]
fn put_path_gives_key() {
    assert_eq!(put_pathing("/put/abc".to_string()).unwrap(), "abc".to_string());
    assert_eq!(put_pathing("/put/".to_string()).unwrap(), "".to_string());
    assert_eq!(put_pathing("/get/abc".to_string()).err().unwrap().kind, ErrorKind::InvalidInput);
    assert!(put_pathing("/put/a/b".to_string()).is_err());
    assert!(put_pathing("/put".to_string()).is_err());
}

#[test]
fn del_path_gives_key() {
    assert_eq!(del_pathing("/del/k1".to_string()).unwrap(), "k1".to_string());
    assert!(del_pathing("/put/k1".to_string()).is_err());
}

#[test]
fn get_path_reads_or_lists() {
    assert_eq!(get_pathing("/get/k".to_string()).unwrap(), GetPathing::Get("k".to_string()));
    assert_eq!(get_pathing("/list".to_string()).unwrap(), GetPathing::List);
    assert_eq!(get_pathing("/list/extra".to_string()).unwrap(), GetPathing::List);
    assert!(get_pathing("/get".to_string()).is_err());
    assert!(get_pathing("/get/a/b".to_string()).is_err());
    assert!(get_pathing("nothing".to_string()).is_err());
    assert_eq!(get_pathing("/other/x".to_string()).err().unwrap().kind, ErrorKind::InvalidInput);
}

#[test]
fn primary_map_operations() {
    let mut p = Primary::new();
    assert_eq!(p.len(), 0);
    p.put("a".to_string(), Value::Number(1));
    p.put("b".to_string(), Value::Boolean(true));
    p.put("a".to_string(), Value::Text("x".to_string()));
    assert_eq!(p.len(), 2);
    assert_eq!(p.get("a"), Some(&Value::Text("x".to_string())));
    let mut keys = p.list();
    keys.sort();
    assert_eq!(keys, vec!["a".to_string(), "b".to_string()]);
    p.del("a");
    assert_eq!(p.get("a"), None);
    assert_eq!(p.len(), 1);
    p.clear();
    assert_eq!(p.len(), 0);
    assert_eq!(p.get("b"), None);
}

#[test]
fn weight_is_two_words() {
    let w = weight(&"key".to_string(), &Some(vec![1u8; 100]));
    assert_eq!(w as usize, 2 * std::mem::size_of::<usize>());
    assert_eq!(weight(&String::new(), &None), w);
}

#[test]
fn log_levels() {
    assert_eq!(parse_log_level("error"), LogLevel::Error);
    assert_eq!(parse_log_level("warn"), LogLevel::Warn);
    assert_eq!(parse_log_level("info"), LogLevel::Info);
    assert_eq!(parse_log_level("debug"), LogLevel::Debug);
    assert_eq!(parse_log_level("trace"), LogLevel::Trace);
    assert_eq!(parse_log_level("loud"), LogLevel::Info);
}

#[test]
fn cors_origins() {
    let any = vec!["*".to_string()];
    assert!(origin_allowed(&any, Some("http://x")));
    let some = vec!["http://a".to_string(), "http://b".to_string()];
    assert!(origin_allowed(&some, Some("http://b")));
    assert!(!origin_allowed(&some, Some("http://c")));
    assert!(origin_allowed(&some, None));
    assert!(!origin_allowed(&Vec::new(), Some("http://a")));
}

#[test]
fn origins_setting_is_split_on_commas() {
    assert_eq!(
        parse_origins(&"http://a,http://b".to_string()),
        vec!["http://a".to_string(), "http://b".to_string()]
    );
    assert_eq!(parse_origins(&"*".to_string()), vec!["*".to_string()]);
    assert_eq!(parse_origins(&"".to_string()), vec!["".to_string()]);
}

#[test]
fn value_file_names() {
    assert_eq!(json_key(&"abc.json".to_string()), Some("abc".to_string()));
    assert_eq!(json_key(&"a.b.json".to_string()), Some("a.b".to_string()));
    assert_eq!(json_key(&".json".to_string()), None);
    assert_eq!(json_key(&"abc.txt".to_string()), None);
    assert_eq!(json_key(&"json".to_string()), None);
}
