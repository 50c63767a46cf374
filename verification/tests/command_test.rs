use rkey::{CommandHandler, RespType, Storage};

#[test]
fn test_ping_cmd() {
    let d = RespType::Array(vec![RespType::BString("PING".to_string())]);
    let result = CommandHandler::new(Storage::new()).handle_cmd(d);
    assert_eq!(result.unwrap(), RespType::String("PONG".to_string()));
}

#[test]
fn test_set_cmd() {
    let d = RespType::Array(vec![
        RespType::BString("SET".to_string()),
        RespType::BString("key1".to_string()),
        RespType::BString("val".to_string()),
    ]);

    let result = CommandHandler::new(Storage::new()).handle_cmd(d);
    assert_eq!(result.unwrap(), RespType::String("OK".to_string()));
}

#[test]
fn test_get_cmd() {
    let mut handler = CommandHandler::new(Storage::new());
    insert("key1", "val", &mut handler);

    let d = RespType::Array(vec![
        RespType::BString("GET".to_string()),
        RespType::BString("key1".to_string()),
    ]);

    let result = handler.handle_cmd(d);
    assert_eq!(result.unwrap(), RespType::BString("val".to_string()));
}

#[test]
fn test_del() {
    let mut handler = CommandHandler::new(Storage::new());
    let v = [("k1", "v1"), ("k2", "v2"), ("k3", "v3")];

    for (k, v) in v {
        insert(k, v, &mut handler);
    }

    let keys: [RespType; 3] = v.map(|v| RespType::BString(v.0.to_string()));

    let mut resp_cmd = vec![RespType::BString("DEL".to_string())];
    resp_cmd.extend(keys);
    let resp_cmd = RespType::Array(resp_cmd);
    let result = handler.handle_cmd(resp_cmd);

    assert_eq!(result.unwrap(), RespType::Int(v.len() as i64))
}

fn insert(k: &str, v: &str, handler: &mut CommandHandler) -> bool {
    let d = RespType::Array(vec![
        RespType::BString("SET".to_string()),
        RespType::BString(k.to_string()),
        RespType::BString(v.to_string()),
    ]);

    let result = handler.handle_cmd(d);
    match result {
        Ok(_) => true,
        Err(_) => false,
    }
}
