use rs_practice::kv_store::{
    answer_line, apply_command, error_line, handle_line, parse_command, Command, KvStore, ParseError,
};

#[test]
fn parse_set_command() {
    let command = parse_command(b"SET name Rust\n").unwrap();
    assert_eq!(
        command,
        Command::SetValue("name".to_string(), "Rust".to_string())
    );
}

#[test]
fn lib_store_is_created_empty() {
    let store = KvStore::new();
    assert!(store.is_empty());
}

#[test]
fn apply_commands_reads_and_writes_values() {
    let mut store = KvStore::new();
    let response = apply_command(&mut store, Command::SetValue("name".into(), "Rust".into()));
    assert_eq!(response, "+OK\n");

    let response = apply_command(&mut store, Command::Get("name".into()));
    assert_eq!(response, "Rust\n");
}

#[test]
fn parse_get_del_ping() {
    assert_eq!(parse_command(b"GET key\n"), Ok(Command::Get("key".to_string())));
    assert_eq!(parse_command(b"DEL key"), Ok(Command::Delete("key".to_string())));
    assert_eq!(parse_command(b"PING\r\n"), Ok(Command::Ping));
    assert_eq!(parse_command(b"PING extra words"), Ok(Command::Ping));
}

#[test]
fn parse_is_case_insensitive_on_the_command_word() {
    assert_eq!(parse_command(b"get Key"), Ok(Command::Get("Key".to_string())));
    assert_eq!(
        parse_command(b"sEt k v"),
        Ok(Command::SetValue("k".to_string(), "v".to_string()))
    );
}

#[test]
fn set_value_keeps_words_joined_by_single_spaces() {
    assert_eq!(
        parse_command(b"  SET   greeting  hello   big\tworld  \n"),
        Ok(Command::SetValue("greeting".to_string(), "hello big world".to_string()))
    );
}

#[test]
fn parse_errors() {
    assert_eq!(parse_command(b""), Err(ParseError::Empty));
    assert_eq!(parse_command(b"   \t\r\n"), Err(ParseError::Empty));
    assert_eq!(parse_command(b"GET"), Err(ParseError::MissingArgument("GET")));
    assert_eq!(parse_command(b"SET key"), Err(ParseError::MissingArgument("SET")));
    assert_eq!(parse_command(b"SET"), Err(ParseError::MissingArgument("SET")));
    assert_eq!(parse_command(b"DEL\n"), Err(ParseError::MissingArgument("DEL")));
    assert_eq!(
        parse_command(b"frob a b"),
        Err(ParseError::Unknown("FROB".to_string()))
    );
    assert_eq!(
        parse_command(&[0x53, 0xff, 0x20]),
        Err(ParseError::Unknown("non utf-8 input".to_string()))
    );
}

#[test]
fn unknown_command_is_reported_upper_cased() {
    // the full Unicode upper-case mapping: one character may become two
    assert_eq!(
        parse_command("straße x".as_bytes()),
        Err(ParseError::Unknown("STRASSE".to_string()))
    );
}

#[test]
fn get_after_set_and_delete() {
    let mut store = KvStore::new();
    assert_eq!(apply_command(&mut store, Command::Get("a".into())), "$nil\n");
    assert_eq!(apply_command(&mut store, Command::SetValue("a".into(), "1".into())), "+OK\n");
    assert_eq!(apply_command(&mut store, Command::SetValue("b".into(), "2".into())), "+OK\n");
    assert_eq!(apply_command(&mut store, Command::SetValue("a".into(), "3".into())), "+OK\n");
    assert_eq!(store.len(), 2);
    assert_eq!(apply_command(&mut store, Command::Get("a".into())), "3\n");
    assert_eq!(apply_command(&mut store, Command::Get("b".into())), "2\n");
    assert_eq!(apply_command(&mut store, Command::Delete("a".into())), "+OK\n");
    assert_eq!(apply_command(&mut store, Command::Delete("a".into())), "$nil\n");
    assert_eq!(apply_command(&mut store, Command::Get("a".into())), "$nil\n");
    assert_eq!(apply_command(&mut store, Command::Get("b".into())), "2\n");
    assert_eq!(apply_command(&mut store, Command::Ping), "+PONG\n");
    assert_eq!(store.len(), 1);
}

#[test]
fn store_insert_get_remove() {
    let mut store = KvStore::new();
    store.insert("k".to_string(), "v".to_string());
    assert_eq!(store.get(&"k".to_string()), Some(&"v".to_string()));
    assert_eq!(store.remove(&"k".to_string()), Some("v".to_string()));
    assert_eq!(store.remove(&"k".to_string()), None);
    assert!(store.is_empty());
}

#[test]
fn handle_line_answers_and_refuses() {
    let mut store = KvStore::new();
    assert_eq!(handle_line(&mut store, b"SET lang Rust\n"), Ok("+OK\n".to_string()));
    assert_eq!(handle_line(&mut store, b"GET lang\n"), Ok("Rust\n".to_string()));
    assert_eq!(handle_line(&mut store, b"SET lang\n"), Err(ParseError::MissingArgument("SET")));
    assert_eq!(handle_line(&mut store, b"GET lang\n"), Ok("Rust\n".to_string()));
    assert_eq!(store.len(), 1);
}

#[test]
fn refusals_are_answered_with_err_lines() {
    assert_eq!(error_line(&ParseError::Empty), "-ERR Empty\n");
    assert_eq!(
        error_line(&ParseError::MissingArgument("GET")),
        "-ERR MissingArgument(\"GET\")\n"
    );
    assert_eq!(
        error_line(&ParseError::Unknown("FR\"OB".to_string())),
        "-ERR Unknown(\"FR\\\"OB\")\n"
    );
    let mut store = KvStore::new();
    assert_eq!(answer_line(&mut store, b"\n"), "-ERR Empty\n");
    assert_eq!(answer_line(&mut store, b"SET a b\n"), "+OK\n");
    assert_eq!(answer_line(&mut store, b"hello\n"), "-ERR Unknown(\"HELLO\")\n");
    assert_eq!(answer_line(&mut store, b"GET a\n"), "b\n");
}

#[test]
fn unicode_white_space_separates_words() {
    assert_eq!(
        parse_command("\u{3000}set\u{a0}k\u{2003}v1 v2\u{85}".as_bytes()),
        Ok(Command::SetValue("k".to_string(), "v1 v2".to_string()))
    );
    assert_eq!(parse_command("\u{2028}\u{205f}".as_bytes()), Err(ParseError::Empty));
}

#[test]
fn refusal_messages() {
    assert_eq!(ParseError::Empty.message(), "empty command");
    assert_eq!(ParseError::Unknown("FOO".to_string()).message(), "unknown command: FOO");
    assert_eq!(ParseError::MissingArgument("SET").message(), "missing argument for SET");
}

#[test]
fn written_requests_parse_back() {
    assert_eq!(parse_command(b"GET k\n"), Ok(Command::Get("k".to_string())));
    assert_eq!(
        parse_command(b"SET k v1 v2\n"),
        Ok(Command::SetValue("k".to_string(), "v1 v2".to_string()))
    );
    assert_eq!(parse_command(b"Del k\n"), Ok(Command::Delete("k".to_string())));
    assert_eq!(parse_command(b"ping\n"), Ok(Command::Ping));
    assert_eq!(
        parse_command("SET clé valeur été\n".as_bytes()),
        Ok(Command::SetValue("clé".to_string(), "valeur été".to_string()))
    );
}

#[test]
fn parsed_keys_are_words_and_values_trimmed() {
    assert_eq!(
        parse_command(b"set  k \t a  b \r\n"),
        Ok(Command::SetValue("k".to_string(), "a b".to_string()))
    );
    assert_eq!(parse_command(b"Get\tkey  \n"), Ok(Command::Get("key".to_string())));
}
