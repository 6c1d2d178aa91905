use swarm_core::cli::{parse_line, ParsedLine};

fn b(s: &str) -> Vec<u8> {
    s.as_bytes().to_vec()
}

#[test]
fn get_line_parses() {
    match parse_line(&b("GET key1")) {
        ParsedLine::Get { key } => assert_eq!(key, b("key1")),
        _ => panic!("expected a get"),
    }
}

#[test]
fn get_providers_line_parses() {
    match parse_line(&b("GET_PROVIDERS some-key")) {
        ParsedLine::GetProviders { key } => assert_eq!(key, b("some-key")),
        _ => panic!("expected a get-providers"),
    }
}

#[test]
fn put_line_parses_into_key_and_value() {
    match parse_line(&b("PUT key1 value1")) {
        ParsedLine::Put { key, value } => {
            assert_eq!(key, b("key1"));
            assert_eq!(value, b("value1"));
        }
        _ => panic!("expected a put"),
    }
}

#[test]
fn put_value_may_contain_spaces() {
    match parse_line(&b("PUT key1 a b c")) {
        ParsedLine::Put { key, value } => {
            assert_eq!(key, b("key1"));
            assert_eq!(value, b("a b c"));
        }
        _ => panic!("expected a put"),
    }
}

#[test]
fn put_provider_line_parses() {
    match parse_line(&b("PUT_PROVIDER key1")) {
        ParsedLine::PutProvider { key } => assert_eq!(key, b("key1")),
        _ => panic!("expected a put-provider"),
    }
}

#[test]
fn free_text_is_published_verbatim() {
    match parse_line(&b("hello swarm")) {
        ParsedLine::Publish { payload } => assert_eq!(payload, b("hello swarm")),
        _ => panic!("expected a publish"),
    }
    // a keyword without its trailing space is free text too
    match parse_line(&b("GET")) {
        ParsedLine::Publish { payload } => assert_eq!(payload, b("GET")),
        _ => panic!("expected a publish"),
    }
}

#[test]
fn malformed_commands_are_rejected() {
    assert!(matches!(parse_line(&b("GET ")), ParsedLine::Malformed));
    assert!(matches!(parse_line(&b("GET_PROVIDERS ")), ParsedLine::Malformed));
    assert!(matches!(parse_line(&b("PUT_PROVIDER ")), ParsedLine::Malformed));
    assert!(matches!(parse_line(&b("PUT key-only")), ParsedLine::Malformed));
    assert!(matches!(parse_line(&b("PUT key1 ")), ParsedLine::Malformed));
    assert!(matches!(parse_line(&b("PUT  leading")), ParsedLine::Malformed));
    assert!(matches!(parse_line(&b("")), ParsedLine::Malformed));
}
