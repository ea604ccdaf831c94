use junction::errors::AddressFault;
use junction::errors::ClientError;
use junction::models::Broker;
use junction::models::parse_broker_list;
use junction::models::split_commas;

#[test]
fn test_to_connection_string() {
    let broker = Broker::new(String::from("localhost"), 8080);
    assert_eq!(broker.to_connection_string(), "localhost:8080")
}

#[test]
fn test_from_connection_string() {
    let actual = Broker::from_connection_string(String::from("localhost:8080"))
        .expect("Invalid broker");

    let expected = Broker::new(String::from("localhost"), 8080);
    assert_eq!(expected, actual)
}

#[test]
fn round_trip_host_port() {
    let s = String::from("example.com:1234");
    let b = Broker::from_connection_string(s.clone()).expect("valid address");
    assert_eq!(b.to_connection_string(), s);
}

#[test]
fn round_trip_formats_back() {
    let b = Broker::new(String::from("node-7.internal"), 65535);
    let s = b.to_connection_string();
    assert_eq!(s, "node-7.internal:65535");
    let again = Broker::from_connection_string(s).expect("valid address");
    assert_eq!(again, Broker::new(String::from("node-7.internal"), 65535));
}

#[test]
fn host_alone_gets_default_port() {
    let b = Broker::from_connection_string(String::from("myhost")).expect("valid address");
    assert_eq!(b.port(), 9092);
    assert_eq!(b.hostname(), "myhost");
}

#[test]
fn empty_string_is_invalid() {
    let r = Broker::from_connection_string(String::from(""));
    assert_eq!(
        r.unwrap_err(),
        ClientError::InvalidAddress(AddressFault::NoHostname)
    );
}

#[test]
fn missing_hostname_is_invalid() {
    let r = Broker::from_connection_string(String::from(":123"));
    assert_eq!(
        r.unwrap_err(),
        ClientError::InvalidAddress(AddressFault::NoHostname)
    );
}

#[test]
fn bad_ports_are_invalid() {
    for s in ["h:", "h:x", "h:65536", "h:12a", "h:-1"] {
        let r = Broker::from_connection_string(String::from(s));
        assert_eq!(
            r.unwrap_err(),
            ClientError::InvalidAddress(AddressFault::BadPort),
            "{}",
            s
        );
    }
}

#[test]
fn leading_zeros_parse_but_are_not_canonical() {
    let b = Broker::from_connection_string(String::from("h:08080")).expect("valid address");
    assert_eq!(b.port(), 8080);
    assert_eq!(b.to_connection_string(), "h:8080");
}

#[test]
fn last_colon_splits_host_and_port() {
    let b = Broker::from_connection_string(String::from("a:b:123")).expect("valid address");
    assert_eq!(b.hostname(), "a:b");
    assert_eq!(b.port(), 123);
    assert_eq!(b.to_connection_string(), "a:b:123");
}

#[test]
fn split_commas_keeps_empty_pieces() {
    assert_eq!(split_commas("a,,b"), vec!["a", "", "b"]);
    assert_eq!(split_commas(""), vec![""]);
    assert_eq!(split_commas("one"), vec!["one"]);
}

#[test]
fn broker_list_parses_each_entry() {
    let bs = parse_broker_list("h1:1,h2").expect("valid list");
    assert_eq!(bs.len(), 2);
    assert_eq!(bs[0], Broker::new(String::from("h1"), 1));
    assert_eq!(bs[1], Broker::new(String::from("h2"), 9092));
}

#[test]
fn broker_list_reports_first_bad_entry() {
    let r = parse_broker_list("h1,,h2");
    assert_eq!(
        r.unwrap_err(),
        ClientError::InvalidAddress(AddressFault::NoHostname)
    );
}

#[test]
fn default_broker_uses_default_port() {
    let b = Broker::default();
    assert_eq!(b.port(), 9092);
    assert_eq!(b.hostname(), "");
}
