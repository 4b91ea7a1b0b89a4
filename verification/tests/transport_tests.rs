use chorus_lib::location_map::LocationMap;
use chorus_lib::transport::http::{
    decimal_string, socket_address_string, source_of_request, HttpTransport, RequestHeader,
    HEADER_SRC,
};
use chorus_lib::transport::local::LocalTransport;
use chorus_lib::transport::transport_config;

fn names(list: &[&str]) -> Vec<String> {
    list.iter().map(|s| s.to_string()).collect()
}

fn source_header(value: &str) -> RequestHeader {
    RequestHeader { field: HEADER_SRC.to_string(), value: value.to_string() }
}

fn http_pair() -> (HttpTransport, HttpTransport) {
    let locations = names(&["Alice", "Bob"]);
    let alice_config = transport_config(
        "Alice",
        vec![
            ("Alice".to_string(), ("0.0.0.0".to_string(), 9010)),
            ("Bob".to_string(), ("localhost".to_string(), 9011)),
        ],
    );
    let bob_config = transport_config(
        "Bob",
        vec![
            ("Alice".to_string(), ("localhost".to_string(), 9010)),
            ("Bob".to_string(), ("0.0.0.0".to_string(), 9011)),
        ],
    );
    let alice = HttpTransport::new(&alice_config, HttpTransport::transport_channel(&locations));
    let bob = HttpTransport::new(&bob_config, HttpTransport::transport_channel(&locations));
    (alice, bob)
}

#[test]
fn test_local_transport() {
    let v = 42;
    let locations = names(&["Alice", "Bob"]);
    let transport_channel = LocalTransport::transport_channel(&locations);
    let config = transport_config("Alice", vec![("Alice".to_string(), ()), ("Bob".to_string(), ())]);
    let mut transport = LocalTransport::new(&config, transport_channel);
    transport.send("Alice", "Bob", serde_json::to_string(&v).unwrap());
    let data = transport.receive("Alice", "Bob").unwrap();
    let v2: i32 = serde_json::from_str(&data).unwrap();
    assert_eq!(v, v2);
}

#[test]
fn test_http_transport() {
    let v = 42;
    let (alice, mut bob) = http_pair();
    assert_eq!(bob.listen_address(), "0.0.0.0:9011");
    let request = alice.outgoing_request("Alice", "Bob", serde_json::to_string(&v).unwrap());
    assert_eq!(request.url, "http://localhost:9011");
    assert_eq!(request.source, "Alice");
    let reply = bob.handle_request(&vec![source_header(&request.source)], request.body);
    assert_eq!(reply.status, 200);
    assert_eq!(reply.body, "OK");
    let data = bob.receive("Alice").unwrap();
    let v2: i32 = serde_json::from_str(&data).unwrap();
    assert_eq!(v, v2);
}

#[test]
fn local_channel_has_an_empty_queue_for_every_pair() {
    let locations = names(&["Alice", "Bob", "Carol"]);
    let config = transport_config(
        "Bob",
        vec![("Alice".to_string(), ()), ("Bob".to_string(), ()), ("Carol".to_string(), ())],
    );
    let mut transport = LocalTransport::new(&config, LocalTransport::transport_channel(&locations));
    for from in ["Alice", "Bob", "Carol"] {
        for to in ["Alice", "Bob", "Carol"] {
            assert!(transport.has_queue(from, to));
            assert_eq!(transport.receive(from, to), None);
        }
    }
    assert!(!transport.has_queue("Alice", "Dave"));
    assert!(!transport.has_queue("Dave", "Alice"));
    assert_eq!(transport.locations(), locations);
}

#[test]
fn local_messages_arrive_in_order_and_per_pair() {
    let locations = names(&["Alice", "Bob", "Carol"]);
    let config = transport_config("Alice", vec![("Alice".to_string(), ()), ("Bob".to_string(), ())]);
    let mut transport = LocalTransport::new(&config, LocalTransport::transport_channel(&locations));
    transport.send("Alice", "Bob", "1".to_string());
    transport.send("Alice", "Bob", "2".to_string());
    transport.send("Carol", "Bob", "3".to_string());
    transport.send("Bob", "Alice", "4".to_string());
    assert_eq!(transport.receive("Bob", "Alice"), Some("4".to_string()));
    assert_eq!(transport.receive("Alice", "Carol"), None);
    assert_eq!(transport.receive("Alice", "Bob"), Some("1".to_string()));
    assert_eq!(transport.receive("Carol", "Bob"), Some("3".to_string()));
    assert_eq!(transport.receive("Alice", "Bob"), Some("2".to_string()));
    assert_eq!(transport.receive("Alice", "Bob"), None);
    assert_eq!(transport.receive("Bob", "Alice"), None);
}

#[test]
fn config_splits_target_from_others_and_last_entry_counts() {
    let config = transport_config(
        "Bob",
        vec![
            ("Alice".to_string(), 1),
            ("Bob".to_string(), 2),
            ("Carol".to_string(), 3),
            ("Alice".to_string(), 4),
            ("Bob".to_string(), 5),
        ],
    );
    assert_eq!(config.target_info, ("Bob".to_string(), 5));
    assert_eq!(config.info.len(), 2);
    assert_eq!(config.info.get(&"Alice".to_string()), Some(&4));
    assert_eq!(config.info.get(&"Carol".to_string()), Some(&3));
    assert_eq!(config.info.get(&"Bob".to_string()), None);
    assert_eq!(config.location_set, names(&["Alice", "Bob", "Carol", "Alice", "Bob"]));
}

#[test]
fn http_source_header_name_ignores_case() {
    let (_, mut bob) = http_pair();
    let headers = vec![
        RequestHeader { field: "Content-Type".to_string(), value: "text/plain".to_string() },
        RequestHeader { field: "x-Chorus-source".to_string(), value: "Alice".to_string() },
    ];
    assert_eq!(source_of_request(&headers), Some("Alice".to_string()));
    let reply = bob.handle_request(&headers, "\"hi\"".to_string());
    assert_eq!(reply.status, 200);
    assert_eq!(bob.receive("Alice"), Some("\"hi\"".to_string()));
}

#[test]
fn http_first_source_header_counts() {
    let headers = vec![source_header("Bob"), source_header("Alice")];
    assert_eq!(source_of_request(&headers), Some("Bob".to_string()));
    let near_miss = vec![
        RequestHeader { field: "X-CHORUS-SOURC".to_string(), value: "Alice".to_string() },
        RequestHeader { field: "X-CHORUS-SOURCE ".to_string(), value: "Alice".to_string() },
        RequestHeader { field: "X-CHORÜS-SOURCE".to_string(), value: "Alice".to_string() },
    ];
    assert_eq!(source_of_request(&near_miss), None);
}

#[test]
fn http_request_without_source_is_refused() {
    let (_, mut bob) = http_pair();
    let headers = vec![RequestHeader { field: "Host".to_string(), value: "localhost".to_string() }];
    let reply = bob.handle_request(&headers, "1".to_string());
    assert_eq!(reply.status, 400);
    assert_eq!(reply.body, "Bad Request");
    assert_eq!(bob.receive("Alice"), None);
    assert_eq!(bob.receive("Bob"), None);
}

#[test]
fn http_messages_from_one_source_arrive_in_order() {
    let (_, mut bob) = http_pair();
    bob.handle_request(&vec![source_header("Alice")], "1".to_string());
    bob.handle_request(&vec![source_header("Bob")], "2".to_string());
    bob.handle_request(&vec![source_header("Alice")], "3".to_string());
    assert_eq!(bob.receive("Alice"), Some("1".to_string()));
    assert_eq!(bob.receive("Alice"), Some("3".to_string()));
    assert_eq!(bob.receive("Alice"), None);
    assert_eq!(bob.receive("Bob"), Some("2".to_string()));
    assert!(bob.has_queue("Alice"));
    assert!(!bob.has_queue("Carol"));
}

#[test]
fn http_locations_are_the_other_locations() {
    let (alice, bob) = http_pair();
    assert_eq!(alice.locations(), names(&["Bob"]));
    assert_eq!(bob.locations(), names(&["Alice"]));
    assert_eq!(alice.listen_address(), "0.0.0.0:9010");
    let request = bob.outgoing_request("Bob", "Alice", "7".to_string());
    assert_eq!(request.url, "http://localhost:9010");
    assert_eq!(request.source, "Bob");
    assert_eq!(request.body, "7");
}

#[test]
fn decimal_forms() {
    assert_eq!(decimal_string(0), "0");
    assert_eq!(decimal_string(7), "7");
    assert_eq!(decimal_string(10), "10");
    assert_eq!(decimal_string(9011), "9011");
    assert_eq!(decimal_string(65535), "65535");
    assert_eq!(socket_address_string(&"example.org".to_string(), 80), "example.org:80");
}

#[test]
fn location_map_keeps_one_entry_per_name() {
    let mut m: LocationMap<u32> = LocationMap::new();
    assert_eq!(m.len(), 0);
    m.insert("a".to_string(), 1);
    m.insert("b".to_string(), 2);
    m.insert("a".to_string(), 3);
    assert_eq!(m.len(), 2);
    assert!(m.contains_key(&"a".to_string()));
    assert_eq!(m.get(&"a".to_string()), Some(&3));
    let mut keys = m.keys();
    keys.sort();
    assert_eq!(keys, names(&["a", "b"]));
    assert_eq!(m.remove(&"a".to_string()), Some(3));
    assert_eq!(m.remove(&"a".to_string()), None);
    assert!(!m.contains_key(&"a".to_string()));
    assert_eq!(m.len(), 1);
}

#[test]
fn local_channel_keys_are_exactly_the_locations() {
    let locations = names(&["Alice", "Bob"]);
    let channel = LocalTransport::transport_channel(&locations);
    assert_eq!(channel.locations(), &locations);
    assert_eq!(channel.queue_map().len(), 2);
    let mut senders = channel.queue_map().keys();
    senders.sort();
    assert_eq!(senders, locations);
    for sender in &locations {
        let row = channel.queue_map().get(sender).unwrap();
        assert_eq!(row.len(), 2);
        let mut receivers = row.keys();
        receivers.sort();
        assert_eq!(receivers, locations);
        for receiver in &locations {
            assert!(row.get(receiver).unwrap().is_empty());
        }
    }
    assert!(!channel.queue_map().contains_key(&"Zed".to_string()));
}

#[test]
fn http_channel_keys_are_exactly_the_locations() {
    let locations = names(&["Alice", "Bob"]);
    let channel = HttpTransport::transport_channel(&locations);
    assert_eq!(channel.queue_map().len(), 2);
    let mut sources = channel.queue_map().keys();
    sources.sort();
    assert_eq!(sources, locations);
    assert!(channel.queue_map().get(&"Alice".to_string()).unwrap().is_empty());
}

#[test]
fn local_many_sends_then_receives_keep_order() {
    let locations = names(&["Alice", "Bob"]);
    let config = transport_config("Alice", vec![("Alice".to_string(), ()), ("Bob".to_string(), ())]);
    let mut transport = LocalTransport::new(&config, LocalTransport::transport_channel(&locations));
    for i in 0..100 {
        transport.send("Alice", "Bob", i.to_string());
    }
    assert_eq!(transport.receive("Bob", "Alice"), None);
    for i in 0..100 {
        assert_eq!(transport.receive("Alice", "Bob"), Some(i.to_string()));
    }
    assert_eq!(transport.receive("Alice", "Bob"), None);
}
