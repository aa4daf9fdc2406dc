use als_relay::server::{
    build_publish_request, chain_allows, one_ack_settings, parse_listen_addr, AckLevel,
    Inspection, PublishRequestError, ServerConfig, StartupError,
};

fn config(listen: &[u8], topic: &[u8], brokers: Vec<Vec<u8>>) -> ServerConfig {
    ServerConfig {
        listen_addr: listen.to_vec(),
        timeout_secs: 30,
        topic: topic.to_vec(),
        brokers,
    }
}

#[test]
fn parse_listen_addr_accepts_host_and_port() {
    let (host, port) = parse_listen_addr(&b"0.0.0.0:50051".to_vec()).unwrap();
    assert_eq!(host, b"0.0.0.0".to_vec());
    assert_eq!(port, 50051);
}

#[test]
fn parse_listen_addr_splits_at_the_last_colon() {
    let (host, port) = parse_listen_addr(&b"[::1]:50051".to_vec()).unwrap();
    assert_eq!(host, b"[::1]".to_vec());
    assert_eq!(port, 50051);
}

#[test]
fn parse_listen_addr_rejects_bad_addresses() {
    assert_eq!(parse_listen_addr(&b"".to_vec()), Err(StartupError::InvalidListenAddr));
    assert_eq!(parse_listen_addr(&b"localhost".to_vec()), Err(StartupError::InvalidListenAddr));
    assert_eq!(parse_listen_addr(&b":9092".to_vec()), Err(StartupError::InvalidListenAddr));
    assert_eq!(parse_listen_addr(&b"host:".to_vec()), Err(StartupError::InvalidListenAddr));
    assert_eq!(parse_listen_addr(&b"host:12a".to_vec()), Err(StartupError::InvalidListenAddr));
    assert_eq!(parse_listen_addr(&b"host:65536".to_vec()), Err(StartupError::InvalidListenAddr));
}

#[test]
fn parse_listen_addr_accepts_the_largest_port() {
    let (_, port) = parse_listen_addr(&b"h:65535".to_vec()).unwrap();
    assert_eq!(port, 65535);
}

#[test]
fn validate_accepts_a_complete_configuration() {
    let c = config(b"0.0.0.0:50051", b"my-topic", vec![b"localhost:9092".to_vec()]);
    assert_eq!(c.validate(), Ok(()));
}

#[test]
fn validate_reports_the_first_violated_rule() {
    let no_addr = config(b"nowhere", b"my-topic", vec![b"localhost:9092".to_vec()]);
    assert_eq!(no_addr.validate(), Err(StartupError::InvalidListenAddr));
    let no_topic = config(b"0.0.0.0:50051", b"", vec![b"localhost:9092".to_vec()]);
    assert_eq!(no_topic.validate(), Err(StartupError::EmptyTopic));
    let no_brokers = config(b"0.0.0.0:50051", b"my-topic", vec![]);
    assert_eq!(no_brokers.validate(), Err(StartupError::NoBrokers));
}

#[test]
fn publish_request_carries_its_parts_through() {
    let req = build_publish_request(
        b"my-topic".to_vec(),
        vec![b"localhost:9092".to_vec()],
        b"payload".to_vec(),
    )
    .unwrap();
    assert_eq!(req.topic, b"my-topic".to_vec());
    assert_eq!(req.brokers, vec![b"localhost:9092".to_vec()]);
    assert_eq!(req.payload, b"payload".to_vec());
}

#[test]
fn publish_request_permits_an_empty_payload() {
    let req =
        build_publish_request(b"t".to_vec(), vec![b"b:9092".to_vec()], Vec::new()).unwrap();
    assert_eq!(req.payload, Vec::<u8>::new());
}

#[test]
fn publish_request_rejects_missing_destination() {
    let e = build_publish_request(Vec::new(), vec![b"b:9092".to_vec()], b"p".to_vec());
    assert_eq!(e.unwrap_err(), PublishRequestError::EmptyTopic);
    let e2 = build_publish_request(b"t".to_vec(), Vec::new(), b"p".to_vec());
    assert_eq!(e2.unwrap_err(), PublishRequestError::NoBrokers);
}

#[test]
fn interceptor_chain_admits_only_when_every_hook_allows() {
    assert!(chain_allows(&Vec::new()));
    assert!(chain_allows(&vec![Inspection::Allow, Inspection::Allow]));
    assert!(!chain_allows(&vec![Inspection::Allow, Inspection::Deny, Inspection::Allow]));
}

#[test]
fn one_ack_is_the_default_durability_level() {
    let s = one_ack_settings();
    assert_eq!(s.ack_level, AckLevel::OneAck);
    assert_eq!(s.ack_timeout_ms, 1000);
}
