use kafka_source::connector::{
    consumer_config, register_source, Consistency, ExternalSourceConnector, KafkaSourceConnector,
    TimestampChanges,
};
use kafka_source::history::TimestampHistories;
use std::collections::HashMap;

fn connector(ssl_certificate_file: Option<&str>) -> KafkaSourceConnector {
    KafkaSourceConnector {
        url: "broker:9092".to_string(),
        topic: "orders".to_string(),
        ssl_certificate_file: ssl_certificate_file.map(|path| path.to_string()),
    }
}

fn has(shown: &str, key: &str, value: &str) -> bool {
    shown.contains(&format!("{:?}: {:?}", key, value))
}

#[test]
fn consumer_settings_without_ssl() {
    let shown = format!("{:?}", consumer_config("src", &connector(None)));
    assert!(has(&shown, "group.id", "materialize-src"));
    assert!(has(&shown, "enable.auto.commit", "false"));
    assert!(has(&shown, "enable.partition.eof", "false"));
    assert!(has(&shown, "auto.offset.reset", "earliest"));
    assert!(has(&shown, "session.timeout.ms", "6000"));
    assert!(has(&shown, "max.poll.interval.ms", "300000"));
    assert!(has(&shown, "fetch.message.max.bytes", "134217728"));
    assert!(has(&shown, "enable.sparse.connections", "true"));
    assert!(has(&shown, "bootstrap.servers", "broker:9092"));
    assert!(!shown.contains("security.protocol"));
    assert!(!shown.contains("ssl.ca.location"));
}

#[test]
fn consumer_settings_with_ssl() {
    let shown = format!("{:?}", consumer_config("src", &connector(Some("/etc/ca.pem"))));
    assert!(has(&shown, "security.protocol", "ssl"));
    assert!(has(&shown, "ssl.ca.location", "/etc/ca.pem"));
    assert!(has(&shown, "bootstrap.servers", "broker:9092"));
}

#[test]
fn registering_announces_the_source() {
    let mut histories: TimestampHistories = HashMap::new();
    let mut changes: TimestampChanges = Vec::new();
    register_source(4, connector(None), Consistency::RealTime, &mut histories, &mut changes);
    assert_eq!(histories.len(), 1);
    assert!(histories[&4].is_empty());
    assert_eq!(changes.len(), 1);
    assert_eq!(changes[0].0, 4);
    match &changes[0].1 {
        Some((ExternalSourceConnector::Kafka(kafka), Consistency::RealTime)) => {
            assert_eq!(kafka.topic, "orders")
        }
        _ => panic!("expected a connector"),
    }
}
