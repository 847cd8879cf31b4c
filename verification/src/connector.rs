//! Setting a source up: where it reads from, how its consumer is configured, and how the
//! timestamper learns of it.

use crate::history::{
    bindings_of, histories_of, matching_timestamp, source_bindings, Binding, PartitionHistories,
    SourceInstanceId, TimestampHistories,
};
use rdkafka::ClientConfig;
use std::collections::HashMap;
use vstd::prelude::*;
use vstd::string::StringExecFns;

verus! {

broadcast use vstd::std_specs::hash::group_hash_axioms;

/// Where a Kafka source reads from.
#[derive(Clone, Debug)]
pub struct KafkaSourceConnector {
    pub url: String,
    pub topic: String,
    pub ssl_certificate_file: Option<String>,
}

/// Where a source reads from.
#[derive(Clone, Debug)]
pub enum ExternalSourceConnector {
    Kafka(KafkaSourceConnector),
}

/// Who decides on the timestamps of a source.
#[derive(Clone, Debug)]
pub enum Consistency {
    /// The timestamps come from a topic of their own.
    BringYourOwn(String),
    /// The timestamps follow the clock.
    RealTime,
}

/// What the timestamper is to be told: a source has come, or, without a connector, has gone.
pub type TimestampChanges = Vec<
    (SourceInstanceId, Option<(ExternalSourceConnector, Consistency)>),
>;

/// The settings of a Kafka client.
pub type Settings = Map<Seq<char>, Seq<char>>;

/// The configuration of a Kafka client, as rdkafka keeps it.
#[verifier::external_type_specification]
#[verifier::external_body]
pub struct ExClientConfig(ClientConfig);

/// The settings that a configuration holds.
pub uninterp spec fn settings_of(config: ClientConfig) -> Map<Seq<char>, Seq<char>>;

/// Calls `ClientConfig::new`, which makes a configuration without settings. The log level that
/// it also holds comes from the global logger and is not stated.
#[verifier::external_body]
fn new_config() -> (config: ClientConfig)
    ensures
        settings_of(config) == Settings::empty(),
{
    ClientConfig::new()
}

/// Calls `ClientConfig::set`, which puts `value` under `key`, in the place of an earlier value.
#[verifier::external_body]
fn set(config: &mut ClientConfig, key: &str, value: &str)
    ensures
        settings_of(*final(config)) == settings_of(*old(config)).insert(key@, value@),
{
    config.set(key, value);
}

/// The settings of the consumer of the source `name`.
pub open spec fn consumer_settings(name: Seq<char>, connector: KafkaSourceConnector) -> Settings {
    let settings = Settings::empty()
        .insert("group.id"@, "materialize-"@ + name)
        .insert("enable.auto.commit"@, "false"@)
        .insert("enable.partition.eof"@, "false"@)
        .insert("auto.offset.reset"@, "earliest"@)
        .insert("session.timeout.ms"@, "6000"@)
        .insert("max.poll.interval.ms"@, "300000"@)
        .insert("fetch.message.max.bytes"@, "134217728"@)
        .insert("enable.sparse.connections"@, "true"@)
        .insert("bootstrap.servers"@, connector.url@);
    match connector.ssl_certificate_file {
        Some(path) => settings.insert("security.protocol"@, "ssl"@).insert(
            "ssl.ca.location"@,
            path@,
        ),
        None => settings,
    }
}

/// The consumer of a source belongs to a group of its own, named after the source, starts at the
/// earliest message, commits nothing, is not told of the ends of partitions, and connects to the
/// brokers of the connector. It uses SSL, with the certificate that is given, exactly when one is.
/// Nothing else is set.
pub proof fn lemma_consumer_settings(name: Seq<char>, connector: KafkaSourceConnector)
    ensures
        ({
            let settings = consumer_settings(name, connector);
            let ssl = connector.ssl_certificate_file;
            &&& settings["group.id"@] == "materialize-"@ + name
            &&& settings["enable.auto.commit"@] == "false"@
            &&& settings["enable.partition.eof"@] == "false"@
            &&& settings["auto.offset.reset"@] == "earliest"@
            &&& settings["session.timeout.ms"@] == "6000"@
            &&& settings["max.poll.interval.ms"@] == "300000"@
            &&& settings["fetch.message.max.bytes"@] == "134217728"@
            &&& settings["enable.sparse.connections"@] == "true"@
            &&& settings["bootstrap.servers"@] == connector.url@
            &&& ssl is Some ==> settings["security.protocol"@] == "ssl"@
            &&& ssl is Some ==> settings["ssl.ca.location"@] == ssl->0@
            &&& settings.dom() == set![
                "group.id"@,
                "enable.auto.commit"@,
                "enable.partition.eof"@,
                "auto.offset.reset"@,
                "session.timeout.ms"@,
                "max.poll.interval.ms"@,
                "fetch.message.max.bytes"@,
                "enable.sparse.connections"@,
                "bootstrap.servers"@,
            ].union(
                if ssl is Some {
                    set!["security.protocol"@, "ssl.ca.location"@]
                } else {
                    Set::empty()
                },
            )
        }),
{
    reveal_strlit("group.id");
    reveal_strlit("enable.auto.commit");
    reveal_strlit("enable.partition.eof");
    reveal_strlit("auto.offset.reset");
    reveal_strlit("session.timeout.ms");
    reveal_strlit("max.poll.interval.ms");
    reveal_strlit("fetch.message.max.bytes");
    reveal_strlit("enable.sparse.connections");
    reveal_strlit("bootstrap.servers");
    reveal_strlit("security.protocol");
    reveal_strlit("ssl.ca.location");
    // No two names are the same: their lengths differ, or else their first letters.
    assert("group.id"@.len() == 8);
    assert("enable.auto.commit"@.len() == 18);
    assert("enable.partition.eof"@.len() == 20);
    assert("auto.offset.reset"@.len() == 17);
    assert("session.timeout.ms"@.len() == 18);
    assert("max.poll.interval.ms"@.len() == 20);
    assert("fetch.message.max.bytes"@.len() == 23);
    assert("enable.sparse.connections"@.len() == 25);
    assert("bootstrap.servers"@.len() == 17);
    assert("security.protocol"@.len() == 17);
    assert("ssl.ca.location"@.len() == 15);
    assert("enable.auto.commit"@[0] != "session.timeout.ms"@[0]);
    assert("enable.partition.eof"@[0] != "max.poll.interval.ms"@[0]);
    assert("auto.offset.reset"@[0] != "bootstrap.servers"@[0]);
    assert("auto.offset.reset"@[0] != "security.protocol"@[0]);
    assert("bootstrap.servers"@[0] != "security.protocol"@[0]);
    assert(consumer_settings(name, connector).dom() =~= set![
        "group.id"@,
        "enable.auto.commit"@,
        "enable.partition.eof"@,
        "auto.offset.reset"@,
        "session.timeout.ms"@,
        "max.poll.interval.ms"@,
        "fetch.message.max.bytes"@,
        "enable.sparse.connections"@,
        "bootstrap.servers"@,
    ].union(
        if connector.ssl_certificate_file is Some {
            set!["security.protocol"@, "ssl.ca.location"@]
        } else {
            Set::empty()
        },
    ));
}

/// Configures the consumer of the source `name`: it starts at the earliest message, never
/// commits what it has read, and uses SSL if a certificate is given.
pub fn consumer_config(name: &str, connector: &KafkaSourceConnector) -> (config: ClientConfig)
    ensures
        settings_of(config) == consumer_settings(name@, *connector),
{
    let group: String = String::from_str("materialize-").concat(name);
    let mut config: ClientConfig = new_config();
    set(&mut config, "group.id", group.as_str());
    set(&mut config, "enable.auto.commit", "false");
    set(&mut config, "enable.partition.eof", "false");
    set(&mut config, "auto.offset.reset", "earliest");
    set(&mut config, "session.timeout.ms", "6000");
    // Five minutes.
    set(&mut config, "max.poll.interval.ms", "300000");
    set(&mut config, "fetch.message.max.bytes", "134217728");
    set(&mut config, "enable.sparse.connections", "true");
    set(&mut config, "bootstrap.servers", connector.url.as_str());
    if let Some(path) = &connector.ssl_certificate_file {
        set(&mut config, "security.protocol", "ssl");
        set(&mut config, "ssl.ca.location", path.as_str());
    }
    config
}

/// The source has a history, and no message of it has a timestamp.
pub open spec fn starts_without_timestamps(
    histories: TimestampHistories,
    id: SourceInstanceId,
) -> bool {
    &&& histories@.contains_key(id)
    &&& forall|partition: i32, offset: i64| #[trigger]
        matching_timestamp(source_bindings(histories_of(histories), id), partition, offset) is None
}

/// Registers a source: it gets an empty timestamp history, and the timestamper is told of it.
pub fn register_source(
    id: SourceInstanceId,
    connector: KafkaSourceConnector,
    consistency: Consistency,
    timestamp_histories: &mut TimestampHistories,
    timestamp_changes: &mut TimestampChanges,
)
    requires
        !histories_of(*old(timestamp_histories)).contains_key(id),
    ensures
        histories_of(*final(timestamp_histories)) == histories_of(*old(timestamp_histories)).insert(
            id,
            Map::<i32, Seq<Binding>>::empty(),
        ),
        final(timestamp_changes)@ == old(timestamp_changes)@.push(
            (id, Some((ExternalSourceConnector::Kafka(connector), consistency))),
        ),
        starts_without_timestamps(*final(timestamp_histories), id),
        forall|other: SourceInstanceId|
            other != id ==> #[trigger] source_bindings(
                histories_of(*final(timestamp_histories)),
                other,
            ) == source_bindings(histories_of(*old(timestamp_histories)), other),
{
    let ghost before = histories_of(*timestamp_histories);
    let history: PartitionHistories = HashMap::new();
    assert(bindings_of(history) =~= Map::<i32, Seq<Binding>>::empty());
    timestamp_histories.insert(id, history);
    assert(histories_of(*timestamp_histories) =~= before.insert(id, bindings_of(history)));
    timestamp_changes.push((id, Some((ExternalSourceConnector::Kafka(connector), consistency))));
}

} // verus!
