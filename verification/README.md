# kafka_source

The decisions of a Kafka source that feeds a timely dataflow, verified with Verus.

A source reads the messages of a topic and sends their payloads into the dataflow. In one mode a
timestamper decides, per partition, which offsets belong to which timestamp; the source closes
timestamps as it processes messages and downgrades its capability accordingly. In the other mode
the capability follows the times that Kafka keeps with the messages.

- `src/history.rs`: timestamp histories, and the timestamp that a message gets.
- `src/closing.rs`: closing timestamps on each partition.
- `src/partitions.rs`: the partitions of a topic, as the brokers list them.
- `src/capability.rs`: the capability of timely.
- `src/downgrade.rs`: downgrading the capability.
- `src/message.rs`: the events a reader is told of and the actions it asks for.
- `src/reader.rs`: the reader that follows a timestamp history.
- `src/untimed.rs`: the reader that follows the times of the messages.
- `src/connector.rs`: registering a source and configuring its consumer.
- `src/laws.rs`, `src/order.rs`, `src/runs.rs`: what holds of a reader from step to step, when
  timestamps are decided in increasing order, and over runs of steps.
- `app/`: the operator, the consumer and the clock around the library.
