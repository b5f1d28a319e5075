use kafka_jq::cli::{
    mk_cli_matches, mk_sink_metadata, mk_topic_serialization, string_to_serialization_type,
    ConfigError, SerializationType, SinkMetadata, TopicMetadata,
};

#[test]
fn only_the_two_tokens_name_an_encoding() {
    assert_eq!(string_to_serialization_type("JSON"), Some(SerializationType::JSON));
    assert_eq!(string_to_serialization_type("BSON"), Some(SerializationType::BSON));
    for token in ["", "json", "bson", "JSON ", "XML", "JSONX", "BSO"] {
        assert_eq!(string_to_serialization_type(token), None);
    }
}

#[test]
fn a_bare_name_declares_a_topic_of_json_records() {
    assert_eq!(
        mk_topic_serialization("events"),
        Some(TopicMetadata { name: "events", serialization: SerializationType::JSON })
    );
    assert_eq!(
        mk_topic_serialization(""),
        Some(TopicMetadata { name: "", serialization: SerializationType::JSON })
    );
}

#[test]
fn a_name_with_a_token_declares_a_topic_of_that_encoding() {
    assert_eq!(
        mk_topic_serialization("events:BSON"),
        Some(TopicMetadata { name: "events", serialization: SerializationType::BSON })
    );
    assert_eq!(
        mk_topic_serialization("events:JSON"),
        Some(TopicMetadata { name: "events", serialization: SerializationType::JSON })
    );
    assert_eq!(
        mk_topic_serialization(":BSON"),
        Some(TopicMetadata { name: "", serialization: SerializationType::BSON })
    );
    assert_eq!(
        mk_topic_serialization("tøpic-é:BSON"),
        Some(TopicMetadata { name: "tøpic-é", serialization: SerializationType::BSON })
    );
}

#[test]
fn an_unknown_token_or_a_second_colon_declares_nothing() {
    for reference in ["events:XML", "events:", "events:bson", "a:b:c", "a:JSON:", "::", ":"] {
        assert_eq!(mk_topic_serialization(reference), None, "{}", reference);
    }
}

#[test]
fn the_console_takes_json_and_a_topic_its_own_encoding() {
    assert_eq!(SinkMetadata::StdOut.serialization(), &SerializationType::JSON);
    let bson = TopicMetadata { name: "out", serialization: SerializationType::BSON };
    assert_eq!(
        SinkMetadata::SinkTopic { metadata: bson }.serialization(),
        &SerializationType::BSON
    );
    let json = TopicMetadata { name: "out", serialization: SerializationType::JSON };
    assert_eq!(
        SinkMetadata::SinkTopic { metadata: json }.serialization(),
        &SerializationType::JSON
    );
}

#[test]
fn the_sink_is_the_console_unless_a_topic_is_given() {
    assert_eq!(mk_sink_metadata(None), Ok(SinkMetadata::StdOut));
    assert_eq!(
        mk_sink_metadata(Some("out:BSON")),
        Ok(SinkMetadata::SinkTopic {
            metadata: TopicMetadata { name: "out", serialization: SerializationType::BSON }
        })
    );
    assert_eq!(
        mk_sink_metadata(Some("out")),
        Ok(SinkMetadata::SinkTopic {
            metadata: TopicMetadata { name: "out", serialization: SerializationType::JSON }
        })
    );
}

#[test]
fn an_unknown_encoding_of_the_sink_is_a_configuration_error() {
    assert_eq!(mk_sink_metadata(Some("out:XML")), Err(ConfigError::UnknownEncoding));
    assert_eq!(mk_sink_metadata(Some("a:b:c")), Err(ConfigError::UnknownEncoding));
}

#[test]
fn the_command_line_declares_its_seven_options() {
    let app = mk_cli_matches();
    assert_eq!(app.name, "Async example");
    assert_eq!(app.about, "Asynchronous computation example");
    let names: Vec<&str> = app.args.iter().map(|arg| arg.name).collect();
    assert_eq!(
        names,
        vec![
            "jq_expression",
            "brokers",
            "group-id",
            "log-conf",
            "input-topic",
            "output-topic",
            "parallelism"
        ]
    );
    let longs: Vec<&str> = app.args.iter().map(|arg| arg.long).collect();
    assert_eq!(
        longs,
        vec![
            "jq-expression",
            "brokers",
            "group-id",
            "log-conf",
            "input-topic",
            "output-topic",
            "pool-size"
        ]
    );
    let shorts: Vec<Option<char>> = app.args.iter().map(|arg| arg.short).collect();
    assert_eq!(shorts, vec![Some('j'), Some('b'), Some('g'), None, None, None, Some('p')]);
    assert!(app.args.iter().all(|arg| arg.takes_value));
}

#[test]
fn only_the_input_topic_is_required_and_four_options_have_defaults() {
    let app = mk_cli_matches();
    let required: Vec<&str> =
        app.args.iter().filter(|arg| arg.required).map(|arg| arg.name).collect();
    assert_eq!(required, vec!["input-topic"]);
    let defaults: Vec<Option<&str>> = app.args.iter().map(|arg| arg.default_value).collect();
    assert_eq!(
        defaults,
        vec![
            Some("."),
            Some("localhost:9092"),
            Some("example_consumer_group_id"),
            None,
            None,
            None,
            Some("4")
        ]
    );
    assert_eq!(app.args[3].help, "Configure the logging format (example: 'rdkafka=trace')");
}
