use kafka_jq::bson::{BinarySubtype, Bson, DecodeError, OrderedDocument};
use kafka_jq::cli::{SerializationType, SinkMetadata, TopicMetadata};
use kafka_jq::jq::Jv;
use kafka_jq::{
    exec_jq_expr, jq_computation, jv_to_bytes, run_async_processor, Action, Encoded, Event,
    Payload, RecordState, SourceItem,
};

fn number(value: f64) -> Jv {
    Jv::Number(value.to_bits())
}

fn object(fields: Vec<(&str, Jv)>) -> Jv {
    Jv::Object(fields.into_iter().map(|(key, value)| (key.to_string(), value)).collect())
}

fn json_topic() -> TopicMetadata<'static> {
    TopicMetadata { name: "in", serialization: SerializationType::JSON }
}

fn bson_topic() -> TopicMetadata<'static> {
    TopicMetadata { name: "in", serialization: SerializationType::BSON }
}

fn json_sink() -> SinkMetadata<'static> {
    SinkMetadata::SinkTopic {
        metadata: TopicMetadata { name: "out", serialization: SerializationType::JSON },
    }
}

fn bson_sink() -> SinkMetadata<'static> {
    SinkMetadata::SinkTopic {
        metadata: TopicMetadata { name: "out", serialization: SerializationType::BSON },
    }
}

fn pulled(payload: Payload) -> Event<'static> {
    Event::Pulled(SourceItem::Message(payload))
}

#[test]
fn a_text_payload_is_the_input_of_the_query() {
    let payload = Payload::Text(object(vec![("y", number(1.0))]));
    let input = jq_computation(payload, &SerializationType::JSON);
    assert_eq!(input, Ok(object(vec![("y", number(1.0))])));
}

#[test]
fn a_document_payload_is_encoded_as_text_for_the_query() {
    let mut doc = OrderedDocument::new();
    doc.insert_bson("a".to_string(), Bson::I32(5));
    let input = jq_computation(Payload::Document(Bson::Document(doc)), &SerializationType::BSON);
    assert_eq!(input, Ok(object(vec![("a", number(5.0))])));
}

#[test]
fn a_payload_that_cannot_be_read_is_malformed() {
    for serialization in [SerializationType::JSON, SerializationType::BSON] {
        assert_eq!(
            jq_computation(Payload::Missing, &serialization),
            Err(DecodeError::MalformedPayload)
        );
        assert_eq!(
            jq_computation(Payload::Malformed, &serialization),
            Err(DecodeError::MalformedPayload)
        );
    }
    assert_eq!(
        jq_computation(Payload::Text(Jv::Invalid), &SerializationType::JSON),
        Err(DecodeError::MalformedPayload)
    );
}

#[test]
fn a_payload_in_the_other_encoding_is_a_mismatch() {
    assert_eq!(
        jq_computation(Payload::Text(Jv::Null), &SerializationType::BSON),
        Err(DecodeError::EncodingMismatch)
    );
    assert_eq!(
        jq_computation(Payload::Document(Bson::Null), &SerializationType::JSON),
        Err(DecodeError::EncodingMismatch)
    );
}

#[test]
fn an_output_takes_the_form_of_its_encoding() {
    let value = number(9_999_999_999.0);
    assert_eq!(jv_to_bytes(&value, &SerializationType::JSON), Some(Encoded::Json(&value)));
    assert_eq!(
        jv_to_bytes(&value, &SerializationType::BSON),
        Some(Encoded::Bson(Bson::I64(9_999_999_999)))
    );
    let binary = object(vec![
        ("$type", Jv::String("\\x04".to_string())),
        ("$binary", Jv::String("AQID".to_string())),
    ]);
    assert_eq!(
        jv_to_bytes(&binary, &SerializationType::BSON),
        Some(Encoded::Bson(Bson::Binary(BinarySubtype::Uuid, vec![1, 2, 3])))
    );
}

#[test]
fn a_value_that_does_not_decode_has_no_document_output() {
    let bad = object(vec![("$binary", Jv::String("%%%".to_string()))]);
    assert_eq!(jv_to_bytes(&bad, &SerializationType::BSON), None);
    assert_eq!(jv_to_bytes(&bad, &SerializationType::JSON), Some(Encoded::Json(&bad)));
    assert_eq!(jv_to_bytes(&Jv::Invalid, &SerializationType::BSON), None);
}

#[test]
fn the_outputs_keep_the_order_of_the_values() {
    let results = vec![number(1.0), number(2.0), number(3.0)];
    let outputs = exec_jq_expr(&results, &SerializationType::JSON);
    assert_eq!(
        outputs,
        vec![Encoded::Json(&results[0]), Encoded::Json(&results[1]), Encoded::Json(&results[2])]
    );
    let documents = exec_jq_expr(&results, &SerializationType::BSON);
    assert_eq!(
        documents,
        vec![
            Encoded::Bson(Bson::I32(1)),
            Encoded::Bson(Bson::I32(2)),
            Encoded::Bson(Bson::I32(3))
        ]
    );
}

#[test]
fn an_invalid_value_ends_the_outputs() {
    let results = vec![number(1.0), Jv::Invalid, number(3.0)];
    let outputs = exec_jq_expr(&results, &SerializationType::JSON);
    assert_eq!(outputs, vec![Encoded::Json(&results[0])]);
    let ended_at_once = vec![Jv::Invalid, number(1.0)];
    let none = exec_jq_expr(&ended_at_once, &SerializationType::BSON);
    assert_eq!(none, vec![]);
}

#[test]
fn a_value_without_an_output_is_left_out_and_the_rest_go_on() {
    let bad = object(vec![("$binary", number(1.0))]);
    let results = vec![number(1.0), bad, number(3.0)];
    let outputs = exec_jq_expr(&results, &SerializationType::BSON);
    assert_eq!(outputs, vec![Encoded::Bson(Bson::I32(1)), Encoded::Bson(Bson::I32(3))]);
}

#[test]
fn a_transport_error_is_logged_and_discarded() {
    let step = run_async_processor(
        RecordState::Received,
        Event::Pulled(SourceItem::TransportError),
        &json_topic(),
        &json_sink(),
    );
    assert_eq!(step, (RecordState::Dropped, Action::LogTransportError));
}

#[test]
fn a_record_that_decodes_goes_to_the_query() {
    let step = run_async_processor(
        RecordState::Received,
        pulled(Payload::Text(object(vec![("y", number(1.0))]))),
        &json_topic(),
        &json_sink(),
    );
    assert_eq!(step, (RecordState::Decoded, Action::Transform(object(vec![("y", number(1.0))]))));
    let step = run_async_processor(
        RecordState::Received,
        pulled(Payload::Document(Bson::Array(vec![Bson::I32(1), Bson::I32(2)]))),
        &bson_topic(),
        &SinkMetadata::StdOut,
    );
    assert_eq!(
        step,
        (RecordState::Decoded, Action::Transform(Jv::Array(vec![number(1.0), number(2.0)])))
    );
}

#[test]
fn a_record_that_does_not_decode_is_dropped() {
    let step = run_async_processor(
        RecordState::Received,
        pulled(Payload::Text(Jv::Invalid)),
        &json_topic(),
        &json_sink(),
    );
    assert_eq!(
        step,
        (RecordState::Dropped, Action::LogDecodeFailure(DecodeError::MalformedPayload))
    );
    let step = run_async_processor(
        RecordState::Received,
        pulled(Payload::Text(Jv::Null)),
        &bson_topic(),
        &json_sink(),
    );
    assert_eq!(
        step,
        (RecordState::Dropped, Action::LogDecodeFailure(DecodeError::EncodingMismatch))
    );
}

#[test]
fn one_malformed_record_among_well_formed_ones_is_the_only_one_dropped() {
    let mut dropped = 0;
    let mut transformed = 0;
    for position in 0..7 {
        let payload = if position == 3 {
            Payload::Text(Jv::Invalid)
        } else {
            Payload::Text(number(position as f64))
        };
        let step =
            run_async_processor(RecordState::Received, pulled(payload), &json_topic(), &json_sink());
        match step {
            (RecordState::Dropped, Action::LogDecodeFailure(_)) => {
                assert_eq!(position, 3);
                dropped += 1;
            }
            (RecordState::Decoded, Action::Transform(input)) => {
                assert_eq!(input, number(position as f64));
                transformed += 1;
            }
            other => panic!("unexpected step: {:?}", other),
        }
    }
    assert_eq!(dropped, 1);
    assert_eq!(transformed, 6);
}

#[test]
fn a_query_that_yields_nothing_leads_to_no_call_of_the_sink() {
    // The query `.x` finds no field in `{"y":1}` and yields nothing.
    let results: Vec<Jv> = vec![];
    let step = run_async_processor(
        RecordState::Decoded,
        Event::Transformed(&results),
        &json_topic(),
        &json_sink(),
    );
    assert_eq!(step, (RecordState::Done, Action::Send { topic: "out", payloads: vec![] }));
    let step = run_async_processor(
        RecordState::Decoded,
        Event::Transformed(&results),
        &json_topic(),
        &SinkMetadata::StdOut,
    );
    assert_eq!(step, (RecordState::Done, Action::Print(vec![])));
}

#[test]
fn a_query_that_yields_three_values_leads_to_three_calls_of_the_sink() {
    // The query `.[]` yields the three items of `[1,2,3]`.
    let results = vec![number(1.0), number(2.0), number(3.0)];
    let step = run_async_processor(
        RecordState::Decoded,
        Event::Transformed(&results),
        &json_topic(),
        &json_sink(),
    );
    assert_eq!(
        step,
        (
            RecordState::Dispatched { pending: 3 },
            Action::Send {
                topic: "out",
                payloads: vec![
                    Encoded::Json(&results[0]),
                    Encoded::Json(&results[1]),
                    Encoded::Json(&results[2])
                ]
            }
        )
    );
    let step = run_async_processor(
        RecordState::Decoded,
        Event::Transformed(&results),
        &json_topic(),
        &bson_sink(),
    );
    assert_eq!(
        step,
        (
            RecordState::Dispatched { pending: 3 },
            Action::Send {
                topic: "out",
                payloads: vec![
                    Encoded::Bson(Bson::I32(1)),
                    Encoded::Bson(Bson::I32(2)),
                    Encoded::Bson(Bson::I32(3))
                ]
            }
        )
    );
}

#[test]
fn the_console_owes_no_answer() {
    let results = vec![number(1.0), number(2.0)];
    let step = run_async_processor(
        RecordState::Decoded,
        Event::Transformed(&results),
        &json_topic(),
        &SinkMetadata::StdOut,
    );
    assert_eq!(
        step,
        (
            RecordState::Done,
            Action::Print(vec![Encoded::Json(&results[0]), Encoded::Json(&results[1])])
        )
    );
}

#[test]
fn the_answers_of_the_sink_are_counted_down() {
    let step = run_async_processor(
        RecordState::Dispatched { pending: 3 },
        Event::Delivered(true),
        &json_topic(),
        &json_sink(),
    );
    assert_eq!(step, (RecordState::Dispatched { pending: 2 }, Action::LogDelivery(true)));
    let step = run_async_processor(
        RecordState::Dispatched { pending: 2 },
        Event::Delivered(false),
        &json_topic(),
        &json_sink(),
    );
    assert_eq!(step, (RecordState::Dispatched { pending: 1 }, Action::LogDelivery(false)));
    let step = run_async_processor(
        RecordState::Dispatched { pending: 1 },
        Event::Delivered(true),
        &json_topic(),
        &json_sink(),
    );
    assert_eq!(step, (RecordState::Done, Action::LogDelivery(true)));
}

#[test]
fn an_event_that_does_not_belong_to_the_state_changes_nothing() {
    let results = vec![number(1.0)];
    for state in [RecordState::Received, RecordState::Done, RecordState::Dropped] {
        let step = run_async_processor(
            state,
            Event::Transformed(&results),
            &json_topic(),
            &json_sink(),
        );
        assert_eq!(step, (state, Action::Ignore));
    }
    for state in [RecordState::Decoded, RecordState::Done, RecordState::Dropped] {
        let step =
            run_async_processor(state, pulled(Payload::Text(Jv::Null)), &json_topic(), &json_sink());
        assert_eq!(step, (state, Action::Ignore));
        let step =
            run_async_processor(state, Event::Delivered(true), &json_topic(), &json_sink());
        assert_eq!(step, (state, Action::Ignore));
    }
}
