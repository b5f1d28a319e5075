//! Decisions of a stream processor that reads records from a broker topic,
//! runs a query over each record's payload and republishes what the query
//! yields, together with the codec between the two value models involved.
//!
//! The processor itself pulls records, runs the query engine and talks to the
//! sink. What it is to do at each point of a record's life is decided here:
//! `run_async_processor` takes the state of a record and what has happened,
//! and gives the next state and what to do.

pub mod b64;
pub mod binary64;
pub mod bson;
pub mod cli;
pub mod jq;
pub mod text;

use crate::bson::{bson_to_jv, jv_to_bson, spec_bson_to_jv, spec_jv_to_bson, Bson, DecodeError, SpecBson};
use crate::cli::{spec_sink_serialization, SerializationType, SinkMetadata, SpecSink, SpecTopic, TopicMetadata};
use crate::jq::{Jv, SpecJv};
use vstd::prelude::*;

verus! {

/// The payload of a record, as it was read at the source.
#[derive(Debug, PartialEq, Eq)]
pub enum Payload {
    /// The record holds no payload.
    Missing,
    /// The payload could not be read in the encoding that the topic declares.
    Malformed,
    /// The payload read as text: the value that the text parsed to, invalid
    /// where it did not parse.
    Text(Jv),
    /// The payload read as a binary document.
    Document(Bson),
}

/// What the source yields when the next record is pulled.
#[derive(Debug, PartialEq, Eq)]
pub enum SourceItem {
    /// The transport failed; there is no record.
    TransportError,
    /// A record with its payload.
    Message(Payload),
}

/// An output of the query in the form that the sink's encoding serialises.
#[derive(Debug, PartialEq, Eq)]
pub enum Encoded<'a> {
    /// A text value, to be written as text.
    Json(&'a Jv),
    /// A document value, to be written as a binary document.
    Bson(Bson),
}

/// Where a record stands.
#[derive(Clone, Copy, Debug, PartialEq, Eq, Structural)]
pub enum RecordState {
    /// Awaited from the source.
    Received,
    /// Decoded; the query runs on it.
    Decoded,
    /// Its outputs went to the sink, which still owes this many answers.
    Dispatched { pending: usize },
    /// Fully consumed.
    Done,
    /// Discarded at the source or at decoding.
    Dropped,
}

/// What has happened to a record.
#[derive(Debug, PartialEq, Eq)]
pub enum Event<'a> {
    /// The source yielded this.
    Pulled(SourceItem),
    /// The query yielded these values, in this order. An invalid value ends
    /// them.
    Transformed(&'a Vec<Jv>),
    /// The sink answered for one output: whether it was delivered.
    Delivered(bool),
}

/// What is to be done for a record.
#[derive(Debug, PartialEq, Eq)]
pub enum Action<'a> {
    /// Nothing: the event does not belong to the record's state.
    Ignore,
    /// Log the transport error. Nothing is retried.
    LogTransportError,
    /// Log that the record could not be decoded. Nothing is retried.
    LogDecodeFailure(DecodeError),
    /// Run the query on this input.
    Transform(Jv),
    /// Print each output, in order.
    Print(Vec<Encoded<'a>>),
    /// Send each output to the topic, in order and each on its own.
    Send { topic: &'a str, payloads: Vec<Encoded<'a>> },
    /// Log what the sink answered. Nothing is retried.
    LogDelivery(bool),
}

/// The mathematical model of a payload.
pub enum SpecPayload {
    Missing,
    Malformed,
    Text(SpecJv),
    Document(SpecBson),
}

/// The mathematical model of a source item.
pub enum SpecSourceItem {
    TransportError,
    Message(SpecPayload),
}

/// The mathematical model of an encoded output.
pub enum SpecEncoded {
    Json(SpecJv),
    Bson(SpecBson),
}

/// The mathematical model of an event.
pub enum SpecEvent {
    Pulled(SpecSourceItem),
    Transformed(Seq<SpecJv>),
    Delivered(bool),
}

/// The mathematical model of an action.
pub enum SpecAction {
    Ignore,
    LogTransportError,
    LogDecodeFailure(DecodeError),
    Transform(SpecJv),
    Print(Seq<SpecEncoded>),
    Send { topic: Seq<char>, payloads: Seq<SpecEncoded> },
    LogDelivery(bool),
}

impl View for Payload {
    type V = SpecPayload;

    open spec fn view(&self) -> SpecPayload {
        match self {
            Payload::Missing => SpecPayload::Missing,
            Payload::Malformed => SpecPayload::Malformed,
            Payload::Text(json) => SpecPayload::Text(json@),
            Payload::Document(document) => SpecPayload::Document(document@),
        }
    }
}

impl View for SourceItem {
    type V = SpecSourceItem;

    open spec fn view(&self) -> SpecSourceItem {
        match self {
            SourceItem::TransportError => SpecSourceItem::TransportError,
            SourceItem::Message(payload) => SpecSourceItem::Message(payload@),
        }
    }
}

impl<'a> View for Encoded<'a> {
    type V = SpecEncoded;

    open spec fn view(&self) -> SpecEncoded {
        match self {
            Encoded::Json(json) => SpecEncoded::Json(json@),
            Encoded::Bson(document) => SpecEncoded::Bson(document@),
        }
    }
}

/// The outputs in the model.
pub open spec fn encoded_view(outputs: &Vec<Encoded>) -> Seq<SpecEncoded> {
    Seq::new(outputs.len() as nat, |i: int| outputs[i]@)
}

impl<'a> View for Event<'a> {
    type V = SpecEvent;

    open spec fn view(&self) -> SpecEvent {
        match self {
            Event::Pulled(item) => SpecEvent::Pulled(item@),
            Event::Transformed(results) => SpecEvent::Transformed(crate::jq::items_view(results)),
            Event::Delivered(delivered) => SpecEvent::Delivered(*delivered),
        }
    }
}

impl<'a> View for Action<'a> {
    type V = SpecAction;

    open spec fn view(&self) -> SpecAction {
        match self {
            Action::Ignore => SpecAction::Ignore,
            Action::LogTransportError => SpecAction::LogTransportError,
            Action::LogDecodeFailure(error) => SpecAction::LogDecodeFailure(*error),
            Action::Transform(input) => SpecAction::Transform(input@),
            Action::Print(outputs) => SpecAction::Print(encoded_view(outputs)),
            Action::Send { topic, payloads } => SpecAction::Send {
                topic: topic@,
                payloads: encoded_view(payloads),
            },
            Action::LogDelivery(delivered) => SpecAction::LogDelivery(*delivered),
        }
    }
}

/// The output that a value of the query becomes in an encoding: itself for
/// `JSON`; for `BSON` the document value it decodes to, and none where it does
/// not decode.
pub open spec fn spec_jv_to_bytes(json: SpecJv, serialization: SerializationType) -> Option<
    SpecEncoded,
> {
    match serialization {
        SerializationType::JSON => Some(SpecEncoded::Json(json)),
        SerializationType::BSON => match spec_jv_to_bson(json) {
            Ok(document) => Some(SpecEncoded::Bson(document)),
            Err(_) => None,
        },
    }
}

/// Brings a value of the query into the form that `serialization` writes:
/// the value itself for `JSON`, and for `BSON` the document value that it
/// decodes to. There is no output where the value does not decode.
pub fn jv_to_bytes<'a>(jv_value: &'a Jv, serialization: &SerializationType) -> (output: Option<
    Encoded<'a>,
>)
    ensures
        match output {
            Some(encoded) => spec_jv_to_bytes(jv_value@, *serialization) == Some(encoded@),
            None => spec_jv_to_bytes(jv_value@, *serialization) is None,
        },
{
    match serialization {
        SerializationType::JSON => Some(Encoded::Json(jv_value)),
        SerializationType::BSON => match jv_to_bson(jv_value) {
            Ok(document) => Some(Encoded::Bson(document)),
            Err(_) => None,
        },
    }
}

/// The outputs of the values that the query yielded: the values before the
/// first invalid one, in order, each encoded, without those that have no
/// output.
pub open spec fn spec_exec_jq_expr(results: Seq<SpecJv>, serialization: SerializationType) -> Seq<
    SpecEncoded,
>
    decreases results.len(),
{
    if results.len() == 0 || results[0] is Invalid {
        Seq::empty()
    } else {
        match spec_jv_to_bytes(results[0], serialization) {
            Some(encoded) => seq![encoded] + spec_exec_jq_expr(
                results.drop_first(),
                serialization,
            ),
            None => spec_exec_jq_expr(results.drop_first(), serialization),
        }
    }
}

/// Encodes what the query yielded for one record. The values are taken in
/// order up to the first invalid one, which ends them. A value that has no
/// output in the encoding is left out, and the rest go on.
pub fn exec_jq_expr<'a>(results: &'a Vec<Jv>, output_serialization: &SerializationType) -> (outputs:
    Vec<Encoded<'a>>)
    ensures
        encoded_view(&outputs) == spec_exec_jq_expr(
            crate::jq::items_view(results),
            *output_serialization,
        ),
{
    let ghost all = crate::jq::items_view(results);
    let mut outputs: Vec<Encoded<'a>> = Vec::new();
    let mut i: usize = 0;
    proof {
        assert(all.skip(0) =~= all);
        assert(encoded_view(&outputs) =~= Seq::empty());
    }
    while i < results.len()
        invariant
            i <= results.len(),
            all == crate::jq::items_view(results),
            encoded_view(&outputs) + spec_exec_jq_expr(all.skip(i as int), *output_serialization)
                == spec_exec_jq_expr(all, *output_serialization),
        decreases results.len() - i,
    {
        let ghost rest = all.skip(i as int);
        proof {
            assert(rest[0] == results[i as int]@);
            assert(rest.drop_first() =~= all.skip(i + 1));
        }
        match &results[i] {
            Jv::Invalid => {
                assert(encoded_view(&outputs) + Seq::<SpecEncoded>::empty() =~= encoded_view(
                    &outputs,
                ));
                return outputs;
            },
            result => {
                match jv_to_bytes(result, output_serialization) {
                    Some(encoded) => {
                        let ghost before = encoded_view(&outputs);
                        let ghost added = encoded@;
                        outputs.push(encoded);
                        proof {
                            assert(encoded_view(&outputs) =~= before + seq![added]);
                            assert((before + seq![added]) + spec_exec_jq_expr(
                                all.skip(i + 1),
                                *output_serialization,
                            ) =~= before + (seq![added] + spec_exec_jq_expr(
                                all.skip(i + 1),
                                *output_serialization,
                            )));
                        }
                    },
                    None => {},
                }
            },
        }
        i = i + 1;
    }
    proof {
        assert(encoded_view(&outputs) + Seq::<SpecEncoded>::empty() =~= encoded_view(&outputs));
    }
    outputs
}

/// The input of the query for a payload, or why the record is dropped. A
/// payload that is missing or malformed, and text that did not parse, is
/// malformed; a payload in the other encoding than the declared one is a
/// mismatch.
pub open spec fn spec_jq_computation(
    payload: SpecPayload,
    serialization: SerializationType,
) -> Result<SpecJv, DecodeError> {
    match payload {
        SpecPayload::Missing => Err(DecodeError::MalformedPayload),
        SpecPayload::Malformed => Err(DecodeError::MalformedPayload),
        SpecPayload::Text(json) => match serialization {
            SerializationType::JSON => if json is Invalid {
                Err(DecodeError::MalformedPayload)
            } else {
                Ok(json)
            },
            SerializationType::BSON => Err(DecodeError::EncodingMismatch),
        },
        SpecPayload::Document(document) => match serialization {
            SerializationType::BSON => Ok(spec_bson_to_jv(document)),
            SerializationType::JSON => Err(DecodeError::EncodingMismatch),
        },
    }
}

/// Decodes the payload of a record into the input of the query, by the
/// encoding that the input topic declares. A text payload is the input
/// itself, and a document payload is encoded as a text value. The record is
/// to be dropped where this fails.
pub fn jq_computation(payload: Payload, input_serialization: &SerializationType) -> (input: Result<
    Jv,
    DecodeError,
>)
    ensures
        match input {
            Ok(json) => spec_jq_computation(payload@, *input_serialization) == Ok::<
                SpecJv,
                DecodeError,
            >(json@),
            Err(error) => spec_jq_computation(payload@, *input_serialization) == Err::<
                SpecJv,
                DecodeError,
            >(error),
        },
{
    match payload {
        Payload::Missing => Err(DecodeError::MalformedPayload),
        Payload::Malformed => Err(DecodeError::MalformedPayload),
        Payload::Text(json) => match input_serialization {
            SerializationType::JSON => match json {
                Jv::Invalid => Err(DecodeError::MalformedPayload),
                parsed => Ok(parsed),
            },
            SerializationType::BSON => Err(DecodeError::EncodingMismatch),
        },
        Payload::Document(document) => match input_serialization {
            SerializationType::BSON => Ok(bson_to_jv(&document)),
            SerializationType::JSON => Err(DecodeError::EncodingMismatch),
        },
    }
}

/// The state after the sink took `count` outputs: the console owes no answer,
/// and a topic owes one for each.
pub open spec fn spec_after_dispatch(sink: SpecSink, count: nat) -> RecordState {
    if sink is StdOut || count == 0 {
        RecordState::Done
    } else {
        RecordState::Dispatched { pending: count as usize }
    }
}

/// The next state of a record and what is to be done, for each state and
/// event:
/// - a record that is awaited is dropped on a transport error and on a
///   payload that does not decode, and else is decoded and handed to the
///   query;
/// - a decoded record has each output of the query dispatched to the sink;
/// - a dispatched record counts the sink's answers down;
/// - anything else changes nothing.
pub open spec fn spec_step(
    state: RecordState,
    event: SpecEvent,
    input_topic: SpecTopic,
    output_topic: SpecSink,
) -> (RecordState, SpecAction) {
    match (state, event) {
        (RecordState::Received, SpecEvent::Pulled(SpecSourceItem::TransportError)) => (
            RecordState::Dropped,
            SpecAction::LogTransportError,
        ),
        (RecordState::Received, SpecEvent::Pulled(SpecSourceItem::Message(payload))) => {
            match spec_jq_computation(payload, input_topic.serialization) {
                Ok(input) => (RecordState::Decoded, SpecAction::Transform(input)),
                Err(error) => (RecordState::Dropped, SpecAction::LogDecodeFailure(error)),
            }
        },
        (RecordState::Decoded, SpecEvent::Transformed(results)) => {
            let outputs = spec_exec_jq_expr(results, spec_sink_serialization(output_topic));
            (
                spec_after_dispatch(output_topic, outputs.len()),
                match output_topic {
                    SpecSink::StdOut => SpecAction::Print(outputs),
                    SpecSink::SinkTopic(topic) => SpecAction::Send {
                        topic: topic.name,
                        payloads: outputs,
                    },
                },
            )
        },
        (RecordState::Dispatched { pending }, SpecEvent::Delivered(delivered)) => (
            if pending <= 1 {
                RecordState::Done
            } else {
                RecordState::Dispatched { pending: (pending - 1) as usize }
            },
            SpecAction::LogDelivery(delivered),
        ),
        _ => (state, SpecAction::Ignore),
    }
}

/// Decides the next step for one record: given where the record stands and
/// what has happened, the state it moves to and what is to be done. Records
/// do not affect each other: a step depends on nothing but its arguments.
pub fn run_async_processor<'a>(
    state: RecordState,
    event: Event<'a>,
    input_topic: &TopicMetadata,
    output_topic: &SinkMetadata<'a>,
) -> (step: (RecordState, Action<'a>))
    ensures
        (step.0, step.1@) == spec_step(state, event@, input_topic@, output_topic@),
{
    match (state, event) {
        (RecordState::Received, Event::Pulled(SourceItem::TransportError)) => (
            RecordState::Dropped,
            Action::LogTransportError,
        ),
        (RecordState::Received, Event::Pulled(SourceItem::Message(payload))) => {
            match jq_computation(payload, &input_topic.serialization) {
                Ok(input) => (RecordState::Decoded, Action::Transform(input)),
                Err(error) => (RecordState::Dropped, Action::LogDecodeFailure(error)),
            }
        },
        (RecordState::Decoded, Event::Transformed(results)) => {
            let outputs = exec_jq_expr(results, output_topic.serialization());
            match output_topic {
                SinkMetadata::StdOut => (RecordState::Done, Action::Print(outputs)),
                SinkMetadata::SinkTopic { metadata } => {
                    let pending = outputs.len();
                    (
                        if pending == 0 {
                            RecordState::Done
                        } else {
                            RecordState::Dispatched { pending }
                        },
                        Action::Send { topic: metadata.name, payloads: outputs },
                    )
                },
            }
        },
        (RecordState::Dispatched { pending }, Event::Delivered(delivered)) => (
            if pending <= 1 {
                RecordState::Done
            } else {
                RecordState::Dispatched { pending: pending - 1 }
            },
            Action::LogDelivery(delivered),
        ),
        (unchanged, _) => (unchanged, Action::Ignore),
    }
}

/// The outputs that an action hands to the sink.
pub open spec fn spec_dispatched(action: SpecAction) -> Seq<SpecEncoded> {
    match action {
        SpecAction::Print(outputs) => outputs,
        SpecAction::Send { topic, payloads } => payloads,
        _ => Seq::empty(),
    }
}

/// How many of the items, each pulled for a record that is awaited, end in a
/// logged decode failure.
pub open spec fn spec_decode_failures(
    items: Seq<SpecSourceItem>,
    input_topic: SpecTopic,
    output_topic: SpecSink,
) -> nat
    decreases items.len(),
{
    if items.len() == 0 {
        0
    } else {
        spec_decode_failures(items.drop_last(), input_topic, output_topic) + if spec_step(
            RecordState::Received,
            SpecEvent::Pulled(items.last()),
            input_topic,
            output_topic,
        ).1 is LogDecodeFailure {
            1nat
        } else {
            0nat
        }
    }
}

/// How many of the items, each pulled for a record that is awaited, are handed
/// to the query.
pub open spec fn spec_transforms(
    items: Seq<SpecSourceItem>,
    input_topic: SpecTopic,
    output_topic: SpecSink,
) -> nat
    decreases items.len(),
{
    if items.len() == 0 {
        0
    } else {
        spec_transforms(items.drop_last(), input_topic, output_topic) + if spec_step(
            RecordState::Received,
            SpecEvent::Pulled(items.last()),
            input_topic,
            output_topic,
        ).1 is Transform {
            1nat
        } else {
            0nat
        }
    }
}

/// Whether the item is a record whose payload decodes.
pub open spec fn spec_decodes(item: SpecSourceItem, input_topic: SpecTopic) -> bool {
    item matches SpecSourceItem::Message(payload) && spec_jq_computation(
        payload,
        input_topic.serialization,
    ) is Ok
}

proof fn lemma_isolation_counts(
    items: Seq<SpecSourceItem>,
    malformed: int,
    input_topic: SpecTopic,
    output_topic: SpecSink,
    k: int,
)
    requires
        0 <= malformed < items.len(),
        0 <= k <= items.len(),
        forall|i: int|
            0 <= i < items.len() && i != malformed ==> spec_decodes(
                #[trigger] items[i],
                input_topic,
            ),
        items[malformed] is Message,
        !spec_decodes(items[malformed], input_topic),
    ensures
        spec_decode_failures(items.take(k), input_topic, output_topic) == (if k > malformed {
            1nat
        } else {
            0nat
        }),
        spec_transforms(items.take(k), input_topic, output_topic) == (if k > malformed {
            k - 1
        } else {
            k
        }),
    decreases k,
{
    if k > 0 {
        lemma_isolation_counts(items, malformed, input_topic, output_topic, k - 1);
        assert(items.take(k).drop_last() =~= items.take(k - 1));
        assert(items.take(k).last() == items[k - 1]);
        if k - 1 != malformed {
            assert(spec_decodes(items[k - 1], input_topic));
        }
    }
}

/// Decode isolation: among records that decode, one record whose payload does
/// not decode is dropped with one logged decode failure, and every other
/// record is handed to the query as if the malformed one had not come.
pub proof fn lemma_decode_isolation(
    items: Seq<SpecSourceItem>,
    malformed: int,
    input_topic: SpecTopic,
    output_topic: SpecSink,
)
    requires
        0 <= malformed < items.len(),
        forall|i: int|
            0 <= i < items.len() && i != malformed ==> spec_decodes(
                #[trigger] items[i],
                input_topic,
            ),
        items[malformed] is Message,
        !spec_decodes(items[malformed], input_topic),
    ensures
        spec_decode_failures(items, input_topic, output_topic) == 1,
        spec_transforms(items, input_topic, output_topic) == items.len() - 1,
        spec_step(
            RecordState::Received,
            SpecEvent::Pulled(items[malformed]),
            input_topic,
            output_topic,
        ).0 == RecordState::Dropped,
        forall|i: int|
            0 <= i < items.len() && i != malformed ==> (#[trigger] spec_step(
                RecordState::Received,
                SpecEvent::Pulled(items[i]),
                input_topic,
                output_topic,
            )).0 == RecordState::Decoded,
{
    lemma_isolation_counts(items, malformed, input_topic, output_topic, items.len() as int);
    assert(items.take(items.len() as int) =~= items);
    assert forall|i: int| 0 <= i < items.len() && i != malformed implies (#[trigger] spec_step(
        RecordState::Received,
        SpecEvent::Pulled(items[i]),
        input_topic,
        output_topic,
    )).0 == RecordState::Decoded by {
        assert(spec_decodes(items[i], input_topic));
    }
}

/// Every valid value has itself as its `JSON` output.
proof fn lemma_json_outputs(results: Seq<SpecJv>)
    requires
        forall|i: int| 0 <= i < results.len() ==> !((#[trigger] results[i]) is Invalid),
    ensures
        spec_exec_jq_expr(results, SerializationType::JSON).len() == results.len(),
        forall|i: int|
            0 <= i < results.len() ==> (#[trigger] spec_exec_jq_expr(
                results,
                SerializationType::JSON,
            )[i]) == SpecEncoded::Json(results[i]),
    decreases results.len(),
{
    if results.len() > 0 {
        let rest = results.drop_first();
        assert forall|i: int| 0 <= i < rest.len() implies !((#[trigger] rest[i]) is Invalid) by {
            assert(rest[i] == results[i + 1]);
        }
        lemma_json_outputs(rest);
        let outputs = spec_exec_jq_expr(results, SerializationType::JSON);
        assert(!(results[0] is Invalid));
        assert forall|i: int| 0 <= i < results.len() implies (#[trigger] outputs[i])
            == SpecEncoded::Json(results[i]) by {
            if i > 0 {
                assert(outputs[i] == spec_exec_jq_expr(rest, SerializationType::JSON)[i - 1]);
                assert(rest[i - 1] == results[i]);
            }
        }
    }
}

/// Fan-out: where the query yields valid values for a record and the sink
/// takes `JSON`, the sink is handed exactly one output for each value, in
/// order, each holding its value; and a topic then owes one answer for each.
pub proof fn lemma_fan_out(results: Seq<SpecJv>, input_topic: SpecTopic, output_topic: SpecSink)
    requires
        forall|i: int| 0 <= i < results.len() ==> !((#[trigger] results[i]) is Invalid),
        spec_sink_serialization(output_topic) == SerializationType::JSON,
        results.len() <= usize::MAX,
    ensures
        ({
            let step = spec_step(
                RecordState::Decoded,
                SpecEvent::Transformed(results),
                input_topic,
                output_topic,
            );
            &&& spec_dispatched(step.1).len() == results.len()
            &&& forall|i: int|
                0 <= i < results.len() ==> (#[trigger] spec_dispatched(step.1)[i])
                    == SpecEncoded::Json(results[i])
            &&& output_topic is StdOut ==> step.1 is Print
            &&& output_topic is SinkTopic ==> step.1 is Send
            &&& step.0 == spec_after_dispatch(output_topic, results.len())
        }),
{
    lemma_json_outputs(results);
}

/// Filter to zero: where the query yields nothing for a record, the sink is
/// handed nothing, and the record is done without an error.
pub proof fn lemma_filter_to_zero(input_topic: SpecTopic, output_topic: SpecSink)
    ensures
        ({
            let step = spec_step(
                RecordState::Decoded,
                SpecEvent::Transformed(Seq::empty()),
                input_topic,
                output_topic,
            );
            &&& spec_dispatched(step.1).len() == 0
            &&& step.0 == RecordState::Done
            &&& !(step.1 is LogDecodeFailure)
            &&& !(step.1 is LogTransportError)
        }),
{
}

} // verus!
