//! What the command line declares: the options, and the topics with their
//! encodings.

use crate::text::str_eq;
use vstd::prelude::*;
use vstd::string::*;

verus! {

/// The wire encoding of a topic's records.
#[derive(Clone, Copy, Debug, PartialEq, Eq, Structural)]
pub enum SerializationType {
    JSON,
    BSON,
}

/// A topic and the encoding of its records.
#[derive(Clone, Copy, Debug, PartialEq, Eq)]
pub struct TopicMetadata<'a> {
    pub name: &'a str,
    pub serialization: SerializationType,
}

/// Where the results go: to the console, or to a topic.
#[derive(Clone, Copy, Debug, PartialEq, Eq)]
pub enum SinkMetadata<'a> {
    StdOut,
    SinkTopic { metadata: TopicMetadata<'a> },
}

/// Why the configuration was refused.
#[derive(Clone, Copy, Debug, PartialEq, Eq, Structural)]
pub enum ConfigError {
    /// A topic names an encoding that is neither `JSON` nor `BSON`, or holds
    /// more than one colon.
    UnknownEncoding,
}

/// The mathematical model of a topic.
pub struct SpecTopic {
    pub name: Seq<char>,
    pub serialization: SerializationType,
}

/// The mathematical model of a sink.
pub enum SpecSink {
    StdOut,
    SinkTopic(SpecTopic),
}

impl<'a> View for TopicMetadata<'a> {
    type V = SpecTopic;

    open spec fn view(&self) -> SpecTopic {
        SpecTopic { name: self.name@, serialization: self.serialization }
    }
}

impl<'a> View for SinkMetadata<'a> {
    type V = SpecSink;

    open spec fn view(&self) -> SpecSink {
        match self {
            SinkMetadata::StdOut => SpecSink::StdOut,
            SinkMetadata::SinkTopic { metadata } => SpecSink::SinkTopic(metadata@),
        }
    }
}

/// The encoding of what goes to the sink: that of the topic, and `JSON` for
/// the console.
pub open spec fn spec_sink_serialization(sink: SpecSink) -> SerializationType {
    match sink {
        SpecSink::StdOut => SerializationType::JSON,
        SpecSink::SinkTopic(topic) => topic.serialization,
    }
}

impl<'a> SinkMetadata<'a> {
    /// The encoding of what goes to this sink: that of the topic, and `JSON`
    /// for the console.
    pub fn serialization(&self) -> (serialization: &SerializationType)
        ensures
            *serialization == spec_sink_serialization(self@),
    {
        match self {
            SinkMetadata::StdOut => &SerializationType::JSON,
            SinkMetadata::SinkTopic { metadata } => &metadata.serialization,
        }
    }
}

/// The encoding that a token names.
pub open spec fn spec_serialization_type(token: Seq<char>) -> Option<SerializationType> {
    if token == "JSON"@ {
        Some(SerializationType::JSON)
    } else if token == "BSON"@ {
        Some(SerializationType::BSON)
    } else {
        None
    }
}

/// The encoding that `string` names: `JSON` or `BSON`, and `None` for any
/// other token.
pub fn string_to_serialization_type(string: &str) -> (serialization: Option<SerializationType>)
    ensures
        serialization == spec_serialization_type(string@),
{
    if str_eq(string, "JSON") {
        Some(SerializationType::JSON)
    } else if str_eq(string, "BSON") {
        Some(SerializationType::BSON)
    } else {
        None
    }
}

/// Whether `text` holds no colon.
pub open spec fn no_colon(text: Seq<char>) -> bool {
    forall|i: int| 0 <= i < text.len() ==> text[i] != ':'
}

/// Whether `text` holds a colon at `at` and nowhere else.
pub open spec fn only_colon_at(text: Seq<char>, at: int) -> bool {
    &&& 0 <= at < text.len()
    &&& text[at] == ':'
    &&& forall|i: int| 0 <= i < text.len() && i != at ==> text[i] != ':'
}

/// The topic that a topic reference declares: `name` alone stands for a topic
/// of `JSON` records, `name:ENCODING` for one of the named encoding, and
/// anything else for none.
pub open spec fn spec_topic(reference: Seq<char>) -> Option<SpecTopic> {
    if no_colon(reference) {
        Some(SpecTopic { name: reference, serialization: SerializationType::JSON })
    } else if exists|at: int| only_colon_at(reference, at) {
        let at = choose|at: int| only_colon_at(reference, at);
        match spec_serialization_type(reference.subrange(at + 1, reference.len() as int)) {
            Some(serialization) => Some(
                SpecTopic { name: reference.subrange(0, at), serialization },
            ),
            None => None,
        }
    } else {
        None
    }
}

/// The position of the first colon of `text` from `from` on, or the length of
/// `text` where there is none.
fn find_colon(text: &str, from: usize) -> (at: usize)
    requires
        from <= text@.len(),
    ensures
        from <= at <= text@.len(),
        at < text@.len() ==> text@[at as int] == ':',
        forall|i: int| from <= i < at ==> text@[i] != ':',
{
    let length = text.unicode_len();
    let mut at: usize = from;
    while at < length
        invariant
            from <= at <= length,
            length == text@.len(),
            forall|i: int| from <= i < at ==> text@[i] != ':',
        decreases length - at,
    {
        if text.get_char(at) == ':' {
            return at;
        }
        at = at + 1;
    }
    at
}

/// Reads a topic reference: `name` declares a topic of `JSON` records, and
/// `name:ENCODING` one of the encoding that the token names. A reference
/// with an unknown token or with more than one colon declares nothing.
pub fn mk_topic_serialization<'a>(topic_string: &'a str) -> (topic: Option<TopicMetadata<'a>>)
    ensures
        match topic {
            Some(metadata) => spec_topic(topic_string@) == Some(metadata@),
            None => spec_topic(topic_string@) is None,
        },
{
    let length = topic_string.unicode_len();
    let at = find_colon(topic_string, 0);
    if at == length {
        assert(topic_string@.subrange(0, length as int) =~= topic_string@);
        return Some(
            TopicMetadata { name: topic_string, serialization: SerializationType::JSON },
        );
    }
    let next = find_colon(topic_string, at + 1);
    if next < length {
        proof {
            assert forall|k: int| !only_colon_at(topic_string@, k) by {
                if k != at as int {
                    assert(topic_string@[at as int] == ':');
                } else {
                    assert(topic_string@[next as int] == ':');
                }
            }
        }
        return None;
    }
    proof {
        assert(only_colon_at(topic_string@, at as int));
        let chosen = choose|k: int| only_colon_at(topic_string@, k);
        assert(chosen == at) by {
            if chosen != at as int {
                assert(topic_string@[at as int] == ':');
            }
        }
    }
    let token = topic_string.substring_char(at + 1, length);
    match string_to_serialization_type(token) {
        Some(serialization) => Some(
            TopicMetadata { name: topic_string.substring_char(0, at), serialization },
        ),
        None => None,
    }
}

/// The sink that an optional topic reference declares: the console where
/// there is none.
pub open spec fn spec_sink(reference: Option<Seq<char>>) -> Result<SpecSink, ConfigError> {
    match reference {
        None => Ok(SpecSink::StdOut),
        Some(text) => match spec_topic(text) {
            Some(topic) => Ok(SpecSink::SinkTopic(topic)),
            None => Err(ConfigError::UnknownEncoding),
        },
    }
}

/// Reads the sink from the reference of the output topic: the console where
/// no reference is given, and an error where the reference declares no topic.
pub fn mk_sink_metadata<'a>(output_topic: Option<&'a str>) -> (sink: Result<
    SinkMetadata<'a>,
    ConfigError,
>)
    ensures
        match sink {
            Ok(metadata) => spec_sink(
                match output_topic {
                    Some(text) => Some(text@),
                    None => None,
                },
            ) == Ok::<SpecSink, ConfigError>(metadata@),
            Err(error) => spec_sink(
                match output_topic {
                    Some(text) => Some(text@),
                    None => None,
                },
            ) == Err::<SpecSink, ConfigError>(error),
        },
{
    match output_topic {
        None => Ok(SinkMetadata::StdOut),
        Some(text) => match mk_topic_serialization(text) {
            Some(metadata) => Ok(SinkMetadata::SinkTopic { metadata }),
            None => Err(ConfigError::UnknownEncoding),
        },
    }
}

/// One option of the command line.
#[derive(Clone, Copy, Debug, PartialEq, Eq)]
pub struct Arg {
    pub name: &'static str,
    pub short: Option<char>,
    pub long: &'static str,
    pub help: &'static str,
    pub takes_value: bool,
    pub default_value: Option<&'static str>,
    pub required: bool,
}

/// The command line: what the program is, and its options in the order of
/// their declaration.
#[derive(Debug, PartialEq, Eq)]
pub struct App {
    pub name: &'static str,
    pub about: &'static str,
    pub args: Vec<Arg>,
}

/// The mathematical model of an option.
pub struct SpecArg {
    pub name: Seq<char>,
    pub short: Option<char>,
    pub long: Seq<char>,
    pub help: Seq<char>,
    pub takes_value: bool,
    pub default_value: Option<Seq<char>>,
    pub required: bool,
}

impl View for Arg {
    type V = SpecArg;

    open spec fn view(&self) -> SpecArg {
        SpecArg {
            name: self.name@,
            short: self.short,
            long: self.long@,
            help: self.help@,
            takes_value: self.takes_value,
            default_value: match self.default_value {
                Some(value) => Some(value@),
                None => None,
            },
            required: self.required,
        }
    }
}

/// The options of the command line, by position: the query expression, the
/// brokers, the consumer group, the logging configuration, the input topic,
/// the output topic and the size of the worker pool.
pub open spec fn spec_arg(position: int) -> SpecArg {
    if position == 0 {
        SpecArg {
            name: "jq_expression"@,
            short: Some('j'),
            long: "jq-expression"@,
            help: "The jq expression to apply to json"@,
            takes_value: true,
            default_value: Some("."@),
            required: false,
        }
    } else if position == 1 {
        SpecArg {
            name: "brokers"@,
            short: Some('b'),
            long: "brokers"@,
            help: "Broker list in kafka format"@,
            takes_value: true,
            default_value: Some("localhost:9092"@),
            required: false,
        }
    } else if position == 2 {
        SpecArg {
            name: "group-id"@,
            short: Some('g'),
            long: "group-id"@,
            help: "Consumer group id"@,
            takes_value: true,
            default_value: Some("example_consumer_group_id"@),
            required: false,
        }
    } else if position == 3 {
        SpecArg {
            name: "log-conf"@,
            short: None,
            long: "log-conf"@,
            help: "Configure the logging format (example: 'rdkafka=trace')"@,
            takes_value: true,
            default_value: None,
            required: false,
        }
    } else if position == 4 {
        SpecArg {
            name: "input-topic"@,
            short: None,
            long: "input-topic"@,
            help: "Input topic"@,
            takes_value: true,
            default_value: None,
            required: true,
        }
    } else if position == 5 {
        SpecArg {
            name: "output-topic"@,
            short: None,
            long: "output-topic"@,
            help: "Output topic"@,
            takes_value: true,
            default_value: None,
            required: false,
        }
    } else {
        SpecArg {
            name: "parallelism"@,
            short: Some('p'),
            long: "pool-size"@,
            help: "Parallelism of consumer pool"@,
            takes_value: true,
            default_value: Some("4"@),
            required: false,
        }
    }
}

/// Declares the command line: the program's name and description, and its
/// seven options. Only the input topic is required; the query expression
/// defaults to `.`, the brokers to `localhost:9092`, the consumer group to
/// `example_consumer_group_id` and the size of the worker pool to `4`.
pub fn mk_cli_matches() -> (app: App)
    ensures
        app.name@ == "Async example"@,
        app.about@ == "Asynchronous computation example"@,
        app.args@.len() == 7,
        forall|position: int| 0 <= position < 7 ==> (#[trigger] app.args@[position])@ == spec_arg(
            position,
        ),
{
    let mut args: Vec<Arg> = Vec::new();
    args.push(
        Arg {
            name: "jq_expression",
            short: Some('j'),
            long: "jq-expression",
            help: "The jq expression to apply to json",
            takes_value: true,
            default_value: Some("."),
            required: false,
        },
    );
    args.push(
        Arg {
            name: "brokers",
            short: Some('b'),
            long: "brokers",
            help: "Broker list in kafka format",
            takes_value: true,
            default_value: Some("localhost:9092"),
            required: false,
        },
    );
    args.push(
        Arg {
            name: "group-id",
            short: Some('g'),
            long: "group-id",
            help: "Consumer group id",
            takes_value: true,
            default_value: Some("example_consumer_group_id"),
            required: false,
        },
    );
    args.push(
        Arg {
            name: "log-conf",
            short: None,
            long: "log-conf",
            help: "Configure the logging format (example: 'rdkafka=trace')",
            takes_value: true,
            default_value: None,
            required: false,
        },
    );
    args.push(
        Arg {
            name: "input-topic",
            short: None,
            long: "input-topic",
            help: "Input topic",
            takes_value: true,
            default_value: None,
            required: true,
        },
    );
    args.push(
        Arg {
            name: "output-topic",
            short: None,
            long: "output-topic",
            help: "Output topic",
            takes_value: true,
            default_value: None,
            required: false,
        },
    );
    args.push(
        Arg {
            name: "parallelism",
            short: Some('p'),
            long: "pool-size",
            help: "Parallelism of consumer pool",
            takes_value: true,
            default_value: Some("4"),
            required: false,
        },
    );
    App { name: "Async example", about: "Asynchronous computation example", args }
}

} // verus!
