//! The document value model, and its codec to and from the text value model.

use crate::b64::{base64_bytes, base64_text};
use crate::binary64;
use crate::jq::{fields_view, items_view, lemma_array_view, lemma_object_view, object_get, spec_object_get, Jv, SpecJv};
use crate::text::str_eq;
use vstd::prelude::*;

verus! {

/// What a binary payload is said to hold. `UserDefined` carries its own
/// discriminator.
#[derive(Clone, Copy, Debug, PartialEq, Eq, Structural)]
pub enum BinarySubtype {
    Generic,
    Function,
    BinaryOld,
    UuidOld,
    Uuid,
    Md5,
    UserDefined(u8),
}

/// Why a payload or a text value could not be decoded.
#[derive(Clone, Copy, Debug, PartialEq, Eq, Structural)]
pub enum DecodeError {
    /// The payload is missing, unreadable or not a value of its encoding, or
    /// a binary value's fields are not strings.
    MalformedPayload,
    /// The payload of a binary value is not base64 text.
    InvalidBase64,
    /// The payload came in another encoding than the one declared.
    EncodingMismatch,
}

/// A document value. A floating-point number is held as the bit pattern of an
/// IEEE-754 binary64 value.
#[derive(Debug, PartialEq, Eq)]
pub enum Bson {
    FloatingPoint(u64),
    String(String),
    Array(Vec<Bson>),
    Document(OrderedDocument),
    Boolean(bool),
    Null,
    I32(i32),
    I64(i64),
    Binary(BinarySubtype, Vec<u8>),
}

/// The entries of a document, in the order in which their keys were first
/// inserted. It is well formed where no key occurs twice, here and in every
/// document within its values; `new` and `insert_bson` keep it so.
#[derive(Debug, PartialEq, Eq)]
pub struct OrderedDocument {
    pub entries: Vec<(String, Bson)>,
}

/// The mathematical model of a document value.
pub enum SpecBson {
    FloatingPoint(u64),
    String(Seq<char>),
    Array(Seq<SpecBson>),
    Document(Seq<(Seq<char>, SpecBson)>),
    Boolean(bool),
    Null,
    I32(i32),
    I64(i64),
    Binary(BinarySubtype, Seq<u8>),
}

impl View for Bson {
    type V = SpecBson;

    open spec fn view(&self) -> SpecBson
        decreases self,
    {
        match self {
            Bson::FloatingPoint(bits) => SpecBson::FloatingPoint(*bits),
            Bson::String(s) => SpecBson::String(s@),
            Bson::Array(items) => SpecBson::Array(
                Seq::new(
                    items.len() as nat,
                    |i: int|
                        if 0 <= i < items.len() {
                            items[i].view()
                        } else {
                            SpecBson::Null
                        },
                ),
            ),
            Bson::Document(doc) => SpecBson::Document(
                Seq::new(
                    doc.entries.len() as nat,
                    |i: int|
                        if 0 <= i < doc.entries.len() {
                            (doc.entries[i].0@, doc.entries[i].1.view())
                        } else {
                            (Seq::empty(), SpecBson::Null)
                        },
                ),
            ),
            Bson::Boolean(b) => SpecBson::Boolean(*b),
            Bson::Null => SpecBson::Null,
            Bson::I32(i) => SpecBson::I32(*i),
            Bson::I64(i) => SpecBson::I64(*i),
            Bson::Binary(subtype, bytes) => SpecBson::Binary(*subtype, bytes@),
        }
    }
}

/// The entries of a document in the model.
pub open spec fn entries_view(entries: &Vec<(String, Bson)>) -> Seq<(Seq<char>, SpecBson)> {
    Seq::new(entries.len() as nat, |i: int| (entries[i].0@, entries[i].1@))
}

/// The items of an array in the model.
pub open spec fn array_view(items: &Vec<Bson>) -> Seq<SpecBson> {
    Seq::new(items.len() as nat, |i: int| items[i]@)
}

impl View for OrderedDocument {
    type V = Seq<(Seq<char>, SpecBson)>;

    open spec fn view(&self) -> Seq<(Seq<char>, SpecBson)> {
        entries_view(&self.entries)
    }
}

/// The view of an array is the view of its items.
pub proof fn lemma_bson_array_view(items: &Vec<Bson>)
    ensures
        Bson::Array(*items)@ == SpecBson::Array(array_view(items)),
{
    reveal_with_fuel(<Bson as View>::view, 2);
    assert(Bson::Array(*items)@->Array_0 =~= array_view(items));
}

/// The view of a document value is the view of its document.
pub proof fn lemma_bson_document_view(doc: &OrderedDocument)
    ensures
        Bson::Document(*doc)@ == SpecBson::Document(doc@),
{
    reveal_with_fuel(<Bson as View>::view, 2);
    assert(Bson::Document(*doc)@->Document_0 =~= doc@);
}

/// Whether some entry has the key.
pub open spec fn contains_key(entries: Seq<(Seq<char>, SpecBson)>, key: Seq<char>) -> bool {
    exists|i: int| 0 <= i < entries.len() && (#[trigger] entries[i]).0 == key
}

/// Whether the entry at `i` is the first one with the key.
pub open spec fn first_with_key(
    entries: Seq<(Seq<char>, SpecBson)>,
    key: Seq<char>,
    i: int,
) -> bool {
    &&& 0 <= i < entries.len()
    &&& entries[i].0 == key
    &&& forall|j: int| 0 <= j < i ==> (#[trigger] entries[j]).0 != key
}

/// No key occurs twice.
pub open spec fn unique_keys(entries: Seq<(Seq<char>, SpecBson)>) -> bool {
    forall|i: int, j: int|
        0 <= i < j < entries.len() ==> (#[trigger] entries[i]).0 != (#[trigger] entries[j]).0
}

/// The entries after `key` is set to `value`: where the key is present, the
/// first entry with it takes the value and keeps its place; else a new entry
/// comes last.
pub open spec fn spec_insert(
    entries: Seq<(Seq<char>, SpecBson)>,
    key: Seq<char>,
    value: SpecBson,
) -> Seq<(Seq<char>, SpecBson)> {
    if contains_key(entries, key) {
        entries.update(choose|i: int| first_with_key(entries, key, i), (key, value))
    } else {
        entries.push((key, value))
    }
}

/// Every document within the value, at any depth, has unique keys.
pub open spec fn well_formed(value: SpecBson) -> bool
    decreases value,
{
    match value {
        SpecBson::Array(items) => forall|i: int|
            0 <= i < items.len() ==> well_formed(#[trigger] items[i]),
        SpecBson::Document(entries) => unique_keys(entries) && forall|i: int|
            0 <= i < entries.len() ==> well_formed((#[trigger] entries[i]).1),
        _ => true,
    }
}

/// Setting a key keeps the keys unique.
pub proof fn lemma_insert_unique(
    entries: Seq<(Seq<char>, SpecBson)>,
    key: Seq<char>,
    value: SpecBson,
)
    requires
        unique_keys(entries),
    ensures
        unique_keys(spec_insert(entries, key, value)),
        contains_key(spec_insert(entries, key, value), key),
        forall|other: Seq<char>|
            other != key ==> (contains_key(spec_insert(entries, key, value), other)
                <==> contains_key(entries, other)),
{
    let after = spec_insert(entries, key, value);
    if contains_key(entries, key) {
        let w = choose|i: int| 0 <= i < entries.len() && (#[trigger] entries[i]).0 == key;
        lemma_first_exists(entries, key, w);
        let at = choose|i: int| first_with_key(entries, key, i);
        assert(after[at].0 == key);
        assert forall|other: Seq<char>| other != key implies (contains_key(after, other)
            <==> contains_key(entries, other)) by {
            if contains_key(after, other) {
                let k = choose|i: int| 0 <= i < after.len() && (#[trigger] after[i]).0 == other;
                assert(entries[k].0 == other);
            }
            if contains_key(entries, other) {
                let k = choose|i: int|
                    0 <= i < entries.len() && (#[trigger] entries[i]).0 == other;
                assert(after[k].0 == other);
            }
        }
        assert forall|i: int, j: int| 0 <= i < j < after.len() implies (#[trigger] after[i]).0 != (
        #[trigger] after[j]).0 by {
            assert(after[i].0 == entries[i].0);
            assert(after[j].0 == entries[j].0);
        }
    } else {
        assert(after[entries.len() as int].0 == key);
        assert forall|other: Seq<char>| other != key implies (contains_key(after, other)
            <==> contains_key(entries, other)) by {
            if contains_key(after, other) {
                let k = choose|i: int| 0 <= i < after.len() && (#[trigger] after[i]).0 == other;
                assert(entries[k].0 == other);
            }
            if contains_key(entries, other) {
                let k = choose|i: int|
                    0 <= i < entries.len() && (#[trigger] entries[i]).0 == other;
                assert(after[k].0 == other);
            }
        }
        assert forall|i: int, j: int| 0 <= i < j < after.len() implies (#[trigger] after[i]).0 != (
        #[trigger] after[j]).0 by {
            if j < entries.len() {
                assert(after[i].0 == entries[i].0);
                assert(after[j].0 == entries[j].0);
            } else {
                assert(after[i] == entries[i]);
            }
        }
    }
}

/// Where some entry has the key, one of them is the first.
pub proof fn lemma_first_exists(entries: Seq<(Seq<char>, SpecBson)>, key: Seq<char>, at: int)
    requires
        0 <= at < entries.len(),
        entries[at].0 == key,
    ensures
        exists|i: int| first_with_key(entries, key, i),
    decreases at,
{
    if exists|j: int| 0 <= j < at && (#[trigger] entries[j]).0 == key {
        let j = choose|j: int| 0 <= j < at && (#[trigger] entries[j]).0 == key;
        lemma_first_exists(entries, key, j);
    } else {
        assert(first_with_key(entries, key, at));
    }
}

impl OrderedDocument {
    /// Whether no key occurs twice, here and in every document within the
    /// values.
    pub open spec fn well_formed(&self) -> bool {
        well_formed(SpecBson::Document(self@))
    }

    /// A document without entries.
    pub fn new() -> (doc: OrderedDocument)
        ensures
            doc@ == Seq::<(Seq<char>, SpecBson)>::empty(),
            doc.well_formed(),
    {
        let doc = OrderedDocument { entries: Vec::new() };
        assert(doc@ =~= Seq::empty());
        doc
    }

    /// The number of entries.
    pub fn len(&self) -> (n: usize)
        ensures
            n == self@.len(),
    {
        self.entries.len()
    }

    /// The key of the entry at `index`.
    pub fn key_at(&self, index: usize) -> (key: &str)
        requires
            index < self@.len(),
        ensures
            key@ == self@[index as int].0,
    {
        self.entries[index].0.as_str()
    }

    /// The value of the entry at `index`.
    pub fn value_at(&self, index: usize) -> (value: &Bson)
        requires
            index < self@.len(),
        ensures
            value@ == self@[index as int].1,
    {
        &self.entries[index].1
    }

    /// The value that the document holds for `key`, `None` where no entry has
    /// that key.
    pub fn get(&self, key: &str) -> (value: Option<&Bson>)
        ensures
            match value {
                Some(found) => exists|i: int|
                    first_with_key(self@, key@, i) && found@ == self@[i].1,
                None => !contains_key(self@, key@),
            },
    {
        let mut i: usize = 0;
        while i < self.entries.len()
            invariant
                i <= self@.len(),
                forall|j: int| 0 <= j < i ==> (#[trigger] self@[j]).0 != key@,
            decreases self@.len() - i,
        {
            if str_eq(self.entries[i].0.as_str(), key) {
                assert(first_with_key(self@, key@, i as int));
                return Some(&self.entries[i].1);
            }
            i = i + 1;
        }
        None
    }

    /// Sets `key` to `value`. A key that is present keeps its place and takes
    /// the new value; a new key comes last.
    pub fn insert_bson(&mut self, key: String, value: Bson)
        ensures
            final(self)@ == spec_insert(old(self)@, key@, value@),
            old(self).well_formed() && well_formed(value@) ==> final(self).well_formed(),
    {
        let ghost before = self@;
        proof {
            if self.well_formed() && well_formed(value@) {
                lemma_insert_well_formed(before, key@, value@);
            }
        }
        let mut i: usize = 0;
        while i < self.entries.len()
            invariant
                i <= self@.len(),
                self@ == before,
                before == old(self)@,
                forall|j: int| 0 <= j < i ==> (#[trigger] before[j]).0 != key@,
            decreases self@.len() - i,
        {
            if str_eq(self.entries[i].0.as_str(), key.as_str()) {
                proof {
                    assert(first_with_key(before, key@, i as int));
                    assert(contains_key(before, key@));
                    let at = choose|k: int| first_with_key(before, key@, k);
                    assert(at == i) by {
                        if at < i {
                            assert(before[at].0 != key@);
                        }
                        if i < at {
                            assert(before[i as int].0 == key@);
                        }
                    }
                }
                let ghost key_view = key@;
                let ghost value_view = value@;
                self.entries.set(i, (key, value));
                assert(self@ =~= before.update(i as int, (key_view, value_view)));
                return ;
            }
            i = i + 1;
        }
        let ghost key_view = key@;
        let ghost value_view = value@;
        self.entries.push((key, value));
        assert(self@ =~= before.push((key_view, value_view)));
    }
}

/// The tag that stands for a subtype in a text value.
pub open spec fn spec_subtype_hex(subtype: BinarySubtype) -> Seq<char> {
    match subtype {
        BinarySubtype::Generic => "\\x00"@,
        BinarySubtype::Function => "\\x01"@,
        BinarySubtype::BinaryOld => "\\x02"@,
        BinarySubtype::UuidOld => "\\x03"@,
        BinarySubtype::Uuid => "\\x04"@,
        BinarySubtype::Md5 => "\\x05"@,
        BinarySubtype::UserDefined(_) => "\\x80"@,
    }
}

/// The subtype that a tag stands for, `None` for what is no tag. The tag of
/// `UserDefined` gives discriminator 0.
pub open spec fn spec_hex_subtype(hex: Seq<char>) -> Option<BinarySubtype> {
    if hex == "\\x00"@ {
        Some(BinarySubtype::Generic)
    } else if hex == "\\x01"@ {
        Some(BinarySubtype::Function)
    } else if hex == "\\x02"@ {
        Some(BinarySubtype::BinaryOld)
    } else if hex == "\\x03"@ {
        Some(BinarySubtype::UuidOld)
    } else if hex == "\\x04"@ {
        Some(BinarySubtype::Uuid)
    } else if hex == "\\x05"@ {
        Some(BinarySubtype::Md5)
    } else if hex == "\\x80"@ {
        Some(BinarySubtype::UserDefined(0))
    } else {
        None
    }
}

/// The tag that stands for `subtype` in a text value.
pub fn binary_subtype_to_hex(subtype: BinarySubtype) -> (hex: &'static str)
    ensures
        hex@ == spec_subtype_hex(subtype),
{
    match subtype {
        BinarySubtype::Generic => "\\x00",
        BinarySubtype::Function => "\\x01",
        BinarySubtype::BinaryOld => "\\x02",
        BinarySubtype::UuidOld => "\\x03",
        BinarySubtype::Uuid => "\\x04",
        BinarySubtype::Md5 => "\\x05",
        BinarySubtype::UserDefined(_) => "\\x80",
    }
}

/// The subtype that the tag `hex` stands for, `None` where it is no tag.
pub fn hex_to_binary_subtype(hex: &str) -> (subtype: Option<BinarySubtype>)
    ensures
        subtype == spec_hex_subtype(hex@),
{
    if str_eq(hex, "\\x00") {
        Some(BinarySubtype::Generic)
    } else if str_eq(hex, "\\x01") {
        Some(BinarySubtype::Function)
    } else if str_eq(hex, "\\x02") {
        Some(BinarySubtype::BinaryOld)
    } else if str_eq(hex, "\\x03") {
        Some(BinarySubtype::UuidOld)
    } else if str_eq(hex, "\\x04") {
        Some(BinarySubtype::Uuid)
    } else if str_eq(hex, "\\x05") {
        Some(BinarySubtype::Md5)
    } else if str_eq(hex, "\\x80") {
        Some(BinarySubtype::UserDefined(0))
    } else {
        None
    }
}

/// The seven tags differ from each other.
proof fn lemma_tags_differ()
    ensures
        "\\x00"@[3] == '0' && "\\x00"@[2] == '0',
        "\\x01"@[3] == '1' && "\\x01"@[2] == '0',
        "\\x02"@[3] == '2' && "\\x02"@[2] == '0',
        "\\x03"@[3] == '3' && "\\x03"@[2] == '0',
        "\\x04"@[3] == '4' && "\\x04"@[2] == '0',
        "\\x05"@[3] == '5' && "\\x05"@[2] == '0',
        "\\x80"@[3] == '0' && "\\x80"@[2] == '8',
{
    reveal_strlit("\\x00");
    reveal_strlit("\\x01");
    reveal_strlit("\\x02");
    reveal_strlit("\\x03");
    reveal_strlit("\\x04");
    reveal_strlit("\\x05");
    reveal_strlit("\\x80");
}

/// Each subtype other than `UserDefined` is the subtype that its own tag
/// stands for.
pub proof fn lemma_named_subtype_round_trip(subtype: BinarySubtype)
    requires
        !(subtype is UserDefined),
    ensures
        spec_hex_subtype(spec_subtype_hex(subtype)) == Some(subtype),
{
    lemma_tags_differ();
}

/// The tag of `UserDefined` stands for `UserDefined` with discriminator 0,
/// whatever the discriminator was.
pub proof fn lemma_user_defined_collapses(discriminator: u8)
    ensures
        spec_hex_subtype(spec_subtype_hex(BinarySubtype::UserDefined(discriminator))) == Some(
            BinarySubtype::UserDefined(0),
        ),
{
    lemma_tags_differ();
}

/// The key under which a binary value holds its payload in a text value.
pub open spec fn binary_key() -> Seq<char> {
    "$binary"@
}

/// The key under which a binary value holds its subtype tag in a text value.
pub open spec fn type_key() -> Seq<char> {
    "$type"@
}

/// The text value of a document value. A binary value becomes an object of
/// two fields: the tag of its subtype, then its payload as base64 text.
pub open spec fn spec_bson_to_jv(value: SpecBson) -> SpecJv
    decreases value,
{
    match value {
        SpecBson::FloatingPoint(bits) => SpecJv::Number(bits),
        SpecBson::String(s) => SpecJv::String(s),
        SpecBson::Array(items) => SpecJv::Array(
            Seq::new(
                items.len(),
                |i: int|
                    if 0 <= i < items.len() {
                        spec_bson_to_jv(items[i])
                    } else {
                        SpecJv::Invalid
                    },
            ),
        ),
        SpecBson::Document(entries) => SpecJv::Object(
            Seq::new(
                entries.len(),
                |i: int|
                    if 0 <= i < entries.len() {
                        (entries[i].0, spec_bson_to_jv(entries[i].1))
                    } else {
                        (Seq::empty(), SpecJv::Invalid)
                    },
            ),
        ),
        SpecBson::Boolean(b) => SpecJv::Bool(b),
        SpecBson::Null => SpecJv::Null,
        SpecBson::I32(i) => SpecJv::Number(binary64::spec_from_int(i as int)),
        SpecBson::I64(i) => SpecJv::Number(binary64::spec_from_int(i as int)),
        SpecBson::Binary(subtype, bytes) => spec_binary_to_jv(subtype, base64_text(bytes)),
    }
}

/// The object that stands for a binary value of a subtype whose payload has
/// the base64 text `text`: the tag of the subtype, then the text.
pub open spec fn spec_binary_to_jv(subtype: BinarySubtype, text: Seq<char>) -> SpecJv {
    SpecJv::Object(
        seq![
            (type_key(), SpecJv::String(spec_subtype_hex(subtype))),
            (binary_key(), SpecJv::String(text)),
        ],
    )
}

/// The text values of the items of an array.
pub open spec fn spec_items_to_jv(items: Seq<SpecBson>) -> Seq<SpecJv> {
    Seq::new(items.len(), |i: int| spec_bson_to_jv(items[i]))
}

/// The fields of the text value of a document.
pub open spec fn spec_entries_to_jv(entries: Seq<(Seq<char>, SpecBson)>) -> Seq<
    (Seq<char>, SpecJv),
> {
    Seq::new(entries.len(), |i: int| (entries[i].0, spec_bson_to_jv(entries[i].1)))
}

/// The text value of an array holds the text values of its items.
pub proof fn lemma_array_to_jv(items: Seq<SpecBson>)
    ensures
        spec_bson_to_jv(SpecBson::Array(items)) == SpecJv::Array(spec_items_to_jv(items)),
{
    reveal_with_fuel(spec_bson_to_jv, 2);
    assert(spec_bson_to_jv(SpecBson::Array(items))->Array_0 =~= spec_items_to_jv(items));
}

/// The text value of a document holds its keys in order, each with the text
/// value of its value.
pub proof fn lemma_document_to_jv(entries: Seq<(Seq<char>, SpecBson)>)
    ensures
        spec_bson_to_jv(SpecBson::Document(entries)) == SpecJv::Object(
            spec_entries_to_jv(entries),
        ),
{
    reveal_with_fuel(spec_bson_to_jv, 2);
    assert(spec_bson_to_jv(SpecBson::Document(entries))->Object_0 =~= spec_entries_to_jv(
        entries,
    ));
}

/// The document value that a number of a text value stands for: an integer in
/// the range of `i32` gives `I32`; any other integer, and an infinity, gives
/// `I64`, brought into the range of `i64`; all else stays a floating-point
/// number.
pub open spec fn spec_number_to_bson(bits: u64) -> SpecBson {
    if binary64::spec_is_integral(bits) && i32::MIN <= binary64::truncated(bits) <= i32::MAX {
        SpecBson::I32(binary64::truncated(bits) as i32)
    } else if binary64::spec_is_integral(bits) || binary64::spec_is_infinite(bits) {
        SpecBson::I64(binary64::spec_to_i64(bits) as i64)
    } else {
        SpecBson::FloatingPoint(bits)
    }
}

/// The binary value that an object with a payload field stands for. The tag
/// is optional, and an unknown tag counts as `Generic`.
pub open spec fn spec_binary_to_bson(tag: Option<SpecJv>, payload: SpecJv) -> Result<
    SpecBson,
    DecodeError,
> {
    match (tag, payload) {
        (None, SpecJv::String(text)) => spec_payload_to_bson(BinarySubtype::Generic, text),
        (Some(SpecJv::String(hex)), SpecJv::String(text)) => spec_payload_to_bson(
            match spec_hex_subtype(hex) {
                Some(subtype) => subtype,
                None => BinarySubtype::Generic,
            },
            text,
        ),
        _ => Err(DecodeError::MalformedPayload),
    }
}

/// The binary value of a subtype and a payload given as base64 text.
pub open spec fn spec_payload_to_bson(subtype: BinarySubtype, text: Seq<char>) -> Result<
    SpecBson,
    DecodeError,
> {
    spec_decoded_to_bson(subtype, base64_bytes(text))
}

/// The binary value of a subtype and of what its payload's text decoded to:
/// an error where the text was not base64.
pub open spec fn spec_decoded_to_bson(subtype: BinarySubtype, decoded: Option<Seq<u8>>) -> Result<
    SpecBson,
    DecodeError,
> {
    match decoded {
        Some(bytes) => Ok(SpecBson::Binary(subtype, bytes)),
        None => Err(DecodeError::InvalidBase64),
    }
}

/// The document value of a text value, or the first error met in reading
/// order. An object with a payload field stands for a binary value; any other
/// object stands for a document.
pub open spec fn spec_jv_to_bson(json: SpecJv) -> Result<SpecBson, DecodeError>
    decreases json,
{
    match json {
        SpecJv::Invalid => Err(DecodeError::MalformedPayload),
        SpecJv::Null => Ok(SpecBson::Null),
        SpecJv::Bool(b) => Ok(SpecBson::Boolean(b)),
        SpecJv::Number(bits) => Ok(spec_number_to_bson(bits)),
        SpecJv::String(s) => Ok(SpecBson::String(s)),
        SpecJv::Array(items) => match spec_items_to_bson(items) {
            Ok(values) => Ok(SpecBson::Array(values)),
            Err(error) => Err(error),
        },
        SpecJv::Object(fields) => match spec_object_get(fields, binary_key()) {
            Some(payload) => spec_binary_to_bson(spec_object_get(fields, type_key()), payload),
            None => match spec_fields_to_document(fields) {
                Ok(entries) => Ok(SpecBson::Document(entries)),
                Err(error) => Err(error),
            },
        },
    }
}

/// The document values of the items of an array, or the first error.
pub open spec fn spec_items_to_bson(items: Seq<SpecJv>) -> Result<Seq<SpecBson>, DecodeError>
    decreases items,
{
    if items.len() == 0 {
        Ok(Seq::empty())
    } else {
        match spec_items_to_bson(items.drop_last()) {
            Err(error) => Err(error),
            Ok(values) => match spec_jv_to_bson(items.last()) {
                Err(error) => Err(error),
                Ok(value) => Ok(values.push(value)),
            },
        }
    }
}

/// The entries that the fields of an object give when each is set in turn, or
/// the first error.
pub open spec fn spec_fields_to_document(fields: Seq<(Seq<char>, SpecJv)>) -> Result<
    Seq<(Seq<char>, SpecBson)>,
    DecodeError,
>
    decreases fields,
{
    if fields.len() == 0 {
        Ok(Seq::empty())
    } else {
        match spec_fields_to_document(fields.drop_last()) {
            Err(error) => Err(error),
            Ok(entries) => match spec_jv_to_bson(fields.last().1) {
                Err(error) => Err(error),
                Ok(value) => Ok(spec_insert(entries, fields.last().0, value)),
            },
        }
    }
}

/// An error among the first items is the error of all items.
proof fn lemma_items_error(items: Seq<SpecJv>, k: int)
    requires
        0 <= k <= items.len(),
        spec_items_to_bson(items.take(k)) is Err,
    ensures
        spec_items_to_bson(items) == spec_items_to_bson(items.take(k)),
    decreases items.len() - k,
{
    if k == items.len() {
        assert(items.take(k) =~= items);
    } else {
        assert(items.take(k + 1).drop_last() =~= items.take(k));
        lemma_items_error(items, k + 1);
    }
}

/// An error among the first fields is the error of all fields.
proof fn lemma_fields_error(fields: Seq<(Seq<char>, SpecJv)>, k: int)
    requires
        0 <= k <= fields.len(),
        spec_fields_to_document(fields.take(k)) is Err,
    ensures
        spec_fields_to_document(fields) == spec_fields_to_document(fields.take(k)),
    decreases fields.len() - k,
{
    if k == fields.len() {
        assert(fields.take(k) =~= fields);
    } else {
        assert(fields.take(k + 1).drop_last() =~= fields.take(k));
        lemma_fields_error(fields, k + 1);
    }
}

/// Whether the base64 text of each binary payload within the value decodes to
/// that payload.
pub open spec fn payloads_reversible(value: SpecBson) -> bool
    decreases value,
{
    match value {
        SpecBson::Binary(_, bytes) => base64_bytes(base64_text(bytes)) == Some(bytes),
        SpecBson::Array(items) => forall|i: int|
            0 <= i < items.len() ==> payloads_reversible(#[trigger] items[i]),
        SpecBson::Document(entries) => forall|i: int|
            0 <= i < entries.len() ==> payloads_reversible((#[trigger] entries[i]).1),
        _ => true,
    }
}

/// The document value that the number `bits` of a text value stands for.
pub fn number_to_bson(bits: u64) -> (value: Bson)
    ensures
        value@ == spec_number_to_bson(bits),
{
    if binary64::is_integral(bits) {
        let truncated = binary64::to_i64(bits);
        proof {
            binary64::lemma_to_i64_saturates(bits);
        }
        if -0x8000_0000 <= truncated && truncated <= 0x7fff_ffff {
            Bson::I32(truncated as i32)
        } else {
            Bson::I64(truncated)
        }
    } else if binary64::is_infinite(bits) {
        Bson::I64(binary64::to_i64(bits))
    } else {
        Bson::FloatingPoint(bits)
    }
}

/// The binary value that an object with the payload field `payload` and the
/// tag field `tag` stands for.
fn binary_to_bson(tag: Option<&Jv>, payload: &Jv) -> (decoded: Result<Bson, DecodeError>)
    ensures
        match decoded {
            Ok(value) => spec_binary_to_bson(
                match tag {
                    Some(t) => Some(t@),
                    None => None,
                },
                payload@,
            ) == Ok::<SpecBson, DecodeError>(value@) && well_formed(value@),
            Err(error) => spec_binary_to_bson(
                match tag {
                    Some(t) => Some(t@),
                    None => None,
                },
                payload@,
            ) == Err::<SpecBson, DecodeError>(error),
        },
{
    let subtype = match tag {
        None => BinarySubtype::Generic,
        Some(Jv::String(hex)) => match hex_to_binary_subtype(hex.as_str()) {
            Some(subtype) => subtype,
            None => BinarySubtype::Generic,
        },
        Some(_) => {
            return Err(DecodeError::MalformedPayload);
        },
    };
    match payload {
        Jv::String(text) => payload_to_bson(subtype, crate::b64::decode(text.as_str())),
        _ => Err(DecodeError::MalformedPayload),
    }
}

/// The binary value of `subtype` whose payload is `decoded`, what the
/// payload's text decoded to. Where the text was not base64 there is no
/// payload, and the value fails.
pub fn payload_to_bson(subtype: BinarySubtype, decoded: Option<Vec<u8>>) -> (value: Result<
    Bson,
    DecodeError,
>)
    ensures
        match value {
            Ok(binary) => decoded matches Some(bytes) && binary@ == SpecBson::Binary(
                subtype,
                bytes@,
            ),
            Err(error) => decoded is None && error == DecodeError::InvalidBase64,
        },
{
    match decoded {
        Some(bytes) => Ok(Bson::Binary(subtype, bytes)),
        None => Err(DecodeError::InvalidBase64),
    }
}

/// The object that stands for a binary value of `subtype` whose payload has
/// the base64 text `text`: the tag of the subtype under `$type`, then the
/// text under `$binary`.
pub fn binary_to_jv(subtype: BinarySubtype, text: String) -> (json: Jv)
    ensures
        json@ == spec_binary_to_jv(subtype, text@),
{
    let ghost text_view = text@;
    let mut fields: Vec<(String, Jv)> = Vec::new();
    fields.push(("$type".to_owned(), Jv::String(binary_subtype_to_hex(subtype).to_owned())));
    fields.push(("$binary".to_owned(), Jv::String(text)));
    proof {
        lemma_object_view(&fields);
        assert(fields_view(&fields) =~= seq![
            (type_key(), SpecJv::String(spec_subtype_hex(subtype))),
            (binary_key(), SpecJv::String(text_view)),
        ]);
    }
    Jv::Object(fields)
}

/// Decodes a text value into a document value. A number becomes `I32`, `I64`
/// or a floating-point number by what it holds; an object with a `$binary`
/// field becomes a binary value; any other object becomes a document whose
/// keys stand in the order of their first field. The first invalid value,
/// malformed binary value or payload that is not base64 text fails the whole
/// value.
pub fn jv_to_bson(json: &Jv) -> (decoded: Result<Bson, DecodeError>)
    ensures
        match decoded {
            Ok(value) => spec_jv_to_bson(json@) == Ok::<SpecBson, DecodeError>(value@)
                && well_formed(value@),
            Err(error) => spec_jv_to_bson(json@) == Err::<SpecBson, DecodeError>(error),
        },
    decreases json,
{
    match json {
        Jv::Invalid => Err(DecodeError::MalformedPayload),
        Jv::Null => Ok(Bson::Null),
        Jv::Bool(b) => Ok(Bson::Boolean(*b)),
        Jv::Number(bits) => Ok(number_to_bson(*bits)),
        Jv::String(s) => Ok(Bson::String(s.clone())),
        Jv::Array(items) => {
            let ghost all = items_view(items);
            proof {
                lemma_array_view(items);
                assert(all.take(0) =~= Seq::empty());
            }
            let mut values: Vec<Bson> = Vec::new();
            let mut i: usize = 0;
            assert(array_view(&values) =~= Seq::empty());
            while i < items.len()
                invariant
                    i <= items.len(),
                    *json == Jv::Array(*items),
                    json@ == SpecJv::Array(all),
                    all == items_view(items),
                    spec_items_to_bson(all.take(i as int)) == Ok::<Seq<SpecBson>, DecodeError>(
                        array_view(&values),
                    ),
                    forall|k: int| 0 <= k < values.len() ==> well_formed(#[trigger] values[k]@),
                decreases items.len() - i,
            {
                let item = jv_to_bson(&items[i]);
                proof {
                    assert(all.take(i + 1).drop_last() =~= all.take(i as int));
                    assert(all.take(i + 1).last() == items[i as int]@);
                }
                match item {
                    Err(error) => {
                        proof {
                            lemma_items_error(all, i + 1);
                        }
                        return Err(error);
                    },
                    Ok(value) => {
                        let ghost before = array_view(&values);
                        let ghost value_view = value@;
                        values.push(value);
                        assert(array_view(&values) =~= before.push(value_view));
                    },
                }
                i = i + 1;
            }
            proof {
                assert(all.take(i as int) =~= all);
                lemma_bson_array_view(&values);
            }
            Ok(Bson::Array(values))
        },
        Jv::Object(fields) => {
            let ghost all = fields_view(fields);
            proof {
                lemma_object_view(fields);
                assert(all.take(0) =~= Seq::empty());
            }
            match object_get(fields, "$binary") {
                Some(payload) => binary_to_bson(object_get(fields, "$type"), payload),
                None => {
                    let mut doc = OrderedDocument::new();
                    let mut i: usize = 0;
                    while i < fields.len()
                        invariant
                            i <= fields.len(),
                            *json == Jv::Object(*fields),
                            json@ == SpecJv::Object(all),
                            spec_object_get(all, binary_key()) is None,
                            all == fields_view(fields),
                            spec_fields_to_document(all.take(i as int)) == Ok::<
                                Seq<(Seq<char>, SpecBson)>,
                                DecodeError,
                            >(doc@),
                            doc.well_formed(),
                        decreases fields.len() - i,
                    {
                        let item = jv_to_bson(&fields[i].1);
                        proof {
                            assert(all.take(i + 1).drop_last() =~= all.take(i as int));
                            assert(all.take(i + 1).last() == all[i as int]);
                        }
                        match item {
                            Err(error) => {
                                proof {
                                    lemma_fields_error(all, i + 1);
                                }
                                return Err(error);
                            },
                            Ok(value) => {
                                proof {
                                    lemma_insert_well_formed(doc@, fields[i as int].0@, value@);
                                }
                                doc.insert_bson(fields[i].0.clone(), value);
                            },
                        }
                        i = i + 1;
                    }
                    proof {
                        assert(all.take(i as int) =~= all);
                        lemma_bson_document_view(&doc);
                    }
                    Ok(Bson::Document(doc))
                },
            }
        },
    }
}

/// Setting a key to a well-formed value keeps a document well formed.
pub proof fn lemma_insert_well_formed(
    entries: Seq<(Seq<char>, SpecBson)>,
    key: Seq<char>,
    value: SpecBson,
)
    requires
        well_formed(SpecBson::Document(entries)),
        well_formed(value),
    ensures
        well_formed(SpecBson::Document(spec_insert(entries, key, value))),
{
    lemma_insert_unique(entries, key, value);
    let after = spec_insert(entries, key, value);
    if contains_key(entries, key) {
        let w = choose|i: int| 0 <= i < entries.len() && (#[trigger] entries[i]).0 == key;
        lemma_first_exists(entries, key, w);
    }
    assert forall|i: int| 0 <= i < after.len() implies well_formed((#[trigger] after[i]).1) by {
        if i < entries.len() && after[i] == entries[i] {
            assert(well_formed(entries[i].1));
        }
    }
}

/// Encodes a document value as a text value. An integer becomes the number
/// nearest to it, an array and a document keep their order, and a binary
/// value becomes an object that holds the tag of its subtype under `$type`
/// and its payload as base64 text under `$binary`.
///
/// Decoding the result gives the value back where `round_trips` admits it,
/// and gives a value with the same text value where `reencodes` admits it.
pub fn bson_to_jv(bson: &Bson) -> (json: Jv)
    ensures
        json@ == spec_bson_to_jv(bson@),
        payloads_reversible(bson@),
        round_trips(bson@) ==> spec_jv_to_bson(json@) == Ok::<SpecBson, DecodeError>(bson@),
        reencodes(bson@) ==> (spec_jv_to_bson(json@) matches Ok(decoded) && spec_bson_to_jv(decoded)
            == json@),
    decreases bson,
{
    let json = match bson {
        Bson::Document(doc) => {
            proof {
                lemma_bson_document_view(doc);
            }
            ordered_doc_to_jv(doc)
        },
        Bson::FloatingPoint(bits) => Jv::Number(*bits),
        Bson::String(s) => Jv::String(s.clone()),
        Bson::Array(items) => {
            let ghost all = array_view(items);
            proof {
                lemma_bson_array_view(items);
                lemma_array_to_jv(all);
            }
            let mut array: Vec<Jv> = Vec::new();
            let mut i: usize = 0;
            while i < items.len()
                invariant
                    i <= items.len(),
                    *bson == Bson::Array(*items),
                    all == array_view(items),
                    array.len() == i,
                    forall|k: int|
                        0 <= k < i ==> (#[trigger] array[k])@ == spec_bson_to_jv(all[k]),
                    forall|k: int| 0 <= k < i ==> payloads_reversible(#[trigger] all[k]),
                decreases items.len() - i,
            {
                proof {
                    assert(decreases_to!(*bson => bson->Array_0));
                }
                let item = bson_to_jv(&items[i]);
                array.push(item);
                i = i + 1;
            }
            proof {
                lemma_array_view(&array);
                assert(items_view(&array) =~= spec_items_to_jv(all));
            }
            Jv::Array(array)
        },
        Bson::Boolean(b) => Jv::Bool(*b),
        Bson::Null => Jv::Null,
        Bson::I32(i) => Jv::Number(binary64::from_i32(*i)),
        Bson::I64(i) => Jv::Number(binary64::from_i64(*i)),
        Bson::Binary(subtype, bytes) => binary_to_jv(*subtype, crate::b64::encode(bytes)),
    };
    proof {
        if round_trips(bson@) {
            lemma_round_trip(bson@);
        }
        if reencodes(bson@) {
            lemma_reencode_idempotent(bson@);
        }
    }
    json
}

/// Encodes a document as an object that holds its keys in order, each with
/// the text value of its value.
pub fn ordered_doc_to_jv(doc: &OrderedDocument) -> (json: Jv)
    ensures
        json@ == spec_bson_to_jv(SpecBson::Document(doc@)),
        payloads_reversible(SpecBson::Document(doc@)),
    decreases doc,
{
    let ghost all = doc@;
    proof {
        lemma_document_to_jv(all);
    }
    let mut fields: Vec<(String, Jv)> = Vec::new();
    let mut i: usize = 0;
    while i < doc.entries.len()
        invariant
            i <= doc.entries.len(),
            all == doc@,
            fields.len() == i,
            forall|k: int|
                0 <= k < i ==> (#[trigger] fields[k]).0@ == all[k].0 && fields[k].1@
                    == spec_bson_to_jv(all[k].1),
            forall|k: int| 0 <= k < i ==> payloads_reversible((#[trigger] all[k]).1),
        decreases doc.entries.len() - i,
    {
        let value = bson_to_jv(&doc.entries[i].1);
        fields.push((doc.entries[i].0.clone(), value));
        i = i + 1;
    }
    proof {
        lemma_object_view(&fields);
        assert(fields_view(&fields) =~= spec_entries_to_jv(all));
    }
    Jv::Object(fields)
}

/// The value that comes back when a value goes to text and back: a number is
/// the one that its text number stands for, and a `UserDefined` subtype has
/// discriminator 0.
pub open spec fn spec_normalized(value: SpecBson) -> SpecBson
    decreases value,
{
    match value {
        SpecBson::FloatingPoint(bits) => spec_number_to_bson(bits),
        SpecBson::I32(i) => spec_number_to_bson(binary64::spec_from_int(i as int)),
        SpecBson::I64(i) => spec_number_to_bson(binary64::spec_from_int(i as int)),
        SpecBson::Binary(subtype, bytes) => SpecBson::Binary(
            match subtype {
                BinarySubtype::UserDefined(_) => BinarySubtype::UserDefined(0),
                named => named,
            },
            bytes,
        ),
        SpecBson::Array(items) => SpecBson::Array(
            Seq::new(
                items.len(),
                |i: int|
                    if 0 <= i < items.len() {
                        spec_normalized(items[i])
                    } else {
                        SpecBson::Null
                    },
            ),
        ),
        SpecBson::Document(entries) => SpecBson::Document(
            Seq::new(
                entries.len(),
                |i: int|
                    if 0 <= i < entries.len() {
                        (entries[i].0, spec_normalized(entries[i].1))
                    } else {
                        (Seq::empty(), SpecBson::Null)
                    },
            ),
        ),
        other => other,
    }
}

/// The items of an array, each as it comes back from text.
pub open spec fn spec_items_normalized(items: Seq<SpecBson>) -> Seq<SpecBson> {
    Seq::new(items.len(), |i: int| spec_normalized(items[i]))
}

/// The entries of a document, each value as it comes back from text.
pub open spec fn spec_entries_normalized(entries: Seq<(Seq<char>, SpecBson)>) -> Seq<
    (Seq<char>, SpecBson),
> {
    Seq::new(entries.len(), |i: int| (entries[i].0, spec_normalized(entries[i].1)))
}

proof fn lemma_normalized_array(items: Seq<SpecBson>)
    ensures
        spec_normalized(SpecBson::Array(items)) == SpecBson::Array(spec_items_normalized(items)),
{
    reveal_with_fuel(spec_normalized, 2);
    assert(spec_normalized(SpecBson::Array(items))->Array_0 =~= spec_items_normalized(items));
}

proof fn lemma_normalized_document(entries: Seq<(Seq<char>, SpecBson)>)
    ensures
        spec_normalized(SpecBson::Document(entries)) == SpecBson::Document(
            spec_entries_normalized(entries),
        ),
{
    reveal_with_fuel(spec_normalized, 2);
    assert(spec_normalized(SpecBson::Document(entries))->Document_0 =~= spec_entries_normalized(
        entries,
    ));
}

/// Whether a text value can tell the value's documents from binary values:
/// every document within has unique keys, none of them `$binary`.
pub open spec fn text_safe(value: SpecBson) -> bool
    decreases value,
{
    match value {
        SpecBson::Array(items) => forall|i: int|
            0 <= i < items.len() ==> text_safe(#[trigger] items[i]),
        SpecBson::Document(entries) => unique_keys(entries) && !contains_key(
            entries,
            binary_key(),
        ) && forall|i: int| 0 <= i < entries.len() ==> text_safe((#[trigger] entries[i]).1),
        _ => true,
    }
}

/// Whether the value comes back from text as it went: it is safe as text; a
/// floating-point number is neither an integer nor an infinity; an `I64` lies
/// outside the range of `i32` and within `-2^53..=2^53`; and a `UserDefined`
/// subtype has discriminator 0.
pub open spec fn round_trips(value: SpecBson) -> bool
    decreases value,
{
    match value {
        SpecBson::FloatingPoint(bits) => !binary64::spec_is_integral(bits)
            && !binary64::spec_is_infinite(bits),
        SpecBson::I64(i) => !(i32::MIN <= i <= i32::MAX) && -(binary64::TWO_53 as int) <= i
            <= binary64::TWO_53,
        SpecBson::Binary(subtype, _) => subtype is UserDefined ==> subtype
            == BinarySubtype::UserDefined(0),
        SpecBson::Array(items) => forall|i: int|
            0 <= i < items.len() ==> round_trips(#[trigger] items[i]),
        SpecBson::Document(entries) => unique_keys(entries) && !contains_key(
            entries,
            binary_key(),
        ) && forall|i: int| 0 <= i < entries.len() ==> round_trips((#[trigger] entries[i]).1),
        _ => true,
    }
}

/// Whether the number that a text number decodes to encodes to that text
/// number again. It does unless the number is negative zero, an infinity, or
/// an integer beyond `-2^63..=2^63`.
pub open spec fn number_reencodes(bits: u64) -> bool {
    if binary64::spec_is_integral(bits) {
        bits != binary64::NEGATIVE_ZERO && -(binary64::TWO_63 as int) <= binary64::truncated(bits)
            <= binary64::TWO_63
    } else {
        !binary64::spec_is_infinite(bits)
    }
}

/// Whether the value, once it went to text and back, goes to the same text
/// again: it is safe as text, and each floating-point number within is one
/// that `number_reencodes` admits.
pub open spec fn reencodes(value: SpecBson) -> bool
    decreases value,
{
    match value {
        SpecBson::FloatingPoint(bits) => number_reencodes(bits),
        SpecBson::Array(items) => forall|i: int|
            0 <= i < items.len() ==> reencodes(#[trigger] items[i]),
        SpecBson::Document(entries) => unique_keys(entries) && !contains_key(
            entries,
            binary_key(),
        ) && forall|i: int| 0 <= i < entries.len() ==> reencodes((#[trigger] entries[i]).1),
        _ => true,
    }
}

/// No field with the key, no value for it.
proof fn lemma_object_get_absent(fields: Seq<(Seq<char>, SpecJv)>, key: Seq<char>)
    requires
        forall|i: int| 0 <= i < fields.len() ==> (#[trigger] fields[i]).0 != key,
    ensures
        spec_object_get(fields, key) is None,
    decreases fields.len(),
{
    if fields.len() > 0 {
        assert(fields.last() == fields[fields.len() - 1]);
        assert forall|i: int| 0 <= i < fields.drop_last().len() implies (
        #[trigger] fields.drop_last()[i]).0 != key by {
            assert(fields.drop_last()[i] == fields[i]);
        }
        lemma_object_get_absent(fields.drop_last(), key);
    }
}

/// The object that stands for a binary value decodes to that value.
proof fn lemma_binary_decode_encode(subtype: BinarySubtype, bytes: Seq<u8>)
    requires
        base64_bytes(base64_text(bytes)) == Some(bytes),
    ensures
        spec_jv_to_bson(spec_bson_to_jv(SpecBson::Binary(subtype, bytes))) == Ok::<
            SpecBson,
            DecodeError,
        >(spec_normalized(SpecBson::Binary(subtype, bytes))),
{
    let tag = (type_key(), SpecJv::String(spec_subtype_hex(subtype)));
    let payload = (binary_key(), SpecJv::String(base64_text(bytes)));
    let fields = seq![tag, payload];
    reveal_strlit("$binary");
    reveal_strlit("$type");
    assert(type_key().len() != binary_key().len());
    reveal_with_fuel(spec_object_get, 3);
    assert(fields.last() == payload);
    assert(fields.drop_last() =~= seq![tag]);
    assert(seq![tag].last() == tag);
    assert(spec_object_get(fields, binary_key()) == Some(payload.1));
    assert(spec_object_get(fields, type_key()) == Some(tag.1));
    match subtype {
        BinarySubtype::UserDefined(d) => lemma_user_defined_collapses(d),
        _ => lemma_named_subtype_round_trip(subtype),
    }
}

/// A value that is safe as text decodes, from the text value it encodes to,
/// to its normalized form. This rests on the base64 text of its payloads
/// decoding to them.
pub proof fn lemma_decode_encode(value: SpecBson)
    requires
        text_safe(value),
        payloads_reversible(value),
    ensures
        spec_jv_to_bson(spec_bson_to_jv(value)) == Ok::<SpecBson, DecodeError>(
            spec_normalized(value),
        ),
    decreases value, 0nat,
{
    match value {
        SpecBson::Array(items) => {
            lemma_array_to_jv(items);
            lemma_normalized_array(items);
            lemma_items_decode_encode(items, items.len() as int);
            assert(spec_items_to_jv(items).take(items.len() as int) =~= spec_items_to_jv(items));
            assert(spec_items_normalized(items).take(items.len() as int)
                =~= spec_items_normalized(items));
        },
        SpecBson::Document(entries) => {
            lemma_document_to_jv(entries);
            lemma_normalized_document(entries);
            let fields = spec_entries_to_jv(entries);
            assert forall|i: int| 0 <= i < fields.len() implies (#[trigger] fields[i]).0
                != binary_key() by {
                assert(entries[i].0 == fields[i].0);
            }
            lemma_object_get_absent(fields, binary_key());
            lemma_entries_decode_encode(entries, entries.len() as int);
            assert(fields.take(entries.len() as int) =~= fields);
            assert(spec_entries_normalized(entries).take(entries.len() as int)
                =~= spec_entries_normalized(entries));
        },
        SpecBson::Binary(subtype, bytes) => {
            lemma_binary_decode_encode(subtype, bytes);
        },
        _ => {},
    }
}

proof fn lemma_items_decode_encode(items: Seq<SpecBson>, k: int)
    requires
        0 <= k <= items.len(),
        forall|i: int| 0 <= i < items.len() ==> text_safe(#[trigger] items[i]),
        forall|i: int| 0 <= i < items.len() ==> payloads_reversible(#[trigger] items[i]),
    ensures
        spec_items_to_bson(spec_items_to_jv(items).take(k)) == Ok::<Seq<SpecBson>, DecodeError>(
            spec_items_normalized(items).take(k),
        ),
    decreases items, k,
{
    let texts = spec_items_to_jv(items);
    let values = spec_items_normalized(items);
    if k == 0 {
        assert(texts.take(0) =~= Seq::empty());
        assert(values.take(0) =~= Seq::empty());
    } else {
        lemma_items_decode_encode(items, k - 1);
        lemma_decode_encode(items[k - 1]);
        assert(texts.take(k).drop_last() =~= texts.take(k - 1));
        assert(texts.take(k).last() == spec_bson_to_jv(items[k - 1]));
        assert(values.take(k - 1).push(spec_normalized(items[k - 1])) =~= values.take(k));
    }
}

proof fn lemma_entries_decode_encode(entries: Seq<(Seq<char>, SpecBson)>, k: int)
    requires
        0 <= k <= entries.len(),
        unique_keys(entries),
        forall|i: int| 0 <= i < entries.len() ==> text_safe((#[trigger] entries[i]).1),
        forall|i: int| 0 <= i < entries.len() ==> payloads_reversible((#[trigger] entries[i]).1),
    ensures
        spec_fields_to_document(spec_entries_to_jv(entries).take(k)) == Ok::<
            Seq<(Seq<char>, SpecBson)>,
            DecodeError,
        >(spec_entries_normalized(entries).take(k)),
    decreases entries, k,
{
    let fields = spec_entries_to_jv(entries);
    let values = spec_entries_normalized(entries);
    if k == 0 {
        assert(fields.take(0) =~= Seq::empty());
        assert(values.take(0) =~= Seq::empty());
    } else {
        lemma_entries_decode_encode(entries, k - 1);
        lemma_decode_encode(entries[k - 1].1);
        let before = values.take(k - 1);
        let key = entries[k - 1].0;
        assert(fields.take(k).drop_last() =~= fields.take(k - 1));
        assert(fields.take(k).last() == (key, spec_bson_to_jv(entries[k - 1].1)));
        assert(!contains_key(before, key)) by {
            if contains_key(before, key) {
                let j = choose|j: int| 0 <= j < before.len() && (#[trigger] before[j]).0 == key;
                assert(entries[j].0 == entries[k - 1].0);
            }
        }
        assert(before.push((key, spec_normalized(entries[k - 1].1))) =~= values.take(k));
    }
}

/// A value that round-trips is its own normalized form.
proof fn lemma_normalized_identity(value: SpecBson)
    requires
        round_trips(value),
    ensures
        spec_normalized(value) == value,
        text_safe(value),
    decreases value,
{
    match value {
        SpecBson::I32(i) => {
            binary64::lemma_from_int_exact(i as int);
        },
        SpecBson::I64(i) => {
            binary64::lemma_from_int_exact(i as int);
        },
        SpecBson::Array(items) => {
            lemma_normalized_array(items);
            assert forall|i: int| 0 <= i < items.len() implies spec_normalized(items[i])
                == items[i] && text_safe(#[trigger] items[i]) by {
                lemma_normalized_identity(items[i]);
            }
            assert(spec_items_normalized(items) =~= items);
        },
        SpecBson::Document(entries) => {
            lemma_normalized_document(entries);
            assert forall|i: int| 0 <= i < entries.len() implies spec_normalized(entries[i].1)
                == entries[i].1 && text_safe((#[trigger] entries[i]).1) by {
                lemma_normalized_identity(entries[i].1);
            }
            assert(spec_entries_normalized(entries) =~= entries);
        },
        _ => {},
    }
}

/// A number that `number_reencodes` admits decodes to a value that encodes to
/// that number.
pub proof fn lemma_number_reencodes(bits: u64)
    requires
        number_reencodes(bits),
    ensures
        spec_bson_to_jv(spec_number_to_bson(bits)) == SpecJv::Number(bits),
{
    if binary64::spec_is_integral(bits) {
        binary64::lemma_from_int_truncated(bits);
        if binary64::truncated(bits) == binary64::TWO_63 {
            binary64::lemma_from_int_at_limit(bits);
        }
    }
}

/// A value that re-encodes has a normalized form with the same text value.
proof fn lemma_normalized_reencodes(value: SpecBson)
    requires
        reencodes(value),
    ensures
        spec_bson_to_jv(spec_normalized(value)) == spec_bson_to_jv(value),
        text_safe(value),
    decreases value,
{
    match value {
        SpecBson::FloatingPoint(bits) => {
            lemma_number_reencodes(bits);
        },
        SpecBson::I32(i) => {
            binary64::lemma_from_int_bounded(i as int);
            lemma_number_reencodes(binary64::spec_from_int(i as int));
        },
        SpecBson::I64(i) => {
            binary64::lemma_from_int_bounded(i as int);
            lemma_number_reencodes(binary64::spec_from_int(i as int));
        },
        SpecBson::Array(items) => {
            lemma_normalized_array(items);
            lemma_array_to_jv(items);
            lemma_array_to_jv(spec_items_normalized(items));
            assert forall|i: int| 0 <= i < items.len() implies spec_bson_to_jv(
                spec_normalized(items[i]),
            ) == spec_bson_to_jv(items[i]) && text_safe(#[trigger] items[i]) by {
                lemma_normalized_reencodes(items[i]);
            }
            assert(spec_items_to_jv(spec_items_normalized(items)) =~= spec_items_to_jv(items));
        },
        SpecBson::Document(entries) => {
            lemma_normalized_document(entries);
            lemma_document_to_jv(entries);
            lemma_document_to_jv(spec_entries_normalized(entries));
            assert forall|i: int| 0 <= i < entries.len() implies spec_bson_to_jv(
                spec_normalized(entries[i].1),
            ) == spec_bson_to_jv(entries[i].1) && text_safe((#[trigger] entries[i]).1) by {
                lemma_normalized_reencodes(entries[i].1);
            }
            assert(spec_entries_to_jv(spec_entries_normalized(entries)) =~= spec_entries_to_jv(
                entries,
            ));
        },
        _ => {},
    }
}

/// Round trip: a value that `round_trips` admits decodes, from the text value
/// it encodes to, to itself. This rests on the base64 text of its payloads
/// decoding to them, which `bson_to_jv` establishes of every value it encodes.
pub proof fn lemma_round_trip(value: SpecBson)
    requires
        round_trips(value),
        payloads_reversible(value),
    ensures
        spec_jv_to_bson(spec_bson_to_jv(value)) == Ok::<SpecBson, DecodeError>(value),
{
    lemma_normalized_identity(value);
    lemma_decode_encode(value);
}

/// Idempotent re-encoding: a value that `reencodes` admits decodes, from the
/// text value it encodes to, to a value that encodes to the same text value.
/// This rests on the base64 text of its payloads decoding to them.
pub proof fn lemma_reencode_idempotent(value: SpecBson)
    requires
        reencodes(value),
        payloads_reversible(value),
    ensures
        spec_jv_to_bson(spec_bson_to_jv(value)) matches Ok(decoded) && spec_bson_to_jv(decoded)
            == spec_bson_to_jv(value),
{
    lemma_normalized_reencodes(value);
    lemma_decode_encode(value);
}

/// Key order: a document that is safe as text decodes, from the text value it
/// encodes to, to a document with the same keys in the same order. This rests
/// on the base64 text of its payloads decoding to them.
pub proof fn lemma_key_order_preserved(entries: Seq<(Seq<char>, SpecBson)>)
    requires
        text_safe(SpecBson::Document(entries)),
        payloads_reversible(SpecBson::Document(entries)),
    ensures
        spec_jv_to_bson(spec_bson_to_jv(SpecBson::Document(entries))) matches Ok(
            SpecBson::Document(decoded),
        ) && decoded.len() == entries.len() && forall|i: int|
            0 <= i < entries.len() ==> (#[trigger] decoded[i]).0 == entries[i].0,
{
    lemma_decode_encode(SpecBson::Document(entries));
    lemma_normalized_document(entries);
}

} // verus!
