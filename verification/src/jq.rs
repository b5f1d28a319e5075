//! The text value model: what a JSON-like document holds once it is parsed.

use crate::binary64;
use vstd::prelude::*;

verus! {

/// The kind of a text value.
#[derive(Clone, Copy, Debug, PartialEq, Eq, Structural)]
pub enum JvKind {
    Invalid,
    Null,
    False,
    True,
    Number,
    String,
    Array,
    Object,
}

/// A text value. A number is held as the bit pattern of an IEEE-754 binary64
/// value; an object is held as its fields in iteration order.
#[derive(Debug, PartialEq, Eq)]
pub enum Jv {
    Invalid,
    Null,
    Bool(bool),
    Number(u64),
    String(String),
    Array(Vec<Jv>),
    Object(Vec<(String, Jv)>),
}

/// The mathematical model of a text value.
pub enum SpecJv {
    Invalid,
    Null,
    Bool(bool),
    Number(u64),
    String(Seq<char>),
    Array(Seq<SpecJv>),
    Object(Seq<(Seq<char>, SpecJv)>),
}

impl View for Jv {
    type V = SpecJv;

    open spec fn view(&self) -> SpecJv
        decreases self,
    {
        match self {
            Jv::Invalid => SpecJv::Invalid,
            Jv::Null => SpecJv::Null,
            Jv::Bool(b) => SpecJv::Bool(*b),
            Jv::Number(bits) => SpecJv::Number(*bits),
            Jv::String(s) => SpecJv::String(s@),
            Jv::Array(items) => SpecJv::Array(
                Seq::new(
                    items.len() as nat,
                    |i: int|
                        if 0 <= i < items.len() {
                            items[i].view()
                        } else {
                            SpecJv::Invalid
                        },
                ),
            ),
            Jv::Object(fields) => SpecJv::Object(
                Seq::new(
                    fields.len() as nat,
                    |i: int|
                        if 0 <= i < fields.len() {
                            (fields[i].0@, fields[i].1.view())
                        } else {
                            (Seq::empty(), SpecJv::Invalid)
                        },
                ),
            ),
        }
    }
}

/// The kind of a text value in the model.
pub open spec fn spec_kind(j: SpecJv) -> JvKind {
    match j {
        SpecJv::Invalid => JvKind::Invalid,
        SpecJv::Null => JvKind::Null,
        SpecJv::Bool(b) => if b { JvKind::True } else { JvKind::False },
        SpecJv::Number(_) => JvKind::Number,
        SpecJv::String(_) => JvKind::String,
        SpecJv::Array(_) => JvKind::Array,
        SpecJv::Object(_) => JvKind::Object,
    }
}

/// Returns the kind of `arg`.
pub fn jv_get_kind(arg: &Jv) -> (kind: JvKind)
    ensures
        kind == spec_kind(arg@),
{
    match arg {
        Jv::Invalid => JvKind::Invalid,
        Jv::Null => JvKind::Null,
        Jv::Bool(b) => if *b { JvKind::True } else { JvKind::False },
        Jv::Number(_) => JvKind::Number,
        Jv::String(_) => JvKind::String,
        Jv::Array(_) => JvKind::Array,
        Jv::Object(_) => JvKind::Object,
    }
}

/// The value that an object's fields give for `key`: that of the last field
/// with this key, as a later field overwrites an earlier one.
pub open spec fn spec_object_get(fields: Seq<(Seq<char>, SpecJv)>, key: Seq<char>) -> Option<
    SpecJv,
>
    decreases fields.len(),
{
    if fields.len() == 0 {
        None
    } else if fields.last().0 == key {
        Some(fields.last().1)
    } else {
        spec_object_get(fields.drop_last(), key)
    }
}

/// Whether a number's pattern stands for an integer in the range of `i32`.
pub open spec fn spec_is_integer(j: SpecJv) -> bool {
    j matches SpecJv::Number(bits) && binary64::spec_is_integral(bits) && i32::MIN
        <= binary64::truncated(bits) <= i32::MAX
}

/// A string value that holds `string`.
pub fn jv_string(string: String) -> (j: Jv)
    ensures
        j@ == SpecJv::String(string@),
{
    Jv::String(string)
}

/// The text of a string value.
pub fn jv_string_value(arg: &Jv) -> (text: &str)
    requires
        arg@ is String,
    ensures
        arg@ == SpecJv::String(text@),
{
    match arg {
        Jv::String(s) => s.as_str(),
        _ => "",
    }
}

/// The number of items of an array, and 0 for any other value.
pub open spec fn spec_array_length(j: SpecJv) -> nat {
    match j {
        SpecJv::Array(items) => items.len(),
        _ => 0,
    }
}

/// The number of items of an array, and 0 for any other value.
pub fn jv_array_length(arg: &Jv) -> (length: usize)
    ensures
        length == spec_array_length(arg@),
{
    match arg {
        Jv::Array(items) => {
            proof {
                lemma_array_view(items);
            }
            items.len()
        },
        _ => 0,
    }
}

/// The item of an array at `index`, `None` where the array is shorter.
pub fn jv_array_get(arg: &Jv, index: usize) -> (item: Option<&Jv>)
    requires
        arg@ is Array,
    ensures
        arg@ matches SpecJv::Array(items) && match item {
            Some(found) => index < items.len() && found@ == items[index as int],
            None => index >= items.len(),
        },
{
    match arg {
        Jv::Array(items) => {
            proof {
                lemma_array_view(items);
            }
            if index < items.len() {
                Some(&items[index])
            } else {
                None
            }
        },
        _ => None,
    }
}

/// Whether `arg` is a number that stands for an integer in the range of
/// `i32`.
pub fn jv_is_integer(arg: &Jv) -> (integer: bool)
    ensures
        integer == spec_is_integer(arg@),
{
    match arg {
        Jv::Number(bits) => {
            if binary64::is_integral(*bits) {
                let value = binary64::to_i64(*bits);
                proof {
                    binary64::lemma_to_i64_saturates(*bits);
                }
                -0x8000_0000 <= value && value <= 0x7fff_ffff
            } else {
                false
            }
        },
        _ => false,
    }
}

/// The number of fields of an object.
pub fn jv_object_length(arg: &Jv) -> (length: usize)
    requires
        arg@ is Object,
    ensures
        arg@ matches SpecJv::Object(fields) && length == fields.len(),
{
    match arg {
        Jv::Object(fields) => {
            proof {
                lemma_object_view(fields);
            }
            fields.len()
        },
        _ => 0,
    }
}

/// The value that an object holds for the text of `key`, `None` where no
/// field has that key.
pub fn jv_object_get<'a>(object: &'a Jv, key: &Jv) -> (value: Option<&'a Jv>)
    requires
        object@ is Object,
        key@ is String,
    ensures
        object@ matches SpecJv::Object(fields) && key@ matches SpecJv::String(text) && match value {
            Some(found) => spec_object_get(fields, text) == Some(found@),
            None => spec_object_get(fields, text) is None,
        },
{
    match (object, key) {
        (Jv::Object(fields), Jv::String(text)) => {
            proof {
                lemma_object_view(fields);
            }
            object_get(fields, text.as_str())
        },
        _ => None,
    }
}

/// The value of the last of `fields` whose key is `key`.
pub fn object_get<'a>(fields: &'a Vec<(String, Jv)>, key: &str) -> (value: Option<&'a Jv>)
    ensures
        match value {
            Some(found) => spec_object_get(fields_view(fields), key@) == Some(found@),
            None => spec_object_get(fields_view(fields), key@) is None,
        },
{
    let ghost all = fields_view(fields);
    let mut i: usize = fields.len();
    assert(all.take(i as int) =~= all);
    while i > 0
        invariant
            i <= fields.len(),
            all == fields_view(fields),
            spec_object_get(all, key@) == spec_object_get(all.take(i as int), key@),
        decreases i,
    {
        i = i - 1;
        proof {
            let prefix = all.take(i + 1);
            assert(prefix.drop_last() =~= all.take(i as int));
            assert(prefix.last() == all[i as int]);
        }
        if crate::text::str_eq(fields[i].0.as_str(), key) {
            return Some(&fields[i].1);
        }
    }
    assert(all.take(0).len() == 0);
    None
}

/// The key of the field of an object at `index`, as a string value.
pub fn jv_object_iter_key(arg: &Jv, index: usize) -> (key: Jv)
    requires
        arg@ matches SpecJv::Object(fields) && index < fields.len(),
    ensures
        arg@ matches SpecJv::Object(fields) && key@ == SpecJv::String(fields[index as int].0),
{
    match arg {
        Jv::Object(fields) => {
            proof {
                lemma_object_view(fields);
            }
            Jv::String(fields[index].0.clone())
        },
        _ => Jv::Invalid,
    }
}

/// The value of the field of an object at `index`.
pub fn jv_object_iter_value(arg: &Jv, index: usize) -> (value: &Jv)
    requires
        arg@ matches SpecJv::Object(fields) && index < fields.len(),
    ensures
        arg@ matches SpecJv::Object(fields) && value@ == fields[index as int].1,
{
    match arg {
        Jv::Object(fields) => {
            proof {
                lemma_object_view(fields);
            }
            &fields[index].1
        },
        _ => arg,
    }
}

/// The pattern of a number.
pub fn jv_number_value(arg: &Jv) -> (bits: u64)
    requires
        arg@ is Number,
    ensures
        arg@ == SpecJv::Number(bits),
{
    match arg {
        Jv::Number(bits) => *bits,
        _ => 0,
    }
}

/// The fields of an object in the model.
pub open spec fn fields_view(fields: &Vec<(String, Jv)>) -> Seq<(Seq<char>, SpecJv)> {
    Seq::new(fields.len() as nat, |i: int| (fields[i].0@, fields[i].1@))
}

/// The items of an array in the model.
pub open spec fn items_view(items: &Vec<Jv>) -> Seq<SpecJv> {
    Seq::new(items.len() as nat, |i: int| items[i]@)
}

/// The view of an array is the view of its items.
pub proof fn lemma_array_view(items: &Vec<Jv>)
    ensures
        Jv::Array(*items)@ == SpecJv::Array(items_view(items)),
{
    reveal_with_fuel(<Jv as View>::view, 2);
    assert(Jv::Array(*items)@->Array_0 =~= items_view(items));
}

/// The view of an object is the view of its fields.
pub proof fn lemma_object_view(fields: &Vec<(String, Jv)>)
    ensures
        Jv::Object(*fields)@ == SpecJv::Object(fields_view(fields)),
{
    reveal_with_fuel(<Jv as View>::view, 2);
    assert(Jv::Object(*fields)@->Object_0 =~= fields_view(fields));
}

} // verus!
