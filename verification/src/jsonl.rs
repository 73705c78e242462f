//! Points as they come from a JSONL file: one `{"vector":[...],"payload":{...}}` per line.
//!
//! A line is read as JSON by serde_json. What it says about vectors and payloads is
//! decided here: a line needs a `vector` array, whose items count as zero where they are
//! not numbers, and a `payload` that is `null` counts as none.

use vstd::prelude::*;

use crate::lines;
use crate::ordered;
use crate::ordered::OrderedF64;

verus! {

/// The error of serde_json.
#[verifier::external_type_specification]
#[verifier::external_body]
pub struct ExJsonError(serde_json::Error);

/// One field of a JSON object.
#[derive(Debug)]
pub struct RawField {
    /// The name.
    pub name: String,
    /// Whether the value is `null`.
    pub is_null: bool,
    /// The value as compact JSON text.
    pub text: String,
    /// Where the value is an array: for each item the bits of the double it stands for, if
    /// it is a number.
    pub items: Option<Vec<Option<u64>>>,
}

/// A JSON value, as far as a line's reader looks into it.
#[derive(Debug)]
pub enum RawJson {
    /// An object.
    Object(Vec<RawField>),
    /// Anything else.
    Other,
}

/// What a [`RawField`] holds.
pub struct JsonField {
    /// The name.
    pub name: Seq<char>,
    /// Whether the value is `null`.
    pub is_null: bool,
    /// The value as compact JSON text.
    pub text: Seq<char>,
    /// Where the value is an array: for each item the bits of the double it stands for, if
    /// it is a number.
    pub items: Option<Seq<Option<u64>>>,
}

/// What a [`RawJson`] holds.
pub enum JsonLine {
    /// An object.
    Object(Seq<JsonField>),
    /// Anything else.
    Other,
}

impl RawField {
    /// What the field holds.
    pub open spec fn content(&self) -> JsonField {
        JsonField {
            name: self.name@,
            is_null: self.is_null,
            text: self.text@,
            items: match self.items {
                Some(items) => Some(items@),
                None => None,
            },
        }
    }
}

impl RawJson {
    /// What the value holds.
    pub open spec fn content(&self) -> JsonLine {
        match *self {
            RawJson::Object(fields) => JsonLine::Object(
                Seq::new(fields@.len(), |i: int| fields@[i].content()),
            ),
            RawJson::Other => JsonLine::Other,
        }
    }
}

/// A line of a file: the components of a vector and the payload that comes with it.
#[derive(Debug)]
pub struct NewLine {
    /// The components.
    pub values: Vec<OrderedF64>,
    /// The payload as compact JSON text, where there is one.
    pub payload: Option<String>,
}

/// Why a file is refused.
#[derive(Debug)]
pub enum LineError {
    /// A line is not JSON.
    Malformed(serde_json::Error),
    /// A line has no `vector` array.
    MissingVector,
}

/// What serde_json reads a line as: `None` if it is not JSON.
pub uninterp spec fn json_text(line: Seq<char>) -> Option<JsonLine>;

/// `serde_json::from_str` reads a line, and `Value`'s own accessors tell what the fields of
/// an object are: `is_null`, the compact text, and the items of an array by `as_f64`. What
/// comes out, or that nothing does, depends on the line alone.
#[verifier::external_body]
fn parse_json(line: &str) -> (r: Result<RawJson, serde_json::Error>)
    ensures
        match r {
            Ok(raw) => json_text(line@) == Some(raw.content()),
            Err(_) => json_text(line@) is None,
        },
{
    match serde_json::from_str(line)? {
        serde_json::Value::Object(map) => Ok(RawJson::Object(map.iter().map(|(name, v)| RawField {
            name: name.clone(),
            is_null: v.is_null(),
            text: v.to_string(),
            items: v.as_array().map(
                |a| a.iter().map(|x| x.as_f64().map(|d| d.to_bits())).collect(),
            ),
        }).collect())),
        _ => Ok(RawJson::Other),
    }
}

/// The lines that are not blank, in order.
pub open spec fn entries_in(lines: Seq<Seq<char>>) -> Seq<Seq<char>>
    decreases lines.len(),
{
    if lines.len() == 0 {
        Seq::empty()
    } else {
        let rest = entries_in(lines.drop_last());
        if lines::blank(lines.last()) {
            rest
        } else {
            rest.push(lines.last())
        }
    }
}

/// The field of an object under a name.
pub open spec fn field_in(line: JsonLine, name: Seq<char>) -> Option<JsonField> {
    match line {
        JsonLine::Object(fields) => first_field(fields, name),
        JsonLine::Other => None,
    }
}

/// The first field under a name.
pub open spec fn first_field(fields: Seq<JsonField>, name: Seq<char>) -> Option<JsonField>
    decreases fields.len(),
{
    if fields.len() == 0 {
        None
    } else {
        match first_field(fields.drop_last(), name) {
            Some(f) => Some(f),
            None => if fields.last().name == name {
                Some(fields.last())
            } else {
                None
            },
        }
    }
}

/// A component of a vector: what is not a number counts as zero.
pub open spec fn component_of(item: Option<u64>) -> OrderedF64 {
    OrderedF64 {
        key: match item {
            Some(bits) => ordered::key_of_bits_64(bits) as i64,
            None => 0,
        },
    }
}

/// The components of the `vector` array of a line, if it has one.
pub open spec fn components_of(line: JsonLine) -> Option<Seq<OrderedF64>> {
    match field_in(line, "vector"@) {
        Some(field) => match field.items {
            Some(items) => Some(Seq::new(items.len(), |i: int| component_of(items[i]))),
            None => None,
        },
        None => None,
    }
}

/// The payload of a line: `null` counts as none.
pub open spec fn payload_in(line: JsonLine) -> Option<Seq<char>> {
    match field_in(line, "payload"@) {
        Some(field) => if field.is_null {
            None
        } else {
            Some(field.text)
        },
        None => None,
    }
}

/// Whether a line was read as `read`.
pub open spec fn reads_as(line: JsonLine, read: NewLine) -> bool {
    &&& components_of(line) == Some(read.values@)
    &&& match read.payload {
        Some(text) => payload_in(line) == Some(text@),
        None => payload_in(line) is None,
    }
}

fn read_components(items: &Vec<Option<u64>>) -> (values: Vec<OrderedF64>)
    ensures
        values@ == Seq::new(items@.len(), |i: int| component_of(items@[i])),
{
    let mut values: Vec<OrderedF64> = Vec::with_capacity(items.len());
    for i in 0..items.len()
        invariant
            values@.len() == i,
            forall|j: int| 0 <= j < i ==> (#[trigger] values@[j]) == component_of(items@[j]),
    {
        let value = match items[i] {
            Some(bits) => OrderedF64::new(bits),
            None => OrderedF64 { key: 0 },
        };
        values.push(value);
    }
    values
}

fn find_field<'a>(raw: &'a RawJson, name: &str) -> (field: Option<&'a RawField>)
    ensures
        match field {
            Some(f) => field_in(raw.content(), name@) == Some(f.content()),
            None => field_in(raw.content(), name@) is None,
        },
{
    match raw {
        RawJson::Object(fields) => {
            let wanted = name.to_owned();
            let ghost held = Seq::new(fields@.len(), |i: int| fields@[i].content());
            assert(raw.content()->Object_0 =~= held);
            for i in 0..fields.len()
                invariant
                    wanted@ == name@,
                    raw.content() == JsonLine::Object(held),
                    held == Seq::new(fields@.len(), |i: int| fields@[i].content()),
                    first_field(held.take(i as int), name@) is None,
            {
                proof {
                    assert(held.take(i + 1).drop_last() =~= held.take(i as int));
                    assert(held.take(i + 1).last() == fields@[i as int].content());
                }
                if fields[i].name == wanted {
                    proof {
                        lemma_first_field(held, i + 1, name@);
                    }
                    return Some(&fields[i]);
                }
            }
            assert(held.take(fields@.len() as int) =~= held);
            None
        },
        RawJson::Other => None,
    }
}

/// A field found among the first ones is the first.
proof fn lemma_first_field(fields: Seq<JsonField>, n: int, name: Seq<char>)
    requires
        0 <= n <= fields.len(),
        first_field(fields.take(n), name) is Some,
    ensures
        first_field(fields, name) == first_field(fields.take(n), name),
    decreases fields.len(),
{
    if n == fields.len() {
        assert(fields.take(n) =~= fields);
    } else {
        assert(fields.drop_last().take(n) =~= fields.take(n));
        lemma_first_field(fields.drop_last(), n, name);
    }
}

/// Reads one line. It fails exactly where there is no `vector` array.
pub fn read_line(line: &RawJson) -> (r: Result<NewLine, LineError>)
    ensures
        match r {
            Ok(read) => reads_as(line.content(), read),
            Err(e) => components_of(line.content()) is None && e is MissingVector,
        },
{
    let values = match find_field(line, "vector") {
        Some(field) => match &field.items {
            Some(items) => read_components(items),
            None => {
                return Err(LineError::MissingVector);
            },
        },
        None => {
            return Err(LineError::MissingVector);
        },
    };
    let payload = match find_field(line, "payload") {
        Some(field) => if field.is_null {
            None
        } else {
            Some(field.text.clone())
        },
        None => None,
    };
    Ok(NewLine { values, payload })
}

/// Whether a line of text was read as `read`.
pub open spec fn read_from(line: Seq<char>, read: NewLine) -> bool {
    json_text(line) matches Some(j) && reads_as(j, read)
}

/// Whether a line of text can be read.
pub open spec fn readable(line: Seq<char>) -> bool {
    json_text(line) matches Some(j) && components_of(j) is Some
}

/// Reads the text of a file, skipping blank lines. The first line that is not JSON, or that
/// has no `vector` array, refuses the file.
pub fn read_text(text: &str) -> (r: Result<Vec<NewLine>, LineError>)
    ensures
        ({
            let entries = entries_in(lines::lines_of(text@));
            match r {
                Ok(read) => {
                    &&& read@.len() == entries.len()
                    &&& forall|i: int|
                        0 <= i < entries.len() ==> read_from(entries[i], #[trigger] read@[i])
                },
                Err(e) => exists|i: int|
                    {
                        &&& 0 <= i < entries.len()
                        &&& forall|j: int| 0 <= j < i ==> readable(#[trigger] entries[j])
                        &&& !readable(#[trigger] entries[i])
                        &&& e is Malformed <==> json_text(entries[i]) is None
                    },
            }
        }),
{
    let lines = lines::split_lines(text);
    let ghost texts = lines::texts_of(lines@);
    let ghost entries = entries_in(texts);
    let mut read: Vec<NewLine> = Vec::new();
    for i in 0..lines.len()
        invariant
            texts == lines::texts_of(lines@),
            texts == lines::lines_of(text@),
            entries == entries_in(texts),
            read@.len() == entries_in(texts.take(i as int)).len(),
            forall|j: int|
                0 <= j < read@.len() ==> read_from(
                    entries_in(texts.take(i as int))[j],
                    #[trigger] read@[j],
                ),
    {
        let ghost so_far = entries_in(texts.take(i as int));
        proof {
            assert(texts.take(i + 1).drop_last() =~= texts.take(i as int));
            assert(texts.take(i + 1).last() == lines@[i as int]@);
            lemma_entries_prefix(texts, i as int);
            lemma_entries_prefix(texts, i + 1);
        }
        let line = lines[i];
        if !lines::is_blank(line) {
            let ghost at = so_far.len() as int;
            proof {
                assert(entries_in(texts.take(i + 1)) == so_far.push(line@));
                assert(entries_in(texts.take(i + 1))[at] == line@);
                assert(entries[at] == line@);
                assert forall|j: int| 0 <= j < at implies readable(#[trigger] entries[j]) by {
                    assert(entries[j] == so_far[j]);
                    assert(read_from(so_far[j], read@[j]));
                }
            }
            let raw = match parse_json(line) {
                Ok(raw) => raw,
                Err(e) => {
                    assert(!readable(entries[at]));
                    return Err(LineError::Malformed(e));
                },
            };
            match read_line(&raw) {
                Ok(entry) => {
                    let ghost before = read@;
                    read.push(entry);
                    proof {
                        let next = entries_in(texts.take(i + 1));
                        assert forall|j: int| 0 <= j < read@.len() implies read_from(
                            next[j],
                            #[trigger] read@[j],
                        ) by {
                            if j < at {
                                assert(next[j] == so_far[j]);
                                assert(read@[j] == before[j]);
                            }
                        }
                    }
                },
                Err(e) => {
                    assert(!readable(entries[at]));
                    return Err(e);
                },
            }
        }
    }
    assert(texts.take(lines@.len() as int) =~= texts);
    Ok(read)
}

/// The entries among the first lines are the first entries.
proof fn lemma_entries_prefix(lines: Seq<Seq<char>>, n: int)
    requires
        0 <= n <= lines.len(),
    ensures
        entries_in(lines.take(n)).len() <= entries_in(lines).len(),
        forall|i: int|
            0 <= i < entries_in(lines.take(n)).len() ==> (#[trigger] entries_in(lines.take(n))[i])
                == entries_in(lines)[i],
    decreases lines.len(),
{
    if n == lines.len() {
        assert(lines.take(n) =~= lines);
    } else {
        assert(lines.drop_last().take(n) =~= lines.take(n));
        lemma_entries_prefix(lines.drop_last(), n);
    }
}

} // verus!
