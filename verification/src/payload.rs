//! Per-point metadata (payload) and the filter language.
//!
//! A payload is a free-form JSON object attached to a point. Payloads live at the
//! **collection level** (a map from global id), like deletions, so segments stay pure
//! vectors. A [`Filter`] is a boolean combination of field conditions (`must` / `should`
//! / `must_not`); it is evaluated per candidate during search via [`FilterQuery`].

use std::collections::HashMap;
use std::sync::Arc;

use vstd::prelude::*;
use vstd::std_specs::hash::*;

use crate::ordered;
use crate::ordered::OrderedF64;

verus! {

broadcast use vstd::std_specs::hash::group_hash_axioms;

/// A JSON number. Integers and floats are kept apart.
#[derive(Debug, Clone, Copy, PartialEq, Eq, Structural)]
pub enum JsonNumber {
    /// A non-negative integer.
    PosInt(u64),
    /// A negative integer.
    NegInt(i64),
    /// A number written with a fraction or an exponent.
    Float(OrderedF64),
}

/// A JSON value.
#[derive(Debug)]
pub enum JsonValue {
    /// `null`.
    Null,
    /// A boolean.
    Bool(bool),
    /// A number.
    Number(JsonNumber),
    /// A string.
    Text(String),
    /// An array.
    Array(Vec<JsonValue>),
    /// An object.
    Object(Vec<Field>),
}

/// A named value of a JSON object.
#[derive(Debug)]
pub struct Field {
    /// The key.
    pub name: String,
    /// The value.
    pub value: JsonValue,
}

/// A point's metadata: a JSON value (expected to be an object).
pub type Payload = JsonValue;

/// The collection's payloads, keyed by global id.
pub type PayloadMap = HashMap<u64, Arc<Payload>>;

/// Whether two numbers are equal. An integer never equals a float.
pub open spec fn same_number(a: JsonNumber, b: JsonNumber) -> bool {
    match (a, b) {
        (JsonNumber::PosInt(x), JsonNumber::PosInt(y)) => x == y,
        (JsonNumber::NegInt(x), JsonNumber::NegInt(y)) => x == y,
        (JsonNumber::Float(x), JsonNumber::Float(y)) => x.numerically_equal(y),
        _ => false,
    }
}

/// The place of the first field with the given name among the first `n`.
pub open spec fn field_place(fields: Seq<Field>, name: Seq<char>, n: nat) -> Option<int>
    decreases n,
{
    if n == 0 {
        None
    } else {
        match field_place(fields, name, (n - 1) as nat) {
            Some(i) => Some(i),
            None => if fields[n - 1].name@ == name {
                Some(n - 1)
            } else {
                None
            },
        }
    }
}

/// A place that is found lies within the fields and bears the name.
pub proof fn lemma_field_place(fields: Seq<Field>, name: Seq<char>, n: nat)
    requires
        n <= fields.len(),
    ensures
        field_place(fields, name, n) matches Some(i) ==> 0 <= i < n && fields[i].name@ == name,
        forall|i: int| 0 <= i < n && (#[trigger] fields[i]).name@ == name ==> field_place(
            fields,
            name,
            n,
        ) is Some,
    decreases n,
{
    if n > 0 {
        lemma_field_place(fields, name, (n - 1) as nat);
    }
}

/// The value of the named field, if the value is an object that has it.
pub open spec fn field_of(value: JsonValue, name: Seq<char>) -> Option<JsonValue> {
    match value {
        JsonValue::Object(fields) => match field_place(fields@, name, fields@.len()) {
            Some(i) => Some(fields@[i].value),
            None => None,
        },
        _ => None,
    }
}

/// Whether two JSON values are equal: arrays item by item, objects whatever the order of
/// their fields.
pub open spec fn same(a: JsonValue, b: JsonValue) -> bool
    decreases a, 0nat,
{
    match (a, b) {
        (JsonValue::Null, JsonValue::Null) => true,
        (JsonValue::Bool(x), JsonValue::Bool(y)) => x == y,
        (JsonValue::Number(x), JsonValue::Number(y)) => same_number(x, y),
        (JsonValue::Text(x), JsonValue::Text(y)) => x@ == y@,
        (JsonValue::Array(xs), JsonValue::Array(ys)) => xs@.len() == ys@.len() && same_items(
            xs@,
            ys@,
            xs@.len(),
        ),
        (JsonValue::Object(xs), JsonValue::Object(ys)) => xs@.len() == ys@.len() && same_fields(
            xs@,
            ys@,
            xs@.len(),
        ),
        _ => false,
    }
}

/// Whether the first `n` items of two arrays are equal.
pub open spec fn same_items(xs: Seq<JsonValue>, ys: Seq<JsonValue>, n: nat) -> bool
    decreases xs, n,
{
    n == 0 || (n <= xs.len() && same(xs[n - 1], ys[n - 1]) && same_items(xs, ys, (n - 1) as nat))
}

/// Whether the first `n` fields of an object have equal namesakes in another.
pub open spec fn same_fields(xs: Seq<Field>, ys: Seq<Field>, n: nat) -> bool
    decreases xs, n,
{
    n == 0 || (n <= xs.len() && (match field_place(ys, xs[n - 1].name@, ys.len()) {
        Some(i) => same(xs[n - 1].value, ys[i].value),
        None => false,
    }) && same_fields(xs, ys, (n - 1) as nat))
}

/// The value as a binary64 float, if it is a number: integers round to the nearest float.
pub open spec fn float_of(value: JsonValue) -> Option<OrderedF64> {
    match value {
        JsonValue::Number(JsonNumber::PosInt(n)) => Some(
            OrderedF64 { key: ordered::wide_key_of_integer(n as int) as i64 },
        ),
        JsonValue::Number(JsonNumber::NegInt(n)) => Some(
            OrderedF64 { key: ordered::wide_key_of_integer(n as int) as i64 },
        ),
        JsonValue::Number(JsonNumber::Float(x)) => Some(x),
        _ => None,
    }
}

/// Finds the first field with the given name.
fn find_field(fields: &Vec<Field>, name: &String) -> (place: Option<usize>)
    ensures
        match place {
            Some(i) => field_place(fields@, name@, fields@.len()) == Some(i as int) && i
                < fields@.len(),
            None => field_place(fields@, name@, fields@.len()) is None,
        },
{
    let n: usize = fields.len();
    for i in 0..n
        invariant
            n == fields@.len(),
            field_place(fields@, name@, i as nat) is None,
    {
        if fields[i].name == *name {
            proof {
                lemma_place_is_stable(fields@, name@, (i + 1) as nat, n as nat);
            }
            return Some(i);
        }
    }
    None
}

/// Looking at more fields does not change a place that was found.
proof fn lemma_place_is_stable(fields: Seq<Field>, name: Seq<char>, n: nat, more: nat)
    requires
        n <= more,
        field_place(fields, name, n) is Some,
    ensures
        field_place(fields, name, more) == field_place(fields, name, n),
    decreases more,
{
    if n < more {
        lemma_place_is_stable(fields, name, n, (more - 1) as nat);
    }
}

impl JsonValue {
    /// Whether two values are equal. An integer never equals a float; the order of an
    /// object's fields does not count.
    pub fn equals(&self, other: &JsonValue) -> (r: bool)
        ensures
            r == same(*self, *other),
        decreases *self,
    {
        match (self, other) {
            (JsonValue::Null, JsonValue::Null) => true,
            (JsonValue::Bool(x), JsonValue::Bool(y)) => *x == *y,
            (JsonValue::Number(x), JsonValue::Number(y)) => match (x, y) {
                (JsonNumber::PosInt(m), JsonNumber::PosInt(n)) => *m == *n,
                (JsonNumber::NegInt(m), JsonNumber::NegInt(n)) => *m == *n,
                (JsonNumber::Float(m), JsonNumber::Float(n)) => m.equal(*n),
                _ => false,
            },
            (JsonValue::Text(x), JsonValue::Text(y)) => *x == *y,
            (JsonValue::Array(xs), JsonValue::Array(ys)) => {
                if xs.len() != ys.len() {
                    return false;
                }
                let mut i: usize = xs.len();
                while i > 0
                    invariant
                        *self == JsonValue::Array(*xs),
                        *other == JsonValue::Array(*ys),
                        xs@.len() == ys@.len(),
                        i <= xs@.len(),
                        same_items(xs@, ys@, xs@.len()) == same_items(xs@, ys@, i as nat),
                    decreases i,
                {
                    i = i - 1;
                    assert(decreases_to!(xs@ => xs@[i as int]));
                    assert(decreases_to!(*self => self->Array_0@));
                    if !xs[i].equals(&ys[i]) {
                        return false;
                    }
                }
                true
            },
            (JsonValue::Object(xs), JsonValue::Object(ys)) => {
                if xs.len() != ys.len() {
                    return false;
                }
                let mut i: usize = xs.len();
                while i > 0
                    invariant
                        *self == JsonValue::Object(*xs),
                        *other == JsonValue::Object(*ys),
                        xs@.len() == ys@.len(),
                        i <= xs@.len(),
                        same_fields(xs@, ys@, xs@.len()) == same_fields(xs@, ys@, i as nat),
                    decreases i,
                {
                    i = i - 1;
                    assert(decreases_to!(xs@[i as int] => xs@[i as int].value));
                    assert(decreases_to!(xs@ => xs@[i as int]));
                    assert(decreases_to!(*self => self->Object_0@));
                    match find_field(ys, &xs[i].name) {
                        Some(j) => {
                            if !xs[i].value.equals(&ys[j].value) {
                                return false;
                            }
                        },
                        None => {
                            return false;
                        },
                    }
                }
                true
            },
            _ => false,
        }
    }

    /// The value of the named field, if this is an object that has it.
    pub fn get(&self, name: &String) -> (value: Option<&JsonValue>)
        ensures
            match value {
                Some(v) => field_of(*self, name@) == Some(*v),
                None => field_of(*self, name@) is None,
            },
    {
        match self {
            JsonValue::Object(fields) => match find_field(fields, name) {
                Some(i) => Some(&fields[i].value),
                None => None,
            },
            _ => None,
        }
    }

    /// The value as a float, if it is a number.
    pub fn as_f64(&self) -> (value: Option<OrderedF64>)
        ensures
            value == float_of(*self),
    {
        match self {
            JsonValue::Number(JsonNumber::PosInt(n)) => Some(OrderedF64::from_u64(*n)),
            JsonValue::Number(JsonNumber::NegInt(n)) => Some(OrderedF64::from_i64(*n)),
            JsonValue::Number(JsonNumber::Float(x)) => Some(*x),
            _ => None,
        }
    }
}

/// A numeric range (any bound may be open).
#[derive(Debug, Clone, Copy, PartialEq, Eq, Structural)]
pub struct Range {
    /// Strictly greater than.
    pub gt: Option<OrderedF64>,
    /// Greater than or equal.
    pub gte: Option<OrderedF64>,
    /// Strictly less than.
    pub lt: Option<OrderedF64>,
    /// Less than or equal.
    pub lte: Option<OrderedF64>,
}

impl Default for Range {
    fn default() -> (range: Range)
        ensures
            range == (Range { gt: None, gte: None, lt: None, lte: None }),
    {
        Range { gt: None, gte: None, lt: None, lte: None }
    }
}

impl Range {
    /// Whether a number meets every bound. A `NaN` meets none.
    pub open spec fn holds(self, n: OrderedF64) -> bool {
        &&& self.gt matches Some(b) ==> b.numerically_below(n)
        &&& self.gte matches Some(b) ==> b.numerically_below(n) || b.numerically_equal(n)
        &&& self.lt matches Some(b) ==> n.numerically_below(b)
        &&& self.lte matches Some(b) ==> n.numerically_below(b) || n.numerically_equal(b)
    }

    /// Whether a number meets every bound.
    pub fn contains(&self, n: OrderedF64) -> (r: bool)
        ensures
            r == self.holds(n),
    {
        let above = match self.gt {
            Some(b) => b.below(n),
            None => true,
        };
        let at_least = match self.gte {
            Some(b) => b.below(n) || b.equal(n),
            None => true,
        };
        let under = match self.lt {
            Some(b) => n.below(b),
            None => true,
        };
        let at_most = match self.lte {
            Some(b) => n.below(b) || n.equal(b),
            None => true,
        };
        above && at_least && under && at_most
    }
}

/// A condition on a single payload field.
#[derive(Debug)]
pub struct Condition {
    /// The field name (top-level key).
    pub key: String,
    /// Exact-match value (equality).
    pub match_value: Option<JsonValue>,
    /// Numeric range.
    pub range: Option<Range>,
}

impl Condition {
    /// Whether a payload meets the condition. A missing field meets neither an exact
    /// match nor a range.
    pub open spec fn holds(self, payload: Option<JsonValue>) -> bool {
        let value = match payload {
            Some(p) => field_of(p, self.key@),
            None => None,
        };
        &&& self.match_value matches Some(expected) ==> value is Some && same(value->0, expected)
        &&& self.range matches Some(range) ==> value is Some && float_of(value->0) is Some
            && range.holds(float_of(value->0)->0)
    }

    /// Evaluates the condition against an (optional) payload.
    pub fn eval(&self, payload: Option<&Payload>) -> (r: bool)
        ensures
            r == self.holds(
                match payload {
                    Some(p) => Some(*p),
                    None => None,
                },
            ),
    {
        let value: Option<&JsonValue> = match payload {
            Some(p) => p.get(&self.key),
            None => None,
        };
        if let Some(expected) = &self.match_value {
            match value {
                Some(v) => {
                    if !v.equals(expected) {
                        return false;
                    }
                },
                None => {
                    return false;
                },
            }
        }
        if let Some(range) = &self.range {
            let number: Option<OrderedF64> = match value {
                Some(v) => v.as_f64(),
                None => None,
            };
            match number {
                Some(n) => {
                    if !range.contains(n) {
                        return false;
                    }
                },
                None => {
                    return false;
                },
            }
        }
        true
    }
}

/// Whether some condition holds.
pub open spec fn some_holds(conditions: Seq<Condition>, payload: Option<JsonValue>) -> bool {
    exists|i: int| 0 <= i < conditions.len() && (#[trigger] conditions[i]).holds(payload)
}

/// Whether every condition holds.
pub open spec fn all_hold(conditions: Seq<Condition>, payload: Option<JsonValue>) -> bool {
    forall|i: int| 0 <= i < conditions.len() ==> (#[trigger] conditions[i]).holds(payload)
}

fn any(conditions: &Vec<Condition>, payload: Option<&Payload>, verdict: bool) -> (r: bool)
    ensures
        ({
            let given = match payload {
                Some(p) => Some(*p),
                None => None,
            };
            r == if verdict {
                some_holds(conditions@, given)
            } else {
                !all_hold(conditions@, given)
            }
        }),
{
    let ghost given = match payload {
        Some(p) => Some(*p),
        None => None,
    };
    for i in 0..conditions.len()
        invariant
            given == (match payload {
                Some(p) => Some(*p),
                None => None,
            }),
            forall|j: int| 0 <= j < i ==> (#[trigger] conditions@[j]).holds(given) != verdict,
    {
        if conditions[i].eval(payload) == verdict {
            assert(conditions@[i as int].holds(given) == verdict);
            return true;
        }
    }
    false
}

/// A boolean combination of conditions.
#[derive(Debug)]
pub struct Filter {
    /// All must match (AND).
    pub must: Vec<Condition>,
    /// At least one must match if non-empty (OR).
    pub should: Vec<Condition>,
    /// None may match (NOT).
    pub must_not: Vec<Condition>,
}

impl Default for Filter {
    fn default() -> (filter: Filter)
        ensures
            filter.must@.len() == 0,
            filter.should@.len() == 0,
            filter.must_not@.len() == 0,
    {
        Filter { must: Vec::new(), should: Vec::new(), must_not: Vec::new() }
    }
}

impl Filter {
    /// Whether a payload passes the filter.
    pub open spec fn accepts(self, payload: Option<JsonValue>) -> bool {
        &&& all_hold(self.must@, payload)
        &&& !some_holds(self.must_not@, payload)
        &&& self.should@.len() > 0 ==> some_holds(self.should@, payload)
    }

    /// Whether the filter has no conditions (matches everything).
    pub fn is_empty(&self) -> (r: bool)
        ensures
            r == (self.must@.len() == 0 && self.should@.len() == 0 && self.must_not@.len() == 0),
    {
        self.must.len() == 0 && self.should.len() == 0 && self.must_not.len() == 0
    }

    /// Evaluates the filter against an (optional) payload.
    pub fn eval(&self, payload: Option<&Payload>) -> (r: bool)
        ensures
            r == self.accepts(
                match payload {
                    Some(p) => Some(*p),
                    None => None,
                },
            ),
    {
        if any(&self.must, payload, false) {
            return false;
        }
        if any(&self.must_not, payload, true) {
            return false;
        }
        if self.should.len() > 0 && !any(&self.should, payload, true) {
            return false;
        }
        true
    }
}

/// The payload of a point, if it has one.
pub open spec fn payload_of(payloads: Map<u64, Arc<JsonValue>>, id: u64) -> Option<JsonValue> {
    if payloads.contains_key(id) {
        Some(*payloads[id])
    } else {
        None
    }
}

/// A filter plus the payload map to evaluate it against (passed into segment search).
#[derive(Clone, Copy)]
pub struct FilterQuery<'a> {
    /// The filter.
    pub filter: &'a Filter,
    /// The collection's payloads.
    pub payloads: &'a PayloadMap,
}

impl<'a> FilterQuery<'a> {
    /// Whether the point with global id `global` passes the filter.
    pub open spec fn admits_point(&self, global: u64) -> bool {
        self.filter.accepts(payload_of(self.payloads@, global))
    }

    /// Whether the point with global id `global` passes the filter.
    pub fn matches(&self, global: u64) -> (r: bool)
        ensures
            r == self.admits_point(global),
    {
        match self.payloads.get(&global) {
            Some(p) => self.filter.eval(Some(&**p)),
            None => self.filter.eval(None),
        }
    }
}

/// A filter without conditions admits every point, payload or not.
pub proof fn law_empty_filter_admits_all(filter: Filter, payload: Option<JsonValue>)
    requires
        filter.must@.len() == 0,
        filter.should@.len() == 0,
        filter.must_not@.len() == 0,
    ensures
        filter.accepts(payload),
{
}

/// Exact matches are sensitive to the kind of number: an integer matches only integers
/// and a float only floats.
pub proof fn law_integers_never_match_floats(n: JsonNumber, x: OrderedF64)
    requires
        !(n is Float),
    ensures
        !same(JsonValue::Number(n), JsonValue::Number(JsonNumber::Float(x))),
        !same(JsonValue::Number(JsonNumber::Float(x)), JsonValue::Number(n)),
{
}

/// A condition on a field that a payload lacks does not hold, so excluding it with
/// `must_not` excludes nothing.
pub proof fn law_missing_field_meets_nothing(condition: Condition, payload: Option<JsonValue>)
    requires
        payload matches Some(p) ==> field_of(p, condition.key@) is None,
        condition.match_value is Some || condition.range is Some,
    ensures
        !condition.holds(payload),
{
}

} // verus!
