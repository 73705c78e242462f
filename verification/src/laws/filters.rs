//! What filters, conditions and JSON equality mean.

use vstd::prelude::*;

use crate::ordered::OrderedF64;
use crate::payload;
use crate::payload::Condition;
use crate::payload::Field;
use crate::payload::Filter;
use crate::payload::JsonNumber;
use crate::payload::JsonValue;
use crate::payload::Range;

verus! {

/// A payload passes a filter exactly if it meets every `must` condition, no `must_not`
/// condition and, where there are `should` conditions, at least one of them.
pub proof fn law_filter_combines_its_conditions(filter: Filter, payload: Option<JsonValue>)
    ensures
        filter.accepts(payload) <==> {
            &&& forall|i: int|
                0 <= i < filter.must@.len() ==> (#[trigger] filter.must@[i]).holds(payload)
            &&& forall|i: int|
                0 <= i < filter.must_not@.len() ==> !(#[trigger] filter.must_not@[i]).holds(payload)
            &&& filter.should@.len() == 0 || exists|i: int|
                0 <= i < filter.should@.len() && (#[trigger] filter.should@[i]).holds(payload)
        },
{
    if !payload::some_holds(filter.must_not@, payload) {
        assert forall|i: int| 0 <= i < filter.must_not@.len() implies !(
        #[trigger] filter.must_not@[i]).holds(payload) by {}
    }
}

/// A payload that meets none of the conditions of a non-empty `should` is rejected, whatever
/// else the filter asks for.
pub proof fn law_should_is_never_passed_over(filter: Filter, payload: Option<JsonValue>)
    requires
        filter.should@.len() > 0,
        forall|i: int|
            0 <= i < filter.should@.len() ==> !(#[trigger] filter.should@[i]).holds(payload),
    ensures
        !filter.accepts(payload),
{
    law_filter_combines_its_conditions(filter, payload);
}

/// A `must` condition that fails, and a `must_not` condition that holds, each reject a
/// payload.
pub proof fn law_must_and_must_not_reject(filter: Filter, payload: Option<JsonValue>, i: int)
    ensures
        0 <= i < filter.must@.len() && !filter.must@[i].holds(payload) ==> !filter.accepts(payload),
        0 <= i < filter.must_not@.len() && filter.must_not@[i].holds(payload) ==> !filter.accepts(
            payload,
        ),
{
    law_filter_combines_its_conditions(filter, payload);
}

/// Two filters with the same conditions, in whatever order and however often, accept the
/// same payloads.
pub proof fn law_order_of_conditions_does_not_count(
    a: Filter,
    b: Filter,
    payload: Option<JsonValue>,
)
    requires
        forall|c: Condition| #[trigger] a.must@.contains(c) <==> b.must@.contains(c),
        forall|c: Condition| #[trigger] a.must_not@.contains(c) <==> b.must_not@.contains(c),
        forall|c: Condition| #[trigger] a.should@.contains(c) <==> b.should@.contains(c),
    ensures
        a.accepts(payload) == b.accepts(payload),
{
    if a.accepts(payload) {
        lemma_accepts_same(a, b, payload);
    }
    if b.accepts(payload) {
        lemma_accepts_same(b, a, payload);
    }
}

proof fn lemma_accepts_same(a: Filter, b: Filter, payload: Option<JsonValue>)
    requires
        forall|c: Condition| #[trigger] a.must@.contains(c) <==> b.must@.contains(c),
        forall|c: Condition| #[trigger] a.must_not@.contains(c) <==> b.must_not@.contains(c),
        forall|c: Condition| #[trigger] a.should@.contains(c) <==> b.should@.contains(c),
        a.accepts(payload),
    ensures
        b.accepts(payload),
{
    law_filter_combines_its_conditions(a, payload);
    law_filter_combines_its_conditions(b, payload);
    assert forall|i: int| 0 <= i < b.must@.len() implies (#[trigger] b.must@[i]).holds(payload) by {
        assert(b.must@.contains(b.must@[i]));
        assert(a.must@.contains(b.must@[i]));
        let j = a.must@.index_of(b.must@[i]);
        assert(a.must@[j].holds(payload));
    }
    assert forall|i: int| 0 <= i < b.must_not@.len() implies !(#[trigger] b.must_not@[i]).holds(
        payload,
    ) by {
        assert(b.must_not@.contains(b.must_not@[i]));
        assert(a.must_not@.contains(b.must_not@[i]));
        let j = a.must_not@.index_of(b.must_not@[i]);
        assert(!a.must_not@[j].holds(payload));
    }
    if b.should@.len() > 0 {
        assert(b.should@.contains(b.should@[0]));
        assert(a.should@.contains(b.should@[0]));
        let i = choose|i: int|
            0 <= i < a.should@.len() && (#[trigger] a.should@[i]).holds(payload);
        assert(a.should@.contains(a.should@[i]));
        let j = b.should@.index_of(a.should@[i]);
        assert(b.should@[j].holds(payload));
    }
}

/// A condition looks at the field it names: an exact match needs an equal value, a range
/// needs a number within it, and a condition that asks for both needs both.
pub proof fn law_condition_reads_its_field(condition: Condition, fields: Vec<Field>, i: int)
    requires
        0 <= i < fields@.len(),
        fields@[i].name@ == condition.key@,
        forall|j: int| 0 <= j < i ==> (#[trigger] fields@[j]).name@ != condition.key@,
    ensures
        condition.holds(Some(JsonValue::Object(fields))) <==> {
            &&& condition.match_value matches Some(expected) ==> payload::same(
                fields@[i].value,
                expected,
            )
            &&& condition.range matches Some(range) ==> (payload::float_of(
                fields@[i].value,
            ) matches Some(n) && range.holds(n))
        },
{
    lemma_first_place(fields@, condition.key@, i, fields@.len());
}

proof fn lemma_first_place(fields: Seq<Field>, name: Seq<char>, i: int, n: nat)
    requires
        0 <= i < n <= fields.len(),
        fields[i].name@ == name,
        forall|j: int| 0 <= j < i ==> (#[trigger] fields[j]).name@ != name,
    ensures
        payload::field_place(fields, name, n) == Some(i),
    decreases n,
{
    if i < n - 1 {
        lemma_first_place(fields, name, i, (n - 1) as nat);
    } else {
        payload::lemma_field_place(fields, name, (n - 1) as nat);
    }
}

/// A condition on a field that is not there holds only if it asks for nothing: where there
/// is no payload, the payload is no object, or the object has no such field.
pub proof fn law_absent_field_meets_no_condition(condition: Condition, payload: Option<JsonValue>)
    requires
        payload matches Some(p) ==> (p matches JsonValue::Object(fields) ==> forall|j: int|
            0 <= j < fields@.len() ==> (#[trigger] fields@[j]).name@ != condition.key@),
    ensures
        condition.holds(payload) <==> condition.match_value is None && condition.range is None,
{
    if let Some(JsonValue::Object(fields)) = payload {
        payload::lemma_field_place(fields@, condition.key@, fields@.len());
    }
}

/// A number is in a range exactly if it is above `gt`, at least `gte`, below `lt` and at
/// most `lte`, as far as each is given.
pub proof fn law_range_is_between_its_bounds(range: Range, n: OrderedF64)
    ensures
        range.holds(n) <==> {
            &&& range.gt matches Some(b) ==> b.numerically_below(n)
            &&& range.gte matches Some(b) ==> b.numerically_below(n) || b.numerically_equal(n)
            &&& range.lt matches Some(b) ==> n.numerically_below(b)
            &&& range.lte matches Some(b) ==> n.numerically_below(b) || n.numerically_equal(b)
        },
{
}

/// A bound that a number meets is met by every number further on the same side, and the
/// strict bounds exclude the bound itself.
pub proof fn law_range_bounds_have_a_side(range: Range, a: OrderedF64, b: OrderedF64)
    requires
        a.numerically_below(b),
    ensures
        range.lt is None && range.lte is None && range.holds(a) ==> range.holds(b),
        range.gt is None && range.gte is None && range.holds(b) ==> range.holds(a),
        range.gt == Some(a) ==> !range.holds(a),
        range.lt == Some(a) ==> !range.holds(a) && !range.holds(b),
        range.gte == Some(b) ==> !range.holds(a),
        range.lte == Some(a) ==> !range.holds(b),
        (Range { gt: None, gte: Some(a), lt: None, lte: Some(a) }).holds(a),
{
}

/// JSON values of different kinds are different; booleans, texts and integers are equal
/// exactly if they are the same; floats if they are numerically equal.
pub proof fn law_json_equality_of_leaves(a: JsonValue, b: JsonValue)
    ensures
        payload::same(a, b) ==> {
            ||| a is Null && b is Null
            ||| a is Bool && b is Bool
            ||| a is Number && b is Number
            ||| a is Text && b is Text
            ||| a is Array && b is Array
            ||| a is Object && b is Object
        },
        a is Null && b is Null ==> payload::same(a, b),
        a is Bool && b is Bool ==> payload::same(a, b) == (a->Bool_0 == b->Bool_0),
        a is Text && b is Text ==> payload::same(a, b) == (a->Text_0@ == b->Text_0@),
        a is Number && b is Number ==> payload::same(a, b) == match (a->Number_0, b->Number_0) {
            (JsonNumber::PosInt(x), JsonNumber::PosInt(y)) => x == y,
            (JsonNumber::NegInt(x), JsonNumber::NegInt(y)) => x == y,
            (JsonNumber::Float(x), JsonNumber::Float(y)) => x.numerically_equal(y),
            _ => false,
        },
{
}

/// Arrays are equal exactly if they have as many items and each equals its counterpart.
pub proof fn law_json_equality_of_arrays(xs: Vec<JsonValue>, ys: Vec<JsonValue>)
    ensures
        payload::same(JsonValue::Array(xs), JsonValue::Array(ys)) <==> {
            &&& xs@.len() == ys@.len()
            &&& forall|i: int| 0 <= i < xs@.len() ==> payload::same(#[trigger] xs@[i], ys@[i])
        },
{
    lemma_same_items(xs@, ys@, xs@.len());
}

proof fn lemma_same_items(xs: Seq<JsonValue>, ys: Seq<JsonValue>, n: nat)
    requires
        n <= xs.len(),
    ensures
        payload::same_items(xs, ys, n) <==> forall|i: int|
            0 <= i < n ==> payload::same(#[trigger] xs[i], ys[i]),
    decreases n,
{
    if n > 0 {
        lemma_same_items(xs, ys, (n - 1) as nat);
        if forall|i: int| 0 <= i < n ==> payload::same(#[trigger] xs[i], ys[i]) {
            assert(payload::same(xs[n - 1], ys[n - 1]));
        }
    }
}

/// Objects whose own fields have different names are equal exactly if they have as many
/// fields and each has an equal namesake in the other, wherever it stands.
pub proof fn law_json_equality_of_objects(xs: Vec<Field>, ys: Vec<Field>)
    requires
        forall|i: int, j: int|
            0 <= i < j < ys@.len() ==> (#[trigger] ys@[i]).name@ != (#[trigger] ys@[j]).name@,
    ensures
        payload::same(JsonValue::Object(xs), JsonValue::Object(ys)) <==> {
            &&& xs@.len() == ys@.len()
            &&& forall|i: int|
                0 <= i < xs@.len() ==> exists|j: int|
                    0 <= j < ys@.len() && (#[trigger] ys@[j]).name@ == (#[trigger] xs@[i]).name@
                        && payload::same(xs@[i].value, ys@[j].value)
        },
{
    lemma_same_fields(xs@, ys@, xs@.len());
}

proof fn lemma_same_fields(xs: Seq<Field>, ys: Seq<Field>, n: nat)
    requires
        n <= xs.len(),
        forall|i: int, j: int|
            0 <= i < j < ys.len() ==> (#[trigger] ys[i]).name@ != (#[trigger] ys[j]).name@,
    ensures
        payload::same_fields(xs, ys, n) <==> forall|i: int|
            0 <= i < n ==> exists|j: int|
                0 <= j < ys.len() && (#[trigger] ys[j]).name@ == (#[trigger] xs[i]).name@
                    && payload::same(xs[i].value, ys[j].value),
    decreases n,
{
    if n > 0 {
        lemma_same_fields(xs, ys, (n - 1) as nat);
        let x = xs[n - 1];
        payload::lemma_field_place(ys, x.name@, ys.len());
        if payload::same_fields(xs, ys, n) {
            let j = payload::field_place(ys, x.name@, ys.len())->0;
            assert(ys[j].name@ == x.name@);
        }
        if forall|i: int|
            0 <= i < n ==> exists|j: int|
                0 <= j < ys.len() && (#[trigger] ys[j]).name@ == (#[trigger] xs[i]).name@
                    && payload::same(xs[i].value, ys[j].value) {
            assert(xs[n - 1].name@ == x.name@);
            let j = choose|j: int|
                0 <= j < ys.len() && (#[trigger] ys[j]).name@ == x.name@ && payload::same(
                    x.value,
                    ys[j].value,
                );
            lemma_first_place(ys, x.name@, j, ys.len());
        }
    }
}

} // verus!
