use vecvec::jsonl::{read_line, read_text, LineError, RawField, RawJson};
use vecvec::OrderedF64;

fn floats(values: &[OrderedF64]) -> Vec<f64> {
    values.iter().map(|x| f64::from_bits(x.into_inner())).collect()
}

fn field(name: &str, text: &str, items: Option<Vec<Option<u64>>>) -> RawField {
    RawField {
        name: name.to_string(),
        is_null: text == "null",
        text: text.to_string(),
        items,
    }
}

#[test]
fn lines_carry_vectors_and_payloads() {
    let line = RawJson::Object(vec![
        field("payload", "{\"n\":1}", None),
        field("vector", "[0.5,\"7\"]", Some(vec![Some(0.5f64.to_bits()), None])),
    ]);
    let read = read_line(&line).unwrap();
    // What is not a number counts as zero.
    assert_eq!(floats(&read.values), vec![0.5, 0.0]);
    assert_eq!(read.payload.as_deref(), Some("{\"n\":1}"));
}

#[test]
fn a_null_payload_counts_as_none() {
    let vector = || field("vector", "[]", Some(vec![]));
    let line = RawJson::Object(vec![vector(), field("payload", "null", None)]);
    assert!(read_line(&line).unwrap().payload.is_none());
    assert!(read_line(&RawJson::Object(vec![vector()])).unwrap().payload.is_none());
}

#[test]
fn a_line_needs_a_vector_array() {
    let bad = [
        RawJson::Other,
        RawJson::Object(vec![]),
        RawJson::Object(vec![field("vector", "1", None)]),
        RawJson::Object(vec![field("Vector", "[]", Some(vec![]))]),
    ];
    for line in bad {
        assert!(matches!(read_line(&line), Err(LineError::MissingVector)));
    }
}

#[test]
fn text_is_read_line_by_line() {
    let text = "{\"vector\":[1,-2.5,1e2,\"x\",null],\"payload\":{ \"b\" : [1, 2], \"a\":null }}\r\n\
        \n \t\u{3000}\r\n{\"payload\":null,\"vector\":[]}\n{\"vector\":[18446744073709551615]}";
    let read = read_text(text).unwrap();
    assert_eq!(read.len(), 3);
    assert_eq!(floats(&read[0].values), vec![1.0, -2.5, 100.0, 0.0, 0.0]);
    assert_eq!(read[0].payload.as_deref(), Some("{\"a\":null,\"b\":[1,2]}"));
    assert!(read[1].values.is_empty() && read[1].payload.is_none());
    assert_eq!(floats(&read[2].values), vec![18446744073709551615.0]);
    assert!(read_text("").unwrap().is_empty());
    assert!(read_text("\n\r\n \n").unwrap().is_empty());
}

#[test]
fn the_first_bad_line_refuses_the_text() {
    let good = "{\"vector\":[1]}";
    for missing in ["1", "[]", "{}", "{\"vector\":1}", "{\"vector\":[1],\"vector\":2}"] {
        let text = format!("{good}\n{missing}\n{{");
        assert!(matches!(read_text(&text), Err(LineError::MissingVector)));
        let text = format!("{good}\n\n{{\n{missing}");
        assert!(matches!(read_text(&text), Err(LineError::Malformed(_))));
    }
    assert!(matches!(read_text("\u{feff}{\"vector\":[1]}"), Err(LineError::Malformed(_))));
}
