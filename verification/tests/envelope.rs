use std::fmt;

use argus_polymarket_db::envelope;
use serde::de::{Deserialize, Deserializer, Error, MapAccess, Visitor};
use serde_json::Value;

/// The frame of a request, as serde reads it field by field.
struct Envelope;

struct EnvelopeVisitor;

impl<'de> Visitor<'de> for EnvelopeVisitor {
    type Value = Envelope;

    fn expecting(&self, formatter: &mut fmt::Formatter<'_>) -> fmt::Result {
        formatter.write_str("struct Envelope")
    }

    fn visit_map<A: MapAccess<'de>>(self, mut map: A) -> Result<Envelope, A::Error> {
        let mut id: Option<Value> = None;
        let mut op: Option<String> = None;
        while let Some(key) = map.next_key::<String>()? {
            match key.as_str() {
                "id" => {
                    if id.is_some() {
                        return Err(Error::duplicate_field("id"));
                    }
                    id = Some(map.next_value()?);
                }
                "op" => {
                    if op.is_some() {
                        return Err(Error::duplicate_field("op"));
                    }
                    op = Some(map.next_value()?);
                }
                _ => {
                    map.next_value::<Value>()?;
                }
            }
        }
        match op {
            Some(_) => Ok(Envelope),
            None => Err(Error::missing_field("op")),
        }
    }
}

impl<'de> Deserialize<'de> for Envelope {
    fn deserialize<D: Deserializer<'de>>(deserializer: D) -> Result<Envelope, D::Error> {
        deserializer.deserialize_map(EnvelopeVisitor)
    }
}

fn agrees_with_serde(line: &str) {
    let expected = serde_json::from_str::<Envelope>(line).err().map(|e| e.to_string());
    let got = envelope::read_request(line).err();
    assert_eq!(got, expected, "{line:?}");
}

fn refusal(line: &str) -> String {
    envelope::read_request(line).err().unwrap()
}

const SAMPLES: [&str; 14] = [
    r#"{"op":"a"}"#,
    r#" { "id" : 7 , "op" : "a" , "x" : [1,{"y":null}] } "#,
    r#"{"op":"a","op":"b"}"#,
    r#"{"id":[1],"op":"a","id":"\"}"}"#,
    r#"{"op":-1.5e+3,"x":1}"#,
    r#"{"op":{"a":1}}"#,
    r#"{"op":["a"]}"#,
    r#"{"op":null}"#,
    r#"{"op":"a","op":"b"}"#,
    r#"{"x":"é","opé":true,"id":false}"#,
    "{\n\"x\":1,\n\n \"op\":tru",
    r#"[{"op":"a"}]"#,
    r#""op \" é""#,
    r#"-12.5e-1"#,
];

#[test]
fn faults_are_told_as_serde_tells_them() {
    for line in SAMPLES {
        agrees_with_serde(line);
        for (i, c) in line.char_indices() {
            agrees_with_serde(&line[..i]);
            agrees_with_serde(&line[i..]);
            let rest = &line[i + c.len_utf8()..];
            agrees_with_serde(&format!("{}{rest}", &line[..i]));
            for other in ["{", "}", "[", "]", "\"", ",", ":", "\\", "5", "-", ".", "e", "x", "t", " ", "\n"] {
                agrees_with_serde(&format!("{}{other}{rest}", &line[..i]));
                agrees_with_serde(&format!("{}{other}{}", &line[..i], &line[i..]));
            }
        }
    }
    for line in ["", "  ", "null", "true", "falsex", "nul", "5x", "01", "1.", "1e", "1e999", "{}", "{ }", "{,}"] {
        agrees_with_serde(line);
        agrees_with_serde(&format!("{{\"op\":{line}"));
        agrees_with_serde(&format!("{{\"op\":{line}}}"));
        agrees_with_serde(&format!("{{\"id\":{line},\"op\":1}}"));
        agrees_with_serde(&format!("{line} {{\"op\":\"a\"}}"));
    }
}

#[test]
fn nesting_counts_from_the_line() {
    for depth in [1, 125, 126, 127, 128, 129] {
        let value = format!("{}{}", "[".repeat(depth), "]".repeat(depth));
        agrees_with_serde(&value);
        agrees_with_serde(&format!("{{\"x\":{value}}}"));
        agrees_with_serde(&format!("{{\"x\":{value},\"op\":1}}"));
        agrees_with_serde(&format!("{{\"op\":\"a\",\"id\":{value},\"id\":1}}"));
    }
}

#[test]
fn a_frame_names_its_fields_once() {
    assert_eq!(refusal(r#"{"op":"a","op":"b"}"#), "duplicate field `op` at line 1 column 14");
    assert_eq!(refusal(r#"{"id":1,"id":2,"op":"a"}"#), "duplicate field `id` at line 1 column 12");
    assert_eq!(refusal(r#"{"id":1}"#), "missing field `op` at line 1 column 8");
    assert_eq!(
        refusal("{\"x\":1,\n\"op\":5}"),
        "invalid type: integer `5`, expected a string at line 2 column 6"
    );
    assert_eq!(refusal("[1]"), "invalid type: sequence, expected struct Envelope at line 1 column 0");
    assert_eq!(
        refusal("\"a\""),
        "invalid type: string \"a\", expected struct Envelope at line 1 column 3"
    );
    // Any other key may occur twice; the last value counts.
    let request = envelope::read_request(r#"{"op":"a","x":1,"x":2}"#).unwrap();
    assert_eq!(request.get_u64("x"), Some(2));
}
