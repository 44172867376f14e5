use bonsai::error::{Complaint, Failure};
use bonsai::json::{
    as_array, as_bool, as_double, as_object, as_signed, as_text, as_unsigned, parse,
};
use bonsai::number::F64;

fn d(x: f64) -> F64 {
    F64 { bits: x.to_bits() }
}

#[test]
fn documents_are_read_in_full() {
    let root = parse(r#"{"b": [1, -2, 0.5, "x"], "a": {"t": true, "n": null}}"#).unwrap();
    let members = as_object(&root).unwrap();
    assert_eq!(members.len(), 2);
    let items = as_array(&root["b"]).unwrap();
    assert_eq!(items.len(), 4);
    let forms = |i: usize| (as_unsigned(&items[i]), as_signed(&items[i]), as_double(&items[i]));
    assert_eq!(forms(0), (Some(1), Some(1), Some(d(1.0))));
    assert_eq!(forms(1), (None, Some(-2), Some(d(-2.0))));
    assert_eq!(forms(2), (None, None, Some(d(0.5))));
    assert_eq!(forms(3), (None, None, None));
    assert_eq!(as_text(&items[3]).map(|s| s.as_str()), Some("x"));
    assert_eq!(as_bool(&root["a"]["t"]), Some(true));
    assert_eq!(as_bool(&root["a"]["n"]), None);
    assert!(as_array(&root["a"]).is_none());
    assert!(as_object(&root["b"]).is_none());
}

#[test]
fn broken_texts_are_rejected() {
    let failure = parse("{").unwrap_err();
    assert!(matches!(failure, Failure::About { complaint: Complaint::InvalidJson, .. }));
    assert_eq!(
        failure.message(),
        "Failed to parse JSON — is this a valid model file?: \
         EOF while parsing an object at line 1 column 1"
    );
}
