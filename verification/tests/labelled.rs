use hetmap::hlabeledlist::HLabelledMap;
use hetmap::hlabeledlist::LabelledElem;
use hetmap::hlabeledlist::LabelledSlot;
use hetmap::hlabeledlist::MaybeUnfilled;
use hetmap::value::DecodeError;
use hetmap::value::Kind;
use hetmap::value::Value;

fn s(x: &str) -> Value {
    Value::Str(x.to_string())
}

fn slot(label: &str, optional: bool, kind: Kind) -> LabelledSlot {
    LabelledSlot {
        label: label.to_string(),
        optional,
        kind,
    }
}

fn required(label: &str, value: Value) -> LabelledElem {
    LabelledElem::Required {
        label: label.to_string(),
        value,
    }
}

fn optional(label: &str, value: Option<Value>) -> LabelledElem {
    LabelledElem::Optional {
        label: label.to_string(),
        value,
    }
}

#[test]
fn labelled_example_encodes_under_labels() {
    // Encoding {touko: 1} and {aspirin: "a"} yields
    // {"touko":1,"aspirin":"a"}.
    let m = HLabelledMap(vec![
        required("touko", Value::Int(1)),
        required("aspirin", s("a")),
    ]);
    let doc = m.as_ref().serialize();
    assert_eq!(
        doc,
        vec![
            ("touko".to_string(), Value::Int(1)),
            ("aspirin".to_string(), s("a")),
        ]
    );
}

#[test]
fn labelled_example_decodes_with_keys_swapped() {
    // Decoding {"aspirin":"a","touko":1} against the same shape reproduces
    // the original two elements.
    let slots = vec![
        slot("touko", false, Kind::Int),
        slot("aspirin", false, Kind::Str),
    ];
    let doc = vec![
        ("aspirin".to_string(), s("a")),
        ("touko".to_string(), Value::Int(1)),
    ];
    let m = HLabelledMap::deserialize(&slots, &doc).unwrap();
    assert_eq!(
        m.0,
        vec![
            required("touko", Value::Int(1)),
            required("aspirin", s("a")),
        ]
    );
}

#[test]
fn labelled_round_trip() {
    let slots = vec![
        slot("touko", false, Kind::Int),
        slot("aspirin", false, Kind::Str),
        slot("maybe", true, Kind::Bool),
    ];
    let elems = vec![
        required("touko", Value::Int(1)),
        required("aspirin", s("a")),
        optional("maybe", Some(Value::Bool(true))),
    ];
    let doc = HLabelledMap(elems.clone()).as_ref().serialize();
    let m = HLabelledMap::deserialize(&slots, &doc).unwrap();
    assert_eq!(m.0, elems);
}

#[test]
fn labelled_round_trip_keeps_absence() {
    let slots = vec![slot("touko", false, Kind::Int), slot("maybe", true, Kind::Str)];
    let elems = vec![required("touko", Value::Int(7)), optional("maybe", None)];
    let doc = HLabelledMap(elems.clone()).as_ref().serialize();
    assert_eq!(doc, vec![("touko".to_string(), Value::Int(7))]);
    let m = HLabelledMap::deserialize(&slots, &doc).unwrap();
    assert_eq!(m.0, elems);
}

#[test]
fn labelled_decode_tolerates_unknown_keys() {
    let slots = vec![slot("touko", false, Kind::Int)];
    let doc = vec![
        ("stray".to_string(), s("ignored")),
        ("touko".to_string(), Value::Int(1)),
        ("extra".to_string(), Value::Bool(true)),
    ];
    let m = HLabelledMap::deserialize(&slots, &doc).unwrap();
    assert_eq!(m.0, vec![required("touko", Value::Int(1))]);
}

#[test]
fn labelled_decode_reports_missing_label() {
    let slots = vec![
        slot("touko", false, Kind::Int),
        slot("aspirin", false, Kind::Str),
    ];
    let doc = vec![("aspirin".to_string(), s("a"))];
    assert_eq!(
        HLabelledMap::deserialize(&slots, &doc),
        Err(DecodeError::MissingField("touko".to_string()))
    );
}

#[test]
fn labelled_decode_reports_deepest_missing_label() {
    // Conversion walks the tail first, so of two missing required labels the
    // later-declared one is the one reported.
    let slots = vec![
        slot("first", false, Kind::Int),
        slot("second", false, Kind::Int),
    ];
    let doc: Vec<(String, Value)> = vec![];
    assert_eq!(
        HLabelledMap::deserialize(&slots, &doc),
        Err(DecodeError::MissingField("second".to_string()))
    );
}

#[test]
fn labelled_decode_missing_optional_becomes_none() {
    let slots = vec![slot("maybe", true, Kind::Int)];
    let doc: Vec<(String, Value)> = vec![];
    let m = HLabelledMap::deserialize(&slots, &doc).unwrap();
    assert_eq!(m.0, vec![optional("maybe", None)]);
}

#[test]
fn labelled_decode_rejects_wrong_kind() {
    let slots = vec![slot("touko", false, Kind::Int)];
    let doc = vec![("touko".to_string(), s("oops"))];
    assert_eq!(
        HLabelledMap::deserialize(&slots, &doc),
        Err(DecodeError::InvalidValue)
    );
}

#[test]
fn labelled_decode_is_order_independent() {
    let slots = vec![
        slot("touko", false, Kind::Int),
        slot("aspirin", false, Kind::Str),
        slot("maybe", true, Kind::Bool),
    ];
    let doc = vec![
        ("touko".to_string(), Value::Int(1)),
        ("aspirin".to_string(), s("a")),
        ("maybe".to_string(), Value::Bool(false)),
    ];
    let permuted = vec![
        ("maybe".to_string(), Value::Bool(false)),
        ("touko".to_string(), Value::Int(1)),
        ("aspirin".to_string(), s("a")),
    ];
    assert_eq!(
        HLabelledMap::deserialize(&slots, &doc),
        HLabelledMap::deserialize(&slots, &permuted)
    );
}

#[test]
fn labelled_decode_last_write_wins() {
    // Two entries under the same key: the later one overwrites the earlier,
    // no duplicate-key error.
    let slots = vec![slot("touko", false, Kind::Int)];
    let doc = vec![
        ("touko".to_string(), Value::Int(1)),
        ("touko".to_string(), Value::Int(2)),
    ];
    let m = HLabelledMap::deserialize(&slots, &doc).unwrap();
    assert_eq!(m.0, vec![required("touko", Value::Int(2))]);
}

#[test]
fn maybe_unfilled_fill_overwrites() {
    let mut slot: MaybeUnfilled<i64> = MaybeUnfilled::Unfilled;
    slot.fill(4);
    assert_eq!(slot, MaybeUnfilled::Filled(4));
    slot.fill(5);
    assert_eq!(slot, MaybeUnfilled::Filled(5));
}

#[test]
fn maybe_unfilled_try_unwrap() {
    let filled: MaybeUnfilled<i64> = MaybeUnfilled::Filled(3);
    assert_eq!(filled.try_unwrap("f".to_string()), Ok(3));
    let unfilled: MaybeUnfilled<i64> = MaybeUnfilled::Unfilled;
    assert_eq!(
        unfilled.try_unwrap("f".to_string()),
        Err(DecodeError::MissingField("f".to_string()))
    );
}

#[test]
fn maybe_unfilled_into_option() {
    let filled: MaybeUnfilled<i64> = MaybeUnfilled::Filled(3);
    assert_eq!(Option::from(filled), Some(3));
    let unfilled: MaybeUnfilled<i64> = MaybeUnfilled::Unfilled;
    assert_eq!(Option::<i64>::from(unfilled), None);
}

#[test]
fn create_makes_unfilled_shadow() {
    let v = hetmap::hlabeledlist::create::<Value>(3);
    assert_eq!(
        v,
        vec![
            MaybeUnfilled::Unfilled,
            MaybeUnfilled::Unfilled,
            MaybeUnfilled::Unfilled,
        ]
    );
}

#[test]
fn fill_by_name_fills_first_match_and_skips_unknown() {
    let slots = vec![
        slot("touko", false, Kind::Int),
        slot("aspirin", false, Kind::Str),
    ];
    let mut shadow = hetmap::hlabeledlist::create::<Value>(2);
    let r = hetmap::hlabeledlist::fill_by_name(
        &slots,
        &mut shadow,
        &"aspirin".to_string(),
        &s("a"),
    );
    assert_eq!(r, Ok(()));
    assert_eq!(
        shadow,
        vec![MaybeUnfilled::Unfilled, MaybeUnfilled::Filled(s("a"))]
    );
    let r = hetmap::hlabeledlist::fill_by_name(
        &slots,
        &mut shadow,
        &"stray".to_string(),
        &Value::Bool(true),
    );
    assert_eq!(r, Ok(()));
    assert_eq!(
        shadow,
        vec![MaybeUnfilled::Unfilled, MaybeUnfilled::Filled(s("a"))]
    );
    let r = hetmap::hlabeledlist::fill_by_name(
        &slots,
        &mut shadow,
        &"touko".to_string(),
        &s("wrong kind"),
    );
    assert_eq!(r, Err(DecodeError::InvalidValue));
}

#[test]
fn convert_fills_and_reports() {
    let slots = vec![
        slot("touko", false, Kind::Int),
        slot("maybe", true, Kind::Str),
    ];
    let mut shadow = vec![MaybeUnfilled::Filled(Value::Int(3)), MaybeUnfilled::Unfilled];
    let r = hetmap::hlabeledlist::convert(&slots, &mut shadow);
    assert_eq!(
        r,
        Ok(vec![required("touko", Value::Int(3)), optional("maybe", None)])
    );
    let mut unfilled = hetmap::hlabeledlist::create::<Value>(2);
    let r = hetmap::hlabeledlist::convert(&slots, &mut unfilled);
    assert_eq!(r, Err(DecodeError::MissingField("touko".to_string())));
}

#[test]
fn labelled_default_is_empty() {
    let m: HLabelledMap<Vec<LabelledElem>> = HLabelledMap::default();
    assert_eq!(m.as_ref().serialize(), vec![]);
    let decoded = HLabelledMap::deserialize(&vec![], &vec![]).unwrap();
    assert_eq!(decoded, m);
}
