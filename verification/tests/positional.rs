use hetmap::hmap::into_reverse;
use hetmap::hmap::HMap;
use hetmap::hmap::PairShape;
use hetmap::hmap::PosSlot;
use hetmap::value::DecodeError;
use hetmap::value::Kind;
use hetmap::value::Value;

fn s(x: &str) -> Value {
    Value::Str(x.to_string())
}

fn shape(key: Kind, value: Kind) -> PairShape {
    PairShape { key, value }
}

#[test]
fn positional_example_encodes_in_order() {
    // Encoding [("k1","v1"), ("k2", 5)] yields the document
    // {"k1":"v1","k2":5}, one entry per pair, in sequence order.
    let m = HMap(vec![
        PosSlot::Pair(s("k1"), s("v1")),
        PosSlot::Pair(s("k2"), Value::Int(5)),
    ]);
    let doc = m.as_ref().serialize();
    assert_eq!(
        doc,
        vec![(s("k1"), s("v1")), (s("k2"), Value::Int(5))]
    );
}

#[test]
fn positional_example_round_trips() {
    let slots = vec![
        PosSlot::Pair(s("k1"), s("v1")),
        PosSlot::Pair(s("k2"), Value::Int(5)),
    ];
    let m = HMap(vec![
        PosSlot::Pair(s("k1"), s("v1")),
        PosSlot::Pair(s("k2"), Value::Int(5)),
    ]);
    let doc = m.as_ref().serialize();
    let shapes = vec![shape(Kind::Str, Kind::Str), shape(Kind::Str, Kind::Int)];
    let back = HMap::deserialize(&shapes, &doc).unwrap();
    assert_eq!(back.0, slots);
}

#[test]
fn positional_optional_pairs_written_only_when_present() {
    let m = HMap(vec![
        PosSlot::Pair(Value::Int(1), s("2")),
        PosSlot::OptPair(None),
        PosSlot::OptPair(Some((Value::Int(4), Value::Int(5)))),
    ]);
    let doc = m.as_ref().serialize();
    assert_eq!(
        doc,
        vec![
            (Value::Int(1), s("2")),
            (Value::Int(4), Value::Int(5)),
        ]
    );
}

#[test]
fn positional_decode_is_order_dependent() {
    // Permuting entries changes which slot receives which value: entry i
    // lands in slot i, never looked up by key.
    let doc = vec![(s("a"), Value::Int(1)), (s("b"), Value::Int(2))];
    let permuted = vec![(s("b"), Value::Int(2)), (s("a"), Value::Int(1))];
    let shapes = vec![shape(Kind::Str, Kind::Int), shape(Kind::Str, Kind::Int)];
    let d1 = HMap::deserialize(&shapes, &doc).unwrap();
    let d2 = HMap::deserialize(&shapes, &permuted).unwrap();
    assert_ne!(d1, d2);
    assert_eq!(d1.0[0], PosSlot::Pair(s("a"), Value::Int(1)));
    assert_eq!(d2.0[0], PosSlot::Pair(s("b"), Value::Int(2)));
}

#[test]
fn positional_decode_rejects_wrong_kind() {
    let doc = vec![(s("a"), Value::Int(1))];
    let shapes = vec![shape(Kind::Str, Kind::Str)];
    assert_eq!(
        HMap::deserialize(&shapes, &doc),
        Err(DecodeError::InvalidValue)
    );
}

#[test]
fn positional_decode_ignores_entries_past_the_slots() {
    let doc = vec![(s("a"), Value::Int(1)), (s("b"), Value::Int(2))];
    let shapes = vec![shape(Kind::Str, Kind::Int)];
    let m = HMap::deserialize(&shapes, &doc).unwrap();
    assert_eq!(m.0, vec![PosSlot::Pair(s("a"), Value::Int(1))]);
}

#[test]
fn positional_serialize_map_appends() {
    let m = HMap(vec![PosSlot::Pair(Value::Bool(true), Value::Int(0))]);
    let mut out = vec![(s("head"), Value::Int(9))];
    m.as_ref().serialize_map(&mut out);
    assert_eq!(
        out,
        vec![
            (s("head"), Value::Int(9)),
            (Value::Bool(true), Value::Int(0)),
        ]
    );
}

#[test]
fn into_reverse_reverses() {
    let v = vec![
        PosSlot::Pair(Value::Int(1), Value::Int(2)),
        PosSlot::Pair(Value::Int(3), Value::Int(4)),
        PosSlot::OptPair(None),
    ];
    let r = into_reverse(v);
    assert_eq!(
        r,
        vec![
            PosSlot::OptPair(None),
            PosSlot::Pair(Value::Int(3), Value::Int(4)),
            PosSlot::Pair(Value::Int(1), Value::Int(2)),
        ]
    );
}

#[test]
fn value_kinds() {
    assert_eq!(Value::Int(3).kind(), Kind::Int);
    assert_eq!(s("x").kind(), Kind::Str);
    assert_eq!(Value::Bool(false).kind(), Kind::Bool);
    assert_eq!(Value::Int(3).dup(), Value::Int(3));
    assert_eq!(s("abc").dup(), s("abc"));
}

#[test]
fn positional_default_is_empty() {
    let m: HMap<Vec<PosSlot>> = HMap::default();
    assert_eq!(m.as_ref().serialize(), vec![]);
    let decoded = HMap::deserialize(&vec![], &vec![]).unwrap();
    assert_eq!(decoded, m);
}
