//! Positional heterogeneous map: entries are written in sequence order and
//! read back by position, never by key.

use vstd::prelude::*;

use crate::value::DecodeError;
use crate::value::Kind;
use crate::value::Value;

verus! {

/// One slot of a positional sequence: a key/value pair of its own, or an
/// optional pair that is written only when present.
#[derive(Debug, Clone, PartialEq, Eq)]
pub enum PosSlot {
    Pair(Value, Value),
    OptPair(Option<(Value, Value)>),
}

/// The kinds a positional slot expects of its key and of its value.
#[derive(Debug, Clone, Copy, PartialEq, Eq, Structural)]
pub struct PairShape {
    pub key: Kind,
    pub value: Kind,
}

/// A positional heterogeneous map wrapping the sequence it owns.
#[derive(Debug, PartialEq, Eq)]
pub struct HMap<T>(pub T);

impl<T> HMap<T> {
    /// Borrow the inner sequence for one encoding pass.
    pub fn as_ref(&self) -> (r: HMapRef<'_, T>)
        ensures
            *r.0 == self.0,
    {
        HMapRef(&self.0)
    }
}

/// A borrow of a positional map, alive for a single encoding call.
#[derive(Debug)]
pub struct HMapRef<'a, T>(pub &'a T);

impl Default for HMap<Vec<PosSlot>> {
    /// The empty positional map.
    fn default() -> (r: Self)
        ensures
            r.0@ == Seq::<PosSlot>::empty(),
    {
        HMap(Vec::new())
    }
}

/// The document a positional sequence encodes to: one entry per present
/// pair, in sequence order.
pub open spec fn pos_entries(slots: Seq<PosSlot>) -> Seq<(Value, Value)>
    decreases slots.len(),
{
    if slots.len() == 0 {
        Seq::empty()
    } else {
        pos_entries(slots.drop_last()) + (match slots.last() {
            PosSlot::Pair(k, v) => seq![(k, v)],
            PosSlot::OptPair(Some((k, v))) => seq![(k, v)],
            PosSlot::OptPair(None) => Seq::empty(),
        })
    }
}

impl<'a> HMapRef<'a, Vec<PosSlot>> {
    /// Append one document entry per present pair, in sequence order.
    pub fn serialize_map(&self, out: &mut Vec<(Value, Value)>)
        ensures
            final (out)@ == old(out)@ + pos_entries(self.0@),
    {
        let slots = self.0;
        let n = slots.len();
        let mut idx: usize = 0;
        while idx < n
            invariant
                idx <= n,
                n == slots@.len(),
                out@ == old(out)@ + pos_entries(slots@.take(idx as int)),
            decreases n - idx,
        {
            match &slots[idx] {
                PosSlot::Pair(k, v) => {
                    out.push((k.dup(), v.dup()));
                },
                PosSlot::OptPair(Some((k, v))) => {
                    out.push((k.dup(), v.dup()));
                },
                PosSlot::OptPair(None) => {},
            }
            proof {
                assert(slots@.take(idx as int + 1).drop_last() =~= slots@.take(idx as int));
                assert(slots@.take(idx as int + 1).last() == slots@[idx as int]);
            }
            idx += 1;
        }
        proof {
            assert(slots@.take(n as int) =~= slots@);
        }
    }

    /// Encode the whole sequence as a fresh document.
    pub fn serialize(&self) -> (doc: Vec<(Value, Value)>)
        ensures
            doc@ == pos_entries(self.0@),
    {
        let mut doc: Vec<(Value, Value)> = Vec::new();
        self.serialize_map(&mut doc);
        proof {
            assert(Seq::<(Value, Value)>::empty() + pos_entries(self.0@) =~= pos_entries(
                self.0@,
            ));
        }
        doc
    }
}

/// Whether one document entry carries the kinds one slot expects.
pub open spec fn pair_fits(entry: (Value, Value), shape: PairShape) -> bool {
    entry.0.kind_spec() == shape.key && entry.1.kind_spec() == shape.value
}

/// Whether the first `shape.len()` document entries all fit their slots.
pub open spec fn pos_shape_ok(shape: Seq<PairShape>, doc: Seq<(Value, Value)>) -> bool {
    forall|i: int| 0 <= i < shape.len() ==> #[trigger] pair_fits(doc[i], shape[i])
}

/// What positional decoding yields: entry `i` of the document lands in slot
/// `i`, so entry order alone decides which slot receives which value.
pub open spec fn pos_decoded(shape: Seq<PairShape>, doc: Seq<(Value, Value)>) -> Result<
    Seq<PosSlot>,
    DecodeError,
> {
    if pos_shape_ok(shape, doc) {
        Ok(Seq::new(shape.len(), |i: int| PosSlot::Pair(doc[i].0, doc[i].1)))
    } else {
        Err(DecodeError::InvalidValue)
    }
}

/// Reverse a sequence in place, handing back the same elements in the
/// opposite order.
pub fn into_reverse<T>(v: Vec<T>) -> (r: Vec<T>)
    ensures
        r@ == v@.reverse(),
{
    let ghost v0 = v@;
    let mut v = v;
    let mut r: Vec<T> = Vec::new();
    while v.len() > 0
        invariant
            v@ == v0.take(v@.len() as int),
            r@.len() + v@.len() == v0.len(),
            forall|j: int| 0 <= j < r@.len() ==> r@[j] == v0[v0.len() - 1 - j],
        decreases v@.len(),
    {
        let x = v.pop().unwrap();
        r.push(x);
    }
    proof {
        assert(r@ =~= v0.reverse());
    }
    r
}

impl HMap<Vec<PosSlot>> {
    /// Decode exactly `shape.len()` entries of the document, assigning them
    /// to slots in document order and reversing the prepend-built
    /// accumulation once to restore declaration order.
    ///
    /// A document holding fewer entries than there are slots is an
    /// unexpected end of input: the format reader aborts there instead of
    /// returning an error, so such documents are outside this contract.
    /// Decoding knows no optional slots — each slot takes exactly one entry.
    pub fn deserialize(shape: &Vec<PairShape>, doc: &Vec<(Value, Value)>) -> (r: Result<
        HMap<Vec<PosSlot>>,
        DecodeError,
    >)
        requires
            doc@.len() >= shape@.len(),
        ensures
            match (r, pos_decoded(shape@, doc@)) {
                (Ok(m), Ok(s)) => m.0@ == s,
                (Err(e1), Err(e2)) => e1 == e2,
                _ => false,
            },
    {
        let n = shape.len();
        let mut rev: Vec<PosSlot> = Vec::new();
        let mut idx: usize = 0;
        while idx < n
            invariant
                idx <= n,
                n == shape@.len(),
                doc@.len() >= shape@.len(),
                rev@.len() == idx,
                forall|j: int|
                    0 <= j < idx ==> rev@[j] == PosSlot::Pair(
                        doc@[idx - 1 - j].0,
                        doc@[idx - 1 - j].1,
                    ),
                forall|i: int| 0 <= i < idx ==> #[trigger] pair_fits(doc@[i], shape@[i]),
            decreases n - idx,
        {
            let entry = &doc[idx];
            if !(entry.0.kind() == shape[idx].key && entry.1.kind() == shape[idx].value) {
                proof {
                    assert(!pair_fits(doc@[idx as int], shape@[idx as int]));
                }
                return Err(DecodeError::InvalidValue);
            }
            rev.insert(0, PosSlot::Pair(entry.0.dup(), entry.1.dup()));
            idx += 1;
        }
        let out = into_reverse(rev);
        proof {
            assert(pos_shape_ok(shape@, doc@));
            assert(out@ =~= Seq::new(shape@.len(), |i: int| PosSlot::Pair(doc@[i].0, doc@[i].1)));
        }
        Ok(HMap(out))
    }
}

/// Whether every slot is a plain pair — the only shape positional decoding
/// can produce, since it has no optional-slot counterpart.
pub open spec fn all_pairs(slots: Seq<PosSlot>) -> bool {
    forall|i: int| 0 <= i < slots.len() ==> slots[i] is Pair
}

/// The pair a present slot carries.
pub open spec fn pair_of(slot: PosSlot) -> (Value, Value)
    recommends
        !(slot matches PosSlot::OptPair(None)),
{
    match slot {
        PosSlot::Pair(k, v) => (k, v),
        PosSlot::OptPair(Some((k, v))) => (k, v),
        PosSlot::OptPair(None) => (Value::Bool(false), Value::Bool(false)),
    }
}

/// With every slot a plain pair, encoding writes exactly one entry per slot,
/// in slot order.
pub proof fn lemma_pos_entries_all_pairs(slots: Seq<PosSlot>)
    requires
        all_pairs(slots),
    ensures
        pos_entries(slots) == Seq::new(slots.len(), |i: int| pair_of(slots[i])),
    decreases slots.len(),
{
    if slots.len() == 0 {
        assert(pos_entries(slots) =~= Seq::new(slots.len(), |i: int| pair_of(slots[i])));
    } else {
        lemma_pos_entries_all_pairs(slots.drop_last());
        assert(slots.last() is Pair);
        assert(pos_entries(slots) =~= Seq::new(slots.len(), |i: int| pair_of(slots[i])));
    }
}

/// Round-trip law for the positional map: a sequence of plain pairs, encoded
/// and decoded back under its own shape, comes back unchanged. Sequences
/// with optional slots are outside the law: decoding has no optional slots,
/// an asymmetry with the encode path that is kept as it stands.
pub proof fn lemma_positional_round_trip(slots: Seq<PosSlot>, shape: Seq<PairShape>)
    requires
        all_pairs(slots),
        shape.len() == slots.len(),
        forall|i: int|
            0 <= i < slots.len() ==> #[trigger] pair_fits(pair_of(slots[i]), shape[i]),
    ensures
        pos_decoded(shape, pos_entries(slots)) == Ok::<Seq<PosSlot>, DecodeError>(slots),
{
    lemma_pos_entries_all_pairs(slots);
    let doc = pos_entries(slots);
    assert(pos_shape_ok(shape, doc));
    assert(Seq::new(shape.len(), |i: int| PosSlot::Pair(doc[i].0, doc[i].1)) =~= slots);
}

} // verus!
