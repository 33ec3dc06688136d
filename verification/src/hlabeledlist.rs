//! Labelled heterogeneous map: each slot's document key is a label fixed per
//! slot, decoding scans keys by label, tolerates unknown keys and reports the
//! label of a required slot that stays unfilled.

use vstd::prelude::*;

use crate::value::DecodeError;
use crate::value::Kind;
use crate::value::Value;

verus! {

/// A type-associated document key: implementors fix, once and for all values
/// of the type, the label under which a value of theirs travels.
pub trait Labelled {
    /// The label as the specification sees it.
    spec fn spec_key() -> Seq<char>;

    /// The label as a running program reads it.
    fn key() -> (r: &'static str)
        ensures
            r@ == Self::spec_key(),
    ;
}

/// What labelled decoding must know of one slot: its label, whether the slot
/// may stay empty, and which kind of value it takes.
#[derive(Debug, Clone)]
pub struct LabelledSlot {
    pub label: String,
    pub optional: bool,
    pub kind: Kind,
}

/// One element of a labelled sequence: a value under its slot's label, either
/// required or optional.
#[derive(Debug, Clone, PartialEq, Eq)]
pub enum LabelledElem {
    Required { label: String, value: Value },
    Optional { label: String, value: Option<Value> },
}

/// A labelled heterogeneous map wrapping the sequence it owns.
#[derive(Debug, PartialEq, Eq)]
pub struct HLabelledMap<T>(pub T);

impl<T> HLabelledMap<T> {
    /// Borrow the inner sequence for one encoding pass.
    pub fn as_ref(&self) -> (r: HLabelledMapRef<'_, T>)
        ensures
            *r.0 == self.0,
    {
        HLabelledMapRef(&self.0)
    }
}

/// A borrow of a labelled map, alive for a single encoding call.
#[derive(Debug)]
pub struct HLabelledMapRef<'a, T>(pub &'a T);

impl Default for HLabelledMap<Vec<LabelledElem>> {
    /// The empty labelled map.
    fn default() -> (r: Self)
        ensures
            r.0@ == Seq::<LabelledElem>::empty(),
    {
        HLabelledMap(Vec::new())
    }
}

/// A decode-time shadow slot: unfilled until a document key matches its
/// label, then holding the matched value.
#[derive(Debug, Copy, Clone, Ord, PartialOrd, Eq, PartialEq, Hash)]
pub enum MaybeUnfilled<T> {
    Filled(T),
    Unfilled,
}

impl<T> MaybeUnfilled<T> {
    /// Put a value into the slot, overwriting whatever was there.
    pub fn fill(&mut self, item: T)
        ensures
            *final (self) == MaybeUnfilled::Filled(item),
    {
        *self = Self::Filled(item);
    }

    /// Take the value out, or report the slot's label as missing.
    pub fn try_unwrap(self, field: String) -> (r: Result<T, DecodeError>)
        ensures
            r == match self {
                MaybeUnfilled::Filled(v) => Ok::<T, DecodeError>(v),
                MaybeUnfilled::Unfilled => Err::<T, DecodeError>(DecodeError::MissingField(field)),
            },
    {
        match self {
            MaybeUnfilled::Filled(v) => Ok(v),
            MaybeUnfilled::Unfilled => Err(DecodeError::MissingField(field)),
        }
    }
}

impl<T> From<MaybeUnfilled<T>> for Option<T> {
    /// A filled slot becomes `Some`, an unfilled one `None`.
    fn from(item: MaybeUnfilled<T>) -> (r: Option<T>) {
        match item {
            MaybeUnfilled::Filled(inner) => Some(inner),
            MaybeUnfilled::Unfilled => None,
        }
    }
}

impl<T> vstd::std_specs::convert::FromSpecImpl<MaybeUnfilled<T>> for Option<T> {
    open spec fn obeys_from_spec() -> bool {
        true
    }

    open spec fn from_spec(item: MaybeUnfilled<T>) -> Option<T> {
        match item {
            MaybeUnfilled::Filled(inner) => Some(inner),
            MaybeUnfilled::Unfilled => None,
        }
    }
}

/// Build a slot declaration whose label is the one `T` fixes.
pub fn labelled_slot<T: Labelled>(optional: bool, kind: Kind) -> (s: LabelledSlot)
    ensures
        s.label@ == T::spec_key(),
        s.optional == optional,
        s.kind == kind,
{
    LabelledSlot { label: T::key().to_owned(), optional: optional, kind: kind }
}

/// Wrap a value as the required element of the slot `T` labels.
pub fn required_elem<T: Labelled>(value: Value) -> (e: LabelledElem)
    ensures
        e matches LabelledElem::Required { label, value: v } && label@ == T::spec_key() && v
            == value,
{
    LabelledElem::Required { label: T::key().to_owned(), value: value }
}

/// Wrap a present-or-absent value as the optional element of the slot `T`
/// labels.
pub fn optional_elem<T: Labelled>(value: Option<Value>) -> (e: LabelledElem)
    ensures
        e matches LabelledElem::Optional { label, value: v } && label@ == T::spec_key() && v
            == value,
{
    LabelledElem::Optional { label: T::key().to_owned(), value: value }
}

/// The document a labelled sequence encodes to: one entry per present
/// element, under its label, in sequence order.
pub open spec fn lab_entries(elems: Seq<LabelledElem>) -> Seq<(String, Value)>
    decreases elems.len(),
{
    if elems.len() == 0 {
        Seq::empty()
    } else {
        lab_entries(elems.drop_last()) + (match elems.last() {
            LabelledElem::Required { label, value } => seq![(label, value)],
            LabelledElem::Optional { label, value: Some(v) } => seq![(label, v)],
            LabelledElem::Optional { label, value: None } => Seq::empty(),
        })
    }
}

impl<'a> HLabelledMapRef<'a, Vec<LabelledElem>> {
    /// Append one document entry per present element, in sequence order.
    pub fn serialize_map(&self, out: &mut Vec<(String, Value)>)
        ensures
            final (out)@ == old(out)@ + lab_entries(self.0@),
    {
        let elems = self.0;
        let n = elems.len();
        let mut idx: usize = 0;
        while idx < n
            invariant
                idx <= n,
                n == elems@.len(),
                out@ == old(out)@ + lab_entries(elems@.take(idx as int)),
            decreases n - idx,
        {
            match &elems[idx] {
                LabelledElem::Required { label, value } => {
                    out.push((label.clone(), value.dup()));
                },
                LabelledElem::Optional { label, value: Some(v) } => {
                    out.push((label.clone(), v.dup()));
                },
                LabelledElem::Optional { label: _, value: None } => {},
            }
            proof {
                assert(elems@.take(idx as int + 1).drop_last() =~= elems@.take(idx as int));
                assert(elems@.take(idx as int + 1).last() == elems@[idx as int]);
            }
            idx += 1;
        }
        proof {
            assert(elems@.take(n as int) =~= elems@);
        }
    }

    /// Encode the whole sequence as a fresh document.
    pub fn serialize(&self) -> (doc: Vec<(String, Value)>)
        ensures
            doc@ == lab_entries(self.0@),
    {
        let mut doc: Vec<(String, Value)> = Vec::new();
        self.serialize_map(&mut doc);
        proof {
            assert(Seq::<(String, Value)>::empty() + lab_entries(self.0@) =~= lab_entries(
                self.0@,
            ));
        }
        doc
    }
}

/// The index of the first slot whose label equals `key`, or `-1` when no
/// slot's label does: the linear scan an arriving document key goes through.
pub open spec fn first_match(slots: Seq<LabelledSlot>, key: Seq<char>) -> int
    decreases slots.len(),
{
    if slots.len() == 0 {
        -1
    } else if slots[0].label@ == key {
        0
    } else {
        let r = first_match(slots.drop_first(), key);
        if r < 0 {
            -1
        } else {
            r + 1
        }
    }
}

/// `first_match` finds exactly the lowest matching index, and a negative
/// answer means no slot's label equals `key`.
pub proof fn lemma_first_match(slots: Seq<LabelledSlot>, key: Seq<char>)
    ensures
        first_match(slots, key) >= 0 <==> exists|i: int|
            0 <= i < slots.len() && slots[i].label@ == key,
        first_match(slots, key) >= 0 ==> {
            let m = first_match(slots, key);
            &&& m < slots.len()
            &&& slots[m].label@ == key
            &&& forall|j: int| 0 <= j < m ==> slots[j].label@ != key
        },
    decreases slots.len(),
{
    if slots.len() == 0 {
    } else if slots[0].label@ == key {
        assert(first_match(slots, key) == 0);
    } else {
        let df = slots.drop_first();
        lemma_first_match(df, key);
        assert(forall|i: int| 0 <= i < df.len() ==> #[trigger] df[i] == slots[i + 1]);
        let r = first_match(df, key);
        if r >= 0 {
            assert(first_match(slots, key) == r + 1);
            assert(slots[r + 1].label@ == key);
            assert forall|j: int| 0 <= j < r + 1 implies slots[j].label@ != key by {
                if j > 0 {
                    assert(df[j - 1].label@ != key);
                }
            }
        } else {
            assert(first_match(slots, key) == -1);
            if exists|i: int| 0 <= i < slots.len() && slots[i].label@ == key {
                let i = choose|i: int| 0 <= i < slots.len() && slots[i].label@ == key;
                assert(df[i - 1].label@ == key);
                assert(false);
            }
        }
    }
}

/// What one document entry does to the shadow sequence: fill the first slot
/// whose label matches, fail on a value of the wrong kind, pass by unknown
/// keys unchanged.
pub open spec fn spec_fill(
    slots: Seq<LabelledSlot>,
    shadow: Seq<MaybeUnfilled<Value>>,
    key: Seq<char>,
    value: Value,
) -> Result<Seq<MaybeUnfilled<Value>>, DecodeError> {
    let m = first_match(slots, key);
    if m < 0 {
        Ok(shadow)
    } else if value.kind_spec() != slots[m].kind {
        Err(DecodeError::InvalidValue)
    } else {
        Ok(shadow.update(m, MaybeUnfilled::Filled(value)))
    }
}

/// The scanning state machine: document entries act on the shadow sequence
/// left to right, and the first failing entry aborts the scan.
pub open spec fn spec_scan(
    slots: Seq<LabelledSlot>,
    shadow: Seq<MaybeUnfilled<Value>>,
    doc: Seq<(String, Value)>,
) -> Result<Seq<MaybeUnfilled<Value>>, DecodeError>
    decreases doc.len(),
{
    if doc.len() == 0 {
        Ok(shadow)
    } else {
        match spec_scan(slots, shadow, doc.drop_last()) {
            Ok(s) => spec_fill(slots, s, doc.last().0@, doc.last().1),
            Err(e) => Err(e),
        }
    }
}

/// The single conversion pass over a fully scanned shadow sequence. The tail
/// converts first, as the recursion unwinds, so the missing label reported is
/// that of the last unfilled required slot.
pub open spec fn spec_convert(
    slots: Seq<LabelledSlot>,
    shadow: Seq<MaybeUnfilled<Value>>,
) -> Result<Seq<LabelledElem>, DecodeError>
    recommends
        shadow.len() == slots.len(),
    decreases slots.len(),
{
    if slots.len() == 0 {
        Ok(Seq::empty())
    } else {
        match spec_convert(slots.drop_first(), shadow.drop_first()) {
            Err(e) => Err(e),
            Ok(tail) => if slots[0].optional {
                Ok(
                    seq![
                        LabelledElem::Optional {
                            label: slots[0].label,
                            value: match shadow[0] {
                                MaybeUnfilled::Filled(v) => Some(v),
                                MaybeUnfilled::Unfilled => None,
                            },
                        },
                    ] + tail,
                )
            } else {
                match shadow[0] {
                    MaybeUnfilled::Filled(v) => Ok(
                        seq![LabelledElem::Required { label: slots[0].label, value: v }] + tail,
                    ),
                    MaybeUnfilled::Unfilled => Err(DecodeError::MissingField(slots[0].label)),
                }
            },
        }
    }
}

/// The shadow sequence decoding starts from: every slot unfilled.
pub open spec fn unfilled_shadow(n: nat) -> Seq<MaybeUnfilled<Value>> {
    Seq::new(n, |i: int| MaybeUnfilled::Unfilled)
}

/// What labelled decoding yields: scan the whole document into the shadow
/// sequence, then convert it once.
pub open spec fn labelled_decoded(slots: Seq<LabelledSlot>, doc: Seq<(String, Value)>) -> Result<
    Seq<LabelledElem>,
    DecodeError,
> {
    match spec_scan(slots, unfilled_shadow(slots.len()), doc) {
        Ok(sh) => spec_convert(slots, sh),
        Err(e) => Err(e),
    }
}

/// Match one arriving document key against each slot's label in turn: fill
/// the first slot whose label equals `name`, reject a value of the wrong
/// kind, and let a key no slot claims pass by silently.
pub fn fill_by_name(
    slots: &Vec<LabelledSlot>,
    shadow: &mut Vec<MaybeUnfilled<Value>>,
    name: &String,
    value: &Value,
) -> (r: Result<(), DecodeError>)
    requires
        old(shadow)@.len() == slots@.len(),
    ensures
        final (shadow)@.len() == old(shadow)@.len(),
        match spec_fill(slots@, old(shadow)@, name@, *value) {
            Ok(s) => r == Ok::<(), DecodeError>(()) && final (shadow)@ == s,
            Err(e) => r == Err::<(), DecodeError>(e) && final (shadow)@ == old(shadow)@,
        },
{
    let n = slots.len();
    let mut i: usize = 0;
    while i < n
        invariant
            i <= n,
            n == slots@.len(),
            shadow@ == old(shadow)@,
            old(shadow)@.len() == slots@.len(),
            forall|j: int| 0 <= j < i ==> slots@[j].label@ != name@,
        decreases n - i,
    {
        if slots[i].label == *name {
            proof {
                lemma_first_match(slots@, name@);
                assert(first_match(slots@, name@) == i);
            }
            if value.kind() == slots[i].kind {
                shadow[i].fill(value.dup());
                return Ok(());
            } else {
                return Err(DecodeError::InvalidValue);
            }
        }
        i += 1;
    }
    proof {
        lemma_first_match(slots@, name@);
        assert(first_match(slots@, name@) < 0);
    }
    Ok(())
}

/// If a prefix of the scan already failed, the whole scan fails the same
/// way: an error aborts the state machine.
pub proof fn lemma_scan_err_extends(
    slots: Seq<LabelledSlot>,
    shadow: Seq<MaybeUnfilled<Value>>,
    doc: Seq<(String, Value)>,
    i: int,
)
    requires
        0 <= i <= doc.len(),
        spec_scan(slots, shadow, doc.take(i)) is Err,
    ensures
        spec_scan(slots, shadow, doc) == spec_scan(slots, shadow, doc.take(i)),
    decreases doc.len() - i,
{
    if i == doc.len() {
        assert(doc.take(i) =~= doc);
    } else {
        assert(doc.take(i + 1).drop_last() =~= doc.take(i));
        lemma_scan_err_extends(slots, shadow, doc, i + 1);
    }
}

/// Once an error appears at some suffix of the conversion, every longer
/// suffix reports that same error: the tail converts first.
pub proof fn lemma_convert_err_propagates(
    slots: Seq<LabelledSlot>,
    shadow: Seq<MaybeUnfilled<Value>>,
    j: int,
    i: int,
)
    requires
        0 <= j <= i <= slots.len(),
        shadow.len() == slots.len(),
        spec_convert(slots.skip(i), shadow.skip(i)) is Err,
    ensures
        spec_convert(slots.skip(j), shadow.skip(j)) == spec_convert(slots.skip(i), shadow.skip(i)),
    decreases i - j,
{
    if j < i {
        assert(slots.skip(j).drop_first() =~= slots.skip(j + 1));
        assert(shadow.skip(j).drop_first() =~= shadow.skip(j + 1));
        lemma_convert_err_propagates(slots, shadow, j + 1, i);
    }
}

/// Convert the scanned shadow sequence into the final elements, consuming
/// it: required slots must be filled, optional slots become present or
/// absent values.
pub fn convert(slots: &Vec<LabelledSlot>, shadow: &mut Vec<MaybeUnfilled<Value>>) -> (r: Result<
    Vec<LabelledElem>,
    DecodeError,
>)
    requires
        old(shadow)@.len() == slots@.len(),
    ensures
        match (r, spec_convert(slots@, old(shadow)@)) {
            (Ok(v), Ok(s)) => v@ == s,
            (Err(e1), Err(e2)) => e1 == e2,
            _ => false,
        },
{
    let ghost sh0 = old(shadow)@;
    let mut out: Vec<LabelledElem> = Vec::new();
    let n = slots.len();
    let mut i: usize = n;
    while i > 0
        invariant
            i <= n,
            n == slots@.len(),
            sh0 == old(shadow)@,
            sh0.len() == slots@.len(),
            shadow@ == sh0.take(i as int),
            spec_convert(slots@.skip(i as int), sh0.skip(i as int)) == Ok::<
                Seq<LabelledElem>,
                DecodeError,
            >(out@),
        decreases i,
    {
        i -= 1;
        let ghost out_prev = out@;
        let mu = shadow.pop().unwrap();
        proof {
            assert(mu == sh0[i as int]);
            assert(shadow@ =~= sh0.take(i as int));
            assert(slots@.skip(i as int)[0] == slots@[i as int]);
            assert(sh0.skip(i as int)[0] == sh0[i as int]);
            assert(slots@.skip(i as int).drop_first() =~= slots@.skip(i as int + 1));
            assert(sh0.skip(i as int).drop_first() =~= sh0.skip(i as int + 1));
        }
        if slots[i].optional {
            let v: Option<Value> = Option::from(mu);
            let e = LabelledElem::Optional { label: slots[i].label.clone(), value: v };
            let ghost ge = e;
            out.insert(0, e);
            proof {
                assert(out@ =~= seq![ge] + out_prev);
            }
        } else {
            match mu.try_unwrap(slots[i].label.clone()) {
                Ok(v) => {
                    let e = LabelledElem::Required { label: slots[i].label.clone(), value: v };
                    let ghost ge = e;
                    out.insert(0, e);
                    proof {
                        assert(out@ =~= seq![ge] + out_prev);
                    }
                },
                Err(e) => {
                    proof {
                        assert(sh0.skip(i as int)[0] == MaybeUnfilled::<Value>::Unfilled);
                        assert(spec_convert(slots@.skip(i as int + 1), sh0.skip(i as int + 1))
                            == Ok::<Seq<LabelledElem>, DecodeError>(out@));
                        assert(spec_convert(slots@.skip(i as int), sh0.skip(i as int)) == Err::<
                            Seq<LabelledElem>,
                            DecodeError,
                        >(DecodeError::MissingField(slots@[i as int].label)));
                        lemma_convert_err_propagates(slots@, sh0, 0, i as int);
                        assert(slots@.skip(0) =~= slots@);
                        assert(sh0.skip(0) =~= sh0);
                        assert(e == DecodeError::MissingField(slots@[i as int].label));
                        assert(spec_convert(slots@, sh0) == Err::<
                            Seq<LabelledElem>,
                            DecodeError,
                        >(DecodeError::MissingField(slots@[i as int].label)));
                    }
                    return Err(e);
                },
            }
        }
    }
    proof {
        assert(slots@.skip(0) =~= slots@);
        assert(sh0.skip(0) =~= sh0);
    }
    Ok(out)
}

impl HLabelledMap<Vec<LabelledElem>> {
    /// Decode a document against the declared slots: scan every entry into
    /// the shadow sequence by label, out-of-order entries and unknown keys
    /// allowed, then convert the shadow sequence once.
    pub fn deserialize(slots: &Vec<LabelledSlot>, doc: &Vec<(String, Value)>) -> (r: Result<
        HLabelledMap<Vec<LabelledElem>>,
        DecodeError,
    >)
        ensures
            match (r, labelled_decoded(slots@, doc@)) {
                (Ok(m), Ok(s)) => m.0@ == s,
                (Err(e1), Err(e2)) => e1 == e2,
                _ => false,
            },
    {
        let mut shadow = create::<Value>(slots.len());
        proof {
            assert(shadow@ =~= unfilled_shadow(slots@.len()));
        }
        let n = doc.len();
        let mut idx: usize = 0;
        while idx < n
            invariant
                idx <= n,
                n == doc@.len(),
                shadow@.len() == slots@.len(),
                spec_scan(slots@, unfilled_shadow(slots@.len()), doc@.take(idx as int)) == Ok::<
                    Seq<MaybeUnfilled<Value>>,
                    DecodeError,
                >(shadow@),
            decreases n - idx,
        {
            let entry = &doc[idx];
            proof {
                assert(doc@.take(idx as int + 1).drop_last() =~= doc@.take(idx as int));
                assert(doc@.take(idx as int + 1).last() == doc@[idx as int]);
            }
            match fill_by_name(slots, &mut shadow, &entry.0, &entry.1) {
                Ok(_) => {},
                Err(e) => {
                    proof {
                        lemma_scan_err_extends(
                            slots@,
                            unfilled_shadow(slots@.len()),
                            doc@,
                            idx as int + 1,
                        );
                    }
                    return Err(e);
                },
            }
            idx += 1;
        }
        proof {
            assert(doc@.take(n as int) =~= doc@);
        }
        match convert(slots, &mut shadow) {
            Ok(v) => Ok(HLabelledMap(v)),
            Err(e) => Err(e),
        }
    }
}

/// The fresh shadow sequence labelled decoding starts from: one unfilled slot
/// per declared slot.
pub fn create<T>(n: usize) -> (v: Vec<MaybeUnfilled<T>>)
    ensures
        v@ == Seq::new(n as nat, |i: int| MaybeUnfilled::<T>::Unfilled),
{
    let mut v: Vec<MaybeUnfilled<T>> = Vec::new();
    let mut idx: usize = 0;
    while idx < n
        invariant
            idx <= n,
            v@.len() == idx,
            forall|j: int| 0 <= j < idx ==> v@[j] == MaybeUnfilled::<T>::Unfilled,
        decreases n - idx,
    {
        v.push(MaybeUnfilled::Unfilled);
        idx += 1;
    }
    proof {
        assert(v@ =~= Seq::new(n as nat, |i: int| MaybeUnfilled::<T>::Unfilled));
    }
    v
}

/// No two document entries share a key.
pub open spec fn distinct_keys(doc: Seq<(String, Value)>) -> bool {
    forall|j: int, k: int| 0 <= j < k < doc.len() ==> doc[j].0@ != doc[k].0@
}

/// No two slots share a label.
pub open spec fn distinct_labels(slots: Seq<LabelledSlot>) -> bool {
    forall|j: int, k: int| 0 <= j < k < slots.len() ==> slots[j].label@ != slots[k].label@
}

/// An entry that some slot claims but whose value has the wrong kind: the
/// one way a document entry makes the scan fail.
pub open spec fn bad_entry(slots: Seq<LabelledSlot>, key: Seq<char>, value: Value) -> bool {
    let m = first_match(slots, key);
    m >= 0 && value.kind_spec() != slots[m].kind
}

/// Some document entry's key claims slot `i`.
pub open spec fn doc_fills(slots: Seq<LabelledSlot>, doc: Seq<(String, Value)>, i: int) -> bool {
    exists|j: int| 0 <= j < doc.len() && first_match(slots, doc[j].0@) == i
}

/// Slot `i` is required and no document entry claims it.
pub open spec fn required_missing(
    slots: Seq<LabelledSlot>,
    doc: Seq<(String, Value)>,
    i: int,
) -> bool {
    0 <= i < slots.len() && !slots[i].optional && !doc_fills(slots, doc, i)
}

/// The scan never errs except on an entry of the wrong kind; a successful
/// scan keeps unclaimed slots as they were and leaves every claimed slot
/// filled.
proof fn lemma_scan_basic(
    slots: Seq<LabelledSlot>,
    sh0: Seq<MaybeUnfilled<Value>>,
    doc: Seq<(String, Value)>,
)
    requires
        sh0.len() == slots.len(),
    ensures
        spec_scan(slots, sh0, doc) is Err <==> exists|j: int|
            0 <= j < doc.len() && bad_entry(slots, doc[j].0@, doc[j].1),
        spec_scan(slots, sh0, doc) is Err ==> spec_scan(slots, sh0, doc) == Err::<
            Seq<MaybeUnfilled<Value>>,
            DecodeError,
        >(DecodeError::InvalidValue),
        spec_scan(slots, sh0, doc) matches Ok(res) ==> res.len() == sh0.len(),
        spec_scan(slots, sh0, doc) matches Ok(res) ==> forall|i: int|
            0 <= i < sh0.len() && !doc_fills(slots, doc, i) ==> res[i] == sh0[i],
        spec_scan(slots, sh0, doc) matches Ok(res) ==> forall|i: int|
            0 <= i < sh0.len() && doc_fills(slots, doc, i) ==> res[i] is Filled,
    decreases doc.len(),
{
    if doc.len() == 0 {
    } else {
        let dp = doc.drop_last();
        let e = doc.last();
        lemma_scan_basic(slots, sh0, dp);
        assert(forall|j: int| 0 <= j < dp.len() ==> #[trigger] dp[j] == doc[j]);
        lemma_first_match(slots, e.0@);
        let m = first_match(slots, e.0@);
        match spec_scan(slots, sh0, dp) {
            Err(_) => {
                let j = choose|j: int| 0 <= j < dp.len() && bad_entry(slots, dp[j].0@, dp[j].1);
                assert(bad_entry(slots, doc[j].0@, doc[j].1));
            },
            Ok(s) => {
                assert(spec_scan(slots, sh0, dp) matches Ok(r2) && r2 == s);
                assert(s.len() == sh0.len());
                if bad_entry(slots, e.0@, e.1) {
                    assert(bad_entry(slots, doc[doc.len() - 1].0@, doc[doc.len() - 1].1));
                    assert(spec_scan(slots, sh0, doc) is Err);
                } else {
                    assert(!(exists|j: int|
                        0 <= j < doc.len() && bad_entry(slots, doc[j].0@, doc[j].1))) by {
                        if exists|j: int|
                            0 <= j < doc.len() && bad_entry(slots, doc[j].0@, doc[j].1) {
                            let j = choose|j: int|
                                0 <= j < doc.len() && bad_entry(slots, doc[j].0@, doc[j].1);
                            if j < doc.len() - 1 {
                                assert(bad_entry(slots, dp[j].0@, dp[j].1));
                                assert(spec_scan(slots, sh0, dp) is Err);
                            }
                            assert(false);
                        }
                    }
                    let res = if m < 0 {
                        s
                    } else {
                        s.update(m, MaybeUnfilled::Filled(e.1))
                    };
                    assert(spec_scan(slots, sh0, doc) == Ok::<
                        Seq<MaybeUnfilled<Value>>,
                        DecodeError,
                    >(res));
                    assert forall|i: int|
                        0 <= i < sh0.len() && !doc_fills(slots, doc, i) implies res[i]
                        == sh0[i] by {
                        assert(!doc_fills(slots, dp, i)) by {
                            if doc_fills(slots, dp, i) {
                                let j = choose|j: int|
                                    0 <= j < dp.len() && first_match(slots, dp[j].0@) == i;
                                assert(first_match(slots, doc[j].0@) == i);
                            }
                        }
                        assert(i != m) by {
                            if i == m {
                                assert(first_match(slots, doc[doc.len() - 1].0@) == i);
                            }
                        }
                        assert(s[i] == sh0[i]);
                    }
                    assert forall|i: int|
                        0 <= i < sh0.len() && doc_fills(slots, doc, i) implies res[i]
                        is Filled by {
                        let j = choose|j: int|
                            0 <= j < doc.len() && first_match(slots, doc[j].0@) == i;
                        if i == m {
                            assert(res[i] == MaybeUnfilled::Filled(e.1));
                        } else {
                            assert(j < doc.len() - 1);
                            assert(first_match(slots, dp[j].0@) == i);
                            assert(doc_fills(slots, dp, i));
                            assert(s[i] is Filled);
                        }
                    }
                }
            },
        }
    }
}

/// With all document keys distinct, each claimed slot holds exactly the
/// value of the one entry that claims it.
proof fn lemma_scan_value(
    slots: Seq<LabelledSlot>,
    sh0: Seq<MaybeUnfilled<Value>>,
    doc: Seq<(String, Value)>,
)
    requires
        distinct_keys(doc),
        sh0.len() == slots.len(),
    ensures
        spec_scan(slots, sh0, doc) matches Ok(res) ==> forall|j: int|
            0 <= j < doc.len() && first_match(slots, doc[j].0@) >= 0 ==> res[first_match(
                slots,
                doc[j].0@,
            )] == MaybeUnfilled::Filled(doc[j].1),
    decreases doc.len(),
{
    if doc.len() == 0 {
    } else {
        let dp = doc.drop_last();
        let e = doc.last();
        assert(forall|j: int| 0 <= j < dp.len() ==> #[trigger] dp[j] == doc[j]);
        lemma_scan_basic(slots, sh0, dp);
        lemma_scan_value(slots, sh0, dp);
        lemma_first_match(slots, e.0@);
        let m = first_match(slots, e.0@);
        if spec_scan(slots, sh0, doc) is Ok {
            let res = spec_scan(slots, sh0, doc)->Ok_0;
            let s = spec_scan(slots, sh0, dp)->Ok_0;
            assert(spec_scan(slots, sh0, dp) is Ok);
            assert forall|j: int|
                0 <= j < doc.len() && first_match(slots, doc[j].0@) >= 0 implies res[first_match(
                slots,
                doc[j].0@,
            )] == MaybeUnfilled::Filled(doc[j].1) by {
                lemma_first_match(slots, doc[j].0@);
                let fmj = first_match(slots, doc[j].0@);
                if j == doc.len() - 1 {
                    assert(res == s.update(m, MaybeUnfilled::Filled(e.1)));
                    assert(res[fmj] == MaybeUnfilled::Filled(e.1));
                } else {
                    assert(dp[j] == doc[j]);
                    assert(s[fmj] == MaybeUnfilled::Filled(doc[j].1));
                    if m >= 0 {
                        assert(res == s.update(m, MaybeUnfilled::Filled(e.1)));
                        assert(fmj != m) by {
                            if fmj == m {
                                assert(slots[m].label@ == doc[j].0@);
                                assert(slots[m].label@ == e.0@);
                                assert(doc[j].0@ == doc[doc.len() - 1].0@);
                            }
                        }
                        assert(res[fmj] == s[fmj]);
                    } else {
                        assert(res == s);
                    }
                }
            }
        }
    }
}

/// An element of one sequence stands in any other with the same multiset of
/// elements.
proof fn lemma_contains_transfer(
    d1: Seq<(String, Value)>,
    d2: Seq<(String, Value)>,
    x: (String, Value),
)
    requires
        d1.to_multiset() == d2.to_multiset(),
        d1.contains(x),
    ensures
        d2.contains(x),
{
    broadcast use vstd::seq_lib::group_to_multiset_ensures;

    assert(d1.to_multiset().count(x) > 0);
    assert(d2.to_multiset().count(x) > 0);
}

/// Key distinctness survives reordering: a permutation of a document with
/// pairwise distinct keys has pairwise distinct keys.
proof fn lemma_distinct_keys_permuted(d1: Seq<(String, Value)>, d2: Seq<(String, Value)>)
    requires
        distinct_keys(d1),
        d1.to_multiset() == d2.to_multiset(),
    ensures
        distinct_keys(d2),
{
    broadcast use vstd::seq_lib::group_to_multiset_ensures;
    broadcast use vstd::multiset::group_multiset_axioms;

    if !distinct_keys(d2) {
        let (j, k) = choose|j: int, k: int| 0 <= j < k < d2.len() && d2[j].0@ == d2[k].0@;
        assert(d2.contains(d2[j]));
        assert(d2.contains(d2[k]));
        lemma_contains_transfer(d2, d1, d2[j]);
        lemma_contains_transfer(d2, d1, d2[k]);
        if d2[j] == d2[k] {
            let x = d2[j];
            assert(d2.remove(k).to_multiset() =~= d2.to_multiset().remove(x));
            d2.remove_ensures(k);
            assert(d2.remove(k)[j] == x);
            assert(d2.remove(k).contains(x));
            assert(d2.remove(k).to_multiset().count(x) > 0);
            assert(d2.to_multiset().count(x) >= 2);
            assert(d1.to_multiset().count(x) >= 2);
            let a = choose|a: int| 0 <= a < d1.len() && d1[a] == x;
            assert(d1.remove(a).to_multiset() =~= d1.to_multiset().remove(x));
            assert(d1.remove(a).to_multiset().count(x) >= 1);
            assert(d1.remove(a).contains(x));
            let b = choose|b: int| 0 <= b < d1.remove(a).len() && d1.remove(a)[b] == x;
            d1.remove_ensures(a);
            let b2 = if b < a {
                b
            } else {
                b + 1
            };
            assert(d1[b2] == x);
            assert(b2 != a);
            assert(d1[a].0@ == d1[b2].0@);
            assert(false);
        } else {
            let a = choose|a: int| 0 <= a < d1.len() && d1[a] == d2[j];
            let b = choose|b: int| 0 <= b < d1.len() && d1[b] == d2[k];
            assert(a != b);
            assert(d1[a].0@ == d1[b].0@);
            assert(false);
        }
    }
}

/// Labelled decoding is key-order-independent: reordering the entries of a
/// document with pairwise distinct keys leaves the decoding result — success,
/// values, or the error reported — exactly the same.
pub proof fn lemma_labelled_decode_order_independent(
    slots: Seq<LabelledSlot>,
    d1: Seq<(String, Value)>,
    d2: Seq<(String, Value)>,
)
    requires
        distinct_keys(d1),
        d1.to_multiset() == d2.to_multiset(),
    ensures
        labelled_decoded(slots, d1) == labelled_decoded(slots, d2),
{
    broadcast use vstd::seq_lib::group_to_multiset_ensures;

    lemma_distinct_keys_permuted(d1, d2);
    let sh0 = unfilled_shadow(slots.len());
    lemma_scan_basic(slots, sh0, d1);
    lemma_scan_basic(slots, sh0, d2);
    lemma_scan_value(slots, sh0, d1);
    lemma_scan_value(slots, sh0, d2);
    if exists|j: int| 0 <= j < d1.len() && bad_entry(slots, d1[j].0@, d1[j].1) {
        let j = choose|j: int| 0 <= j < d1.len() && bad_entry(slots, d1[j].0@, d1[j].1);
        assert(d1.contains(d1[j]));
        lemma_contains_transfer(d1, d2, d1[j]);
        let k = choose|k: int| 0 <= k < d2.len() && d2[k] == d1[j];
        assert(bad_entry(slots, d2[k].0@, d2[k].1));
        assert(spec_scan(slots, sh0, d1) == spec_scan(slots, sh0, d2));
    } else {
        assert(!(exists|k: int| 0 <= k < d2.len() && bad_entry(slots, d2[k].0@, d2[k].1))) by {
            if exists|k: int| 0 <= k < d2.len() && bad_entry(slots, d2[k].0@, d2[k].1) {
                let k = choose|k: int| 0 <= k < d2.len() && bad_entry(slots, d2[k].0@, d2[k].1);
                assert(d2.contains(d2[k]));
                lemma_contains_transfer(d2, d1, d2[k]);
                let j = choose|j: int| 0 <= j < d1.len() && d1[j] == d2[k];
                assert(bad_entry(slots, d1[j].0@, d1[j].1));
                assert(false);
            }
        }
        let res1 = spec_scan(slots, sh0, d1)->Ok_0;
        let res2 = spec_scan(slots, sh0, d2)->Ok_0;
        assert forall|i: int| 0 <= i < slots.len() implies res1[i] == res2[i] by {
            if doc_fills(slots, d1, i) {
                let j = choose|j: int| 0 <= j < d1.len() && first_match(slots, d1[j].0@) == i;
                assert(d1.contains(d1[j]));
                lemma_contains_transfer(d1, d2, d1[j]);
                let k = choose|k: int| 0 <= k < d2.len() && d2[k] == d1[j];
                assert(first_match(slots, d2[k].0@) == i);
                assert(res1[i] == MaybeUnfilled::Filled(d1[j].1));
                assert(res2[i] == MaybeUnfilled::Filled(d2[k].1));
            } else {
                assert(!doc_fills(slots, d2, i)) by {
                    if doc_fills(slots, d2, i) {
                        let k = choose|k: int|
                            0 <= k < d2.len() && first_match(slots, d2[k].0@) == i;
                        assert(d2.contains(d2[k]));
                        lemma_contains_transfer(d2, d1, d2[k]);
                        let j = choose|j: int| 0 <= j < d1.len() && d1[j] == d2[k];
                        assert(first_match(slots, d1[j].0@) == i);
                        assert(false);
                    }
                }
                assert(res1[i] == sh0[i]);
                assert(res2[i] == sh0[i]);
            }
        }
        assert(res1 =~= res2);
        assert(spec_scan(slots, sh0, d1) == spec_scan(slots, sh0, d2));
    }
}

/// Entries whose key no slot claims leave the scan state untouched, wherever
/// they stand in the document.
proof fn lemma_scan_unknown_middle(
    slots: Seq<LabelledSlot>,
    sh: Seq<MaybeUnfilled<Value>>,
    a: Seq<(String, Value)>,
    e: (String, Value),
    b: Seq<(String, Value)>,
)
    requires
        first_match(slots, e.0@) < 0,
    ensures
        spec_scan(slots, sh, a + seq![e] + b) == spec_scan(slots, sh, a + b),
    decreases b.len(),
{
    if b.len() == 0 {
        assert(a + b =~= a);
        assert((a + seq![e] + b) =~= a + seq![e]);
        assert((a + seq![e]).drop_last() =~= a);
        assert((a + seq![e]).last() == e);
    } else {
        let b1 = b.drop_last();
        let x = b.last();
        assert((a + seq![e] + b).drop_last() =~= a + seq![e] + b1);
        assert((a + seq![e] + b).last() == x);
        assert((a + b).drop_last() =~= a + b1);
        assert((a + b).last() == x);
        lemma_scan_unknown_middle(slots, sh, a, e, b1);
    }
}

/// Labelled decoding tolerates unknown keys: inserting an entry whose key
/// matches no declared label, at any position, leaves the decoding result
/// unchanged.
pub proof fn lemma_labelled_decode_ignores_unknown(
    slots: Seq<LabelledSlot>,
    doc: Seq<(String, Value)>,
    j: int,
    key: String,
    value: Value,
)
    requires
        0 <= j <= doc.len(),
        first_match(slots, key@) < 0,
    ensures
        labelled_decoded(slots, doc.insert(j, (key, value))) == labelled_decoded(slots, doc),
{
    let e = (key, value);
    let a = doc.take(j);
    let b = doc.skip(j);
    assert(doc.insert(j, e) =~= a + seq![e] + b);
    assert(doc =~= a + b);
    lemma_scan_unknown_middle(slots, unfilled_shadow(slots.len()), a, e, b);
}

/// The index of the deepest required slot that stayed unfilled, or `-1` when
/// every required slot is filled: conversion checks the tail first, so this
/// is the slot whose label a failing conversion reports.
spec fn last_unfilled_required(
    slots: Seq<LabelledSlot>,
    shadow: Seq<MaybeUnfilled<Value>>,
) -> int
    decreases slots.len(),
{
    if slots.len() == 0 {
        -1
    } else {
        let t = last_unfilled_required(slots.drop_first(), shadow.drop_first());
        if t >= 0 {
            t + 1
        } else if !slots[0].optional && shadow[0] is Unfilled {
            0
        } else {
            -1
        }
    }
}

/// Conversion succeeds exactly when every required slot is filled, and
/// otherwise reports the label of the deepest unfilled required slot.
proof fn lemma_convert_reports(slots: Seq<LabelledSlot>, shadow: Seq<MaybeUnfilled<Value>>)
    requires
        shadow.len() == slots.len(),
    ensures
        last_unfilled_required(slots, shadow) < 0 ==> spec_convert(slots, shadow) is Ok,
        last_unfilled_required(slots, shadow) >= 0 ==> {
            let k = last_unfilled_required(slots, shadow);
            &&& k < slots.len()
            &&& !slots[k].optional
            &&& shadow[k] is Unfilled
            &&& spec_convert(slots, shadow) == Err::<Seq<LabelledElem>, DecodeError>(
                DecodeError::MissingField(slots[k].label),
            )
        },
    decreases slots.len(),
{
    if slots.len() > 0 {
        let df = slots.drop_first();
        let dsh = shadow.drop_first();
        lemma_convert_reports(df, dsh);
        assert(forall|i: int| 0 <= i < df.len() ==> #[trigger] df[i] == slots[i + 1]);
        assert(forall|i: int| 0 <= i < dsh.len() ==> #[trigger] dsh[i] == shadow[i + 1]);
    }
}

/// An unfilled required slot is never passed over: the reported index covers
/// at least this witness.
proof fn lemma_lur_witness(slots: Seq<LabelledSlot>, shadow: Seq<MaybeUnfilled<Value>>, i: int)
    requires
        0 <= i < slots.len(),
        shadow.len() == slots.len(),
        !slots[i].optional,
        shadow[i] is Unfilled,
    ensures
        last_unfilled_required(slots, shadow) >= i,
    decreases slots.len(),
{
    if i > 0 {
        lemma_lur_witness(slots.drop_first(), shadow.drop_first(), i - 1);
    }
}

/// Labelled decoding fails deterministically when a required label is
/// absent: with no entry of the wrong kind, a document that claims no entry
/// for some required slot decodes to an error naming exactly one such slot's
/// label.
pub proof fn lemma_labelled_decode_missing_required(
    slots: Seq<LabelledSlot>,
    doc: Seq<(String, Value)>,
)
    requires
        forall|j: int| 0 <= j < doc.len() ==> !bad_entry(slots, doc[j].0@, doc[j].1),
        exists|i: int| required_missing(slots, doc, i),
    ensures
        exists|i: int|
            #[trigger] required_missing(slots, doc, i) && labelled_decoded(slots, doc) == Err::<
                Seq<LabelledElem>,
                DecodeError,
            >(DecodeError::MissingField(slots[i].label)),
{
    let sh0 = unfilled_shadow(slots.len());
    lemma_scan_basic(slots, sh0, doc);
    assert(spec_scan(slots, sh0, doc) is Ok);
    let res = spec_scan(slots, sh0, doc)->Ok_0;
    let i0 = choose|i: int| required_missing(slots, doc, i);
    assert(res[i0] == sh0[i0]);
    lemma_lur_witness(slots, res, i0);
    lemma_convert_reports(slots, res);
    let k = last_unfilled_required(slots, res);
    assert(!doc_fills(slots, doc, k));
    assert(required_missing(slots, doc, k));
    assert(labelled_decoded(slots, doc) == Err::<Seq<LabelledElem>, DecodeError>(
        DecodeError::MissingField(slots[k].label),
    ));
}

/// Whether one element belongs to one slot: same label, same optionality,
/// and a present value of the slot's kind.
pub open spec fn elem_fits(e: LabelledElem, s: LabelledSlot) -> bool {
    match e {
        LabelledElem::Required { label, value } => {
            &&& label == s.label
            &&& !s.optional
            &&& value.kind_spec() == s.kind
        },
        LabelledElem::Optional { label, value } => {
            &&& label == s.label
            &&& s.optional
            &&& (value matches Some(v) ==> v.kind_spec() == s.kind)
        },
    }
}

/// Whether a sequence of elements is exactly what the declared slots
/// describe, slot by slot.
pub open spec fn conforms(elems: Seq<LabelledElem>, slots: Seq<LabelledSlot>) -> bool {
    &&& elems.len() == slots.len()
    &&& forall|i: int| 0 <= i < elems.len() ==> #[trigger] elem_fits(elems[i], slots[i])
}

/// The shadow slot a fully scanned decode holds for one encoded element.
spec fn expected_fill(e: LabelledElem) -> MaybeUnfilled<Value> {
    match e {
        LabelledElem::Required { label: _, value } => MaybeUnfilled::Filled(value),
        LabelledElem::Optional { label: _, value: Some(v) } => MaybeUnfilled::Filled(v),
        LabelledElem::Optional { label: _, value: None } => MaybeUnfilled::Unfilled,
    }
}

/// With pairwise distinct labels, a slot's own label scans back to that very
/// slot.
proof fn lemma_first_match_of_label(slots: Seq<LabelledSlot>, k: int)
    requires
        distinct_labels(slots),
        0 <= k < slots.len(),
    ensures
        first_match(slots, slots[k].label@) == k,
{
    lemma_first_match(slots, slots[k].label@);
    let m = first_match(slots, slots[k].label@);
    assert(m >= 0);
    if m < k {
        assert(slots[m].label@ == slots[k].label@);
        assert(false);
    }
    if m > k {
        assert(slots[k].label@ != slots[k].label@);
        assert(false);
    }
}

/// Scanning the document the first `k` elements encode fills exactly their
/// slots with exactly their values.
proof fn lemma_scan_of_encoded(slots: Seq<LabelledSlot>, elems: Seq<LabelledElem>, k: int)
    requires
        distinct_labels(slots),
        conforms(elems, slots),
        0 <= k <= elems.len(),
    ensures
        spec_scan(slots, unfilled_shadow(slots.len()), lab_entries(elems.take(k))) == Ok::<
            Seq<MaybeUnfilled<Value>>,
            DecodeError,
        >(
            Seq::new(
                slots.len(),
                |i: int|
                    if i < k {
                        expected_fill(elems[i])
                    } else {
                        MaybeUnfilled::Unfilled
                    },
            ),
        ),
    decreases k,
{
    let sh0 = unfilled_shadow(slots.len());
    let target = Seq::new(
        slots.len(),
        |i: int|
            if i < k {
                expected_fill(elems[i])
            } else {
                MaybeUnfilled::Unfilled
            },
    );
    if k == 0 {
        assert(elems.take(0) =~= Seq::<LabelledElem>::empty());
        assert(lab_entries(elems.take(0)).len() == 0);
        assert(target =~= sh0);
    } else {
        lemma_scan_of_encoded(slots, elems, k - 1);
        let prev = Seq::new(
            slots.len(),
            |i: int|
                if i < k - 1 {
                    expected_fill(elems[i])
                } else {
                    MaybeUnfilled::Unfilled
                },
        );
        let tk = elems.take(k);
        assert(tk.drop_last() =~= elems.take(k - 1));
        assert(tk.last() == elems[k - 1]);
        assert(elem_fits(elems[k - 1], slots[k - 1]));
        lemma_first_match_of_label(slots, k - 1);
        match elems[k - 1] {
            LabelledElem::Required { label, value } => {
                assert(lab_entries(tk) =~= lab_entries(elems.take(k - 1)) + seq![(label, value)]);
                assert(lab_entries(tk).drop_last() =~= lab_entries(elems.take(k - 1)));
                assert(lab_entries(tk).last() == (label, value));
                assert(label@ == slots[k - 1].label@);
                assert(first_match(slots, label@) == k - 1);
                assert(spec_scan(slots, sh0, lab_entries(tk)) == Ok::<
                    Seq<MaybeUnfilled<Value>>,
                    DecodeError,
                >(prev.update(k - 1, MaybeUnfilled::Filled(value))));
                assert(prev.update(k - 1, MaybeUnfilled::Filled(value)) =~= target);
            },
            LabelledElem::Optional { label, value: Some(v) } => {
                assert(lab_entries(tk) =~= lab_entries(elems.take(k - 1)) + seq![(label, v)]);
                assert(lab_entries(tk).drop_last() =~= lab_entries(elems.take(k - 1)));
                assert(lab_entries(tk).last() == (label, v));
                assert(label@ == slots[k - 1].label@);
                assert(first_match(slots, label@) == k - 1);
                assert(spec_scan(slots, sh0, lab_entries(tk)) == Ok::<
                    Seq<MaybeUnfilled<Value>>,
                    DecodeError,
                >(prev.update(k - 1, MaybeUnfilled::Filled(v))));
                assert(prev.update(k - 1, MaybeUnfilled::Filled(v)) =~= target);
            },
            LabelledElem::Optional { label: _, value: None } => {
                assert(lab_entries(tk) =~= lab_entries(elems.take(k - 1)));
                assert(prev =~= target);
            },
        }
    }
}

/// Converting the shadow sequence the encoded elements scan to hands back
/// exactly those elements.
proof fn lemma_convert_expected(slots: Seq<LabelledSlot>, elems: Seq<LabelledElem>)
    requires
        conforms(elems, slots),
    ensures
        spec_convert(slots, Seq::new(slots.len(), |i: int| expected_fill(elems[i]))) == Ok::<
            Seq<LabelledElem>,
            DecodeError,
        >(elems),
    decreases slots.len(),
{
    let shadow = Seq::new(slots.len(), |i: int| expected_fill(elems[i]));
    if slots.len() == 0 {
        assert(elems =~= Seq::<LabelledElem>::empty());
    } else {
        let df = slots.drop_first();
        let de = elems.drop_first();
        assert(forall|i: int| 0 <= i < df.len() ==> #[trigger] df[i] == slots[i + 1]);
        assert(forall|i: int| 0 <= i < de.len() ==> #[trigger] de[i] == elems[i + 1]);
        assert(conforms(de, df)) by {
            assert forall|i: int| 0 <= i < de.len() implies #[trigger] elem_fits(
                de[i],
                df[i],
            ) by {
                assert(elem_fits(elems[i + 1], slots[i + 1]));
            }
        }
        lemma_convert_expected(df, de);
        let dshadow = Seq::new(df.len(), |i: int| expected_fill(de[i]));
        assert(shadow.drop_first() =~= dshadow);
        assert(elem_fits(elems[0], slots[0]));
        assert(shadow[0] == expected_fill(elems[0]));
        match elems[0] {
            LabelledElem::Required { label, value } => {
                assert(seq![LabelledElem::Required { label: slots[0].label, value }] + de
                    =~= elems);
            },
            LabelledElem::Optional { label, value: Some(v) } => {
                assert(seq![
                    LabelledElem::Optional { label: slots[0].label, value: Some(v) },
                ] + de =~= elems);
            },
            LabelledElem::Optional { label, value: None } => {
                assert(seq![
                    LabelledElem::Optional {
                        label: slots[0].label,
                        value: None::<Value>,
                    },
                ] + de =~= elems);
            },
        }
    }
}

/// Round-trip law for the labelled map: a sequence of elements that fits
/// slots with pairwise distinct labels, encoded and decoded back against
/// those slots, comes back unchanged — presence and absence of every
/// optional element included.
pub proof fn lemma_labelled_round_trip(slots: Seq<LabelledSlot>, elems: Seq<LabelledElem>)
    requires
        distinct_labels(slots),
        conforms(elems, slots),
    ensures
        labelled_decoded(slots, lab_entries(elems)) == Ok::<Seq<LabelledElem>, DecodeError>(
            elems,
        ),
{
    lemma_scan_of_encoded(slots, elems, elems.len() as int);
    assert(elems.take(elems.len() as int) =~= elems);
    let filled = Seq::new(
        slots.len(),
        |i: int|
            if i < elems.len() {
                expected_fill(elems[i])
            } else {
                MaybeUnfilled::Unfilled
            },
    );
    assert(filled =~= Seq::new(slots.len(), |i: int| expected_fill(elems[i])));
    lemma_convert_expected(slots, elems);
}

} // verus!
