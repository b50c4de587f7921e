//! The value model: a recursive sum type with one variant per literal and
//! composite form, the restricted `Key` type for map keys, the
//! insertion-ordered map, and the conversion from values to keys.
//!
//! Every value has a mathematical model (`ValueModel`) that the contracts
//! of the parser, the printer and the encoder bridge speak about. Sets are
//! stored sorted under the total value order, so set equality is plain
//! structural equality; maps keep their entries in insertion order with
//! pairwise-distinct keys.

use vstd::prelude::*;
use vstd::pervasive::VecAdditionalExecFns;
use crate::float::FloatValue;
use crate::float::float_normal;
use crate::float::CmpResult;
use crate::symbol::Symbol;
use crate::error::Error;

verus! {

/// Earliest instant the printer can render: 0000-01-01T00:00:00Z,
/// as milliseconds from the epoch.
pub const INSTANT_MILLIS_MIN: i64 = -62167219200000;

/// Latest instant the printer can render: 9999-12-31T23:59:59.999Z.
pub const INSTANT_MILLIS_MAX: i64 = 253402300799999;

/// Whether a timestamp lies in the four-digit-year range this library
/// accepts and prints.
pub open spec fn instant_in_range(ms: int) -> bool {
    INSTANT_MILLIS_MIN <= ms <= INSTANT_MILLIS_MAX
}

/// A timezone-aware timestamp, normalized to milliseconds from the epoch
/// in universal time. Two timestamps denoting the same instant compare
/// equal whatever offsets their sources carried.
#[derive(Clone, Copy, PartialEq, Eq, Structural, PartialOrd, Ord, Hash, Debug)]
pub struct Instant {
    pub millis: i64,
}

/// A 128-bit unique identifier.
#[derive(Clone, Copy, PartialEq, Eq, Structural, PartialOrd, Ord, Hash, Debug)]
pub struct UuidValue {
    pub bits: u128,
}

/// Any value of the notation.
#[derive(PartialEq, Eq, Hash, Debug)]
pub enum Value {
    Nil,
    Boolean(bool),
    Integer(i64),
    Float(FloatValue),
    String(String),
    Symbol(Symbol),
    Keyword(Symbol),
    Vector(Vec<Value>),
    List(Vec<Value>),
    SetOf(Vec<Value>),
    MapOf(ValueMap),
    Instant(Instant),
    Uuid(UuidValue),
    Character(char),
    Tagged(Symbol, Box<Value>),
}

/// Any value that may serve as a map key.
#[derive(Clone, PartialEq, Eq, PartialOrd, Ord, Hash, Debug)]
pub enum Key {
    Keyword(Symbol),
    String(String),
    Symbol(Symbol),
    Integer(i64),
    Boolean(bool),
    Character(char),
    Uuid(UuidValue),
}

/// An insertion-ordered map from keys to values with unique keys.
#[derive(PartialEq, Eq, Hash, Debug)]
pub struct ValueMap {
    pub entries: Vec<(Key, Value)>,
}

/// The mathematical model of a value.
#[verifier::ext_equal]
pub enum ValueModel {
    Nil,
    Boolean(bool),
    Integer(int),
    Float(FloatValue),
    String(Seq<char>),
    Symbol(int),
    Keyword(int),
    Vector(Seq<ValueModel>),
    List(Seq<ValueModel>),
    SetOf(Seq<ValueModel>),
    MapOf(Seq<(KeyModel, ValueModel)>),
    Instant(int),
    Uuid(int),
    Character(char),
    Tagged(int, Box<ValueModel>),
}

/// The mathematical model of a key.
#[verifier::ext_equal]
pub enum KeyModel {
    Keyword(int),
    String(Seq<char>),
    Symbol(int),
    Integer(int),
    Boolean(bool),
    Character(char),
    Uuid(int),
}

/// The model of a value.
pub open spec fn value_model(v: Value) -> ValueModel
    decreases v,
{
    match v {
        Value::Nil => ValueModel::Nil,
        Value::Boolean(b) => ValueModel::Boolean(b),
        Value::Integer(i) => ValueModel::Integer(i as int),
        Value::Float(f) => ValueModel::Float(f),
        Value::String(s) => ValueModel::String(s@),
        Value::Symbol(s) => ValueModel::Symbol(s.id as int),
        Value::Keyword(s) => ValueModel::Keyword(s.id as int),
        Value::Vector(vs) => ValueModel::Vector(seq_model(vs@)),
        Value::List(vs) => ValueModel::List(seq_model(vs@)),
        Value::SetOf(vs) => ValueModel::SetOf(seq_model(vs@)),
        Value::MapOf(m) => ValueModel::MapOf(map_model(m)),
        Value::Instant(t) => ValueModel::Instant(t.millis as int),
        Value::Uuid(u) => ValueModel::Uuid(u.bits as int),
        Value::Character(c) => ValueModel::Character(c),
        Value::Tagged(t, v) => ValueModel::Tagged(t.id as int, Box::new(value_model(*v))),
    }
}

/// The models of a sequence of values, element by element.
pub open spec fn seq_model(vs: Seq<Value>) -> Seq<ValueModel>
    decreases vs,
{
    if vs.len() == 0 {
        Seq::empty()
    } else {
        seq![value_model(vs[0])] + seq_model(vs.drop_first())
    }
}

/// The models of a sequence of map entries, entry by entry.
pub open spec fn entries_model(es: Seq<(Key, Value)>) -> Seq<(KeyModel, ValueModel)>
    decreases es,
{
    if es.len() == 0 {
        Seq::empty()
    } else {
        seq![(key_model(es[0].0), value_model(es[0].1))] + entries_model(es.drop_first())
    }
}

/// `seq_model` maps the sequence pointwise.
pub proof fn lemma_seq_model(vs: Seq<Value>)
    ensures
        seq_model(vs).len() == vs.len(),
        forall|i: int| 0 <= i < vs.len() ==> #[trigger] seq_model(vs)[i] == value_model(vs[i]),
    decreases vs,
{
    if vs.len() > 0 {
        lemma_seq_model(vs.drop_first());
        assert forall|i: int| 0 <= i < vs.len() implies #[trigger] seq_model(vs)[i] == value_model(
            vs[i],
        ) by {
            if i > 0 {
                assert(vs.drop_first()[i - 1] == vs[i]);
                assert(seq_model(vs)[i] == seq_model(vs.drop_first())[i - 1]);
            }
        }
    }
}

/// `entries_model` maps the entries pointwise.
pub proof fn lemma_entries_model(es: Seq<(Key, Value)>)
    ensures
        entries_model(es).len() == es.len(),
        forall|i: int| 0 <= i < es.len() ==> #[trigger] entries_model(es)[i] == (
            key_model(es[i].0),
            value_model(es[i].1),
        ),
    decreases es,
{
    if es.len() > 0 {
        lemma_entries_model(es.drop_first());
        assert forall|i: int| 0 <= i < es.len() implies #[trigger] entries_model(es)[i] == (
            key_model(es[i].0),
            value_model(es[i].1),
        ) by {
            if i > 0 {
                assert(es.drop_first()[i - 1] == es[i]);
                assert(entries_model(es)[i] == entries_model(es.drop_first())[i - 1]);
            }
        }
    }
}

/// The model of a map: its entries' models, in insertion order.
pub open spec fn map_model(m: ValueMap) -> Seq<(KeyModel, ValueModel)>
    decreases m,
{
    entries_model(m.entries@)
}

/// The model of a key.
pub open spec fn key_model(k: Key) -> KeyModel {
    match k {
        Key::Keyword(s) => KeyModel::Keyword(s.id as int),
        Key::String(s) => KeyModel::String(s@),
        Key::Symbol(s) => KeyModel::Symbol(s.id as int),
        Key::Integer(i) => KeyModel::Integer(i as int),
        Key::Boolean(b) => KeyModel::Boolean(b),
        Key::Character(c) => KeyModel::Character(c),
        Key::Uuid(u) => KeyModel::Uuid(u.bits as int),
    }
}

impl View for Value {
    type V = ValueModel;

    open spec fn view(&self) -> ValueModel {
        value_model(*self)
    }
}

impl View for Key {
    type V = KeyModel;

    open spec fn view(&self) -> KeyModel {
        key_model(*self)
    }
}

impl View for ValueMap {
    type V = Seq<(KeyModel, ValueModel)>;

    open spec fn view(&self) -> Seq<(KeyModel, ValueModel)> {
        map_model(*self)
    }
}

/// The key a value converts to, where it converts at all: exactly the
/// keyword, string, symbol, integer, boolean, character and unique-id
/// kinds carry over, with their payloads unchanged.
pub open spec fn model_try_key(m: ValueModel) -> Option<KeyModel> {
    match m {
        ValueModel::Keyword(id) => Some(KeyModel::Keyword(id)),
        ValueModel::String(s) => Some(KeyModel::String(s)),
        ValueModel::Symbol(id) => Some(KeyModel::Symbol(id)),
        ValueModel::Integer(i) => Some(KeyModel::Integer(i)),
        ValueModel::Boolean(b) => Some(KeyModel::Boolean(b)),
        ValueModel::Character(c) => Some(KeyModel::Character(c)),
        ValueModel::Uuid(u) => Some(KeyModel::Uuid(u)),
        _ => None,
    }
}

/// The value a key came from, for round trips through map entries.
pub open spec fn key_to_value_model(k: KeyModel) -> ValueModel {
    match k {
        KeyModel::Keyword(id) => ValueModel::Keyword(id),
        KeyModel::String(s) => ValueModel::String(s),
        KeyModel::Symbol(id) => ValueModel::Symbol(id),
        KeyModel::Integer(i) => ValueModel::Integer(i),
        KeyModel::Boolean(b) => ValueModel::Boolean(b),
        KeyModel::Character(c) => ValueModel::Character(c),
        KeyModel::Uuid(u) => ValueModel::Uuid(u),
    }
}

/// Converts a value into a map key. Succeeds exactly for the seven
/// permitted kinds; every other kind is reported as an invalid key.
pub fn try_key(value: Value) -> (r: Result<Key, Error>)
    ensures
        (r is Ok) <==> (model_try_key(value@) is Some),
        (r is Ok) ==> key_model(r->Ok_0) == model_try_key(value@)->0,
        (r is Err) ==> r->Err_0 == Error::InvalidKey,
{
    match value {
        Value::Keyword(s) => Ok(Key::Keyword(s)),
        Value::String(s) => Ok(Key::String(s)),
        Value::Symbol(s) => Ok(Key::Symbol(s)),
        Value::Integer(i) => Ok(Key::Integer(i)),
        Value::Boolean(b) => Ok(Key::Boolean(b)),
        Value::Character(c) => Ok(Key::Character(c)),
        Value::Uuid(u) => Ok(Key::Uuid(u)),
        _ => Err(Error::InvalidKey),
    }
}

/// The value a key unfolds back to.
pub fn key_to_value(key: Key) -> (r: Value)
    ensures
        r@ == key_to_value_model(key@),
{
    match key {
        Key::Keyword(s) => Value::Keyword(s),
        Key::String(s) => Value::String(s),
        Key::Symbol(s) => Value::Symbol(s),
        Key::Integer(i) => Value::Integer(i),
        Key::Boolean(b) => Value::Boolean(b),
        Key::Character(c) => Value::Character(c),
        Key::Uuid(u) => Value::Uuid(u),
    }
}

/// Whether two keys are the same key.
pub fn key_eq(a: &Key, b: &Key) -> (r: bool)
    ensures
        r == (a@ == b@),
{
    match (a, b) {
        (Key::Keyword(x), Key::Keyword(y)) => x.id == y.id,
        (Key::String(x), Key::String(y)) => crate::text::str_eq(x.as_str(), y.as_str()),
        (Key::Symbol(x), Key::Symbol(y)) => x.id == y.id,
        (Key::Integer(x), Key::Integer(y)) => x == y,
        (Key::Boolean(x), Key::Boolean(y)) => x == y,
        (Key::Character(x), Key::Character(y)) => x == y,
        (Key::Uuid(x), Key::Uuid(y)) => x.bits == y.bits,
        _ => false,
    }
}

/// Looks `k` up among model entries, front to back.
pub open spec fn map_find(entries: Seq<(KeyModel, ValueModel)>, k: KeyModel) -> Option<ValueModel>
    decreases entries.len(),
{
    if entries.len() == 0 {
        None
    } else if entries[0].0 == k {
        Some(entries[0].1)
    } else {
        map_find(entries.drop_first(), k)
    }
}

/// Model keys are pairwise distinct.
pub open spec fn map_keys_distinct(entries: Seq<(KeyModel, ValueModel)>) -> bool {
    forall|i: int, j: int| 0 <= i < j < entries.len() ==> entries[i].0 != entries[j].0
}

impl ValueMap {
    /// An empty map.
    pub fn new() -> (r: ValueMap)
        ensures
            r@.len() == 0,
    {
        let r = ValueMap { entries: Vec::new() };
        proof {
            lemma_entries_model(r.entries@);
        }
        r
    }

    /// How many entries the map holds.
    pub fn len(&self) -> (r: usize)
        ensures
            r == self@.len(),
    {
        proof {
            lemma_entries_model(self.entries@);
        }
        self.entries.len()
    }

    /// The key of entry `i`, in insertion order.
    pub fn key_at(&self, i: usize) -> (r: &Key)
        requires
            i < self@.len(),
        ensures
            r@ == self@[i as int].0,
    {
        proof {
            lemma_entries_model(self.entries@);
        }
        &self.entries[i].0
    }

    /// The value of entry `i`, in insertion order.
    pub fn value_at(&self, i: usize) -> (r: &Value)
        requires
            i < self@.len(),
        ensures
            r@ == self@[i as int].1,
    {
        proof {
            lemma_entries_model(self.entries@);
        }
        &self.entries[i].1
    }

    /// The position of key `k`, if present.
    fn find_key(&self, k: &Key) -> (r: Option<usize>)
        ensures
            match r {
                Some(i) => i < self@.len() && self@[i as int].0 == k@ && forall|j: int|
                    0 <= j < i ==> self@[j].0 != k@,
                None => forall|i: int| 0 <= i < self@.len() ==> self@[i].0 != k@,
            },
    {
        proof {
            lemma_entries_model(self.entries@);
        }
        let mut i: usize = 0;
        while i < self.entries.len()
            invariant
                i <= self@.len(),
                self@.len() == self.entries@.len(),
                forall|j: int| 0 <= j < i ==> self@[j].0 != k@,
            decreases self.entries.len() - i,
        {
            proof {
                lemma_entries_model(self.entries@);
            }
            if key_eq(&self.entries[i].0, k) {
                return Some(i);
            }
            i = i + 1;
        }
        None
    }

    /// The value under key `k`, if present.
    pub fn get(&self, k: &Key) -> (r: Option<&Value>)
        ensures
            match r {
                Some(v) => map_find(self@, k@) == Some(v@),
                None => map_find(self@, k@) is None,
            },
    {
        proof {
            lemma_map_find_index(self@, k@);
        }
        proof {
            lemma_entries_model(self.entries@);
        }
        match self.find_key(k) {
            Some(i) => {
                proof {
                    lemma_map_find_some(self@, k@, i as int);
                }
                Some(&self.entries[i].1)
            },
            None => None,
        }
    }

    /// Adds `k -> v`: a present key keeps its position and receives the
    /// new value; an absent key is appended at the back.
    pub fn insert(&mut self, k: Key, v: Value)
        requires
            map_keys_distinct(old(self)@),
        ensures
            map_keys_distinct(final(self)@),
            ({
                let kept = old(self)@;
                if exists|i: int| 0 <= i < kept.len() && kept[i].0 == key_model(k) {
                    final(self)@ =~= kept.update(
                        (choose|i: int| 0 <= i < kept.len() && kept[i].0 == key_model(k)),
                        (key_model(k), value_model(v)),
                    )
                } else {
                    final(self)@ =~= kept.push((key_model(k), value_model(v)))
                }
            }),
            old(self)@.len() <= final(self)@.len() <= old(self)@.len() + 1,
    {
        let ghost kept = self@;
        proof {
            lemma_entries_model(self.entries@);
        }
        match self.find_key(&k) {
            Some(i) => {
                proof {
                    assert(kept[i as int].0 == key_model(k));
                    let j = choose|j: int| 0 <= j < kept.len() && kept[j].0 == key_model(k);
                    if j != i {
                        assert(false);
                    }
                }
                self.entries.set(i, (k, v));
                proof {
                    lemma_entries_model(self.entries@);
                    assert(self@ =~= kept.update(i as int, (key_model(k), value_model(v))));
                }
            },
            None => {
                self.entries.push((k, v));
                proof {
                    lemma_entries_model(self.entries@);
                    assert(self@ =~= kept.push((key_model(k), value_model(v))));
                }
            },
        }
    }
}

/// When no entry holds `k`, `map_find` yields nothing; the converse
/// connection between positions and `map_find` results.
pub proof fn lemma_map_find_index(entries: Seq<(KeyModel, ValueModel)>, k: KeyModel)
    ensures
        (map_find(entries, k) is None) <==> (forall|i: int|
            0 <= i < entries.len() ==> entries[i].0 != k),
    decreases entries.len(),
{
    if entries.len() > 0 {
        lemma_map_find_index(entries.drop_first(), k);
        if entries[0].0 != k {
            assert forall|i: int| 0 <= i < entries.len() && entries[i].0 != k implies true by {}
            assert(forall|i: int|
                1 <= i < entries.len() ==> entries[i].0 == entries.drop_first()[i - 1].0);
        }
    }
}

/// With distinct keys, the entry at the found position is what `map_find`
/// returns.
pub proof fn lemma_map_find_some(entries: Seq<(KeyModel, ValueModel)>, k: KeyModel, i: int)
    requires
        0 <= i < entries.len(),
        entries[i].0 == k,
        forall|j: int| 0 <= j < i ==> entries[j].0 != k,
    ensures
        map_find(entries, k) == Some(entries[i].1),
    decreases entries.len(),
{
    if i > 0 {
        assert(forall|j: int|
            0 <= j < entries.drop_first().len() ==> entries.drop_first()[j] == entries[j + 1]);
        lemma_map_find_some(entries.drop_first(), k, i - 1);
    }
}

/// The rank that decides the order between values of different kinds.
pub open spec fn rank_of(m: ValueModel) -> int {
    match m {
        ValueModel::Nil => 0,
        ValueModel::Boolean(_) => 1,
        ValueModel::Integer(_) => 2,
        ValueModel::Float(_) => 3,
        ValueModel::String(_) => 4,
        ValueModel::Symbol(_) => 5,
        ValueModel::Keyword(_) => 6,
        ValueModel::Vector(_) => 7,
        ValueModel::List(_) => 8,
        ValueModel::SetOf(_) => 9,
        ValueModel::MapOf(_) => 10,
        ValueModel::Instant(_) => 11,
        ValueModel::Uuid(_) => 12,
        ValueModel::Character(_) => 13,
        ValueModel::Tagged(_, _) => 14,
    }
}

/// The rank that decides the order between keys of different kinds.
pub open spec fn key_rank(k: KeyModel) -> int {
    match k {
        KeyModel::Keyword(_) => 0,
        KeyModel::String(_) => 1,
        KeyModel::Symbol(_) => 2,
        KeyModel::Integer(_) => 3,
        KeyModel::Boolean(_) => 4,
        KeyModel::Character(_) => 5,
        KeyModel::Uuid(_) => 6,
    }
}

/// The order on integers, as a comparison result.
pub open spec fn int_cmp(a: int, b: int) -> CmpResult {
    if a < b {
        CmpResult::Lt
    } else if a == b {
        CmpResult::Eq
    } else {
        CmpResult::Gt
    }
}

/// The lexicographic order on character sequences.
pub open spec fn chars_cmp(a: Seq<char>, b: Seq<char>) -> CmpResult
    decreases a.len(),
{
    if a.len() == 0 && b.len() == 0 {
        CmpResult::Eq
    } else if a.len() == 0 {
        CmpResult::Lt
    } else if b.len() == 0 {
        CmpResult::Gt
    } else if a[0] != b[0] {
        int_cmp(a[0] as int, b[0] as int)
    } else {
        chars_cmp(a.drop_first(), b.drop_first())
    }
}

/// The order on floats, as a comparison result.
pub open spec fn float_cmp_spec(a: FloatValue, b: FloatValue) -> CmpResult {
    if crate::float::float_lt(a, b) {
        CmpResult::Lt
    } else if crate::float::float_lt(b, a) {
        CmpResult::Gt
    } else {
        CmpResult::Eq
    }
}

/// The total order on keys: kind rank first, then the payload.
pub open spec fn key_cmp_spec(a: KeyModel, b: KeyModel) -> CmpResult {
    if key_rank(a) != key_rank(b) {
        int_cmp(key_rank(a), key_rank(b))
    } else {
        match (a, b) {
            (KeyModel::Keyword(x), KeyModel::Keyword(y)) => int_cmp(x, y),
            (KeyModel::String(x), KeyModel::String(y)) => chars_cmp(x, y),
            (KeyModel::Symbol(x), KeyModel::Symbol(y)) => int_cmp(x, y),
            (KeyModel::Integer(x), KeyModel::Integer(y)) => int_cmp(x, y),
            (KeyModel::Boolean(x), KeyModel::Boolean(y)) => int_cmp(
                if x { 1int } else { 0int },
                if y { 1int } else { 0int },
            ),
            (KeyModel::Character(x), KeyModel::Character(y)) => int_cmp(x as int, y as int),
            (KeyModel::Uuid(x), KeyModel::Uuid(y)) => int_cmp(x, y),
            _ => CmpResult::Eq,
        }
    }
}

/// The total order on values: kind rank first, then the payload;
/// composite forms compare element by element.
#[verifier::opaque]
pub open spec fn model_cmp(a: ValueModel, b: ValueModel) -> CmpResult
    decreases a,
{
    if rank_of(a) != rank_of(b) {
        int_cmp(rank_of(a), rank_of(b))
    } else {
        match (a, b) {
            (ValueModel::Nil, ValueModel::Nil) => CmpResult::Eq,
            (ValueModel::Boolean(x), ValueModel::Boolean(y)) => int_cmp(
                if x { 1int } else { 0int },
                if y { 1int } else { 0int },
            ),
            (ValueModel::Integer(x), ValueModel::Integer(y)) => int_cmp(x, y),
            (ValueModel::Float(x), ValueModel::Float(y)) => float_cmp_spec(x, y),
            (ValueModel::String(x), ValueModel::String(y)) => chars_cmp(x, y),
            (ValueModel::Symbol(x), ValueModel::Symbol(y)) => int_cmp(x, y),
            (ValueModel::Keyword(x), ValueModel::Keyword(y)) => int_cmp(x, y),
            (ValueModel::Vector(x), ValueModel::Vector(y)) => models_cmp(x, y),
            (ValueModel::List(x), ValueModel::List(y)) => models_cmp(x, y),
            (ValueModel::SetOf(x), ValueModel::SetOf(y)) => models_cmp(x, y),
            (ValueModel::MapOf(x), ValueModel::MapOf(y)) => map_entries_cmp(x, y),
            (ValueModel::Instant(x), ValueModel::Instant(y)) => int_cmp(x, y),
            (ValueModel::Uuid(x), ValueModel::Uuid(y)) => int_cmp(x, y),
            (ValueModel::Character(x), ValueModel::Character(y)) => int_cmp(x as int, y as int),
            (ValueModel::Tagged(tx, vx), ValueModel::Tagged(ty, vy)) => {
                if tx != ty {
                    int_cmp(tx, ty)
                } else {
                    model_cmp(*vx, *vy)
                }
            },
            _ => CmpResult::Eq,
        }
    }
}

/// The lexicographic order on sequences of values.
pub open spec fn models_cmp(a: Seq<ValueModel>, b: Seq<ValueModel>) -> CmpResult
    decreases a,
{
    if a.len() == 0 && b.len() == 0 {
        CmpResult::Eq
    } else if a.len() == 0 {
        CmpResult::Lt
    } else if b.len() == 0 {
        CmpResult::Gt
    } else {
        match model_cmp(a[0], b[0]) {
            CmpResult::Eq => models_cmp(a.drop_first(), b.drop_first()),
            c => c,
        }
    }
}

/// The lexicographic order on sequences of map entries.
pub open spec fn map_entries_cmp(
    a: Seq<(KeyModel, ValueModel)>,
    b: Seq<(KeyModel, ValueModel)>,
) -> CmpResult
    decreases a,
{
    if a.len() == 0 && b.len() == 0 {
        CmpResult::Eq
    } else if a.len() == 0 {
        CmpResult::Lt
    } else if b.len() == 0 {
        CmpResult::Gt
    } else {
        match key_cmp_spec(a[0].0, b[0].0) {
            CmpResult::Eq => match model_cmp(a[0].1, b[0].1) {
                CmpResult::Eq => map_entries_cmp(a.drop_first(), b.drop_first()),
                c => c,
            },
            c => c,
        }
    }
}

/// Every float in the tree is in canonical shape, so that the order on
/// values is total and agrees with equality.
pub open spec fn model_normal(m: ValueModel) -> bool
    decreases m,
{
    match m {
        ValueModel::Float(f) => float_normal(f),
        ValueModel::Vector(vs) => models_normal(vs),
        ValueModel::List(vs) => models_normal(vs),
        ValueModel::SetOf(vs) => models_normal(vs),
        ValueModel::MapOf(es) => entries_normal(es),
        ValueModel::Tagged(_, v) => model_normal(*v),
        _ => true,
    }
}

/// Normality for each element of a sequence.
pub open spec fn models_normal(vs: Seq<ValueModel>) -> bool
    decreases vs,
{
    if vs.len() == 0 {
        true
    } else {
        model_normal(vs[0]) && models_normal(vs.drop_first())
    }
}

/// Normality for each value of a sequence of entries.
pub open spec fn entries_normal(es: Seq<(KeyModel, ValueModel)>) -> bool
    decreases es,
{
    if es.len() == 0 {
        true
    } else {
        model_normal(es[0].1) && entries_normal(es.drop_first())
    }
}

/// `models_normal` holds pointwise.
pub proof fn lemma_models_normal(vs: Seq<ValueModel>)
    requires
        models_normal(vs),
    ensures
        forall|i: int| 0 <= i < vs.len() ==> model_normal(#[trigger] vs[i]),
    decreases vs,
{
    if vs.len() > 0 {
        lemma_models_normal(vs.drop_first());
        assert forall|i: int| 0 <= i < vs.len() implies model_normal(#[trigger] vs[i]) by {
            if i > 0 {
                assert(vs.drop_first()[i - 1] == vs[i]);
            }
        }
    }
}

/// `entries_normal` holds pointwise.
pub proof fn lemma_entries_normal(es: Seq<(KeyModel, ValueModel)>)
    requires
        entries_normal(es),
    ensures
        forall|i: int| 0 <= i < es.len() ==> model_normal(#[trigger] es[i].1),
    decreases es,
{
    if es.len() > 0 {
        lemma_entries_normal(es.drop_first());
        assert forall|i: int| 0 <= i < es.len() implies model_normal(#[trigger] es[i].1) by {
            if i > 0 {
                assert(es.drop_first()[i - 1] == es[i]);
            }
        }
    }
}

/// Reversing the arguments reverses the outcome of every comparison.
pub proof fn lemma_model_cmp_flip(a: ValueModel, b: ValueModel)
    ensures
        (model_cmp(a, b) is Lt) <==> (model_cmp(b, a) is Gt),
        (model_cmp(a, b) is Eq) <==> (model_cmp(b, a) is Eq),
    decreases a,
{
    reveal(model_cmp);
    if rank_of(a) == rank_of(b) {
        match (a, b) {
            (ValueModel::Vector(x), ValueModel::Vector(y)) => lemma_models_cmp_flip(x, y),
            (ValueModel::List(x), ValueModel::List(y)) => lemma_models_cmp_flip(x, y),
            (ValueModel::SetOf(x), ValueModel::SetOf(y)) => lemma_models_cmp_flip(x, y),
            (ValueModel::MapOf(x), ValueModel::MapOf(y)) => lemma_map_entries_cmp_flip(x, y),
            (ValueModel::String(x), ValueModel::String(y)) => lemma_chars_cmp_flip(x, y),
            (ValueModel::Tagged(tx, vx), ValueModel::Tagged(ty, vy)) => {
                if tx == ty {
                    lemma_model_cmp_flip(*vx, *vy);
                }
            },
            _ => {},
        }
    }
}

/// Reversal for sequences of values.
pub proof fn lemma_models_cmp_flip(a: Seq<ValueModel>, b: Seq<ValueModel>)
    ensures
        (models_cmp(a, b) is Lt) <==> (models_cmp(b, a) is Gt),
        (models_cmp(a, b) is Eq) <==> (models_cmp(b, a) is Eq),
    decreases a,
{
    reveal(model_cmp);
    if a.len() > 0 && b.len() > 0 {
        lemma_model_cmp_flip(a[0], b[0]);
        lemma_models_cmp_flip(a.drop_first(), b.drop_first());
    }
}

/// Reversal for sequences of map entries.
pub proof fn lemma_map_entries_cmp_flip(
    a: Seq<(KeyModel, ValueModel)>,
    b: Seq<(KeyModel, ValueModel)>,
)
    ensures
        (map_entries_cmp(a, b) is Lt) <==> (map_entries_cmp(b, a) is Gt),
        (map_entries_cmp(a, b) is Eq) <==> (map_entries_cmp(b, a) is Eq),
    decreases a,
{
    reveal(model_cmp);
    if a.len() > 0 && b.len() > 0 {
        lemma_key_cmp_flip(a[0].0, b[0].0);
        lemma_model_cmp_flip(a[0].1, b[0].1);
        lemma_map_entries_cmp_flip(a.drop_first(), b.drop_first());
    }
}

/// Reversal for keys.
pub proof fn lemma_key_cmp_flip(a: KeyModel, b: KeyModel)
    ensures
        (key_cmp_spec(a, b) is Lt) <==> (key_cmp_spec(b, a) is Gt),
        (key_cmp_spec(a, b) is Eq) <==> (key_cmp_spec(b, a) is Eq),
{
    if key_rank(a) == key_rank(b) {
        match (a, b) {
            (KeyModel::String(x), KeyModel::String(y)) => lemma_chars_cmp_flip(x, y),
            _ => {},
        }
    }
}

/// Reversal for character sequences.
pub proof fn lemma_chars_cmp_flip(a: Seq<char>, b: Seq<char>)
    ensures
        (chars_cmp(a, b) is Lt) <==> (chars_cmp(b, a) is Gt),
        (chars_cmp(a, b) is Eq) <==> (chars_cmp(b, a) is Eq),
    decreases a.len(),
{
    if a.len() > 0 && b.len() > 0 && a[0] == b[0] {
        lemma_chars_cmp_flip(a.drop_first(), b.drop_first());
    }
}

/// Set elements stand in strictly ascending order.
pub open spec fn models_sorted(vs: Seq<ValueModel>) -> bool {
    forall|i: int| #![trigger vs[i]] 0 <= i < vs.len() - 1 ==> model_cmp(vs[i], vs[i + 1]) is Lt
}

/// Exec rank of a value's kind.
fn value_rank(a: &Value) -> (r: u64)
    ensures
        r as int == rank_of(a@),
{
    match a {
        Value::Nil => 0,
        Value::Boolean(_) => 1,
        Value::Integer(_) => 2,
        Value::Float(_) => 3,
        Value::String(_) => 4,
        Value::Symbol(_) => 5,
        Value::Keyword(_) => 6,
        Value::Vector(_) => 7,
        Value::List(_) => 8,
        Value::SetOf(_) => 9,
        Value::MapOf(_) => 10,
        Value::Instant(_) => 11,
        Value::Uuid(_) => 12,
        Value::Character(_) => 13,
        Value::Tagged(_, _) => 14,
    }
}

/// Exec lexicographic comparison of character vectors, from position `i`.
fn chars_cmp_from(a: &Vec<char>, b: &Vec<char>, i: usize) -> (r: CmpResult)
    requires
        i <= a@.len(),
        i <= b@.len(),
    ensures
        r == chars_cmp(a@.skip(i as int), b@.skip(i as int)),
    decreases a@.len() - i,
{
    let ghost sa = a@.skip(i as int);
    let ghost sb = b@.skip(i as int);
    proof {
        assert(sa.len() == a@.len() - i);
        assert(sb.len() == b@.len() - i);
    }
    if i == a.len() && i == b.len() {
        CmpResult::Eq
    } else if i == a.len() {
        CmpResult::Lt
    } else if i == b.len() {
        CmpResult::Gt
    } else {
        proof {
            assert(sa[0] == a@[i as int]);
            assert(sb[0] == b@[i as int]);
        }
        if a[i] == b[i] {
            proof {
                assert(sa.drop_first() =~= a@.skip(i + 1));
                assert(sb.drop_first() =~= b@.skip(i + 1));
            }
            chars_cmp_from(a, b, i + 1)
        } else if a[i] < b[i] {
            CmpResult::Lt
        } else {
            CmpResult::Gt
        }
    }
}

/// Exec lexicographic comparison of two string slices.
fn str_cmp(a: &str, b: &str) -> (r: CmpResult)
    ensures
        r == chars_cmp(a@, b@),
{
    let va = crate::text::str_chars(a);
    let vb = crate::text::str_chars(b);
    proof {
        assert(va@.skip(0) =~= a@);
        assert(vb@.skip(0) =~= b@);
    }
    chars_cmp_from(&va, &vb, 0)
}

/// The total order on keys: kind rank first, then the payload.
pub fn key_cmp(a: &Key, b: &Key) -> (r: CmpResult)
    ensures
        r == key_cmp_spec(a@, b@),
{
    match (a, b) {
        (Key::Keyword(x), Key::Keyword(y)) => cmp_usize(x.id, y.id),
        (Key::String(x), Key::String(y)) => str_cmp(x.as_str(), y.as_str()),
        (Key::Symbol(x), Key::Symbol(y)) => cmp_usize(x.id, y.id),
        (Key::Integer(x), Key::Integer(y)) => cmp_i64(*x, *y),
        (Key::Boolean(x), Key::Boolean(y)) => cmp_bool(*x, *y),
        (Key::Character(x), Key::Character(y)) => cmp_char(*x, *y),
        (Key::Uuid(x), Key::Uuid(y)) => cmp_u128(x.bits, y.bits),
        _ => {
            let ra = key_rank_exec(a);
            let rb = key_rank_exec(b);
            cmp_u64(ra, rb)
        },
    }
}

/// Exec rank of a key's kind.
fn key_rank_exec(a: &Key) -> (r: u64)
    ensures
        r as int == key_rank(a@),
{
    match a {
        Key::Keyword(_) => 0,
        Key::String(_) => 1,
        Key::Symbol(_) => 2,
        Key::Integer(_) => 3,
        Key::Boolean(_) => 4,
        Key::Character(_) => 5,
        Key::Uuid(_) => 6,
    }
}

fn cmp_usize(a: usize, b: usize) -> (r: CmpResult)
    ensures
        r == int_cmp(a as int, b as int),
{
    if a < b {
        CmpResult::Lt
    } else if a == b {
        CmpResult::Eq
    } else {
        CmpResult::Gt
    }
}

fn cmp_u64(a: u64, b: u64) -> (r: CmpResult)
    ensures
        r == int_cmp(a as int, b as int),
{
    if a < b {
        CmpResult::Lt
    } else if a == b {
        CmpResult::Eq
    } else {
        CmpResult::Gt
    }
}

fn cmp_u32(a: u32, b: u32) -> (r: CmpResult)
    ensures
        r == int_cmp(a as int, b as int),
{
    if a < b {
        CmpResult::Lt
    } else if a == b {
        CmpResult::Eq
    } else {
        CmpResult::Gt
    }
}

fn cmp_i64(a: i64, b: i64) -> (r: CmpResult)
    ensures
        r == int_cmp(a as int, b as int),
{
    if a < b {
        CmpResult::Lt
    } else if a == b {
        CmpResult::Eq
    } else {
        CmpResult::Gt
    }
}

fn cmp_u128(a: u128, b: u128) -> (r: CmpResult)
    ensures
        r == int_cmp(a as int, b as int),
{
    if a < b {
        CmpResult::Lt
    } else if a == b {
        CmpResult::Eq
    } else {
        CmpResult::Gt
    }
}

fn cmp_char(a: char, b: char) -> (r: CmpResult)
    ensures
        r == int_cmp(a as int, b as int),
{
    if a < b {
        CmpResult::Lt
    } else if a == b {
        CmpResult::Eq
    } else {
        CmpResult::Gt
    }
}

fn cmp_bool(a: bool, b: bool) -> (r: CmpResult)
    ensures
        r == int_cmp(if a { 1int } else { 0int }, if b { 1int } else { 0int }),
{
    match (a, b) {
        (false, true) => CmpResult::Lt,
        (true, false) => CmpResult::Gt,
        _ => CmpResult::Eq,
    }
}

/// The total order on values, matching `model_cmp`.
#[verifier::spinoff_prover]
#[verifier::rlimit(100)]
pub fn value_cmp(a: &Value, b: &Value) -> (r: CmpResult)
    requires
        model_normal(a@),
        model_normal(b@),
    ensures
        r == model_cmp(a@, b@),
    decreases *a, 0int,
{
    proof {
        reveal(model_cmp);
    }
    let ra = value_rank(a);
    let rb = value_rank(b);
    if ra != rb {
        return cmp_u64(ra, rb);
    }
    match (a, b) {
        (Value::Nil, Value::Nil) => CmpResult::Eq,
        (Value::Boolean(x), Value::Boolean(y)) => cmp_bool(*x, *y),
        (Value::Integer(x), Value::Integer(y)) => cmp_i64(*x, *y),
        (Value::Float(x), Value::Float(y)) => {
            proof {
                crate::float::lemma_float_order_total(*x, *y);
            }
            crate::float::float_cmp(x, y)
        },
        (Value::String(x), Value::String(y)) => str_cmp(x.as_str(), y.as_str()),
        (Value::Symbol(x), Value::Symbol(y)) => cmp_usize(x.id, y.id),
        (Value::Keyword(x), Value::Keyword(y)) => cmp_usize(x.id, y.id),
        (Value::Vector(x), Value::Vector(y)) => {
            proof {
                assert(seq_model(x@).skip(0) =~= seq_model(x@));
                assert(seq_model(y@).skip(0) =~= seq_model(y@));
            }
            vec_cmp(x, y, 0)
        },
        (Value::List(x), Value::List(y)) => {
            proof {
                assert(seq_model(x@).skip(0) =~= seq_model(x@));
                assert(seq_model(y@).skip(0) =~= seq_model(y@));
            }
            vec_cmp(x, y, 0)
        },
        (Value::SetOf(x), Value::SetOf(y)) => {
            proof {
                assert(seq_model(x@).skip(0) =~= seq_model(x@));
                assert(seq_model(y@).skip(0) =~= seq_model(y@));
            }
            vec_cmp(x, y, 0)
        },
        (Value::MapOf(x), Value::MapOf(y)) => {
            proof {
                assert(a@ == ValueModel::MapOf(map_model(*x)));
                assert(b@ == ValueModel::MapOf(map_model(*y)));
                assert(map_model(*x) == entries_model(x.entries@));
                assert(map_model(*y) == entries_model(y.entries@));
                assert(entries_model(x.entries@).skip(0) =~= entries_model(x.entries@));
                assert(entries_model(y.entries@).skip(0) =~= entries_model(y.entries@));
            }
            entries_cmp(&x.entries, &y.entries, 0)
        },
        (Value::Instant(x), Value::Instant(y)) => cmp_i64(x.millis, y.millis),
        (Value::Uuid(x), Value::Uuid(y)) => cmp_u128(x.bits, y.bits),
        (Value::Character(x), Value::Character(y)) => cmp_char(*x, *y),
        (Value::Tagged(tx, vx), Value::Tagged(ty, vy)) => {
            if tx.id != ty.id {
                cmp_usize(tx.id, ty.id)
            } else {
                value_cmp(&**vx, &**vy)
            }
        },
        _ => {
            proof {
                assert(false);
            }
            CmpResult::Eq
        },
    }
}

/// Elementwise comparison of two value vectors, from position `i`.
fn vec_cmp(a: &Vec<Value>, b: &Vec<Value>, i: usize) -> (r: CmpResult)
    requires
        i <= a@.len(),
        i <= b@.len(),
        models_normal(seq_model(a@)),
        models_normal(seq_model(b@)),
    ensures
        r == models_cmp(seq_model(a@).skip(i as int), seq_model(b@).skip(i as int)),
    decreases *a, a@.len() - i,
{
    proof {
        reveal(model_cmp);
        lemma_seq_model(a@);
        lemma_seq_model(b@);
        lemma_models_normal(seq_model(a@));
        lemma_models_normal(seq_model(b@));
    }
    let ghost sa = seq_model(a@).skip(i as int);
    let ghost sb = seq_model(b@).skip(i as int);
    proof {
        assert(sa.len() == a@.len() - i);
        assert(sb.len() == b@.len() - i);
    }
    if i == a.len() && i == b.len() {
        CmpResult::Eq
    } else if i == a.len() {
        CmpResult::Lt
    } else if i == b.len() {
        CmpResult::Gt
    } else {
        proof {
            assert(sa[0] == seq_model(a@)[i as int]);
            assert(sb[0] == seq_model(b@)[i as int]);
        }
        let c = value_cmp(&a[i], &b[i]);
        match c {
            CmpResult::Eq => {
                proof {
                    assert(sa.drop_first() =~= seq_model(a@).skip(i + 1));
                    assert(sb.drop_first() =~= seq_model(b@).skip(i + 1));
                }
                vec_cmp(a, b, i + 1)
            },
            other => other,
        }
    }
}

/// Entrywise comparison of two entry vectors, from position `i`.
fn entries_cmp(a: &Vec<(Key, Value)>, b: &Vec<(Key, Value)>, i: usize) -> (r: CmpResult)
    requires
        i <= a@.len(),
        i <= b@.len(),
        entries_normal(entries_model(a@)),
        entries_normal(entries_model(b@)),
    ensures
        r == map_entries_cmp(entries_model(a@).skip(i as int), entries_model(b@).skip(i as int)),
    decreases *a, a@.len() - i,
{
    proof {
        reveal(model_cmp);
        lemma_entries_model(a@);
        lemma_entries_model(b@);
        lemma_entries_normal(entries_model(a@));
        lemma_entries_normal(entries_model(b@));
    }
    let ghost sa = entries_model(a@).skip(i as int);
    let ghost sb = entries_model(b@).skip(i as int);
    proof {
        assert(sa.len() == a@.len() - i);
        assert(sb.len() == b@.len() - i);
    }
    if i == a.len() && i == b.len() {
        CmpResult::Eq
    } else if i == a.len() {
        CmpResult::Lt
    } else if i == b.len() {
        CmpResult::Gt
    } else {
        proof {
            assert(sa[0] == entries_model(a@)[i as int]);
            assert(sb[0] == entries_model(b@)[i as int]);
        }
        let kc = key_cmp(&a[i].0, &b[i].0);
        match kc {
            CmpResult::Eq => {
                let vc = value_cmp(&a[i].1, &b[i].1);
                match vc {
                    CmpResult::Eq => {
                        proof {
                            assert(sa.drop_first() =~= entries_model(a@).skip(i + 1));
                            assert(sb.drop_first() =~= entries_model(b@).skip(i + 1));
                        }
                        entries_cmp(a, b, i + 1)
                    },
                    other => other,
                }
            },
            other => other,
        }
    }
}

/// Where a value lands when inserted into a sorted run of values:
/// before the first larger element, dropped when already present.
#[verifier::opaque]
pub open spec fn set_insert_model(vs: Seq<ValueModel>, m: ValueModel) -> Seq<ValueModel>
    decreases vs,
{
    if vs.len() == 0 {
        seq![m]
    } else {
        match model_cmp(m, vs[0]) {
            CmpResult::Lt => seq![m] + vs,
            CmpResult::Eq => vs,
            CmpResult::Gt => seq![vs[0]] + set_insert_model(vs.drop_first(), m),
        }
    }
}

/// Inserting yields a nonempty run, one element longer at most, whose
/// head is the new value or the old head.
pub proof fn lemma_set_insert_shape(vs: Seq<ValueModel>, m: ValueModel)
    ensures
        vs.len() <= set_insert_model(vs, m).len() <= vs.len() + 1,
        set_insert_model(vs, m).len() >= 1,
        set_insert_model(vs, m)[0] == m || (vs.len() > 0 && set_insert_model(vs, m)[0] == vs[0]),
    decreases vs,
{
    reveal(set_insert_model);
    if vs.len() > 0 {
        lemma_set_insert_shape(vs.drop_first(), m);
    }
}

/// Inserting keeps the run sorted.
#[verifier::spinoff_prover]
#[verifier::rlimit(100)]
pub proof fn lemma_set_insert_sorted(vs: Seq<ValueModel>, m: ValueModel)
    requires
        models_sorted(vs),
    ensures
        models_sorted(set_insert_model(vs, m)),
        vs.len() <= set_insert_model(vs, m).len() <= vs.len() + 1,
        set_insert_model(vs, m).len() >= 1,
        set_insert_model(vs, m)[0] == m || (vs.len() > 0 && set_insert_model(vs, m)[0] == vs[0]),
    decreases vs,
{
    reveal(set_insert_model);
    lemma_set_insert_shape(vs, m);
    if vs.len() > 0 {
        let rest = vs.drop_first();
        assert(forall|i: int| 0 <= i < rest.len() ==> #[trigger] rest[i] == vs[i + 1]);
        match model_cmp(m, vs[0]) {
            CmpResult::Lt => {
                let out = seq![m] + vs;
                assert forall|i: int| 0 <= i < out.len() - 1 implies model_cmp(
                    #[trigger] out[i],
                    out[i + 1],
                ) is Lt by {
                    if i == 0 {
                        assert(out[0] == m && out[1] == vs[0]);
                    } else {
                        assert(out[i] == vs[i - 1] && out[i + 1] == vs[i]);
                    }
                }
            },
            CmpResult::Eq => {},
            CmpResult::Gt => {
                assert(models_sorted(rest));
                lemma_set_insert_sorted(rest, m);
                let ins = set_insert_model(rest, m);
                let out = seq![vs[0]] + ins;
                lemma_model_cmp_flip(m, vs[0]);
                assert(model_cmp(vs[0], m) is Lt);
                assert forall|i: int| 0 <= i < out.len() - 1 implies model_cmp(
                    #[trigger] out[i],
                    out[i + 1],
                ) is Lt by {
                    if i == 0 {
                        assert(out[0] == vs[0] && out[1] == ins[0]);
                        if ins[0] == m {
                        } else {
                            assert(rest.len() > 0 && ins[0] == rest[0]);
                            assert(model_cmp(vs[0], vs[1]) is Lt);
                        }
                    } else {
                        assert(out[i] == ins[i - 1] && out[i + 1] == ins[i]);
                    }
                }
            },
        }
    } else {
        let out = seq![m];
        assert(models_sorted(out));
    }
}

/// Inserting a normal value into a run of normal values stays normal.
pub proof fn lemma_set_insert_normal(vs: Seq<ValueModel>, m: ValueModel)
    requires
        models_normal(vs),
        model_normal(m),
    ensures
        models_normal(set_insert_model(vs, m)),
    decreases vs,
{
    reveal(set_insert_model);
    if vs.len() == 0 {
        let out = seq![m];
        assert(out[0] == m);
        assert(out.drop_first() =~= Seq::<ValueModel>::empty());
        assert(models_normal(Seq::<ValueModel>::empty()));
        assert(models_normal(out));
    } else {
        match model_cmp(m, vs[0]) {
            CmpResult::Lt => {
                let out = seq![m] + vs;
                assert(out.drop_first() =~= vs);
                assert(out[0] == m);
                assert(models_normal(out));
            },
            CmpResult::Eq => {},
            CmpResult::Gt => {
                lemma_set_insert_normal(vs.drop_first(), m);
                let out = seq![vs[0]] + set_insert_model(vs.drop_first(), m);
                assert(out.drop_first() =~= set_insert_model(vs.drop_first(), m));
                assert(out[0] == vs[0]);
                assert(model_normal(vs[0]));
                assert(models_normal(out));
            },
        }
    }
}

/// Where the first element not below `m` sits decides the whole insertion:
/// an equal element leaves the run unchanged, otherwise `m` lands there.
proof fn lemma_set_insert_at(vs: Seq<ValueModel>, m: ValueModel, i: int)
    requires
        0 <= i <= vs.len(),
        forall|j: int| 0 <= j < i ==> model_cmp(#[trigger] vs[j], m) is Lt,
        i < vs.len() ==> !(model_cmp(vs[i], m) is Lt),
    ensures
        (i < vs.len() && model_cmp(vs[i], m) is Eq) ==> set_insert_model(vs, m) == vs,
        (i == vs.len() || model_cmp(vs[i], m) is Gt) ==> set_insert_model(vs, m) == vs.insert(
            i,
            m,
        ),
    decreases vs,
{
    reveal(set_insert_model);
    if i == 0 {
        if vs.len() == 0 {
            assert(set_insert_model(vs, m) =~= vs.insert(0, m));
        } else {
            lemma_model_cmp_flip(vs[0], m);
            match model_cmp(m, vs[0]) {
                CmpResult::Lt => {
                    assert(seq![m] + vs =~= vs.insert(0, m));
                },
                CmpResult::Eq => {},
                CmpResult::Gt => {
                    assert(model_cmp(vs[0], m) is Lt);
                    assert(false);
                },
            }
        }
    } else {
        let rest = vs.drop_first();
        assert(forall|j: int| 0 <= j < rest.len() ==> rest[j] == vs[j + 1]);
        assert(model_cmp(vs[0], m) is Lt);
        lemma_model_cmp_flip(vs[0], m);
        assert(model_cmp(m, vs[0]) is Gt);
        lemma_set_insert_at(rest, m, i - 1);
        assert(set_insert_model(vs, m) == seq![vs[0]] + set_insert_model(rest, m));
        if i < vs.len() && model_cmp(vs[i], m) is Eq {
            assert(rest[i - 1] == vs[i]);
            assert(seq![vs[0]] + rest =~= vs);
        } else {
            assert(seq![vs[0]] + rest.insert(i - 1, m) =~= vs.insert(i, m));
        }
    }
}

/// The models of a vector after an element insert are the models with the
/// new element's model inserted at the same place.
proof fn lemma_seq_model_vec_insert(vsold: Seq<Value>, vsnew: Seq<Value>, i: int, v: Value)
    requires
        0 <= i <= vsold.len(),
        vsnew == vsold.insert(i, v),
    ensures
        seq_model(vsnew) =~= seq_model(vsold).insert(i, value_model(v)),
{
    lemma_seq_model(vsold);
    lemma_seq_model(vsnew);
}

/// Inserts `v` into the sorted run `vs`, keeping it sorted and dropping
/// the value when an equal element is already there.
#[verifier::spinoff_prover]
#[verifier::rlimit(100)]
pub fn set_insert(vs: &mut Vec<Value>, v: Value)
    requires
        models_sorted(seq_model(old(vs)@)),
        models_normal(seq_model(old(vs)@)),
        model_normal(v@),
    ensures
        seq_model(final(vs)@) == set_insert_model(seq_model(old(vs)@), v@),
        models_sorted(seq_model(final(vs)@)),
        models_normal(seq_model(final(vs)@)),
{
    let ghost orig = seq_model(vs@);
    let ghost m = v@;
    proof {
        lemma_seq_model(vs@);
    }
    let mut i: usize = 0;
    let mut found_eq = false;
    let mut done = false;
    while !done && i < vs.len()
        invariant
            i <= vs@.len(),
            vs@ == old(vs)@,
            model_normal(m),
            models_normal(orig),
            m == v@,
            orig == seq_model(vs@),
            orig.len() == vs@.len(),
            models_sorted(orig),
            forall|j: int| 0 <= j < i ==> model_cmp(#[trigger] orig[j], m) is Lt,
            !found_eq,
            done ==> i < vs@.len() && (model_cmp(orig[i as int], m) is Gt),
        decreases vs@.len() - i, if done { 0int } else { 1int },
    {
        proof {
            lemma_seq_model(vs@);
            lemma_models_normal(orig);
            assert(seq_model(vs@)[i as int] == value_model(vs@[i as int]));
        }
        let c = value_cmp(&vs[i], &v);
        match c {
            CmpResult::Lt => {
                i = i + 1;
            },
            CmpResult::Eq => {
                proof {
                    assert(model_cmp(orig[i as int], m) is Eq);
                    lemma_set_insert_at(orig, m, i as int);
                    assert(set_insert_model(orig, m) == orig);
                    lemma_set_insert_sorted(orig, m);
                    lemma_set_insert_normal(orig, m);
                }
                return;
            },
            CmpResult::Gt => {
                done = true;
            },
        }
    }
    proof {
        lemma_set_insert_at(orig, m, i as int);
    }
    if done {
        vs.insert(i, v);
        proof {
            lemma_seq_model_vec_insert(old(vs)@, vs@, i as int, v);
            lemma_set_insert_sorted(orig, m);
            lemma_set_insert_normal(orig, m);
        }
    } else {
        vs.push(v);
        proof {
            assert(vs@ =~= old(vs)@.insert(old(vs)@.len() as int, v));
            lemma_seq_model_vec_insert(old(vs)@, vs@, old(vs)@.len() as int, v);
            lemma_set_insert_sorted(orig, m);
            lemma_set_insert_normal(orig, m);
        }
    }
}

/// The text of the built-in unique-id tag.
pub open spec fn uuid_tag_chars() -> Seq<char> {
    seq!['u', 'u', 'i', 'd']
}

/// The text of the built-in timestamp tag.
pub open spec fn inst_tag_chars() -> Seq<char> {
    seq!['i', 'n', 's', 't']
}

/// Structural well-formedness of a value against a symbol table: symbol
/// handles point into the table, sets are sorted runs, map keys are
/// pairwise distinct, timestamps are printable, and a generic tag is never
/// one of the two built-in tags the parser resolves eagerly.
pub open spec fn model_shape(m: ValueModel, tab: Seq<Seq<char>>) -> bool
    decreases m,
{
    match m {
        ValueModel::Float(f) => float_normal(f),
        ValueModel::Symbol(id) => 0 <= id < tab.len(),
        ValueModel::Keyword(id) => 0 <= id < tab.len(),
        ValueModel::Vector(vs) => shapes_all(vs, tab),
        ValueModel::List(vs) => shapes_all(vs, tab),
        ValueModel::SetOf(vs) => shapes_all(vs, tab) && models_sorted(vs),
        ValueModel::MapOf(es) => entries_shape(es, tab) && map_keys_distinct(es),
        ValueModel::Instant(ms) => instant_in_range(ms),
        ValueModel::Tagged(t, v) => 0 <= t < tab.len() && tab[t] != uuid_tag_chars()
            && tab[t] != inst_tag_chars() && model_shape(*v, tab),
        _ => true,
    }
}

/// Shape for each element of a sequence.
pub open spec fn shapes_all(vs: Seq<ValueModel>, tab: Seq<Seq<char>>) -> bool
    decreases vs,
{
    if vs.len() == 0 {
        true
    } else {
        model_shape(vs[0], tab) && shapes_all(vs.drop_first(), tab)
    }
}

/// Shape for each key and value of a sequence of entries.
pub open spec fn entries_shape(es: Seq<(KeyModel, ValueModel)>, tab: Seq<Seq<char>>) -> bool
    decreases es,
{
    if es.len() == 0 {
        true
    } else {
        key_shape(es[0].0, tab) && model_shape(es[0].1, tab) && entries_shape(
            es.drop_first(),
            tab,
        )
    }
}

/// Structural well-formedness of a key against a symbol table.
pub open spec fn key_shape(k: KeyModel, tab: Seq<Seq<char>>) -> bool {
    match k {
        KeyModel::Keyword(id) => 0 <= id < tab.len(),
        KeyModel::Symbol(id) => 0 <= id < tab.len(),
        _ => true,
    }
}

/// `shapes_all` holds pointwise.
pub proof fn lemma_shapes_all(vs: Seq<ValueModel>, tab: Seq<Seq<char>>)
    requires
        shapes_all(vs, tab),
    ensures
        forall|i: int| 0 <= i < vs.len() ==> model_shape(#[trigger] vs[i], tab),
    decreases vs,
{
    if vs.len() > 0 {
        lemma_shapes_all(vs.drop_first(), tab);
        assert forall|i: int| 0 <= i < vs.len() implies model_shape(#[trigger] vs[i], tab) by {
            if i > 0 {
                assert(vs.drop_first()[i - 1] == vs[i]);
            }
        }
    }
}

/// `entries_shape` holds pointwise.
pub proof fn lemma_entries_shape(es: Seq<(KeyModel, ValueModel)>, tab: Seq<Seq<char>>)
    requires
        entries_shape(es, tab),
    ensures
        forall|i: int| 0 <= i < es.len() ==> key_shape(#[trigger] es[i].0, tab) && model_shape(
            es[i].1,
            tab,
        ),
    decreases es,
{
    if es.len() > 0 {
        lemma_entries_shape(es.drop_first(), tab);
        assert forall|i: int| 0 <= i < es.len() implies key_shape(#[trigger] es[i].0, tab)
            && model_shape(es[i].1, tab) by {
            if i > 0 {
                assert(es.drop_first()[i - 1] == es[i]);
            }
        }
    }
}

} // verus!
