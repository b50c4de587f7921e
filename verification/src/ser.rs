//! The encoder bridge: a capability-style protocol that lets arbitrary
//! structured application data be turned into values without the caller
//! touching `Value` internals.
//!
//! `Serializer` maps each scalar shape to its value; `SerializeVec`
//! collects the elements of an ordered collection (a vector, or a list
//! for fixed-arity groupings); `SerializeMap` collects keyed entries,
//! with keys passing through the restricted key encoder `key_from_str`.
//! An adapter for any concrete serialization framework drives these
//! methods from outside; everything here is verified.

use vstd::prelude::*;
use crate::error::Error;
use crate::float::FloatValue;
use crate::float::float_normal;
use crate::symbol::SymbolStore;
use crate::text::str_chars;
use crate::text::string_of_chars;
use crate::value::Value;
use crate::value::ValueMap;
use crate::value::Key;
use crate::value::ValueModel;
use crate::value::KeyModel;
use crate::value::value_model;
use crate::value::key_model;
use crate::value::map_keys_distinct;
use crate::parser::intern_model;

verus! {

/// Turns each scalar shape into its value.
pub struct Serializer;

impl Serializer {
    /// A boolean becomes `Boolean`.
    pub fn serialize_bool(v: bool) -> (r: Value)
        ensures
            r@ == ValueModel::Boolean(v),
    {
        Value::Boolean(v)
    }

    /// A signed integer becomes `Integer`.
    pub fn serialize_i64(v: i64) -> (r: Value)
        ensures
            r@ == ValueModel::Integer(v as int),
    {
        Value::Integer(v)
    }

    /// An unsigned integer becomes `Integer` when it fits; a magnitude
    /// above the signed range is refused rather than truncated.
    pub fn serialize_u64(v: u64) -> (r: Result<Value, Error>)
        ensures
            v <= i64::MAX ==> (r is Ok) && r->Ok_0@ == ValueModel::Integer(v as int),
            v > i64::MAX ==> (r is Err) && r->Err_0 == Error::UnsupportedType,
    {
        if v <= 0x7fff_ffff_ffff_ffffu64 {
            Ok(Value::Integer(v as i64))
        } else {
            Err(Error::UnsupportedType)
        }
    }

    /// A float, given in the exact decimal form, becomes `Float`.
    pub fn serialize_float(f: FloatValue) -> (r: Result<Value, Error>)
        ensures
            float_normal(f) ==> (r is Ok) && r->Ok_0@ == ValueModel::Float(f),
            !float_normal(f) ==> (r is Err) && r->Err_0 == Error::UnsupportedType,
    {
        let normal = if f.mantissa == 0 {
            !f.negative && f.exponent == 0
        } else {
            f.mantissa % 10 != 0 && -crate::float::FLOAT_EXPONENT_BOUND <= f.exponent
                && f.exponent <= crate::float::FLOAT_EXPONENT_BOUND
        };
        if normal {
            Ok(Value::Float(f))
        } else {
            Err(Error::UnsupportedType)
        }
    }

    /// A single character becomes `Character`.
    pub fn serialize_char(v: char) -> (r: Value)
        ensures
            r@ == ValueModel::Character(v),
    {
        Value::Character(v)
    }

    /// Text becomes `String`.
    pub fn serialize_str(v: &str) -> (r: Value)
        ensures
            r@ == ValueModel::String(v@),
    {
        Value::String(string_of_chars(&str_chars(v)))
    }

    /// The absent value and unit both become `Nil`.
    pub fn serialize_unit() -> (r: Value)
        ensures
            r@ == ValueModel::Nil,
    {
        Value::Nil
    }
}

/// The restricted key encoder: text starting with the keyword sigil
/// becomes a `Keyword` (the sigil stripped), all other text a `Symbol`.
pub fn key_from_str(v: &str, store: &mut SymbolStore) -> (r: Key)
    requires
        old(store).wf(),
    ensures
        final(store).wf(),
        old(store).names().len() <= final(store).names().len(),
        forall|q: int|
            0 <= q < old(store).names().len() ==> final(store).names()[q] == old(
                store,
            ).names()[q],
        ({
            let stripped = if v@.len() > 0 && v@[0] == ':' {
                v@.drop_first()
            } else {
                v@
            };
            let im = intern_model(old(store).names(), stripped);
            &&& final(store).names() == im.1
            &&& (v@.len() > 0 && v@[0] == ':' ==> r@ == KeyModel::Keyword(im.0))
            &&& (!(v@.len() > 0 && v@[0] == ':') ==> r@ == KeyModel::Symbol(im.0))
        }),
{
    let cv = str_chars(v);
    let ghost pre = store.names();
    if cv.len() > 0 && cv[0] == ':' {
        let mut rest: Vec<char> = Vec::new();
        let mut k: usize = 1;
        while k < cv.len()
            invariant
                1 <= k <= cv@.len(),
                rest@ =~= cv@.subrange(1, k as int),
            decreases cv@.len() - k,
        {
            rest.push(cv[k]);
            k = k + 1;
        }
        proof {
            assert(rest@ =~= v@.drop_first());
        }
        let txt = string_of_chars(&rest);
        let sym = intern_here(txt.as_str(), store);
        Key::Keyword(sym)
    } else {
        let sym = intern_here(v, store);
        Key::Symbol(sym)
    }
}

/// Interns and relates the result to `intern_model`.
fn intern_here(text: &str, store: &mut SymbolStore) -> (sym: crate::symbol::Symbol)
    requires
        old(store).wf(),
    ensures
        final(store).wf(),
        old(store).names().len() <= final(store).names().len(),
        forall|q: int|
            0 <= q < old(store).names().len() ==> final(store).names()[q] == old(
                store,
            ).names()[q],
        intern_model(old(store).names(), text@) == (sym.id as int, final(store).names()),
{
    let ghost pre = store.names();
    let sym = store.intern(text);
    proof {
        if crate::parser::has_name(pre, text@) {
            let j = choose|j: int| 0 <= j < pre.len() && pre[j] == text@;
            assert(0 <= j < old(store).names().len() && old(store).names()[j] == text@);
            assert(old(store).has_text(text@));
        }
        if old(store).has_text(text@) {
            let j = choose|j: int|
                0 <= j < old(store).names().len() && old(store).names()[j] == text@;
            assert(0 <= j < pre.len() && pre[j] == text@);
            assert(crate::parser::has_name(pre, text@));
        }
        crate::parser::lemma_intern_bridge(pre, store.names(), sym.id as int, text@);
    }
    sym
}

/// Collects the elements of an ordered collection: a `Vector`, or a
/// `List` for fixed-arity groupings such as tuples.
pub struct SerializeVec {
    elements: Vec<Value>,
    as_list: bool,
}

impl SerializeVec {
    /// The elements collected so far.
    pub closed spec fn elements_model(&self) -> Seq<ValueModel> {
        crate::value::seq_model(self.elements@)
    }

    /// Whether this collection ends as a `List`.
    pub closed spec fn is_list(&self) -> bool {
        self.as_list
    }

    /// An empty collection; `as_list` picks the ordered form it ends as.
    pub fn new(as_list: bool) -> (r: SerializeVec)
        ensures
            r.elements_model() =~= Seq::<ValueModel>::empty(),
            r.is_list() == as_list,
    {
        SerializeVec { elements: Vec::new(), as_list }
    }

    /// Appends one already-encoded element.
    pub fn serialize_element(&mut self, v: Value)
        ensures
            final(self).elements_model() =~= old(self).elements_model().push(value_model(v)),
            final(self).is_list() == old(self).is_list(),
    {
        proof {
            crate::parser::lemma_seq_model_push(self.elements@, v);
        }
        self.elements.push(v);
    }

    /// Finishes the collection as a `Vector` or a `List`.
    pub fn end(self) -> (r: Value)
        ensures
            !self.is_list() ==> r@ == ValueModel::Vector(self.elements_model()),
            self.is_list() ==> r@ == ValueModel::List(self.elements_model()),
    {
        if self.as_list {
            Value::List(self.elements)
        } else {
            Value::Vector(self.elements)
        }
    }
}

/// Collects keyed entries: keys arrive through the restricted key
/// encoder, values already encoded; a repeated key keeps its position
/// and takes the latest value.
pub struct SerializeMap {
    entries: ValueMap,
    next_key: Option<Key>,
}

impl SerializeMap {
    /// The entries collected so far.
    pub closed spec fn entries_model(&self) -> Seq<(KeyModel, ValueModel)> {
        self.entries@
    }

    /// The key waiting for its value, if any.
    pub closed spec fn pending(&self) -> Option<KeyModel> {
        match self.next_key {
            Some(k) => Some(key_model(k)),
            None => None,
        }
    }

    /// An empty map collector.
    pub fn new() -> (r: SerializeMap)
        ensures
            r.entries_model() =~= Seq::<(KeyModel, ValueModel)>::empty(),
            r.pending() is None,
            map_keys_distinct(r.entries_model()),
    {
        let r = SerializeMap { entries: ValueMap::new(), next_key: None };
        r
    }

    /// Stages the key of the next entry.
    pub fn serialize_key(&mut self, k: Key)
        ensures
            final(self).entries_model() == old(self).entries_model(),
            final(self).pending() == Some(key_model(k)),
    {
        self.next_key = Some(k);
    }

    /// Supplies the value for the staged key. Calling this without a
    /// staged key is a caller bug, excluded by contract rather than
    /// tolerated at run time.
    pub fn serialize_value(&mut self, v: Value)
        requires
            old(self).pending() is Some,
            map_keys_distinct(old(self).entries_model()),
        ensures
            final(self).entries_model() == crate::parser::map_insert_model(
                old(self).entries_model(),
                old(self).pending()->0,
                value_model(v),
            ),
            final(self).pending() is None,
            map_keys_distinct(final(self).entries_model()),
    {
        let k = self.next_key.take().unwrap();
        proof {
            crate::parser::lemma_map_insert_bridge(self.entries@, key_model(k), value_model(v));
        }
        self.entries.insert(k, v);
    }

    /// Finishes the collection as a `Map`.
    pub fn end(self) -> (r: Value)
        ensures
            r@ == ValueModel::MapOf(self.entries_model()),
    {
        Value::MapOf(self.entries)
    }
}

} // verus!
