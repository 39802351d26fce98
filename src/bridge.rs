//! The decisions of the bridge between typed data and values: how the pieces
//! a serializer emits are assembled into a value, and how a value is taken
//! apart again for a deserializer.
use vstd::prelude::*;
use crate::number::{Float, Number, NumberType};
use crate::value::{
    entries_of, has_key, insert_entry, lemma_entries_of, lemma_trees_of, trees_of, unique_keys, Object,
    Tree, Value,
};

verus! {

/// What went wrong while moving data into or out of a value.
#[derive(Clone, Debug, PartialEq, Eq)]
pub enum SerdeValueError {
    /// A map key did not serialize to a string.
    KeyMustBeString,
    /// A map value arrived before any key.
    ValueBeforeKey,
    /// A number does not fit the requested width.
    NumberOutOfRange,
    /// A number carries no known width.
    UnknownNumberType,
    /// An enum was neither a string nor an object with exactly one key.
    InvalidEnumShape,
    /// A unit variant came with a payload.
    ExpectedUnitVariant,
    /// A variant that carries data came without a payload of the right shape.
    ExpectedPayloadVariant,
    /// Byte buffers have no value form.
    UnsupportedBytes,
    /// A message raised by the typed data itself.
    Custom(String),
}

impl SerdeValueError {
    /// A human-readable description of the error.
    pub fn message(&self) -> (r: String)
        ensures
            *self is KeyMustBeString ==> r@ == "map key must be a string"@,
            *self is ValueBeforeKey ==> r@ == "value requested before key"@,
            *self is NumberOutOfRange ==> r@ == "number out of range"@,
            *self is UnknownNumberType ==> r@ == "unknown number type"@,
            *self is InvalidEnumShape ==> r@
                == "invalid enum representation: expected a string or a single-key object"@,
            *self is ExpectedUnitVariant ==> r@ == "expected unit variant"@,
            *self is ExpectedPayloadVariant ==> r@ == "expected newtype, tuple or struct variant"@,
            *self is UnsupportedBytes ==> r@ == "bytes not supported"@,
            *self matches SerdeValueError::Custom(m) ==> r@ == m@,
    {
        match self {
            SerdeValueError::KeyMustBeString => String::from_str("map key must be a string"),
            SerdeValueError::ValueBeforeKey => String::from_str("value requested before key"),
            SerdeValueError::NumberOutOfRange => String::from_str("number out of range"),
            SerdeValueError::UnknownNumberType => String::from_str("unknown number type"),
            SerdeValueError::InvalidEnumShape => String::from_str(
                "invalid enum representation: expected a string or a single-key object",
            ),
            SerdeValueError::ExpectedUnitVariant => String::from_str("expected unit variant"),
            SerdeValueError::ExpectedPayloadVariant => String::from_str(
                "expected newtype, tuple or struct variant",
            ),
            SerdeValueError::UnsupportedBytes => String::from_str("bytes not supported"),
            SerdeValueError::Custom(m) => m.clone(),
        }
    }
}

/// The wire form of a variant that carries data: an object whose one key is
/// the variant name.
pub open spec fn single_key(name: Seq<char>, payload: Tree) -> Tree {
    Tree::Object(seq![(name, payload)])
}

/// A unit variant becomes the bare variant name.
pub fn unit_variant_value(variant: &str) -> (r: Value)
    ensures
        r@ == Tree::String(variant@),
{
    Value::String(String::from_str(variant))
}

/// A variant with one unnamed value becomes `{variant: value}`.
pub fn newtype_variant_value(variant: &str, payload: Value) -> (r: Value)
    ensures
        r@ == single_key(variant@, payload@),
{
    Value::Object(Object::single(String::from_str(variant), payload))
}

/// Collects the elements of a sequence, a tuple or a tuple struct.
pub struct SeqCollector {
    elems: Vec<Value>,
}

impl View for SeqCollector {
    type V = Seq<Tree>;

    closed spec fn view(&self) -> Seq<Tree> {
        trees_of(self.elems@)
    }
}

impl SeqCollector {
    pub fn new() -> (r: SeqCollector)
        ensures
            r@ == Seq::<Tree>::empty(),
    {
        let r = SeqCollector { elems: Vec::new() };
        proof {
            lemma_trees_of(r.elems@);
            assert(r@ =~= Seq::<Tree>::empty());
        }
        r
    }

    /// Adds the next element.
    pub fn push(&mut self, v: Value)
        ensures
            final(self)@ == old(self)@.push(v@),
    {
        let ghost t = v@;
        self.elems.push(v);
        proof {
            lemma_trees_of(old(self).elems@);
            lemma_trees_of(self.elems@);
            assert(self@ =~= old(self)@.push(t));
        }
    }

    /// The array of the collected elements, in the order they came.
    pub fn finish(self) -> (r: Value)
        ensures
            r@ == Tree::Array(self@),
    {
        Value::Array(self.elems)
    }
}

/// Collects the entries of a map or the fields of a struct. A map entry comes
/// as a key and then a value; the value is attached to the latest key.
pub struct MapCollector {
    entries: Vec<(String, Value)>,
}

impl View for MapCollector {
    type V = Seq<(Seq<char>, Tree)>;

    closed spec fn view(&self) -> Seq<(Seq<char>, Tree)> {
        entries_of(self.entries@)
    }
}

/// The object that a sequence of entries builds: a later entry wins over an
/// earlier one with the same key.
pub open spec fn build_object(es: Seq<(Seq<char>, Tree)>) -> Seq<(Seq<char>, Tree)>
    decreases es.len(),
{
    if es.len() == 0 {
        Seq::empty()
    } else {
        insert_entry(build_object(es.drop_last()), es.last().0, es.last().1)
    }
}

impl MapCollector {
    pub fn new() -> (r: MapCollector)
        ensures
            r@ == Seq::<(Seq<char>, Tree)>::empty(),
    {
        let r = MapCollector { entries: Vec::new() };
        proof {
            lemma_entries_of(r.entries@);
            assert(r@ =~= Seq::<(Seq<char>, Tree)>::empty());
        }
        r
    }

    /// Starts an entry under `key`, which must be a string; its value is null
    /// until `value` supplies one.
    pub fn key(&mut self, key: Value) -> (r: Result<(), SerdeValueError>)
        ensures
            key@ is String ==> r is Ok && final(self)@ == old(self)@.push(
                (key@->String_0, Tree::Null),
            ),
            !(key@ is String) ==> r == Err::<(), SerdeValueError>(
                SerdeValueError::KeyMustBeString,
            ) && final(self)@ == old(self)@,
    {
        match key {
            Value::String(k) => {
                let ghost kv = k@;
                self.entries.push((k, Value::Null));
                proof {
                    lemma_entries_of(old(self).entries@);
                    lemma_entries_of(self.entries@);
                    assert(self@ =~= old(self)@.push((kv, Tree::Null)));
                }
                Ok(())
            },
            _ => Err(SerdeValueError::KeyMustBeString),
        }
    }

    /// Supplies the value of the latest key.
    pub fn value(&mut self, v: Value) -> (r: Result<(), SerdeValueError>)
        ensures
            old(self)@.len() > 0 ==> r is Ok && final(self)@ == old(self)@.update(
                old(self)@.len() - 1,
                (old(self)@.last().0, v@),
            ),
            old(self)@.len() == 0 ==> r == Err::<(), SerdeValueError>(
                SerdeValueError::ValueBeforeKey,
            ) && final(self)@ == old(self)@,
    {
        proof {
            lemma_entries_of(old(self).entries@);
        }
        let n = self.entries.len();
        if n == 0 {
            return Err(SerdeValueError::ValueBeforeKey);
        }
        let ghost t = v@;
        let (k, _) = self.entries.remove(n - 1);
        self.entries.push((k, v));
        proof {
            lemma_entries_of(self.entries@);
            assert(self@ =~= old(self)@.update(n - 1, (old(self)@.last().0, t)));
        }
        Ok(())
    }

    /// Adds a named field.
    pub fn field(&mut self, name: &str, v: Value)
        ensures
            final(self)@ == old(self)@.push((name@, v@)),
    {
        let ghost t = v@;
        self.entries.push((String::from_str(name), v));
        proof {
            lemma_entries_of(old(self).entries@);
            lemma_entries_of(self.entries@);
            assert(self@ =~= old(self)@.push((name@, t)));
        }
    }

    /// The object of the collected entries.
    pub fn finish(self) -> (r: Object)
        ensures
            r@ == build_object(self@),
    {
        let ghost es = self@;
        proof {
            lemma_entries_of(self.entries@);
        }
        let mut out = Object::new();
        let mut rest = self.entries;
        let ghost all = rest@;
        let ghost mut k: int = 0;
        proof {
            assert(es.subrange(0, 0) =~= Seq::<(Seq<char>, Tree)>::empty());
        }
        while rest.len() > 0
            invariant
                0 <= k <= all.len(),
                k + rest@.len() == all.len(),
                rest@ == all.subrange(k, all.len() as int),
                es.len() == all.len(),
                forall|i: int|
                    0 <= i < all.len() ==> (all[i].0@, all[i].1@) == #[trigger] es[i],
                out@ == build_object(es.subrange(0, k)),
            decreases rest@.len(),
        {
            let (key, v) = rest.remove(0);
            proof {
                assert(all[k] == (key, v));
            }
            out.insert(key, v);
            proof {
                let next = es.subrange(0, k + 1);
                assert(next.drop_last() =~= es.subrange(0, k));
                assert(next.last() == es[k]);
                k = k + 1;
            }
        }
        proof {
            assert(es.subrange(0, es.len() as int) =~= es);
        }
        out
    }
}

/// Collects the elements of a tuple variant.
pub struct TupleVariantCollector {
    pub variant: String,
    pub elems: SeqCollector,
}

impl TupleVariantCollector {
    pub fn new(variant: &str) -> (r: TupleVariantCollector)
        ensures
            r.variant@ == variant@,
            r.elems@ == Seq::<Tree>::empty(),
    {
        TupleVariantCollector { variant: String::from_str(variant), elems: SeqCollector::new() }
    }

    /// `{variant: [elements]}`.
    pub fn finish(self) -> (r: Value)
        ensures
            r@ == single_key(self.variant@, Tree::Array(self.elems@)),
    {
        let inner = self.elems.finish();
        Value::Object(Object::single(self.variant, inner))
    }
}

/// Collects the fields of a struct variant.
pub struct StructVariantCollector {
    pub variant: String,
    pub fields: MapCollector,
}

impl StructVariantCollector {
    pub fn new(variant: &str) -> (r: StructVariantCollector)
        ensures
            r.variant@ == variant@,
            r.fields@ == Seq::<(Seq<char>, Tree)>::empty(),
    {
        StructVariantCollector { variant: String::from_str(variant), fields: MapCollector::new() }
    }

    /// `{variant: {fields}}`.
    pub fn finish(self) -> (r: Value)
        ensures
            r@ == single_key(self.variant@, Tree::Object(build_object(self.fields@))),
    {
        let inner = Value::Object(self.fields.finish());
        Value::Object(Object::single(self.variant, inner))
    }
}

/// The visit a self-describing deserializer makes for a value.
#[derive(Debug)]
pub enum Visit {
    Unit,
    Bool(bool),
    I64(i64),
    I128(i128),
    U64(u64),
    U128(u128),
    Float(Float),
    Str(String),
    Elements(Vec<Value>),
    Entries(Vec<(String, Value)>),
}

pub open spec fn is_signed(k: NumberType) -> bool {
    k == NumberType::I8 || k == NumberType::I16 || k == NumberType::I32 || k == NumberType::I64
        || k == NumberType::I128
}

/// The visit for a number: integers go to the 64-bit visit of their
/// signedness when they fit, else to the 128-bit one; floats to the float
/// visit. A number of unknown kind has no visit.
pub open spec fn number_visit_ok(n: Number, r: Result<Visit, SerdeValueError>) -> bool {
    match n.int_value() {
        Some(x) => if is_signed(n.kind()) {
            if i64::MIN <= x <= i64::MAX {
                r matches Ok(Visit::I64(y)) && y == x
            } else {
                r matches Ok(Visit::I128(y)) && y == x
            }
        } else {
            if x <= u64::MAX {
                r matches Ok(Visit::U64(y)) && y == x
            } else {
                r matches Ok(Visit::U128(y)) && y == x
            }
        },
        None => if n is Unknown {
            r == Err::<Visit, SerdeValueError>(SerdeValueError::UnknownNumberType)
        } else {
            r == Ok::<Visit, SerdeValueError>(Visit::Float(n.float_value()))
        },
    }
}

/// Dispatch by tag: null and undefined visit unit, a date visits its ISO-8601
/// text, an array visits its elements and an object its entries.
pub open spec fn visit_ok(v: Tree, r: Result<Visit, SerdeValueError>) -> bool {
    match v {
        Tree::Null => r matches Ok(Visit::Unit),
        Tree::Undefined => r matches Ok(Visit::Unit),
        Tree::Boolean(b) => r == Ok::<Visit, SerdeValueError>(Visit::Bool(b)),
        Tree::Number(n) => number_visit_ok(n, r),
        Tree::String(s) => r matches Ok(Visit::Str(t)) && t@ == s,
        Tree::DateTime(d) => r matches Ok(Visit::Str(t)) && t@ == d.iso_text(),
        Tree::Array(items) => r matches Ok(Visit::Elements(xs)) && trees_of(xs@) == items,
        Tree::Object(es) => r matches Ok(Visit::Entries(xs)) && entries_of(xs@) == es,
    }
}

/// The visit for a number.
pub fn number_visit(n: &Number) -> (r: Result<Visit, SerdeValueError>)
    ensures
        number_visit_ok(*n, r),
{
    match n.number_type() {
        NumberType::I8 | NumberType::I16 | NumberType::I32 | NumberType::I64 | NumberType::I128 => {
            match n.to_i64() {
                Some(i) => Ok(Visit::I64(i)),
                None => Ok(Visit::I128(n.get_i128())),
            }
        },
        NumberType::U8 | NumberType::U16 | NumberType::U32 | NumberType::U64 | NumberType::U128 => {
            match n.to_u64() {
                Some(u) => Ok(Visit::U64(u)),
                None => Ok(Visit::U128(n.get_u128())),
            }
        },
        NumberType::F32 | NumberType::F64 => match n.to_float() {
            Some(f) => Ok(Visit::Float(f)),
            None => Err(SerdeValueError::UnknownNumberType),
        },
        NumberType::Unknown => Err(SerdeValueError::UnknownNumberType),
    }
}

/// Takes a value apart for a self-describing deserializer.
pub fn visit_of(v: Value) -> (r: Result<Visit, SerdeValueError>)
    ensures
        visit_ok(v@, r),
{
    match v {
        Value::Null => Ok(Visit::Unit),
        Value::Undefined => Ok(Visit::Unit),
        Value::Boolean(b) => Ok(Visit::Bool(b)),
        Value::Number(n) => number_visit(&n),
        Value::String(s) => Ok(Visit::Str(s)),
        Value::DateTime(d) => {
            let mut cs: Vec<char> = Vec::new();
            d.push_iso8601(&mut cs);
            proof {
                assert(cs@ =~= d.iso_text());
            }
            Ok(Visit::Str(crate::text::string_of(&cs)))
        },
        Value::Array(items) => {
            proof {
                Value::Array(items).lemma_array_view();
                lemma_trees_of(items@);
            }
            Ok(Visit::Elements(items))
        },
        Value::Object(o) => {
            let ghost es = o@;
            let xs = o.into_entries();
            proof {
                lemma_entries_of(xs@);
                assert(entries_of(xs@) =~= es);
            }
            Ok(Visit::Entries(xs))
        },
    }
}

/// An optional field: null is absent, anything else is present.
pub fn option_payload(v: Value) -> (r: Option<Value>)
    ensures
        v@ is Null ==> r is None,
        !(v@ is Null) ==> (r matches Some(x) && x@ == v@),
{
    match v {
        Value::Null => None,
        other => Some(other),
    }
}

/// The variant name and payload an enum value carries: a string names a unit
/// variant; an object with exactly one key names a variant and holds its
/// payload.
pub open spec fn enum_parts_ok(v: Tree, r: Result<(String, Option<Value>), SerdeValueError>) -> bool {
    match v {
        Tree::String(s) => r matches Ok((name, payload)) && name@ == s && payload is None,
        Tree::Object(es) => if es.len() == 1 {
            r matches Ok((name, payload)) && name@ == es[0].0 && (payload matches Some(p) && p@
                == es[0].1)
        } else {
            r == Err::<(String, Option<Value>), SerdeValueError>(SerdeValueError::InvalidEnumShape)
        },
        _ => r == Err::<(String, Option<Value>), SerdeValueError>(SerdeValueError::InvalidEnumShape),
    }
}

pub fn enum_parts(v: Value) -> (r: Result<(String, Option<Value>), SerdeValueError>)
    ensures
        enum_parts_ok(v@, r),
{
    match v {
        Value::String(s) => Ok((s, None)),
        Value::Object(o) => {
            if o.len() == 1 {
                let ghost es = o@;
                let mut xs = o.into_entries();
                let (k, p) = xs.remove(0);
                proof {
                    assert((k@, p@) == es[0]);
                }
                Ok((k, Some(p)))
            } else {
                Err(SerdeValueError::InvalidEnumShape)
            }
        },
        _ => Err(SerdeValueError::InvalidEnumShape),
    }
}

/// A unit variant takes no payload; an explicit null counts as none.
pub fn unit_variant(payload: &Option<Value>) -> (r: Result<(), SerdeValueError>)
    ensures
        r is Ok <==> (payload is None || payload->0@ is Null),
        r is Err ==> r == Err::<(), SerdeValueError>(SerdeValueError::ExpectedUnitVariant),
{
    match payload {
        None => Ok(()),
        Some(Value::Null) => Ok(()),
        Some(_) => Err(SerdeValueError::ExpectedUnitVariant),
    }
}

/// The payload of a newtype variant.
pub fn newtype_payload(payload: Option<Value>) -> (r: Result<Value, SerdeValueError>)
    ensures
        payload matches Some(p) ==> (r matches Ok(x) && x@ == p@),
        payload is None ==> r == Err::<Value, SerdeValueError>(
            SerdeValueError::ExpectedPayloadVariant,
        ),
{
    match payload {
        Some(v) => Ok(v),
        None => Err(SerdeValueError::ExpectedPayloadVariant),
    }
}

/// The elements of a tuple variant's payload, which must be an array.
pub fn tuple_payload(payload: Option<Value>) -> (r: Result<Vec<Value>, SerdeValueError>)
    ensures
        (payload matches Some(p) && p@ is Array) ==> (r matches Ok(xs) && Tree::Array(
            trees_of(xs@),
        ) == payload->0@),
        !(payload matches Some(p) && p@ is Array) ==> r == Err::<Vec<Value>, SerdeValueError>(
            SerdeValueError::ExpectedPayloadVariant,
        ),
{
    match payload {
        Some(Value::Array(items)) => {
            proof {
                Value::Array(items).lemma_array_view();
            }
            Ok(items)
        },
        _ => Err(SerdeValueError::ExpectedPayloadVariant),
    }
}

/// The fields of a struct variant's payload, which must be an object.
pub fn struct_payload(payload: Option<Value>) -> (r: Result<Vec<(String, Value)>, SerdeValueError>)
    ensures
        (payload matches Some(p) && p@ is Object) ==> (r matches Ok(xs) && Tree::Object(
            entries_of(xs@),
        ) == payload->0@),
        !(payload matches Some(p) && p@ is Object) ==> r == Err::<
            Vec<(String, Value)>,
            SerdeValueError,
        >(SerdeValueError::ExpectedPayloadVariant),
{
    match payload {
        Some(Value::Object(o)) => {
            let ghost es = o@;
            let xs = o.into_entries();
            proof {
                lemma_entries_of(xs@);
                assert(entries_of(xs@) =~= es);
            }
            Ok(xs)
        },
        _ => Err(SerdeValueError::ExpectedPayloadVariant),
    }
}

/// Hands out the elements of a sequence one at a time.
pub struct SeqCursor {
    rest: Vec<Value>,
}

impl View for SeqCursor {
    type V = Seq<Tree>;

    closed spec fn view(&self) -> Seq<Tree> {
        trees_of(self.rest@)
    }
}

impl SeqCursor {
    pub fn new(items: Vec<Value>) -> (r: SeqCursor)
        ensures
            r@ == trees_of(items@),
    {
        SeqCursor { rest: items }
    }

    /// The next element, until none is left.
    pub fn next(&mut self) -> (r: Option<Value>)
        ensures
            old(self)@.len() == 0 ==> r is None && final(self)@ == old(self)@,
            old(self)@.len() > 0 ==> (r matches Some(x) && x@ == old(self)@[0]) && final(self)@
                == old(self)@.drop_first(),
    {
        proof {
            lemma_trees_of(self.rest@);
        }
        if self.rest.len() == 0 {
            return None;
        }
        let x = self.rest.remove(0);
        proof {
            lemma_trees_of(self.rest@);
            assert(self@ =~= old(self)@.drop_first());
        }
        Some(x)
    }
}

/// Hands out the entries of a map as a key followed by its value.
pub struct MapCursor {
    rest: Vec<(String, Value)>,
    current: Option<Value>,
}

impl MapCursor {
    /// The entries not yet handed out.
    pub closed spec fn pending(&self) -> Seq<(Seq<char>, Tree)> {
        entries_of(self.rest@)
    }

    /// The value of the latest key, if it has not been taken yet.
    pub closed spec fn current(&self) -> Option<Tree> {
        match self.current {
            Some(v) => Some(v@),
            None => None,
        }
    }

    pub fn new(entries: Vec<(String, Value)>) -> (r: MapCursor)
        ensures
            r.pending() == entries_of(entries@),
            r.current() is None,
    {
        MapCursor { rest: entries, current: None }
    }

    /// The next key; its value becomes the current one.
    pub fn next_key(&mut self) -> (r: Option<String>)
        ensures
            old(self).pending().len() == 0 ==> r is None,
            old(self).pending().len() == 0 ==> final(self).pending() == old(self).pending(),
            old(self).pending().len() == 0 ==> final(self).current() == old(self).current(),
            old(self).pending().len() > 0 ==> (r matches Some(k) && k@ == old(self).pending()[0].0),
            old(self).pending().len() > 0 ==> final(self).pending() == old(self).pending().drop_first(),
            old(self).pending().len() > 0 ==> final(self).current() == Some(old(self).pending()[0].1),
    {
        proof {
            lemma_entries_of(self.rest@);
        }
        if self.rest.len() == 0 {
            return None;
        }
        let (k, v) = self.rest.remove(0);
        self.current = Some(v);
        proof {
            lemma_entries_of(self.rest@);
            assert(self.pending() =~= old(self).pending().drop_first());
        }
        Some(k)
    }

    /// The value of the latest key; asking before any key, or twice, is an error.
    pub fn next_value(&mut self) -> (r: Result<Value, SerdeValueError>)
        ensures
            old(self).current() matches Some(t) ==> (r matches Ok(x) && x@ == t),
            old(self).current() is None ==> r == Err::<Value, SerdeValueError>(
                SerdeValueError::ValueBeforeKey,
            ),
            final(self).current() is None,
            final(self).pending() == old(self).pending(),
    {
        match self.current.take() {
            Some(v) => Ok(v),
            None => Err(SerdeValueError::ValueBeforeKey),
        }
    }
}

/// A record with distinct field names keeps every field, in order, when its
/// fields are collected into an object.
pub proof fn law_fields_kept(fields: Seq<(Seq<char>, Tree)>)
    requires
        unique_keys(fields),
    ensures
        build_object(fields) == fields,
    decreases fields.len(),
{
    if fields.len() > 0 {
        let init = fields.drop_last();
        assert(unique_keys(init));
        law_fields_kept(init);
        assert(!has_key(init, fields.last().0)) by {
            if has_key(init, fields.last().0) {
                let i = choose|i: int| 0 <= i < init.len() && init[i].0 == fields.last().0;
                assert(fields[i].0 == fields[fields.len() - 1].0);
            }
        }
        assert(init.push(fields.last()) =~= fields);
    }
}

/// A unit variant is written as its name and read back as that variant
/// without a payload, which the unit variant accepts.
pub proof fn law_unit_variant_round_trip(
    name: Seq<char>,
    written: Value,
    read: Result<(String, Option<Value>), SerdeValueError>,
)
    requires
        written@ == Tree::String(name),
        enum_parts_ok(written@, read),
    ensures
        read matches Ok((n, p)) && n@ == name && p is None,
{
}

/// A variant with a payload is written as a single-key object and read back
/// as the same variant name with the same payload.
pub proof fn law_payload_variant_round_trip(
    name: Seq<char>,
    payload: Tree,
    read: Result<(String, Option<Value>), SerdeValueError>,
)
    requires
        enum_parts_ok(single_key(name, payload), read),
    ensures
        read matches Ok((n, p)) && n@ == name && (p matches Some(x) && x@ == payload),
{
}

/// The elements of a tuple variant are read back as they were written.
pub proof fn law_tuple_variant_round_trip(
    name: Seq<char>,
    elems: Seq<Tree>,
    read: Result<(String, Option<Value>), SerdeValueError>,
    payload: Result<Vec<Value>, SerdeValueError>,
)
    requires
        enum_parts_ok(single_key(name, Tree::Array(elems)), read),
        read matches Ok((_, p)) && ((p matches Some(x) && x@ is Array) ==> (payload matches Ok(
            xs,
        ) && Tree::Array(trees_of(xs@)) == p->0@)),
    ensures
        payload matches Ok(xs) && trees_of(xs@) == elems,
{
}

/// The fields of a struct variant with distinct field names are read back as
/// they were written.
pub proof fn law_struct_variant_round_trip(
    name: Seq<char>,
    fields: Seq<(Seq<char>, Tree)>,
    read: Result<(String, Option<Value>), SerdeValueError>,
    payload: Result<Vec<(String, Value)>, SerdeValueError>,
)
    requires
        unique_keys(fields),
        enum_parts_ok(single_key(name, Tree::Object(build_object(fields))), read),
        read matches Ok((_, p)) && ((p matches Some(x) && x@ is Object) ==> (payload matches Ok(
            xs,
        ) && Tree::Object(entries_of(xs@)) == p->0@)),
    ensures
        payload matches Ok(xs) && entries_of(xs@) == fields,
{
    law_fields_kept(fields);
}

} // verus!
