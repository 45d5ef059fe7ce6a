//! The nested data model of the codec.
//!
//! [`Value`] is a closed sum type with one case per structural shape category:
//! scalars (boolean, signed and unsigned integers, text, character, unit),
//! optional values, ordered variable-length lists, fixed-arity tuples,
//! key/value tables, named-field records, and tagged choices (enum variants).
//! [`Shape`] describes the expected structure of a value; the decoder is
//! driven by a `Shape` and produces a `Value` that conforms to it.
//!
//! Each executable type has a ghost twin (`GValue`, `GShape`, ...) over
//! mathematical sequences, reached through `@`; all contracts speak of the
//! twins.

use vstd::prelude::*;

verus! {

broadcast use vstd::std_specs::vec::group_vec_axioms, vstd::seq::axiom_seq_index_decreases;

/// One named field of a record value.
#[derive(Debug, PartialEq)]
pub struct FieldVal {
    pub name: String,
    pub value: Value,
}

/// One key/value pair of a table value.
#[derive(Debug, PartialEq)]
pub struct PairVal {
    pub key: Value,
    pub value: Value,
}

/// The payload of a tagged choice value.
#[derive(Debug, PartialEq)]
pub enum Payload {
    /// A unit variant: no payload.
    Empty,
    /// A newtype variant: one wrapped value.
    Wrapped(Box<Value>),
    /// A tuple variant: ordered positional values.
    TupleOf(Vec<Value>),
    /// A record variant: named fields.
    RecordOf(Vec<FieldVal>),
}

/// A nested datum: the input of the encoder and the output of the decoder.
#[derive(Debug, PartialEq)]
pub enum Value {
    Bool(bool),
    Int(i64),
    UInt(u64),
    Text(String),
    Char(char),
    Unit,
    /// An optional value; `None` encodes to no leaf entries at all.
    Maybe(Option<Box<Value>>),
    /// An ordered, variable-length sequence.
    List(Vec<Value>),
    /// An ordered, fixed-arity, heterogeneous tuple (also tuple structs).
    Tuple(Vec<Value>),
    /// Key/value pairs in insertion order, keys unique.
    Table(Vec<PairVal>),
    /// Named fields in declaration order (structs).
    Record(Vec<FieldVal>),
    /// A tagged enum variant: the variant name and its payload.
    Choice(String, Payload),
}

/// Ghost twin of [`FieldVal`].
pub struct GFieldVal {
    pub name: Seq<char>,
    pub value: GValue,
}

/// Ghost twin of [`PairVal`].
pub struct GPairVal {
    pub key: GValue,
    pub value: GValue,
}

/// Ghost twin of [`Payload`].
pub enum GPayload {
    Empty,
    Wrapped(Box<GValue>),
    TupleOf(Seq<GValue>),
    RecordOf(Seq<GFieldVal>),
}

/// Ghost twin of [`Value`].
pub enum GValue {
    Bool(bool),
    Int(i64),
    UInt(u64),
    Text(Seq<char>),
    Char(char),
    Unit,
    Maybe(Option<Box<GValue>>),
    List(Seq<GValue>),
    Tuple(Seq<GValue>),
    Table(Seq<GPairVal>),
    Record(Seq<GFieldVal>),
    Choice(Seq<char>, GPayload),
}

/// The ghost twins of a sequence of values.
pub open spec fn gvalues_of(es: Seq<Value>) -> Seq<GValue>
    decreases es,
{
    if es.len() == 0 {
        Seq::<GValue>::empty()
    } else {
        seq![gvalue_of(es[0])] + gvalues_of(es.subrange(1, es.len() as int))
    }
}

/// The ghost twins of a sequence of record fields.
pub open spec fn gfields_of(fs: Seq<FieldVal>) -> Seq<GFieldVal>
    decreases fs,
{
    if fs.len() == 0 {
        Seq::<GFieldVal>::empty()
    } else {
        seq![GFieldVal { name: fs[0].name@, value: gvalue_of(fs[0].value) }] + gfields_of(
            fs.subrange(1, fs.len() as int),
        )
    }
}

/// The ghost twins of a sequence of key/value pairs.
pub open spec fn gpairs_of(ps: Seq<PairVal>) -> Seq<GPairVal>
    decreases ps,
{
    if ps.len() == 0 {
        Seq::<GPairVal>::empty()
    } else {
        seq![GPairVal { key: gvalue_of(ps[0].key), value: gvalue_of(ps[0].value) }] + gpairs_of(
            ps.subrange(1, ps.len() as int),
        )
    }
}

/// The ghost twin of a value.
pub open spec fn gvalue_of(v: Value) -> GValue
    decreases v,
{
    match v {
        Value::Bool(b) => GValue::Bool(b),
        Value::Int(n) => GValue::Int(n),
        Value::UInt(n) => GValue::UInt(n),
        Value::Text(s) => GValue::Text(s@),
        Value::Char(c) => GValue::Char(c),
        Value::Unit => GValue::Unit,
        Value::Maybe(o) => GValue::Maybe(
            match o {
                Option::None => Option::None,
                Option::Some(b) => Option::Some(Box::new(gvalue_of(*b))),
            },
        ),
        Value::List(es) => GValue::List(gvalues_of(es@)),
        Value::Tuple(es) => GValue::Tuple(gvalues_of(es@)),
        Value::Table(ps) => GValue::Table(gpairs_of(ps@)),
        Value::Record(fs) => GValue::Record(gfields_of(fs@)),
        Value::Choice(name, payload) => GValue::Choice(
            name@,
            match payload {
                Payload::Empty => GPayload::Empty,
                Payload::Wrapped(b) => GPayload::Wrapped(Box::new(gvalue_of(*b))),
                Payload::TupleOf(es) => GPayload::TupleOf(gvalues_of(es@)),
                Payload::RecordOf(fs) => GPayload::RecordOf(gfields_of(fs@)),
            },
        ),
    }
}

impl View for Value {
    type V = GValue;

    open spec fn view(&self) -> GValue {
        gvalue_of(*self)
    }
}

/// One named field of a record shape.
#[derive(Debug, PartialEq)]
pub struct FieldShape {
    pub name: String,
    pub shape: Shape,
}

/// The payload shape of one variant of a choice shape.
#[derive(Debug, PartialEq)]
pub enum PayloadShape {
    Empty,
    Wrapped(Box<Shape>),
    TupleOf(Vec<Shape>),
    RecordOf(Vec<FieldShape>),
}

/// One variant of a choice shape: its name and payload shape.
#[derive(Debug, PartialEq)]
pub struct VariantShape {
    pub name: String,
    pub payload: PayloadShape,
}

/// The expected structure of a value: the decoder's target schema.
#[derive(Debug, PartialEq)]
pub enum Shape {
    Bool,
    Int,
    UInt,
    Text,
    Char,
    Unit,
    Maybe(Box<Shape>),
    List(Box<Shape>),
    Tuple(Vec<Shape>),
    Table(Box<Shape>, Box<Shape>),
    Record(Vec<FieldShape>),
    Choice(Vec<VariantShape>),
}

/// Ghost twin of [`FieldShape`].
pub struct GFieldShape {
    pub name: Seq<char>,
    pub shape: GShape,
}

/// Ghost twin of [`PayloadShape`].
pub enum GPayloadShape {
    Empty,
    Wrapped(Box<GShape>),
    TupleOf(Seq<GShape>),
    RecordOf(Seq<GFieldShape>),
}

/// Ghost twin of [`VariantShape`].
pub struct GVariantShape {
    pub name: Seq<char>,
    pub payload: GPayloadShape,
}

/// Ghost twin of [`Shape`].
pub enum GShape {
    Bool,
    Int,
    UInt,
    Text,
    Char,
    Unit,
    Maybe(Box<GShape>),
    List(Box<GShape>),
    Tuple(Seq<GShape>),
    Table(Box<GShape>, Box<GShape>),
    Record(Seq<GFieldShape>),
    Choice(Seq<GVariantShape>),
}

/// The ghost twins of a sequence of shapes.
pub open spec fn gshapes_of(es: Seq<Shape>) -> Seq<GShape>
    decreases es,
{
    if es.len() == 0 {
        Seq::<GShape>::empty()
    } else {
        seq![gshape_of(es[0])] + gshapes_of(es.subrange(1, es.len() as int))
    }
}

/// The ghost twins of a sequence of field shapes.
pub open spec fn gfield_shapes_of(fs: Seq<FieldShape>) -> Seq<GFieldShape>
    decreases fs,
{
    if fs.len() == 0 {
        Seq::<GFieldShape>::empty()
    } else {
        seq![GFieldShape { name: fs[0].name@, shape: gshape_of(fs[0].shape) }] + gfield_shapes_of(
            fs.subrange(1, fs.len() as int),
        )
    }
}

/// The ghost twin of a variant's payload shape.
pub open spec fn gpayload_shape_of(p: PayloadShape) -> GPayloadShape
    decreases p,
{
    match p {
        PayloadShape::Empty => GPayloadShape::Empty,
        PayloadShape::Wrapped(b) => GPayloadShape::Wrapped(Box::new(gshape_of(*b))),
        PayloadShape::TupleOf(es) => GPayloadShape::TupleOf(gshapes_of(es@)),
        PayloadShape::RecordOf(gs) => GPayloadShape::RecordOf(gfield_shapes_of(gs@)),
    }
}

/// The ghost twins of a sequence of variant shapes.
pub open spec fn gvariants_of(vs: Seq<VariantShape>) -> Seq<GVariantShape>
    decreases vs,
{
    if vs.len() == 0 {
        Seq::<GVariantShape>::empty()
    } else {
        seq![
            GVariantShape { name: vs[0].name@, payload: gpayload_shape_of(vs[0].payload) },
        ] + gvariants_of(vs.subrange(1, vs.len() as int))
    }
}

/// The ghost twin of a shape.
pub open spec fn gshape_of(s: Shape) -> GShape
    decreases s,
{
    match s {
        Shape::Bool => GShape::Bool,
        Shape::Int => GShape::Int,
        Shape::UInt => GShape::UInt,
        Shape::Text => GShape::Text,
        Shape::Char => GShape::Char,
        Shape::Unit => GShape::Unit,
        Shape::Maybe(inner) => GShape::Maybe(Box::new(gshape_of(*inner))),
        Shape::List(elem) => GShape::List(Box::new(gshape_of(*elem))),
        Shape::Tuple(es) => GShape::Tuple(gshapes_of(es@)),
        Shape::Table(k, v) => GShape::Table(Box::new(gshape_of(*k)), Box::new(gshape_of(*v))),
        Shape::Record(fs) => GShape::Record(gfield_shapes_of(fs@)),
        Shape::Choice(vs) => GShape::Choice(gvariants_of(vs@)),
    }
}

impl View for Shape {
    type V = GShape;

    open spec fn view(&self) -> GShape {
        gshape_of(*self)
    }
}


/// Pointwise reading of [`gvalues_of`].
pub proof fn lemma_gvalues_index(es: Seq<Value>)
    ensures
        gvalues_of(es).len() == es.len(),
        forall|i: int| 0 <= i < es.len() ==> gvalues_of(es)[i] == gvalue_of(#[trigger] es[i]),
    decreases es.len(),
{
    if es.len() > 0 {
        lemma_gvalues_index(es.subrange(1, es.len() as int));
        assert forall|i: int| 0 <= i < es.len() implies gvalues_of(es)[i] == gvalue_of(
            #[trigger] es[i],
        ) by {
            if i > 0 {
                assert(es.subrange(1, es.len() as int)[i - 1] == es[i]);
            }
        }
    }
}

/// Pointwise reading of [`gfields_of`].
pub proof fn lemma_gfields_index(fs: Seq<FieldVal>)
    ensures
        gfields_of(fs).len() == fs.len(),
        forall|i: int| 0 <= i < fs.len() ==> gfields_of(fs)[i] == (GFieldVal {
            name: (#[trigger] fs[i]).name@,
            value: gvalue_of(fs[i].value),
        }),
    decreases fs.len(),
{
    if fs.len() > 0 {
        lemma_gfields_index(fs.subrange(1, fs.len() as int));
        assert forall|i: int| 0 <= i < fs.len() implies gfields_of(fs)[i] == (GFieldVal {
            name: (#[trigger] fs[i]).name@,
            value: gvalue_of(fs[i].value),
        }) by {
            if i > 0 {
                assert(fs.subrange(1, fs.len() as int)[i - 1] == fs[i]);
            }
        }
    }
}

/// Pointwise reading of [`gpairs_of`].
pub proof fn lemma_gpairs_index(ps: Seq<PairVal>)
    ensures
        gpairs_of(ps).len() == ps.len(),
        forall|i: int| 0 <= i < ps.len() ==> gpairs_of(ps)[i] == (GPairVal {
            key: gvalue_of((#[trigger] ps[i]).key),
            value: gvalue_of(ps[i].value),
        }),
    decreases ps.len(),
{
    if ps.len() > 0 {
        lemma_gpairs_index(ps.subrange(1, ps.len() as int));
        assert forall|i: int| 0 <= i < ps.len() implies gpairs_of(ps)[i] == (GPairVal {
            key: gvalue_of((#[trigger] ps[i]).key),
            value: gvalue_of(ps[i].value),
        }) by {
            if i > 0 {
                assert(ps.subrange(1, ps.len() as int)[i - 1] == ps[i]);
            }
        }
    }
}

/// Pointwise reading of [`gshapes_of`].
pub proof fn lemma_gshapes_index(es: Seq<Shape>)
    ensures
        gshapes_of(es).len() == es.len(),
        forall|i: int| 0 <= i < es.len() ==> gshapes_of(es)[i] == gshape_of(#[trigger] es[i]),
    decreases es.len(),
{
    if es.len() > 0 {
        lemma_gshapes_index(es.subrange(1, es.len() as int));
        assert forall|i: int| 0 <= i < es.len() implies gshapes_of(es)[i] == gshape_of(
            #[trigger] es[i],
        ) by {
            if i > 0 {
                assert(es.subrange(1, es.len() as int)[i - 1] == es[i]);
            }
        }
    }
}

/// Pointwise reading of [`gfield_shapes_of`].
pub proof fn lemma_gfield_shapes_index(fs: Seq<FieldShape>)
    ensures
        gfield_shapes_of(fs).len() == fs.len(),
        forall|i: int| 0 <= i < fs.len() ==> gfield_shapes_of(fs)[i] == (GFieldShape {
            name: (#[trigger] fs[i]).name@,
            shape: gshape_of(fs[i].shape),
        }),
    decreases fs.len(),
{
    if fs.len() > 0 {
        lemma_gfield_shapes_index(fs.subrange(1, fs.len() as int));
        assert forall|i: int| 0 <= i < fs.len() implies gfield_shapes_of(fs)[i] == (GFieldShape {
            name: (#[trigger] fs[i]).name@,
            shape: gshape_of(fs[i].shape),
        }) by {
            if i > 0 {
                assert(fs.subrange(1, fs.len() as int)[i - 1] == fs[i]);
            }
        }
    }
}

/// Pointwise reading of [`gvariants_of`]: names and payloads line up.
pub proof fn lemma_gvariants_index(vs: Seq<VariantShape>)
    ensures
        gvariants_of(vs).len() == vs.len(),
        forall|i: int| 0 <= i < vs.len() ==> gvariants_of(vs)[i] == (GVariantShape {
            name: (#[trigger] vs[i]).name@,
            payload: gpayload_shape_of(vs[i].payload),
        }),
    decreases vs.len(),
{
    if vs.len() > 0 {
        lemma_gvariants_index(vs.subrange(1, vs.len() as int));
        assert forall|i: int| 1 <= i < vs.len() implies vs.subrange(1, vs.len() as int)[i - 1]
            == vs[i] by {}
    }
}

} // verus!
