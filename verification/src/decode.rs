//! The path decoder: reconstructs a nested value of a given shape from the
//! flat set of leaf entries, mirroring the encoder's path grammar in reverse.
//!
//! Entries are grouped by their first remaining path segment at each nesting
//! level: records partition by field name, lists and tuples by bracketed
//! index (indices must form a contiguous run `0..n` — a gap is
//! `MissingIndex`), map entries by alternating `key` / `value` runs in
//! positional order, and scalars read the single entry at the exact path. A
//! boolean is reconstructed from its dual entries: true exactly when the
//! active-state sentinel is among them. An optional value is present exactly
//! when at least one entry exists at or below its path.

use vstd::prelude::*;

use crate::encode::{key_marker, off_text, on_text, value_marker};
use crate::path::{GEntry, GSeg, Kind};
use crate::text::{spec_parse_i64, spec_parse_u64};
use crate::value::{GFieldShape, GFieldVal, GPairVal, GPayload, GPayloadShape, GShape, GValue,
    GVariantShape};

verus! {

broadcast use vstd::std_specs::vec::group_vec_axioms, vstd::seq::axiom_seq_index_decreases;

/// The decoder's error taxonomy: every mismatch between the flat input and
/// the expected shape is reported as a typed, recoverable error.
#[derive(Clone, Copy, PartialEq, Eq, Structural, Debug)]
pub enum DecodeError {
    /// No entry exists where a scalar leaf was expected.
    MissingField,
    /// An entry's suffix or position does not match the expected shape.
    TypeMismatch,
    /// The bracketed indices of a list or tuple have a gap or a stray entry.
    MissingIndex,
    /// A map's `key` / `value` halves do not pair up.
    MalformedMap,
    /// A raw text does not parse under the declared scalar grammar.
    ParseFailure,
}

/// Whether an entry's path starts with the given segment.
pub open spec fn heads_with(e: GEntry, seg: GSeg) -> bool {
    e.path.len() >= 1 && e.path[0] == seg
}

/// An entry with its first path segment removed.
pub open spec fn strip1(e: GEntry) -> GEntry {
    if e.path.len() >= 1 {
        GEntry { path: e.path.subrange(1, e.path.len() as int), kind: e.kind, text: e.text }
    } else {
        e
    }
}

/// The partition of `es` under `seg`: the entries whose path starts with
/// `seg`, in order, each with that segment stripped.
pub open spec fn part_at(es: Seq<GEntry>, seg: GSeg) -> Seq<GEntry> {
    es.filter(|e: GEntry| heads_with(e, seg)).map_values(|e: GEntry| strip1(e))
}

/// Whether an entry is a leaf at the current path itself, with the given
/// suffix kind.
pub open spec fn is_leaf_here(e: GEntry, kind: Kind) -> bool {
    e.path.len() == 0 && e.kind == kind
}

/// The length of the leading run of entries whose paths start with `seg`.
pub open spec fn run_len(es: Seq<GEntry>, seg: GSeg) -> int
    decreases es.len(),
{
    if es.len() > 0 && heads_with(es[0], seg) {
        1 + run_len(es.subrange(1, es.len() as int), seg)
    } else {
        0
    }
}

/// The entries of a run, stripped of their leading segment.
pub open spec fn strip_all(es: Seq<GEntry>) -> Seq<GEntry> {
    es.map_values(|e: GEntry| strip1(e))
}

/// Decode a single-entry scalar partition, or say why it cannot be done.
pub open spec fn decode_scalar(shape: GShape, es: Seq<GEntry>) -> Result<GValue, DecodeError> {
    if es.len() == 0 {
        Err(DecodeError::MissingField)
    } else if es.len() != 1 || es[0].path.len() != 0 {
        Err(DecodeError::TypeMismatch)
    } else {
        let e = es[0];
        match shape {
            GShape::Int => if e.kind != Kind::Num {
                Err(DecodeError::TypeMismatch)
            } else {
                match spec_parse_i64(e.text) {
                    Some(v) => Ok(GValue::Int(v)),
                    None => Err(DecodeError::ParseFailure),
                }
            },
            GShape::UInt => if e.kind != Kind::Num {
                Err(DecodeError::TypeMismatch)
            } else {
                match spec_parse_u64(e.text) {
                    Some(v) => Ok(GValue::UInt(v)),
                    None => Err(DecodeError::ParseFailure),
                }
            },
            GShape::Text => if e.kind != Kind::Text {
                Err(DecodeError::TypeMismatch)
            } else {
                Ok(GValue::Text(e.text))
            },
            GShape::Char => if e.kind != Kind::Text {
                Err(DecodeError::TypeMismatch)
            } else if e.text.len() == 1 {
                Ok(GValue::Char(e.text[0]))
            } else {
                Err(DecodeError::ParseFailure)
            },
            _ => Err(DecodeError::TypeMismatch),
        }
    }
}

/// Decode a boolean partition: at least one leaf entry with the boolean
/// suffix must stand at the exact path, and the value is true exactly when
/// the active-state sentinel is among the entries (a later entry overrides an
/// earlier fallback).
pub open spec fn decode_bool(es: Seq<GEntry>) -> Result<GValue, DecodeError> {
    if es.len() == 0 {
        Err(DecodeError::MissingField)
    } else if forall|i: int| 0 <= i < es.len() ==> is_leaf_here(#[trigger] es[i], Kind::Bool) {
        Ok(GValue::Bool(exists|i: int| 0 <= i < es.len() && (#[trigger] es[i]).text == on_text()))
    } else {
        Err(DecodeError::TypeMismatch)
    }
}

/// Whether an entry's path starts with an index below `n`.
pub open spec fn heads_below(e: GEntry, n: int) -> bool {
    exists|j: usize| heads_with(e, GSeg::Item(j)) && j < n
}

/// Whether every entry's path starts with an index below `n`: nothing is
/// left over after a list or tuple has consumed indices `0..n`.
pub open spec fn all_below(es: Seq<GEntry>, n: int) -> bool {
    forall|k: int| 0 <= k < es.len() ==> heads_below(#[trigger] es[k], n)
}

/// Decode the elements of a list from index `i` upward: the partition at each
/// index is one element, and the list ends at the first empty partition,
/// which must leave nothing over.
pub open spec fn decode_list_from(elem: GShape, es: Seq<GEntry>, i: int) -> Result<
    Seq<GValue>,
    DecodeError,
>
    decreases elem, 2int, es.len() - i,
{
    if i < 0 || i > es.len() {
        Err(DecodeError::MissingIndex)
    } else if part_at(es, GSeg::Item(i as usize)).len() == 0 || i == es.len() {
        if all_below(es, i) {
            Ok(Seq::<GValue>::empty())
        } else {
            Err(DecodeError::MissingIndex)
        }
    } else {
        match spec_decode(elem, part_at(es, GSeg::Item(i as usize))) {
            Err(e) => Err(e),
            Ok(v) => match decode_list_from(elem, es, i + 1) {
                Err(e) => Err(e),
                Ok(vs) => Ok(seq![v] + vs),
            },
        }
    }
}

/// Decode the elements of a tuple: one partition per declared element shape,
/// at indices `base..base + shapes.len()`, with nothing left over at the end.
pub open spec fn decode_tuple(shapes: Seq<GShape>, es: Seq<GEntry>, base: int) -> Result<
    Seq<GValue>,
    DecodeError,
>
    decreases shapes, 0int, 0int,
{
    if shapes.len() == 0 {
        if all_below(es, base) {
            Ok(Seq::<GValue>::empty())
        } else {
            Err(DecodeError::MissingIndex)
        }
    } else {
        match spec_decode(shapes[0], part_at(es, GSeg::Item(base as usize))) {
            Err(e) => Err(e),
            Ok(v) => match decode_tuple(shapes.subrange(1, shapes.len() as int), es, base + 1) {
                Err(e) => Err(e),
                Ok(vs) => Ok(seq![v] + vs),
            },
        }
    }
}

/// Decode the fields of a record: each field from the partition under its
/// own name, absence of a partition decoding through the field's shape
/// (an optional field decodes to `None`); entries under unknown names are
/// ignored.
pub open spec fn decode_record(fields: Seq<GFieldShape>, es: Seq<GEntry>) -> Result<
    Seq<GFieldVal>,
    DecodeError,
>
    decreases fields, 0int, 0int,
{
    if fields.len() == 0 {
        Ok(Seq::<GFieldVal>::empty())
    } else {
        match spec_decode(fields[0].shape, part_at(es, GSeg::Field(fields[0].name))) {
            Err(e) => Err(e),
            Ok(v) => match decode_record(fields.subrange(1, fields.len() as int), es) {
                Err(e) => Err(e),
                Ok(fvs) => Ok(seq![GFieldVal { name: fields[0].name, value: v }] + fvs),
            },
        }
    }
}

/// Decode the pairs of a map: the entries come as alternating positional
/// runs — a nonempty `key` run then a nonempty `value` run per pair — and
/// unmatched halves are `MalformedMap`.
pub open spec fn decode_pairs(tshape: GShape, es: Seq<GEntry>) -> Result<
    Seq<GPairVal>,
    DecodeError,
>
    decreases tshape, 0int, es.len(),
{
    match tshape {
        GShape::Table(kshape, vshape) => {
            if es.len() == 0 {
                Ok(Seq::<GPairVal>::empty())
            } else {
                let kr = run_len(es, GSeg::Field(key_marker()));
                let vr = run_len(es.subrange(kr, es.len() as int), GSeg::Field(value_marker()));
                if kr < 1 || vr < 1 || kr + vr > es.len() {
                    Err(DecodeError::MalformedMap)
                } else {
                    let kpart = strip_all(es.subrange(0, kr));
                    let vpart = strip_all(es.subrange(kr, kr + vr));
                    match spec_decode(*kshape, kpart) {
                        Err(e) => Err(e),
                        Ok(k) => match spec_decode(*vshape, vpart) {
                            Err(e) => Err(e),
                            Ok(v) => match decode_pairs(
                                tshape,
                                es.subrange(kr + vr, es.len() as int),
                            ) {
                                Err(e) => Err(e),
                                Ok(ps) => Ok(seq![GPairVal { key: k, value: v }] + ps),
                            },
                        },
                    }
                }
            }
        },
        _ => Err(DecodeError::MalformedMap),
    }
}

/// Decode one declared variant from the partition: a unit variant is its
/// name as a single text leaf, the payload variants decode transparently.
pub open spec fn decode_variant(variant: GVariantShape, es: Seq<GEntry>) -> Result<
    GValue,
    DecodeError,
>
    decreases variant, 0int, 0int,
{
    match variant.payload {
        GPayloadShape::Empty => {
            if es.len() == 1 && es[0].path.len() == 0 && es[0].kind == Kind::Text && es[0].text
                == variant.name {
                Ok(GValue::Choice(variant.name, GPayload::Empty))
            } else {
                Err(DecodeError::TypeMismatch)
            }
        },
        GPayloadShape::Wrapped(b) => match spec_decode(*b, es) {
            Err(e) => Err(e),
            Ok(v) => Ok(GValue::Choice(variant.name, GPayload::Wrapped(Box::new(v)))),
        },
        GPayloadShape::TupleOf(ts) => match decode_tuple(ts, es, 0) {
            Err(e) => Err(e),
            Ok(vs) => Ok(GValue::Choice(variant.name, GPayload::TupleOf(vs))),
        },
        GPayloadShape::RecordOf(fs) => match decode_record(fs, es) {
            Err(e) => Err(e),
            Ok(fvs) => Ok(GValue::Choice(variant.name, GPayload::RecordOf(fvs))),
        },
    }
}

/// Decode a tagged choice: try the declared variants in order and keep the
/// first that decodes; when none does, the partition matches no variant.
pub open spec fn decode_choice(variants: Seq<GVariantShape>, es: Seq<GEntry>) -> Result<
    GValue,
    DecodeError,
>
    decreases variants, 0int, 0int,
{
    if variants.len() == 0 {
        Err(DecodeError::TypeMismatch)
    } else {
        match decode_variant(variants[0], es) {
            Ok(v) => Ok(v),
            Err(_) => decode_choice(variants.subrange(1, variants.len() as int), es),
        }
    }
}

/// Decode a partition of flat entries as a value of the given shape. The
/// paths of the entries are relative to the value's own position.
pub open spec fn spec_decode(shape: GShape, es: Seq<GEntry>) -> Result<GValue, DecodeError>
    decreases shape, 1int, 0int,
{
    match shape {
        GShape::Bool => decode_bool(es),
        GShape::Int => decode_scalar(shape, es),
        GShape::UInt => decode_scalar(shape, es),
        GShape::Text => decode_scalar(shape, es),
        GShape::Char => decode_scalar(shape, es),
        GShape::Unit => Ok(GValue::Unit),
        GShape::Maybe(inner) => if es.len() == 0 {
            Ok(GValue::Maybe(Option::None))
        } else {
            match spec_decode(*inner, es) {
                Err(e) => Err(e),
                Ok(v) => Ok(GValue::Maybe(Option::Some(Box::new(v)))),
            }
        },
        GShape::List(elem) => match decode_list_from(*elem, es, 0) {
            Err(e) => Err(e),
            Ok(vs) => Ok(GValue::List(vs)),
        },
        GShape::Tuple(ts) => match decode_tuple(ts, es, 0) {
            Err(e) => Err(e),
            Ok(vs) => Ok(GValue::Tuple(vs)),
        },
        GShape::Table(_, _) => match decode_pairs(shape, es) {
            Err(e) => Err(e),
            Ok(ps) => Ok(GValue::Table(ps)),
        },
        GShape::Record(fs) => match decode_record(fs, es) {
            Err(e) => Err(e),
            Ok(fvs) => Ok(GValue::Record(fvs)),
        },
        GShape::Choice(vs) => decode_choice(vs, es),
    }
}

} // verus!
