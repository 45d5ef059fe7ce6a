//! The codec's laws: the encoding of a value of a supported shape decodes
//! back to the same value, and the supporting partition facts about the
//! encoder's output (index contiguity, option absence).

use vstd::prelude::*;

use crate::decode::{
    all_below, decode_bool, decode_choice, decode_list_from, decode_pairs, decode_record,
    decode_scalar, decode_tuple, decode_variant, heads_below, heads_with, part_at, spec_decode,
    strip1, strip_all, run_len, DecodeError,
};
use crate::encode::{
    encode_elems, encode_fields, encode_pairs, key_marker, off_text, on_text, spec_encode,
    value_marker, with_seg,
};
use crate::codec::{spec_parse_entries, spec_render_entries};
use crate::path::{
    lemma_parse_render_name, spec_parse_name, spec_render_name, wf_gseg, wf_gsegs, GEntry,
    GFlatEntry, GSeg, Kind,
};
use crate::text::{lemma_parse_i64_round, lemma_parse_u64_round};
use crate::value::{
    GFieldShape, GFieldVal, GPairVal, GPayload, GPayloadShape, GShape, GValue, GVariantShape,
};

verus! {

broadcast use vstd::std_specs::vec::group_vec_axioms, vstd::seq::axiom_seq_index_decreases;

/// Whether a value leaves at least one leaf entry behind: the decoder can
/// see it. `None`, unit and empty containers are invisible.
pub open spec fn emits(g: GValue) -> bool
    decreases g,
{
    match g {
        GValue::Bool(_) => true,
        GValue::Int(_) => true,
        GValue::UInt(_) => true,
        GValue::Text(_) => true,
        GValue::Char(_) => true,
        GValue::Unit => false,
        GValue::Maybe(o) => match o {
            Option::None => false,
            Option::Some(b) => emits(*b),
        },
        GValue::List(es) => es.len() > 0,
        GValue::Tuple(es) => es.len() > 0,
        GValue::Table(ps) => ps.len() > 0,
        GValue::Record(fs) => any_emits(fs),
        GValue::Choice(_, payload) => match payload {
            GPayload::Empty => true,
            GPayload::Wrapped(b) => emits(*b),
            GPayload::TupleOf(es) => es.len() > 0,
            GPayload::RecordOf(fs) => any_emits(fs),
        },
    }
}

/// Whether at least one field of a record emits an entry.
pub open spec fn any_emits(fs: Seq<GFieldVal>) -> bool
    decreases fs,
{
    if fs.len() == 0 {
        false
    } else {
        emits(fs[0].value) || any_emits(fs.subrange(1, fs.len() as int))
    }
}

/// The index of the first variant with the given name, or -1.
pub open spec fn find_variant(variants: Seq<GVariantShape>, name: Seq<char>) -> int
    decreases variants,
{
    if variants.len() == 0 {
        -1
    } else if variants[0].name == name {
        0
    } else {
        let r = find_variant(variants.subrange(1, variants.len() as int), name);
        if r < 0 {
            -1
        } else {
            1 + r
        }
    }
}

/// Field names of a record shape are pairwise distinct, so that the
/// partitions under them cannot mix.
pub open spec fn distinct_names(fss: Seq<GFieldShape>) -> bool {
    forall|i: int, j: int|
        0 <= i < j < fss.len() ==> (#[trigger] fss[i]).name != (#[trigger] fss[j]).name
}

/// Each list element conforms to the element shape and emits at least one
/// entry (an invisible element would open a gap in the indices).
pub open spec fn rt_elems(es: Seq<GValue>, elem: GShape) -> bool
    decreases es,
{
    if es.len() == 0 {
        true
    } else {
        rt_ok(es[0], elem) && emits(es[0]) && rt_elems(es.subrange(1, es.len() as int), elem)
    }
}

/// Tuple elements conform pairwise to the declared shapes and all emit.
pub open spec fn rt_tuple(es: Seq<GValue>, ss: Seq<GShape>) -> bool
    decreases es,
{
    es.len() == ss.len() && if es.len() == 0 {
        true
    } else {
        rt_ok(es[0], ss[0]) && emits(es[0]) && rt_tuple(
            es.subrange(1, es.len() as int),
            ss.subrange(1, ss.len() as int),
        )
    }
}

/// Map keys and values conform to the key and value shapes and all emit
/// (an invisible half would break the positional pairing of the runs).
pub open spec fn rt_pairs(ps: Seq<GPairVal>, kshape: GShape, vshape: GShape) -> bool
    decreases ps,
{
    if ps.len() == 0 {
        true
    } else {
        rt_ok(ps[0].key, kshape) && emits(ps[0].key) && rt_ok(ps[0].value, vshape) && emits(
            ps[0].value,
        ) && rt_pairs(ps.subrange(1, ps.len() as int), kshape, vshape)
    }
}

/// Record fields carry the declared names — well-formed as path segments —
/// and conform to the declared field shapes.
pub open spec fn rt_fields(fvs: Seq<GFieldVal>, fss: Seq<GFieldShape>) -> bool
    decreases fvs,
{
    fvs.len() == fss.len() && if fvs.len() == 0 {
        true
    } else {
        fvs[0].name == fss[0].name && wf_gseg(GSeg::Field(fvs[0].name)) && rt_ok(
            fvs[0].value,
            fss[0].shape,
        ) && rt_fields(
            fvs.subrange(1, fvs.len() as int),
            fss.subrange(1, fss.len() as int),
        )
    }
}

/// A choice payload conforms to a declared payload shape.
pub open spec fn rt_payload(p: GPayload, ps: GPayloadShape) -> bool
    decreases p,
{
    match (p, ps) {
        (GPayload::Empty, GPayloadShape::Empty) => true,
        (GPayload::Wrapped(b), GPayloadShape::Wrapped(bs)) => rt_ok(*b, *bs),
        (GPayload::TupleOf(es), GPayloadShape::TupleOf(ss)) => es.len() <= usize::MAX && rt_tuple(
            es,
            ss,
        ),
        (GPayload::RecordOf(fvs), GPayloadShape::RecordOf(fss)) => distinct_names(fss)
            && rt_fields(fvs, fss),
        _ => false,
    }
}

/// A value of a supported shape: it conforms to the shape, every name is a
/// well-formed path segment, positional and optional children are visible,
/// record field names are distinct, and the variant of every choice is the
/// one its own encoding decodes to (no earlier declared variant matches).
/// These are exactly the values whose encoding the decoder inverts.
pub open spec fn rt_ok(g: GValue, s: GShape) -> bool
    decreases g,
{
    match (g, s) {
        (GValue::Bool(_), GShape::Bool) => true,
        (GValue::Int(_), GShape::Int) => true,
        (GValue::UInt(_), GShape::UInt) => true,
        (GValue::Text(_), GShape::Text) => true,
        (GValue::Char(_), GShape::Char) => true,
        (GValue::Unit, GShape::Unit) => true,
        (GValue::Maybe(o), GShape::Maybe(inner)) => match o {
            Option::None => true,
            Option::Some(b) => emits(*b) && rt_ok(*b, *inner),
        },
        (GValue::List(es), GShape::List(elem)) => es.len() <= usize::MAX && rt_elems(es, *elem),
        (GValue::Tuple(es), GShape::Tuple(ss)) => es.len() <= usize::MAX && rt_tuple(es, ss),
        (GValue::Table(ps), GShape::Table(kshape, vshape)) => rt_pairs(ps, *kshape, *vshape),
        (GValue::Record(fvs), GShape::Record(fss)) => distinct_names(fss) && rt_fields(fvs, fss),
        (GValue::Choice(name, payload), GShape::Choice(variants)) => {
            let k = find_variant(variants, name);
            &&& 0 <= k < variants.len()
            &&& variants[k].name == name
            &&& rt_payload(payload, variants[k].payload)
            &&& forall|j: int|
                0 <= j < k ==> (decode_variant(
                    #[trigger] variants[j],
                    spec_encode(GValue::Choice(name, payload)),
                ) is Err)
        },
        _ => false,
    }
}


/// A filter that keeps everything is the identity.
proof fn lemma_filter_all(es: Seq<GEntry>, pred: spec_fn(GEntry) -> bool)
    requires
        forall|i: int| 0 <= i < es.len() ==> pred(#[trigger] es[i]),
    ensures
        es.filter(pred) == es,
    decreases es.len(),
{
    reveal(Seq::filter);
    if es.len() > 0 {
        lemma_filter_all(es.drop_last(), pred);
        assert(pred(es.last()));
        assert(es.drop_last().push(es.last()) =~= es);
    }
}

/// A filter that keeps nothing is empty.
proof fn lemma_filter_none(es: Seq<GEntry>, pred: spec_fn(GEntry) -> bool)
    requires
        forall|i: int| 0 <= i < es.len() ==> !pred(#[trigger] es[i]),
    ensures
        es.filter(pred) == Seq::<GEntry>::empty(),
    decreases es.len(),
{
    reveal(Seq::filter);
    if es.len() > 0 {
        lemma_filter_none(es.drop_last(), pred);
        assert(!pred(es.last()));
    }
}

/// Partitioning distributes over concatenation.
pub proof fn lemma_part_at_concat(a: Seq<GEntry>, b: Seq<GEntry>, seg: GSeg)
    ensures
        part_at(a + b, seg) == part_at(a, seg) + part_at(b, seg),
{
    let pred = |e: GEntry| heads_with(e, seg);
    Seq::<GEntry>::filter_distributes_over_add(a, b, pred);
    let fa = a.filter(pred);
    let fb = b.filter(pred);
    assert((fa + fb).map_values(|e: GEntry| strip1(e)) =~= fa.map_values(|e: GEntry| strip1(e))
        + fb.map_values(|e: GEntry| strip1(e)));
}

/// The partition of one child's prefixed entries: everything under the
/// child's own segment, stripped back to the child's entries; nothing under
/// any other segment.
pub proof fn lemma_part_with_seg(seg: GSeg, es: Seq<GEntry>, q: GSeg)
    ensures
        q == seg ==> part_at(with_seg(seg, es), q) == es,
        q != seg ==> part_at(with_seg(seg, es), q) == Seq::<GEntry>::empty(),
{
    let pred = |e: GEntry| heads_with(e, q);
    let w = with_seg(seg, es);
    assert forall|i: int| 0 <= i < w.len() implies heads_with(#[trigger] w[i], seg) by {
        assert(w[i].path == seq![seg] + es[i].path);
        assert(w[i].path[0] == seg);
    }
    if q == seg {
        lemma_filter_all(w, pred);
        assert forall|i: int| 0 <= i < w.len() implies strip1(w[i]) == es[i] by {
            assert(w[i].path == seq![seg] + es[i].path);
            assert(w[i].path.subrange(1, w[i].path.len() as int) =~= es[i].path);
        }
        assert(w.map_values(|e: GEntry| strip1(e)) =~= es);
    } else {
        assert forall|i: int| 0 <= i < w.len() implies !pred(w[i]) by {
            assert(w[i].path[0] == seg);
        }
        lemma_filter_none(w, pred);
        assert(Seq::<GEntry>::empty().map_values(|e: GEntry| strip1(e)) =~= Seq::<
            GEntry,
        >::empty());
    }
}

/// Prefixing a segment keeps the number of entries.
pub proof fn lemma_with_seg_len(seg: GSeg, es: Seq<GEntry>)
    ensures
        with_seg(seg, es).len() == es.len(),
{
}

/// Stripping the prefixed entries of one child gives back the child's own.
pub proof fn lemma_strip_with_seg(seg: GSeg, es: Seq<GEntry>)
    ensures
        strip_all(with_seg(seg, es)) == es,
{
    let w = with_seg(seg, es);
    assert forall|i: int| 0 <= i < w.len() implies strip1(#[trigger] w[i]) == es[i] by {
        assert(w[i].path == seq![seg] + es[i].path);
        assert(w[i].path.subrange(1, w[i].path.len() as int) =~= es[i].path);
    }
    assert(strip_all(w) =~= es);
}

/// The partition of a positional encoding under an index: exactly the entries
/// of the element with that index, and empty beyond the length.
pub proof fn lemma_part_encode_elems(gs: Seq<GValue>, base: int, q: usize)
    requires
        0 <= base,
        base + gs.len() <= usize::MAX,
    ensures
        base <= q < base + gs.len() ==> part_at(encode_elems(gs, base), GSeg::Item(q))
            == spec_encode(gs[q - base]),
        !(base <= q < base + gs.len()) ==> part_at(encode_elems(gs, base), GSeg::Item(q))
            == Seq::<GEntry>::empty(),
    decreases gs.len(),
{
    if gs.len() == 0 {
        let pred = |e: GEntry| heads_with(e, GSeg::Item(q));
        lemma_filter_none(encode_elems(gs, base), pred);
        assert(Seq::<GEntry>::empty().map_values(|e: GEntry| strip1(e)) =~= Seq::<
            GEntry,
        >::empty());
    } else {
        let tail = gs.subrange(1, gs.len() as int);
        let first = with_seg(GSeg::Item(base as usize), spec_encode(gs[0]));
        lemma_part_at_concat(first, encode_elems(tail, base + 1), GSeg::Item(q));
        lemma_part_with_seg(GSeg::Item(base as usize), spec_encode(gs[0]), GSeg::Item(q));
        lemma_part_encode_elems(tail, base + 1, q);
        if q == base {
            assert(part_at(encode_elems(gs, base), GSeg::Item(q)) =~= spec_encode(gs[0]));
        } else if base < q < base + gs.len() {
            assert(tail[q - base - 1] == gs[q - base]);
            assert(part_at(encode_elems(gs, base), GSeg::Item(q)) =~= spec_encode(gs[q - base]));
        } else {
            assert(part_at(encode_elems(gs, base), GSeg::Item(q)) =~= Seq::<GEntry>::empty());
        }
    }
}

/// An entry that heads with an index in `base..base + n`.
pub open spec fn heads_in_range(e: GEntry, base: int, n: int) -> bool {
    exists|j: usize| heads_with(e, GSeg::Item(j)) && base <= j < base + n
}

/// Every entry of a positional encoding heads with an in-range index.
pub proof fn lemma_encode_elems_heads(gs: Seq<GValue>, base: int)
    requires
        0 <= base,
        base + gs.len() <= usize::MAX,
    ensures
        forall|k: int|
            0 <= k < encode_elems(gs, base).len() ==> heads_in_range(
                #[trigger] encode_elems(gs, base)[k],
                base,
                gs.len() as int,
            ),
    decreases gs.len(),
{
    if gs.len() == 0 {
        assert(encode_elems(gs, base).len() == 0);
    } else {
        let tail = gs.subrange(1, gs.len() as int);
        let first = with_seg(GSeg::Item(base as usize), spec_encode(gs[0]));
        lemma_encode_elems_heads(tail, base + 1);
        let whole = encode_elems(gs, base);
        assert(whole == first + encode_elems(tail, base + 1));
        assert forall|k: int| 0 <= k < encode_elems(gs, base).len() implies heads_in_range(
            #[trigger] encode_elems(gs, base)[k],
            base,
            gs.len() as int,
        ) by {
            if k < first.len() {
                assert(whole[k] == first[k]);
                assert(first[k].path == seq![GSeg::Item(base as usize)] + spec_encode(
                    gs[0],
                )[k].path);
                assert(heads_with(whole[k], GSeg::Item(base as usize)));
            } else {
                assert(whole[k] == encode_elems(tail, base + 1)[k - first.len()]);
                assert(0 <= k - first.len() < encode_elems(tail, base + 1).len());
                assert(heads_in_range(
                    encode_elems(tail, base + 1)[k - first.len()],
                    base + 1,
                    tail.len() as int,
                ));
                let j = choose|j: usize|
                    heads_with(encode_elems(tail, base + 1)[k - first.len()], GSeg::Item(j)) && base
                        + 1 <= j < base + 1 + tail.len();
                assert(heads_with(whole[k], GSeg::Item(j)) && base <= j < base + gs.len());
            }
        }
    }
}

/// The partition of a record encoding under a name that no field bears is
/// empty.
pub proof fn lemma_part_encode_fields_absent(gfs: Seq<GFieldVal>, name: Seq<char>)
    requires
        forall|j: int| 0 <= j < gfs.len() ==> (#[trigger] gfs[j]).name != name,
    ensures
        part_at(encode_fields(gfs), GSeg::Field(name)) == Seq::<GEntry>::empty(),
    decreases gfs.len(),
{
    if gfs.len() == 0 {
        let pred = |e: GEntry| heads_with(e, GSeg::Field(name));
        lemma_filter_none(encode_fields(gfs), pred);
        assert(Seq::<GEntry>::empty().map_values(|e: GEntry| strip1(e)) =~= Seq::<
            GEntry,
        >::empty());
    } else {
        let tail = gfs.subrange(1, gfs.len() as int);
        let first = with_seg(GSeg::Field(gfs[0].name), spec_encode(gfs[0].value));
        lemma_part_at_concat(first, encode_fields(tail), GSeg::Field(name));
        lemma_part_with_seg(GSeg::Field(gfs[0].name), spec_encode(gfs[0].value), GSeg::Field(name));
        lemma_part_encode_fields_absent(tail, name);
        assert(part_at(encode_fields(gfs), GSeg::Field(name)) =~= Seq::<GEntry>::empty());
    }
}

/// The partition of a record encoding under one field's name — distinct from
/// all the others — is exactly that field's entries.
pub proof fn lemma_part_encode_fields(gfs: Seq<GFieldVal>, k: int)
    requires
        0 <= k < gfs.len(),
        forall|j: int| 0 <= j < gfs.len() && j != k ==> (#[trigger] gfs[j]).name != gfs[k].name,
    ensures
        part_at(encode_fields(gfs), GSeg::Field(gfs[k].name)) == spec_encode(gfs[k].value),
    decreases gfs.len(),
{
    let tail = gfs.subrange(1, gfs.len() as int);
    let first = with_seg(GSeg::Field(gfs[0].name), spec_encode(gfs[0].value));
    let name = gfs[k].name;
    lemma_part_at_concat(first, encode_fields(tail), GSeg::Field(name));
    lemma_part_with_seg(GSeg::Field(gfs[0].name), spec_encode(gfs[0].value), GSeg::Field(name));
    if k == 0 {
        assert forall|j: int| 0 <= j < tail.len() implies (#[trigger] tail[j]).name != name by {
            assert(tail[j] == gfs[j + 1]);
        }
        lemma_part_encode_fields_absent(tail, name);
        assert(part_at(encode_fields(gfs), GSeg::Field(name)) =~= spec_encode(gfs[0].value));
    } else {
        assert forall|j: int| 0 <= j < tail.len() && j != k - 1 implies (#[trigger] tail[j]).name
            != tail[k - 1].name by {
            assert(tail[j] == gfs[j + 1]);
            assert(tail[k - 1] == gfs[k]);
        }
        lemma_part_encode_fields(tail, k - 1);
        assert(tail[k - 1] == gfs[k]);
        assert(gfs[0].name != name);
        assert(part_at(encode_fields(gfs), GSeg::Field(name)) =~= spec_encode(gfs[k].value));
    }
}

/// A run is exactly `m` long when the first `m` entries head with the
/// segment and the next one (if any) does not.
pub proof fn lemma_run_len_exact(es: Seq<GEntry>, seg: GSeg, m: int)
    requires
        0 <= m <= es.len(),
        forall|i: int| 0 <= i < m ==> heads_with(#[trigger] es[i], seg),
        m == es.len() || !heads_with(es[m], seg),
    ensures
        run_len(es, seg) == m,
    decreases es.len(),
{
    if m == 0 {
    } else {
        let t = es.subrange(1, es.len() as int);
        assert forall|i: int| 0 <= i < m - 1 implies heads_with(#[trigger] t[i], seg) by {
            assert(t[i] == es[i + 1]);
        }
        if m < es.len() {
            assert(t[m - 1] == es[m]);
        }
        lemma_run_len_exact(t, seg, m - 1);
    }
}


/// Each element of a conforming element sequence conforms and emits.
proof fn lemma_rt_elems_index(es: Seq<GValue>, elem: GShape, i: int)
    requires
        rt_elems(es, elem),
        0 <= i < es.len(),
    ensures
        rt_ok(es[i], elem),
        emits(es[i]),
    decreases es.len(),
{
    if i > 0 {
        lemma_rt_elems_index(es.subrange(1, es.len() as int), elem, i - 1);
        assert(es.subrange(1, es.len() as int)[i - 1] == es[i]);
    }
}

/// Each field of a conforming field sequence bears the declared, well-formed
/// name and conforms to the declared shape.
proof fn lemma_rt_fields_index(fvs: Seq<GFieldVal>, fss: Seq<GFieldShape>, i: int)
    requires
        rt_fields(fvs, fss),
        0 <= i < fvs.len(),
    ensures
        fvs.len() == fss.len(),
        fvs[i].name == fss[i].name,
        wf_gseg(GSeg::Field(fvs[i].name)),
        rt_ok(fvs[i].value, fss[i].shape),
    decreases fvs.len(),
{
    if i > 0 {
        lemma_rt_fields_index(
            fvs.subrange(1, fvs.len() as int),
            fss.subrange(1, fss.len() as int),
            i - 1,
        );
        assert(fvs.subrange(1, fvs.len() as int)[i - 1] == fvs[i]);
        assert(fss.subrange(1, fss.len() as int)[i - 1] == fss[i]);
    }
}

/// A visible conforming value encodes to at least one entry.
pub proof fn lemma_emits_nonempty(g: GValue, s: GShape)
    requires
        rt_ok(g, s),
        emits(g),
    ensures
        spec_encode(g).len() > 0,
    decreases g, 1int, 0int,
{
    match (g, s) {
        (GValue::Maybe(o), GShape::Maybe(inner)) => {
            lemma_emits_nonempty(*o.unwrap(), *inner);
        },
        (GValue::List(es), GShape::List(elem)) => {
            lemma_rt_elems_index(es, *elem, 0);
            lemma_emits_nonempty(es[0], *elem);
            lemma_with_seg_len(GSeg::Item(0), spec_encode(es[0]));
            assert(encode_elems(es, 0) == with_seg(GSeg::Item(0), spec_encode(es[0]))
                + encode_elems(es.subrange(1, es.len() as int), 1));
            assert(spec_encode(g).len() > 0);
        },
        (GValue::Tuple(es), GShape::Tuple(ss)) => {
            assert(rt_tuple(es, ss));
            assert(es.len() > 0);
            assert(rt_ok(es[0], ss[0]) && emits(es[0]));
            lemma_emits_nonempty(es[0], ss[0]);
            lemma_with_seg_len(GSeg::Item(0), spec_encode(es[0]));
            assert(encode_elems(es, 0) == with_seg(GSeg::Item(0), spec_encode(es[0]))
                + encode_elems(es.subrange(1, es.len() as int), 1));
            assert(spec_encode(g).len() > 0);
        },
        (GValue::Table(ps), GShape::Table(kshape, vshape)) => {
            assert(rt_pairs(ps, *kshape, *vshape));
            assert(ps.len() > 0);
            assert(rt_ok(ps[0].key, *kshape) && emits(ps[0].key));
            lemma_emits_nonempty(ps[0].key, *kshape);
            lemma_with_seg_len(GSeg::Field(key_marker()), spec_encode(ps[0].key));
            assert(encode_pairs(ps) == with_seg(GSeg::Field(key_marker()), spec_encode(ps[0].key))
                + with_seg(GSeg::Field(value_marker()), spec_encode(ps[0].value)) + encode_pairs(
                ps.subrange(1, ps.len() as int),
            ));
            assert(spec_encode(g).len() > 0);
        },
        (GValue::Record(fvs), GShape::Record(fss)) => {
            lemma_fields_emit(fvs, fss);
        },
        (GValue::Choice(name, payload), GShape::Choice(variants)) => {
            let k = find_variant(variants, name);
            assert(rt_payload(payload, variants[k].payload));
            match (payload, variants[k].payload) {
                (GPayload::Wrapped(b), GPayloadShape::Wrapped(bs)) => {
                    assert(rt_ok(*b, *bs) && emits(*b));
                    lemma_emits_nonempty(*b, *bs);
                },
                (GPayload::TupleOf(es), GPayloadShape::TupleOf(ss)) => {
                    assert(rt_tuple(es, ss));
                    assert(es.len() > 0);
                    assert(rt_ok(es[0], ss[0]) && emits(es[0]));
                    lemma_emits_nonempty(es[0], ss[0]);
                    lemma_with_seg_len(GSeg::Item(0), spec_encode(es[0]));
                    assert(encode_elems(es, 0) == with_seg(GSeg::Item(0), spec_encode(es[0]))
                        + encode_elems(es.subrange(1, es.len() as int), 1));
                    assert(spec_encode(g).len() > 0);
                },
                (GPayload::RecordOf(fvs), GPayloadShape::RecordOf(fss)) => {
                    assert(rt_fields(fvs, fss) && any_emits(fvs));
                    lemma_fields_emit(fvs, fss);
                },
                _ => {},
            }
        },
        _ => {},
    }
}

/// A record with a visible field encodes to at least one entry.
proof fn lemma_fields_emit(fvs: Seq<GFieldVal>, fss: Seq<GFieldShape>)
    requires
        rt_fields(fvs, fss),
        any_emits(fvs),
    ensures
        encode_fields(fvs).len() > 0,
    decreases fvs, 0int, 0int,
{
    assert(encode_fields(fvs) == with_seg(GSeg::Field(fvs[0].name), spec_encode(fvs[0].value))
        + encode_fields(fvs.subrange(1, fvs.len() as int)));
    if emits(fvs[0].value) {
        lemma_emits_nonempty(fvs[0].value, fss[0].shape);
        lemma_with_seg_len(GSeg::Field(fvs[0].name), spec_encode(fvs[0].value));
    } else {
        lemma_fields_emit(
            fvs.subrange(1, fvs.len() as int),
            fss.subrange(1, fss.len() as int),
        );
    }
}

/// A positional encoding has at least one entry per element.
proof fn lemma_encode_elems_min_len(es: Seq<GValue>, elem: GShape, base: int)
    requires
        rt_elems(es, elem),
    ensures
        encode_elems(es, base).len() >= es.len(),
    decreases es, 0int, 0int,
{
    if es.len() > 0 {
        lemma_emits_nonempty(es[0], elem);
        lemma_with_seg_len(GSeg::Item(base as usize), spec_encode(es[0]));
        lemma_encode_elems_min_len(es.subrange(1, es.len() as int), elem, base + 1);
    }
}

/// Decoding a list's encoding from index `i` returns exactly the elements
/// from `i` on.
proof fn lemma_rt_list(es: Seq<GValue>, elem: GShape, i: int)
    requires
        rt_elems(es, elem),
        es.len() <= usize::MAX,
        0 <= i <= es.len(),
    ensures
        decode_list_from(elem, encode_elems(es, 0), i) == Ok::<_, DecodeError>(
            es.subrange(i, es.len() as int),
        ),
    decreases es, 0int, es.len() - i,
{
    let whole = encode_elems(es, 0);
    lemma_encode_elems_min_len(es, elem, 0);
    lemma_part_encode_elems(es, 0, i as usize);
    lemma_encode_elems_heads(es, 0);
    if i == es.len() {
        assert(part_at(whole, GSeg::Item(i as usize)) == Seq::<GEntry>::empty());
        assert forall|k: int| 0 <= k < whole.len() implies heads_below(
            #[trigger] whole[k],
            i,
        ) by {
            assert(heads_in_range(whole[k], 0, es.len() as int));
            let j = choose|j: usize|
                heads_with(whole[k], GSeg::Item(j)) && 0 <= j < es.len() as int;
            assert(heads_with(whole[k], GSeg::Item(j)) && j < i);
        }
        assert(all_below(whole, i));
        assert(es.subrange(i, es.len() as int) =~= Seq::<GValue>::empty());
    } else {
        lemma_rt_elems_index(es, elem, i);
        lemma_emits_nonempty(es[i], elem);
        assert(part_at(whole, GSeg::Item(i as usize)) == spec_encode(es[i]));
        lemma_round_trip_val(es[i], elem);
        lemma_rt_list(es, elem, i + 1);
        assert(seq![es[i]] + es.subrange(i + 1, es.len() as int) =~= es.subrange(
            i,
            es.len() as int,
        ));
    }
}

/// Decoding a tuple's encoding from position `base` returns exactly the
/// elements from `base` on.
proof fn lemma_rt_tuple(full: Seq<GValue>, ss: Seq<GShape>, base: int)
    requires
        0 <= base,
        base + ss.len() == full.len(),
        full.len() <= usize::MAX,
        rt_tuple(full.subrange(base, full.len() as int), ss),
    ensures
        decode_tuple(ss, encode_elems(full, 0), base) == Ok::<_, DecodeError>(
            full.subrange(base, full.len() as int),
        ),
    decreases full, 0int, ss.len(),
{
    let whole = encode_elems(full, 0);
    let part = full.subrange(base, full.len() as int);
    if ss.len() == 0 {
        lemma_encode_elems_heads(full, 0);
        assert forall|k: int| 0 <= k < whole.len() implies heads_below(
            #[trigger] whole[k],
            base,
        ) by {
            assert(heads_in_range(whole[k], 0, full.len() as int));
            let j = choose|j: usize|
                heads_with(whole[k], GSeg::Item(j)) && 0 <= j < full.len() as int;
            assert(heads_with(whole[k], GSeg::Item(j)) && j < base);
        }
        assert(all_below(whole, base));
        assert(part =~= Seq::<GValue>::empty());
    } else {
        lemma_part_encode_elems(full, 0, base as usize);
        assert(part[0] == full[base]);
        assert(part_at(whole, GSeg::Item(base as usize)) == spec_encode(full[base]));
        lemma_round_trip_val(full[base], ss[0]);
        assert(part.subrange(1, part.len() as int) =~= full.subrange(
            base + 1,
            full.len() as int,
        ));
        lemma_rt_tuple(full, ss.subrange(1, ss.len() as int), base + 1);
        assert(seq![full[base]] + full.subrange(base + 1, full.len() as int) =~= part);
    }
}

/// Decoding a record's encoding from field `k` on returns exactly those
/// fields back, names included.
proof fn lemma_rt_record(full: Seq<GFieldVal>, fss: Seq<GFieldShape>, k: int)
    requires
        rt_fields(full, fss),
        distinct_names(fss),
        0 <= k <= full.len(),
    ensures
        decode_record(fss.subrange(k, fss.len() as int), encode_fields(full)) == Ok::<
            _,
            DecodeError,
        >(full.subrange(k, full.len() as int)),
    decreases full, 0int, full.len() - k,
{
    let whole = encode_fields(full);
    let rest = fss.subrange(k, fss.len() as int);
    if k == full.len() {
        assert(rest.len() == 0);
        assert(full.subrange(k, full.len() as int) =~= Seq::<GFieldVal>::empty());
    } else {
        lemma_rt_fields_index(full, fss, k);
        assert(rest[0] == fss[k]);
        assert forall|j: int| 0 <= j < full.len() && j != k implies (#[trigger] full[j]).name
            != full[k].name by {
            lemma_rt_fields_index(full, fss, j);
        }
        lemma_part_encode_fields(full, k);
        assert(part_at(whole, GSeg::Field(fss[k].name)) == spec_encode(full[k].value));
        lemma_round_trip_val(full[k].value, fss[k].shape);
        assert(rest.subrange(1, rest.len() as int) =~= fss.subrange(k + 1, fss.len() as int));
        lemma_rt_record(full, fss, k + 1);
        assert(GFieldVal { name: fss[k].name, value: full[k].value } == full[k]);
        assert(seq![full[k]] + full.subrange(k + 1, full.len() as int) =~= full.subrange(
            k,
            full.len() as int,
        ));
    }
}

/// Decoding a map's encoding returns exactly its pairs, in order.
proof fn lemma_rt_pairs(ps: Seq<GPairVal>, kshape: GShape, vshape: GShape, tshape: GShape)
    requires
        rt_pairs(ps, kshape, vshape),
        tshape == GShape::Table(Box::new(kshape), Box::new(vshape)),
    ensures
        decode_pairs(tshape, encode_pairs(ps)) == Ok::<_, DecodeError>(ps),
    decreases ps, 0int, 0int,
{
    let whole = encode_pairs(ps);
    if ps.len() == 0 {
        assert(whole.len() == 0);
        assert(ps =~= Seq::<GPairVal>::empty());
        assert(decode_pairs(tshape, whole) == Ok::<_, DecodeError>(Seq::<GPairVal>::empty()));
    } else {
        let rest = ps.subrange(1, ps.len() as int);
        let kblock = with_seg(GSeg::Field(key_marker()), spec_encode(ps[0].key));
        let vblock = with_seg(GSeg::Field(value_marker()), spec_encode(ps[0].value));
        let rblock = encode_pairs(rest);
        assert(whole == kblock + vblock + rblock);
        lemma_emits_nonempty(ps[0].key, kshape);
        lemma_emits_nonempty(ps[0].value, vshape);
        assert(key_marker() != value_marker()) by {
            assert(key_marker().len() == 3);
            assert(value_marker().len() == 5);
        }
        assert forall|i: int| 0 <= i < kblock.len() implies heads_with(
            #[trigger] whole[i],
            GSeg::Field(key_marker()),
        ) by {
            assert(whole[i] == kblock[i]);
            assert(kblock[i].path == seq![GSeg::Field(key_marker())] + spec_encode(
                ps[0].key,
            )[i].path);
        }
        assert(whole[kblock.len() as int] == vblock[0]);
        assert(vblock[0].path == seq![GSeg::Field(value_marker())] + spec_encode(
            ps[0].value,
        )[0].path);
        assert(!heads_with(whole[kblock.len() as int], GSeg::Field(key_marker())));
        lemma_run_len_exact(whole, GSeg::Field(key_marker()), kblock.len() as int);
        let kr = kblock.len() as int;
        let after = whole.subrange(kr, whole.len() as int);
        assert(after =~= vblock + rblock);
        assert forall|i: int| 0 <= i < vblock.len() implies heads_with(
            #[trigger] after[i],
            GSeg::Field(value_marker()),
        ) by {
            assert(after[i] == vblock[i]);
            assert(vblock[i].path == seq![GSeg::Field(value_marker())] + spec_encode(
                ps[0].value,
            )[i].path);
        }
        if rest.len() > 0 {
            lemma_rt_pairs_head_nonempty(rest, kshape, vshape);
            assert(after[vblock.len() as int] == rblock[0]);
            assert(!heads_with(after[vblock.len() as int], GSeg::Field(value_marker())));
        }
        lemma_run_len_exact(after, GSeg::Field(value_marker()), vblock.len() as int);
        let vr = vblock.len() as int;
        assert(whole.subrange(0, kr) =~= kblock);
        assert(whole.subrange(kr, kr + vr) =~= vblock);
        lemma_strip_with_seg(GSeg::Field(key_marker()), spec_encode(ps[0].key));
        lemma_strip_with_seg(GSeg::Field(value_marker()), spec_encode(ps[0].value));
        lemma_round_trip_val(ps[0].key, kshape);
        lemma_round_trip_val(ps[0].value, vshape);
        assert(whole.subrange(kr + vr, whole.len() as int) =~= rblock);
        lemma_rt_pairs(rest, kshape, vshape, tshape);
        assert(GPairVal { key: ps[0].key, value: ps[0].value } == ps[0]);
        assert(seq![ps[0]] + rest =~= ps);
        assert(run_len(whole, GSeg::Field(key_marker())) == kr);
        assert(run_len(whole.subrange(kr, whole.len() as int), GSeg::Field(value_marker()))
            == vr);
        assert(1 <= kr && 1 <= vr && kr + vr <= whole.len());
        assert(strip_all(whole.subrange(0, kr)) == spec_encode(ps[0].key));
        assert(strip_all(whole.subrange(kr, kr + vr)) == spec_encode(ps[0].value));
        assert(spec_decode(kshape, strip_all(whole.subrange(0, kr))) == Ok::<_, DecodeError>(
            ps[0].key,
        ));
        assert(spec_decode(vshape, strip_all(whole.subrange(kr, kr + vr))) == Ok::<
            _,
            DecodeError,
        >(ps[0].value));
        assert(decode_pairs(tshape, whole.subrange(kr + vr, whole.len() as int)) == Ok::<
            _,
            DecodeError,
        >(rest));
        assert(decode_pairs(tshape, whole) == Ok::<_, DecodeError>(seq![ps[0]] + rest));
    }
}

/// A nonempty pair sequence encodes with a key-headed first entry.
proof fn lemma_rt_pairs_head_nonempty(ps: Seq<GPairVal>, kshape: GShape, vshape: GShape)
    requires
        rt_pairs(ps, kshape, vshape),
        ps.len() > 0,
    ensures
        encode_pairs(ps).len() > 0,
        heads_with(encode_pairs(ps)[0], GSeg::Field(key_marker())),
    decreases ps, 0int, 0int,
{
    let kblock = with_seg(GSeg::Field(key_marker()), spec_encode(ps[0].key));
    lemma_emits_nonempty(ps[0].key, kshape);
    assert(encode_pairs(ps)[0] == kblock[0]);
    assert(kblock[0].path == seq![GSeg::Field(key_marker())] + spec_encode(ps[0].key)[0].path);
}

/// Trying the declared variants from `j` on — every variant before the
/// value's own failing — decodes to the value itself.
proof fn lemma_rt_choice(
    name: Seq<char>,
    payload: GPayload,
    variants: Seq<GVariantShape>,
    j: int,
)
    requires
        rt_ok(GValue::Choice(name, payload), GShape::Choice(variants)),
        0 <= j <= find_variant(variants, name),
    ensures
        decode_choice(
            variants.subrange(j, variants.len() as int),
            spec_encode(GValue::Choice(name, payload)),
        ) == Ok::<_, DecodeError>(GValue::Choice(name, payload)),
    decreases GValue::Choice(name, payload), 0int, variants.len() - j,
{
    let g = GValue::Choice(name, payload);
    let whole = spec_encode(g);
    let k = find_variant(variants, name);
    lemma_find_variant_bounds(variants, name);
    let rest = variants.subrange(j, variants.len() as int);
    assert(rest[0] == variants[j]);
    assert(0 <= k < variants.len());
    assert(rt_payload(payload, variants[k].payload));
    if j == k {
        match (payload, variants[k].payload) {
            (GPayload::Empty, GPayloadShape::Empty) => {
                assert(whole == seq![
                    GEntry { path: Seq::<GSeg>::empty(), kind: Kind::Text, text: name },
                ]);
                assert(decode_variant(variants[k], whole) == Ok::<_, DecodeError>(g));
            },
            (GPayload::Wrapped(b), GPayloadShape::Wrapped(bs)) => {
                assert(rt_ok(*b, *bs));
                lemma_round_trip_val(*b, *bs);
                assert(Box::new(*b) == b);
            },
            (GPayload::TupleOf(es), GPayloadShape::TupleOf(ss)) => {
                assert(rt_tuple(es, ss));
                assert(es.subrange(0, es.len() as int) =~= es);
                assert(rt_tuple(es.subrange(0, es.len() as int), ss));
                lemma_rt_tuple(es, ss, 0);
            },
            (GPayload::RecordOf(fvs), GPayloadShape::RecordOf(fss)) => {
                assert(rt_fields(fvs, fss) && distinct_names(fss));
                assert(fss.subrange(0, fss.len() as int) =~= fss);
                assert(fvs.subrange(0, fvs.len() as int) =~= fvs);
                lemma_rt_record(fvs, fss, 0);
            },
            _ => {
                assert(false);
            },
        }
        assert(decode_variant(variants[k], whole) == Ok::<_, DecodeError>(g));
    } else {
        assert(decode_variant(variants[j], whole) is Err);
        assert(rest.subrange(1, rest.len() as int) =~= variants.subrange(
            j + 1,
            variants.len() as int,
        ));
        lemma_rt_choice(name, payload, variants, j + 1);
    }
}

/// `find_variant` returns a valid index bearing the name, and no earlier one
/// bears it.
proof fn lemma_find_variant_bounds(variants: Seq<GVariantShape>, name: Seq<char>)
    ensures
        find_variant(variants, name) >= 0 ==> find_variant(variants, name) < variants.len()
            && variants[find_variant(variants, name)].name == name,
        find_variant(variants, name) < 0 ==> find_variant(variants, name) == -1,
    decreases variants.len(),
{
    if variants.len() > 0 && variants[0].name != name {
        let tail = variants.subrange(1, variants.len() as int);
        lemma_find_variant_bounds(tail, name);
        if find_variant(tail, name) >= 0 {
            assert(tail[find_variant(tail, name)] == variants[1 + find_variant(tail, name)]);
        }
    }
}

/// ROUND-TRIP: decoding the encoding of any value of a supported shape gives
/// back the value itself, for every shape category and any nesting.
pub proof fn lemma_round_trip_val(g: GValue, s: GShape)
    requires
        rt_ok(g, s),
    ensures
        spec_decode(s, spec_encode(g)) == Ok::<_, DecodeError>(g),
    decreases g, 1int, 0int,
{
    match (g, s) {
        (GValue::Bool(b), GShape::Bool) => {
            let es = spec_encode(g);
            if b {
                assert(es[0].text == on_text());
                assert(decode_bool(es) == Ok::<_, DecodeError>(GValue::Bool(true)));
            } else {
                assert(on_text().len() == 2 && off_text().len() == 3);
                assert(forall|i: int| 0 <= i < es.len() ==> (#[trigger] es[i]).text != on_text());
                assert(decode_bool(es) == Ok::<_, DecodeError>(GValue::Bool(false)));
            }
        },
        (GValue::Int(v), GShape::Int) => {
            lemma_parse_i64_round(v);
        },
        (GValue::UInt(v), GShape::UInt) => {
            lemma_parse_u64_round(v);
        },
        (GValue::Text(_), GShape::Text) => {},
        (GValue::Char(c), GShape::Char) => {
            assert(seq![c].len() == 1 && seq![c][0] == c);
        },
        (GValue::Unit, GShape::Unit) => {},
        (GValue::Maybe(o), GShape::Maybe(inner)) => {
            match o {
                Option::None => {},
                Option::Some(b) => {
                    lemma_emits_nonempty(*b, *inner);
                    lemma_round_trip_val(*b, *inner);
                    assert(Box::new(*b) == b);
                },
            }
        },
        (GValue::List(es), GShape::List(elem)) => {
            lemma_rt_list(es, *elem, 0);
            assert(es.subrange(0, es.len() as int) =~= es);
        },
        (GValue::Tuple(es), GShape::Tuple(ss)) => {
            assert(rt_tuple(es, ss));
            assert(es.subrange(0, es.len() as int) =~= es);
            assert(rt_tuple(es.subrange(0, es.len() as int), ss));
            lemma_rt_tuple(es, ss, 0);
        },
        (GValue::Table(ps), GShape::Table(kshape, vshape)) => {
            lemma_rt_pairs(ps, *kshape, *vshape, s);
            assert(s == GShape::Table(Box::new(*kshape), Box::new(*vshape)));
        },
        (GValue::Record(fvs), GShape::Record(fss)) => {
            assert(fss.subrange(0, fss.len() as int) =~= fss);
            assert(fvs.subrange(0, fvs.len() as int) =~= fvs);
            lemma_rt_record(fvs, fss, 0);
        },
        (GValue::Choice(name, payload), GShape::Choice(variants)) => {
            assert(variants.subrange(0, variants.len() as int) =~= variants);
            lemma_rt_choice(name, payload, variants, 0);
        },
        _ => {
            assert(false);
        },
    }
}


/// INDEX CONTIGUITY: encoding a list of length `n` produces bracket indices
/// exactly `0 .. n-1`, each exactly once — the partition under every index
/// below `n` is that element's own nonempty encoding, and the partition under
/// every index at or beyond `n` is empty.
pub proof fn lemma_index_contiguity(es: Seq<GValue>, elem: GShape, q: usize)
    requires
        rt_elems(es, elem),
        es.len() <= usize::MAX,
    ensures
        q < es.len() ==> part_at(spec_encode(GValue::List(es)), GSeg::Item(q)) == spec_encode(
            es[q as int],
        ) && part_at(spec_encode(GValue::List(es)), GSeg::Item(q)).len() > 0,
        q >= es.len() ==> part_at(spec_encode(GValue::List(es)), GSeg::Item(q)) == Seq::<
            GEntry,
        >::empty(),
{
    lemma_part_encode_elems(es, 0, q);
    if q < es.len() {
        lemma_rt_elems_index(es, elem, q as int);
        lemma_emits_nonempty(es[q as int], elem);
    }
}

/// OPTION ABSENCE: an absent optional value encodes to no entries at all;
/// the decoder reconstructs an absent option exactly from an empty partition
/// and a present one from any nonempty partition.
pub proof fn lemma_option_absence(inner: GShape, es: Seq<GEntry>)
    ensures
        spec_encode(GValue::Maybe(Option::None)) == Seq::<GEntry>::empty(),
        es.len() == 0 ==> spec_decode(GShape::Maybe(Box::new(inner)), es) == Ok::<
            GValue,
            DecodeError,
        >(GValue::Maybe(Option::None)),
        es.len() > 0 ==> spec_decode(GShape::Maybe(Box::new(inner)), es) == (
        match spec_decode(inner, es) {
            Ok(v) => Ok::<GValue, DecodeError>(GValue::Maybe(Option::Some(Box::new(v)))),
            Err(e) => Err::<GValue, DecodeError>(e),
        }),
{
}


/// Every entry's path is well formed: the grammar can render and re-parse it.
pub open spec fn wf_entry_paths(es: Seq<GEntry>) -> bool {
    forall|k: int| 0 <= k < es.len() ==> wf_gsegs((#[trigger] es[k]).path)
}

/// Prefixing well-formed paths with a well-formed segment keeps them well
/// formed.
proof fn lemma_wf_with_seg(seg: GSeg, es: Seq<GEntry>)
    requires
        wf_gseg(seg),
        wf_entry_paths(es),
    ensures
        wf_entry_paths(with_seg(seg, es)),
{
    let w = with_seg(seg, es);
    assert forall|k: int| 0 <= k < w.len() implies wf_gsegs((#[trigger] w[k]).path) by {
        assert(w[k].path == seq![seg] + es[k].path);
        assert(wf_gsegs(es[k].path));
        assert forall|i: int| 0 <= i < w[k].path.len() implies wf_gseg(#[trigger] w[k].path[i]) by {
            if i > 0 {
                assert(w[k].path[i] == es[k].path[i - 1]);
            }
        }
    }
}

/// Well-formedness of paths joins over concatenation.
proof fn lemma_wf_concat(a: Seq<GEntry>, b: Seq<GEntry>)
    requires
        wf_entry_paths(a),
        wf_entry_paths(b),
    ensures
        wf_entry_paths(a + b),
{
    assert forall|k: int| 0 <= k < (a + b).len() implies wf_gsegs((#[trigger] (a + b)[k]).path) by {
        if k < a.len() {
            assert((a + b)[k] == a[k]);
        } else {
            assert((a + b)[k] == b[k - a.len()]);
        }
    }
}

/// The fixed map markers are well-formed segments.
proof fn lemma_wf_markers()
    ensures
        wf_gseg(GSeg::Field(key_marker())),
        wf_gseg(GSeg::Field(value_marker())),
{
    assert forall|i: int| 0 <= i < key_marker().len() implies #[trigger] key_marker()[i] != '.'
        && key_marker()[i] != '[' by {
        assert(key_marker()[0] == 'k' && key_marker()[1] == 'e' && key_marker()[2] == 'y');
    }
    assert forall|i: int| 0 <= i < value_marker().len() implies #[trigger] value_marker()[i] != '.'
        && value_marker()[i] != '[' by {
        assert(value_marker()[0] == 'v' && value_marker()[1] == 'a' && value_marker()[2] == 'l'
            && value_marker()[3] == 'u' && value_marker()[4] == 'e');
    }
}

/// Every path the encoder emits for a supported value is well formed.
pub proof fn lemma_encode_wf(g: GValue, s: GShape)
    requires
        rt_ok(g, s),
    ensures
        wf_entry_paths(spec_encode(g)),
    decreases g, 1int, 0int,
{
    match (g, s) {
        (GValue::Maybe(o), GShape::Maybe(inner)) => {
            match o {
                Option::None => {},
                Option::Some(b) => {
                    lemma_encode_wf(*b, *inner);
                },
            }
        },
        (GValue::List(es), GShape::List(elem)) => {
            lemma_wf_elems(es, *elem, 0);
        },
        (GValue::Tuple(es), GShape::Tuple(ss)) => {
            lemma_wf_tuple(es, ss, 0);
        },
        (GValue::Table(ps), GShape::Table(kshape, vshape)) => {
            lemma_wf_pairs(ps, *kshape, *vshape);
        },
        (GValue::Record(fvs), GShape::Record(fss)) => {
            lemma_wf_fields(fvs, fss);
        },
        (GValue::Choice(name, payload), GShape::Choice(variants)) => {
            let k = find_variant(variants, name);
            assert(rt_payload(payload, variants[k].payload));
            match (payload, variants[k].payload) {
                (GPayload::Wrapped(b), GPayloadShape::Wrapped(bs)) => {
                    lemma_encode_wf(*b, *bs);
                },
                (GPayload::TupleOf(es), GPayloadShape::TupleOf(ss)) => {
                    lemma_wf_tuple(es, ss, 0);
                },
                (GPayload::RecordOf(fvs), GPayloadShape::RecordOf(fss)) => {
                    lemma_wf_fields(fvs, fss);
                },
                _ => {},
            }
        },
        _ => {},
    }
}

proof fn lemma_wf_elems(es: Seq<GValue>, elem: GShape, base: int)
    requires
        rt_elems(es, elem),
    ensures
        wf_entry_paths(encode_elems(es, base)),
    decreases es, 0int, 0int,
{
    if es.len() > 0 {
        lemma_encode_wf(es[0], elem);
        lemma_wf_with_seg(GSeg::Item(base as usize), spec_encode(es[0]));
        lemma_wf_elems(es.subrange(1, es.len() as int), elem, base + 1);
        lemma_wf_concat(
            with_seg(GSeg::Item(base as usize), spec_encode(es[0])),
            encode_elems(es.subrange(1, es.len() as int), base + 1),
        );
    }
}

proof fn lemma_wf_tuple(es: Seq<GValue>, ss: Seq<GShape>, base: int)
    requires
        rt_tuple(es, ss),
    ensures
        wf_entry_paths(encode_elems(es, base)),
    decreases es, 0int, 0int,
{
    if es.len() > 0 {
        lemma_encode_wf(es[0], ss[0]);
        lemma_wf_with_seg(GSeg::Item(base as usize), spec_encode(es[0]));
        lemma_wf_tuple(
            es.subrange(1, es.len() as int),
            ss.subrange(1, ss.len() as int),
            base + 1,
        );
        lemma_wf_concat(
            with_seg(GSeg::Item(base as usize), spec_encode(es[0])),
            encode_elems(es.subrange(1, es.len() as int), base + 1),
        );
    }
}

proof fn lemma_wf_fields(fvs: Seq<GFieldVal>, fss: Seq<GFieldShape>)
    requires
        rt_fields(fvs, fss),
    ensures
        wf_entry_paths(encode_fields(fvs)),
    decreases fvs, 0int, 0int,
{
    if fvs.len() > 0 {
        lemma_encode_wf(fvs[0].value, fss[0].shape);
        lemma_wf_with_seg(GSeg::Field(fvs[0].name), spec_encode(fvs[0].value));
        lemma_wf_fields(fvs.subrange(1, fvs.len() as int), fss.subrange(1, fss.len() as int));
        lemma_wf_concat(
            with_seg(GSeg::Field(fvs[0].name), spec_encode(fvs[0].value)),
            encode_fields(fvs.subrange(1, fvs.len() as int)),
        );
    }
}

proof fn lemma_wf_pairs(ps: Seq<GPairVal>, kshape: GShape, vshape: GShape)
    requires
        rt_pairs(ps, kshape, vshape),
    ensures
        wf_entry_paths(encode_pairs(ps)),
    decreases ps, 0int, 0int,
{
    if ps.len() > 0 {
        lemma_wf_markers();
        lemma_encode_wf(ps[0].key, kshape);
        lemma_encode_wf(ps[0].value, vshape);
        lemma_wf_with_seg(GSeg::Field(key_marker()), spec_encode(ps[0].key));
        lemma_wf_with_seg(GSeg::Field(value_marker()), spec_encode(ps[0].value));
        lemma_wf_pairs(ps.subrange(1, ps.len() as int), kshape, vshape);
        lemma_wf_concat(
            with_seg(GSeg::Field(key_marker()), spec_encode(ps[0].key)),
            with_seg(GSeg::Field(value_marker()), spec_encode(ps[0].value)),
        );
        lemma_wf_concat(
            with_seg(GSeg::Field(key_marker()), spec_encode(ps[0].key)) + with_seg(
                GSeg::Field(value_marker()),
                spec_encode(ps[0].value),
            ),
            encode_pairs(ps.subrange(1, ps.len() as int)),
        );
    }
}

/// Parsing the rendered wire names of well-formed entries gives the entries
/// back exactly.
pub proof fn lemma_parse_render_entries(es: Seq<GEntry>)
    requires
        wf_entry_paths(es),
    ensures
        spec_parse_entries(spec_render_entries(es)) == Some(es),
    decreases es.len(),
{
    let rendered = spec_render_entries(es);
    if es.len() == 0 {
        assert(rendered.len() == 0);
        assert(Seq::<GEntry>::empty() =~= es);
    } else {
        assert(rendered[0] == GFlatEntry {
            name: spec_render_name(es[0].path, es[0].kind),
            text: es[0].text,
        });
        assert(wf_gsegs(es[0].path));
        lemma_parse_render_name(es[0].path, es[0].kind);
        let tail = es.subrange(1, es.len() as int);
        assert(wf_entry_paths(tail)) by {
            assert(forall|k: int| 0 <= k < tail.len() ==> #[trigger] tail[k] == es[k + 1]);
        }
        lemma_parse_render_entries(tail);
        assert(rendered.subrange(1, rendered.len() as int) =~= spec_render_entries(tail));
        assert(GEntry { path: es[0].path, kind: es[0].kind, text: rendered[0].text } == es[0]);
        assert(seq![es[0]] + tail =~= es);
    }
}

/// ROUND-TRIP AT THE WIRE LEVEL: for a value of a supported shape, rendering
/// its encoding to (name, raw text) pairs, parsing those names back under the
/// path grammar, and decoding against the shape gives back exactly the value.
pub proof fn lemma_round_trip(g: GValue, s: GShape)
    requires
        rt_ok(g, s),
    ensures
        spec_parse_entries(spec_render_entries(spec_encode(g))) == Some(spec_encode(g)),
        spec_decode(s, spec_encode(g)) == Ok::<GValue, DecodeError>(g),
{
    lemma_encode_wf(g, s);
    lemma_parse_render_entries(spec_encode(g));
    lemma_round_trip_val(g, s);
}

} // verus!
