//! The public codec: executable encoding to and decoding from the flat wire
//! form, and the round-trip law that ties them together.

use vstd::prelude::*;

use crate::decode::{
    all_below, decode_bool, decode_choice, decode_list_from, decode_pairs, decode_record,
    decode_scalar, decode_tuple, decode_variant, heads_below, heads_with, part_at, run_len,
    spec_decode, strip1, strip_all, DecodeError,
};
use crate::encode::{encode_value, gentries_of, on_text, spec_encode};
use crate::path::{
    gsegs_of, parse_name, render_name, spec_parse_name, spec_render_name, wf_gsegs, FlatEntry,
    GEntry, GFlatEntry, GSeg, Kind, PathEntry, Seg,
};
use crate::text::{parse_i64, parse_u64};
use crate::value::{
    gfield_shapes_of, gfields_of, gpairs_of, gpayload_shape_of, gshape_of, gshapes_of, gvalue_of,
    gvalues_of, gvariants_of, lemma_gfield_shapes_index, lemma_gshapes_index,
    lemma_gvariants_index, FieldShape, FieldVal, GFieldShape, GFieldVal, GPairVal, GShape, GValue,
    GVariantShape, PairVal, Payload, PayloadShape, Shape, Value, VariantShape,
};

verus! {

broadcast use vstd::std_specs::vec::group_vec_axioms, vstd::seq::axiom_seq_index_decreases;

/// The ghost twins of a vector of wire entries.
pub open spec fn gflats_of(es: Seq<FlatEntry>) -> Seq<GFlatEntry> {
    es.map_values(|e: FlatEntry| e@)
}

/// Taking ghost twins keeps the number of entries.
pub proof fn lemma_gentries_len(es: Seq<PathEntry>)
    ensures
        gentries_of(es).len() == es.len(),
{
}

/// Stripping keeps the number of entries.
pub proof fn lemma_strip_all_len(es: Seq<GEntry>)
    ensures
        strip_all(es).len() == es.len(),
{
}

/// Taking ghost twins keeps the length.
pub proof fn lemma_gflats_len(es: Seq<FlatEntry>)
    ensures
        gflats_of(es).len() == es.len(),
{
}

/// Rendering keeps the number of entries.
pub proof fn lemma_render_entries_len(es: Seq<GEntry>)
    ensures
        spec_render_entries(es).len() == es.len(),
{
}

/// The wire rendering of structured entries: each path becomes its rendered
/// name, the raw text is carried unchanged.
pub open spec fn spec_render_entries(es: Seq<GEntry>) -> Seq<GFlatEntry> {
    es.map_values(|e: GEntry| GFlatEntry { name: spec_render_name(e.path, e.kind), text: e.text })
}

/// The parse of wire entries back into structured entries: every name must
/// parse under the path grammar.
pub open spec fn spec_parse_entries(fs: Seq<GFlatEntry>) -> Option<Seq<GEntry>>
    decreases fs.len(),
{
    if fs.len() == 0 {
        Some(Seq::<GEntry>::empty())
    } else {
        match spec_parse_name(fs[0].name) {
            Option::None => Option::None,
            Option::Some(pk) => match spec_parse_entries(fs.subrange(1, fs.len() as int)) {
                Option::None => Option::None,
                Option::Some(rest) => Option::Some(
                    seq![GEntry { path: pk.0, kind: pk.1, text: fs[0].text }] + rest,
                ),
            },
        }
    }
}

/// Encode a value into its flat wire form: one (name, raw text) pair per
/// leaf, in document order, the names rendered under the path grammar.
#[verifier::loop_isolation(false)]
pub fn encode(v: &Value) -> (r: Vec<FlatEntry>)
    ensures
        gflats_of(r@) == spec_render_entries(spec_encode(v@)),
{
    let entries = encode_value(v);
    let mut out: Vec<FlatEntry> = Vec::new();
    let ghost ges = gentries_of(entries@);
    let n = entries.len();
    let mut i: usize = 0;
    proof {
        assert(ges.take(0) =~= Seq::<GEntry>::empty());
        assert(gflats_of(out@) =~= spec_render_entries(ges.take(0)));
    }
    while i < n
        invariant
            n == entries@.len(),
            ges == gentries_of(entries@),
            ges.len() == n,
            i <= n,
            gflats_of(out@) == spec_render_entries(ges.take(i as int)),
        decreases n - i,
    {
        let name = render_name(&entries[i].path, entries[i].kind);
        let text = String::from_str(entries[i].text.as_str());
        let fe = FlatEntry { name, text };
        let ghost pre = out@;
        out.push(fe);
        proof {
            lemma_gflats_len(pre);
            lemma_render_entries_len(ges.take(i as int));
            assert(pre.len() == i as int);
            assert(ges[i as int] == entries@[i as int]@);
            assert(fe@ == GFlatEntry {
                name: spec_render_name(ges[i as int].path, ges[i as int].kind),
                text: ges[i as int].text,
            });
            assert(ges.take(i + 1) =~= ges.take(i as int).push(ges[i as int]));
            assert forall|k: int| 0 <= k < i + 1 implies gflats_of(out@)[k]
                == spec_render_entries(ges.take(i + 1))[k] by {
                if k < i {
                    assert(gflats_of(out@)[k] == gflats_of(pre)[k]);
                    assert(spec_render_entries(ges.take(i + 1))[k] == spec_render_entries(
                        ges.take(i as int),
                    )[k]);
                } else {
                    assert(out@[k] == fe);
                    assert(ges.take(i + 1)[k] == ges[i as int]);
                }
            }
            assert(gflats_of(out@) =~= spec_render_entries(ges.take(i + 1)));
        }
        i = i + 1;
    }
    proof {
        assert(ges.take(n as int) =~= ges);
    }
    out
}

/// Parse the wire entries into structured entries, or fail on the first name
/// outside the path grammar.
#[verifier::loop_isolation(false)]
fn parse_entries(entries: &Vec<FlatEntry>) -> (r: Option<Vec<PathEntry>>)
    ensures
        match r {
            Some(p) => spec_parse_entries(gflats_of(entries@)) == Some(gentries_of(p@)),
            None => spec_parse_entries(gflats_of(entries@)) is None,
        },
{
    let ghost gfs = gflats_of(entries@);
    let mut out: Vec<PathEntry> = Vec::new();
    let n = entries.len();
    let mut i: usize = 0;
    proof {
        lemma_gflats_len(entries@);
        assert(gfs.subrange(0, n as int) =~= gfs);
        if spec_parse_entries(gfs) is Some {
            let rest = spec_parse_entries(gfs).unwrap();
            assert(gentries_of(out@) + rest =~= rest);
        }
    }
    while i < n
        invariant
            n == entries@.len(),
            gfs == gflats_of(entries@),
            gfs.len() == n,
            i <= n,
            forall|k: int| 0 <= k < n ==> gfs[k] == (#[trigger] entries@[k])@,
            match spec_parse_entries(gfs.subrange(i as int, n as int)) {
                Option::Some(rest) => spec_parse_entries(gfs) == Option::Some(
                    gentries_of(out@) + rest,
                ),
                Option::None => spec_parse_entries(gfs) is None,
            },
        decreases n - i,
    {
        let ghost suffix = gfs.subrange(i as int, n as int);
        let ghost pre = out@;
        proof {
            assert(suffix[0] == gfs[i as int]);
            assert(suffix.subrange(1, suffix.len() as int) =~= gfs.subrange(i + 1, n as int));
        }
        match parse_name(entries[i].name.as_str()) {
            None => {
                proof {
                    assert(spec_parse_entries(suffix) is None);
                }
                return None;
            },
            Some((path, kind)) => {
                let text = String::from_str(entries[i].text.as_str());
                let e = PathEntry { path, kind, text };
                let ghost ge = e@;
                out.push(e);
                proof {
                    crate::encode::lemma_gentries_push(pre, e);
                    let post_suffix = gfs.subrange(i + 1, n as int);
                    match spec_parse_entries(post_suffix) {
                        Option::None => {
                            assert(spec_parse_entries(suffix) is None);
                        },
                        Option::Some(rest) => {
                            assert(spec_parse_entries(suffix) == Option::Some(seq![ge] + rest));
                            assert(gentries_of(pre) + (seq![ge] + rest) =~= gentries_of(out@)
                                + rest);
                        },
                    }
                }
            },
        }
        i = i + 1;
    }
    proof {
        assert(gfs.subrange(n as int, n as int).len() == 0);
        assert(spec_parse_entries(gfs.subrange(n as int, n as int)) == Option::Some(
            Seq::<GEntry>::empty(),
        ));
        assert(gentries_of(out@) + Seq::<GEntry>::empty() =~= gentries_of(out@));
    }
    Some(out)
}


/// The partition of a sequence extended by one entry.
proof fn lemma_part_at_push(es: Seq<GEntry>, e: GEntry, seg: GSeg)
    ensures
        part_at(es.push(e), seg) == if heads_with(e, seg) {
            part_at(es, seg).push(strip1(e))
        } else {
            part_at(es, seg)
        },
{
    reveal(Seq::filter);
    let pred = |x: GEntry| heads_with(x, seg);
    assert(es.push(e).drop_last() =~= es);
    assert(es.push(e).last() == e);
    if heads_with(e, seg) {
        assert(es.push(e).filter(pred) == es.filter(pred).push(e));
        assert(es.filter(pred).push(e).map_values(|x: GEntry| strip1(x)) =~= part_at(
            es,
            seg,
        ).push(strip1(e)));
    } else {
        assert(es.push(e).filter(pred) == es.filter(pred));
    }
}

#[verifier::loop_isolation(false)]
fn path_dup(p: &Vec<Seg>) -> (r: Vec<Seg>)
    ensures
        gsegs_of(r@) == gsegs_of(p@),
        r@.len() == p@.len(),
{
    let mut out: Vec<Seg> = Vec::new();
    let n = p.len();
    let mut i: usize = 0;
    proof {
        assert(gsegs_of(out@) =~= gsegs_of(p@.take(0)));
    }
    while i < n
        invariant
            n == p@.len(),
            i <= n,
            out@.len() == i,
            gsegs_of(out@) == gsegs_of(p@.take(i as int)),
        decreases n - i,
    {
        let ghost pre = out@;
        let d = crate::encode::seg_dup(&p[i]);
        out.push(d);
        proof {
            assert(p@.take(i + 1) =~= p@.take(i as int).push(p@[i as int]));
            assert forall|k: int| 0 <= k < i + 1 implies gsegs_of(out@)[k] == gsegs_of(
                p@.take(i + 1),
            )[k] by {
                if k < i {
                    assert(out@[k] == pre[k]);
                    assert(gsegs_of(pre)[k] == gsegs_of(p@.take(i as int))[k]);
                    assert(p@.take(i + 1)[k] == p@.take(i as int)[k]);
                } else {
                    assert(out@[k] == d);
                    assert(p@.take(i + 1)[k] == p@[i as int]);
                }
            }
            assert(gsegs_of(out@) =~= gsegs_of(p@.take(i + 1)));
        }
        i = i + 1;
    }
    proof {
        assert(p@.take(n as int) =~= p@);
    }
    out
}

fn entry_dup(e: &PathEntry) -> (r: PathEntry)
    ensures
        r@ == e@,
{
    PathEntry {
        path: path_dup(&e.path),
        kind: e.kind,
        text: String::from_str(e.text.as_str()),
    }
}

fn seg_eq(a: &Seg, b: &Seg) -> (r: bool)
    ensures
        r == (a@ == b@),
{
    match (a, b) {
        (Seg::Field(x), Seg::Field(y)) => x.eq(y),
        (Seg::Item(x), Seg::Item(y)) => x == y,
        _ => false,
    }
}

fn entry_heads(e: &PathEntry, seg: &Seg) -> (r: bool)
    ensures
        r == heads_with(e@, seg@),
{
    if e.path.len() >= 1 {
        proof {
            assert(e@.path[0] == e.path@[0]@);
        }
        seg_eq(&e.path[0], seg)
    } else {
        false
    }
}

/// The partition of the entries under one segment: every entry whose path
/// starts with it, in order, with the segment stripped.
#[verifier::loop_isolation(false)]
fn take_part(es: &Vec<PathEntry>, seg: &Seg) -> (r: Vec<PathEntry>)
    ensures
        gentries_of(r@) == part_at(gentries_of(es@), seg@),
{
    let ghost ges = gentries_of(es@);
    let mut out: Vec<PathEntry> = Vec::new();
    let n = es.len();
    let mut i: usize = 0;
    proof {
        reveal(Seq::filter);
        assert(ges.take(0) =~= Seq::<GEntry>::empty());
        assert(part_at(ges.take(0), seg@).len() == 0);
        assert(gentries_of(out@) =~= part_at(ges.take(0), seg@));
    }
    while i < n
        invariant
            n == es@.len(),
            ges == gentries_of(es@),
            ges.len() == n,
            i <= n,
            gentries_of(out@) == part_at(ges.take(i as int), seg@),
        decreases n - i,
    {
        proof {
            assert(ges[i as int] == es@[i as int]@);
            assert(ges.take(i + 1) =~= ges.take(i as int).push(ges[i as int]));
            lemma_part_at_push(ges.take(i as int), ges[i as int], seg@);
        }
        if entry_heads(&es[i], seg) {
            let mut d = entry_dup(&es[i]);
            let ghost gpath = d.path@;
            proof {
                assert(gsegs_of(gpath).len() == gpath.len());
                assert(gsegs_of(gpath) == ges[i as int].path);
                assert(gpath.len() >= 1);
            }
            d.path.remove(0);
            proof {
                assert(d.path@ =~= gpath.subrange(1, gpath.len() as int));
                assert forall|k: int| 0 <= k < d.path@.len() implies gsegs_of(d.path@)[k]
                    == ges[i as int].path.subrange(1, ges[i as int].path.len() as int)[k] by {
                    assert(d.path@[k] == gpath[k + 1]);
                }
                assert(gsegs_of(d.path@) =~= ges[i as int].path.subrange(
                    1,
                    ges[i as int].path.len() as int,
                ));
                assert(d@ == strip1(ges[i as int]));
            }
            let ghost pre = out@;
            out.push(d);
            proof {
                crate::encode::lemma_gentries_push(pre, d);
                assert(gentries_of(out@) =~= part_at(ges.take(i + 1), seg@));
            }
        } else {
            proof {
                assert(gentries_of(out@) =~= part_at(ges.take(i + 1), seg@));
            }
        }
        i = i + 1;
    }
    proof {
        assert(ges.take(n as int) =~= ges);
    }
    out
}


#[verifier::loop_isolation(false)]
fn decode_bool_entries(es: &Vec<PathEntry>) -> (r: Result<Value, DecodeError>)
    ensures
        match r {
            Ok(v) => decode_bool(gentries_of(es@)) == Ok::<GValue, DecodeError>(v@),
            Err(e) => decode_bool(gentries_of(es@)) == Err::<GValue, DecodeError>(e),
        },
{
    let ghost ges = gentries_of(es@);
    let n = es.len();
    if n == 0 {
        return Err(DecodeError::MissingField);
    }
    let on = crate::encode::text_on();
    let mut found = false;
    let mut i: usize = 0;
    while i < n
        invariant
            n == es@.len(),
            ges == gentries_of(es@),
            ges.len() == n,
            i <= n,
            forall|k: int| 0 <= k < i ==> crate::decode::is_leaf_here(#[trigger] ges[k], Kind::Bool),
            found == exists|k: int| 0 <= k < i && (#[trigger] ges[k]).text == on_text(),
            on@ == on_text(),
        decreases n - i,
    {
        proof {
            assert(ges[i as int] == es@[i as int]@);
            assert(gsegs_of(es@[i as int].path@).len() == es@[i as int].path@.len());
        }
        if es[i].path.len() != 0 {
            proof {
                assert(!crate::decode::is_leaf_here(ges[i as int], Kind::Bool));
            }
            return Err(DecodeError::TypeMismatch);
        }
        if !(es[i].kind == Kind::Bool) {
            proof {
                assert(!crate::decode::is_leaf_here(ges[i as int], Kind::Bool));
            }
            return Err(DecodeError::TypeMismatch);
        }
        if es[i].text.eq(&on) {
            found = true;
        }
        proof {
            if found {
                assert(exists|k: int| 0 <= k < i + 1 && (#[trigger] ges[k]).text == on_text());
            }
        }
        i = i + 1;
    }
    Ok(Value::Bool(found))
}

fn decode_scalar_entries(shape: &Shape, es: &Vec<PathEntry>) -> (r: Result<Value, DecodeError>)
    requires
        shape is Int || shape is UInt || shape is Text || shape is Char,
    ensures
        match r {
            Ok(v) => decode_scalar(shape@, gentries_of(es@)) == Ok::<GValue, DecodeError>(v@),
            Err(e) => decode_scalar(shape@, gentries_of(es@)) == Err::<GValue, DecodeError>(e),
        },
{
    let ghost ges = gentries_of(es@);
    if es.len() == 0 {
        return Err(DecodeError::MissingField);
    }
    proof {
        assert(ges[0] == es@[0]@);
        assert(gsegs_of(es@[0].path@).len() == es@[0].path@.len());
    }
    if es.len() != 1 || es[0].path.len() != 0 {
        return Err(DecodeError::TypeMismatch);
    }
    let e = &es[0];
    match shape {
        Shape::Int => {
            if !(e.kind == Kind::Num) {
                return Err(DecodeError::TypeMismatch);
            }
            match parse_i64(e.text.as_str()) {
                Some(v) => Ok(Value::Int(v)),
                None => Err(DecodeError::ParseFailure),
            }
        },
        Shape::UInt => {
            if !(e.kind == Kind::Num) {
                return Err(DecodeError::TypeMismatch);
            }
            match parse_u64(e.text.as_str()) {
                Some(v) => Ok(Value::UInt(v)),
                None => Err(DecodeError::ParseFailure),
            }
        },
        Shape::Text => {
            if !(e.kind == Kind::Text) {
                return Err(DecodeError::TypeMismatch);
            }
            Ok(Value::Text(String::from_str(e.text.as_str())))
        },
        Shape::Char => {
            if !(e.kind == Kind::Text) {
                return Err(DecodeError::TypeMismatch);
            }
            if e.text.unicode_len() == 1 {
                Ok(Value::Char(e.text.get_char(0)))
            } else {
                Err(DecodeError::ParseFailure)
            }
        },
        _ => {
            proof {
                assert(false);
            }
            Err(DecodeError::TypeMismatch)
        },
    }
}

/// Check that every entry heads with an index below `n` — nothing is left
/// over after a list or tuple consumed indices `0..n`.
#[verifier::loop_isolation(false)]
fn check_all_below(es: &Vec<PathEntry>, n: usize) -> (r: bool)
    ensures
        r == all_below(gentries_of(es@), n as int),
{
    let ghost ges = gentries_of(es@);
    let len = es.len();
    let mut i: usize = 0;
    while i < len
        invariant
            len == es@.len(),
            ges == gentries_of(es@),
            ges.len() == len,
            i <= len,
            forall|k: int| 0 <= k < i ==> heads_below(#[trigger] ges[k], n as int),
        decreases len - i,
    {
        proof {
            assert(ges[i as int] == es@[i as int]@);
            assert(gsegs_of(es@[i as int].path@).len() == es@[i as int].path@.len());
        }
        if es[i].path.len() == 0 {
            proof {
                assert(!heads_below(ges[i as int], n as int));
            }
            return false;
        }
        proof {
            assert(ges[i as int].path[0] == es@[i as int].path@[0]@);
        }
        match &es[i].path[0] {
            Seg::Field(_) => {
                proof {
                    assert(forall|j: usize| !heads_with(ges[i as int], GSeg::Item(j)));
                    assert(!heads_below(ges[i as int], n as int));
                }
                return false;
            },
            Seg::Item(j) => {
                if *j >= n {
                    proof {
                        assert(forall|jj: usize|
                            heads_with(ges[i as int], GSeg::Item(jj)) ==> jj == *j);
                        assert(!heads_below(ges[i as int], n as int));
                    }
                    return false;
                }
                proof {
                    assert(heads_with(ges[i as int], GSeg::Item(*j)));
                    assert(heads_below(ges[i as int], n as int));
                }
            },
        }
        i = i + 1;
    }
    true
}


/// Remove the leading run of entries headed by `seg`, returning them with
/// the segment stripped.
#[verifier::loop_isolation(false)]
fn take_run(es: &mut Vec<PathEntry>, seg: &Seg) -> (run: Vec<PathEntry>)
    ensures
        ({
            let m = run_len(gentries_of(old(es)@), seg@);
            &&& 0 <= m <= old(es)@.len()
            &&& gentries_of(run@) == strip_all(gentries_of(old(es)@).take(m))
            &&& gentries_of(final(es)@) == gentries_of(old(es)@).subrange(
                m,
                old(es)@.len() as int,
            )
        }),
{
    let ghost ges = gentries_of(old(es)@);
    let ghost total = ges.len();
    proof {
        lemma_gentries_len(old(es)@);
    }
    let mut run: Vec<PathEntry> = Vec::new();
    let ghost mut m: int = 0;
    proof {
        assert(ges.take(0) =~= Seq::<GEntry>::empty());
        assert(strip_all(ges.take(0)) =~= Seq::<GEntry>::empty());
        assert(gentries_of(run@) =~= strip_all(ges.take(0)));
        assert(gentries_of(es@) =~= ges.subrange(0, total as int));
    }
    loop
        invariant
            0 <= m <= total,
            ges.len() == total,
            forall|k: int| 0 <= k < m ==> heads_with(#[trigger] ges[k], seg@),
            gentries_of(run@) == strip_all(ges.take(m)),
            gentries_of(es@) == ges.subrange(m, total as int),
        decreases total - m,
    {
        proof {
            lemma_gentries_len(es@);
        }
        if es.len() == 0 {
            proof {
                assert(m == total);
                lemma_run_len_exact_here(ges, seg@, m);
            }
            return run;
        }
        proof {
            assert(m < total);
            assert(gentries_of(es@)[0] == es@[0]@);
            assert(es@[0]@ == ges[m]);
        }
        if !entry_heads(&es[0], seg) {
            proof {
                lemma_run_len_exact_here(ges, seg@, m);
            }
            return run;
        }
        let ghost prev_es = es@;
        let mut d = es.remove(0);
        proof {
            assert(d@ == ges[m]);
            assert(es@ =~= prev_es.subrange(1, prev_es.len() as int));
            assert forall|k: int| 0 <= k < es@.len() implies gentries_of(es@)[k] == ges.subrange(
                m + 1,
                total as int,
            )[k] by {
                assert(es@[k] == prev_es[k + 1]);
                assert(gentries_of(prev_es)[k + 1] == prev_es[k + 1]@);
            }
            lemma_gentries_len(es@);
            assert(gentries_of(es@) =~= ges.subrange(m + 1, total as int));
            assert(gsegs_of(d.path@).len() == d.path@.len());
            assert(d.path@.len() >= 1);
        }
        let ghost gpath = d.path@;
        d.path.remove(0);
        proof {
            assert(d.path@ =~= gpath.subrange(1, gpath.len() as int));
            assert forall|k: int| 0 <= k < d.path@.len() implies gsegs_of(d.path@)[k] == ges[
                m
            ].path.subrange(1, ges[m].path.len() as int)[k] by {
                assert(d.path@[k] == gpath[k + 1]);
            }
            assert(gsegs_of(d.path@) =~= ges[m].path.subrange(1, ges[m].path.len() as int));
            assert(d@ == strip1(ges[m]));
        }
        let ghost pre = run@;
        run.push(d);
        proof {
            crate::encode::lemma_gentries_push(pre, d);
            m = m + 1;
            assert(ges.take(m) =~= ges.take(m - 1).push(ges[m - 1]));
            assert forall|k: int| 0 <= k < m implies gentries_of(run@)[k] == strip_all(
                ges.take(m),
            )[k] by {
                if k < m - 1 {
                    assert(gentries_of(run@)[k] == gentries_of(pre)[k]);
                    assert(strip_all(ges.take(m))[k] == strip_all(ges.take(m - 1))[k]);
                }
            }
            assert(gentries_of(run@) =~= strip_all(ges.take(m)));
        }
    }
}

/// The run length is exactly where the scan stopped.
proof fn lemma_run_len_exact_here(ges: Seq<GEntry>, seg: GSeg, m: int)
    requires
        0 <= m <= ges.len(),
        forall|k: int| 0 <= k < m ==> heads_with(#[trigger] ges[k], seg),
        m == ges.len() || !heads_with(ges[m], seg),
    ensures
        run_len(ges, seg) == m,
    decreases ges.len(),
{
    if m > 0 {
        let t = ges.subrange(1, ges.len() as int);
        assert forall|k: int| 0 <= k < m - 1 implies heads_with(#[trigger] t[k], seg) by {
            assert(t[k] == ges[k + 1]);
        }
        if m < ges.len() {
            assert(t[m - 1] == ges[m]);
        }
        lemma_run_len_exact_here(t, seg, m - 1);
    }
}

/// Decode a partition of flat entries as a value of the given shape.
#[verifier::rlimit(60)]
#[verifier::loop_isolation(false)]
pub fn decode_entries(shape: &Shape, es: &Vec<PathEntry>) -> (r: Result<Value, DecodeError>)
    ensures
        match r {
            Ok(v) => spec_decode(shape@, gentries_of(es@)) == Ok::<GValue, DecodeError>(v@),
            Err(e) => spec_decode(shape@, gentries_of(es@)) == Err::<GValue, DecodeError>(e),
        },
    decreases shape,
{
    let ghost ges = gentries_of(es@);
    match shape {
        Shape::Bool => decode_bool_entries(es),
        Shape::Int => decode_scalar_entries(shape, es),
        Shape::UInt => decode_scalar_entries(shape, es),
        Shape::Text => decode_scalar_entries(shape, es),
        Shape::Char => decode_scalar_entries(shape, es),
        Shape::Unit => Ok(Value::Unit),
        Shape::Maybe(inner) => {
            if es.len() == 0 {
                Ok(Value::Maybe(None))
            } else {
                proof {
                    assert(decreases_to!(*shape => **inner));
                }
                match decode_entries(&*inner, es) {
                    Err(e) => Err(e),
                    Ok(v) => Ok(Value::Maybe(Some(Box::new(v)))),
                }
            }
        },
        Shape::List(elem) => {
            let ghost gelem = gshape_of(**elem);
            let n = es.len();
            let mut acc: Vec<Value> = Vec::new();
            let mut i: usize = 0;
            proof {
                crate::value::lemma_gvalues_index(acc@);
                assert(gvalues_of(acc@) =~= Seq::<GValue>::empty());
            }
            loop
                invariant
                    n == es@.len(),
                    ges == gentries_of(es@),
                    ges.len() == n,
                    gelem == gshape_of(**elem),
                    i <= n,
                    match decode_list_from(gelem, ges, i as int) {
                        Ok(tail) => decode_list_from(gelem, ges, 0) == Ok::<_, DecodeError>(
                            gvalues_of(acc@) + tail,
                        ),
                        Err(e) => decode_list_from(gelem, ges, 0) == Err::<Seq<GValue>, _>(e),
                    },
                decreases n - i,
            {
                let part = take_part(es, &Seg::Item(i));
                if part.len() == 0 || i == n {
                    if check_all_below(es, i) {
                        proof {
                            assert(decode_list_from(gelem, ges, i as int) == Ok::<_, DecodeError>(
                                Seq::<GValue>::empty(),
                            ));
                            assert(gvalues_of(acc@) + Seq::<GValue>::empty() =~= gvalues_of(
                                acc@,
                            ));
                        }
                        return Ok(Value::List(acc));
                    } else {
                        return Err(DecodeError::MissingIndex);
                    }
                }
                proof {
                    assert(decreases_to!(*shape => **elem));
                }
                match decode_entries(&*elem, &part) {
                    Err(e) => {
                        return Err(e);
                    },
                    Ok(v) => {
                        let ghost pre = acc@;
                        let ghost gv = gvalue_of(v);
                        acc.push(v);
                        proof {
                            crate::value::lemma_gvalues_index(pre);
                            crate::value::lemma_gvalues_index(acc@);
                            assert(acc@ == pre.push(acc@[pre.len() as int]));
                            assert(gvalue_of(acc@[pre.len() as int]) == gv);
                            assert forall|k: int| 0 <= k < acc@.len() implies gvalues_of(
                                acc@,
                            )[k] == gvalues_of(pre).push(gv)[k] by {
                                if k < pre.len() {
                                    assert(acc@[k] == pre[k]);
                                } else {
                                    assert(gvalues_of(pre).push(gv)[k] == gv);
                                    assert(gvalues_of(acc@)[k] == gvalue_of(acc@[k]));
                                }
                            }
                            assert(gvalues_of(acc@) =~= gvalues_of(pre).push(gv));
                            if decode_list_from(gelem, ges, i + 1) is Ok {
                                let tail = decode_list_from(gelem, ges, i + 1).unwrap();
                                assert(decode_list_from(gelem, ges, i as int) == Ok::<
                                    _,
                                    DecodeError,
                                >(seq![gv] + tail));
                                assert(gvalues_of(pre) + (seq![gv] + tail)
                                    =~= gvalues_of(acc@) + tail);
                            }
                        }
                        i = i + 1;
                    },
                }
            }
        },
        Shape::Tuple(ss) => {
            let nss = ss.len();
            proof {
                assert(ss@.len() == nss);
            }
            match decode_tuple_entries(ss, es, 0) {
                Err(e) => Err(e),
                Ok(vs) => Ok(Value::Tuple(vs)),
            }
        },
        Shape::Table(kshape, vshape) => {
            let ghost gts = shape@;
            let mut rem: Vec<PathEntry> = Vec::new();
            let n = es.len();
            let mut ci: usize = 0;
            while ci < n
                invariant
                    n == es@.len(),
                    ci <= n,
                    gentries_of(rem@) == gentries_of(es@).take(ci as int),
                decreases n - ci,
            {
                let ghost pre = rem@;
                let d = entry_dup(&es[ci]);
                rem.push(d);
                proof {
                    crate::encode::lemma_gentries_push(pre, d);
                    assert(gentries_of(es@).take(ci + 1) =~= gentries_of(es@).take(
                        ci as int,
                    ).push(gentries_of(es@)[ci as int]));
                    assert(d@ == gentries_of(es@)[ci as int]);
                    assert(gentries_of(rem@) =~= gentries_of(es@).take(ci + 1));
                }
                ci = ci + 1;
            }
            proof {
                assert(gentries_of(es@).take(n as int) =~= ges);
            }
            let kseg = Seg::Field(String::from_str("key"));
            let vseg = Seg::Field(String::from_str("value"));
            proof {
                reveal_strlit("key");
                reveal_strlit("value");
                assert(kseg@ == GSeg::Field(crate::encode::key_marker())) by {
                    assert("key"@ =~= crate::encode::key_marker());
                }
                assert(vseg@ == GSeg::Field(crate::encode::value_marker())) by {
                    assert("value"@ =~= crate::encode::value_marker());
                }
            }
            let mut acc: Vec<PairVal> = Vec::new();
            proof {
                crate::value::lemma_gpairs_index(acc@);
                assert(gpairs_of(acc@) =~= Seq::<GPairVal>::empty());
            }
            loop
                invariant
                    gts == shape@,
                    gts is Table,
                    gts == GShape::Table(
                        Box::new(gshape_of(**kshape)),
                        Box::new(gshape_of(**vshape)),
                    ),
                    kseg@ == GSeg::Field(crate::encode::key_marker()),
                    vseg@ == GSeg::Field(crate::encode::value_marker()),
                    match decode_pairs(gts, gentries_of(rem@)) {
                        Ok(tail) => decode_pairs(gts, ges) == Ok::<_, DecodeError>(
                            gpairs_of(acc@) + tail,
                        ),
                        Err(e) => decode_pairs(gts, ges) == Err::<Seq<GPairVal>, _>(e),
                    },
                decreases rem@.len(),
            {
                let ghost cur = gentries_of(rem@);
                if rem.len() == 0 {
                    proof {
                        assert(decode_pairs(gts, cur) == Ok::<_, DecodeError>(
                            Seq::<GPairVal>::empty(),
                        ));
                        assert(gpairs_of(acc@) + Seq::<GPairVal>::empty() =~= gpairs_of(acc@));
                    }
                    return Ok(Value::Table(acc));
                }
                let krun = take_run(&mut rem, &kseg);
                proof {
                    lemma_gentries_len(krun@);
                    lemma_strip_all_len(cur.take(run_len(cur, kseg@)));
                    assert(krun@.len() == run_len(cur, kseg@));
                }
                if krun.len() == 0 {
                    proof {
                        assert(run_len(cur, kseg@) == 0);
                    }
                    return Err(DecodeError::MalformedMap);
                }
                let ghost kr = run_len(cur, kseg@);
                let ghost mid = gentries_of(rem@);
                let vrun = take_run(&mut rem, &vseg);
                proof {
                    assert(mid =~= cur.subrange(kr, cur.len() as int));
                }
                proof {
                    lemma_gentries_len(vrun@);
                    lemma_strip_all_len(mid.take(run_len(mid, vseg@)));
                    assert(vrun@.len() == run_len(mid, vseg@));
                }
                if vrun.len() == 0 {
                    proof {
                        assert(run_len(mid, vseg@) == 0);
                    }
                    return Err(DecodeError::MalformedMap);
                }
                let ghost vr = run_len(mid, vseg@);
                proof {
                    assert(cur.subrange(0, kr) =~= cur.take(kr));
                    assert(strip_all(cur.subrange(0, kr)) =~= strip_all(cur.take(kr)));
                    assert(mid.take(vr) =~= cur.subrange(kr, kr + vr));
                    assert(strip_all(cur.subrange(kr, kr + vr)) =~= strip_all(mid.take(vr)));
                    assert(gentries_of(rem@) =~= cur.subrange(kr + vr, cur.len() as int));
                }
                proof {
                    assert(decreases_to!(*shape => **kshape));
                }
                let kv = decode_entries(&*kshape, &krun);
                let k = match kv {
                    Err(e) => {
                        return Err(e);
                    },
                    Ok(k) => k,
                };
                proof {
                    assert(decreases_to!(*shape => **vshape));
                }
                let vv = decode_entries(&*vshape, &vrun);
                let v = match vv {
                    Err(e) => {
                        return Err(e);
                    },
                    Ok(v) => v,
                };
                let ghost pre = acc@;
                let pair = PairVal { key: k, value: v };
                let ghost gpair = GPairVal { key: gvalue_of(pair.key), value: gvalue_of(pair.value) };
                acc.push(pair);
                proof {
                    crate::value::lemma_gpairs_index(pre);
                    crate::value::lemma_gpairs_index(acc@);
                    assert(acc@ == pre.push(acc@[pre.len() as int]));
                    assert(GPairVal {
                        key: gvalue_of(acc@[pre.len() as int].key),
                        value: gvalue_of(acc@[pre.len() as int].value),
                    } == gpair);
                    assert forall|x: int| 0 <= x < acc@.len() implies gpairs_of(acc@)[x]
                        == gpairs_of(pre).push(gpair)[x] by {
                        if x < pre.len() {
                            assert(acc@[x] == pre[x]);
                        } else {
                            assert(gpairs_of(pre).push(gpair)[x] == gpair);
                        }
                    }
                    assert(gpairs_of(acc@) =~= gpairs_of(pre).push(gpair));
                    if decode_pairs(gts, gentries_of(rem@)) is Ok {
                        let tail = decode_pairs(gts, gentries_of(rem@)).unwrap();
                        assert(decode_pairs(gts, cur) == Ok::<_, DecodeError>(
                            seq![gpair] + tail,
                        ));
                        assert(gpairs_of(pre) + (seq![gpair] + tail) =~= gpairs_of(acc@) + tail);
                    }
                }
            }
        },
        Shape::Record(fs) => {
            match decode_record_entries(fs, es) {
                Err(e) => Err(e),
                Ok(fvs) => Ok(Value::Record(fvs)),
            }
        },
        Shape::Choice(vs) => decode_choice_entries(vs, es),
    }
}


/// Decode the positional elements of a tuple, one declared shape per index.
#[verifier::loop_isolation(false)]
fn decode_tuple_entries(shapes: &Vec<Shape>, es: &Vec<PathEntry>, base: usize) -> (r: Result<
    Vec<Value>,
    DecodeError,
>)
    requires
        base + shapes@.len() <= usize::MAX,
    ensures
        match r {
            Ok(vs) => decode_tuple(gshapes_of(shapes@), gentries_of(es@), base as int) == Ok::<
                Seq<GValue>,
                DecodeError,
            >(gvalues_of(vs@)),
            Err(e) => decode_tuple(gshapes_of(shapes@), gentries_of(es@), base as int) == Err::<
                Seq<GValue>,
                DecodeError,
            >(e),
        },
    decreases shapes,
{
    let ghost ges = gentries_of(es@);
    let ghost gss = gshapes_of(shapes@);
    let n = shapes.len();
    let mut acc: Vec<Value> = Vec::new();
    let mut t: usize = 0;
    proof {
        lemma_gshapes_index(shapes@);
        crate::value::lemma_gvalues_index(acc@);
        assert(gvalues_of(acc@) =~= Seq::<GValue>::empty());
        assert(gss.subrange(0, n as int) =~= gss);
    }
    while t < n
        invariant
            n == shapes@.len(),
            base + n <= usize::MAX,
            ges == gentries_of(es@),
            gss == gshapes_of(shapes@),
            gss.len() == n,
            forall|k: int| 0 <= k < n ==> gss[k] == gshape_of(#[trigger] shapes@[k]),
            t <= n,
            match decode_tuple(gss.subrange(t as int, n as int), ges, base + t) {
                Ok(tail) => decode_tuple(gss, ges, base as int) == Ok::<_, DecodeError>(
                    gvalues_of(acc@) + tail,
                ),
                Err(e) => decode_tuple(gss, ges, base as int) == Err::<Seq<GValue>, _>(e),
            },
        decreases n - t,
    {
        let ghost rest = gss.subrange(t as int, n as int);
        proof {
            assert(rest[0] == gss[t as int]);
            assert(rest.subrange(1, rest.len() as int) =~= gss.subrange(t + 1, n as int));
        }
        let part = take_part(es, &Seg::Item(base + t));
        match decode_entries(&shapes[t], &part) {
            Err(e) => {
                return Err(e);
            },
            Ok(v) => {
                let ghost pre = acc@;
                let ghost gv = gvalue_of(v);
                acc.push(v);
                proof {
                    crate::value::lemma_gvalues_index(pre);
                    crate::value::lemma_gvalues_index(acc@);
                    assert(acc@ == pre.push(acc@[pre.len() as int]));
                    assert(gvalue_of(acc@[pre.len() as int]) == gv);
                    assert forall|k: int| 0 <= k < acc@.len() implies gvalues_of(acc@)[k]
                        == gvalues_of(pre).push(gv)[k] by {
                        if k < pre.len() {
                            assert(acc@[k] == pre[k]);
                        } else {
                            assert(gvalues_of(pre).push(gv)[k] == gv);
                            assert(gvalues_of(acc@)[k] == gvalue_of(acc@[k]));
                        }
                    }
                    assert(gvalues_of(acc@) =~= gvalues_of(pre).push(gv));
                    if decode_tuple(gss.subrange(t + 1, n as int), ges, base + t + 1) is Ok {
                        let tail = decode_tuple(
                            gss.subrange(t + 1, n as int),
                            ges,
                            base + t + 1,
                        ).unwrap();
                        assert(decode_tuple(rest, ges, base + t) == Ok::<_, DecodeError>(
                            seq![gv] + tail,
                        ));
                        assert(gvalues_of(pre) + (seq![gv] + tail) =~= gvalues_of(acc@) + tail);
                    }
                }
            },
        }
        t = t + 1;
    }
    proof {
        assert(gss.subrange(n as int, n as int).len() == 0);
    }
    if check_all_below(es, base + n) {
        proof {
            assert(decode_tuple(gss.subrange(n as int, n as int), ges, base + n) == Ok::<
                _,
                DecodeError,
            >(Seq::<GValue>::empty()));
            assert(gvalues_of(acc@) + Seq::<GValue>::empty() =~= gvalues_of(acc@));
        }
        Ok(acc)
    } else {
        Err(DecodeError::MissingIndex)
    }
}

/// Decode the declared fields of a record, each from the partition under its
/// own name.
#[verifier::loop_isolation(false)]
fn decode_record_entries(fields: &Vec<FieldShape>, es: &Vec<PathEntry>) -> (r: Result<
    Vec<FieldVal>,
    DecodeError,
>)
    ensures
        match r {
            Ok(fvs) => decode_record(gfield_shapes_of(fields@), gentries_of(es@)) == Ok::<
                Seq<GFieldVal>,
                DecodeError,
            >(gfields_of(fvs@)),
            Err(e) => decode_record(gfield_shapes_of(fields@), gentries_of(es@)) == Err::<
                Seq<GFieldVal>,
                DecodeError,
            >(e),
        },
    decreases fields,
{
    let ghost ges = gentries_of(es@);
    let ghost gfs = gfield_shapes_of(fields@);
    let n = fields.len();
    let mut acc: Vec<FieldVal> = Vec::new();
    let mut t: usize = 0;
    proof {
        lemma_gfield_shapes_index(fields@);
        crate::value::lemma_gfields_index(acc@);
        assert(gfields_of(acc@) =~= Seq::<GFieldVal>::empty());
        assert(gfs.subrange(0, n as int) =~= gfs);
    }
    while t < n
        invariant
            n == fields@.len(),
            ges == gentries_of(es@),
            gfs == gfield_shapes_of(fields@),
            gfs.len() == n,
            forall|k: int| 0 <= k < n ==> gfs[k] == (GFieldShape {
                name: (#[trigger] fields@[k]).name@,
                shape: gshape_of(fields@[k].shape),
            }),
            t <= n,
            match decode_record(gfs.subrange(t as int, n as int), ges) {
                Ok(tail) => decode_record(gfs, ges) == Ok::<_, DecodeError>(
                    gfields_of(acc@) + tail,
                ),
                Err(e) => decode_record(gfs, ges) == Err::<Seq<GFieldVal>, _>(e),
            },
        decreases n - t,
    {
        let ghost rest = gfs.subrange(t as int, n as int);
        proof {
            assert(rest[0] == gfs[t as int]);
            assert(rest.subrange(1, rest.len() as int) =~= gfs.subrange(t + 1, n as int));
        }
        let name = String::from_str(fields[t].name.as_str());
        let part = take_part(es, &Seg::Field(String::from_str(fields[t].name.as_str())));
        match decode_entries(&fields[t].shape, &part) {
            Err(e) => {
                return Err(e);
            },
            Ok(v) => {
                let ghost pre = acc@;
                let fv = FieldVal { name, value: v };
                let ghost gfv = GFieldVal { name: fv.name@, value: gvalue_of(fv.value) };
                acc.push(fv);
                proof {
                    crate::value::lemma_gfields_index(pre);
                    crate::value::lemma_gfields_index(acc@);
                    assert(acc@ == pre.push(acc@[pre.len() as int]));
                    assert(GFieldVal {
                        name: acc@[pre.len() as int].name@,
                        value: gvalue_of(acc@[pre.len() as int].value),
                    } == gfv);
                    assert forall|k: int| 0 <= k < acc@.len() implies gfields_of(acc@)[k]
                        == gfields_of(pre).push(gfv)[k] by {
                        if k < pre.len() {
                            assert(acc@[k] == pre[k]);
                        } else {
                            assert(gfields_of(pre).push(gfv)[k] == gfv);
                        }
                    }
                    assert(gfields_of(acc@) =~= gfields_of(pre).push(gfv));
                    if decode_record(gfs.subrange(t + 1, n as int), ges) is Ok {
                        let tail = decode_record(gfs.subrange(t + 1, n as int), ges).unwrap();
                        assert(decode_record(rest, ges) == Ok::<_, DecodeError>(
                            seq![gfv] + tail,
                        ));
                        assert(gfields_of(pre) + (seq![gfv] + tail) =~= gfields_of(acc@)
                            + tail);
                    }
                }
            },
        }
        t = t + 1;
    }
    proof {
        assert(gfs.subrange(n as int, n as int).len() == 0);
        assert(decode_record(gfs.subrange(n as int, n as int), ges) == Ok::<_, DecodeError>(
            Seq::<GFieldVal>::empty(),
        ));
        assert(gfields_of(acc@) + Seq::<GFieldVal>::empty() =~= gfields_of(acc@));
    }
    Ok(acc)
}

/// Decode one declared variant from the partition.
fn decode_variant_entries(variant: &VariantShape, es: &Vec<PathEntry>) -> (r: Result<
    Value,
    DecodeError,
>)
    ensures
        ({
            let gv = GVariantShape {
                name: variant.name@,
                payload: gpayload_shape_of(variant.payload),
            };
            match r {
                Ok(v) => decode_variant(gv, gentries_of(es@)) == Ok::<GValue, DecodeError>(v@),
                Err(e) => decode_variant(gv, gentries_of(es@)) == Err::<GValue, DecodeError>(e),
            }
        }),
    decreases variant,
{
    let ghost ges = gentries_of(es@);
    match &variant.payload {
        PayloadShape::Empty => {
            if es.len() != 1 {
                return Err(DecodeError::TypeMismatch);
            }
            proof {
                assert(ges[0] == es@[0]@);
                assert(gsegs_of(es@[0].path@).len() == es@[0].path@.len());
            }
            if es[0].path.len() != 0 {
                return Err(DecodeError::TypeMismatch);
            }
            if !(es[0].kind == Kind::Text) {
                return Err(DecodeError::TypeMismatch);
            }
            if es[0].text.eq(&variant.name) {
                Ok(Value::Choice(String::from_str(variant.name.as_str()), Payload::Empty))
            } else {
                Err(DecodeError::TypeMismatch)
            }
        },
        PayloadShape::Wrapped(b) => {
            match decode_entries(&*b, es) {
                Err(e) => Err(e),
                Ok(v) => Ok(
                    Value::Choice(
                        String::from_str(variant.name.as_str()),
                        Payload::Wrapped(Box::new(v)),
                    ),
                ),
            }
        },
        PayloadShape::TupleOf(ts) => {
            let tlen = ts.len();
            proof {
                assert(ts@.len() == tlen);
            }
            match decode_tuple_entries(ts, es, 0) {
                Err(e) => Err(e),
                Ok(vs) => Ok(
                    Value::Choice(
                        String::from_str(variant.name.as_str()),
                        Payload::TupleOf(vs),
                    ),
                ),
            }
        },
        PayloadShape::RecordOf(fs) => {
            match decode_record_entries(fs, es) {
                Err(e) => Err(e),
                Ok(fvs) => Ok(
                    Value::Choice(
                        String::from_str(variant.name.as_str()),
                        Payload::RecordOf(fvs),
                    ),
                ),
            }
        },
    }
}

/// Decode a tagged choice: the declared variants are tried in order.
#[verifier::loop_isolation(false)]
fn decode_choice_entries(variants: &Vec<VariantShape>, es: &Vec<PathEntry>) -> (r: Result<
    Value,
    DecodeError,
>)
    ensures
        match r {
            Ok(v) => decode_choice(gvariants_of(variants@), gentries_of(es@)) == Ok::<
                GValue,
                DecodeError,
            >(v@),
            Err(e) => decode_choice(gvariants_of(variants@), gentries_of(es@)) == Err::<
                GValue,
                DecodeError,
            >(e),
        },
    decreases variants,
{
    let ghost ges = gentries_of(es@);
    let ghost gvs = gvariants_of(variants@);
    let n = variants.len();
    let mut t: usize = 0;
    proof {
        lemma_gvariants_index(variants@);
        assert(gvs.subrange(0, n as int) =~= gvs);
    }
    while t < n
        invariant
            n == variants@.len(),
            ges == gentries_of(es@),
            gvs == gvariants_of(variants@),
            gvs.len() == n,
            forall|k: int| 0 <= k < n ==> gvs[k] == (GVariantShape {
                name: (#[trigger] variants@[k]).name@,
                payload: gpayload_shape_of(variants@[k].payload),
            }),
            t <= n,
            decode_choice(gvs, ges) == decode_choice(gvs.subrange(t as int, n as int), ges),
        decreases n - t,
    {
        let ghost rest = gvs.subrange(t as int, n as int);
        proof {
            assert(rest[0] == gvs[t as int]);
            assert(rest.subrange(1, rest.len() as int) =~= gvs.subrange(t + 1, n as int));
        }
        match decode_variant_entries(&variants[t], es) {
            Ok(v) => {
                return Ok(v);
            },
            Err(_) => {},
        }
        t = t + 1;
    }
    proof {
        assert(gvs.subrange(n as int, n as int).len() == 0);
    }
    Err(DecodeError::TypeMismatch)
}

/// Decode a flat set of wire entries as a value of the given shape: the
/// names are parsed under the path grammar, then the value is rebuilt by
/// partitioning. Exactly the entry sets that parse and match the shape
/// decode; every other input is rejected with its typed error.
pub fn decode(entries: &Vec<FlatEntry>, shape: &Shape) -> (r: Result<Value, DecodeError>)
    ensures
        match spec_parse_entries(gflats_of(entries@)) {
            Option::None => r == Err::<Value, DecodeError>(DecodeError::ParseFailure),
            Option::Some(ges) => match r {
                Ok(v) => spec_decode(shape@, ges) == Ok::<GValue, DecodeError>(v@),
                Err(e) => spec_decode(shape@, ges) == Err::<GValue, DecodeError>(e),
            },
        },
{
    match parse_entries(entries) {
        None => Err(DecodeError::ParseFailure),
        Some(parsed) => decode_entries(shape, &parsed),
    }
}

} // verus!
