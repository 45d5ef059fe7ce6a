//! The path encoder: a depth-first walk of a [`Value`] that emits one leaf
//! entry per scalar, each addressed by its structured path.
//!
//! The walk threads the current path explicitly through the recursion instead
//! of mutating a shared nesting stack; positional children of lists, tuples
//! and tuple variants get bracketed index segments `0..n-1` in ascending
//! order, each map entry gets disjoint `key` / `value` segments, and record
//! fields get their name as a segment. A boolean emits two entries at the
//! same path — the active-state sentinel first, the `off` fallback second —
//! mirroring the checked/unchecked duality of boolean input controls. `None`,
//! unit and the empty containers emit nothing.

use vstd::prelude::*;

use crate::path::{gsegs_of, render_name, FlatEntry, GEntry, GSeg, Kind, PathEntry, Seg};
use crate::text::{dec_digits, push_i64_text, push_u64_digits, spec_i64_text};
use crate::value::{
    gfields_of, gpairs_of, gvalue_of, gvalues_of, lemma_gfields_index, lemma_gpairs_index,
    lemma_gvalues_index, GFieldVal, GPairVal, GPayload, GValue, Payload, Value,
};

verus! {

broadcast use vstd::std_specs::vec::group_vec_axioms, vstd::seq::axiom_seq_index_decreases;

/// The raw text of the active-state boolean entry.
pub open spec fn on_text() -> Seq<char> {
    seq!['o', 'n']
}

/// The raw text of the fallback boolean entry.
pub open spec fn off_text() -> Seq<char> {
    seq!['o', 'f', 'f']
}

/// The fixed marker segment of a map entry's key half.
pub open spec fn key_marker() -> Seq<char> {
    seq!['k', 'e', 'y']
}

/// The fixed marker segment of a map entry's value half.
pub open spec fn value_marker() -> Seq<char> {
    seq!['v', 'a', 'l', 'u', 'e']
}

/// The ghost twins of a vector of structured entries.
pub open spec fn gentries_of(es: Seq<PathEntry>) -> Seq<GEntry> {
    es.map_values(|e: PathEntry| e@)
}

/// The entries of one child, each with the child's segment pushed in front
/// of its path.
pub open spec fn with_seg(seg: GSeg, es: Seq<GEntry>) -> Seq<GEntry> {
    es.map_values(|e: GEntry| GEntry { path: seq![seg] + e.path, kind: e.kind, text: e.text })
}

/// A leaf entry at the current path itself.
pub open spec fn leaf(kind: Kind, text: Seq<char>) -> GEntry {
    GEntry { path: Seq::<GSeg>::empty(), kind, text }
}

/// The flat entries of the positional elements `es`, the first one indexed
/// `base`.
pub open spec fn encode_elems(es: Seq<GValue>, base: int) -> Seq<GEntry>
    decreases es,
{
    if es.len() == 0 {
        Seq::<GEntry>::empty()
    } else {
        with_seg(GSeg::Item(base as usize), spec_encode(es[0])) + encode_elems(
            es.subrange(1, es.len() as int),
            base + 1,
        )
    }
}

/// The flat entries of the record fields `fs`, in declaration order.
pub open spec fn encode_fields(fs: Seq<GFieldVal>) -> Seq<GEntry>
    decreases fs,
{
    if fs.len() == 0 {
        Seq::<GEntry>::empty()
    } else {
        with_seg(GSeg::Field(fs[0].name), spec_encode(fs[0].value)) + encode_fields(
            fs.subrange(1, fs.len() as int),
        )
    }
}

/// The flat entries of the map pairs `ps`: for each entry the key under the
/// `key` marker, then the value under the `value` marker, both popped again —
/// the two halves occupy disjoint segments.
pub open spec fn encode_pairs(ps: Seq<GPairVal>) -> Seq<GEntry>
    decreases ps,
{
    if ps.len() == 0 {
        Seq::<GEntry>::empty()
    } else {
        with_seg(GSeg::Field(key_marker()), spec_encode(ps[0].key)) + with_seg(
            GSeg::Field(value_marker()),
            spec_encode(ps[0].value),
        ) + encode_pairs(ps.subrange(1, ps.len() as int))
    }
}

/// The flat encoding of a value: its leaf entries in document order, with
/// paths relative to the value's own position.
pub open spec fn spec_encode(g: GValue) -> Seq<GEntry>
    decreases g,
{
    match g {
        GValue::Bool(b) => if b {
            seq![leaf(Kind::Bool, on_text()), leaf(Kind::Bool, off_text())]
        } else {
            seq![leaf(Kind::Bool, off_text())]
        },
        GValue::Int(v) => seq![leaf(Kind::Num, spec_i64_text(v))],
        GValue::UInt(v) => seq![leaf(Kind::Num, dec_digits(v as nat))],
        GValue::Text(s) => seq![leaf(Kind::Text, s)],
        GValue::Char(c) => seq![leaf(Kind::Text, seq![c])],
        GValue::Unit => Seq::<GEntry>::empty(),
        GValue::Maybe(o) => match o {
            Option::None => Seq::<GEntry>::empty(),
            Option::Some(b) => spec_encode(*b),
        },
        GValue::List(es) => encode_elems(es, 0),
        GValue::Tuple(es) => encode_elems(es, 0),
        GValue::Table(ps) => encode_pairs(ps),
        GValue::Record(fs) => encode_fields(fs),
        GValue::Choice(name, payload) => match payload {
            GPayload::Empty => seq![leaf(Kind::Text, name)],
            GPayload::Wrapped(b) => spec_encode(*b),
            GPayload::TupleOf(es) => encode_elems(es, 0),
            GPayload::RecordOf(fs) => encode_fields(fs),
        },
    }
}

/// Extending the elements by one appends that element's entries under the
/// next index.
pub proof fn lemma_encode_elems_push(gs: Seq<GValue>, x: GValue, base: int)
    requires
        0 <= base,
        base + gs.len() <= usize::MAX,
    ensures
        encode_elems(gs.push(x), base) == encode_elems(gs, base) + with_seg(
            GSeg::Item((base + gs.len()) as usize),
            spec_encode(x),
        ),
    decreases gs.len(),
{
    if gs.len() == 0 {
        assert(gs.push(x)[0] == x);
        assert(gs.push(x).subrange(1, 1) =~= Seq::<GValue>::empty());
        assert(encode_elems(Seq::<GValue>::empty(), base + 1) =~= Seq::<GEntry>::empty());
        assert(encode_elems(gs, base) =~= Seq::<GEntry>::empty());
        assert(encode_elems(gs.push(x), base) =~= with_seg(
            GSeg::Item(base as usize),
            spec_encode(x),
        ));
        assert(encode_elems(gs, base) + with_seg(GSeg::Item(base as usize), spec_encode(x))
            =~= with_seg(GSeg::Item(base as usize), spec_encode(x)));
    } else {
        let tail = gs.subrange(1, gs.len() as int);
        lemma_encode_elems_push(tail, x, base + 1);
        assert(gs.push(x).subrange(1, gs.len() + 1 as int) =~= tail.push(x));
        assert(gs.push(x)[0] == gs[0]);
        assert(encode_elems(gs.push(x), base) =~= encode_elems(gs, base) + with_seg(
            GSeg::Item((base + gs.len()) as usize),
            spec_encode(x),
        ));
    }
}

/// Extending the fields by one appends that field's entries under its name.
pub proof fn lemma_encode_fields_push(fs: Seq<GFieldVal>, x: GFieldVal)
    ensures
        encode_fields(fs.push(x)) == encode_fields(fs) + with_seg(
            GSeg::Field(x.name),
            spec_encode(x.value),
        ),
    decreases fs.len(),
{
    if fs.len() == 0 {
        assert(fs.push(x)[0] == x);
        assert(fs.push(x).subrange(1, 1) =~= Seq::<GFieldVal>::empty());
        assert(encode_fields(Seq::<GFieldVal>::empty()) =~= Seq::<GEntry>::empty());
        assert(encode_fields(fs) =~= Seq::<GEntry>::empty());
        assert(encode_fields(fs.push(x)) =~= with_seg(GSeg::Field(x.name), spec_encode(x.value)));
        assert(encode_fields(fs) + with_seg(GSeg::Field(x.name), spec_encode(x.value)) =~= with_seg(
            GSeg::Field(x.name),
            spec_encode(x.value),
        ));
    } else {
        let tail = fs.subrange(1, fs.len() as int);
        lemma_encode_fields_push(tail, x);
        assert(fs.push(x).subrange(1, fs.len() + 1 as int) =~= tail.push(x));
        assert(fs.push(x)[0] == fs[0]);
        assert(encode_fields(fs.push(x)) =~= encode_fields(fs) + with_seg(
            GSeg::Field(x.name),
            spec_encode(x.value),
        ));
    }
}

/// Extending the pairs by one appends that pair's key and value entries.
pub proof fn lemma_encode_pairs_push(ps: Seq<GPairVal>, x: GPairVal)
    ensures
        encode_pairs(ps.push(x)) == encode_pairs(ps) + (with_seg(
            GSeg::Field(key_marker()),
            spec_encode(x.key),
        ) + with_seg(GSeg::Field(value_marker()), spec_encode(x.value))),
    decreases ps.len(),
{
    if ps.len() == 0 {
        assert(ps.push(x)[0] == x);
        assert(ps.push(x).subrange(1, 1) =~= Seq::<GPairVal>::empty());
        assert(encode_pairs(Seq::<GPairVal>::empty()) =~= Seq::<GEntry>::empty());
        assert(encode_pairs(ps) =~= Seq::<GEntry>::empty());
        assert(encode_pairs(ps.push(x)) =~= with_seg(GSeg::Field(key_marker()), spec_encode(x.key))
            + with_seg(GSeg::Field(value_marker()), spec_encode(x.value)));
        assert(encode_pairs(ps) + (with_seg(GSeg::Field(key_marker()), spec_encode(x.key))
            + with_seg(GSeg::Field(value_marker()), spec_encode(x.value))) =~= with_seg(
            GSeg::Field(key_marker()),
            spec_encode(x.key),
        ) + with_seg(GSeg::Field(value_marker()), spec_encode(x.value)));
    } else {
        let tail = ps.subrange(1, ps.len() as int);
        lemma_encode_pairs_push(tail, x);
        assert(ps.push(x).subrange(1, ps.len() + 1 as int) =~= tail.push(x));
        assert(ps.push(x)[0] == ps[0]);
        assert(encode_pairs(ps.push(x)) =~= encode_pairs(ps) + (with_seg(
            GSeg::Field(key_marker()),
            spec_encode(x.key),
        ) + with_seg(GSeg::Field(value_marker()), spec_encode(x.value))));
    }
}


/// Pushing an entry commutes with taking ghost twins.
pub proof fn lemma_gentries_push(s: Seq<PathEntry>, e: PathEntry)
    ensures
        gentries_of(s.push(e)) =~= gentries_of(s).push(e@),
{
    assert forall|i: int| 0 <= i < s.len() + 1 implies gentries_of(s.push(e))[i] == gentries_of(
        s,
    ).push(e@)[i] by {
        if i < s.len() {
            assert(s.push(e)[i] == s[i]);
        } else {
            assert(s.push(e)[i] == e);
        }
    }
}

/// Pushing an entry commutes with prefixing a segment.
pub proof fn lemma_with_seg_push(seg: GSeg, s: Seq<GEntry>, e: GEntry)
    ensures
        with_seg(seg, s.push(e)) =~= with_seg(seg, s).push(
            GEntry { path: seq![seg] + e.path, kind: e.kind, text: e.text },
        ),
{
    assert forall|i: int| 0 <= i < s.len() + 1 implies with_seg(seg, s.push(e))[i] == with_seg(
        seg,
        s,
    ).push(GEntry { path: seq![seg] + e.path, kind: e.kind, text: e.text })[i] by {
        if i < s.len() {
            assert(s.push(e)[i] == s[i]);
        } else {
            assert(s.push(e)[i] == e);
        }
    }
}

pub(crate) fn seg_dup(s: &Seg) -> (r: Seg)
    ensures
        r@ == s@,
{
    match s {
        Seg::Field(name) => Seg::Field(String::from_str(name.as_str())),
        Seg::Item(i) => Seg::Item(*i),
    }
}

/// Move the entries of one child onto `out`, prefixing each path with the
/// child's segment.
fn append_prefixed(out: &mut Vec<PathEntry>, seg: &Seg, child: Vec<PathEntry>)
    ensures
        gentries_of(final(out)@) == gentries_of(old(out)@) + with_seg(
            seg@,
            gentries_of(child@),
        ),
{
    let ghost base = old(out)@;
    let ghost all = child@;
    let mut c = child;
    let ghost mut done: int = 0;
    while c.len() > 0
        invariant
            0 <= done <= all.len(),
            c@ == all.subrange(done, all.len() as int),
            gentries_of(out@) =~= gentries_of(base) + with_seg(seg@, gentries_of(all.take(done))),
        decreases c@.len(),
    {
        let mut e = c.remove(0);
        let d = seg_dup(seg);
        proof {
            assert(all[done] == e);
            crate::path::lemma_gsegs_insert0(e.path@, d);
        }
        let ghost ge = e@;
        e.path.insert(0, d);
        proof {
            assert(e@ == GEntry { path: seq![seg@] + ge.path, kind: ge.kind, text: ge.text });
        }
        let ghost pre_out = out@;
        out.push(e);
        proof {
            done = done + 1;
            assert(c@ =~= all.subrange(done, all.len() as int));
            lemma_gentries_push(pre_out, e);
            lemma_gentries_push(all.take(done - 1), all[done - 1]);
            assert(all.take(done) =~= all.take(done - 1).push(all[done - 1]));
            lemma_with_seg_push(seg@, gentries_of(all.take(done - 1)), ge);
            assert(gentries_of(all.take(done)) =~= gentries_of(all.take(done - 1)).push(ge));
            assert(with_seg(seg@, gentries_of(all.take(done))) =~= with_seg(
                seg@,
                gentries_of(all.take(done - 1)),
            ).push(e@));
            assert(gentries_of(out@) =~= gentries_of(base) + with_seg(
                seg@,
                gentries_of(all.take(done)),
            ));
        }
    }
    proof {
        assert(all.take(all.len() as int) =~= all);
    }
}

/// Walk a value and emit its leaf entries with structured, relative paths.
pub fn encode_value(v: &Value) -> (r: Vec<PathEntry>)
    ensures
        gentries_of(r@) == spec_encode(v@),
    decreases v,
{
    match v {
        Value::Bool(b) => {
            let mut out: Vec<PathEntry> = Vec::new();
            if *b {
                out.push(PathEntry { path: Vec::new(), kind: Kind::Bool, text: text_on() });
            }
            out.push(PathEntry { path: Vec::new(), kind: Kind::Bool, text: text_off() });
            proof {
                assert(gsegs_of(Seq::<Seg>::empty()) =~= Seq::<GSeg>::empty());
                assert(gentries_of(out@) =~= spec_encode(v@));
            }
            out
        },
        Value::Int(n) => {
            let mut t = String::new();
            push_i64_text(&mut t, *n);
            let mut out: Vec<PathEntry> = Vec::new();
            out.push(PathEntry { path: Vec::new(), kind: Kind::Num, text: t });
            proof {
                assert(gsegs_of(Seq::<Seg>::empty()) =~= Seq::<GSeg>::empty());
                assert(gentries_of(out@) =~= spec_encode(v@));
            }
            out
        },
        Value::UInt(n) => {
            let mut t = String::new();
            push_u64_digits(&mut t, *n);
            let mut out: Vec<PathEntry> = Vec::new();
            out.push(PathEntry { path: Vec::new(), kind: Kind::Num, text: t });
            proof {
                assert(gsegs_of(Seq::<Seg>::empty()) =~= Seq::<GSeg>::empty());
                assert(gentries_of(out@) =~= spec_encode(v@));
            }
            out
        },
        Value::Text(s) => {
            let mut out: Vec<PathEntry> = Vec::new();
            out.push(
                PathEntry {
                    path: Vec::new(),
                    kind: Kind::Text,
                    text: String::from_str(s.as_str()),
                },
            );
            proof {
                assert(gsegs_of(Seq::<Seg>::empty()) =~= Seq::<GSeg>::empty());
                assert(gentries_of(out@) =~= spec_encode(v@));
            }
            out
        },
        Value::Char(c) => {
            let mut t = String::new();
            t.push(*c);
            let mut out: Vec<PathEntry> = Vec::new();
            out.push(PathEntry { path: Vec::new(), kind: Kind::Text, text: t });
            proof {
                assert(gsegs_of(Seq::<Seg>::empty()) =~= Seq::<GSeg>::empty());
                assert(Seq::<char>::empty().push(*c) =~= seq![*c]);
                assert(gentries_of(out@) =~= spec_encode(v@));
            }
            out
        },
        Value::Unit => {
            let out: Vec<PathEntry> = Vec::new();
            proof {
                assert(gentries_of(out@) =~= spec_encode(v@));
            }
            out
        },
        Value::Maybe(o) => match o {
            Option::None => {
                let out: Vec<PathEntry> = Vec::new();
                proof {
                    assert(gentries_of(out@) =~= spec_encode(v@));
                }
                out
            },
            Option::Some(b) => encode_value(&**b),
        },
        Value::List(es) => encode_elements(es),
        Value::Tuple(es) => encode_elements(es),
        Value::Table(ps) => encode_table_pairs(ps),
        Value::Record(fs) => encode_record_fields(fs),
        Value::Choice(name, payload) => match payload {
            Payload::Empty => {
                let mut out: Vec<PathEntry> = Vec::new();
                out.push(
                    PathEntry {
                        path: Vec::new(),
                        kind: Kind::Text,
                        text: String::from_str(name.as_str()),
                    },
                );
                proof {
                    assert(gsegs_of(Seq::<Seg>::empty()) =~= Seq::<GSeg>::empty());
                    assert(gentries_of(out@) =~= spec_encode(v@));
                }
                out
            },
            Payload::Wrapped(b) => encode_value(&**b),
            Payload::TupleOf(es) => encode_elements(es),
            Payload::RecordOf(fs) => encode_record_fields(fs),
        },
    }
}

/// Emit the entries of a table's pairs: each key under the `key` marker,
/// each value under the `value` marker.
fn encode_table_pairs(ps: &Vec<crate::value::PairVal>) -> (r: Vec<PathEntry>)
    ensures
        gentries_of(r@) == encode_pairs(gpairs_of(ps@)),
    decreases ps,
{
    let mut out: Vec<PathEntry> = Vec::new();
            let ghost gps = gpairs_of(ps@);
            proof {
                lemma_gpairs_index(ps@);
                assert(gps.take(0) =~= Seq::<GPairVal>::empty());
                assert(gentries_of(out@) =~= encode_pairs(gps.take(0)));
            }
            let n = ps.len();
            let mut i: usize = 0;
            while i < n
                invariant
                    n == ps@.len(),
                    gps == gpairs_of(ps@),
                    gps.len() == n,
                    forall|k: int| 0 <= k < n ==> gps[k] == (GPairVal {
                        key: gvalue_of((#[trigger] ps@[k]).key),
                        value: gvalue_of(ps@[k].value),
                    }),
                    i <= n,
                    gentries_of(out@) == encode_pairs(gps.take(i as int)),
                decreases n - i,
            {
                let kc = encode_value(&ps[i].key);
                append_prefixed(&mut out, &Seg::Field(String::from_str("key")), kc);
                let vc = encode_value(&ps[i].value);
                append_prefixed(&mut out, &Seg::Field(String::from_str("value")), vc);
                proof {
                    reveal_strlit("key");
                    reveal_strlit("value");
                    assert("key"@ =~= key_marker());
                    assert("value"@ =~= value_marker());
                    lemma_encode_pairs_push(gps.take(i as int), gps[i as int]);
                    assert(gps.take(i + 1) =~= gps.take(i as int).push(gps[i as int]));
                    assert(gentries_of(out@) =~= encode_pairs(gps.take(i + 1)));
                }
                i = i + 1;
            }
    proof {
        assert(gps.take(n as int) =~= gps);
    }
    out
}

/// Emit the entries of positional elements, indexed `0..n-1` in ascending
/// order, one index per element.
fn encode_elements(es: &Vec<Value>) -> (r: Vec<PathEntry>)
    ensures
        gentries_of(r@) == encode_elems(gvalues_of(es@), 0),
    decreases es,
{
    let mut out: Vec<PathEntry> = Vec::new();
    let ghost gvs = gvalues_of(es@);
    proof {
        lemma_gvalues_index(es@);
        assert(gvs.take(0) =~= Seq::<GValue>::empty());
        assert(gentries_of(out@) =~= encode_elems(gvs.take(0), 0));
    }
    let n = es.len();
    let mut i: usize = 0;
    while i < n
        invariant
            n == es@.len(),
            gvs == gvalues_of(es@),
            gvs.len() == n,
            forall|k: int| 0 <= k < n ==> gvs[k] == gvalue_of(#[trigger] es@[k]),
            i <= n,
            gentries_of(out@) == encode_elems(gvs.take(i as int), 0),
        decreases n - i,
    {
        let child = encode_value(&es[i]);
        append_prefixed(&mut out, &Seg::Item(i), child);
        proof {
            lemma_encode_elems_push(gvs.take(i as int), gvs[i as int], 0);
            assert(gvs.take(i + 1) =~= gvs.take(i as int).push(gvs[i as int]));
            assert(gentries_of(out@) =~= encode_elems(gvs.take(i + 1), 0));
        }
        i = i + 1;
    }
    proof {
        assert(gvs.take(n as int) =~= gvs);
    }
    out
}

/// Emit the entries of record fields in declaration order, each under its
/// field-name segment.
fn encode_record_fields(fs: &Vec<crate::value::FieldVal>) -> (r: Vec<PathEntry>)
    ensures
        gentries_of(r@) == encode_fields(gfields_of(fs@)),
    decreases fs,
{
    let mut out: Vec<PathEntry> = Vec::new();
    let ghost gfs = gfields_of(fs@);
    proof {
        lemma_gfields_index(fs@);
        assert(gfs.take(0) =~= Seq::<GFieldVal>::empty());
        assert(gentries_of(out@) =~= encode_fields(gfs.take(0)));
    }
    let n = fs.len();
    let mut i: usize = 0;
    while i < n
        invariant
            n == fs@.len(),
            gfs == gfields_of(fs@),
            gfs.len() == n,
            forall|k: int| 0 <= k < n ==> gfs[k] == (GFieldVal {
                name: (#[trigger] fs@[k]).name@,
                value: gvalue_of(fs@[k].value),
            }),
            i <= n,
            gentries_of(out@) == encode_fields(gfs.take(i as int)),
        decreases n - i,
    {
        let child = encode_value(&fs[i].value);
        append_prefixed(&mut out, &Seg::Field(String::from_str(fs[i].name.as_str())), child);
        proof {
            lemma_encode_fields_push(gfs.take(i as int), gfs[i as int]);
            assert(gfs.take(i + 1) =~= gfs.take(i as int).push(gfs[i as int]));
            assert(gentries_of(out@) =~= encode_fields(gfs.take(i + 1)));
        }
        i = i + 1;
    }
    proof {
        assert(gfs.take(n as int) =~= gfs);
    }
    out
}

pub(crate) fn text_on() -> (r: String)
    ensures
        r@ == on_text(),
{
    let r = String::from_str("on");
    proof {
        reveal_strlit("on");
        assert(r@ =~= on_text());
    }
    r
}

pub(crate) fn text_off() -> (r: String)
    ensures
        r@ == off_text(),
{
    let r = String::from_str("off");
    proof {
        reveal_strlit("off");
        assert(r@ =~= off_text());
    }
    r
}

} // verus!
