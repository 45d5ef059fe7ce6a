//! The path grammar: the textual addressing convention shared by encoder and
//! decoder.
//!
//! A path is a sequence of segments — field names and bracketed indices —
//! rendered as a dot-joined string. An index is appended in bracket notation
//! directly to the segment it indexes into (`vector[2]`), and the rendered
//! name ends with a dot and a one-character type suffix: `b` for boolean,
//! `n` for numbers, `s` for text. `render_name` and `parse_name` are exact
//! inverses for every path the encoder produces.

use vstd::prelude::*;

use crate::text::{
    dec_digits, digit_value_usize, digits_val, is_digit, lemma_dec_digits_val,
    lemma_digits_val_prefix, push_usize_digits,
};

verus! {

broadcast use vstd::std_specs::vec::group_vec_axioms, vstd::seq::axiom_seq_index_decreases;

/// One path segment: a field name or a sequence index.
#[derive(Debug, PartialEq)]
pub enum Seg {
    /// A named child: a record field, a variant name, or one of the fixed
    /// markers `key` / `value` inside a table entry.
    Field(String),
    /// A positional child of a list, tuple or tuple variant.
    Item(usize),
}

/// Ghost twin of [`Seg`].
pub enum GSeg {
    Field(Seq<char>),
    Item(usize),
}

impl View for Seg {
    type V = GSeg;

    open spec fn view(&self) -> GSeg {
        match self {
            Seg::Field(name) => GSeg::Field(name@),
            Seg::Item(i) => GSeg::Item(*i),
        }
    }
}

/// The ghost twins of a sequence of segments.
pub open spec fn gsegs_of(path: Seq<Seg>) -> Seq<GSeg> {
    path.map_values(|s: Seg| s@)
}

/// The type suffix of a leaf entry: how its raw text must be parsed.
#[derive(Clone, Copy, PartialEq, Eq, Structural, Debug)]
pub enum Kind {
    /// Suffix `b`: a boolean.
    Bool,
    /// Suffix `n`: a number.
    Num,
    /// Suffix `s`: text (strings, characters, variant names).
    Text,
}

/// The suffix character of a kind.
pub open spec fn kind_char(k: Kind) -> char {
    match k {
        Kind::Bool => 'b',
        Kind::Num => 'n',
        Kind::Text => 's',
    }
}

/// The kind denoted by a suffix character, if any.
pub open spec fn kind_of_char(c: char) -> Option<Kind> {
    if c == 'b' {
        Some(Kind::Bool)
    } else if c == 'n' {
        Some(Kind::Num)
    } else if c == 's' {
        Some(Kind::Text)
    } else {
        None
    }
}

/// One leaf entry with a structured path: the decoder's working form.
#[derive(Debug, PartialEq)]
pub struct PathEntry {
    pub path: Vec<Seg>,
    pub kind: Kind,
    pub text: String,
}

/// Ghost twin of [`PathEntry`].
pub struct GEntry {
    pub path: Seq<GSeg>,
    pub kind: Kind,
    pub text: Seq<char>,
}

impl View for PathEntry {
    type V = GEntry;

    open spec fn view(&self) -> GEntry {
        GEntry { path: gsegs_of(self.path@), kind: self.kind, text: self.text@ }
    }
}

/// One leaf entry in wire form: the rendered path and the raw text.
#[derive(Debug, PartialEq)]
pub struct FlatEntry {
    pub name: String,
    pub text: String,
}

/// Ghost twin of [`FlatEntry`].
pub struct GFlatEntry {
    pub name: Seq<char>,
    pub text: Seq<char>,
}

impl View for FlatEntry {
    type V = GFlatEntry;

    open spec fn view(&self) -> GFlatEntry {
        GFlatEntry { name: self.name@, text: self.text@ }
    }
}

/// A well-formed segment: a field name is nonempty and contains neither the
/// separator `.` nor the index opener `[`.
pub open spec fn wf_gseg(s: GSeg) -> bool {
    match s {
        GSeg::Field(name) => name.len() > 0 && forall|i: int|
            0 <= i < name.len() ==> #[trigger] name[i] != '.' && name[i] != '[',
        GSeg::Item(_) => true,
    }
}

/// A well-formed path: every segment is well formed.
pub open spec fn wf_gsegs(path: Seq<GSeg>) -> bool {
    forall|i: int| 0 <= i < path.len() ==> wf_gseg(#[trigger] path[i])
}

/// The rendering of one segment; `first` says whether it opens the path
/// (a first field name takes no leading dot).
pub open spec fn render_seg(s: GSeg, first: bool) -> Seq<char> {
    match s {
        GSeg::Field(name) => if first {
            name
        } else {
            seq!['.'] + name
        },
        GSeg::Item(i) => seq!['['] + dec_digits(i as nat) + seq![']'],
    }
}

/// The rendering of a path's segments, `first` telling whether the leading
/// segment opens the whole path.
pub open spec fn render_from(path: Seq<GSeg>, first: bool) -> Seq<char>
    decreases path.len(),
{
    if path.len() == 0 {
        Seq::<char>::empty()
    } else {
        render_seg(path[0], first) + render_from(path.subrange(1, path.len() as int), false)
    }
}

/// The rendered wire name of a path with its type suffix.
pub open spec fn spec_render_name(path: Seq<GSeg>, kind: Kind) -> Seq<char> {
    render_from(path, true) + seq!['.', kind_char(kind)]
}

/// The length of the leading run of decimal digits.
pub open spec fn leading_digits(s: Seq<char>) -> int
    decreases s.len(),
{
    if s.len() > 0 && is_digit(s[0]) {
        1 + leading_digits(s.drop_first())
    } else {
        0
    }
}

/// The length of the leading run of field-name characters (anything but the
/// separator `.` and the index opener `[`).
pub open spec fn leading_name(s: Seq<char>) -> int
    decreases s.len(),
{
    if s.len() > 0 && s[0] != '.' && s[0] != '[' {
        1 + leading_name(s.drop_first())
    } else {
        0
    }
}

/// The parse of a rendered segment body, `first` telling whether the next
/// segment would open the path. Inverse of [`render_from`].
pub open spec fn parse_segs_from(body: Seq<char>, first: bool) -> Option<Seq<GSeg>>
    decreases body.len(),
{
    if body.len() == 0 {
        Some(Seq::<GSeg>::empty())
    } else if body[0] == '[' {
        let rest = body.subrange(1, body.len() as int);
        let r = leading_digits(rest);
        if r >= 1 && 1 + r < body.len() && body[1 + r] == ']' && digits_val(rest.take(r))
            <= usize::MAX {
            match parse_segs_from(body.subrange(2 + r, body.len() as int), false) {
                Some(p) => Some(seq![GSeg::Item(digits_val(rest.take(r)) as usize)] + p),
                None => None,
            }
        } else {
            None
        }
    } else if !first && body[0] != '.' {
        None
    } else {
        let b2 = if first {
            body
        } else {
            body.subrange(1, body.len() as int)
        };
        let k = leading_name(b2);
        if 1 <= k <= b2.len() {
            match parse_segs_from(b2.subrange(k, b2.len() as int), false) {
                Some(p) => Some(seq![GSeg::Field(b2.take(k))] + p),
                None => None,
            }
        } else {
            None
        }
    }
}

/// The parse of a wire name into a path and a kind. Inverse of
/// [`spec_render_name`].
pub open spec fn spec_parse_name(s: Seq<char>) -> Option<(Seq<GSeg>, Kind)> {
    if s.len() >= 2 && s[s.len() - 2] == '.' && kind_of_char(s[s.len() - 1]) is Some {
        match parse_segs_from(s.subrange(0, s.len() - 2), true) {
            Some(p) => Some((p, kind_of_char(s[s.len() - 1]).unwrap())),
            None => None,
        }
    } else {
        None
    }
}

/// Rendering a path extended by one segment appends that segment's rendering.
pub proof fn lemma_render_from_push(path: Seq<GSeg>, s: GSeg, first: bool)
    ensures
        render_from(path.push(s), first) == render_from(path, first) + render_seg(
            s,
            first && path.len() == 0,
        ),
    decreases path.len(),
{
    if path.len() == 0 {
        assert(path.push(s)[0] == s);
        assert(path.push(s).subrange(1, 1) =~= Seq::<GSeg>::empty());
        assert(render_from(Seq::<GSeg>::empty(), false) == Seq::<char>::empty());
        assert(render_from(path.push(s), first) == render_seg(s, first) + Seq::<char>::empty());
        assert(render_seg(s, first) + Seq::<char>::empty() =~= render_seg(s, first));
        assert(render_from(path, first) == Seq::<char>::empty());
        assert(render_from(path, first) + render_seg(s, first) =~= render_seg(s, first));
    } else {
        lemma_render_from_push(path.subrange(1, path.len() as int), s, false);
        assert(path.push(s).subrange(1, path.len() + 1 as int) =~= path.subrange(
            1,
            path.len() as int,
        ).push(s));
        assert(path.push(s)[0] == path[0]);
        assert(render_from(path.push(s), first) =~= render_from(path, first) + render_seg(
            s,
            false,
        ));
    }
}

fn push_kind_char(out: &mut String, k: Kind)
    ensures
        final(out)@ == old(out)@.push(kind_char(k)),
{
    match k {
        Kind::Bool => out.push('b'),
        Kind::Num => out.push('n'),
        Kind::Text => out.push('s'),
    }
}

/// Render a structured path and kind as its wire name.
pub fn render_name(path: &Vec<Seg>, kind: Kind) -> (r: String)
    ensures
        r@ == spec_render_name(gsegs_of(path@), kind),
{
    let ghost gpath = gsegs_of(path@);
    let mut out = String::new();
    let n = path.len();
    let mut i: usize = 0;
    proof {
        assert(gpath.take(0) =~= Seq::<GSeg>::empty());
        assert(out@ =~= render_from(gpath.take(0), true));
    }
    while i < n
        invariant
            n == path@.len(),
            gpath == gsegs_of(path@),
            gpath.len() == n,
            i <= n,
            out@ == render_from(gpath.take(i as int), true),
        decreases n - i,
    {
        let ghost pre = out@;
        match &path[i] {
            Seg::Field(name) => {
                if i > 0 {
                    out.push('.');
                }
                out.append(name.as_str());
            },
            Seg::Item(idx) => {
                out.push('[');
                push_usize_digits(&mut out, *idx);
                out.push(']');
            },
        }
        proof {
            assert(gpath[i as int] == path@[i as int]@);
            assert(out@ =~= pre + render_seg(gpath[i as int], i == 0));
            lemma_render_from_push(gpath.take(i as int), gpath[i as int], true);
            assert(gpath.take(i + 1) =~= gpath.take(i as int).push(gpath[i as int]));
        }
        i = i + 1;
    }
    proof {
        assert(gpath.take(n as int) =~= gpath);
    }
    out.push('.');
    push_kind_char(&mut out, kind);
    proof {
        assert(out@ =~= render_from(gpath, true) + seq!['.', kind_char(kind)]);
    }
    out
}


/// Find the end of the run of digit characters starting at `start`, and its
/// numeric value where it fits in a `usize`.
fn digit_run(s: &str, start: usize) -> (r: (usize, Option<usize>))
    requires
        start <= s@.len(),
    ensures
        start <= r.0 <= s@.len(),
        leading_digits(s@.subrange(start as int, s@.len() as int)) == r.0 - start,
        match r.1 {
            Some(v) => v as nat == digits_val(s@.subrange(start as int, r.0 as int)),
            None => digits_val(s@.subrange(start as int, r.0 as int)) > usize::MAX,
        },
{
    let n = s.unicode_len();
    let ghost tail = s@.subrange(start as int, n as int);
    let mut j: usize = start;
    let mut val: usize = 0;
    let mut over = false;
    let mut stop = false;
    while !stop
        invariant
            n == s@.len(),
            start <= j <= n,
            tail == s@.subrange(start as int, n as int),
            forall|i: int| start <= i < j ==> is_digit(#[trigger] s@[i]),
            stop ==> j == n || !is_digit(s@[j as int]),
            !over ==> val as nat == digits_val(s@.subrange(start as int, j as int)),
            over ==> digits_val(s@.subrange(start as int, j as int)) > usize::MAX,
        decreases n - j + (if stop { 0int } else { 1int }),
    {
        if j < n {
            let c = s.get_char(j);
            match digit_value_usize(c) {
                Some(d) => {
                    let ghost pre = s@.subrange(start as int, j as int);
                    proof {
                        assert(s@.subrange(start as int, j + 1).drop_last() =~= pre);
                        assert(s@.subrange(start as int, j + 1).last() == s@[j as int]);
                    }
                    if over {
                        proof {
                            assert(digits_val(s@.subrange(start as int, j + 1)) >= digits_val(pre)
                                * 10);
                        }
                    } else if val > (usize::MAX - d) / 10 {
                        proof {
                            assert(val as nat * 10 + d > usize::MAX) by {
                                vstd::arithmetic::div_mod::lemma_fundamental_div_mod(
                                    (usize::MAX - d) as int,
                                    10,
                                );
                            }
                        }
                        over = true;
                    } else {
                        proof {
                            assert(val as nat * 10 + d <= usize::MAX) by {
                                vstd::arithmetic::div_mod::lemma_fundamental_div_mod(
                                    (usize::MAX - d) as int,
                                    10,
                                );
                            }
                        }
                        val = val * 10 + d;
                    }
                    j = j + 1;
                },
                None => {
                    stop = true;
                },
            }
        } else {
            stop = true;
        }
    }
    proof {
        let run = s@.subrange(start as int, n as int);
        assert forall|i: int| 0 <= i < j - start implies is_digit(#[trigger] run[i]) by {
            assert(run[i] == s@[start + i]);
        }
        if (j as int) < n {
            assert(run[j - start] == s@[j as int]);
        }
        lemma_leading_digits_exact(run, j - start);
    }
    (j, if over {
        None
    } else {
        Some(val)
    })
}

/// Find the end of the run of field-name characters starting at `start`.
fn name_run(s: &str, start: usize) -> (j: usize)
    requires
        start <= s@.len(),
    ensures
        start <= j <= s@.len(),
        leading_name(s@.subrange(start as int, s@.len() as int)) == j - start,
{
    let n = s.unicode_len();
    let mut j: usize = start;
    let mut stop = false;
    while !stop
        invariant
            n == s@.len(),
            start <= j <= n,
            forall|i: int| start <= i < j ==> #[trigger] s@[i] != '.' && s@[i] != '[',
            stop ==> j == n || s@[j as int] == '.' || s@[j as int] == '[',
        decreases n - j + (if stop { 0int } else { 1int }),
    {
        if j < n {
            let c = s.get_char(j);
            if c == '.' || c == '[' {
                stop = true;
            } else {
                j = j + 1;
            }
        } else {
            stop = true;
        }
    }
    proof {
        let run = s@.subrange(start as int, n as int);
        assert forall|i: int| 0 <= i < j - start implies #[trigger] run[i] != '.' && run[i] != '['
            by {
            assert(run[i] == s@[start + i]);
        }
        if (j as int) < n {
            assert(run[j - start] == s@[j as int]);
        }
        lemma_leading_name_exact(run, j - start);
    }
    j
}

/// A digit run is exactly `m` long when the first `m` characters are digits
/// and the next one (if any) is not.
pub proof fn lemma_leading_digits_exact(s: Seq<char>, m: int)
    requires
        0 <= m <= s.len(),
        forall|i: int| 0 <= i < m ==> is_digit(#[trigger] s[i]),
        m == s.len() || !is_digit(s[m]),
    ensures
        leading_digits(s) == m,
    decreases s.len(),
{
    if m == 0 {
    } else {
        assert(is_digit(s[0]));
        let t = s.drop_first();
        assert forall|i: int| 0 <= i < m - 1 implies is_digit(#[trigger] t[i]) by {
            assert(t[i] == s[i + 1]);
        }
        if m < s.len() {
            assert(t[m - 1] == s[m]);
        }
        lemma_leading_digits_exact(t, m - 1);
    }
}

/// A name run is exactly `m` long when the first `m` characters are neither
/// `.` nor `[` and the next one (if any) is one of them.
pub proof fn lemma_leading_name_exact(s: Seq<char>, m: int)
    requires
        0 <= m <= s.len(),
        forall|i: int| 0 <= i < m ==> #[trigger] s[i] != '.' && s[i] != '[',
        m == s.len() || s[m] == '.' || s[m] == '[',
    ensures
        leading_name(s) == m,
    decreases s.len(),
{
    if m == 0 {
    } else {
        let t = s.drop_first();
        assert forall|i: int| 0 <= i < m - 1 implies #[trigger] t[i] != '.' && t[i] != '[' by {
            assert(t[i] == s[i + 1]);
        }
        if m < s.len() {
            assert(t[m - 1] == s[m]);
        }
        lemma_leading_name_exact(t, m - 1);
    }
}

/// Prepending a segment to a parsed path is prepending its ghost twin.
pub proof fn lemma_gsegs_insert0(p: Seq<Seg>, s: Seg)
    ensures
        gsegs_of(p.insert(0, s)) =~= seq![s@] + gsegs_of(p),
{
    let lhs = gsegs_of(p.insert(0, s));
    let rhs = seq![s@] + gsegs_of(p);
    assert forall|i: int| 0 <= i < lhs.len() implies lhs[i] == rhs[i] by {
        if i == 0 {
            assert(p.insert(0, s)[0] == s);
        } else {
            assert(p.insert(0, s)[i] == p[i - 1]);
        }
    }
}

/// Parse a rendered segment body into structured segments.
fn parse_segs(s: &str, first: bool) -> (r: Option<Vec<Seg>>)
    ensures
        match r {
            Some(p) => parse_segs_from(s@, first) == Some(gsegs_of(p@)),
            None => parse_segs_from(s@, first) is None,
        },
    decreases s@.len(),
{
    let n = s.unicode_len();
    if n == 0 {
        let empty: Vec<Seg> = Vec::new();
        proof {
            assert(gsegs_of(empty@) =~= Seq::<GSeg>::empty());
        }
        return Some(empty);
    }
    let c0 = s.get_char(0);
    if c0 == '[' {
        let ghost rest = s@.subrange(1, n as int);
        let (j, v) = digit_run(s, 1);
        proof {
            assert(rest =~= s@.subrange(1, n as int));
            assert(leading_digits(rest) == j - 1);
        }
        if j == 1 || j >= n {
            return None;
        }
        if s.get_char(j) != ']' {
            return None;
        }
        proof {
            assert(rest.take(j - 1) =~= s@.subrange(1, j as int));
        }
        match v {
            None => {
                proof {
                    assert(digits_val(rest.take(j - 1)) > usize::MAX);
                }
                None
            },
            Some(val) => {
                let tail = s.substring_char(j + 1, n);
                proof {
                    assert(tail@ =~= s@.subrange(j + 1 as int, n as int));
                    assert(s@.subrange(2 + (j - 1), n as int) =~= tail@);
                }
                match parse_segs(tail, false) {
                    None => None,
                    Some(mut p) => {
                        proof {
                            lemma_gsegs_insert0(p@, Seg::Item(val));
                        }
                        p.insert(0, Seg::Item(val));
                        Some(p)
                    },
                }
            },
        }
    } else {
        let start: usize = if first {
            0
        } else {
            if c0 != '.' {
                return None;
            }
            1
        };
        let ghost b2 = s@.subrange(start as int, n as int);
        proof {
            if first {
                assert(b2 =~= s@);
            }
        }
        let j = name_run(s, start);
        if j == start {
            return None;
        }
        let name = String::from_str(s.substring_char(start, j));
        let tail = s.substring_char(j, n);
        proof {
            assert(name@ =~= b2.take(j - start));
            assert(tail@ =~= b2.subrange(j - start, b2.len() as int));
        }
        match parse_segs(tail, false) {
            None => None,
            Some(mut p) => {
                proof {
                    lemma_gsegs_insert0(p@, Seg::Field(name));
                }
                p.insert(0, Seg::Field(name));
                Some(p)
            },
        }
    }
}

/// Parse a wire name into its structured path and kind.
pub fn parse_name(s: &str) -> (r: Option<(Vec<Seg>, Kind)>)
    ensures
        match r {
            Some(pk) => spec_parse_name(s@) == Some((gsegs_of(pk.0@), pk.1)),
            None => spec_parse_name(s@) is None,
        },
{
    let n = s.unicode_len();
    if n < 2 {
        return None;
    }
    if s.get_char(n - 2) != '.' {
        return None;
    }
    let kc = s.get_char(n - 1);
    let kind = if kc == 'b' {
        Kind::Bool
    } else if kc == 'n' {
        Kind::Num
    } else if kc == 's' {
        Kind::Text
    } else {
        return None;
    };
    let body = s.substring_char(0, n - 2);
    proof {
        assert(body@ =~= s@.subrange(0, n - 2));
    }
    match parse_segs(body, true) {
        Some(p) => Some((p, kind)),
        None => None,
    }
}

/// After any nonempty path remainder, the rendering continues with a dot or
/// an opening bracket, never with a name character.
proof fn lemma_render_follow(path: Seq<GSeg>)
    requires
        path.len() > 0,
    ensures
        render_from(path, false).len() > 0,
        render_from(path, false)[0] == '.' || render_from(path, false)[0] == '[',
{
    let r = render_seg(path[0], false);
    match path[0] {
        GSeg::Field(name) => {
            assert(r[0] == '.');
        },
        GSeg::Item(i) => {
            assert(r[0] == '[');
        },
    }
    assert(render_from(path, false)[0] == r[0]);
}

/// Parsing inverts rendering on the segment bodies of well-formed paths.
pub proof fn lemma_parse_render_from(path: Seq<GSeg>, first: bool)
    requires
        wf_gsegs(path),
    ensures
        parse_segs_from(render_from(path, first), first) == Some(path),
    decreases path.len(),
{
    if path.len() == 0 {
        assert(render_from(path, first) =~= Seq::<char>::empty());
    } else {
        let tail = path.subrange(1, path.len() as int);
        let t = render_from(tail, false);
        let body = render_from(path, first);
        assert(wf_gseg(path[0]));
        assert(wf_gsegs(tail)) by {
            assert(forall|i: int| 0 <= i < tail.len() ==> #[trigger] tail[i] == path[i + 1]);
        }
        lemma_parse_render_from(tail, false);
        if tail.len() > 0 {
            lemma_render_follow(tail);
        }
        match path[0] {
            GSeg::Field(name) => {
                let b2 = if first {
                    body
                } else {
                    body.subrange(1, body.len() as int)
                };
                assert(b2 =~= name + t);
                assert(body[0] == (render_seg(path[0], first) + t)[0]);
                if !first {
                    assert(body[0] == '.');
                } else {
                    assert(body[0] == name[0]);
                    assert(name[0] != '[');
                }
                assert forall|i: int| 0 <= i < name.len() implies #[trigger] b2[i] != '.'
                    && b2[i] != '[' by {
                    assert(b2[i] == name[i]);
                }
                if name.len() < b2.len() {
                    assert(b2[name.len() as int] == t[0]);
                }
                lemma_leading_name_exact(b2, name.len() as int);
                assert(b2.take(name.len() as int) =~= name);
                assert(b2.subrange(name.len() as int, b2.len() as int) =~= t);
                assert(seq![path[0]] + tail =~= path);
            },
            GSeg::Item(idx) => {
                let dd = dec_digits(idx as nat);
                lemma_dec_digits_val(idx as nat);
                assert(body[0] == '[');
                let rest = body.subrange(1, body.len() as int);
                assert(rest =~= dd + (seq![']'] + t));
                assert forall|i: int| 0 <= i < dd.len() implies is_digit(#[trigger] rest[i]) by {
                    assert(rest[i] == dd[i]);
                }
                assert(rest[dd.len() as int] == ']');
                lemma_leading_digits_exact(rest, dd.len() as int);
                let r = dd.len() as int;
                assert(rest.take(r) =~= dd);
                assert(digits_val(dd) == idx as nat);
                assert(body[1 + r] == rest[r]);
                assert(body.subrange(2 + r, body.len() as int) =~= t);
                assert(seq![path[0]] + tail =~= path);
            },
        }
    }
}

/// Parsing a rendered wire name gives back exactly the path and kind: the
/// grammar's render and parse are inverses on well-formed paths.
pub proof fn lemma_parse_render_name(path: Seq<GSeg>, kind: Kind)
    requires
        wf_gsegs(path),
    ensures
        spec_parse_name(spec_render_name(path, kind)) == Some((path, kind)),
{
    let body = render_from(path, true);
    let s = spec_render_name(path, kind);
    assert(s.len() == body.len() + 2);
    assert(s[s.len() - 2] == '.');
    assert(s[s.len() - 1] == kind_char(kind));
    assert(kind_of_char(kind_char(kind)) == Some(kind));
    assert(s.subrange(0, s.len() - 2) =~= body);
    lemma_parse_render_from(path, true);
}

} // verus!
