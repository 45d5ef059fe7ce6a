//! Human-readable labels for field names.
//!
//! A `snake_case` field name is turned into a display label by replacing each
//! underscore with a space and capitalizing the first letter. The transform
//! is display-only; it plays no part in path addressing.

use vstd::prelude::*;

verus! {

/// ASCII uppercase of a character: lowercase ASCII letters map to their
/// uppercase counterpart, every other character is unchanged.
pub open spec fn spec_upper(c: char) -> char {
    match c {
        'a' => 'A',
        'b' => 'B',
        'c' => 'C',
        'd' => 'D',
        'e' => 'E',
        'f' => 'F',
        'g' => 'G',
        'h' => 'H',
        'i' => 'I',
        'j' => 'J',
        'k' => 'K',
        'l' => 'L',
        'm' => 'M',
        'n' => 'N',
        'o' => 'O',
        'p' => 'P',
        'q' => 'Q',
        'r' => 'R',
        's' => 'S',
        't' => 'T',
        'u' => 'U',
        'v' => 'V',
        'w' => 'W',
        'x' => 'X',
        'y' => 'Y',
        'z' => 'Z',
        _ => c,
    }
}

fn upper_char(c: char) -> (r: char)
    ensures
        r == spec_upper(c),
{
    match c {
        'a' => 'A',
        'b' => 'B',
        'c' => 'C',
        'd' => 'D',
        'e' => 'E',
        'f' => 'F',
        'g' => 'G',
        'h' => 'H',
        'i' => 'I',
        'j' => 'J',
        'k' => 'K',
        'l' => 'L',
        'm' => 'M',
        'n' => 'N',
        'o' => 'O',
        'p' => 'P',
        'q' => 'Q',
        'r' => 'R',
        's' => 'S',
        't' => 'T',
        'u' => 'U',
        'v' => 'V',
        'w' => 'W',
        'x' => 'X',
        'y' => 'Y',
        'z' => 'Z',
        _ => c,
    }
}

/// The label for the remainder `s` of a name, where `cap` says whether the
/// next character opens the label and must be capitalized.
pub open spec fn spec_label_from(s: Seq<char>, cap: bool) -> Seq<char>
    decreases s.len(),
{
    if s.len() == 0 {
        Seq::<char>::empty()
    } else if s[0] == '_' {
        seq![' '] + spec_label_from(s.drop_first(), false)
    } else if cap {
        seq![spec_upper(s[0])] + spec_label_from(s.drop_first(), false)
    } else {
        seq![s[0]] + spec_label_from(s.drop_first(), false)
    }
}

/// The display label of a field name: underscores become spaces and the
/// first letter is capitalized. The empty name labels as the empty string.
pub open spec fn spec_label(s: Seq<char>) -> Seq<char> {
    spec_label_from(s, true)
}

/// Derive the display label of a `snake_case` field name.
pub fn readable(name: &str) -> (r: String)
    ensures
        r@ == spec_label(name@),
{
    let n = name.unicode_len();
    let mut out = String::new();
    let mut cap = true;
    let mut i: usize = 0;
    proof {
        assert(name@.skip(0) =~= name@);
        assert(out@ + spec_label_from(name@, true) =~= spec_label_from(name@, true));
    }
    while i < n
        invariant
            n == name@.len(),
            i <= n,
            spec_label(name@) == out@ + spec_label_from(name@.skip(i as int), cap),
        decreases n - i,
    {
        let ghost old_out = out@;
        let ghost old_rest = name@.skip(i as int);
        let ghost old_cap = cap;
        proof {
            assert(name@.skip(i as int)[0] == name@[i as int]);
            assert(name@.skip(i as int).drop_first() =~= name@.skip(i + 1));
        }
        let c = name.get_char(i);
        if c == '_' {
            out.push(' ');
            cap = false;
        } else if cap {
            out.push(upper_char(c));
            cap = false;
        } else {
            out.push(c);
        }
        proof {
            assert(out@ =~= old_out + seq![spec_label_from(old_rest, old_cap)[0]]);
            assert(out@ + spec_label_from(name@.skip(i + 1), cap) =~= old_out
                + spec_label_from(old_rest, old_cap));
        }
        i = i + 1;
    }
    proof {
        assert(name@.skip(n as int) =~= Seq::<char>::empty());
        assert(out@ + Seq::<char>::empty() =~= out@);
    }
    out
}

/// Relies on `alloc::string::String::push`: appends exactly the given
/// character to the end of the string.
pub assume_specification[ String::push ](s: &mut String, c: char)
    ensures
        final(s)@ == old(s)@.push(c),
;

} // verus!
