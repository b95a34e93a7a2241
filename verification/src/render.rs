//! Text helpers for the graph-visualization export.
//!
//! The label text of graph nodes and edges must escape the characters
//! that delimit record shapes in the digraph format.

use vstd::prelude::*;

verus! {

/// Relies on `String::push`: appends the given character to the end of
/// the string.
pub assume_specification[ String::push ](s: &mut String, ch: char)
    ensures
        final(s)@ == old(s)@.push(ch),
;

/// Characters that delimit record labels and must be escaped.
pub open spec fn spec_needs_escape(c: char) -> bool {
    c == '{' || c == '}' || c == '<' || c == '>' || c == '"'
}

/// The escaped form of one character.
pub open spec fn spec_escape_char(c: char) -> Seq<char> {
    if spec_needs_escape(c) {
        seq!['\\', c]
    } else {
        seq![c]
    }
}

/// The escaped form of a string: every delimiter preceded by a
/// backslash.
pub open spec fn spec_escaped(s: Seq<char>) -> Seq<char>
    decreases s.len(),
{
    if s.len() == 0 {
        Seq::empty()
    } else {
        spec_escape_char(s[0]) + spec_escaped(s.skip(1))
    }
}

proof fn lemma_escaped_push(s: Seq<char>, c: char)
    ensures
        spec_escaped(s.push(c)) == spec_escaped(s) + spec_escape_char(c),
    decreases s.len(),
{
    if s.len() == 0 {
        assert(s.push(c)[0] == c);
        assert(s.push(c).skip(1) =~= Seq::<char>::empty());
        assert(spec_escaped(s.push(c)) == spec_escape_char(c) + spec_escaped(Seq::empty()));
        assert(spec_escape_char(c) + Seq::<char>::empty() =~= spec_escape_char(c));
        assert(spec_escaped(s) + spec_escape_char(c) =~= spec_escape_char(c));
    } else {
        assert(s.push(c)[0] == s[0]);
        assert(s.push(c).skip(1) =~= s.skip(1).push(c));
        lemma_escaped_push(s.skip(1), c);
        assert(spec_escape_char(s[0]) + (spec_escaped(s.skip(1)) + spec_escape_char(c))
            =~= (spec_escape_char(s[0]) + spec_escaped(s.skip(1))) + spec_escape_char(c));
    }
}

/// Escape the label delimiters of a string for the digraph export.
#[verifier::loop_isolation(false)]
pub fn escaped_string(s: String) -> (r: String)
    ensures
        r@ == spec_escaped(s@),
{
    let n = s.as_str().unicode_len();
    let mut r = String::new();
    let mut i: usize = 0;
    while i < n
        invariant
            n == s@.len(),
            i <= n,
            r@ == spec_escaped(s@.subrange(0, i as int)),
        decreases n - i,
    {
        let c = s.as_str().get_char(i);
        if c == '{' || c == '}' || c == '<' || c == '>' || c == '"' {
            r.push('\\');
            r.push(c);
        } else {
            r.push(c);
        }
        proof {
            assert(s@.subrange(0, i + 1) =~= s@.subrange(0, i as int).push(s@[i as int]));
            lemma_escaped_push(s@.subrange(0, i as int), s@[i as int]);
            assert(r@ =~= spec_escaped(s@.subrange(0, i as int)) + spec_escape_char(s@[i as int]));
        }
        i = i + 1;
    }
    proof {
        assert(s@.subrange(0, n as int) =~= s@);
    }
    r
}

} // verus!
