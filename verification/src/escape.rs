//! The escaping direction of the catalog codec: raw text to the quoted,
//! escaped form embedded in a single catalog line.
//!
//! Carriage return and backslash are deliberately double-escaped relative to
//! newline, so that a catalog survives one naive unescape pass by generic text
//! tooling; the decoder in [`crate::decode`] undoes exactly this scheme.
use vstd::prelude::*;
use crate::chars::{chars_to_string, str_to_chars};
use crate::digits::hex_rep;

verus! {

/// A control character: a code point in the ranges the escaper must not emit
/// raw (the Unicode `Cc` category).
pub open spec fn is_ctl(c: char) -> bool {
    (c as u32) < 0x20 || (0x7F <= c as u32 && c as u32 <= 0x9F)
}

/// The escaped form of one character.
pub open spec fn esc_char(c: char) -> Seq<char> {
    if c == '"' {
        seq!['\\', '"']
    } else if c == '\n' {
        seq!['\\', 'n']
    } else if c == '\r' {
        seq!['\\', '\\', 'r']
    } else if c == '\\' {
        seq!['\\', '\\']
    } else if is_ctl(c) {
        seq!['\\', '\\', 'x', '{'] + hex_rep(c as u32 as nat) + seq!['}']
    } else {
        seq![c]
    }
}

/// The escaped form of a text, character by character.
pub open spec fn esc_body(s: Seq<char>) -> Seq<char>
    decreases s.len(),
{
    if s.len() == 0 {
        Seq::empty()
    } else {
        esc_body(s.drop_last()) + esc_char(s.last())
    }
}

/// The full escaped form: the escaped text wrapped in one leading and one
/// trailing quote character.
pub open spec fn escaped(s: Seq<char>) -> Seq<char> {
    seq!['"'] + esc_body(s) + seq!['"']
}

/// Extending the text extends the escaped body on the right.
pub proof fn lemma_esc_body_take(s: Seq<char>, i: int)
    requires
        0 <= i < s.len(),
    ensures
        esc_body(s.take(i + 1)) == esc_body(s.take(i)) + esc_char(s[i]),
{
    assert(s.take(i + 1).drop_last() =~= s.take(i));
    assert(s.take(i + 1).last() == s[i]);
}

/// Escape the characters of a text, appending to `out`.
pub(crate) fn push_escaped_body(out: &mut Vec<char>, s: &[char])
    ensures
        final(out)@ == old(out)@ + esc_body(s@),
{
    let mut i: usize = 0;
    while i < s.len()
        invariant
            0 <= i <= s@.len(),
            out@ == old(out)@ + esc_body(s@.take(i as int)),
        decreases s@.len() - i,
    {
        let c = s[i];
        proof {
            lemma_esc_body_take(s@, i as int);
        }
        if c == '"' {
            out.push('\\');
            out.push('"');
        } else if c == '\n' {
            out.push('\\');
            out.push('n');
        } else if c == '\r' {
            out.push('\\');
            out.push('\\');
            out.push('r');
        } else if c == '\\' {
            out.push('\\');
            out.push('\\');
        } else {
            proof {
                vstd::utf8::char_is_scalar(c);
            }
            let u = c as u32;
            if u < 0x20 || (0x7F <= u && u <= 0x9F) {
                out.push('\\');
                out.push('\\');
                out.push('x');
                out.push('{');
                crate::digits::push_hex_u32(out, u);
                out.push('}');
            } else {
                assert(!is_ctl(c));
                out.push(c);
            }
        }
        proof {
            assert(out@ =~= old(out)@ + esc_body(s@.take(i + 1)));
        }
        i += 1;
    }
    proof {
        assert(s@.take(s@.len() as int) =~= s@);
    }
}

/// Escape a text for embedding in one catalog line: the characters of the
/// result are exactly [`escaped`] of the characters of the input.
pub fn escape_string_for_gettext(text: &str) -> (r: String)
    ensures
        r@ == escaped(text@),
{
    let cs = str_to_chars(text);
    let mut out: Vec<char> = Vec::new();
    out.push('"');
    push_escaped_body(&mut out, cs.as_slice());
    out.push('"');
    proof {
        assert(out@ =~= escaped(text@));
    }
    chars_to_string(out.as_slice())
}

} // verus!
