//! The unescaping direction of the catalog codec: one catalog line is fed
//! through a character-by-character state machine that tracks the quoted span
//! and the pending escape state, and emits the raw characters.
use vstd::prelude::*;
use crate::chars::{char_from_u32, is_scalar_value};
use crate::digits::{all_hex_digits, hex_val, is_hex_digit, parse_u32_hex};

verus! {

/// The pending escape state of the decoder.
#[derive(Clone, Copy, PartialEq, Eq, Structural)]
pub enum Esc {
    /// No escape is pending.
    Plain,
    /// A backslash was read; the next character selects the escape.
    NextEscaped,
    /// A double backslash was read; `x` opens a coded character, `r` is a
    /// carriage return, anything else re-reads the character after a literal
    /// backslash.
    SecondEscaped,
    /// `\\x` was read; only `{` may follow.
    WillBeEscaped,
    /// Inside `\x{...}`: hexadecimal digits accumulate until `}`.
    ReadingNumber,
}

/// The decoder state: whether a quoted span is open, the pending escape, and
/// the digits accumulated inside a `\x{...}` span.
#[verifier::ext_equal]
pub struct DecSt {
    pub inside: bool,
    pub esc: Esc,
    pub digits: Seq<char>,
}

/// The state before any character of a line: outside any quoted span, no
/// pending escape.
pub open spec fn dec_init() -> DecSt {
    DecSt { inside: false, esc: Esc::Plain, digits: Seq::empty() }
}

/// The effect of one character: successor state, emitted characters, and
/// whether the character is a fatal malformed escape.
#[verifier::ext_equal]
pub struct DecStep {
    pub st: DecSt,
    pub out: Seq<char>,
    pub fatal: bool,
}

/// One step of the decoder.
pub open spec fn dec_step(st: DecSt, c: char) -> DecStep
    decreases (if st.esc is SecondEscaped { 1int } else { 0int }),
{
    match st.esc {
        Esc::SecondEscaped => if c == 'x' {
            DecStep { st: DecSt { esc: Esc::WillBeEscaped, ..st }, out: Seq::empty(), fatal: false }
        } else if c == 'r' {
            DecStep { st: DecSt { esc: Esc::Plain, ..st }, out: seq!['\r'], fatal: false }
        } else {
            // A literal backslash, then the character is re-read as fresh.
            let r = dec_step(DecSt { esc: Esc::Plain, ..st }, c);
            DecStep { st: r.st, out: seq!['\\'] + r.out, fatal: r.fatal }
        },
        Esc::NextEscaped => if c == 'n' {
            DecStep { st: DecSt { esc: Esc::Plain, ..st }, out: seq!['\n'], fatal: false }
        } else if c == 'r' {
            DecStep { st: DecSt { esc: Esc::Plain, ..st }, out: seq!['\r'], fatal: false }
        } else if c == '\\' {
            DecStep { st: DecSt { esc: Esc::SecondEscaped, ..st }, out: Seq::empty(), fatal: false }
        } else {
            DecStep { st: DecSt { esc: Esc::Plain, ..st }, out: seq![c], fatal: false }
        },
        Esc::WillBeEscaped => if c == '{' {
            DecStep {
                st: DecSt { esc: Esc::ReadingNumber, digits: Seq::empty(), ..st },
                out: Seq::empty(),
                fatal: false,
            }
        } else {
            DecStep { st, out: Seq::empty(), fatal: true }
        },
        Esc::ReadingNumber => if c == '}' {
            if st.digits.len() == 0 || hex_val(st.digits) > u32::MAX
                || !is_scalar_value(hex_val(st.digits) as u32) {
                DecStep { st, out: Seq::empty(), fatal: true }
            } else {
                DecStep {
                    st: DecSt { esc: Esc::Plain, digits: Seq::empty(), ..st },
                    out: seq![(hex_val(st.digits) as u32) as char],
                    fatal: false,
                }
            }
        } else if is_hex_digit(c) {
            DecStep {
                st: DecSt { digits: st.digits.push(c), ..st },
                out: Seq::empty(),
                fatal: false,
            }
        } else {
            DecStep { st, out: Seq::empty(), fatal: true }
        },
        Esc::Plain => if c == '"' {
            DecStep { st: DecSt { inside: !st.inside, ..st }, out: Seq::empty(), fatal: false }
        } else if st.inside && c == '\\' {
            DecStep { st: DecSt { esc: Esc::NextEscaped, ..st }, out: Seq::empty(), fatal: false }
        } else if st.inside {
            DecStep { st, out: seq![c], fatal: false }
        } else {
            DecStep { st, out: Seq::empty(), fatal: false }
        },
    }
}

/// The decoder run over a character sequence: the accumulated output, the end
/// state, and whether a fatal step was hit (processing stops there).
#[verifier::ext_equal]
pub struct DecRun {
    pub st: DecSt,
    pub out: Seq<char>,
    pub fatal: bool,
}

pub open spec fn dec_run_from(st: DecSt, s: Seq<char>) -> DecRun
    decreases s.len(),
{
    if s.len() == 0 {
        DecRun { st, out: Seq::empty(), fatal: false }
    } else {
        let fst = dec_step(st, s[0]);
        if fst.fatal {
            DecRun { st: fst.st, out: fst.out, fatal: true }
        } else {
            let rest = dec_run_from(fst.st, s.skip(1));
            DecRun { st: rest.st, out: fst.out + rest.out, fatal: rest.fatal }
        }
    }
}

/// Runs compose over concatenation as long as the first part is not fatal.
pub proof fn lemma_dec_run_append(st: DecSt, a: Seq<char>, b: Seq<char>)
    requires
        !dec_run_from(st, a).fatal,
    ensures
        ({
            let ra = dec_run_from(st, a);
            let rb = dec_run_from(ra.st, b);
            dec_run_from(st, a + b) == (DecRun { st: rb.st, out: ra.out + rb.out, fatal: rb.fatal })
        }),
    decreases a.len(),
{
    let ra = dec_run_from(st, a);
    let rb = dec_run_from(ra.st, b);
    if a.len() == 0 {
        assert(a + b =~= b);
        assert(ra.out + rb.out =~= rb.out);
    } else {
        let fst = dec_step(st, a[0]);
        assert((a + b)[0] == a[0]);
        assert((a + b).skip(1) =~= a.skip(1) + b);
        lemma_dec_run_append(fst.st, a.skip(1), b);
        let ra1 = dec_run_from(fst.st, a.skip(1));
        let rb1 = dec_run_from(ra1.st, b);
        assert(fst.out + (ra1.out + rb1.out) =~= (fst.out + ra1.out) + rb1.out);
    }
}

/// A fatal prefix makes the whole run fatal.
pub proof fn lemma_dec_run_fatal_append(st: DecSt, a: Seq<char>, b: Seq<char>)
    requires
        dec_run_from(st, a).fatal,
    ensures
        dec_run_from(st, a + b).fatal,
    decreases a.len(),
{
    if a.len() == 0 {
    } else {
        let fst = dec_step(st, a[0]);
        assert((a + b)[0] == a[0]);
        assert((a + b).skip(1) =~= a.skip(1) + b);
        if !fst.fatal {
            lemma_dec_run_fatal_append(fst.st, a.skip(1), b);
        }
    }
}

/// What one line decodes to, with the end-of-line resolution: a pending double
/// backslash resolves to a literal backslash; a still-open quoted span and a
/// still-pending escape are reported for warnings.
#[verifier::ext_equal]
pub struct LineDecode {
    pub out: Seq<char>,
    pub unclosed: bool,
    pub unfinished: bool,
    pub fatal: bool,
}

pub open spec fn decode_line(s: Seq<char>) -> LineDecode {
    let r = dec_run_from(dec_init(), s);
    LineDecode {
        out: r.out + if r.st.esc is SecondEscaped {
            seq!['\\']
        } else {
            Seq::empty()
        },
        unclosed: r.st.inside,
        unfinished: r.st.esc is NextEscaped || r.st.esc is WillBeEscaped
            || r.st.esc is ReadingNumber,
        fatal: r.fatal,
    }
}

/// Decode one line into `acc`. On success, reports whether the line ended with
/// an unclosed quoted span and whether an escape was left pending; a malformed
/// escape is fatal and leaves `acc` unspecified.
pub(crate) fn feed_line(acc: &mut Vec<char>, line: &[char]) -> (r: Result<(bool, bool), ()>)
    ensures
        ({
            let d = decode_line(line@);
            match r {
                Ok((unclosed, unfinished)) => !d.fatal && final(acc)@ == old(acc)@ + d.out
                    && unclosed == d.unclosed && unfinished == d.unfinished,
                Err(()) => d.fatal,
            }
        }),
{
    let mut inside: bool = false;
    let mut esc: Esc = Esc::Plain;
    let mut digits: Vec<char> = Vec::new();
    let mut i: usize = 0;
    proof {
        assert(line@.take(0) =~= Seq::<char>::empty());
    }
    while i < line.len()
        invariant
            0 <= i <= line@.len(),
            ({
                let run = dec_run_from(dec_init(), line@.take(i as int));
                !run.fatal && run.st == (DecSt { inside, esc, digits: digits@ }) && acc@ == old(
                    acc,
                )@ + run.out
            }),
            all_hex_digits(digits@),
        decreases line@.len() - i,
    {
        let ghost pre_run = dec_run_from(dec_init(), line@.take(i as int));
        let ghost pre = DecSt { inside, esc, digits: digits@ };
        let c = line[i];
        proof {
            assert(seq![c][0] == c);
            assert(seq![c].skip(1) =~= Seq::<char>::empty());
            lemma_dec_run_append(dec_init(), line@.take(i as int), seq![c]);
            assert(line@.take(i as int) + seq![c] =~= line@.take(i + 1));
            reveal_with_fuel(dec_step, 2);
            if !dec_step(pre, c).fatal {
                reveal_with_fuel(dec_run_from, 2);
                assert(dec_run_from(pre, seq![c]).st == dec_step(pre, c).st);
                assert(dec_run_from(pre, seq![c]).out =~= dec_step(pre, c).out);
                assert(!dec_run_from(pre, seq![c]).fatal);
            } else {
                reveal_with_fuel(dec_run_from, 2);
                assert(dec_run_from(pre, seq![c]).fatal);
                assert(dec_run_from(dec_init(), line@.take(i + 1)).fatal);
                lemma_dec_run_fatal_append(dec_init(), line@.take(i + 1), line@.skip(i + 1));
                assert(line@.take(i + 1) + line@.skip(i + 1) =~= line@);
                assert(decode_line(line@).fatal);
            }
        }
        // One transcription of `dec_step`, with the double-backslash re-read
        // unfolded into the second branch set.
        let mut cur = c;
        let mut reread = false;
        match esc {
            Esc::SecondEscaped => {
                if cur == 'x' {
                    esc = Esc::WillBeEscaped;
                } else if cur == 'r' {
                    esc = Esc::Plain;
                    acc.push('\r');
                } else {
                    esc = Esc::Plain;
                    acc.push('\\');
                    reread = true;
                }
            },
            _ => {
                reread = true;
            },
        }
        if reread {
            match esc {
                Esc::NextEscaped => {
                    if cur == 'n' {
                        esc = Esc::Plain;
                        acc.push('\n');
                    } else if cur == 'r' {
                        esc = Esc::Plain;
                        acc.push('\r');
                    } else if cur == '\\' {
                        esc = Esc::SecondEscaped;
                    } else {
                        esc = Esc::Plain;
                        acc.push(cur);
                    }
                },
                Esc::WillBeEscaped => {
                    if cur == '{' {
                        esc = Esc::ReadingNumber;
                        digits = Vec::new();
                    } else {
                        return Err(());
                    }
                },
                Esc::ReadingNumber => {
                    if cur == '}' {
                        match parse_u32_hex(digits.as_slice()) {
                            Some(v) => match char_from_u32(v) {
                                Some(ch) => {
                                    proof {
                                        vstd::utf8::char_u32_cast(
                                            ch,
                                            (hex_val(digits@) as u32),
                                        );
                                    }
                                    esc = Esc::Plain;
                                    digits = Vec::new();
                                    acc.push(ch);
                                },
                                None => {
                                    return Err(());
                                },
                            },
                            None => {
                                return Err(());
                            },
                        }
                    } else if ('0' <= cur && cur <= '9') || ('a' <= cur && cur <= 'f') || ('A'
                        <= cur && cur <= 'F') {
                        digits.push(cur);
                    } else {
                        assert(!is_hex_digit(cur));
                        return Err(());
                    }
                },
                Esc::Plain | Esc::SecondEscaped => {
                    if cur == '"' {
                        inside = !inside;
                    } else if inside && cur == '\\' {
                        esc = Esc::NextEscaped;
                    } else if inside {
                        acc.push(cur);
                    }
                },
            }
        }
        proof {
            reveal_with_fuel(dec_step, 2);
            let step = dec_step(pre, c);
            assert(!step.fatal);
            assert(step.st == (DecSt { inside, esc, digits: digits@ }));
            assert(acc@ =~= old(acc)@ + pre_run.out + step.out);
            assert(acc@ =~= old(acc)@ + (pre_run.out + step.out));
            assert(dec_run_from(dec_init(), line@.take(i + 1)).out =~= pre_run.out + step.out);
        }
        i += 1;
    }
    proof {
        assert(line@.take(line@.len() as int) =~= line@);
    }
    let unfinished: bool;
    match esc {
        Esc::SecondEscaped => {
            acc.push('\\');
            unfinished = false;
            proof {
                assert(acc@ =~= old(acc)@ + decode_line(line@).out);
            }
        },
        Esc::Plain => {
            unfinished = false;
            proof {
                assert(acc@ =~= old(acc)@ + decode_line(line@).out);
            }
        },
        _ => {
            unfinished = true;
            proof {
                assert(acc@ =~= old(acc)@ + decode_line(line@).out);
            }
        },
    }
    Ok((inside, unfinished))
}

} // verus!
