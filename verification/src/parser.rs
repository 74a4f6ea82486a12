//! The catalog parser: a line-oriented pass that reconstructs entries from
//! catalog text, collecting non-fatal warnings and stopping only on catalog
//! corruption (malformed escapes, unusable comment lines).
use vstd::prelude::*;
use crate::chars::{chars_to_string, str_to_chars};
use crate::decode::{decode_line, feed_line};
use crate::digits::{dec_val, is_u32_dec, parse_u32_dec};
use crate::entry::{Entry, EntryView, PoError, PoWarning, WarningView, views_of, warning_views_of};
use crate::seqtools::{chars_eq, seg, split_char, split_lines, split_lines_exec, split_on, strip_marker, strip_marker_exec, token_of, lemma_token_of};
use crate::writer::GettextWriter;

verus! {

/// Which accumulator newly decoded text goes to.
#[derive(Clone, Copy, PartialEq, Eq, Structural)]
pub enum Parsing {
    Msgid,
    Msgstr,
}

/// Whether the last directive line was a `msgstr` (`Fin`) or not (`Pre`): a
/// transition from `Fin` to `Pre` starts a new record and flushes the pending
/// one.
#[derive(Clone, Copy, PartialEq, Eq, Structural)]
pub enum Phase {
    Pre,
    Fin,
}

/// The parser state carried across lines.
#[verifier::ext_equal]
pub struct PState {
    pub msgid: Seq<char>,
    pub msgstr: Seq<char>,
    pub comments: Seq<(usize, Seq<char>)>,
    pub parsing: Option<Parsing>,
    pub phase: Phase,
    pub entries: Seq<EntryView>,
    pub warnings: Seq<WarningView>,
}

pub open spec fn init_pstate() -> PState {
    PState {
        msgid: Seq::empty(),
        msgstr: Seq::empty(),
        comments: Seq::empty(),
        parsing: None,
        phase: Phase::Pre,
        entries: Seq::empty(),
        warnings: Seq::empty(),
    }
}

/// The views of the pending comment lines.
pub open spec fn comment_views(cs: Seq<(usize, Vec<char>)>) -> Seq<(usize, Seq<char>)> {
    cs.map_values(|p: (usize, Vec<char>)| (p.0, p.1@))
}

/// The text a flushed record gives its entries: a single-space `msgid` stands
/// for the empty text, the marker suffix is stripped, and an empty `msgstr`
/// falls back to the canonical `msgid` text.
pub open spec fn flush_text(msgid: Seq<char>, msgstr: Seq<char>) -> Seq<char> {
    let id = if msgid == seq![' '] {
        Seq::<char>::empty()
    } else {
        msgid
    };
    let st = if msgid == seq![' '] {
        Seq::<char>::empty()
    } else {
        msgstr
    };
    let canon = strip_marker(id);
    if st.len() == 0 {
        canon
    } else {
        st
    }
}

/// The entry one comment line yields: exactly three space-separated tokens,
/// the second and third decimal 32-bit numbers.
pub open spec fn comment_entry(text: Seq<char>, c: (usize, Seq<char>)) -> Result<
    EntryView,
    PoError,
> {
    let parts = split_on(c.1, ' ');
    if parts.len() != 3 {
        Err(PoError::CommentFormat(c.0))
    } else if !is_u32_dec(parts[1]) || !is_u32_dec(parts[2]) {
        Err(PoError::CommentFormat(c.0))
    } else {
        Ok(
            EntryView {
                text,
                hash: dec_val(parts[1]) as u32,
                unk: dec_val(parts[2]) as u32,
                source_file: parts[0],
            },
        )
    }
}

/// The entries of all pending comment lines, in order; the first unusable
/// comment line is fatal.
pub open spec fn comment_entries(text: Seq<char>, cs: Seq<(usize, Seq<char>)>) -> Result<
    Seq<EntryView>,
    PoError,
>
    decreases cs.len(),
{
    if cs.len() == 0 {
        Ok(Seq::empty())
    } else {
        match comment_entry(text, cs[0]) {
            Err(e) => Err(e),
            Ok(e0) => match comment_entries(text, cs.skip(1)) {
                Err(e) => Err(e),
                Ok(rest) => Ok(seq![e0] + rest),
            },
        }
    }
}

/// What a flush appends to the entry list: nothing when there is nothing to
/// flush; an error when text is pending without any comment line, or when a
/// comment line is unusable.
pub open spec fn flush_added(
    msgid: Seq<char>,
    msgstr: Seq<char>,
    comments: Seq<(usize, Seq<char>)>,
) -> Result<Seq<EntryView>, PoError> {
    if msgid.len() == 0 && comments.len() == 0 {
        Ok(Seq::empty())
    } else if comments.len() == 0 {
        Err(PoError::CommentMissing)
    } else {
        comment_entries(flush_text(msgid, msgstr), comments)
    }
}

/// Whether a flush is a no-op that leaves the accumulators untouched.
pub open spec fn flush_noop(msgid: Seq<char>, comments: Seq<(usize, Seq<char>)>) -> bool {
    msgid.len() == 0 && comments.len() == 0
}

/// Flush the pending record into the state.
pub open spec fn flush_state(st: PState) -> Result<PState, PoError> {
    match flush_added(st.msgid, st.msgstr, st.comments) {
        Err(e) => Err(e),
        Ok(added) => Ok(
            if flush_noop(st.msgid, st.comments) {
                st
            } else {
                PState {
                    msgid: Seq::empty(),
                    msgstr: Seq::empty(),
                    comments: Seq::empty(),
                    entries: st.entries + added,
                    ..st
                }
            },
        ),
    }
}

/// Feed one line through the escape decoder into the active accumulator, if
/// any, raising end-of-line warnings; a malformed escape is fatal.
pub open spec fn feed_state(st: PState, line: Seq<char>, nb: usize) -> Result<PState, PoError> {
    match st.parsing {
        None => Ok(st),
        Some(p) => {
            let d = decode_line(line);
            if d.fatal {
                Err(PoError::MalformedEscape(nb))
            } else {
                let st1 = if p is Msgid {
                    PState { msgid: st.msgid + d.out, ..st }
                } else {
                    PState { msgstr: st.msgstr + d.out, ..st }
                };
                let w1 = if d.unclosed {
                    seq![WarningView::UnclosedQuote(nb)]
                } else {
                    Seq::empty()
                };
                let w2 = if d.unfinished {
                    seq![WarningView::UnfinishedEscape(nb)]
                } else {
                    Seq::empty()
                };
                Ok(PState { warnings: st1.warnings + w1 + w2, ..st1 })
            }
        },
    }
}

/// Process one line: empty lines are skipped; a line starting with a quote is
/// a raw continuation; otherwise the first token selects a directive, a
/// `Fin`-to-`Pre` transition flushes the pending record, a `#.` line appends a
/// pending comment, and the line is fed through the decoder.
pub open spec fn line_step(st: PState, line: Seq<char>, nb: usize) -> Result<PState, PoError> {
    if line.len() == 0 {
        Ok(st)
    } else if line[0] == '"' {
        feed_state(st, line, nb)
    } else {
        let tok = token_of(line);
        let is_msgstr = tok == "msgstr"@;
        let is_msgid = tok == "msgid"@;
        let is_comment = tok == "#."@;
        let next_phase = if is_msgstr {
            Phase::Fin
        } else if is_msgid || is_comment {
            Phase::Pre
        } else {
            st.phase
        };
        let parsing1 = if is_msgstr {
            Some(Parsing::Msgstr)
        } else if is_msgid {
            Some(Parsing::Msgid)
        } else {
            st.parsing
        };
        let st1 = if !is_msgstr && !is_msgid && !is_comment {
            PState { warnings: st.warnings.push(WarningView::LineTypeUnknown(nb, tok)), ..st }
        } else {
            st
        };
        let st2r = if st.phase is Fin && next_phase is Pre {
            flush_state(st1)
        } else {
            Ok(st1)
        };
        match st2r {
            Err(e) => Err(e),
            Ok(st2) => {
                let st3 = if is_comment {
                    PState {
                        comments: st2.comments.push(
                            (
                                nb,
                                if line.len() >= 3 {
                                    line.skip(3)
                                } else {
                                    Seq::empty()
                                },
                            ),
                        ),
                        ..st2
                    }
                } else {
                    st2
                };
                let st4 = PState { parsing: parsing1, ..st3 };
                match feed_state(st4, line, nb) {
                    Err(e) => Err(e),
                    Ok(st5) => Ok(PState { phase: next_phase, ..st5 }),
                }
            },
        }
    }
}

/// Process a list of lines, numbering them from `nb`.
pub open spec fn run_lines(st: PState, lines: Seq<Seq<char>>, nb: usize) -> Result<
    PState,
    PoError,
>
    decreases lines.len(),
{
    if lines.len() == 0 {
        Ok(st)
    } else {
        match line_step(st, lines[0], nb) {
            Err(e) => Err(e),
            Ok(st1) => run_lines(st1, lines.skip(1), (nb + 1) as usize),
        }
    }
}

/// Runs over line lists compose over concatenation.
pub proof fn lemma_run_lines_append(st: PState, a: Seq<Seq<char>>, b: Seq<Seq<char>>, nb: usize)
    requires
        nb + a.len() + b.len() <= usize::MAX,
    ensures
        run_lines(st, a + b, nb) == (match run_lines(st, a, nb) {
            Err(e) => Err(e),
            Ok(st1) => run_lines(st1, b, (nb + a.len()) as usize),
        }),
    decreases a.len(),
{
    if a.len() == 0 {
        assert(a + b =~= b);
    } else {
        assert((a + b)[0] == a[0]);
        match line_step(st, a[0], nb) {
            Err(e) => {},
            Ok(st1) => {
                assert((a + b).skip(1) =~= a.skip(1) + b);
                lemma_run_lines_append(st1, a.skip(1), b, (nb + 1) as usize);
            },
        }
    }
}

/// Parse a whole catalog: run every line, then flush the last record. The
/// result is the reconstructed entries in comment-line order and the collected
/// warnings, or the first fatal condition.
pub open spec fn parse_po_spec(file: Seq<char>) -> Result<
    (Seq<EntryView>, Seq<WarningView>),
    PoError,
> {
    match run_lines(init_pstate(), split_lines(file), 0) {
        Err(e) => Err(e),
        Ok(st) => match flush_state(st) {
            Err(e) => Err(e),
            Ok(st2) => Ok((st2.entries, st2.warnings)),
        },
    }
}

/// Flush the pending record, executable: appends the reconstructed entries and
/// clears the accumulators, exactly as [`flush_state`] describes.
fn flush_exec(
    msgid: &mut Vec<char>,
    msgstr: &mut Vec<char>,
    comments: &mut Vec<(usize, Vec<char>)>,
    entries: &mut Vec<Entry>,
) -> (r: Result<(), PoError>)
    ensures
        ({
            let added_r = flush_added(old(msgid)@, old(msgstr)@, comment_views(old(comments)@));
            match r {
                Ok(()) => added_r matches Ok(added) && views_of(final(entries)@) == views_of(
                    old(entries)@,
                ) + added && (if flush_noop(old(msgid)@, comment_views(old(comments)@)) {
                    final(msgid)@ == old(msgid)@ && final(msgstr)@ == old(msgstr)@
                        && final(comments)@ == old(comments)@
                } else {
                    final(msgid)@ == Seq::<char>::empty() && final(msgstr)@ == Seq::<char>::empty()
                        && final(comments)@ == Seq::<(usize, Vec<char>)>::empty()
                }),
                Err(e) => added_r == Err::<Seq<EntryView>, PoError>(e),
            }
        }),
{
    let ghost cv = comment_views(comments@);
    proof {
        assert(cv.len() == comments@.len());
    }
    if msgid.len() == 0 && comments.len() == 0 {
        proof {
            assert(views_of(entries@) =~= views_of(entries@) + Seq::<EntryView>::empty());
        }
        return Ok(());
    }
    if msgid.len() == 1 && msgid[0] == ' ' {
        proof {
            assert(msgid@ =~= seq![' ']);
        }
        *msgid = Vec::new();
        *msgstr = Vec::new();
    } else {
        proof {
            assert(msgid@ != seq![' ']);
        }
    }
    let canon = strip_marker_exec(msgid.as_slice());
    let text_chars: Vec<char> = if msgstr.len() == 0 {
        canon
    } else {
        seg(msgstr.as_slice(), 0, msgstr.len())
    };
    proof {
        assert(text_chars@ == flush_text(old(msgid)@, old(msgstr)@));
    }
    if comments.len() == 0 {
        return Err(PoError::CommentMissing);
    }
    let textv = chars_to_string(text_chars.as_slice());
    let ghost text = text_chars@;
    let ghost added0 = views_of(entries@);
    proof {
        assert(added0 == views_of(old(entries)@));
        let r0 = comment_entries(text, cv);
        assert(cv.skip(0) =~= cv);
        if r0 is Ok {
            assert(views_of(entries@).skip(added0.len() as int) + r0->Ok_0 =~= r0->Ok_0);
        }
        assert(views_of(entries@).take(added0.len() as int) =~= added0);
    }
    let mut k: usize = 0;
    while k < comments.len()
        invariant
            0 <= k <= comments@.len(),
            cv == comment_views(comments@),
            cv == comment_views(old(comments)@),
            cv.len() == comments@.len(),
            cv.len() > 0,
            old(msgid)@.len() > 0 || cv.len() > 0,
            textv@ == text,
            text == flush_text(old(msgid)@, old(msgstr)@),
            comment_entries(text, cv) == (match comment_entries(text, cv.skip(k as int)) {
                Err(e) => Err::<Seq<EntryView>, PoError>(e),
                Ok(rest) => Ok(views_of(entries@).skip(added0.len() as int) + rest),
            }),
            views_of(entries@).take(added0.len() as int) == added0,
            added0 == views_of(old(entries)@),
            added0.len() <= views_of(entries@).len(),
        decreases comments@.len() - k,
    {
        let ghost pre_added = views_of(entries@).skip(added0.len() as int);
        let nb = comments[k].0;
        let content = &comments[k].1;
        proof {
            assert(cv[k as int] == (comments@[k as int].0, comments@[k as int].1@));
            assert(cv.skip(k as int)[0] == cv[k as int]);
        }
        let parts = split_char(content.as_slice(), ' ');
        if parts.len() != 3 {
            proof {
                assert(comment_entry(text, cv[k as int]) == Err::<EntryView, PoError>(
                    PoError::CommentFormat(nb),
                ));
            }
            return Err(PoError::CommentFormat(nb));
        }
        proof {
            assert(parts@.map_values(|l: Vec<char>| l@)[0] == parts@[0]@);
            assert(parts@.map_values(|l: Vec<char>| l@)[1] == parts@[1]@);
            assert(parts@.map_values(|l: Vec<char>| l@)[2] == parts@[2]@);
        }
        let hash = match parse_u32_dec(parts[1].as_slice()) {
            Some(v) => v,
            None => {
                return Err(PoError::CommentFormat(nb));
            },
        };
        let unk = match parse_u32_dec(parts[2].as_slice()) {
            Some(v) => v,
            None => {
                return Err(PoError::CommentFormat(nb));
            },
        };
        let source_file = chars_to_string(parts[0].as_slice());
        let e = Entry { text: textv.clone(), hash, unk, source_file };
        proof {
            assert(comment_entry(text, cv[k as int]) == Ok::<EntryView, PoError>(e@));
        }
        let ghost evs_pre = views_of(entries@);
        entries.push(e);
        proof {
            assert(views_of(entries@) =~= evs_pre.push(e@));
            assert(cv.skip(k as int).skip(1) =~= cv.skip(k + 1));
            assert(views_of(entries@).take(added0.len() as int) =~= added0);
            assert(views_of(entries@).skip(added0.len() as int) =~= pre_added + seq![e@]);
            let r2 = comment_entries(text, cv.skip(k + 1));
            if r2 is Ok {
                assert(pre_added + (seq![e@] + r2->Ok_0) =~= (pre_added + seq![e@]) + r2->Ok_0);
            }
        }
        k += 1;
    }
    proof {
        assert(cv.skip(k as int) =~= Seq::<(usize, Seq<char>)>::empty());
        assert(comment_entries(text, cv.skip(k as int)) == Ok::<Seq<EntryView>, PoError>(
            Seq::empty(),
        ));
        assert(views_of(entries@).skip(added0.len() as int) + Seq::<EntryView>::empty()
            =~= views_of(entries@).skip(added0.len() as int));
        assert(views_of(entries@) =~= added0 + views_of(entries@).skip(added0.len() as int));
    }
    *msgid = Vec::new();
    *msgstr = Vec::new();
    *comments = Vec::new();
    Ok(())
}

/// Feed one line through the decoder into the accumulator the parsing mode
/// selects, raising the end-of-line warnings; with no mode, nothing happens.
fn feed_exec(
    msgid: &mut Vec<char>,
    msgstr: &mut Vec<char>,
    warnings: &mut Vec<PoWarning>,
    parsing: Option<Parsing>,
    line: &[char],
    nb: usize,
) -> (r: Result<(), PoError>)
    ensures
        ({
            let d = decode_line(line@);
            match r {
                Ok(()) => (match parsing {
                    None => final(msgid)@ == old(msgid)@ && final(msgstr)@ == old(msgstr)@
                        && final(warnings)@ == old(warnings)@,
                    Some(p) => !d.fatal && (if p is Msgid {
                        final(msgid)@ == old(msgid)@ + d.out && final(msgstr)@ == old(msgstr)@
                    } else {
                        final(msgstr)@ == old(msgstr)@ + d.out && final(msgid)@ == old(msgid)@
                    }) && warning_views_of(final(warnings)@) == warning_views_of(old(warnings)@)
                        + (if d.unclosed {
                        seq![WarningView::UnclosedQuote(nb)]
                    } else {
                        Seq::empty()
                    }) + (if d.unfinished {
                        seq![WarningView::UnfinishedEscape(nb)]
                    } else {
                        Seq::empty()
                    }),
                }),
                Err(e) => parsing is Some && d.fatal && e == PoError::MalformedEscape(nb),
            }
        }),
{
    let fed = match parsing {
        None => {
            return Ok(());
        },
        Some(Parsing::Msgid) => feed_line(msgid, line),
        Some(Parsing::Msgstr) => feed_line(msgstr, line),
    };
    match fed {
        Err(()) => Err(PoError::MalformedEscape(nb)),
        Ok((unclosed, unfinished)) => {
            let ghost w0 = warnings@;
            if unclosed {
                warnings.push(PoWarning::UnclosedQuote(nb));
            }
            if unfinished {
                warnings.push(PoWarning::UnfinishedEscape(nb));
            }
            proof {
                let d = decode_line(line@);
                let w1 = if d.unclosed {
                    seq![WarningView::UnclosedQuote(nb)]
                } else {
                    Seq::<WarningView>::empty()
                };
                let w2 = if d.unfinished {
                    seq![WarningView::UnfinishedEscape(nb)]
                } else {
                    Seq::<WarningView>::empty()
                };
                assert(warning_views_of(warnings@) =~= warning_views_of(w0) + w1 + w2);
            }
            Ok(())
        },
    }
}

/// The parser state the executable locals stand for.
pub open spec fn st_of(
    msgid: Seq<char>,
    msgstr: Seq<char>,
    comments: Seq<(usize, Vec<char>)>,
    parsing: Option<Parsing>,
    phase: Phase,
    entries: Seq<Entry>,
    warnings: Seq<PoWarning>,
) -> PState {
    PState {
        msgid,
        msgstr,
        comments: comment_views(comments),
        parsing,
        phase,
        entries: views_of(entries),
        warnings: warning_views_of(warnings),
    }
}

impl GettextWriter {
    /// Parse catalog text into a writer holding the reconstructed entries (no
    /// triggers configured) and the collected warnings; the first fatal
    /// condition aborts the parse instead, exactly as [`parse_po_spec`] says.
    pub fn from_po(file: String) -> (r: Result<(GettextWriter, Vec<PoWarning>), PoError>)
        ensures
            ({
                let p = parse_po_spec(file@);
                match r {
                    Ok((w, warns)) => p == Ok::<(Seq<EntryView>, Seq<WarningView>), PoError>(
                        (views_of(w.entries@), warning_views_of(warns@)),
                    ) && w.triggers() == Seq::<Seq<char>>::empty(),
                    Err(e) => p == Err::<(Seq<EntryView>, Seq<WarningView>), PoError>(e),
                }
            }),
    {
        let all = str_to_chars(file.as_str());
        let lines = split_lines_exec(all.as_slice());
        let ghost lv = split_lines(file@);
        let line_count = lines.len();
        proof {
            assert forall|j: int| 0 <= j < lv.len() implies #[trigger] lines@[j]@ == lv[j] by {
                assert(lines@[j]@ == lines@.map_values(|l: Vec<char>| l@)[j]);
            }
            assert(lines@.len() == lv.len());
        }

        let tok_msgstr = str_to_chars("msgstr");
        let tok_msgid = str_to_chars("msgid");
        let tok_comment = str_to_chars("#.");

        let mut msgid: Vec<char> = Vec::new();
        let mut msgstr: Vec<char> = Vec::new();
        let mut comments: Vec<(usize, Vec<char>)> = Vec::new();
        let mut entries: Vec<Entry> = Vec::new();
        let mut warnings: Vec<PoWarning> = Vec::new();
        let mut parsing: Option<Parsing> = None;
        let mut phase: Phase = Phase::Pre;

        proof {
            assert(lv.take(0) =~= Seq::<Seq<char>>::empty());
            assert(st_of(msgid@, msgstr@, comments@, parsing, phase, entries@, warnings@)
                =~= init_pstate());
        }
        let mut i: usize = 0;
        while i < line_count
            invariant
                0 <= i <= lv.len(),
                lv == split_lines(file@),
                line_count == lines@.len(),
                lines@.len() == lv.len(),
                lv.len() <= usize::MAX,
                forall|j: int| 0 <= j < lv.len() ==> #[trigger] lines@[j]@ == lv[j],
                tok_msgstr@ == "msgstr"@,
                tok_msgid@ == "msgid"@,
                tok_comment@ == "#."@,
                run_lines(init_pstate(), lv.take(i as int), 0) == Ok::<PState, PoError>(
                    st_of(msgid@, msgstr@, comments@, parsing, phase, entries@, warnings@),
                ),
            decreases lv.len() - i,
        {
            let ghost st0 = st_of(msgid@, msgstr@, comments@, parsing, phase, entries@, warnings@);
            proof {
                lemma_run_lines_append(init_pstate(), lv.take(i as int), seq![lv[i as int]], 0);
                assert(lv.take(i as int) + seq![lv[i as int]] =~= lv.take(i + 1));
                assert(seq![lv[i as int]].skip(1) =~= Seq::<Seq<char>>::empty());
                reveal_with_fuel(run_lines, 2);
            }
            let line = &lines[i];
            if line.len() == 0 {
                proof {
                    assert(line_step(st0, lv[i as int], i) == Ok::<PState, PoError>(st0));
                }
            } else if line[0] == '"' {
                match feed_exec(&mut msgid, &mut msgstr, &mut warnings, parsing, line.as_slice(), i)
                {
                    Ok(()) => {
                        proof {
                            let st5 = st_of(
                                msgid@,
                                msgstr@,
                                comments@,
                                parsing,
                                phase,
                                entries@,
                                warnings@,
                            );
                            assert(feed_state(st0, lv[i as int], i) matches Ok(s) && s =~= st5);
                        }
                    },
                    Err(e) => {
                        proof {
                            assert(line_step(st0, lv[i as int], i) == Err::<PState, PoError>(e));
                            assert(run_lines(init_pstate(), lv.take(i + 1), 0) == Err::<
                                PState,
                                PoError,
                            >(e));
                            lemma_run_lines_append(init_pstate(), lv.take(i + 1), lv.skip(i + 1), 0);
                            assert(lv.take(i + 1) + lv.skip(i + 1) =~= lv);
                            assert(parse_po_spec(file@) == Err::<
                                (Seq<EntryView>, Seq<WarningView>),
                                PoError,
                            >(e));
                        }
                        return Err(e);
                    },
                }
            } else {
                // Extract the first space-delimited token.
                let mut t_end: usize = 0;
                while t_end < line.len() && line[t_end] != ' '
                    invariant
                        0 <= t_end <= line@.len(),
                        forall|k: int| 0 <= k < t_end ==> line@[k] != ' ',
                    decreases line@.len() - t_end,
                {
                    t_end += 1;
                }
                let tok = seg(line.as_slice(), 0, t_end);
                proof {
                    lemma_token_of(line@, t_end as int);
                    assert(tok@ == token_of(lv[i as int]));
                }
                let is_msgstr = chars_eq(tok.as_slice(), tok_msgstr.as_slice());
                let is_msgid = chars_eq(tok.as_slice(), tok_msgid.as_slice());
                let is_comment = chars_eq(tok.as_slice(), tok_comment.as_slice());
                let next_phase = if is_msgstr {
                    Phase::Fin
                } else if is_msgid || is_comment {
                    Phase::Pre
                } else {
                    phase
                };
                let parsing1 = if is_msgstr {
                    Some(Parsing::Msgstr)
                } else if is_msgid {
                    Some(Parsing::Msgid)
                } else {
                    parsing
                };
                if !is_msgstr && !is_msgid && !is_comment {
                    let ghost w0 = warnings@;
                    warnings.push(PoWarning::LineTypeUnknown(i, chars_to_string(tok.as_slice())));
                    proof {
                        assert(warning_views_of(warnings@) =~= warning_views_of(w0).push(
                            WarningView::LineTypeUnknown(i, tok@),
                        ));
                    }
                }
                let ghost st1 = st_of(
                    msgid@,
                    msgstr@,
                    comments@,
                    parsing,
                    phase,
                    entries@,
                    warnings@,
                );
                if phase == Phase::Fin && next_phase == Phase::Pre {
                    match flush_exec(&mut msgid, &mut msgstr, &mut comments, &mut entries) {
                        Ok(()) => {
                            proof {
                                assert(comment_views(Seq::<(usize, Vec<char>)>::empty())
                                    =~= Seq::<(usize, Seq<char>)>::empty());
                                let st2 = st_of(
                                    msgid@,
                                    msgstr@,
                                    comments@,
                                    parsing,
                                    phase,
                                    entries@,
                                    warnings@,
                                );
                                assert(flush_state(st1) matches Ok(s) && s =~= st2);
                            }
                        },
                        Err(e) => {
                            proof {
                                assert(flush_state(st1) == Err::<PState, PoError>(e));
                                assert(line_step(st0, lv[i as int], i) == Err::<PState, PoError>(
                                    e,
                                ));
                                assert(run_lines(init_pstate(), lv.take(i + 1), 0) == Err::<
                                    PState,
                                    PoError,
                                >(e));
                                lemma_run_lines_append(
                                    init_pstate(),
                                    lv.take(i + 1),
                                    lv.skip(i + 1),
                                    0,
                                );
                                assert(lv.take(i + 1) + lv.skip(i + 1) =~= lv);
                                assert(parse_po_spec(file@) == Err::<
                                    (Seq<EntryView>, Seq<WarningView>),
                                    PoError,
                                >(e));
                            }
                            return Err(e);
                        },
                    }
                }
                let ghost st2 = st_of(
                    msgid@,
                    msgstr@,
                    comments@,
                    parsing,
                    phase,
                    entries@,
                    warnings@,
                );
                if is_comment {
                    let content: Vec<char> = if line.len() >= 3 {
                        seg(line.as_slice(), 3, line.len())
                    } else {
                        Vec::new()
                    };
                    let ghost c0 = comments@;
                    comments.push((i, content));
                    proof {
                        assert(comment_views(comments@) =~= comment_views(c0).push(
                            (
                                i,
                                if lv[i as int].len() >= 3 {
                                    lv[i as int].skip(3)
                                } else {
                                    Seq::<char>::empty()
                                },
                            ),
                        ));
                    }
                }
                parsing = parsing1;
                let ghost st4 = st_of(
                    msgid@,
                    msgstr@,
                    comments@,
                    parsing,
                    phase,
                    entries@,
                    warnings@,
                );
                match feed_exec(&mut msgid, &mut msgstr, &mut warnings, parsing, line.as_slice(), i)
                {
                    Ok(()) => {},
                    Err(e) => {
                        proof {
                            assert(feed_state(st4, lv[i as int], i) == Err::<PState, PoError>(e));
                            assert(line_step(st0, lv[i as int], i) == Err::<PState, PoError>(e));
                            assert(run_lines(init_pstate(), lv.take(i + 1), 0) == Err::<
                                PState,
                                PoError,
                            >(e));
                            lemma_run_lines_append(init_pstate(), lv.take(i + 1), lv.skip(i + 1), 0);
                            assert(lv.take(i + 1) + lv.skip(i + 1) =~= lv);
                            assert(parse_po_spec(file@) == Err::<
                                (Seq<EntryView>, Seq<WarningView>),
                                PoError,
                            >(e));
                        }
                        return Err(e);
                    },
                }
                phase = next_phase;
                proof {
                    let st5 = st_of(
                        msgid@,
                        msgstr@,
                        comments@,
                        parsing,
                        phase,
                        entries@,
                        warnings@,
                    );
                    assert(feed_state(st4, lv[i as int], i) matches Ok(s) && PState {
                        phase: next_phase,
                        ..s
                    } =~= st5);
                    assert(line_step(st0, lv[i as int], i) == Ok::<PState, PoError>(st5));
                }
            }
            i += 1;
        }
        proof {
            assert(lv.take(i as int) =~= lv);
        }
        let ghost stf = st_of(msgid@, msgstr@, comments@, parsing, phase, entries@, warnings@);
        match flush_exec(&mut msgid, &mut msgstr, &mut comments, &mut entries) {
            Ok(()) => {},
            Err(e) => {
                proof {
                    assert(flush_state(stf) == Err::<PState, PoError>(e));
                    assert(parse_po_spec(file@) == Err::<
                        (Seq<EntryView>, Seq<WarningView>),
                        PoError,
                    >(e));
                }
                return Err(e);
            },
        }
        let w = GettextWriter { entries, discriminated: Vec::new() };
        proof {
            assert(comment_views(Seq::<(usize, Vec<char>)>::empty()) =~= Seq::<
                (usize, Seq<char>),
            >::empty());
            assert(flush_state(stf) matches Ok(s) && s.entries =~= views_of(w.entries@)
                && s.warnings =~= warning_views_of(warnings@));
            assert(w.triggers() =~= Seq::<Seq<char>>::empty());
        }
        Ok((w, warnings))
    }
}

} // verus!

