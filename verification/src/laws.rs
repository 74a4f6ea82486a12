//! The codec's global guarantees, proved from the writer's, escaper's and
//! parser's specifications: the escaping round trip and the catalog round
//! trip, with deduplication and disambiguation.
use vstd::prelude::*;
use vstd::multiset::Multiset;
use crate::decode::{DecRun, DecSt, Esc, dec_init, dec_run_from, dec_step, decode_line, lemma_dec_run_append, LineDecode};
use crate::digits::{all_hex_digits, dec_rep, hex_val, is_dec_digit, lemma_dec_rep_val, lemma_hex_rep_val};
use crate::entry::EntryView;
use crate::escape::{esc_body, esc_char, escaped, is_ctl};
use crate::seqtools::split_lines;

verus! {

/// A source-file name that survives a comment line: no space (the line is
/// split on spaces), no quote (the line passes through the escape decoder),
/// no newline (the line must stay one line).
pub open spec fn plain_name(f: Seq<char>) -> bool {
    forall|j: int| 0 <= j < f.len() ==> (#[trigger] f[j]) != ' ' && f[j] != '"' && f[j] != '\n'
}

/// A character sequence that can stand as one catalog line: no embedded
/// newline, and no trailing carriage return that line splitting would strip.
pub open spec fn good_line(l: Seq<char>) -> bool {
    (forall|j: int| 0 <= j < l.len() ==> (#[trigger] l[j]) != '\n') && (l.len() > 0
        ==> l.last() != '\r')
}

/// Lines joined back into a document, each line followed by one newline.
pub open spec fn unlines(ls: Seq<Seq<char>>) -> Seq<char>
    decreases ls.len(),
{
    if ls.len() == 0 {
        Seq::empty()
    } else {
        (ls[0] + seq!['\n']) + unlines(ls.skip(1))
    }
}

pub proof fn lemma_unlines_append(a: Seq<Seq<char>>, b: Seq<Seq<char>>)
    ensures
        unlines(a + b) == unlines(a) + unlines(b),
    decreases a.len(),
{
    if a.len() == 0 {
        assert(a + b =~= b);
        assert(unlines(a) + unlines(b) =~= unlines(b));
    } else {
        assert((a + b)[0] == a[0]);
        assert((a + b).skip(1) =~= a.skip(1) + b);
        lemma_unlines_append(a.skip(1), b);
        assert(unlines(a + b) =~= unlines(a) + unlines(b));
    }
}

/// Splitting a joined document on newlines gives the lines back, with one
/// empty trailing segment.
proof fn lemma_split_on_unlines(ls: Seq<Seq<char>>)
    requires
        forall|i: int| 0 <= i < ls.len() ==> good_line(#[trigger] ls[i]),
    ensures
        crate::seqtools::split_on(unlines(ls), '\n') == ls + seq![Seq::<char>::empty()],
    decreases ls.len(),
{
    if ls.len() == 0 {
        assert(unlines(ls).len() == 0);
        assert(crate::seqtools::split_on(unlines(ls), '\n') =~= ls + seq![Seq::<char>::empty()]);
    } else {
        let l0 = ls[0];
        let u = unlines(ls);
        assert(good_line(l0));
        assert forall|k: int| 0 <= k < l0.len() implies u[k] != '\n' by {
            assert(u[k] == (l0 + seq!['\n'])[k]);
            assert(u[k] == l0[k]);
        }
        assert(u[l0.len() as int] == (l0 + seq!['\n'])[l0.len() as int]);
        assert(u[l0.len() as int] == '\n');
        assert(0 <= l0.len() < u.len());
        crate::seqtools::lemma_split_on_peel(u, '\n', l0.len() as int);
        assert(u.take(l0.len() as int) =~= l0);
        assert(u.skip(l0.len() as int + 1) =~= unlines(ls.skip(1)));
        assert forall|i: int| 0 <= i < ls.skip(1).len() implies good_line(#[trigger] ls.skip(1)[i])
            by {
            assert(ls.skip(1)[i] == ls[i + 1]);
        }
        lemma_split_on_unlines(ls.skip(1));
        assert(crate::seqtools::split_on(u, '\n') =~= ls + seq![Seq::<char>::empty()]);
    }
}

/// Splitting a joined document into lines gives exactly the lines back.
pub proof fn lemma_split_lines_unlines(ls: Seq<Seq<char>>)
    requires
        forall|i: int| 0 <= i < ls.len() ==> good_line(#[trigger] ls[i]),
    ensures
        split_lines(unlines(ls)) == ls,
{
    lemma_split_on_unlines(ls);
    let raw = crate::seqtools::split_on(unlines(ls), '\n');
    assert(raw.last().len() == 0);
    assert(raw.drop_last() =~= ls);
    assert forall|i: int| 0 <= i < ls.len() implies #[trigger] crate::seqtools::strip_cr(ls[i])
        == ls[i] by {
        assert(good_line(ls[i]));
    }
    assert(split_lines(unlines(ls)) =~= ls);
}

/// The escaped body of any text holds no newline and no carriage return:
/// both are always escaped.
pub proof fn lemma_esc_body_chars(s: Seq<char>)
    ensures
        forall|j: int|
            0 <= j < esc_body(s).len() ==> (#[trigger] esc_body(s)[j]) != '\n' && esc_body(s)[j]
                != '\r',
    decreases s.len(),
{
    if s.len() == 0 {
    } else {
        lemma_esc_body_chars(s.drop_last());
        let c = s.last();
        let e = esc_char(c);
        assert forall|j: int| 0 <= j < e.len() implies (#[trigger] e[j]) != '\n' && e[j] != '\r'
            by {
            if c == '"' || c == '\n' || c == '\r' || c == '\\' {
            } else if is_ctl(c) {
                let h = crate::digits::hex_rep(c as u32 as nat);
                lemma_hex_rep_val(c as u32 as nat);
                if 4 <= j < 4 + h.len() {
                    assert(e[j] == h[j - 4]);
                    assert(crate::digits::is_hex_digit(h[j - 4]));
                }
            } else {
            }
        }
        assert forall|j: int|
            0 <= j < esc_body(s).len() implies (#[trigger] esc_body(s)[j]) != '\n' && esc_body(
            s,
        )[j] != '\r' by {
            if j < esc_body(s.drop_last()).len() {
                assert(esc_body(s)[j] == esc_body(s.drop_last())[j]);
            } else {
                assert(esc_body(s)[j] == e[j - esc_body(s.drop_last()).len()]);
            }
        }
    }
}

/// A line without quote characters leaves the decoder in its initial state and
/// emits nothing.
pub proof fn lemma_dec_run_outside(s: Seq<char>)
    requires
        forall|j: int| 0 <= j < s.len() ==> (#[trigger] s[j]) != '"',
    ensures
        dec_run_from(dec_init(), s) == (DecRun { st: dec_init(), out: Seq::empty(), fatal: false }),
    decreases s.len(),
{
    if s.len() == 0 {
        assert(dec_run_from(dec_init(), s) =~= DecRun {
            st: dec_init(),
            out: Seq::empty(),
            fatal: false,
        });
    } else {
        let fst = dec_step(dec_init(), s[0]);
        assert(fst.st =~= dec_init());
        assert forall|j: int| 0 <= j < s.skip(1).len() implies (#[trigger] s.skip(1)[j]) != '"' by {
            assert(s.skip(1)[j] == s[j + 1]);
        }
        lemma_dec_run_outside(s.skip(1));
        assert(dec_run_from(dec_init(), s) =~= DecRun {
            st: dec_init(),
            out: Seq::empty(),
            fatal: false,
        });
    }
}

/// A text is escape-clean when no backslash in it is immediately followed by
/// `x` or `r`: on exactly those two raw pairs the deliberate double-escaping
/// of the catalog format folds the pair into one character, so round trips
/// exclude them.
pub open spec fn escape_clean(s: Seq<char>) -> bool {
    forall|i: int|
        0 <= i < s.len() - 1 && (#[trigger] s[i]) == '\\' ==> s[i + 1] != 'x' && s[i + 1] != 'r'
}

/// Hexadecimal digits accumulate in the number-reading state.
proof fn lemma_dec_run_hex(st: DecSt, h: Seq<char>)
    requires
        st.esc is ReadingNumber,
        all_hex_digits(h),
    ensures
        dec_run_from(st, h) == (DecRun {
            st: DecSt { digits: st.digits + h, ..st },
            out: Seq::empty(),
            fatal: false,
        }),
    decreases h.len(),
{
    if h.len() == 0 {
        assert(st.digits + h =~= st.digits);
        assert(dec_run_from(st, h) =~= DecRun {
            st: DecSt { digits: st.digits + h, ..st },
            out: Seq::empty(),
            fatal: false,
        });
    } else {
        assert(is_hex_digit_at(h, 0));
        let fst = dec_step(st, h[0]);
        assert(h[0] != '}') by {
            assert(crate::digits::is_hex_digit(h[0]));
        }
        assert(fst.st.digits == st.digits.push(h[0]));
        assert forall|i: int| 0 <= i < h.skip(1).len() implies crate::digits::is_hex_digit(
            #[trigger] h.skip(1)[i],
        ) by {
            assert(h.skip(1)[i] == h[i + 1]);
        }
        lemma_dec_run_hex(fst.st, h.skip(1));
        assert(st.digits.push(h[0]) + h.skip(1) =~= st.digits + h);
        assert(Seq::<char>::empty() + Seq::<char>::empty() =~= Seq::<char>::empty());
        assert(dec_run_from(st, h) =~= DecRun {
            st: DecSt { digits: st.digits + h, ..st },
            out: Seq::empty(),
            fatal: false,
        });
    }
}

spec fn is_hex_digit_at(h: Seq<char>, i: int) -> bool {
    crate::digits::is_hex_digit(h[i])
}

/// Processing the escaped form of one character from inside the quoted span:
/// a pending double backslash first resolves to a literal backslash, then the
/// character comes out as itself, except that a raw backslash leaves the
/// double-backslash state pending.
#[verifier::rlimit(100)]
#[verifier::spinoff_prover]
proof fn lemma_esc_char_step(st: DecSt, c: char)
    requires
        st.inside,
        st.digits == Seq::<char>::empty(),
        st.esc is Plain || st.esc is SecondEscaped,
        st.esc is SecondEscaped ==> c != 'x' && c != 'r',
    ensures
        ({
            let r = dec_run_from(st, esc_char(c));
            let pre: Seq<char> = if st.esc is SecondEscaped {
                seq!['\\']
            } else {
                Seq::empty()
            };
            &&& !r.fatal
            &&& r.st.inside
            &&& r.st.digits == Seq::<char>::empty()
            &&& (if c == '\\' {
                r.st.esc is SecondEscaped && r.out == pre
            } else {
                r.st.esc is Plain && r.out == pre + seq![c]
            })
        }),
{
    reveal_with_fuel(dec_run_from, 6);
    reveal_with_fuel(dec_step, 2);
    let b = esc_char(c);
    let pre: Seq<char> = if st.esc is SecondEscaped {
        seq!['\\']
    } else {
        Seq::empty()
    };
    if c == '"' || c == '\n' {
        assert(b.skip(1) =~= seq![b[1]]);
        assert(b.skip(1).skip(1) =~= Seq::<char>::empty());
        assert(dec_run_from(st, b).out =~= pre + seq![c]);
    } else if c == '\r' {
        assert(b =~= seq!['\\', '\\', 'r']);
        assert(b.skip(1) =~= seq!['\\', 'r']);
        assert(b.skip(1).skip(1) =~= seq!['r']);
        assert(b.skip(1).skip(1).skip(1) =~= Seq::<char>::empty());
        assert(dec_run_from(st, b).out =~= pre + seq![c]);
    } else if c == '\\' {
        assert(b =~= seq!['\\', '\\']);
        assert(b.skip(1) =~= seq!['\\']);
        assert(b.skip(1).skip(1) =~= Seq::<char>::empty());
        assert(dec_run_from(st, b).out =~= pre);
    } else if is_ctl(c) {
        vstd::utf8::char_is_scalar(c);
        let v = c as u32;
        let h = crate::digits::hex_rep(v as nat);
        lemma_hex_rep_val(v as nat);
        let head = seq!['\\', '\\', 'x', '{'];
        assert(b =~= head + (h + seq!['}']));
        assert(head.skip(1) =~= seq!['\\', 'x', '{']);
        assert(head.skip(1).skip(1) =~= seq!['x', '{']);
        assert(head.skip(1).skip(1).skip(1) =~= seq!['{']);
        assert(head.skip(1).skip(1).skip(1).skip(1) =~= Seq::<char>::empty());
        let r_head = dec_run_from(st, head);
        assert(!r_head.fatal);
        assert(r_head.st.esc is ReadingNumber && r_head.st.digits == Seq::<char>::empty()
            && r_head.st.inside && r_head.out == pre);
        lemma_dec_run_append(st, head, h + seq!['}']);
        lemma_dec_run_hex(r_head.st, h);
        let r_hex = dec_run_from(r_head.st, h);
        assert(r_hex.st.digits =~= h);
        lemma_dec_run_append(r_head.st, h, seq!['}']);
        let r_close = dec_run_from(r_hex.st, seq!['}']);
        assert(hex_val(h) == v);
        assert(crate::chars::is_scalar_value(v));
        vstd::utf8::char_u32_cast(c, v);
        assert(!r_close.fatal);
        assert(r_close.out =~= seq![c]);
        assert(dec_run_from(st, b).out =~= pre + seq![c]);
        assert(dec_run_from(st, b).st.digits =~= Seq::<char>::empty());
    } else {
        assert(b =~= seq![c]);
        assert(b.skip(1) =~= Seq::<char>::empty());
        assert(c != '"' && c != '\\');
        assert(dec_run_from(st, b).out =~= pre + seq![c]);
    }
}

/// Decoding the escaped body of a clean text from inside the quoted span
/// yields the text back, with only a final raw backslash left pending.
proof fn lemma_dec_run_body(s: Seq<char>)
    requires
        escape_clean(s),
    ensures
        ({
            let st_in = DecSt { inside: true, esc: Esc::Plain, digits: Seq::empty() };
            let r = dec_run_from(st_in, esc_body(s));
            &&& !r.fatal
            &&& r.st.inside
            &&& r.st.digits == Seq::<char>::empty()
            &&& (if s.len() > 0 && s.last() == '\\' {
                r.st.esc is SecondEscaped && r.out == s.drop_last()
            } else {
                r.st.esc is Plain && r.out == s
            })
        }),
    decreases s.len(),
{
    let st_in = DecSt { inside: true, esc: Esc::Plain, digits: Seq::empty() };
    if s.len() == 0 {
        assert(dec_run_from(st_in, esc_body(s)).out =~= s);
    } else {
        let p = s.drop_last();
        let c = s.last();
        assert(escape_clean(p)) by {
            assert forall|i: int|
                0 <= i < p.len() - 1 && (#[trigger] p[i]) == '\\' implies p[i + 1] != 'x' && p[i
                + 1] != 'r' by {
                assert(p[i] == s[i] && p[i + 1] == s[i + 1]);
            }
        }
        lemma_dec_run_body(p);
        let rp = dec_run_from(st_in, esc_body(p));
        lemma_dec_run_append(st_in, esc_body(p), esc_char(c));
        if rp.st.esc is SecondEscaped {
            assert(p.len() > 0 && p.last() == '\\');
            assert(s[s.len() - 2] == '\\' && s[s.len() - 1] == c);
            assert(c != 'x' && c != 'r');
        }
        lemma_esc_char_step(rp.st, c);
        let rc = dec_run_from(rp.st, esc_char(c));
        if c == '\\' {
            if s.len() > 1 && p.last() == '\\' {
                assert(rp.out + rc.out =~= p.drop_last() + seq!['\\']);
                assert(p.drop_last() + seq!['\\'] =~= p);
            } else {
                assert(rp.out + rc.out =~= p + Seq::<char>::empty());
                assert(p + Seq::<char>::empty() =~= p);
            }
            assert(dec_run_from(st_in, esc_body(s)).out == p);
        } else {
            if p.len() > 0 && p.last() == '\\' {
                assert(rp.out + rc.out =~= (p.drop_last() + seq!['\\']) + seq![c]);
                assert((p.drop_last() + seq!['\\']) + seq![c] =~= s);
            } else {
                assert(rp.out + rc.out =~= p + seq![c]);
                assert(p + seq![c] =~= s);
            }
            assert(dec_run_from(st_in, esc_body(s)).out == s);
        }
    }
}

/// Decoding the full escaped form of a clean text from the initial state
/// yields the text back and returns to the initial state: the composable form
/// of the escaping round trip.
pub proof fn lemma_dec_run_escaped(s: Seq<char>)
    requires
        escape_clean(s),
    ensures
        dec_run_from(dec_init(), escaped(s)) == (DecRun {
            st: dec_init(),
            out: s,
            fatal: false,
        }),
{
    reveal_with_fuel(dec_run_from, 3);
    reveal_with_fuel(dec_step, 2);
    let st_in = DecSt { inside: true, esc: Esc::Plain, digits: Seq::empty() };
    let q: Seq<char> = seq!['"'];
    assert(q.skip(1) =~= Seq::<char>::empty());
    assert(dec_run_from(dec_init(), q) == (DecRun { st: st_in, out: Seq::<char>::empty(), fatal: false }));
    assert(escaped(s) =~= q + (esc_body(s) + q));
    lemma_dec_run_append(dec_init(), q, esc_body(s) + q);
    lemma_dec_run_body(s);
    let rb = dec_run_from(st_in, esc_body(s));
    lemma_dec_run_append(st_in, esc_body(s), q);
    let rq = dec_run_from(rb.st, q);
    if s.len() > 0 && s.last() == '\\' {
        assert(rq.st =~= dec_init());
        assert(rq.out =~= seq!['\\']);
        assert(rb.out + rq.out =~= s.drop_last() + seq!['\\']);
        assert(s.drop_last() + seq!['\\'] =~= s);
    } else {
        assert(rq.st =~= dec_init());
        assert(rq.out =~= Seq::<char>::empty());
        assert(rb.out + rq.out =~= s);
    }
    assert(Seq::<char>::empty() + (rb.out + rq.out) =~= s);
    assert(dec_run_from(dec_init(), escaped(s)) =~= DecRun { st: dec_init(), out: s, fatal: false });
}

/// Escaping round trip: for any escape-clean text, decoding one line holding
/// exactly the escaped form yields the text back, with no warning and no
/// fatal condition. A backslash followed by `x` or `r` is excluded: the
/// format's deliberate double-escaping folds those two raw pairs.
pub proof fn lemma_escape_round_trip(s: Seq<char>)
    requires
        escape_clean(s),
    ensures
        decode_line(escaped(s)) == (LineDecode {
            out: s,
            unclosed: false,
            unfinished: false,
            fatal: false,
        }),
{
    lemma_dec_run_escaped(s);
    assert(decode_line(escaped(s)).out =~= s);
    assert(decode_line(escaped(s)) =~= LineDecode {
        out: s,
        unclosed: false,
        unfinished: false,
        fatal: false,
    });
}


/// What the writer escapes for a key: the key, or one space for an empty key.
pub open spec fn key_disp(k: Seq<char>) -> Seq<char> {
    if k.len() == 0 {
        seq![' ']
    } else {
        k
    }
}

/// The `msgid` line of a key, without its newline.
pub open spec fn msgid_line(k: Seq<char>) -> Seq<char> {
    "msgid "@ + escaped(key_disp(k))
}

/// The synthetic `msgstr` line, without its newline.
pub open spec fn msgstr_line() -> Seq<char> {
    "msgstr \"\""@
}

/// One comment line without its newline.
pub open spec fn cl(e: EntryView) -> Seq<char> {
    "#. "@ + comment_content(e)
}

/// What stands after `#. ` on a comment line: the content the parser keeps.
pub open spec fn comment_content(e: EntryView) -> Seq<char> {
    e.source_file + seq![' '] + dec_rep(e.hash as nat) + seq![' '] + dec_rep(e.unk as nat)
}

pub open spec fn comment_lines_of(members: Seq<EntryView>) -> Seq<Seq<char>> {
    Seq::new(members.len(), |m: int| cl(members[m]))
}

/// The lines one record block contributes, without their newlines.
pub open spec fn block_lines(g: (Seq<char>, Seq<EntryView>)) -> Seq<Seq<char>> {
    comment_lines_of(g.1) + seq![msgid_line(g.0), msgstr_line(), Seq::<char>::empty()]
}

/// The lines a whole group list contributes.
pub open spec fn lines_of(gs: Seq<(Seq<char>, Seq<EntryView>)>) -> Seq<Seq<char>>
    decreases gs.len(),
{
    if gs.len() == 0 {
        Seq::empty()
    } else {
        block_lines(gs[0]) + lines_of(gs.skip(1))
    }
}

/// The pending comment tuples after a block whose first line has this number.
pub open spec fn group_comments(members: Seq<EntryView>, nb0: usize) -> Seq<(usize, Seq<char>)> {
    Seq::new(members.len(), |m: int| (((nb0 + m) as usize), comment_content(members[m])))
}

/// A usable grouping key: escape-clean and not the single space the writer
/// reserves for the empty key.
pub open spec fn good_key(k: Seq<char>) -> bool {
    escape_clean(k) && k != seq![' ']
}

/// A group the round trip covers: a usable key and at least one member, each
/// with a plain source-file name.
pub open spec fn good_group(g: (Seq<char>, Seq<EntryView>)) -> bool {
    good_key(g.0) && g.1.len() > 0 && forall|m: int| 0 <= m < g.1.len() ==> plain_name(
        (#[trigger] g.1[m]).source_file,
    )
}

pub open spec fn good_groups(gs: Seq<(Seq<char>, Seq<EntryView>)>) -> bool {
    forall|g: int| 0 <= g < gs.len() ==> good_group(#[trigger] gs[g])
}

/// The facts the parser needs about one comment line: it keeps to one line,
/// holds no quote, starts with the `#.` token, and its tail is the content.
proof fn lemma_cl_facts(e: EntryView)
    requires
        plain_name(e.source_file),
    ensures
        cl(e).len() >= 4,
        cl(e)[0] == '#',
        cl(e)[0] != '"',
        forall|j: int| 0 <= j < cl(e).len() ==> (#[trigger] cl(e)[j]) != '"',
        good_line(cl(e)),
        crate::seqtools::token_of(cl(e)) == "#."@,
        cl(e).skip(3) == comment_content(e),
{
    reveal_strlit("#. ");
    reveal_strlit("#.");
    let f = e.source_file;
    let dh = dec_rep(e.hash as nat);
    let du = dec_rep(e.unk as nat);
    lemma_dec_rep_val(e.hash as nat);
    lemma_dec_rep_val(e.unk as nat);
    let l = cl(e);
    assert(l.len() == 3 + f.len() + 1 + dh.len() + 1 + du.len());
    assert forall|j: int| 0 <= j < l.len() implies (#[trigger] l[j]) != '"' && l[j] != '\n' by {
        lemma_cl_index(e, j);
        if 3 <= j < 3 + f.len() {
            assert(f[j - 3] != '"' && f[j - 3] != '\n');
        } else if 3 + f.len() + 1 <= j < 3 + f.len() + 1 + dh.len() {
            assert(is_dec_digit(dh[j - (3 + f.len() + 1)]));
        } else if j >= 3 + f.len() + 1 + dh.len() + 1 {
            assert(is_dec_digit(du[j - (3 + f.len() + 1 + dh.len() + 1)]));
        }
    }
    assert(l.last() == du.last()) by {
        lemma_cl_index(e, l.len() - 1);
    }
    assert(is_dec_digit(du.last()));
    assert(l.last() != '\r');
    assert(l[0] == '#') by { lemma_cl_index(e, 0); }
    assert(l[1] == '.') by { lemma_cl_index(e, 1); }
    assert(l[2] == ' ') by { lemma_cl_index(e, 2); }
    assert forall|j: int| 0 <= j < 2 implies l[j] != ' ' by {
        lemma_cl_index(e, j);
    }
    crate::seqtools::lemma_token_of(l, 2);
    assert(l.take(2) =~= "#."@);
    assert(l.skip(3) =~= comment_content(e));
}

/// Where each index of a comment line falls among its pieces.
proof fn lemma_cl_index(e: EntryView, j: int)
    requires
        0 <= j < cl(e).len(),
    ensures
        ({
            let f = e.source_file;
            let dh = dec_rep(e.hash as nat);
            let du = dec_rep(e.unk as nat);
            let l = cl(e);
            &&& l.len() == 3 + f.len() + 1 + dh.len() + 1 + du.len()
            &&& (0 <= j < 3 ==> l[j] == "#. "@[j])
            &&& (3 <= j < 3 + f.len() ==> l[j] == f[j - 3])
            &&& (j == 3 + f.len() ==> l[j] == ' ')
            &&& (3 + f.len() + 1 <= j < 3 + f.len() + 1 + dh.len() ==> l[j] == dh[j - (3 + f.len()
                + 1)])
            &&& (j == 3 + f.len() + 1 + dh.len() ==> l[j] == ' ')
            &&& (3 + f.len() + 1 + dh.len() + 1 <= j ==> l[j] == du[j - (3 + f.len() + 1 + dh.len()
                + 1)])
        }),
{
    reveal_strlit("#. ");
    assert("#. "@.len() == 3);
}


/// One-line runs are just the line step.
proof fn lemma_run_single(st: crate::parser::PState, l: Seq<char>, nb: usize)
    ensures
        crate::parser::run_lines(st, seq![l], nb) == crate::parser::line_step(st, l, nb),
{
    reveal_with_fuel(crate::parser::run_lines, 2);
    assert(seq![l].skip(1) =~= Seq::<Seq<char>>::empty());
    assert(seq![l][0] == l);
}

/// Processing one comment line: the pending record flushes if the last
/// directive was a `msgstr`, the comment is appended, and nothing else moves.
proof fn lemma_comment_line_step(st: crate::parser::PState, e: EntryView, nb: usize)
    requires
        plain_name(e.source_file),
        st.parsing is None || st.parsing == Some(crate::parser::Parsing::Msgstr),
        st.phase is Fin ==> crate::parser::flush_state(st) is Ok,
    ensures
        ({
            let base = if st.phase is Fin {
                crate::parser::flush_state(st)->Ok_0
            } else {
                st
            };
            crate::parser::line_step(st, cl(e), nb) == Ok::<crate::parser::PState, crate::entry::PoError>(
                crate::parser::PState {
                    comments: base.comments.push((nb, comment_content(e))),
                    phase: crate::parser::Phase::Pre,
                    ..base
                },
            )
        }),
{
    lemma_cl_facts(e);
    let l = cl(e);
    reveal_strlit("#.");
    reveal_strlit("msgid");
    reveal_strlit("msgstr");
    let tok = crate::seqtools::token_of(l);
    assert(tok == "#."@);
    assert(tok != "msgid"@) by {
        assert("#."@.len() == 2 && "msgid"@.len() == 5);
    }
    assert(tok != "msgstr"@) by {
        assert("msgstr"@.len() == 6);
    }
    let base = if st.phase is Fin {
        crate::parser::flush_state(st)->Ok_0
    } else {
        st
    };
    let st3 = crate::parser::PState {
        comments: base.comments.push((nb, l.skip(3))),
        ..base
    };
    lemma_dec_run_outside(l);
    let d = decode_line(l);
    assert(d.out =~= Seq::<char>::empty());
    assert(!d.fatal && !d.unclosed && !d.unfinished);
    let st4 = st3;
    match st4.parsing {
        None => {
            assert(crate::parser::feed_state(st4, l, nb) == Ok::<_, crate::entry::PoError>(st4));
        },
        Some(p) => {
            assert(p is Msgstr);
            let fed = crate::parser::feed_state(st4, l, nb)->Ok_0;
            assert(fed.msgstr =~= st4.msgstr);
            assert(fed.warnings =~= st4.warnings);
            assert(fed =~= st4);
        },
    }
    assert(crate::parser::line_step(st, l, nb) matches Ok(s) && s =~= crate::parser::PState {
        comments: base.comments.push((nb, comment_content(e))),
        phase: crate::parser::Phase::Pre,
        ..base
    });
}

/// Processing the `msgid` line of a key: the accumulator receives the decoded
/// key text, the parsing mode turns to `msgid`, and no record flushes.
proof fn lemma_msgid_line_step(st: crate::parser::PState, k: Seq<char>, nb: usize)
    requires
        escape_clean(key_disp(k)),
        st.phase is Pre,
        st.msgid == Seq::<char>::empty(),
    ensures
        crate::parser::line_step(st, msgid_line(k), nb) == Ok::<
            crate::parser::PState,
            crate::entry::PoError,
        >(
            crate::parser::PState {
                msgid: key_disp(k),
                parsing: Some(crate::parser::Parsing::Msgid),
                phase: crate::parser::Phase::Pre,
                ..st
            },
        ),
{
    reveal_strlit("msgid ");
    reveal_strlit("msgid");
    reveal_strlit("msgstr");
    reveal_strlit("#.");
    let l = msgid_line(k);
    let body = escaped(key_disp(k));
    assert("msgid "@.len() == 6);
    assert(l[0] == 'm');
    assert forall|j: int| 0 <= j < 5 implies l[j] != ' ' by {
        assert(l[j] == "msgid "@[j]);
    }
    assert(l[5] == ' ');
    crate::seqtools::lemma_token_of(l, 5);
    let tok = crate::seqtools::token_of(l);
    assert(tok =~= "msgid"@);
    assert(tok != "msgstr"@) by {
        assert("msgid"@.len() == 5 && "msgstr"@.len() == 6);
    }
    assert(tok != "#."@) by {
        assert("#."@.len() == 2);
    }
    assert forall|j: int| 0 <= j < "msgid "@.len() implies (#[trigger] "msgid "@[j]) != '"' by {}
    lemma_dec_run_outside("msgid "@);
    lemma_dec_run_escaped(key_disp(k));
    lemma_dec_run_append(dec_init(), "msgid "@, body);
    assert(l =~= "msgid "@ + body);
    let d = decode_line(l);
    assert(d.out =~= key_disp(k));
    assert(!d.fatal && !d.unclosed && !d.unfinished);
    let st4 = crate::parser::PState {
        parsing: Some(crate::parser::Parsing::Msgid),
        ..st
    };
    let fed = crate::parser::feed_state(st4, l, nb)->Ok_0;
    assert(fed.msgid =~= key_disp(k));
    assert(fed.warnings =~= st4.warnings);
    assert(crate::parser::line_step(st, l, nb) matches Ok(s) && s =~= crate::parser::PState {
        msgid: key_disp(k),
        parsing: Some(crate::parser::Parsing::Msgid),
        phase: crate::parser::Phase::Pre,
        ..st
    });
}

/// Processing the synthetic `msgstr ""` line: the parsing mode turns to
/// `msgstr`, the phase seals the record, and the accumulators stay.
proof fn lemma_msgstr_line_step(st: crate::parser::PState, nb: usize)
    ensures
        crate::parser::line_step(st, msgstr_line(), nb) == Ok::<
            crate::parser::PState,
            crate::entry::PoError,
        >(
            crate::parser::PState {
                parsing: Some(crate::parser::Parsing::Msgstr),
                phase: crate::parser::Phase::Fin,
                ..st
            },
        ),
{
    reveal_strlit("msgstr \"\"");
    reveal_strlit("msgstr ");
    reveal_strlit("msgstr");
    reveal_strlit("msgid");
    reveal_strlit("#.");
    let l = msgstr_line();
    assert(l.len() == 9);
    assert(l[0] == 'm');
    assert forall|j: int| 0 <= j < 6 implies l[j] != ' ' by {}
    assert(l[6] == ' ');
    crate::seqtools::lemma_token_of(l, 6);
    let tok = crate::seqtools::token_of(l);
    assert(tok =~= "msgstr"@);
    assert(tok != "msgid"@) by {
        assert("msgid"@.len() == 5);
    }
    assert(tok != "#."@) by {
        assert("#."@.len() == 2);
    }
    assert forall|j: int| 0 <= j < "msgstr "@.len() implies (#[trigger] "msgstr "@[j]) != '"'
        by {}
    lemma_dec_run_outside("msgstr "@);
    assert(escape_clean(Seq::<char>::empty()));
    lemma_dec_run_escaped(Seq::<char>::empty());
    lemma_dec_run_append(dec_init(), "msgstr "@, escaped(Seq::<char>::empty()));
    assert(l =~= "msgstr "@ + escaped(Seq::<char>::empty())) by {
        assert(escaped(Seq::<char>::empty()) =~= seq!['"', '"']);
    }
    let d = decode_line(l);
    assert(d.out =~= Seq::<char>::empty());
    assert(!d.fatal && !d.unclosed && !d.unfinished);
    let st4 = crate::parser::PState {
        parsing: Some(crate::parser::Parsing::Msgstr),
        ..st
    };
    let fed = crate::parser::feed_state(st4, l, nb)->Ok_0;
    assert(fed.msgstr =~= st4.msgstr);
    assert(fed.warnings =~= st4.warnings);
    assert(fed =~= st4);
    assert(crate::parser::line_step(st, l, nb) matches Ok(s) && s =~= crate::parser::PState {
        parsing: Some(crate::parser::Parsing::Msgstr),
        phase: crate::parser::Phase::Fin,
        ..st
    });
}


/// The text the parser reconstructs from a grouping key: the marker suffix is
/// stripped; the empty key (serialized as one space) comes back empty.
pub open spec fn parsed_text(k: Seq<char>) -> Seq<char> {
    if k.len() == 0 {
        Seq::empty()
    } else {
        crate::seqtools::strip_marker(k)
    }
}

/// The entries one parsed record block yields: one per member, with the
/// reconstructed text.
pub open spec fn group_entries(g: (Seq<char>, Seq<EntryView>)) -> Seq<EntryView> {
    g.1.map_values(
        |e: EntryView|
            EntryView {
                text: parsed_text(g.0),
                hash: e.hash,
                unk: e.unk,
                source_file: e.source_file,
            },
    )
}

/// The entries a whole parsed catalog yields, block by block.
pub open spec fn all_entries(gs: Seq<(Seq<char>, Seq<EntryView>)>) -> Seq<EntryView>
    decreases gs.len(),
{
    if gs.len() == 0 {
        Seq::empty()
    } else {
        group_entries(gs[0]) + all_entries(gs.skip(1))
    }
}

pub proof fn lemma_all_entries_snoc(gs: Seq<(Seq<char>, Seq<EntryView>)>)
    requires
        gs.len() > 0,
    ensures
        all_entries(gs) == all_entries(gs.drop_last()) + group_entries(gs.last()),
    decreases gs.len(),
{
    if gs.len() == 1 {
        assert(gs.skip(1) =~= Seq::<(Seq<char>, Seq<EntryView>)>::empty());
        assert(gs.drop_last() =~= Seq::<(Seq<char>, Seq<EntryView>)>::empty());
        assert(all_entries(gs) =~= all_entries(gs.drop_last()) + group_entries(gs.last()));
    } else {
        lemma_all_entries_snoc(gs.skip(1));
        assert(gs.skip(1).drop_last() =~= gs.drop_last().skip(1));
        assert(gs.skip(1).last() == gs.last());
        assert(gs.drop_last()[0] == gs[0]);
        assert(all_entries(gs.drop_last()) == group_entries(gs[0]) + all_entries(
            gs.drop_last().skip(1),
        ));
        assert(all_entries(gs) =~= all_entries(gs.drop_last()) + group_entries(gs.last()));
    }
}

/// One comment line parses to one entry; a block's comment list parses to its
/// members with the reconstructed text.
proof fn lemma_comment_entries_group(text: Seq<char>, members: Seq<EntryView>, nb0: usize)
    requires
        forall|m: int| 0 <= m < members.len() ==> plain_name((#[trigger] members[m]).source_file),
        nb0 + members.len() <= usize::MAX,
    ensures
        crate::parser::comment_entries(text, group_comments(members, nb0)) == Ok::<
            Seq<EntryView>,
            crate::entry::PoError,
        >(
            members.map_values(
                |e: EntryView|
                    EntryView { text, hash: e.hash, unk: e.unk, source_file: e.source_file },
            ),
        ),
    decreases members.len(),
{
    let cs = group_comments(members, nb0);
    if members.len() == 0 {
        assert(cs =~= Seq::<(usize, Seq<char>)>::empty());
        assert(members.map_values(
            |e: EntryView|
                EntryView { text, hash: e.hash, unk: e.unk, source_file: e.source_file },
        ) =~= Seq::<EntryView>::empty());
    } else {
        let e = members[0];
        let f = e.source_file;
        let dh = dec_rep(e.hash as nat);
        let du = dec_rep(e.unk as nat);
        lemma_dec_rep_val(e.hash as nat);
        lemma_dec_rep_val(e.unk as nat);
        let content = comment_content(e);
        assert(cs[0] == ((nb0 + 0) as usize, content));
        // Split the content on spaces: exactly the three fields.
        assert forall|j: int| 0 <= j < f.len() implies content[j] != ' ' by {
            assert(content[j] == f[j]);
        }
        assert(content[f.len() as int] == ' ');
        crate::seqtools::lemma_split_on_peel(content, ' ', f.len() as int);
        assert(content.take(f.len() as int) =~= f);
        let rest = content.skip(f.len() as int + 1);
        assert(rest =~= (dh + seq![' ']) + du);
        assert forall|j: int| 0 <= j < dh.len() implies rest[j] != ' ' by {
            assert(rest[j] == dh[j]);
            assert(is_dec_digit(dh[j]));
        }
        assert(rest[dh.len() as int] == ' ');
        crate::seqtools::lemma_split_on_peel(rest, ' ', dh.len() as int);
        assert(rest.take(dh.len() as int) =~= dh);
        assert(rest.skip(dh.len() as int + 1) =~= du);
        assert forall|j: int| 0 <= j < du.len() implies du[j] != ' ' by {
            assert(is_dec_digit(du[j]));
        }
        crate::seqtools::lemma_split_on_no_sep(du, ' ');
        let parts = crate::seqtools::split_on(content, ' ');
        assert(parts =~= seq![f, dh, du]);
        assert(crate::digits::is_u32_dec(dh));
        assert(crate::digits::is_u32_dec(du));
        let e0 = EntryView { text, hash: e.hash, unk: e.unk, source_file: e.source_file };
        assert(crate::parser::comment_entry(text, cs[0]) == Ok::<EntryView, crate::entry::PoError>(
            e0,
        )) by {
            assert(crate::digits::dec_val(dh) as u32 == e.hash);
            assert(crate::digits::dec_val(du) as u32 == e.unk);
        }
        assert forall|m: int|
            0 <= m < members.skip(1).len() implies plain_name(
            (#[trigger] members.skip(1)[m]).source_file,
        ) by {
            assert(members.skip(1)[m] == members[m + 1]);
        }
        lemma_comment_entries_group(text, members.skip(1), (nb0 + 1) as usize);
        assert(cs.skip(1) =~= group_comments(members.skip(1), (nb0 + 1) as usize));
        let mapped = members.map_values(
            |x: EntryView|
                EntryView { text, hash: x.hash, unk: x.unk, source_file: x.source_file },
        );
        assert(seq![e0] + members.skip(1).map_values(
            |x: EntryView|
                EntryView { text, hash: x.hash, unk: x.unk, source_file: x.source_file },
        ) =~= mapped);
    }
}

/// Flushing the state a parsed block leaves behind yields exactly the block's
/// entries.
proof fn lemma_flush_group(k: Seq<char>, members: Seq<EntryView>, nb0: usize)
    requires
        good_key(k),
        members.len() > 0,
        forall|m: int| 0 <= m < members.len() ==> plain_name((#[trigger] members[m]).source_file),
        nb0 + members.len() <= usize::MAX,
    ensures
        crate::parser::flush_added(key_disp(k), Seq::empty(), group_comments(members, nb0))
            == Ok::<Seq<EntryView>, crate::entry::PoError>(group_entries((k, members))),
{
    assert(key_disp(k).len() > 0);
    assert(group_comments(members, nb0).len() == members.len());
    let text = parsed_text(k);
    assert(crate::parser::flush_text(key_disp(k), Seq::empty()) == text) by {
        if k.len() == 0 {
            assert(key_disp(k) =~= seq![' ']);
            crate::seqtools::lemma_first_match(Seq::<char>::empty(), crate::seqtools::marker());
            match crate::seqtools::first_match_from(
                Seq::<char>::empty(),
                crate::seqtools::marker(),
                0,
            ) {
                None => {},
                Some(i) => {
                    assert(Seq::<char>::empty().take(i) =~= Seq::<char>::empty());
                },
            }
            assert(crate::seqtools::strip_marker(Seq::<char>::empty()) =~= Seq::<char>::empty());
        } else {
            assert(key_disp(k) == k);
            assert(k != seq![' ']);
        }
    }
    lemma_comment_entries_group(text, members, nb0);
    assert(members.map_values(
        |e: EntryView| EntryView { text, hash: e.hash, unk: e.unk, source_file: e.source_file },
    ) =~= group_entries((k, members)));
}

/// Running the comment lines of a block appends the pending comment tuples and
/// moves nothing else.
proof fn lemma_run_comment_lines(members: Seq<EntryView>, st: crate::parser::PState, nb: usize)
    requires
        st.phase is Pre,
        st.parsing is None || st.parsing == Some(crate::parser::Parsing::Msgstr),
        forall|m: int| 0 <= m < members.len() ==> plain_name((#[trigger] members[m]).source_file),
        nb + members.len() <= usize::MAX,
    ensures
        crate::parser::run_lines(st, comment_lines_of(members), nb) == Ok::<
            crate::parser::PState,
            crate::entry::PoError,
        >(
            crate::parser::PState {
                comments: st.comments + group_comments(members, nb),
                ..st
            },
        ),
    decreases members.len(),
{
    if members.len() == 0 {
        assert(comment_lines_of(members) =~= Seq::<Seq<char>>::empty());
        assert(st.comments + group_comments(members, nb) =~= st.comments);
        assert(crate::parser::PState { comments: st.comments + group_comments(members, nb), ..st }
            =~= st);
    } else {
        let e = members[0];
        assert(comment_lines_of(members) =~= seq![cl(e)] + comment_lines_of(members.skip(1)));
        crate::parser::lemma_run_lines_append(
            st,
            seq![cl(e)],
            comment_lines_of(members.skip(1)),
            nb,
        );
        lemma_run_single(st, cl(e), nb);
        lemma_comment_line_step(st, e, nb);
        let st1 = crate::parser::PState {
            comments: st.comments.push((nb, comment_content(e))),
            phase: crate::parser::Phase::Pre,
            ..st
        };
        assert(crate::parser::line_step(st, cl(e), nb) == Ok::<
            crate::parser::PState,
            crate::entry::PoError,
        >(st1));
        assert forall|m: int|
            0 <= m < members.skip(1).len() implies plain_name(
            (#[trigger] members.skip(1)[m]).source_file,
        ) by {
            assert(members.skip(1)[m] == members[m + 1]);
        }
        lemma_run_comment_lines(members.skip(1), st1, (nb + 1) as usize);
        assert(st1.comments + group_comments(members.skip(1), (nb + 1) as usize) =~= st.comments
            + group_comments(members, nb));
        assert(crate::parser::PState {
            comments: st1.comments + group_comments(members.skip(1), (nb + 1) as usize),
            ..st1
        } =~= crate::parser::PState { comments: st.comments + group_comments(members, nb), ..st });
    }
}


/// A state from which a record block parses cleanly: either the very start of
/// the document, or the seam right after a previous block.
pub open spec fn ready_state(st: crate::parser::PState) -> bool {
    &&& st.msgstr == Seq::<char>::empty()
    &&& ((st.parsing is None && st.phase is Pre && st.msgid == Seq::<char>::empty() && st.comments
        == Seq::<(usize, Seq<char>)>::empty()) || (st.parsing == Some(crate::parser::Parsing::Msgstr)
        && st.phase is Fin))
    &&& crate::parser::flush_state(st) is Ok
}

/// The state a parsed block leaves behind: its key in the accumulator, its
/// comments pending, the previous record flushed.
pub open spec fn block_end(
    g: (Seq<char>, Seq<EntryView>),
    st: crate::parser::PState,
    nb0: usize,
) -> crate::parser::PState {
    crate::parser::PState {
        msgid: key_disp(g.0),
        msgstr: Seq::empty(),
        comments: group_comments(g.1, nb0),
        parsing: Some(crate::parser::Parsing::Msgstr),
        phase: crate::parser::Phase::Fin,
        entries: crate::parser::flush_state(st)->Ok_0.entries,
        warnings: st.warnings,
    }
}

/// Running the lines of one block from a ready state.
proof fn lemma_run_block(g: (Seq<char>, Seq<EntryView>), st: crate::parser::PState, nb0: usize)
    requires
        good_group(g),
        ready_state(st),
        nb0 + g.1.len() + 3 <= usize::MAX,
    ensures
        crate::parser::run_lines(st, block_lines(g), nb0) == Ok::<
            crate::parser::PState,
            crate::entry::PoError,
        >(block_end(g, st, nb0)),
{
    let members = g.1;
    let base = crate::parser::flush_state(st)->Ok_0;
    let st_c: crate::parser::PState;
    let nb_c: usize;
    let rest: Seq<EntryView>;
    // The first comment line flushes the pending record when one is sealed.
    if st.phase is Fin {
        lemma_comment_line_step(st, members[0], nb0);
        assert(base.msgid == Seq::<char>::empty() && base.msgstr == Seq::<char>::empty()
            && base.comments == Seq::<(usize, Seq<char>)>::empty()) by {
            if crate::parser::flush_noop(st.msgid, st.comments) {
                assert(base =~= st);
            }
        }
        let st1 = crate::parser::PState {
            comments: base.comments.push((nb0, comment_content(members[0]))),
            phase: crate::parser::Phase::Pre,
            ..base
        };
        assert(crate::parser::line_step(st, cl(members[0]), nb0) == Ok::<
            crate::parser::PState,
            crate::entry::PoError,
        >(st1));
        assert(comment_lines_of(members) =~= seq![cl(members[0])] + comment_lines_of(
            members.skip(1),
        ));
        crate::parser::lemma_run_lines_append(
            st,
            seq![cl(members[0])],
            comment_lines_of(members.skip(1)),
            nb0,
        );
        lemma_run_single(st, cl(members[0]), nb0);
        assert forall|m: int|
            0 <= m < members.skip(1).len() implies plain_name(
            (#[trigger] members.skip(1)[m]).source_file,
        ) by {
            assert(members.skip(1)[m] == members[m + 1]);
        }
        lemma_run_comment_lines(members.skip(1), st1, (nb0 + 1) as usize);
        st_c = crate::parser::PState {
            comments: st1.comments + group_comments(members.skip(1), (nb0 + 1) as usize),
            ..st1
        };
        assert(crate::parser::run_lines(st, comment_lines_of(members), nb0) == Ok::<
            crate::parser::PState,
            crate::entry::PoError,
        >(st_c));
        assert(st_c.comments =~= group_comments(members, nb0));
    } else {
        assert(base =~= st);
        lemma_run_comment_lines(members, st, nb0);
        st_c = crate::parser::PState { comments: st.comments + group_comments(members, nb0), ..st };
        assert(crate::parser::run_lines(st, comment_lines_of(members), nb0) == Ok::<
            crate::parser::PState,
            crate::entry::PoError,
        >(st_c));
        assert(st_c.comments =~= group_comments(members, nb0));
    }
    // Then the msgid line, the msgstr line, and the blank separator.
    let nb1 = (nb0 + members.len()) as usize;
    assert(escape_clean(key_disp(g.0))) by {
        if g.0.len() == 0 {
            assert(forall|i: int|
                0 <= i < key_disp(g.0).len() - 1 ==> (#[trigger] key_disp(g.0)[i]) != '\\');
        }
    }
    lemma_msgid_line_step(st_c, g.0, nb1);
    let st_m = crate::parser::PState {
        msgid: key_disp(g.0),
        parsing: Some(crate::parser::Parsing::Msgid),
        phase: crate::parser::Phase::Pre,
        ..st_c
    };
    lemma_msgstr_line_step(st_m, (nb1 + 1) as usize);
    let st_s = crate::parser::PState {
        parsing: Some(crate::parser::Parsing::Msgstr),
        phase: crate::parser::Phase::Fin,
        ..st_m
    };
    assert(crate::parser::line_step(st_s, Seq::<char>::empty(), (nb1 + 2) as usize) == Ok::<
        crate::parser::PState,
        crate::entry::PoError,
    >(st_s));
    let tail = seq![msgid_line(g.0), msgstr_line(), Seq::<char>::empty()];
    crate::parser::lemma_run_lines_append(st, comment_lines_of(members), tail, nb0);
    assert(tail =~= seq![msgid_line(g.0)] + (seq![msgstr_line()] + seq![Seq::<char>::empty()]));
    crate::parser::lemma_run_lines_append(
        st_c,
        seq![msgid_line(g.0)],
        seq![msgstr_line()] + seq![Seq::<char>::empty()],
        nb1,
    );
    lemma_run_single(st_c, msgid_line(g.0), nb1);
    crate::parser::lemma_run_lines_append(
        st_m,
        seq![msgstr_line()],
        seq![Seq::<char>::empty()],
        (nb1 + 1) as usize,
    );
    lemma_run_single(st_m, msgstr_line(), (nb1 + 1) as usize);
    lemma_run_single(st_s, Seq::<char>::empty(), (nb1 + 2) as usize);
    assert(block_lines(g) =~= comment_lines_of(members) + tail);
    assert(crate::parser::run_lines(st, block_lines(g), nb0) == Ok::<
        crate::parser::PState,
        crate::entry::PoError,
    >(st_s));
    assert(st_s =~= block_end(g, st, nb0));
}

/// Running the lines of a whole group list from a ready state: every block but
/// the last is flushed into the entry list; the last stays pending.
proof fn lemma_run_groups(gs: Seq<(Seq<char>, Seq<EntryView>)>, st: crate::parser::PState, nb0: usize)
    requires
        good_groups(gs),
        ready_state(st),
        nb0 + lines_of(gs).len() <= usize::MAX,
    ensures
        gs.len() == 0 ==> crate::parser::run_lines(st, lines_of(gs), nb0) == Ok::<
            crate::parser::PState,
            crate::entry::PoError,
        >(st),
        gs.len() > 0 ==> crate::parser::run_lines(st, lines_of(gs), nb0) == Ok::<
            crate::parser::PState,
            crate::entry::PoError,
        >(
            crate::parser::PState {
                msgid: key_disp(gs.last().0),
                msgstr: Seq::empty(),
                comments: group_comments(
                    gs.last().1,
                    (nb0 + lines_of(gs.drop_last()).len()) as usize,
                ),
                parsing: Some(crate::parser::Parsing::Msgstr),
                phase: crate::parser::Phase::Fin,
                entries: crate::parser::flush_state(st)->Ok_0.entries + all_entries(
                    gs.drop_last(),
                ),
                warnings: st.warnings,
            },
        ),
    decreases gs.len(),
{
    if gs.len() == 0 {
        assert(lines_of(gs) =~= Seq::<Seq<char>>::empty());
    } else {
        assert(good_group(gs[0]));
        assert(lines_of(gs) == block_lines(gs[0]) + lines_of(gs.skip(1)));
        assert(block_lines(gs[0]).len() == gs[0].1.len() + 3);
        crate::parser::lemma_run_lines_append(st, block_lines(gs[0]), lines_of(gs.skip(1)), nb0);
        lemma_run_block(gs[0], st, nb0);
        let st1 = block_end(gs[0], st, nb0);
        let nb1 = (nb0 + block_lines(gs[0]).len()) as usize;
        assert(ready_state(st1)) by {
            lemma_flush_group(gs[0].0, gs[0].1, nb0);
        }
        assert forall|g: int| 0 <= g < gs.skip(1).len() implies good_group(#[trigger] gs.skip(1)[g])
            by {
            assert(gs.skip(1)[g] == gs[g + 1]);
        }
        lemma_run_groups(gs.skip(1), st1, nb1);
        if gs.len() == 1 {
            assert(gs.skip(1).len() == 0);
            assert(gs.last() == gs[0]);
            assert(gs.drop_last() =~= Seq::<(Seq<char>, Seq<EntryView>)>::empty());
            assert(lines_of(gs.drop_last()).len() == 0);
            assert(all_entries(gs.drop_last()) =~= Seq::<EntryView>::empty());
            assert(crate::parser::flush_state(st)->Ok_0.entries + Seq::<EntryView>::empty()
                =~= crate::parser::flush_state(st)->Ok_0.entries);
            assert(st1 =~= crate::parser::PState {
                msgid: key_disp(gs.last().0),
                msgstr: Seq::empty(),
                comments: group_comments(
                    gs.last().1,
                    (nb0 + lines_of(gs.drop_last()).len()) as usize,
                ),
                parsing: Some(crate::parser::Parsing::Msgstr),
                phase: crate::parser::Phase::Fin,
                entries: crate::parser::flush_state(st)->Ok_0.entries + all_entries(
                    gs.drop_last(),
                ),
                warnings: st.warnings,
            });
        } else {
            assert(gs.skip(1).last() == gs.last());
            assert(gs.skip(1).drop_last() =~= gs.drop_last().skip(1));
            assert(gs.drop_last()[0] == gs[0]);
            // Line counts line up across the two decompositions.
            assert(lines_of(gs.drop_last()) == block_lines(gs[0]) + lines_of(
                gs.drop_last().skip(1),
            ));
            assert(nb1 + lines_of(gs.skip(1).drop_last()).len() == nb0 + lines_of(
                gs.drop_last(),
            ).len());
            // Flushing the first block's end state appends its entries.
            lemma_flush_group(gs[0].0, gs[0].1, nb0);
            assert(!crate::parser::flush_noop(st1.msgid, st1.comments)) by {
                assert(key_disp(gs[0].0).len() > 0);
            }
            assert(crate::parser::flush_state(st1)->Ok_0.entries == st1.entries + group_entries(
                gs[0],
            ));
            assert(all_entries(gs.drop_last()) == group_entries(gs[0]) + all_entries(
                gs.drop_last().skip(1),
            ));
            assert(crate::parser::flush_state(st)->Ok_0.entries + all_entries(gs.drop_last())
                =~= (crate::parser::flush_state(st)->Ok_0.entries + group_entries(gs[0]))
                + all_entries(gs.skip(1).drop_last()));
            assert(st1.warnings == st.warnings);
        }
    }
}


/// The block texts can also be peeled from the front.
proof fn lemma_blocks_text_first(gs: Seq<(Seq<char>, Seq<EntryView>)>)
    requires
        gs.len() > 0,
    ensures
        crate::writer::blocks_text(gs) == crate::writer::block_text(gs[0])
            + crate::writer::blocks_text(gs.skip(1)),
    decreases gs.len(),
{
    if gs.len() == 1 {
        assert(gs.drop_last() =~= Seq::<(Seq<char>, Seq<EntryView>)>::empty());
        assert(gs.skip(1) =~= Seq::<(Seq<char>, Seq<EntryView>)>::empty());
        assert(crate::writer::blocks_text(gs) =~= crate::writer::block_text(gs[0])
            + crate::writer::blocks_text(gs.skip(1)));
    } else {
        lemma_blocks_text_first(gs.drop_last());
        assert(gs.drop_last()[0] == gs[0]);
        assert(gs.drop_last().skip(1) =~= gs.skip(1).drop_last());
        assert(gs.skip(1).last() == gs.last());
        assert(crate::writer::blocks_text(gs) == crate::writer::blocks_text(gs.drop_last())
            + crate::writer::block_text(gs.last()));
        assert(crate::writer::blocks_text(gs.skip(1)) == crate::writer::blocks_text(
            gs.skip(1).drop_last(),
        ) + crate::writer::block_text(gs.skip(1).last()));
        assert(crate::writer::blocks_text(gs) =~= crate::writer::block_text(gs[0])
            + crate::writer::blocks_text(gs.skip(1)));
    }
}

/// The comment lines of a group, joined, are the writer's comment text.
proof fn lemma_unlines_comments(members: Seq<EntryView>)
    ensures
        unlines(comment_lines_of(members)) == crate::writer::comments_text(members),
    decreases members.len(),
{
    if members.len() == 0 {
        assert(comment_lines_of(members) =~= Seq::<Seq<char>>::empty());
    } else {
        lemma_unlines_comments(members.drop_last());
        assert(comment_lines_of(members) =~= comment_lines_of(members.drop_last()) + seq![
            cl(members.last()),
        ]);
        lemma_unlines_append(comment_lines_of(members.drop_last()), seq![cl(members.last())]);
        assert(seq![cl(members.last())].skip(1) =~= Seq::<Seq<char>>::empty());
        assert(unlines(seq![cl(members.last())]) =~= crate::writer::comment_line(members.last()))
            by {
            reveal_with_fuel(unlines, 2);
            assert(unlines(seq![cl(members.last())]) =~= (cl(members.last()) + seq!['\n'])
                + Seq::<char>::empty());
        }
        assert(unlines(comment_lines_of(members)) =~= crate::writer::comments_text(members));
    }
}

/// One block's lines, joined, are the writer's block text.
proof fn lemma_unlines_block(g: (Seq<char>, Seq<EntryView>))
    ensures
        unlines(block_lines(g)) == crate::writer::block_text(g),
{
    let tail = seq![msgid_line(g.0), msgstr_line(), Seq::<char>::empty()];
    lemma_unlines_append(comment_lines_of(g.1), tail);
    lemma_unlines_comments(g.1);
    reveal_strlit("msgstr \"\"");
    reveal_strlit("\nmsgstr \"\"\n\n");
    assert(tail.skip(1) =~= seq![msgstr_line(), Seq::<char>::empty()]);
    assert(tail.skip(1).skip(1) =~= seq![Seq::<char>::empty()]);
    assert(tail.skip(1).skip(1).skip(1) =~= Seq::<Seq<char>>::empty());
    assert(unlines(tail) =~= (msgid_line(g.0) + seq!['\n']) + ((msgstr_line() + seq!['\n']) + (
    (Seq::<char>::empty() + seq!['\n']) + Seq::<char>::empty()))) by {
        reveal_with_fuel(unlines, 4);
    }
    assert(seq!['\n'] + ((msgstr_line() + seq!['\n']) + ((Seq::<char>::empty() + seq!['\n'])
        + Seq::<char>::empty())) =~= "\nmsgstr \"\"\n\n"@);
    assert(unlines(tail) =~= msgid_line(g.0) + "\nmsgstr \"\"\n\n"@);
    assert(unlines(block_lines(g)) =~= crate::writer::block_text(g));
}

/// The whole catalog text is the group lines, joined.
proof fn lemma_unlines_groups(gs: Seq<(Seq<char>, Seq<EntryView>)>)
    ensures
        unlines(lines_of(gs)) == crate::writer::blocks_text(gs),
    decreases gs.len(),
{
    if gs.len() == 0 {
        assert(lines_of(gs) =~= Seq::<Seq<char>>::empty());
        assert(unlines(lines_of(gs)) =~= crate::writer::blocks_text(gs));
    } else {
        lemma_blocks_text_first(gs);
        lemma_unlines_append(block_lines(gs[0]), lines_of(gs.skip(1)));
        lemma_unlines_block(gs[0]);
        lemma_unlines_groups(gs.skip(1));
    }
}

/// Every line a good group list emits is a good line.
proof fn lemma_lines_good(gs: Seq<(Seq<char>, Seq<EntryView>)>)
    requires
        good_groups(gs),
    ensures
        forall|i: int| 0 <= i < lines_of(gs).len() ==> good_line(#[trigger] lines_of(gs)[i]),
    decreases gs.len(),
{
    if gs.len() == 0 {
    } else {
        assert(good_group(gs[0]));
        assert forall|g: int| 0 <= g < gs.skip(1).len() implies good_group(#[trigger] gs.skip(1)[g])
            by {
            assert(gs.skip(1)[g] == gs[g + 1]);
        }
        lemma_lines_good(gs.skip(1));
        let bl = block_lines(gs[0]);
        assert forall|i: int| 0 <= i < bl.len() implies good_line(#[trigger] bl[i]) by {
            let members = gs[0].1;
            if i < members.len() {
                assert(bl[i] == cl(members[i]));
                lemma_cl_facts(members[i]);
            } else if i == members.len() {
                assert(bl[i] == msgid_line(gs[0].0));
                lemma_msgid_line_good(gs[0].0);
            } else if i == members.len() + 1 {
                assert(bl[i] == msgstr_line());
                reveal_strlit("msgstr \"\"");
                assert(good_line(msgstr_line()));
            } else {
                assert(bl[i] =~= Seq::<char>::empty());
            }
        }
        assert forall|i: int|
            0 <= i < lines_of(gs).len() implies good_line(#[trigger] lines_of(gs)[i]) by {
            if i < bl.len() {
                assert(lines_of(gs)[i] == bl[i]);
            } else {
                assert(lines_of(gs)[i] == lines_of(gs.skip(1))[i - bl.len()]);
            }
        }
    }
}

/// The msgid line keeps to one line: escaping leaves no raw newline or
/// carriage return, and the line ends with a quote.
proof fn lemma_msgid_line_good(k: Seq<char>)
    ensures
        good_line(msgid_line(k)),
{
    reveal_strlit("msgid ");
    let l = msgid_line(k);
    let body = esc_body(key_disp(k));
    lemma_esc_body_chars(key_disp(k));
    assert(l =~= "msgid "@ + (seq!['"'] + body + seq!['"']));
    assert forall|j: int| 0 <= j < l.len() implies (#[trigger] l[j]) != '\n' by {
        if j < 6 {
            assert(l[j] == "msgid "@[j]);
        } else if j == 6 {
            assert(l[j] == '"');
        } else if j < 7 + body.len() {
            assert(l[j] == body[j - 7]);
        } else {
            assert(l[j] == '"');
        }
    }
    assert(l.last() == '"');
}

/// The catalog text of a good group list parses back to exactly one entry per
/// comment line, with the key's text (marker suffix stripped, empty key
/// restored to the empty text), in block order — and with no warning.
pub proof fn lemma_parse_catalog(gs: Seq<(Seq<char>, Seq<EntryView>)>)
    requires
        good_groups(gs),
        lines_of(gs).len() + 1 <= usize::MAX,
    ensures
        crate::parser::parse_po_spec(crate::writer::blocks_text(gs)) == Ok::<
            (Seq<EntryView>, Seq<crate::entry::WarningView>),
            crate::entry::PoError,
        >((all_entries(gs), Seq::empty())),
{
    lemma_unlines_groups(gs);
    lemma_lines_good(gs);
    lemma_split_lines_unlines(lines_of(gs));
    let init = crate::parser::init_pstate();
    assert(ready_state(init)) by {
        assert(crate::parser::flush_noop(init.msgid, init.comments));
    }
    lemma_run_groups(gs, init, 0);
    if gs.len() == 0 {
        assert(crate::parser::flush_state(init) == Ok::<
            crate::parser::PState,
            crate::entry::PoError,
        >(init));
        assert(all_entries(gs) =~= Seq::<EntryView>::empty());
    } else {
        let nb_last = (0 + lines_of(gs.drop_last()).len()) as usize;
        let mid = crate::parser::PState {
            msgid: key_disp(gs.last().0),
            msgstr: Seq::empty(),
            comments: group_comments(gs.last().1, nb_last),
            parsing: Some(crate::parser::Parsing::Msgstr),
            phase: crate::parser::Phase::Fin,
            entries: crate::parser::flush_state(init)->Ok_0.entries + all_entries(gs.drop_last()),
            warnings: init.warnings,
        };
        assert(crate::parser::run_lines(init, lines_of(gs), 0) == Ok::<
            crate::parser::PState,
            crate::entry::PoError,
        >(mid));
        assert(good_group(gs.last()));
        assert(nb_last + gs.last().1.len() <= usize::MAX) by {
            lemma_lines_len_snoc(gs);
        }
        lemma_flush_group(gs.last().0, gs.last().1, nb_last);
        assert(!crate::parser::flush_noop(mid.msgid, mid.comments)) by {
            assert(key_disp(gs.last().0).len() > 0);
        }
        let fin = crate::parser::flush_state(mid)->Ok_0;
        assert(fin.entries == mid.entries + group_entries(gs.last()));
        lemma_all_entries_snoc(gs);
        assert(crate::parser::flush_state(init)->Ok_0.entries =~= Seq::<EntryView>::empty());
        assert(fin.entries =~= all_entries(gs));
        assert(fin.warnings =~= Seq::<crate::entry::WarningView>::empty());
    }
}

/// The last block's lines fit inside the whole line count.
proof fn lemma_lines_len_snoc(gs: Seq<(Seq<char>, Seq<EntryView>)>)
    requires
        gs.len() > 0,
    ensures
        lines_of(gs).len() == lines_of(gs.drop_last()).len() + gs.last().1.len() + 3,
    decreases gs.len(),
{
    if gs.len() == 1 {
        assert(gs.drop_last() =~= Seq::<(Seq<char>, Seq<EntryView>)>::empty());
        assert(lines_of(gs) == block_lines(gs[0]) + lines_of(gs.skip(1)));
        assert(gs.skip(1) =~= Seq::<(Seq<char>, Seq<EntryView>)>::empty());
    } else {
        lemma_lines_len_snoc(gs.skip(1));
        assert(gs.skip(1).last() == gs.last());
        assert(gs.skip(1).drop_last() =~= gs.drop_last().skip(1));
        assert(gs.drop_last()[0] == gs[0]);
        assert(lines_of(gs.drop_last()) == block_lines(gs[0]) + lines_of(gs.drop_last().skip(1)));
        assert(lines_of(gs) == block_lines(gs[0]) + lines_of(gs.skip(1)));
    }
}


/// The members of all groups, in group order.
pub open spec fn members_concat(gs: Seq<(Seq<char>, Seq<EntryView>)>) -> Seq<EntryView>
    decreases gs.len(),
{
    if gs.len() == 0 {
        Seq::empty()
    } else {
        gs[0].1 + members_concat(gs.skip(1))
    }
}

/// A sequence without the marker is not changed by stripping it.
pub proof fn lemma_strip_marker_absent(s: Seq<char>)
    requires
        !crate::seqtools::seq_contains(s, crate::seqtools::marker()),
    ensures
        crate::seqtools::strip_marker(s) == s,
{
    crate::seqtools::lemma_first_match(s, crate::seqtools::marker());
    match crate::seqtools::first_match_from(s, crate::seqtools::marker(), 0) {
        None => {},
        Some(i) => {
            assert(crate::seqtools::seq_contains(s, crate::seqtools::marker()));
        },
    }
}

/// Stripping a text with the marker and a suffix appended gives the text back,
/// as long as the text itself avoids the marker's sentinel character.
pub proof fn lemma_strip_marker_appended(t: Seq<char>, suffix: Seq<char>)
    requires
        forall|j: int| 0 <= j < t.len() ==> (#[trigger] t[j]) != '\u{167}',
    ensures
        crate::seqtools::strip_marker(t + crate::seqtools::marker() + suffix) == t,
{
    reveal_strlit("\u{167}discrimator\u{167}");
    let m = crate::seqtools::marker();
    assert(m.len() == 13);
    assert(m[0] == '\u{167}');
    let key = t + m + suffix;
    assert(crate::seqtools::contains_at(key, t.len() as int, m)) by {
        assert(key.subrange(t.len() as int, t.len() as int + m.len() as int) =~= m);
    }
    crate::seqtools::lemma_first_match(key, m);
    match crate::seqtools::first_match_from(key, m, 0) {
        None => {
            assert(false);
        },
        Some(i) => {
            if i < t.len() {
                assert(key.subrange(i, i + m.len())[0] == m[0]);
                assert(key[i] == t[i]);
                assert(false);
            } else if i > t.len() {
                assert(!crate::seqtools::contains_at(key, t.len() as int, m));
                assert(false);
            }
            assert(i == t.len());
            assert(key.take(i) =~= t);
        },
    }
}

/// Where the search lands, the key there matches (the construction side of the
/// first-key search).
proof fn lemma_find_key_props(gs: Seq<(Seq<char>, Seq<EntryView>)>, k: Seq<char>)
    ensures
        match crate::writer::find_key(gs, k) {
            Some(j) => 0 <= j < gs.len() && gs[j].0 == k,
            None => true,
        },
    decreases gs.len(),
{
    if gs.len() == 0 {
    } else if gs[0].0 == k {
    } else {
        lemma_find_key_props(gs.skip(1), k);
        match crate::writer::find_key(gs.skip(1), k) {
            Some(j) => {
                assert(gs.skip(1)[j] == gs[j + 1]);
            },
            None => {},
        }
    }
}

/// Appending a member into one group inserts it into the member multiset.
proof fn lemma_members_concat_update(
    gs: Seq<(Seq<char>, Seq<EntryView>)>,
    j: int,
    k: Seq<char>,
    e: EntryView,
)
    requires
        0 <= j < gs.len(),
    ensures
        members_concat(gs.update(j, (k, gs[j].1.push(e)))).to_multiset() == members_concat(
            gs,
        ).to_multiset().insert(e),
    decreases gs.len(),
{
    broadcast use vstd::seq_lib::group_to_multiset_ensures;

    let upd = gs.update(j, (k, gs[j].1.push(e)));
    if j == 0 {
        assert(upd[0].1 == gs[0].1.push(e));
        assert(upd.skip(1) =~= gs.skip(1));
        vstd::seq_lib::lemma_multiset_commutative(gs[0].1.push(e), members_concat(gs.skip(1)));
        vstd::seq_lib::lemma_multiset_commutative(gs[0].1, members_concat(gs.skip(1)));
        assert(gs[0].1.push(e).to_multiset() =~= gs[0].1.to_multiset().insert(e));
        assert(members_concat(upd).to_multiset() =~= members_concat(gs).to_multiset().insert(e));
    } else {
        assert(upd[0] == gs[0]);
        assert(upd.skip(1) =~= gs.skip(1).update(j - 1, (k, gs.skip(1)[j - 1].1.push(e))));
        assert(gs.skip(1)[j - 1] == gs[j]);
        lemma_members_concat_update(gs.skip(1), j - 1, k, e);
        vstd::seq_lib::lemma_multiset_commutative(gs[0].1, members_concat(upd.skip(1)));
        vstd::seq_lib::lemma_multiset_commutative(gs[0].1, members_concat(gs.skip(1)));
        assert(members_concat(upd).to_multiset() =~= members_concat(gs).to_multiset().insert(e));
    }
}

/// What grouping with no triggers guarantees: each group nonempty, every
/// member's text is its group's key, the members are a permutation of the
/// entries, and there are at most as many groups as entries.
proof fn lemma_groups_no_triggers(entries: Seq<EntryView>)
    ensures
        ({
            let gs = crate::writer::groups_of(entries, Seq::empty());
            &&& gs.len() <= entries.len()
            &&& forall|g: int| 0 <= g < gs.len() ==> (#[trigger] gs[g]).1.len() > 0
            &&& forall|g: int, m: int|
                0 <= g < gs.len() && 0 <= m < gs[g].1.len() ==> (#[trigger] gs[g].1[m]).text
                    == gs[g].0 && entries.contains(gs[g].1[m])
            &&& members_concat(gs).to_multiset() == entries.to_multiset()
        }),
    decreases entries.len(),
{
    broadcast use vstd::seq_lib::group_to_multiset_ensures;

    let triggers = Seq::<Seq<char>>::empty();
    let gs = crate::writer::groups_of(entries, triggers);
    if entries.len() == 0 {
        assert(members_concat(gs) =~= Seq::<EntryView>::empty());
        assert(members_concat(gs).to_multiset() =~= entries.to_multiset());
    } else {
        let p = entries.drop_last();
        let e = entries.last();
        lemma_groups_no_triggers(p);
        let gs0 = crate::writer::groups_of(p, triggers);
        assert(!crate::writer::is_discriminated(e.text, triggers));
        let k = crate::writer::entry_key(e, triggers);
        assert(k == e.text);
        lemma_find_key_props(gs0, k);
        assert forall|x: EntryView| p.contains(x) implies entries.contains(x) by {
            let i = choose|i: int| 0 <= i < p.len() && p[i] == x;
            assert(entries[i] == x);
        }
        match crate::writer::find_key(gs0, k) {
            Some(j) => {
                assert(gs == gs0.update(j, (k, gs0[j].1.push(e))));
                lemma_members_concat_update(gs0, j, k, e);
                assert(p.push(e) =~= entries);
                assert(entries.to_multiset() =~= p.to_multiset().insert(e));
                assert(entries.contains(e)) by {
                    assert(entries[entries.len() - 1] == e);
                }
                assert forall|g: int, m: int|
                    0 <= g < gs.len() && 0 <= m < gs[g].1.len() implies (#[trigger] gs[g].1[
                m]).text == gs[g].0 && entries.contains(gs[g].1[m]) by {
                    if g == j {
                        if m < gs0[j].1.len() {
                            assert(gs[g].1[m] == gs0[j].1[m]);
                        } else {
                            assert(gs[g].1[m] == e);
                        }
                    } else {
                        assert(gs[g] == gs0[g]);
                    }
                }
            },
            None => {
                assert(gs == gs0.push((k, seq![e])));
                assert(members_concat(gs).to_multiset() =~= entries.to_multiset()) by {
                    lemma_members_concat_snoc(gs0, (k, seq![e]));
                    vstd::seq_lib::lemma_multiset_commutative(members_concat(gs0), seq![e]);
                    assert(seq![e].to_multiset() =~= Multiset::<EntryView>::empty().insert(e)) by {
                        assert(seq![e].drop_last() =~= Seq::<EntryView>::empty());
                        assert(Seq::<EntryView>::empty().push(e) =~= seq![e]);
                    }
                    assert(p.push(e) =~= entries);
                    assert(entries.to_multiset() =~= p.to_multiset().insert(e));
                }
                assert(entries.contains(e)) by {
                    assert(entries[entries.len() - 1] == e);
                }
                assert forall|g: int, m: int|
                    0 <= g < gs.len() && 0 <= m < gs[g].1.len() implies (#[trigger] gs[g].1[
                m]).text == gs[g].0 && entries.contains(gs[g].1[m]) by {
                    if g < gs0.len() {
                        assert(gs[g] == gs0[g]);
                    } else {
                        assert(gs[g].1 =~= seq![e]);
                    }
                }
            },
        }
    }
}

/// Concatenated members peel from the right too.
proof fn lemma_members_concat_snoc(
    gs: Seq<(Seq<char>, Seq<EntryView>)>,
    g: (Seq<char>, Seq<EntryView>),
)
    ensures
        members_concat(gs.push(g)) == members_concat(gs) + g.1,
    decreases gs.len(),
{
    if gs.len() == 0 {
        assert(gs.push(g)[0] == g);
        assert(gs.push(g).skip(1) =~= Seq::<(Seq<char>, Seq<EntryView>)>::empty());
        assert(members_concat(Seq::<(Seq<char>, Seq<EntryView>)>::empty())
            =~= Seq::<EntryView>::empty());
        assert(members_concat(gs.push(g)) =~= members_concat(gs) + g.1);
    } else {
        assert(gs.push(g)[0] == gs[0]);
        assert(gs.push(g).skip(1) =~= gs.skip(1).push(g));
        lemma_members_concat_snoc(gs.skip(1), g);
        assert(members_concat(gs.push(g)) =~= members_concat(gs) + g.1);
    }
}

/// The emitted line count is bounded by the entries and groups together.
proof fn lemma_lines_count(gs: Seq<(Seq<char>, Seq<EntryView>)>)
    ensures
        lines_of(gs).len() == members_concat(gs).len() + 3 * gs.len(),
    decreases gs.len(),
{
    if gs.len() == 0 {
    } else {
        lemma_lines_count(gs.skip(1));
    }
}


/// Every member's text equals its group key and no key holds the marker: the
/// parsed entries are then exactly the members.
proof fn lemma_all_entries_texts(gs: Seq<(Seq<char>, Seq<EntryView>)>)
    requires
        forall|g: int|
            0 <= g < gs.len() ==> !crate::seqtools::seq_contains(
                (#[trigger] gs[g]).0,
                crate::seqtools::marker(),
            ),
        forall|g: int, m: int|
            0 <= g < gs.len() && 0 <= m < gs[g].1.len() ==> (#[trigger] gs[g].1[m]).text
                == gs[g].0,
    ensures
        all_entries(gs) == members_concat(gs),
    decreases gs.len(),
{
    if gs.len() == 0 {
    } else {
        assert(group_entries(gs[0]) =~= gs[0].1) by {
            if gs[0].0.len() == 0 {
            } else {
                lemma_strip_marker_absent(gs[0].0);
            }
            assert forall|m: int|
                0 <= m < gs[0].1.len() implies group_entries(gs[0])[m] == gs[0].1[m] by {
                assert(gs[0].1[m].text == gs[0].0);
                assert(group_entries(gs[0])[m] =~= gs[0].1[m]);
            }
        }
        assert forall|g: int, m: int|
            0 <= g < gs.skip(1).len() && 0 <= m < gs.skip(1)[g].1.len() implies (#[trigger] gs.skip(
            1,
        )[g].1[m]).text == gs.skip(1)[g].0 by {
            assert(gs.skip(1)[g] == gs[g + 1]);
        }
        assert forall|g: int|
            0 <= g < gs.skip(1).len() implies !crate::seqtools::seq_contains(
            (#[trigger] gs.skip(1)[g]).0,
            crate::seqtools::marker(),
        ) by {
            assert(gs.skip(1)[g] == gs[g + 1]);
        }
        lemma_all_entries_texts(gs.skip(1));
        assert(all_entries(gs) =~= members_concat(gs));
    }
}

/// Deduplication: two entries with the same text and no trigger configured
/// fall into exactly one group, in input order, so the catalog shows one
/// record with two comment lines followed by one `msgid` block.
pub proof fn lemma_deduplication(e1: EntryView, e2: EntryView)
    requires
        e1.text == e2.text,
    ensures
        crate::writer::groups_of(seq![e1, e2], Seq::empty()) == seq![(e1.text, seq![e1, e2])],
        crate::writer::pot_text(seq![e1, e2], Seq::empty()) == crate::writer::comment_line(e1)
            + crate::writer::comment_line(e2) + crate::writer::msgid_block(e1.text),
{
    let triggers = Seq::<Seq<char>>::empty();
    let both = seq![e1, e2];
    let t = e1.text;
    assert(!crate::writer::is_discriminated(t, triggers));
    assert(crate::writer::entry_key(e1, triggers) == t);
    assert(crate::writer::entry_key(e2, triggers) == t);
    assert(both.drop_last() =~= seq![e1]);
    assert(both.last() == e2);
    let one = seq![e1];
    assert(one.drop_last() =~= Seq::<EntryView>::empty());
    assert(one.last() == e1);
    let gs1 = crate::writer::groups_of(one, triggers);
    assert(crate::writer::groups_of(Seq::<EntryView>::empty(), triggers) == Seq::<
        (Seq<char>, Seq<EntryView>),
    >::empty());
    assert(crate::writer::find_key(Seq::<(Seq<char>, Seq<EntryView>)>::empty(), t) is None);
    assert(gs1 == Seq::<(Seq<char>, Seq<EntryView>)>::empty().push((t, seq![e1])));
    assert(gs1 =~= seq![(t, seq![e1])]);
    let gs = crate::writer::groups_of(both, triggers);
    assert(crate::writer::find_key(gs1, t) == Some(0int));
    assert(gs =~= seq![(t, seq![e1, e2])]) by {
        assert(gs1[0] == (t, seq![e1]));
        assert(gs == gs1.update(0, (t, gs1[0].1.push(e2))));
        assert(seq![e1].push(e2) =~= seq![e1, e2]);
    }
    let g = (t, seq![e1, e2]);
    assert(crate::writer::blocks_text(gs) =~= crate::writer::block_text(g)) by {
        assert(gs.drop_last() =~= Seq::<(Seq<char>, Seq<EntryView>)>::empty());
        assert(crate::writer::blocks_text(Seq::<(Seq<char>, Seq<EntryView>)>::empty()) == Seq::<
            char,
        >::empty());
        assert(gs.last() == g);
        assert(Seq::<char>::empty() + crate::writer::block_text(g) =~= crate::writer::block_text(
            g,
        ));
    }
    assert(crate::writer::comments_text(seq![e1, e2]) =~= crate::writer::comment_line(e1)
        + crate::writer::comment_line(e2)) by {
        assert(seq![e1, e2].drop_last() =~= seq![e1]);
        assert(seq![e1].drop_last() =~= Seq::<EntryView>::empty());
        assert(seq![e1, e2].last() == e2);
        assert(seq![e1].last() == e1);
        assert(crate::writer::comments_text(Seq::<EntryView>::empty()) == Seq::<char>::empty());
        assert(Seq::<char>::empty() + crate::writer::comment_line(e1) =~= crate::writer::comment_line(e1));
        assert(crate::writer::comments_text(seq![e1]) =~= crate::writer::comment_line(e1));
    }
    assert(crate::writer::pot_text(both, triggers) =~= crate::writer::comment_line(e1)
        + crate::writer::comment_line(e2) + crate::writer::msgid_block(t));
}


/// Disambiguation: two entries with the same trigger-matching text but
/// different slots get two distinct records, and the catalog parses back to
/// the two entries themselves, marker suffix fully stripped. The text must be
/// escape-clean and avoid the marker's sentinel character, and the source-file
/// names must be plain and backslash-free.
pub proof fn lemma_disambiguation(e1: EntryView, e2: EntryView, triggers: Seq<Seq<char>>)
    requires
        e1.text == e2.text,
        crate::writer::is_discriminated(e1.text, triggers),
        !(e1.source_file == e2.source_file && e1.hash == e2.hash),
        plain_name(e1.source_file),
        plain_name(e2.source_file),
        forall|j: int|
            0 <= j < e1.source_file.len() ==> (#[trigger] e1.source_file[j]) != '\\',
        forall|j: int|
            0 <= j < e2.source_file.len() ==> (#[trigger] e2.source_file[j]) != '\\',
        escape_clean(e1.text),
        forall|j: int| 0 <= j < e1.text.len() ==> (#[trigger] e1.text[j]) != '\u{167}',
    ensures
        crate::writer::groups_of(seq![e1, e2], triggers).len() == 2,
        crate::parser::parse_po_spec(crate::writer::pot_text(seq![e1, e2], triggers)) == Ok::<
            (Seq<EntryView>, Seq<crate::entry::WarningView>),
            crate::entry::PoError,
        >((seq![e1, e2], Seq::empty())),
{
    reveal_strlit("\u{167}discrimator\u{167}");
    let m = crate::seqtools::marker();
    assert(m.len() == 13);
    let t = e1.text;
    let both = seq![e1, e2];
    let suf1 = e1.source_file + seq![' '] + dec_rep(e1.hash as nat);
    let suf2 = e2.source_file + seq![' '] + dec_rep(e2.hash as nat);
    let k1 = crate::writer::entry_key(e1, triggers);
    let k2 = crate::writer::entry_key(e2, triggers);
    assert(k1 == t + m + suf1 && k2 == t + m + suf2) by {
        assert(t + m + e1.source_file + seq![' '] + dec_rep(e1.hash as nat) =~= t + m + suf1);
        assert(t + m + e2.source_file + seq![' '] + dec_rep(e2.hash as nat) =~= t + m + suf2);
        assert(crate::writer::is_discriminated(e2.text, triggers));
    }
    lemma_dec_rep_val(e1.hash as nat);
    lemma_dec_rep_val(e2.hash as nat);
    // The two keys differ: equal keys would force equal names and hashes.
    assert(k1 != k2) by {
        if k1 == k2 {
            assert(suf1 =~= k1.skip(t.len() + m.len() as int));
            assert(suf2 =~= k2.skip(t.len() + m.len() as int));
            assert(suf1 == suf2);
            let f1 = e1.source_file;
            let f2 = e2.source_file;
            assert forall|j: int| 0 <= j < f1.len() implies suf1[j] != ' ' by {
                assert(suf1[j] == f1[j]);
            }
            assert(suf1[f1.len() as int] == ' ');
            crate::seqtools::lemma_token_of(suf1, f1.len() as int);
            assert forall|j: int| 0 <= j < f2.len() implies suf2[j] != ' ' by {
                assert(suf2[j] == f2[j]);
            }
            assert(suf2[f2.len() as int] == ' ');
            crate::seqtools::lemma_token_of(suf2, f2.len() as int);
            assert(suf1.take(f1.len() as int) =~= f1);
            assert(suf2.take(f2.len() as int) =~= f2);
            assert(f1 == f2);
            assert(suf1.skip(f1.len() as int + 1) =~= dec_rep(e1.hash as nat));
            assert(suf2.skip(f2.len() as int + 1) =~= dec_rep(e2.hash as nat));
            crate::digits::lemma_dec_rep_injective(e1.hash as nat, e2.hash as nat);
            assert(false);
        }
    }
    // Build the two groups.
    assert(both.drop_last() =~= seq![e1]);
    assert(both.last() == e2);
    let one = seq![e1];
    assert(one.drop_last() =~= Seq::<EntryView>::empty());
    assert(one.last() == e1);
    assert(crate::writer::groups_of(Seq::<EntryView>::empty(), triggers) == Seq::<
        (Seq<char>, Seq<EntryView>),
    >::empty());
    assert(crate::writer::find_key(Seq::<(Seq<char>, Seq<EntryView>)>::empty(), k1) is None);
    let gs1 = crate::writer::groups_of(one, triggers);
    assert(gs1 =~= seq![(k1, seq![e1])]);
    let gs = crate::writer::groups_of(both, triggers);
    assert(crate::writer::find_key(gs1.skip(1), k2) is None) by {
        assert(gs1.skip(1) =~= Seq::<(Seq<char>, Seq<EntryView>)>::empty());
    }
    assert(crate::writer::find_key(gs1, k2) is None);
    assert(gs =~= seq![(k1, seq![e1]), (k2, seq![e2])]);
    // The groups are good: clean keys, plain names.
    assert(escape_clean(k1) && escape_clean(k2)) by {
        lemma_key_clean(t, e1.source_file, e1.hash);
        lemma_key_clean(t, e2.source_file, e2.hash);
    }
    assert(k1 != seq![' '] && k2 != seq![' ']) by {
        assert(k1.len() >= t.len() + 13);
        assert(k2.len() >= t.len() + 13);
    }
    assert(good_groups(gs)) by {
        assert(good_group(gs[0])) by {
            assert(gs[0].1 =~= seq![e1]);
            assert forall|q: int| 0 <= q < gs[0].1.len() implies plain_name(
                (#[trigger] gs[0].1[q]).source_file,
            ) by {
                assert(gs[0].1[q] == e1);
            }
        }
        assert(good_group(gs[1])) by {
            assert(gs[1].1 =~= seq![e2]);
            assert forall|q: int| 0 <= q < gs[1].1.len() implies plain_name(
                (#[trigger] gs[1].1[q]).source_file,
            ) by {
                assert(gs[1].1[q] == e2);
            }
        }
        assert forall|g: int| 0 <= g < gs.len() implies good_group(#[trigger] gs[g]) by {
            if g == 0 {
            } else {
                assert(gs[g] == gs[1]);
            }
        }
    }
    lemma_lines_count(gs);
    assert(members_concat(gs).len() == 2) by {
        reveal_with_fuel(members_concat, 3);
        assert(members_concat(gs.skip(1).skip(1)) =~= Seq::<EntryView>::empty()) by {
            assert(gs.skip(1).skip(1) =~= Seq::<(Seq<char>, Seq<EntryView>)>::empty());
        }
        assert(gs.skip(1)[0] == gs[1]);
        assert(members_concat(gs) =~= seq![e1, e2]);
    }
    lemma_parse_catalog(gs);
    // The parsed entries are the originals: the marker suffix strips away.
    lemma_strip_marker_appended(t, suf1);
    lemma_strip_marker_appended(t, suf2);
    assert(all_entries(gs) =~= seq![e1, e2]) by {
        reveal_with_fuel(all_entries, 3);
        assert(all_entries(gs.skip(1).skip(1)) =~= Seq::<EntryView>::empty()) by {
            assert(gs.skip(1).skip(1) =~= Seq::<(Seq<char>, Seq<EntryView>)>::empty());
        }
        assert(gs.skip(1)[0] == gs[1]);
        assert(parsed_text(k1) == t && parsed_text(k2) == t);
        assert(group_entries(gs[0]) =~= seq![e1]) by {
            assert(group_entries(gs[0])[0] =~= e1);
        }
        assert(group_entries(gs[1]) =~= seq![e2]) by {
            assert(group_entries(gs[1])[0] =~= e2);
        }
    }
}

/// A disambiguated key is escape-clean: its backslashes all lie in the clean
/// text, and what follows the text starts with the marker's sentinel.
proof fn lemma_key_clean(t: Seq<char>, f: Seq<char>, hash: u32)
    requires
        escape_clean(t),
        forall|j: int| 0 <= j < f.len() ==> (#[trigger] f[j]) != '\\',
    ensures
        escape_clean(t + crate::seqtools::marker() + (f + seq![' '] + dec_rep(hash as nat))),
{
    reveal_strlit("\u{167}discrimator\u{167}");
    let m = crate::seqtools::marker();
    let dh = dec_rep(hash as nat);
    lemma_dec_rep_val(hash as nat);
    let k = t + m + (f + seq![' '] + dh);
    assert forall|i: int|
        0 <= i < k.len() - 1 && (#[trigger] k[i]) == '\\' implies k[i + 1] != 'x' && k[i + 1]
        != 'r' by {
        assert(m.len() == 13);
        assert forall|j: int| 0 <= j < m.len() implies m[j] != '\\' by {}
        if i < t.len() {
            assert(k[i] == t[i]);
            if i + 1 < t.len() {
                assert(k[i + 1] == t[i + 1]);
            } else {
                assert(k[i + 1] == m[0]);
                assert(m[0] == '\u{167}');
            }
        } else if i < t.len() + m.len() {
            assert(k[i] == m[i - t.len()]);
        } else {
            let r = f + seq![' '] + dh;
            assert(k[i] == r[i - t.len() - m.len()]);
            let p = i - t.len() - m.len();
            if p < f.len() {
                assert(r[p] == f[p]);
            } else if p == f.len() {
                assert(r[p] == ' ');
            } else {
                assert(r[p] == dh[p - f.len() - 1]);
                assert(is_dec_digit(dh[p - f.len() - 1]));
            }
        }
    }
}


/// Round trip: serializing any entry collection with no triggers configured
/// and parsing the catalog back yields the same multiset of entries, with no
/// warning. The texts must be escape-clean, free of the internal marker and
/// not the reserved single space; the source-file names must be plain; and the
/// catalog must fit the machine's line numbering.
pub proof fn lemma_catalog_round_trip(entries: Seq<EntryView>)
    requires
        forall|i: int, j: int|
            0 <= i < j < entries.len() ==> !((#[trigger] entries[i]).source_file == (
            #[trigger] entries[j]).source_file && entries[i].hash == entries[j].hash),
        forall|i: int| 0 <= i < entries.len() ==> escape_clean((#[trigger] entries[i]).text),
        forall|i: int|
            0 <= i < entries.len() ==> !crate::seqtools::seq_contains(
                (#[trigger] entries[i]).text,
                crate::seqtools::marker(),
            ),
        forall|i: int| 0 <= i < entries.len() ==> (#[trigger] entries[i]).text != seq![' '],
        forall|i: int| 0 <= i < entries.len() ==> plain_name((#[trigger] entries[i]).source_file),
        4 * entries.len() + 1 <= usize::MAX,
    ensures
        crate::parser::parse_po_spec(crate::writer::pot_text(entries, Seq::empty())) matches Ok(r)
            && r.1 == Seq::<crate::entry::WarningView>::empty() && r.0.to_multiset()
            == entries.to_multiset(),
{
    broadcast use vstd::seq_lib::group_to_multiset_ensures;

    let triggers = Seq::<Seq<char>>::empty();
    let gs = crate::writer::groups_of(entries, triggers);
    lemma_groups_no_triggers(entries);
    assert forall|g: int| 0 <= g < gs.len() implies good_group(#[trigger] gs[g]) by {
        let e0 = gs[g].1[0];
        assert(e0.text == gs[g].0);
        assert(entries.contains(e0));
        let i = choose|i: int| 0 <= i < entries.len() && entries[i] == e0;
        assert(escape_clean(entries[i].text) && entries[i].text != seq![' ']);
        assert(good_key(gs[g].0));
        assert forall|m: int| 0 <= m < gs[g].1.len() implies plain_name(
            (#[trigger] gs[g].1[m]).source_file,
        ) by {
            let em = gs[g].1[m];
            assert(entries.contains(em));
            let q = choose|q: int| 0 <= q < entries.len() && entries[q] == em;
            assert(plain_name(entries[q].source_file));
        }
    }
    lemma_lines_count(gs);
    assert(members_concat(gs).to_multiset().len() == entries.to_multiset().len());
    assert(members_concat(gs).len() == entries.len());
    assert(lines_of(gs).len() <= 4 * entries.len());
    lemma_parse_catalog(gs);
    assert forall|g: int|
        0 <= g < gs.len() implies !crate::seqtools::seq_contains(
        (#[trigger] gs[g]).0,
        crate::seqtools::marker(),
    ) by {
        let e0 = gs[g].1[0];
        assert(e0.text == gs[g].0);
        assert(entries.contains(e0));
        let i = choose|i: int| 0 <= i < entries.len() && entries[i] == e0;
        assert(!crate::seqtools::seq_contains(entries[i].text, crate::seqtools::marker()));
    }
    lemma_all_entries_texts(gs);
}

} // verus!
