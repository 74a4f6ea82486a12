//! The catalog writer: deduplicates an ordered entry collection by
//! (possibly disambiguated) text and emits the catalog text.
use vstd::prelude::*;
use crate::chars::{chars_to_string, lower_of, str_to_chars, to_lower};
use crate::digits::dec_rep;
use crate::entry::{Entry, EntryView, views_of};
use crate::escape::{escaped, push_escaped_body};
use crate::seqtools::{chars_eq, extend_chars, find_sub, lemma_first_match, marker, marker_chars, seq_contains};

verus! {

/// A writer working set: the entries to serialize and the lowercased
/// disambiguation trigger substrings.
pub struct GettextWriter {
    pub entries: Vec<Entry>,
    /// The disambiguation trigger substrings, lowercased at construction.
    /// Treat as internal configuration: set it through [`GettextWriter::new`].
    pub discriminated: Vec<Vec<char>>,
}

/// A text must be kept apart from equal texts when its lowercase form contains
/// any trigger substring.
pub open spec fn is_discriminated(text: Seq<char>, triggers: Seq<Seq<char>>) -> bool {
    exists|k: int| 0 <= k < triggers.len() && seq_contains(lower_of(text), triggers[k])
}

/// The grouping key of an entry: its text, or — when a trigger matches — the
/// text with the marker, the source file and the decimal hash appended.
pub open spec fn entry_key(e: EntryView, triggers: Seq<Seq<char>>) -> Seq<char> {
    if is_discriminated(e.text, triggers) {
        e.text + marker() + e.source_file + seq![' '] + dec_rep(e.hash as nat)
    } else {
        e.text
    }
}

/// The first group with the given key.
pub open spec fn find_key(gs: Seq<(Seq<char>, Seq<EntryView>)>, k: Seq<char>) -> Option<int>
    decreases gs.len(),
{
    if gs.len() == 0 {
        None
    } else if gs[0].0 == k {
        Some(0)
    } else {
        match find_key(gs.skip(1), k) {
            None => None,
            Some(j) => Some(j + 1),
        }
    }
}

/// When the first `j` keys differ from `k` and (the end or) a matching key
/// stands at `j`, the search finds exactly that.
pub proof fn lemma_find_key(gs: Seq<(Seq<char>, Seq<EntryView>)>, k: Seq<char>, j: int)
    requires
        0 <= j <= gs.len(),
        forall|t: int| 0 <= t < j ==> gs[t].0 != k,
        j == gs.len() || gs[j].0 == k,
    ensures
        find_key(gs, k) == if j == gs.len() {
            None::<int>
        } else {
            Some(j)
        },
    decreases gs.len(),
{
    if gs.len() == 0 {
    } else if gs[0].0 == k {
        assert(j == 0);
    } else {
        assert forall|t: int| 0 <= t < j - 1 implies gs.skip(1)[t].0 != k by {
            assert(gs.skip(1)[t] == gs[t + 1]);
        }
        assert(j >= 1);
        lemma_find_key(gs.skip(1), k, j - 1);
    }
}

/// Add one entry to the groups: into the first group with its key, or as a new
/// group at the end.
pub open spec fn insert_entry(
    gs: Seq<(Seq<char>, Seq<EntryView>)>,
    k: Seq<char>,
    e: EntryView,
) -> Seq<(Seq<char>, Seq<EntryView>)> {
    match find_key(gs, k) {
        Some(j) => gs.update(j, (k, gs[j].1.push(e))),
        None => gs.push((k, seq![e])),
    }
}

/// The groups of an entry collection, in first-seen key order, members in
/// input order.
pub open spec fn groups_of(entries: Seq<EntryView>, triggers: Seq<Seq<char>>) -> Seq<
    (Seq<char>, Seq<EntryView>),
>
    decreases entries.len(),
{
    if entries.len() == 0 {
        Seq::empty()
    } else {
        insert_entry(
            groups_of(entries.drop_last(), triggers),
            entry_key(entries.last(), triggers),
            entries.last(),
        )
    }
}

/// The comment line of one entry: `#. <source_file> <hash> <unk>` and a
/// newline, numbers in decimal.
pub open spec fn comment_line(e: EntryView) -> Seq<char> {
    "#. "@ + e.source_file + seq![' '] + dec_rep(e.hash as nat) + seq![' '] + dec_rep(
        e.unk as nat,
    ) + seq!['\n']
}

/// The comment lines of a group's members, in member order.
pub open spec fn comments_text(members: Seq<EntryView>) -> Seq<char>
    decreases members.len(),
{
    if members.len() == 0 {
        Seq::empty()
    } else {
        comments_text(members.drop_last()) + comment_line(members.last())
    }
}

/// The `msgid` and `msgstr` lines of a group: the escaped key (a single space
/// stands in for an empty key) and a synthetic empty translation, then a blank
/// separator line.
pub open spec fn msgid_block(key: Seq<char>) -> Seq<char> {
    "msgid "@ + escaped(
        if key.len() == 0 {
            seq![' ']
        } else {
            key
        },
    ) + "\nmsgstr \"\"\n\n"@
}

/// One catalog record: the members' comment lines, then the key lines.
pub open spec fn block_text(g: (Seq<char>, Seq<EntryView>)) -> Seq<char> {
    comments_text(g.1) + msgid_block(g.0)
}

/// The catalog text of a group list.
pub open spec fn blocks_text(gs: Seq<(Seq<char>, Seq<EntryView>)>) -> Seq<char>
    decreases gs.len(),
{
    if gs.len() == 0 {
        Seq::empty()
    } else {
        blocks_text(gs.drop_last()) + block_text(gs.last())
    }
}

/// The catalog text of an entry collection: the blocks of its groups, in
/// first-seen key order.
pub open spec fn pot_text(entries: Seq<EntryView>, triggers: Seq<Seq<char>>) -> Seq<char> {
    blocks_text(groups_of(entries, triggers))
}

pub proof fn lemma_comments_text_take(members: Seq<EntryView>, m: int)
    requires
        0 <= m < members.len(),
    ensures
        comments_text(members.take(m + 1)) == comments_text(members.take(m)) + comment_line(
            members[m],
        ),
{
    assert(members.take(m + 1).drop_last() =~= members.take(m));
    assert(members.take(m + 1).last() == members[m]);
}

pub proof fn lemma_blocks_text_take(gs: Seq<(Seq<char>, Seq<EntryView>)>, g: int)
    requires
        0 <= g < gs.len(),
    ensures
        blocks_text(gs.take(g + 1)) == blocks_text(gs.take(g)) + block_text(gs[g]),
{
    assert(gs.take(g + 1).drop_last() =~= gs.take(g));
    assert(gs.take(g + 1).last() == gs[g]);
}

impl GettextWriter {
    /// The lowercased trigger substrings, as the contracts speak of them.
    pub open spec fn triggers(&self) -> Seq<Seq<char>> {
        self.discriminated@.map_values(|v: Vec<char>| v@)
    }

    /// A new writer with no entries; each trigger is kept in lowercase form.
    pub fn new(discriminated: Vec<String>) -> (r: Self)
        ensures
            r.entries@ == Seq::<Entry>::empty(),
            r.triggers() == discriminated@.map_values(|s: String| lower_of(s@)),
    {
        let mut trigs: Vec<Vec<char>> = Vec::new();
        let mut k: usize = 0;
        while k < discriminated.len()
            invariant
                0 <= k <= discriminated@.len(),
                trigs@.len() == k,
                forall|j: int| 0 <= j < k ==> #[trigger] trigs@[j]@ == lower_of(
                    discriminated@[j]@,
                ),
            decreases discriminated@.len() - k,
        {
            let low = to_lower(discriminated[k].as_str());
            trigs.push(str_to_chars(low.as_str()));
            k += 1;
        }
        let r = GettextWriter { entries: Vec::new(), discriminated: trigs };
        proof {
            assert(r.triggers() =~= discriminated@.map_values(|s: String| lower_of(s@)));
        }
        r
    }

    /// Whether any trigger substring occurs in the given lowercased text.
    fn matches_any_trigger(&self, lower: &[char]) -> (r: bool)
        ensures
            r == exists|k: int|
                0 <= k < self.triggers().len() && seq_contains(lower@, self.triggers()[k]),
    {
        let mut k: usize = 0;
        while k < self.discriminated.len()
            invariant
                0 <= k <= self.triggers().len(),
                self.triggers().len() == self.discriminated@.len(),
                forall|j: int| 0 <= j < k ==> !seq_contains(lower@, self.triggers()[j]),
            decreases self.discriminated@.len() - k,
        {
            let found = find_sub(lower, self.discriminated[k].as_slice());
            proof {
                lemma_first_match(lower@, self.discriminated@[k as int]@);
                assert(self.triggers()[k as int] == self.discriminated@[k as int]@);
            }
            if found.is_some() {
                return true;
            }
            k += 1;
        }
        false
    }

    /// Append all entries of another writer, in order, after this writer's
    /// entries. The trigger configuration stays as it is.
    pub fn merge(&mut self, other: Self)
        ensures
            final(self).entries@ == old(self).entries@ + other.entries@,
            final(self).triggers() == old(self).triggers(),
    {
        let mut rest = other.entries;
        let ghost all = rest@;
        proof {
            assert(self.entries@ =~= old(self).entries@ + all.take(0));
            assert(rest@ =~= all.skip(0));
        }
        while rest.len() > 0
            invariant
                rest@.len() <= all.len(),
                rest@ == all.skip(all.len() - rest@.len()),
                self.entries@ == old(self).entries@ + all.take(all.len() - rest@.len()),
                self.discriminated == old(self).discriminated,
            decreases rest@.len(),
        {
            let ghost k = all.len() - rest@.len();
            let e = rest.remove(0);
            proof {
                assert(all.skip(k).remove(0) =~= all.skip(k + 1));
                assert(e == all.skip(k)[0]);
                assert((old(self).entries@ + all.take(k)).push(e) =~= old(self).entries@ + all.take(
                    k + 1,
                ));
            }
            self.entries.push(e);
        }
        proof {
            assert(all.take(all.len() as int) =~= all);
        }
    }

    /// Serialize the entries to catalog text. The result is exactly
    /// [`pot_text`] of the entries and the configured triggers: entries are
    /// grouped by key in first-seen order, every entry appears in exactly one
    /// comment line, and each group emits one `msgid`/`msgstr` record.
    pub fn to_pot(&self) -> (r: String)
        ensures
            r@ == pot_text(views_of(self.entries@), self.triggers()),
    {
        let ghost evs = views_of(self.entries@);
        let ghost triggers = self.triggers();

        // Group the entries by key, preserving first-seen key order.
        let mut keys: Vec<Vec<char>> = Vec::new();
        let mut members: Vec<Vec<usize>> = Vec::new();
        let mut idx: usize = 0;
        proof {
            assert(evs.take(0) =~= Seq::<EntryView>::empty());
        }
        while idx < self.entries.len()
            invariant
                0 <= idx <= evs.len(),
                evs == views_of(self.entries@),
                triggers == self.triggers(),
                evs.len() == self.entries@.len(),
                keys@.len() == members@.len(),
                ({
                    let gs = groups_of(evs.take(idx as int), triggers);
                    &&& gs.len() == keys@.len()
                    &&& forall|j: int| 0 <= j < gs.len() ==> #[trigger] keys@[j]@ == gs[j].0
                    &&& forall|j: int|
                        0 <= j < gs.len() ==> (#[trigger] members@[j])@.map_values(
                            |u: usize| evs[u as int],
                        ) == gs[j].1
                    &&& forall|j: int, t: int|
                        0 <= j < gs.len() && 0 <= t < members@[j]@.len()
                            ==> #[trigger] members@[j]@[t] < idx
                }),
            decreases evs.len() - idx,
        {
            let ghost gs = groups_of(evs.take(idx as int), triggers);
            let e = &self.entries[idx];
            proof {
                assert(e@ == evs[idx as int]);
            }
            let text_chars = str_to_chars(e.text.as_str());
            let low = to_lower(e.text.as_str());
            let lower = str_to_chars(low.as_str());
            let disc = self.matches_any_trigger(lower.as_slice());
            proof {
                assert(disc == is_discriminated(evs[idx as int].text, triggers));
            }
            let mut key = text_chars;
            if disc {
                let m = marker_chars();
                extend_chars(&mut key, m.as_slice());
                let src = str_to_chars(e.source_file.as_str());
                extend_chars(&mut key, src.as_slice());
                key.push(' ');
                crate::digits::push_dec_u32(&mut key, e.hash);
                proof {
                    assert(key@ =~= entry_key(evs[idx as int], triggers));
                }
            } else {
                proof {
                    assert(key@ =~= entry_key(evs[idx as int], triggers));
                }
            }
            // Find the first group with this key.
            let mut at: usize = 0;
            let mut found: bool = false;
            while at < keys.len() && !found
                invariant
                    0 <= at <= keys@.len(),
                    keys@.len() == gs.len(),
                    forall|j: int| 0 <= j < gs.len() ==> #[trigger] keys@[j]@ == gs[j].0,
                    !found ==> forall|t: int| 0 <= t < at ==> gs[t].0 != key@,
                    found ==> at < gs.len() && gs[at as int].0 == key@ && forall|t: int|
                        0 <= t < at ==> gs[t].0 != key@,
                decreases keys@.len() - at + (if found { 0int } else { 1int }),
            {
                if chars_eq(keys[at].as_slice(), key.as_slice()) {
                    found = true;
                } else {
                    at += 1;
                }
            }
            proof {
                lemma_find_key(gs, key@, at as int);
                assert(evs.take(idx + 1).drop_last() =~= evs.take(idx as int));
                assert(evs.take(idx + 1).last() == evs[idx as int]);
            }
            let ghost gs2 = groups_of(evs.take(idx + 1), triggers);
            let ghost ms0 = members@;
            if found {
                let mut mem = members.remove(at);
                mem.push(idx);
                members.insert(at, mem);
                proof {
                    assert(gs2 == gs.update(at as int, (key@, gs[at as int].1.push(
                        evs[idx as int],
                    ))));
                    assert(members@ =~= ms0.remove(at as int).insert(at as int, mem));
                    assert forall|j: int| 0 <= j < gs2.len() && j != at as int implies members@[j]
                        == ms0[j] by {
                        if j < at as int {
                            assert(ms0.remove(at as int)[j] == ms0[j]);
                        } else {
                            assert(ms0.remove(at as int)[j - 1] == ms0[j]);
                        }
                    }
                    assert(members@[at as int] == mem);
                    assert(mem@ == ms0[at as int]@.push(idx));
                    assert forall|j: int| 0 <= j < gs2.len() implies (#[trigger] members@[j])@
                        .map_values(|u: usize| evs[u as int]) == gs2[j].1 by {
                        if j == at as int {
                            assert(mem@.map_values(|u: usize| evs[u as int]) =~= ms0[j]@
                                .map_values(|u: usize| evs[u as int]).push(evs[idx as int]));
                        } else {
                            assert(gs2[j] == gs[j]);
                        }
                    }
                }
            } else {
                keys.push(key);
                let mut mem: Vec<usize> = Vec::new();
                mem.push(idx);
                members.push(mem);
                proof {
                    assert(gs2 == gs.push((key@, seq![evs[idx as int]])));
                    assert(members@[gs.len() as int]@.map_values(|u: usize| evs[u as int]) =~= seq![
                        evs[idx as int],
                    ]);
                    assert forall|j: int| 0 <= j < gs2.len() implies (#[trigger] members@[j])@
                        .map_values(|u: usize| evs[u as int]) == gs2[j].1 by {
                        if j < gs.len() as int {
                            assert(members@[j] == ms0[j]);
                            assert(gs2[j] == gs[j]);
                        }
                    }
                }
            }
            idx += 1;
        }
        proof {
            assert(evs.take(idx as int) =~= evs);
        }
        let ghost gs = groups_of(evs, triggers);

        // Emit the catalog text, group by group.
        let mut out: Vec<char> = Vec::new();
        let mut g: usize = 0;
        proof {
            assert(gs.take(0) =~= Seq::<(Seq<char>, Seq<EntryView>)>::empty());
        }
        while g < keys.len()
            invariant
                0 <= g <= gs.len(),
                evs == views_of(self.entries@),
                evs.len() == self.entries@.len(),
                gs == groups_of(evs, triggers),
                keys@.len() == gs.len(),
                members@.len() == gs.len(),
                forall|j: int| 0 <= j < gs.len() ==> #[trigger] keys@[j]@ == gs[j].0,
                forall|j: int|
                    0 <= j < gs.len() ==> (#[trigger] members@[j])@.map_values(
                        |u: usize| evs[u as int],
                    ) == gs[j].1,
                forall|j: int, t: int|
                    0 <= j < gs.len() && 0 <= t < members@[j]@.len() ==> #[trigger] members@[j]@[t]
                        < evs.len(),
                out@ == blocks_text(gs.take(g as int)),
            decreases gs.len() - g,
        {
            let mut m: usize = 0;
            proof {
                assert(gs[g as int].1.take(0) =~= Seq::<EntryView>::empty());
                assert(out@ =~= blocks_text(gs.take(g as int)) + comments_text(
                    gs[g as int].1.take(0),
                ));
            }
            while m < members[g].len()
                invariant
                    0 <= g < gs.len(),
                    0 <= m <= members@[g as int]@.len(),
                    evs == views_of(self.entries@),
                    evs.len() == self.entries@.len(),
                    keys@.len() == gs.len(),
                    members@.len() == gs.len(),
                    members@[g as int]@.map_values(|u: usize| evs[u as int]) == gs[g as int].1,
                    forall|t: int|
                        0 <= t < members@[g as int]@.len() ==> #[trigger] members@[g as int]@[t]
                            < evs.len(),
                    out@ == blocks_text(gs.take(g as int)) + comments_text(
                        gs[g as int].1.take(m as int),
                    ),
                decreases members@[g as int]@.len() - m,
            {
                let i = members[g][m];
                let e = &self.entries[i];
                proof {
                    assert(gs[g as int].1[m as int] == members@[g as int]@.map_values(
                        |u: usize| evs[u as int],
                    )[m as int]);
                    assert(e@ == evs[i as int]);
                }
                let pre = str_to_chars("#. ");
                extend_chars(&mut out, pre.as_slice());
                let src = str_to_chars(e.source_file.as_str());
                extend_chars(&mut out, src.as_slice());
                out.push(' ');
                crate::digits::push_dec_u32(&mut out, e.hash);
                out.push(' ');
                crate::digits::push_dec_u32(&mut out, e.unk);
                out.push('\n');
                proof {
                    lemma_comments_text_take(gs[g as int].1, m as int);
                    assert(out@ =~= blocks_text(gs.take(g as int)) + comments_text(
                        gs[g as int].1.take(m + 1),
                    ));
                }
                m += 1;
            }
            proof {
                assert(gs[g as int].1.take(gs[g as int].1.len() as int) =~= gs[g as int].1);
            }
            let pre = str_to_chars("msgid ");
            extend_chars(&mut out, pre.as_slice());
            out.push('"');
            if keys[g].len() == 0 {
                let space: Vec<char> = vec![' '];
                proof {
                    assert(space@ =~= seq![' ']);
                }
                push_escaped_body(&mut out, space.as_slice());
            } else {
                push_escaped_body(&mut out, keys[g].as_slice());
            }
            out.push('"');
            let post = str_to_chars("\nmsgstr \"\"\n\n");
            extend_chars(&mut out, post.as_slice());
            proof {
                lemma_blocks_text_take(gs, g as int);
                assert("msgid "@ + seq!['"'] + esc_body_of_key(gs[g as int].0) + seq!['"']
                    + "\nmsgstr \"\"\n\n"@ =~= msgid_block(gs[g as int].0));
                assert(out@ =~= blocks_text(gs.take(g + 1)));
            }
            g += 1;
        }
        proof {
            assert(gs.take(gs.len() as int) =~= gs);
        }
        chars_to_string(out.as_slice())
    }
}

/// The escaped body of a key, with the single-space stand-in for an empty key.
pub open spec fn esc_body_of_key(key: Seq<char>) -> Seq<char> {
    crate::escape::esc_body(
        if key.len() == 0 {
            seq![' ']
        } else {
            key
        },
    )
}


/// The groups of an entry collection keyed by source file, in first-seen
/// order, members in input order: how a catalog is split into one working set
/// per originating resource file.
pub open spec fn source_groups(entries: Seq<EntryView>) -> Seq<(Seq<char>, Seq<EntryView>)>
    decreases entries.len(),
{
    if entries.len() == 0 {
        Seq::empty()
    } else {
        insert_entry(
            source_groups(entries.drop_last()),
            entries.last().source_file,
            entries.last(),
        )
    }
}

impl GettextWriter {
    /// Split the entries into one writer per source file, in first-seen order,
    /// each without triggers. No entry is dropped or duplicated: writer `j`
    /// holds exactly the members of the `j`-th source-file group.
    pub fn split_by_source_file(self) -> (r: Vec<GettextWriter>)
        ensures
            ({
                let gs = source_groups(views_of(self.entries@));
                &&& r@.len() == gs.len()
                &&& forall|j: int|
                    0 <= j < gs.len() ==> views_of((#[trigger] r@[j]).entries@) == gs[j].1
                &&& forall|j: int|
                    0 <= j < gs.len() ==> (#[trigger] r@[j]).triggers() == Seq::<Seq<char>>::empty()
            }),
    {
        let ghost evs = views_of(self.entries@);
        let mut rest = self.entries;
        let ghost all = rest@;
        let mut keys: Vec<Vec<char>> = Vec::new();
        let mut out: Vec<GettextWriter> = Vec::new();
        proof {
            assert(rest@ =~= all.skip(0));
            assert(views_of(all.take(0)) =~= Seq::<EntryView>::empty());
        }
        while rest.len() > 0
            invariant
                rest@.len() <= all.len(),
                rest@ == all.skip(all.len() - rest@.len()),
                evs == views_of(all),
                evs.len() == all.len(),
                keys@.len() == out@.len(),
                ({
                    let gs = source_groups(views_of(all.take(all.len() - rest@.len())));
                    &&& gs.len() == out@.len()
                    &&& forall|j: int| 0 <= j < gs.len() ==> #[trigger] keys@[j]@ == gs[j].0
                    &&& forall|j: int|
                        0 <= j < gs.len() ==> views_of((#[trigger] out@[j]).entries@) == gs[j].1
                    &&& forall|j: int|
                        0 <= j < gs.len() ==> (#[trigger] out@[j]).triggers() == Seq::<
                            Seq<char>,
                        >::empty()
                }),
            decreases rest@.len(),
        {
            let ghost k = all.len() - rest@.len();
            let ghost gs = source_groups(views_of(all.take(k)));
            let e = rest.remove(0);
            proof {
                assert(all.skip(k).remove(0) =~= all.skip(k + 1));
                assert(e == all.skip(k)[0]);
                assert(e == all[k]);
                assert(views_of(all.take(k + 1)).drop_last() =~= views_of(all.take(k)));
                assert(views_of(all.take(k + 1)).last() == e@);
            }
            let ghost gs2 = source_groups(views_of(all.take(k + 1)));
            let key = str_to_chars(e.source_file.as_str());
            let mut at: usize = 0;
            let mut found: bool = false;
            while at < keys.len() && !found
                invariant
                    0 <= at <= keys@.len(),
                    keys@.len() == gs.len(),
                    forall|j: int| 0 <= j < gs.len() ==> #[trigger] keys@[j]@ == gs[j].0,
                    key@ == e@.source_file,
                    !found ==> forall|t: int| 0 <= t < at ==> gs[t].0 != key@,
                    found ==> at < gs.len() && gs[at as int].0 == key@ && forall|t: int|
                        0 <= t < at ==> gs[t].0 != key@,
                decreases keys@.len() - at + (if found { 0int } else { 1int }),
            {
                if chars_eq(keys[at].as_slice(), key.as_slice()) {
                    found = true;
                } else {
                    at += 1;
                }
            }
            proof {
                lemma_find_key(gs, key@, at as int);
                assert(gs2 == insert_entry(gs, e@.source_file, e@));
            }
            let ghost os0 = out@;
            if found {
                let mut w = out.remove(at);
                w.entries.push(e);
                out.insert(at, w);
                proof {
                    assert(gs2 == gs.update(at as int, (key@, gs[at as int].1.push(e@))));
                    assert forall|j: int| 0 <= j < gs2.len() && j != at as int implies out@[j]
                        == os0[j] by {
                        if j < at as int {
                            assert(os0.remove(at as int)[j] == os0[j]);
                        } else {
                            assert(os0.remove(at as int)[j - 1] == os0[j]);
                        }
                    }
                    assert(out@[at as int].entries@ == os0[at as int].entries@.push(e));
                    assert forall|j: int| 0 <= j < gs2.len() implies views_of(
                        (#[trigger] out@[j]).entries@,
                    ) == gs2[j].1 by {
                        if j == at as int {
                            assert(views_of(os0[j].entries@.push(e)) =~= views_of(
                                os0[j].entries@,
                            ).push(e@));
                        } else {
                            assert(gs2[j] == gs[j]);
                        }
                    }
                    assert forall|j: int| 0 <= j < gs2.len() implies (#[trigger] out@[j]).triggers()
                        == Seq::<Seq<char>>::empty() by {
                        if j != at as int {
                            assert(out@[j] == os0[j]);
                        } else {
                            assert(out@[j].discriminated == os0[j].discriminated);
                        }
                    }
                }
            } else {
                keys.push(key);
                let mut w = GettextWriter { entries: Vec::new(), discriminated: Vec::new() };
                w.entries.push(e);
                out.push(w);
                proof {
                    assert(gs2 == gs.push((key@, seq![e@])));
                    assert(views_of(out@[gs.len() as int].entries@) =~= seq![e@]);
                    assert(out@[gs.len() as int].triggers() =~= Seq::<Seq<char>>::empty());
                    assert forall|j: int| 0 <= j < gs2.len() implies views_of(
                        (#[trigger] out@[j]).entries@,
                    ) == gs2[j].1 by {
                        if j < gs.len() as int {
                            assert(out@[j] == os0[j]);
                            assert(gs2[j] == gs[j]);
                        }
                    }
                    assert forall|j: int| 0 <= j < gs2.len() implies (#[trigger] out@[j]).triggers()
                        == Seq::<Seq<char>>::empty() by {
                        if j < gs.len() as int {
                            assert(out@[j] == os0[j]);
                        }
                    }
                }
            }
        }
        proof {
            assert(all.take(all.len() as int) =~= all);
        }
        out
    }
}

} // verus!
