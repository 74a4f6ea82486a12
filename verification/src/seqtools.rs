//! Character-sequence helpers the codec is built on: equality, substring
//! search, splitting on a separator, line splitting, and the internal
//! disambiguation marker.
use vstd::prelude::*;

verus! {

/// `needle` occurs in `hay` at position `i`.
pub open spec fn contains_at(hay: Seq<char>, i: int, needle: Seq<char>) -> bool {
    0 <= i && i + needle.len() <= hay.len() && hay.subrange(i, i + needle.len()) == needle
}

/// `needle` occurs somewhere in `hay`.
pub open spec fn seq_contains(hay: Seq<char>, needle: Seq<char>) -> bool {
    exists|i: int| contains_at(hay, i, needle)
}

/// The first position at or after `i` where `needle` occurs in `hay`.
pub open spec fn first_match_from(hay: Seq<char>, needle: Seq<char>, i: int) -> Option<int>
    decreases hay.len() - i + 1,
{
    if i < 0 || i + needle.len() > hay.len() {
        None
    } else if contains_at(hay, i, needle) {
        Some(i)
    } else {
        first_match_from(hay, needle, i + 1)
    }
}

/// When the first-match search fails from position `i`, there is no occurrence
/// at or after `i`.
pub proof fn lemma_first_match_none(hay: Seq<char>, needle: Seq<char>, i: int)
    requires
        i >= 0,
        first_match_from(hay, needle, i) is None,
    ensures
        forall|j: int| j >= i ==> !contains_at(hay, j, needle),
    decreases hay.len() - i + 1,
{
    if i + needle.len() > hay.len() {
        assert forall|j: int| j >= i implies !contains_at(hay, j, needle) by {}
    } else {
        lemma_first_match_none(hay, needle, i + 1);
    }
}

/// The first-match search from the start characterizes occurrence fully.
pub proof fn lemma_first_match(hay: Seq<char>, needle: Seq<char>)
    ensures
        match first_match_from(hay, needle, 0) {
            Some(i) => contains_at(hay, i, needle) && seq_contains(hay, needle) && forall|j: int|
                0 <= j < i ==> !contains_at(hay, j, needle),
            None => !seq_contains(hay, needle),
        },
{
    lemma_first_match_step(hay, needle, 0);
    if first_match_from(hay, needle, 0) is None {
        lemma_first_match_none(hay, needle, 0);
    }
}

proof fn lemma_first_match_step(hay: Seq<char>, needle: Seq<char>, i: int)
    requires
        i >= 0,
    ensures
        match first_match_from(hay, needle, i) {
            Some(k) => contains_at(hay, k, needle) && k >= i && forall|j: int|
                i <= j < k ==> !contains_at(hay, j, needle),
            None => true,
        },
    decreases hay.len() - i + 1,
{
    if i + needle.len() > hay.len() {
    } else if contains_at(hay, i, needle) {
    } else {
        lemma_first_match_step(hay, needle, i + 1);
    }
}

/// Whether two character slices hold the same characters.
pub(crate) fn chars_eq(a: &[char], b: &[char]) -> (r: bool)
    ensures
        r == (a@ == b@),
{
    if a.len() != b.len() {
        assert(a@ != b@);
        return false;
    }
    let mut i: usize = 0;
    while i < a.len()
        invariant
            0 <= i <= a@.len(),
            a@.len() == b@.len(),
            forall|k: int| 0 <= k < i ==> a@[k] == b@[k],
        decreases a@.len() - i,
    {
        if a[i] != b[i] {
            assert(a@ != b@);
            return false;
        }
        i += 1;
    }
    proof {
        assert(a@ =~= b@);
    }
    true
}

/// Copy a subrange of a character slice.
pub(crate) fn seg(s: &[char], a: usize, b: usize) -> (r: Vec<char>)
    requires
        a <= b <= s@.len(),
    ensures
        r@ == s@.subrange(a as int, b as int),
{
    let mut r: Vec<char> = Vec::new();
    let mut i: usize = a;
    while i < b
        invariant
            a <= i <= b <= s@.len(),
            r@ == s@.subrange(a as int, i as int),
        decreases b - i,
    {
        r.push(s[i]);
        proof {
            assert(r@ =~= s@.subrange(a as int, i + 1));
        }
        i += 1;
    }
    r
}

/// Append the characters of a slice to a vector.
pub(crate) fn extend_chars(dst: &mut Vec<char>, src: &[char])
    ensures
        final(dst)@ == old(dst)@ + src@,
{
    let mut i: usize = 0;
    while i < src.len()
        invariant
            0 <= i <= src@.len(),
            dst@ == old(dst)@ + src@.take(i as int),
        decreases src@.len() - i,
    {
        dst.push(src[i]);
        proof {
            assert(dst@ =~= old(dst)@ + src@.take(i + 1));
        }
        i += 1;
    }
    proof {
        assert(old(dst)@ + src@.take(src@.len() as int) =~= old(dst)@ + src@);
    }
}

/// Find the first occurrence of `needle` in `hay`.
pub(crate) fn find_sub(hay: &[char], needle: &[char]) -> (r: Option<usize>)
    ensures
        match r {
            Some(i) => first_match_from(hay@, needle@, 0) == Some(i as int),
            None => first_match_from(hay@, needle@, 0) is None,
        },
{
    if needle.len() > hay.len() {
        return None;
    }
    if needle.len() == 0 {
        proof {
            assert(hay@.subrange(0, 0) =~= needle@);
            assert(contains_at(hay@, 0, needle@));
        }
        return Some(0);
    }
    let bound = hay.len() - needle.len();
    let mut i: usize = 0;
    while i <= bound
        invariant
            0 <= i <= bound + 1,
            bound == hay@.len() - needle@.len(),
            1 <= needle@.len() <= hay@.len(),
            hay@.len() <= usize::MAX,
            first_match_from(hay@, needle@, 0) == first_match_from(hay@, needle@, i as int),
        decreases bound + 1 - i,
    {
        let mut k: usize = 0;
        let mut matched: bool = true;
        while k < needle.len()
            invariant
                0 <= k <= needle@.len(),
                0 <= i,
                i <= hay@.len() - needle@.len(),
                hay@.len() <= usize::MAX,
                matched ==> forall|j: int| 0 <= j < k ==> hay@[i + j] == needle@[j],
                !matched ==> !contains_at(hay@, i as int, needle@),
            decreases needle@.len() - k,
        {
            if hay[i + k] != needle[k] {
                proof {
                    if contains_at(hay@, i as int, needle@) {
                        assert(hay@.subrange(i as int, i + needle@.len())[k as int] == needle@[k as int]);
                    }
                }
                matched = false;
                k = needle.len();
            } else {
                k += 1;
            }
        }
        if matched {
            proof {
                assert(hay@.subrange(i as int, i + needle@.len()) =~= needle@);
                assert(contains_at(hay@, i as int, needle@));
            }
            return Some(i);
        }
        proof {
            assert(first_match_from(hay@, needle@, i as int) == first_match_from(hay@, needle@, i + 1));
        }
        i += 1;
    }
    proof {
        assert(first_match_from(hay@, needle@, i as int) is None);
    }
    None
}

/// The first space-delimited token of a line: the characters before the first
/// space, or the whole line if it has no space.
pub open spec fn token_of(s: Seq<char>) -> Seq<char>
    decreases s.len(),
{
    if s.len() == 0 {
        s
    } else if s[0] == ' ' {
        Seq::empty()
    } else {
        seq![s[0]] + token_of(s.skip(1))
    }
}

/// When the first `n` characters are not the separator and position `n` is
/// (the end or) a space, the first token is exactly the first `n` characters.
pub proof fn lemma_token_of(s: Seq<char>, n: int)
    requires
        0 <= n <= s.len(),
        forall|k: int| 0 <= k < n ==> s[k] != ' ',
        n == s.len() || s[n] == ' ',
    ensures
        token_of(s) == s.take(n),
    decreases s.len(),
{
    if s.len() == 0 {
        assert(token_of(s) =~= s.take(n));
    } else if s[0] == ' ' {
        assert(n == 0);
        assert(token_of(s) =~= s.take(0));
    } else {
        assert(n >= 1);
        lemma_token_of(s.skip(1), n - 1);
        assert(token_of(s) == seq![s[0]] + s.skip(1).take(n - 1));
        assert(token_of(s) =~= s.take(n));
    }
}

/// Split a character sequence on a separator character. Every separator splits;
/// consecutive separators yield empty parts. The result always has at least
/// one part.
pub open spec fn split_on(s: Seq<char>, sep: char) -> Seq<Seq<char>>
    decreases s.len(),
{
    if s.len() == 0 {
        seq![Seq::empty()]
    } else if s[0] == sep {
        seq![Seq::<char>::empty()] + split_on(s.skip(1), sep)
    } else {
        let rest = split_on(s.skip(1), sep);
        seq![seq![s[0]] + rest[0]] + rest.skip(1)
    }
}

pub proof fn lemma_split_on_nonempty(s: Seq<char>, sep: char)
    ensures
        split_on(s, sep).len() >= 1,
    decreases s.len(),
{
    if s.len() == 0 {
    } else {
        lemma_split_on_nonempty(s.skip(1), sep);
    }
}

/// A sequence without the separator splits into itself alone.
pub proof fn lemma_split_on_no_sep(s: Seq<char>, sep: char)
    requires
        forall|k: int| 0 <= k < s.len() ==> s[k] != sep,
    ensures
        split_on(s, sep) == seq![s],
    decreases s.len(),
{
    if s.len() == 0 {
        assert(s =~= Seq::<char>::empty());
        assert(split_on(s, sep) =~= seq![s]);
    } else {
        assert forall|k: int| 0 <= k < s.skip(1).len() implies s.skip(1)[k] != sep by {
            assert(s.skip(1)[k] == s[k + 1]);
        }
        lemma_split_on_no_sep(s.skip(1), sep);
        let rest = split_on(s.skip(1), sep);
        assert(rest[0] == s.skip(1));
        assert(seq![s[0]] + rest[0] =~= s);
        assert(rest.skip(1) =~= Seq::<Seq<char>>::empty());
        assert(split_on(s, sep) =~= seq![s]);
    }
}

/// Splitting peels the first separator: the part before it, then the split of
/// what follows it.
pub proof fn lemma_split_on_peel(s: Seq<char>, sep: char, n: int)
    requires
        0 <= n < s.len(),
        forall|k: int| 0 <= k < n ==> s[k] != sep,
        s[n] == sep,
    ensures
        split_on(s, sep) == seq![s.take(n)] + split_on(s.skip(n + 1), sep),
    decreases s.len(),
{
    if n == 0 {
        assert(s.take(0) =~= Seq::<char>::empty());
        assert(split_on(s, sep) =~= seq![s.take(0)] + split_on(s.skip(1), sep));
    } else {
        assert(s[0] != sep);
        assert(s.skip(1)[n - 1] == sep);
        assert forall|k: int| 0 <= k < n - 1 implies s.skip(1)[k] != sep by {
            assert(s.skip(1)[k] == s[k + 1]);
        }
        lemma_split_on_peel(s.skip(1), sep, n - 1);
        let rest = split_on(s.skip(1), sep);
        assert(rest == seq![s.skip(1).take(n - 1)] + split_on(s.skip(1).skip(n), sep));
        assert(rest[0] == s.skip(1).take(n - 1));
        assert(seq![s[0]] + s.skip(1).take(n - 1) =~= s.take(n));
        assert(s.skip(1).skip(n) =~= s.skip(n + 1));
        assert(rest.skip(1) =~= split_on(s.skip(n + 1), sep));
        assert(split_on(s, sep) =~= seq![s.take(n)] + split_on(s.skip(n + 1), sep));
    }
}

/// Split a slice on a separator character, executable.
pub(crate) fn split_char(s: &[char], sep: char) -> (r: Vec<Vec<char>>)
    ensures
        r@.map_values(|l: Vec<char>| l@) == split_on(s@, sep),
{
    let mut parts: Vec<Vec<char>> = Vec::new();
    let ghost mut done: Seq<Seq<char>> = Seq::empty();
    let mut start: usize = 0;
    let mut i: usize = 0;
    proof {
        assert(s@.skip(0) =~= s@);
    }
    while i < s.len()
        invariant
            0 <= start <= i <= s@.len(),
            forall|k: int| start <= k < i ==> s@[k] != sep,
            parts@.len() == done.len(),
            forall|j: int| 0 <= j < done.len() ==> #[trigger] parts@[j]@ == done[j],
            split_on(s@, sep) == done + split_on(s@.skip(start as int), sep),
        decreases s@.len() - i,
    {
        if s[i] == sep {
            let part = seg(s, start, i);
            proof {
                let rem = s@.skip(start as int);
                assert forall|k: int| 0 <= k < i - start implies rem[k] != sep by {
                    assert(rem[k] == s@[start + k]);
                }
                assert(rem[i - start] == sep);
                lemma_split_on_peel(rem, sep, i - start);
                assert(rem.take(i - start) =~= s@.subrange(start as int, i as int));
                assert(rem.skip(i - start + 1) =~= s@.skip(i + 1));
                done = done + seq![part@];
                assert(split_on(s@, sep) =~= done + split_on(s@.skip(i + 1), sep));
            }
            parts.push(part);
            start = i + 1;
        }
        i += 1;
    }
    let last = seg(s, start, s.len());
    proof {
        let rem = s@.skip(start as int);
        assert forall|k: int| 0 <= k < rem.len() implies rem[k] != sep by {
            assert(rem[k] == s@[start + k]);
        }
        lemma_split_on_no_sep(rem, sep);
        assert(last@ =~= rem);
        done = done + seq![last@];
    }
    parts.push(last);
    proof {
        assert(split_on(s@, sep) =~= done);
        assert(parts@.map_values(|l: Vec<char>| l@) =~= done);
    }
    parts
}

/// A line with a trailing carriage return loses it; the line-splitting below
/// treats both line endings alike.
pub open spec fn strip_cr(l: Seq<char>) -> Seq<char> {
    if l.len() > 0 && l.last() == '\r' {
        l.drop_last()
    } else {
        l
    }
}

/// The lines of a document: split on newline characters, without a final empty
/// segment after a trailing newline, each line losing one trailing carriage
/// return if it has one.
pub open spec fn split_lines(s: Seq<char>) -> Seq<Seq<char>> {
    let raw = split_on(s, '\n');
    let kept = if raw.len() > 0 && raw.last().len() == 0 {
        raw.drop_last()
    } else {
        raw
    };
    kept.map_values(|l: Seq<char>| strip_cr(l))
}

/// Split a document slice into its lines, executable.
pub(crate) fn split_lines_exec(s: &[char]) -> (r: Vec<Vec<char>>)
    ensures
        r@.map_values(|l: Vec<char>| l@) == split_lines(s@),
{
    let mut raw = split_char(s, '\n');
    proof {
        lemma_split_on_nonempty(s@, '\n');
        assert(raw@[raw@.len() - 1]@ == split_on(s@, '\n').last());
    }
    let last_empty = raw[raw.len() - 1].len() == 0;
    if last_empty {
        let _ = raw.pop();
    }
    let ghost kept: Seq<Seq<char>> = if last_empty {
        split_on(s@, '\n').drop_last()
    } else {
        split_on(s@, '\n')
    };
    proof {
        assert(raw@.len() == kept.len());
        assert forall|j: int| 0 <= j < kept.len() implies #[trigger] raw@[j]@ == kept[j] by {
            assert(raw@[j]@ == raw@.map_values(|l: Vec<char>| l@)[j]);
        }
    }
    let mut out: Vec<Vec<char>> = Vec::new();
    let mut i: usize = 0;
    while i < raw.len()
        invariant
            0 <= i <= raw@.len(),
            raw@.len() == kept.len(),
            forall|j: int| 0 <= j < kept.len() ==> #[trigger] raw@[j]@ == kept[j],
            out@.len() == i,
            forall|j: int| 0 <= j < i ==> #[trigger] out@[j]@ == strip_cr(kept[j]),
        decreases raw@.len() - i,
    {
        let line = &raw[i];
        let stripped: Vec<char>;
        if line.len() > 0 && line[line.len() - 1] == '\r' {
            stripped = seg(line.as_slice(), 0, line.len() - 1);
            proof {
                assert(stripped@ =~= strip_cr(kept[i as int]));
            }
        } else {
            stripped = seg(line.as_slice(), 0, line.len());
            proof {
                assert(stripped@ =~= kept[i as int]);
            }
        }
        out.push(stripped);
        i += 1;
    }
    proof {
        assert(out@.map_values(|l: Vec<char>| l@) =~= split_lines(s@));
    }
    out
}

/// The internal disambiguation marker: a sentinel never expected in natural
/// text, spliced into a serialized key to keep identical texts apart.
pub open spec fn marker() -> Seq<char> {
    "\u{167}discrimator\u{167}"@
}

/// The marker, as characters, executable.
pub(crate) fn marker_chars() -> (r: Vec<char>)
    ensures
        r@ == marker(),
{
    crate::chars::str_to_chars("\u{167}discrimator\u{167}")
}

/// Everything from the first occurrence of the marker onward is stripped; a
/// sequence without the marker stays whole.
pub open spec fn strip_marker(s: Seq<char>) -> Seq<char> {
    match first_match_from(s, marker(), 0) {
        None => s,
        Some(i) => s.take(i),
    }
}

/// Strip the marker suffix, executable.
pub(crate) fn strip_marker_exec(s: &[char]) -> (r: Vec<char>)
    ensures
        r@ == strip_marker(s@),
{
    let m = marker_chars();
    match find_sub(s, m.as_slice()) {
        Some(i) => {
            proof {
                lemma_first_match(s@, marker());
            }
            seg(s, 0, i)
        },
        None => seg(s, 0, s.len()),
    }
}

} // verus!
