//! The entry data model: one extracted string together with the tags that tie
//! it to a binary-resource slot, and the warning and error values the catalog
//! parser reports.
use vstd::prelude::*;

verus! {

/// One translatable string with its identifying tags. `(source_file, hash)`
/// identifies one binary-resource slot; `unk` is an opaque secondary tag that
/// is passed through unchanged.
pub struct Entry {
    pub text: String,
    pub hash: u32,
    pub unk: u32,
    pub source_file: String,
}

/// The mathematical model of an [`Entry`]: the same fields with the strings
/// seen as character sequences.
#[verifier::ext_equal]
pub struct EntryView {
    pub text: Seq<char>,
    pub hash: u32,
    pub unk: u32,
    pub source_file: Seq<char>,
}

impl View for Entry {
    type V = EntryView;

    open spec fn view(&self) -> EntryView {
        EntryView { text: self.text@, hash: self.hash, unk: self.unk, source_file: self.source_file@ }
    }
}

/// The views of a sequence of entries.
pub open spec fn views_of(entries: Seq<Entry>) -> Seq<EntryView> {
    entries.map_values(|e: Entry| e@)
}

impl Entry {
    pub fn new(text: String, hash: u32, unk: u32, source_file: String) -> (r: Self)
        ensures
            r@ == (EntryView { text: text@, hash, unk, source_file: source_file@ }),
    {
        Self { text, hash, unk, source_file }
    }
}

/// An [`Entry`] without its text: the tags alone, borrowed from the entry.
pub struct EntryNoText<'a> {
    pub hash: u32,
    pub unk: u32,
    pub source_file: &'a str,
}

impl<'a> EntryNoText<'a> {
    /// Take an [`Entry`], convert it to an [`EntryNoText`], also returning the
    /// text as the second output.
    pub fn from_entry(entry: &'a Entry) -> (r: (Self, &'a str))
        ensures
            r.0.hash == entry.hash,
            r.0.unk == entry.unk,
            r.0.source_file@ == entry.source_file@,
            r.1@ == entry.text@,
    {
        (Self { hash: entry.hash, unk: entry.unk, source_file: entry.source_file.as_str() }, entry.text.as_str())
    }
}

/// A non-fatal parsing problem in a catalog. The caller should likely report
/// these, but a best-effort result is still returned beside them.
pub enum PoWarning {
    /// A line starts with an unknown directive token: line number and token.
    LineTypeUnknown(usize, String),
    /// A quoted span is still open at the end of the line.
    UnclosedQuote(usize),
    /// An escape sequence is still pending at the end of the line.
    UnfinishedEscape(usize),
}

/// The mathematical model of a [`PoWarning`].
pub enum WarningView {
    LineTypeUnknown(usize, Seq<char>),
    UnclosedQuote(usize),
    UnfinishedEscape(usize),
}

impl View for PoWarning {
    type V = WarningView;

    open spec fn view(&self) -> WarningView {
        match self {
            PoWarning::LineTypeUnknown(nb, tok) => WarningView::LineTypeUnknown(*nb, tok@),
            PoWarning::UnclosedQuote(nb) => WarningView::UnclosedQuote(*nb),
            PoWarning::UnfinishedEscape(nb) => WarningView::UnfinishedEscape(*nb),
        }
    }
}

/// The views of a sequence of warnings.
pub open spec fn warning_views_of(ws: Seq<PoWarning>) -> Seq<WarningView> {
    ws.map_values(|w: PoWarning| w@)
}

/// A fatal condition while parsing a catalog: the document is corrupt beyond
/// safe recovery and no result is returned for it.
#[derive(Clone, Copy, Debug, PartialEq, Eq, Structural)]
pub enum PoError {
    /// A malformed escape sequence: `\\x` not followed by `{`, a non-hex
    /// character inside a `\x{...}` span, an empty or oversized code number,
    /// or a code number that is no Unicode scalar value.
    MalformedEscape(usize),
    /// A comment line that does not split into exactly three space-separated
    /// tokens with numeric hash and tag fields.
    CommentFormat(usize),
    /// A record was flushed with text but without any pending comment line.
    CommentMissing,
}

} // verus!
