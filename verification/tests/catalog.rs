//! End-to-end tests of the catalog codec: escaping, serialization,
//! deduplication, disambiguation, parsing, warnings and fatal conditions.
use translatepmd::{Entry, GettextWriter, PoError, PoWarning, escape_string_for_gettext};

fn entry(text: &str, hash: u32, unk: u32, source_file: &str) -> Entry {
    Entry::new(text.to_string(), hash, unk, source_file.to_string())
}

fn parse_error(catalog: &str) -> PoError {
    match GettextWriter::from_po(catalog.to_string()) {
        Ok(_) => panic!("expected a fatal parse error"),
        Err(e) => e,
    }
}

#[test]
fn escape_plain_text() {
    assert_eq!(escape_string_for_gettext("Hello"), "\"Hello\"");
}

#[test]
fn escape_empty_text() {
    assert_eq!(escape_string_for_gettext(""), "\"\"");
}

#[test]
fn escape_quote_and_backslash() {
    assert_eq!(escape_string_for_gettext("a\"b"), "\"a\\\"b\"");
    assert_eq!(escape_string_for_gettext("a\\b"), "\"a\\\\b\"");
}

#[test]
fn escape_newline_single_escaped() {
    assert_eq!(escape_string_for_gettext("a\nb"), "\"a\\nb\"");
}

#[test]
fn escape_carriage_return_double_escaped() {
    // The four characters backslash, backslash, r stand for one raw CR.
    assert_eq!(escape_string_for_gettext("a\rb"), "\"a\\\\rb\"");
}

#[test]
fn escape_control_character_hex() {
    assert_eq!(escape_string_for_gettext("a\u{3}b"), "\"a\\\\x{3}b\"");
    assert_eq!(escape_string_for_gettext("\u{7f}"), "\"\\\\x{7f}\"");
    assert_eq!(escape_string_for_gettext("\u{9f}"), "\"\\\\x{9f}\"");
}

#[test]
fn to_pot_groups_equal_texts() {
    let mut w = GettextWriter::new(Vec::new());
    w.entries.push(entry("Hello", 10, 0, "a.bin"));
    w.entries.push(entry("Hello", 20, 0, "b.bin"));
    let pot = w.to_pot();
    assert_eq!(pot, "#. a.bin 10 0\n#. b.bin 20 0\nmsgid \"Hello\"\nmsgstr \"\"\n\n");
}

#[test]
fn to_pot_keeps_first_seen_order() {
    let mut w = GettextWriter::new(Vec::new());
    w.entries.push(entry("B", 1, 0, "x"));
    w.entries.push(entry("A", 2, 0, "y"));
    w.entries.push(entry("B", 3, 7, "z"));
    let pot = w.to_pot();
    assert_eq!(
        pot,
        "#. x 1 0\n#. z 3 7\nmsgid \"B\"\nmsgstr \"\"\n\n#. y 2 0\nmsgid \"A\"\nmsgstr \"\"\n\n"
    );
}

#[test]
fn to_pot_empty_text_uses_space() {
    let mut w = GettextWriter::new(Vec::new());
    w.entries.push(entry("", 1, 2, "f.bin"));
    assert_eq!(w.to_pot(), "#. f.bin 1 2\nmsgid \" \"\nmsgstr \"\"\n\n");
}

#[test]
fn to_pot_disambiguates_on_trigger() {
    let mut w = GettextWriter::new(vec!["hello".to_string()]);
    w.entries.push(entry("Hello", 10, 0, "a.bin"));
    w.entries.push(entry("Hello", 20, 0, "b.bin"));
    let pot = w.to_pot();
    let expected = format!(
        "#. a.bin 10 0\nmsgid \"Hello{m}a.bin 10\"\nmsgstr \"\"\n\n\
         #. b.bin 20 0\nmsgid \"Hello{m}b.bin 20\"\nmsgstr \"\"\n\n",
        m = "\u{167}discrimator\u{167}"
    );
    assert_eq!(pot, expected);
}

#[test]
fn trigger_matching_is_case_insensitive() {
    // Both the trigger and the text are folded to lowercase before matching.
    let mut w = GettextWriter::new(vec!["heLLo".to_string()]);
    w.entries.push(entry("HELLO WORLD", 1, 0, "a"));
    w.entries.push(entry("HELLO WORLD", 2, 0, "b"));
    let pot = w.to_pot();
    // Two distinct records: the texts were kept apart.
    assert_eq!(pot.matches("msgid").count(), 2);
    let (parsed, warnings) = GettextWriter::from_po(pot).unwrap();
    assert!(warnings.is_empty());
    assert_eq!(parsed.entries.len(), 2);
    assert_eq!(parsed.entries[0].text, "HELLO WORLD");
    assert_eq!(parsed.entries[1].text, "HELLO WORLD");
}

#[test]
fn from_po_reads_one_record() {
    let (w, warnings) =
        GettextWriter::from_po("#. a.bin 10 0\nmsgid \"Hello\"\nmsgstr \"\"\n".to_string())
            .unwrap();
    assert!(warnings.is_empty());
    assert_eq!(w.entries.len(), 1);
    assert_eq!(w.entries[0].text, "Hello");
    assert_eq!(w.entries[0].hash, 10);
    assert_eq!(w.entries[0].unk, 0);
    assert_eq!(w.entries[0].source_file, "a.bin");
}

#[test]
fn from_po_translation_overrides_msgid() {
    let (w, warnings) = GettextWriter::from_po(
        "#. a.bin 10 0\nmsgid \"Hello\"\nmsgstr \"Bonjour\"\n".to_string(),
    )
    .unwrap();
    assert!(warnings.is_empty());
    assert_eq!(w.entries[0].text, "Bonjour");
}

#[test]
fn round_trip_two_slots_one_text() {
    let mut w = GettextWriter::new(Vec::new());
    w.entries.push(entry("Hello", 10, 0, "a.bin"));
    w.entries.push(entry("Hello", 20, 0, "b.bin"));
    let (parsed, warnings) = GettextWriter::from_po(w.to_pot()).unwrap();
    assert!(warnings.is_empty());
    assert_eq!(parsed.entries.len(), 2);
    assert_eq!(parsed.entries[0].text, "Hello");
    assert_eq!(parsed.entries[0].hash, 10);
    assert_eq!(parsed.entries[0].source_file, "a.bin");
    assert_eq!(parsed.entries[1].text, "Hello");
    assert_eq!(parsed.entries[1].hash, 20);
    assert_eq!(parsed.entries[1].source_file, "b.bin");
}

#[test]
fn round_trip_special_characters() {
    let text = "a\"b\\c\nd\re\u{3}f";
    let mut w = GettextWriter::new(Vec::new());
    w.entries.push(entry(text, 5, 6, "m.bin"));
    let (parsed, warnings) = GettextWriter::from_po(w.to_pot()).unwrap();
    assert!(warnings.is_empty());
    assert_eq!(parsed.entries.len(), 1);
    assert_eq!(parsed.entries[0].text, text);
    assert_eq!(parsed.entries[0].hash, 5);
    assert_eq!(parsed.entries[0].unk, 6);
}

#[test]
fn round_trip_empty_text() {
    let mut w = GettextWriter::new(Vec::new());
    w.entries.push(entry("", 1, 2, "f.bin"));
    let (parsed, warnings) = GettextWriter::from_po(w.to_pot()).unwrap();
    assert!(warnings.is_empty());
    assert_eq!(parsed.entries.len(), 1);
    assert_eq!(parsed.entries[0].text, "");
    assert_eq!(parsed.entries[0].hash, 1);
    assert_eq!(parsed.entries[0].unk, 2);
}

#[test]
fn round_trip_disambiguated_strips_marker() {
    let mut w = GettextWriter::new(vec!["hello".to_string()]);
    w.entries.push(entry("Hello", 10, 0, "a.bin"));
    w.entries.push(entry("Hello", 20, 0, "b.bin"));
    let (parsed, warnings) = GettextWriter::from_po(w.to_pot()).unwrap();
    assert!(warnings.is_empty());
    assert_eq!(parsed.entries.len(), 2);
    assert_eq!(parsed.entries[0].text, "Hello");
    assert_eq!(parsed.entries[0].hash, 10);
    assert_eq!(parsed.entries[1].text, "Hello");
    assert_eq!(parsed.entries[1].hash, 20);
}

#[test]
fn from_po_decodes_hex_escape() {
    let (w, warnings) =
        GettextWriter::from_po("#. a 1 0\nmsgid \"x\\\\x{1f600}y\"\nmsgstr \"\"\n".to_string())
            .unwrap();
    assert!(warnings.is_empty());
    assert_eq!(w.entries[0].text, "x\u{1f600}y");
}

#[test]
fn from_po_quoted_continuation_lines() {
    let text = "#. a 1 0\nmsgid \"abc\"\n\"def\"\nmsgstr \"\"\n";
    let (w, warnings) = GettextWriter::from_po(text.to_string()).unwrap();
    assert!(warnings.is_empty());
    assert_eq!(w.entries[0].text, "abcdef");
}

#[test]
fn from_po_empty_document() {
    let (w, warnings) = GettextWriter::from_po(String::new()).unwrap();
    assert!(warnings.is_empty());
    assert!(w.entries.is_empty());
}

#[test]
fn from_po_crlf_line_endings() {
    let (w, warnings) =
        GettextWriter::from_po("#. a.bin 10 0\r\nmsgid \"Hi\"\r\nmsgstr \"\"\r\n".to_string())
            .unwrap();
    assert!(warnings.is_empty());
    assert_eq!(w.entries.len(), 1);
    assert_eq!(w.entries[0].text, "Hi");
}

#[test]
fn from_po_unknown_token_warns() {
    let (w, warnings) =
        GettextWriter::from_po("bogus line\n#. a 1 0\nmsgid \"x\"\nmsgstr \"\"\n".to_string())
            .unwrap();
    assert_eq!(warnings.len(), 1);
    assert!(matches!(&warnings[0], PoWarning::LineTypeUnknown(0, t) if t == "bogus"));
    assert_eq!(w.entries.len(), 1);
}

#[test]
fn from_po_unclosed_quote_warns() {
    let (w, warnings) =
        GettextWriter::from_po("#. a 1 0\nmsgid \"abc\nmsgstr \"\"\n".to_string()).unwrap();
    assert!(warnings.iter().any(|w| matches!(w, PoWarning::UnclosedQuote(1))));
    assert_eq!(w.entries.len(), 1);
}

#[test]
fn from_po_unfinished_escape_warns() {
    let (_, warnings) =
        GettextWriter::from_po("#. a 1 0\nmsgid \"abc\\\nmsgstr \"\"\n".to_string()).unwrap();
    assert!(warnings.iter().any(|w| matches!(w, PoWarning::UnfinishedEscape(1))));
}

#[test]
fn from_po_short_comment_is_fatal() {
    assert_eq!(parse_error("#. a.bin 10\nmsgid \"x\"\nmsgstr \"\"\n"), PoError::CommentFormat(0));
}

#[test]
fn from_po_long_comment_is_fatal() {
    assert_eq!(parse_error("#. a.bin 10 0 9\nmsgid \"x\"\nmsgstr \"\"\n"), PoError::CommentFormat(0));
}

#[test]
fn from_po_non_numeric_hash_is_fatal() {
    assert_eq!(parse_error("#. a.bin ten 0\nmsgid \"x\"\nmsgstr \"\"\n"), PoError::CommentFormat(0));
}

#[test]
fn from_po_overflowing_hash_is_fatal() {
    assert_eq!(
        parse_error("#. a.bin 4294967296 0\nmsgid \"x\"\nmsgstr \"\"\n"),
        PoError::CommentFormat(0)
    );
}

#[test]
fn from_po_missing_comment_is_fatal() {
    assert_eq!(parse_error("msgid \"x\"\nmsgstr \"\"\n"), PoError::CommentMissing);
}

#[test]
fn from_po_bad_escape_is_fatal() {
    // A double backslash followed by `x` must open a `{...}` code.
    assert_eq!(
        parse_error("#. a 1 0\nmsgid \"a\\\\xz\"\nmsgstr \"\"\n"),
        PoError::MalformedEscape(1)
    );
}

#[test]
fn from_po_empty_hex_code_is_fatal() {
    assert_eq!(
        parse_error("#. a 1 0\nmsgid \"a\\\\x{}\"\nmsgstr \"\"\n"),
        PoError::MalformedEscape(1)
    );
}

#[test]
fn from_po_surrogate_code_point_is_fatal() {
    assert_eq!(
        parse_error("#. a 1 0\nmsgid \"a\\\\x{d800}\"\nmsgstr \"\"\n"),
        PoError::MalformedEscape(1)
    );
}

#[test]
fn merge_appends_entries_in_order() {
    let mut a = GettextWriter::new(Vec::new());
    a.entries.push(entry("one", 1, 0, "x"));
    let mut b = GettextWriter::new(Vec::new());
    b.entries.push(entry("two", 2, 0, "y"));
    b.entries.push(entry("three", 3, 0, "z"));
    a.merge(b);
    assert_eq!(a.entries.len(), 3);
    assert_eq!(a.entries[0].text, "one");
    assert_eq!(a.entries[1].text, "two");
    assert_eq!(a.entries[2].text, "three");
}

#[test]
fn entry_no_text_splits_entry() {
    let e = entry("Hi", 4, 5, "s.bin");
    let (tags, text) = translatepmd::EntryNoText::from_entry(&e);
    assert_eq!(tags.hash, 4);
    assert_eq!(tags.unk, 5);
    assert_eq!(tags.source_file, "s.bin");
    assert_eq!(text, "Hi");
}

#[test]
fn split_by_source_file_groups_in_first_seen_order() {
    let mut w = GettextWriter::new(Vec::new());
    w.entries.push(entry("one", 1, 0, "b.bin"));
    w.entries.push(entry("two", 2, 0, "a.bin"));
    w.entries.push(entry("three", 3, 0, "b.bin"));
    let split = w.split_by_source_file();
    assert_eq!(split.len(), 2);
    assert_eq!(split[0].entries.len(), 2);
    assert_eq!(split[0].entries[0].text, "one");
    assert_eq!(split[0].entries[1].text, "three");
    assert_eq!(split[0].entries[1].source_file, "b.bin");
    assert_eq!(split[1].entries.len(), 1);
    assert_eq!(split[1].entries[0].source_file, "a.bin");
}

#[test]
fn round_trip_largest_numbers() {
    let mut w = GettextWriter::new(Vec::new());
    w.entries.push(entry("max", u32::MAX, u32::MAX, "m.bin"));
    assert_eq!(w.to_pot(), "#. m.bin 4294967295 4294967295\nmsgid \"max\"\nmsgstr \"\"\n\n");
    let (parsed, warnings) = GettextWriter::from_po(w.to_pot()).unwrap();
    assert!(warnings.is_empty());
    assert_eq!(parsed.entries[0].hash, u32::MAX);
    assert_eq!(parsed.entries[0].unk, u32::MAX);
}
