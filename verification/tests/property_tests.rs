use kit::ansi::WrapState;
use kit::ansi::strip_ansi;
use kit::api::parse_range_str;
use kit::decode::decode_input;
use kit::decode::decode_utf16_chars;
use kit::decode::looks_binary;
use kit::layout::dec_chars;
use kit::layout::format_size;
use kit::layout::snip_line;
use kit::nonprintable::Notation;
use kit::nonprintable::replace_nonprintable;
use kit::ranges::LineRange;
use kit::ranges::RangeParseError;
use kit::ranges::resolve_ranges;
use kit::squeeze::squeeze_flags;
use kit::tabs::expand_tabs;
use kit::wrap::wrap_line;

fn chars(s: &str) -> Vec<char> {
    s.chars().collect()
}

fn string(v: &[char]) -> String {
    v.iter().collect()
}

#[test]
fn resolved_intervals_are_sorted_and_merged() {
    // overlapping and adjacent requests merge into disjoint sorted intervals
    let ranges = vec![
        parse_range_str("7:9").unwrap(),
        parse_range_str("1:3").unwrap(),
        parse_range_str("2:5").unwrap(),
        parse_range_str("6:6").unwrap(),
    ];
    let rs = resolve_ranges(&ranges, 20);
    assert_eq!(rs.intervals, vec![(1, 9)]);
    let ranges2 = vec![parse_range_str("1:2").unwrap(), parse_range_str("4:4").unwrap()];
    let rs2 = resolve_ranges(&ranges2, 10);
    assert_eq!(rs2.intervals, vec![(1, 2), (4, 4)]);
    assert_eq!(rs2.snip_count(), 1);
    assert!(rs2.contains_line(2));
    assert!(!rs2.contains_line(3));
}

#[test]
fn resolving_twice_gives_the_same_set() {
    // the same requests repeated resolve to the identical interval list
    let ranges = vec![
        parse_range_str("5::2").unwrap(),
        parse_range_str("1:2").unwrap(),
        parse_range_str("9:").unwrap(),
    ];
    let mut doubled: Vec<LineRange> = ranges.clone();
    doubled.extend(ranges.iter().cloned());
    let a = resolve_ranges(&ranges, 12);
    let b = resolve_ranges(&doubled, 12);
    assert_eq!(a.intervals, b.intervals);
}

#[test]
fn empty_input_with_ranges_is_empty() {
    let ranges = vec![parse_range_str("2:3").unwrap()];
    let rs = resolve_ranges(&ranges, 0);
    assert_eq!(rs.intervals, vec![]);
}

#[test]
fn range_beyond_file_end_is_empty_not_error() {
    let ranges = vec![parse_range_str("40:50").unwrap()];
    let rs = resolve_ranges(&ranges, 10);
    assert_eq!(rs.intervals, vec![]);
}

#[test]
fn wrap_join_restores_visible_content() {
    // joining the wrapped segments loses only the inserted wrap decorations
    let line = chars("\u{1b}[33mColored text that will be wrapped at a narrow width.\u{1b}[0m plus a tail");
    let mut st = WrapState::new_empty();
    let segs = wrap_line(&line, Some(7), &mut st);
    let mut joined: Vec<char> = Vec::new();
    for s in &segs {
        joined.extend(s.iter());
    }
    assert_eq!(string(&strip_ansi(&joined)), string(&strip_ansi(&line)));
    // and a pass with no width at all shows the same visible content
    let mut st2 = WrapState::new_empty();
    let segs2 = wrap_line(&line, None, &mut st2);
    let mut joined2: Vec<char> = Vec::new();
    for s in &segs2 {
        joined2.extend(s.iter());
    }
    assert_eq!(string(&strip_ansi(&joined2)), string(&strip_ansi(&line)));
}

#[test]
fn wrap_segments_fit_the_width() {
    let line = chars("abcdefghijklmnopqrstuvwxyz");
    let mut st = WrapState::new_empty();
    let segs = wrap_line(&line, Some(10), &mut st);
    assert_eq!(segs.len(), 3);
    assert_eq!(string(&segs[0]), "abcdefghij");
    assert_eq!(string(&segs[1]), "klmnopqrst");
    assert_eq!(string(&segs[2]), "uvwxyz");
}

#[test]
fn tab_expansion_passthrough_is_identity() {
    let line = chars("a\tb\tc");
    let out = expand_tabs(&line, 0, 0);
    assert_eq!(out, line);
    let again = expand_tabs(&out, 0, 0);
    assert_eq!(again, line);
}

#[test]
fn tab_expansion_lands_on_tabstops() {
    // every expanded tab ends on a multiple of the width
    let line = chars("1\t22\t333\t4444\t");
    let out = string(&expand_tabs(&line, 4, 0));
    assert_eq!(out, "1   22  333 4444    ");
    assert_eq!(out.len() % 4, 0);
    let out8 = string(&expand_tabs(&line, 8, 0));
    assert_eq!(out8, "1       22      333     4444    ");
}

#[test]
fn squeeze_keeps_min_of_run_and_limit() {
    // a run of five blanks under limit two keeps exactly two
    let blanks = vec![false, true, true, true, true, true, false];
    let flags = squeeze_flags(&blanks, 2);
    assert_eq!(flags, vec![true, true, true, false, false, false, true]);
    // a run shorter than the limit stays whole
    let blanks2 = vec![true, true, false];
    assert_eq!(squeeze_flags(&blanks2, 5), vec![true, true, true]);
}

#[test]
fn parse_range_shapes() {
    assert_eq!(
        parse_range_str("5").unwrap(),
        LineRange { start: Some(5), end: Some(5), context: 0 },
    );
    assert_eq!(
        parse_range_str("2:3").unwrap(),
        LineRange { start: Some(2), end: Some(3), context: 0 },
    );
    assert_eq!(
        parse_range_str("4:").unwrap(),
        LineRange { start: Some(4), end: None, context: 0 },
    );
    assert_eq!(
        parse_range_str(":-2").unwrap(),
        LineRange { start: None, end: Some(-2), context: 0 },
    );
    assert_eq!(
        parse_range_str("5::2").unwrap(),
        LineRange { start: Some(5), end: Some(5), context: 2 },
    );
    assert_eq!(
        parse_range_str("4:6:2").unwrap(),
        LineRange { start: Some(4), end: Some(6), context: 2 },
    );
    assert_eq!(parse_range_str("abc").unwrap_err(), RangeParseError::Syntax);
    assert_eq!(parse_range_str("1:2:3:4").unwrap_err(), RangeParseError::Syntax);
    assert_eq!(
        parse_range_str("5::x").unwrap_err(),
        RangeParseError::Context { bounded: false },
    );
    assert_eq!(
        parse_range_str("5:6:x").unwrap_err(),
        RangeParseError::Context { bounded: true },
    );
}

#[test]
fn decode_utf16_little_endian() {
    let out = decode_utf16_chars(&[0x68, 0x00, 0x69, 0x00], true).unwrap();
    assert_eq!(string(&out), "hi");
}

#[test]
fn decode_utf16_big_endian() {
    let out = decode_utf16_chars(&[0x00, 0x68, 0x00, 0x69], false).unwrap();
    assert_eq!(string(&out), "hi");
}

#[test]
fn decode_utf16_surrogate_pair() {
    // U+1D11E as the pair D834 DD1E
    let out = decode_utf16_chars(&[0x34, 0xD8, 0x1E, 0xDD], true).unwrap();
    assert_eq!(string(&out), "\u{1d11e}");
}

#[test]
fn decode_utf16_lone_surrogate_is_error() {
    assert!(decode_utf16_chars(&[0x34, 0xD8, 0x68, 0x00], true).is_none());
    assert!(decode_utf16_chars(&[0x1E, 0xDD], true).is_none());
}

#[test]
fn decode_utf16_odd_length_is_error() {
    assert!(decode_utf16_chars(&[0x68, 0x00, 0x69], true).is_none());
}

#[test]
fn decode_input_detects_utf16_marks() {
    let le: Vec<u8> = vec![0xFF, 0xFE, 0x68, 0x00, 0x69, 0x00];
    assert_eq!(string(&decode_input(&le, false).unwrap()), "hi");
    let be: Vec<u8> = vec![0xFE, 0xFF, 0x00, 0x68, 0x00, 0x69];
    assert_eq!(string(&decode_input(&be, false).unwrap()), "hi");
    let bad: Vec<u8> = vec![0xFF, 0x00];
    assert!(decode_input(&bad, false).is_none());
}

#[test]
fn binary_detection_looks_for_nul() {
    assert!(looks_binary(&[0x41, 0x00, 0x42]));
    assert!(!looks_binary(b"plain text\n"));
}

#[test]
fn size_formatting() {
    assert_eq!(string(&format_size(0)), "0 B");
    assert_eq!(string(&format_size(12)), "12 B");
    assert_eq!(string(&format_size(999)), "999 B");
    assert_eq!(string(&format_size(1500)), "1.5 kB");
    assert_eq!(string(&format_size(2_300_000)), "2.3 MB");
}

#[test]
fn decimal_rendering() {
    assert_eq!(string(&dec_chars(0)), "0");
    assert_eq!(string(&dec_chars(10)), "10");
    assert_eq!(string(&dec_chars(12345)), "12345");
}

#[test]
fn snip_row_is_exactly_terminal_width() {
    let row = snip_line(80, 5, false);
    assert_eq!(row.len(), 80);
    assert_eq!(
        string(&row),
        " ...─ ─ ─ ─ ─ ─ ─ ─ ─ ─ ─ ─ ─ ─ ─ ─ ─ ─ 8< ─ ─ ─ ─ ─ ─ ─ ─ ─ ─ ─ ─ ─ ─ ─ ─ ─ ─ ─",
    );
}

#[test]
fn nonprintable_tab_markers_span_the_tab() {
    let out = replace_nonprintable(&chars("a\tb"), 4, Notation::Unicode);
    assert_eq!(string(&out), "a├─┤b");
    let out1 = replace_nonprintable(&chars("abc\td"), 4, Notation::Unicode);
    assert_eq!(string(&out1), "abc↹d");
}

#[test]
fn nonprintable_passes_printable_text_through() {
    let out = replace_nonprintable(&chars("Ünïcode"), 4, Notation::Unicode);
    assert_eq!(string(&out), "Ünïcode");
}

#[test]
fn strip_ansi_removes_sequences() {
    let out = strip_ansi(&chars("\u{1b}[33mwarm\u{1b}[0m and \u{1b}]8;;x\u{7}linked"));
    assert_eq!(string(&out), "warm and linked");
}

#[test]
fn strip_ansi_keeps_malformed_escape_bytes() {
    let out = strip_ansi(&chars("tail\u{1b}"));
    assert_eq!(string(&out), "tail\u{1b}");
}

#[test]
fn error_message_for_decode_fault() {
    let msg = kit::errors::error_message(&kit::errors::KitError::DecodeFault);
    assert_eq!(msg, "Input could not be decoded in its announced encoding");
}

#[test]
fn error_message_for_range_syntax() {
    let msg = kit::errors::error_message(&kit::errors::KitError::InvalidRangeSyntax);
    assert_eq!(msg, "Invalid line range format");
}

#[test]
fn render_can_strip_escape_sequences() {
    let mut cfg = kit::layout::RenderConfig {
        term_width: 80,
        style: kit::style::StyleSet {
            header_filename: false,
            header_filesize: false,
            grid: false,
            rule: false,
            numbers: false,
            changes: false,
            snip: false,
        },
        tab_width: 0,
        wrap: true,
        notation: None,
        squeeze_limit: None,
        strip_ansi: true,
        binary_as_text: false,
        passthrough: false,
    };
    cfg.strip_ansi = true;
    let docs = vec![kit::api::make_doc(None, None, false, "\u{1b}[33mwarm\u{1b}[0m text\n")];
    let out = kit::api::render_to_string(&cfg, &docs, &[]);
    assert_eq!(out, "warm text\n");
}

#[test]
fn snip_row_under_grid_keeps_the_bar() {
    let row = snip_line(40, 5, true);
    let s = string(&row);
    assert!(s.starts_with(" ... \u{2502}"));
    assert_eq!(row.len(), 40);
}
