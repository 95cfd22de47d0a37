use kit::api::make_doc;
use kit::api::parse_range_str;
use kit::api::render_to_string;
use kit::layout::InputDoc;
use kit::layout::RenderConfig;
use kit::ranges::LineRange;
use kit::style::StyleSet;

fn style_none() -> StyleSet {
    StyleSet {
        header_filename: false,
        header_filesize: false,
        grid: false,
        rule: false,
        numbers: false,
        changes: false,
        snip: false,
    }
}

fn cfg_pass() -> RenderConfig {
    RenderConfig {
        term_width: 80,
        style: style_none(),
        tab_width: 0,
        wrap: false,
        notation: None,
        squeeze_limit: None,
        strip_ansi: false,
        binary_as_text: false,
        passthrough: true,
    }
}

fn cfg_deco(style: StyleSet, width: usize) -> RenderConfig {
    RenderConfig {
        term_width: width,
        style,
        tab_width: 0,
        wrap: true,
        notation: None,
        squeeze_limit: None,
        strip_ansi: false,
        binary_as_text: false,
        passthrough: false,
    }
}

fn numbers_style() -> StyleSet {
    StyleSet { numbers: true, ..style_none() }
}

fn parse_ranges(tokens: &[&str]) -> Vec<LineRange> {
    let mut v: Vec<LineRange> = Vec::new();
    for t in tokens {
        v.push(parse_range_str(t).unwrap());
    }
    v
}

fn file(name: &str, size: u64, content: &str) -> InputDoc {
    make_doc(Some(name), Some(size), false, content)
}

fn render1(cfg: &RenderConfig, doc: InputDoc, ranges: &[LineRange]) -> String {
    let docs = vec![doc];
    render_to_string(cfg, &docs, ranges)
}

fn multiline() -> String {
    let mut s = String::new();
    for i in 1..=10 {
        s.push_str(&format!("line {}\n", i));
    }
    s
}

const TEST_TXT: &str = "hello world\n";
const SINGLE_LINE: &str = "Single Line";

#[test]
fn basic() {
    let out = render1(&cfg_pass(), file("test.txt", 12, TEST_TXT), &[]);
    assert_eq!(out, "hello world\n");
}

#[test]
fn stdin() {
    let out = render1(&cfg_pass(), make_doc(None, None, false, "foo\nbar\n"), &[]);
    assert_eq!(out, "foo\nbar\n");
}

#[test]
fn concatenate() {
    let docs = vec![file("test.txt", 12, TEST_TXT), file("test.txt", 12, TEST_TXT)];
    assert_eq!(render_to_string(&cfg_pass(), &docs, &[]), "hello world\nhello world\n");
}

#[test]
fn concatenate_stdin() {
    let docs = vec![
        file("test.txt", 12, TEST_TXT),
        make_doc(None, None, false, "stdin\n"),
        file("test.txt", 12, TEST_TXT),
    ];
    assert_eq!(render_to_string(&cfg_pass(), &docs, &[]), "hello world\nstdin\nhello world\n");
}

#[test]
fn concatenate_empty_first() {
    let docs = vec![file("empty.txt", 0, ""), file("test.txt", 12, TEST_TXT)];
    assert_eq!(render_to_string(&cfg_pass(), &docs, &[]), "hello world\n");
}

#[test]
fn concatenate_empty_last() {
    let docs = vec![file("test.txt", 12, TEST_TXT), file("empty.txt", 0, "")];
    assert_eq!(render_to_string(&cfg_pass(), &docs, &[]), "hello world\n");
}

#[test]
fn concatenate_empty_both() {
    let docs = vec![file("empty.txt", 0, ""), file("empty.txt", 0, "")];
    assert_eq!(render_to_string(&cfg_pass(), &docs, &[]), "");
}

#[test]
fn concatenate_empty_between() {
    let docs = vec![
        file("test.txt", 12, TEST_TXT),
        file("empty.txt", 0, ""),
        file("test.txt", 12, TEST_TXT),
    ];
    assert_eq!(render_to_string(&cfg_pass(), &docs, &[]), "hello world\nhello world\n");
}

#[test]
fn concatenate_empty_first_and_last() {
    let docs = vec![
        file("empty.txt", 0, ""),
        file("test.txt", 12, TEST_TXT),
        file("empty.txt", 0, ""),
    ];
    assert_eq!(render_to_string(&cfg_pass(), &docs, &[]), "hello world\n");
}

#[test]
fn concatenate_single_line() {
    let docs = vec![file("single-line.txt", 11, SINGLE_LINE), file("single-line.txt", 11, SINGLE_LINE)];
    assert_eq!(render_to_string(&cfg_pass(), &docs, &[]), "Single LineSingle Line");
}

#[test]
fn concatenate_single_line_empty() {
    let docs = vec![
        file("single-line.txt", 11, SINGLE_LINE),
        file("empty.txt", 0, ""),
        file("single-line.txt", 11, SINGLE_LINE),
    ];
    assert_eq!(render_to_string(&cfg_pass(), &docs, &[]), "Single LineSingle Line");
}

#[test]
fn line_numbers() {
    let out = render1(&cfg_deco(numbers_style(), 80), file("multiline.txt", 66, &multiline()), &[]);
    assert_eq!(out, "   1 line 1\n   2 line 2\n   3 line 3\n   4 line 4\n   5 line 5\n   6 line 6\n   7 line 7\n   8 line 8\n   9 line 9\n  10 line 10\n");
}

#[test]
fn line_range_2_3() {
    let r = parse_ranges(&["2:3"]);
    let out = render1(&cfg_pass(), file("multiline.txt", 66, &multiline()), &r);
    assert_eq!(out, "line 2\nline 3\n");
}

#[test]
fn line_range_up_to_2_from_back() {
    let r = parse_ranges(&[":-2"]);
    let out = render1(&cfg_pass(), file("multiline.txt", 66, &multiline()), &r);
    assert_eq!(out, "line 1\nline 2\nline 3\nline 4\nline 5\nline 6\nline 7\nline 8\n");
}

#[test]
fn line_range_up_to_2_from_back_single_line_is_empty() {
    let r = parse_ranges(&[":-2"]);
    let out = render1(&cfg_pass(), file("single-line.txt", 11, SINGLE_LINE), &r);
    assert_eq!(out, "");
}

#[test]
fn line_range_from_back_last_two() {
    let r = parse_ranges(&["-2:"]);
    let out = render1(&cfg_pass(), file("multiline.txt", 66, &multiline()), &r);
    assert_eq!(out, "line 9\nline 10\n");
}

#[test]
fn line_range_from_back_last_two_single_line_eq_sep() {
    let r = parse_ranges(&["-2:"]);
    let out = render1(&cfg_pass(), file("single-line.txt", 11, SINGLE_LINE), &r);
    assert_eq!(out, "Single Line");
}

#[test]
fn line_range_from_back_last_two_single_line_no_sep() {
    let r = parse_ranges(&["-2:"]);
    let out = render1(&cfg_pass(), file("single-line.txt", 11, SINGLE_LINE), &r);
    assert_eq!(out, "Single Line");
}

#[test]
fn line_range_first_two() {
    let r = parse_ranges(&[":2"]);
    let out = render1(&cfg_pass(), file("multiline.txt", 66, &multiline()), &r);
    assert_eq!(out, "line 1\nline 2\n");
}

#[test]
fn line_range_last_3() {
    let r = parse_ranges(&["8:"]);
    let out = render1(&cfg_pass(), file("multiline.txt", 66, &multiline()), &r);
    assert_eq!(out, "line 8\nline 9\nline 10\n");
}

#[test]
fn line_range_multiple() {
    let r = parse_ranges(&["1:2", "4:4"]);
    let out = render1(&cfg_pass(), file("multiline.txt", 66, &multiline()), &r);
    assert_eq!(out, "line 1\nline 2\nline 4\n");
}

#[test]
fn line_range_multiple_with_context() {
    let r = parse_ranges(&["2::1", "8::1"]);
    let out = render1(&cfg_pass(), file("multiline.txt", 66, &multiline()), &r);
    assert_eq!(out, "line 1\nline 2\nline 3\nline 7\nline 8\nline 9\n");
}

#[test]
fn line_range_context_around_single_line() {
    let r = parse_ranges(&["5::2"]);
    let out = render1(&cfg_pass(), file("multiline.txt", 66, &multiline()), &r);
    assert_eq!(out, "line 3\nline 4\nline 5\nline 6\nline 7\n");
}

#[test]
fn line_range_context_around_single_line_minimal() {
    let r = parse_ranges(&["5::1"]);
    let out = render1(&cfg_pass(), file("multiline.txt", 66, &multiline()), &r);
    assert_eq!(out, "line 4\nline 5\nline 6\n");
}

#[test]
fn line_range_context_around_range() {
    let r = parse_ranges(&["4:6:2"]);
    let out = render1(&cfg_pass(), file("multiline.txt", 66, &multiline()), &r);
    assert_eq!(out, "line 2\nline 3\nline 4\nline 5\nline 6\nline 7\nline 8\n");
}

#[test]
fn line_range_context_at_file_boundaries() {
    let r = parse_ranges(&["1::2"]);
    let out = render1(&cfg_pass(), file("multiline.txt", 66, &multiline()), &r);
    assert_eq!(out, "line 1\nline 2\nline 3\n");
}

#[test]
fn line_range_context_at_end_of_file() {
    let r = parse_ranges(&["10::2"]);
    let out = render1(&cfg_pass(), file("multiline.txt", 66, &multiline()), &r);
    assert_eq!(out, "line 8\nline 9\nline 10\n");
}

#[test]
fn line_range_context_zero() {
    let r = parse_ranges(&["5::0"]);
    let out = render1(&cfg_pass(), file("multiline.txt", 66, &multiline()), &r);
    assert_eq!(out, "line 5\n");
}

#[test]
fn line_range_context_negative_single_line() {
    let e = parse_range_str("5::-1").unwrap_err();
    let msg = kit::errors::error_message(&kit::errors::from_range_error(e));
    assert!(msg.contains("Invalid context number in N::C format"));
}

#[test]
fn line_range_context_negative_range() {
    let e = parse_range_str("5:6:-1").unwrap_err();
    let msg = kit::errors::error_message(&kit::errors::from_range_error(e));
    assert!(msg.contains("Invalid context number in N:M:C format"));
}

#[test]
fn line_range_context_non_numeric_single_line() {
    let e = parse_range_str("10::abc").unwrap_err();
    let msg = kit::errors::error_message(&kit::errors::from_range_error(e));
    assert!(msg.contains("Invalid context number in N::C format"));
}

#[test]
fn line_range_context_non_numeric_range() {
    let e = parse_range_str("10:12:xyz").unwrap_err();
    let msg = kit::errors::error_message(&kit::errors::from_range_error(e));
    assert!(msg.contains("Invalid context number in N:M:C format"));
}

#[test]
fn line_range_context_very_large() {
    let r = parse_ranges(&["10::999999"]);
    let out = render1(&cfg_pass(), file("multiline.txt", 66, &multiline()), &r);
    assert_eq!(
        out,
        "line 1\nline 2\nline 3\nline 4\nline 5\nline 6\nline 7\nline 8\nline 9\nline 10\n",
    );
}

#[test]
fn piped_output_with_implicit_auto_style() {
    let out = render1(&cfg_pass(), make_doc(None, None, false, "hello\nworld\n"), &[]);
    assert_eq!(out, "hello\nworld\n");
}

#[test]
fn piped_output_with_line_number_flag() {
    let out = render1(&cfg_deco(numbers_style(), 80), make_doc(None, None, false, "hello\nworld\n"), &[]);
    assert_eq!(out, "   1 hello\n   2 world\n");
}

#[test]
fn piped_output_with_line_numbers_style_flag() {
    let out = render1(&cfg_deco(numbers_style(), 80), make_doc(None, None, false, "hello\nworld\n"), &[]);
    assert_eq!(out, "   1 hello\n   2 world\n");
}

#[test]
fn piped_output_with_line_numbers_with_header_grid_style_flag() {
    let style = StyleSet { header_filename: true, grid: true, numbers: true, ..style_none() };
    let out = render1(&cfg_deco(style, 80), make_doc(None, None, false, "hello\nworld\n"), &[]);
    assert_eq!(
        out,
        "─────┬──────────────────────────────────────────────────────────────────────────
     │ STDIN
─────┼──────────────────────────────────────────────────────────────────────────
   1 │ hello
   2 │ world
─────┴──────────────────────────────────────────────────────────────────────────
",
    );
}

#[test]
fn piped_output_with_default_style_flag() {
    let style = StyleSet { header_filename: true, grid: true, numbers: true, snip: true, ..style_none() };
    let out = render1(&cfg_deco(style, 80), make_doc(None, None, false, "hello\nworld\n"), &[]);
    assert_eq!(
        out,
        "─────┬──────────────────────────────────────────────────────────────────────────
     │ STDIN
─────┼──────────────────────────────────────────────────────────────────────────
   1 │ hello
   2 │ world
─────┴──────────────────────────────────────────────────────────────────────────
",
    );
}

fn empty_lines_content() -> String {
    let mut s = String::new();
    for i in 1..=30 {
        match i {
            1 | 5 | 20 | 21 | 24 | 26 | 30 => s.push_str(&format!("line {}\n", i)),
            _ => s.push('\n'),
        }
    }
    s
}

#[test]
fn squeeze_blank() {
    let mut cfg = cfg_pass();
    cfg.squeeze_limit = Some(1);
    let out = render1(&cfg, file("empty_lines.txt", 0, &empty_lines_content()), &[]);
    assert_eq!(out, "line 1\n\nline 5\n\nline 20\nline 21\n\nline 24\n\nline 26\n\nline 30\n");
}

#[test]
fn squeeze_blank_line_numbers() {
    let mut cfg = cfg_deco(numbers_style(), 80);
    cfg.squeeze_limit = Some(1);
    let out = render1(&cfg, file("empty_lines.txt", 0, &empty_lines_content()), &[]);
    assert_eq!(out, "   1 line 1\n   2 \n   5 line 5\n   6 \n  20 line 20\n  21 line 21\n  22 \n  24 line 24\n  25 \n  26 line 26\n  27 \n  30 line 30\n");
}

#[test]
fn squeeze_limit() {
    let mut cfg = cfg_pass();
    cfg.squeeze_limit = Some(2);
    let out = render1(&cfg, file("empty_lines.txt", 0, &empty_lines_content()), &[]);
    assert_eq!(out, "line 1\n\n\nline 5\n\n\nline 20\nline 21\n\n\nline 24\n\nline 26\n\n\nline 30\n");

    let mut cfg = cfg_pass();
    cfg.squeeze_limit = Some(5);
    let out = render1(&cfg, file("empty_lines.txt", 0, &empty_lines_content()), &[]);
    assert_eq!(out, "line 1\n\n\n\nline 5\n\n\n\n\n\nline 20\nline 21\n\n\nline 24\n\nline 26\n\n\n\nline 30\n");
}

#[test]
fn squeeze_limit_line_numbers() {
    let mut cfg = cfg_deco(numbers_style(), 80);
    cfg.squeeze_limit = Some(2);
    let out = render1(&cfg, file("empty_lines.txt", 0, &empty_lines_content()), &[]);
    assert_eq!(out, "   1 line 1\n   2 \n   3 \n   5 line 5\n   6 \n   7 \n  20 line 20\n  21 line 21\n  22 \n  23 \n  24 line 24\n  25 \n  26 line 26\n  27 \n  28 \n  30 line 30\n");

    let mut cfg = cfg_deco(numbers_style(), 80);
    cfg.squeeze_limit = Some(5);
    let out = render1(&cfg, file("empty_lines.txt", 0, &empty_lines_content()), &[]);
    assert_eq!(out, "   1 line 1\n   2 \n   3 \n   4 \n   5 line 5\n   6 \n   7 \n   8 \n   9 \n  10 \n  20 line 20\n  21 line 21\n  22 \n  23 \n  24 line 24\n  25 \n  26 line 26\n  27 \n  28 \n  29 \n  30 line 30\n");
}

const TABS_TXT: &str = "\t1\t2\t3\t4\n1\t?\n22\t?\n333\t?\n4444\t?\n55555\t?\n666666\t?\n7777777\t?\n88888888\t?\n";

fn plain_deco(tab: usize) -> RenderConfig {
    let mut c = cfg_deco(style_none(), 80);
    c.tab_width = tab;
    c
}

#[test]
fn tabs_numbers() {
    let mut cfg = cfg_deco(numbers_style(), 80);
    cfg.tab_width = 4;
    let out = render1(&cfg, file("tabs.txt", 0, TABS_TXT), &[]);
    assert_eq!(
        out,
        "   1     1   2   3   4
   2 1   ?
   3 22  ?
   4 333 ?
   5 4444    ?
   6 55555   ?
   7 666666  ?
   8 7777777 ?
   9 88888888    ?
",
    );
}

#[test]
fn tabs_passthrough_wrapped() {
    let out = render1(&plain_deco(0), file("tabs.txt", 0, TABS_TXT), &[]);
    assert_eq!(out, TABS_TXT);
}

#[test]
fn tabs_4_wrapped() {
    let out = render1(&plain_deco(4), file("tabs.txt", 0, TABS_TXT), &[]);
    assert_eq!(
        out,
        "    1   2   3   4
1   ?
22  ?
333 ?
4444    ?
55555   ?
666666  ?
7777777 ?
88888888    ?
",
    );
}

#[test]
fn tabs_8_wrapped() {
    let out = render1(&plain_deco(8), file("tabs.txt", 0, TABS_TXT), &[]);
    assert_eq!(
        out,
        "        1       2       3       4
1       ?
22      ?
333     ?
4444    ?
55555   ?
666666  ?
7777777 ?
88888888        ?
",
    );
}

#[test]
fn tabs_passthrough() {
    let out = render1(&plain_deco(0), file("tabs.txt", 0, TABS_TXT), &[]);
    assert_eq!(out, TABS_TXT);
}

#[test]
fn tabs_4() {
    let out = render1(&plain_deco(4), file("tabs.txt", 0, TABS_TXT), &[]);
    assert_eq!(
        out,
        "    1   2   3   4
1   ?
22  ?
333 ?
4444    ?
55555   ?
666666  ?
7777777 ?
88888888    ?
",
    );
}

#[test]
fn tabs_8() {
    let out = render1(&plain_deco(8), file("tabs.txt", 0, TABS_TXT), &[]);
    assert_eq!(
        out,
        "        1       2       3       4
1       ?
22      ?
333     ?
4444    ?
55555   ?
666666  ?
7777777 ?
88888888        ?
",
    );
}

const NONPRINTABLE_TXT: &str = "hello world\n\t\r\u{0}\u{7}\u{8}\u{1b}";

fn show_all_cfg(notation: kit::nonprintable::Notation) -> RenderConfig {
    let mut c = cfg_deco(style_none(), 80);
    c.notation = Some(notation);
    c
}

#[test]
fn show_all_mode() {
    let out = render1(
        &show_all_cfg(kit::nonprintable::Notation::Unicode),
        file("nonprintable.txt", 0, NONPRINTABLE_TXT),
        &[],
    );
    assert_eq!(out, "hello·world␊\n├──┤␍␀␇␈␛");
}

const CONTROL_CHARACTERS_TXT: &str = "\u{0}\u{1}\u{2}\u{3}\u{4}\u{5}\u{6}\u{7}\u{8}\t\n\u{b}\u{c}\r\u{e}\u{f}\u{10}\u{11}\u{12}\u{13}\u{14}\u{15}\u{16}\u{17}\u{18}\u{19}\u{1a}\u{1b}\u{1c}\u{1d}\u{1e}\u{1f}\u{7f}";

#[test]
fn show_all_extends_tab_markers_to_next_tabstop() {
    let mut cfg = show_all_cfg(kit::nonprintable::Notation::Unicode);
    cfg.tab_width = 4;
    let out = render1(&cfg, file("tabs.txt", 0, TABS_TXT), &[]);
    assert_eq!(
        out,
        "├──┤1├─┤2├─┤3├─┤4␊
1├─┤?␊
22├┤?␊
333↹?␊
4444├──┤?␊
55555├─┤?␊
666666├┤?␊
7777777↹?␊
88888888├──┤?␊
",
    );
}

#[test]
fn show_all_extends_tab_markers_to_next_tabstop_width_8() {
    let mut cfg = show_all_cfg(kit::nonprintable::Notation::Unicode);
    cfg.tab_width = 8;
    let out = render1(&cfg, file("tabs.txt", 0, TABS_TXT), &[]);
    assert_eq!(
        out,
        "├──────┤1├─────┤2├─────┤3├─────┤4␊
1├─────┤?␊
22├────┤?␊
333├───┤?␊
4444├──┤?␊
55555├─┤?␊
666666├┤?␊
7777777↹?␊
88888888├──────┤?␊
",
    );
}

#[test]
fn show_all_with_caret_notation() {
    let out = render1(
        &show_all_cfg(kit::nonprintable::Notation::Caret),
        file("nonprintable.txt", 0, NONPRINTABLE_TXT),
        &[],
    );
    assert_eq!(out, "hello·world^J\n├──┤^M^@^G^H^[");

    let out = render1(
        &show_all_cfg(kit::nonprintable::Notation::Caret),
        file("control_characters.txt", 0, CONTROL_CHARACTERS_TXT),
        &[],
    );
    assert_eq!(out, "^@^A^B^C^D^E^F^G^H├─┤^J\n^K^L^M^N^O^P^Q^R^S^T^U^V^W^X^Y^Z^[^\\^]^^^_^?");
}

#[test]
fn show_all_with_unicode() {
    let out = render1(
        &show_all_cfg(kit::nonprintable::Notation::Unicode),
        file("control_characters.txt", 0, CONTROL_CHARACTERS_TXT),
        &[],
    );
    assert_eq!(out, "␀␁␂␃␄␅␆␇␈├─┤␊\n␋␌␍␎␏␐␑␒␓␔␕␖␗␘␙␚␛␜␝␞␟␡");
}

#[test]
fn binary_as_text() {
    let mut cfg = cfg_pass();
    cfg.binary_as_text = true;
    let out = render1(&cfg, make_doc(Some("control_characters.txt"), Some(33), true, CONTROL_CHARACTERS_TXT), &[]);
    assert_eq!(out, CONTROL_CHARACTERS_TXT);
}
