use kit::api::make_doc;
use kit::api::parse_range_str;
use kit::api::render_to_string;
use kit::layout::InputDoc;
use kit::layout::RenderConfig;
use kit::ranges::LineRange;
use kit::style::StyleSet;
use kit::style::ComponentName as C;
use kit::style::StyleSign as S;

fn no_style() -> StyleSet {
    StyleSet {
        header_filename: false,
        header_filesize: false,
        grid: false,
        rule: false,
        numbers: false,
        changes: false,
        snip: false,
    }
}

fn deco(style: StyleSet, width: usize) -> RenderConfig {
    RenderConfig {
        term_width: width,
        style,
        tab_width: 0,
        wrap: true,
        notation: None,
        squeeze_limit: None,
        strip_ansi: false,
        binary_as_text: false,
        passthrough: false,
    }
}

fn header_style() -> StyleSet {
    StyleSet { header_filename: true, ..no_style() }
}

fn full_header_style() -> StyleSet {
    StyleSet { header_filename: true, header_filesize: true, ..no_style() }
}

fn rr(tokens: &[&str]) -> Vec<LineRange> {
    let mut v: Vec<LineRange> = Vec::new();
    for t in tokens {
        v.push(parse_range_str(t).unwrap());
    }
    v
}

fn one(cfg: &RenderConfig, doc: InputDoc, ranges: &[LineRange]) -> String {
    let docs = vec![doc];
    render_to_string(cfg, &docs, ranges)
}

fn multiline() -> String {
    let mut s = String::new();
    for i in 1..=10 {
        s.push_str(&format!("line {}\n", i));
    }
    s
}

#[test]
fn header_basic() {
    let out = one(
        &deco(header_style(), 80),
        make_doc(Some("foo"), Some(12), false, "hello world\n"),
        &rr(&["0:0"]),
    );
    assert_eq!(out, "File: foo\n");
}

#[test]
fn header_full_basic() {
    let out = one(
        &deco(full_header_style(), 80),
        make_doc(Some("foo"), Some(12), false, "hello world\n"),
        &rr(&["0:0"]),
    );
    assert_eq!(out, "File: foo\nSize: 12 B\n");
}

#[test]
fn header_binary() {
    let out = one(
        &deco(header_style(), 80),
        make_doc(Some("foo"), Some(4), true, ""),
        &rr(&["0:0"]),
    );
    assert_eq!(out, "File: foo   <BINARY>\n");
}

#[test]
fn header_full_binary() {
    let out = one(
        &deco(full_header_style(), 80),
        make_doc(Some("foo"), Some(4), true, ""),
        &rr(&["0:0"]),
    );
    assert_eq!(out, "File: foo   <BINARY>\nSize: 4 B\n");
}

#[test]
fn header_narrow_terminal() {
    let style = StyleSet { header_filename: true, grid: true, numbers: true, snip: true, ..no_style() };
    let out = one(
        &deco(style, 30),
        make_doc(
            Some("this-file-path-is-really-long-and-would-have-broken-the-layout-of-the-header.txt"),
            Some(25),
            false,
            "The header is not broken\n",
        ),
        &[],
    );
    assert_eq!(
        out,
        "─────┬────────────────────────
     │ File: this-file-path-is
     │ -really-long-and-would-
     │ have-broken-the-layout-
     │ of-the-header.txt
─────┼────────────────────────
   1 │ The header is not broke
     │ n
─────┴────────────────────────
",
    );
}

#[test]
fn header_very_narrow_terminal() {
    let style = StyleSet { header_filename: true, grid: true, numbers: true, snip: true, ..no_style() };
    let out = one(
        &deco(style, 10),
        make_doc(
            Some("this-file-path-is-really-long-and-would-have-broken-the-layout-of-the-header.txt"),
            Some(25),
            false,
            "The header is not broken\n",
        ),
        &[],
    );
    assert_eq!(
        out,
        "──────────
File: this
-file-path
-is-really
-long-and-
would-have
-broken-th
e-layout-o
f-the-head
er.txt
──────────
The header
 is not br
oken
──────────
",
    );
}

#[test]
fn filename_stdin() {
    let out = one(
        &deco(header_style(), 80),
        make_doc(Some("foo"), None, false, "stdin\n"),
        &rr(&["0:0"]),
    );
    assert_eq!(out, "File: foo\n");
}

#[test]
fn filename_stdin_binary() {
    let out = one(
        &deco(header_style(), 80),
        make_doc(Some("foo"), None, true, "\u{0}"),
        &[],
    );
    assert_eq!(out, "File: foo   <BINARY>\n");
}

#[test]
fn filename_multiple_ok() {
    let docs = vec![
        make_doc(Some("foo"), Some(12), false, "hello world\n"),
        make_doc(Some("bar"), Some(11), false, "Single Line"),
    ];
    assert!(kit::layout::overrides_consistent(2, 2));
    let out = render_to_string(&deco(header_style(), 80), &docs, &rr(&["0:0"]));
    assert_eq!(out, "File: foo\n\nFile: bar\n");
}

#[test]
fn filename_multiple_err() {
    assert!(!kit::layout::overrides_consistent(2, 1));
    let msg = kit::errors::error_message(&kit::errors::KitError::AmbiguousFilenameOverride);
    assert_eq!(msg, "Must be one file name per input file");
}

#[test]
fn header_padding() {
    let docs = vec![
        make_doc(Some("test.txt"), Some(12), false, "hello world\n"),
        make_doc(Some("single-line.txt"), Some(11), false, "Single Line"),
    ];
    let out = render_to_string(&deco(header_style(), 80), &docs, &[]);
    assert_eq!(out, "File: test.txt\nhello world\n\nFile: single-line.txt\nSingle Line\n");
}

#[test]
fn header_full_padding() {
    let docs = vec![
        make_doc(Some("test.txt"), Some(12), false, "hello world\n"),
        make_doc(Some("single-line.txt"), Some(11), false, "Single Line"),
    ];
    let out = render_to_string(&deco(full_header_style(), 80), &docs, &[]);
    assert_eq!(
        out,
        "File: test.txt\nSize: 12 B\nhello world\n\nFile: single-line.txt\nSize: 11 B\nSingle Line\n",
    );
}

#[test]
fn header_padding_rule() {
    let style = StyleSet { header_filename: true, rule: true, ..no_style() };
    let docs = vec![
        make_doc(Some("test.txt"), Some(12), false, "hello world\n"),
        make_doc(Some("single-line.txt"), Some(11), false, "Single Line"),
    ];
    let out = render_to_string(&deco(style, 80), &docs, &[]);
    assert_eq!(
        out,
        "File: test.txt
hello world
────────────────────────────────────────────────────────────────────────────────
File: single-line.txt
Single Line
",
    );
}

#[test]
fn header_full_padding_rule() {
    let style = StyleSet { header_filename: true, header_filesize: true, rule: true, ..no_style() };
    let docs = vec![
        make_doc(Some("test.txt"), Some(12), false, "hello world\n"),
        make_doc(Some("single-line.txt"), Some(11), false, "Single Line"),
    ];
    let out = render_to_string(&deco(style, 80), &docs, &[]);
    assert_eq!(
        out,
        "File: test.txt
Size: 12 B
hello world
────────────────────────────────────────────────────────────────────────────────
File: single-line.txt
Size: 11 B
Single Line
",
    );
}

#[test]
fn grid_overrides_rule() {
    let style = StyleSet { grid: true, rule: true, ..no_style() };
    let docs = vec![
        make_doc(Some("test.txt"), Some(12), false, "hello world\n"),
        make_doc(Some("single-line.txt"), Some(11), false, "Single Line"),
    ];
    let out = render_to_string(&deco(style, 80), &docs, &[]);
    assert_eq!(
        out,
        "────────────────────────────────────────────────────────────────────────────────
hello world
────────────────────────────────────────────────────────────────────────────────
────────────────────────────────────────────────────────────────────────────────
Single Line
────────────────────────────────────────────────────────────────────────────────
",
    );
    assert!(kit::style::rule_hidden_by_grid(&style));
    let warn = kit::style::rule_grid_warning_line();
    assert_eq!(
        format!("{}\n", warn),
        "\u{1b}[33m[kit warning]\u{1b}[0m: Style 'rule' is a subset of style 'grid', 'rule' will not be visible.\n",
    );
}

#[test]
fn header_default() {
    let style = StyleSet { header_filename: true, grid: true, numbers: true, snip: true, ..no_style() };
    let mut cfg = deco(style, 80);
    cfg.wrap = false;
    let out = one(&cfg, make_doc(Some("single-line.txt"), Some(11), false, "Single Line"), &[]);
    assert_eq!(
        out,
        "─────┬──────────────────────────────────────────────────────────────────────────
     │ File: single-line.txt
─────┼──────────────────────────────────────────────────────────────────────────
   1 │ Single Line
─────┴──────────────────────────────────────────────────────────────────────────
",
    );
}

#[test]
fn header_default_is_default() {
    let style = StyleSet { header_filename: true, grid: true, numbers: true, snip: true, ..no_style() };
    let mut cfg = deco(style, 80);
    cfg.wrap = false;
    let out = one(&cfg, make_doc(Some("single-line.txt"), Some(11), false, "Single Line"), &[]);
    assert_eq!(
        out,
        "─────┬──────────────────────────────────────────────────────────────────────────
     │ File: single-line.txt
─────┼──────────────────────────────────────────────────────────────────────────
   1 │ Single Line
─────┴──────────────────────────────────────────────────────────────────────────
",
    );
}

#[test]
fn header_and_changes_only() {
    let style = StyleSet { header_filename: true, changes: true, ..no_style() };
    let out = one(&deco(style, 80), make_doc(Some("single-line.txt"), Some(11), false, "Single Line"), &[]);
    assert_eq!(out, "File: single-line.txt\nSingle Line\n");
}

#[test]
fn empty_file_leads_to_empty_output_with_grid_enabled() {
    let style = StyleSet { grid: true, ..no_style() };
    let out = one(&deco(style, 80), make_doc(Some("empty.txt"), Some(0), false, ""), &[]);
    assert_eq!(out, "");
}

#[test]
fn empty_file_leads_to_empty_output_with_rule_enabled() {
    let style = StyleSet { rule: true, ..no_style() };
    let out = one(&deco(style, 80), make_doc(Some("empty.txt"), Some(0), false, ""), &[]);
    assert_eq!(out, "");
}

#[test]
fn grid_for_file_without_newline() {
    let style = StyleSet {
        header_filename: true,
        header_filesize: true,
        grid: true,
        numbers: true,
        snip: true,
        ..no_style()
    };
    let mut cfg = deco(style, 80);
    cfg.wrap = false;
    let out = one(&cfg, make_doc(Some("single-line.txt"), Some(11), false, "Single Line"), &[]);
    assert_eq!(
        out,
        "─────┬──────────────────────────────────────────────────────────────────────────
     │ File: single-line.txt
     │ Size: 11 B
─────┼──────────────────────────────────────────────────────────────────────────
   1 │ Single Line
─────┴──────────────────────────────────────────────────────────────────────────
",
    );
}

#[test]
fn plain_mode_does_not_add_nonexisting_newline() {
    let out = one(&deco(no_style(), 80), make_doc(Some("single-line.txt"), Some(11), false, "Single Line"), &[]);
    assert_eq!(out, "Single Line");
}

#[test]
fn snip() {
    let style = StyleSet { numbers: true, snip: true, ..no_style() };
    let out = one(
        &deco(style, 80),
        make_doc(Some("multiline.txt"), Some(66), false, &multiline()),
        &rr(&["1:2", "4:"]),
    );
    assert_eq!(
        out,
        "   1 line 1
   2 line 2
 ...─ ─ ─ ─ ─ ─ ─ ─ ─ ─ ─ ─ ─ ─ ─ ─ ─ ─ 8< ─ ─ ─ ─ ─ ─ ─ ─ ─ ─ ─ ─ ─ ─ ─ ─ ─ ─ ─
   4 line 4
   5 line 5
   6 line 6
   7 line 7
   8 line 8
   9 line 9
  10 line 10
",
    );
}

fn unicode_wrap_content() -> String {
    let mut line3 = String::new();
    for _ in 0..40 {
        line3.push_str("고양이 ");
    }
    line3.push_str("고양이");
    let mut line5 = String::new();
    for i in 1..=20 {
        if i > 1 {
            line5.push_str(" บวก ");
        }
        line5.push_str(&format!("{}", i));
    }
    let line1 = "ビタミンA  ビタミンD  ビタミンE  ビタミンK  ビタミンB1  ビタミンB2  ナイアシン  パントテン酸  ビタミンB6  ビタミンB12  葉酸  ビオチン  ビタミンC";
    let line7 = "Бельгия Болгария Чехия Дания Германия Эстония Ирландия Греция Испания Франция Хорватия Италия Кипр Латвия Литва Люксембург Венгрия Мальта Нидерланды Австрия Польша Португалия Румыния Словения Словакия Финляндия Швеция Великобритания";
    format!("{}\n\n{}\n\n{}\n\n{}\n", line1, line3, line5, line7)
}

#[test]
fn unicode_wrap() {
    let style = StyleSet { numbers: true, snip: true, ..no_style() };
    let out = one(
        &deco(style, 40),
        make_doc(Some("unicode-wrap.txt"), Some(0), false, &unicode_wrap_content()),
        &[],
    );
    let mut expected = String::new();
    expected.push_str("   1 \u{30d3}\u{30bf}\u{30df}\u{30f3}A  \u{30d3}\u{30bf}\u{30df}\u{30f3}D  \u{30d3}\u{30bf}\u{30df}\u{30f3}E  \u{30d3}\n");
    expected.push_str("     \u{30bf}\u{30df}\u{30f3}K  \u{30d3}\u{30bf}\u{30df}\u{30f3}B1  \u{30d3}\u{30bf}\u{30df}\u{30f3}B2  \u{30ca}\n");
    expected.push_str("     \u{30a4}\u{30a2}\u{30b7}\u{30f3}  \u{30d1}\u{30f3}\u{30c8}\u{30c6}\u{30f3}\u{9178}  \u{30d3}\u{30bf}\u{30df}\u{30f3}B6 \n");
    expected.push_str("      \u{30d3}\u{30bf}\u{30df}\u{30f3}B12  \u{8449}\u{9178}  \u{30d3}\u{30aa}\u{30c1}\u{30f3}  \u{30d3}\u{30bf}\n");
    expected.push_str("     \u{30df}\u{30f3}C\n");
    expected.push_str("   2 \n");
    for i in 0..8 {
        let g = if i == 0 { "   3 " } else { "     " };
        expected.push_str(&format!("{}\u{ace0}\u{c591}\u{c774} \u{ace0}\u{c591}\u{c774} \u{ace0}\u{c591}\u{c774} \u{ace0}\u{c591}\u{c774} \u{ace0}\u{c591}\u{c774} \n", g));
    }
    expected.push_str("     \u{ace0}\u{c591}\u{c774}\n");
    expected.push_str("   4 \n");
    expected.push_str("   5 1 \u{e1a}\u{e27}\u{e01} 2 \u{e1a}\u{e27}\u{e01} 3 \u{e1a}\u{e27}\u{e01} 4 \u{e1a}\u{e27}\u{e01} 5 \u{e1a}\u{e27}\u{e01} 6 \u{e1a}\u{e27}\u{e01}\n");
    expected.push_str("      7 \u{e1a}\u{e27}\u{e01} 8 \u{e1a}\u{e27}\u{e01} 9 \u{e1a}\u{e27}\u{e01} 10 \u{e1a}\u{e27}\u{e01} 11 \u{e1a}\u{e27}\u{e01} 12\n");
    expected.push_str("      \u{e1a}\u{e27}\u{e01} 13 \u{e1a}\u{e27}\u{e01} 14 \u{e1a}\u{e27}\u{e01} 15 \u{e1a}\u{e27}\u{e01} 16 \u{e1a}\u{e27}\u{e01} 17\n");
    expected.push_str("      \u{e1a}\u{e27}\u{e01} 18 \u{e1a}\u{e27}\u{e01} 19 \u{e1a}\u{e27}\u{e01} 20\n");
    expected.push_str("   6 \n");
    expected.push_str("   7 \u{411}\u{435}\u{43b}\u{44c}\u{433}\u{438}\u{44f} \u{411}\u{43e}\u{43b}\u{433}\u{430}\u{440}\u{438}\u{44f} \u{427}\u{435}\u{445}\u{438}\u{44f} \u{414}\u{430}\u{43d}\u{438}\u{44f} \u{413}\u{435}\u{440}\u{43c}\u{430}\u{43d}\n");
    expected.push_str("     \u{438}\u{44f} \u{42d}\u{441}\u{442}\u{43e}\u{43d}\u{438}\u{44f} \u{418}\u{440}\u{43b}\u{430}\u{43d}\u{434}\u{438}\u{44f} \u{413}\u{440}\u{435}\u{446}\u{438}\u{44f} \u{418}\u{441}\u{43f}\u{430}\u{43d}\u{438}\u{44f} \n");
    expected.push_str("     \u{424}\u{440}\u{430}\u{43d}\u{446}\u{438}\u{44f} \u{425}\u{43e}\u{440}\u{432}\u{430}\u{442}\u{438}\u{44f} \u{418}\u{442}\u{430}\u{43b}\u{438}\u{44f} \u{41a}\u{438}\u{43f}\u{440} \u{41b}\u{430}\u{442}\u{432}\u{438}\u{44f}\n");
    expected.push_str("      \u{41b}\u{438}\u{442}\u{432}\u{430} \u{41b}\u{44e}\u{43a}\u{441}\u{435}\u{43c}\u{431}\u{443}\u{440}\u{433} \u{412}\u{435}\u{43d}\u{433}\u{440}\u{438}\u{44f} \u{41c}\u{430}\u{43b}\u{44c}\u{442}\u{430} \u{41d}\u{438}\n");
    expected.push_str("     \u{434}\u{435}\u{440}\u{43b}\u{430}\u{43d}\u{434}\u{44b} \u{410}\u{432}\u{441}\u{442}\u{440}\u{438}\u{44f} \u{41f}\u{43e}\u{43b}\u{44c}\u{448}\u{430} \u{41f}\u{43e}\u{440}\u{442}\u{443}\u{433}\u{430}\u{43b}\u{438}\u{44f} \n");
    expected.push_str("     \u{420}\u{443}\u{43c}\u{44b}\u{43d}\u{438}\u{44f} \u{421}\u{43b}\u{43e}\u{432}\u{435}\u{43d}\u{438}\u{44f} \u{421}\u{43b}\u{43e}\u{432}\u{430}\u{43a}\u{438}\u{44f} \u{424}\u{438}\u{43d}\u{43b}\u{44f}\u{43d}\u{434}\u{438}\u{44f}\n");
    expected.push_str("      \u{428}\u{432}\u{435}\u{446}\u{438}\u{44f} \u{412}\u{435}\u{43b}\u{438}\u{43a}\u{43e}\u{431}\u{440}\u{438}\u{442}\u{430}\u{43d}\u{438}\u{44f}\n");
    assert_eq!(out, expected);
}

#[test]
fn ansi_passthrough_emit() {
    for wrap in [false, true] {
        let mut cfg = deco(no_style(), 80);
        cfg.wrap = wrap;
        let out = one(&cfg, make_doc(None, None, false, "\u{1b}[33mColor\nColor \u{1b}[m\nPlain\n"), &[]);
        assert_eq!(out, "\u{1b}[33m\u{1b}[33mColor\n\u{1b}[33mColor \u{1b}[m\nPlain\n");
    }
}

#[test]
fn ansi_sgr_emitted_when_wrapped() {
    let cfg = deco(no_style(), 20);
    let out = one(&cfg, make_doc(None, None, false, "\u{1b}[33mColor...............Also color.\n"), &[]);
    assert_eq!(out, "\u{1b}[33m\u{1b}[33mColor...............\n\u{1b}[33mAlso color.\n");
}

#[test]
fn ansi_hyperlink_emitted_when_wrapped() {
    let cfg = deco(no_style(), 20);
    let out = one(
        &cfg,
        make_doc(None, None, false, "\u{1b}]8;;http://example.com/\u{1b}\\Hyperlinks..........Wrap across lines.\n"),
        &[],
    );
    assert_eq!(
        out,
        "\u{1b}]8;;http://example.com/\u{1b}\\\u{1b}]8;;http://example.com/\u{1b}\\Hyperlinks..........\u{1b}]8;;\u{1b}\\\n\u{1b}]8;;http://example.com/\u{1b}\\Wrap across lines.\n",
    );
}

#[test]
fn ansi_sgr_joins_attributes_when_wrapped() {
    let cfg = deco(no_style(), 20);
    let out = one(
        &cfg,
        make_doc(None, None, false, "\u{1b}[33mColor. \u{1b}[1mBold.........Also bold and color.\n"),
        &[],
    );
    assert_eq!(
        out,
        "\u{1b}[33m\u{1b}[33mColor. \u{1b}[1m\u{1b}[33m\u{1b}[1mBold.........\n\u{1b}[33m\u{1b}[1mAlso bold and color.\n",
    );
}

#[test]
fn bom_not_stripped_in_loop_through_mode() {
    let bytes: Vec<u8> = {
        let mut b = vec![0xEF, 0xBB, 0xBF];
        b.extend_from_slice(b"hello world\n");
        b
    };
    let chars = kit::decode::decode_input(&bytes, false).unwrap();
    let mut cfg = deco(no_style(), 80);
    cfg.passthrough = true;
    let lines = kit::decode::split_lines(&chars);
    let doc = kit::layout::InputDoc {
        meta: kit::layout::InputMeta { name: None, size: None, binary: false },
        lines,
    };
    let docs = vec![doc];
    let out = render_to_string(&cfg, &docs, &[]);
    assert_eq!(out, "\u{feff}hello world\n");
}

#[test]
fn bom_stripped_when_no_color_and_not_loop_through() {
    let bytes: Vec<u8> = {
        let mut b = vec![0xEF, 0xBB, 0xBF];
        b.extend_from_slice(b"hello world\n");
        b
    };
    let chars = kit::decode::decode_input(&bytes, true).unwrap();
    let style = StyleSet { header_filename: true, grid: true, numbers: true, ..no_style() };
    let cfg = deco(style, 80);
    let lines = kit::decode::split_lines(&chars);
    let doc = kit::layout::InputDoc {
        meta: kit::layout::InputMeta {
            name: Some("test_BOM.txt".chars().collect()),
            size: Some(15),
            binary: false,
        },
        lines,
    };
    let docs = vec![doc];
    let out = render_to_string(&cfg, &docs, &[]);
    assert_eq!(
        out,
        "─────┬──────────────────────────────────────────────────────────────────────────
     │ File: test_BOM.txt
─────┼──────────────────────────────────────────────────────────────────────────
   1 │ hello world
─────┴──────────────────────────────────────────────────────────────────────────
",
    );
}

fn edit(tokens: &[(kit::style::StyleSign, kit::style::ComponentName)]) -> Vec<kit::style::StyleToken> {
    tokens.iter().map(|(s, n)| kit::style::StyleToken { sign: *s, name: *n }).collect()
}

#[test]
fn style_components_can_be_removed() {
    let edits = vec![edit(&[(S::Bare, C::Full), (S::Removes, C::Grid), (S::Removes, C::Changes)])];
    let set = kit::style::resolve_styles(kit::style::StyleSet::default_set(), &edits, false);
    let out = one(&deco(set, 80), make_doc(None, None, false, "test"), &[]);
    assert_eq!(out, "     STDIN\n     Size: -\n   1 test\n");
}

#[test]
fn style_components_can_be_overidden() {
    let edits = vec![
        edit(&[(S::Bare, C::Full)]),
        edit(&[(S::Bare, C::Header), (S::Bare, C::Numbers)]),
    ];
    let set = kit::style::resolve_styles(kit::style::StyleSet::default_set(), &edits, false);
    let out = one(&deco(set, 80), make_doc(None, None, false, "test"), &[]);
    assert_eq!(out, "     STDIN\n   1 test\n");
}

#[test]
fn style_components_will_merge() {
    let edits = vec![
        edit(&[(S::Bare, C::Header), (S::Bare, C::Grid)]),
        edit(&[(S::Removes, C::Grid), (S::Adds, C::Numbers)]),
    ];
    let set = kit::style::resolve_styles(kit::style::StyleSet::default_set(), &edits, false);
    let out = one(&deco(set, 80), make_doc(None, None, false, "test"), &[]);
    assert_eq!(out, "     STDIN\n   1 test\n");
}

#[test]
fn style_components_will_merge_with_env_var() {
    let edits = vec![
        edit(&[(S::Bare, C::Header), (S::Bare, C::Grid)]),
        edit(&[(S::Removes, C::Grid), (S::Adds, C::Numbers)]),
    ];
    let set = kit::style::resolve_styles(kit::style::StyleSet::default_set(), &edits, false);
    let out = one(&deco(set, 80), make_doc(None, None, false, "test"), &[]);
    assert_eq!(out, "     STDIN\n   1 test\n");
}

#[test]
fn no_paging_arg() {
    let mut cfg = deco(no_style(), 80);
    cfg.passthrough = true;
    let out = one(&cfg, make_doc(Some("single-line.txt"), Some(11), false, "Single Line"), &[]);
    assert_eq!(out, "Single Line");
}

#[test]
fn no_paging_short_arg() {
    let mut cfg = deco(no_style(), 80);
    cfg.passthrough = true;
    let out = one(&cfg, make_doc(Some("single-line.txt"), Some(11), false, "Single Line"), &[]);
    assert_eq!(out, "Single Line");
}

#[test]
fn no_pager_arg() {
    let mut cfg = deco(no_style(), 80);
    cfg.passthrough = true;
    let out = one(&cfg, make_doc(Some("single-line.txt"), Some(11), false, "Single Line"), &[]);
    assert_eq!(out, "Single Line");
}

#[test]
fn header_env_basic() {
    let edits = vec![edit(&[(S::Bare, C::HeaderFilename), (S::Bare, C::HeaderFilesize)])];
    let set = kit::style::resolve_styles(kit::style::StyleSet::default_set(), &edits, false);
    let out = one(
        &deco(set, 80),
        make_doc(Some("foo"), Some(12), false, "hello world\n"),
        &rr(&["0:0"]),
    );
    assert_eq!(out, "File: foo\nSize: 12 B\n");
}

#[test]
fn header_arg_overrides_env() {
    let edits = vec![
        edit(&[(S::Bare, C::HeaderFilesize)]),
        edit(&[(S::Bare, C::HeaderFilename)]),
    ];
    let set = kit::style::resolve_styles(kit::style::StyleSet::default_set(), &edits, false);
    let out = one(
        &deco(set, 80),
        make_doc(Some("foo"), Some(12), false, "hello world\n"),
        &rr(&["0:0"]),
    );
    assert_eq!(out, "File: foo\n");
}
