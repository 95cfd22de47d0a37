//! The decoration layout: headers, grid borders, number gutters, snip rows,
//! and the per-input driver that threads each source line through range
//! selection, squeezing, content transformation and wrapping, and attaches
//! the decorations around it.
use vstd::prelude::*;
use crate::chars::append_chars;
use crate::chars::append_str;
use crate::chars::repeat_char;
use crate::chars::repeat_char_spec;
use crate::spec_digits;
use crate::digit_count;

verus! {

/// The decimal digit character for one digit value.
pub open spec fn digit_char_spec(d: int) -> char {
    if d == 0 {
        '0'
    } else if d == 1 {
        '1'
    } else if d == 2 {
        '2'
    } else if d == 3 {
        '3'
    } else if d == 4 {
        '4'
    } else if d == 5 {
        '5'
    } else if d == 6 {
        '6'
    } else if d == 7 {
        '7'
    } else if d == 8 {
        '8'
    } else {
        '9'
    }
}

/// The decimal digit characters of `n`, most significant first.
pub open spec fn dec_chars_spec(n: nat) -> Seq<char>
    decreases n,
{
    if n < 10 {
        seq![digit_char_spec(n as int)]
    } else {
        dec_chars_spec(n / 10).push(digit_char_spec((n % 10) as int))
    }
}

fn digit_char(d: u64) -> (c: char)
    requires
        d < 10,
    ensures
        c == digit_char_spec(d as int),
{
    if d == 0 {
        '0'
    } else if d == 1 {
        '1'
    } else if d == 2 {
        '2'
    } else if d == 3 {
        '3'
    } else if d == 4 {
        '4'
    } else if d == 5 {
        '5'
    } else if d == 6 {
        '6'
    } else if d == 7 {
        '7'
    } else if d == 8 {
        '8'
    } else {
        '9'
    }
}

/// Render `n` in decimal.
pub fn dec_chars(n: u64) -> (r: Vec<char>)
    ensures
        r@ == dec_chars_spec(n as nat),
        r@.len() == spec_digits(n as nat),
    decreases n,
{
    proof {
        lemma_dec_chars_len(n as nat);
    }
    if n < 10 {
        let mut r: Vec<char> = Vec::new();
        r.push(digit_char(n));
        proof {
            assert(r@ =~= dec_chars_spec(n as nat));
        }
        r
    } else {
        let mut r = dec_chars(n / 10);
        r.push(digit_char(n % 10));
        r
    }
}

/// A number has as many digit characters as decimal digits.
pub proof fn lemma_dec_chars_len(n: nat)
    ensures
        dec_chars_spec(n).len() == spec_digits(n),
    decreases n,
{
    if n >= 10 {
        lemma_dec_chars_len(n / 10);
    }
}

/// A line number right-aligned in a field of `nw` characters, followed by one
/// space; under `grid` also the vertical bar and another space.
pub open spec fn number_gutter_spec(l: nat, nw: nat, grid: bool) -> Seq<char> {
    let digits = dec_chars_spec(l);
    let pad: nat = if digits.len() < nw {
        (nw - digits.len()) as nat
    } else {
        0
    };
    repeat_char_spec(' ', pad) + digits + seq![' '] + if grid {
        seq!['\u{2502}', ' ']
    } else {
        Seq::empty()
    }
}

/// The gutter of a continuation or header row: blank where the number would
/// be.
pub open spec fn cont_gutter_spec(nw: nat, grid: bool) -> Seq<char> {
    repeat_char_spec(' ', nw + 1) + if grid {
        seq!['\u{2502}', ' ']
    } else {
        Seq::empty()
    }
}

/// Build the number gutter.
pub fn number_gutter(l: u64, nw: u64, grid: bool) -> (r: Vec<char>)
    requires
        nw <= 1000,
    ensures
        r@ == number_gutter_spec(l as nat, nw as nat, grid),
{
    let digits = dec_chars(l);
    let pad: usize = if digits.len() < nw as usize {
        nw as usize - digits.len()
    } else {
        0
    };
    let mut r = repeat_char(' ', pad);
    append_chars(&mut r, digits.as_slice());
    r.push(' ');
    if grid {
        r.push('\u{2502}');
        r.push(' ');
        proof {
            assert(r@ =~= number_gutter_spec(l as nat, nw as nat, grid));
        }
    } else {
        proof {
            assert(r@ =~= number_gutter_spec(l as nat, nw as nat, grid));
        }
    }
    r
}

/// Build the continuation gutter.
pub fn cont_gutter(nw: u64, grid: bool) -> (r: Vec<char>)
    requires
        nw <= 1000,
    ensures
        r@ == cont_gutter_spec(nw as nat, grid),
{
    let mut r = repeat_char(' ', nw as usize + 1);
    if grid {
        r.push('\u{2502}');
        r.push(' ');
        proof {
            assert(r@ =~= cont_gutter_spec(nw as nat, grid));
        }
    } else {
        proof {
            assert(r@ =~= cont_gutter_spec(nw as nat, grid));
        }
    }
    r
}

/// A horizontal border over the full terminal width. With a number panel of
/// `panel` columns the joint character sits where the panel meets the
/// content; without one the dashes run the whole width.
pub open spec fn border_spec(width: nat, panel: nat, joint: char) -> Seq<char> {
    if panel > 0 && panel + 1 <= width {
        repeat_char_spec('\u{2500}', panel) + seq![joint] + repeat_char_spec(
            '\u{2500}',
            (width - panel - 1) as nat,
        )
    } else {
        repeat_char_spec('\u{2500}', width)
    }
}

/// Build a horizontal border.
pub fn border_line(width: usize, panel: usize, joint: char) -> (r: Vec<char>)
    ensures
        r@ == border_spec(width as nat, panel as nat, joint),
{
    if panel > 0 && width >= 1 && panel <= width - 1 {
        proof {
            assert(panel as nat + 1 <= width as nat);
        }
        let mut r = repeat_char('\u{2500}', panel);
        r.push(joint);
        let rest = repeat_char('\u{2500}', width - panel - 1);
        append_chars(&mut r, rest.as_slice());
        r
    } else {
        repeat_char('\u{2500}', width)
    }
}

/// The filename header text: the given name after `File: `, or `STDIN` when
/// the input has no name, with the binary annotation appended when the
/// content was classified binary.
pub open spec fn filename_header_spec(name: Option<Seq<char>>, binary: bool) -> Seq<char> {
    (match name {
        Option::Some(n) => "File: "@ + n,
        Option::None => "STDIN"@,
    }) + if binary {
        "   <BINARY>"@
    } else {
        Seq::empty()
    }
}

/// Build the filename header text.
pub fn filename_header(name: &Option<Vec<char>>, binary: bool) -> (r: Vec<char>)
    ensures
        r@ == filename_header_spec(
            match name {
                Option::Some(n) => Option::Some(n@),
                Option::None => Option::None,
            },
            binary,
        ),
{
    let mut r: Vec<char> = Vec::new();
    match name {
        Option::Some(n) => {
            append_str(&mut r, "File: ");
            append_chars(&mut r, n.as_slice());
        },
        Option::None => {
            append_str(&mut r, "STDIN");
        },
    }
    if binary {
        append_str(&mut r, "   <BINARY>");
    }
    r
}

/// A byte count rendered for the size header: plain bytes below 1000, above
/// that the largest metric unit with one (truncated) decimal.
pub open spec fn format_size_spec(b: nat) -> Seq<char> {
    if b < 1000 {
        dec_chars_spec(b) + " B"@
    } else if b < 1000000 {
        size_with_unit_spec(b, 1000, " kB"@)
    } else if b < 1000000000 {
        size_with_unit_spec(b, 1000000, " MB"@)
    } else if b < 1000000000000 {
        size_with_unit_spec(b, 1000000000, " GB"@)
    } else if b < 1000000000000000 {
        size_with_unit_spec(b, 1000000000000, " TB"@)
    } else {
        size_with_unit_spec(b, 1000000000000000, " PB"@)
    }
}

pub open spec fn size_with_unit_spec(b: nat, unit: nat, suffix: Seq<char>) -> Seq<char> {
    dec_chars_spec(b / unit) + seq!['.'] + dec_chars_spec((b % unit) * 10 / unit) + suffix
}

/// Build the rendered byte count.
pub fn format_size(b: u64) -> (r: Vec<char>)
    ensures
        r@ == format_size_spec(b as nat),
{
    if b < 1000 {
        let mut r = dec_chars(b);
        append_str(&mut r, " B");
        r
    } else {
        let (unit, suffix): (u64, &str) = if b < 1000000 {
            (1000, " kB")
        } else if b < 1000000000 {
            (1000000, " MB")
        } else if b < 1000000000000 {
            (1000000000, " GB")
        } else if b < 1000000000000000 {
            (1000000000000, " TB")
        } else {
            (1000000000000000, " PB")
        };
        let mut r = dec_chars(b / unit);
        r.push('.');
        proof {
            assert(((b as nat) % (unit as nat)) * 10 <= u64::MAX) by (nonlinear_arith)
                requires
                    1000 <= unit <= 1000000000000000,
            ;
        }
        let frac = dec_chars((b % unit) * 10 / unit);
        append_chars(&mut r, frac.as_slice());
        append_str(&mut r, suffix);
        r
    }
}

/// The size header text: the formatted size, or `-` when it is unknown.
pub open spec fn size_header_spec(size: Option<u64>) -> Seq<char> {
    "Size: "@ + match size {
        Option::Some(b) => format_size_spec(b as nat),
        Option::None => "-"@,
    }
}

/// Build the size header text.
pub fn size_header(size: &Option<u64>) -> (r: Vec<char>)
    ensures
        r@ == size_header_spec(*size),
{
    let mut r: Vec<char> = Vec::new();
    append_str(&mut r, "Size: ");
    match size {
        Option::Some(b) => {
            let f = format_size(*b);
            append_chars(&mut r, f.as_slice());
        },
        Option::None => {
            append_str(&mut r, "-");
        },
    }
    r
}

/// The snip row marking an omitted span: a dotted stand-in for the panel,
/// dashes to the scissors mark, and dashes to the right edge.
pub open spec fn snip_line_spec(width: nat, panel: nat, grid: bool) -> Seq<char> {
    let fake = snip_panel_spec(panel, grid);
    let left_n: nat = if width >= fake.len() + 1 {
        ((width - fake.len() - 1) / 4) as nat
    } else {
        0
    };
    let used = fake.len() + 2 * left_n + 2;
    let right_n: nat = if width >= used {
        ((width - used) / 2) as nat
    } else {
        0
    };
    fake + repeat_seq_spec(seq!['\u{2500}', ' '], left_n) + seq!['8', '<'] + repeat_seq_spec(
        seq![' ', '\u{2500}'],
        right_n,
    )
}

/// The panel stand-in of the snip row: ` ...` padded one short of the panel,
/// plus the grid bar.
pub open spec fn snip_panel_spec(panel: nat, grid: bool) -> Seq<char> {
    if panel == 0 {
        Seq::empty()
    } else {
        let text = seq![' ', '.', '.', '.'];
        let cut: nat = if text.len() < panel - 1 {
            text.len()
        } else {
            (panel - 1) as nat
        };
        text.take(cut as int) + repeat_char_spec(' ', ((panel - 1) - cut) as nat) + if grid {
            seq![' ', '\u{2502}']
        } else {
            Seq::empty()
        }
    }
}

/// `n` copies of a piece, concatenated.
pub open spec fn repeat_seq_spec(piece: Seq<char>, n: nat) -> Seq<char>
    decreases n,
{
    if n == 0 {
        Seq::empty()
    } else {
        piece + repeat_seq_spec(piece, (n - 1) as nat)
    }
}

/// Append `n` copies of a piece.
pub fn append_repeat(dst: &mut Vec<char>, piece: &[char], n: usize)
    ensures
        final(dst)@ == old(dst)@ + repeat_seq_spec(piece@, n as nat),
{
    let mut i: usize = 0;
    proof {
        assert(old(dst)@ + Seq::<char>::empty() =~= old(dst)@);
    }
    while i < n
        invariant
            i <= n,
            dst@ + repeat_seq_spec(piece@, (n - i) as nat) == old(dst)@ + repeat_seq_spec(
                piece@,
                n as nat,
            ),
        decreases n - i,
    {
        let ghost before = dst@;
        append_chars(dst, piece);
        proof {
            assert(before + (piece@ + repeat_seq_spec(piece@, (n - i - 1) as nat)) =~= (before
                + piece@) + repeat_seq_spec(piece@, (n - i - 1) as nat));
        }
        i = i + 1;
    }
    proof {
        assert(repeat_seq_spec(piece@, 0) =~= Seq::<char>::empty());
        assert(dst@ + Seq::<char>::empty() =~= dst@);
    }
}

/// Build the snip row.
#[verifier::rlimit(100)]
pub fn snip_line(width: usize, panel: usize, grid: bool) -> (r: Vec<char>)
    ensures
        r@ == snip_line_spec(width as nat, panel as nat, grid),
{
    let mut fake: Vec<char> = Vec::new();
    if panel > 0 {
        let mut dots: Vec<char> = Vec::new();
        dots.push(' ');
        dots.push('.');
        dots.push('.');
        dots.push('.');
        proof {
            assert(dots@ =~= seq![' ', '.', '.', '.']);
        }
        let cut: usize = if dots.len() < panel - 1 {
            dots.len()
        } else {
            panel - 1
        };
        let mut k: usize = 0;
        while k < cut
            invariant
                cut <= dots@.len(),
                k <= cut,
                fake@ == dots@.take(k as int),
            decreases cut - k,
        {
            fake.push(dots[k]);
            proof {
                assert(dots@.take(k as int).push(dots@[k as int]) =~= dots@.take(k + 1 as int));
            }
            k = k + 1;
        }
        let pad = repeat_char(' ', (panel - 1) - cut);
        append_chars(&mut fake, pad.as_slice());
        if grid {
            fake.push(' ');
            fake.push('\u{2502}');
            proof {
                assert(fake@ =~= snip_panel_spec(panel as nat, grid));
            }
        } else {
            proof {
                assert(fake@ + Seq::<char>::empty() =~= fake@);
                assert(fake@ =~= snip_panel_spec(panel as nat, grid));
            }
        }
    } else {
        proof {
            assert(fake@ =~= snip_panel_spec(panel as nat, grid));
        }
    }
    let fake_len = fake.len();
    let left_n: usize = if width >= fake_len && width - fake_len >= 1 {
        (width - fake_len - 1) / 4
    } else {
        0
    };
    proof {
        assert(left_n <= width);
    }
    let mut r = fake;
    let mut piece_l: Vec<char> = Vec::new();
    piece_l.push('\u{2500}');
    piece_l.push(' ');
    proof {
        assert(piece_l@ =~= seq!['\u{2500}', ' ']);
    }
    append_repeat(&mut r, piece_l.as_slice(), left_n);
    r.push('8');
    r.push('<');
    proof {
        lemma_repeat_seq_len(seq!['\u{2500}', ' '], left_n as nat);
    }
    let two_left = 2 * left_n;
    let right_n: usize = if width >= fake_len && width - fake_len >= two_left + 2 {
        (width - fake_len - two_left - 2) / 2
    } else {
        0
    };
    proof {
        let used = fake_len as nat + 2 * left_n as nat + 2;
        if width as nat >= used {
            assert(right_n == ((width as nat - used) / 2) as nat);
        } else {
            assert(right_n == 0);
        }
    }
    let mut piece_r: Vec<char> = Vec::new();
    piece_r.push(' ');
    piece_r.push('\u{2500}');
    proof {
        assert(piece_r@ =~= seq![' ', '\u{2500}']);
    }
    append_repeat(&mut r, piece_r.as_slice(), right_n);
    proof {
        assert(r@ =~= snip_line_spec(width as nat, panel as nat, grid));
    }
    r
}

/// Pieces repeat to a predictable length.
pub proof fn lemma_repeat_seq_len(piece: Seq<char>, n: nat)
    ensures
        repeat_seq_spec(piece, n).len() == piece.len() * n,
    decreases n,
{
    if n > 0 {
        lemma_repeat_seq_len(piece, (n - 1) as nat);
        assert(piece.len() * n == piece.len() + piece.len() * (n - 1)) by (nonlinear_arith);
    } else {
        assert(piece.len() * n == 0) by (nonlinear_arith)
            requires
                n == 0,
        ;
    }
}

} // verus!

verus! {

/// One decoded source line: its characters without the terminator, and
/// whether the source had a line feed after it.
pub struct SourceLine {
    pub text: Vec<char>,
    pub newline: bool,
}

/// What the layout needs to know about one input.
pub struct InputMeta {
    pub name: Option<Vec<char>>,
    pub size: Option<u64>,
    pub binary: bool,
}

/// The resolved configuration the layout renders under.
#[derive(Clone, Copy)]
pub struct RenderConfig {
    pub term_width: usize,
    pub style: crate::style::StyleSet,
    pub tab_width: usize,
    pub wrap: bool,
    pub notation: Option<crate::nonprintable::Notation>,
    pub squeeze_limit: Option<u64>,
    pub strip_ansi: bool,
    pub binary_as_text: bool,
    pub passthrough: bool,
}

/// Whether any decoration component is active; with none, missing final
/// newlines are preserved verbatim.
pub open spec fn any_component(s: crate::style::StyleSet) -> bool {
    s.header_filename || s.header_filesize || s.grid || s.rule || s.numbers || s.changes || s.snip
}

/// The glyphs that stand for the line feed itself in nonprintable mode; the
/// real line feed still follows as the terminator.
pub open spec fn newline_glyphs(n: crate::nonprintable::Notation) -> Seq<char> {
    match n {
        crate::nonprintable::Notation::Caret => seq!['^', 'J'],
        crate::nonprintable::Notation::Unicode => seq!['\u{240a}'],
    }
}

/// The content of one line after the configured transformations: optional
/// escape stripping, then either nonprintable visualisation (with the line
/// feed marker when the line has one) or tab expansion.
pub open spec fn transform_spec(cfg: RenderConfig, text: Seq<char>, newline: bool) -> Seq<char> {
    let t0 = if cfg.strip_ansi {
        crate::ansi::visible_spec(text)
    } else {
        text
    };
    match cfg.notation {
        Option::Some(nt) => crate::nonprintable::replace_np_spec(
            t0,
            crate::nonprintable::effective_tab_width(cfg.tab_width as nat),
            0,
            nt,
        ) + if newline {
            newline_glyphs(nt)
        } else {
            Seq::empty()
        },
        Option::None => crate::tabs::expand_tabs_spec(t0, cfg.tab_width as nat, 0),
    }
}

/// The wrapped segments of one line laid out with their gutters: the first
/// segment behind `g1`, continuations behind `gc`, a line feed between
/// segments and after the last when `end_nl` holds.
pub open spec fn segs_block_spec(
    segs: Seq<Seq<char>>,
    g1: Seq<char>,
    gc: Seq<char>,
    end_nl: bool,
) -> Seq<char>
    decreases segs.len(),
{
    if segs.len() == 0 {
        Seq::empty()
    } else if segs.len() == 1 {
        g1 + segs[0] + if end_nl {
            seq!['\n']
        } else {
            Seq::empty()
        }
    } else {
        g1 + segs[0] + seq!['\n'] + segs_block_spec(segs.drop_first(), gc, gc, end_nl)
    }
}

/// Geometry shared by every row of one input: the terminal width, number
/// width, panel width (0 when the terminal is too narrow), and whether grid
/// bars are drawn.
#[derive(Clone, Copy)]
pub struct PanelInfo {
    pub width: usize,
    pub nw: u64,
    pub panel: usize,
    pub bars: bool,
}

/// The gutter of the first segment of line `l`.
pub open spec fn first_gutter_spec(p: PanelInfo, l: nat) -> Seq<char> {
    if p.panel > 0 {
        number_gutter_spec(l, p.nw as nat, p.bars)
    } else {
        Seq::empty()
    }
}

/// The gutter of continuation segments and header rows.
pub open spec fn cont_gutter_of_spec(p: PanelInfo) -> Seq<char> {
    if p.panel > 0 {
        cont_gutter_spec(p.nw as nat, p.bars)
    } else {
        Seq::empty()
    }
}

/// The wrap limit of content rows: the width left of the panel, when
/// wrapping is on.
pub open spec fn content_limit_spec(cfg: RenderConfig, p: PanelInfo) -> Option<nat> {
    if cfg.wrap {
        Option::Some(if p.width >= p.panel {
            (p.width - p.panel) as nat
        } else {
            0
        })
    } else {
        Option::None
    }
}

/// One rendered line with its gutters, and the escape state it leaves open.
pub open spec fn line_block_spec(
    cfg: RenderConfig,
    p: PanelInfo,
    l: nat,
    text: Seq<char>,
    newline: bool,
    st: crate::ansi::StateModel,
) -> (Seq<char>, crate::ansi::StateModel) {
    let content = transform_spec(cfg, text, newline);
    let (segs, st2) = crate::wrap::wrap_line_spec(content, content_limit_spec(cfg, p), st);
    (
        segs_block_spec(
            segs,
            first_gutter_spec(p, l),
            cont_gutter_of_spec(p),
            newline || any_component(cfg.style),
        ),
        st2,
    )
}

/// The emission plan of the selected intervals: their line numbers in order,
/// with a snip marker between consecutive intervals.
pub open spec fn interval_plan(lo: nat, hi: nat) -> Seq<(bool, nat)> {
    if hi >= lo {
        Seq::new((hi + 1 - lo) as nat, |k: int| (false, (lo + k) as nat))
    } else {
        Seq::empty()
    }
}

pub open spec fn plan_spec(iv: Seq<(u64, u64)>) -> Seq<(bool, nat)>
    decreases iv.len(),
{
    if iv.len() == 0 {
        Seq::empty()
    } else if iv.len() == 1 {
        interval_plan(iv[0].0 as nat, iv[0].1 as nat)
    } else {
        interval_plan(iv[0].0 as nat, iv[0].1 as nat) + seq![(true, 0nat)] + plan_spec(
            iv.drop_first(),
        )
    }
}

/// The body of one input: each planned line after squeezing, with its
/// decorations, and a snip row (when the snip component is on) at each
/// recorded gap. `run` is the number of blank lines kept just before this
/// point; the escape state threads from line to line.
pub open spec fn body_spec(
    plan: Seq<(bool, nat)>,
    lines: Seq<SourceLine>,
    cfg: RenderConfig,
    p: PanelInfo,
    run: nat,
    st: crate::ansi::StateModel,
) -> Seq<char>
    decreases plan.len(),
{
    if plan.len() == 0 {
        Seq::empty()
    } else if plan[0].0 {
        (if cfg.style.snip {
            snip_line_spec(p.width as nat, (p.nw + 1) as nat, p.bars) + seq!['\n']
        } else {
            Seq::empty()
        }) + body_spec(plan.drop_first(), lines, cfg, p, run, st)
    } else {
        let l = plan[0].1;
        if 1 <= l <= lines.len() {
            let text = lines[l - 1].text@;
            let newline = lines[l - 1].newline;
            let blank = text.len() == 0;
            let keep = match cfg.squeeze_limit {
                Option::Some(k) => !blank || run < k,
                Option::None => true,
            };
            let run2: nat = match cfg.squeeze_limit {
                Option::Some(k) => if blank {
                    run + 1
                } else {
                    0
                },
                Option::None => 0,
            };
            if keep {
                let (chunk, st2) = line_block_spec(cfg, p, l, text, newline, st);
                chunk + body_spec(plan.drop_first(), lines, cfg, p, run2, st2)
            } else {
                body_spec(plan.drop_first(), lines, cfg, p, run2, st)
            }
        } else {
            body_spec(plan.drop_first(), lines, cfg, p, run, st)
        }
    }
}

/// The rows of one header line: the text wrapped at the content width, each
/// row behind the continuation gutter, each ended by a line feed.
pub open spec fn header_rows_spec(
    text: Seq<char>,
    limit: Option<nat>,
    gutter: Seq<char>,
) -> Seq<char> {
    rows_spec(
        crate::wrap::wrap_line_spec(
            text,
            limit,
            crate::ansi::StateModel { sgr: Seq::empty(), link: Option::None },
        ).0,
        gutter,
    )
}

pub open spec fn rows_spec(segs: Seq<Seq<char>>, gutter: Seq<char>) -> Seq<char>
    decreases segs.len(),
{
    if segs.len() == 0 {
        Seq::empty()
    } else {
        gutter + segs[0] + seq!['\n'] + rows_spec(segs.drop_first(), gutter)
    }
}

/// The passthrough body: the selected lines after squeezing, each emitted
/// untouched with its terminator; gaps leave no mark.
pub open spec fn raw_body_spec(
    plan: Seq<(bool, nat)>,
    lines: Seq<SourceLine>,
    squeeze: Option<u64>,
    run: nat,
) -> Seq<char>
    decreases plan.len(),
{
    if plan.len() == 0 {
        Seq::empty()
    } else if plan[0].0 {
        raw_body_spec(plan.drop_first(), lines, squeeze, run)
    } else {
        let l = plan[0].1;
        if 1 <= l <= lines.len() {
            let text = lines[l - 1].text@;
            let newline = lines[l - 1].newline;
            let blank = text.len() == 0;
            let keep = match squeeze {
                Option::Some(k) => !blank || run < k,
                Option::None => true,
            };
            let run2: nat = match squeeze {
                Option::Some(k) => if blank {
                    run + 1
                } else {
                    0
                },
                Option::None => 0,
            };
            if keep {
                text + (if newline {
                    seq!['\n']
                } else {
                    Seq::empty()
                }) + raw_body_spec(plan.drop_first(), lines, squeeze, run2)
            } else {
                raw_body_spec(plan.drop_first(), lines, squeeze, run2)
            }
        } else {
            raw_body_spec(plan.drop_first(), lines, squeeze, run)
        }
    }
}

} // verus!

verus! {

/// The spec view of an exec plan.
pub open spec fn plan_view(p: Seq<(bool, u64)>) -> Seq<(bool, nat)> {
    p.map_values(|e: (bool, u64)| (e.0, e.1 as nat))
}

/// Build the emission plan from the resolved intervals.
fn build_plan(iv: &Vec<(u64, u64)>) -> (plan: Vec<(bool, u64)>)
    requires
        crate::ranges::wf_intervals(iv@),
    ensures
        plan_view(plan@) == plan_spec(iv@),
{
    let mut plan: Vec<(bool, u64)> = Vec::new();
    let mut i: usize = 0;
    proof {
        assert(iv@.skip(0) =~= iv@);
        assert(plan_view(plan@) =~= Seq::<(bool, nat)>::empty());
    }
    while i < iv.len()
        invariant
            i <= iv@.len(),
            crate::ranges::wf_intervals(iv@),
            plan_spec(iv@) == plan_view(plan@) + sep_part(i as int, iv@.len() as int)
                + plan_spec(iv@.skip(i as int)),
        decreases iv@.len() - i,
    {
        let ghost before_sep = plan_view(plan@);
        if i > 0 {
            plan.push((true, 0));
            proof {
                assert(plan_view(plan@) =~= before_sep + seq![(true, 0nat)]);
            }
        }
        let (lo, hi) = iv[i];
        proof {
            assert(1 <= iv@[i as int].0 <= iv@[i as int].1);
        }
        let mut l: u64 = lo;
        let ghost before_iv = plan_view(plan@);
        while l < hi
            invariant
                i < iv@.len(),
                lo <= l <= hi,
                lo == iv@[i as int].0,
                hi == iv@[i as int].1,
                1 <= lo <= hi,
                plan_view(plan@) == before_iv + interval_plan(lo as nat, hi as nat).take(
                    l - lo as int,
                ),
            decreases hi - l,
        {
            let ghost pv = plan_view(plan@);
            plan.push((false, l));
            proof {
                assert(plan_view(plan@) =~= pv.push((false, l as nat)));
                assert(interval_plan(lo as nat, hi as nat).take(l - lo as int).push(
                    (false, l as nat),
                ) =~= interval_plan(lo as nat, hi as nat).take(l + 1 - lo as int));
            }
            l = l + 1;
        }
        let ghost pv2 = plan_view(plan@);
        plan.push((false, l));
        proof {
            assert(plan_view(plan@) =~= pv2.push((false, l as nat)));
            assert(interval_plan(lo as nat, hi as nat).take(hi - lo as int).push((false, hi as nat))
                =~= interval_plan(lo as nat, hi as nat));
            assert(plan_view(plan@) == before_iv + interval_plan(lo as nat, hi as nat));
            // unfold one step of plan_spec on the suffix
            let suf = iv@.skip(i as int);
            assert(suf[0] == iv@[i as int]);
            if i + 1 < iv@.len() {
                assert(suf.drop_first() =~= iv@.skip(i + 1 as int));
                assert(plan_spec(suf) == interval_plan(lo as nat, hi as nat) + seq![(true, 0nat)]
                    + plan_spec(iv@.skip(i + 1 as int)));
            } else {
                assert(suf.len() == 1);
                assert(plan_spec(suf) == interval_plan(lo as nat, hi as nat));
                assert(iv@.skip(i + 1 as int).len() == 0);
                assert(plan_spec(iv@.skip(i + 1 as int)) =~= Seq::<(bool, nat)>::empty());
            }
        }
        i = i + 1;
    }
    proof {
        assert(plan_spec(iv@.skip(iv@.len() as int)) =~= Seq::<(bool, nat)>::empty());
        assert(plan_view(plan@) + Seq::<(bool, nat)>::empty() + Seq::<(bool, nat)>::empty()
            =~= plan_view(plan@));
        if iv@.len() == 0 {
            assert(plan_spec(iv@) =~= Seq::<(bool, nat)>::empty());
        }
    }
    plan
}

/// The separator owed between the copied prefix and the remaining suffix of
/// the interval walk.
pub open spec fn sep_part(i: int, n: int) -> Seq<(bool, nat)> {
    if 0 < i < n {
        seq![(true, 0nat)]
    } else {
        Seq::empty()
    }
}

/// Append one line's wrapped segments with their gutters.
fn emit_segments(
    out: &mut Vec<char>,
    segs: &Vec<Vec<char>>,
    g1: &[char],
    gc: &[char],
    end_nl: bool,
)
    ensures
        final(out)@ == old(out)@ + segs_block_spec(segs.deep_view(), g1@, gc@, end_nl),
{
    let mut k: usize = 0;
    proof {
        assert(segs.deep_view().skip(0) =~= segs.deep_view());
        assert(old(out)@ + Seq::<char>::empty() =~= old(out)@);
    }
    while k < segs.len()
        invariant
            k <= segs@.len(),
            segs.deep_view().len() == segs@.len(),
            old(out)@ + segs_block_spec(segs.deep_view(), g1@, gc@, end_nl) == out@
                + segs_block_spec(
                segs.deep_view().skip(k as int),
                if k == 0 {
                    g1@
                } else {
                    gc@
                },
                gc@,
                end_nl,
            ),
        decreases segs@.len() - k,
    {
        proof {
            assert(segs.deep_view().skip(k as int)[0] == segs@[k as int]@);
            assert(segs.deep_view().skip(k as int).drop_first() =~= segs.deep_view().skip(
                k + 1 as int,
            ));
        }
        if k == 0 {
            append_chars(out, g1);
        } else {
            append_chars(out, gc);
        }
        append_chars(out, segs[k].as_slice());
        if k + 1 < segs.len() {
            out.push('\n');
        } else {
            if end_nl {
                out.push('\n');
            }
        }
        k = k + 1;
    }
    proof {
        assert(segs_block_spec(
            segs.deep_view().skip(segs@.len() as int),
            if segs@.len() == 0 {
                g1@
            } else {
                gc@
            },
            gc@,
            end_nl,
        ) =~= Seq::<char>::empty());
        assert(out@ + Seq::<char>::empty() =~= out@);
    }
}

/// Append the wrapped rows of one header line.
fn emit_header_rows(out: &mut Vec<char>, text: &[char], limit: Option<usize>, gutter: &[char])
    requires
        match limit {
            Option::Some(w) => w <= usize::MAX - 8,
            Option::None => true,
        },
    ensures
        final(out)@ == old(out)@ + header_rows_spec(
            text@,
            crate::wrap::limit_view(limit),
            gutter@,
        ),
{
    let mut st = crate::ansi::WrapState::new_empty();
    let segs = crate::wrap::wrap_line(text, limit, &mut st);
    let ghost sv = segs.deep_view();
    let mut k: usize = 0;
    proof {
        assert(sv.skip(0) =~= sv);
        assert(old(out)@ + Seq::<char>::empty() =~= old(out)@);
    }
    while k < segs.len()
        invariant
            k <= segs@.len(),
            sv == segs.deep_view(),
            sv.len() == segs@.len(),
            old(out)@ + rows_spec(sv, gutter@) == out@ + rows_spec(sv.skip(k as int), gutter@),
        decreases segs@.len() - k,
    {
        proof {
            assert(sv.skip(k as int)[0] == segs@[k as int]@);
            assert(sv.skip(k as int).drop_first() =~= sv.skip(k + 1 as int));
        }
        append_chars(out, gutter);
        append_chars(out, segs[k].as_slice());
        out.push('\n');
        k = k + 1;
    }
    proof {
        assert(rows_spec(sv.skip(segs@.len() as int), gutter@) =~= Seq::<char>::empty());
        assert(out@ + Seq::<char>::empty() =~= out@);
    }
}

} // verus!

verus! {

/// The geometry of one input: at least four digit columns for numbers, the
/// panel beside them, and no panel at all when the terminal is too narrow
/// to fit it and five content columns.
pub open spec fn panel_info_spec(cfg: RenderConfig, n: nat) -> PanelInfo {
    let nw: nat = if spec_digits(n) > 4 {
        spec_digits(n)
    } else {
        4
    };
    let raw: nat = if cfg.style.numbers {
        nw + 1 + (if cfg.style.grid {
            2nat
        } else {
            0nat
        })
    } else {
        0
    };
    let panel: nat = if raw > 0 && (cfg.term_width as nat) < raw + 5 {
        0
    } else {
        raw
    };
    PanelInfo {
        width: cfg.term_width,
        nw: nw as u64,
        panel: panel as usize,
        bars: cfg.style.grid && panel > 0,
    }
}

/// The spec view of an input's name.
pub open spec fn name_view(name: Option<Vec<char>>) -> Option<Seq<char>> {
    match name {
        Option::Some(n) => Option::Some(n@),
        Option::None => Option::None,
    }
}

/// A border row, when it is owed. The joint sits in the column of the
/// vertical bar, just right of the number field; with no panel the dashes
/// run the whole width.
pub open spec fn border_part(p: PanelInfo, show: bool, joint: char) -> Seq<char> {
    if show {
        border_spec(
            p.width as nat,
            if p.panel > 0 {
                (p.nw + 1) as nat
            } else {
                0
            },
            joint,
        ) + seq!['\n']
    } else {
        Seq::empty()
    }
}

/// The filename header rows, when that component is on.
pub open spec fn fnm_part(
    cfg: RenderConfig,
    p: PanelInfo,
    name: Option<Seq<char>>,
    binary: bool,
) -> Seq<char> {
    if cfg.style.header_filename {
        header_rows_spec(
            filename_header_spec(name, binary),
            content_limit_spec(cfg, p),
            cont_gutter_of_spec(p),
        )
    } else {
        Seq::empty()
    }
}

/// The size header rows, when that component is on.
pub open spec fn fsz_part(cfg: RenderConfig, p: PanelInfo, size: Option<u64>) -> Seq<char> {
    if cfg.style.header_filesize {
        header_rows_spec(
            size_header_spec(size),
            content_limit_spec(cfg, p),
            cont_gutter_of_spec(p),
        )
    } else {
        Seq::empty()
    }
}

/// The body, when it is shown.
pub open spec fn body_part(
    cfg: RenderConfig,
    p: PanelInfo,
    lines: Seq<SourceLine>,
    iv: Seq<(u64, u64)>,
    shown: bool,
) -> Seq<char> {
    if shown {
        body_spec(
            plan_spec(iv),
            lines,
            cfg,
            p,
            0,
            crate::ansi::StateModel { sgr: Seq::empty(), link: Option::None },
        )
    } else {
        Seq::empty()
    }
}

/// The entire rendered output for one input. In passthrough mode the
/// selected and squeezed lines are emitted untouched; otherwise the header
/// block, the body with its gutters and snip rows, and the grid borders
/// around them.
pub open spec fn render_input_spec(
    cfg: RenderConfig,
    name: Option<Seq<char>>,
    size: Option<u64>,
    binary: bool,
    lines: Seq<SourceLine>,
    ranges: Seq<crate::ranges::LineRange>,
) -> Seq<char> {
    if cfg.passthrough {
        raw_body_spec(
            plan_spec(
                crate::ranges::canonical_intervals(
                    crate::ranges::effective_ranges(ranges),
                    lines.len(),
                ),
            ),
            lines,
            cfg.squeeze_limit,
            0,
        )
    } else {
        let n = lines.len();
        let p = panel_info_spec(cfg, n);
        let iv = crate::ranges::canonical_intervals(
            crate::ranges::effective_ranges(ranges),
            n,
        );
        let header_shown = cfg.style.header_filename || cfg.style.header_filesize;
        let body_shown = !binary || cfg.binary_as_text;
        let has_content = body_shown && iv.len() > 0;
        let framed = cfg.style.grid && (header_shown || has_content);
        border_part(p, framed, '\u{252c}') + fnm_part(cfg, p, name, binary) + fsz_part(
            cfg,
            p,
            size,
        ) + border_part(p, cfg.style.grid && header_shown, '\u{253c}') + body_part(
            cfg,
            p,
            lines,
            iv,
            body_shown,
        ) + border_part(p, framed, '\u{2534}')
    }
}

/// Append one kept line: its transformed content, wrapped, behind its
/// gutters.
fn emit_line_block(
    out: &mut Vec<char>,
    cfg: &RenderConfig,
    p: PanelInfo,
    l: u64,
    text: &[char],
    newline: bool,
    st: &mut crate::ansi::WrapState,
    gutter: &[char],
    hlimit: Option<usize>,
)
    requires
        cfg.tab_width <= 100,
        p.nw <= 20,
        text@.len() <= 1000000,
        crate::wrap::limit_view(hlimit) == content_limit_spec(*cfg, p),
        match hlimit {
            Option::Some(w) => w <= usize::MAX - 8,
            Option::None => true,
        },
        gutter@ == cont_gutter_of_spec(p),
    ensures
        ({
            let (chunk, st2) = line_block_spec(*cfg, p, l as nat, text@, newline, old(st)@);
            final(out)@ == old(out)@ + chunk && final(st)@ == st2
        }),
{
    let ghost gcfg = *cfg;
    let t0: Vec<char> = if cfg.strip_ansi {
        proof {
            crate::ansi::lemma_visible_len_le(text@);
        }
        crate::ansi::strip_ansi(text)
    } else {
        let mut c: Vec<char> = Vec::new();
        append_chars(&mut c, text);
        proof {
            assert(c@ =~= text@);
        }
        c
    };
    proof {
        assert(t0@.len() <= 1000000);
        assert(t0@.len() * crate::nonprintable::effective_tab_width(cfg.tab_width as nat)
            <= 100000000) by (nonlinear_arith)
            requires
                t0@.len() <= 1000000,
                crate::nonprintable::effective_tab_width(cfg.tab_width as nat) <= 100,
        ;
        assert(t0@.len() * (cfg.tab_width as nat) <= 100000000) by (nonlinear_arith)
            requires
                t0@.len() <= 1000000,
                cfg.tab_width <= 100,
        ;
    }
    let content: Vec<char> = match cfg.notation {
        Some(nt) => {
            let mut c = crate::nonprintable::replace_nonprintable(
                t0.as_slice(),
                cfg.tab_width,
                nt,
            );
            if newline {
                match nt {
                    crate::nonprintable::Notation::Caret => {
                        c.push('^');
                        c.push('J');
                    },
                    crate::nonprintable::Notation::Unicode => {
                        c.push('\u{240a}');
                    },
                }
                proof {
                    assert(c@ =~= transform_spec(gcfg, text@, newline));
                }
            } else {
                proof {
                    assert(c@ + Seq::<char>::empty() =~= c@);
                    assert(c@ =~= transform_spec(gcfg, text@, newline));
                }
            }
            c
        },
        None => {
            let c = crate::tabs::expand_tabs(t0.as_slice(), cfg.tab_width, 0);
            proof {
                assert(c@ =~= transform_spec(gcfg, text@, newline));
            }
            c
        },
    };
    let segs = crate::wrap::wrap_line(content.as_slice(), hlimit, st);
    let g1 = if p.panel > 0 {
        number_gutter(l, p.nw, p.bars)
    } else {
        Vec::new()
    };
    proof {
        assert(g1@ =~= first_gutter_spec(p, l as nat));
    }
    let end_nl = newline || {
        let s = cfg.style;
        s.header_filename || s.header_filesize || s.grid || s.rule || s.numbers || s.changes
            || s.snip
    };
    emit_segments(out, &segs, g1.as_slice(), gutter, end_nl);
}

/// Append the body: every planned line that survives squeezing, and a snip
/// row at each gap when the snip component is on.
#[verifier::rlimit(100)]
fn render_body(
    out: &mut Vec<char>,
    plan: &Vec<(bool, u64)>,
    lines: &Vec<SourceLine>,
    cfg: &RenderConfig,
    p: PanelInfo,
    gutter: &[char],
    hlimit: Option<usize>,
)
    requires
        cfg.tab_width <= 100,
        p.nw <= 20,
        p.width == cfg.term_width,
        forall|i: int| 0 <= i < lines@.len() ==> (#[trigger] lines@[i]).text@.len() <= 1000000,
        crate::wrap::limit_view(hlimit) == content_limit_spec(*cfg, p),
        match hlimit {
            Option::Some(w) => w <= usize::MAX - 8,
            Option::None => true,
        },
        gutter@ == cont_gutter_of_spec(p),
    ensures
        final(out)@ == old(out)@ + body_spec(
            plan_view(plan@),
            lines@,
            *cfg,
            p,
            0,
            crate::ansi::StateModel { sgr: Seq::empty(), link: Option::None },
        ),
{
    let ghost gcfg = *cfg;
    let ghost body_goal = body_spec(
        plan_view(plan@),
        lines@,
        gcfg,
        p,
        0,
        crate::ansi::StateModel { sgr: Seq::empty(), link: Option::None },
    );
    let mut st = crate::ansi::WrapState::new_empty();
    let mut run: u64 = 0;
    let ghost mut grun = 0nat;
    let mut k: usize = 0;
    proof {
        assert(plan_view(plan@).skip(0) =~= plan_view(plan@));
    }
    while k < plan.len()
        invariant
            k <= plan@.len(),
            plan_view(plan@).len() == plan@.len(),
            gcfg == *cfg,
            cfg.tab_width <= 100,
            p.nw <= 20,
            p.width == cfg.term_width,
            forall|i: int|
                0 <= i < lines@.len() ==> (#[trigger] lines@[i]).text@.len() <= 1000000,
            crate::wrap::limit_view(hlimit) == content_limit_spec(gcfg, p),
            match hlimit {
                Option::Some(w) => w <= usize::MAX - 8,
                Option::None => true,
            },
            gutter@ == cont_gutter_of_spec(p),
            match cfg.squeeze_limit {
                Option::Some(kk) => run <= kk && (run < kk <==> grun < kk as nat) && (grun
                    < kk as nat ==> run == grun),
                Option::None => grun == 0 && run == 0,
            },
            old(out)@ + body_goal == out@ + body_spec(
                plan_view(plan@).skip(k as int),
                lines@,
                gcfg,
                p,
                grun,
                st@,
            ),
        decreases plan@.len() - k,
    {
        proof {
            assert(plan_view(plan@)[k as int] == (plan@[k as int].0, plan@[k as int].1 as nat));
            assert(plan_view(plan@).skip(k as int)[0] == plan_view(plan@)[k as int]);
            assert(plan_view(plan@).skip(k as int).drop_first() =~= plan_view(plan@).skip(
                k + 1 as int,
            ));
        }
        let (is_snip, lno) = plan[k];
        if is_snip {
            if cfg.style.snip {
                let sl = snip_line(cfg.term_width, p.nw as usize + 1, p.bars);
                append_chars(out, sl.as_slice());
                out.push('\n');
            }
        } else {
            let l = lno;
            if l >= 1 && l <= lines.len() as u64 {
                let li = (l - 1) as usize;
                let newline = lines[li].newline;
                let blank = lines[li].text.len() == 0;
                let keep: bool = match cfg.squeeze_limit {
                    Some(kk) => !blank || run < kk,
                    None => true,
                };
                match cfg.squeeze_limit {
                    Some(kk) => {
                        if blank {
                            if run < kk {
                                run = run + 1;
                            }
                            proof {
                                grun = grun + 1;
                            }
                        } else {
                            run = 0;
                            proof {
                                grun = 0nat;
                            }
                        }
                    },
                    None => {},
                }
                if keep {
                    proof {
                        assert(lines@[li as int].text@.len() <= 1000000);
                    }
                    let text = &lines[li].text;
                    emit_line_block(
                        out,
                        cfg,
                        p,
                        l,
                        text.as_slice(),
                        newline,
                        &mut st,
                        gutter,
                        hlimit,
                    );
                }
            }
        }
        k = k + 1;
    }
    proof {
        assert(body_spec(
            plan_view(plan@).skip(plan@.len() as int),
            lines@,
            gcfg,
            p,
            grun,
            st@,
        ) =~= Seq::<char>::empty());
        assert(out@ + Seq::<char>::empty() =~= out@);
    }
}

/// The passthrough path: selected lines after squeezing, emitted untouched.
fn render_raw(
    lines: &Vec<SourceLine>,
    plan: &Vec<(bool, u64)>,
    squeeze: Option<u64>,
) -> (out: Vec<char>)
    ensures
        out@ == raw_body_spec(plan_view(plan@), lines@, squeeze, 0),
{
    let mut out: Vec<char> = Vec::new();
    let mut run: u64 = 0;
    let ghost mut grun = 0nat;
    let mut k: usize = 0;
    proof {
        assert(plan_view(plan@).skip(0) =~= plan_view(plan@));
        assert(Seq::<char>::empty() + raw_body_spec(plan_view(plan@), lines@, squeeze, 0)
            =~= raw_body_spec(plan_view(plan@), lines@, squeeze, 0));
    }
    while k < plan.len()
        invariant
            k <= plan@.len(),
            plan_view(plan@).len() == plan@.len(),
            match squeeze {
                Option::Some(kk) => run <= kk && (run < kk <==> grun < kk as nat) && (grun
                    < kk as nat ==> run == grun),
                Option::None => grun == 0 && run == 0,
            },
            raw_body_spec(plan_view(plan@), lines@, squeeze, 0) == out@ + raw_body_spec(
                plan_view(plan@).skip(k as int),
                lines@,
                squeeze,
                grun,
            ),
        decreases plan@.len() - k,
    {
        proof {
            assert(plan_view(plan@)[k as int] == (plan@[k as int].0, plan@[k as int].1 as nat));
            assert(plan_view(plan@).skip(k as int)[0] == plan_view(plan@)[k as int]);
            assert(plan_view(plan@).skip(k as int).drop_first() =~= plan_view(plan@).skip(
                k + 1 as int,
            ));
        }
        let (is_snip, lno) = plan[k];
        if !is_snip {
            let l = lno;
            if l >= 1 && l <= lines.len() as u64 {
                let li = (l - 1) as usize;
                let blank = lines[li].text.len() == 0;
                let keep: bool = match squeeze {
                    Some(kk) => !blank || run < kk,
                    None => true,
                };
                match squeeze {
                    Some(kk) => {
                        if blank {
                            if run < kk {
                                run = run + 1;
                            }
                            proof {
                                grun = grun + 1;
                            }
                        } else {
                            run = 0;
                            proof {
                                grun = 0nat;
                            }
                        }
                    },
                    None => {},
                }
                if keep {
                    append_chars(&mut out, lines[li].text.as_slice());
                    if lines[li].newline {
                        out.push('\n');
                    }
                }
            }
        }
        k = k + 1;
    }
    proof {
        assert(raw_body_spec(
            plan_view(plan@).skip(plan@.len() as int),
            lines@,
            squeeze,
            grun,
        ) =~= Seq::<char>::empty());
        assert(out@ + Seq::<char>::empty() =~= out@);
    }
    out
}

/// Render one input.
#[verifier::rlimit(100)]
pub fn render_input(
    cfg: &RenderConfig,
    meta: &InputMeta,
    lines: &Vec<SourceLine>,
    ranges: &[crate::ranges::LineRange],
) -> (out: Vec<char>)
    requires
        cfg.term_width <= 100000,
        cfg.tab_width <= 100,
        forall|i: int| 0 <= i < lines@.len() ==> (#[trigger] lines@[i]).text@.len() <= 1000000,
    ensures
        out@ == render_input_spec(
            *cfg,
            name_view(meta.name),
            meta.size,
            meta.binary,
            lines@,
            ranges@,
        ),
{
    let mut out: Vec<char> = Vec::new();
    if cfg.passthrough {
        let rs0 = crate::ranges::resolve_ranges_or_all(ranges, lines.len() as u64);
        let plan0 = build_plan(&rs0.intervals);
        let r = render_raw(lines, &plan0, cfg.squeeze_limit);
        proof {
            assert(plan_view(plan0@) == plan_spec(
                crate::ranges::canonical_intervals(
                    crate::ranges::effective_ranges(ranges@),
                    lines@.len() as nat,
                ),
            ));
        }
        return r;
    }
    let n: u64 = lines.len() as u64;
    let ghost gcfg = *cfg;
    // geometry
    let d = digit_count(n);
    let nw: u64 = if d > 4 {
        d
    } else {
        4
    };
    let raw: usize = if cfg.style.numbers {
        nw as usize + 1 + (if cfg.style.grid {
            2
        } else {
            0
        })
    } else {
        0
    };
    let panel: usize = if raw > 0 && cfg.term_width < raw + 5 {
        0
    } else {
        raw
    };
    let p = PanelInfo { width: cfg.term_width, nw, panel, bars: cfg.style.grid && panel > 0 };
    proof {
        assert(p == panel_info_spec(gcfg, lines@.len() as nat));
    }
    // selection
    let rs = crate::ranges::resolve_ranges_or_all(ranges, n);
    let plan = build_plan(&rs.intervals);
    let header_shown = cfg.style.header_filename || cfg.style.header_filesize;
    let body_shown = !meta.binary || cfg.binary_as_text;
    let has_content = body_shown && rs.intervals.len() > 0;
    let gutter = if panel > 0 {
        cont_gutter(nw, p.bars)
    } else {
        Vec::new()
    };
    proof {
        assert(gutter@ =~= cont_gutter_of_spec(p));
    }
    let hlimit: Option<usize> = if cfg.wrap {
        Some(
            if cfg.term_width >= panel {
                cfg.term_width - panel
            } else {
                0
            },
        )
    } else {
        None
    };
    proof {
        assert(crate::wrap::limit_view(hlimit) == content_limit_spec(gcfg, p));
    }
    // header block
    let framed = cfg.style.grid && (header_shown || has_content);
    emit_border(&mut out, cfg, p, framed, '\u{252c}');
    if cfg.style.header_filename {
        let text = filename_header(&meta.name, meta.binary);
        emit_header_rows(&mut out, text.as_slice(), hlimit, gutter.as_slice());
    }
    proof {
        assert(out@ == border_part(p, framed, '\u{252c}') + fnm_part(
            gcfg,
            p,
            name_view(meta.name),
            meta.binary,
        ));
    }
    if cfg.style.header_filesize {
        let text = size_header(&meta.size);
        emit_header_rows(&mut out, text.as_slice(), hlimit, gutter.as_slice());
    }
    emit_border(&mut out, cfg, p, cfg.style.grid && header_shown, '\u{253c}');
    // body
    if body_shown {
        render_body(&mut out, &plan, lines, cfg, p, gutter.as_slice(), hlimit);
    }
    proof {
        assert(body_part(gcfg, p, lines@, rs.intervals@, body_shown) == body_spec(
            plan_view(plan@),
            lines@,
            gcfg,
            p,
            0,
            crate::ansi::StateModel { sgr: Seq::empty(), link: Option::None },
        ) || !body_shown);
    }
    emit_border(&mut out, cfg, p, framed, '\u{2534}');
    proof {
        let gn = lines@.len() as nat;
        let ivs = crate::ranges::canonical_intervals(
            crate::ranges::effective_ranges(ranges@),
            gn,
        );
        assert(ivs == rs.intervals@);
        assert(out@ == render_input_spec(
            gcfg,
            name_view(meta.name),
            meta.size,
            meta.binary,
            lines@,
            ranges@,
        )) by {
            assert(panel_info_spec(gcfg, gn) == p);
            assert(plan_spec(ivs) == plan_view(plan@));
        }
    }
    out
}

/// Append a border row when it is owed.
fn emit_border(out: &mut Vec<char>, cfg: &RenderConfig, p: PanelInfo, show: bool, joint: char)
    requires
        p.width == cfg.term_width,
        p.nw <= 20,
    ensures
        final(out)@ == old(out)@ + border_part(p, show, joint),
{
    if show {
        let pos: usize = if p.panel > 0 {
            p.nw as usize + 1
        } else {
            0
        };
        let b = border_line(cfg.term_width, pos, joint);
        append_chars(out, b.as_slice());
        out.push('\n');
    } else {
        proof {
            assert(old(out)@ + Seq::<char>::empty() =~= old(out)@);
        }
    }
}

} // verus!

verus! {

/// One input with everything the layout needs.
pub struct InputDoc {
    pub meta: InputMeta,
    pub lines: Vec<SourceLine>,
}

/// What separates two consecutive inputs: nothing under grid (the borders
/// already delimit), a full-width rule when that component is on, a blank
/// line under any other decoration, nothing in plain output.
pub open spec fn separator_spec(cfg: RenderConfig) -> Seq<char> {
    if cfg.style.grid {
        Seq::empty()
    } else if cfg.style.rule {
        repeat_char_spec('\u{2500}', cfg.term_width as nat) + seq!['\n']
    } else if any_component(cfg.style) {
        seq!['\n']
    } else {
        Seq::empty()
    }
}

pub open spec fn render_inputs_rec(
    cfg: RenderConfig,
    docs: Seq<InputDoc>,
    ranges: Seq<crate::ranges::LineRange>,
    first: bool,
) -> Seq<char>
    decreases docs.len(),
{
    if docs.len() == 0 {
        Seq::empty()
    } else {
        (if !first {
            separator_spec(cfg)
        } else {
            Seq::empty()
        }) + render_input_spec(
            cfg,
            name_view(docs[0].meta.name),
            docs[0].meta.size,
            docs[0].meta.binary,
            docs[0].lines@,
            ranges,
        ) + render_inputs_rec(cfg, docs.drop_first(), ranges, false)
    }
}

/// The rendered output of a list of inputs, in order, with the separator
/// each consecutive pair is owed.
pub open spec fn render_inputs_spec(
    cfg: RenderConfig,
    docs: Seq<InputDoc>,
    ranges: Seq<crate::ranges::LineRange>,
) -> Seq<char> {
    render_inputs_rec(cfg, docs, ranges, true)
}

/// Render every input.
pub fn render_inputs(
    cfg: &RenderConfig,
    docs: &Vec<InputDoc>,
    ranges: &[crate::ranges::LineRange],
) -> (out: Vec<char>)
    requires
        cfg.term_width <= 100000,
        cfg.tab_width <= 100,
        forall|d: int, i: int|
            0 <= d < docs@.len() && 0 <= i < docs@[d].lines@.len() ==> (
            #[trigger] docs@[d].lines@[i]).text@.len() <= 1000000,
    ensures
        out@ == render_inputs_spec(*cfg, docs@, ranges@),
{
    let ghost gcfg = *cfg;
    let mut out: Vec<char> = Vec::new();
    let mut d: usize = 0;
    proof {
        assert(docs@.skip(0) =~= docs@);
    }
    while d < docs.len()
        invariant
            d <= docs@.len(),
            gcfg == *cfg,
            cfg.term_width <= 100000,
            cfg.tab_width <= 100,
            forall|dd: int, i: int|
                0 <= dd < docs@.len() && 0 <= i < docs@[dd].lines@.len() ==> (
                #[trigger] docs@[dd].lines@[i]).text@.len() <= 1000000,
            render_inputs_spec(gcfg, docs@, ranges@) == out@ + render_inputs_rec(
                gcfg,
                docs@.skip(d as int),
                ranges@,
                d == 0,
            ),
        decreases docs@.len() - d,
    {
        proof {
            assert(docs@.skip(d as int)[0] == docs@[d as int]);
            assert(docs@.skip(d as int).drop_first() =~= docs@.skip(d + 1 as int));
        }
        if d > 0 {
            if cfg.style.grid {
            } else if cfg.style.rule {
                let b = repeat_char('\u{2500}', cfg.term_width);
                append_chars(&mut out, b.as_slice());
                out.push('\n');
            } else {
                let s = cfg.style;
                if s.header_filename || s.header_filesize || s.numbers || s.changes || s.snip {
                    out.push('\n');
                } else {
                    proof {
                        assert(separator_spec(gcfg) =~= Seq::<char>::empty());
                    }
                }
            }
        }
        let doc = &docs[d];
        proof {
            assert(docs@[d as int].lines@ == doc.lines@);
            assert forall|i: int|
                0 <= i < doc.lines@.len() implies (#[trigger] doc.lines@[i]).text@.len()
                <= 1000000 by {
                assert(docs@[d as int].lines@[i].text@.len() <= 1000000);
            }
        }
        let chunk = render_input(cfg, &doc.meta, &doc.lines, ranges);
        append_chars(&mut out, chunk.as_slice());
        d = d + 1;
    }
    proof {
        assert(render_inputs_rec(gcfg, docs@.skip(docs@.len() as int), ranges@, docs@.len() == 0)
            =~= Seq::<char>::empty());
        assert(out@ + Seq::<char>::empty() =~= out@);
    }
    out
}

/// Explicit filename overrides must match the inputs one to one: none at
/// all, or exactly one per input.
pub fn overrides_consistent(inputs: usize, names: usize) -> (r: bool)
    ensures
        r == (names == 0 || names == inputs),
{
    names == 0 || names == inputs
}

} // verus!
