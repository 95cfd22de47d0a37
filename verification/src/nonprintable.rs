//! Visualisation of nonprintable characters: control codes, DEL and spaces
//! become visible glyphs, and tabs become extent markers that span exactly
//! the columns the tab would have covered.
use vstd::prelude::*;
use vstd::utf8::char_u32_cast;
use crate::chars::repeat_char_spec;
use crate::chars::repeat_char;
use crate::chars::char_from_u32;
use crate::chars::append_chars;

verus! {

/// How nonprintable characters are drawn: caret notation (`^A`, two columns)
/// or dedicated picture glyphs (`␁`, one column).
#[derive(Clone, Copy, PartialEq, Eq, Structural)]
pub enum Notation {
    Caret,
    Unicode,
}

/// The tabstop width used when visualising tabs: a configured width of zero
/// falls back to four columns.
pub open spec fn effective_tab_width(w: nat) -> nat {
    if w == 0 {
        4
    } else {
        w
    }
}

/// The marker drawn in place of a tab spanning `stop` columns: a single
/// connector glyph for one column, otherwise an opening corner, a dash fill
/// and a closing corner.
pub open spec fn tab_marker(stop: nat) -> Seq<char> {
    if stop == 1 {
        seq!['\u{21b9}']
    } else {
        seq!['\u{251c}'] + repeat_char_spec('\u{2500}', (stop - 2) as nat) + seq!['\u{2524}']
    }
}

/// The marker for a line feed; the real line feed follows it so that lines
/// still break.
pub open spec fn newline_marker(n: Notation) -> Seq<char> {
    match n {
        Notation::Caret => seq!['^', 'J', '\n'],
        Notation::Unicode => seq!['\u{240a}', '\n'],
    }
}

/// The replacement for one character other than a tab or a line feed: spaces
/// become a middle dot, C0 control codes and DEL become their caret pair or
/// picture glyph, and everything else stays itself.
pub open spec fn np_glyph(c: char, n: Notation) -> Seq<char> {
    if c == ' ' {
        seq!['\u{b7}']
    } else if (c as u32) < 0x20 {
        match n {
            Notation::Caret => seq!['^', (((c as u32) + 0x40) as char)],
            Notation::Unicode => seq![(((c as u32) + 0x2400) as char)],
        }
    } else if (c as u32) == 0x7F {
        match n {
            Notation::Caret => seq!['^', '?'],
            Notation::Unicode => seq!['\u{2421}'],
        }
    } else {
        seq![c]
    }
}

/// The visualisation of `s` under tab width `w` (already made effective) and
/// the given notation, starting `col` characters into the current line.
/// Tabs advance to the next tabstop, every other character advances the
/// column by one, and a line feed starts a new line at column zero.
pub open spec fn replace_np_spec(s: Seq<char>, w: nat, col: nat, n: Notation) -> Seq<char>
    decreases s.len(),
{
    if s.len() == 0 || w == 0 {
        Seq::empty()
    } else if s[0] == '\t' {
        let stop = (w - (col % w)) as nat;
        tab_marker(stop) + replace_np_spec(s.drop_first(), w, col + stop, n)
    } else if s[0] == '\n' {
        newline_marker(n) + replace_np_spec(s.drop_first(), w, 0, n)
    } else {
        np_glyph(s[0], n) + replace_np_spec(s.drop_first(), w, col + 1, n)
    }
}

/// Render `line` with nonprintable characters visualised, under the
/// configured tab width (zero meaning the four-column fallback).
pub fn replace_nonprintable(line: &[char], tab_width: usize, n: Notation) -> (r: Vec<char>)
    requires
        line@.len() * effective_tab_width(tab_width as nat) <= usize::MAX,
    ensures
        r@ == replace_np_spec(line@, effective_tab_width(tab_width as nat), 0, n),
{
    let w: usize = if tab_width == 0 {
        4
    } else {
        tab_width
    };
    let mut r: Vec<char> = Vec::new();
    let mut i: usize = 0;
    let mut col: usize = 0;
    proof {
        assert(line@.skip(0) =~= line@);
        assert(Seq::<char>::empty() + replace_np_spec(line@, w as nat, 0, n) =~= replace_np_spec(
            line@,
            w as nat,
            0,
            n,
        ));
    }
    while i < line.len()
        invariant
            w >= 1,
            w == effective_tab_width(tab_width as nat),
            i <= line@.len(),
            col <= i * w,
            line@.len() * w <= usize::MAX,
            replace_np_spec(line@, w as nat, 0, n) == r@ + replace_np_spec(
                line@.skip(i as int),
                w as nat,
                col as nat,
                n,
            ),
        decreases line@.len() - i,
    {
        let c = line[i];
        proof {
            assert(line@.skip(i as int)[0] == line@[i as int]);
            assert(line@.skip(i as int).drop_first() =~= line@.skip(i + 1 as int));
            assert(i * w + w == (i + 1) * w) by (nonlinear_arith);
            assert((i + 1) * w <= line@.len() * w) by (nonlinear_arith)
                requires
                    i < line@.len(),
                    w >= 1,
            ;
        }
        if c == '\t' {
            let stop = w - (col % w);
            proof {
                assert(col % w < w) by (nonlinear_arith)
                    requires
                        w > 0,
                ;
                assert(col % w <= col) by (nonlinear_arith)
                    requires
                        w > 0,
                ;
            }
            let ghost r_before = r@;
            if stop == 1 {
                r.push('\u{21b9}');
                proof {
                    assert(r@ =~= r_before + tab_marker(stop as nat));
                }
            } else {
                r.push('\u{251c}');
                let fill = repeat_char('\u{2500}', stop - 2);
                append_chars(&mut r, fill.as_slice());
                r.push('\u{2524}');
                proof {
                    assert(r@ =~= r_before + tab_marker(stop as nat));
                }
            }
            col = col + stop;
        } else if c == '\n' {
            match n {
                Notation::Caret => {
                    r.push('^');
                    r.push('J');
                    r.push('\n');
                },
                Notation::Unicode => {
                    r.push('\u{240a}');
                    r.push('\n');
                },
            }
            col = 0;
        } else if c == ' ' {
            r.push('\u{b7}');
            col = col + 1;
        } else if (c as u32) < 0x20 {
            match n {
                Notation::Caret => {
                    r.push('^');
                    let g = char_from_u32((c as u32) + 0x40);
                    proof {
                        char_u32_cast(g, ((c as u32) + 0x40) as u32);
                    }
                    r.push(g);
                },
                Notation::Unicode => {
                    let g = char_from_u32((c as u32) + 0x2400);
                    proof {
                        char_u32_cast(g, ((c as u32) + 0x2400) as u32);
                    }
                    r.push(g);
                },
            }
            col = col + 1;
        } else if (c as u32) == 0x7F {
            match n {
                Notation::Caret => {
                    r.push('^');
                    r.push('?');
                },
                Notation::Unicode => {
                    r.push('\u{2421}');
                },
            }
            col = col + 1;
        } else {
            r.push(c);
            col = col + 1;
        }
        i = i + 1;
    }
    proof {
        assert(replace_np_spec(line@.skip(line@.len() as int), w as nat, col as nat, n) =~= Seq::<
            char,
        >::empty());
        assert(r@ + Seq::<char>::empty() =~= r@);
    }
    r
}

} // verus!
