//! Tab expansion: each tab advances to the next tabstop boundary under a
//! configurable stop width, with width zero meaning passthrough.
//!
//! Columns here count characters emitted on the line so far, the same unit
//! the tabstop grid is laid over.
use vstd::prelude::*;
use crate::chars::repeat_char_spec;
use crate::chars::repeat_char;

verus! {

/// The expansion of `s` under tab width `w`, starting at column `col`: a tab
/// becomes `w - col % w` spaces (minimum 1), any other character advances the
/// column by one. `w == 0` passes every character through unchanged.
pub open spec fn expand_tabs_spec(s: Seq<char>, w: nat, col: nat) -> Seq<char>
    decreases s.len(),
{
    if s.len() == 0 {
        Seq::empty()
    } else if s[0] == '\t' && w > 0 {
        let k = (w - (col % w)) as nat;
        repeat_char_spec(' ', k) + expand_tabs_spec(s.drop_first(), w, col + k)
    } else {
        seq![s[0]] + expand_tabs_spec(s.drop_first(), w, col + 1)
    }
}

/// The column reached after emitting the expansion of `s` from column `col`.
pub open spec fn col_after_spec(s: Seq<char>, w: nat, col: nat) -> nat
    decreases s.len(),
{
    if s.len() == 0 {
        col
    } else if s[0] == '\t' && w > 0 {
        let k = (w - (col % w)) as nat;
        col_after_spec(s.drop_first(), w, col + k)
    } else {
        col_after_spec(s.drop_first(), w, col + 1)
    }
}

/// Expand every tab of `line` to the next tabstop boundary, starting at
/// column `col`.
pub fn expand_tabs(line: &[char], w: usize, col: usize) -> (r: Vec<char>)
    requires
        w == 0 || col + line@.len() * w <= usize::MAX,
    ensures
        r@ == expand_tabs_spec(line@, w as nat, col as nat),
{
    if w == 0 {
        let mut r: Vec<char> = Vec::new();
        crate::chars::append_chars(&mut r, line);
        proof {
            lemma_expand_tabs_passthrough(line@, col as nat);
            assert(Seq::<char>::empty() + line@ =~= line@);
        }
        return r;
    }
    let mut r: Vec<char> = Vec::new();
    let mut i: usize = 0;
    let mut c: usize = col;
    proof {
        assert(line@.skip(0) =~= line@);
        assert(Seq::<char>::empty() + expand_tabs_spec(line@, w as nat, col as nat)
            =~= expand_tabs_spec(line@, w as nat, col as nat));
    }
    while i < line.len()
        invariant
            w >= 1,
            i <= line@.len(),
            c + (line@.len() - i) * w <= usize::MAX,
            expand_tabs_spec(line@, w as nat, col as nat) == r@ + expand_tabs_spec(
                line@.skip(i as int),
                w as nat,
                c as nat,
            ),
        decreases line@.len() - i,
    {
        let ch = line[i];
        proof {
            assert(line@.skip(i as int)[0] == line@[i as int]);
            assert(line@.skip(i as int).drop_first() =~= line@.skip(i + 1 as int));
            assert((line@.len() - i) * w == (line@.len() - (i + 1)) * w + w) by (nonlinear_arith)
                requires
                    i < line@.len(),
            ;
        }
        if ch == '\t' && w > 0 {
            let k = w - (c % w);
            proof {
                assert(c % w < w) by (nonlinear_arith)
                    requires
                        w > 0,
                ;
            }
            let spaces = repeat_char(' ', k);
            crate::chars::append_chars(&mut r, spaces.as_slice());
            c = c + k;
        } else {
            r.push(ch);
            c = c + 1;
        }
        i = i + 1;
    }
    proof {
        assert(expand_tabs_spec(line@.skip(line@.len() as int), w as nat, c as nat) =~= Seq::<
            char,
        >::empty());
        assert(r@ + Seq::<char>::empty() =~= r@);
    }
    r
}

/// Tab width zero is passthrough: the expansion is the line itself, so
/// expanding an already-expanded line changes nothing.
pub proof fn lemma_expand_tabs_passthrough(s: Seq<char>, col: nat)
    ensures
        expand_tabs_spec(s, 0, col) == s,
    decreases s.len(),
{
    if s.len() == 0 {
        assert(expand_tabs_spec(s, 0, col) =~= s);
    } else {
        lemma_expand_tabs_passthrough(s.drop_first(), col + 1);
        assert(expand_tabs_spec(s, 0, col) =~= s);
    }
}

/// Under a positive tab width, the column reached just after any expanded tab
/// is a multiple of the width: tabs always land on a tabstop boundary.
pub proof fn lemma_expand_tabs_boundary(s: Seq<char>, w: nat, col: nat, i: int)
    requires
        w > 0,
        0 <= i < s.len(),
        s[i] == '\t',
    ensures
        col_after_spec(s.take(i + 1), w, col) % w == 0,
    decreases s.len(),
{
    if i == 0 {
        let k = (w - (col % w)) as nat;
        assert(s.take(1).drop_first() =~= Seq::<char>::empty());
        assert(s.take(1)[0] == s[0]);
        assert(s.take(1)[0] == '\t');
        assert(col_after_spec(s.take(1), w, col) == col_after_spec(
            s.take(1).drop_first(),
            w,
            col + k,
        ));
        assert(col_after_spec(s.take(1), w, col) == col + k);
        assert((col + (w - (col % w)) as nat) % w == 0) by (nonlinear_arith)
            requires
                w > 0,
        ;
    } else {
        let rest = s.drop_first();
        assert(s.take(i + 1)[0] == s[0]);
        assert(s.take(i + 1).drop_first() =~= rest.take(i));
        assert(rest[i - 1] == s[i]);
        if s[0] == '\t' {
            let k = (w - (col % w)) as nat;
            lemma_expand_tabs_boundary(rest, w, col + k, i - 1);
        } else {
            lemma_expand_tabs_boundary(rest, w, col + 1, i - 1);
        }
    }
}

/// A positive tab width leaves no tab in the expansion.
pub proof fn lemma_expand_tabs_no_tab(s: Seq<char>, w: nat, col: nat, j: int)
    requires
        w > 0,
        0 <= j < expand_tabs_spec(s, w, col).len(),
    ensures
        expand_tabs_spec(s, w, col)[j] != '\t',
    decreases s.len(),
{
    if s.len() == 0 {
    } else if s[0] == '\t' {
        let k = (w - (col % w)) as nat;
        if j >= k {
            lemma_expand_tabs_no_tab(s.drop_first(), w, col + k, j - k);
        }
    } else {
        if j >= 1 {
            lemma_expand_tabs_no_tab(s.drop_first(), w, col + 1, j - 1);
        }
    }
}

} // verus!
