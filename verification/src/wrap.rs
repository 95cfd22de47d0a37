//! Escape-aware line wrapping. A line is split into segments of bounded
//! visible width; escape sequences occupy no columns and are never split;
//! open SGR attributes and hyperlinks are re-established at the start of each
//! continuation segment, and an open hyperlink is closed at each boundary.
//!
//! Two quirks of the format are part of the contract: the open state is
//! re-emitted directly after each escape sequence (so an escape at the very
//! start of a segment appears twice), and the state carried in from earlier
//! lines is emitted at the start of the first segment.
use vstd::prelude::*;
use crate::ansi::ESC_CHAR;
use crate::ansi::StateModel;
use crate::ansi::WrapState;
use crate::ansi::escape_len;
use crate::ansi::escape_len_at;
use crate::ansi::lemma_escape_len_le;
use crate::ansi::link_close_spec;
use crate::ansi::state_prefix;
use crate::ansi::state_update;
use crate::chars::append_chars;
use crate::width::cell_width;
use crate::width::width_of;

verus! {

/// One step of wrapping, written as a recursion over the rest of the line.
/// `limit` is the visible width, `None` meaning no wrapping; `col` the
/// visible cells already in the current segment; `cur` the current segment's
/// characters; `st` the open escape state; `acc` the finished segments.
pub open spec fn wrap_rec(
    s: Seq<char>,
    limit: Option<nat>,
    col: nat,
    cur: Seq<char>,
    st: StateModel,
    acc: Seq<Seq<char>>,
) -> (Seq<Seq<char>>, StateModel)
    decreases s.len(),
{
    if s.len() == 0 {
        (acc.push(cur), st)
    } else {
        let l = escape_len(s);
        if 1 <= l <= s.len() {
            let tok = s.take(l as int);
            let st2 = state_update(st, tok);
            wrap_rec(s.skip(l as int), limit, col, cur + tok + state_prefix(st2), st2, acc)
        } else {
            let c = s[0];
            let cw = width_of(c);
            match limit {
                Option::None => wrap_rec(s.skip(1), limit, 0, cur.push(c), st, acc),
                Option::Some(w) => {
                    if col + cw > w {
                        let closed = cur + match st.link {
                            Option::Some(_) => link_close_spec(),
                            Option::None => Seq::empty(),
                        };
                        wrap_rec(
                            s.skip(1),
                            limit,
                            cw,
                            state_prefix(st) + seq![c],
                            st,
                            acc.push(closed),
                        )
                    } else {
                        wrap_rec(s.skip(1), limit, col + cw, cur.push(c), st, acc)
                    }
                },
            }
        }
    }
}

/// The wrapped segments of one line, and the open state left for the next
/// line. The first segment starts by re-establishing the state carried in.
pub open spec fn wrap_line_spec(s: Seq<char>, limit: Option<nat>, st: StateModel) -> (
    Seq<Seq<char>>,
    StateModel,
) {
    wrap_rec(s, limit, 0, state_prefix(st), st, Seq::empty())
}

/// The sequence that closes an open hyperlink, as characters.
pub fn link_close_chars() -> (r: Vec<char>)
    ensures
        r@ == link_close_spec(),
{
    let mut r: Vec<char> = Vec::new();
    r.push(ESC_CHAR);
    r.push(']');
    r.push('8');
    r.push(';');
    r.push(';');
    r.push(ESC_CHAR);
    r.push('\\');
    proof {
        assert(r@ =~= link_close_spec());
    }
    r
}

/// The spec-level width limit an exec limit denotes.
pub open spec fn limit_view(limit: Option<usize>) -> Option<nat> {
    match limit {
        Option::Some(w) => Option::Some(w as nat),
        Option::None => Option::None,
    }
}

/// Wrap one line at the given visible width, starting from (and updating)
/// the carried escape state.
pub fn wrap_line(line: &[char], limit: Option<usize>, st: &mut WrapState) -> (segs: Vec<Vec<char>>)
    requires
        match limit {
            Option::Some(w) => w <= usize::MAX - 8,
            Option::None => true,
        },
    ensures
        (segs.deep_view(), final(st)@) == wrap_line_spec(line@, limit_view(limit), old(st)@),
{
    let mut segs: Vec<Vec<char>> = Vec::new();
    let mut cur: Vec<char> = st.prefix_chars();
    let mut col: usize = 0;
    let mut i: usize = 0;
    let ghost goal = wrap_line_spec(line@, limit_view(limit), st@);
    proof {
        assert(line@.skip(0) =~= line@);
        assert(segs.deep_view() =~= Seq::<Seq<char>>::empty());
    }
    while i < line.len()
        invariant
            i <= line@.len(),
            match limit {
                Option::Some(w) => w <= usize::MAX - 8 && col <= w + 3,
                Option::None => col == 0,
            },
            wrap_rec(
                line@.skip(i as int),
                limit_view(limit),
                col as nat,
                cur@,
                st@,
                segs.deep_view(),
            ) == goal,
        decreases line@.len() - i,
    {
        let l = escape_len_at(line, i);
        proof {
            lemma_escape_len_le(line@.skip(i as int));
        }
        if l > 0 {
            proof {
                assert(i + l <= line@.len());
            }
            let mut tok: Vec<char> = Vec::new();
            let mut k: usize = i;
            let end = i + l;
            while k < end
                invariant
                    end == i + l,
                    i <= k <= end,
                    end <= line@.len(),
                    tok@ == line@.subrange(i as int, k as int),
                decreases end - k,
            {
                tok.push(line[k]);
                proof {
                    assert(line@.subrange(i as int, k as int).push(line@[k as int]) =~= line@
                        .subrange(i as int, k + 1 as int));
                }
                k = k + 1;
            }
            proof {
                assert(tok@ =~= line@.skip(i as int).take(l as int));
            }
            st.update(tok.as_slice());
            let pfx = st.prefix_chars();
            append_chars(&mut cur, tok.as_slice());
            append_chars(&mut cur, pfx.as_slice());
            proof {
                assert(line@.skip(i as int).skip(l as int) =~= line@.skip(i + l as int));
            }
            i = i + l;
        } else {
            let c = line[i];
            let cw = cell_width(c);
            proof {
                assert(line@.skip(i as int)[0] == line@[i as int]);
                assert(line@.skip(i as int).skip(1) =~= line@.skip(i + 1 as int));
            }
            match limit {
                Option::Some(w) => {
                    if col + cw > w {
                        let ghost cur_old = cur@;
                        if st.link.is_some() {
                            let close = link_close_chars();
                            append_chars(&mut cur, close.as_slice());
                            proof {
                                assert(st@.link is Some);
                            }
                        } else {
                            proof {
                                assert(st@.link is None);
                                assert(cur@ =~= cur_old + Seq::<char>::empty());
                            }
                        }
                        let ghost segs_old = segs.deep_view();
                        segs.push(cur);
                        proof {
                            assert(segs.deep_view() =~~= segs_old.push(
                                cur_old + match st@.link {
                                    Option::Some(_) => link_close_spec(),
                                    Option::None => Seq::<char>::empty(),
                                },
                            ));
                        }
                        cur = st.prefix_chars();
                        cur.push(c);
                        proof {
                            assert(cur@ =~= state_prefix(st@) + seq![line@[i as int]]);
                        }
                        col = cw;
                    } else {
                        cur.push(c);
                        col = col + cw;
                    }
                },
                Option::None => {
                    cur.push(c);
                },
            }
            i = i + 1;
        }
    }
    proof {
        assert(line@.skip(line@.len() as int).len() == 0);
    }
    let ghost segs_old = segs.deep_view();
    segs.push(cur);
    proof {
        assert(segs.deep_view() =~~= segs_old.push(cur@));
    }
    segs
}

} // verus!

verus! {

/// The concatenation of each segment's visible characters.
pub open spec fn visible_all(xs: Seq<Seq<char>>) -> Seq<char>
    decreases xs.len(),
{
    if xs.len() == 0 {
        Seq::empty()
    } else {
        crate::ansi::visible_spec(xs[0]) + visible_all(xs.drop_first())
    }
}

proof fn lemma_visible_all_push(xs: Seq<Seq<char>>, x: Seq<char>)
    ensures
        visible_all(xs.push(x)) == visible_all(xs) + crate::ansi::visible_spec(x),
    decreases xs.len(),
{
    if xs.len() == 0 {
        assert(xs.push(x).drop_first() =~= Seq::<Seq<char>>::empty());
        assert(xs.push(x)[0] == x);
        assert(visible_all(Seq::<Seq<char>>::empty()) =~= Seq::<char>::empty());
        assert(crate::ansi::visible_spec(x) + Seq::<char>::empty() =~= crate::ansi::visible_spec(
            x,
        ));
        assert(visible_all(xs) + crate::ansi::visible_spec(x) =~= crate::ansi::visible_spec(x));
    } else {
        assert(xs.push(x).drop_first() =~= xs.drop_first().push(x));
        assert(xs.push(x)[0] == xs[0]);
        lemma_visible_all_push(xs.drop_first(), x);
        assert(crate::ansi::visible_spec(xs[0]) + (visible_all(xs.drop_first())
            + crate::ansi::visible_spec(x)) =~= (crate::ansi::visible_spec(xs[0]) + visible_all(
            xs.drop_first(),
        )) + crate::ansi::visible_spec(x));
    }
}

/// A join of well-formed segments displays the segments' visible characters
/// in order, and is itself well formed.
pub proof fn lemma_visible_concat_all(xs: Seq<Seq<char>>)
    requires
        forall|i: int| 0 <= i < xs.len() ==> crate::ansi::tokenized(#[trigger] xs[i]),
    ensures
        crate::ansi::tokenized(crate::ansi::concat_seqs(xs)),
        crate::ansi::visible_spec(crate::ansi::concat_seqs(xs)) == visible_all(xs),
    decreases xs.len(),
{
    if xs.len() == 0 {
        assert(crate::ansi::tokenized(Seq::<char>::empty()));
        assert(crate::ansi::visible_spec(Seq::<char>::empty()) =~= Seq::<char>::empty());
        assert(visible_all(xs) =~= Seq::<char>::empty());
    } else {
        assert(forall|i: int|
            0 <= i < xs.drop_first().len() ==> crate::ansi::tokenized(
                #[trigger] xs.drop_first()[i],
            ));
        lemma_visible_concat_all(xs.drop_first());
        crate::ansi::lemma_tokenized_append(xs[0], crate::ansi::concat_seqs(xs.drop_first()));
        crate::ansi::lemma_visible_append(xs[0], crate::ansi::concat_seqs(xs.drop_first()));
    }
}

/// The step induction behind the round trip: wrapping only inserts complete
/// escape sequences at token boundaries, so the visible characters of all
/// segments together are those already accumulated plus those of the rest of
/// the line.
proof fn lemma_wrap_rec_visible(
    s: Seq<char>,
    limit: Option<nat>,
    col: nat,
    cur: Seq<char>,
    st: StateModel,
    acc: Seq<Seq<char>>,
)
    requires
        crate::ansi::tokenized(s),
        crate::ansi::wf_state(st),
        crate::ansi::tokenized(cur),
        forall|i: int| 0 <= i < acc.len() ==> crate::ansi::tokenized(#[trigger] acc[i]),
    ensures
        ({
            let (segs, stf) = wrap_rec(s, limit, col, cur, st, acc);
            &&& visible_all(segs) == visible_all(acc) + crate::ansi::visible_spec(cur)
                + crate::ansi::visible_spec(s)
            &&& forall|i: int| 0 <= i < segs.len() ==> crate::ansi::tokenized(#[trigger] segs[i])
            &&& crate::ansi::wf_state(stf)
        }),
    decreases s.len(),
{
    crate::ansi::lemma_escape_len_le(s);
    if s.len() == 0 {
        let segs = acc.push(cur);
        lemma_visible_all_push(acc, cur);
        assert(crate::ansi::visible_spec(s) =~= Seq::<char>::empty());
        assert(visible_all(acc) + crate::ansi::visible_spec(cur) + Seq::<char>::empty()
            =~= visible_all(acc) + crate::ansi::visible_spec(cur));
        assert(forall|i: int|
            0 <= i < segs.len() ==> crate::ansi::tokenized(#[trigger] segs[i]));
    } else {
        let l = crate::ansi::escape_len(s);
        if 1 <= l <= s.len() {
            let tok = s.take(l as int);
            let st2 = state_update(st, tok);
            crate::ansi::lemma_escape_take(s, l as int);
            crate::ansi::lemma_update_wf(st, tok);
            crate::ansi::lemma_prefix_props(st2);
            crate::ansi::lemma_tokenized_escape(tok);
            crate::ansi::lemma_tokenized_append(tok, state_prefix(st2));
            crate::ansi::lemma_tokenized_append(cur, tok + state_prefix(st2));
            let cur2 = cur + tok + state_prefix(st2);
            assert(cur2 =~= cur + (tok + state_prefix(st2)));
            crate::ansi::lemma_visible_append(cur, tok + state_prefix(st2));
            crate::ansi::lemma_visible_append(tok, state_prefix(st2));
            crate::ansi::lemma_visible_escape(tok);
            assert(crate::ansi::visible_spec(cur2) =~= crate::ansi::visible_spec(cur));
            lemma_wrap_rec_visible(s.skip(l as int), limit, col, cur2, st2, acc);
        } else {
            assert(s[0] != crate::ansi::ESC_CHAR);
            let c = s[0];
            crate::ansi::lemma_tokenized_char(c);
            let push_case = match limit {
                Option::None => true,
                Option::Some(w) => !(col + width_of(c) > w),
            };
            if push_case {
                let cur2 = cur.push(c);
                assert(cur2 =~= cur + seq![c]);
                crate::ansi::lemma_tokenized_append(cur, seq![c]);
                crate::ansi::lemma_visible_append(cur, seq![c]);
                assert(crate::ansi::visible_spec(seq![c]) =~= seq![c]) by {
                    assert(seq![c].skip(1) =~= Seq::<char>::empty());
                    assert(crate::ansi::escape_len(seq![c]) == 0);
                    assert(crate::ansi::visible_spec(Seq::<char>::empty()) =~= Seq::<char>::empty());
                    assert(seq![c] + Seq::<char>::empty() =~= seq![c]);
                }
                let newcol: nat = match limit {
                    Option::None => 0,
                    Option::Some(w) => col + width_of(c),
                };
                lemma_wrap_rec_visible(s.skip(1), limit, newcol, cur2, st, acc);
                assert(visible_all(acc) + (crate::ansi::visible_spec(cur) + seq![c])
                    + crate::ansi::visible_spec(s.skip(1)) =~= visible_all(acc)
                    + crate::ansi::visible_spec(cur) + (seq![c] + crate::ansi::visible_spec(
                    s.skip(1),
                )));
            } else {
                let closebit = match st.link {
                    Option::Some(_) => link_close_spec(),
                    Option::None => Seq::<char>::empty(),
                };
                let closed = cur + closebit;
                assert(crate::ansi::tokenized(closebit) && crate::ansi::visible_spec(closebit)
                    =~= Seq::<char>::empty()) by {
                    match st.link {
                        Option::Some(_) => {
                            crate::ansi::lemma_link_close_complete();
                            crate::ansi::lemma_tokenized_escape(link_close_spec());
                            crate::ansi::lemma_visible_escape(link_close_spec());
                        },
                        Option::None => {
                            assert(crate::ansi::tokenized(Seq::<char>::empty()));
                        },
                    }
                }
                crate::ansi::lemma_tokenized_append(cur, closebit);
                crate::ansi::lemma_visible_append(cur, closebit);
                assert(crate::ansi::visible_spec(closed) =~= crate::ansi::visible_spec(cur));
                crate::ansi::lemma_prefix_props(st);
                let cur2 = state_prefix(st) + seq![c];
                crate::ansi::lemma_tokenized_append(state_prefix(st), seq![c]);
                crate::ansi::lemma_visible_append(state_prefix(st), seq![c]);
                assert(crate::ansi::visible_spec(seq![c]) =~= seq![c]) by {
                    assert(seq![c].skip(1) =~= Seq::<char>::empty());
                    assert(crate::ansi::escape_len(seq![c]) == 0);
                    assert(crate::ansi::visible_spec(Seq::<char>::empty()) =~= Seq::<char>::empty());
                    assert(seq![c] + Seq::<char>::empty() =~= seq![c]);
                }
                assert(crate::ansi::visible_spec(cur2) =~= seq![c]);
                let acc2 = acc.push(closed);
                assert(forall|i: int|
                    0 <= i < acc2.len() ==> crate::ansi::tokenized(#[trigger] acc2[i]));
                lemma_wrap_rec_visible(s.skip(1), limit, width_of(c), cur2, st, acc2);
                lemma_visible_all_push(acc, closed);
                assert((visible_all(acc) + crate::ansi::visible_spec(cur)) + seq![c]
                    + crate::ansi::visible_spec(s.skip(1)) =~= visible_all(acc)
                    + crate::ansi::visible_spec(cur) + (seq![c] + crate::ansi::visible_spec(
                    s.skip(1),
                )));
            }
        }
    }
}

/// Joining the wrapped segments of a well-formed line loses exactly the
/// inserted wrap decorations: the visible characters of the join are the
/// visible characters of the line, whatever the width and however the open
/// state started. In particular a pass that does not wrap at all shows the
/// same visible content as the join of any character-wrapped pass.
pub proof fn lemma_wrap_round_trip(s: Seq<char>, limit: Option<nat>, st: StateModel)
    requires
        crate::ansi::tokenized(s),
        crate::ansi::wf_state(st),
    ensures
        ({
            let (segs, stf) = wrap_line_spec(s, limit, st);
            &&& crate::ansi::visible_spec(crate::ansi::concat_seqs(segs))
                == crate::ansi::visible_spec(s)
            &&& crate::ansi::tokenized(crate::ansi::concat_seqs(segs))
        }),
{
    crate::ansi::lemma_prefix_props(st);
    let (segs, stf) = wrap_line_spec(s, limit, st);
    lemma_wrap_rec_visible(s, limit, 0, state_prefix(st), st, Seq::empty());
    assert(visible_all(Seq::<Seq<char>>::empty()) =~= Seq::<char>::empty());
    assert(Seq::<char>::empty() + Seq::<char>::empty() + crate::ansi::visible_spec(s)
        =~= crate::ansi::visible_spec(s));
    lemma_visible_concat_all(segs);
}

} // verus!

verus! {

/// The summed cell width of characters.
pub open spec fn width_sum(s: Seq<char>) -> nat
    decreases s.len(),
{
    if s.len() == 0 {
        0
    } else {
        width_of(s[0]) + width_sum(s.drop_first())
    }
}

proof fn lemma_width_sum_snoc(s: Seq<char>, c: char)
    ensures
        width_sum(s.push(c)) == width_sum(s) + width_of(c),
    decreases s.len(),
{
    if s.len() == 0 {
        assert(s.push(c)[0] == c);
        assert(s.push(c).drop_first() =~= Seq::<char>::empty());
        assert(width_sum(Seq::<char>::empty()) == 0);
    } else {
        assert(s.push(c).drop_first() =~= s.drop_first().push(c));
        assert(s.push(c)[0] == s[0]);
        lemma_width_sum_snoc(s.drop_first(), c);
    }
}

/// Whether one segment respects the width: its visible characters fit the
/// limit, unless it holds a single glyph wider than the whole limit.
pub open spec fn segment_fits(seg: Seq<char>, w: nat) -> bool {
    width_sum(crate::ansi::visible_spec(seg)) <= w || crate::ansi::visible_spec(seg).len() <= 1
}

proof fn lemma_wrap_rec_fits(
    s: Seq<char>,
    w: nat,
    col: nat,
    cur: Seq<char>,
    st: StateModel,
    acc: Seq<Seq<char>>,
)
    requires
        crate::ansi::tokenized(s),
        crate::ansi::wf_state(st),
        crate::ansi::tokenized(cur),
        width_sum(crate::ansi::visible_spec(cur)) == col,
        col <= w || crate::ansi::visible_spec(cur).len() <= 1,
        forall|i: int| 0 <= i < acc.len() ==> segment_fits(#[trigger] acc[i], w),
    ensures
        ({
            let (segs, stf) = wrap_rec(s, Option::Some(w), col, cur, st, acc);
            forall|i: int| 0 <= i < segs.len() ==> segment_fits(#[trigger] segs[i], w)
        }),
    decreases s.len(),
{
    crate::ansi::lemma_escape_len_le(s);
    if s.len() == 0 {
        let segs = acc.push(cur);
        assert(wrap_rec(s, Option::Some(w), col, cur, st, acc).0 == segs);
        assert(segment_fits(cur, w));
        assert(forall|i: int| 0 <= i < segs.len() ==> segment_fits(#[trigger] segs[i], w));
    } else {
        let l = crate::ansi::escape_len(s);
        if 1 <= l <= s.len() {
            let tok = s.take(l as int);
            let st2 = state_update(st, tok);
            crate::ansi::lemma_escape_take(s, l as int);
            crate::ansi::lemma_update_wf(st, tok);
            crate::ansi::lemma_prefix_props(st2);
            crate::ansi::lemma_tokenized_escape(tok);
            crate::ansi::lemma_tokenized_append(tok, state_prefix(st2));
            crate::ansi::lemma_tokenized_append(cur, tok + state_prefix(st2));
            let cur2 = cur + tok + state_prefix(st2);
            assert(cur2 =~= cur + (tok + state_prefix(st2)));
            crate::ansi::lemma_visible_append(cur, tok + state_prefix(st2));
            crate::ansi::lemma_visible_append(tok, state_prefix(st2));
            crate::ansi::lemma_visible_escape(tok);
            assert(crate::ansi::visible_spec(cur2) =~= crate::ansi::visible_spec(cur));
            lemma_wrap_rec_fits(s.skip(l as int), w, col, cur2, st2, acc);
            assert(wrap_rec(s, Option::Some(w), col, cur, st, acc) == wrap_rec(
                s.skip(l as int),
                Option::Some(w),
                col,
                cur2,
                st2,
                acc,
            ));
        } else {
            assert(s[0] != crate::ansi::ESC_CHAR);
            let c = s[0];
            let cw = width_of(c);
            crate::ansi::lemma_tokenized_char(c);
            assert(crate::ansi::visible_spec(seq![c]) =~= seq![c]) by {
                assert(seq![c].skip(1) =~= Seq::<char>::empty());
                assert(crate::ansi::escape_len(seq![c]) == 0);
                assert(crate::ansi::visible_spec(Seq::<char>::empty()) =~= Seq::<char>::empty());
                assert(seq![c] + Seq::<char>::empty() =~= seq![c]);
            }
            if col + cw > w {
                let closebit = match st.link {
                    Option::Some(_) => link_close_spec(),
                    Option::None => Seq::<char>::empty(),
                };
                let closed = cur + closebit;
                assert(crate::ansi::tokenized(closebit) && crate::ansi::visible_spec(closebit)
                    =~= Seq::<char>::empty()) by {
                    match st.link {
                        Option::Some(_) => {
                            crate::ansi::lemma_link_close_complete();
                            crate::ansi::lemma_tokenized_escape(link_close_spec());
                            crate::ansi::lemma_visible_escape(link_close_spec());
                        },
                        Option::None => {
                            assert(crate::ansi::tokenized(Seq::<char>::empty()));
                        },
                    }
                }
                crate::ansi::lemma_tokenized_append(cur, closebit);
                crate::ansi::lemma_visible_append(cur, closebit);
                assert(crate::ansi::visible_spec(closed) =~= crate::ansi::visible_spec(cur));
                assert(segment_fits(closed, w));
                crate::ansi::lemma_prefix_props(st);
                let cur2 = state_prefix(st) + seq![c];
                crate::ansi::lemma_tokenized_append(state_prefix(st), seq![c]);
                crate::ansi::lemma_visible_append(state_prefix(st), seq![c]);
                assert(crate::ansi::visible_spec(cur2) =~= seq![c]);
                assert(width_sum(seq![c]) == cw) by {
                    assert(seq![c][0] == c);
                    assert(seq![c].drop_first() =~= Seq::<char>::empty());
                    assert(width_sum(Seq::<char>::empty()) == 0);
                }
                let acc2 = acc.push(closed);
                assert(forall|i: int|
                    0 <= i < acc2.len() ==> segment_fits(#[trigger] acc2[i], w));
                lemma_wrap_rec_fits(s.skip(1), w, cw, cur2, st, acc2);
                assert(wrap_rec(s, Option::Some(w), col, cur, st, acc) == wrap_rec(
                    s.skip(1),
                    Option::Some(w),
                    cw,
                    cur2,
                    st,
                    acc2,
                ));
            } else {
                let cur2 = cur.push(c);
                assert(cur2 =~= cur + seq![c]);
                crate::ansi::lemma_tokenized_append(cur, seq![c]);
                crate::ansi::lemma_visible_append(cur, seq![c]);
                assert(crate::ansi::visible_spec(cur2) =~= crate::ansi::visible_spec(cur).push(c));
                lemma_width_sum_snoc(crate::ansi::visible_spec(cur), c);
                lemma_wrap_rec_fits(s.skip(1), w, col + cw, cur2, st, acc);
                assert(wrap_rec(s, Option::Some(w), col, cur, st, acc) == wrap_rec(
                    s.skip(1),
                    Option::Some(w),
                    col + cw,
                    cur2,
                    st,
                    acc,
                ));
            }
        }
    }
}

/// Under a width limit every wrapped segment fits: its visible cells never
/// exceed the limit, except that a single glyph wider than the whole limit
/// stands alone in its segment.
pub proof fn lemma_wrap_segments_fit(s: Seq<char>, w: nat, st: StateModel)
    requires
        crate::ansi::tokenized(s),
        crate::ansi::wf_state(st),
    ensures
        ({
            let (segs, stf) = wrap_line_spec(s, Option::Some(w), st);
            forall|i: int| 0 <= i < segs.len() ==> segment_fits(#[trigger] segs[i], w)
        }),
{
    crate::ansi::lemma_prefix_props(st);
    assert(width_sum(crate::ansi::visible_spec(state_prefix(st))) == 0);
    lemma_wrap_rec_fits(s, w, 0, state_prefix(st), st, Seq::empty());
}

} // verus!
