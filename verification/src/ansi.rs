//! Escape-sequence handling: a strict scanner for SGR (`ESC [ ... m`) and OSC
//! (`ESC ] ... BEL|ST`) sequences, the visible-character projection that
//! ignores them, and the open-attribute state that wrapping carries across
//! segment boundaries.
//!
//! The grammar is deliberately strict: a sequence that is not well formed up
//! to its terminator counts as ordinary visible characters. Well-formed
//! sequences are self-delimiting, so appending text never changes how a
//! complete sequence scans.
use vstd::prelude::*;

verus! {

pub const ESC_CHAR: char = '\u{1b}';

pub const BEL_CHAR: char = '\u{7}';

/// Characters allowed in the body of a control sequence (parameters and
/// intermediates, 0x20..=0x3F).
pub open spec fn is_csi_body(c: char) -> bool {
    0x20 <= (c as u32) <= 0x3F
}

/// Final byte of a control sequence (0x40..=0x7E).
pub open spec fn is_csi_final(c: char) -> bool {
    0x40 <= (c as u32) <= 0x7E
}

/// Length of the run of control-sequence body characters at the front of `s`.
pub open spec fn csi_body_run(s: Seq<char>) -> nat
    decreases s.len(),
{
    if s.len() > 0 && is_csi_body(s[0]) {
        (1 + csi_body_run(s.drop_first())) as nat
    } else {
        0
    }
}

/// Distance to and including the terminator of an OSC body: a BEL, or the
/// two-character ST (`ESC \`). An ESC not followed by `\` aborts the scan.
pub open spec fn osc_term(s: Seq<char>) -> Option<nat>
    decreases s.len(),
{
    if s.len() == 0 {
        None
    } else if s[0] == BEL_CHAR {
        Some(1)
    } else if s[0] == ESC_CHAR {
        if s.len() >= 2 && s[1] == '\\' {
            Some(2)
        } else {
            None
        }
    } else {
        match osc_term(s.drop_first()) {
            Some(n) => Some((n + 1) as nat),
            None => None,
        }
    }
}

/// Length of the well-formed escape sequence at the front of `s`, or 0 if
/// `s` does not start with one.
pub open spec fn escape_len(s: Seq<char>) -> nat {
    if s.len() >= 2 && s[0] == ESC_CHAR && s[1] == '[' {
        let body = s.skip(2);
        let run = csi_body_run(body);
        if run < body.len() && is_csi_final(body[run as int]) {
            (2 + run + 1) as nat
        } else {
            0
        }
    } else if s.len() >= 2 && s[0] == ESC_CHAR && s[1] == ']' {
        match osc_term(s.skip(2)) {
            Some(n) => (2 + n) as nat,
            None => 0,
        }
    } else {
        0
    }
}

/// The characters of `s` that a terminal would display: everything outside
/// well-formed escape sequences.
pub open spec fn visible_spec(s: Seq<char>) -> Seq<char>
    decreases s.len(),
{
    if s.len() == 0 {
        Seq::empty()
    } else {
        let l = escape_len(s);
        if 1 <= l <= s.len() {
            visible_spec(s.skip(l as int))
        } else {
            seq![s[0]] + visible_spec(s.skip(1))
        }
    }
}

/// `escape_len` never claims more characters than `s` has.
pub proof fn lemma_escape_len_le(s: Seq<char>)
    ensures
        escape_len(s) <= s.len(),
{
    if s.len() >= 2 && s[0] == ESC_CHAR && s[1] == '[' {
        lemma_csi_body_run_le(s.skip(2));
    } else if s.len() >= 2 && s[0] == ESC_CHAR && s[1] == ']' {
        lemma_osc_term_le(s.skip(2));
    }
}

proof fn lemma_csi_body_run_le(s: Seq<char>)
    ensures
        csi_body_run(s) <= s.len(),
    decreases s.len(),
{
    if s.len() > 0 && is_csi_body(s[0]) {
        lemma_csi_body_run_le(s.drop_first());
    }
}

proof fn lemma_osc_term_le(s: Seq<char>)
    ensures
        osc_term(s) is Some ==> 1 <= osc_term(s)->0 <= s.len(),
    decreases s.len(),
{
    if s.len() == 0 {
    } else if s[0] == BEL_CHAR {
    } else if s[0] == ESC_CHAR {
    } else {
        lemma_osc_term_le(s.drop_first());
    }
}

/// Exec scan of the control-sequence body run starting at index `i` of `s`.
fn csi_body_run_from(s: &[char], i: usize) -> (r: usize)
    requires
        i <= s@.len(),
    ensures
        r == csi_body_run(s@.skip(i as int)),
        i + r <= s@.len(),
{
    let mut j: usize = i;
    while j < s.len() && (s[j] as u32) >= 0x20 && (s[j] as u32) <= 0x3F
        invariant
            i <= j <= s@.len(),
            csi_body_run(s@.skip(i as int)) == j - i + csi_body_run(s@.skip(j as int)),
        decreases s@.len() - j,
    {
        proof {
            assert(s@.skip(j as int).drop_first() =~= s@.skip(j + 1 as int));
            assert(is_csi_body(s@.skip(j as int)[0]));
        }
        j = j + 1;
    }
    proof {
        if j < s@.len() {
            assert(!is_csi_body(s@.skip(j as int)[0]));
        }
        lemma_csi_body_run_le(s@.skip(j as int));
        assert(s@.skip(j as int).len() == 0 || !is_csi_body(s@.skip(j as int)[0]));
        assert(csi_body_run(s@.skip(j as int)) == 0);
    }
    j - i
}

/// Exec scan for the OSC terminator in `s` from index `i` on.
fn osc_term_from(s: &[char], i: usize) -> (r: Option<usize>)
    requires
        i <= s@.len(),
    ensures
        match r {
            Some(n) => osc_term(s@.skip(i as int)) == Some(n as nat) && i + n <= s@.len(),
            None => osc_term(s@.skip(i as int)) is None,
        },
{
    let mut j: usize = i;
    while j < s.len() && s[j] != BEL_CHAR && s[j] != ESC_CHAR
        invariant
            i <= j <= s@.len(),
            forall|k: int| i <= k < j ==> s@[k] != BEL_CHAR && s@[k] != ESC_CHAR,
            osc_term(s@.skip(i as int)) == match osc_term(s@.skip(j as int)) {
                Some(n) => Some((n + (j - i)) as nat),
                None => None::<nat>,
            },
        decreases s@.len() - j,
    {
        proof {
            assert(s@.skip(j as int).drop_first() =~= s@.skip(j + 1 as int));
        }
        j = j + 1;
    }
    if j >= s.len() {
        return None;
    }
    if s[j] == BEL_CHAR {
        proof {
            assert(osc_term(s@.skip(j as int)) == Some(1nat));
        }
        Some(j - i + 1)
    } else {
        if j + 1 < s.len() && s[j + 1] == '\\' {
            proof {
                assert(s@.skip(j as int)[1] == s@[j + 1]);
                assert(osc_term(s@.skip(j as int)) == Some(2nat));
            }
            Some(j - i + 2)
        } else {
            proof {
                assert(s@.skip(j as int)[0] == ESC_CHAR);
                if s@.skip(j as int).len() >= 2 {
                    assert(s@.skip(j as int)[1] == s@[j + 1]);
                }
                assert(osc_term(s@.skip(j as int)) is None);
            }
            None
        }
    }
}

/// Length of the well-formed escape sequence starting at index `i` of `s`,
/// or 0 if none starts there.
pub fn escape_len_at(s: &[char], i: usize) -> (r: usize)
    requires
        i <= s@.len(),
    ensures
        r == escape_len(s@.skip(i as int)),
        i + r <= s@.len(),
{
    proof {
        lemma_escape_len_le(s@.skip(i as int));
    }
    let n = s.len();
    if n - i < 2 {
        proof {
            assert(s@.skip(i as int).len() < 2);
        }
        return 0;
    }
    if s[i] != ESC_CHAR {
        proof {
            assert(s@.skip(i as int)[0] == s@[i as int]);
        }
        return 0;
    }
    proof {
        assert(s@.skip(i as int)[0] == s@[i as int]);
        assert(s@.skip(i as int)[1] == s@[i + 1]);
    }
    if s[i + 1] == '[' {
        let run = csi_body_run_from(s, i + 2);
        proof {
            assert(s@.skip(i as int).skip(2) =~= s@.skip(i + 2 as int));
        }
        if i + 2 + run < n {
            let f = s[i + 2 + run];
            proof {
                assert(s@.skip(i + 2 as int)[run as int] == s@[i + 2 + run as int]);
            }
            if (f as u32) >= 0x40 && (f as u32) <= 0x7E {
                run + 3
            } else {
                0
            }
        } else {
            proof {
                assert(run == s@.skip(i + 2 as int).len());
            }
            0
        }
    } else if s[i + 1] == ']' {
        proof {
            assert(s@.skip(i as int).skip(2) =~= s@.skip(i + 2 as int));
        }
        match osc_term_from(s, i + 2) {
            Some(n) => n + 2,
            None => 0,
        }
    } else {
        0
    }
}

/// Remove every well-formed escape sequence from `s`, keeping all displayed
/// characters in order.
pub fn strip_ansi(s: &[char]) -> (r: Vec<char>)
    ensures
        r@ == visible_spec(s@),
{
    let mut r: Vec<char> = Vec::new();
    let mut i: usize = 0;
    proof {
        assert(s@.skip(0) =~= s@);
        assert(Seq::<char>::empty() + visible_spec(s@) =~= visible_spec(s@));
    }
    while i < s.len()
        invariant
            i <= s@.len(),
            visible_spec(s@) == r@ + visible_spec(s@.skip(i as int)),
        decreases s@.len() - i,
    {
        let l = escape_len_at(s, i);
        if l > 0 {
            proof {
                assert(s@.skip(i as int).skip(l as int) =~= s@.skip(i + l as int));
            }
            i = i + l;
        } else {
            r.push(s[i]);
            proof {
                assert(s@.skip(i as int)[0] == s@[i as int]);
                assert(s@.skip(i as int).skip(1) =~= s@.skip(i + 1 as int));
            }
            i = i + 1;
        }
    }
    proof {
        assert(visible_spec(s@.skip(s@.len() as int)) =~= Seq::<char>::empty());
        assert(r@ + Seq::<char>::empty() =~= r@);
    }
    r
}

} // verus!

verus! {

/// Shape of an SGR sequence: `ESC [ ... m`.
pub open spec fn is_sgr_token(t: Seq<char>) -> bool {
    t.len() >= 3 && t[0] == ESC_CHAR && t[1] == '[' && t[t.len() - 1] == 'm'
}

/// An SGR sequence that resets all attributes: `ESC [ m` or `ESC [ 0 m`.
pub open spec fn sgr_is_reset(t: Seq<char>) -> bool {
    t.len() == 3 || (t.len() == 4 && t[2] == '0')
}

/// Shape of an OSC 8 hyperlink sequence: `ESC ] 8 ; params ; uri TERM`.
pub open spec fn is_osc8_token(t: Seq<char>) -> bool {
    t.len() >= 4 && t[0] == ESC_CHAR && t[1] == ']' && t[2] == '8' && t[3] == ';'
}

/// Index of the first `;` in `s`.
pub open spec fn find_semi(s: Seq<char>) -> Option<nat>
    decreases s.len(),
{
    if s.len() == 0 {
        None
    } else if s[0] == ';' {
        Some(0)
    } else {
        match find_semi(s.drop_first()) {
            Some(n) => Some((n + 1) as nat),
            None => None,
        }
    }
}

/// The uri part of an OSC 8 token: everything between the `;` that closes the
/// parameter list and the terminator.
pub open spec fn osc8_uri(t: Seq<char>) -> Seq<char> {
    let term: int = if t.len() >= 1 && t[t.len() - 1] == BEL_CHAR {
        1
    } else {
        2
    };
    if t.len() >= 4 + term {
        let body = t.subrange(4, t.len() - term);
        match find_semi(body) {
            Some(k) => body.skip((k + 1) as int),
            None => Seq::empty(),
        }
    } else {
        Seq::empty()
    }
}

/// Whether an OSC 8 token opens a hyperlink (non-empty uri) rather than
/// closing one.
pub open spec fn osc8_opens(t: Seq<char>) -> bool {
    osc8_uri(t).len() > 0
}

/// The concatenation of a sequence of character sequences.
pub open spec fn concat_seqs(ss: Seq<Seq<char>>) -> Seq<char>
    decreases ss.len(),
{
    if ss.len() == 0 {
        Seq::empty()
    } else {
        ss[0] + concat_seqs(ss.drop_first())
    }
}

/// The open escape-sequence state at a point in a line: the SGR sequences
/// seen since the last reset, in order, and the open hyperlink, if any.
pub struct StateModel {
    pub sgr: Seq<Seq<char>>,
    pub link: Option<Seq<char>>,
}

/// How one escape token changes the open state: an SGR reset clears the
/// accumulated attributes, any other SGR is appended, an OSC 8 with a uri
/// opens a hyperlink, one without closes it, and anything else is ignored.
pub open spec fn state_update(st: StateModel, t: Seq<char>) -> StateModel {
    if is_sgr_token(t) {
        if sgr_is_reset(t) {
            StateModel { sgr: Seq::empty(), link: st.link }
        } else {
            StateModel { sgr: st.sgr.push(t), link: st.link }
        }
    } else if is_osc8_token(t) {
        if osc8_opens(t) {
            StateModel { sgr: st.sgr, link: Some(t) }
        } else {
            StateModel { sgr: st.sgr, link: None }
        }
    } else {
        st
    }
}

/// The characters that re-establish the open state at the start of a wrapped
/// segment: every open SGR sequence, then the open hyperlink sequence.
pub open spec fn state_prefix(st: StateModel) -> Seq<char> {
    concat_seqs(st.sgr) + match st.link {
        Some(l) => l,
        None => Seq::empty(),
    }
}

/// The sequence that closes an open hyperlink at a wrap boundary.
pub open spec fn link_close_spec() -> Seq<char> {
    seq![ESC_CHAR, ']', '8', ';', ';', ESC_CHAR, '\\']
}

/// Exec form of the open escape-sequence state.
pub struct WrapState {
    pub sgr: Vec<Vec<char>>,
    pub link: Option<Vec<char>>,
}

impl View for WrapState {
    type V = StateModel;

    open spec fn view(&self) -> StateModel {
        StateModel {
            sgr: self.sgr.deep_view(),
            link: match self.link {
                Some(l) => Some(l@),
                None => None,
            },
        }
    }
}

impl WrapState {
    /// The state with nothing open.
    pub fn new_empty() -> (r: WrapState)
        ensures
            r@ == (StateModel { sgr: Seq::<Seq<char>>::empty(), link: None::<Seq<char>> }),
    {
        let r = WrapState { sgr: Vec::new(), link: None };
        proof {
            assert(r.sgr.deep_view() =~= Seq::<Seq<char>>::empty());
        }
        r
    }

    /// Apply one escape token to the state.
    pub fn update(&mut self, t: &[char])
        ensures
            final(self)@ == state_update(old(self)@, t@),
    {
        let n = t.len();
        if n >= 3 && t[0] == ESC_CHAR && t[1] == '[' && t[n - 1] == 'm' {
            if n == 3 || (n == 4 && t[2] == '0') {
                self.sgr = Vec::new();
                proof {
                    assert(self.sgr.deep_view() =~= Seq::<Seq<char>>::empty());
                }
            } else {
                let mut tok: Vec<char> = Vec::new();
                append_chars_local(&mut tok, t);
                self.sgr.push(tok);
                proof {
                    assert(self.sgr.deep_view() =~~= old(self).sgr.deep_view().push(t@));
                }
            }
        } else if n >= 4 && t[0] == ESC_CHAR && t[1] == ']' && t[2] == '8' && t[3] == ';' {
            if osc8_token_opens(t) {
                let mut tok: Vec<char> = Vec::new();
                append_chars_local(&mut tok, t);
                self.link = Some(tok);
            } else {
                self.link = None;
            }
        } else {
        }
    }

    /// The characters that re-establish this state at a segment start.
    pub fn prefix_chars(&self) -> (r: Vec<char>)
        ensures
            r@ == state_prefix(self@),
    {
        let mut r: Vec<char> = Vec::new();
        let mut i: usize = 0;
        proof {
            assert(self.sgr.deep_view().skip(0) =~= self.sgr.deep_view());
        }
        while i < self.sgr.len()
            invariant
                i <= self.sgr.len(),
                r@ + concat_seqs(self.sgr.deep_view().skip(i as int)) == concat_seqs(
                    self.sgr.deep_view(),
                ),
            decreases self.sgr.len() - i,
        {
            proof {
                assert(self.sgr.deep_view().skip(i as int).drop_first() =~= self.sgr.deep_view()
                    .skip(i + 1 as int));
                assert(self.sgr.deep_view().skip(i as int)[0] == self.sgr[i as int]@);
            }
            append_chars_local(&mut r, self.sgr[i].as_slice());
            i = i + 1;
        }
        proof {
            assert(concat_seqs(self.sgr.deep_view().skip(self.sgr.len() as int)) =~= Seq::<
                char,
            >::empty());
            assert(r@ + Seq::<char>::empty() =~= r@);
            assert(r@ =~= concat_seqs(self.sgr.deep_view()));
        }
        match &self.link {
            Some(l) => {
                append_chars_local(&mut r, l.as_slice());
                r
            },
            None => {
                proof {
                    assert(r@ + Seq::<char>::empty() =~= r@);
                }
                r
            },
        }
    }
}

/// Whether an OSC 8 token (starting `ESC ] 8 ;`) carries a non-empty uri.
fn osc8_token_opens(t: &[char]) -> (r: bool)
    requires
        t@.len() >= 4,
    ensures
        r == osc8_opens(t@),
{
    let n = t.len();
    let term: usize = if t[n - 1] == BEL_CHAR {
        1
    } else {
        2
    };
    if n < 4 + term {
        proof {
            assert(!osc8_opens(t@));
        }
        return false;
    }
    let body_end = n - term;
    let mut j: usize = 4;
    while j < body_end && t[j] != ';'
        invariant
            4 <= j <= body_end <= t@.len(),
            body_end == t@.len() - (if t@[t@.len() - 1] == BEL_CHAR {
                1int
            } else {
                2int
            }),
            forall|k: int| 4 <= k < j ==> t@[k] != ';',
        decreases body_end - j,
    {
        j = j + 1;
    }
    let ghost body = t@.subrange(4, body_end as int);
    if j >= body_end {
        proof {
            assert forall|k: int| 0 <= k < body.len() implies body[k] != ';' by {
                assert(body[k] == t@[4 + k]);
            }
            lemma_find_semi_none(body);
        }
        false
    } else {
        proof {
            assert(body[j - 4] == t@[j as int]);
            assert forall|k: int| 0 <= k < j - 4 implies body[k] != ';' by {
                assert(body[k] == t@[4 + k]);
            }
            lemma_find_semi_at(body, j - 4);
        }
        j + 1 < body_end
    }
}

/// If no character of `s` is a `;`, none is found.
proof fn lemma_find_semi_none(s: Seq<char>)
    requires
        forall|k: int| 0 <= k < s.len() ==> s[k] != ';',
    ensures
        find_semi(s) is None,
    decreases s.len(),
{
    if s.len() > 0 {
        lemma_find_semi_none(s.drop_first());
    }
}

/// If `s[k]` is the first `;`, it is found at `k`.
proof fn lemma_find_semi_at(s: Seq<char>, k: int)
    requires
        0 <= k < s.len(),
        s[k] == ';',
        forall|j: int| 0 <= j < k ==> s[j] != ';',
    ensures
        find_semi(s) == Some(k as nat),
    decreases s.len(),
{
    if k > 0 {
        lemma_find_semi_at(s.drop_first(), k - 1);
    }
}

/// Append every character of `src` to `dst` (local copy to keep this module
/// self-contained).
fn append_chars_local(dst: &mut Vec<char>, src: &[char])
    ensures
        final(dst)@ == old(dst)@ + src@,
{
    let mut i: usize = 0;
    while i < src.len()
        invariant
            i <= src.len(),
            dst@ == old(dst)@ + src@.take(i as int),
        decreases src.len() - i,
    {
        dst.push(src[i]);
        proof {
            assert(old(dst)@ + src@.take(i as int) + seq![src@[i as int]] =~= old(dst)@
                + src@.take(i + 1 as int));
        }
        i = i + 1;
    }
    proof {
        assert(old(dst)@ + src@.take(src@.len() as int) =~= old(dst)@ + src@);
    }
}

} // verus!

verus! {

/// A complete escape sequence: the scanner consumes exactly all of it.
pub open spec fn complete_escape(t: Seq<char>) -> bool {
    t.len() > 0 && escape_len(t) == t.len()
}

/// A well-formed line: it decomposes into complete escape sequences and
/// ordinary characters, with no stray ESC.
pub open spec fn tokenized(s: Seq<char>) -> bool
    decreases s.len(),
{
    if s.len() == 0 {
        true
    } else {
        let l = escape_len(s);
        if 1 <= l <= s.len() {
            tokenized(s.skip(l as int))
        } else {
            s[0] != ESC_CHAR && tokenized(s.skip(1))
        }
    }
}

proof fn lemma_csi_run_stable(u: Seq<char>, v: Seq<char>)
    requires
        csi_body_run(u) < u.len(),
    ensures
        csi_body_run(u + v) == csi_body_run(u),
        (u + v)[csi_body_run(u) as int] == u[csi_body_run(u) as int],
    decreases u.len(),
{
    lemma_csi_body_run_le(u);
    if u.len() > 0 && is_csi_body(u[0]) {
        assert((u + v).drop_first() =~= u.drop_first() + v);
        lemma_csi_run_stable(u.drop_first(), v);
        assert((u + v)[0] == u[0]);
    } else {
        assert((u + v)[0] == u[0]);
    }
}

proof fn lemma_csi_run_take(u: Seq<char>, m: int)
    requires
        csi_body_run(u) < m <= u.len(),
    ensures
        csi_body_run(u.take(m)) == csi_body_run(u),
    decreases u.len(),
{
    if u.len() > 0 && is_csi_body(u[0]) {
        assert(u.take(m).drop_first() =~= u.drop_first().take(m - 1));
        assert(u.take(m)[0] == u[0]);
        lemma_csi_run_take(u.drop_first(), m - 1);
    } else {
        assert(u.take(m)[0] == u[0]);
    }
}

proof fn lemma_osc_term_stable(u: Seq<char>, v: Seq<char>)
    requires
        osc_term(u) is Some,
    ensures
        osc_term(u + v) == osc_term(u),
    decreases u.len(),
{
    assert((u + v)[0] == u[0]);
    if u[0] == BEL_CHAR {
    } else if u[0] == ESC_CHAR {
        assert(u.len() >= 2 && u[1] == '\\');
        assert((u + v)[1] == u[1]);
    } else {
        assert((u + v).drop_first() =~= u.drop_first() + v);
        lemma_osc_term_stable(u.drop_first(), v);
    }
}

proof fn lemma_osc_term_take(u: Seq<char>, m: int)
    requires
        osc_term(u) is Some,
        osc_term(u)->0 <= m <= u.len(),
    ensures
        osc_term(u.take(m)) == osc_term(u),
    decreases u.len(),
{
    lemma_osc_term_le(u);
    assert(u.take(m)[0] == u[0]);
    if u[0] == BEL_CHAR {
    } else if u[0] == ESC_CHAR {
        assert(u.len() >= 2 && u[1] == '\\');
        assert(u.take(m)[1] == u[1]);
    } else {
        assert(u.take(m).drop_first() =~= u.drop_first().take(m - 1));
        lemma_osc_term_take(u.drop_first(), m - 1);
    }
}

/// A complete escape sequence scans the same with anything appended: it is
/// self-delimiting.
pub proof fn lemma_escape_stable(x: Seq<char>, y: Seq<char>)
    requires
        complete_escape(x),
    ensures
        escape_len(x + y) == x.len(),
{
    assert((x + y)[0] == x[0]);
    assert((x + y)[1] == x[1]);
    if x[1] == '[' {
        let body = x.skip(2);
        let run = csi_body_run(body);
        assert(run < body.len());
        assert((x + y).skip(2) =~= body + y);
        lemma_csi_run_stable(body, y);
    } else {
        assert(x[1] == ']');
        let k = osc_term(x.skip(2));
        assert((x + y).skip(2) =~= x.skip(2) + y);
        lemma_osc_term_stable(x.skip(2), y);
    }
}

/// The part of `s` the scanner consumes is itself a complete escape.
pub proof fn lemma_escape_take(s: Seq<char>, l: int)
    requires
        escape_len(s) == l,
        1 <= l <= s.len(),
    ensures
        complete_escape(s.take(l)),
{
    assert(s.take(l)[0] == s[0]);
    assert(s.take(l)[1] == s[1]);
    if s[1] == '[' {
        let body = s.skip(2);
        let run = csi_body_run(body);
        assert(run < body.len() && is_csi_final(body[run as int]));
        assert(s.take(l).skip(2) =~= body.take(l - 2));
        lemma_csi_run_take(body, l - 2);
        assert(body.take(l - 2)[run as int] == body[run as int]);
    } else {
        assert(s[1] == ']');
        let k = osc_term(s.skip(2));
        assert(s.take(l).skip(2) =~= s.skip(2).take(l - 2));
        lemma_osc_term_take(s.skip(2), l - 2);
    }
}

/// A single ordinary character is a well-formed line of its own.
pub proof fn lemma_tokenized_char(c: char)
    requires
        c != ESC_CHAR,
    ensures
        tokenized(seq![c]),
{
    assert(seq![c].skip(1) =~= Seq::<char>::empty());
    assert(escape_len(seq![c]) == 0);
    assert(tokenized(Seq::<char>::empty()));
}

/// A complete escape is a well-formed line of its own.
pub proof fn lemma_tokenized_escape(t: Seq<char>)
    requires
        complete_escape(t),
    ensures
        tokenized(t),
{
    assert(t.skip(t.len() as int) =~= Seq::<char>::empty());
    assert(tokenized(Seq::<char>::empty()));
}

/// Well-formed lines concatenate to a well-formed line.
pub proof fn lemma_tokenized_append(x: Seq<char>, y: Seq<char>)
    requires
        tokenized(x),
        tokenized(y),
    ensures
        tokenized(x + y),
    decreases x.len(),
{
    if x.len() == 0 {
        assert(x + y =~= y);
    } else {
        let l = escape_len(x);
        lemma_escape_len_le(x);
        if 1 <= l {
            lemma_escape_take(x, l as int);
            lemma_escape_stable(x.take(l as int), x.skip(l as int) + y);
            assert(x + y =~= x.take(l as int) + (x.skip(l as int) + y));
            assert(escape_len(x + y) == l);
            lemma_tokenized_append(x.skip(l as int), y);
            assert((x + y).skip(l as int) =~= x.skip(l as int) + y);
        } else {
            assert(x[0] != ESC_CHAR);
            assert((x + y)[0] == x[0]);
            assert(escape_len(x + y) == 0);
            lemma_tokenized_append(x.skip(1), y);
            assert((x + y).skip(1) =~= x.skip(1) + y);
        }
    }
}

/// On a well-formed prefix the visible projection is additive: the scanner
/// never reads across the boundary.
pub proof fn lemma_visible_append(x: Seq<char>, y: Seq<char>)
    requires
        tokenized(x),
    ensures
        visible_spec(x + y) == visible_spec(x) + visible_spec(y),
    decreases x.len(),
{
    if x.len() == 0 {
        assert(x + y =~= y);
        assert(visible_spec(x) =~= Seq::<char>::empty());
        assert(visible_spec(x) + visible_spec(y) =~= visible_spec(y));
    } else {
        let l = escape_len(x);
        lemma_escape_len_le(x);
        if 1 <= l {
            lemma_escape_take(x, l as int);
            lemma_escape_stable(x.take(l as int), x.skip(l as int) + y);
            assert(x + y =~= x.take(l as int) + (x.skip(l as int) + y));
            assert(escape_len(x + y) == l);
            assert((x + y).len() >= l);
            lemma_visible_append(x.skip(l as int), y);
            assert((x + y).skip(l as int) =~= x.skip(l as int) + y);
        } else {
            assert(x[0] != ESC_CHAR);
            assert((x + y)[0] == x[0]);
            assert(escape_len(x + y) == 0);
            lemma_visible_append(x.skip(1), y);
            assert((x + y).skip(1) =~= x.skip(1) + y);
            assert(seq![x[0]] + (visible_spec(x.skip(1)) + visible_spec(y)) =~= (seq![x[0]]
                + visible_spec(x.skip(1))) + visible_spec(y));
        }
    }
}

/// A complete escape displays nothing.
pub proof fn lemma_visible_escape(t: Seq<char>)
    requires
        complete_escape(t),
    ensures
        visible_spec(t) == Seq::<char>::empty(),
{
    assert(visible_spec(t) == visible_spec(t.skip(t.len() as int)));
    assert(t.skip(t.len() as int).len() == 0);
    assert(visible_spec(t.skip(t.len() as int)) =~= Seq::<char>::empty());
}

/// The open state is well formed when everything it stores is a complete
/// escape sequence.
pub open spec fn wf_state(st: StateModel) -> bool {
    &&& forall|i: int| 0 <= i < st.sgr.len() ==> complete_escape(#[trigger] st.sgr[i])
    &&& match st.link {
        Option::Some(l) => complete_escape(l),
        Option::None => true,
    }
}

/// A concatenation of complete escapes is well formed and displays nothing.
pub proof fn lemma_concat_escapes(ss: Seq<Seq<char>>)
    requires
        forall|i: int| 0 <= i < ss.len() ==> complete_escape(#[trigger] ss[i]),
    ensures
        tokenized(concat_seqs(ss)),
        visible_spec(concat_seqs(ss)) == Seq::<char>::empty(),
    decreases ss.len(),
{
    if ss.len() == 0 {
        assert(visible_spec(concat_seqs(ss)) =~= Seq::<char>::empty());
    } else {
        assert(forall|i: int|
            0 <= i < ss.drop_first().len() ==> complete_escape(#[trigger] ss.drop_first()[i]));
        lemma_concat_escapes(ss.drop_first());
        lemma_tokenized_escape(ss[0]);
        lemma_tokenized_append(ss[0], concat_seqs(ss.drop_first()));
        lemma_visible_append(ss[0], concat_seqs(ss.drop_first()));
        lemma_visible_escape(ss[0]);
        assert(visible_spec(concat_seqs(ss)) =~= Seq::<char>::empty());
    }
}

/// The re-established prefix of a well-formed state is a well-formed piece
/// of line that displays nothing.
pub proof fn lemma_prefix_props(st: StateModel)
    requires
        wf_state(st),
    ensures
        tokenized(state_prefix(st)),
        visible_spec(state_prefix(st)) == Seq::<char>::empty(),
{
    lemma_concat_escapes(st.sgr);
    match st.link {
        Option::Some(l) => {
            lemma_tokenized_escape(l);
            lemma_tokenized_append(concat_seqs(st.sgr), l);
            lemma_visible_append(concat_seqs(st.sgr), l);
            lemma_visible_escape(l);
            assert(visible_spec(state_prefix(st)) =~= Seq::<char>::empty());
        },
        Option::None => {
            assert(state_prefix(st) =~= concat_seqs(st.sgr));
        },
    }
}

/// Updating a well-formed state with a complete escape keeps it well formed.
pub proof fn lemma_update_wf(st: StateModel, t: Seq<char>)
    requires
        wf_state(st),
        complete_escape(t),
    ensures
        wf_state(state_update(st, t)),
{
}

/// The hyperlink-closing sequence is a complete escape.
pub proof fn lemma_link_close_complete()
    ensures
        complete_escape(link_close_spec()),
{
    let t = link_close_spec();
    let body = t.skip(2);
    assert(body =~= seq!['8', ';', ';', ESC_CHAR, '\\']);
    assert(body[0] == '8' && body[0] != BEL_CHAR && body[0] != ESC_CHAR);
    assert(body.drop_first() =~= seq![';', ';', ESC_CHAR, '\\']);
    assert(body.drop_first().drop_first() =~= seq![';', ESC_CHAR, '\\']);
    assert(body.drop_first().drop_first().drop_first() =~= seq![ESC_CHAR, '\\']);
    assert(osc_term(seq![ESC_CHAR, '\\']) == Some(2nat));
    assert(osc_term(seq![';', ESC_CHAR, '\\']) == Some(3nat));
    assert(osc_term(seq![';', ';', ESC_CHAR, '\\']) == Some(4nat));
    assert(osc_term(body) == Some(5nat));
    assert(t[0] == ESC_CHAR && t[1] == ']');
    assert(escape_len(t) == 7);
}

} // verus!

verus! {

/// Stripping escapes never lengthens a line.
pub proof fn lemma_visible_len_le(s: Seq<char>)
    ensures
        visible_spec(s).len() <= s.len(),
    decreases s.len(),
{
    if s.len() > 0 {
        let l = escape_len(s);
        lemma_escape_len_le(s);
        if 1 <= l <= s.len() {
            lemma_visible_len_le(s.skip(l as int));
        } else {
            lemma_visible_len_le(s.skip(1));
        }
    }
}

} // verus!
