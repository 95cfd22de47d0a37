//! Line-range selection: parsing of range tokens, resolution of a list of
//! ranges against a file's line count, and the resulting canonical set of
//! accepted line intervals with its snip boundaries.
use vstd::prelude::*;

verus! {

/// One requested line range. `start`/`end` are 1-based; a negative value
/// counts from the end of the file; `None` means "from the first line" or
/// "to the last line". `context` widens the range symmetrically.
#[derive(Clone, Copy, PartialEq, Eq, Structural, Debug)]
pub struct LineRange {
    pub start: Option<i64>,
    pub end: Option<i64>,
    pub context: u32,
}

/// Why a range token was rejected: it is not of any accepted shape, or its
/// context field is not a non-negative integer. For a bad context the
/// offending format class (`N:M:C` when `bounded`, else `N::C`) is kept for
/// the report.
#[derive(Clone, Copy, PartialEq, Eq, Structural, Debug)]
pub enum RangeParseError {
    Syntax,
    Context { bounded: bool },
}

/// Decimal value of a digit sequence (most significant first).
pub open spec fn digits_val(s: Seq<char>) -> int
    decreases s.len(),
{
    if s.len() == 0 {
        0
    } else {
        digits_val(s.take(s.len() - 1)) * 10 + (s[s.len() - 1] as u32 - '0' as u32)
    }
}

pub open spec fn is_digit(c: char) -> bool {
    '0' <= c <= '9'
}

/// A non-empty run of decimal digits.
pub open spec fn is_digits(s: Seq<char>) -> bool {
    s.len() > 0 && forall|i: int| 0 <= i < s.len() ==> is_digit(s[i])
}

/// The integer a token denotes: an optional sign followed by digits.
pub open spec fn parse_int_spec(s: Seq<char>) -> Option<int> {
    if s.len() > 0 && s[0] == '-' {
        if is_digits(s.skip(1)) {
            Some(-digits_val(s.skip(1)))
        } else {
            None
        }
    } else if s.len() > 0 && s[0] == '+' {
        if is_digits(s.skip(1)) {
            Some(digits_val(s.skip(1)))
        } else {
            None
        }
    } else {
        if is_digits(s) {
            Some(digits_val(s))
        } else {
            None
        }
    }
}

/// Digit values only grow as more digits follow.
proof fn lemma_digits_val_mono(s: Seq<char>, k: int)
    requires
        0 <= k <= s.len(),
        forall|i: int| 0 <= i < s.len() ==> is_digit(s[i]),
    ensures
        digits_val(s) >= digits_val(s.take(k)),
        digits_val(s.take(k)) >= 0,
    decreases s.len() - k,
{
    if k == s.len() {
        assert(s.take(k) =~= s);
        lemma_digits_val_nonneg(s);
    } else {
        lemma_digits_val_mono(s, k + 1);
        let t = s.take(k + 1);
        assert(t.take(t.len() - 1) =~= s.take(k));
        assert(is_digit(s[k]));
        assert(digits_val(t) == digits_val(s.take(k)) * 10 + (s[k] as u32 - '0' as u32));
        lemma_digits_val_nonneg(s.take(k));
        assert(digits_val(s.take(k)) * 10 >= digits_val(s.take(k))) by (nonlinear_arith)
            requires
                digits_val(s.take(k)) >= 0,
        ;
    }
}

proof fn lemma_digits_val_nonneg(s: Seq<char>)
    requires
        forall|i: int| 0 <= i < s.len() ==> is_digit(s[i]),
    ensures
        digits_val(s) >= 0,
    decreases s.len(),
{
    if s.len() > 0 {
        assert(forall|i: int| 0 <= i < s.len() - 1 ==> is_digit(#[trigger] s.take(s.len() - 1)[i]));
        lemma_digits_val_nonneg(s.take(s.len() - 1));
        assert(is_digit(s[s.len() - 1]));
        assert(digits_val(s.take(s.len() - 1)) * 10 >= 0) by (nonlinear_arith)
            requires
                digits_val(s.take(s.len() - 1)) >= 0,
        ;
    }
}

/// Parse an unsigned digit run, giving up once the value exceeds `2^63`.
/// Returns the exact value, or `None` when the run is malformed or its value
/// exceeds `2^63`.
fn parse_digits_u(s: &[char]) -> (r: Option<u64>)
    ensures
        match r {
            Some(v) => is_digits(s@) && digits_val(s@) == v as int,
            None => !is_digits(s@) || digits_val(s@) > 0x8000000000000000,
        },
{
    if s.len() == 0 {
        return None;
    }
    let mut acc: u64 = 0;
    let mut i: usize = 0;
    proof {
        assert(s@.take(0) =~= Seq::<char>::empty());
    }
    while i < s.len()
        invariant
            0 < s@.len(),
            i <= s@.len(),
            forall|j: int| 0 <= j < i ==> is_digit(s@[j]),
            acc as int == digits_val(s@.take(i as int)),
            acc <= 0x8000000000000000,
        decreases s@.len() - i,
    {
        let c = s[i];
        if !('0' <= c && c <= '9') {
            return None;
        }
        let d: u64 = (c as u32 as u64) - ('0' as u32 as u64);
        if acc > 0xCCCCCCCCCCCCCCC {
            // acc * 10 would exceed 2^63; the value can only grow from here.
            proof {
                lemma_digits_val_mono_halt(s@, i as int, acc as int, d as int);
            }
            return None;
        }
        acc = acc * 10 + d;
        proof {
            assert(s@.take(i + 1 as int).take(i as int) =~= s@.take(i as int));
            assert(s@.take(i + 1 as int)[i as int] == s@[i as int]);
        }
        i = i + 1;
        if acc > 0x8000000000000000 {
            proof {
                assert(forall|j: int| 0 <= j < i ==> is_digit(s@[j]));
                if is_digits(s@) {
                    lemma_digits_val_mono(s@, i as int);
                }
            }
            return None;
        }
    }
    proof {
        assert(s@.take(s@.len() as int) =~= s@);
    }
    Some(acc)
}

/// If the prefix before index `i` already exceeds the bound after one more
/// digit, the whole digit run does.
proof fn lemma_digits_val_mono_halt(s: Seq<char>, i: int, acc: int, d: int)
    requires
        0 <= i < s.len(),
        acc == digits_val(s.take(i)),
        acc > 0xCCCCCCCCCCCCCCC,
        d >= 0,
        d == s[i] as u32 - '0' as u32,
        is_digit(s[i]),
        forall|j: int| 0 <= j < i ==> is_digit(s[j]),
    ensures
        !is_digits(s) || digits_val(s) > 0x8000000000000000,
{
    if is_digits(s) {
        lemma_digits_val_mono(s, i + 1);
        assert(s.take(i + 1).take(i) =~= s.take(i));
        assert(digits_val(s.take(i + 1)) == acc * 10 + d);
        assert(acc * 10 > 0x8000000000000000) by (nonlinear_arith)
            requires
                acc > 0xCCCCCCCCCCCCCCC,
        ;
    }
}

/// Parse a signed integer token into an `i64`. `None` when the token is
/// malformed or out of the `i64` range.
pub fn parse_i64_chars(s: &[char]) -> (r: Option<i64>)
    ensures
        match r {
            Some(v) => parse_int_spec(s@) == Some(v as int),
            None => parse_int_spec(s@) is None || parse_int_spec(s@)->0 > i64::MAX
                || parse_int_spec(s@)->0 < i64::MIN,
        },
{
    if s.len() == 0 {
        return None;
    }
    let c0 = s[0];
    if c0 == '-' {
        let rest = s.split_at(1).1;
        proof {
            assert(rest@ =~= s@.skip(1));
        }
        match parse_digits_u(rest) {
            Some(v) => {
                if v <= 0x8000000000000000 {
                    if v == 0x8000000000000000 {
                        Some(i64::MIN)
                    } else {
                        Some(-(v as i64))
                    }
                } else {
                    None
                }
            },
            None => None,
        }
    } else if c0 == '+' {
        let rest = s.split_at(1).1;
        proof {
            assert(rest@ =~= s@.skip(1));
        }
        match parse_digits_u(rest) {
            Some(v) => {
                if v <= i64::MAX as u64 {
                    Some(v as i64)
                } else {
                    None
                }
            },
            None => None,
        }
    } else {
        match parse_digits_u(s) {
            Some(v) => {
                if v <= i64::MAX as u64 {
                    Some(v as i64)
                } else {
                    None
                }
            },
            None => None,
        }
    }
}

/// Parse a context field: a non-empty digit run whose value fits a `u32`.
pub fn parse_u32_chars(s: &[char]) -> (r: Option<u32>)
    ensures
        match r {
            Some(v) => is_digits(s@) && digits_val(s@) == v as int,
            None => !is_digits(s@) || digits_val(s@) > u32::MAX,
        },
{
    match parse_digits_u(s) {
        Some(v) => {
            if v <= u32::MAX as u64 {
                Some(v as u32)
            } else {
                None
            }
        },
        None => None,
    }
}

} // verus!

verus! {

/// Index of the first `:` in `s`.
pub open spec fn find_colon(s: Seq<char>) -> Option<nat>
    decreases s.len(),
{
    if s.len() == 0 {
        None
    } else if s[0] == ':' {
        Some(0)
    } else {
        match find_colon(s.drop_first()) {
            Some(n) => Some((n + 1) as nat),
            None => None,
        }
    }
}

proof fn lemma_find_colon_le(s: Seq<char>)
    ensures
        find_colon(s) is Some ==> find_colon(s)->0 < s.len(),
    decreases s.len(),
{
    if s.len() > 0 && s[0] != ':' {
        lemma_find_colon_le(s.drop_first());
    }
}

/// The fields of a token, split on `:`.
pub open spec fn split_colon(s: Seq<char>) -> Seq<Seq<char>>
    decreases s.len(),
{
    match find_colon(s) {
        None => seq![s],
        Some(p) => {
            if p < s.len() {
                seq![s.take(p as int)] + split_colon(s.skip(p as int + 1))
            } else {
                seq![s]
            }
        },
    }
}

proof fn lemma_find_colon_none(s: Seq<char>)
    requires
        forall|k: int| 0 <= k < s.len() ==> s[k] != ':',
    ensures
        find_colon(s) is None,
    decreases s.len(),
{
    if s.len() > 0 {
        lemma_find_colon_none(s.drop_first());
    }
}

proof fn lemma_find_colon_at(s: Seq<char>, k: int)
    requires
        0 <= k < s.len(),
        s[k] == ':',
        forall|j: int| 0 <= j < k ==> s[j] != ':',
    ensures
        find_colon(s) == Some(k as nat),
    decreases s.len(),
{
    if k > 0 {
        lemma_find_colon_at(s.drop_first(), k - 1);
    }
}

/// Split a token into its `:`-separated fields.
pub fn split_colon_exec(s: &[char]) -> (parts: Vec<Vec<char>>)
    ensures
        parts.deep_view() == split_colon(s@),
{
    let mut parts: Vec<Vec<char>> = Vec::new();
    let mut start: usize = 0;
    let ghost mut rest: Seq<char> = s@;
    proof {
        assert(s@.skip(0) =~= s@);
    }
    loop
        invariant
            start <= s@.len(),
            rest == s@.skip(start as int),
            split_colon(s@) == parts.deep_view() + split_colon(rest),
        decreases s@.len() - start,
    {
        // find the next colon from `start` on
        let mut j: usize = start;
        while j < s.len() && s[j] != ':'
            invariant
                start <= j <= s@.len(),
                forall|k: int| start <= k < j ==> s@[k] != ':',
            decreases s@.len() - j,
        {
            j = j + 1;
        }
        let mut field: Vec<char> = Vec::new();
        let mut k: usize = start;
        while k < j
            invariant
                start <= k <= j <= s@.len(),
                field@ == s@.subrange(start as int, k as int),
            decreases j - k,
        {
            field.push(s[k]);
            proof {
                assert(s@.subrange(start as int, k as int).push(s@[k as int]) =~= s@.subrange(
                    start as int,
                    k + 1 as int,
                ));
            }
            k = k + 1;
        }
        if j >= s.len() {
            proof {
                assert forall|m: int| 0 <= m < rest.len() implies rest[m] != ':' by {
                    assert(rest[m] == s@[start + m]);
                }
                lemma_find_colon_none(rest);
                assert(split_colon(rest) == seq![rest]);
                assert(field@ =~= rest);
                assert(parts.deep_view().push(field@) =~= (parts.deep_view() + seq![rest]));
            }
            parts.push(field);
            proof {
                assert(parts.deep_view() =~~= split_colon(s@));
            }
            return parts;
        }
        proof {
            assert(rest[j - start] == s@[j as int]);
            assert forall|m: int| 0 <= m < j - start implies rest[m] != ':' by {
                assert(rest[m] == s@[start + m]);
            }
            lemma_find_colon_at(rest, j - start);
            assert(rest.take(j - start) =~= field@);
            assert(rest.skip(j - start + 1) =~= s@.skip(j + 1 as int));
            assert(split_colon(rest) == seq![field@] + split_colon(s@.skip(j + 1 as int)));
            assert(parts.deep_view().push(field@) + split_colon(s@.skip(j + 1 as int))
                =~~= parts.deep_view() + split_colon(rest));
        }
        let ghost dv_before = parts.deep_view();
        parts.push(field);
        start = j + 1;
        proof {
            rest = s@.skip(start as int);
            assert(parts.deep_view() =~~= dv_before.push(field@));
        }
    }
}

/// A bound field: empty means unbounded, otherwise it must be an integer
/// that fits an `i64`.
pub open spec fn bound_field(part: Seq<char>) -> Option<Option<i64>> {
    if part.len() == 0 {
        Some(None)
    } else {
        match parse_int_spec(part) {
            Some(v) => if i64::MIN <= v <= i64::MAX {
                Some(Some(v as i64))
            } else {
                None
            },
            None => None,
        }
    }
}

/// The range a token denotes. Accepted shapes: `N`, `N:M`, `N:`, `:M`,
/// `N::C` (line N with context C) and `N:M:C` (range with context C). A
/// malformed context field is reported with its format class; anything else
/// malformed is a syntax error.
pub open spec fn parse_range_spec(s: Seq<char>) -> Result<LineRange, RangeParseError> {
    let parts = split_colon(s);
    if parts.len() == 1 {
        match bound_field(parts[0]) {
            Some(Some(v)) => Ok(LineRange { start: Some(v), end: Some(v), context: 0 }),
            _ => Err(RangeParseError::Syntax),
        }
    } else if parts.len() == 2 {
        match (bound_field(parts[0]), bound_field(parts[1])) {
            (Some(a), Some(b)) => Ok(LineRange { start: a, end: b, context: 0 }),
            _ => Err(RangeParseError::Syntax),
        }
    } else if parts.len() == 3 {
        let bounded = parts[1].len() > 0;
        if !(is_digits(parts[2]) && digits_val(parts[2]) <= u32::MAX) {
            Err(RangeParseError::Context { bounded })
        } else {
            let c = digits_val(parts[2]) as u32;
            if bounded {
                match (bound_field(parts[0]), bound_field(parts[1])) {
                    (Some(a), Some(b)) => Ok(LineRange { start: a, end: b, context: c }),
                    _ => Err(RangeParseError::Syntax),
                }
            } else {
                match bound_field(parts[0]) {
                    Some(a) => Ok(LineRange { start: a, end: a, context: c }),
                    None => Err(RangeParseError::Syntax),
                }
            }
        }
    } else {
        Err(RangeParseError::Syntax)
    }
}

/// Parse one bound field.
fn bound_field_exec(part: &[char]) -> (r: Option<Option<i64>>)
    ensures
        r == bound_field(part@),
{
    if part.len() == 0 {
        return Some(None);
    }
    match parse_i64_chars(part) {
        Some(v) => Some(Some(v)),
        None => None,
    }
}

/// Parse one range token.
pub fn parse_range(s: &[char]) -> (r: Result<LineRange, RangeParseError>)
    ensures
        r == parse_range_spec(s@),
{
    let parts = split_colon_exec(s);
    proof {
        assert(parts.deep_view().len() == parts@.len());
    }
    if parts.len() == 1 {
        proof {
            assert(parts.deep_view()[0] == parts@[0]@);
        }
        match bound_field_exec(parts[0].as_slice()) {
            Some(Some(v)) => Ok(LineRange { start: Some(v), end: Some(v), context: 0 }),
            _ => Err(RangeParseError::Syntax),
        }
    } else if parts.len() == 2 {
        proof {
            assert(parts.deep_view()[0] == parts@[0]@);
            assert(parts.deep_view()[1] == parts@[1]@);
        }
        let a = bound_field_exec(parts[0].as_slice());
        let b = bound_field_exec(parts[1].as_slice());
        match (a, b) {
            (Some(a2), Some(b2)) => Ok(LineRange { start: a2, end: b2, context: 0 }),
            _ => Err(RangeParseError::Syntax),
        }
    } else if parts.len() == 3 {
        proof {
            assert(parts.deep_view()[0] == parts@[0]@);
            assert(parts.deep_view()[1] == parts@[1]@);
            assert(parts.deep_view()[2] == parts@[2]@);
        }
        let bounded = parts[1].len() > 0;
        match parse_u32_chars(parts[2].as_slice()) {
            None => Err(RangeParseError::Context { bounded }),
            Some(c) => {
                if bounded {
                    let a = bound_field_exec(parts[0].as_slice());
                    let b = bound_field_exec(parts[1].as_slice());
                    match (a, b) {
                        (Some(a2), Some(b2)) => Ok(
                            LineRange { start: a2, end: b2, context: c },
                        ),
                        _ => Err(RangeParseError::Syntax),
                    }
                } else {
                    match bound_field_exec(parts[0].as_slice()) {
                        Some(a) => Ok(LineRange { start: a, end: a, context: c }),
                        None => Err(RangeParseError::Syntax),
                    }
                }
            },
        }
    } else {
        Err(RangeParseError::Syntax)
    }
}

} // verus!

verus! {

/// The first line a range reaches (before clamping to the file), 1-based.
pub open spec fn range_lo(r: LineRange, n: nat) -> int {
    (match r.start {
        Option::None => 1,
        Option::Some(v) => if v < 0 {
            n + v + 1
        } else {
            v as int
        },
    }) - r.context
}

/// The last line a range reaches (before clamping to the file), 1-based. A
/// negative end leaves that many lines off the end of the file.
pub open spec fn range_hi(r: LineRange, n: nat) -> int {
    (match r.end {
        Option::None => n as int,
        Option::Some(v) => if v < 0 {
            n + v
        } else {
            v as int
        },
    }) + r.context
}

/// Whether line `l` of a file of `n` lines falls in the range.
pub open spec fn in_range(r: LineRange, n: nat, l: int) -> bool {
    1 <= l <= n && range_lo(r, n) <= l <= range_hi(r, n)
}

/// Whether any of the ranges selects line `l`.
pub open spec fn covered(rs: Seq<LineRange>, n: nat, l: int) -> bool {
    exists|i: int| 0 <= i < rs.len() && in_range(rs[i], n, l)
}

/// The canonical form of a set of selected lines: intervals with 1-based
/// inclusive bounds, sorted, non-overlapping and non-adjacent. The gaps
/// between consecutive intervals are the snip boundaries.
pub struct RangeSet {
    pub intervals: Vec<(u64, u64)>,
}

/// Well-formedness of an interval list: bounds ordered within each interval,
/// and a gap of at least one line between consecutive intervals.
pub open spec fn wf_intervals(iv: Seq<(u64, u64)>) -> bool {
    &&& forall|i: int| 0 <= i < iv.len() ==> 1 <= (#[trigger] iv[i]).0 <= iv[i].1
    &&& forall|i: int|
        0 <= i < iv.len() - 1 ==> (#[trigger] iv[i]).1 + 1 < iv[i + 1].0
}

/// Whether the interval list covers line `l`.
pub open spec fn iv_covers(iv: Seq<(u64, u64)>, l: int) -> bool {
    exists|i: int| 0 <= i < iv.len() && (#[trigger] iv[i]).0 <= l <= iv[i].1
}

/// In a well-formed list, intervals are strictly ordered with gaps even at a
/// distance.
pub proof fn lemma_wf_ordered(iv: Seq<(u64, u64)>, i: int, j: int)
    requires
        wf_intervals(iv),
        0 <= i < j < iv.len(),
    ensures
        iv[i].1 + 1 < iv[j].0,
    decreases j - i,
{
    if j == i + 1 {
    } else {
        lemma_wf_ordered(iv, i + 1, j);
    }
}

impl RangeSet {
    /// Whether this set selects line `l`.
    pub fn contains_line(&self, l: u64) -> (r: bool)
        ensures
            r == iv_covers(self.intervals@, l as int),
    {
        let mut i: usize = 0;
        while i < self.intervals.len()
            invariant
                i <= self.intervals@.len(),
                forall|j: int|
                    0 <= j < i ==> !((#[trigger] self.intervals@[j]).0 <= l <= self.intervals@[j].1),
            decreases self.intervals@.len() - i,
        {
            let (lo, hi) = self.intervals[i];
            if lo <= l && l <= hi {
                return true;
            }
            i = i + 1;
        }
        false
    }

    /// How many snip boundaries the set has: one between each pair of
    /// surviving intervals.
    pub fn snip_count(&self) -> (r: usize)
        ensures
            r == if self.intervals@.len() > 0 {
                self.intervals@.len() - 1
            } else {
                0int
            },
    {
        if self.intervals.len() > 0 {
            self.intervals.len() - 1
        } else {
            0
        }
    }
}

/// Whether `lo <= l <= hi`; a named predicate so that quantified coverage
/// facts have a term to trigger on.
pub open spec fn between(lo: int, hi: int, l: int) -> bool {
    lo <= l <= hi
}

/// Insert the interval `[lo, hi]` into a well-formed list, merging it with
/// every interval it overlaps or touches.
fn insert_interval(iv: &mut Vec<(u64, u64)>, lo: u64, hi: u64)
    requires
        wf_intervals(old(iv)@),
        1 <= lo <= hi,
    ensures
        wf_intervals(final(iv)@),
        forall|l: int|
            #[trigger] iv_covers(final(iv)@, l) <==> (iv_covers(old(iv)@, l) || between(
                lo as int,
                hi as int,
                l,
            )),
{
    let n = iv.len();
    let mut out: Vec<(u64, u64)> = Vec::new();
    let mut i: usize = 0;
    // copy the intervals that end with a gap before `lo`
    while i < n && iv[i].1 < lo - 1
        invariant
            n == iv@.len(),
            wf_intervals(iv@),
            1 <= lo <= hi,
            i <= n,
            out@ == iv@.take(i as int),
            forall|j: int| 0 <= j < i ==> (#[trigger] iv@[j]).1 + 1 < lo,
        decreases n - i,
    {
        out.push(iv[i]);
        proof {
            assert(iv@.take(i as int).push(iv@[i as int]) =~= iv@.take(i + 1 as int));
        }
        i = i + 1;
    }
    let ghost p1 = i as int;
    // absorb every interval that overlaps or touches the growing interval
    let mut nlo: u64 = lo;
    let mut nhi: u64 = hi;
    while i < n && iv[i].0 - 1 <= nhi
        invariant
            n == iv@.len(),
            wf_intervals(iv@),
            1 <= lo <= hi,
            0 <= p1 <= i <= n,
            p1 == n || iv@[p1 as int].1 + 1 >= lo,
            1 <= nlo <= lo,
            hi <= nhi,
            nlo == lo || exists|j: int| p1 <= j < i && (#[trigger] iv@[j]).0 == nlo,
            forall|l: int|
                #[trigger] between(nlo as int, nhi as int, l) <==> (between(lo as int, hi as int, l)
                    || exists|j: int| p1 <= j < i && (#[trigger] iv@[j]).0 <= l <= iv@[j].1),
        decreases n - i,
    {
        let (a, b) = iv[i];
        let ghost old_nlo = nlo as int;
        let ghost old_nhi = nhi as int;
        if a < nlo {
            nlo = a;
        }
        if b > nhi {
            nhi = b;
        }
        proof {
            assert(1 <= iv@[i as int].0 <= iv@[i as int].1);
            assert forall|l: int| #[trigger] between(nlo as int, nhi as int, l) implies (between(
                lo as int,
                hi as int,
                l,
            ) || exists|j: int| p1 <= j < i + 1 && (#[trigger] iv@[j]).0 <= l <= iv@[j].1) by {
                if between(old_nlo, old_nhi, l) {
                    if !between(lo as int, hi as int, l) {
                        let j = choose|j: int|
                            p1 <= j < i && (#[trigger] iv@[j]).0 <= l <= iv@[j].1;
                        assert(p1 <= j < i + 1 && iv@[j].0 <= l <= iv@[j].1);
                    }
                } else {
                    if i > p1 {
                        lemma_wf_ordered(iv@, p1, i as int);
                    }
                    assert(iv@[i as int].1 + 1 >= lo);
                    assert(iv@[i as int].0 <= l <= iv@[i as int].1);
                }
            }
            assert forall|l: int| (between(lo as int, hi as int, l) || exists|j: int|
                p1 <= j < i + 1 && (#[trigger] iv@[j]).0 <= l <= iv@[j].1) implies #[trigger] between(
                nlo as int,
                nhi as int,
                l,
            ) by {
                if between(lo as int, hi as int, l) {
                    assert(between(old_nlo, old_nhi, l));
                } else {
                    let j = choose|j: int| p1 <= j < i + 1 && (#[trigger] iv@[j]).0 <= l <= iv@[j].1;
                    if j < i {
                        assert(between(old_nlo, old_nhi, l));
                    }
                }
            }
        }
        i = i + 1;
    }
    let ghost p2 = i as int;
    out.push((nlo, nhi));
    // copy the rest unchanged
    while i < n
        invariant
            n == iv@.len(),
            0 <= p1 <= p2 <= i <= n,
            out@ == iv@.take(p1) + seq![(nlo, nhi)] + iv@.subrange(p2, i as int),
        decreases n - i,
    {
        out.push(iv[i]);
        proof {
            assert((iv@.take(p1) + seq![(nlo, nhi)] + iv@.subrange(p2, i as int)).push(
                iv@[i as int],
            ) =~= iv@.take(p1) + seq![(nlo, nhi)] + iv@.subrange(p2, i + 1 as int));
        }
        i = i + 1;
    }
    proof {
        assert(out@ == iv@.take(p1) + seq![(nlo, nhi)] + iv@.subrange(p2, n as int)) by {
            if p2 == n {
                assert(iv@.subrange(p2, n as int) =~= Seq::<(u64, u64)>::empty());
                assert(iv@.take(p1) + seq![(nlo, nhi)] + iv@.subrange(p2, n as int) =~= iv@.take(p1)
                    + seq![(nlo, nhi)]);
            }
        }
        let res = out@;
        // well-formedness of the pieces
        assert forall|k: int| 0 <= k < res.len() implies 1 <= (#[trigger] res[k]).0 <= res[k].1 by {
            if k < p1 {
                assert(res[k] == iv@[k]);
            } else if k == p1 {
            } else {
                assert(res[k] == iv@[p2 + (k - p1 - 1)]);
            }
        }
        assert forall|k: int| 0 <= k < res.len() - 1 implies (#[trigger] res[k]).1 + 1 < res[k
            + 1].0 by {
            if k + 1 < p1 {
                assert(res[k] == iv@[k] && res[k + 1] == iv@[k + 1]);
            } else if k + 1 == p1 {
                assert(res[k] == iv@[k]);
                assert(iv@[k].1 + 1 < lo);
                if nlo != lo {
                    let j = choose|j: int| p1 <= j < p2 && (#[trigger] iv@[j]).0 == nlo;
                    lemma_wf_ordered(iv@, k, j);
                }
            } else if k == p1 {
                assert(res[k] == (nlo, nhi));
                if p2 < n {
                    assert(res[k + 1] == iv@[p2]);
                    assert(iv@[p2].0 - 1 > nhi);
                }
            } else {
                assert(res[k] == iv@[p2 + (k - p1 - 1)]);
                assert(res[k + 1] == iv@[p2 + (k - p1)]);
                lemma_wf_ordered(iv@, p2 + (k - p1 - 1), p2 + (k - p1));
            }
        }
        // coverage in both directions
        assert forall|l: int| #[trigger] iv_covers(res, l) implies (iv_covers(iv@, l) || between(
            lo as int,
            hi as int,
            l,
        )) by {
            let k = choose|k: int| 0 <= k < res.len() && (#[trigger] res[k]).0 <= l <= res[k].1;
            if k < p1 {
                assert(res[k] == iv@[k]);
                assert(iv_covers(iv@, l));
            } else if k == p1 {
                assert(between(nlo as int, nhi as int, l));
                if !between(lo as int, hi as int, l) {
                    let j = choose|j: int| p1 <= j < p2 && (#[trigger] iv@[j]).0 <= l <= iv@[j].1;
                    assert(iv_covers(iv@, l));
                }
            } else {
                assert(res[k] == iv@[p2 + (k - p1 - 1)]);
                assert(iv_covers(iv@, l));
            }
        }
        assert forall|l: int| iv_covers(iv@, l) || between(lo as int, hi as int, l) implies #[trigger] iv_covers(
            res,
            l,
        ) by {
            if between(lo as int, hi as int, l) {
                assert(between(nlo as int, nhi as int, l));
                assert(res[p1].0 <= l <= res[p1].1);
            } else {
                let k = choose|k: int| 0 <= k < iv@.len() && (#[trigger] iv@[k]).0 <= l <= iv@[k].1;
                if k < p1 {
                    assert(res[k] == iv@[k]);
                    assert(res[k].0 <= l <= res[k].1);
                } else if k < p2 {
                    assert(between(nlo as int, nhi as int, l));
                    assert(res[p1].0 <= l <= res[p1].1);
                } else {
                    assert(res[p1 + 1 + (k - p2)] == iv@[k]);
                }
            }
        }
    }
    *iv = out;
}


/// Resolve a list of ranges against a file of `n` lines into the canonical
/// interval set: exactly the lines some range selects are covered, and the
/// intervals are sorted, non-overlapping and non-adjacent.
#[verifier::rlimit(100)]
pub fn resolve_ranges(ranges: &[LineRange], n: u64) -> (rs: RangeSet)
    ensures
        wf_intervals(rs.intervals@),
        forall|l: int|
            #[trigger] iv_covers(rs.intervals@, l) <==> covered(ranges@, n as nat, l),
{
    let mut iv: Vec<(u64, u64)> = Vec::new();
    let mut k: usize = 0;
    while k < ranges.len()
        invariant
            k <= ranges@.len(),
            wf_intervals(iv@),
            forall|l: int|
                #[trigger] iv_covers(iv@, l) <==> covered(ranges@.take(k as int), n as nat, l),
        decreases ranges@.len() - k,
    {
        let r = ranges[k];
        // exact bounds in wide arithmetic, then clamped to the file
        let lo0: i128 = (match r.start {
            Option::Some(v) => if v < 0 {
                n as i128 + v as i128 + 1
            } else {
                v as i128
            },
            Option::None => 1,
        }) - r.context as i128;
        let hi0: i128 = (match r.end {
            Option::Some(v) => if v < 0 {
                n as i128 + v as i128
            } else {
                v as i128
            },
            Option::None => n as i128,
        }) + r.context as i128;
        proof {
            assert(lo0 == range_lo(r, n as nat));
            assert(hi0 == range_hi(r, n as nat));
        }
        let lo1: i128 = if lo0 < 1 {
            1
        } else {
            lo0
        };
        let hi1: i128 = if hi0 > n as i128 {
            n as i128
        } else {
            hi0
        };
        let ghost iv_old = iv@;
        if lo1 <= hi1 && n > 0 {
            let lo2: u64 = lo1 as u64;
            let hi2: u64 = hi1 as u64;
            insert_interval(&mut iv, lo2, hi2);
            proof {
                assert forall|l: int| #[trigger] iv_covers(iv@, l) <==> covered(
                    ranges@.take(k + 1 as int),
                    n as nat,
                    l,
                ) by {
                    assert(ranges@.take(k + 1 as int)[k as int] == r);
                    assert(forall|j: int|
                        0 <= j < k ==> ranges@.take(k + 1 as int)[j] == ranges@.take(k as int)[j]);
                    if iv_covers(iv@, l) {
                        if iv_covers(iv_old, l) {
                            let j = choose|j: int|
                                0 <= j < k && in_range(#[trigger] ranges@.take(k as int)[j],
                                    n as nat, l);
                            assert(in_range(ranges@.take(k + 1 as int)[j], n as nat, l));
                        } else {
                            assert(lo2 <= l <= hi2);
                            assert(in_range(r, n as nat, l));
                        }
                    }
                    if covered(ranges@.take(k + 1 as int), n as nat, l) {
                        let j = choose|j: int|
                            0 <= j < k + 1 && in_range(#[trigger] ranges@.take(k + 1 as int)[j],
                                n as nat, l);
                        if j < k {
                            assert(in_range(ranges@.take(k as int)[j], n as nat, l));
                            assert(iv_covers(iv_old, l));
                        } else {
                            assert(in_range(r, n as nat, l));
                            assert(lo2 <= l <= hi2);
                        }
                    }
                }
            }
        } else {
            proof {
                assert forall|l: int| #[trigger] iv_covers(iv@, l) <==> covered(
                    ranges@.take(k + 1 as int),
                    n as nat,
                    l,
                ) by {
                    assert(ranges@.take(k + 1 as int)[k as int] == r);
                    assert(forall|j: int|
                        0 <= j < k ==> ranges@.take(k + 1 as int)[j] == ranges@.take(k as int)[j]);
                    assert(!(exists|l2: int| in_range(r, n as nat, l2) && l2 == l));
                    if covered(ranges@.take(k + 1 as int), n as nat, l) {
                        let j = choose|j: int|
                            0 <= j < k + 1 && in_range(#[trigger] ranges@.take(k + 1 as int)[j],
                                n as nat, l);
                        if j < k {
                            assert(in_range(ranges@.take(k as int)[j], n as nat, l));
                        } else {
                            assert(in_range(r, n as nat, l));
                            assert(false);
                        }
                    }
                    if iv_covers(iv@, l) {
                        let j = choose|j: int|
                            0 <= j < k && in_range(#[trigger] ranges@.take(k as int)[j],
                                n as nat, l);
                        assert(in_range(ranges@.take(k + 1 as int)[j], n as nat, l));
                    }
                }
            }
        }
        k = k + 1;
    }
    proof {
        assert(ranges@.take(ranges@.len() as int) =~= ranges@);
    }
    RangeSet { intervals: iv }
}

} // verus!

verus! {

/// A well-formed interval list is canonical: two well-formed lists that
/// cover the same lines are identical. This is what makes merging
/// idempotent — the resolved set is determined by the selected lines alone.
#[verifier::rlimit(100)]
pub proof fn lemma_rangeset_canonical(a: Seq<(u64, u64)>, b: Seq<(u64, u64)>)
    requires
        wf_intervals(a),
        wf_intervals(b),
        forall|l: int| #[trigger] iv_covers(a, l) <==> iv_covers(b, l),
    ensures
        a == b,
    decreases a.len(),
{
    if a.len() == 0 {
        if b.len() > 0 {
            let l = b[0].0 as int;
            assert(iv_covers(b, l));
            assert(iv_covers(a, l));
            assert(false);
        }
        assert(a =~= b);
    } else if b.len() == 0 {
        let l = a[0].0 as int;
        assert(iv_covers(a, l));
        assert(iv_covers(b, l));
        assert(false);
    } else {
        // the first intervals start together
        assert(a[0].0 == b[0].0) by {
            if a[0].0 < b[0].0 {
                let l = a[0].0 as int;
                assert(iv_covers(a, l));
                assert(iv_covers(b, l));
                let k = choose|k: int| 0 <= k < b.len() && (#[trigger] b[k]).0 <= l <= b[k].1;
                if k > 0 {
                    lemma_wf_ordered(b, 0, k);
                }
                assert(false);
            }
            if b[0].0 < a[0].0 {
                let l = b[0].0 as int;
                assert(iv_covers(b, l));
                assert(iv_covers(a, l));
                let k = choose|k: int| 0 <= k < a.len() && (#[trigger] a[k]).0 <= l <= a[k].1;
                if k > 0 {
                    lemma_wf_ordered(a, 0, k);
                }
                assert(false);
            }
        }
        // and end together
        assert(a[0].1 == b[0].1) by {
            if a[0].1 < b[0].1 {
                let l = a[0].1 + 1;
                assert(iv_covers(b, l));
                assert(iv_covers(a, l));
                let k = choose|k: int| 0 <= k < a.len() && (#[trigger] a[k]).0 <= l <= a[k].1;
                if k > 0 {
                    lemma_wf_ordered(a, 0, k);
                }
                assert(false);
            }
            if b[0].1 < a[0].1 {
                let l = b[0].1 + 1;
                assert(iv_covers(a, l));
                assert(iv_covers(b, l));
                let k = choose|k: int| 0 <= k < b.len() && (#[trigger] b[k]).0 <= l <= b[k].1;
                if k > 0 {
                    lemma_wf_ordered(b, 0, k);
                }
                assert(false);
            }
        }
        let ta = a.drop_first();
        let tb = b.drop_first();
        assert(wf_intervals(ta)) by {
            assert(forall|i: int| 0 <= i < ta.len() ==> ta[i] == a[i + 1]);
        }
        assert(wf_intervals(tb)) by {
            assert(forall|i: int| 0 <= i < tb.len() ==> tb[i] == b[i + 1]);
        }
        assert forall|l: int| #[trigger] iv_covers(ta, l) <==> iv_covers(tb, l) by {
            if iv_covers(ta, l) {
                lemma_tail_coverage(a, b, l);
            }
            if iv_covers(tb, l) {
                lemma_tail_coverage(b, a, l);
            }
        }
        lemma_rangeset_canonical(ta, tb);
        assert(a.len() == b.len());
        assert forall|i: int| 0 <= i < a.len() implies a[i] == b[i] by {
            if i > 0 {
                assert(a[i] == ta[i - 1]);
                assert(b[i] == tb[i - 1]);
            }
        }
        assert(a =~= b);
    }
}

/// If the tails cover `l`, the whole lists do, and `l` lies beyond the
/// common first interval, so the other tail covers it too.
proof fn lemma_tail_coverage(a: Seq<(u64, u64)>, b: Seq<(u64, u64)>, l: int)
    requires
        wf_intervals(a),
        wf_intervals(b),
        a.len() > 0,
        b.len() > 0,
        a[0] == b[0],
        forall|l2: int| #[trigger] iv_covers(a, l2) <==> iv_covers(b, l2),
        iv_covers(a.drop_first(), l),
    ensures
        iv_covers(b.drop_first(), l),
{
    let ta = a.drop_first();
    let k = choose|k: int| 0 <= k < ta.len() && (#[trigger] ta[k]).0 <= l <= ta[k].1;
    assert(ta[k] == a[k + 1]);
    lemma_wf_ordered(a, 0, k + 1);
    assert(l > a[0].1 + 1 - 1);
    assert(iv_covers(a, l));
    assert(iv_covers(b, l));
    let m = choose|m: int| 0 <= m < b.len() && (#[trigger] b[m]).0 <= l <= b[m].1;
    if m == 0 {
        assert(l <= b[0].1);
        assert(false);
    }
    assert(b.drop_first()[m - 1] == b[m]);
    assert(iv_covers(b.drop_first(), l));
}

/// Repeating the very same ranges selects the very same lines.
pub proof fn lemma_covered_twice(rs: Seq<LineRange>, n: nat, l: int)
    ensures
        covered(rs + rs, n, l) == covered(rs, n, l),
{
    if covered(rs + rs, n, l) {
        let i = choose|i: int| 0 <= i < (rs + rs).len() && in_range(#[trigger] (rs + rs)[i], n, l);
        if i < rs.len() {
            assert((rs + rs)[i] == rs[i]);
            assert(covered(rs, n, l));
        } else {
            assert((rs + rs)[i] == rs[i - rs.len()]);
            assert(covered(rs, n, l));
        }
    }
    if covered(rs, n, l) {
        let i = choose|i: int| 0 <= i < rs.len() && in_range(#[trigger] rs[i], n, l);
        assert((rs + rs)[i] == rs[i]);
        assert(covered(rs + rs, n, l));
    }
}

/// Resolving a list of ranges and resolving that list given twice over yield
/// the very same interval set: any two well-formed interval lists whose
/// coverage matches the ranges, respectively the doubled ranges, are equal.
pub proof fn lemma_resolve_idempotent(
    iv1: Seq<(u64, u64)>,
    iv2: Seq<(u64, u64)>,
    rs: Seq<LineRange>,
    n: nat,
)
    requires
        wf_intervals(iv1),
        wf_intervals(iv2),
        forall|l: int| #[trigger] iv_covers(iv1, l) <==> covered(rs, n, l),
        forall|l: int| #[trigger] iv_covers(iv2, l) <==> covered(rs + rs, n, l),
    ensures
        iv1 == iv2,
{
    assert forall|l: int| #[trigger] iv_covers(iv1, l) <==> iv_covers(iv2, l) by {
        lemma_covered_twice(rs, n, l);
    }
    lemma_rangeset_canonical(iv1, iv2);
}

} // verus!

verus! {

/// The canonical interval list for a list of ranges: the unique well-formed
/// list covering exactly the selected lines.
pub open spec fn canonical_intervals(rs: Seq<LineRange>, n: nat) -> Seq<(u64, u64)> {
    choose|iv: Seq<(u64, u64)>|
        wf_intervals(iv) && (forall|l: int| #[trigger] iv_covers(iv, l) <==> covered(rs, n, l))
}

/// What `resolve_ranges` returns is the canonical interval list.
pub proof fn lemma_resolved_is_canonical(iv: Seq<(u64, u64)>, rs: Seq<LineRange>, n: nat)
    requires
        wf_intervals(iv),
        forall|l: int| #[trigger] iv_covers(iv, l) <==> covered(rs, n, l),
    ensures
        iv == canonical_intervals(rs, n),
{
    let civ = canonical_intervals(rs, n);
    assert(wf_intervals(civ) && (forall|l: int|
        #[trigger] iv_covers(civ, l) <==> covered(rs, n, l))) by {
        assert(wf_intervals(iv) && (forall|l: int|
            #[trigger] iv_covers(iv, l) <==> covered(rs, n, l)));
    }
    assert forall|l: int| #[trigger] iv_covers(iv, l) <==> iv_covers(civ, l) by {}
    lemma_rangeset_canonical(iv, civ);
}

/// Resolve ranges and get the canonical interval set, with the empty range
/// list meaning the whole file.
pub fn resolve_ranges_or_all(ranges: &[LineRange], n: u64) -> (rs: RangeSet)
    ensures
        wf_intervals(rs.intervals@),
        rs.intervals@ == canonical_intervals(effective_ranges(ranges@), n as nat),
        forall|l: int|
            #[trigger] iv_covers(rs.intervals@, l) <==> covered(
                effective_ranges(ranges@),
                n as nat,
                l,
            ),
{
    let rs = if ranges.len() == 0 {
        let full: [LineRange; 1] = [LineRange { start: None, end: None, context: 0 }];
        let r = resolve_ranges(full.as_slice(), n);
        proof {
            assert(full@ =~= effective_ranges(ranges@));
        }
        r
    } else {
        resolve_ranges(ranges, n)
    };
    proof {
        lemma_resolved_is_canonical(
            rs.intervals@,
            effective_ranges(ranges@),
            n as nat,
        );
    }
    rs
}

/// An empty range list selects the whole file.
pub open spec fn effective_ranges(rs: Seq<LineRange>) -> Seq<LineRange> {
    if rs.len() == 0 {
        seq![LineRange { start: None, end: None, context: 0u32 }]
    } else {
        rs
    }
}

} // verus!
