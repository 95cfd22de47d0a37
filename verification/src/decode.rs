//! Input decoding: byte-order-mark detection, UTF-8 and UTF-16 (either
//! endianness) to the internal character form, binary sniffing, and the
//! split into source lines.
use vstd::prelude::*;
use vstd::utf8::char_u32_cast;
use vstd::utf8::valid_utf8;
use vstd::utf8::decode_utf8;
use crate::chars::char_from_u32;
use crate::layout::SourceLine;

verus! {

/// The encoding a byte-order mark announces.
#[derive(Clone, Copy, PartialEq, Eq, Structural, Debug)]
pub enum TextEncoding {
    Utf8,
    Utf16Le,
    Utf16Be,
}

/// The encoding the first bytes announce: `FF FE` means UTF-16 little
/// endian, `FE FF` big endian, anything else UTF-8 (a UTF-8 mark decodes to
/// the mark character by itself).
pub open spec fn detect_encoding_spec(b: Seq<u8>) -> TextEncoding {
    if b.len() >= 2 && b[0] == 0xFF && b[1] == 0xFE {
        TextEncoding::Utf16Le
    } else if b.len() >= 2 && b[0] == 0xFE && b[1] == 0xFF {
        TextEncoding::Utf16Be
    } else {
        TextEncoding::Utf8
    }
}

/// Detect the announced encoding.
pub fn detect_encoding(b: &[u8]) -> (r: TextEncoding)
    ensures
        r == detect_encoding_spec(b@),
{
    if b.len() >= 2 && b[0] == 0xFF && b[1] == 0xFE {
        TextEncoding::Utf16Le
    } else if b.len() >= 2 && b[0] == 0xFE && b[1] == 0xFF {
        TextEncoding::Utf16Be
    } else {
        TextEncoding::Utf8
    }
}

/// Relies on `std::str::from_utf8`: succeeds exactly on valid UTF-8 and
/// yields the decoded characters.
#[verifier::external_body]
fn utf8_to_string(b: &[u8]) -> (r: Option<String>)
    ensures
        match r {
            Option::Some(s) => valid_utf8(b@) && s@ == decode_utf8(b@),
            Option::None => !valid_utf8(b@),
        },
{
    match std::str::from_utf8(b) {
        Ok(s) => Some(s.to_string()),
        Err(_) => None,
    }
}

/// Decode UTF-8 bytes, or report that they are not valid UTF-8.
pub fn decode_utf8_chars(b: &[u8]) -> (r: Option<Vec<char>>)
    ensures
        match r {
            Option::Some(cs) => valid_utf8(b@) && cs@ == decode_utf8(b@),
            Option::None => !valid_utf8(b@),
        },
{
    match utf8_to_string(b) {
        Option::Some(s) => Option::Some(crate::chars::str_to_chars(s.as_str())),
        Option::None => Option::None,
    }
}

/// The 16-bit code unit at position `i` under the given byte order.
pub open spec fn unit_at(b: Seq<u8>, i: int, le: bool) -> int {
    if le {
        b[2 * i] + 256 * b[2 * i + 1]
    } else {
        256 * b[2 * i] + b[2 * i + 1]
    }
}

/// The code units of an even-length byte sequence.
pub open spec fn utf16_units(b: Seq<u8>, le: bool) -> Seq<int> {
    Seq::new((b.len() / 2) as nat, |i: int| unit_at(b, i, le))
}

pub open spec fn is_high_surrogate(u: int) -> bool {
    0xD800 <= u < 0xDC00
}

pub open spec fn is_low_surrogate(u: int) -> bool {
    0xDC00 <= u < 0xE000
}

/// Decode a sequence of UTF-16 code units: a high surrogate must pair with
/// a following low surrogate, a lone surrogate of either kind is an error,
/// every other unit is its own character.
pub open spec fn decode_units_spec(us: Seq<int>) -> Option<Seq<char>>
    decreases us.len(),
{
    if us.len() == 0 {
        Some(Seq::empty())
    } else if is_high_surrogate(us[0]) {
        if us.len() >= 2 && is_low_surrogate(us[1]) {
            let c = 0x10000 + (us[0] - 0xD800) * 0x400 + (us[1] - 0xDC00);
            match decode_units_spec(us.skip(2)) {
                Some(cs) => Some(seq![(c as u32) as char] + cs),
                None => None,
            }
        } else {
            None
        }
    } else if is_low_surrogate(us[0]) {
        None
    } else {
        match decode_units_spec(us.skip(1)) {
            Some(cs) => Some(seq![(us[0] as u32) as char] + cs),
            None => None,
        }
    }
}

/// What decoding UTF-16 bytes yields: an error on an odd byte count,
/// otherwise the decoded code units.
pub open spec fn decode_utf16_spec(b: Seq<u8>, le: bool) -> Option<Seq<char>> {
    if b.len() % 2 != 0 {
        None
    } else {
        decode_units_spec(utf16_units(b, le))
    }
}

/// Decode UTF-16 bytes of the given byte order.
pub fn decode_utf16_chars(b: &[u8], le: bool) -> (r: Option<Vec<char>>)
    ensures
        match r {
            Option::Some(cs) => decode_utf16_spec(b@, le) == Some(cs@),
            Option::None => decode_utf16_spec(b@, le) is None,
        },
{
    let n = b.len();
    if n % 2 != 0 {
        return None;
    }
    let ghost us = utf16_units(b@, le);
    let mut out: Vec<char> = Vec::new();
    let mut i: usize = 0;
    proof {
        assert(us.skip(0) =~= us);
        assert(us.len() == b@.len() / 2);
    }
    while i < n / 2
        invariant
            n == b@.len(),
            n % 2 == 0,
            i <= n / 2,
            us == utf16_units(b@, le),
            us.len() == n / 2,
            decode_units_spec(us) == match decode_units_spec(us.skip(i as int)) {
                Option::Some(cs) => Option::Some(out@ + cs),
                Option::None => None::<Seq<char>>,
            },
        decreases n / 2 - i,
    {
        let u: u32 = if le {
            (b[2 * i] as u32) + 256 * (b[2 * i + 1] as u32)
        } else {
            256 * (b[2 * i] as u32) + (b[2 * i + 1] as u32)
        };
        proof {
            assert(u == unit_at(b@, i as int, le));
            assert(us.skip(i as int)[0] == us[i as int]);
            assert(us[i as int] == unit_at(b@, i as int, le));
        }
        if 0xD800 <= u && u < 0xDC00 {
            if i + 1 < n / 2 {
                let u2: u32 = if le {
                    (b[2 * (i + 1)] as u32) + 256 * (b[2 * (i + 1) + 1] as u32)
                } else {
                    256 * (b[2 * (i + 1)] as u32) + (b[2 * (i + 1) + 1] as u32)
                };
                proof {
                    assert(u2 == unit_at(b@, i + 1 as int, le));
                    assert(us.skip(i as int)[1] == us[i + 1]);
                }
                if 0xDC00 <= u2 && u2 < 0xE000 {
                    let cv: u32 = 0x10000 + (u - 0xD800) * 0x400 + (u2 - 0xDC00);
                    let c = char_from_u32(cv);
                    proof {
                        char_u32_cast(c, cv);
                    }
                    out.push(c);
                    proof {
                        assert(us.skip(i as int).skip(2) =~= us.skip(i + 2 as int));
                    }
                    i = i + 2;
                } else {
                    proof {
                        assert(decode_units_spec(us.skip(i as int)) is None);
                    }
                    return None;
                }
            } else {
                proof {
                    assert(us.skip(i as int).len() < 2);
                    assert(decode_units_spec(us.skip(i as int)) is None);
                }
                return None;
            }
        } else if 0xDC00 <= u && u < 0xE000 {
            proof {
                assert(decode_units_spec(us.skip(i as int)) is None);
            }
            return None;
        } else {
            let c = char_from_u32(u);
            proof {
                char_u32_cast(c, u);
            }
            out.push(c);
            proof {
                assert(us.skip(i as int).skip(1) =~= us.skip(i + 1 as int));
            }
            i = i + 1;
        }
    }
    proof {
        assert(us.skip((n / 2) as int).len() == 0);
        assert(decode_units_spec(us.skip((n / 2) as int)) == Some(Seq::<char>::empty()));
        assert(out@ + Seq::<char>::empty() =~= out@);
    }
    Some(out)
}

/// What a full decode yields: the encoding from the byte-order mark, its
/// mark bytes dropped for UTF-16, and a leading mark character dropped when
/// `strip_mark` is set.
pub open spec fn decode_input_spec(b: Seq<u8>, strip_mark: bool) -> Option<Seq<char>> {
    let chars = match detect_encoding_spec(b) {
        TextEncoding::Utf8 => if valid_utf8(b) {
            Some(decode_utf8(b))
        } else {
            None
        },
        TextEncoding::Utf16Le => decode_utf16_spec(b.skip(2), true),
        TextEncoding::Utf16Be => decode_utf16_spec(b.skip(2), false),
    };
    match chars {
        Some(cs) => if strip_mark && cs.len() >= 1 && cs[0] == '\u{feff}' {
            Some(cs.skip(1))
        } else {
            Some(cs)
        },
        None => None,
    }
}

/// Decode one input's bytes. With `strip_mark` a leading byte-order-mark
/// character is removed (decorated or colored output); without it the mark
/// survives verbatim (raw passthrough).
pub fn decode_input(b: &[u8], strip_mark: bool) -> (r: Option<Vec<char>>)
    ensures
        match r {
            Option::Some(cs) => decode_input_spec(b@, strip_mark) == Some(cs@),
            Option::None => decode_input_spec(b@, strip_mark) is None,
        },
{
    let enc = detect_encoding(b);
    let decoded: Option<Vec<char>> = match enc {
        TextEncoding::Utf8 => decode_utf8_chars(b),
        TextEncoding::Utf16Le => {
            let rest = b.split_at(2).1;
            proof {
                assert(rest@ =~= b@.skip(2));
            }
            decode_utf16_chars(rest, true)
        },
        TextEncoding::Utf16Be => {
            let rest = b.split_at(2).1;
            proof {
                assert(rest@ =~= b@.skip(2));
            }
            decode_utf16_chars(rest, false)
        },
    };
    match decoded {
        Option::Some(cs) => {
            if strip_mark && cs.len() >= 1 && cs[0] == '\u{feff}' {
                let rest = cs.split_at(1).1;
                let mut out: Vec<char> = Vec::new();
                crate::chars::append_chars(&mut out, rest);
                proof {
                    assert(out@ =~= cs@.skip(1));
                }
                Option::Some(out)
            } else {
                Option::Some(cs)
            }
        },
        Option::None => Option::None,
    }
}

/// Whether the first kilobyte holds a NUL byte: the binary classification.
pub open spec fn looks_binary_spec(b: Seq<u8>) -> bool {
    exists|i: int| 0 <= i < b.len() && i < 1024 && b[i] == 0
}

/// Classify content as binary by NUL bytes near the start.
pub fn looks_binary(b: &[u8]) -> (r: bool)
    ensures
        r == looks_binary_spec(b@),
{
    let n: usize = if b.len() < 1024 {
        b.len()
    } else {
        1024
    };
    let mut i: usize = 0;
    while i < n
        invariant
            n <= b@.len(),
            n == if b@.len() < 1024 {
                b@.len() as int
            } else {
                1024
            },
            i <= n,
            forall|j: int| 0 <= j < i ==> b@[j] != 0,
        decreases n - i,
    {
        if b[i] == 0 {
            return true;
        }
        i = i + 1;
    }
    false
}

/// Index of the first line feed.
pub open spec fn find_nl(s: Seq<char>) -> Option<nat>
    decreases s.len(),
{
    if s.len() == 0 {
        None
    } else if s[0] == '\n' {
        Some(0)
    } else {
        match find_nl(s.drop_first()) {
            Some(n) => Some((n + 1) as nat),
            None => None,
        }
    }
}

/// The lines of a character stream: the text before each line feed with a
/// mark that the feed was there, and a final unterminated line when
/// characters remain.
pub open spec fn split_lines_spec(s: Seq<char>) -> Seq<(Seq<char>, bool)>
    decreases s.len(),
{
    if s.len() == 0 {
        Seq::empty()
    } else {
        match find_nl(s) {
            Some(p) => if p < s.len() {
                seq![(s.take(p as int), true)] + split_lines_spec(s.skip(p as int + 1))
            } else {
                seq![(s, false)]
            },
            None => seq![(s, false)],
        }
    }
}

/// The spec view of a line list.
pub open spec fn lines_view(lines: Seq<SourceLine>) -> Seq<(Seq<char>, bool)> {
    lines.map_values(|l: SourceLine| (l.text@, l.newline))
}

proof fn lemma_find_nl_none(s: Seq<char>)
    requires
        forall|k: int| 0 <= k < s.len() ==> s[k] != '\n',
    ensures
        find_nl(s) is None,
    decreases s.len(),
{
    if s.len() > 0 {
        lemma_find_nl_none(s.drop_first());
    }
}

proof fn lemma_find_nl_at(s: Seq<char>, k: int)
    requires
        0 <= k < s.len(),
        s[k] == '\n',
        forall|j: int| 0 <= j < k ==> s[j] != '\n',
    ensures
        find_nl(s) == Some(k as nat),
    decreases s.len(),
{
    if k > 0 {
        lemma_find_nl_at(s.drop_first(), k - 1);
    }
}

/// Split a character stream into source lines.
pub fn split_lines(s: &[char]) -> (lines: Vec<SourceLine>)
    ensures
        lines_view(lines@) == split_lines_spec(s@),
{
    let mut lines: Vec<SourceLine> = Vec::new();
    let mut start: usize = 0;
    let ghost mut rest: Seq<char> = s@;
    proof {
        assert(s@.skip(0) =~= s@);
        assert(lines_view(lines@) =~= Seq::<(Seq<char>, bool)>::empty());
    }
    while start < s.len()
        invariant
            start <= s@.len(),
            rest == s@.skip(start as int),
            split_lines_spec(s@) == lines_view(lines@) + split_lines_spec(rest),
        decreases s@.len() - start,
    {
        let mut j: usize = start;
        while j < s.len() && s[j] != '\n'
            invariant
                start <= j <= s@.len(),
                forall|k: int| start <= k < j ==> s@[k] != '\n',
            decreases s@.len() - j,
        {
            j = j + 1;
        }
        let mut text: Vec<char> = Vec::new();
        let mut k: usize = start;
        while k < j
            invariant
                start <= k <= j <= s@.len(),
                text@ == s@.subrange(start as int, k as int),
            decreases j - k,
        {
            text.push(s[k]);
            proof {
                assert(s@.subrange(start as int, k as int).push(s@[k as int]) =~= s@.subrange(
                    start as int,
                    k + 1 as int,
                ));
            }
            k = k + 1;
        }
        let has_nl = j < s.len();
        let ghost lv = lines_view(lines@);
        if has_nl {
            proof {
                assert(rest[j - start] == s@[j as int]);
                assert forall|m: int| 0 <= m < j - start implies rest[m] != '\n' by {
                    assert(rest[m] == s@[start + m]);
                }
                lemma_find_nl_at(rest, j - start);
                assert(rest.take(j - start) =~= text@);
                assert(rest.skip(j - start + 1) =~= s@.skip(j + 1 as int));
                assert(split_lines_spec(rest) == seq![(text@, true)] + split_lines_spec(
                    s@.skip(j + 1 as int),
                ));
            }
            lines.push(SourceLine { text, newline: true });
            start = j + 1;
            proof {
                rest = s@.skip(start as int);
                assert(lines_view(lines@) =~~= lv + seq![
                    (lines@[lines@.len() - 1].text@, true),
                ]);
            }
        } else {
            proof {
                assert forall|m: int| 0 <= m < rest.len() implies rest[m] != '\n' by {
                    assert(rest[m] == s@[start + m]);
                }
                lemma_find_nl_none(rest);
                assert(text@ =~= rest);
                assert(split_lines_spec(rest) == seq![(rest, false)]);
            }
            lines.push(SourceLine { text, newline: false });
            start = s.len();
            proof {
                rest = s@.skip(start as int);
                assert(split_lines_spec(rest) =~= Seq::<(Seq<char>, bool)>::empty());
                assert(lines_view(lines@) =~~= lv + seq![
                    (lines@[lines@.len() - 1].text@, false),
                ]);
            }
        }
    }
    proof {
        assert(split_lines_spec(s@.skip(s@.len() as int)) =~= Seq::<(Seq<char>, bool)>::empty());
        assert(lines_view(lines@) + Seq::<(Seq<char>, bool)>::empty() =~= lines_view(lines@));
        if s@.len() == 0 {
            assert(split_lines_spec(s@) =~= Seq::<(Seq<char>, bool)>::empty());
        }
    }
    lines
}

} // verus!

verus! {

/// The characters a line list denotes: each line followed by its line feed
/// when it has one.
pub open spec fn join_lines_spec(parts: Seq<(Seq<char>, bool)>) -> Seq<char>
    decreases parts.len(),
{
    if parts.len() == 0 {
        Seq::empty()
    } else {
        parts[0].0 + (if parts[0].1 {
            seq!['\n']
        } else {
            Seq::empty()
        }) + join_lines_spec(parts.drop_first())
    }
}

/// Splitting a stream into lines loses nothing: joining the lines, each with
/// its recorded line feed, restores the stream character for character.
pub proof fn lemma_split_join(s: Seq<char>)
    ensures
        join_lines_spec(split_lines_spec(s)) == s,
    decreases s.len(),
{
    if s.len() == 0 {
        assert(split_lines_spec(s) =~= Seq::<(Seq<char>, bool)>::empty());
        assert(join_lines_spec(split_lines_spec(s)) =~= s);
    } else {
        lemma_find_nl_le(s);
        match find_nl(s) {
            Some(p) => {
                if p < s.len() {
                    let parts = split_lines_spec(s);
                    let rest = split_lines_spec(s.skip(p as int + 1));
                    assert(parts == seq![(s.take(p as int), true)] + rest);
                    assert(parts[0] == (s.take(p as int), true));
                    assert(parts.drop_first() =~= rest);
                    lemma_split_join(s.skip(p as int + 1));
                    lemma_find_nl_char(s, p as int);
                    assert(join_lines_spec(parts) == s.take(p as int) + seq!['\n'] + s.skip(
                        p as int + 1,
                    ));
                    assert(s.take(p as int) + seq!['\n'] + s.skip(p as int + 1) =~= s);
                }
            },
            None => {
                let parts = split_lines_spec(s);
                assert(parts == seq![(s, false)]);
                assert(parts[0] == (s, false));
                assert(parts.drop_first() =~= Seq::<(Seq<char>, bool)>::empty());
                assert(join_lines_spec(parts.drop_first()) =~= Seq::<char>::empty());
                assert(join_lines_spec(parts) =~= s);
            },
        }
    }
}

proof fn lemma_find_nl_le(s: Seq<char>)
    ensures
        find_nl(s) is Some ==> find_nl(s)->0 < s.len(),
    decreases s.len(),
{
    if s.len() > 0 && s[0] != '\n' {
        lemma_find_nl_le(s.drop_first());
    }
}

proof fn lemma_find_nl_char(s: Seq<char>, p: int)
    requires
        find_nl(s) == Some(p as nat),
        0 <= p < s.len(),
    ensures
        s[p] == '\n',
    decreases s.len(),
{
    if s[0] != '\n' {
        lemma_find_nl_char(s.drop_first(), p - 1);
    }
}

} // verus!
