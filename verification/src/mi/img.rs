//! Image-side value types: output resolutions and EXIF orientation.
//!
//! The pixel codec itself (decode, resize, encode) is an outside capability;
//! this module holds the plain values the gallery model needs from it: the
//! target resolution of a rendition, parsed from its `WxH` command-line
//! form, and the rotation that an EXIF orientation tag asks for.

use vstd::prelude::*;
use crate::mi::fs::{is_space_char, trim_start_spec, trim_end_spec};

verus! {

/// The smallest accepted width and height of a rendition.
pub const RESOLUTION_MIN_SIDE: u32 = 150;

/// A target resolution in pixels.
#[derive(Debug, Copy, Clone, PartialEq, Eq, Structural)]
pub struct Resolution {
    pub width: u32,
    pub height: u32,
}

/// The rotation a source image needs before resizing, as its EXIF
/// orientation tag asks for it.
#[derive(Debug, Copy, Clone, PartialEq, Eq, Structural)]
pub enum Rotation {
    R0,
    R90,
    R180,
    R270,
}

/// The rotation for an EXIF orientation value: 3, 6 and 8 are the plain
/// rotations; mirrored and unknown orientations are left unrotated.
pub open spec fn rotation_of_orientation(r: u32) -> Rotation {
    if r == 3 {
        Rotation::R180
    } else if r == 6 {
        Rotation::R90
    } else if r == 8 {
        Rotation::R270
    } else {
        Rotation::R0
    }
}

/// Maps an EXIF orientation tag value to the rotation to apply.
pub fn rotation_from_orientation(r: u32) -> (rot: Rotation)
    ensures
        rot == rotation_of_orientation(r),
{
    match r {
        3 => Rotation::R180,
        6 => Rotation::R90,
        8 => Rotation::R270,
        _ => Rotation::R0,
    }
}

/// ASCII decimal digit.
pub open spec fn is_digit(c: char) -> bool {
    '0' <= c && c <= '9'
}

/// The numeric value of an ASCII digit.
pub open spec fn digit_val(c: char) -> int {
    c as int - '0' as int
}

/// The value of a digit string read in base ten.
pub open spec fn digits_val(s: Seq<char>) -> int
    decreases s.len(),
{
    if s.len() == 0 {
        0
    } else {
        digits_val(s.drop_last()) * 10 + digit_val(s.last())
    }
}

/// A non-empty, all-digit string.
pub open spec fn all_digits(s: Seq<char>) -> bool {
    s.len() > 0 && forall|i: int| 0 <= i < s.len() ==> is_digit(s[i])
}

/// `s` without a single leading plus sign.
pub open spec fn strip_plus(s: Seq<char>) -> Seq<char> {
    if s.len() > 0 && s[0] == '+' {
        s.drop_first()
    } else {
        s
    }
}

/// A string that reads as a `u32`: optionally `+`-signed digits whose value
/// fits.
pub open spec fn parses_as_u32(s: Seq<char>) -> bool {
    all_digits(strip_plus(s)) && digits_val(strip_plus(s)) <= u32::MAX
}

/// The value of such a string.
pub open spec fn parsed_u32(s: Seq<char>) -> int {
    digits_val(strip_plus(s))
}

/// `s` with surrounding whitespace removed.
pub open spec fn trimmed(s: Seq<char>) -> Seq<char> {
    trim_end_spec(trim_start_spec(s))
}

/// How many times `c` occurs in `s`.
pub open spec fn count_char(s: Seq<char>, c: char) -> int
    decreases s.len(),
{
    if s.len() == 0 {
        0
    } else {
        count_char(s.drop_last(), c) + if s.last() == c {
            1int
        } else {
            0int
        }
    }
}

/// The position of the first occurrence of `c` in `s`; `s.len()` when `c`
/// does not occur.
pub open spec fn char_pos(s: Seq<char>, c: char) -> int
    decreases s.len(),
{
    if s.len() == 0 {
        0
    } else if s[0] == c {
        0
    } else {
        1 + char_pos(s.drop_first(), c)
    }
}

/// A digit string's value never shrinks as the string grows.
proof fn lemma_digits_val_grows(s: Seq<char>, i: int)
    requires
        0 <= i <= s.len(),
        forall|j: int| 0 <= j < s.len() ==> is_digit(s[j]),
    ensures
        0 <= digits_val(s.take(i)),
        digits_val(s.take(i)) <= digits_val(s),
    decreases s.len() - i,
{
    if i < s.len() {
        assert(s.take(i + 1).drop_last() =~= s.take(i));
        assert(is_digit(s.take(i + 1).last()));
        lemma_digits_val_grows(s, i + 1);
        assert(s.take(s.len() as int) =~= s);
    } else {
        assert(s.take(i) =~= s);
        lemma_digits_val_nonneg(s);
    }
}

proof fn lemma_digits_val_nonneg(s: Seq<char>)
    requires
        forall|j: int| 0 <= j < s.len() ==> is_digit(s[j]),
    ensures
        0 <= digits_val(s),
    decreases s.len(),
{
    if s.len() > 0 {
        assert(forall|j: int| 0 <= j < s.drop_last().len() ==> is_digit(s.drop_last()[j]));
        lemma_digits_val_nonneg(s.drop_last());
        assert(is_digit(s.last()));
    }
}

/// If `c` stands at `i` with no earlier occurrence, the first occurrence is
/// at `i`.
proof fn lemma_char_pos_at(s: Seq<char>, c: char, i: int)
    requires
        0 <= i < s.len(),
        s[i] == c,
        forall|j: int| 0 <= j < i ==> s[j] != c,
    ensures
        char_pos(s, c) == i,
    decreases i,
{
    if i > 0 {
        lemma_char_pos_at(s.drop_first(), c, i - 1);
    }
}

/// If `c` does not occur, the first occurrence is the length.
proof fn lemma_char_pos_absent(s: Seq<char>, c: char)
    requires
        forall|j: int| 0 <= j < s.len() ==> s[j] != c,
    ensures
        char_pos(s, c) == s.len(),
    decreases s.len(),
{
    if s.len() > 0 {
        lemma_char_pos_absent(s.drop_first(), c);
    }
}

/// Bounds of `s[from..to]` once surrounding whitespace is dropped.
fn trim_bounds(s: &str, from: usize, to: usize) -> (r: (usize, usize))
    requires
        from <= to <= s@.len(),
    ensures
        from <= r.0 <= r.1 <= to,
        s@.subrange(r.0 as int, r.1 as int) == trimmed(s@.subrange(from as int, to as int)),
{
    let ghost sub = s@.subrange(from as int, to as int);

    let mut a = from;
    while a < to && crate::mi::fs::is_space(s.get_char(a))
        invariant
            from <= a <= to <= s@.len(),
            forall|j: int| from <= j < a ==> is_space_char(s@[j]),
        decreases to - a,
    {
        a = a + 1;
    }
    proof {
        assert(forall|j: int| 0 <= j < a - from ==> is_space_char(#[trigger] sub[j]));
        lemma_trim_start_spec_of_subrange(s@, from as int, to as int, a as int);
    }

    let mut b = to;
    while b > a && crate::mi::fs::is_space(s.get_char(b - 1))
        invariant
            from <= a <= b <= to <= s@.len(),
            forall|j: int| b <= j < to ==> is_space_char(s@[j]),
        decreases b,
    {
        b = b - 1;
    }
    proof {
        let t = s@.subrange(a as int, to as int);
        assert(forall|j: int|
            b - a <= j < t.len() ==> is_space_char(#[trigger] t[j]));
        crate::mi::fs::lemma_trim_end_take(t, b - a);
        assert(t.take(b - a) =~= s@.subrange(a as int, b as int));
        assert(trimmed(sub) == trim_end_spec(t));
    }

    (a, b)
}

/// Dropping the all-whitespace head of a subrange commutes with
/// `trim_start_spec`.
proof fn lemma_trim_start_spec_of_subrange(s: Seq<char>, from: int, to: int, a: int)
    requires
        0 <= from <= a <= to <= s.len(),
        forall|j: int| from <= j < a ==> is_space_char(s[j]),
        a == to || !is_space_char(s[a]),
    ensures
        trim_start_spec(s.subrange(from, to)) == s.subrange(a, to),
{
    let sub = s.subrange(from, to);
    assert(forall|j: int| 0 <= j < a - from ==> is_space_char(#[trigger] sub[j]));
    if a < to {
        assert(!is_space_char(sub[a - from]));
    }
    crate::mi::fs::lemma_trim_start_skip(sub, a - from);
    assert(sub.skip(a - from) =~= s.subrange(a, to));
}

/// Reads `s[from..to]` as a `u32`: an optional `+`, then digits whose value
/// fits; anything else is rejected.
fn parse_u32_range(s: &str, from: usize, to: usize) -> (r: Option<u32>)
    requires
        from <= to <= s@.len(),
    ensures
        match r {
            Some(v) => parses_as_u32(s@.subrange(from as int, to as int)) && v == parsed_u32(
                s@.subrange(from as int, to as int),
            ),
            None => !parses_as_u32(s@.subrange(from as int, to as int)),
        },
{
    let ghost sub = s@.subrange(from as int, to as int);

    let mut i = from;
    if i < to && s.get_char(i) == '+' {
        i = i + 1;
        proof {
            assert(sub[0] == '+');
            assert(strip_plus(sub) =~= s@.subrange(i as int, to as int));
        }
    } else {
        proof {
            if sub.len() > 0 {
                assert(sub[0] == s@[from as int]);
            }
            assert(strip_plus(sub) =~= s@.subrange(i as int, to as int));
        }
    }
    let ghost digits = s@.subrange(i as int, to as int);
    let start = i;

    if i == to {
        // No digits at all.
        return None;
    }

    let mut acc: u64 = 0;
    let mut over = false;
    let ghost mut over_at: int = 0;
    while i < to
        invariant
            from <= start <= i <= to <= s@.len(),
            sub == s@.subrange(from as int, to as int),
            strip_plus(sub) == digits,
            digits == s@.subrange(start as int, to as int),
            forall|j: int| 0 <= j < i - start ==> is_digit(digits[j]),
            !over ==> acc <= u32::MAX && acc == digits_val(digits.take(i - start)),
            over ==> 0 < over_at <= i - start && digits_val(digits.take(over_at)) > u32::MAX,
        decreases to - i,
    {
        let c = s.get_char(i);
        if !(c >= '0' && c <= '9') {
            proof {
                assert(digits[i - start] == s@[i as int]);
                assert(!is_digit(digits[i - start]));
            }
            return None;
        }
        let d = (c as u32) - 48;
        proof {
            assert(digits[i - start] == s@[i as int]);
            assert(digits.take(i - start + 1).drop_last() =~= digits.take(i - start));
            assert(digits.take(i - start + 1).last() == digits[i - start]);
            assert(digit_val(c) == d as int);
        }
        if !over {
            let next = acc * 10 + (d as u64);
            if next > 0xFFFF_FFFF {
                over = true;
                proof {
                    over_at = i - start + 1;
                }
            } else {
                acc = next;
            }
        }
        i = i + 1;
    }

    proof {
        assert(forall|j: int| 0 <= j < digits.len() ==> is_digit(digits[j]));
        assert(all_digits(digits));
        assert(digits.take(to - start) =~= digits);
    }
    if over {
        proof {
            lemma_digits_val_grows(digits, over_at);
        }
        None
    } else {
        Some(acc as u32)
    }
}

/// Splits `s` at its single `x`, trims both halves and reads them as
/// numbers; reports the exact reason when the form is not `WxH`, a number
/// does not parse, or a side is below [`RESOLUTION_MIN_SIDE`].
pub open spec fn resolution_new_result(s: Seq<char>, r: Result<Resolution, String>) -> bool {
    if count_char(s, 'x') != 1 {
        r matches Err(m) && m@ == "Invalid Resolution, must be in format WxH"@
    } else {
        let p = char_pos(s, 'x');
        let w = trimmed(s.subrange(0, p));
        let h = trimmed(s.subrange(p + 1, s.len() as int));
        if !parses_as_u32(w) || !parses_as_u32(h) {
            r matches Err(m) && m@ == "Invalid Resolution"@
        } else if parsed_u32(w) < RESOLUTION_MIN_SIDE || parsed_u32(h) < RESOLUTION_MIN_SIDE {
            r matches Err(m) && m@ == "Resolution to low"@
        } else {
            r matches Ok(res) && res.width == parsed_u32(w) && res.height == parsed_u32(h)
        }
    }
}

impl Resolution {
    /// Parses a resolution given as `WxH` (for example `960x540`).
    pub fn new(s: &str) -> (r: Result<Resolution, String>)
        ensures
            resolution_new_result(s@, r),
    {
        let len = s.unicode_len();

        // Find the separator; there must be exactly one `x`.
        let mut count: usize = 0;
        let mut pos: usize = 0;
        let mut found = false;
        let mut i: usize = 0;
        while i < len
            invariant
                i <= len,
                len == s@.len(),
                count == count_char(s@.take(i as int), 'x'),
                count <= i,
                found ==> pos < i && s@[pos as int] == 'x' && forall|j: int|
                    0 <= j < pos ==> s@[j] != 'x',
                !found ==> count == 0 && forall|j: int| 0 <= j < i ==> s@[j] != 'x',
                found ==> count >= 1,
            decreases len - i,
        {
            proof {
                assert(s@.take(i + 1).drop_last() =~= s@.take(i as int));
                assert(s@.take(i + 1).last() == s@[i as int]);
            }
            if s.get_char(i) == 'x' {
                if !found {
                    pos = i;
                    found = true;
                }
                count = count + 1;
            }
            i = i + 1;
        }
        proof {
            assert(s@.take(len as int) =~= s@);
        }

        if count != 1 {
            return Err(String::from_str("Invalid Resolution, must be in format WxH"));
        }
        proof {
            lemma_char_pos_at(s@, 'x', pos as int);
        }

        let (wa, wb) = trim_bounds(s, 0, pos);
        let (ha, hb) = trim_bounds(s, pos + 1, len);
        proof {
            assert(s@.subrange(0, pos as int) =~= s@.take(pos as int));
        }

        let width = match parse_u32_range(s, wa, wb) {
            Some(v) => v,
            None => {
                return Err(String::from_str("Invalid Resolution"));
            },
        };
        let height = match parse_u32_range(s, ha, hb) {
            Some(v) => v,
            None => {
                return Err(String::from_str("Invalid Resolution"));
            },
        };

        if width < RESOLUTION_MIN_SIDE || height < RESOLUTION_MIN_SIDE {
            return Err(String::from_str("Resolution to low"));
        }

        Ok(Resolution { width, height })
    }
}

impl core::str::FromStr for Resolution {
    type Err = String;

    fn from_str(s: &str) -> Result<Resolution, String> {
        Resolution::new(s)
    }
}

} // verus!
