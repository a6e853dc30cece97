//! Source files as plain values, and the content fingerprint.
//!
//! A [`SourceFile`] is what a directory listing hands the library: the path
//! of an entry together with the raw bytes found at that path.  The
//! fingerprint [`hash_quick`] depends on the bytes alone, never on the path,
//! so identical content from different directories collapses to the same
//! identity.

use vstd::prelude::*;

verus! {

/// One entry of a directory listing: the path of the file and its content.
#[derive(Debug)]
pub struct SourceFile {
    pub path: String,
    pub data: Vec<u8>,
}

/// The mathematical value of a [`SourceFile`].
#[verifier::ext_equal]
pub ghost struct FileV {
    pub path: Seq<char>,
    pub data: Seq<u8>,
}

impl View for SourceFile {
    type V = FileV;

    open spec fn view(&self) -> FileV {
        FileV { path: self.path@, data: self.data@ }
    }
}

impl DeepView for SourceFile {
    type V = FileV;

    open spec fn deep_view(&self) -> FileV {
        self.view()
    }
}

/// The fingerprint of a byte sequence: the sum of its bytes modulo 2^64.
pub open spec fn hash_of(data: Seq<u8>) -> u64
    decreases data.len(),
{
    if data.len() == 0 {
        0u64
    } else {
        vstd::wrapping::u64_specs::wrapping_add(hash_of(data.drop_last()), data.last() as u64)
    }
}

/// Computes the content fingerprint of `data`: the wrapping sum of its bytes.
pub fn hash_quick(data: Vec<u8>) -> (n: u64)
    ensures
        n == hash_of(data@),
{
    let mut n: u64 = 0;
    let mut i: usize = 0;
    while i < data.len()
        invariant
            i <= data@.len(),
            n == hash_of(data@.take(i as int)),
        decreases data@.len() - i,
    {
        n = n.wrapping_add(data[i] as u64);
        proof {
            assert(data@.take(i + 1).drop_last() =~= data@.take(i as int));
            assert(data@.take(i + 1).last() == data@[i as int]);
        }
        i = i + 1;
    }
    proof {
        assert(data@.take(data@.len() as int) =~= data@);
    }
    n
}

/// The identity of a file depends on its bytes only: two files with equal
/// content receive the same fingerprint, whatever their paths are.
pub proof fn lemma_hash_ignores_path(a: SourceFile, b: SourceFile)
    requires
        a.data@ == b.data@,
    ensures
        hash_of(a.data@) == hash_of(b.data@),
{
}

/// Whitespace as the name normalisation understands it: space and the
/// control characters tab through carriage return.
pub open spec fn is_space_char(c: char) -> bool {
    c == ' ' || c == '\t' || c == '\n' || c == '\u{b}' || c == '\u{c}' || c == '\r'
}

/// Lower-case ASCII letter or ASCII digit.
pub open spec fn is_lower_alnum_char(c: char) -> bool {
    ('a' <= c && c <= 'z') || ('0' <= c && c <= '9')
}

/// The ASCII lower-case counterpart of `c`; anything but A-Z is unchanged.
pub open spec fn lower_char(c: char) -> char {
    if 'A' <= c && c <= 'Z' {
        (c as u8 + 0x20) as char
    } else {
        c
    }
}

/// How one character of a title is normalised: lower-cased first;
/// whitespace becomes `_`; anything that is then not a lower-case ASCII
/// letter or digit becomes `-`.
pub open spec fn sanitize_char(c: char) -> char {
    let l = lower_char(c);
    if is_space_char(l) {
        '_'
    } else if !is_lower_alnum_char(l) {
        '-'
    } else {
        l
    }
}

/// `s` without leading whitespace.
pub open spec fn trim_start_spec(s: Seq<char>) -> Seq<char>
    decreases s.len(),
{
    if s.len() > 0 && is_space_char(s[0]) {
        trim_start_spec(s.drop_first())
    } else {
        s
    }
}

/// `s` without trailing whitespace.
pub open spec fn trim_end_spec(s: Seq<char>) -> Seq<char>
    decreases s.len(),
{
    if s.len() > 0 && is_space_char(s.last()) {
        trim_end_spec(s.drop_last())
    } else {
        s
    }
}

/// The sanitized form of a title: trimmed, then normalised character by
/// character with [`sanitize_char`].
pub open spec fn sanitized(s: Seq<char>) -> Seq<char> {
    trim_end_spec(trim_start_spec(s)).map_values(|c: char| sanitize_char(c))
}

pub proof fn lemma_trim_start_skip(s: Seq<char>, k: int)
    requires
        0 <= k <= s.len(),
        forall|i: int| 0 <= i < k ==> is_space_char(s[i]),
        k == s.len() || !is_space_char(s[k]),
    ensures
        trim_start_spec(s) =~= s.skip(k),
    decreases k,
{
    if k > 0 {
        assert(is_space_char(s[0]));
        assert(s.drop_first() =~= s.skip(1));
        lemma_trim_start_skip(s.skip(1), k - 1);
        assert(s.skip(1).skip(k - 1) =~= s.skip(k));
    }
}

pub proof fn lemma_trim_end_take(s: Seq<char>, k: int)
    requires
        0 <= k <= s.len(),
        forall|i: int| k <= i < s.len() ==> is_space_char(s[i]),
        k == 0 || !is_space_char(s[k - 1]),
    ensures
        trim_end_spec(s) =~= s.take(k),
    decreases s.len() - k,
{
    if k < s.len() {
        assert(is_space_char(s.last()));
        assert(s.drop_last() =~= s.take(s.len() - 1));
        lemma_trim_end_take(s.take(s.len() - 1), k);
    }
}

pub(crate) fn is_space(c: char) -> (r: bool)
    ensures
        r == is_space_char(c),
{
    c == ' ' || c == '\t' || c == '\n' || c == '\u{b}' || c == '\u{c}' || c == '\r'
}

pub(crate) fn to_lower(c: char) -> (r: char)
    ensures
        r == lower_char(c),
{
    match c {
        'A' => 'a',
        'B' => 'b',
        'C' => 'c',
        'D' => 'd',
        'E' => 'e',
        'F' => 'f',
        'G' => 'g',
        'H' => 'h',
        'I' => 'i',
        'J' => 'j',
        'K' => 'k',
        'L' => 'l',
        'M' => 'm',
        'N' => 'n',
        'O' => 'o',
        'P' => 'p',
        'Q' => 'q',
        'R' => 'r',
        'S' => 's',
        'T' => 't',
        'U' => 'u',
        'V' => 'v',
        'W' => 'w',
        'X' => 'x',
        'Y' => 'y',
        'Z' => 'z',
        _ => {
            proof {
                assert(!('A' <= c && c <= 'Z')) by {
                    if 'A' <= c && c <= 'Z' {
                        assert(false);
                    }
                };
            }
            c
        },
    }
}

fn is_lower_alnum(c: char) -> (r: bool)
    ensures
        r == is_lower_alnum_char(c),
{
    ('a' <= c && c <= 'z') || ('0' <= c && c <= '9')
}

/// The part of a path after its last `/`; empty for a path that ends in `/`.
pub open spec fn basename_of(p: Seq<char>) -> Seq<char>
    decreases p.len(),
{
    if p.len() == 0 {
        p
    } else if p.last() == '/' {
        Seq::empty()
    } else {
        basename_of(p.drop_last()).push(p.last())
    }
}

/// The position of the last occurrence of `c` in `s`, if any.
pub open spec fn rfind(s: Seq<char>, c: char) -> Option<int>
    decreases s.len(),
{
    if s.len() == 0 {
        None
    } else if s.last() == c {
        Some(s.len() - 1)
    } else {
        rfind(s.drop_last(), c)
    }
}

/// The extension of a path: what follows the last `.` of the base name,
/// unless that dot is the base name's first character or there is none.
pub open spec fn ext_of(p: Seq<char>) -> Option<Seq<char>> {
    let b = basename_of(p);
    match rfind(b, '.') {
        Some(i) => if i > 0 {
            Some(b.skip(i + 1))
        } else {
            None
        },
        None => None,
    }
}

/// The base name without its extension.
pub open spec fn stem_of(p: Seq<char>) -> Seq<char> {
    let b = basename_of(p);
    match rfind(b, '.') {
        Some(i) => if i > 0 {
            b.take(i)
        } else {
            b
        },
        None => b,
    }
}

/// `s` lower-cased character by character (ASCII letters only).
pub open spec fn lower_seq(s: Seq<char>) -> Seq<char> {
    s.map_values(|c: char| lower_char(c))
}

/// If nothing after position `k` is a `/`, and a `/` stands just before
/// `k` (or `k` is the start), the base name is the suffix from `k`.
pub proof fn lemma_basename_at(p: Seq<char>, k: int)
    requires
        0 <= k <= p.len(),
        forall|j: int| k <= j < p.len() ==> p[j] != '/',
        k == 0 || p[k - 1] == '/',
    ensures
        basename_of(p) =~= p.skip(k),
    decreases p.len() - k,
{
    if k == p.len() {
        if k > 0 {
            assert(p.last() == '/');
        }
    } else {
        assert(p.last() != '/');
        lemma_basename_at(p.drop_last(), k);
        assert(basename_of(p.drop_last()).push(p.last()) =~= p.skip(k));
    }
}

/// If `c` stands at `i` and nowhere later, the last occurrence is `i`.
pub proof fn lemma_rfind_at(s: Seq<char>, c: char, i: int)
    requires
        0 <= i < s.len(),
        s[i] == c,
        forall|j: int| i < j < s.len() ==> s[j] != c,
    ensures
        rfind(s, c) == Some(i),
    decreases s.len(),
{
    if i < s.len() - 1 {
        lemma_rfind_at(s.drop_last(), c, i);
    }
}

/// If `c` does not occur, there is no last occurrence.
pub proof fn lemma_rfind_absent(s: Seq<char>, c: char)
    requires
        forall|j: int| 0 <= j < s.len() ==> s[j] != c,
    ensures
        rfind(s, c) is None,
    decreases s.len(),
{
    if s.len() > 0 {
        lemma_rfind_absent(s.drop_last(), c);
    }
}

/// The character for one decimal digit.
pub open spec fn digit_char(d: int) -> char {
    if d == 0 {
        '0'
    } else if d == 1 {
        '1'
    } else if d == 2 {
        '2'
    } else if d == 3 {
        '3'
    } else if d == 4 {
        '4'
    } else if d == 5 {
        '5'
    } else if d == 6 {
        '6'
    } else if d == 7 {
        '7'
    } else if d == 8 {
        '8'
    } else {
        '9'
    }
}

/// The canonical decimal writing of a non-negative number.
pub open spec fn dec_str(n: int) -> Seq<char>
    decreases n,
{
    if n < 10 {
        seq![digit_char(n)]
    } else {
        dec_str(n / 10).push(digit_char(n % 10))
    }
}

fn digit_to_char(d: u64) -> (c: char)
    requires
        d < 10,
    ensures
        c == digit_char(d as int),
{
    match d {
        0 => '0',
        1 => '1',
        2 => '2',
        3 => '3',
        4 => '4',
        5 => '5',
        6 => '6',
        7 => '7',
        8 => '8',
        _ => '9',
    }
}

/// Writes a number the way `Display` does: decimal, no sign, no padding.
pub fn u64_to_string(n: u64) -> (r: String)
    ensures
        r@ == dec_str(n as int),
    decreases n,
{
    if n < 10 {
        let mut s = String::new();
        push_char(&mut s, digit_to_char(n));
        proof {
            assert(s@ =~= dec_str(n as int));
        }
        s
    } else {
        let mut s = u64_to_string(n / 10);
        push_char(&mut s, digit_to_char(n % 10));
        s
    }
}

/// Relies on `String::push`: appends exactly the given character.
#[verifier::external_body]
pub(crate) fn push_char(s: &mut String, c: char)
    ensures
        final(s)@ == old(s)@.push(c),
{
    s.push(c);
}

/// Locates the base name and its last dot inside a path.  Returns `(k, d)`:
/// the base name starts at `k`; `d` is one past the last `.` of the base
/// name, or `k` when it has no dot.
pub(crate) fn scan_basename(p: &str) -> (r: (usize, usize))
    ensures
        r.0 <= r.1,
        r.1 <= p@.len(),
        r.0 <= p@.len(),
        basename_of(p@) =~= p@.skip(r.0 as int),
        r.1 == r.0 ==> rfind(basename_of(p@), '.') is None,
        r.1 > r.0 ==> rfind(basename_of(p@), '.') == Some(r.1 - 1 - r.0),
{
    let len = p.unicode_len();

    let mut k = len;
    while k > 0 && p.get_char(k - 1) != '/'
        invariant
            k <= len,
            len == p@.len(),
            forall|j: int| k <= j < len ==> p@[j] != '/',
        decreases k,
    {
        k = k - 1;
    }
    proof {
        lemma_basename_at(p@, k as int);
    }
    let ghost b = basename_of(p@);

    let mut d = len;
    while d > k && p.get_char(d - 1) != '.'
        invariant
            k <= d <= len,
            len == p@.len(),
            forall|j: int| d <= j < len ==> p@[j] != '.',
        decreases d,
    {
        d = d - 1;
    }
    proof {
        assert(b =~= p@.skip(k as int));
        assert(forall|j: int| 0 <= j < b.len() ==> b[j] == p@[k + j]);
        if d == k {
            lemma_rfind_absent(b, '.');
        } else {
            assert(b[d - 1 - k] == p@[d - 1]);
            lemma_rfind_at(b, '.', d - 1 - k);
        }
    }

    (k, d)
}

/// The base name of `p` without its extension, as std's `file_stem` reads
/// it for a well-formed path.
pub fn file_stem(p: &str) -> (r: String)
    ensures
        r@ == stem_of(p@),
{
    let len = p.unicode_len();
    let (k, d) = scan_basename(p);
    if d - k > 1 {
        let r = String::from_str(p.substring_char(k, d - 1));
        proof {
            assert(p@.subrange(k as int, d - 1) =~= basename_of(p@).take(d - 1 - k));
        }
        r
    } else {
        let r = String::from_str(p.substring_char(k, len));
        proof {
            assert(p@.subrange(k as int, len as int) =~= basename_of(p@));
        }
        r
    }
}

/// Derives the collection key from a title: the trimmed title with every
/// character normalised by [`sanitize_char`].
pub fn sanitize(s: &str) -> (r: String)
    ensures
        r@ == sanitized(s@),
{
    let len = s.unicode_len();

    // Skip leading whitespace.
    let mut start: usize = 0;
    while start < len && is_space(s.get_char(start))
        invariant
            len == s@.len(),
            start <= len,
            forall|i: int| 0 <= i < start ==> is_space_char(s@[i]),
        decreases len - start,
    {
        start = start + 1;
    }
    proof {
        lemma_trim_start_skip(s@, start as int);
    }

    // Skip trailing whitespace.
    let mut end: usize = len;
    while end > start && is_space(s.get_char(end - 1))
        invariant
            len == s@.len(),
            start <= end <= len,
            trim_start_spec(s@) =~= s@.skip(start as int),
            forall|i: int| end <= i < len ==> is_space_char(s@[i]),
        decreases end,
    {
        end = end - 1;
    }
    proof {
        let t = s@.skip(start as int);
        lemma_trim_end_take(t, end - start);
        assert(forall|i: int|
            end - start <= i < t.len() ==> is_space_char(#[trigger] t[i]));
        if end > start {
            assert(!is_space_char(t[end - start - 1]));
        }
        assert(trim_end_spec(t) =~= t.take(end - start));
    }

    let ghost trimmed = s@.skip(start as int).take(end - start);
    let mut cleaned = String::new();
    let mut i: usize = start;
    while i < end
        invariant
            len == s@.len(),
            start <= i <= end <= len,
            trimmed == s@.skip(start as int).take(end - start),
            cleaned@ =~= trimmed.take(i - start).map_values(|c: char| sanitize_char(c)),
        decreases end - i,
    {
        let mut c = s.get_char(i);
        c = to_lower(c);
        if is_space(c) {
            c = '_';
        } else if !is_lower_alnum(c) {
            c = '-';
        }
        proof {
            assert(trimmed[i - start] == s@[i as int]);
            assert(trimmed.take(i - start + 1) =~= trimmed.take(i - start).push(trimmed[i - start]));
            assert(trimmed.take(i - start + 1).map_values(|c: char| sanitize_char(c))
                =~= trimmed.take(i - start).map_values(|c: char| sanitize_char(c))
                    .push(sanitize_char(trimmed[i - start])));
        }
        push_char(&mut cleaned, c);
        i = i + 1;
    }
    proof {
        assert(trimmed.take(end - start) =~= trimmed);
        assert(sanitized(s@) == trimmed.map_values(|c: char| sanitize_char(c)));
    }
    cleaned
}

} // verus!
