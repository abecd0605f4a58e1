use vstd::prelude::*;
use vstd::utf8::{decode_utf8, valid_utf8, is_char_boundary};
use vstd::string::StringSliceAdditionalSpecFns;
use vstd::string::StringExecFns;

verus! {

broadcast use vstd::string::group_string_axioms;

/// The Unicode `White_Space` property, which `char::is_whitespace` tests.
pub open spec fn is_ws(c: char) -> bool {
    ||| ('\u{9}' <= c && c <= '\u{d}')
    ||| c == ' '
    ||| c == '\u{85}'
    ||| c == '\u{a0}'
    ||| c == '\u{1680}'
    ||| ('\u{2000}' <= c && c <= '\u{200a}')
    ||| c == '\u{2028}'
    ||| c == '\u{2029}'
    ||| c == '\u{202f}'
    ||| c == '\u{205f}'
    ||| c == '\u{3000}'
}

pub fn is_whitespace(c: char) -> (b: bool)
    ensures
        b == is_ws(c),
{
    ('\u{9}' <= c && c <= '\u{d}') || c == ' ' || c == '\u{85}' || c == '\u{a0}' || c == '\u{1680}'
        || ('\u{2000}' <= c && c <= '\u{200a}') || c == '\u{2028}' || c == '\u{2029}' || c
        == '\u{202f}' || c == '\u{205f}' || c == '\u{3000}'
}

/// What `char::is_alphanumeric` answers for a character.
pub uninterp spec fn alnum(c: char) -> bool;

/// What `char::is_alphabetic` answers for a character.
pub uninterp spec fn alpha(c: char) -> bool;

/// What `str::to_lowercase` gives for a string.
pub uninterp spec fn lowercase(s: Seq<char>) -> Seq<char>;

/// A character of the ASCII range.
pub open spec fn ascii_char(c: char) -> bool {
    c <= '\u{7f}'
}

/// An ASCII letter.
pub open spec fn ascii_letter(c: char) -> bool {
    ('a' <= c && c <= 'z') || ('A' <= c && c <= 'Z')
}

/// An ASCII letter or digit.
pub open spec fn ascii_alnum(c: char) -> bool {
    ascii_letter(c) || ('0' <= c && c <= '9')
}

/// Whether `c` is alphanumeric: for ASCII, a letter or digit; beyond it, as Unicode says.
pub open spec fn alnum_char(c: char) -> bool {
    if ascii_char(c) {
        ascii_alnum(c)
    } else {
        alnum(c)
    }
}

/// Whether `c` is alphabetic: for ASCII, a letter; beyond it, as Unicode says.
pub open spec fn alpha_char(c: char) -> bool {
    if ascii_char(c) {
        ascii_letter(c)
    } else {
        alpha(c)
    }
}

/// Whether a text is all ASCII.
pub open spec fn ascii_text(s: Seq<char>) -> bool {
    forall|i: int| 0 <= i < s.len() ==> ascii_char(#[trigger] s[i])
}

/// The lowercase form of a text: for ASCII text, each letter made lowercase; beyond it, as
/// Unicode says.
pub open spec fn lower_text(s: Seq<char>) -> Seq<char> {
    if ascii_text(s) {
        s.map_values(|c: char| ascii_lower(c))
    } else {
        lowercase(s)
    }
}

/// Calls `char::is_alphanumeric` (the Unicode `Alphabetic` or `Numeric` property). The
/// contract names the answer, and says that an ASCII character has it exactly when it is a
/// letter or a digit (the only ASCII characters with either property).
#[verifier::external_body]
pub(crate) fn is_alphanumeric(c: char) -> (b: bool)
    ensures
        b == alnum(c),
        ascii_char(c) ==> (b <==> ascii_alnum(c)),
{
    c.is_alphanumeric()
}

/// Calls `char::is_alphabetic` (the Unicode `Alphabetic` property). The contract names the
/// answer, and says that an ASCII character has it exactly when it is a letter.
#[verifier::external_body]
pub(crate) fn is_alphabetic(c: char) -> (b: bool)
    ensures
        b == alpha(c),
        ascii_char(c) ==> (b <==> ascii_letter(c)),
{
    c.is_alphabetic()
}

/// Calls `str::to_lowercase` (Unicode lowercase mapping). The contract names the result, and
/// says that an ASCII text becomes the same text with each letter made lowercase.
#[verifier::external_body]
pub(crate) fn to_lowercase(s: &str) -> (r: String)
    ensures
        r@ == lowercase(s@),
        ascii_text(s@) ==> r@ == s@.map_values(|c: char| ascii_lower(c)),
{
    s.to_lowercase()
}

/// Whether two strings hold the same characters.
pub(crate) fn str_eq(a: &str, b: &str) -> (r: bool)
    ensures
        r == (a@ == b@),
{
    let x = chars_of(a);
    let y = chars_of(b);
    if x.len() != y.len() {
        return false;
    }
    let mut i: usize = 0;
    while i < x.len()
        invariant
            x.len() == y.len(),
            i <= x.len(),
            x@ == a@,
            y@ == b@,
            forall|j: int| 0 <= j < i ==> x@[j] == y@[j],
        decreases x.len() - i,
    {
        if x[i] != y[i] {
            return false;
        }
        i = i + 1;
    }
    assert(x@ =~= y@);
    true
}

/// Calls `String::from_iter` on the characters of `v`: the string made of them, in order.
#[verifier::external_body]
pub(crate) fn string_of(v: &[char]) -> (s: String)
    ensures
        s@ == v@,
{
    String::from_iter(v.iter())
}

/// The characters of `s`, in order.
pub fn chars_of(s: &str) -> (v: Vec<char>)
    ensures
        v@ == s@,
{
    let mut v: Vec<char> = Vec::new();
    for c in it: s.chars()
        invariant
            v@ == it.seq().take(it.index()),
    {
        v.push(c);
    }
    v
}

/// The string holding the characters `lo..hi` of `v`.
pub fn string_of_range(v: &Vec<char>, lo: usize, hi: usize) -> (s: String)
    requires
        lo <= hi <= v@.len(),
    ensures
        s@ == v@.subrange(lo as int, hi as int),
{
    let r = sub_vec(v, lo, hi);
    string_of(r.as_slice())
}

/// A copy of the characters `lo..hi` of `v`.
pub fn sub_vec(v: &Vec<char>, lo: usize, hi: usize) -> (r: Vec<char>)
    requires
        lo <= hi <= v@.len(),
    ensures
        r@ == v@.subrange(lo as int, hi as int),
{
    let mut r: Vec<char> = Vec::new();
    let mut i = lo;
    while i < hi
        invariant
            lo <= i <= hi <= v@.len(),
            r@ == v@.subrange(lo as int, i as int),
        decreases hi - i,
    {
        r.push(v[i]);
        i += 1;
        assert(r@ =~= v@.subrange(lo as int, i as int));
    }
    r
}

/// Number of bytes that UTF-8 spends on a character.
pub open spec fn width(c: char) -> int {
    if (c as u32) <= 0x7f {
        1
    } else if (c as u32) <= 0x7ff {
        2
    } else if (c as u32) <= 0xffff {
        3
    } else {
        4
    }
}

/// Number of bytes of the UTF-8 encoding of a character sequence.
pub open spec fn utf8_len(s: Seq<char>) -> int
    decreases s.len(),
{
    if s.len() == 0 {
        0
    } else {
        width(s[0]) + utf8_len(s.drop_first())
    }
}

pub proof fn lemma_utf8_len_ge(s: Seq<char>)
    ensures
        utf8_len(s) >= s.len(),
    decreases s.len(),
{
    if s.len() > 0 {
        lemma_utf8_len_ge(s.drop_first());
    }
}

/// The classes of characters that the tokenizers scan over.
#[derive(Clone, Copy, Debug, PartialEq, Eq)]
pub enum CharClass {
    /// Whitespace.
    Space,
    /// Letters and digits, `-` and `_`.
    Name,
    /// Letters and digits and `-`.
    Hyphenated,
    /// Any character but the given one.
    Not(char),
    /// Any character but whitespace, `>` and `/`.
    Unquoted,
    /// Any character but `;` and `}`.
    Declared,
    /// The ASCII digits `0` to `9`.
    Digit,
    /// Any character but whitespace.
    Word,
}

pub open spec fn in_class(k: CharClass, c: char) -> bool {
    match k {
        CharClass::Space => is_ws(c),
        CharClass::Name => alnum_char(c) || c == '-' || c == '_',
        CharClass::Hyphenated => alnum_char(c) || c == '-',
        CharClass::Not(t) => c != t,
        CharClass::Unquoted => !is_ws(c) && c != '>' && c != '/',
        CharClass::Declared => c != ';' && c != '}',
        CharClass::Digit => '0' <= c && c <= '9',
        CharClass::Word => !is_ws(c),
    }
}

pub fn char_in_class(k: CharClass, c: char) -> (b: bool)
    ensures
        b == in_class(k, c),
{
    match k {
        CharClass::Space => is_whitespace(c),
        CharClass::Name => is_alphanumeric(c) || c == '-' || c == '_',
        CharClass::Hyphenated => is_alphanumeric(c) || c == '-',
        CharClass::Not(t) => c != t,
        CharClass::Unquoted => !is_whitespace(c) && c != '>' && c != '/',
        CharClass::Declared => c != ';' && c != '}',
        CharClass::Digit => '0' <= c && c <= '9',
        CharClass::Word => !is_whitespace(c),
    }
}

/// The first index at or after `i` whose character is not in class `k` (or the length).
pub open spec fn scan(s: Seq<char>, i: int, k: CharClass) -> int
    decreases s.len() - i,
{
    if i >= s.len() || i < 0 {
        i
    } else if !in_class(k, s[i]) {
        i
    } else {
        scan(s, i + 1, k)
    }
}

pub proof fn lemma_scan(s: Seq<char>, i: int, k: CharClass)
    requires
        0 <= i <= s.len(),
    ensures
        i <= scan(s, i, k) <= s.len(),
        forall|j: int| i <= j < scan(s, i, k) ==> in_class(k, #[trigger] s[j]),
        scan(s, i, k) < s.len() ==> !in_class(k, s[scan(s, i, k)]),
    decreases s.len() - i,
{
    if i < s.len() && in_class(k, s[i]) {
        lemma_scan(s, i + 1, k);
    }
}

/// Moves from `i` over the characters of class `k`.
pub fn scan_chars(v: &Vec<char>, i: usize, k: CharClass) -> (r: usize)
    requires
        i <= v@.len(),
    ensures
        r == scan(v@, i as int, k),
        i <= r <= v@.len(),
{
    proof {
        lemma_scan(v@, i as int, k);
    }
    let mut p = i;
    while p < v.len() && char_in_class(k, v[p])
        invariant
            i <= p <= v@.len(),
            scan(v@, p as int, k) == scan(v@, i as int, k),
        decreases v@.len() - p,
    {
        p += 1;
    }
    p
}

/// Whether `pat` stands in `s` from index `i` on.
pub open spec fn has_at(s: Seq<char>, i: int, pat: Seq<char>) -> bool {
    0 <= i && i + pat.len() <= s.len() && s.subrange(i, i + pat.len()) == pat
}

pub fn matches_at(v: &Vec<char>, i: usize, pat: &Vec<char>) -> (b: bool)
    requires
        i <= v@.len(),
    ensures
        b == has_at(v@, i as int, pat@),
{
    if pat.len() > v.len() - i {
        return false;
    }
    let mut j: usize = 0;
    while j < pat.len()
        invariant
            i + pat@.len() <= v@.len(),
            j <= pat@.len(),
            forall|m: int| 0 <= m < j ==> v@[i + m] == pat@[m],
        decreases pat@.len() - j,
    {
        assert(i + j < v.len());
        if v[i + j] != pat[j] {
            assert(v@.subrange(i as int, i + pat@.len())[j as int] != pat@[j as int]);
            return false;
        }
        j += 1;
    }
    assert(v@.subrange(i as int, i + pat@.len()) =~= pat@);
    true
}

/// Length of `s` once its trailing whitespace is cut.
pub open spec fn trim_end_len(s: Seq<char>) -> int
    decreases s.len(),
{
    if s.len() == 0 {
        0
    } else if is_ws(s.last()) {
        trim_end_len(s.drop_last())
    } else {
        s.len() as int
    }
}

/// `str::trim`: the sequence without its leading and trailing whitespace.
pub open spec fn trim(s: Seq<char>) -> Seq<char> {
    let t = s.skip(scan(s, 0, CharClass::Space));
    t.take(trim_end_len(t))
}

pub proof fn lemma_trim_end_len(s: Seq<char>)
    ensures
        0 <= trim_end_len(s) <= s.len(),
        trim_end_len(s) > 0 ==> !is_ws(s[trim_end_len(s) - 1]),
        forall|j: int| trim_end_len(s) <= j < s.len() ==> is_ws(#[trigger] s[j]),
    decreases s.len(),
{
    if s.len() > 0 && is_ws(s.last()) {
        lemma_trim_end_len(s.drop_last());
        assert forall|j: int| trim_end_len(s) <= j < s.len() implies is_ws(#[trigger] s[j]) by {
            if j < s.len() - 1 {
                assert(s.drop_last()[j] == s[j]);
            }
        }
    }
}

/// Indices `(a, b)` such that `v[a..b]` is `v[lo..hi]` trimmed.
pub fn trim_range(v: &Vec<char>, lo: usize, hi: usize) -> (r: (usize, usize))
    requires
        lo <= hi <= v@.len(),
    ensures
        lo <= r.0 <= r.1 <= hi,
        v@.subrange(r.0 as int, r.1 as int) == trim(v@.subrange(lo as int, hi as int)),
{
    let ghost s = v@.subrange(lo as int, hi as int);
    let mut a = lo;
    while a < hi && is_whitespace(v[a])
        invariant
            lo <= a <= hi <= v@.len(),
            s == v@.subrange(lo as int, hi as int),
            scan(s, (a - lo) as int, CharClass::Space) == scan(s, 0, CharClass::Space),
        decreases hi - a,
    {
        assert(s[(a - lo) as int] == v@[a as int]);
        a += 1;
    }
    assert(scan(s, 0, CharClass::Space) == a - lo) by {
        if a < hi {
            assert(s[(a - lo) as int] == v@[a as int]);
        }
    }
    let ghost t = s.skip((a - lo) as int);
    assert(t =~= v@.subrange(a as int, hi as int));
    let mut b = hi;
    while b > a && is_whitespace(v[b - 1])
        invariant
            lo <= a <= b <= hi <= v@.len(),
            t == v@.subrange(a as int, hi as int),
            trim_end_len(v@.subrange(a as int, b as int)) == trim_end_len(t),
        decreases b - a,
    {
        assert(v@.subrange(a as int, b as int).drop_last() =~= v@.subrange(a as int, b - 1));
        b -= 1;
    }
    assert(trim_end_len(v@.subrange(a as int, b as int)) == b - a);
    assert(t.take((b - a) as int) =~= v@.subrange(a as int, b as int));
    (a, b)
}

/// `char::to_ascii_lowercase`.
pub open spec fn ascii_lower(c: char) -> char {
    if 'A' <= c && c <= 'Z' {
        (((c as u8) + 32) as u8) as char
    } else {
        c
    }
}

pub fn to_ascii_lower(c: char) -> (r: char)
    ensures
        r == ascii_lower(c),
{
    if 'A' <= c && c <= 'Z' {
        let b: u8 = (c as u8) + 32;
        b as char
    } else {
        c
    }
}


/// What `str::from_utf8` reports, once written out, for bytes that are no UTF-8.
pub uninterp spec fn utf8_error_text(bytes: Seq<u8>) -> Seq<char>;

/// Calls `std::str::from_utf8`: the text of valid UTF-8 bytes, or the written-out error for
/// others. The contract states which bytes are valid and what they decode to (as vstd defines
/// UTF-8) and names the error text.
#[verifier::external_body]
pub(crate) fn text_from_utf8(bytes: &[u8]) -> (r: Result<String, String>)
    ensures
        r is Ok <==> valid_utf8(bytes@),
        r matches Ok(t) ==> t@ == decode_utf8(bytes@),
        r matches Err(m) ==> m@ == utf8_error_text(bytes@),
{
    std::str::from_utf8(bytes).map(|t| t.to_string()).map_err(|e| e.to_string())
}

pub open spec fn bytes_at(h: Seq<u8>, i: int, pat: Seq<u8>) -> bool {
    0 <= i && i + pat.len() <= h.len() && h.subrange(i, i + pat.len()) == pat
}

/// The first index at or after `from` where `pat` stands in `h`, or -1 (`str::find`).
pub open spec fn find_bytes(h: Seq<u8>, from: int, pat: Seq<u8>) -> int
    decreases h.len() + 1 - from,
{
    if from < 0 || from + pat.len() > h.len() {
        -1
    } else if bytes_at(h, from, pat) {
        from
    } else {
        find_bytes(h, from + 1, pat)
    }
}

pub proof fn lemma_find_bytes(h: Seq<u8>, from: int, pat: Seq<u8>)
    requires
        0 <= from,
    ensures
        find_bytes(h, from, pat) == -1 || (from <= find_bytes(h, from, pat) && find_bytes(h, from, pat) + pat.len() <= h.len() && bytes_at(h, find_bytes(h, from, pat), pat)),
    decreases h.len() + 1 - from,
{
    if from + pat.len() <= h.len() && !bytes_at(h, from, pat) {
        lemma_find_bytes(h, from + 1, pat);
    }
}

pub fn find_bytes_from(h: &[u8], from: usize, pat: &[u8]) -> (r: Option<usize>)
    ensures
        match r {
            Some(i) => find_bytes(h@, from as int, pat@) == i,
            None => find_bytes(h@, from as int, pat@) == -1,
        },
{
    let n = h.len();
    let m = pat.len();
    if m > n {
        return None;
    }
    let mut i = from;
    while i <= n - m
        invariant
            m <= n,
            n == h@.len(),
            m == pat@.len(),
            from <= i,
            find_bytes(h@, i as int, pat@) == find_bytes(h@, from as int, pat@),
        decreases n - i,
    {
        let mut j: usize = 0;
        let mut ok = true;
        while j < m
            invariant
                i + m <= n,
                m == pat@.len(),
                n == h@.len(),
                j <= m,
                ok == forall|k: int| 0 <= k < j ==> h@[i + k] == pat@[k],
            decreases m - j,
        {
            if h[i + j] != pat[j] {
                ok = false;
            }
            j += 1;
        }
        if ok {
            assert(h@.subrange(i as int, i + m) =~= pat@);
            return Some(i);
        }
        assert(!bytes_at(h@, i as int, pat@)) by {
            if bytes_at(h@, i as int, pat@) {
                assert forall|k: int| 0 <= k < m implies h@[i + k] == pat@[k] by {
                    assert(h@.subrange(i as int, i + m)[k] == h@[i + k]);
                }
            }
        }
        i += 1;
    }
    None
}

/// The text that the bytes `a..b` of `s` encode, `s` being cut at character boundaries there.
pub fn utf8_slice(s: &str, a: usize, b: usize) -> (r: String)
    requires
        a <= b <= s.spec_bytes().len(),
        is_char_boundary(s.spec_bytes(), a as int),
        is_char_boundary(s.spec_bytes(), b as int),
    ensures
        r@ == decode_utf8(s.spec_bytes().subrange(a as int, b as int)),
{
    let ghost hb = s.spec_bytes();
    let (left, _) = s.split_at(b);
    proof {
        vstd::utf8::encode_utf8_valid_utf8(s@);
        vstd::utf8::valid_utf8_split(hb, b as int);
        let s1 = hb.subrange(0, b as int);
        assert(left.spec_bytes() == s1);
        if a < b {
            vstd::utf8::is_char_boundary_iff_not_is_continuation_byte(hb, a as int);
            vstd::utf8::is_char_boundary_iff_not_is_continuation_byte(s1, a as int);
            assert(s1[a as int] == hb[a as int]);
        } else {
            vstd::utf8::is_char_boundary_start_end_of_seq(s1);
        }
        assert(s1.subrange(a as int, b as int) =~= hb.subrange(a as int, b as int));
    }
    let (_, mid) = left.split_at(a);
    proof {
        vstd::utf8::encode_utf8_decode_utf8(mid@);
    }
    mid.to_owned()
}

/// The first index at or after `from` where `pat` stands in `s`, or -1 (`str::find`).
pub open spec fn find_from(s: Seq<char>, from: int, pat: Seq<char>) -> int
    decreases s.len() + 1 - from,
{
    if from < 0 || from + pat.len() > s.len() {
        -1
    } else if has_at(s, from, pat) {
        from
    } else {
        find_from(s, from + 1, pat)
    }
}

pub proof fn lemma_find_from(s: Seq<char>, from: int, pat: Seq<char>)
    requires
        0 <= from,
    ensures
        find_from(s, from, pat) == -1 || (from <= find_from(s, from, pat) && find_from(s, from, pat)
            + pat.len() <= s.len() && has_at(s, find_from(s, from, pat), pat)),
        find_from(s, from, pat) == -1 ==> forall|k: int| from <= k ==> !#[trigger] has_at(s, k, pat),
        forall|k: int| from <= k < find_from(s, from, pat) ==> !#[trigger] has_at(s, k, pat),
    decreases s.len() + 1 - from,
{
    if from + pat.len() <= s.len() && !has_at(s, from, pat) {
        lemma_find_from(s, from + 1, pat);
    }
}

/// Where `pat` first stands in `v` at or after `from`.
pub fn find_chars(v: &Vec<char>, from: usize, pat: &Vec<char>) -> (r: Option<usize>)
    requires
        from <= v@.len(),
    ensures
        match r {
            Some(i) => find_from(v@, from as int, pat@) == i,
            None => find_from(v@, from as int, pat@) == -1,
        },
{
    let n = v.len();
    let m = pat.len();
    if m > n - from {
        return None;
    }
    if m == 0 {
        assert(v@.subrange(from as int, from as int) =~= pat@);
        return Some(from);
    }
    let mut i = from;
    while i <= n - m
        invariant
            from <= i,
            0 < m,
            m <= n,
            n == v@.len(),
            m == pat@.len(),
            find_from(v@, i as int, pat@) == find_from(v@, from as int, pat@),
        decreases n - i,
    {
        if matches_at(v, i, pat) {
            return Some(i);
        }
        i += 1;
    }
    None
}

/// Whether `v[lo..hi]` holds exactly the characters of `pat`.
pub fn range_is(v: &Vec<char>, lo: usize, hi: usize, pat: &Vec<char>) -> (r: bool)
    requires
        lo <= hi <= v@.len(),
    ensures
        r == (v@.subrange(lo as int, hi as int) == pat@),
{
    if hi - lo != pat.len() {
        return false;
    }
    let b = matches_at(v, lo, pat);
    proof {
        if v@.subrange(lo as int, hi as int) == pat@ {
            assert(has_at(v@, lo as int, pat@));
        }
    }
    b
}

/// The index after an ASCII byte that starts a character is a character boundary too.
pub proof fn lemma_boundary_after_ascii(h: Seq<u8>, i: int)
    requires
        valid_utf8(h),
        0 <= i < h.len(),
        is_char_boundary(h, i),
        h[i] < 0x80,
    ensures
        is_char_boundary(h, i + 1),
    decreases h.len(),
{
    let n = vstd::utf8::length_of_first_scalar(h);
    let p = vstd::utf8::pop_first_scalar(h);
    if i == 0 {
        assert(n == 1);
        assert(is_char_boundary(p, 0));
    } else {
        assert(valid_utf8(p));
        assert(is_char_boundary(p, i - n));
        assert(i - n >= 0);
        assert(p[i - n] == h[i]);
        assert(1 <= n <= h.len());
        assert(p.len() < h.len());
        lemma_boundary_after_ascii(p, i - n);
    }
}

/// `s` without one leading `+` or `-`.
pub open spec fn unsigned_part(s: Seq<char>) -> Seq<char> {
    if s.len() > 0 && (s[0] == '+' || s[0] == '-') {
        s.skip(1)
    } else {
        s
    }
}

/// The exponent after `e`: an optional sign and at least one digit, and nothing more.
pub open spec fn exponent_syntax(e: Seq<char>) -> bool {
    let d = unsigned_part(e);
    d.len() > 0 && scan(d, 0, CharClass::Digit) == d.len()
}

/// Digits, an optional `.` with more digits, at least one digit in all, then an optional
/// exponent introduced by `e` or `E`.
pub open spec fn number_syntax(b: Seq<char>) -> bool {
    let i = scan(b, 0, CharClass::Digit);
    let j = if i < b.len() && b[i] == '.' { scan(b, i + 1, CharClass::Digit) } else { i };
    let fraction_digits = if i < b.len() && b[i] == '.' { j - (i + 1) } else { 0 };
    &&& i > 0 || fraction_digits > 0
    &&& j == b.len() || ((b[j] == 'e' || b[j] == 'E') && exponent_syntax(b.skip(j + 1)))
}

/// `inf`, `infinity` or `nan`, in any mix of ASCII case.
pub open spec fn special_float(b: Seq<char>) -> bool {
    let l = b.map_values(|c: char| ascii_lower(c));
    l == seq!['i', 'n', 'f'] || l == seq!['i', 'n', 'f', 'i', 'n', 'i', 't', 'y'] || l == seq![
        'n',
        'a',
        'n',
    ]
}

/// The text that `f32::from_str` and `f64::from_str` accept, as their documentation gives the
/// grammar: an optional sign, then `inf`, `infinity`, `nan` or a decimal number.
pub open spec fn float_syntax(s: Seq<char>) -> bool {
    let b = unsigned_part(s);
    special_float(b) || number_syntax(b)
}

fn is_special_float(b: &Vec<char>, lo: usize) -> (r: bool)
    requires
        lo <= b@.len(),
    ensures
        r == special_float(b@.skip(lo as int)),
{
    let ghost t = b@.skip(lo as int);
    let ghost l = t.map_values(|c: char| ascii_lower(c));
    let n = b.len() - lo;
    if n != 3 && n != 8 {
        assert(l.len() == n);
        assert(seq!['i', 'n', 'f'].len() == 3);
        assert(seq!['n', 'a', 'n'].len() == 3);
        assert(seq!['i', 'n', 'f', 'i', 'n', 'i', 't', 'y'].len() == 8);
        return false;
    }
    let mut w: Vec<char> = Vec::new();
    let mut i = lo;
    while i < b.len()
        invariant
            lo <= i <= b@.len(),
            t == b@.skip(lo as int),
            l == t.map_values(|c: char| ascii_lower(c)),
            w@ == l.take(i - lo),
        decreases b@.len() - i,
    {
        w.push(to_ascii_lower(b[i]));
        i += 1;
        assert(w@ =~= l.take(i - lo));
    }
    assert(w@ =~= l);
    if n == 3 {
        let inf = w[0] == 'i' && w[1] == 'n' && w[2] == 'f';
        let nan = w[0] == 'n' && w[1] == 'a' && w[2] == 'n';
        proof {
            if inf {
                assert(l =~= seq!['i', 'n', 'f']);
            }
            if nan {
                assert(l =~= seq!['n', 'a', 'n']);
            }
            if l == seq!['i', 'n', 'f'] {
                assert(l[0] == 'i' && l[1] == 'n' && l[2] == 'f');
            }
            if l == seq!['n', 'a', 'n'] {
                assert(l[0] == 'n' && l[1] == 'a' && l[2] == 'n');
            }
        }
        inf || nan
    } else {
        let infinity = w[0] == 'i' && w[1] == 'n' && w[2] == 'f' && w[3] == 'i' && w[4] == 'n'
            && w[5] == 'i' && w[6] == 't' && w[7] == 'y';
        proof {
            let word = seq!['i', 'n', 'f', 'i', 'n', 'i', 't', 'y'];
            if infinity {
                assert(l =~= word);
            }
            if l == word {
                assert(l[0] == word[0] && l[1] == word[1] && l[2] == word[2] && l[3] == word[3]);
                assert(l[4] == word[4] && l[5] == word[5] && l[6] == word[6] && l[7] == word[7]);
            }
        }
        infinity
    }
}

fn exponent_ok(b: &Vec<char>, lo: usize) -> (r: bool)
    requires
        lo <= b@.len(),
    ensures
        r == exponent_syntax(b@.skip(lo as int)),
{
    let ghost e = b@.skip(lo as int);
    let mut k = lo;
    if k < b.len() && (b[k] == '+' || b[k] == '-') {
        k += 1;
    }
    let ghost d = unsigned_part(e);
    assert(d =~= b@.skip(k as int));
    let m = scan_chars(b, k, CharClass::Digit);
    proof {
        lemma_scan_shift_by(b@, k as int, CharClass::Digit);
    }
    m > k && m == b.len()
}

/// `scan` on a suffix, as an index into the whole sequence.
pub proof fn lemma_scan_shift_by(s: Seq<char>, k: int, c: CharClass)
    requires
        0 <= k <= s.len(),
    ensures
        scan(s.skip(k), 0, c) == scan(s, k, c) - k,
{
    lemma_scan_suffix(s, k, k, c);
}

proof fn lemma_scan_suffix(s: Seq<char>, k: int, i: int, c: CharClass)
    requires
        0 <= k <= i <= s.len(),
    ensures
        scan(s.skip(k), i - k, c) == scan(s, i, c) - k,
    decreases s.len() - i,
{
    if i < s.len() {
        assert(s.skip(k)[i - k] == s[i]);
        if in_class(c, s[i]) {
            lemma_scan_suffix(s, k, i + 1, c);
        }
    }
}

/// Whether `f32::from_str` (or `f64::from_str`) accepts the characters of `s`.
pub fn float_syntax_of(s: &Vec<char>) -> (r: bool)
    ensures
        r == float_syntax(s@),
{
    let mut lo: usize = 0;
    if s.len() > 0 && (s[0] == '+' || s[0] == '-') {
        lo = 1;
    }
    let ghost b = unsigned_part(s@);
    assert(b =~= s@.skip(lo as int));
    if is_special_float(s, lo) {
        return true;
    }
    let i = scan_chars(s, lo, CharClass::Digit);
    let mut j = i;
    let mut fraction = false;
    if i < s.len() && s[i] == '.' {
        j = scan_chars(s, i + 1, CharClass::Digit);
        fraction = j > i + 1;
    }
    proof {
        lemma_scan_shift_by(s@, lo as int, CharClass::Digit);
        lemma_scan(s@, lo as int, CharClass::Digit);
        if i < s.len() && s@[i as int] == '.' {
            lemma_scan(s@, i + 1, CharClass::Digit);
            assert(b[i - lo] == s@[i as int]);
            assert(scan(b, i - lo + 1, CharClass::Digit) == j - lo) by {
                lemma_scan_suffix(s@, lo as int, i + 1, CharClass::Digit);
            }
        } else if i < s.len() {
            assert(b[i - lo] == s@[i as int]);
        }
        if j < s.len() {
            assert(b[j - lo] == s@[j as int]);
            assert(b.skip(j - lo + 1) =~= s@.skip(j + 1));
        }
    }
    if !(i > lo || fraction) {
        return false;
    }
    if j == s.len() {
        return true;
    }
    (s[j] == 'e' || s[j] == 'E') && exponent_ok(s, j + 1)
}

/// The character of a decimal digit.
pub open spec fn digit_char(d: nat) -> char {
    ((48 + d) as u8) as char
}

/// The decimal numeral of a number, without leading zeros (`u64`'s `Display`).
pub open spec fn decimal(n: nat) -> Seq<char>
    decreases n,
{
    if n < 10 {
        seq![digit_char(n)]
    } else {
        decimal(n / 10).push(digit_char(n % 10))
    }
}

pub proof fn lemma_decimal_digits(n: nat)
    ensures
        decimal(n).len() >= 1,
        n >= 10 ==> decimal(n).len() >= 2,
        forall|i: int| 0 <= i < decimal(n).len() ==> '0' <= #[trigger] decimal(n)[i] <= '9',
    decreases n,
{
    if n >= 10 {
        lemma_decimal_digits(n / 10);
        assert forall|i: int| 0 <= i < decimal(n).len() implies '0' <= #[trigger] decimal(n)[i]
            <= '9' by {
            if i < decimal(n).len() - 1 {
                assert(decimal(n)[i] == decimal(n / 10)[i]);
            }
        }
    }
}

proof fn lemma_digit_char_injective(a: nat, b: nat)
    requires
        a < 10,
        b < 10,
        digit_char(a) == digit_char(b),
    ensures
        a == b,
{
    assert(((48 + a) as u8) as char as u32 == 48 + a);
    assert(((48 + b) as u8) as char as u32 == 48 + b);
}

/// Different numbers have different numerals.
pub proof fn lemma_decimal_injective(n: nat, m: nat)
    requires
        decimal(n) == decimal(m),
    ensures
        n == m,
    decreases n,
{
    lemma_decimal_digits(n);
    lemma_decimal_digits(m);
    if n < 10 && m < 10 {
        assert(decimal(n) == seq![digit_char(n)]);
        assert(decimal(m) == seq![digit_char(m)]);
        assert(seq![digit_char(n)][0] == digit_char(n));
        assert(seq![digit_char(m)][0] == digit_char(m));
        lemma_digit_char_injective(n, m);
    } else if n >= 10 && m >= 10 {
        assert(decimal(n) == decimal(n / 10).push(digit_char(n % 10)));
        assert(decimal(m) == decimal(m / 10).push(digit_char(m % 10)));
        assert(decimal(n).last() == digit_char(n % 10));
        assert(decimal(m).last() == digit_char(m % 10));
        assert(decimal(n / 10) =~= decimal(n).drop_last());
        assert(decimal(m / 10) =~= decimal(m).drop_last());
        lemma_decimal_injective(n / 10, m / 10);
        lemma_digit_char_injective(n % 10, m % 10);
        assert(n == 10 * (n / 10) + n % 10);
        assert(m == 10 * (m / 10) + m % 10);
    } else {
        assert(decimal(n).len() != decimal(m).len());
    }
}

/// Appends the decimal numeral of `n` to `out`.
pub fn push_decimal(n: u64, out: &mut Vec<char>)
    ensures
        final(out)@ == old(out)@ + decimal(n as nat),
    decreases n,
{
    if n >= 10 {
        push_decimal(n / 10, out);
    }
    let d: u8 = (n % 10) as u8;
    let c: char = (48u8 + d) as char;
    let ghost before = out@;
    out.push(c);
    proof {
        assert(c == digit_char((n % 10) as nat));
        if n >= 10 {
            assert(before.push(c) =~= old(out)@ + decimal(n as nat));
        } else {
            assert(before.push(c) =~= old(out)@ + decimal(n as nat));
        }
    }
}

/// `str::split_whitespace`: the runs of non-whitespace characters, in order.
pub open spec fn words(s: Seq<char>) -> Seq<Seq<char>>
    decreases s.len(),
{
    let i = scan(s, 0, CharClass::Space);
    if i >= s.len() {
        Seq::empty()
    } else {
        let j = scan(s, i, CharClass::Word);
        proof {
            lemma_scan(s, 0, CharClass::Space);
            lemma_scan(s, i, CharClass::Word);
        }
        seq![s.subrange(i, j)] + words(s.skip(j))
    }
}

/// Whether `w` is one of the whitespace-separated words of `text`.
pub fn has_word(text: &Vec<char>, w: &Vec<char>) -> (r: bool)
    ensures
        r == words(text@).contains(w@),
{
    let n = text.len();
    let mut pos: usize = 0;
    let ghost mut seen: Seq<Seq<char>> = Seq::empty();
    assert(text@.skip(0) =~= text@);
    while pos < n
        invariant
            pos <= n == text@.len(),
            words(text@) == seen + words(text@.skip(pos as int)),
            !seen.contains(w@),
        decreases n - pos,
    {
        let ghost rest = text@.skip(pos as int);
        let i = scan_chars(text, pos, CharClass::Space);
        proof {
            lemma_scan(text@, pos as int, CharClass::Space);
            crate::text::lemma_scan_shift_by(text@, pos as int, CharClass::Space);
        }
        if i >= n {
            proof {
                assert(words(rest) == Seq::<Seq<char>>::empty());
                assert(seen + Seq::<Seq<char>>::empty() =~= seen);
            }
            return false;
        }
        let j = scan_chars(text, i, CharClass::Word);
        proof {
            lemma_scan(text@, i as int, CharClass::Word);
            lemma_scan_suffix(text@, pos as int, i as int, CharClass::Word);
            assert(rest[i - pos] == text@[i as int]);
            assert(rest.subrange(i - pos, j - pos) =~= text@.subrange(i as int, j as int));
            assert(rest.skip(j - pos) =~= text@.skip(j as int));
        }
        let same = range_is(text, i, j, w);
        if same {
            proof {
                assert(words(text@) == seen + (seq![w@] + words(text@.skip(j as int))));
                assert((seen + (seq![w@] + words(text@.skip(j as int))))[seen.len() as int] == w@);
            }
            return true;
        }
        proof {
            let piece = text@.subrange(i as int, j as int);
            assert(seen.push(piece) + words(text@.skip(j as int)) =~= seen + (seq![piece] + words(
                text@.skip(j as int),
            )));
            assert(!seen.push(piece).contains(w@)) by {
                if seen.push(piece).contains(w@) {
                    let k = choose|k: int| 0 <= k < seen.push(piece).len() && seen.push(piece)[k] == w@;
                    if k < seen.len() {
                        assert(seen[k] == w@);
                    }
                }
            }
            seen = seen.push(piece);
        }
        pos = j;
    }
    proof {
        assert(text@.skip(pos as int) =~= Seq::<char>::empty());
        assert(words(text@.skip(pos as int)) == Seq::<Seq<char>>::empty());
        assert(seen + Seq::<Seq<char>>::empty() =~= seen);
    }
    false
}

/// `str::split(sep)`: the pieces between the separators, empty ones too.
pub open spec fn split_on(s: Seq<char>, sep: char) -> Seq<Seq<char>>
    decreases s.len(),
{
    let j = scan(s, 0, CharClass::Not(sep));
    if j >= s.len() {
        seq![s]
    } else {
        proof {
            lemma_scan(s, 0, CharClass::Not(sep));
        }
        seq![s.take(j)] + split_on(s.skip(j + 1), sep)
    }
}

/// A scan over characters that are all in the class runs to the first one that is not.
pub proof fn lemma_scan_run(s: Seq<char>, i: int, j: int, k: CharClass)
    requires
        0 <= i <= j <= s.len(),
        forall|m: int| i <= m < j ==> in_class(k, #[trigger] s[m]),
        j == s.len() || !in_class(k, s[j]),
    ensures
        scan(s, i, k) == j,
    decreases j - i,
{
    if i < j {
        lemma_scan_run(s, i + 1, j, k);
    }
}

/// Trimming leaves a text alone whose first and last characters are no whitespace.
pub proof fn lemma_trim_plain(s: Seq<char>)
    requires
        s.len() > 0,
        !is_ws(s[0]),
        !is_ws(s[s.len() - 1]),
    ensures
        trim(s) == s,
{
    assert(scan(s, 0, CharClass::Space) == 0);
    assert(s.skip(0) =~= s);
    assert(trim_end_len(s) == s.len());
    assert(s.take(s.len() as int) =~= s);
}

/// `find_from` gives the first index at which the pattern stands.
pub proof fn lemma_find_first(s: Seq<char>, pat: Seq<char>, k: int)
    requires
        0 <= k,
        has_at(s, k, pat),
        forall|m: int| 0 <= m < k ==> !#[trigger] has_at(s, m, pat),
    ensures
        find_from(s, 0, pat) == k,
{
    lemma_find_from(s, 0, pat);
    let f = find_from(s, 0, pat);
    if f == -1 {
        assert(!has_at(s, k, pat));
    } else if f < k {
        assert(!has_at(s, f, pat));
    } else if f > k {
        assert(!has_at(s, k, pat));
    }
}

/// The characters a float's text is made of.
pub open spec fn float_char(c: char) -> bool {
    ||| ('0' <= c && c <= '9')
    ||| c == '.' || c == '+' || c == '-'
    ||| ('a' <= c && c <= 'z')
    ||| ('A' <= c && c <= 'Z')
}

proof fn lemma_digits_run(s: Seq<char>, i: int)
    requires
        0 <= i <= s.len(),
    ensures
        forall|m: int| i <= m < scan(s, i, CharClass::Digit) ==> float_char(#[trigger] s[m]),
{
    lemma_scan(s, i, CharClass::Digit);
    assert forall|m: int| i <= m < scan(s, i, CharClass::Digit) implies float_char(#[trigger] s[m]) by {
        assert(in_class(CharClass::Digit, s[m]));
    }
}

/// A text that `f32::from_str` accepts is not empty and is made of float characters.
pub proof fn lemma_float_chars(t: Seq<char>)
    requires
        float_syntax(t),
    ensures
        t.len() > 0,
        forall|m: int| 0 <= m < t.len() ==> float_char(#[trigger] t[m]),
{
    let signed = t.len() > 0 && (t[0] == '+' || t[0] == '-');
    let off: int = if signed { 1 } else { 0 };
    let b = unsigned_part(t);
    assert(b =~= t.skip(off));
    if special_float(b) {
        let l = b.map_values(|c: char| ascii_lower(c));
        assert(l.len() == b.len());
        assert(b.len() > 0) by {
            if b.len() == 0 {
                assert(l =~= Seq::<char>::empty());
                assert(seq!['i', 'n', 'f'].len() == 3);
                assert(seq!['n', 'a', 'n'].len() == 3);
                assert(seq!['i', 'n', 'f', 'i', 'n', 'i', 't', 'y'].len() == 8);
            }
        }
        assert forall|m: int| 0 <= m < b.len() implies float_char(#[trigger] b[m]) by {
            let c = b[m];
            assert(l[m] == ascii_lower(c));
            if l == seq!['i', 'n', 'f'] {
                assert(l[m] == 'i' || l[m] == 'n' || l[m] == 'f');
            } else if l == seq!['n', 'a', 'n'] {
                assert(l[m] == 'n' || l[m] == 'a');
            } else {
                let w = seq!['i', 'n', 'f', 'i', 'n', 'i', 't', 'y'];
                assert(l == w);
                assert(l[m] == w[m]);
                assert(l[m] == 'i' || l[m] == 'n' || l[m] == 'f' || l[m] == 't' || l[m] == 'y');
            }
        }
    } else {
        let i = scan(b, 0, CharClass::Digit);
        lemma_scan(b, 0, CharClass::Digit);
        lemma_digits_run(b, 0);
        let dot = i < b.len() && b[i] == '.';
        let j = if dot { scan(b, i + 1, CharClass::Digit) } else { i };
        if dot {
            lemma_scan(b, i + 1, CharClass::Digit);
            lemma_digits_run(b, i + 1);
        }
        assert(b.len() > 0);
        assert forall|m: int| 0 <= m < b.len() implies float_char(#[trigger] b[m]) by {
            if m < i {
            } else if dot && m == i {
            } else if m < j {
            } else if m == j {
            } else {
                let e = b.skip(j + 1);
                let eoff: int = if e.len() > 0 && (e[0] == '+' || e[0] == '-') { 1 } else { 0 };
                let d = unsigned_part(e);
                assert(d =~= e.skip(eoff));
                lemma_digits_run(d, 0);
                if m == j + 1 && eoff == 1 {
                    assert(b[m] == e[0]);
                } else {
                    assert(b[m] == d[m - j - 1 - eoff]);
                }
            }
        }
    }
    assert forall|m: int| 0 <= m < t.len() implies float_char(#[trigger] t[m]) by {
        if m >= off {
            assert(t[m] == b[m - off]);
        }
    }
}

} // verus!
