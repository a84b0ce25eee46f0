//! Character-level text handling shared by the adapters and the session.
//!
//! Every piece of text is modelled as its sequence of Unicode scalar values
//! (`Seq<char>`, the view of `str` and `String`). The delimiters this crate
//! splits on (newline, tab, brackets, quotes) are all ASCII, so splitting the
//! characters is the same as splitting the UTF-8 bytes.
use vstd::prelude::*;
use vstd::utf8::*;

verus! {

broadcast use vstd::string::axiom_spec_iter;

/// `true` for the characters that carry Unicode's `White_Space` property,
/// which is the set that `char::is_whitespace` (and so `str::trim`) removes.
pub open spec fn is_white_space(c: char) -> bool {
    ||| ('\t' <= c && c <= '\r')
    ||| c == ' '
    ||| c == '\u{85}'
    ||| c == '\u{a0}'
    ||| c == '\u{1680}'
    ||| ('\u{2000}' <= c && c <= '\u{200a}')
    ||| c == '\u{2028}'
    ||| c == '\u{2029}'
    ||| c == '\u{202f}'
    ||| c == '\u{205f}'
    ||| c == '\u{3000}'
}

/// `s` without its leading white space.
pub open spec fn trim_start(s: Seq<char>) -> Seq<char>
    decreases s.len(),
{
    if s.len() > 0 && is_white_space(s[0]) {
        trim_start(s.drop_first())
    } else {
        s
    }
}

/// `s` without its trailing white space.
pub open spec fn trim_end(s: Seq<char>) -> Seq<char>
    decreases s.len(),
{
    if s.len() > 0 && is_white_space(s.last()) {
        trim_end(s.drop_last())
    } else {
        s
    }
}

/// `s` without leading and trailing white space (what `str::trim` returns).
pub open spec fn trim(s: Seq<char>) -> Seq<char> {
    trim_end(trim_start(s))
}

/// `needle` occurs in `hay` at position `i`.
pub open spec fn occurs_at(hay: Seq<char>, needle: Seq<char>, i: int) -> bool {
    0 <= i && i + needle.len() <= hay.len() && hay.subrange(i, i + needle.len()) == needle
}

/// The first position at or after `from` where `needle` occurs in `hay`.
pub open spec fn find_from(hay: Seq<char>, needle: Seq<char>, from: int) -> Option<int>
    decreases hay.len() + 1 - from,
{
    if from < 0 || from + needle.len() > hay.len() {
        None
    } else if occurs_at(hay, needle, from) {
        Some(from)
    } else {
        find_from(hay, needle, from + 1)
    }
}

/// The first position where `needle` occurs in `hay` (what `str::find` returns,
/// counted in characters).
pub open spec fn find(hay: Seq<char>, needle: Seq<char>) -> Option<int> {
    find_from(hay, needle, 0)
}

/// The first position at or after `from` that holds the character `c`.
pub open spec fn find_char_from(s: Seq<char>, c: char, from: int) -> Option<int>
    decreases s.len() - from,
{
    if from < 0 || from >= s.len() {
        None
    } else if s[from] == c {
        Some(from)
    } else {
        find_char_from(s, c, from + 1)
    }
}

/// What `find_char_from` finds: the first occurrence at or after `from`.
pub proof fn lemma_find_char_from(s: Seq<char>, c: char, from: int)
    requires
        0 <= from,
    ensures
        find_char_from(s, c, from) matches Some(k) ==> from <= k < s.len() && s[k] == c
            && forall|j: int| from <= j < k ==> s[j] != c,
        find_char_from(s, c, from) is None ==> forall|j: int| from <= j < s.len() ==> s[j] != c,
    decreases s.len() - from,
{
    if from < 0 || from >= s.len() {
    } else if s[from] == c {
    } else {
        lemma_find_char_from(s, c, from + 1);
    }
}

/// The pieces of `s` between occurrences of `sep` (what `str::split` yields
/// for a one-character separator): one more piece than there are separators.
pub open spec fn split_on(s: Seq<char>, sep: char) -> Seq<Seq<char>>
    decreases s.len(),
{
    match find_char_from(s, sep, 0) {
        Some(k) => {
            proof {
                lemma_find_char_from(s, sep, 0);
            }
            seq![s.subrange(0, k)] + split_on(s.subrange(k + 1, s.len() as int), sep)
        },
        None => seq![s],
    }
}

/// A line with one trailing carriage return removed, if it has one.
pub open spec fn strip_cr(line: Seq<char>) -> Seq<char> {
    if line.len() > 0 && line.last() == '\r' {
        line.drop_last()
    } else {
        line
    }
}

/// The lines of `s` as `str::lines` yields them: split at `\n`, with a `\r`
/// right before a `\n` dropped, and no empty line after a final `\n`.
pub open spec fn lines(s: Seq<char>) -> Seq<Seq<char>>
    decreases s.len(),
{
    if s.len() == 0 {
        seq![]
    } else {
        match find_char_from(s, '\n', 0) {
            Some(k) => {
                proof {
                    lemma_find_char_from(s, '\n', 0);
                }
                seq![strip_cr(s.subrange(0, k))] + lines(s.subrange(k + 1, s.len() as int))
            },
            None => seq![s],
        }
    }
}

/// The value of a character `'0'..='9'`.
pub open spec fn digit_value(c: char) -> int {
    (c as int) - ('0' as int)
}

pub open spec fn is_digit(c: char) -> bool {
    '0' <= c && c <= '9'
}

/// All characters of `s` are ASCII decimal digits.
pub open spec fn all_digits(s: Seq<char>) -> bool {
    forall|i: int| 0 <= i < s.len() ==> is_digit(#[trigger] s[i])
}

/// The number that the decimal digits `s` spell.
pub open spec fn decimal_value(s: Seq<char>) -> int
    decreases s.len(),
{
    if s.len() == 0 {
        0
    } else {
        decimal_value(s.drop_last()) * 10 + digit_value(s.last())
    }
}

/// The sign of a textual integer and the digits after it.
pub open spec fn sign_and_digits(s: Seq<char>) -> (bool, Seq<char>) {
    if s.len() > 0 && s[0] == '-' {
        (true, s.drop_first())
    } else if s.len() > 0 && s[0] == '+' {
        (false, s.drop_first())
    } else {
        (false, s)
    }
}

/// The `i64` that `str::parse::<i64>` reads from `s`: an optional `+` or `-`,
/// then at least one ASCII digit and nothing else, with a value in range.
pub open spec fn parse_i64(s: Seq<char>) -> Option<i64> {
    let (neg, digits) = sign_and_digits(s);
    let v = if neg { -decimal_value(digits) } else { decimal_value(digits) };
    if digits.len() > 0 && all_digits(digits) && i64::MIN <= v <= i64::MAX {
        Some(v as i64)
    } else {
        None
    }
}

/// Why `str::parse::<i64>` rejects a text (std's `IntErrorKind`).
#[derive(Debug, Clone, Copy, PartialEq, Eq, Structural)]
pub enum NumberError {
    /// The text is empty.
    Empty,
    /// A character is not a digit (a lone sign counts as one).
    InvalidDigit,
    /// The number is above `i64::MAX`.
    PosOverflow,
    /// The number is below `i64::MIN`.
    NegOverflow,
}

/// The first fault met reading the digits `d` of a number left to right: a
/// character that is not a digit, or the first digit at which the value read
/// so far leaves the range (`neg` selects the range of a negative number).
pub open spec fn digits_fault(d: Seq<char>, neg: bool) -> Option<NumberError>
    decreases d.len(),
{
    if d.len() == 0 {
        None
    } else {
        match digits_fault(d.drop_last(), neg) {
            Some(e) => Some(e),
            None => if !is_digit(d.last()) {
                Some(NumberError::InvalidDigit)
            } else if neg && decimal_value(d) > 9223372036854775808 {
                Some(NumberError::NegOverflow)
            } else if !neg && decimal_value(d) > 9223372036854775807 {
                Some(NumberError::PosOverflow)
            } else {
                None
            },
        }
    }
}

/// The error `str::parse::<i64>` reports for `s`, where `parse_i64(s)` is
/// `None`: an empty text, a lone sign, or the first fault in the digits.
pub open spec fn parse_i64_error(s: Seq<char>) -> NumberError {
    let (neg, digits) = sign_and_digits(s);
    if s.len() == 0 {
        NumberError::Empty
    } else if digits.len() == 0 {
        NumberError::InvalidDigit
    } else {
        digits_fault(digits, neg)->0
    }
}

/// A fault in a prefix is the fault of the whole.
proof fn lemma_digits_fault_stays(d: Seq<char>, neg: bool, k: int)
    requires
        0 <= k <= d.len(),
        digits_fault(d.take(k), neg) is Some,
    ensures
        digits_fault(d, neg) == digits_fault(d.take(k), neg),
    decreases d.len() - k,
{
    if k < d.len() {
        assert(d.take(k + 1).drop_last() =~= d.take(k));
        lemma_digits_fault_stays(d, neg, k + 1);
    } else {
        assert(d.take(k) =~= d);
    }
}

/// A number's value is at least that of any prefix of its digits.
proof fn lemma_decimal_prefix_le(d: Seq<char>, k: int)
    requires
        0 <= k <= d.len(),
        all_digits(d),
    ensures
        decimal_value(d.take(k)) <= decimal_value(d),
    decreases d.len(),
{
    if k < d.len() {
        let p = d.drop_last();
        assert(all_digits(p));
        assert(p.take(k) =~= d.take(k));
        lemma_decimal_prefix_le(p, k);
        lemma_decimal_nonneg(p);
    } else {
        assert(d.take(k) =~= d);
    }
}

/// `p` is a prefix of `s`.
pub open spec fn starts_with(s: Seq<char>, p: Seq<char>) -> bool {
    p.len() <= s.len() && s.subrange(0, p.len() as int) == p
}

/// `v` is how far `bytes` are valid UTF-8: their longest prefix that is valid
/// UTF-8 has length `v`.
pub open spec fn is_valid_up_to(bytes: Seq<u8>, v: int) -> bool {
    &&& 0 <= v <= bytes.len()
    &&& valid_utf8(bytes.subrange(0, v))
    &&& forall|j: int| v < j <= bytes.len() ==> !valid_utf8(#[trigger] bytes.subrange(0, j))
}

/// The length of the longest prefix of `bytes` that is valid UTF-8.
pub open spec fn valid_up_to(bytes: Seq<u8>) -> usize {
    choose|v: usize| is_valid_up_to(bytes, v as int)
}

/// There is only one such length.
pub proof fn lemma_valid_up_to(bytes: Seq<u8>, v: usize)
    requires
        is_valid_up_to(bytes, v as int),
    ensures
        valid_up_to(bytes) == v,
{
    let w = valid_up_to(bytes);
    assert(is_valid_up_to(bytes, w as int));
    if w < v {
        assert(!valid_utf8(bytes.subrange(0, v as int)));
    } else if v < w {
        assert(!valid_utf8(bytes.subrange(0, w as int)));
    }
}

/// What `Utf8Error::error_len` reports for `bytes` that are not UTF-8: the
/// length of the invalid sequence that starts where the valid prefix ends, or
/// `None` when the input ends in the middle of a character.
pub uninterp spec fn utf8_error_len(bytes: Seq<u8>) -> Option<usize>;

/// `std::str::from_utf8`: `Ok` exactly when `bytes` is valid UTF-8, and then
/// the text whose UTF-8 encoding is `bytes`; otherwise the error's
/// `valid_up_to()`, documented as the largest index up to which the input
/// decodes, and its `error_len()`.
#[verifier::external_body]
pub fn utf8_text(bytes: &[u8]) -> (r: Result<&str, (usize, Option<usize>)>)
    ensures
        r is Ok <==> valid_utf8(bytes@),
        r matches Ok(t) ==> encode_utf8(t@) == bytes@,
        r matches Err(f) ==> is_valid_up_to(bytes@, f.0 as int) && f.1 == utf8_error_len(
            bytes@,
        ),
{
    match std::str::from_utf8(bytes) {
        Ok(t) => Ok(t),
        Err(e) => Err((e.valid_up_to(), e.error_len())),
    }
}

/// Collects characters into a `String` (`FromIterator<&char> for String`).
#[verifier::external_body]
pub fn string_from_chars(cs: &[char]) -> (s: String)
    ensures
        s@ == cs@,
{
    String::from_iter(cs)
}

/// The characters of `s`, in order.
pub fn chars_of(s: &str) -> (r: Vec<char>)
    ensures
        r@ == s@,
{
    let mut v: Vec<char> = Vec::new();
    for c in it: s.chars()
        invariant
            v@ == it.seq().take(it.index() as int),
            it.seq() == s@,
    {
        v.push(c);
    }
    v
}

/// The text that `bytes` encode as UTF-8; when they are not UTF-8, how far
/// they are valid and the length of the invalid sequence there.
pub fn decode_text(bytes: &[u8]) -> (r: Result<Vec<char>, (usize, Option<usize>)>)
    ensures
        r is Ok <==> valid_utf8(bytes@),
        r matches Ok(cs) ==> cs@ == decode_utf8(bytes@),
        r matches Err(f) ==> f == (valid_up_to(bytes@), utf8_error_len(bytes@)),
{
    match utf8_text(bytes) {
        Ok(t) => {
            proof {
                encode_utf8_decode_utf8(t@);
            }
            Ok(chars_of(t))
        },
        Err(f) => {
            proof {
                lemma_valid_up_to(bytes@, f.0);
            }
            Err(f)
        },
    }
}

/// Equality of two texts.
pub fn str_eq(a: &str, b: &str) -> (r: bool)
    ensures
        r == (a@ == b@),
{
    let x: String = a.to_owned();
    let y: String = b.to_owned();
    x == y
}

/// Equality of a character slice and a text.
pub fn chars_eq(a: &[char], b: &[char]) -> (r: bool)
    ensures
        r == (a@ == b@),
{
    if a.len() != b.len() {
        return false;
    }
    let mut i: usize = 0;
    while i < a.len()
        invariant
            a@.len() == b@.len(),
            i <= a@.len(),
            forall|j: int| 0 <= j < i ==> a@[j] == b@[j],
        decreases a@.len() - i,
    {
        if a[i] != b[i] {
            return false;
        }
        i = i + 1;
    }
    assert(a@ =~= b@);
    true
}

/// `s` starts with `p`.
pub fn str_starts_with(s: &str, p: &str) -> (r: bool)
    ensures
        r == starts_with(s@, p@),
{
    let sc = chars_of(s);
    let pc = chars_of(p);
    if pc.len() > sc.len() {
        return false;
    }
    let mut i: usize = 0;
    while i < pc.len()
        invariant
            sc@ == s@,
            pc@ == p@,
            pc@.len() <= sc@.len(),
            i <= pc@.len(),
            forall|j: int| 0 <= j < i ==> sc@[j] == pc@[j],
        decreases pc@.len() - i,
    {
        if sc[i] != pc[i] {
            assert(sc@.subrange(0, pc@.len() as int)[i as int] != pc@[i as int]);
            assert(sc@.subrange(0, pc@.len() as int) != pc@);
            return false;
        }
        i = i + 1;
    }
    assert(sc@.subrange(0, pc@.len() as int) =~= pc@);
    true
}

/// `char::is_whitespace`.
pub fn is_whitespace(c: char) -> (r: bool)
    ensures
        r == is_white_space(c),
{
    ('\t' <= c && c <= '\r') || c == ' ' || c == '\u{85}' || c == '\u{a0}' || c == '\u{1680}'
        || ('\u{2000}' <= c && c <= '\u{200a}') || c == '\u{2028}' || c == '\u{2029}'
        || c == '\u{202f}' || c == '\u{205f}' || c == '\u{3000}'
}

/// The characters `s[from..to]`.
pub fn sub_chars(s: &[char], from: usize, to: usize) -> (r: Vec<char>)
    requires
        from <= to <= s@.len(),
    ensures
        r@ == s@.subrange(from as int, to as int),
{
    let mut v: Vec<char> = Vec::new();
    let mut i = from;
    while i < to
        invariant
            from <= i <= to <= s@.len(),
            v@ == s@.subrange(from as int, i as int),
        decreases to - i,
    {
        v.push(s[i]);
        i = i + 1;
        assert(v@ =~= s@.subrange(from as int, i as int));
    }
    v
}

proof fn lemma_trim_start_skip(s: Seq<char>, i: int)
    requires
        0 <= i <= s.len(),
        forall|j: int| 0 <= j < i ==> is_white_space(#[trigger] s[j]),
    ensures
        trim_start(s) == trim_start(s.subrange(i, s.len() as int)),
    decreases i,
{
    if i > 0 {
        assert(s.drop_first().subrange(i - 1, s.drop_first().len() as int) =~= s.subrange(
            i,
            s.len() as int,
        ));
        lemma_trim_start_skip(s.drop_first(), i - 1);
    } else {
        assert(s.subrange(0, s.len() as int) =~= s);
    }
}

proof fn lemma_trim_end_cut(s: Seq<char>, k: int)
    requires
        0 <= k <= s.len(),
        forall|j: int| k <= j < s.len() ==> is_white_space(#[trigger] s[j]),
    ensures
        trim_end(s) == trim_end(s.subrange(0, k)),
    decreases s.len() - k,
{
    if k < s.len() {
        assert(s.drop_last().subrange(0, k) =~= s.subrange(0, k));
        lemma_trim_end_cut(s.drop_last(), k);
    } else {
        assert(s.subrange(0, k) =~= s);
    }
}

/// The characters of `s` without leading and trailing white space.
pub fn trim_chars(s: &[char]) -> (r: Vec<char>)
    ensures
        r@ == trim(s@),
{
    let mut lo: usize = 0;
    while lo < s.len() && is_whitespace(s[lo])
        invariant
            lo <= s@.len(),
            forall|j: int| 0 <= j < lo ==> is_white_space(#[trigger] s@[j]),
        decreases s@.len() - lo,
    {
        lo = lo + 1;
    }
    let ghost rest = s@.subrange(lo as int, s@.len() as int);
    proof {
        lemma_trim_start_skip(s@, lo as int);
        assert(trim_start(rest) == rest);
    }
    let mut hi: usize = s.len();
    while hi > lo && is_whitespace(s[hi - 1])
        invariant
            lo <= hi <= s@.len(),
            forall|j: int| hi <= j < s@.len() ==> is_white_space(#[trigger] s@[j]),
        decreases hi,
    {
        hi = hi - 1;
    }
    proof {
        lemma_trim_end_cut(rest, hi - lo);
        assert(rest.subrange(0, hi - lo) =~= s@.subrange(lo as int, hi as int));
        let t = s@.subrange(lo as int, hi as int);
        assert(t.len() == 0 || !is_white_space(t.last()));
    }
    sub_chars(s, lo, hi)
}

/// The views of a sequence of character vectors.
pub open spec fn views(v: Seq<Vec<char>>) -> Seq<Seq<char>> {
    v.map_values(|x: Vec<char>| x@)
}

/// Searching a suffix of `s` finds what searching `s` from the same place finds.
pub proof fn lemma_find_char_shift(s: Seq<char>, c: char, p: int, q: int)
    requires
        0 <= p <= q,
        p <= s.len(),
    ensures
        find_char_from(s.subrange(p, s.len() as int), c, q - p) == (match find_char_from(s, c, q) {
            Some(k) => Some(k - p),
            None => None,
        }),
    decreases s.len() - q,
{
    let t = s.subrange(p, s.len() as int);
    if q >= s.len() {
    } else {
        assert(t[q - p] == s[q]);
        if s[q] != c {
            lemma_find_char_shift(s, c, p, q + 1);
        }
    }
}

/// Whether `needle` occurs in `hay` at position `i`.
pub fn occurs_at_exec(hay: &[char], needle: &[char], i: usize) -> (r: bool)
    requires
        i <= hay@.len(),
    ensures
        r == occurs_at(hay@, needle@, i as int),
{
    if needle.len() > hay.len() - i {
        return false;
    }
    let n = hay.len();
    let mut j: usize = 0;
    while j < needle.len()
        invariant
            n == hay@.len(),
            i <= hay@.len(),
            i + needle@.len() <= hay@.len(),
            j <= needle@.len(),
            forall|k: int| 0 <= k < j ==> hay@[i + k] == needle@[k],
        decreases needle@.len() - j,
    {
        if hay[i + j] != needle[j] {
            assert(hay@.subrange(i as int, i + needle@.len())[j as int] != needle@[j as int]);
            return false;
        }
        j = j + 1;
    }
    assert(hay@.subrange(i as int, i + needle@.len()) =~= needle@);
    true
}

/// The first position where `needle` occurs in `hay`.
pub fn find_chars(hay: &[char], needle: &[char]) -> (r: Option<usize>)
    ensures
        r matches Some(k) ==> find(hay@, needle@) == Some(k as int),
        r is None ==> find(hay@, needle@) is None,
{
    if needle.len() > hay.len() {
        return None;
    }
    let last = hay.len() - needle.len();
    let mut i: usize = 0;
    while i <= last
        invariant
            last + needle@.len() == hay@.len(),
            i <= last + 1,
            find(hay@, needle@) == find_from(hay@, needle@, i as int),
        decreases last + 1 - i,
    {
        if occurs_at_exec(hay, needle, i) {
            return Some(i);
        }
        assert(find_from(hay@, needle@, i as int) == find_from(hay@, needle@, i + 1));
        if i == last {
            assert(find_from(hay@, needle@, i + 1) is None);
            return None;
        }
        i = i + 1;
    }
    None
}

/// The first position at or after `from` that holds `c`.
pub fn find_char_exec(s: &[char], c: char, from: usize) -> (r: Option<usize>)
    ensures
        r matches Some(k) ==> find_char_from(s@, c, from as int) == Some(k as int),
        r is None ==> find_char_from(s@, c, from as int) is None,
{
    let mut i = from;
    while i < s.len()
        invariant
            from <= i,
            find_char_from(s@, c, from as int) == find_char_from(s@, c, i as int),
        decreases s@.len() - i,
    {
        if s[i] == c {
            return Some(i);
        }
        i = i + 1;
    }
    None
}

/// The pieces of `s` between occurrences of `sep`.
pub fn split_chars(s: &[char], sep: char) -> (r: Vec<Vec<char>>)
    ensures
        views(r@) == split_on(s@, sep),
{
    let mut out: Vec<Vec<char>> = Vec::new();
    let mut p: usize = 0;
    let n = s.len();
    assert(s@.subrange(0, s@.len() as int) =~= s@);
    assert(views(out@) =~= Seq::<Seq<char>>::empty());
    loop
        invariant
            n == s@.len(),
            p <= s@.len(),
            views(out@) + split_on(s@.subrange(p as int, s@.len() as int), sep) == split_on(s@, sep),
        decreases s@.len() - p,
    {
        let ghost rest = s@.subrange(p as int, s@.len() as int);
        proof {
            lemma_find_char_shift(s@, sep, p as int, p as int);
            lemma_find_char_from(s@, sep, p as int);
        }
        match find_char_exec(s, sep, p) {
            Some(k) => {
                let piece = sub_chars(s, p, k);
                proof {
                    assert(rest.subrange(0, k - p) =~= piece@);
                    assert(rest.subrange(k - p + 1, rest.len() as int) =~= s@.subrange(
                        k + 1,
                        s@.len() as int,
                    ));
                    assert(views(out@.push(piece)) =~= views(out@).push(piece@));
                    assert(split_on(rest, sep) == seq![piece@] + split_on(
                        s@.subrange(k + 1, s@.len() as int),
                        sep,
                    ));
                    assert(views(out@.push(piece)) + split_on(s@.subrange(k + 1, s@.len() as int), sep)
                        =~= views(out@) + split_on(rest, sep));
                }
                out.push(piece);
                p = k + 1;
            },
            None => {
                let piece = sub_chars(s, p, s.len());
                proof {
                    assert(split_on(rest, sep) == seq![rest]);
                    assert(views(out@.push(piece)) =~= views(out@) + split_on(rest, sep));
                }
                out.push(piece);
                return out;
            },
        }
    }
}

/// The lines of `s`, as `str::lines` yields them.
pub fn split_lines(s: &[char]) -> (r: Vec<Vec<char>>)
    ensures
        views(r@) == lines(s@),
{
    let mut out: Vec<Vec<char>> = Vec::new();
    let mut p: usize = 0;
    assert(s@.subrange(0, s@.len() as int) =~= s@);
    assert(views(out@) =~= Seq::<Seq<char>>::empty());
    let n = s.len();
    while p < s.len()
        invariant
            n == s@.len(),
            p <= s@.len(),
            views(out@) + lines(s@.subrange(p as int, s@.len() as int)) == lines(s@),
        decreases s@.len() - p,
    {
        let ghost rest = s@.subrange(p as int, s@.len() as int);
        proof {
            lemma_find_char_shift(s@, '\n', p as int, p as int);
            lemma_find_char_from(s@, '\n', p as int);
        }
        match find_char_exec(s, '\n', p) {
            Some(k) => {
                let mut end = k;
                if end > p && s[end - 1] == '\r' {
                    end = end - 1;
                }
                let piece = sub_chars(s, p, end);
                proof {
                    assert(strip_cr(rest.subrange(0, k - p)) =~= piece@);
                    assert(rest.subrange(k - p + 1, rest.len() as int) =~= s@.subrange(
                        k + 1,
                        s@.len() as int,
                    ));
                    assert(views(out@.push(piece)) =~= views(out@).push(piece@));
                    assert(views(out@.push(piece)) + lines(s@.subrange(k + 1, s@.len() as int))
                        =~= views(out@) + lines(rest));
                }
                out.push(piece);
                p = k + 1;
            },
            None => {
                let piece = sub_chars(s, p, s.len());
                proof {
                    assert(lines(rest) == seq![rest]);
                    assert(views(out@.push(piece)) =~= views(out@) + lines(rest));
                    assert(s@.subrange(s@.len() as int, s@.len() as int) =~= Seq::<char>::empty());
                }
                out.push(piece);
                return out;
            },
        }
    }
    proof {
        assert(s@.subrange(p as int, s@.len() as int) =~= Seq::<char>::empty());
        assert(views(out@) + Seq::<Seq<char>>::empty() =~= views(out@));
    }
    out
}

/// Appending a digit multiplies the value by ten and adds that digit.
proof fn lemma_decimal_push(s: Seq<char>, c: char)
    requires
        is_digit(c),
    ensures
        decimal_value(s.push(c)) == decimal_value(s) * 10 + digit_value(c),
{
    assert(s.push(c).drop_last() =~= s);
}

proof fn lemma_decimal_nonneg(s: Seq<char>)
    requires
        all_digits(s),
    ensures
        decimal_value(s) >= 0,
    decreases s.len(),
{
    if s.len() > 0 {
        assert(all_digits(s.drop_last()));
        lemma_decimal_nonneg(s.drop_last());
    }
}

/// `str::parse::<i64>` on characters: the number, or the error std reports.
pub fn parse_i64_chars(s: &[char]) -> (r: Result<i64, NumberError>)
    ensures
        r matches Ok(v) ==> parse_i64(s@) == Some(v),
        r matches Err(e) ==> parse_i64(s@) is None && e == parse_i64_error(s@),
{
    let mut start: usize = 0;
    let mut neg = false;
    if s.len() > 0 && s[0] == '-' {
        neg = true;
        start = 1;
    } else if s.len() > 0 && s[0] == '+' {
        start = 1;
    }
    let ghost digits = s@.subrange(start as int, s@.len() as int);
    assert(sign_and_digits(s@) == (neg, digits)) by {
        if start == 1 {
            assert(s@.drop_first() =~= digits);
        } else {
            assert(s@ =~= digits);
        }
    }
    if s.len() == 0 {
        return Err(NumberError::Empty);
    }
    if start == s.len() {
        return Err(NumberError::InvalidDigit);
    }
    let bound: i128 = if neg {
        9223372036854775808
    } else {
        9223372036854775807
    };
    let mut acc: i128 = 0;
    let mut i = start;
    assert(digits.take(0) =~= s@.subrange(start as int, start as int));
    while i < s.len()
        invariant
            start <= i <= s@.len(),
            start < s@.len(),
            digits == s@.subrange(start as int, s@.len() as int),
            sign_and_digits(s@) == (neg, digits),
            bound == (if neg { 9223372036854775808int } else { 9223372036854775807int }),
            digits.take(i - start) == s@.subrange(start as int, i as int),
            all_digits(s@.subrange(start as int, i as int)),
            digits_fault(s@.subrange(start as int, i as int), neg) is None,
            acc == decimal_value(s@.subrange(start as int, i as int)),
            0 <= acc <= bound,
        decreases s@.len() - i,
    {
        let c = s[i];
        let ghost pre = s@.subrange(start as int, i as int);
        let ghost next = s@.subrange(start as int, i + 1);
        assert(next =~= pre.push(c));
        assert(next.drop_last() =~= pre);
        assert(digits.take(i + 1 - start) =~= next);
        if !('0' <= c && c <= '9') {
            proof {
                assert(digits[i - start] == c);
                lemma_digits_fault_stays(digits, neg, i + 1 - start);
            }
            return Err(NumberError::InvalidDigit);
        }
        let d = (c as u32 - '0' as u32) as i128;
        proof {
            lemma_decimal_push(pre, c);
        }
        let next_acc = acc * 10 + d;
        if next_acc > bound {
            proof {
                lemma_digits_fault_stays(digits, neg, i + 1 - start);
                if all_digits(digits) {
                    lemma_decimal_prefix_le(digits, i + 1 - start);
                }
            }
            if neg {
                return Err(NumberError::NegOverflow);
            } else {
                return Err(NumberError::PosOverflow);
            }
        }
        acc = next_acc;
        i = i + 1;
        assert(all_digits(s@.subrange(start as int, i as int))) by {
            assert forall|k: int| 0 <= k < next.len() implies is_digit(#[trigger] next[k]) by {
                if k < pre.len() {
                    assert(next[k] == pre[k]);
                }
            }
        }
    }
    assert(s@.subrange(start as int, s@.len() as int) == digits);
    if neg {
        Ok((0 - acc) as i64)
    } else {
        Ok(acc as i64)
    }
}

/// Appends the characters `s` to `v`.
pub fn append_chars(v: &mut Vec<char>, s: &[char])
    ensures
        final(v)@ == old(v)@ + s@,
{
    let mut i: usize = 0;
    while i < s.len()
        invariant
            i <= s@.len(),
            v@ == old(v)@ + s@.subrange(0, i as int),
        decreases s@.len() - i,
    {
        v.push(s[i]);
        i = i + 1;
        assert(v@ =~= old(v)@ + s@.subrange(0, i as int));
    }
    assert(s@.subrange(0, s@.len() as int) =~= s@);
}

/// `a` and `b` agree on their first `n` characters.
pub open spec fn agree_upto(a: Seq<char>, b: Seq<char>, n: int) -> bool {
    &&& 0 <= n <= a.len()
    &&& n <= b.len()
    &&& forall|k: int| 0 <= k < n ==> a[k] == b[k]
}

/// `n` is where `a` first departs from `b` to sort before it: they agree
/// before `n`, and there `a` has ended while `b` goes on, or `a` has the
/// smaller character.
pub open spec fn text_less_at(a: Seq<char>, b: Seq<char>, n: int) -> bool {
    &&& agree_upto(a, b, n)
    &&& n < b.len()
    &&& (n == a.len() || a[n] < b[n])
}

/// `a` sorts before `b`: lexicographic order by character. It is the order of
/// `String`'s `Ord`, which compares the UTF-8 bytes, because UTF-8 encoding
/// keeps the order of characters.
pub open spec fn text_less(a: Seq<char>, b: Seq<char>) -> bool {
    exists|n: int| #[trigger] text_less_at(a, b, n)
}

/// The order is strict: no text sorts before itself, and of two texts at most
/// one sorts before the other.
pub proof fn lemma_text_less_strict(a: Seq<char>, b: Seq<char>)
    requires
        text_less(a, b),
    ensures
        a != b,
        !text_less(b, a),
{
    let n = choose|n: int| text_less_at(a, b, n);
    if a == b {
        assert(false);
    }
    if text_less(b, a) {
        let m = choose|m: int| text_less_at(b, a, m);
        if n < m {
            assert(a[n] == b[n]);
        } else if m < n {
            assert(a[m] == b[m]);
        }
    }
}

/// The order is transitive.
pub proof fn lemma_text_less_trans(a: Seq<char>, b: Seq<char>, c: Seq<char>)
    requires
        text_less(a, b),
        text_less(b, c),
    ensures
        text_less(a, c),
{
    let n = choose|n: int| text_less_at(a, b, n);
    let m = choose|m: int| text_less_at(b, c, m);
    if n <= m {
        assert(text_less_at(a, c, n));
    } else {
        assert(a[m] == b[m]);
        assert(text_less_at(a, c, m));
    }
}

/// How two texts compare.
pub enum TextOrder {
    Less,
    Same,
    Greater,
}

/// Compares `a` and `b` character by character.
pub fn text_order(a: &str, b: &str) -> (r: TextOrder)
    ensures
        r is Less <==> text_less(a@, b@),
        r is Same <==> a@ == b@,
        r is Greater <==> text_less(b@, a@),
{
    let x = chars_of(a);
    let y = chars_of(b);
    let mut i: usize = 0;
    while i < x.len() && i < y.len() && x[i] == y[i]
        invariant
            x@ == a@,
            y@ == b@,
            agree_upto(a@, b@, i as int),
        decreases x@.len() - i,
    {
        i = i + 1;
    }
    let ghost n = i as int;
    if i < x.len() && i < y.len() {
        if x[i] < y[i] {
            assert(text_less_at(a@, b@, n));
            proof {
                lemma_text_less_strict(a@, b@);
            }
            TextOrder::Less
        } else {
            assert(agree_upto(b@, a@, n));
            assert(text_less_at(b@, a@, n));
            proof {
                lemma_text_less_strict(b@, a@);
            }
            TextOrder::Greater
        }
    } else if i < y.len() {
        assert(text_less_at(a@, b@, n));
        proof {
            lemma_text_less_strict(a@, b@);
        }
        TextOrder::Less
    } else if i < x.len() {
        assert(agree_upto(b@, a@, n));
        assert(text_less_at(b@, a@, n));
        proof {
            lemma_text_less_strict(b@, a@);
        }
        TextOrder::Greater
    } else {
        assert(a@ =~= b@);
        proof {
            if text_less(a@, b@) {
                lemma_text_less_strict(a@, b@);
            }
        }
        TextOrder::Same
    }
}

/// Whether `a` sorts before `b`.
pub fn text_less_exec(a: &str, b: &str) -> (r: bool)
    ensures
        r == text_less(a@, b@),
{
    match text_order(a, b) {
        TextOrder::Less => true,
        _ => false,
    }
}

/// `p` is the last piece of `s` split at `sep`: a suffix of `s` holding no
/// `sep`, which is either all of `s` or comes right after a `sep`.
pub open spec fn is_last_piece(s: Seq<char>, sep: char, p: Seq<char>) -> bool {
    &&& p.len() <= s.len()
    &&& s.subrange(s.len() - p.len(), s.len() as int) == p
    &&& forall|k: int| 0 <= k < p.len() ==> p[k] != sep
    &&& (p.len() == s.len() || s[s.len() - p.len() - 1] == sep)
}

/// The last piece of a split is the text after the last separator.
pub proof fn lemma_split_last(s: Seq<char>, sep: char)
    ensures
        split_on(s, sep).len() > 0,
        is_last_piece(s, sep, split_on(s, sep).last()),
    decreases s.len(),
{
    lemma_find_char_from(s, sep, 0);
    match find_char_from(s, sep, 0) {
        Some(k) => {
            let rest = s.subrange(k + 1, s.len() as int);
            lemma_split_last(rest, sep);
            let p = split_on(rest, sep).last();
            assert(split_on(s, sep) == seq![s.subrange(0, k)] + split_on(rest, sep));
            assert(split_on(s, sep).last() == p);
            assert(s.subrange(s.len() - p.len(), s.len() as int) =~= rest.subrange(
                rest.len() - p.len(),
                rest.len() as int,
            ));
            if p.len() < rest.len() {
                assert(s[s.len() - p.len() - 1] == rest[rest.len() - p.len() - 1]);
            } else {
                assert(s[s.len() - p.len() - 1] == s[k]);
            }
        },
        None => {
            assert(s.subrange(0, s.len() as int) =~= s);
        },
    }
}

/// Only one suffix is the last piece.
pub proof fn lemma_last_piece_unique(s: Seq<char>, sep: char, p: Seq<char>, q: Seq<char>)
    requires
        is_last_piece(s, sep, p),
        is_last_piece(s, sep, q),
    ensures
        p == q,
{
    if p.len() < q.len() {
        assert(q[q.len() - p.len() - 1] == s[s.len() - p.len() - 1]);
    } else if q.len() < p.len() {
        assert(p[p.len() - q.len() - 1] == s[s.len() - q.len() - 1]);
    } else {
        assert(p =~= q);
    }
}

} // verus!
