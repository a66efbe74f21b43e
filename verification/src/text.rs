//! Text as sequences of characters: splitting, trimming, ASCII case folding and
//! unsigned decimal numbers.
use vstd::prelude::*;
use vstd::string::*;

verus! {

/// `str::eq`: two string slices are equal exactly when they hold the same
/// characters in the same order.
pub assume_specification[ <str as PartialEq<str>>::eq ](a: &str, b: &str) -> (r: bool)
    ensures
        r == (a@ == b@),
;

/// `String::push`: appends one character to the end of the string.
pub assume_specification[ String::push ](s: &mut String, c: char)
    ensures
        final(s)@ == old(s)@.push(c),
;

/// The text that `String::from_utf8_lossy` makes of some bytes.
pub uninterp spec fn utf8_lossy(b: Seq<u8>) -> Seq<char>;

/// `String::from_utf8_lossy`: bytes that are valid UTF-8 give the text that they
/// encode; how other bytes are replaced is left to the name.
#[verifier::external_body]
pub(crate) fn from_utf8_lossy(b: &[u8]) -> (r: String)
    ensures
        r@ == utf8_lossy(b@),
        vstd::utf8::valid_utf8(b@) ==> r@ == vstd::utf8::decode_utf8(b@),
{
    String::from_utf8_lossy(b).into_owned()
}

// ---------------------------------------------------------------------------
// Specifications
// ---------------------------------------------------------------------------
/// The characters before and after the first `c`.
pub open spec fn split_once_at(s: Seq<char>, c: char) -> Option<(Seq<char>, Seq<char>)> {
    match s.index_of_first(c) {
        Some(i) => Some((s.take(i), s.skip(i + 1))),
        None => None,
    }
}

/// The characters before and after the last `c`.
pub open spec fn rsplit_once_at(s: Seq<char>, c: char) -> Option<(Seq<char>, Seq<char>)> {
    match s.index_of_last(c) {
        Some(i) => Some((s.take(i), s.skip(i + 1))),
        None => None,
    }
}

/// The contents of some texts.
pub open spec fn texts(s: Seq<String>) -> Seq<Seq<char>> {
    s.map_values(|x: String| x@)
}

/// Where `pat` stands in `s` first, from `from` on.
pub open spec fn found_from(s: Seq<char>, pat: Seq<char>, from: int) -> Option<int>
    decreases s.len() + 1 - from,
{
    if from < 0 || from + pat.len() > s.len() {
        None
    } else if s.subrange(from, from + pat.len()) == pat {
        Some(from)
    } else {
        found_from(s, pat, from + 1)
    }
}

/// The characters before and after the first `pat`.
pub open spec fn split_once_around(s: Seq<char>, pat: Seq<char>) -> Option<
    (Seq<char>, Seq<char>),
> {
    match found_from(s, pat, 0) {
        Some(i) => Some((s.take(i), s.skip(i + pat.len()))),
        None => None,
    }
}

/// The pieces of `s` between the separators `c`; there is always at least one.
pub open spec fn pieces(s: Seq<char>, c: char) -> Seq<Seq<char>>
    decreases s.len(),
{
    if s.contains(c) {
        let i = s.index_of_first(c)->0;
        if 0 <= i < s.len() {
            seq![s.take(i)] + pieces(s.skip(i + 1), c)
        } else {
            seq![s]
        }
    } else {
        seq![s]
    }
}

/// Membership in the Unicode `White_Space` property.
pub open spec fn is_white(c: char) -> bool {
    ||| '\u{9}' <= c <= '\u{d}'
    ||| c == '\u{20}'
    ||| c == '\u{85}'
    ||| c == '\u{a0}'
    ||| c == '\u{1680}'
    ||| '\u{2000}' <= c <= '\u{200a}'
    ||| c == '\u{2028}'
    ||| c == '\u{2029}'
    ||| c == '\u{202f}'
    ||| c == '\u{205f}'
    ||| c == '\u{3000}'
}

/// `s` without its leading white space.
pub open spec fn trimmed_start(s: Seq<char>) -> Seq<char>
    decreases s.len(),
{
    if s.len() > 0 && is_white(s[0]) {
        trimmed_start(s.drop_first())
    } else {
        s
    }
}

/// `s` without its trailing white space.
pub open spec fn trimmed_end(s: Seq<char>) -> Seq<char>
    decreases s.len(),
{
    if s.len() > 0 && is_white(s.last()) {
        trimmed_end(s.drop_last())
    } else {
        s
    }
}

/// `s` without the white space at both ends.
pub open spec fn trimmed(s: Seq<char>) -> Seq<char> {
    trimmed_end(trimmed_start(s))
}

/// `s` without the run of `c` at its end.
pub open spec fn without_trailing(s: Seq<char>, c: char) -> Seq<char>
    decreases s.len(),
{
    if s.len() > 0 && s.last() == c {
        without_trailing(s.drop_last(), c)
    } else {
        s
    }
}

pub open spec fn lower_char(c: char) -> char {
    if 'A' <= c <= 'Z' {
        ((c as u8) + 32) as char
    } else {
        c
    }
}

pub open spec fn upper_char(c: char) -> char {
    if 'a' <= c <= 'z' {
        ((c as u8) - 32) as char
    } else {
        c
    }
}

/// `s` with its ASCII letters in lower case.
pub open spec fn lower(s: Seq<char>) -> Seq<char> {
    s.map_values(|c: char| lower_char(c))
}

/// `s` with its ASCII letters in upper case.
pub open spec fn upper(s: Seq<char>) -> Seq<char> {
    s.map_values(|c: char| upper_char(c))
}

pub open spec fn is_digit(c: char) -> bool {
    '0' <= c <= '9'
}

pub open spec fn digit_value(c: char) -> nat {
    (c as nat - '0' as nat) as nat
}

/// One or more decimal digits and nothing else.
pub open spec fn is_digits(s: Seq<char>) -> bool {
    &&& s.len() > 0
    &&& forall|i: int| 0 <= i < s.len() ==> is_digit(#[trigger] s[i])
}

/// The number that a run of decimal digits denotes.
pub open spec fn digits_value(s: Seq<char>) -> nat
    decreases s.len(),
{
    if s.len() == 0 {
        0
    } else {
        digits_value(s.drop_last()) * 10 + digit_value(s.last())
    }
}

/// `s` without one leading plus sign.
pub open spec fn without_plus(s: Seq<char>) -> Seq<char> {
    if s.len() > 0 && s[0] == '+' {
        s.drop_first()
    } else {
        s
    }
}

/// An unsigned number: digits, with one optional leading plus sign.
pub open spec fn unsigned(s: Seq<char>) -> Option<nat> {
    if is_digits(without_plus(s)) {
        Some(digits_value(without_plus(s)))
    } else {
        None
    }
}

/// An unsigned number that is at most `max`.
pub open spec fn unsigned_upto(s: Seq<char>, max: nat) -> Option<nat> {
    match unsigned(s) {
        Some(n) => if n <= max {
            Some(n)
        } else {
            None
        },
        None => None,
    }
}

pub open spec fn digit_char(d: nat) -> char {
    (('0' as nat + d) as u8) as char
}

/// The shortest decimal notation of `n`.
pub open spec fn decimal(n: nat) -> Seq<char>
    decreases n,
{
    if n < 10 {
        seq![digit_char(n)]
    } else {
        decimal(n / 10).push(digit_char(n % 10))
    }
}

// ---------------------------------------------------------------------------
// Executable functions
// ---------------------------------------------------------------------------
/// Whether two string slices hold the same text.
pub fn same(a: &str, b: &str) -> (r: bool)
    ensures
        r == (a@ == b@),
{
    a.eq(b)
}

/// The characters of `s`.
pub fn chars(s: &str) -> (v: Vec<char>)
    ensures
        v@ == s@,
{
    let mut v: Vec<char> = Vec::new();
    for c in it: s.chars()
        invariant
            v@ == s@.take(it.index() as int),
            it.seq() == s@,
    {
        v.push(c);
    }
    v
}

/// The characters of `cs` from `from` up to `to`, as a string.
pub fn slice_text(cs: &Vec<char>, from: usize, to: usize) -> (r: String)
    requires
        from <= to <= cs@.len(),
    ensures
        r@ == cs@.subrange(from as int, to as int),
{
    let mut r = String::new();
    let mut i: usize = from;
    while i < to
        invariant
            from <= i <= to <= cs@.len(),
            r@ == cs@.subrange(from as int, i as int),
        decreases to - i,
    {
        r.push(cs[i]);
        i += 1;
    }
    r
}

fn first_index(cs: &Vec<char>, c: char) -> (r: Option<usize>)
    ensures
        match r {
            Some(i) => cs@.index_of_first(c) == Some(i as int) && i < cs@.len(),
            None => cs@.index_of_first(c) is None && !cs@.contains(c),
        },
{
    proof {
        cs@.index_of_first_ensures(c);
    }
    let mut i: usize = 0;
    while i < cs.len()
        invariant
            i <= cs@.len(),
            forall|j: int| 0 <= j < i ==> cs@[j] != c,
            cs@.index_of_first(c) is Some ==> cs@[cs@.index_of_first(c)->0] == c && 0
                <= cs@.index_of_first(c)->0 < cs@.len() && forall|j: int|
                0 <= j < cs@.index_of_first(c)->0 ==> cs@[j] != c,
            cs@.index_of_first(c) is None ==> !cs@.contains(c),
        decreases cs@.len() - i,
    {
        if cs[i] == c {
            assert(cs@.contains(c));
            return Some(i);
        }
        i += 1;
    }
    None
}

fn last_index(cs: &Vec<char>, c: char) -> (r: Option<usize>)
    ensures
        match r {
            Some(i) => cs@.index_of_last(c) == Some(i as int) && i < cs@.len(),
            None => cs@.index_of_last(c) is None,
        },
{
    proof {
        cs@.index_of_last_ensures(c);
    }
    let mut i: usize = cs.len();
    while i > 0
        invariant
            i <= cs@.len(),
            forall|j: int| i <= j < cs@.len() ==> cs@[j] != c,
            cs@.index_of_last(c) is Some ==> cs@[cs@.index_of_last(c)->0] == c && 0
                <= cs@.index_of_last(c)->0 < cs@.len() && forall|j: int|
                cs@.index_of_last(c)->0 < j < cs@.len() ==> cs@[j] != c,
            cs@.index_of_last(c) is None ==> !cs@.contains(c),
        decreases i,
    {
        i -= 1;
        if cs[i] == c {
            assert(cs@.contains(c));
            return Some(i);
        }
    }
    None
}

/// Splits at the first `c`.
pub fn split_once(s: &str, c: char) -> (r: Option<(String, String)>)
    ensures
        match r {
            Some((a, b)) => split_once_at(s@, c) == Some((a@, b@)),
            None => split_once_at(s@, c) is None,
        },
{
    let cs = chars(s);
    match first_index(&cs, c) {
        Some(i) => {
            let n: usize = cs.len();
            Some((slice_text(&cs, 0, i), slice_text(&cs, i + 1, n)))
        },
        None => None,
    }
}

/// Splits at the last `c`.
pub fn rsplit_once(s: &str, c: char) -> (r: Option<(String, String)>)
    ensures
        match r {
            Some((a, b)) => rsplit_once_at(s@, c) == Some((a@, b@)),
            None => rsplit_once_at(s@, c) is None,
        },
{
    let cs = chars(s);
    match last_index(&cs, c) {
        Some(i) => {
            let n: usize = cs.len();
            Some((slice_text(&cs, 0, i), slice_text(&cs, i + 1, n)))
        },
        None => None,
    }
}

fn stands_at(cs: &Vec<char>, pat: &Vec<char>, at: usize) -> (r: bool)
    requires
        at + pat@.len() <= cs@.len(),
    ensures
        r == (cs@.subrange(at as int, at + pat@.len()) == pat@),
{
    let ghost part = cs@.subrange(at as int, at + pat@.len());
    let n: usize = cs.len();
    for i in 0..pat.len()
        invariant
            n == cs@.len(),
            at + pat@.len() <= n,
            part == cs@.subrange(at as int, at + pat@.len()),
            forall|j: int| 0 <= j < i ==> part[j] == pat@[j],
    {
        if cs[at + i] != pat[i] {
            assert(part[i as int] != pat@[i as int]);
            return false;
        }
    }
    assert(part =~= pat@);
    true
}

/// Splits around the first `pat`.
pub fn split_once_text(s: &str, pat: &str) -> (r: Option<(String, String)>)
    ensures
        match r {
            Some((a, b)) => split_once_around(s@, pat@) == Some((a@, b@)),
            None => split_once_around(s@, pat@) is None,
        },
{
    let cs = chars(s);
    let ps = chars(pat);
    let n: usize = cs.len();
    let m: usize = ps.len();
    if m > n {
        return None;
    }
    let last: usize = n - m;
    let mut i: usize = 0;
    while i < last && !stands_at(&cs, &ps, i)
        invariant
            i <= last,
            last + m == n,
            n == cs@.len(),
            m == ps@.len(),
            found_from(cs@, ps@, 0) == found_from(cs@, ps@, i as int),
        decreases last - i,
    {
        i += 1;
    }
    if stands_at(&cs, &ps, i) {
        Some((slice_text(&cs, 0, i), slice_text(&cs, i + m, n)))
    } else {
        assert(found_from(cs@, ps@, i + 1) is None);
        None
    }
}

/// The text after the leading `c`, when there is one.
pub fn strip_prefix(s: &str, c: char) -> (r: Option<String>)
    ensures
        match r {
            Some(t) => s@.len() > 0 && s@[0] == c && t@ == s@.drop_first(),
            None => !(s@.len() > 0 && s@[0] == c),
        },
{
    let cs = chars(s);
    if cs.len() > 0 && cs[0] == c {
        let n: usize = cs.len();
        Some(slice_text(&cs, 1, n))
    } else {
        None
    }
}

/// The pieces of `s` between the separators `c`.
pub fn split(s: &str, c: char) -> (r: Vec<String>)
    ensures
        r@.len() == pieces(s@, c).len(),
        forall|i: int| 0 <= i < r@.len() ==> #[trigger] r@[i]@ == pieces(s@, c)[i],
{
    let cs = chars(s);
    let mut out: Vec<String> = Vec::new();
    let ghost mut done: Seq<Seq<char>> = Seq::empty();
    assert(s@.skip(0) == s@);
    let mut from: usize = 0;
    let mut i: usize = 0;
    while i < cs.len()
        invariant
            from <= i <= cs@.len(),
            cs@ == s@,
            forall|j: int| from <= j < i ==> cs@[j] != c,
            out@.len() == done.len(),
            forall|k: int| 0 <= k < out@.len() ==> #[trigger] out@[k]@ == done[k],
            done + pieces(s@.skip(from as int), c) == pieces(s@, c),
        decreases cs@.len() - i,
    {
        if cs[i] == c {
            let piece = slice_text(&cs, from, i);
            proof {
                let rest = s@.skip(from as int);
                let at = i - from;
                assert(rest[at] == c);
                rest.index_of_first_ensures(c);
                let first = rest.index_of_first(c)->0;
                assert(first == at) by {
                    if first < at {
                        assert(rest[first] == cs@[from + first]);
                    }
                }
                assert(rest.take(at) == piece@);
                assert(rest.skip(at + 1) == s@.skip(i + 1));
                let next = done.push(piece@);
                assert(next + pieces(s@.skip(i + 1), c) == done + (seq![rest.take(at)] + pieces(
                    rest.skip(at + 1),
                    c,
                )));
                done = next;
            }
            out.push(piece);
            from = i + 1;
        }
        i += 1;
    }
    let last = slice_text(&cs, from, i);
    proof {
        let rest = s@.skip(from as int);
        assert(last@ == rest);
        assert(!rest.contains(c));
        assert(pieces(rest, c) == seq![rest]);
    }
    out.push(last);
    out
}

/// Whether `c` is white space.
pub fn is_whitespace(c: char) -> (r: bool)
    ensures
        r == is_white(c),
{
    ('\u{9}' <= c && c <= '\u{d}') || c == '\u{20}' || c == '\u{85}' || c == '\u{a0}' || c
        == '\u{1680}' || ('\u{2000}' <= c && c <= '\u{200a}') || c == '\u{2028}' || c == '\u{2029}'
        || c == '\u{202f}' || c == '\u{205f}' || c == '\u{3000}'
}

/// `s` without the white space at both ends.
pub fn trim(s: &str) -> (r: String)
    ensures
        r@ == trimmed(s@),
{
    let cs = chars(s);
    let mut from: usize = 0;
    assert(cs@.subrange(0, cs@.len() as int) == s@);
    while from < cs.len() && is_whitespace(cs[from])
        invariant
            from <= cs@.len(),
            cs@ == s@,
            trimmed_start(s@) == trimmed_start(cs@.subrange(from as int, cs@.len() as int)),
        decreases cs@.len() - from,
    {
        assert(cs@.subrange(from as int, cs@.len() as int).drop_first() == cs@.subrange(
            from + 1,
            cs@.len() as int,
        ));
        from += 1;
    }
    let mut to: usize = cs.len();
    while to > from && is_whitespace(cs[to - 1])
        invariant
            from <= to <= cs@.len(),
            cs@ == s@,
            trimmed_end(trimmed_start(s@)) == trimmed_end(cs@.subrange(from as int, to as int)),
        decreases to,
    {
        assert(cs@.subrange(from as int, to as int).drop_last() == cs@.subrange(
            from as int,
            to - 1,
        ));
        to -= 1;
    }
    slice_text(&cs, from, to)
}

/// `s` without the run of `c` at its end.
pub fn trim_end_matches(s: &str, c: char) -> (r: String)
    ensures
        r@ == without_trailing(s@, c),
{
    let cs = chars(s);
    let mut to: usize = cs.len();
    assert(cs@.subrange(0, cs@.len() as int) == s@);
    while to > 0 && cs[to - 1] == c
        invariant
            to <= cs@.len(),
            without_trailing(s@, c) == without_trailing(cs@.subrange(0, to as int), c),
        decreases to,
    {
        assert(cs@.subrange(0, to as int).drop_last() == cs@.subrange(0, to - 1));
        to -= 1;
    }
    slice_text(&cs, 0, to)
}

/// `s` with its ASCII letters in lower case.
pub fn to_ascii_lowercase(s: &str) -> (r: String)
    ensures
        r@ == lower(s@),
{
    let cs = chars(s);
    let mut r = String::new();
    let mut i: usize = 0;
    while i < cs.len()
        invariant
            i <= cs@.len(),
            cs@ == s@,
            r@ == lower(s@.take(i as int)),
        decreases cs@.len() - i,
    {
        let c = cs[i];
        r.push(
            if 'A' <= c && c <= 'Z' {
                ((c as u8) + 32) as char
            } else {
                c
            },
        );
        i += 1;
        assert(r@ == lower(s@.take(i as int)));
    }
    assert(s@.take(i as int) == s@);
    r
}

/// `s` with its ASCII letters in upper case.
pub fn to_ascii_uppercase(s: &str) -> (r: String)
    ensures
        r@ == upper(s@),
{
    let cs = chars(s);
    let mut r = String::new();
    let mut i: usize = 0;
    while i < cs.len()
        invariant
            i <= cs@.len(),
            cs@ == s@,
            r@ == upper(s@.take(i as int)),
        decreases cs@.len() - i,
    {
        let c = cs[i];
        r.push(
            if 'a' <= c && c <= 'z' {
                ((c as u8) - 32) as char
            } else {
                c
            },
        );
        i += 1;
        assert(r@ == upper(s@.take(i as int)));
    }
    assert(s@.take(i as int) == s@);
    r
}

proof fn lemma_prefix_value(s: Seq<char>, i: int)
    requires
        0 <= i <= s.len(),
    ensures
        digits_value(s.take(i)) <= digits_value(s),
    decreases s.len() - i,
{
    if i < s.len() {
        lemma_prefix_value(s, i + 1);
        assert(s.take(i + 1).drop_last() == s.take(i));
    } else {
        assert(s.take(i) == s);
    }
}

/// The unsigned number that `s` denotes, when it is at most `max`.
pub fn parse_unsigned(s: &str, max: u64) -> (r: Option<u64>)
    ensures
        match r {
            Some(n) => unsigned_upto(s@, max as nat) == Some(n as nat),
            None => unsigned_upto(s@, max as nat) is None,
        },
{
    let cs = chars(s);
    let start: usize = if cs.len() > 0 && cs[0] == '+' {
        1
    } else {
        0
    };
    let ghost digits = without_plus(s@);
    assert(digits == cs@.skip(start as int));
    if start == cs.len() {
        return None;
    }
    let mut acc: u64 = 0;
    let mut i: usize = start;
    while i < cs.len()
        invariant
            start <= i <= cs@.len(),
            start < cs@.len(),
            digits == cs@.skip(start as int),
            digits == without_plus(s@),
            forall|j: int| 0 <= j < i - start ==> is_digit(#[trigger] digits[j]),
            acc == digits_value(digits.take(i - start)),
            acc <= max,
        decreases cs@.len() - i,
    {
        let c = cs[i];
        let ghost at = i - start;
        assert(digits[at] == c);
        if !('0' <= c && c <= '9') {
            assert(!is_digit(digits[at]));
            return None;
        }
        let d: u128 = ((c as u8) - 48u8) as u128;
        let next: u128 = (acc as u128) * 10 + d;
        assert(digits.take(at + 1).drop_last() == digits.take(at));
        assert(next == digits_value(digits.take(at + 1)));
        if next > max as u128 {
            proof {
                lemma_prefix_value(digits, at + 1);
            }
            return None;
        }
        acc = next as u64;
        i += 1;
    }
    assert(digits.take(i - start) == digits);
    Some(acc)
}

/// `parse_unsigned` for 16-bit numbers.
pub fn parse_u16(s: &str) -> (r: Option<u16>)
    ensures
        match r {
            Some(n) => unsigned_upto(s@, u16::MAX as nat) == Some(n as nat),
            None => unsigned_upto(s@, u16::MAX as nat) is None,
        },
{
    match parse_unsigned(s, u16::MAX as u64) {
        Some(n) => Some(n as u16),
        None => None,
    }
}

/// The decimal notation of `n`.
pub fn decimal_text(n: u64) -> (r: String)
    ensures
        r@ == decimal(n as nat),
    decreases n,
{
    let d: char = (48u8 + (n % 10) as u8) as char;
    if n < 10 {
        let mut r = String::new();
        r.push(d);
        r
    } else {
        let mut r = decimal_text(n / 10);
        r.push(d);
        r
    }
}

/// `a` followed by `b`.
pub fn join2(a: &str, b: &str) -> (r: String)
    ensures
        r@ == a@ + b@,
{
    let mut r = a.to_owned();
    r.append(b);
    r
}

/// `a`, `b` and `c` one after another.
pub fn join3(a: &str, b: &str, c: &str) -> (r: String)
    ensures
        r@ == a@ + b@ + c@,
{
    let mut r = a.to_owned();
    r.append(b);
    r.append(c);
    r
}

// ---------------------------------------------------------------------------
// Lemmas
// ---------------------------------------------------------------------------
/// The first `c` separates a part without it from what follows.
pub proof fn lemma_split_behind(a: Seq<char>, c: char, b: Seq<char>)
    requires
        !a.contains(c),
    ensures
        split_once_at(a + seq![c] + b, c) == Some((a, b)),
{
    let s = a + seq![c] + b;
    assert(s[a.len() as int] == c);
    s.index_of_first_ensures(c);
    let i = s.index_of_first(c)->0;
    if i < a.len() {
        assert(a[i] == s[i]);
    }
    assert(i == a.len());
    assert(s.take(i) =~= a);
    assert(s.skip(i + 1) =~= b);
}

/// The last `c` separates a part without it from what comes before.
pub proof fn lemma_rsplit_before(a: Seq<char>, c: char, b: Seq<char>)
    requires
        !b.contains(c),
    ensures
        rsplit_once_at(a + seq![c] + b, c) == Some((a, b)),
{
    let s = a + seq![c] + b;
    assert(s[a.len() as int] == c);
    s.index_of_last_ensures(c);
    let i = s.index_of_last(c)->0;
    if i > a.len() {
        assert(b[i - a.len() - 1] == s[i]);
    }
    assert(i == a.len());
    assert(s.take(i) =~= a);
    assert(s.skip(i + 1) =~= b);
}

/// A pattern is found where it stands, if its first character does not occur before.
pub proof fn lemma_found(s: Seq<char>, pat: Seq<char>, from: int, at: int)
    requires
        0 <= from <= at,
        pat.len() > 0,
        at + pat.len() <= s.len(),
        s.subrange(at, at + pat.len()) == pat,
        forall|j: int| from <= j < at ==> s[j] != pat[0],
    ensures
        found_from(s, pat, from) == Some(at),
    decreases at - from,
{
    if from < at {
        assert(s.subrange(from, from + pat.len())[0] == s[from]);
        lemma_found(s, pat, from + 1, at);
    }
}

// ---------------------------------------------------------------------------
// Laws
// ---------------------------------------------------------------------------
/// Reading back the decimal notation of a number gives the number.
pub proof fn law_decimal_round_trip(n: nat)
    ensures
        is_digits(decimal(n)),
        digits_value(decimal(n)) == n,
        unsigned(decimal(n)) == Some(n),
    decreases n,
{
    if n < 10 {
        assert(decimal(n).drop_last() == Seq::<char>::empty());
        assert(digits_value(Seq::<char>::empty()) == 0);
        assert(decimal(n)[0] == digit_char(n));
    } else {
        law_decimal_round_trip(n / 10);
        assert(decimal(n).drop_last() == decimal(n / 10));
        assert forall|i: int| 0 <= i < decimal(n).len() implies is_digit(
            #[trigger] decimal(n)[i],
        ) by {
            if i < decimal(n / 10).len() {
                assert(decimal(n)[i] == decimal(n / 10)[i]);
            }
        }
    }
    assert(is_digit(decimal(n)[0]));
    assert(without_plus(decimal(n)) == decimal(n));
}

/// Decimal notation is positional: the last digit counts ones and those before it tens;
/// the digits are '0' to '9'.
pub proof fn law_decimal_is_positional(n: nat, s: Seq<char>, d: nat)
    requires
        d < 10,
    ensures
        digit_char(d) as int == '0' as int + d,
        digits_value(s.push(digit_char(d))) == 10 * digits_value(s) + d,
        decimal(10 * n + d).last() == digit_char(d),
        n > 0 ==> decimal(10 * n + d) == decimal(n).push(digit_char(d)),
        n == 0 ==> decimal(10 * n + d) == seq![digit_char(d)],
{
    assert(s.push(digit_char(d)).drop_last() =~= s);
    assert((10 * n + d) / 10 == n && (10 * n + d) % 10 == d);
}

/// An unsigned number is digits with one plus sign at most before them, and nothing else.
pub proof fn law_only_digits_are_a_number(s: Seq<char>, max: nat)
    ensures
        is_digits(s) ==> unsigned(s) == Some(digits_value(s)),
        is_digits(s) ==> unsigned(seq!['+'] + s) == Some(digits_value(s)),
        unsigned(seq![]) is None,
        s.contains('-') || s.contains('.') || s.contains(' ') || s.contains(':') ==> unsigned(s)
            is None,
        unsigned_upto(s, max) == unsigned(s) || (unsigned(s)->0 > max && unsigned_upto(s, max) is None),
        unsigned_upto(s, max) is Some ==> unsigned_upto(s, max)->0 <= max,
{
    if is_digits(s) {
        assert(is_digit(s[0]));
        assert(without_plus(s) == s);
        assert((seq!['+'] + s).drop_first() =~= s);
    }
    if unsigned(s) is Some {
        let u = without_plus(s);
        assert forall|i: int| 0 <= i < s.len() implies is_digit(#[trigger] s[i]) || s[i] == '+' by {
            if s[0] == '+' {
                if i > 0 {
                    assert(u[i - 1] == s[i]);
                }
            } else {
                assert(u[i] == s[i]);
            }
        }
    }
}

/// The pieces of a text are what stands between its separators: the first up to the first
/// of them, and one more for each that follows.
pub proof fn law_pieces_stand_between(a: Seq<char>, c: char, b: Seq<char>)
    requires
        !a.contains(c),
    ensures
        pieces(a, c) == seq![a],
        pieces(a + seq![c] + b, c) == seq![a] + pieces(b, c),
{
    let s = a + seq![c] + b;
    lemma_split_behind(a, c, b);
    assert(s[a.len() as int] == c);
    s.index_of_first_ensures(c);
}

/// A separator adds one piece at the end.
pub proof fn lemma_pieces_push(s: Seq<char>, c: char, b: Seq<char>)
    requires
        !b.contains(c),
    ensures
        pieces(s + seq![c] + b, c) == pieces(s, c).push(b),
    decreases s.len(),
{
    law_pieces_stand_between(b, c, seq![]);
    if s.contains(c) {
        s.index_of_first_ensures(c);
        let i = s.index_of_first(c)->0;
        let head = s.take(i);
        let tail = s.skip(i + 1);
        assert(!head.contains(c)) by {
            if head.contains(c) {
                let k = choose|k: int| 0 <= k < head.len() && head[k] == c;
                assert(s[k] == c);
            }
        }
        assert(s + seq![c] + b =~= head + seq![c] + (tail + seq![c] + b));
        law_pieces_stand_between(head, c, tail + seq![c] + b);
        lemma_pieces_push(tail, c, b);
        assert(seq![head] + pieces(tail, c).push(b) =~= (seq![head] + pieces(tail, c)).push(b));
    } else {
        law_pieces_stand_between(s, c, b);
        assert(seq![s] + seq![b] =~= seq![s].push(b));
    }
}

/// White space around a text is passed over, and nothing else: a blank, a tab and the
/// line ends are white, letters, digits and signs are not.
pub proof fn law_trimming_drops_white_space_alone(w: Seq<char>, s: Seq<char>, x: Seq<char>, c: char)
    requires
        forall|i: int| 0 <= i < w.len() ==> is_white(#[trigger] w[i]),
        forall|i: int| 0 <= i < x.len() ==> is_white(#[trigger] x[i]),
        s.len() > 0 ==> !is_white(s[0]) && !is_white(s.last()),
    ensures
        trimmed(w + s + x) == s,
        c == ' ' || c == '\t' || c == '\n' || c == '\r' ==> is_white(c),
        '!' <= c <= '~' ==> !is_white(c),
    decreases w.len() + x.len(),
{
    let all = w + s + x;
    if w.len() > 0 {
        assert(is_white(w[0]));
        assert(all[0] == w[0]);
        assert forall|i: int| 0 <= i < w.drop_first().len() implies is_white(
            #[trigger] w.drop_first()[i],
        ) by {
            assert(is_white(w[i + 1]));
        }
        law_trimming_drops_white_space_alone(w.drop_first(), s, x, c);
        assert(all.drop_first() =~= w.drop_first() + s + x);
    } else if s.len() > 0 {
        assert(all[0] == s[0]);
        assert(all =~= s + x);
        lemma_trimmed_end(s, x);
    } else {
        assert(all =~= x);
        lemma_all_white(x);
    }
}

proof fn lemma_trimmed_end(s: Seq<char>, x: Seq<char>)
    requires
        s.len() > 0 && !is_white(s.last()),
        forall|i: int| 0 <= i < x.len() ==> is_white(#[trigger] x[i]),
    ensures
        trimmed_end(s + x) == s,
    decreases x.len(),
{
    if x.len() > 0 {
        assert(is_white(x[x.len() - 1]));
        assert((s + x).last() == x.last());
        assert((s + x).drop_last() =~= s + x.drop_last());
        assert forall|i: int| 0 <= i < x.drop_last().len() implies is_white(
            #[trigger] x.drop_last()[i],
        ) by {
            assert(is_white(x[i]));
        }
        lemma_trimmed_end(s, x.drop_last());
    } else {
        assert(s + x =~= s);
    }
}

proof fn lemma_all_white(x: Seq<char>)
    requires
        forall|i: int| 0 <= i < x.len() ==> is_white(#[trigger] x[i]),
    ensures
        trimmed_start(x) == Seq::<char>::empty(),
        trimmed(x) == Seq::<char>::empty(),
    decreases x.len(),
{
    if x.len() > 0 {
        assert(is_white(x[0]));
        assert forall|i: int| 0 <= i < x.drop_first().len() implies is_white(
            #[trigger] x.drop_first()[i],
        ) by {
            assert(is_white(x[i + 1]));
        }
        lemma_all_white(x.drop_first());
    } else {
        assert(x =~= Seq::<char>::empty());
    }
}

/// Case folding changes the ASCII letters alone, each to the same letter of the other
/// case, and keeps the length.
pub proof fn law_case_folding_is_ascii(c: char, s: Seq<char>)
    ensures
        'A' <= c <= 'Z' ==> lower_char(c) as int == c as int + ('a' as int - 'A' as int),
        'a' <= c <= 'z' ==> upper_char(c) as int == c as int - ('a' as int - 'A' as int),
        !('A' <= c <= 'Z') ==> lower_char(c) == c,
        !('a' <= c <= 'z') ==> upper_char(c) == c,
        lower(s).len() == s.len() && upper(s).len() == s.len(),
        lower(lower(s)) == lower(s),
        lower(upper(s)) == lower(s),
        forall|i: int| 0 <= i < s.len() ==> #[trigger] lower(s)[i] == lower_char(s[i]),
        forall|i: int| 0 <= i < s.len() ==> #[trigger] upper(s)[i] == upper_char(s[i]),
{
    assert(lower(lower(s)) =~= lower(s));
    assert(lower(upper(s)) =~= lower(s));
}

/// A text is split around the first place where the pattern stands.
pub proof fn law_split_around_the_first(a: Seq<char>, pat: Seq<char>, b: Seq<char>)
    requires
        pat.len() > 0,
        forall|k: int|
            0 <= k < a.len() ==> (#[trigger] (a + pat + b).subrange(k, k + pat.len())) != pat,
    ensures
        split_once_around(a + pat + b, pat) == Some((a, b)),
{
    let s = a + pat + b;
    lemma_first_place(s, pat, 0, a.len() as int);
    assert(s.take(a.len() as int) =~= a);
    assert(s.skip((a.len() + pat.len()) as int) =~= b);
}

proof fn lemma_first_place(s: Seq<char>, pat: Seq<char>, from: int, at: int)
    requires
        0 <= from <= at,
        at + pat.len() <= s.len(),
        s.subrange(at, at + pat.len()) =~= pat,
        forall|k: int| from <= k < at ==> (#[trigger] s.subrange(k, k + pat.len())) != pat,
    ensures
        found_from(s, pat, from) == Some(at),
    decreases at - from,
{
    if from < at {
        assert(s.subrange(from, from + pat.len()) != pat);
        lemma_first_place(s, pat, from + 1, at);
    }
}

/// A text is split at the first or the last of a separator, which is left out; one that
/// does not hold the separator is not split.
pub proof fn law_split_at_a_separator(a: Seq<char>, c: char, b: Seq<char>)
    ensures
        !a.contains(c) ==> split_once_at(a + seq![c] + b, c) == Some((a, b)),
        !b.contains(c) ==> rsplit_once_at(a + seq![c] + b, c) == Some((a, b)),
        !a.contains(c) ==> split_once_at(a, c) is None && rsplit_once_at(a, c) is None,
{
    a.index_of_first_ensures(c);
    a.index_of_last_ensures(c);
    if !a.contains(c) {
        lemma_split_behind(a, c, b);
    }
    if !b.contains(c) {
        lemma_rsplit_before(a, c, b);
    }
}

/// What does not occur is not found.
pub proof fn lemma_not_found(s: Seq<char>, pat: Seq<char>, from: int)
    requires
        0 <= from,
        pat.len() > 0,
        forall|k: int|
            from <= k && k + pat.len() <= s.len() ==> (#[trigger] s.subrange(k, k + pat.len()))
                != pat,
    ensures
        found_from(s, pat, from) is None,
    decreases s.len() + 1 - from,
{
    if from + pat.len() <= s.len() {
        assert(s.subrange(from, from + pat.len()) != pat);
        lemma_not_found(s, pat, from + 1);
    }
}

/// All of a character at the end of a text is dropped, and nothing else.
pub proof fn law_trailing_characters_are_dropped(s: Seq<char>, c: char, n: nat)
    requires
        s.len() > 0 ==> s.last() != c,
    ensures
        without_trailing(s + Seq::new(n, |i: int| c), c) == s,
    decreases n,
{
    let t = s + Seq::new(n, |i: int| c);
    if n > 0 {
        law_trailing_characters_are_dropped(s, c, (n - 1) as nat);
        assert(t.last() == c);
        assert(t.drop_last() =~= s + Seq::new((n - 1) as nat, |i: int| c));
    } else {
        assert(t =~= s);
    }
}

/// White space is that of Unicode: the five controls from tab to carriage return, the space,
/// next line, and the spaces and separators beyond ASCII.
pub proof fn law_white_space_is_that_of_unicode(c: char)
    ensures
        is_white(c) <==> {
            let n = c as int;
            ||| 9 <= n <= 13
            ||| n == 32
            ||| n == 0x85
            ||| n == 0xa0
            ||| n == 0x1680
            ||| 0x2000 <= n <= 0x200a
            ||| n == 0x2028
            ||| n == 0x2029
            ||| n == 0x202f
            ||| n == 0x205f
            ||| n == 0x3000
        },
{
}

} // verus!
