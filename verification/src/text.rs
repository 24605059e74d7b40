//! Character-level text utilities: whitespace trimming, lower-casing,
//! substring search and integer parsing, with exact specifications.

use vstd::prelude::*;

use vstd::std_specs::iter::IteratorSpec;

verus! {

/// Unicode white space, the set `char::is_whitespace` matches.
pub open spec fn is_space(c: char) -> bool {
    ||| c == ' '
    ||| c == '\t'
    ||| c == '\n'
    ||| c == '\u{0B}'
    ||| c == '\u{0C}'
    ||| c == '\r'
    ||| c == '\u{85}'
    ||| c == '\u{A0}'
    ||| c == '\u{1680}'
    ||| (0x2000 <= c as u32 && c as u32 <= 0x200A)
    ||| c == '\u{2028}'
    ||| c == '\u{2029}'
    ||| c == '\u{202F}'
    ||| c == '\u{205F}'
    ||| c == '\u{3000}'
}

pub fn is_space_char(c: char) -> (r: bool)
    ensures
        r == is_space(c),
{
    c == ' ' || c == '\t' || c == '\n' || c == '\u{0B}' || c == '\u{0C}' || c == '\r'
        || c == '\u{85}' || c == '\u{A0}' || c == '\u{1680}' || (0x2000 <= c as u32 && c
        as u32 <= 0x200A) || c == '\u{2028}' || c == '\u{2029}' || c == '\u{202F}' || c
        == '\u{205F}' || c == '\u{3000}'
}

/// Count of leading white-space characters.
pub open spec fn trim_start_idx(s: Seq<char>) -> int
    decreases s.len(),
{
    if s.len() == 0 || !is_space(s[0]) {
        0
    } else {
        1 + trim_start_idx(s.drop_first())
    }
}

/// End of the string with trailing white space removed.
pub open spec fn trim_end_idx(s: Seq<char>) -> int
    decreases s.len(),
{
    if s.len() == 0 || !is_space(s.last()) {
        s.len() as int
    } else {
        trim_end_idx(s.drop_last())
    }
}

/// The string without leading and trailing white space, as `str::trim`
/// leaves it.
pub open spec fn trim_spec(s: Seq<char>) -> Seq<char> {
    if trim_start_idx(s) <= trim_end_idx(s) {
        s.subrange(trim_start_idx(s), trim_end_idx(s))
    } else {
        Seq::empty()
    }
}

pub proof fn lemma_trim_start_props(s: Seq<char>)
    ensures
        0 <= trim_start_idx(s) <= s.len(),
        forall|k: int| 0 <= k < trim_start_idx(s) ==> is_space(#[trigger] s[k]),
        trim_start_idx(s) < s.len() ==> !is_space(s[trim_start_idx(s)]),
    decreases s.len(),
{
    if s.len() == 0 || !is_space(s[0]) {
    } else {
        let t = s.drop_first();
        lemma_trim_start_props(t);
        assert forall|k: int| 0 <= k < trim_start_idx(s) implies is_space(#[trigger] s[k]) by {
            if k >= 1 {
                assert(s[k] == t[k - 1]);
            }
        }
        if trim_start_idx(s) < s.len() {
            assert(s[trim_start_idx(s)] == t[trim_start_idx(t)]);
        }
    }
}

pub proof fn lemma_trim_end_props(s: Seq<char>)
    ensures
        0 <= trim_end_idx(s) <= s.len(),
        forall|k: int| trim_end_idx(s) <= k < s.len() ==> is_space(#[trigger] s[k]),
        trim_end_idx(s) > 0 ==> !is_space(s[trim_end_idx(s) - 1]),
    decreases s.len(),
{
    if s.len() == 0 || !is_space(s.last()) {
    } else {
        let t = s.drop_last();
        lemma_trim_end_props(t);
        assert(forall|k: int| 0 <= k < t.len() ==> t[k] == s[k]);
    }
}

/// `str::trim`, verified: removes exactly the leading and trailing white
/// space.
pub fn trim_str(s: &str) -> (r: String)
    ensures
        r@ == trim_spec(s@),
{
    proof {
        lemma_trim_start_props(s@);
        lemma_trim_end_props(s@);
    }
    let n = s.unicode_len();
    let mut start: usize = 0;
    while start < n && is_space_char(s.get_char(start))
        invariant
            n == s@.len(),
            0 <= start <= n,
            forall|k: int| 0 <= k < start ==> is_space(#[trigger] s@[k]),
        decreases n - start,
    {
        start = start + 1;
    }
    proof {
        // The scan stopped exactly where the spec says the trimmed part begins.
        let t = trim_start_idx(s@);
        if start < t {
            assert(is_space(s@[start as int]));
        }
        if start > t {
            assert(is_space(s@[t]));
        }
        assert(start == t);
    }
    let mut end: usize = n;
    while end > start && is_space_char(s.get_char(end - 1))
        invariant
            n == s@.len(),
            start <= end <= n,
            start == trim_start_idx(s@),
            forall|k: int| end <= k < n ==> is_space(#[trigger] s@[k]),
        decreases end,
    {
        end = end - 1;
    }
    proof {
        let te = trim_end_idx(s@);
        let ts = trim_start_idx(s@);
        if ts <= te {
            // The scan stopped exactly at the spec's end index.
            if (end as int) < te {
                assert(is_space(s@[te - 1]));
                assert(end <= te - 1 < n);
                assert(false);
            }
            if (end as int) > te {
                assert(is_space(s@[end - 1]));
                assert(end == start);
                assert(false);
            }
            assert(end == te);
        } else {
            // Only an all-space string has its start index past its end
            // index; trimming it leaves nothing.
            assert forall|k: int| 0 <= k < n implies is_space(#[trigger] s@[k]) by {
                if k >= ts {
                    assert(te <= k);
                }
            }
            if end > start {
                assert(is_space(s@[end - 1]));
                assert(false);
            }
            assert(end == start);
            assert(s@.subrange(start as int, end as int) =~= trim_spec(s@));
        }
    }
    let out = s.substring_char(start, end);
    out.to_owned()
}

/// `b` occurs in `a` as a contiguous run.
pub open spec fn has_sub(a: Seq<char>, b: Seq<char>) -> bool {
    exists|i: int|
        0 <= i && i + b.len() <= a.len() && #[trigger] a.subrange(i, i + b.len() as int) == b
}

pub fn chars_of(s: &str) -> (v: Vec<char>)
    ensures
        v@ == s@,
{
    broadcast use vstd::string::next_postcondition, vstd::string::axiom_spec_iter;

    let mut v: Vec<char> = Vec::new();
    let mut it = s.chars();
    assert(it.remaining() == s@);
    loop
        invariant_except_break
            it.obeys_prophetic_iter_laws(),
            it.decrease() is Some,
            v@ + it.remaining() == s@,
        ensures
            v@ == s@,
        decreases it.decrease()->0,
    {
        let ghost pre_rem = it.remaining();
        let ghost pre_v = v@;
        match it.next() {
            Some(c) => {
                v.push(c);
                proof {
                    assert(pre_rem[0] == c);
                    assert(v@ + it.remaining() =~= pre_v + pre_rem);
                }
            },
            None => {
                proof {
                    assert(pre_rem.len() == 0);
                    assert(v@ =~= v@ + it.remaining());
                }
                break;
            },
        }
    }
    v
}

/// Substring search, verified: true exactly when `needle` occurs in `hay`
/// (an empty needle always occurs).
pub fn str_contains(hay: &str, needle: &str) -> (r: bool)
    ensures
        r == has_sub(hay@, needle@),
{
    let h = chars_of(hay);
    let m = chars_of(needle);
    if m.len() > h.len() {
        return false;
    }
    let last_start = h.len() - m.len();
    let mut i: usize = 0;
    while i <= last_start
        invariant
            h@ == hay@,
            m@ == needle@,
            m.len() <= h.len(),
            last_start == h.len() - m.len(),
            0 <= i <= last_start + 1,
            forall|p: int|
                0 <= p < i ==> #[trigger] hay@.subrange(p, p + needle@.len() as int) != needle@,
        decreases last_start + 1 - i,
    {
        let mut j: usize = 0;
        let mut matches = true;
        while j < m.len() && matches
            invariant
                h@ == hay@,
                m@ == needle@,
                0 <= i <= last_start,
                last_start == h.len() - m.len(),
                0 <= j <= m.len(),
                matches == (hay@.subrange(i as int, i + j as int) =~= needle@.subrange(
                    0,
                    j as int,
                )),
            decreases m.len() - j,
        {
            let same = h[i + j] == m[j];
            proof {
                if matches && same {
                    assert(hay@.subrange(i as int, i + j + 1) =~= needle@.subrange(0, j + 1)) by {
                        assert(hay@.subrange(i as int, i + j as int) =~= hay@.subrange(
                            i as int,
                            i + j + 1,
                        ).subrange(0, j as int));
                        assert(hay@.subrange(i as int, i + j + 1)[j as int] == hay@[i + j]);
                    }
                } else if matches && !same {
                    assert(hay@.subrange(i as int, i + j + 1)[j as int] == hay@[i + j]);
                    assert(needle@.subrange(0, j + 1)[j as int] == needle@[j as int]);
                    assert(hay@.subrange(i as int, i + j + 1) != needle@.subrange(0, j + 1));
                }
            }
            matches = matches && same;
            j = j + 1;
        }
        if matches {
            proof {
                assert(needle@.subrange(0, needle@.len() as int) =~= needle@);
                assert(hay@.subrange(i as int, i + needle@.len() as int) == needle@);
            }
            return true;
        }
        proof {
            if j == m.len() {
            } else {
                // the inner loop stopped on a mismatch partway through
                assert(!matches);
            }
            assert(needle@.subrange(0, needle@.len() as int) =~= needle@);
            if hay@.subrange(i as int, i + needle@.len() as int) == needle@ {
                assert(matches);
            }
        }
        i = i + 1;
    }
    proof {
        if has_sub(hay@, needle@) {
            let p = choose|p: int|
                0 <= p && p + needle@.len() <= hay@.len() && #[trigger] hay@.subrange(
                    p,
                    p + needle@.len() as int,
                ) == needle@;
            assert(p < i);
        }
    }
    false
}

/// What `str::to_lowercase` returns for a given sequence of characters; the
/// result depends on the characters alone.
pub uninterp spec fn lower_of(s: Seq<char>) -> Seq<char>;

/// Relies on str::to_lowercase: Unicode lower-casing, a pure function of the
/// characters; it maps every character to at least one character, so the
/// result is empty exactly when the input is.
#[verifier::external_body]
pub fn lowercase(s: &str) -> (r: String)
    ensures
        r@ == lower_of(s@),
        (r@.len() == 0) == (s@.len() == 0),
{
    s.to_lowercase()
}

pub open spec fn is_digit(c: char) -> bool {
    0x30 <= c as u32 <= 0x39
}

pub open spec fn digit_val(c: char) -> int {
    c as u32 - 0x30
}

/// Numeric value of an unsigned digit string.
pub open spec fn digits_val(s: Seq<char>) -> int
    decreases s.len(),
{
    if s.len() == 0 {
        0
    } else {
        digits_val(s.drop_last()) * 10 + digit_val(s.last())
    }
}

/// A well-formed decimal integer literal: an optional sign followed by at
/// least one digit.
pub open spec fn int_literal_body(s: Seq<char>) -> Seq<char> {
    if s.len() > 0 && (s[0] == '+' || s[0] == '-') {
        s.drop_first()
    } else {
        s
    }
}

pub open spec fn is_int_literal(s: Seq<char>) -> bool {
    let b = int_literal_body(s);
    b.len() > 0 && forall|k: int| 0 <= k < b.len() ==> is_digit(#[trigger] b[k])
}

pub open spec fn int_literal_val(s: Seq<char>) -> int {
    if s.len() > 0 && s[0] == '-' {
        -digits_val(int_literal_body(s))
    } else {
        digits_val(int_literal_body(s))
    }
}

/// What parsing a decimal `i64` yields: the value when the string is a
/// well-formed literal whose value fits, nothing otherwise.
pub open spec fn parse_i64_spec(s: Seq<char>) -> Option<i64> {
    if is_int_literal(s) && i64::MIN <= int_literal_val(s) <= i64::MAX {
        Some(int_literal_val(s) as i64)
    } else {
        None
    }
}

fn digit_of(c: char) -> (r: u64)
    requires
        is_digit(c),
    ensures
        r == digit_val(c),
{
    (c as u32 - 0x30) as u64
}

/// Decimal `i64` parsing, verified against its grammar: an optional ASCII
/// sign followed by one or more ASCII digits, the value in the `i64`
/// range; anything else is refused.
#[verifier::loop_isolation(false)]
#[verifier::rlimit(100)]
pub fn parse_i64(s: &str) -> (r: Option<i64>)
    ensures
        r == parse_i64_spec(s@),
{
    let v = chars_of(s);
    let n = v.len();
    let mut i: usize = 0;
    let mut neg = false;
    if n > 0 && (v[0] == '+' || v[0] == '-') {
        neg = v[0] == '-';
        i = 1;
    }
    let ghost body = int_literal_body(s@);
    proof {
        assert(body =~= s@.subrange(i as int, n as int));
    }
    if i >= n {
        // no digits at all
        return None;
    }
    let ghost i0 = i as int;
    let mut mag: u64 = 0;
    let mut big = false;
    proof {
        assert(s@.subrange(i0, i0) =~= Seq::<char>::empty());
        assert(digits_val(s@.subrange(i0, i0)) == 0);
    }
    while i < n
        invariant
            i0 <= i <= n,
            forall|k: int| i0 <= k < i ==> is_digit(#[trigger] s@[k]),
            !big ==> mag == digits_val(s@.subrange(i0, i as int)),
            big ==> digits_val(s@.subrange(i0, i as int)) > 0x8000_0000_0000_0000,
        decreases n - i,
    {
        let c = v[i];
        if !(0x30 <= c as u32 && c as u32 <= 0x39) {
            // a non-digit anywhere makes the whole string no literal
            assert(!is_int_literal(s@)) by {
                assert(!is_digit(body[i - i0]));
            }
            return None;
        }
        let d = digit_of(c);
        let ghost prev = s@.subrange(i0, i as int);
        let ghost cur = s@.subrange(i0, i + 1);
        proof {
            assert(cur.drop_last() =~= prev);
            assert(cur.last() == s@[i as int]);
            assert(digits_val(cur) == digits_val(prev) * 10 + d);
        }
        if mag > 0x1999_9999_9999_9998 {
            proof {
                if !big {
                    assert(digits_val(cur) > 0x8000_0000_0000_0000) by (nonlinear_arith)
                        requires
                            digits_val(cur) == digits_val(prev) * 10 + d,
                            digits_val(prev) >= 0x1999_9999_9999_9999,
                            d >= 0,
                    ;
                } else {
                    assert(digits_val(cur) > 0x8000_0000_0000_0000) by (nonlinear_arith)
                        requires
                            digits_val(cur) == digits_val(prev) * 10 + d,
                            digits_val(prev) > 0x8000_0000_0000_0000,
                            d >= 0,
                    ;
                }
            }
            big = true;
        } else {
            let next = mag * 10;
            assert(next <= 0xFFFF_FFFF_FFFF_FFF0) by (nonlinear_arith)
                requires
                    mag <= 0x1999_9999_9999_9998,
                    next == mag * 10,
            ;
            mag = next + d;
        }
        i = i + 1;
    }
    proof {
        assert(body =~= s@.subrange(i0, n as int));
        assert(is_int_literal(s@)) by {
            assert(forall|k: int| 0 <= k < body.len() ==> is_digit(#[trigger] body[k]));
        }
        assert(int_literal_val(s@) == if neg {
            -digits_val(body)
        } else {
            digits_val(body)
        });
    }
    if big {
        // the magnitude exceeds the i64 range whatever the sign
        return None;
    }
    if neg {
        if mag > 0x8000_0000_0000_0000 {
            return None;
        }
        if mag == 0x8000_0000_0000_0000 {
            return Some(i64::MIN);
        }
        return Some(-(mag as i64));
    }
    if mag > 0x7FFF_FFFF_FFFF_FFFF {
        return None;
    }
    Some(mag as i64)
}


/// Relies on the FromIterator impl of String: collecting characters builds
/// the string of exactly those characters.
#[verifier::external_body]
pub fn string_from_chars(v: &Vec<char>) -> (r: String)
    ensures
        r@ == v@,
{
    v.iter().collect()
}

/// Relies on char::from_u32: it returns the character with the given code
/// exactly when the code is a Unicode scalar value (not a surrogate, not
/// beyond the last code point).
#[verifier::external_body]
pub fn char_from_u32(x: u32) -> (r: Option<char>)
    ensures
        r matches Some(c) ==> c as u32 == x,
        r is Some <==> (x < 0xD800 || (0xE000 <= x && x <= 0x10FFFF)),
    {
    char::from_u32(x)
}


/// Character-wise equality between a `&str` and a vector of characters.
pub fn str_eq_chars(s: &str, v: &Vec<char>) -> (r: bool)
    ensures
        r == (s@ == v@),
{
    let n = s.unicode_len();
    if n != v.len() {
        assert(s@ != v@) by {
            assert(s@.len() != v@.len());
        }
        return false;
    }
    let mut i: usize = 0;
    while i < n
        invariant
            n == s@.len() == v@.len(),
            0 <= i <= n,
            forall|k: int| 0 <= k < i ==> s@[k] == v@[k],
        decreases n - i,
    {
        if s.get_char(i) != v[i] {
            return false;
        }
        i = i + 1;
    }
    assert(s@ =~= v@);
    true
}


/// Index of the first occurrence of `c` in `s`, or the length when absent.
pub open spec fn find_char_idx(s: Seq<char>, c: char) -> int
    decreases s.len(),
{
    if s.len() == 0 {
        0
    } else if s[0] == c {
        0
    } else {
        1 + find_char_idx(s.subrange(1, s.len() as int), c)
    }
}

pub proof fn lemma_find_char_props(s: Seq<char>, c: char)
    ensures
        0 <= find_char_idx(s, c) <= s.len(),
        forall|k: int| 0 <= k < find_char_idx(s, c) ==> #[trigger] s[k] != c,
        find_char_idx(s, c) < s.len() ==> s[find_char_idx(s, c)] == c,
    decreases s.len(),
{
    if s.len() == 0 || s[0] == c {
    } else {
        let t = s.subrange(1, s.len() as int);
        lemma_find_char_props(t, c);
        assert forall|k: int| 0 <= k < find_char_idx(s, c) implies #[trigger] s[k] != c by {
            if k >= 1 {
                assert(s[k] == t[k - 1]);
            }
        }
        if find_char_idx(s, c) < s.len() {
            assert(s[find_char_idx(s, c)] == t[find_char_idx(t, c)]);
        }
    }
}

/// The characters of `v` between `from` and `to`.
pub fn copy_range(v: &Vec<char>, from: usize, to: usize) -> (r: Vec<char>)
    requires
        from <= to <= v@.len(),
    ensures
        r@ == v@.subrange(from as int, to as int),
{
    let mut r: Vec<char> = Vec::new();
    let mut i = from;
    while i < to
        invariant
            from <= i <= to <= v@.len(),
            r@ == v@.subrange(from as int, i as int),
        decreases to - i,
    {
        r.push(v[i]);
        assert(r@ =~= v@.subrange(from as int, i + 1));
        i = i + 1;
    }
    r
}

/// Whether the characters of `v` between `from` and `to` spell `s`.
pub fn range_eq_str(v: &Vec<char>, from: usize, to: usize, s: &str) -> (r: bool)
    requires
        from <= to <= v@.len(),
    ensures
        r == (v@.subrange(from as int, to as int) == s@),
{
    let n = s.unicode_len();
    if n != to - from {
        assert(v@.subrange(from as int, to as int) != s@) by {
            assert(v@.subrange(from as int, to as int).len() != s@.len());
        }
        return false;
    }
    let mut i: usize = 0;
    while i < n
        invariant
            from <= to <= v@.len(),
            n == s@.len() == to - from,
            0 <= i <= n,
            forall|k: int| 0 <= k < i ==> v@[from + k] == s@[k],
        decreases n - i,
    {
        if v[from + i] != s.get_char(i) {
            assert(v@.subrange(from as int, to as int)[i as int] != s@[i as int]);
            return false;
        }
        i = i + 1;
    }
    assert(v@.subrange(from as int, to as int) =~= s@);
    true
}

} // verus!
