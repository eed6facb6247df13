//! Parsing clipboard text into a price.
//!
//! Parsing trims the text and tries two readings: first the plain dot-decimal
//! numeral, then — if that fails — the comma-decimal reinterpretation, in
//! which every dot is taken for a thousands separator and the comma for the
//! decimal separator. A text such as `1.234` is therefore read as `1.234`
//! (the plain pass wins), while `1.234,56` is read as `1234.56`.

use vstd::prelude::*;
use crate::digits::{
    digit_val, digits_val, is_digit, lemma_digits_val_prefix,
};
use crate::numeral::{
    body, dot_at, frac_part, has_dot, int_part, is_negative, mantissa_of, scale_of, sign_len,
    valid_body, valid_numeral,
};
use crate::price::{Price, MANTISSA_LIMIT, SCALE_LIMIT};
use crate::text::{alt_form, is_space, trim, trim_back, trim_front};

verus! {

/// The numeral's mantissa and scale fit the bounds of `Price`.
pub open spec fn within_limits(s: Seq<char>) -> bool {
    mantissa_of(s) < MANTISSA_LIMIT && scale_of(s) <= SCALE_LIMIT
}

/// One pass of the parser succeeds on exactly these sequences: well-formed
/// plain numerals within the bounds of `Price`.
pub open spec fn numeral_ok(s: Seq<char>) -> bool {
    valid_numeral(s) && within_limits(s)
}

/// The price a numeral denotes.
pub open spec fn price_of(s: Seq<char>) -> Price {
    Price {
        negative: is_negative(s),
        mantissa: mantissa_of(s) as u128,
        scale: scale_of(s) as u32,
    }
}

/// What parsing yields on a text: the trimmed text read as a plain numeral
/// if it is one, otherwise its comma-decimal reinterpretation read the same
/// way, otherwise nothing.
pub open spec fn spec_parse(text: Seq<char>) -> Option<Price> {
    let t = trim(text);
    if numeral_ok(t) {
        Some(price_of(t))
    } else if numeral_ok(alt_form(t)) {
        Some(price_of(alt_form(t)))
    } else {
        None
    }
}

/// Decides `is_space`.
fn space_of(c: char) -> (r: bool)
    ensures
        r == is_space(c),
{
    (c >= '\u{9}' && c <= '\u{d}') || c == ' ' || c == '\u{85}' || c == '\u{a0}'
        || c == '\u{1680}' || (c >= '\u{2000}' && c <= '\u{200a}') || c == '\u{2028}'
        || c == '\u{2029}' || c == '\u{202f}' || c == '\u{205f}' || c == '\u{3000}'
}

/// Decides `is_digit` and hands the digit's value out.
fn digit_of(c: char) -> (r: Option<u8>)
    ensures
        match r {
            Some(d) => is_digit(c) && d < 10 && d as nat == digit_val(c),
            None => !is_digit(c),
        },
{
    if c >= '0' && c <= '9' {
        Some((c as u32 - '0' as u32) as u8)
    } else {
        None
    }
}

/// The characters of a text, one by one.
fn chars_of(text: &str) -> (v: Vec<char>)
    ensures
        v@ == text@,
{
    let n = text.unicode_len();
    let mut v: Vec<char> = Vec::new();
    let mut i: usize = 0;
    while i < n
        invariant
            n == text@.len(),
            i <= n,
            v@ == text@.take(i as int),
        decreases n - i,
    {
        v.push(text.get_char(i));
        i = i + 1;
        proof {
            assert(v@ =~= text@.take(i as int));
        }
    }
    proof {
        assert(text@.take(n as int) =~= text@);
    }
    v
}

/// The digit characters a scan has taken in after `j` characters of the
/// body, given where the dot was found.
spec fn taken_digits(b: Seq<char>, seen_dot: bool, dot_rel: int, j: int) -> Seq<char> {
    if seen_dot {
        b.take(dot_rel) + b.subrange(dot_rel + 1, j)
    } else {
        b.take(j)
    }
}

/// When the body is well formed and holds a dot at `i`, that is the dot.
pub proof fn lemma_dot_is_unique(b: Seq<char>, i: int)
    requires
        valid_body(b),
        0 <= i < b.len(),
        b[i] == '.',
    ensures
        has_dot(b),
        dot_at(b) == i,
{
}

/// Reads one character sequence as a plain numeral.
#[verifier::loop_isolation(false)]
#[verifier::rlimit(100)]
fn parse_numeral(cs: &Vec<char>) -> (r: Option<Price>)
    ensures
        match r {
            Some(p) => numeral_ok(cs@) && p == price_of(cs@) && p.wf_parsed(),
            None => !numeral_ok(cs@),
        },
{
    let ghost s = cs@;
    let n = cs.len();
    let mut start: usize = 0;
    let mut negative = false;
    if n > 0 {
        let c0 = cs[0];
        if c0 == '+' {
            start = 1;
        } else if c0 == '-' {
            start = 1;
            negative = true;
        }
    }
    let ghost b = body(s);
    proof {
        assert(sign_len(s) == start as nat);
        assert(negative == is_negative(s));
    }
    if start == n {
        proof {
            assert(b.len() == 0);
            assert(!valid_body(b));
        }
        return None;
    }
    let mut mantissa: u128 = 0;
    let mut scale: u32 = 0;
    let mut dot_rel: usize = 0;
    let mut seen_dot = false;
    let mut k = start;
    while k < n
        invariant
            start <= k <= n,
            forall|i: int| 0 <= i < k - start ==> is_digit(b[i]) || b[i] == '.',
            seen_dot ==> {
                &&& dot_rel < k - start
                &&& b[dot_rel as int] == '.'
                &&& forall|i: int| 0 <= i < k - start && i != dot_rel ==> is_digit(b[i])
                &&& scale as int == b.len() - dot_rel - 1
                &&& scale <= SCALE_LIMIT
            },
            !seen_dot ==> (forall|i: int| 0 <= i < k - start ==> is_digit(b[i])) && scale == 0,
            mantissa as nat == digits_val(
                taken_digits(b, seen_dot, dot_rel as int, k - start),
            ),
            mantissa < MANTISSA_LIMIT,
        decreases n - k,
    {
        let c = cs[k];
        let ghost j = k - start;
        if let Some(d) = digit_of(c) {
            let grown: u128 = mantissa * 10 + d as u128;
            proof {
                let taken = taken_digits(b, seen_dot, dot_rel as int, j);
                let taken_next = taken_digits(b, seen_dot, dot_rel as int, j + 1);
                assert(taken_next =~= taken.push(b[j]));
                assert(taken_next.drop_last() =~= taken);
                assert(digits_val(taken_next) == digits_val(taken) * 10 + digit_val(b[j]));
            }
            if grown >= MANTISSA_LIMIT {
                proof {
                    if valid_body(b) {
                        let taken_next = taken_digits(b, seen_dot, dot_rel as int, j + 1);
                        let all = int_part(b) + frac_part(b);
                        if seen_dot {
                            lemma_dot_is_unique(b, dot_rel as int);
                            let rest = b.subrange(j + 1, b.len() as int);
                            assert(all =~= taken_next + rest);
                            lemma_digits_val_prefix(taken_next, rest);
                        } else if has_dot(b) {
                            let dd = dot_at(b);
                            assert(b[dd] == '.');
                            assert(dd > j);
                            let rest = b.subrange(j + 1, dd) + b.skip(dd + 1);
                            assert(all =~= taken_next + rest);
                            lemma_digits_val_prefix(taken_next, rest);
                        } else {
                            let rest = b.subrange(j + 1, b.len() as int);
                            assert(all =~= taken_next + rest);
                            lemma_digits_val_prefix(taken_next, rest);
                        }
                        assert(mantissa_of(s) >= MANTISSA_LIMIT);
                    }
                }
                return None;
            }
            mantissa = grown;
        } else if c == '.' {
            if seen_dot {
                proof {
                    assert(b[dot_rel as int] == '.' && b[j] == '.' && dot_rel != j);
                    assert(!valid_body(b));
                }
                return None;
            }
            if n - k - 1 > SCALE_LIMIT as usize {
                proof {
                    if valid_body(b) {
                        lemma_dot_is_unique(b, j);
                        assert(scale_of(s) == b.len() - j - 1);
                    }
                }
                return None;
            }
            seen_dot = true;
            dot_rel = k - start;
            scale = (n - k - 1) as u32;
            proof {
                let taken_next = taken_digits(b, true, dot_rel as int, j + 1);
                assert(taken_next =~= b.take(j));
            }
        } else {
            proof {
                assert(!(is_digit(b[j]) || b[j] == '.'));
                assert(!valid_body(b));
            }
            return None;
        }
        k = k + 1;
    }
    let ghost m = b.len() as int;
    if seen_dot && start + 1 == n {
        proof {
            assert(forall|i: int| 0 <= i < m ==> b[i] == '.');
            assert(!valid_body(b));
        }
        return None;
    }
    proof {
        assert forall|i: int, i2: int|
            0 <= i < m && 0 <= i2 < m && b[i] == '.' && b[i2] == '.' implies i == i2 by {
            if seen_dot {
                assert(i == dot_rel && i2 == dot_rel);
            }
        }
        if seen_dot {
            let witness: int = if dot_rel == 0 { 1 } else { 0 };
            assert(is_digit(b[witness]));
        } else {
            assert(is_digit(b[0]));
        }
        assert(valid_body(b));
        if seen_dot {
            lemma_dot_is_unique(b, dot_rel as int);
            assert(taken_digits(b, true, dot_rel as int, m) =~= int_part(b) + frac_part(b));
        } else {
            if has_dot(b) {
                let dd = dot_at(b);
                assert(0 <= dd < m && b[dd] == '.');
                assert(is_digit(b[dd]));
                assert(false);
            }
            assert(taken_digits(b, false, dot_rel as int, m) =~= int_part(b) + frac_part(b));
        }
        assert(mantissa as nat == mantissa_of(s));
        assert(scale as nat == scale_of(s));
    }
    Some(Price { negative, mantissa, scale })
}

/// Parses a text as a decimal price.
///
/// The text is trimmed and first read as a plain dot-decimal numeral; if
/// that fails, every dot is removed and the comma turned into a dot, and the
/// result is read the same way. The outcome is exactly `spec_parse` of the
/// text: `Some` precisely when one of the two readings is a well-formed
/// numeral within the bounds of `Price`, and then the price that reading
/// denotes.
pub fn parse_price(text: &str) -> (r: Option<Price>)
    ensures
        r == spec_parse(text@),
        r matches Some(p) ==> p.wf_parsed(),
{
    let cs = chars_of(text);
    let ghost s = cs@;
    let n = cs.len();
    let mut lo: usize = 0;
    while lo < n && space_of(cs[lo])
        invariant
            lo <= n,
            n == s.len(),
            cs@ == s,
            forall|i: int| 0 <= i < lo ==> is_space(s[i]),
        decreases n - lo,
    {
        lo = lo + 1;
    }
    let mut hi: usize = n;
    while hi > lo && space_of(cs[hi - 1])
        invariant
            lo <= hi <= n,
            n == s.len(),
            cs@ == s,
            forall|i: int| hi <= i < n ==> is_space(s[i]),
        decreases hi,
    {
        hi = hi - 1;
    }
    proof {
        lemma_trim_front_scan(s, lo as int);
        lemma_trim_back_scan(s.skip(lo as int), hi - lo);
        assert(trim(s) =~= s.subrange(lo as int, hi as int));
    }
    let mut t: Vec<char> = Vec::new();
    let mut i = lo;
    while i < hi
        invariant
            lo <= i <= hi <= n,
            n == s.len(),
            cs@ == s,
            t@ == s.subrange(lo as int, i as int),
        decreases hi - i,
    {
        t.push(cs[i]);
        i = i + 1;
        proof {
            assert(t@ =~= s.subrange(lo as int, i as int));
        }
    }
    let ghost tt = trim(s);
    proof {
        assert(t@ == tt);
    }
    if let Some(p) = parse_numeral(&t) {
        return Some(p);
    }
    let mut alt: Vec<char> = Vec::new();
    let mut j: usize = 0;
    let t_len = t.len();
    while j < t_len
        invariant
            j <= t_len,
            t_len == t@.len(),
            t@ == tt,
            alt@ == alt_form(tt.take(j as int)),
        decreases t_len - j,
    {
        let c = t[j];
        j = j + 1;
        proof {
            assert(tt.take(j as int).drop_last() =~= tt.take(j - 1));
            assert(tt.take(j as int).last() == tt[j - 1]);
        }
        if c == '.' {
        } else if c == ',' {
            alt.push('.');
        } else {
            alt.push(c);
        }
    }
    proof {
        assert(tt.take(t_len as int) =~= tt);
        assert(alt@ == alt_form(tt));
    }
    parse_numeral(&alt)
}

/// After `k` leading whitespace characters followed by a non-space (or the
/// end), front trimming drops exactly those `k`.
proof fn lemma_trim_front_scan(s: Seq<char>, k: int)
    requires
        0 <= k <= s.len(),
        forall|i: int| 0 <= i < k ==> is_space(s[i]),
        k == s.len() || !is_space(s[k]),
    ensures
        trim_front(s) == s.skip(k),
    decreases k,
{
    if k == 0 {
        assert(s.skip(0) =~= s);
    } else {
        assert(is_space(s.first()));
        lemma_trim_front_scan(s.drop_first(), k - 1);
        assert(s.drop_first().skip(k - 1) =~= s.skip(k));
    }
}

/// When everything from position `h` on is whitespace and the character
/// before `h` is not (or `h` is zero), back trimming keeps exactly the first
/// `h`.
proof fn lemma_trim_back_scan(s: Seq<char>, h: int)
    requires
        0 <= h <= s.len(),
        forall|i: int| h <= i < s.len() ==> is_space(s[i]),
        h == 0 || !is_space(s[h - 1]),
    ensures
        trim_back(s) == s.take(h),
    decreases s.len(),
{
    if h == s.len() {
        if s.len() == 0 {
            assert(s.take(0) =~= s);
        } else {
            assert(!is_space(s.last()));
            assert(s.take(h) =~= s);
        }
    } else {
        assert(is_space(s.last()));
        lemma_trim_back_scan(s.drop_last(), h);
        assert(s.drop_last().take(h) =~= s.take(h));
    }
}

} // verus!
