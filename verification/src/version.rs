//! Version-number handling: the digit-collecting comparison key for
//! hotfix hashes, the strict integer parse applied to a persisted
//! version string, the scan of a version file for its
//! case-insensitively marked `version <digits>` token, and decimal
//! rendering of a version number.

use vstd::prelude::*;
use crate::text::chars_of;

verus! {

/// An ASCII decimal digit.
pub open spec fn is_ascii_digit(c: char) -> bool {
    '0' as int <= c as int <= '9' as int
}

/// The numeric value of a sequence of decimal digits, most significant
/// first; zero for the empty sequence.
pub open spec fn digits_value(ds: Seq<char>) -> int
    decreases ds.len(),
{
    if ds.len() == 0 {
        0int
    } else {
        digits_value(ds.drop_last()) * 10 + (ds.last() as int - '0' as int)
    }
}

/// The subsequence of ASCII digits of `s`, in order.
pub open spec fn spec_digits(s: Seq<char>) -> Seq<char>
    decreases s.len(),
{
    if s.len() == 0 {
        Seq::<char>::empty()
    } else if is_ascii_digit(s.last()) {
        spec_digits(s.drop_last()).push(s.last())
    } else {
        spec_digits(s.drop_last())
    }
}

/// A digit value is never negative.
pub proof fn lemma_digits_value_nonneg(ds: Seq<char>)
    requires
        forall|i: int| 0 <= i < ds.len() ==> is_ascii_digit(#[trigger] ds[i]),
    ensures
        digits_value(ds) >= 0,
    decreases ds.len(),
{
    if ds.len() > 0 {
        lemma_digits_value_nonneg(ds.drop_last());
    }
}

/// Appending digits never shrinks the value.
pub proof fn lemma_digits_value_extend(ds: Seq<char>, c: char)
    requires
        forall|i: int| 0 <= i < ds.len() ==> is_ascii_digit(#[trigger] ds[i]),
        is_ascii_digit(c),
    ensures
        digits_value(ds.push(c)) >= digits_value(ds),
        digits_value(ds.push(c)) == digits_value(ds) * 10 + (c as int - '0' as int),
{
    assert(ds.push(c).drop_last() =~= ds);
    assert(ds.push(c).last() == c);
    lemma_digits_value_nonneg(ds);
}

/// Every character of the digit subsequence is a digit.
pub proof fn lemma_spec_digits_all_digits(s: Seq<char>)
    ensures
        forall|i: int|
            0 <= i < spec_digits(s).len() ==> is_ascii_digit(#[trigger] spec_digits(s)[i]),
    decreases s.len(),
{
    if s.len() > 0 {
        lemma_spec_digits_all_digits(s.drop_last());
        if is_ascii_digit(s.last()) {
            let prev = spec_digits(s.drop_last());
            assert forall|i: int| 0 <= i < spec_digits(s).len() implies is_ascii_digit(
                #[trigger] spec_digits(s)[i],
            ) by {
                if i < prev.len() {
                    assert(spec_digits(s)[i] == prev[i]);
                } else {
                    assert(spec_digits(s)[i] == s.last());
                }
            }
        }
    }
}

/// The numeric key a version string sorts by: the value of its digits
/// taken in order, with every other character ignored; zero where
/// there is no digit or the value does not fit an unsigned 64-bit
/// integer.
pub open spec fn spec_version_key(s: Seq<char>) -> int {
    let ds = spec_digits(s);
    if ds.len() == 0 {
        0int
    } else if digits_value(ds) > u64::MAX {
        0int
    } else {
        digits_value(ds)
    }
}

/// Collect the decimal digits of a version string and read them as one
/// number: `"v1.2.3"` reads as 123. A string without digits, or whose
/// digits overflow an unsigned 64-bit value, reads as zero.
pub fn version_to_int(v: &str) -> (r: u64)
    ensures
        r == spec_version_key(v@),
{
    let s = chars_of(v);
    let n = s.len();
    let mut acc: u64 = 0;
    let mut any: bool = false;
    let mut big: bool = false;
    let mut i: usize = 0;
    proof {
        assert(v@.subrange(0, 0) =~= Seq::<char>::empty());
    }
    while i < n
        invariant
            i <= n,
            n == v@.len(),
            s@ == v@,
            any == (spec_digits(v@.subrange(0, i as int)).len() > 0),
            big == (digits_value(spec_digits(v@.subrange(0, i as int))) > u64::MAX),
            !big ==> acc == digits_value(spec_digits(v@.subrange(0, i as int))),
        decreases n - i,
    {
        let c = s[i];
        proof {
            let pre = v@.subrange(0, i as int);
            let cur = v@.subrange(0, i + 1);
            assert(cur.drop_last() =~= pre);
            assert(cur.last() == c);
            lemma_spec_digits_all_digits(pre);
            if is_ascii_digit(c) {
                lemma_digits_value_extend(spec_digits(pre), c);
                lemma_digits_value_nonneg(spec_digits(pre));
            }
        }
        if '0' <= c && c <= '9' {
            any = true;
            let d = (c as u32 - '0' as u32) as u64;
            if big {
            } else if acc > (u64::MAX - d) / 10 {
                big = true;
            } else {
                acc = acc * 10 + d;
            }
        }
        i += 1;
    }
    proof {
        assert(v@.subrange(0, n as int) =~= v@);
    }
    if big || !any {
        0
    } else {
        acc
    }
}

/// Every character is an ASCII decimal digit.
pub open spec fn all_ascii_digits(s: Seq<char>) -> bool {
    forall|i: int| 0 <= i < s.len() ==> is_ascii_digit(#[trigger] s[i])
}

/// The strict integer reading of a whole string: an optional sign
/// followed by one or more digits and nothing else, with a value that
/// fits a signed 32-bit integer. Anything else fails.
pub open spec fn parse_i32_spec(s: Seq<char>) -> Option<int> {
    if s.len() == 0 {
        None
    } else {
        let signed = s[0] == '-' || s[0] == '+';
        let body = if signed {
            s.drop_first()
        } else {
            s
        };
        if body.len() == 0 || !all_ascii_digits(body) {
            None
        } else {
            let v = if s[0] == '-' {
                -digits_value(body)
            } else {
                digits_value(body)
            };
            if i32::MIN <= v <= i32::MAX {
                Some(v)
            } else {
                None
            }
        }
    }
}

/// Parse a whole string as a signed 32-bit integer: optional sign,
/// then digits only. Returns `None` on an empty string, a stray
/// character, or overflow.
pub fn parse_i32(s: &str) -> (r: Option<i32>)
    ensures
        match r {
            Some(v) => parse_i32_spec(s@) == Some(v as int),
            None => parse_i32_spec(s@) is None,
        },
{
    let cs = chars_of(s);
    let n = cs.len();
    if n == 0 {
        return None;
    }
    let c0 = cs[0];
    let signed = c0 == '-' || c0 == '+';
    let start: usize = if signed {
        1
    } else {
        0
    };
    if start == n {
        return None;
    }
    let ghost body = if signed {
        s@.drop_first()
    } else {
        s@
    };
    proof {
        assert(body =~= s@.subrange(start as int, n as int));
    }
    let mut acc: u64 = 0;
    let mut big: bool = false;
    let mut k: usize = start;
    proof {
        assert(body.subrange(0, 0) =~= Seq::<char>::empty());
    }
    while k < n
        invariant
            start <= k <= n,
            n == s@.len(),
            cs@ == s@,
            start <= 1,
            n >= 1,
            (start == 1) == (s@[0] == '-' || s@[0] == '+'),
            body == (if s@[0] == '-' || s@[0] == '+' {
                s@.drop_first()
            } else {
                s@
            }),
            body == s@.subrange(start as int, n as int),
            forall|i: int| 0 <= i < k - start ==> is_ascii_digit(#[trigger] body[i]),
            big == (digits_value(body.subrange(0, k - start)) > 0x8000_0000),
            !big ==> acc == digits_value(body.subrange(0, k - start)),
            acc <= 0x8000_0000,
        decreases n - k,
    {
        let c = cs[k];
        proof {
            assert(body[k - start] == s@[k as int]);
        }
        if !('0' <= c && c <= '9') {
            proof {
                assert(!is_ascii_digit(body[k - start]));
                assert(!all_ascii_digits(body));
            }
            return None;
        }
        let d = (c as u32 - '0' as u32) as u64;
        proof {
            let pre = body.subrange(0, k - start);
            let cur = body.subrange(0, k + 1 - start);
            assert(cur.drop_last() =~= pre);
            assert(cur.last() == c);
            assert(forall|i: int| 0 <= i < pre.len() ==> is_ascii_digit(#[trigger] pre[i]));
            lemma_digits_value_extend(pre, c);
            lemma_digits_value_nonneg(pre);
        }
        if big {
        } else if acc * 10 + d > 0x8000_0000 {
            big = true;
        } else {
            acc = acc * 10 + d;
        }
        k += 1;
    }
    proof {
        assert(body.subrange(0, n - start) =~= body);
    }
    if big {
        proof {
            assert(digits_value(body) > 0x8000_0000);
            assert(parse_i32_spec(s@) is None);
        }
        return None;
    }
    if c0 == '-' {
        let v = 0i64 - (acc as i64);
        proof {
            assert(parse_i32_spec(s@) == Some(-digits_value(body)));
        }
        Some(v as i32)
    } else {
        if acc > 0x7fff_ffff {
            proof {
                assert(digits_value(body) > i32::MAX);
                assert(parse_i32_spec(s@) is None);
            }
            return None;
        }
        proof {
            assert(parse_i32_spec(s@) == Some(digits_value(body)));
        }
        Some(acc as i32)
    }
}

/// The persisted version read as an integer, zero where it does not
/// parse.
pub open spec fn parse_i32_or_zero(s: Seq<char>) -> int {
    match parse_i32_spec(s) {
        Some(v) => v,
        None => 0,
    }
}

/// Parse a persisted version string, defaulting to zero on failure.
pub fn parse_i32_or_default(s: &str) -> (r: i32)
    ensures
        r as int == parse_i32_or_zero(s@),
{
    match parse_i32(s) {
        Some(v) => v,
        None => 0,
    }
}

/// The decimal digits, in value order.
pub open spec fn dec_digits() -> Seq<char> {
    "0123456789"@
}

/// The decimal rendering of a non-negative number, without sign or
/// padding.
pub open spec fn dec_str_of(n: nat) -> Seq<char>
    decreases n,
{
    if n < 10 {
        seq![dec_digits()[n as int]]
    } else {
        dec_str_of(n / 10) + seq![dec_digits()[n as int % 10]]
    }
}

/// Append the decimal rendering of `n` to `out`.
fn push_decimal(n: u32, out: &mut String)
    ensures
        final(out)@ == old(out)@ + dec_str_of(n as nat),
    decreases n,
{
    if n >= 10 {
        push_decimal(n / 10, out);
    }
    let digits = "0123456789";
    proof {
        reveal_strlit("0123456789");
    }
    let d = (n % 10) as usize;
    let ds = digits.substring_char(d, d + 1);
    out.append(ds);
    proof {
        assert(ds@ =~= seq![dec_digits()[n as int % 10]]);
        if n < 10 {
            assert(n as int % 10 == n as int);
            assert(out@ =~= old(out)@ + dec_str_of(n as nat));
        } else {
            assert(out@ =~= old(out)@ + dec_str_of(n as nat));
        }
    }
}

/// Render a version number as its decimal string, the form the
/// persistence collaborator stores.
pub fn u32_to_string(n: u32) -> (r: String)
    ensures
        r@ == dec_str_of(n as nat),
{
    let mut s = String::new();
    push_decimal(n, &mut s);
    proof {
        assert(s@ =~= dec_str_of(n as nat));
    }
    s
}

} // verus!

verus! {

/// ASCII whitespace, the separators accepted between the keyword and
/// the number.
pub open spec fn is_space(c: char) -> bool {
    c == ' ' || c == '\t' || c == '\n' || c == '\r' || c == '\u{b}' || c == '\u{c}'
}

/// The first position at or after `j` that does not hold whitespace.
pub open spec fn ws_end(s: Seq<char>, j: int) -> int
    decreases s.len() - j,
{
    if j < 0 || j >= s.len() || !is_space(s[j]) {
        j
    } else {
        ws_end(s, j + 1)
    }
}

/// The first position at or after `j` that does not hold a digit.
pub open spec fn digits_end(s: Seq<char>, j: int) -> int
    decreases s.len() - j,
{
    if j < 0 || j >= s.len() || !is_ascii_digit(s[j]) {
        j
    } else {
        digits_end(s, j + 1)
    }
}

/// The version keyword, lower case.
pub open spec fn version_kw() -> Seq<char> {
    seq!['v', 'e', 'r', 's', 'i', 'o', 'n']
}

/// Case-insensitive match of a document character against a lower-case
/// ASCII letter.
pub open spec fn ci_eq(a: char, b: char) -> bool {
    a == b || (a as int) + 32 == (b as int)
}

/// Whether the version keyword stands at position `i`, matched
/// case-insensitively.
pub open spec fn kw_at(s: Seq<char>, i: int) -> bool {
    &&& 0 <= i
    &&& i + 7 <= s.len()
    &&& forall|k: int| 0 <= k < 7 ==> ci_eq(s[i + k], #[trigger] version_kw()[k])
}

/// Whether a whole version token stands at position `i`: the keyword,
/// at least one whitespace character, then a digit.
pub open spec fn version_match_at(s: Seq<char>, i: int) -> bool {
    let j = ws_end(s, i + 7);
    &&& kw_at(s, i)
    &&& j > i + 7
    &&& j < s.len()
    &&& is_ascii_digit(s[j])
}

/// The value of the digit run of the version token at position `i`.
pub open spec fn version_value_at(s: Seq<char>, i: int) -> int {
    let j = ws_end(s, i + 7);
    digits_value(s.subrange(j, digits_end(s, j)))
}

/// Whether the document holds a version token at all.
pub open spec fn has_version_match(s: Seq<char>) -> bool {
    exists|i: int| version_match_at(s, i)
}

/// The position of the leftmost version token.
pub open spec fn first_version_match(s: Seq<char>) -> int {
    choose|i: int| version_match_at(s, i) && forall|j: int|
        0 <= j < i ==> !(#[trigger] version_match_at(s, j))
}

/// What the version file yields: the number after the leftmost
/// case-insensitive `version` keyword, or nothing where no such token
/// exists. A digit run too large for a signed 32-bit integer reads as
/// zero, a failed parse.
pub open spec fn extract_version_spec(s: Seq<char>) -> Option<int> {
    if has_version_match(s) {
        let v = version_value_at(s, first_version_match(s));
        Some(
            if v > i32::MAX {
                0int
            } else {
                v
            },
        )
    } else {
        None
    }
}

/// Case-insensitive comparison of a document character against a
/// lower-case ASCII letter.
fn ci_eq_exec(a: char, b: char) -> (r: bool)
    ensures
        r == ci_eq(a, b),
{
    a == b || (a as u32) + 32 == (b as u32)
}

/// Test for the version keyword at position `i`.
fn kw_at_exec(s: &Vec<char>, i: usize) -> (r: bool)
    requires
        i + 7 <= s@.len(),
    ensures
        r == kw_at(s@, i as int),
{
    let mut kw: Vec<char> = Vec::new();
    kw.push('v');
    kw.push('e');
    kw.push('r');
    kw.push('s');
    kw.push('i');
    kw.push('o');
    kw.push('n');
    proof {
        assert(kw@ =~= version_kw());
    }
    let len = s.len();
    let mut k: usize = 0;
    while k < 7
        invariant
            k <= 7,
            kw@ == version_kw(),
            len == s@.len(),
            i + 7 <= len,
            forall|m: int| 0 <= m < k ==> ci_eq(s@[i + m], #[trigger] version_kw()[m]),
        decreases 7 - k,
    {
        if !ci_eq_exec(s[i + k], kw[k]) {
            return false;
        }
        k += 1;
    }
    true
}

/// Scan a version file for its leftmost `version <digits>` token,
/// matched case-insensitively with any whitespace between keyword and
/// digits. Returns the number, zero where the digit run overflows a
/// signed 32-bit integer, or `None` where the document holds no such
/// token.
pub fn extract_version(text: &str) -> (r: Option<i32>)
    ensures
        match r {
            Some(v) => extract_version_spec(text@) == Some(v as int),
            None => extract_version_spec(text@) is None,
        },
{
    let s = chars_of(text);
    let n = s.len();
    if n < 7 {
        proof {
            assert forall|i: int| !version_match_at(s@, i) by {}
        }
        return None;
    }
    let mut i: usize = 0;
    while i <= n - 7
        invariant
            i <= n - 7 + 1,
            7 <= n,
            n == text@.len(),
            s@ == text@,
            forall|j: int| 0 <= j < i ==> !(#[trigger] version_match_at(s@, j)),
        decreases n - i,
    {
        if kw_at_exec(&s, i) {
            let mut j: usize = i + 7;
            while j < n && (s[j] == ' ' || s[j] == '\t' || s[j] == '\n' || s[j] == '\r' || s[j]
                == '\u{b}' || s[j] == '\u{c}')
                invariant
                    i + 7 <= j <= n,
                    n == s@.len(),
                    ws_end(s@, i + 7) == ws_end(s@, j as int),
                decreases n - j,
            {
                proof {
                    assert(ws_end(s@, j as int) == ws_end(s@, j + 1));
                }
                j += 1;
            }
            proof {
                assert(ws_end(s@, j as int) == j as int);
            }
            if j > i + 7 && j < n && '0' <= s[j] && s[j] <= '9' {
                proof {
                    assert(version_match_at(s@, i as int));
                    let w = i as int;
                    assert(version_match_at(s@, w) && forall|m: int|
                        0 <= m < w ==> !(#[trigger] version_match_at(s@, m)));
                }
                let mut e: usize = j;
                let mut acc: u64 = 0;
                let mut big: bool = false;
                proof {
                    assert(s@.subrange(j as int, j as int) =~= Seq::<char>::empty());
                }
                while e < n && '0' <= s[e] && s[e] <= '9'
                    invariant
                        j <= e <= n,
                        n == s@.len(),
                        digits_end(s@, j as int) == digits_end(s@, e as int),
                        forall|m: int|
                            j <= m < e ==> is_ascii_digit(#[trigger] s@[m]),
                        big == (digits_value(s@.subrange(j as int, e as int)) > i32::MAX),
                        !big ==> acc == digits_value(s@.subrange(j as int, e as int)),
                        acc <= i32::MAX,
                    decreases n - e,
                {
                    proof {
                        assert(digits_end(s@, e as int) == digits_end(s@, e + 1));
                        let pre = s@.subrange(j as int, e as int);
                        let cur = s@.subrange(j as int, e + 1);
                        assert(cur.drop_last() =~= pre);
                        assert(cur.last() == s@[e as int]);
                        assert(forall|m: int| 0 <= m < pre.len() ==> is_ascii_digit(
                            #[trigger] pre[m],
                        ));
                        lemma_digits_value_extend(pre, s@[e as int]);
                        lemma_digits_value_nonneg(pre);
                    }
                    let d = (s[e] as u32 - '0' as u32) as u64;
                    if big {
                    } else if acc * 10 + d > i32::MAX as u64 {
                        big = true;
                    } else {
                        acc = acc * 10 + d;
                    }
                    e += 1;
                }
                proof {
                    assert(digits_end(s@, e as int) == e as int);
                    assert(version_value_at(s@, i as int) == digits_value(
                        s@.subrange(j as int, e as int),
                    ));
                }
                let v: i32 = if big {
                    0
                } else {
                    acc as i32
                };
                return Some(v);
            }
            proof {
                assert(!version_match_at(s@, i as int));
            }
        }
        i += 1;
    }
    proof {
        assert forall|j: int| !version_match_at(s@, j) by {
            if 0 <= j < i {
            } else {
                assert(j < 0 || j + 7 > s@.len());
            }
        }
    }
    None
}

} // verus!
