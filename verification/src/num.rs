//! Decimal rendering and parsing of unsigned integers, and the score codec.
//!
//! A session score is a percentage in [0, 100]; the library carries it as an
//! integer count of hundredths of a percent (0 ..= 10000), so `66.25` percent
//! is stored as `6625`. Rendering always writes two fraction digits; parsing
//! accepts an integer part with an optional `.` and one or two fraction
//! digits, rejecting anything else or anything above `100.00`.

use vstd::prelude::*;
use vstd::string::*;
use crate::text::{spec_split, lemma_split_no_delim, lemma_split_delim_prefix, split_str};

verus! {

pub open spec fn is_digit(c: char) -> bool {
    48 <= c as u32 <= 57
}

pub open spec fn digit_val(c: char) -> int {
    c as u32 - 48
}

pub open spec fn digit_char(d: int) -> char {
    if d == 0 {
        '0'
    } else if d == 1 {
        '1'
    } else if d == 2 {
        '2'
    } else if d == 3 {
        '3'
    } else if d == 4 {
        '4'
    } else if d == 5 {
        '5'
    } else if d == 6 {
        '6'
    } else if d == 7 {
        '7'
    } else if d == 8 {
        '8'
    } else {
        '9'
    }
}

pub open spec fn all_digits(s: Seq<char>) -> bool {
    forall|i: int| 0 <= i < s.len() ==> is_digit(#[trigger] s[i])
}

/// The value of a digit string read in base ten.
pub open spec fn digits_val(s: Seq<char>) -> int
    decreases s.len(),
{
    if s.len() == 0 {
        0
    } else {
        digits_val(s.drop_last()) * 10 + digit_val(s.last())
    }
}

pub proof fn lemma_digits_val_nonneg(s: Seq<char>)
    requires
        all_digits(s),
    ensures
        digits_val(s) >= 0,
    decreases s.len(),
{
    if s.len() > 0 {
        assert(all_digits(s.drop_last()));
        lemma_digits_val_nonneg(s.drop_last());
    }
}

pub proof fn lemma_digits_val_singleton(c: char)
    ensures
        digits_val(seq![c]) == digit_val(c),
{
    assert(digits_val(Seq::<char>::empty()) == 0);
    assert(seq![c].drop_last() =~= Seq::<char>::empty());
    assert(seq![c].last() == c);
    assert(digits_val(seq![c]) == digits_val(seq![c].drop_last()) * 10 + digit_val(c));
}

pub proof fn lemma_digits_val_pair(a: char, b: char)
    ensures
        digits_val(seq![a, b]) == digit_val(a) * 10 + digit_val(b),
{
    assert(seq![a, b].drop_last() =~= seq![a]);
    lemma_digits_val_singleton(a);
}

/// Extending a digit string can only grow its value.
pub proof fn lemma_digits_val_grows(s: Seq<char>, i: int, j: int)
    requires
        all_digits(s.take(j)),
        0 <= i <= j <= s.len(),
    ensures
        digits_val(s.take(i)) <= digits_val(s.take(j)),
    decreases j - i,
{
    if i < j {
        let t = s.take(j);
        assert(t.drop_last() =~= s.take(j - 1));
        assert(forall|k: int| 0 <= k < j - 1 ==> s.take(j - 1)[k] == t[k]);
        assert(all_digits(s.take(j - 1)));
        lemma_digits_val_grows(s, i, j - 1);
        lemma_digits_val_nonneg(s.take(j - 1));
        assert(digits_val(s.take(j)) == digits_val(s.take(j - 1)) * 10 + digit_val(t.last()));
        assert(digits_val(s.take(j - 1)) * 10 >= digits_val(s.take(j - 1)));
    }
}

/// Whether a digit string denotes `v`: nonempty, all digits, value `v`.
pub open spec fn spec_parse_u64(s: Seq<char>) -> Option<u64> {
    if s.len() > 0 && all_digits(s) && digits_val(s) <= u64::MAX {
        Some(digits_val(s) as u64)
    } else {
        None
    }
}

fn digit_of(c: char) -> (r: Option<u64>)
    ensures
        r matches Some(v) ==> is_digit(c) && v as int == digit_val(c),
        r is None ==> !is_digit(c),
        is_digit(c) ==> r is Some,
{
    let u = c as u32;
    if 48 <= u && u <= 57 {
        Some((u - 48) as u64)
    } else {
        None
    }
}

/// Reads an unsigned integer from a decimal digit string; `None` when the
/// string is empty, holds a non-digit, or denotes more than `u64::MAX`.
pub fn parse_u64(s: &str) -> (r: Option<u64>)
    ensures
        r == spec_parse_u64(s@),
{
    let len = s.unicode_len();
    if len == 0 {
        return None;
    }
    let mut acc: u64 = 0;
    let mut i: usize = 0;
    proof {
        assert(s@.take(0) =~= Seq::<char>::empty());
    }
    while i < len
        invariant
            i <= len,
            len == s@.len(),
            all_digits(s@.take(i as int)),
            acc as int == digits_val(s@.take(i as int)),
        decreases len - i,
    {
        let c = s.get_char(i);
        let d = match digit_of(c) {
            Some(d) => d,
            None => {
                proof {
                    assert(s@[i as int] == c && !is_digit(c));
                }
                return None;
            },
        };
        let next = match acc.checked_mul(10) {
            Some(m) => m.checked_add(d),
            None => None,
        };
        proof {
            assert(s@.take(i as int + 1).drop_last() =~= s@.take(i as int));
            assert(s@.take(i as int + 1).last() == c);
            assert(all_digits(s@.take(i as int + 1)));
            assert(digits_val(s@.take(i as int + 1)) == acc as int * 10 + d as int);
        }
        acc = match next {
            Some(v) => v,
            None => {
                proof {
                    assert(s@.take(len as int) =~= s@);
                    if all_digits(s@) {
                        lemma_digits_val_grows(s@, i as int + 1, len as int);
                        assert(digits_val(s@) > u64::MAX);
                    }
                }
                return None;
            },
        };
        i = i + 1;
    }
    proof {
        assert(s@.take(len as int) =~= s@);
    }
    Some(acc)
}

/// The canonical decimal digit string of `v`: no leading zero except for
/// zero itself.
pub open spec fn spec_render_u64(v: int) -> Seq<char>
    decreases v,
{
    if v < 10 {
        seq![digit_char(v)]
    } else {
        spec_render_u64(v / 10).push(digit_char(v % 10))
    }
}

pub proof fn lemma_render_u64_digits(v: int)
    requires
        0 <= v,
    ensures
        spec_render_u64(v).len() >= 1,
        all_digits(spec_render_u64(v)),
        digits_val(spec_render_u64(v)) == v,
    decreases v,
{
    if v < 10 {
        lemma_digits_val_singleton(digit_char(v));
    } else {
        assert(v / 10 < v && v / 10 >= 0) by (nonlinear_arith)
            requires
                v >= 10,
        ;
        lemma_render_u64_digits(v / 10);
        let r = spec_render_u64(v);
        assert(r.drop_last() =~= spec_render_u64(v / 10));
        assert(0 <= v % 10 < 10);
        assert(digit_val(digit_char(v % 10)) == v % 10);
        assert(digits_val(r) == (v / 10) * 10 + v % 10);
        assert((v / 10) * 10 + v % 10 == v) by (nonlinear_arith);
    }
}

/// Digit characters are never delimiters or whitespace.
pub proof fn lemma_digits_not_special(s: Seq<char>)
    requires
        all_digits(s),
    ensures
        !s.contains(','),
        !s.contains('|'),
        !s.contains('.'),
        !s.contains('\n'),
        forall|i: int| 0 <= i < s.len() ==> !crate::text::is_ws(#[trigger] s[i]),
{
    assert(forall|i: int| 0 <= i < s.len() ==> (#[trigger] s[i]) as u32 != ',' as u32);
    assert(forall|i: int| 0 <= i < s.len() ==> (#[trigger] s[i]) as u32 != '|' as u32);
    assert(forall|i: int| 0 <= i < s.len() ==> (#[trigger] s[i]) as u32 != '.' as u32);
    assert(forall|i: int| 0 <= i < s.len() ==> (#[trigger] s[i]) as u32 != '\n' as u32);
}

/// Writes `v` in decimal.
pub fn render_u64(v: u64) -> (r: String)
    ensures
        r@ == spec_render_u64(v as int),
    decreases v,
{
    let digits = "0123456789";
    proof {
        reveal_strlit("0123456789");
        assert(digits.is_ascii());
    }
    if v < 10 {
        let r = String::from_str(digits.substring_ascii(v as usize, v as usize + 1));
        proof {
            assert(r@ =~= seq![digit_char(v as int)]);
        }
        r
    } else {
        proof {
            assert(v / 10 < v) by (nonlinear_arith)
                requires
                    v >= 10,
            ;
        }
        let mut r = render_u64(v / 10);
        let m = v % 10;
        r.append(digits.substring_ascii(m as usize, m as usize + 1));
        proof {
            assert((v % 10) as int == (v as int) % 10);
            assert((v / 10) as int == (v as int) / 10);
            assert(r@ =~= spec_render_u64((v as int) / 10).push(digit_char((v as int) % 10)));
        }
        r
    }
}

/// Whether a decimal string denotes a score of `c` hundredths of a percent:
/// an all-digit integer part, optionally `.` and one or two fraction digits,
/// denoting at most one hundred percent.
pub open spec fn spec_parse_score(s: Seq<char>) -> Option<u64> {
    let parts = spec_split(s, '.');
    if parts.len() == 1 {
        match spec_parse_u64(parts[0]) {
            Some(v) => if v <= 100 {
                Some((v * 100) as u64)
            } else {
                None
            },
            None => None,
        }
    } else if parts.len() == 2 {
        let frac = parts[1];
        if spec_parse_u64(parts[0]) is Some && frac.len() >= 1 && frac.len() <= 2 && all_digits(
            frac,
        ) {
            let scale: int = if frac.len() == 1 {
                10
            } else {
                1
            };
            let v = spec_parse_u64(parts[0])->Some_0 as int * 100 + digits_val(frac) * scale;
            if v <= 10000 {
                Some(v as u64)
            } else {
                None
            }
        } else {
            None
        }
    } else {
        None
    }
}

/// Reads a score given as a decimal percentage into hundredths of a percent.
pub fn parse_score(s: &str) -> (r: Option<u64>)
    ensures
        r == spec_parse_score(s@),
        r matches Some(c) ==> c <= 10000,
{
    let parts = split_str(s, '.');
    proof {
        crate::text::lemma_split_len(s@, '.');
    }
    if parts.len() == 1 {
        match parse_u64(parts[0].as_str()) {
            Some(v) => {
                if v <= 100 {
                    Some(v * 100)
                } else {
                    None
                }
            },
            None => None,
        }
    } else if parts.len() == 2 {
        let int_part = match parse_u64(parts[0].as_str()) {
            Some(v) => v,
            None => {
                return None;
            },
        };
        let frac = &parts[1];
        let flen = frac.as_str().unicode_len();
        if flen < 1 || flen > 2 {
            return None;
        }
        proof {
            if all_digits(frac@) {
                if frac@.len() == 1 {
                    assert(frac@ =~= seq![frac@[0]]);
                    lemma_digits_val_singleton(frac@[0]);
                } else {
                    assert(frac@ =~= seq![frac@[0], frac@[1]]);
                    lemma_digits_val_pair(frac@[0], frac@[1]);
                }
                assert(0 <= digits_val(frac@) <= 99);
            }
        }
        let fval = match parse_u64(frac.as_str()) {
            Some(v) => v,
            None => {
                return None;
            },
        };
        let scale: u64 = if flen == 1 {
            10
        } else {
            1
        };
        if int_part > 100 {
            return None;
        }
        let v = int_part * 100 + fval * scale;
        if v <= 10000 {
            Some(v)
        } else {
            None
        }
    } else {
        None
    }
}

/// The canonical rendering of a score: the whole percent part, a point, and
/// exactly two fraction digits.
pub open spec fn spec_render_score(c: int) -> Seq<char> {
    spec_render_u64(c / 100) + seq!['.'] + seq![
        digit_char((c % 100) / 10),
        digit_char(c % 10),
    ]
}

/// Writes a score in hundredths of a percent as a decimal percentage.
pub fn render_score(c: u64) -> (r: String)
    requires
        c <= 10000,
    ensures
        r@ == spec_render_score(c as int),
{
    let digits = "0123456789";
    proof {
        reveal_strlit("0123456789");
        assert(digits.is_ascii());
    }
    let mut r = render_u64(c / 100);
    r.append(".");
    let d1 = ((c % 100) / 10) as usize;
    let d2 = (c % 10) as usize;
    r.append(digits.substring_ascii(d1, d1 + 1));
    r.append(digits.substring_ascii(d2, d2 + 1));
    proof {
        reveal_strlit(".");
        assert((c % 100) as int / 10 == ((c as int) % 100) / 10);
        assert(r@ =~= spec_render_score(c as int));
    }
    r
}

/// Parsing inverts rendering for scores in range.
pub proof fn lemma_score_round_trip(c: int)
    requires
        0 <= c <= 10000,
    ensures
        spec_parse_score(spec_render_score(c)) == Some(c as u64),
        all_score_chars(spec_render_score(c)),
{
    let ip = spec_render_u64(c / 100);
    let frac = seq![digit_char((c % 100) / 10), digit_char(c % 10)];
    lemma_render_u64_digits(c / 100);
    assert(0 <= (c % 100) / 10 < 10);
    assert(0 <= c % 10 < 10);
    assert(all_digits(frac));
    lemma_digits_not_special(ip);
    lemma_split_delim_prefix(ip, frac, '.');
    lemma_split_no_delim(frac, '.');
    let parts = spec_split(spec_render_score(c), '.');
    assert(spec_render_score(c) =~= ip + seq!['.'] + frac);
    assert(parts =~~= seq![ip] + seq![frac]);
    assert(parts.len() == 2);
    assert(parts[0] == ip && parts[1] == frac);
    lemma_digits_val_pair(digit_char((c % 100) / 10), digit_char(c % 10));
    assert(digits_val(frac) == ((c % 100) / 10) * 10 + c % 10);
    assert(((c % 100) / 10) * 10 + c % 10 == c % 100) by (nonlinear_arith)
        requires
            0 <= c,
    ;
    assert((c / 100) * 100 + c % 100 == c) by (nonlinear_arith);
    assert(c / 100 <= 100);
    lemma_all_score_chars(c);
}

/// Every character of a rendered score is a digit or the decimal point, so
/// a rendered score never collides with a field or line delimiter and is
/// already trimmed.
pub open spec fn all_score_chars(s: Seq<char>) -> bool {
    forall|i: int| 0 <= i < s.len() ==> (is_digit(#[trigger] s[i]) || s[i] == '.')
}

proof fn lemma_all_score_chars(c: int)
    requires
        0 <= c <= 10000,
    ensures
        all_score_chars(spec_render_score(c)),
{
    let ip = spec_render_u64(c / 100);
    lemma_render_u64_digits(c / 100);
    assert(forall|i: int|
        0 <= i < spec_render_score(c).len() ==> (is_digit(#[trigger] spec_render_score(c)[i])
            || spec_render_score(c)[i] == '.')) by {
        assert(forall|i: int| 0 <= i < ip.len() ==> is_digit(#[trigger] ip[i]));
    }
}

} // verus!
