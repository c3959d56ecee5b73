//! Time duration strings: `"2s"`, `"10m"`, `"200ms"`, `"1h"`, `"1d"`. A
//! number without a unit means seconds, and so does a historical fallback
//! form with a leading plus sign. Results are clamped below at a minimum of
//! 10 milliseconds; a malformed string, an unknown unit, or a value too
//! large to express in milliseconds is a configuration error.

use vstd::prelude::*;

use crate::errors::EngineError;
use crate::ports::{digits_value, is_digit};

verus! {

/// Whether `c` is one of the whitespace characters stripped from either end
/// (the ASCII ones: tab, line feed, vertical tab, form feed, carriage
/// return, space).
pub open spec fn is_ws(c: char) -> bool {
    (c as u32) == 9 || (c as u32) == 10 || (c as u32) == 11 || (c as u32) == 12 || (c as u32)
        == 13 || (c as u32) == 32
}

/// Whether `c` is an ASCII letter.
pub open spec fn is_alpha(c: char) -> bool {
    (65 <= (c as u32) && (c as u32) <= 90) || (97 <= (c as u32) && (c as u32) <= 122)
}

/// The whitespace predicate, named so every use denotes one function.
pub open spec fn ws_pred() -> spec_fn(char) -> bool {
    |c: char| is_ws(c)
}

/// The digit predicate, named so every use denotes one function.
pub open spec fn digit_pred() -> spec_fn(char) -> bool {
    |c: char| is_digit(c)
}

/// The length of the longest prefix of `s` whose characters satisfy `p`.
pub open spec fn prefix_len(s: Seq<char>, p: spec_fn(char) -> bool) -> int
    decreases s.len(),
{
    if s.len() > 0 && p(s[0]) {
        1 + prefix_len(s.drop_first(), p)
    } else {
        0
    }
}

/// The length of the longest suffix of `s` whose characters satisfy `p`.
pub open spec fn suffix_len(s: Seq<char>, p: spec_fn(char) -> bool) -> int
    decreases s.len(),
{
    if s.len() > 0 && p(s.last()) {
        1 + suffix_len(s.drop_last(), p)
    } else {
        0
    }
}

/// `prefix_len` marks exactly the first run of matching characters.
pub proof fn lemma_prefix_len(s: Seq<char>, p: spec_fn(char) -> bool)
    ensures
        0 <= prefix_len(s, p) <= s.len(),
        forall|j: int| 0 <= j < prefix_len(s, p) ==> p(#[trigger] s[j]),
        prefix_len(s, p) < s.len() ==> !p(s[prefix_len(s, p)]),
    decreases s.len(),
{
    if s.len() > 0 && p(s[0]) {
        lemma_prefix_len(s.drop_first(), p);
        assert forall|j: int| 0 <= j < prefix_len(s, p) implies p(#[trigger] s[j]) by {
            if j > 0 {
                assert(s.drop_first()[j - 1] == s[j]);
                assert(p(s.drop_first()[j - 1]));
            }
        }
        if prefix_len(s, p) < s.len() {
            assert(s.drop_first()[prefix_len(s, p) - 1] == s[prefix_len(s, p)]);
        }
    }
}

/// `suffix_len` marks exactly the last run of matching characters.
pub proof fn lemma_suffix_len(s: Seq<char>, p: spec_fn(char) -> bool)
    ensures
        0 <= suffix_len(s, p) <= s.len(),
        forall|j: int| s.len() - suffix_len(s, p) <= j < s.len() ==> p(#[trigger] s[j]),
        suffix_len(s, p) < s.len() ==> !p(s[s.len() - suffix_len(s, p) - 1]),
    decreases s.len(),
{
    if s.len() > 0 && p(s.last()) {
        lemma_suffix_len(s.drop_last(), p);
        assert forall|j: int| s.len() - suffix_len(s, p) <= j < s.len() implies p(
            #[trigger] s[j],
        ) by {
            if j < s.len() - 1 {
                assert(s.drop_last()[j] == s[j]);
                assert(p(s.drop_last()[j]));
            }
        }
        if suffix_len(s, p) < s.len() {
            assert(s.drop_last()[s.len() - suffix_len(s, p) - 1] == s[s.len() - suffix_len(
                s,
                p,
            ) - 1]);
        }
    }
}

/// The string with surrounding whitespace stripped.
pub open spec fn trimmed(s: Seq<char>) -> Seq<char> {
    let lo = prefix_len(s, ws_pred());
    let rest = s.skip(lo);
    rest.take(rest.len() - suffix_len(rest, ws_pred()))
}

/// The code points of `u` after ASCII lowercasing.
pub open spec fn lower_seq(u: Seq<char>) -> Seq<u32> {
    Seq::new(u.len(), |i: int| lower_code(u[i]))
}

/// The milliseconds-per-unit factor of a unit suffix, compared after ASCII
/// lowercasing: `ms`, `s`, `m`, `h`, `d`; anything else is unknown.
pub open spec fn unit_factor(u: Seq<char>) -> Option<int> {
    let l = lower_seq(u);
    if l == seq![109u32, 115u32] {
        Some(1)
    } else if l == seq![115u32] {
        Some(1000)
    } else if l == seq![109u32] {
        Some(60000)
    } else if l == seq![104u32] {
        Some(3600000)
    } else if l == seq![100u32] {
        Some(86400000)
    } else {
        None
    }
}

/// The code point of `c` after ASCII lowercasing.
pub open spec fn lower_code(c: char) -> u32 {
    if 65 <= (c as u32) && (c as u32) <= 90 {
        ((c as u32) + 32) as u32
    } else {
        c as u32
    }
}

/// The number of milliseconds a trimmed duration string denotes, if any:
/// digits followed by an optional letter unit (seconds when absent), or a
/// leading plus sign followed by digits (seconds). Values that do not fit
/// in 64 bits of milliseconds denote nothing; denoted values are clamped
/// below at 10.
pub open spec fn duration_ms_of(t: Seq<char>) -> Option<int> {
    let k = prefix_len(t, digit_pred());
    if t.len() > 0 && k > 0 && (forall|j: int| k <= j < t.len() ==> is_alpha(#[trigger] t[j])) {
        let v = digits_value(t.take(k));
        let factor = if k == t.len() {
            Some(1000int)
        } else {
            unit_factor(t.skip(k))
        };
        match factor {
            Some(f) => if v > u64::MAX || v * f > u64::MAX {
                None
            } else if v * f < 10 {
                Some(10)
            } else {
                Some(v * f)
            },
            None => None,
        }
    } else if t.len() >= 2 && (t[0] as u32) == 43 && (forall|j: int|
        1 <= j < t.len() ==> is_digit(#[trigger] t[j])) {
        let v = digits_value(t.skip(1));
        if v > u64::MAX || v * 1000 > u64::MAX {
            None
        } else if v * 1000 < 10 {
            Some(10)
        } else {
            Some(v * 1000)
        }
    } else {
        None
    }
}

/// Decides [`is_ws`] for one character.
fn ws_char(c: char) -> (r: bool)
    ensures
        r == is_ws(c),
{
    let u = c as u32;
    u == 9 || u == 10 || u == 11 || u == 12 || u == 13 || u == 32
}

/// Decides [`is_digit`] for one character.
fn digit_char(c: char) -> (r: bool)
    ensures
        r == is_digit(c),
{
    let u = c as u32;
    48 <= u && u <= 57
}

/// Accumulates the numeric value of `digits`, or reports that it exceeds
/// the 64-bit range.
fn digits_to_u64(digits: &Vec<char>) -> (r: Option<u64>)
    requires
        forall|j: int| 0 <= j < digits@.len() ==> is_digit(#[trigger] digits@[j]),
    ensures
        match r {
            Some(v) => v == digits_value(digits@),
            None => digits_value(digits@) > u64::MAX,
        },
{
    let mut v: u64 = 0;
    let mut over = false;
    let mut i: usize = 0;
    while i < digits.len()
        invariant
            i <= digits@.len(),
            forall|j: int| 0 <= j < digits@.len() ==> is_digit(#[trigger] digits@[j]),
            !over ==> v == digits_value(digits@.take(i as int)),
            over ==> digits_value(digits@.take(i as int)) > u64::MAX,
        decreases digits@.len() - i,
    {
        let c = digits[i];
        let d = ((c as u32) - 48) as u64;
        proof {
            assert(digits@.take(i + 1).drop_last() =~= digits@.take(i as int));
            assert(digits@.take(i + 1).last() == digits@[i as int]);
            if over {
                let dv = digits_value(digits@.take(i as int));
                assert(dv * 10 + ((digits@[i as int] as u32) - 48) > u64::MAX)
                    by (nonlinear_arith)
                    requires
                        dv > u64::MAX,
                        (digits@[i as int] as u32) >= 48,
                ;
            }
        }
        if !over {
            if v > u64::MAX / 10 {
                proof {
                    assert(v * 10 > u64::MAX) by (nonlinear_arith)
                        requires
                            v > u64::MAX / 10,
                            u64::MAX / 10 == u64::MAX as int / 10,
                            v >= 0,
                    ;
                }
                over = true;
            } else {
                proof {
                    assert(v * 10 <= u64::MAX - 5) by (nonlinear_arith)
                        requires
                            v <= u64::MAX / 10,
                            u64::MAX / 10 == u64::MAX as int / 10,
                            v >= 0,
                    ;
                }
                let w = v * 10;
                if d > u64::MAX - w {
                    over = true;
                } else {
                    v = w + d;
                }
            }
        }
        i = i + 1;
    }
    proof {
        assert(digits@.take(digits@.len() as int) =~= digits@);
    }
    if over {
        None
    } else {
        Some(v)
    }
}

/// Parses a duration string to milliseconds: digits with an optional unit
/// (`ms`, `s`, `m`, `h`, `d`; seconds when absent), surrounding whitespace
/// ignored, result clamped below at 10 ms. Anything else — including a
/// value too large for 64 bits of milliseconds — is a configuration error.
#[verifier::rlimit(60)]
pub fn parse_duration_to_ms(duration_str: &str) -> (r: Result<u64, EngineError>)
    ensures
        match r {
            Ok(ms) => duration_ms_of(trimmed(duration_str@)) == Some(ms as int),
            Err(e) => e.is_config() && duration_ms_of(trimmed(duration_str@)) is None,
        },
{
    let cs = crate::ports::chars_of(duration_str);

    // Strip surrounding whitespace.
    let mut lo: usize = 0;
    while lo < cs.len() && ws_char(cs[lo])
        invariant
            lo <= cs@.len(),
            forall|j: int| 0 <= j < lo ==> is_ws(#[trigger] cs@[j]),
        decreases cs@.len() - lo,
    {
        lo = lo + 1;
    }
    let mut hi: usize = cs.len();
    while hi > lo && ws_char(cs[hi - 1])
        invariant
            lo <= hi <= cs@.len(),
            forall|j: int| 0 <= j < lo ==> is_ws(#[trigger] cs@[j]),
            forall|j: int| hi <= j < cs@.len() ==> is_ws(#[trigger] cs@[j]),
        decreases hi,
    {
        hi = hi - 1;
    }
    let ghost t = trimmed(duration_str@);
    proof {
        lemma_prefix_len(cs@, ws_pred());
        let plo = prefix_len(cs@, ws_pred());
        assert(plo == lo) by {
            if plo < lo {
                assert(is_ws(cs@[plo]));
            }
            if plo > lo {
                if lo < cs@.len() {
                    assert(is_ws(cs@[lo as int]));
                }
            }
        }
        let rest = cs@.skip(lo as int);
        lemma_suffix_len(rest, ws_pred());
        let slen = suffix_len(rest, ws_pred());
        assert(slen == cs@.len() - hi) by {
            assert(forall|j: int| 0 <= j < rest.len() ==> rest[j] == cs@[j + lo]);
            if slen < cs@.len() - hi {
                assert(is_ws(rest[rest.len() - slen - 1]) || rest.len() - slen - 1 >= hi - lo);
                assert(!is_ws(rest[rest.len() - slen - 1]));
                assert(is_ws(cs@[rest.len() - slen - 1 + lo]));
            }
            if slen > cs@.len() - hi {
                if hi > lo {
                    assert(is_ws(rest[hi - lo - 1]));
                    assert(is_ws(cs@[hi - 1]));
                }
            }
        }
        assert(t =~= cs@.subrange(lo as int, hi as int));
    }

    // Split the digit prefix from the unit suffix.
    let mut k: usize = lo;
    while k < hi && digit_char(cs[k])
        invariant
            lo <= k <= hi <= cs@.len(),
            forall|j: int| lo <= j < k ==> is_digit(#[trigger] cs@[j]),
        decreases hi - k,
    {
        k = k + 1;
    }
    proof {
        lemma_prefix_len(t, digit_pred());
        let pk = prefix_len(t, digit_pred());
        assert(forall|j: int| 0 <= j < t.len() ==> t[j] == cs@[j + lo]);
        assert(pk == k - lo) by {
            if pk < k - lo {
                assert(!is_digit(t[pk]));
                assert(is_digit(cs@[pk + lo]));
            }
            if pk > k - lo {
                if k < hi {
                    assert(is_digit(t[k - lo]));
                    assert(!is_digit(cs@[k as int]));
                }
            }
        }
    }

    if hi == lo {
        // empty after trimming
        return Err(EngineError::InvalidConfig(String::from_str("empty duration")));
    }

    proof {
        assert(t.len() == hi - lo);
        assert(forall|q: int| 0 <= q < t.len() ==> #[trigger] t[q] == cs@[q + lo]);
    }
    if k > lo {
        proof {
            lemma_prefix_len(t, digit_pred());
            assert(is_digit(t[0]));
        }
        // digits, then an optional letter unit
        let mut digits: Vec<char> = Vec::new();
        let mut i: usize = lo;
        while i < k
            invariant
                lo <= i <= k <= cs@.len(),
                digits@ =~= cs@.subrange(lo as int, i as int),
            decreases k - i,
        {
            digits.push(cs[i]);
            proof {
                assert(digits@ =~= cs@.subrange(lo as int, i + 1));
            }
            i = i + 1;
        }
        proof {
            assert(digits@ =~= t.take((k - lo) as int));
        }
        // validate the unit suffix: letters only
        let mut j: usize = k;
        while j < hi
            invariant
                lo < k <= j <= hi <= cs@.len(),
                t == trimmed(duration_str@),
                t.len() == hi - lo,
                forall|q: int| 0 <= q < t.len() ==> #[trigger] t[q] == cs@[q + lo],
                prefix_len(t, digit_pred()) == k - lo,
                is_digit(t[0]),
                forall|q: int| k <= q < j ==> is_alpha(#[trigger] cs@[q]),
            decreases hi - j,
        {
            let u = cs[j] as u32;
            if !((65 <= u && u <= 90) || (97 <= u && u <= 122)) {
                proof {
                    assert(t[j - lo] == cs@[j as int]);
                    assert(!is_alpha(t[j - lo]));
                    assert((t[0] as u32) != 43);
                    assert(duration_ms_of(t) is None) by {
                        let kk = prefix_len(t, digit_pred());
                        assert(kk == k - lo);
                        assert(kk <= j - lo < t.len());
                        assert(!(forall|q: int|
                            kk <= q < t.len() ==> is_alpha(#[trigger] t[q]))) by {
                            assert(!is_alpha(t[j - lo]));
                        }
                        assert((t[0] as u32) != 43);
                    }
                }
                return Err(EngineError::InvalidConfig(String::from_str(
                    "malformed duration",
                )));
            }
            j = j + 1;
        }
        proof {
            assert(forall|q: int| (k - lo) <= q < t.len() ==> is_alpha(#[trigger] t[q]));
        }
        let value = match digits_to_u64(&digits) {
            Some(v) => v,
            None => {
                return Err(EngineError::InvalidConfig(String::from_str(
                    "duration value is too large",
                )));
            },
        };
        // determine the factor
        let factor: u64;
        if k == hi {
            factor = 1000;
            proof {
                assert(t.take((k - lo) as int) =~= t);
            }
        } else {
            let ghost unit = t.skip((k - lo) as int);
            let ulen = hi - k;
            let first = cs[k] as u32;
            let l0 = if 65 <= first && first <= 90 {
                first + 32
            } else {
                first
            };
            proof {
                assert(unit.len() == ulen);
                assert(forall|q: int| 0 <= q < unit.len() ==> unit[q] == cs@[q + k]);
                assert(lower_code(unit[0]) == l0);
            }
            if ulen == 1 {
                proof {
                    assert(lower_seq(unit) =~= seq![lower_code(unit[0])]);
                    assert(lower_seq(unit)[0] == l0);
                }
                if l0 == 115 {
                    factor = 1000;
                } else if l0 == 109 {
                    factor = 60000;
                } else if l0 == 104 {
                    factor = 3600000;
                } else if l0 == 100 {
                    factor = 86400000;
                } else {
                    proof {
                        assert(unit_factor(unit) is None);
                    }
                    return Err(EngineError::InvalidConfig(String::from_str(
                        "unknown time unit",
                    )));
                }
            } else if ulen == 2 {
                let second = cs[k + 1] as u32;
                let l1 = if 65 <= second && second <= 90 {
                    second + 32
                } else {
                    second
                };
                proof {
                    assert(lower_code(unit[1]) == l1);
                    assert(lower_seq(unit) =~= seq![lower_code(unit[0]), lower_code(unit[1])]);
                    assert(lower_seq(unit)[0] == l0 && lower_seq(unit)[1] == l1);
                }
                if l0 == 109 && l1 == 115 {
                    factor = 1;
                } else {
                    proof {
                        assert(unit_factor(unit) is None);
                    }
                    return Err(EngineError::InvalidConfig(String::from_str(
                        "unknown time unit",
                    )));
                }
            } else {
                proof {
                    assert(lower_seq(unit).len() >= 3);
                    assert(unit_factor(unit) is None);
                }
                return Err(EngineError::InvalidConfig(String::from_str(
                    "unknown time unit",
                )));
            }
        }
        // multiply and clamp
        if value > u64::MAX / factor {
            proof {
                assert(value * factor > u64::MAX) by (nonlinear_arith)
                    requires
                        value > u64::MAX / factor,
                        factor >= 1,
                        u64::MAX / factor == u64::MAX as int / factor as int,
                        value >= 0,
                ;
            }
            return Err(EngineError::InvalidConfig(String::from_str(
                "duration value is too large",
            )));
        }
        proof {
            assert(value * factor <= u64::MAX) by (nonlinear_arith)
                requires
                    value <= u64::MAX / factor,
                    factor >= 1,
                    u64::MAX / factor == u64::MAX as int / factor as int,
                    value >= 0,
            ;
        }
        let ms = value * factor;
        if ms < 10 {
            Ok(10)
        } else {
            Ok(ms)
        }
    } else {
        // the historical fallback: a leading plus sign, then digits
        if (cs[lo] as u32) != 43 || hi - lo < 2 {
            proof {
                assert(t[0] == cs@[lo as int]);
            }
            return Err(EngineError::InvalidConfig(String::from_str(
                "malformed duration",
            )));
        }
        let mut digits: Vec<char> = Vec::new();
        let mut i: usize = lo + 1;
        while i < hi
            invariant
                lo + 1 <= i <= hi <= cs@.len(),
                t == trimmed(duration_str@),
                t.len() == hi - lo,
                forall|q: int| 0 <= q < t.len() ==> #[trigger] t[q] == cs@[q + lo],
                prefix_len(t, digit_pred()) == 0,
                digits@ =~= cs@.subrange(lo + 1, i as int),
                forall|q: int| lo + 1 <= q < i ==> is_digit(#[trigger] cs@[q]),
            decreases hi - i,
        {
            let u = cs[i] as u32;
            if !(48 <= u && u <= 57) {
                proof {
                    assert(t[i - lo] == cs@[i as int]);
                    assert(!is_digit(t[i - lo]));
                    assert(duration_ms_of(t) is None) by {
                        assert(prefix_len(t, digit_pred()) == 0);
                        assert(1 <= i - lo < t.len());
                        assert(!(forall|q: int|
                            1 <= q < t.len() ==> is_digit(#[trigger] t[q]))) by {
                            assert(!is_digit(t[i - lo]));
                        }
                    }
                }
                return Err(EngineError::InvalidConfig(String::from_str(
                    "malformed duration",
                )));
            }
            digits.push(cs[i]);
            proof {
                assert(digits@ =~= cs@.subrange(lo + 1, i + 1));
            }
            i = i + 1;
        }
        proof {
            assert(digits@ =~= t.skip(1));
            assert(forall|q: int| 1 <= q < t.len() ==> is_digit(#[trigger] t[q]));
        }
        let value = match digits_to_u64(&digits) {
            Some(v) => v,
            None => {
                return Err(EngineError::InvalidConfig(String::from_str(
                    "duration value is too large",
                )));
            },
        };
        if value > u64::MAX / 1000 {
            proof {
                assert(value * 1000 > u64::MAX) by (nonlinear_arith)
                    requires
                        value > u64::MAX / 1000,
                        u64::MAX / 1000 == u64::MAX as int / 1000,
                        value >= 0,
                ;
            }
            return Err(EngineError::InvalidConfig(String::from_str(
                "duration value is too large",
            )));
        }
        proof {
            assert(value * 1000 <= u64::MAX) by (nonlinear_arith)
                requires
                    value <= u64::MAX / 1000,
                    u64::MAX / 1000 == u64::MAX as int / 1000,
                    value >= 0,
            ;
        }
        let ms = value * 1000;
        if ms < 10 {
            Ok(10)
        } else {
            Ok(ms)
        }
    }
}

} // verus!
