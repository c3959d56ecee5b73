//! Input port names: the convention is `in1` .. `inN`. Recognizing a pin
//! name yields the 0-based port index; anything else — a foreign prefix, a
//! non-digit, or a number outside `1..=N` — is unrecognized. Leading zeros
//! are tolerated (`in01` names the first port), matching how the numbers
//! were parsed historically.

use vstd::prelude::*;
use vstd::std_specs::iter::IteratorSpec;

verus! {

/// Whether `c` is a decimal digit.
pub open spec fn is_digit(c: char) -> bool {
    48 <= (c as u32) && (c as u32) <= 57
}

/// The number the digit sequence denotes, most significant digit first.
pub open spec fn digits_value(s: Seq<char>) -> int
    decreases s.len(),
{
    if s.len() == 0 {
        0
    } else {
        digits_value(s.drop_last()) * 10 + ((s.last() as u32) - 48)
    }
}

/// The 0-based port a pin name denotes among `n` input ports, if any: the
/// name must be `in` followed by one or more digits denoting a number in
/// `1..=n`.
pub open spec fn in_port_of(pin: Seq<char>, n: int) -> Option<int> {
    if pin.len() >= 3 && pin[0] == 'i' && pin[1] == 'n' && (forall|j: int|
        2 <= j < pin.len() ==> is_digit(#[trigger] pin[j])) && 1 <= digits_value(pin.skip(2))
        <= n {
        Some(digits_value(pin.skip(2)) - 1)
    } else {
        None
    }
}

/// Collects the characters of a string slice, in order.
pub fn chars_of(s: &str) -> (r: Vec<char>)
    ensures
        r@ == s@,
{
    broadcast use vstd::string::axiom_spec_iter, vstd::string::next_postcondition;

    let mut it = s.chars();
    let mut out: Vec<char> = Vec::new();
    loop
        invariant
            it.obeys_prophetic_iter_laws(),
            it.decrease() is Some,
            out@ + it.remaining() == s@,
        ensures
            out@ == s@,
        decreases it.decrease()->0,
    {
        match it.next() {
            Some(c) => {
                out.push(c);
                proof {
                    assert(out@ + it.remaining() =~= s@);
                }
            },
            None => {
                proof {
                    assert(out@ + it.remaining() =~= out@);
                }
                break ;
            },
        }
    }
    out
}

/// Recognizes a pin name among `n` input ports and returns its 0-based
/// index; `None` for any name outside the `in1` .. `inN` convention.
pub fn find_in_port(pin: &str, n: usize) -> (r: Option<usize>)
    ensures
        match r {
            Some(p) => in_port_of(pin@, n as int) == Some(p as int),
            None => in_port_of(pin@, n as int) is None,
        },
{
    let cs = chars_of(pin);
    if cs.len() < 3 {
        return None;
    }
    if cs[0] != 'i' || cs[1] != 'n' {
        return None;
    }
    let mut v: usize = 0;
    let mut over = false;
    let mut i: usize = 2;
    while i < cs.len()
        invariant
            2 <= i <= cs@.len(),
            cs@ == pin@,
            forall|j: int| 2 <= j < i ==> is_digit(#[trigger] cs@[j]),
            !over ==> v == digits_value(cs@.subrange(2, i as int)) && v <= n,
            over ==> digits_value(cs@.subrange(2, i as int)) > n,
        decreases cs@.len() - i,
    {
        let c = cs[i];
        let cu = c as u32;
        if cu < 48 || cu > 57 {
            proof {
                assert(!is_digit(pin@[i as int]));
            }
            return None;
        }
        let d = (cu - 48) as usize;
        proof {
            assert(cs@.subrange(2, i + 1).drop_last() =~= cs@.subrange(2, i as int));
            assert(cs@.subrange(2, i + 1).last() == cs@[i as int]);
        }
        proof {
            assert(is_digit(cs@[i as int]));
            if over {
                let dv = digits_value(cs@.subrange(2, i as int));
                assert(dv * 10 + ((cs@[i as int] as u32) - 48) > n) by (nonlinear_arith)
                    requires
                        dv > n,
                        n >= 0,
                        (cs@[i as int] as u32) >= 48,
                ;
            }
        }
        if !over {
            if v > n / 10 {
                proof {
                    assert(v * 10 > n) by (nonlinear_arith)
                        requires
                            v > n / 10,
                            n / 10 == n as int / 10,
                            v >= 0,
                            n >= 0,
                    ;
                }
                over = true;
            } else {
                proof {
                    assert(v * 10 <= n) by (nonlinear_arith)
                        requires
                            v <= n / 10,
                            n / 10 == n as int / 10,
                            v >= 0,
                            n >= 0,
                    ;
                }
                let w = v * 10;
                if d > n - w {
                    over = true;
                } else {
                    v = w + d;
                }
            }
        }
        i = i + 1;
    }
    proof {
        assert(cs@.subrange(2, cs@.len() as int) =~= cs@.skip(2));
    }
    if over {
        return None;
    }
    if v < 1 {
        return None;
    }
    Some(v - 1)
}

} // verus!
