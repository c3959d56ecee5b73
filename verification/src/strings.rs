//! The string-join node's computation: joining the string elements of a
//! list with a separator, then substituting the textual escape sequences
//! `\n`, `\t`, `\r` and `\\` — in that order, each pass over the whole
//! string, exactly as a chain of global replacements behaves.

use vstd::prelude::*;

use crate::ports::chars_of;
use crate::value::{ValModel, Value};

verus! {

/// Every non-overlapping occurrence of `pat` in `s` replaced by `rep`,
/// scanning left to right; the empty pattern replaces nothing.
pub open spec fn replace_spec(s: Seq<char>, pat: Seq<char>, rep: Seq<char>) -> Seq<char>
    decreases s.len(),
{
    if pat.len() == 0 || s.len() < pat.len() {
        s
    } else if s.take(pat.len() as int) == pat {
        rep + replace_spec(s.skip(pat.len() as int), pat, rep)
    } else {
        seq![s[0]] + replace_spec(s.drop_first(), pat, rep)
    }
}

/// The string elements of a run of value models, with the empty string
/// standing in for anything that is not a string.
pub open spec fn str_parts(items: Seq<ValModel>) -> Seq<Seq<char>> {
    Seq::new(
        items.len(),
        |i: int|
            match items[i] {
                ValModel::Str(s) => s,
                _ => Seq::<char>::empty(),
            },
    )
}

/// The parts joined with `sep` between neighbours.
pub open spec fn join_spec(parts: Seq<Seq<char>>, sep: Seq<char>) -> Seq<char>
    decreases parts.len(),
{
    if parts.len() == 0 {
        Seq::empty()
    } else if parts.len() == 1 {
        parts[0]
    } else {
        join_spec(parts.drop_last(), sep) + sep + parts.last()
    }
}

/// The joined text after the four escape substitutions, applied in order.
pub open spec fn unescaped(s: Seq<char>) -> Seq<char> {
    replace_spec(
        replace_spec(
            replace_spec(replace_spec(s, seq!['\\', 'n'], seq!['\n']), seq!['\\', 't'], seq!['\t']),
            seq!['\\', 'r'],
            seq!['\r'],
        ),
        seq!['\\', '\\'],
        seq!['\\'],
    )
}

/// Whether `pat` occurs in `s` at position `i`.
fn match_at(s: &Vec<char>, pat: &Vec<char>, i: usize) -> (r: bool)
    requires
        i <= s@.len(),
    ensures
        r == (i + pat@.len() <= s@.len() && s@.subrange(i as int, i + pat@.len()) == pat@),
{
    proof {
        assert(s@.len() == s.len());
    }
    if pat.len() > s.len() - i {
        proof {
            assert(i + pat@.len() > s@.len());
        }
        return false;
    }
    let mut j: usize = 0;
    while j < pat.len()
        invariant
            j <= pat@.len(),
            i + pat@.len() <= s@.len(),
            s@.len() <= usize::MAX,
            forall|q: int| 0 <= q < j ==> s@[i + q] == pat@[q],
        decreases pat@.len() - j,
    {
        if s[i + j] != pat[j] {
            proof {
                assert(s@.subrange(i as int, i + pat@.len())[j as int] != pat@[j as int]);
            }
            return false;
        }
        j = j + 1;
    }
    proof {
        assert(s@.subrange(i as int, i + pat@.len()) =~= pat@);
    }
    true
}

/// Replaces every non-overlapping occurrence of `pat` in `s` by `rep`,
/// scanning left to right.
pub fn replace_all(s: &Vec<char>, pat: &Vec<char>, rep: &Vec<char>) -> (r: Vec<char>)
    requires
        pat@.len() > 0,
    ensures
        r@ == replace_spec(s@, pat@, rep@),
{
    let mut out: Vec<char> = Vec::new();
    let mut i: usize = 0;
    proof {
        assert(s@.skip(0) =~= s@);
    }
    while i < s.len()
        invariant
            i <= s@.len(),
            pat@.len() > 0,
            replace_spec(s@, pat@, rep@) == out@ + replace_spec(s@.skip(i as int), pat@, rep@),
        decreases s@.len() - i,
    {
        let ghost tail = s@.skip(i as int);
        if match_at(s, pat, i) {
            // copy the replacement and jump past the matched pattern
            let ghost before_rep = out@;
            let mut j: usize = 0;
            while j < rep.len()
                invariant
                    j <= rep@.len(),
                    out@ == before_rep + rep@.take(j as int),
                decreases rep@.len() - j,
            {
                out.push(rep[j]);
                proof {
                    assert(out@ =~= before_rep + rep@.take(j + 1));
                }
                j = j + 1;
            }
            proof {
                assert(rep@.take(rep@.len() as int) =~= rep@);
                assert(out@ =~= before_rep + rep@);
                assert(tail.take(pat@.len() as int) =~= s@.subrange(i as int, i + pat@.len()));
                assert(tail.skip(pat@.len() as int) =~= s@.skip(i + pat@.len()));
                assert(replace_spec(tail, pat@, rep@) == rep@ + replace_spec(
                    s@.skip(i + pat@.len()),
                    pat@,
                    rep@,
                ));
                assert(before_rep + (rep@ + replace_spec(s@.skip(i + pat@.len()), pat@, rep@))
                    =~= out@ + replace_spec(s@.skip(i + pat@.len()), pat@, rep@));
            }
            i = i + pat.len();
        } else {
            out.push(s[i]);
            proof {
                if tail.len() >= pat@.len() {
                    assert(tail.take(pat@.len() as int) =~= s@.subrange(
                        i as int,
                        i + pat@.len(),
                    ));
                    assert(tail.take(pat@.len() as int) != pat@);
                    assert(tail.drop_first() =~= s@.skip(i + 1));
                    assert(seq![tail[0]] + replace_spec(tail.drop_first(), pat@, rep@)
                        == replace_spec(tail, pat@, rep@));
                } else {
                    assert(replace_spec(tail, pat@, rep@) == tail);
                    assert(s@.skip(i + 1).len() < pat@.len());
                    assert(replace_spec(s@.skip(i + 1), pat@, rep@) == s@.skip(i + 1));
                    assert(tail =~= seq![tail[0]] + s@.skip(i + 1));
                }
                assert(tail[0] == s@[i as int]);
            }
            i = i + 1;
        }
    }
    proof {
        assert(s@.skip(s@.len() as int) =~= Seq::<char>::empty());
        assert(replace_spec(Seq::<char>::empty(), pat@, rep@) == Seq::<char>::empty());
        assert(out@ + Seq::<char>::empty() =~= out@);
    }
    out
}

/// Builds a string from its characters.
///
/// Relies on `Iterator::collect` for `String`, which concatenates the
/// characters in order.
#[verifier::external_body]
fn string_from_chars(cs: &Vec<char>) -> (r: String)
    ensures
        r@ == cs@,
{
    cs.iter().collect()
}

/// Joins the string elements of a list with `sep` (anything that is not a
/// string contributes the empty string), then applies the escape
/// substitutions; a value that is not a list passes through unchanged.
pub fn string_join_value(value: Value, sep: &String) -> (r: Value)
    ensures
        match value.model() {
            ValModel::List(items) => r.model() == ValModel::Str(
                unescaped(join_spec(str_parts(items), sep@)),
            ),
            m => r.model() == m,
        },
{
    broadcast use crate::value::lemma_seq_model;

    let items = match value {
        Value::List(items) => items,
        other => {
            return other;
        },
    };
    let ghost parts = str_parts(crate::value::seq_model(items@));
    let sep_chars = chars_of(sep.as_str());
    let mut joined: Vec<char> = Vec::new();
    let mut i: usize = 0;
    proof {
        assert(joined@ =~= join_spec(parts.take(0), sep@));
    }
    while i < items.len()
        invariant
            i <= items@.len(),
            parts == str_parts(crate::value::seq_model(items@)),
            parts.len() == items@.len(),
            sep_chars@ == sep@,
            joined@ == join_spec(parts.take(i as int), sep@),
        decreases items@.len() - i,
    {
        proof {
            crate::value::lemma_seq_model(items@);
            assert(parts.take(i + 1).drop_last() =~= parts.take(i as int));
            assert(parts.take(i + 1).last() == parts[i as int]);
        }
        if i > 0 {
            let mut j: usize = 0;
            let ghost before = joined@;
            while j < sep_chars.len()
                invariant
                    j <= sep_chars@.len(),
                    joined@ == before + sep_chars@.take(j as int),
                decreases sep_chars@.len() - j,
            {
                joined.push(sep_chars[j]);
                proof {
                    assert(joined@ =~= before + sep_chars@.take(j + 1));
                }
                j = j + 1;
            }
            proof {
                assert(sep_chars@.take(sep_chars@.len() as int) =~= sep@);
            }
        }
        let ghost mid = joined@;
        match &items[i] {
            Value::Str(s) => {
                let part = chars_of(s.as_str());
                let mut j: usize = 0;
                while j < part.len()
                    invariant
                        j <= part@.len(),
                        joined@ == mid + part@.take(j as int),
                    decreases part@.len() - j,
                {
                    joined.push(part[j]);
                    proof {
                        assert(joined@ =~= mid + part@.take(j + 1));
                    }
                    j = j + 1;
                }
                proof {
                    assert(part@.take(part@.len() as int) =~= part@);
                    assert(parts[i as int] == part@);
                }
            },
            _ => {
                proof {
                    assert(parts[i as int] =~= Seq::<char>::empty());
                    assert(joined@ =~= mid + parts[i as int]);
                }
            },
        }
        proof {
            if i == 0 {
                assert(joined@ =~= join_spec(parts.take(1), sep@));
            } else {
                assert(joined@ =~= join_spec(parts.take(i as int), sep@) + sep@
                    + parts[i as int]);
            }
        }
        i = i + 1;
    }
    proof {
        assert(parts.take(parts.len() as int) =~= parts);
    }

    // the escape substitutions, in the order the node applies them
    let mut pat_n: Vec<char> = Vec::new();
    pat_n.push('\\');
    pat_n.push('n');
    let mut rep_n: Vec<char> = Vec::new();
    rep_n.push('\n');
    let mut pat_t: Vec<char> = Vec::new();
    pat_t.push('\\');
    pat_t.push('t');
    let mut rep_t: Vec<char> = Vec::new();
    rep_t.push('\t');
    let mut pat_r: Vec<char> = Vec::new();
    pat_r.push('\\');
    pat_r.push('r');
    let mut rep_r: Vec<char> = Vec::new();
    rep_r.push('\r');
    let mut pat_b: Vec<char> = Vec::new();
    pat_b.push('\\');
    pat_b.push('\\');
    let mut rep_b: Vec<char> = Vec::new();
    rep_b.push('\\');
    proof {
        assert(pat_n@ =~= seq!['\\', 'n']);
        assert(rep_n@ =~= seq!['\n']);
        assert(pat_t@ =~= seq!['\\', 't']);
        assert(rep_t@ =~= seq!['\t']);
        assert(pat_r@ =~= seq!['\\', 'r']);
        assert(rep_r@ =~= seq!['\r']);
        assert(pat_b@ =~= seq!['\\', '\\']);
        assert(rep_b@ =~= seq!['\\']);
    }
    let step1 = replace_all(&joined, &pat_n, &rep_n);
    let step2 = replace_all(&step1, &pat_t, &rep_t);
    let step3 = replace_all(&step2, &pat_r, &rep_r);
    let step4 = replace_all(&step3, &pat_b, &rep_b);
    Value::Str(string_from_chars(&step4))
}

} // verus!
