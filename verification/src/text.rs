//! Decimal text: parsing unsigned integers out of address text, and
//! rendering worker identifiers as decimal strings.

use vstd::prelude::*;
use vstd::string::StringExecFns;

verus! {

/// Whether `c` is an ASCII decimal digit.
pub open spec fn is_digit(c: char) -> bool {
    48 <= c as u32 <= 57
}

/// The numeric value of a digit character.
pub open spec fn digit_val(c: char) -> int {
    c as u32 - 48
}

/// Whether every character of `s` is a decimal digit.
pub open spec fn all_digits(s: Seq<char>) -> bool {
    forall|i: int| 0 <= i < s.len() ==> is_digit(#[trigger] s[i])
}

/// The number denoted by a digit string, most significant digit first.
pub open spec fn digits_val(s: Seq<char>) -> int
    decreases s.len(),
{
    if s.len() == 0 {
        0
    } else {
        digits_val(s.drop_last()) * 10 + digit_val(s.last())
    }
}

/// What `str::parse::<u64>` accepts and returns: an optional leading `+`,
/// then one or more decimal digits whose value fits in 64 bits.
pub open spec fn spec_parse_u64(s: Seq<char>) -> Option<u64> {
    let t = if s.len() > 0 && s[0] == '+' {
        s.drop_first()
    } else {
        s
    };
    if t.len() > 0 && all_digits(t) && digits_val(t) <= u64::MAX {
        Some(digits_val(t) as u64)
    } else {
        None
    }
}

/// A digit string denotes a non-negative number.
pub proof fn lemma_digits_val_nonneg(s: Seq<char>)
    requires
        all_digits(s),
    ensures
        digits_val(s) >= 0,
    decreases s.len(),
{
    if s.len() > 0 {
        assert(all_digits(s.drop_last()));
        lemma_digits_val_nonneg(s.drop_last());
        assert(is_digit(s.last()));
    }
}

/// Extending a digit string cannot decrease its value.
pub proof fn lemma_digits_val_prefix(s: Seq<char>, j: int)
    requires
        all_digits(s),
        0 <= j <= s.len(),
    ensures
        digits_val(s) >= digits_val(s.take(j)),
    decreases s.len() - j,
{
    if j < s.len() {
        lemma_digits_val_prefix(s, j + 1);
        let p = s.take(j + 1);
        assert(p.drop_last() =~= s.take(j));
        assert(p.last() == s[j]);
        assert(all_digits(s.take(j))) by {
            assert(forall|i: int| 0 <= i < j ==> s.take(j)[i] == s[i]);
        }
        lemma_digits_val_nonneg(s.take(j));
        assert(is_digit(s[j]));
        assert(digits_val(p) == digits_val(s.take(j)) * 10 + digit_val(s[j]));
        assert(digits_val(s.take(j)) * 10 >= digits_val(s.take(j)));
    } else {
        assert(s.take(j) =~= s);
    }
}

/// Parses the character range `[lo, hi)` of `chars` as a `u64`, exactly as
/// `str::parse::<u64>` would.
pub fn parse_u64_range(chars: &Vec<char>, lo: usize, hi: usize) -> (r: Option<u64>)
    requires
        lo <= hi <= chars@.len(),
    ensures
        r == spec_parse_u64(chars@.subrange(lo as int, hi as int)),
    decreases hi - lo,
{
    let ghost s = chars@.subrange(lo as int, hi as int);
    let mut start = lo;
    if lo < hi && chars[lo] == '+' {
        start = lo + 1;
    }
    let ghost t = chars@.subrange(start as int, hi as int);
    proof {
        if s.len() > 0 && s[0] == '+' {
            assert(t =~= s.drop_first());
        } else {
            assert(t =~= s);
        }
    }
    if start == hi {
        return None;
    }
    let mut acc: u64 = 0;
    let mut i = start;
    while i < hi
        invariant
            lo <= start <= i <= hi <= chars@.len(),
            start < hi,
            s == chars@.subrange(lo as int, hi as int),
            t == (if s.len() > 0 && s[0] == '+' {
                s.drop_first()
            } else {
                s
            }),
            t == chars@.subrange(start as int, hi as int),
            all_digits(t.take(i - start)),
            acc as int == digits_val(t.take(i - start)),
        decreases hi - i,
    {
        let c = chars[i];
        let d = c as u32;
        proof {
            assert(t[i - start] == chars@[i as int]);
        }
        if d < 48 || d > 57 {
            proof {
                assert(!is_digit(t[i - start]));
                assert(!all_digits(t));
            }
            return None;
        }
        let wide: u128 = acc as u128 * 10 + (d - 48) as u128;
        proof {
            let p = t.take(i - start + 1);
            assert(p.drop_last() =~= t.take(i - start));
            assert(p.last() == t[i - start]);
            assert(all_digits(p));
            assert(digits_val(p) == wide as int);
        }
        if wide > u64::MAX as u128 {
            proof {
                if all_digits(t) && digits_val(t) <= u64::MAX {
                    lemma_digits_val_prefix(t, i - start + 1);
                    assert(false);
                }
            }
            return None;
        }
        acc = wide as u64;
        i = i + 1;
    }
    proof {
        assert(t.take(hi - start) =~= t);
    }
    Some(acc)
}

/// The digit character for a value below ten.
pub open spec fn dec_digit(d: int) -> char {
    if d == 0 {
        '0'
    } else if d == 1 {
        '1'
    } else if d == 2 {
        '2'
    } else if d == 3 {
        '3'
    } else if d == 4 {
        '4'
    } else if d == 5 {
        '5'
    } else if d == 6 {
        '6'
    } else if d == 7 {
        '7'
    } else if d == 8 {
        '8'
    } else {
        '9'
    }
}

/// The decimal rendering of a non-negative number, without sign or padding:
/// what `u64::to_string` produces.
pub open spec fn spec_dec(n: int) -> Seq<char>
    decreases n,
{
    if n < 10 {
        seq![dec_digit(n)]
    } else {
        spec_dec(n / 10).push(dec_digit(n % 10))
    }
}

/// A one-character string slice for a digit value.
fn digit_str(d: u64) -> (r: &'static str)
    requires
        d < 10,
    ensures
        r@ =~= seq![dec_digit(d as int)],
{
    if d == 0 {
        proof {
            reveal_strlit("0");
        }
        "0"
    } else if d == 1 {
        proof {
            reveal_strlit("1");
        }
        "1"
    } else if d == 2 {
        proof {
            reveal_strlit("2");
        }
        "2"
    } else if d == 3 {
        proof {
            reveal_strlit("3");
        }
        "3"
    } else if d == 4 {
        proof {
            reveal_strlit("4");
        }
        "4"
    } else if d == 5 {
        proof {
            reveal_strlit("5");
        }
        "5"
    } else if d == 6 {
        proof {
            reveal_strlit("6");
        }
        "6"
    } else if d == 7 {
        proof {
            reveal_strlit("7");
        }
        "7"
    } else if d == 8 {
        proof {
            reveal_strlit("8");
        }
        "8"
    } else {
        proof {
            reveal_strlit("9");
        }
        "9"
    }
}

/// The concatenation of `ps` in reverse order: last element first.
pub open spec fn rev_concat(ps: Seq<Seq<char>>) -> Seq<char>
    decreases ps.len(),
{
    if ps.len() == 0 {
        Seq::empty()
    } else {
        ps.last() + rev_concat(ps.drop_last())
    }
}

/// `rev_concat` can also be peeled from the front: the first element of the
/// sequence comes last in the concatenation.
proof fn lemma_rev_concat_first(ps: Seq<Seq<char>>)
    requires
        ps.len() > 0,
    ensures
        rev_concat(ps) == rev_concat(ps.drop_first()) + ps.first(),
    decreases ps.len(),
{
    let pdf = ps.drop_first();
    let pdl = ps.drop_last();
    if ps.len() == 1 {
        assert(pdl.len() == 0);
        assert(pdf.len() == 0);
        assert(rev_concat(pdl) == Seq::<char>::empty());
        assert(rev_concat(pdf) == Seq::<char>::empty());
        assert(rev_concat(ps) == ps.last() + rev_concat(pdl));
        assert(ps.last() == ps.first());
        assert(rev_concat(ps) =~= rev_concat(pdf) + ps.first());
    } else {
        lemma_rev_concat_first(pdl);
        assert(rev_concat(pdl) == rev_concat(pdl.drop_first()) + pdl.first());
        assert(pdl.drop_first() =~= pdf.drop_last());
        assert(pdl.drop_first() == pdf.drop_last());
        assert(pdl.first() == ps.first());
        assert(pdf.last() == ps.last());
        assert(pdf.len() > 0);
        assert(rev_concat(pdf) == pdf.last() + rev_concat(pdf.drop_last()));
        assert(rev_concat(ps) == ps.last() + rev_concat(pdl));
        assert(rev_concat(ps) =~= rev_concat(pdf) + ps.first());
    }
}

/// Renders `n` in decimal, exactly as `u64::to_string` does.
pub fn u64_to_dec(n: u64) -> (s: String)
    ensures
        s@ == spec_dec(n as int),
{
    let mut parts: Vec<&str> = Vec::new();
    let mut m = n;
    loop
        invariant
            ({
                let ps = parts@.map_values(|p: &str| p@);
                spec_dec(n as int) == if parts@.len() == 0 {
                    spec_dec(m as int)
                } else if m == 0 {
                    rev_concat(ps)
                } else {
                    spec_dec(m as int) + rev_concat(ps)
                }
            }),
        ensures
            spec_dec(n as int) == rev_concat(parts@.map_values(|p: &str| p@)),
        decreases m + if parts@.len() == 0 {
            1nat
        } else {
            0nat
        },
    {
        if m == 0 && parts.len() > 0 {
            break ;
        }
        let ghost ps0 = parts@.map_values(|p: &str| p@);
        let ghost was_empty = parts@.len() == 0;
        let d = m % 10;
        let p = digit_str(d);
        parts.push(p);
        proof {
            let ps1 = parts@.map_values(|p2: &str| p2@);
            assert(ps1.drop_last() =~= ps0);
            assert(ps1.last() == p@);
            assert(rev_concat(ps1) == p@ + rev_concat(ps0));
            if was_empty {
                assert(ps0.len() == 0);
                assert(rev_concat(ps0) == Seq::<char>::empty());
            }
        }
        let prev = m;
        m = m / 10;
        proof {
            let ps1 = parts@.map_values(|p2: &str| p2@);
            let tail = if was_empty {
                Seq::<char>::empty()
            } else {
                rev_concat(ps0)
            };
            assert(rev_concat(ps0) == tail);
            if prev < 10 {
                assert(m == 0);
                assert(spec_dec(prev as int) == seq![dec_digit(prev as int)]);
                assert(spec_dec(prev as int) + tail =~= p@ + tail);
                if was_empty {
                    assert(spec_dec(n as int) == spec_dec(prev as int));
                    assert(spec_dec(prev as int) =~= p@ + tail);
                    assert(spec_dec(n as int) == rev_concat(ps1));
                } else {
                    assert(spec_dec(n as int) == rev_concat(ps1));
                }
            } else {
                assert(m > 0);
                assert(spec_dec(prev as int) == spec_dec(prev as int / 10).push(
                    dec_digit(prev as int % 10),
                ));
                assert(spec_dec(prev as int) + tail =~= spec_dec(m as int) + (p@ + tail));
                if was_empty {
                    assert(spec_dec(prev as int) =~= spec_dec(m as int) + (p@ + tail));
                    assert(spec_dec(n as int) == spec_dec(m as int) + rev_concat(ps1));
                } else {
                    assert(spec_dec(n as int) == spec_dec(m as int) + rev_concat(ps1));
                }
            }
        }
    }
    let mut s = String::new();
    let mut i = parts.len();
    while i > 0
        invariant
            i <= parts@.len(),
            spec_dec(n as int) == rev_concat(parts@.map_values(|p: &str| p@)),
            s@ == rev_concat(parts@.map_values(|p: &str| p@).skip(i as int)),
        decreases i,
    {
        i = i - 1;
        let ghost ps = parts@.map_values(|p: &str| p@);
        s.append(parts[i]);
        proof {
            lemma_rev_concat_first(ps.skip(i as int));
            assert(ps.skip(i as int).drop_first() =~= ps.skip(i + 1));
            assert(ps.skip(i as int).first() == ps[i as int]);
        }
    }
    proof {
        let ps = parts@.map_values(|p: &str| p@);
        assert(ps.skip(0) =~= ps);
    }
    s
}

} // verus!
