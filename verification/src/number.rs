//! Decimal numbers as `str::parse` reads them into unsigned integers.

use vstd::prelude::*;

verus! {

/// Whether `c` is one of the ASCII digits `0` to `9`.
pub open spec fn is_ascii_digit(c: char) -> bool {
    '0' <= c && c <= '9'
}

/// Whether every character of `s` is an ASCII digit.
pub open spec fn all_digits(s: Seq<char>) -> bool {
    forall|i: int| 0 <= i < s.len() ==> is_ascii_digit(#[trigger] s[i])
}

/// The value of the ASCII digit `c`.
pub open spec fn digit_value(c: char) -> nat {
    ((c as int) - ('0' as int)) as nat
}

/// The value of the decimal numeral `s`, most significant digit first.
pub open spec fn decimal_value(s: Seq<char>) -> nat
    decreases s.len(),
{
    if s.len() == 0 {
        0
    } else {
        decimal_value(s.drop_last()) * 10 + digit_value(s.last())
    }
}

/// What `str::parse` yields for an unsigned integer type whose largest value
/// is `max`: an optional `+` followed by one or more ASCII digits whose value
/// does not exceed `max`; anything else is an error (`None`).
pub open spec fn parsed_unsigned(s: Seq<char>, max: nat) -> Option<nat> {
    let d = if s.len() > 0 && s[0] == '+' {
        s.drop_first()
    } else {
        s
    };
    if d.len() > 0 && all_digits(d) && decimal_value(d) <= max {
        Some(decimal_value(d))
    } else {
        None
    }
}

/// What `str::parse(..).unwrap_or(0)` yields for such a type.
pub open spec fn unsigned_or_zero(s: Seq<char>, max: nat) -> nat {
    match parsed_unsigned(s, max) {
        Some(v) => v,
        None => 0,
    }
}

/// A longer numeral never has a smaller value than its prefix.
pub proof fn lemma_decimal_value_prefix(s: Seq<char>, k: int)
    requires
        0 <= k <= s.len(),
        all_digits(s),
    ensures
        decimal_value(s.take(k)) <= decimal_value(s),
    decreases s.len(),
{
    if k < s.len() {
        let t = s.drop_last();
        assert(all_digits(t)) by {
            assert forall|i: int| 0 <= i < t.len() implies is_ascii_digit(#[trigger] t[i]) by {
                assert(t[i] == s[i]);
            }
        }
        lemma_decimal_value_prefix(t, k);
        assert(t.take(k) =~= s.take(k));
    } else {
        assert(s.take(k) =~= s);
    }
}

/// Reads `s` as an unsigned decimal whose value may not exceed `max`, as
/// `str::parse` does for an unsigned integer type with that largest value.
pub fn parse_unsigned(s: &Vec<char>, max: u64) -> (res: Option<u64>)
    ensures
        match res {
            Some(v) => parsed_unsigned(s@, max as nat) == Some(v as nat),
            None => parsed_unsigned(s@, max as nat) is None,
        },
{
    let start: usize = if s.len() > 0 && s[0] == '+' {
        1
    } else {
        0
    };
    let ghost d = s@.skip(start as int);
    assert(start == 1 ==> d =~= s@.drop_first());
    assert(start == 0 ==> d =~= s@);
    if start >= s.len() {
        return None;
    }
    let mut acc: u64 = 0;
    let mut i: usize = start;
    assert(d.take(0) =~= Seq::<char>::empty());
    while i < s.len()
        invariant
            start <= i <= s.len(),
            d == s@.skip(start as int),
            d == (if s@.len() > 0 && s@[0] == '+' {
                s@.drop_first()
            } else {
                s@
            }),
            d.len() > 0,
            acc as nat == decimal_value(d.take(i - start)),
            acc <= max,
            all_digits(d.take(i - start)),
        decreases s.len() - i,
    {
        let c = s[i];
        let ghost pre = d.take(i - start);
        let ghost next = d.take(i - start + 1);
        assert(next.drop_last() =~= pre);
        assert(next.last() == c);
        if !('0' <= c && c <= '9') {
            assert(d[i - start] == c);
            assert(!is_ascii_digit(d[i - start]));
            return None;
        }
        let dig: u64 = ((c as u32) - ('0' as u32)) as u64;
        let wide: u128 = (acc as u128) * 10 + (dig as u128);
        assert(wide == decimal_value(next));
        if wide > max as u128 {
            proof {
                assert forall|q: int| 0 <= q < next.len() implies is_ascii_digit(#[trigger] next[q]) by {
                    if q < pre.len() {
                        assert(next[q] == pre[q]);
                    }
                }
                if all_digits(d) {
                    lemma_decimal_value_prefix(d, i - start + 1);
                }
            }
            return None;
        }
        proof {
            assert forall|q: int| 0 <= q < next.len() implies is_ascii_digit(#[trigger] next[q]) by {
                if q < pre.len() {
                    assert(next[q] == pre[q]);
                }
            }
        }
        acc = wide as u64;
        i += 1;
    }
    assert(d.take(s.len() - start) =~= d);
    Some(acc)
}

/// What integer parsing accepts: one or more ASCII digits, optionally after
/// a `+`, whose value does not exceed the largest value of the type; a
/// leading `-`, an empty text or a lone `+` is rejected.
pub proof fn lemma_parsed_unsigned_accepts(d: Seq<char>, max: nat)
    requires
        d.len() > 0,
        forall|i: int| 0 <= i < d.len() ==> '0' <= #[trigger] d[i] && d[i] <= '9',
    ensures
        decimal_value(d) <= max ==> parsed_unsigned(d, max) == Some(decimal_value(d)),
        decimal_value(d) <= max ==> parsed_unsigned(seq!['+'] + d, max) == Some(decimal_value(d)),
        decimal_value(d) > max ==> parsed_unsigned(d, max) is None,
        parsed_unsigned(seq!['-'] + d, max) is None,
        parsed_unsigned(Seq::empty(), max) is None,
        parsed_unsigned(seq!['+'], max) is None,
{
    assert(all_digits(d));
    assert((seq!['+'] + d).drop_first() =~= d);
    assert((seq!['+'] + d)[0] == '+');
    let m = seq!['-'] + d;
    assert(m[0] == '-');
    assert(!is_ascii_digit(m[0]));
    assert(seq!['+'].drop_first() =~= Seq::<char>::empty());
}

} // verus!
