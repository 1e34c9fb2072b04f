//! Reading the numbers a player types as coordinates.
use vstd::prelude::*;

verus! {

/// The byte is an ASCII decimal digit.
pub open spec fn is_digit(b: u8) -> bool {
    48 <= b <= 57
}

/// The value of a string of decimal digits, most significant first.
pub open spec fn digits_value(s: Seq<u8>) -> nat
    decreases s.len(),
{
    if s.len() == 0 {
        0
    } else {
        digits_value(s.drop_last()) * 10 + (s.last() - 48) as nat
    }
}

/// Appending digits never makes a number smaller.
pub proof fn lemma_digits_value_grows(s: Seq<u8>, k: int)
    requires
        0 <= k <= s.len(),
        forall|i: int| 0 <= i < s.len() ==> is_digit(#[trigger] s[i]),
    ensures
        digits_value(s.take(k)) <= digits_value(s),
    decreases s.len() - k,
{
    if k < s.len() {
        lemma_digits_value_grows(s, k + 1);
        assert(s.take(k + 1).drop_last() =~= s.take(k));
    } else {
        assert(s.take(k) =~= s);
    }
}

/// Reads a decimal number: `Some` exactly when `s` is a non-empty run of
/// digits whose value fits in a `usize`.
pub fn parse_number(s: &[u8]) -> (r: Option<usize>)
    ensures
        r == if s@.len() > 0 && (forall|i: int| 0 <= i < s@.len() ==> is_digit(#[trigger] s@[i]))
            && digits_value(s@) <= usize::MAX {
            Some(digits_value(s@) as usize)
        } else {
            None::<usize>
        },
{
    if s.len() == 0 {
        return None;
    }
    let mut i: usize = 0;
    while i < s.len()
        invariant
            i <= s@.len(),
            forall|j: int| 0 <= j < i ==> is_digit(#[trigger] s@[j]),
        decreases s@.len() - i,
    {
        if s[i] < 48 || s[i] > 57 {
            return None;
        }
        i = i + 1;
    }
    let mut v: usize = 0;
    let mut k: usize = 0;
    while k < s.len()
        invariant
            k <= s@.len(),
            forall|j: int| 0 <= j < s@.len() ==> is_digit(#[trigger] s@[j]),
            v as nat == digits_value(s@.take(k as int)),
        decreases s@.len() - k,
    {
        proof {
            assert(s@.take(k + 1).drop_last() =~= s@.take(k as int));
        }
        let d = (s[k] - 48) as usize;
        match v.checked_mul(10) {
            Some(t) => match t.checked_add(d) {
                Some(u) => {
                    v = u;
                },
                None => {
                    proof {
                        lemma_digits_value_grows(s@, k + 1);
                    }
                    return None;
                },
            },
            None => {
                proof {
                    lemma_digits_value_grows(s@, k + 1);
                    assert(digits_value(s@.take(k + 1)) >= v * 10);
                }
                return None;
            },
        }
        k = k + 1;
    }
    proof {
        assert(s@.take(s@.len() as int) =~= s@);
    }
    Some(v)
}

} // verus!
