//! Segment file names: the decimal starting index of each segment.

use vstd::prelude::*;

verus! {

pub open spec fn is_digit(b: u8) -> bool {
    48 <= b <= 57
}

/// The value of a string of decimal digits.
pub open spec fn decimal(s: Seq<u8>) -> int
    decreases s.len(),
{
    if s.len() == 0 {
        0
    } else {
        decimal(s.drop_last()) * 10 + (s.last() - 48)
    }
}

/// The digits of a name, after an optional leading `+`.
pub open spec fn digits_of(s: Seq<u8>) -> Seq<u8> {
    if s.len() > 0 && s[0] == 43 {
        s.drop_first()
    } else {
        s
    }
}

/// The index that a name stands for: the name is an optional `+` and at least
/// one decimal digit, and its value fits in `usize`.
pub open spec fn index_of_name(s: Seq<u8>) -> Option<int> {
    let d = digits_of(s);
    if d.len() > 0 && (forall|k: int| 0 <= k < d.len() ==> is_digit(#[trigger] d[k])) && decimal(d)
        <= usize::MAX {
        Some(decimal(d))
    } else {
        None
    }
}

proof fn lemma_decimal_grows(s: Seq<u8>, k: int)
    requires
        0 <= k <= s.len(),
        forall|j: int| 0 <= j < s.len() ==> is_digit(#[trigger] s[j]),
    ensures
        decimal(s.subrange(0, k)) <= decimal(s),
        decimal(s.subrange(0, k)) >= 0,
    decreases s.len(),
{
    if s.len() > 0 {
        if k < s.len() {
            lemma_decimal_grows(s.drop_last(), k);
            assert(s.drop_last().subrange(0, k) =~= s.subrange(0, k));
        } else {
            assert(s.subrange(0, k) =~= s);
        }
        lemma_decimal_grows(s.drop_last(), 0);
    } else {
        assert(s.subrange(0, k) =~= s);
    }
}

/// Parses a segment file name into the index it stands for.
pub fn parse_index(name: &Vec<u8>) -> (r: Option<usize>)
    ensures
        r matches Some(v) ==> index_of_name(name@) == Some(v as int),
        r is None ==> index_of_name(name@) is None,
{
    let n = name.len();
    let first: usize = if n > 0 && name[0] == 43 {
        1
    } else {
        0
    };
    let ghost d = digits_of(name@);
    proof {
        assert(d =~= name@.subrange(first as int, n as int));
    }
    if first >= n {
        return None;
    }
    let mut value: usize = 0;
    let mut k: usize = first;
    while k < n
        invariant
            first <= k <= n,
            n == name@.len(),
            d == name@.subrange(first as int, n as int),
            d == digits_of(name@),
            forall|j: int| 0 <= j < k - first ==> is_digit(#[trigger] d[j]),
            value == decimal(d.subrange(0, k - first)),
        decreases n - k,
    {
        let c = name[k];
        if c < 48 || c > 57 {
            proof {
                let j = k - first;
                assert(d[j] == c);
                assert(!is_digit(d[j]));
                assert(!(forall|i: int| 0 <= i < d.len() ==> is_digit(#[trigger] d[i])));
                assert(d == digits_of(name@));
                assert(index_of_name(name@) is None);
            }
            return None;
        }
        let digit = (c - 48) as usize;
        proof {
            assert(d.subrange(0, k - first + 1).drop_last() =~= d.subrange(0, k - first));
            assert(d[k - first] == c);
        }
        if value > (usize::MAX - digit) / 10 {
            let ghost whole_digits = forall|j: int| 0 <= j < d.len() ==> is_digit(#[trigger] d[j]);
            proof {
                if whole_digits {
                    lemma_decimal_grows(d, k - first + 1);
                    assert(decimal(d.subrange(0, k - first + 1)) == value * 10 + digit);
                    assert(value * 10 + digit > usize::MAX) by (nonlinear_arith)
                        requires
                            value > (usize::MAX - digit) / 10,
                            0 <= digit <= 9,
                    ;
                }
            }
            return None;
        }
        proof {
            assert(value * 10 + digit <= usize::MAX) by (nonlinear_arith)
                requires
                    value <= (usize::MAX - digit) / 10,
                    0 <= digit <= 9,
            ;
        }
        value = value * 10 + digit;
        k = k + 1;
    }
    proof {
        assert(d.subrange(0, n - first) =~= d);
    }
    Some(value)
}

/// Inserts `v` into the strictly ascending `s`, unless it is already there.
pub fn insert_sorted(s: &mut Vec<usize>, v: usize)
    requires
        forall|a: int, b: int| 0 <= a < b < old(s)@.len() ==> old(s)@[a] < old(s)@[b],
    ensures
        forall|a: int, b: int| 0 <= a < b < final(s)@.len() ==> final(s)@[a] < final(s)@[b],
        final(s)@.to_set() == old(s)@.to_set().insert(v),
{
    let mut k: usize = 0;
    while k < s.len() && s[k] < v
        invariant
            0 <= k <= s@.len(),
            s@ == old(s)@,
            forall|j: int| 0 <= j < k ==> s@[j] < v,
        decreases s@.len() - k,
    {
        k = k + 1;
    }
    if k < s.len() && s[k] == v {
        proof {
            assert(s@.to_set() =~= old(s)@.to_set().insert(v)) by {
                assert(s@.contains(v) ==> s@.to_set().contains(v));
                assert(s@[k as int] == v);
            };
        }
        return;
    }
    s.insert(k, v);
    proof {
        assert(s@ =~= old(s)@.insert(k as int, v));
        assert forall|x: usize| s@.to_set().contains(x) <==> old(s)@.to_set().insert(v).contains(
            x,
        ) by {
            if old(s)@.contains(x) {
                let j = choose|j: int| 0 <= j < old(s)@.len() && old(s)@[j] == x;
                if j < k {
                    assert(s@[j] == x);
                } else {
                    assert(s@[j + 1] == x);
                }
            }
            if s@.contains(x) {
                let j = choose|j: int| 0 <= j < s@.len() && s@[j] == x;
                if j < k {
                    assert(old(s)@[j] == x);
                } else if j > k {
                    assert(old(s)@[j - 1] == x);
                }
            }
            if x == v {
                assert(s@[k as int] == v);
            }
        };
        assert(s@.to_set() =~= old(s)@.to_set().insert(v));
    }
}

} // verus!
