//! Lookup of a string key in a list of keys.

use vstd::prelude::*;

verus! {

/// The last position of `k` among `keys`, or -1 when it is absent.
pub open spec fn key_pos(keys: Seq<String>, k: Seq<char>) -> int
    decreases keys.len(),
{
    if keys.len() == 0 {
        -1
    } else if keys.last()@ == k {
        keys.len() - 1
    } else {
        key_pos(keys.drop_last(), k)
    }
}

pub proof fn lemma_key_pos_bounds(keys: Seq<String>, k: Seq<char>)
    ensures
        -1 <= key_pos(keys, k) < keys.len(),
        key_pos(keys, k) >= 0 ==> keys[key_pos(keys, k)]@ == k,
        key_pos(keys, k) == -1 ==> forall|j: int| 0 <= j < keys.len() ==> #[trigger] keys[j]@ != k,
    decreases keys.len(),
{
    if keys.len() > 0 {
        lemma_key_pos_bounds(keys.drop_last(), k);
        if keys.last()@ != k && key_pos(keys, k) == -1 {
            assert forall|j: int| 0 <= j < keys.len() implies #[trigger] keys[j]@ != k by {
                if j < keys.len() - 1 {
                    assert(keys[j] == keys.drop_last()[j]);
                }
            };
        }
    }
}

pub proof fn lemma_key_pos_push(keys: Seq<String>, x: String, k: Seq<char>)
    ensures
        key_pos(keys.push(x), k) == if x@ == k {
            keys.len() as int
        } else {
            key_pos(keys, k)
        },
{
    assert(keys.push(x).drop_last() =~= keys);
}

/// No key occurs twice.
pub open spec fn unique(keys: Seq<String>) -> bool {
    forall|a: int, b: int| 0 <= a < b < keys.len() ==> keys[a]@ != keys[b]@
}

/// Appending an absent key keeps the keys unique.
pub proof fn lemma_unique_push(keys: Seq<String>, x: String)
    requires
        unique(keys),
        key_pos(keys, x@) == -1,
    ensures
        unique(keys.push(x)),
{
    lemma_key_pos_bounds(keys, x@);
    assert forall|a: int, b: int| 0 <= a < b < keys.push(x).len() implies keys.push(x)[a]@
        != keys.push(x)[b]@ by {
        if b == keys.len() {
            assert(keys.push(x)[a] == keys[a]);
        } else {
            assert(keys.push(x)[a] == keys[a]);
            assert(keys.push(x)[b] == keys[b]);
        }
    };
}

/// Among unique keys, each key is found at its own position.
pub proof fn lemma_unique_pos(keys: Seq<String>, i: int)
    requires
        unique(keys),
        0 <= i < keys.len(),
    ensures
        key_pos(keys, keys[i]@) == i,
    decreases keys.len(),
{
    if i < keys.len() - 1 {
        assert(keys.last()@ != keys[i]@);
        assert(unique(keys.drop_last())) by {
            assert forall|a: int, b: int| 0 <= a < b < keys.drop_last().len() implies keys.drop_last()[a]@
                != keys.drop_last()[b]@ by {
                assert(keys.drop_last()[a] == keys[a]);
                assert(keys.drop_last()[b] == keys[b]);
            };
        };
        lemma_unique_pos(keys.drop_last(), i);
        assert(keys.drop_last()[i] == keys[i]);
    }
}

/// The position of `k` among `keys`, as `key_pos` defines it.
pub fn find_key(keys: &Vec<String>, k: &str) -> (r: Option<usize>)
    ensures
        match r {
            Some(j) => key_pos(keys@, k@) == j,
            None => key_pos(keys@, k@) == -1,
        },
{
    let key = k.to_owned();
    let mut j = keys.len();
    proof {
        assert(keys@.subrange(0, j as int) =~= keys@);
    }
    while j > 0
        invariant
            j <= keys@.len(),
            key@ == k@,
            key_pos(keys@, k@) == key_pos(keys@.subrange(0, j as int), k@),
        decreases j,
    {
        if keys[j - 1] == key {
            proof {
                assert(keys@.subrange(0, j as int).last() == keys@[j - 1]);
            }
            return Some(j - 1);
        }
        proof {
            assert(keys@.subrange(0, j as int).drop_last() =~= keys@.subrange(0, j - 1));
        }
        j = j - 1;
    }
    None
}

} // verus!
