//! Small facts about sequences used as duplicate-free pools.

use vstd::prelude::*;
use vstd::seq_lib::*;

verus! {

/// Removing one entry by swapping the last entry into its place keeps the
/// pool duplicate-free and removes exactly that entry from its set.
pub proof fn lemma_swap_remove_set<T>(s: Seq<T>, i: int)
    requires
        s.no_duplicates(),
        0 <= i < s.len(),
    ensures
        s.update(i, s.last()).drop_last().no_duplicates(),
        s.update(i, s.last()).drop_last().to_set() =~= s.to_set().remove(s[i]),
        s.update(i, s.last()).drop_last().len() == s.len() - 1,
{
    let t = s.update(i, s.last()).drop_last();
    assert forall|j: int, k: int| 0 <= j < t.len() && 0 <= k < t.len() && j != k implies t[j]
        != t[k] by {
        if j == i {
            assert(t[j] == s[s.len() - 1]);
        }
        if k == i {
            assert(t[k] == s[s.len() - 1]);
        }
    }
    assert forall|x: T| t.to_set().contains(x) implies s.to_set().remove(s[i]).contains(x) by {
        let j = choose|j: int| 0 <= j < t.len() && t[j] == x;
        if j == i {
            assert(s[s.len() - 1] == x);
            assert(s.contains(x));
        } else {
            assert(s[j] == x);
            assert(s.contains(x));
        }
    }
    assert forall|x: T| s.to_set().remove(s[i]).contains(x) implies t.to_set().contains(x) by {
        let j = choose|j: int| 0 <= j < s.len() && s[j] == x;
        if j == s.len() - 1 {
            if i < s.len() - 1 {
                assert(t[i] == x);
                assert(t.contains(x));
            } else {
                assert(x == s[i]);
            }
        } else {
            assert(t[j] == x);
            assert(t.contains(x));
        }
    }
}

/// Copies a vector of plain values entry by entry.
pub fn clone_vec_copy<T: Copy>(v: &Vec<T>) -> (r: Vec<T>)
    ensures
        r@ == v@,
{
    let mut r: Vec<T> = Vec::new();
    let mut i: usize = 0;
    while i < v.len()
        invariant
            i <= v@.len(),
            r@ == v@.subrange(0, i as int),
        decreases v@.len() - i,
    {
        r.push(v[i]);
        proof {
            assert(r@ =~= v@.subrange(0, i + 1));
        }
        i += 1;
    }
    proof {
        assert(r@ =~= v@);
    }
    r
}

} // verus!
