//! Child-id sets stored as sorted vectors of raw ids, so that iteration is
//! in slot order and membership is decidable.

use vstd::prelude::*;

verus! {

broadcast use vstd::std_specs::vec::group_vec_axioms;

pub open spec fn contains_id(s: Seq<u32>, x: u32) -> bool {
    exists|i: int| 0 <= i < s.len() && s[i] == x
}

pub open spec fn sorted_unique(s: Seq<u32>) -> bool {
    forall|i: int, j: int| 0 <= i < j < s.len() ==> s[i] < s[j]
}

pub fn idset_contains(v: &Vec<u32>, x: u32) -> (r: bool)
    ensures
        r == contains_id(v@, x),
{
    let n = v.len();
    let mut i: usize = 0;
    while i < n
        invariant
            n == v@.len(),
            0 <= i <= n,
            forall|j: int| 0 <= j < i ==> v@[j] != x,
        decreases n - i,
    {
        if v[i] == x {
            return true;
        }
        i += 1;
    }
    false
}

/// Inserts `x` keeping the vector sorted; no effect if already present.
pub fn idset_insert(v: &mut Vec<u32>, x: u32)
    requires
        sorted_unique(old(v)@),
    ensures
        sorted_unique(final(v)@),
        forall|y: u32| #[trigger] contains_id(final(v)@, y) == (contains_id(old(v)@, y) || y == x),
        contains_id(old(v)@, x) ==> final(v)@ == old(v)@,
        !contains_id(old(v)@, x) ==> final(v)@.len() == old(v)@.len() + 1,
{
    let n = v.len();
    let mut i: usize = 0;
    while i < n && v[i] < x
        invariant
            sorted_unique(v@),
            *v == *old(v),
            n == v@.len(),
            0 <= i <= n,
            forall|j: int| 0 <= j < i ==> v@[j] < x,
        decreases n - i,
    {
        i += 1;
    }
    if i < n && v[i] == x {
        proof {
            assert(contains_id(v@, x));
        }
        return ;
    }
    v.insert(i, x);
    proof {
        let es = v@;
        let old_es = old(v)@;
        assert(es == old_es.insert(i as int, x));
        assert(forall|j: int| 0 <= j < i ==> es[j] == old_es[j]);
        assert(forall|j: int| i < j < es.len() ==> es[j] == old_es[j - 1]);
        assert forall|j: int| i <= j < old_es.len() implies old_es[j] > x by {
            if j > i {
                assert(old_es[i as int] < old_es[j]);
            }
        }
        assert(!contains_id(old_es, x));
        assert(es[i as int] == x);
        assert(contains_id(es, x));
        assert forall|a: int, b: int| 0 <= a < b < es.len() implies es[a] < es[b] by {
            if a < i && b > i {
                assert(es[a] == old_es[a] && es[b] == old_es[b - 1]);
            }
        }
        assert forall|y: u32| #[trigger] contains_id(es, y) == (contains_id(old_es, y) || y
            == x) by {
            if contains_id(es, y) {
                let j = choose|j: int| 0 <= j < es.len() && es[j] == y;
                if j < i {
                    assert(old_es[j] == y);
                } else if j > i {
                    assert(old_es[j - 1] == y);
                }
            }
            if contains_id(old_es, y) {
                let j = choose|j: int| 0 <= j < old_es.len() && old_es[j] == y;
                if j < i {
                    assert(es[j] == y);
                } else {
                    assert(es[j + 1] == y);
                }
            }
        }
    }
}

/// Removes `x` keeping the order of the rest; no effect if absent.
pub fn idset_remove(v: &mut Vec<u32>, x: u32)
    requires
        sorted_unique(old(v)@),
    ensures
        sorted_unique(final(v)@),
        forall|y: u32| #[trigger] contains_id(final(v)@, y) == (contains_id(old(v)@, y) && y != x),
        !contains_id(old(v)@, x) ==> final(v)@ == old(v)@,
        contains_id(old(v)@, x) ==> final(v)@.len() == old(v)@.len() - 1,
{
    let n = v.len();
    let mut i: usize = 0;
    while i < n
        invariant
            sorted_unique(v@),
            *v == *old(v),
            n == v@.len(),
            0 <= i <= n,
            forall|j: int| 0 <= j < i ==> v@[j] != x,
        decreases n - i,
    {
        if v[i] == x {
            v.remove(i);
            proof {
                let es = v@;
                let old_es = old(v)@;
                assert(es == old_es.remove(i as int));
                assert(forall|j: int| 0 <= j < i ==> es[j] == old_es[j]);
                assert(forall|j: int| i <= j < es.len() ==> es[j] == old_es[j + 1]);
                assert forall|a: int, b: int| 0 <= a < b < es.len() implies es[a] < es[b] by {
                    if a < i && b >= i {
                        assert(es[a] == old_es[a] && es[b] == old_es[b + 1]);
                    }
                }
                assert forall|y: u32| #[trigger] contains_id(es, y) == (contains_id(old_es, y)
                    && y != x) by {
                    if contains_id(es, y) {
                        let j = choose|j: int| 0 <= j < es.len() && es[j] == y;
                        if j < i {
                            assert(old_es[j] == y);
                        } else {
                            assert(old_es[j + 1] == y);
                        }
                        assert(y != x) by {
                            if y == x {
                                let j2 = if j < i {
                                    j
                                } else {
                                    j + 1
                                };
                                assert(old_es[j2] == x && old_es[i as int] == x);
                            }
                        }
                    }
                    if contains_id(old_es, y) && y != x {
                        let j = choose|j: int| 0 <= j < old_es.len() && old_es[j] == y;
                        assert(j != i);
                        if j < i {
                            assert(es[j] == y);
                        } else {
                            assert(es[j - 1] == y);
                        }
                    }
                }
            }
            return ;
        }
        i += 1;
    }
    proof {
        assert(!contains_id(v@, x));
    }
}

/// Distinct positions hold distinct ids.
pub proof fn lemma_sorted_distinct(s: Seq<u32>, i: int, j: int)
    requires
        sorted_unique(s),
        0 <= i < s.len(),
        0 <= j < s.len(),
        i != j,
    ensures
        s[i] != s[j],
{
}

} // verus!
