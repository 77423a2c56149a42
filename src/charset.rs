//! Sets of characters held as strictly increasing vectors, so that walking
//! one always yields the same order.
use vstd::prelude::*;

verus! {

pub open spec fn char_lt(a: char, b: char) -> bool {
    a < b
}

/// `s` is strictly increasing.
pub open spec fn is_char_set(s: Seq<char>) -> bool {
    forall|i: int, j: int| 0 <= i < j < s.len() ==> char_lt(#[trigger] s[i], #[trigger] s[j])
}

/// Adds `c` to the set `v`, keeping it strictly increasing.
pub fn insert_char(v: &mut Vec<char>, c: char)
    requires
        is_char_set(old(v)@),
    ensures
        is_char_set(final(v)@),
        final(v)@.to_set() == old(v)@.to_set().insert(c),
{
    let mut p: usize = 0;
    while p < v.len() && v[p] < c
        invariant
            p <= v@.len(),
            forall|k: int| 0 <= k < p ==> char_lt(#[trigger] v@[k], c),
        decreases v@.len() - p,
    {
        p += 1;
    }
    assert(p == v@.len() || !char_lt(v@[p as int], c));
    if p < v.len() && v[p] == c {
        proof {
            assert(v@.to_set() =~= v@.to_set().insert(c)) by {
                assert(v@.contains(v@[p as int]));
            }
        }
        return;
    }
    let ghost old_v = v@;
    assert(p < old_v.len() ==> old_v[p as int] != c);
    assert(p < old_v.len() ==> char_lt(c, old_v[p as int]));
    v.insert(p, c);
    proof {
        assert(v@ == old_v.insert(p as int, c));
        assert forall|i: int, j: int| 0 <= i < j < v@.len() implies char_lt(
            #[trigger] v@[i],
            #[trigger] v@[j],
        ) by {
            if p < old_v.len() {
                assert(char_lt(c, old_v[p as int]) || c == old_v[p as int]);
            }
            if j < p {
            } else if j == p {
            } else if i < p {
                assert(char_lt(old_v[i], c));
                if p < old_v.len() {
                    assert(old_v[p as int] == old_v[p as int]);
                    assert(i < p ==> char_lt(old_v[i], c));
                }
            } else if i == p {
                assert(p < old_v.len());
                assert(!char_lt(old_v[p as int], c));
                if j - 1 > p {
                    assert(char_lt(old_v[p as int], old_v[j - 1]));
                }
            } else {
            }
        }
        assert forall|x: char| v@.contains(x) <==> old_v.to_set().insert(c).contains(x) by {
            if v@.contains(x) {
                let i = choose|i: int| 0 <= i < v@.len() && v@[i] == x;
                if i < p {
                    assert(old_v[i] == x);
                } else if i > p {
                    assert(old_v[i - 1] == x);
                }
            }
            if old_v.contains(x) {
                let i = choose|i: int| 0 <= i < old_v.len() && old_v[i] == x;
                if i < p {
                    assert(v@[i] == x);
                } else {
                    assert(v@[i + 1] == x);
                }
            }
            if x == c {
                assert(v@[p as int] == c);
            }
        }
        assert(v@.to_set() =~= old_v.to_set().insert(c));
    }
}

/// Adds every element of `w` to the set `v`.
pub fn union_chars(v: &mut Vec<char>, w: &Vec<char>)
    requires
        is_char_set(old(v)@),
    ensures
        is_char_set(final(v)@),
        final(v)@.to_set() == old(v)@.to_set().union(w@.to_set()),
{
    let ghost start = v@.to_set();
    let mut i: usize = 0;
    while i < w.len()
        invariant
            i <= w@.len(),
            is_char_set(v@),
            v@.to_set() == start.union(w@.subrange(0, i as int).to_set()),
        decreases w@.len() - i,
    {
        insert_char(v, w[i]);
        proof {
            assert(w@.subrange(0, i + 1).to_set() =~= w@.subrange(0, i as int).to_set().insert(w@[i as int])) by {
                assert(w@.subrange(0, i + 1) =~= w@.subrange(0, i as int).push(w@[i as int]));
                w@.subrange(0, i as int).lemma_push_to_set_commute(w@[i as int]);
            }
        }
        i += 1;
    }
    proof {
        assert(w@.subrange(0, w@.len() as int) =~= w@);
    }
    assert(v@.to_set() =~= start.union(w@.to_set()));
}

} // verus!
