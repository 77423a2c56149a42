//! Counting facts that bound the size of item sets and of pilots.
use vstd::prelude::*;
use vstd::set_lib::{set_int_range, lemma_int_range, lemma_map_size_bound, lemma_len_subset, lemma_map_size, lemma_len_union};
use vstd::seq_lib::seq_to_set_is_finite;
use vstd::arithmetic::div_mod::lemma_fundamental_div_mod_converse;
use crate::fsm::{Machine, State};

verus! {

/// Labels of the transitions of `ss`, state after state.
pub open spec fn state_labels(ss: Seq<State>) -> Seq<char>
    decreases ss.len(),
{
    if ss.len() == 0 {
        Seq::empty()
    } else {
        state_labels(ss.drop_last()) + ss.last().transitions@.map_values(|t: crate::fsm::Transition| t.character)
    }
}

/// Labels of the transitions of `ms`, machine after machine.
pub open spec fn net_labels(ms: Seq<Machine>) -> Seq<char>
    decreases ms.len(),
{
    if ms.len() == 0 {
        Seq::empty()
    } else {
        net_labels(ms.drop_last()) + state_labels(ms.last().states@)
    }
}

/// Every state of `ms` as a pair of machine name and state number.
pub open spec fn net_positions(ms: Seq<Machine>) -> Seq<(char, i32)>
    decreases ms.len(),
{
    if ms.len() == 0 {
        Seq::empty()
    } else {
        let m = ms.last();
        net_positions(ms.drop_last()) + m.states@.map_values(|s: State| (m.name, s.id))
    }
}

pub proof fn lemma_state_labels(ss: Seq<State>, j: int, k: int)
    requires
        0 <= j < ss.len(),
        0 <= k < ss[j].transitions@.len(),
    ensures
        state_labels(ss).contains(ss[j].transitions@[k].character),
    decreases ss.len(),
{
    let last = ss.last().transitions@.map_values(|t: crate::fsm::Transition| t.character);
    if j == ss.len() - 1 {
        assert(state_labels(ss)[state_labels(ss.drop_last()).len() + k] == ss[j].transitions@[k].character);
    } else {
        lemma_state_labels(ss.drop_last(), j, k);
        let i = choose|i: int| 0 <= i < state_labels(ss.drop_last()).len() && state_labels(ss.drop_last())[i] == ss[j].transitions@[k].character;
        assert(state_labels(ss)[i] == ss[j].transitions@[k].character);
    }
}

pub proof fn lemma_net_labels(ms: Seq<Machine>, i: int, j: int, k: int)
    requires
        0 <= i < ms.len(),
        0 <= j < ms[i].states@.len(),
        0 <= k < ms[i].states@[j].transitions@.len(),
    ensures
        net_labels(ms).contains(ms[i].states@[j].transitions@[k].character),
    decreases ms.len(),
{
    let ch = ms[i].states@[j].transitions@[k].character;
    if i == ms.len() - 1 {
        lemma_state_labels(ms[i].states@, j, k);
        let q = choose|q: int| 0 <= q < state_labels(ms[i].states@).len() && state_labels(ms[i].states@)[q] == ch;
        assert(net_labels(ms)[net_labels(ms.drop_last()).len() + q] == ch);
    } else {
        lemma_net_labels(ms.drop_last(), i, j, k);
        let q = choose|q: int| 0 <= q < net_labels(ms.drop_last()).len() && net_labels(ms.drop_last())[q] == ch;
        assert(net_labels(ms)[q] == ch);
    }
}

pub proof fn lemma_net_positions(ms: Seq<Machine>, i: int, j: int)
    requires
        0 <= i < ms.len(),
        0 <= j < ms[i].states@.len(),
    ensures
        net_positions(ms).contains((ms[i].name, ms[i].states@[j].id)),
    decreases ms.len(),
{
    let p = (ms[i].name, ms[i].states@[j].id);
    if i == ms.len() - 1 {
        assert(net_positions(ms)[net_positions(ms.drop_last()).len() + j] == p);
    } else {
        lemma_net_positions(ms.drop_last(), i, j);
        let q = choose|q: int| 0 <= q < net_positions(ms.drop_last()).len() && net_positions(ms.drop_last())[q] == p;
        assert(net_positions(ms)[q] == p);
    }
}

/// A pair of indices below `(n, m)` as one index below `n * m`.
pub proof fn lemma_pair_code(a: int, b: int, n: int, m: int)
    requires
        0 <= a < n,
        0 <= b < m,
    ensures
        0 <= a * m + b < n * m,
        (a * m + b) / m == a,
        (a * m + b) % m == b,
{
    assert(0 <= a * m) by (nonlinear_arith)
        requires 0 <= a, 0 <= m;
    assert(a * m + b < n * m) by (nonlinear_arith)
        requires 0 <= a < n, 0 <= b < m;
    lemma_fundamental_div_mod_converse(a * m + b, m, a, b);
}

/// The image of the codes below `n` is finite and has at most `n` elements.
pub proof fn lemma_code_image<A>(n: int, f: spec_fn(int) -> A)
    requires
        0 <= n,
    ensures
        set_int_range(0, n).map(f).finite(),
        set_int_range(0, n).map(f).len() <= n,
{
    lemma_int_range(0, n);
    lemma_map_size_bound(set_int_range(0, n), set_int_range(0, n).map(f), f);
}

/// A sequence without repetitions inside a finite set is no longer than it.
pub proof fn lemma_distinct_within<A>(s: Seq<A>, u: Set<A>)
    requires
        s.no_duplicates(),
        u.finite(),
        forall|i: int| 0 <= i < s.len() ==> u.contains(#[trigger] s[i]),
    ensures
        s.len() <= u.len(),
{
    s.unique_seq_to_set();
    seq_to_set_is_finite(s);
    assert(s.to_set().subset_of(u));
    lemma_len_subset(s.to_set(), u);
}

pub open spec fn pow2(n: nat) -> nat
    decreases n,
{
    if n == 0 {
        1
    } else {
        2 * pow2((n - 1) as nat)
    }
}

/// A family of subsets of a finite set `u` is finite, with at most
/// `2^|u|` members.
pub proof fn lemma_subsets_bound<A>(u: Set<A>, f: Set<Set<A>>)
    requires
        u.finite(),
        forall|s: Set<A>| #[trigger] f.contains(s) ==> s.subset_of(u),
    ensures
        f.finite(),
        f.len() <= pow2(u.len()),
    decreases u.len(),
{
    if u.len() == 0 {
        assert(u =~= Set::empty());
        assert forall|s: Set<A>| f.contains(s) implies s == Set::<A>::empty() by {
            assert(s =~= Set::<A>::empty());
        }
        assert(f.subset_of(set![Set::<A>::empty()]));
        lemma_len_subset(f, set![Set::<A>::empty()]);
    } else {
        let x = u.choose();
        let u1 = u.remove(x);
        let f0 = f.filter(|s: Set<A>| !s.contains(x));
        let f1 = f.filter(|s: Set<A>| s.contains(x));
        let rm = |s: Set<A>| s.remove(x);
        let ins = |s: Set<A>| s.insert(x);
        let g = f1.map(rm);
        assert forall|s: Set<A>| #[trigger] f0.contains(s) implies s.subset_of(u1) by {}
        lemma_subsets_bound(u1, f0);
        assert forall|s: Set<A>| #[trigger] g.contains(s) implies s.subset_of(u1) by {
            let t = choose|t: Set<A>| f1.contains(t) && rm(t) == s;
        }
        lemma_subsets_bound(u1, g);
        assert(f1 =~= g.map(ins)) by {
            assert forall|s: Set<A>| f1.contains(s) implies g.map(ins).contains(s) by {
                assert(g.contains(rm(s)));
                assert(ins(rm(s)) =~= s);
            }
            assert forall|s: Set<A>| g.map(ins).contains(s) implies f1.contains(s) by {
                let t = choose|t: Set<A>| g.contains(t) && ins(t) == s;
                let w = choose|w: Set<A>| f1.contains(w) && rm(w) == t;
                assert(ins(rm(w)) =~= w);
            }
        }
        g.lemma_map_finite(ins);
        assert forall|a: Set<A>, b: Set<A>| f1.contains(a) && f1.contains(b) && #[trigger] rm(a) == #[trigger] rm(b) implies a == b by {
            assert(ins(rm(a)) =~= a);
            assert(ins(rm(b)) =~= b);
        }
        lemma_map_size(f1, g, rm);
        assert(f =~= f0.union(f1));
        lemma_len_union(f0, f1);
    }
}

} // verus!
