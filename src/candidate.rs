//! Candidates: positions of the machine network with a lookahead.
use vstd::prelude::*;
use crate::fsm::{State, Transition};
use crate::net::MachineNet;

verus! {

/// An item of an item set: the state `state` of the machine `machine`, with
/// the terminal `lookahead` expected after the machine completes.
#[derive(Debug, Clone, Copy, PartialEq, Eq, Hash, PartialOrd, Ord, Structural)]
pub struct Candidate {
    pub machine: char,
    pub state: i32,
    pub lookahead: char,
    pub is_seed: bool,
    pub is_final: bool,
}

/// The strict order of candidates, field by field in declaration order.
pub open spec fn cand_lt(a: Candidate, b: Candidate) -> bool {
    if a.machine != b.machine {
        a.machine < b.machine
    } else if a.state != b.state {
        a.state < b.state
    } else if a.lookahead != b.lookahead {
        a.lookahead < b.lookahead
    } else if a.is_seed != b.is_seed {
        !a.is_seed
    } else {
        !a.is_final && b.is_final
    }
}

/// `s` is strictly increasing.
pub open spec fn is_cand_set(s: Seq<Candidate>) -> bool {
    forall|i: int, j: int| 0 <= i < j < s.len() ==> cand_lt(#[trigger] s[i], #[trigger] s[j])
}

pub proof fn lemma_cand_lt_trans(a: Candidate, b: Candidate, c: Candidate)
    requires
        cand_lt(a, b),
        cand_lt(b, c),
    ensures
        cand_lt(a, c),
{
}

pub proof fn lemma_cand_lt_total(a: Candidate, b: Candidate)
    ensures
        a == b || cand_lt(a, b) || cand_lt(b, a),
        !(cand_lt(a, b) && cand_lt(b, a)),
        !cand_lt(a, a),
{
}

pub fn cand_less(a: &Candidate, b: &Candidate) -> (r: bool)
    ensures
        r == cand_lt(*a, *b),
{
    if a.machine != b.machine {
        a.machine < b.machine
    } else if a.state != b.state {
        a.state < b.state
    } else if a.lookahead != b.lookahead {
        a.lookahead < b.lookahead
    } else if a.is_seed != b.is_seed {
        !a.is_seed
    } else {
        !a.is_final && b.is_final
    }
}

/// Adds `c` to the set `v`, keeping it strictly increasing.
pub fn insert_candidate(v: &mut Vec<Candidate>, c: Candidate)
    requires
        is_cand_set(old(v)@),
    ensures
        is_cand_set(final(v)@),
        final(v)@.to_set() == old(v)@.to_set().insert(c),
{
    let mut p: usize = 0;
    while p < v.len() && cand_less(&v[p], &c)
        invariant
            p <= v@.len(),
            forall|k: int| 0 <= k < p ==> cand_lt(#[trigger] v@[k], c),
        decreases v@.len() - p,
    {
        p += 1;
    }
    if p < v.len() && v[p] == c {
        proof {
            assert(v@.to_set() =~= v@.to_set().insert(c)) by {
                assert(v@.contains(v@[p as int]));
            }
        }
        return;
    }
    let ghost old_v = v@;
    proof {
        if p < old_v.len() {
            lemma_cand_lt_total(old_v[p as int], c);
        }
    }
    v.insert(p, c);
    proof {
        assert forall|i: int, j: int| 0 <= i < j < v@.len() implies cand_lt(
            #[trigger] v@[i],
            #[trigger] v@[j],
        ) by {
            if j < p {
            } else if j == p {
            } else if i < p {
                if p < old_v.len() {
                    lemma_cand_lt_trans(old_v[i], c, old_v[p as int]);
                    if j - 1 > p {
                        lemma_cand_lt_trans(old_v[i], old_v[p as int], old_v[j - 1]);
                    }
                }
            } else if i == p {
                if j - 1 > p {
                    lemma_cand_lt_trans(c, old_v[p as int], old_v[j - 1]);
                }
            } else {
            }
        }
        assert forall|x: Candidate| v@.contains(x) <==> old_v.to_set().insert(c).contains(x) by {
            if v@.contains(x) {
                let i = choose|i: int| 0 <= i < v@.len() && v@[i] == x;
                if i < p {
                    assert(old_v[i] == x);
                } else if i > p {
                    assert(old_v[i - 1] == x);
                }
            }
            if old_v.contains(x) {
                let i = choose|i: int| 0 <= i < old_v.len() && old_v[i] == x;
                if i < p {
                    assert(v@[i] == x);
                } else {
                    assert(v@[i + 1] == x);
                }
            }
            if x == c {
                assert(v@[p as int] == c);
            }
        }
        assert(v@.to_set() =~= old_v.to_set().insert(c));
    }
}

pub fn contains_candidate(v: &Vec<Candidate>, c: &Candidate) -> (r: bool)
    ensures
        r == v@.contains(*c),
{
    let mut i: usize = 0;
    while i < v.len()
        invariant
            i <= v@.len(),
            forall|k: int| 0 <= k < i ==> v@[k] != *c,
        decreases v@.len() - i,
    {
        if v[i] == *c {
            return true;
        }
        i += 1;
    }
    false
}

/// `k` is the first transition of `ts` on `x`.
pub open spec fn is_first_on(ts: Seq<Transition>, x: char, k: int) -> bool {
    &&& 0 <= k < ts.len()
    &&& ts[k].character == x
    &&& forall|q: int| 0 <= q < k ==> ts[q].character != x
}

pub open spec fn has_transition_on(ts: Seq<Transition>, x: char) -> bool {
    exists|k: int| 0 <= k < ts.len() && ts[k].character == x
}

pub proof fn lemma_first_on(ts: Seq<Transition>, x: char, j: int)
    requires
        0 <= j < ts.len(),
        ts[j].character == x,
    ensures
        exists|k: int| is_first_on(ts, x, k),
    decreases j,
{
    if exists|q: int| 0 <= q < j && ts[q].character == x {
        let q = choose|q: int| 0 <= q < j && ts[q].character == x;
        lemma_first_on(ts, x, q);
    } else {
        assert(is_first_on(ts, x, j));
    }
}

/// The machine state that a candidate stands on.
pub open spec fn cand_state(net: &MachineNet, c: Candidate) -> State {
    net.spec_state(c.machine, c.state)
}

/// The candidate can be looked up, and its finality is that of its state.
pub open spec fn cand_ok(net: &MachineNet, c: Candidate) -> bool {
    &&& net.has_position(c.machine, c.state)
    &&& c.is_final == cand_state(net, c).is_final
}

/// `c` has an outgoing transition on `x`.
pub open spec fn can_shift(net: &MachineNet, c: Candidate, x: char) -> bool {
    has_transition_on(cand_state(net, c).transitions@, x)
}

/// The seed that `c` becomes by its first transition on `x`.
pub open spec fn shifted(net: &MachineNet, c: Candidate, x: char) -> Candidate {
    let ts = cand_state(net, c).transitions@;
    let k = choose|k: int| is_first_on(ts, x, k);
    Candidate {
        machine: c.machine,
        state: ts[k].dest_id,
        lookahead: c.lookahead,
        is_seed: true,
        is_final: net.spec_state(c.machine, ts[k].dest_id).is_final,
    }
}

} // verus!
