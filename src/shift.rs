//! Outgoing symbols of item sets and the shift on a symbol.
use vstd::prelude::*;
use crate::candidate::{
    Candidate, cand_state, can_shift, shifted, is_first_on, is_cand_set, insert_candidate,
    lemma_first_on,
};
use crate::charset::{is_char_set, insert_char};
use crate::closure::all_positioned;
use crate::net::MachineNet;
use crate::pilot::PilotState;

verus! {

/// Every symbol on which some candidate of `s` has a transition.
pub open spec fn outgoing(net: &MachineNet, s: Seq<Candidate>) -> Set<char> {
    Set::new(|x: char| exists|i: int| 0 <= i < s.len() && can_shift(net, #[trigger] s[i], x))
}

/// The seeds that shifting the candidates of `s` on `x` produces.
pub open spec fn shift_set(net: &MachineNet, s: Seq<Candidate>, x: char) -> Set<Candidate> {
    Set::new(
        |d: Candidate|
            exists|i: int| 0 <= i < s.len() && can_shift(net, #[trigger] s[i], x) && d == shifted(net, s[i], x),
    )
}

/// How many candidates of `s` shift on `x`.
pub open spec fn shift_count(net: &MachineNet, s: Seq<Candidate>, x: char) -> nat
    decreases s.len(),
{
    if s.len() == 0 {
        0
    } else {
        shift_count(net, s.drop_last(), x) + if can_shift(net, s.last(), x) {
            1nat
        } else {
            0nat
        }
    }
}

/// The seed that `c` becomes on `next`, if it has a transition on it.
pub fn shift_candidate(c: &Candidate, net: &MachineNet, next: char) -> (r: Option<Candidate>)
    requires
        net.well_formed(),
        net.has_position(c.machine, c.state),
    ensures
        r.is_some() == can_shift(net, *c, next),
        r.is_some() ==> r.unwrap() == shifted(net, *c, next),
{
    let mstate = net.lookup_state(c.machine, c.state);
    proof {
        net.lemma_position(c.machine, c.state);
    }
    let mut k: usize = 0;
    while k < mstate.transitions.len()
        invariant
            net.well_formed(),
            net.has_position(c.machine, c.state),
            *mstate == cand_state(net, *c),
            k <= mstate.transitions@.len(),
            forall|q: int| 0 <= q < k ==> mstate.transitions@[q].character != next,
            forall|q: int|
                0 <= q < mstate.transitions@.len() ==> net.transition_ok(
                    net.spec_machine(c.machine),
                    #[trigger] mstate.transitions@[q],
                ),
        decreases mstate.transitions@.len() - k,
    {
        let t = mstate.transitions[k];
        if t.character == next {
            proof {
                assert(net.transition_ok(net.spec_machine(c.machine), t));
                let ts = mstate.transitions@;
                lemma_first_on(ts, next, k as int);
                let f = choose|f: int| is_first_on(ts, next, f);
                assert(f == k);
            }
            let dest_state = net.lookup_state(c.machine, t.dest_id);
            return Some(
                Candidate {
                    machine: c.machine,
                    state: t.dest_id,
                    lookahead: c.lookahead,
                    is_seed: true,
                    is_final: dest_state.is_final,
                },
            );
        }
        k += 1;
    }
    None
}

/// Shifts every candidate of `state` that can on `next`: the successor item
/// set holds the resulting seeds in increasing order without repetition, and
/// the count is taken before repetitions merge.
pub fn shift(state: &PilotState, net: &MachineNet, next: char) -> (r: (char, PilotState, usize))
    requires
        net.well_formed(),
        all_positioned(net, state.candidates@),
    ensures
        r.0 == next,
        is_cand_set(r.1.candidates@),
        r.1.candidates@.to_set() == shift_set(net, state.candidates@, next),
        r.1.transitions@.len() == 0,
        r.1.id == 0,
        r.2 == shift_count(net, state.candidates@, next),
{
    let ghost s = state.candidates@;
    let mut new_cand: Vec<Candidate> = Vec::new();
    let mut mult: usize = 0;
    let mut i: usize = 0;
    proof {
        assert(new_cand@.to_set() =~= shift_set(net, s.subrange(0, 0), next));
        assert(s.subrange(0, 0).len() == 0);
    }
    while i < state.candidates.len()
        invariant
            net.well_formed(),
            all_positioned(net, s),
            s == state.candidates@,
            i <= s.len(),
            mult <= i,
            is_cand_set(new_cand@),
            new_cand@.to_set() == shift_set(net, s.subrange(0, i as int), next),
            mult == shift_count(net, s.subrange(0, i as int), next),
        decreases s.len() - i,
    {
        let c = &state.candidates[i];
        let sc = shift_candidate(c, net, next);
        let ghost prev = new_cand@.to_set();
        if let Some(d) = sc {
            insert_candidate(&mut new_cand, d);
            mult += 1;
        }
        proof {
            let p = s.subrange(0, i as int);
            let q = s.subrange(0, i + 1);
            assert(q.drop_last() =~= p);
            assert(q.last() == s[i as int]);
            assert forall|d: Candidate| new_cand@.to_set().contains(d) <==> shift_set(net, q, next).contains(d) by {
                if shift_set(net, q, next).contains(d) {
                    let w = choose|w: int| 0 <= w < q.len() && can_shift(net, #[trigger] q[w], next) && d == shifted(net, q[w], next);
                    if w < i {
                        assert(p[w] == q[w]);
                        assert(shift_set(net, p, next).contains(d));
                    }
                }
                if shift_set(net, p, next).contains(d) {
                    let w = choose|w: int| 0 <= w < p.len() && can_shift(net, #[trigger] p[w], next) && d == shifted(net, p[w], next);
                    assert(q[w] == p[w]);
                }
                if sc.is_some() && d == sc.unwrap() {
                    assert(can_shift(net, q[i as int], next));
                }
            }
            assert(new_cand@.to_set() =~= shift_set(net, q, next));
        }
        i += 1;
    }
    proof {
        assert(s.subrange(0, s.len() as int) =~= s);
    }
    (next, PilotState { id: 0, candidates: new_cand, transitions: Vec::new() }, mult)
}

/// The symbols on which the candidates of `state` have transitions, in
/// increasing order.
pub fn collect_transitions(state: &PilotState, net: &MachineNet) -> (r: Vec<char>)
    requires
        net.well_formed(),
        all_positioned(net, state.candidates@),
    ensures
        is_char_set(r@),
        r@.to_set() == outgoing(net, state.candidates@),
{
    let ghost s = state.candidates@;
    let mut res: Vec<char> = Vec::new();
    let mut i: usize = 0;
    proof {
        assert(res@.to_set() =~= outgoing(net, s.subrange(0, 0)));
    }
    while i < state.candidates.len()
        invariant
            net.well_formed(),
            all_positioned(net, s),
            s == state.candidates@,
            i <= s.len(),
            is_char_set(res@),
            res@.to_set() == outgoing(net, s.subrange(0, i as int)),
        decreases s.len() - i,
    {
        let c = &state.candidates[i];
        let mstate = net.lookup_state(c.machine, c.state);
        let ghost before = res@.to_set();
        let mut k: usize = 0;
        while k < mstate.transitions.len()
            invariant
                *mstate == cand_state(net, *c),
                k <= mstate.transitions@.len(),
                is_char_set(res@),
                res@.to_set() == before.union(
                    Set::new(|x: char| exists|q: int| 0 <= q < k && #[trigger] mstate.transitions@[q].character == x),
                ),
            decreases mstate.transitions@.len() - k,
        {
            let ghost r0 = res@.to_set();
            insert_char(&mut res, mstate.transitions[k].character);
            proof {
                assert(res@.to_set() =~= before.union(
                    Set::new(|x: char| exists|q: int| 0 <= q < k + 1 && #[trigger] mstate.transitions@[q].character == x),
                )) by {
                    assert(mstate.transitions@[k as int].character == mstate.transitions@[k as int].character);
                };
            }
            k += 1;
        }
        proof {
            let p = s.subrange(0, i as int);
            let q = s.subrange(0, i + 1);
            assert forall|x: char| res@.to_set().contains(x) <==> outgoing(net, q).contains(x) by {
                if outgoing(net, q).contains(x) {
                    let w = choose|w: int| 0 <= w < q.len() && can_shift(net, #[trigger] q[w], x);
                    if w < i {
                        assert(p[w] == q[w]);
                        assert(outgoing(net, p).contains(x));
                    } else {
                        assert(q[w] == *c);
                        let t = choose|t: int| 0 <= t < cand_state(net, *c).transitions@.len() && cand_state(net, *c).transitions@[t].character == x;
                        assert(mstate.transitions@[t].character == x);
                    }
                }
                if outgoing(net, p).contains(x) {
                    let w = choose|w: int| 0 <= w < p.len() && can_shift(net, #[trigger] p[w], x);
                    assert(q[w] == p[w]);
                }
                if res@.to_set().contains(x) && !before.contains(x) {
                    let t = choose|t: int| 0 <= t < mstate.transitions@.len() && #[trigger] mstate.transitions@[t].character == x;
                    assert(q[i as int] == *c);
                    assert(can_shift(net, q[i as int], x));
                }
            }
            assert(res@.to_set() =~= outgoing(net, q));
        }
        i += 1;
    }
    proof {
        assert(s.subrange(0, s.len() as int) =~= s);
    }
    res
}

} // verus!
