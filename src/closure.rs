//! Closure of item sets.
use vstd::prelude::*;
use vstd::set_lib::set_int_range;
use crate::bounds::{net_labels, lemma_net_labels, lemma_code_image, lemma_distinct_within, lemma_pair_code};
use crate::candidate::{Candidate, cand_state, cand_ok, contains_candidate};
use crate::charset::{char_lt, is_char_set};
use crate::followers::{spec_followers, is_label, lemma_followers_labels};
use crate::fsm::Transition;
use crate::net::MachineNet;
use crate::pilot::PilotState;

verus! {

/// `d` is the candidate that closing `c` adds through the transition `t`.
pub open spec fn generated_by(net: &MachineNet, c: Candidate, t: Transition, d: Candidate) -> bool {
    &&& t.spec_is_nonterminal()
    &&& d == Candidate {
        machine: t.character,
        state: 0,
        lookahead: d.lookahead,
        is_seed: false,
        is_final: net.spec_state(t.character, 0).is_final,
    }
    &&& spec_followers(net, c.machine, t.dest_id, set![c.lookahead]).contains(d.lookahead)
}

/// `d` is a candidate that closing `c` adds.
pub open spec fn generates(net: &MachineNet, c: Candidate, d: Candidate) -> bool {
    exists|k: int|
        0 <= k < cand_state(net, c).transitions@.len() && generated_by(
            net,
            c,
            #[trigger] cand_state(net, c).transitions@[k],
            d,
        )
}

/// Closing `s` adds nothing.
pub open spec fn is_closed(net: &MachineNet, s: Seq<Candidate>) -> bool {
    forall|i: int, d: Candidate|
        0 <= i < s.len() && #[trigger] generates(net, s[i], d) ==> s.contains(d)
}

/// `d` is what closing the candidate at `i` of `s` adds through the
/// transition `k` of its state.
pub open spec fn made_at(net: &MachineNet, s: Seq<Candidate>, i: int, k: int, d: Candidate) -> bool {
    &&& 0 <= i < s.len()
    &&& 0 <= k < cand_state(net, s[i]).transitions@.len()
    &&& generated_by(net, s[i], cand_state(net, s[i]).transitions@[k], d)
}

/// The order of closing steps: by candidate, then by transition, then by
/// lookahead.
pub open spec fn step_lt(a: (int, int, char), b: (int, int, char)) -> bool {
    a.0 < b.0 || (a.0 == b.0 && (a.1 < b.1 || (a.1 == b.1 && a.2 < b.2)))
}

/// The candidate at `j` is added by a step `(i, k)` of a candidate before
/// it, and everything that an earlier step adds stands before `j`.
#[verifier::opaque]
pub open spec fn added_in_order(net: &MachineNet, s: Seq<Candidate>, j: int) -> bool {
    exists|i: int, k: int|
        #![trigger made_at(net, s, i, k, s[j])]
        i < j && made_at(net, s, i, k, s[j]) && forall|i2: int, k2: int, d2: Candidate|
            #[trigger] made_at(net, s, i2, k2, d2) && step_lt(
                (i2, k2, d2.lookahead),
                (i, k, s[j].lookahead),
            ) ==> s.subrange(0, j).contains(d2)
}

/// `output` is `input` followed by the candidates that closing adds, each
/// added once, in the order of the steps that add them (candidates by
/// position, their transitions in order, lookaheads in increasing order),
/// until nothing more can be added.
pub open spec fn is_closure_of(net: &MachineNet, input: Seq<Candidate>, output: Seq<Candidate>) -> bool {
    &&& input.len() <= output.len()
    &&& output.subrange(0, input.len() as int) == input
    &&& is_closed(net, output)
    &&& forall|j: int|
        input.len() <= j < output.len() ==> !output.subrange(0, j).contains(#[trigger] output[j])
            && exists|i: int| 0 <= i < j && generates(net, output[i], output[j])
    &&& forall|j: int| input.len() <= j < output.len() ==> #[trigger] added_in_order(net, output, j)
}

/// Appending a candidate keeps the order of what was added before.
proof fn lemma_append_in_order(net: &MachineNet, n0: int, s: Seq<Candidate>, c2: Candidate, idx: int, k: int)
    requires
        forall|j: int| n0 <= j < s.len() ==> #[trigger] added_in_order(net, s, j),
        idx < s.len(),
        made_at(net, s, idx, k, c2),
        forall|i2: int, k2: int, d2: Candidate|
            #[trigger] made_at(net, s, i2, k2, d2) && step_lt((i2, k2, d2.lookahead), (idx, k, c2.lookahead))
                ==> s.contains(d2),
    ensures
        forall|j: int| n0 <= j < s.len() + 1 ==> #[trigger] added_in_order(net, s.push(c2), j),
{
    reveal(added_in_order);
    let t = s.push(c2);
    assert forall|j: int| n0 <= j < s.len() + 1 implies #[trigger] added_in_order(net, t, j) by {
        if j < s.len() {
            assert(added_in_order(net, s, j));
            let (i, k1) = choose|i: int, k1: int|
                #![trigger made_at(net, s, i, k1, s[j])]
                i < j && made_at(net, s, i, k1, s[j]) && forall|i2: int, k2: int, d2: Candidate|
                    #[trigger] made_at(net, s, i2, k2, d2) && step_lt(
                        (i2, k2, d2.lookahead),
                        (i, k1, s[j].lookahead),
                    ) ==> s.subrange(0, j).contains(d2);
            assert(t[i] == s[i] && t[j] == s[j]);
            assert(made_at(net, t, i, k1, t[j]));
            assert(t.subrange(0, j) =~= s.subrange(0, j));
            assert forall|i2: int, k2: int, d2: Candidate|
                #[trigger] made_at(net, t, i2, k2, d2) && step_lt((i2, k2, d2.lookahead), (i, k1, t[j].lookahead))
                    implies t.subrange(0, j).contains(d2) by {
                assert(t[i2] == s[i2]);
                assert(made_at(net, s, i2, k2, d2));
            }
        } else {
            assert(t[idx] == s[idx] && t[j] == c2);
            assert(made_at(net, t, idx, k, t[j]));
            assert(t.subrange(0, j) =~= s);
            assert forall|i2: int, k2: int, d2: Candidate|
                #[trigger] made_at(net, t, i2, k2, d2) && step_lt((i2, k2, d2.lookahead), (idx, k, t[j].lookahead))
                    implies t.subrange(0, j).contains(d2) by {
                assert(t[i2] == s[i2]);
                assert(made_at(net, s, i2, k2, d2));
            }
        }
    }
}

pub open spec fn all_positioned(net: &MachineNet, s: Seq<Candidate>) -> bool {
    forall|i: int| 0 <= i < s.len() ==> net.has_position(#[trigger] s[i].machine, s[i].state)
}

pub open spec fn all_ok(net: &MachineNet, s: Seq<Candidate>) -> bool {
    forall|i: int| 0 <= i < s.len() ==> cand_ok(net, #[trigger] s[i])
}

/// The candidate of code `code` among the initial candidates over the
/// lookaheads `la`.
pub open spec fn initial_of_code(net: &MachineNet, la: Seq<char>, code: int) -> Candidate {
    let x = net.machines@[code / (la.len() as int)].name;
    Candidate {
        machine: x,
        state: 0,
        lookahead: la[code % (la.len() as int)],
        is_seed: false,
        is_final: net.spec_state(x, 0).is_final,
    }
}

/// Every initial candidate over the lookaheads `la`.
pub open spec fn initial_universe(net: &MachineNet, la: Seq<char>) -> Set<Candidate> {
    set_int_range(0, (net.machines@.len() * la.len()) as int).map(|code: int| initial_of_code(net, la, code))
}

spec fn closure_inv(
    net: &MachineNet,
    input: Seq<Candidate>,
    s: Seq<Candidate>,
    la: Seq<char>,
) -> bool {
    &&& net.well_formed()
    &&& input.len() <= s.len()
    &&& s.subrange(0, input.len() as int) == input
    &&& all_positioned(net, s)
    &&& forall|i: int| 0 <= i < s.len() ==> la.contains(#[trigger] s[i].lookahead)
    &&& forall|j: int|
        input.len() <= j < s.len() ==> !s.subrange(0, j).contains(#[trigger] s[j]) && (exists|i: int|
            0 <= i < j && generates(net, s[i], s[j])) && cand_ok(net, s[j]) && initial_universe(net, la).contains(s[j])
    &&& forall|j: int| input.len() <= j < s.len() ==> #[trigger] added_in_order(net, s, j)
}

proof fn lemma_appended_bound(net: &MachineNet, input: Seq<Candidate>, s: Seq<Candidate>, la: Seq<char>)
    requires
        closure_inv(net, input, s, la),
    ensures
        s.len() - input.len() <= net.machines@.len() * la.len(),
{
    let f = |code: int| initial_of_code(net, la, code);
    let n: int = (net.machines@.len() * la.len()) as int;
    assert(n >= 0) by (nonlinear_arith)
        requires n == net.machines@.len() * la.len();
    lemma_code_image(n, f);
    let tail = s.subrange(input.len() as int, s.len() as int);
    assert forall|a: int, b: int| 0 <= a < b < tail.len() implies tail[a] != tail[b] by {
        let j = b + input.len();
        assert(s[j] == tail[b]);
        assert(s.subrange(0, j)[a + input.len()] == tail[a]);
    }
    assert forall|i: int| 0 <= i < tail.len() implies set_int_range(0, n).map(f).contains(
        #[trigger] tail[i],
    ) by {
        assert(tail[i] == s[i + input.len()]);
    }
    lemma_distinct_within(tail, set_int_range(0, n).map(f));
}

/// Closing is idempotent: closing the closure of an item set yields the
/// same candidate sequence again.
pub proof fn lemma_closure_idempotent(
    net: &MachineNet,
    input: Seq<Candidate>,
    once: Seq<Candidate>,
    twice: Seq<Candidate>,
)
    requires
        is_closure_of(net, input, once),
        is_closure_of(net, once, twice),
    ensures
        twice == once,
{
    if twice.len() > once.len() {
        let j = once.len() as int;
        assert(!twice.subrange(0, j).contains(twice[j]));
        let i = choose|i: int| 0 <= i < j && generates(net, twice[i], twice[j]);
        assert(twice[i] == once[i]);
        assert(once.contains(twice[j]));
    }
    assert(twice =~= twice.subrange(0, once.len() as int));
}

proof fn lemma_closure_step_unique(
    net: &MachineNet,
    input: Seq<Candidate>,
    o1: Seq<Candidate>,
    o2: Seq<Candidate>,
    j: int,
)
    requires
        is_closure_of(net, input, o1),
        is_closure_of(net, input, o2),
        input.len() <= j < o1.len(),
        j <= o2.len(),
        o1.take(j) == o2.take(j),
    ensures
        j < o2.len(),
        o1[j] == o2[j],
{
    reveal(added_in_order);
    assert(added_in_order(net, o1, j));
    let (i1, k1) = choose|i: int, k: int|
        #![trigger made_at(net, o1, i, k, o1[j])]
        i < j && made_at(net, o1, i, k, o1[j]) && forall|i2: int, k2: int, d2: Candidate|
            #[trigger] made_at(net, o1, i2, k2, d2) && step_lt((i2, k2, d2.lookahead), (i, k, o1[j].lookahead))
                ==> o1.subrange(0, j).contains(d2);
    assert(o1.take(j)[i1] == o1[i1]);
    assert(o2[i1] == o1[i1]);
    if j == o2.len() {
        assert(generates(net, o2[i1], o1[j]));
        assert(o2.contains(o1[j]));
        assert(o2 =~= o1.take(j));
        assert(o1.subrange(0, j) =~= o1.take(j));
    } else {
        assert(added_in_order(net, o2, j));
        let (i2, k2) = choose|i: int, k: int|
            #![trigger made_at(net, o2, i, k, o2[j])]
            i < j && made_at(net, o2, i, k, o2[j]) && forall|i3: int, k3: int, d3: Candidate|
                #[trigger] made_at(net, o2, i3, k3, d3) && step_lt((i3, k3, d3.lookahead), (i, k, o2[j].lookahead))
                    ==> o2.subrange(0, j).contains(d3);
        assert(o1.take(j)[i2] == o1[i2]);
        assert(o2[i2] == o1[i2]);
        assert(made_at(net, o2, i1, k1, o1[j]));
        assert(made_at(net, o1, i2, k2, o2[j]));
        assert(o1.subrange(0, j) =~= o2.subrange(0, j));
        if step_lt((i2, k2, o2[j].lookahead), (i1, k1, o1[j].lookahead)) {
            assert(o1.subrange(0, j).contains(o2[j]));
        } else if step_lt((i1, k1, o1[j].lookahead), (i2, k2, o2[j].lookahead)) {
            assert(o2.subrange(0, j).contains(o1[j]));
        }
    }
}

proof fn lemma_closure_from(net: &MachineNet, input: Seq<Candidate>, o1: Seq<Candidate>, o2: Seq<Candidate>, j: int)
    requires
        is_closure_of(net, input, o1),
        is_closure_of(net, input, o2),
        input.len() <= j <= o1.len(),
        j <= o2.len(),
        o1.take(j) == o2.take(j),
    ensures
        o1 == o2,
    decreases o1.len() + o2.len() - 2 * j,
{
    if j < o1.len() {
        lemma_closure_step_unique(net, input, o1, o2, j);
        assert(o1.take(j + 1) =~= o1.take(j).push(o1[j]));
        assert(o2.take(j + 1) =~= o2.take(j).push(o2[j]));
        lemma_closure_from(net, input, o1, o2, j + 1);
    } else if j < o2.len() {
        lemma_closure_step_unique(net, input, o2, o1, j);
    } else {
        assert(o1 =~= o1.take(j));
        assert(o2 =~= o2.take(j));
    }
}

/// Closing has one result: two closures of the same item set are the same
/// candidate sequence.
pub proof fn lemma_closure_unique(net: &MachineNet, input: Seq<Candidate>, o1: Seq<Candidate>, o2: Seq<Candidate>)
    requires
        is_closure_of(net, input, o1),
        is_closure_of(net, input, o2),
    ensures
        o1 == o2,
{
    let n0 = input.len() as int;
    assert(o1.take(n0) =~= o1.subrange(0, n0));
    assert(o2.take(n0) =~= o2.subrange(0, n0));
    lemma_closure_from(net, input, o1, o2, n0);
}

/// Adds to `state` the candidates that its candidates call for, until none
/// is missing. Seeds and the candidates already there are kept in place.
pub fn closure(state: &mut PilotState, net: &MachineNet)
    requires
        net.well_formed(),
        all_positioned(net, old(state).candidates@),
    ensures
        is_closure_of(net, old(state).candidates@, final(state).candidates@),
        all_positioned(net, final(state).candidates@),
        all_ok(net, old(state).candidates@) ==> all_ok(net, final(state).candidates@),
        forall|i: int|
            0 <= i < final(state).candidates@.len() ==> (net_labels(net.machines@)
                + old(state).candidates@.map_values(|c: Candidate| c.lookahead)).contains(
                #[trigger] final(state).candidates@[i].lookahead,
            ),
        final(state).id == old(state).id,
        final(state).transitions@ == old(state).transitions@,
{
    let ghost input = state.candidates@;
    let ghost la = net_labels(net.machines@) + input.map_values(|c: Candidate| c.lookahead);
    let ghost n: int = (net.machines@.len() * la.len()) as int;
    let ghost f = |code: int| initial_of_code(net, la, code);
    proof {
        assert forall|i: int| 0 <= i < input.len() implies la.contains(#[trigger] input[i].lookahead) by {
            assert(la[net_labels(net.machines@).len() + i] == input[i].lookahead);
        }
        assert(input.subrange(0, input.len() as int) == input);
    }
    let mut idx: usize = 0;
    while idx < state.candidates.len()
        invariant
            closure_inv(net, input, state.candidates@, la),
            idx <= state.candidates@.len(),
            state.id == old(state).id,
            state.transitions@ == old(state).transitions@,
            input == old(state).candidates@,
            la == net_labels(net.machines@) + input.map_values(|c: Candidate| c.lookahead),
            n == net.machines@.len() * la.len(),
            f == (|code: int| initial_of_code(net, la, code)),
            forall|i: int, d: Candidate|
                0 <= i < idx && #[trigger] generates(net, state.candidates@[i], d)
                    ==> state.candidates@.contains(d),
        decreases n - (state.candidates@.len() - input.len()) + 0, state.candidates@.len() - idx,
    {
        let c = state.candidates[idx];
        let mstate = net.lookup_state(c.machine, c.state);
        proof {
            net.lemma_position(c.machine, c.state);
            lemma_appended_bound(net, input, state.candidates@, la);
        }
        let ghost len0 = state.candidates@.len();
        let mut k: usize = 0;
        while k < mstate.transitions.len()
            invariant
                closure_inv(net, input, state.candidates@, la),
                idx < state.candidates@.len(),
                len0 <= state.candidates@.len(),
                state.candidates@[idx as int] == c,
                *mstate == cand_state(net, c),
                k <= mstate.transitions@.len(),
                state.id == old(state).id,
                state.transitions@ == old(state).transitions@,
                la == net_labels(net.machines@) + input.map_values(|c: Candidate| c.lookahead),
                n == net.machines@.len() * la.len(),
                f == (|code: int| initial_of_code(net, la, code)),
                forall|q: int|
                    0 <= q < mstate.transitions@.len() ==> net.transition_ok(
                        net.spec_machine(c.machine),
                        #[trigger] mstate.transitions@[q],
                    ),
                forall|i: int, d: Candidate|
                    0 <= i < idx && #[trigger] generates(net, state.candidates@[i], d)
                        ==> state.candidates@.contains(d),
                forall|q: int, d: Candidate|
                    0 <= q < k && #[trigger] generated_by(net, c, mstate.transitions@[q], d)
                        ==> state.candidates@.contains(d),
            decreases mstate.transitions@.len() - k,
        {
            let t = mstate.transitions[k];
            if t.is_nonterminal() {
                let next = vec![c.lookahead];
                proof {
                    assert(next@.to_set() =~= set![c.lookahead]) by {
                        assert(next@[0] == c.lookahead);
                    }
                    assert(net.transition_ok(net.spec_machine(c.machine), t));
                    net.lemma_initial_position(t.character);
                    lemma_followers_labels(net, c.machine, t.dest_id, set![c.lookahead]);
                }
                let ini = net.followers(c.machine, t.dest_id, &next);
                let dest_state = net.lookup_state(t.character, 0);
                let mut q: usize = 0;
                while q < ini.len()
                    invariant
                        closure_inv(net, input, state.candidates@, la),
                        idx < state.candidates@.len(),
                        len0 <= state.candidates@.len(),
                        state.candidates@[idx as int] == c,
                        *mstate == cand_state(net, c),
                        k < mstate.transitions@.len(),
                        t == mstate.transitions@[k as int],
                        t.spec_is_nonterminal(),
                        net.has_position(t.character, 0),
                        net.is_first_machine(t.character, net.machine_pos(t.character)),
                        *dest_state == net.spec_state(t.character, 0),
                        ini@.to_set() == spec_followers(net, c.machine, t.dest_id, set![c.lookahead]),
                        is_char_set(ini@),
                        forall|ch: char|
                            #[trigger] spec_followers(net, c.machine, t.dest_id, set![c.lookahead]).contains(ch)
                                ==> is_label(net, ch) || set![c.lookahead].contains(ch),
                        q <= ini@.len(),
                        state.id == old(state).id,
                        state.transitions@ == old(state).transitions@,
                        la == net_labels(net.machines@) + input.map_values(|c: Candidate| c.lookahead),
                        n == net.machines@.len() * la.len(),
                        f == (|code: int| initial_of_code(net, la, code)),
                        forall|i: int, d: Candidate|
                            0 <= i < idx && #[trigger] generates(net, state.candidates@[i], d)
                                ==> state.candidates@.contains(d),
                        forall|p: int, d: Candidate|
                            0 <= p < k && #[trigger] generated_by(net, c, mstate.transitions@[p], d)
                                ==> state.candidates@.contains(d),
                        forall|r: int|
                            0 <= r < q ==> state.candidates@.contains(
                                Candidate {
                                    machine: t.character,
                                    state: 0,
                                    lookahead: #[trigger] ini@[r],
                                    is_seed: false,
                                    is_final: net.spec_state(t.character, 0).is_final,
                                },
                            ),
                    decreases ini@.len() - q,
                {
                    let c2 = Candidate {
                        machine: t.character,
                        state: 0,
                        lookahead: ini[q],
                        is_seed: false,
                        is_final: dest_state.is_final,
                    };
                    if !contains_candidate(&state.candidates, &c2) {
                        let ghost before = state.candidates@;
                        proof {
                            assert(ini@.to_set().contains(ini@[q as int]));
                            assert(generated_by(net, c, t, c2));
                            assert(generates(net, c, c2));
                            // the code of the new candidate
                            let mi = net.machine_pos(t.character);
                            let ch = c2.lookahead;
                            let li: int = if is_label(net, ch) {
                                let (i, j, kk) = choose|i: int, j: int, kk: int|
                                    0 <= i < net.machines@.len() && 0 <= j < net.machines@[i].states@.len()
                                        && 0 <= kk < net.machines@[i].states@[j].transitions@.len()
                                        && #[trigger] net.machines@[i].states@[j].transitions@[kk].character == ch;
                                lemma_net_labels(net.machines@, i, j, kk);
                                let w = choose|w: int| 0 <= w < net_labels(net.machines@).len() && net_labels(net.machines@)[w] == ch;
                                assert(la[w] == ch);
                                w
                            } else {
                                assert(ch == c.lookahead);
                                assert(la.contains(state.candidates@[idx as int].lookahead));
                                choose|w: int| 0 <= w < la.len() && la[w] == ch
                            };
                            lemma_pair_code(mi, li, net.machines@.len() as int, la.len() as int);
                            let code = mi * la.len() + li;
                            assert(f(code) == c2);
                            assert(set_int_range(0, n).contains(code));
                            assert(set_int_range(0, n).map(f).contains(c2));
                        }
                        proof {
                            let s = before;
                            assert(made_at(net, s, idx as int, k as int, c2));
                            assert forall|i2: int, k2: int, d2: Candidate|
                                #[trigger] made_at(net, s, i2, k2, d2) && step_lt(
                                    (i2, k2, d2.lookahead),
                                    (idx as int, k as int, c2.lookahead),
                                ) implies s.contains(d2) by {
                                if i2 < idx {
                                    assert(generates(net, s[i2], d2));
                                } else if k2 < k {
                                    assert(generated_by(net, c, mstate.transitions@[k2], d2));
                                } else {
                                    assert(ini@.to_set().contains(d2.lookahead));
                                    let r = choose|r: int| 0 <= r < ini@.len() && ini@[r] == d2.lookahead;
                                    if r >= q {
                                        if r > q {
                                            assert(char_lt(ini@[q as int], ini@[r]));
                                        }
                                    }
                                    assert(r < q);
                                    assert(d2 == Candidate {
                                        machine: t.character,
                                        state: 0,
                                        lookahead: ini@[r],
                                        is_seed: false,
                                        is_final: net.spec_state(t.character, 0).is_final,
                                    });
                                }
                            }
                            lemma_append_in_order(net, input.len() as int, s, c2, idx as int, k as int);
                        }
                        state.candidates.push(c2);
                        proof {
                            let s = state.candidates@;
                            assert(s.subrange(0, input.len() as int) =~= before.subrange(0, input.len() as int));
                            assert(s.subrange(0, before.len() as int) =~= before);
                            assert forall|j: int|
                                input.len() <= j < s.len() implies !s.subrange(0, j).contains(#[trigger] s[j])
                                    && (exists|i: int| 0 <= i < j && generates(net, s[i], s[j]))
                                    && cand_ok(net, s[j]) && initial_universe(net, la).contains(s[j]) by {
                                if j < before.len() {
                                    assert(s.subrange(0, j) =~= before.subrange(0, j));
                                    let i = choose|i: int| 0 <= i < j && generates(net, before[i], before[j]);
                                    assert(generates(net, s[i], s[j]));
                                } else {
                                    assert(s.subrange(0, j) =~= before);
                                    assert(generates(net, s[idx as int], s[j]));
                                    assert(f == (|code: int| initial_of_code(net, la, code)));
                                }
                            }
                            assert forall|i: int, d: Candidate|
                                0 <= i < idx && #[trigger] generates(net, s[i], d) implies s.contains(d) by {
                                assert(generates(net, before[i], d));
                                let w = choose|w: int| 0 <= w < before.len() && before[w] == d;
                                assert(s[w] == d);
                            }
                            assert forall|p: int, d: Candidate|
                                0 <= p < k && #[trigger] generated_by(net, c, mstate.transitions@[p], d) implies s.contains(d) by {
                                let w = choose|w: int| 0 <= w < before.len() && before[w] == d;
                                assert(s[w] == d);
                            }
                            assert forall|r: int| 0 <= r <= q implies s.contains(
                                Candidate {
                                    machine: t.character,
                                    state: 0,
                                    lookahead: #[trigger] ini@[r],
                                    is_seed: false,
                                    is_final: net.spec_state(t.character, 0).is_final,
                                },
                            ) by {
                                if r < q {
                                    let d = Candidate {
                                        machine: t.character,
                                        state: 0,
                                        lookahead: ini@[r],
                                        is_seed: false,
                                        is_final: net.spec_state(t.character, 0).is_final,
                                    };
                                    let w = choose|w: int| 0 <= w < before.len() && before[w] == d;
                                    assert(s[w] == d);
                                } else {
                                    assert(s[before.len() as int] == c2);
                                }
                            }
                        }
                    }
                    q += 1;
                }
                proof {
                    assert forall|p: int, d: Candidate|
                        0 <= p < k + 1 && #[trigger] generated_by(net, c, mstate.transitions@[p], d)
                            implies state.candidates@.contains(d) by {
                        if p == k {
                            assert(ini@.to_set().contains(d.lookahead));
                            let r = choose|r: int| 0 <= r < ini@.len() && ini@[r] == d.lookahead;
                            assert(state.candidates@.contains(
                                Candidate {
                                    machine: t.character,
                                    state: 0,
                                    lookahead: ini@[r],
                                    is_seed: false,
                                    is_final: net.spec_state(t.character, 0).is_final,
                                },
                            ));
                        }
                    }
                }
            }
            k += 1;
        }
        proof {
            assert forall|i: int, d: Candidate|
                0 <= i < idx + 1 && #[trigger] generates(net, state.candidates@[i], d)
                    implies state.candidates@.contains(d) by {
                if i == idx {
                    let p = choose|p: int|
                        0 <= p < cand_state(net, c).transitions@.len() && generated_by(
                            net,
                            c,
                            #[trigger] cand_state(net, c).transitions@[p],
                            d,
                        );
                }
            }
        }
        idx += 1;
        proof {
            lemma_appended_bound(net, input, state.candidates@, la);
        }
    }
    proof {
        let s = state.candidates@;
        assert forall|i: int| 0 <= i < s.len() implies cand_ok(net, #[trigger] s[i]) || i < input.len() by {}
        if all_ok(net, input) {
            assert forall|i: int| 0 <= i < s.len() implies cand_ok(net, #[trigger] s[i]) by {
                if i < input.len() {
                    assert(s[i] == s.subrange(0, input.len() as int)[i]);
                }
            }
        }
    }
}

} // verus!
