//! Pilot states, pilots and their construction.
use vstd::prelude::*;
use vstd::set_lib::set_int_range;
use crate::bounds::{net_labels, net_positions, lemma_net_positions, lemma_pair_code, lemma_code_image, lemma_subsets_bound, pow2};
use crate::candidate::{Candidate, is_cand_set, contains_candidate, cand_ok, cand_state, can_shift, shifted, is_first_on, lemma_first_on};
use crate::charset::is_char_set;
use crate::closure::{closure, is_closure_of, all_positioned, all_ok, generates, generated_by};
use crate::net::MachineNet;
use crate::conflicts::targets_exist;
use crate::shift::{outgoing, shift_set, shift_count, shift, collect_transitions};

verus! {

/// A shift of a pilot state on `character` towards the state `dest_id`;
/// `multiplicity` counts the candidates that shifted, before duplicates merged.
#[derive(Debug, Clone, Copy, PartialEq, Eq, Hash, Structural)]
pub struct PilotTransition {
    pub character: char,
    pub dest_id: usize,
    pub multiplicity: usize,
}

/// A state of the pilot: an item set and its outgoing transitions.
#[derive(Debug, Clone)]
pub struct PilotState {
    pub id: usize,
    pub candidates: Vec<Candidate>,
    pub transitions: Vec<PilotTransition>,
}

/// The pilot automaton; its state at index 0 is the initial one.
#[derive(Debug)]
pub struct Pilot {
    pub states: Vec<PilotState>,
}

/// The seed candidates of `s`, as a set.
pub open spec fn seeds_of(s: Seq<Candidate>) -> Set<Candidate> {
    Set::new(|c: Candidate| s.contains(c) && c.is_seed)
}

pub open spec fn seed_filter(s: Seq<Candidate>) -> Seq<Candidate> {
    s.filter(|c: Candidate| c.is_seed)
}

impl PilotState {
    /// The seed candidates, in the order in which they stand.
    pub fn seeds(&self) -> (r: Vec<Candidate>)
        ensures
            r@ == seed_filter(self.candidates@),
            r@.to_set() == seeds_of(self.candidates@),
    {
        let ghost s = self.candidates@;
        let mut res: Vec<Candidate> = Vec::new();
        let mut i: usize = 0;
        proof {
            reveal(Seq::filter);
            assert(seed_filter(s.subrange(0, 0)) =~= Seq::empty());
        }
        while i < self.candidates.len()
            invariant
                s == self.candidates@,
                i <= s.len(),
                res@ == seed_filter(s.subrange(0, i as int)),
            decreases s.len() - i,
        {
            let c = self.candidates[i];
            if c.is_seed {
                res.push(c);
            }
            proof {
                reveal(Seq::filter);
                assert(s.subrange(0, i + 1).drop_last() =~= s.subrange(0, i as int));
            }
            i += 1;
        }
        proof {
            assert(s.subrange(0, s.len() as int) =~= s);
            reveal(Seq::filter);
            assert forall|c: Candidate| res@.contains(c) <==> seeds_of(s).contains(c) by {
                if res@.contains(c) {
                    let j = choose|j: int| 0 <= j < res@.len() && res@[j] == c;
                    s.lemma_filter_pred(|c: Candidate| c.is_seed, j);
                    s.lemma_filter_contains_rev(|c: Candidate| c.is_seed, c);
                }
                if seeds_of(s).contains(c) {
                    let j = choose|j: int| 0 <= j < s.len() && s[j] == c;
                    s.lemma_filter_contains(|c: Candidate| c.is_seed, j);
                }
            }
            assert(res@.to_set() =~= seeds_of(s));
        }
        res
    }

    /// Two pilot states are equivalent when they hold the same seeds.
    pub fn is_equivalent(&self, other: &PilotState) -> (r: bool)
        ensures
            r == (seeds_of(self.candidates@) == seeds_of(other.candidates@)),
    {
        let a = seeds_within(&self.candidates, &other.candidates);
        let b = seeds_within(&other.candidates, &self.candidates);
        proof {
            if a && b {
                assert(seeds_of(self.candidates@) =~= seeds_of(other.candidates@));
            }
        }
        a && b
    }
}

/// The lookaheads that candidates of a pilot may carry: the labels of the
/// network and the end-of-input marker.
pub open spec fn alphabet(net: &MachineNet) -> Seq<char> {
    net_labels(net.machines@).push('$')
}

/// The candidate that the initial pilot state is the closure of.
pub open spec fn initial_candidate(net: &MachineNet) -> Candidate {
    Candidate {
        machine: 'S',
        state: 0,
        lookahead: '$',
        is_seed: false,
        is_final: net.spec_state('S', 0).is_final,
    }
}

/// The state at `i` holds the closure of its seeds (of the initial
/// candidate, for the state 0), each candidate consistent with the network.
pub open spec fn state_built(net: &MachineNet, st: PilotState, i: int) -> bool {
    &&& st.id == i
    &&& all_ok(net, st.candidates@)
    &&& forall|k: int|
        0 <= k < st.candidates@.len() ==> alphabet(net).contains(
            #[trigger] st.candidates@[k].lookahead,
        )
    &&& i == 0 ==> is_closure_of(net, seq![initial_candidate(net)], st.candidates@)
    &&& i != 0 ==> exists|n: int|
        0 < n <= st.candidates@.len() && is_cand_set(st.candidates@.subrange(0, n)) && (forall|j: int|
            0 <= j < n ==> (#[trigger] st.candidates@[j]).is_seed) && is_closure_of(
            net,
            st.candidates@.subrange(0, n),
            st.candidates@,
        )
}

/// The transitions of the state at `i`: one for each symbol on which its
/// candidates shift, in increasing order of symbol, each towards the state
/// whose seeds that shift produces, with the count of shifting candidates.
pub open spec fn transitions_built(net: &MachineNet, states: Seq<PilotState>, i: int) -> bool {
    let st = states[i];
    let ts = st.transitions@;
    &&& forall|a: int, b: int| 0 <= a < b < ts.len() ==> (#[trigger] ts[a]).character < (#[trigger] ts[b]).character
    &&& forall|x: char|
        #[trigger] outgoing(net, st.candidates@).contains(x) <==> exists|q: int|
            0 <= q < ts.len() && (#[trigger] ts[q]).character == x
    &&& forall|q: int|
        0 <= q < ts.len() ==> (#[trigger] ts[q]).dest_id < states.len() && seeds_of(
            states[ts[q].dest_id as int].candidates@,
        ) == shift_set(net, st.candidates@, ts[q].character) && ts[q].multiplicity == shift_count(
            net,
            st.candidates@,
            ts[q].character,
        )
}

/// No two states hold the same seeds.
pub open spec fn distinct_seeds(states: Seq<PilotState>) -> bool {
    forall|a: int, b: int|
        0 <= a < states.len() && 0 <= b < states.len() && a != b ==> seeds_of(
            (#[trigger] states[a]).candidates@,
        ) != seeds_of((#[trigger] states[b]).candidates@)
}

/// `states` is a pilot of `net` whose states before `done` have their
/// transitions and whose other states have none yet.
pub open spec fn pilot_inv(net: &MachineNet, states: Seq<PilotState>, done: int) -> bool {
    &&& 0 < states.len()
    &&& 0 <= done <= states.len()
    &&& distinct_seeds(states)
    &&& forall|j: int| 0 <= j < states.len() ==> state_built(net, #[trigger] states[j], j)
    &&& forall|j: int| 0 <= j < done ==> transitions_built(net, states, j)
    &&& forall|j: int| done <= j < states.len() ==> (#[trigger] states[j]).transitions@.len() == 0
}

/// A transition of a state before `bound`, and before `j`, leads to `j`.
pub open spec fn reached_before(states: Seq<PilotState>, j: int, bound: int) -> bool {
    exists|s: int, q: int|
        0 <= s < j && s < bound && 0 <= q < states[s].transitions@.len()
            && (#[trigger] states[s].transitions@[q]).dest_id == j
}

/// Every state after the first is reached from a state before it, among
/// the states before `done` or, past `done`, by a transition in `pending`.
pub open spec fn discovered(states: Seq<PilotState>, done: int, pending: Seq<PilotTransition>) -> bool {
    forall|j: int|
        1 <= j < states.len() ==> #[trigger] reached_before(states, j, done) || (done < j && exists|p: int|
            0 <= p < pending.len() && (#[trigger] pending[p]).dest_id == j)
}

/// The pilot of `net`: every state built, with its transitions, no two
/// states with the same seeds, and every state after the first reached by
/// a transition of a state before it, the states numbered in the order in
/// which transitions, taken state by state, first reach them.
pub open spec fn is_pilot_of(net: &MachineNet, states: Seq<PilotState>) -> bool {
    &&& pilot_inv(net, states, states.len() as int)
    &&& forall|j: int| 1 <= j < states.len() ==> #[trigger] reached_before(states, j, j)
    &&& numbered_in_order(states, states.len() as int)
}

/// A transition before the transition `q` of the state `s`, in the order of
/// states and then of transitions, leads to `j`.
pub open spec fn referenced_before(states: Seq<PilotState>, j: int, s: int, q: int) -> bool {
    exists|s2: int, q2: int|
        0 <= s2 < states.len() && 0 <= q2 < states[s2].transitions@.len() && (s2 < s || (s2 == s && q2
            < q)) && (#[trigger] states[s2].transitions@[q2]).dest_id == j
}

/// States are numbered in the order in which they are discovered: for the
/// target of any transition of a state before `done`, every smaller number
/// but 0 is the target of an earlier transition.
pub open spec fn numbered_in_order(states: Seq<PilotState>, done: int) -> bool {
    forall|s: int, q: int, j: int|
        0 <= s < done && s < states.len() && 0 <= q < states[s].transitions@.len() && 1 <= j
            < states[s].transitions@[q].dest_id ==> #[trigger] referenced_before(states, j, s, q)
}

/// The transitions in `pending`, of the state `i`, keep the order of
/// discovery.
pub open spec fn pending_ref(states: Seq<PilotState>, i: int, pending: Seq<PilotTransition>, j: int, p: int) -> bool {
    reached_before(states, j, i) || exists|p2: int| 0 <= p2 < p && (#[trigger] pending[p2]).dest_id == j
}

pub open spec fn pending_in_order(states: Seq<PilotState>, i: int, pending: Seq<PilotTransition>) -> bool {
    forall|p: int, j: int|
        0 <= p < pending.len() && 1 <= j < pending[p].dest_id ==> #[trigger] pending_ref(states, i, pending, j, p)
}

proof fn lemma_order_step(
    old_states: Seq<PilotState>,
    new_states: Seq<PilotState>,
    i: int,
    pending: Seq<PilotTransition>,
    t: PilotTransition,
)
    requires
        numbered_in_order(old_states, i),
        pending_in_order(old_states, i, pending),
        discovered(old_states, i, pending),
        0 <= i < old_states.len() <= new_states.len(),
        new_states.subrange(0, old_states.len() as int) == old_states,
        t.dest_id <= old_states.len(),
    ensures
        numbered_in_order(new_states, i),
        pending_in_order(new_states, i, pending.push(t)),
{
    assert forall|k: int| 0 <= k < old_states.len() implies new_states[k] == old_states[k] by {
        assert(new_states.subrange(0, old_states.len() as int)[k] == new_states[k]);
    }
    assert forall|s: int, q: int, j: int|
        0 <= s < i && s < new_states.len() && 0 <= q < new_states[s].transitions@.len() && 1 <= j
            < new_states[s].transitions@[q].dest_id implies #[trigger] referenced_before(new_states, j, s, q) by {
        assert(new_states[s] == old_states[s]);
        assert(referenced_before(old_states, j, s, q));
        let (s2, q2) = choose|s2: int, q2: int|
            0 <= s2 < old_states.len() && 0 <= q2 < old_states[s2].transitions@.len() && (s2 < s || (s2
                == s && q2 < q)) && (#[trigger] old_states[s2].transitions@[q2]).dest_id == j;
        assert(new_states[s2] == old_states[s2]);
    }
    let p2 = pending.push(t);
    assert forall|p: int, j: int|
        0 <= p < p2.len() && 1 <= j < p2[p].dest_id implies #[trigger] pending_ref(new_states, i, p2, j, p) by {
        let from_old = if p < pending.len() {
            assert(pending_ref(old_states, i, pending, j, p));
            reached_before(old_states, j, i)
        } else {
            assert(discovered(old_states, i, pending));
            assert(1 <= j < old_states.len());
            assert(reached_before(old_states, j, i) || (i < j && exists|p3: int|
                0 <= p3 < pending.len() && (#[trigger] pending[p3]).dest_id == j));
            reached_before(old_states, j, i)
        };
        if from_old {
            let (s2, q2) = choose|s2: int, q2: int|
                0 <= s2 < j && s2 < i && 0 <= q2 < old_states[s2].transitions@.len()
                    && (#[trigger] old_states[s2].transitions@[q2]).dest_id == j;
            assert(new_states[s2] == old_states[s2]);
            assert(reached_before(new_states, j, i));
        } else {
            let p3 = choose|p3: int| 0 <= p3 < p && p3 < pending.len() && (#[trigger] pending[p3]).dest_id == j;
            assert(p2[p3] == pending[p3]);
        }
    }
}

proof fn lemma_order_assign(states: Seq<PilotState>, i: int, st: PilotState)
    requires
        numbered_in_order(states, i),
        pending_in_order(states, i, st.transitions@),
        0 <= i < states.len(),
    ensures
        numbered_in_order(states.update(i, st), i + 1),
{
    let s2 = states.update(i, st);
    assert forall|s: int, q: int, j: int|
        0 <= s < i + 1 && s < s2.len() && 0 <= q < s2[s].transitions@.len() && 1 <= j
            < s2[s].transitions@[q].dest_id implies #[trigger] referenced_before(s2, j, s, q) by {
        if s < i {
            assert(referenced_before(states, j, s, q));
            let (a, b) = choose|a: int, b: int|
                0 <= a < states.len() && 0 <= b < states[a].transitions@.len() && (a < s || (a == s && b
                    < q)) && (#[trigger] states[a].transitions@[b]).dest_id == j;
            assert(s2[a] == states[a]);
        } else {
            assert(pending_ref(states, i, st.transitions@, j, q));
            if reached_before(states, j, i) {
                let (a, b) = choose|a: int, b: int|
                    0 <= a < j && a < i && 0 <= b < states[a].transitions@.len()
                        && (#[trigger] states[a].transitions@[b]).dest_id == j;
                assert(s2[a] == states[a]);
            } else {
                let b = choose|b: int| 0 <= b < q && (#[trigger] st.transitions@[b]).dest_id == j;
                assert(s2[i].transitions@[b].dest_id == j);
            }
        }
    }
}

proof fn lemma_discovered_push(states: Seq<PilotState>, done: int, pending: Seq<PilotTransition>, st: PilotState, t: PilotTransition)
    requires
        discovered(states, done, pending),
        0 <= done < states.len(),
        t.dest_id == states.len(),
    ensures
        discovered(states.push(st), done, pending.push(t)),
{
    let s2 = states.push(st);
    let p2 = pending.push(t);
    assert forall|j: int| 1 <= j < s2.len() implies #[trigger] reached_before(s2, j, done) || (done < j && exists|p: int|
        0 <= p < p2.len() && (#[trigger] p2[p]).dest_id == j) by {
        if j < states.len() {
            if reached_before(states, j, done) {
                let (s, q) = choose|s: int, q: int|
                    0 <= s < j && s < done && 0 <= q < states[s].transitions@.len()
                        && (#[trigger] states[s].transitions@[q]).dest_id == j;
                assert(s2[s] == states[s]);
                assert(reached_before(s2, j, done));
            } else {
                let p = choose|p: int| 0 <= p < pending.len() && (#[trigger] pending[p]).dest_id == j;
                assert(p2[p] == pending[p]);
            }
        } else {
            assert(p2[pending.len() as int] == t);
        }
    }
}

proof fn lemma_discovered_pending(states: Seq<PilotState>, done: int, pending: Seq<PilotTransition>, t: PilotTransition)
    requires
        discovered(states, done, pending),
    ensures
        discovered(states, done, pending.push(t)),
{
    let p2 = pending.push(t);
    assert forall|j: int| 1 <= j < states.len() implies #[trigger] reached_before(states, j, done) || (done < j && exists|p: int|
        0 <= p < p2.len() && (#[trigger] p2[p]).dest_id == j) by {
        if !reached_before(states, j, done) {
            let p = choose|p: int| 0 <= p < pending.len() && (#[trigger] pending[p]).dest_id == j;
            assert(p2[p] == pending[p]);
        }
    }
}

proof fn lemma_discovered_assign(states: Seq<PilotState>, i: int, st: PilotState)
    requires
        discovered(states, i, st.transitions@),
        0 <= i < states.len(),
    ensures
        discovered(states.update(i, st), i + 1, Seq::empty()),
{
    let s2 = states.update(i, st);
    assert forall|j: int| 1 <= j < s2.len() implies #[trigger] reached_before(s2, j, i + 1) || (i + 1 < j && exists|p: int|
        0 <= p < Seq::<PilotTransition>::empty().len() && (#[trigger] Seq::<PilotTransition>::empty()[p]).dest_id == j) by {
        if reached_before(states, j, i) {
            let (s, q) = choose|s: int, q: int|
                0 <= s < j && s < i && 0 <= q < states[s].transitions@.len()
                    && (#[trigger] states[s].transitions@[q]).dest_id == j;
            assert(s2[s] == states[s]);
            assert(reached_before(s2, j, i + 1));
        } else {
            let p = choose|p: int| 0 <= p < st.transitions@.len() && (#[trigger] st.transitions@[p]).dest_id == j;
            assert(s2[i].transitions@[p].dest_id == j);
            assert(reached_before(s2, j, i + 1));
        }
    }
}

/// The seed of code `code`, over the positions and the alphabet of `net`.
pub open spec fn seed_of_code(net: &MachineNet, code: int) -> Candidate {
    let a = alphabet(net);
    let p = net_positions(net.machines@)[code / (a.len() as int)];
    Candidate {
        machine: p.0,
        state: p.1,
        lookahead: a[code % (a.len() as int)],
        is_seed: true,
        is_final: net.spec_state(p.0, p.1).is_final,
    }
}

/// Every seed that a pilot of `net` may hold.
pub open spec fn seed_universe(net: &MachineNet) -> Set<Candidate> {
    set_int_range(0, (net_positions(net.machines@).len() * alphabet(net).len()) as int).map(
        |code: int| seed_of_code(net, code),
    )
}

proof fn lemma_seed_in_universe(net: &MachineNet, c: Candidate)
    requires
        net.well_formed(),
        cand_ok(net, c),
        c.is_seed,
        alphabet(net).contains(c.lookahead),
    ensures
        seed_universe(net).contains(c),
{
    let ms = net.machines@;
    net.lemma_machine_pos(c.machine);
    net.spec_machine(c.machine).lemma_state_pos(c.state);
    let mi = net.machine_pos(c.machine);
    let si = net.spec_machine(c.machine).state_pos(c.state);
    lemma_net_positions(ms, mi, si);
    let ps = net_positions(ms);
    let pi = choose|pi: int| 0 <= pi < ps.len() && ps[pi] == (ms[mi].name, ms[mi].states@[si].id);
    let a = alphabet(net);
    let li = choose|li: int| 0 <= li < a.len() && a[li] == c.lookahead;
    lemma_pair_code(pi, li, ps.len() as int, a.len() as int);
    let code = pi * a.len() + li;
    assert(seed_of_code(net, code) == c);
    assert(set_int_range(0, (ps.len() * a.len()) as int).contains(code));
}

/// A pilot of `net` under construction has at most `2^|U|` states, `U` the
/// seed universe, for its states hold distinct sets of seeds.
proof fn lemma_pilot_bound(net: &MachineNet, states: Seq<PilotState>)
    requires
        net.well_formed(),
        distinct_seeds(states),
        forall|j: int| 0 <= j < states.len() ==> all_ok(net, (#[trigger] states[j]).candidates@),
        forall|j: int, k: int|
            0 <= j < states.len() && 0 <= k < states[j].candidates@.len() ==> alphabet(net).contains(
                (#[trigger] states[j].candidates@[k]).lookahead,
            ),
    ensures
        states.len() <= pow2(seed_universe(net).len()),
{
    let u = seed_universe(net);
    let n = (net_positions(net.machines@).len() * alphabet(net).len()) as int;
    lemma_code_image(n, |code: int| seed_of_code(net, code));
    let fam = states.map_values(|st: PilotState| seeds_of(st.candidates@));
    assert(fam.no_duplicates()) by {
        assert forall|a: int, b: int| 0 <= a < fam.len() && 0 <= b < fam.len() && a != b implies fam[a] != fam[b] by {
            assert(seeds_of(states[a].candidates@) != seeds_of(states[b].candidates@));
        }
    }
    fam.unique_seq_to_set();
    assert forall|s: Set<Candidate>| #[trigger] fam.to_set().contains(s) implies s.subset_of(u) by {
        let j = choose|j: int| 0 <= j < fam.len() && fam[j] == s;
        let cs = states[j].candidates@;
        assert forall|c: Candidate| s.contains(c) implies u.contains(c) by {
            let k = choose|k: int| 0 <= k < cs.len() && cs[k] == c;
            assert(cand_ok(net, cs[k]));
            assert(alphabet(net).contains(states[j].candidates@[k].lookahead));
            lemma_seed_in_universe(net, c);
        }
    }
    lemma_subsets_bound(u, fam.to_set());
}

/// Closing adds no seed.
pub proof fn lemma_closure_keeps_seeds(net: &MachineNet, input: Seq<Candidate>, output: Seq<Candidate>)
    requires
        is_closure_of(net, input, output),
    ensures
        seeds_of(output) == seeds_of(input),
{
    assert forall|c: Candidate| seeds_of(output).contains(c) <==> seeds_of(input).contains(c) by {
        if seeds_of(output).contains(c) {
            let j = choose|j: int| 0 <= j < output.len() && output[j] == c;
            if j >= input.len() {
                let i = choose|i: int| 0 <= i < j && generates(net, output[i], output[j]);
                let k = choose|k: int|
                    0 <= k < cand_state(net, output[i]).transitions@.len() && generated_by(
                        net,
                        output[i],
                        #[trigger] cand_state(net, output[i]).transitions@[k],
                        output[j],
                    );
            } else {
                assert(output.subrange(0, input.len() as int)[j] == c);
            }
        }
        if seeds_of(input).contains(c) {
            let j = choose|j: int| 0 <= j < input.len() && input[j] == c;
            assert(output.subrange(0, input.len() as int)[j] == c);
            assert(output[j] == c);
        }
    }
    assert(seeds_of(output) =~= seeds_of(input));
}

impl Pilot {
    /// `i` is the first position of a state numbered `id`.
    pub open spec fn is_first_state(&self, id: usize, i: int) -> bool {
        &&& 0 <= i < self.states@.len()
        &&& self.states@[i].id == id
        &&& forall|k: int| 0 <= k < i ==> self.states@[k].id != id
    }

    pub open spec fn has_state(&self, id: usize) -> bool {
        exists|i: int| 0 <= i < self.states@.len() && self.states@[i].id == id
    }

    /// The state that a lookup of `id` finds.
    pub open spec fn spec_lookup(&self, id: usize) -> PilotState {
        self.states@[choose|i: int| self.is_first_state(id, i)]
    }
}

proof fn lemma_first_pilot_state(states: Seq<PilotState>, id: usize, j: int)
    requires
        0 <= j < states.len(),
        states[j].id == id,
    ensures
        exists|f: int|
            0 <= f < states.len() && states[f].id == id && forall|k: int| 0 <= k < f ==> states[k].id != id,
    decreases j,
{
    if exists|k: int| 0 <= k < j && states[k].id == id {
        let k = choose|k: int| 0 <= k < j && states[k].id == id;
        lemma_first_pilot_state(states, id, k);
    }
}

impl Pilot {
    /// The first state numbered `id`.
    pub fn lookup_state(&self, id: usize) -> (r: &PilotState)
        requires
            exists|i: int| 0 <= i < self.states@.len() && self.states@[i].id == id,
        ensures
            r.id == id,
            *r == self.spec_lookup(id),
    {
        let mut i: usize = 0;
        while i < self.states.len()
            invariant
                i <= self.states@.len(),
                forall|k: int| 0 <= k < i ==> self.states@[k].id != id,
                exists|j: int| 0 <= j < self.states@.len() && self.states@[j].id == id,
            decreases self.states@.len() - i,
        {
            if self.states[i].id == id {
                proof {
                    lemma_first_pilot_state(self.states@, id, i as int);
                    let f = choose|f: int|
                        0 <= f < self.states@.len() && self.states@[f].id == id && forall|k: int|
                            0 <= k < f ==> self.states@[k].id != id;
                    assert(self.is_first_state(id, f));
                    let g = choose|g: int| self.is_first_state(id, g);
                    assert(g == i);
                }
                return &self.states[i];
            }
            i += 1;
        }
        proof {
            let j = choose|j: int| 0 <= j < self.states@.len() && self.states@[j].id == id;
            assert(false);
        }
        &self.states[0]
    }

    /// Adds `new` unless a state with the same seeds exists; returns the
    /// number of that state, or of the added one, which is then closed.
    fn insert(&mut self, new: PilotState, net: &MachineNet) -> (r: usize)
        requires
            net.well_formed(),
            all_positioned(net, new.candidates@),
            forall|j: int| 0 <= j < old(self).states@.len() ==> (#[trigger] old(self).states@[j]).id == j,
        ensures
            r < final(self).states@.len(),
            seeds_of(final(self).states@[r as int].candidates@) == seeds_of(new.candidates@),
            old(self).states@.len() <= final(self).states@.len() <= old(self).states@.len() + 1,
            final(self).states@.subrange(0, old(self).states@.len() as int) == old(self).states@,
            final(self).states@.len() == old(self).states@.len() ==> final(self).states@ == old(self).states@
                && forall|j: int|
                0 <= j < r ==> seeds_of((#[trigger] old(self).states@[j]).candidates@) != seeds_of(
                    new.candidates@,
                ),
            final(self).states@.len() == old(self).states@.len() + 1 ==> {
                let st = final(self).states@[r as int];
                &&& r == old(self).states@.len()
                &&& forall|j: int|
                    0 <= j < old(self).states@.len() ==> seeds_of(
                        (#[trigger] old(self).states@[j]).candidates@,
                    ) != seeds_of(new.candidates@)
                &&& st.id == r
                &&& is_closure_of(net, new.candidates@, st.candidates@)
                &&& st.transitions@ == new.transitions@
                &&& all_ok(net, new.candidates@) ==> all_ok(net, st.candidates@)
                &&& forall|i: int|
                    0 <= i < st.candidates@.len() ==> (net_labels(net.machines@)
                        + new.candidates@.map_values(|c: Candidate| c.lookahead)).contains(
                        #[trigger] st.candidates@[i].lookahead,
                    )
            },
    {
        let mut i: usize = 0;
        while i < self.states.len()
            invariant
                i <= self.states@.len(),
                self.states@ == old(self).states@,
                forall|j: int| 0 <= j < self.states@.len() ==> (#[trigger] self.states@[j]).id == j,
                forall|j: int|
                    0 <= j < i ==> seeds_of((#[trigger] self.states@[j]).candidates@) != seeds_of(
                        new.candidates@,
                    ),
            decreases self.states@.len() - i,
        {
            if self.states[i].is_equivalent(&new) {
                proof {
                    assert(self.states@.subrange(0, self.states@.len() as int) =~= self.states@);
                }
                return self.states[i].id;
            }
            i += 1;
        }
        let id = self.states.len();
        let mut new = new;
        new.id = id;
        let ghost input = new.candidates@;
        closure(&mut new, net);
        proof {
            lemma_closure_keeps_seeds(net, input, new.candidates@);
        }
        let ghost old_states = self.states@;
        self.states.push(new);
        proof {
            assert(self.states@.subrange(0, old_states.len() as int) =~= old_states);
        }
        id
    }
}

proof fn lemma_shifted_ok(net: &MachineNet, c: Candidate, x: char)
    requires
        net.well_formed(),
        cand_ok(net, c),
        can_shift(net, c, x),
    ensures
        cand_ok(net, shifted(net, c, x)),
        shifted(net, c, x).is_seed,
        shifted(net, c, x).lookahead == c.lookahead,
{
    net.lemma_position(c.machine, c.state);
    let ts = cand_state(net, c).transitions@;
    let w = choose|w: int| 0 <= w < ts.len() && ts[w].character == x;
    lemma_first_on(ts, x, w);
    let k = choose|k: int| is_first_on(ts, x, k);
    assert(net.transition_ok(net.spec_machine(c.machine), ts[k]));
}

proof fn lemma_push_state(net: &MachineNet, states: Seq<PilotState>, new: PilotState, done: int)
    requires
        pilot_inv(net, states, done),
        state_built(net, new, states.len() as int),
        new.transitions@.len() == 0,
        forall|j: int|
            0 <= j < states.len() ==> seeds_of((#[trigger] states[j]).candidates@) != seeds_of(
                new.candidates@,
            ),
    ensures
        pilot_inv(net, states.push(new), done),
{
    let s2 = states.push(new);
    assert forall|j: int| 0 <= j < done implies transitions_built(net, s2, j) by {
        assert(transitions_built(net, states, j));
        let ts = s2[j].transitions@;
        assert forall|q: int| 0 <= q < ts.len() implies (#[trigger] ts[q]).dest_id < s2.len() && seeds_of(
            s2[ts[q].dest_id as int].candidates@,
        ) == shift_set(net, s2[j].candidates@, ts[q].character) && ts[q].multiplicity == shift_count(
            net,
            s2[j].candidates@,
            ts[q].character,
        ) by {
            assert(s2[ts[q].dest_id as int] == states[ts[q].dest_id as int]);
        }
    }
    assert forall|j: int| 0 <= j < s2.len() implies state_built(net, #[trigger] s2[j], j) by {
        if j < states.len() {
            assert(s2[j] == states[j]);
        }
    }
    assert forall|a: int, b: int|
        0 <= a < s2.len() && 0 <= b < s2.len() && a != b implies seeds_of(
        (#[trigger] s2[a]).candidates@,
    ) != seeds_of((#[trigger] s2[b]).candidates@) by {
        if a < states.len() && b < states.len() {
            assert(s2[a] == states[a] && s2[b] == states[b]);
        } else if a < states.len() {
            assert(s2[a] == states[a]);
        } else {
            assert(s2[b] == states[b]);
        }
    }
}

proof fn lemma_set_transitions(net: &MachineNet, states: Seq<PilotState>, i: int, st: PilotState)
    requires
        pilot_inv(net, states, i),
        i < states.len(),
        st.id == states[i].id,
        st.candidates@ == states[i].candidates@,
        ({
            let ts = st.transitions@;
            &&& forall|a: int, b: int|
                0 <= a < b < ts.len() ==> (#[trigger] ts[a]).character < (#[trigger] ts[b]).character
            &&& forall|x: char|
                #[trigger] outgoing(net, st.candidates@).contains(x) <==> exists|q: int|
                    0 <= q < ts.len() && (#[trigger] ts[q]).character == x
            &&& forall|q: int|
                0 <= q < ts.len() ==> (#[trigger] ts[q]).dest_id < states.len() && seeds_of(
                    states[ts[q].dest_id as int].candidates@,
                ) == shift_set(net, st.candidates@, ts[q].character) && ts[q].multiplicity
                    == shift_count(net, st.candidates@, ts[q].character)
        }),
    ensures
        pilot_inv(net, states.update(i, st), i + 1),
{
    let s2 = states.update(i, st);
    assert forall|j: int| 0 <= j < s2.len() implies seeds_of((#[trigger] s2[j]).candidates@) == seeds_of(
        states[j].candidates@,
    ) by {}
    assert forall|j: int| 0 <= j < i + 1 implies transitions_built(net, s2, j) by {
        if j < i {
            assert(transitions_built(net, states, j));
            assert(s2[j] == states[j]);
            let ts = s2[j].transitions@;
            assert forall|q: int| 0 <= q < ts.len() implies (#[trigger] ts[q]).dest_id < s2.len() && seeds_of(
                s2[ts[q].dest_id as int].candidates@,
            ) == shift_set(net, s2[j].candidates@, ts[q].character) && ts[q].multiplicity == shift_count(
                net,
                s2[j].candidates@,
                ts[q].character,
            ) by {
                assert(s2[ts[q].dest_id as int].candidates@ == states[ts[q].dest_id as int].candidates@);
            }
        } else {
            let ts = s2[j].transitions@;
            assert forall|q: int| 0 <= q < ts.len() implies (#[trigger] ts[q]).dest_id < s2.len() && seeds_of(
                s2[ts[q].dest_id as int].candidates@,
            ) == shift_set(net, s2[j].candidates@, ts[q].character) && ts[q].multiplicity == shift_count(
                net,
                s2[j].candidates@,
                ts[q].character,
            ) by {
                assert(s2[ts[q].dest_id as int].candidates@ == states[ts[q].dest_id as int].candidates@);
            }
        }
    }
    assert forall|j: int| 0 <= j < s2.len() implies state_built(net, #[trigger] s2[j], j) by {
        assert(state_built(net, states[j], j));
    }
    assert forall|a: int, b: int|
        0 <= a < s2.len() && 0 <= b < s2.len() && a != b implies seeds_of(
        (#[trigger] s2[a]).candidates@,
    ) != seeds_of((#[trigger] s2[b]).candidates@) by {
        assert(seeds_of(states[a].candidates@) != seeds_of(states[b].candidates@));
    }
}

proof fn lemma_successor(net: &MachineNet, cands: Seq<Candidate>, x: char, succ: Seq<Candidate>)
    requires
        net.well_formed(),
        all_ok(net, cands),
        forall|k: int| 0 <= k < cands.len() ==> alphabet(net).contains(#[trigger] cands[k].lookahead),
        succ.to_set() == shift_set(net, cands, x),
        outgoing(net, cands).contains(x),
    ensures
        succ.len() > 0,
        all_ok(net, succ),
        all_positioned(net, succ),
        forall|j: int| 0 <= j < succ.len() ==> (#[trigger] succ[j]).is_seed,
        forall|j: int| 0 <= j < succ.len() ==> alphabet(net).contains(#[trigger] succ[j].lookahead),
        seeds_of(succ) == shift_set(net, cands, x),
{
    assert forall|j: int| 0 <= j < succ.len() implies cand_ok(net, #[trigger] succ[j]) && succ[j].is_seed
        && alphabet(net).contains(succ[j].lookahead) by {
        assert(succ.to_set().contains(succ[j]));
        let w = choose|w: int|
            0 <= w < cands.len() && can_shift(net, #[trigger] cands[w], x) && succ[j] == shifted(
                net,
                cands[w],
                x,
            );
        assert(cand_ok(net, cands[w]));
        lemma_shifted_ok(net, cands[w], x);
    }
    let w = choose|w: int| 0 <= w < cands.len() && can_shift(net, #[trigger] cands[w], x);
    assert(shift_set(net, cands, x).contains(shifted(net, cands[w], x)));
    assert(succ.to_set().contains(shifted(net, cands[w], x)));
    assert(seeds_of(succ) =~= succ.to_set());
}

proof fn lemma_new_state_built(net: &MachineNet, succ: Seq<Candidate>, st: PilotState, idx: int)
    requires
        succ.len() > 0,
        all_ok(net, st.candidates@),
        is_cand_set(succ),
        forall|j: int| 0 <= j < succ.len() ==> (#[trigger] succ[j]).is_seed,
        forall|j: int| 0 <= j < succ.len() ==> alphabet(net).contains(#[trigger] succ[j].lookahead),
        is_closure_of(net, succ, st.candidates@),
        forall|i: int|
            0 <= i < st.candidates@.len() ==> (net_labels(net.machines@) + succ.map_values(
                |c: Candidate| c.lookahead,
            )).contains(#[trigger] st.candidates@[i].lookahead),
        st.id == idx,
        idx != 0,
    ensures
        state_built(net, st, idx),
{
    let cs = st.candidates@;
    let n = succ.len() as int;
    assert(cs.subrange(0, n) == succ);
    assert forall|j: int| 0 <= j < n implies (#[trigger] cs[j]).is_seed by {
        assert(cs.subrange(0, n)[j] == cs[j]);
    }
    assert forall|k: int| 0 <= k < cs.len() implies alphabet(net).contains(#[trigger] cs[k].lookahead) by {
        let la = net_labels(net.machines@) + succ.map_values(|c: Candidate| c.lookahead);
        let w = choose|w: int| 0 <= w < la.len() && la[w] == cs[k].lookahead;
        if w < net_labels(net.machines@).len() {
            assert(alphabet(net)[w] == cs[k].lookahead);
        } else {
            let v = w - net_labels(net.machines@).len();
            assert(succ[v].lookahead == cs[k].lookahead);
        }
    }
}

/// Builds the pilot of a well-formed network. States are numbered in the
/// order in which they are discovered, breadth first from the initial one.
pub fn create_pilot(net: &MachineNet) -> (r: Pilot)
    requires
        net.well_formed(),
    ensures
        is_pilot_of(net, r.states@),
        distinct_seeds(r.states@),
        forall|i: int, k: int|
            0 <= i < r.states@.len() && 0 <= k < r.states@[i].candidates@.len() ==> cand_ok(
                net,
                #[trigger] r.states@[i].candidates@[k],
            ),
        targets_exist(&r),
{
    proof {
        net.lemma_initial_position('S');
    }
    let first_state = net.lookup_state('S', 0);
    let init_candidate = Candidate {
        machine: 'S',
        state: 0,
        lookahead: '$',
        is_seed: false,
        is_final: first_state.is_final,
    };
    let init_state = PilotState { id: 0, candidates: vec![init_candidate], transitions: Vec::new() };
    let ghost init_seq = init_state.candidates@;
    let mut pilot = Pilot { states: Vec::new() };
    proof {
        assert(init_seq =~= seq![initial_candidate(net)]);
        assert(all_ok(net, init_seq));
    }
    let _first = pilot.insert(init_state, net);
    proof {
        let st = pilot.states@[0];
        assert(pilot.states@.len() == 1);
        let cs = st.candidates@;
        assert forall|k: int| 0 <= k < cs.len() implies alphabet(net).contains(#[trigger] cs[k].lookahead) by {
            let la = net_labels(net.machines@) + init_seq.map_values(|c: Candidate| c.lookahead);
            let w = choose|w: int| 0 <= w < la.len() && la[w] == cs[k].lookahead;
            if w < net_labels(net.machines@).len() {
                assert(alphabet(net)[w] == cs[k].lookahead);
            } else {
                assert(cs[k].lookahead == '$');
                assert(alphabet(net)[net_labels(net.machines@).len() as int] == '$');
            }
        }
        assert(state_built(net, st, 0));
        assert(distinct_seeds(pilot.states@));
        assert(discovered(pilot.states@, 0, Seq::empty()));
    }
    let mut i: usize = 0;
    while i < pilot.states.len()
        invariant
            net.well_formed(),
            i <= pilot.states@.len(),
            pilot_inv(net, pilot.states@, i as int),
            discovered(pilot.states@, i as int, Seq::empty()),
            numbered_in_order(pilot.states@, i as int),
        decreases pow2(seed_universe(net).len()) - pilot.states@.len(), pilot.states@.len() - i,
    {
        let ghost len0 = pilot.states@.len();
        let ghost cands = pilot.states@[i as int].candidates@;
        proof {
            assert(state_built(net, pilot.states@[i as int], i as int));
        }
        let future = collect_transitions(&pilot.states[i], net);
        let mut xions: Vec<PilotTransition> = Vec::new();
        let mut q: usize = 0;
        while q < future.len()
            invariant
                net.well_formed(),
                pilot_inv(net, pilot.states@, i as int),
                discovered(pilot.states@, i as int, xions@),
                numbered_in_order(pilot.states@, i as int),
                pending_in_order(pilot.states@, i as int, xions@),
                i < len0 <= pilot.states@.len(),
                pilot.states@[i as int].candidates@ == cands,
                is_char_set(future@),
                future@.to_set() == outgoing(net, cands),
                q <= future@.len(),
                xions@.len() == q,
                forall|p: int|
                    0 <= p < q ==> (#[trigger] xions@[p]).character == future@[p] && xions@[p].dest_id
                        < pilot.states@.len() && seeds_of(
                        pilot.states@[xions@[p].dest_id as int].candidates@,
                    ) == shift_set(net, cands, future@[p]) && xions@[p].multiplicity == shift_count(
                        net,
                        cands,
                        future@[p],
                    ),
            decreases future@.len() - q,
        {
            let x = future[q];
            proof {
                assert(state_built(net, pilot.states@[i as int], i as int));
            }
            let sh = shift(&pilot.states[i], net, x);
            let ghost old_states = pilot.states@;
            let ghost succ = sh.1.candidates@;
            proof {
                assert(future@.to_set().contains(x));
                lemma_successor(net, cands, x, succ);
                assert forall|j: int| 0 <= j < old_states.len() implies (#[trigger] old_states[j]).id == j by {
                    assert(state_built(net, old_states[j], j));
                }
            }
            let id = pilot.insert(sh.1, net);
            proof {
                if pilot.states@.len() == old_states.len() + 1 {
                    let st = pilot.states@[id as int];
                    lemma_new_state_built(net, succ, st, id as int);
                    assert(pilot.states@ =~= old_states.push(st));
                    lemma_push_state(net, old_states, st, i as int);
                } else {
                    assert(pilot.states@ =~= pilot.states@.subrange(0, old_states.len() as int));
                }
                assert forall|p: int| 0 <= p < q implies pilot.states@[xions@[p].dest_id as int] == old_states[xions@[p].dest_id as int] by {
                    assert(pilot.states@.subrange(0, old_states.len() as int)[xions@[p].dest_id as int] == old_states[xions@[p].dest_id as int]);
                }
                assert(pilot.states@[i as int] == old_states[i as int]);
            }
            let ghost pending = xions@;
            let t = PilotTransition { character: x, dest_id: id, multiplicity: sh.2 };
            proof {
                lemma_order_step(old_states, pilot.states@, i as int, pending, t);
            }
            xions.push(t);
            proof {
                if pilot.states@.len() == old_states.len() + 1 {
                    lemma_discovered_push(old_states, i as int, pending, pilot.states@[id as int], t);
                    assert(pilot.states@ =~= old_states.push(pilot.states@[id as int]));
                } else {
                    lemma_discovered_pending(pilot.states@, i as int, pending, t);
                }
            }
            q += 1;
        }
        let ghost states0 = pilot.states@;
        pilot.states[i].transitions = xions;
        proof {
            let st = pilot.states@[i as int];
            assert(pilot.states@ == states0.update(i as int, st));
            let ts = st.transitions@;
            assert forall|x: char|
                #[trigger] outgoing(net, st.candidates@).contains(x) <==> exists|q: int|
                    0 <= q < ts.len() && (#[trigger] ts[q]).character == x by {
                if outgoing(net, st.candidates@).contains(x) {
                    assert(future@.to_set().contains(x));
                    let w = choose|w: int| 0 <= w < future@.len() && future@[w] == x;
                    assert(ts[w].character == x);
                }
                if exists|q: int| 0 <= q < ts.len() && (#[trigger] ts[q]).character == x {
                    let w = choose|w: int| 0 <= w < ts.len() && (#[trigger] ts[w]).character == x;
                    assert(future@.to_set().contains(future@[w]));
                }
            }
            lemma_set_transitions(net, states0, i as int, st);
            lemma_discovered_assign(states0, i as int, st);
            lemma_order_assign(states0, i as int, st);
        }
        i += 1;
        proof {
            assert forall|j: int| 0 <= j < pilot.states@.len() implies all_ok(net, (#[trigger] pilot.states@[j]).candidates@) by {
                assert(state_built(net, pilot.states@[j], j));
            }
            assert forall|j: int, k: int|
                0 <= j < pilot.states@.len() && 0 <= k < pilot.states@[j].candidates@.len() implies alphabet(net).contains(
                    (#[trigger] pilot.states@[j].candidates@[k]).lookahead,
                ) by {
                assert(state_built(net, pilot.states@[j], j));
            }
            lemma_pilot_bound(net, pilot.states@);
        }
    }
    proof {
        let st = pilot.states@;
        assert forall|j: int| 1 <= j < st.len() implies #[trigger] reached_before(st, j, j) by {
            assert(reached_before(st, j, st.len() as int));
            let (s, q) = choose|s: int, q: int|
                0 <= s < j && s < st.len() && 0 <= q < st[s].transitions@.len()
                    && (#[trigger] st[s].transitions@[q]).dest_id == j;
        }
        assert forall|i: int, k: int|
            0 <= i < st.len() && 0 <= k < st[i].candidates@.len() implies cand_ok(
            net,
            #[trigger] st[i].candidates@[k],
        ) by {
            assert(state_built(net, st[i], i));
        }
        assert forall|s: int, q: int|
            0 <= s < st.len() && 0 <= q < st[s].transitions@.len() implies pilot.has_state(
            (#[trigger] st[s].transitions@[q]).dest_id,
        ) by {
            assert(transitions_built(net, st, s));
            let d = st[s].transitions@[q].dest_id as int;
            assert(state_built(net, st[d], d));
        }
    }
    pilot
}

proof fn lemma_shift_count_seeds(net: &MachineNet, s: Seq<Candidate>, x: char)
    requires
        forall|k: int| 0 <= k < s.len() && can_shift(net, #[trigger] s[k], x) ==> s[k].is_seed,
    ensures
        shift_count(net, s, x) == shift_count(net, seed_filter(s), x),
    decreases s.len(),
{
    reveal(Seq::filter);
    if s.len() > 0 {
        let t = s.drop_last();
        assert forall|k: int| 0 <= k < t.len() && can_shift(net, #[trigger] t[k], x) implies t[k].is_seed by {
            assert(t[k] == s[k]);
        }
        lemma_shift_count_seeds(net, t, x);
        if s.last().is_seed {
            assert(seed_filter(s) == seed_filter(t).push(s.last()));
            assert(seed_filter(t).push(s.last()).drop_last() =~= seed_filter(t));
        } else {
            assert(seed_filter(s) == seed_filter(t));
            assert(!can_shift(net, s[s.len() - 1], x));
        }
    }
}

/// Where only seeds of a pilot state shift on the symbol of one of its
/// transitions, the multiplicity of that transition is the number of those
/// seeds.
pub proof fn lemma_multiplicity_counts_seeds(net: &MachineNet, states: Seq<PilotState>, i: int, q: int)
    requires
        is_pilot_of(net, states),
        0 <= i < states.len(),
        0 <= q < states[i].transitions@.len(),
        forall|k: int|
            0 <= k < states[i].candidates@.len() && can_shift(
                net,
                #[trigger] states[i].candidates@[k],
                states[i].transitions@[q].character,
            ) ==> states[i].candidates@[k].is_seed,
    ensures
        states[i].transitions@[q].multiplicity == shift_count(
            net,
            seed_filter(states[i].candidates@),
            states[i].transitions@[q].character,
        ),
{
    assert(transitions_built(net, states, i));
    lemma_shift_count_seeds(net, states[i].candidates@, states[i].transitions@[q].character);
}

fn seeds_within(a: &Vec<Candidate>, b: &Vec<Candidate>) -> (r: bool)
    ensures
        r == seeds_of(a@).subset_of(seeds_of(b@)),
{
    let mut i: usize = 0;
    while i < a.len()
        invariant
            i <= a@.len(),
            forall|k: int| 0 <= k < i && (#[trigger] a@[k]).is_seed ==> b@.contains(a@[k]),
        decreases a@.len() - i,
    {
        if a[i].is_seed && !contains_candidate(b, &a[i]) {
            proof {
                assert(seeds_of(a@).contains(a@[i as int]));
            }
            return false;
        }
        i += 1;
    }
    proof {
        assert forall|c: Candidate| seeds_of(a@).contains(c) implies seeds_of(b@).contains(c) by {
            let k = choose|k: int| 0 <= k < a@.len() && a@[k] == c;
        }
    }
    true
}

} // verus!
