//! Validation of a machine network before pilot construction.
//!
//! The checks run in a fixed order, each over every machine, and all of them
//! run: a network with no machines, the axiom `S`, machines without states,
//! the initial flags, machines without a final state, machines without a
//! state 0, then the nonterminals and destinations of the transitions.
use vstd::prelude::*;
use crate::fsm::{Machine, State, Transition};
use crate::net::{MachineNet, NetError};

verus! {

/// The concatenation of `f` over `s`, in order.
pub open spec fn concat_map<A>(s: Seq<A>, f: spec_fn(A) -> Seq<NetError>) -> Seq<NetError>
    decreases s.len(),
{
    if s.len() == 0 {
        Seq::empty()
    } else {
        concat_map(s.drop_last(), f) + f(s.last())
    }
}

pub open spec fn no_states_check() -> spec_fn(Machine) -> Seq<NetError> {
    |m: Machine|
        if m.states@.len() == 0 {
            seq![NetError::NoStates { machine: m.name }]
        } else {
            Seq::empty()
        }
}

pub open spec fn initial_item(name: char, s: State) -> Seq<NetError> {
    if s.is_initial && s.id != 0 {
        seq![NetError::CannotBeInitial { machine: name, state: s.id }]
    } else if s.id == 0 && !s.is_initial {
        seq![NetError::MustBeInitial { machine: name }]
    } else {
        Seq::empty()
    }
}

pub open spec fn initial_check() -> spec_fn(Machine) -> Seq<NetError> {
    |m: Machine| concat_map(m.states@, |s: State| initial_item(m.name, s))
}

pub open spec fn final_check() -> spec_fn(Machine) -> Seq<NetError> {
    |m: Machine|
        if !exists|j: int| 0 <= j < m.states@.len() && #[trigger] m.states@[j].is_final {
            seq![NetError::NoFinalState { machine: m.name }]
        } else {
            Seq::empty()
        }
}

pub open spec fn zero_check() -> spec_fn(Machine) -> Seq<NetError> {
    |m: Machine|
        if m.states@.len() > 0 && !m.has_state(0) {
            seq![NetError::NoStateZero { machine: m.name }]
        } else {
            Seq::empty()
        }
}

pub open spec fn transition_item(net: &MachineNet, m: Machine, s: State, t: Transition) -> Seq<NetError> {
    (if t.spec_is_nonterminal() && !net.has_machine(t.character) {
        seq![NetError::UnknownMachine { machine: m.name, state: s.id, character: t.character }]
    } else {
        Seq::empty()
    }) + (if !m.has_state(t.dest_id) {
        seq![NetError::UnknownState { machine: m.name, state: s.id, dest_id: t.dest_id }]
    } else {
        Seq::empty()
    })
}

pub open spec fn transition_item_of(net: &MachineNet, m: Machine, s: State) -> spec_fn(Transition) -> Seq<NetError> {
    |t: Transition| transition_item(net, m, s, t)
}

pub open spec fn state_transitions_check(net: &MachineNet, m: Machine, s: State) -> Seq<NetError> {
    concat_map(s.transitions@, transition_item_of(net, m, s))
}

pub open spec fn transitions_check(net: &MachineNet) -> spec_fn(Machine) -> Seq<NetError> {
    |m: Machine| concat_map(m.states@, |s: State| state_transitions_check(net, m, s))
}

/// Every defect of `net`, one per failed check, in the order of the checks.
pub open spec fn defects(net: &MachineNet) -> Seq<NetError> {
    let ms = net.machines@;
    (if ms.len() == 0 {
        seq![NetError::NoMachines]
    } else {
        Seq::empty()
    }) + (if !net.has_machine('S') {
        seq![NetError::MissingAxiom]
    } else {
        Seq::empty()
    }) + concat_map(ms, no_states_check()) + concat_map(ms, initial_check()) + concat_map(
        ms,
        final_check(),
    ) + concat_map(ms, zero_check()) + concat_map(ms, transitions_check(net))
}

proof fn lemma_concat_map_step<A>(s: Seq<A>, f: spec_fn(A) -> Seq<NetError>, i: int)
    requires
        0 <= i < s.len(),
    ensures
        concat_map(s.take(i + 1), f) == concat_map(s.take(i), f) + f(s[i]),
{
    assert(s.take(i + 1).drop_last() =~= s.take(i));
}

proof fn lemma_concat_map_empty<A>(s: Seq<A>, f: spec_fn(A) -> Seq<NetError>)
    ensures
        concat_map(s, f).len() == 0 <==> forall|i: int| 0 <= i < s.len() ==> (#[trigger] f(s[i])).len() == 0,
    decreases s.len(),
{
    if s.len() > 0 {
        lemma_concat_map_empty(s.drop_last(), f);
        assert forall|i: int| 0 <= i < s.drop_last().len() implies s.drop_last()[i] == s[i] by {}
        if forall|i: int| 0 <= i < s.len() ==> (#[trigger] f(s[i])).len() == 0 {
            assert(f(s[s.len() - 1]).len() == 0);
            assert forall|i: int| 0 <= i < s.drop_last().len() implies (#[trigger] f(s.drop_last()[i])).len() == 0 by {
                assert(f(s[i]).len() == 0);
            }
        }
    }
}

proof fn lemma_take_all<A>(s: Seq<A>)
    ensures
        s.take(s.len() as int) == s,
{
    assert(s.take(s.len() as int) =~= s);
}

impl MachineNet {
    fn push_state_transition_errors(&self, m: &Machine, s: &State, out: &mut Vec<NetError>)
        ensures
            final(out)@ == old(out)@ + state_transitions_check(self, *m, *s),
    {
        let mut k: usize = 0;
        while k < s.transitions.len()
            invariant
                k <= s.transitions@.len(),
                out@ == old(out)@ + concat_map(s.transitions@.take(k as int), transition_item_of(self, *m, *s)),
            decreases s.transitions@.len() - k,
        {
            let t = s.transitions[k];
            let ghost before = out@;
            if t.is_nonterminal() && self.find_machine(t.character).is_none() {
                out.push(NetError::UnknownMachine { machine: m.name, state: s.id, character: t.character });
            }
            if m.try_lookup_state(t.dest_id).is_none() {
                out.push(NetError::UnknownState { machine: m.name, state: s.id, dest_id: t.dest_id });
            }
            proof {
                lemma_concat_map_step(s.transitions@, transition_item_of(self, *m, *s), k as int);
                assert(out@ =~= before + transition_item(self, *m, *s, t));
            }
            k += 1;
        }
        proof {
            lemma_take_all(s.transitions@);
        }
    }

    /// Every structural defect of the network, one per failed check, in the
    /// order of the checks.
    pub fn validation_errors(&self) -> (r: Vec<NetError>)
        ensures
            r@ == defects(self),
    {
        let ms = &self.machines;
        let mut out: Vec<NetError> = Vec::new();
        if ms.len() == 0 {
            out.push(NetError::NoMachines);
        }
        if self.find_machine('S').is_none() {
            out.push(NetError::MissingAxiom);
        }
        let ghost g = out@;
        let mut i: usize = 0;
        while i < ms.len()
            invariant
                i <= ms@.len(),
                out@ == g + concat_map(ms@.take(i as int), no_states_check()),
            decreases ms@.len() - i,
        {
            let ghost before = out@;
            if ms[i].states.len() == 0 {
                out.push(NetError::NoStates { machine: ms[i].name });
            }
            proof {
                lemma_concat_map_step(ms@, no_states_check(), i as int);
                assert(out@ =~= before + no_states_check()(ms@[i as int]));
            }
            i += 1;
        }
        proof {
            lemma_take_all(ms@);
        }
        let ghost g = out@;
        let mut i: usize = 0;
        while i < ms.len()
            invariant
                i <= ms@.len(),
                out@ == g + concat_map(ms@.take(i as int), initial_check()),
            decreases ms@.len() - i,
        {
            let m = &ms[i];
            let ghost b0 = out@;
            let mut j: usize = 0;
            while j < m.states.len()
                invariant
                    j <= m.states@.len(),
                    out@ == b0 + concat_map(m.states@.take(j as int), |s: State| initial_item(m.name, s)),
                decreases m.states@.len() - j,
            {
                let s = &m.states[j];
                let ghost before = out@;
                if s.is_initial && s.id != 0 {
                    out.push(NetError::CannotBeInitial { machine: m.name, state: s.id });
                } else if s.id == 0 && !s.is_initial {
                    out.push(NetError::MustBeInitial { machine: m.name });
                }
                proof {
                    lemma_concat_map_step(m.states@, |s: State| initial_item(m.name, s), j as int);
                    assert(out@ =~= before + initial_item(m.name, *s));
                }
                j += 1;
            }
            proof {
                lemma_take_all(m.states@);
                lemma_concat_map_step(ms@, initial_check(), i as int);
                assert(out@ =~= b0 + initial_check()(ms@[i as int]));
            }
            i += 1;
        }
        proof {
            lemma_take_all(ms@);
        }
        let ghost g = out@;
        let mut i: usize = 0;
        while i < ms.len()
            invariant
                i <= ms@.len(),
                out@ == g + concat_map(ms@.take(i as int), final_check()),
            decreases ms@.len() - i,
        {
            let m = &ms[i];
            let mut any_final = false;
            let mut j: usize = 0;
            while j < m.states.len()
                invariant
                    j <= m.states@.len(),
                    any_final <==> exists|q: int| 0 <= q < j && #[trigger] m.states@[q].is_final,
                decreases m.states@.len() - j,
            {
                if m.states[j].is_final {
                    any_final = true;
                }
                j += 1;
            }
            let ghost before = out@;
            if !any_final {
                out.push(NetError::NoFinalState { machine: m.name });
            }
            proof {
                lemma_concat_map_step(ms@, final_check(), i as int);
                assert(out@ =~= before + final_check()(ms@[i as int]));
            }
            i += 1;
        }
        proof {
            lemma_take_all(ms@);
        }
        let ghost g = out@;
        let mut i: usize = 0;
        while i < ms.len()
            invariant
                i <= ms@.len(),
                out@ == g + concat_map(ms@.take(i as int), zero_check()),
            decreases ms@.len() - i,
        {
            let ghost before = out@;
            if ms[i].states.len() > 0 && ms[i].try_lookup_state(0).is_none() {
                out.push(NetError::NoStateZero { machine: ms[i].name });
            }
            proof {
                lemma_concat_map_step(ms@, zero_check(), i as int);
                assert(out@ =~= before + zero_check()(ms@[i as int]));
            }
            i += 1;
        }
        proof {
            lemma_take_all(ms@);
        }
        let ghost g = out@;
        let mut i: usize = 0;
        while i < ms.len()
            invariant
                i <= ms@.len(),
                out@ == g + concat_map(ms@.take(i as int), transitions_check(self)),
            decreases ms@.len() - i,
        {
            let m = &ms[i];
            let ghost b0 = out@;
            let mut j: usize = 0;
            while j < m.states.len()
                invariant
                    j <= m.states@.len(),
                    out@ == b0 + concat_map(m.states@.take(j as int), |s: State| state_transitions_check(self, *m, s)),
                decreases m.states@.len() - j,
            {
                let ghost before = out@;
                self.push_state_transition_errors(m, &m.states[j], &mut out);
                proof {
                    lemma_concat_map_step(m.states@, |s: State| state_transitions_check(self, *m, s), j as int);
                    assert(out@ =~= before + state_transitions_check(self, *m, m.states@[j as int]));
                }
                j += 1;
            }
            proof {
                lemma_take_all(m.states@);
                lemma_concat_map_step(ms@, transitions_check(self), i as int);
                assert(out@ =~= b0 + transitions_check(self)(ms@[i as int]));
            }
            i += 1;
        }
        proof {
            lemma_take_all(ms@);
            assert(out@ =~= defects(self));
        }
        out
    }
}

proof fn lemma_machine_checks(net: &MachineNet, m: Machine)
    ensures
        net.machine_ok(m) <==> no_states_check()(m).len() == 0 && initial_check()(m).len() == 0
            && final_check()(m).len() == 0 && zero_check()(m).len() == 0 && transitions_check(net)(m).len()
            == 0,
{
    let fi = |s: State| initial_item(m.name, s);
    let ft = |s: State| state_transitions_check(net, m, s);
    lemma_concat_map_empty(m.states@, fi);
    lemma_concat_map_empty(m.states@, ft);
    assert forall|j: int| 0 <= j < m.states@.len() implies (#[trigger] ft(m.states@[j])).len() == 0
        <==> forall|k: int|
        0 <= k < m.states@[j].transitions@.len() ==> net.transition_ok(m, #[trigger] m.states@[j].transitions@[k]) by {
        let st = m.states@[j];
        let g = transition_item_of(net, m, st);
        lemma_concat_map_empty(st.transitions@, g);
        assert(ft(st) == concat_map(st.transitions@, g));
        if ft(st).len() == 0 {
            assert forall|k: int| 0 <= k < st.transitions@.len() implies net.transition_ok(
                m,
                #[trigger] st.transitions@[k],
            ) by {
                assert(g(st.transitions@[k]).len() == 0);
            }
        }
        if forall|k: int|
            0 <= k < st.transitions@.len() ==> net.transition_ok(m, #[trigger] st.transitions@[k]) {
            assert forall|k: int| 0 <= k < st.transitions@.len() implies (#[trigger] g(
                st.transitions@[k],
            )).len() == 0 by {
                assert(net.transition_ok(m, st.transitions@[k]));
            }
        }
    }
    assert forall|j: int| 0 <= j < m.states@.len() implies (#[trigger] fi(m.states@[j])).len() == 0
        <==> (m.states@[j].is_initial <==> m.states@[j].id == 0) by {}
    if net.machine_ok(m) {
        assert forall|j: int| 0 <= j < m.states@.len() implies (#[trigger] fi(m.states@[j])).len() == 0 by {
            assert(m.states@[j].is_initial <==> m.states@[j].id == 0);
        }
        assert forall|j: int| 0 <= j < m.states@.len() implies (#[trigger] ft(m.states@[j])).len() == 0 by {
            assert forall|k: int|
                0 <= k < m.states@[j].transitions@.len() implies net.transition_ok(m, #[trigger] m.states@[j].transitions@[k]) by {}
        }
    }
    if no_states_check()(m).len() == 0 && initial_check()(m).len() == 0 && final_check()(m).len() == 0
        && zero_check()(m).len() == 0 && transitions_check(net)(m).len() == 0 {
        assert forall|j: int| 0 <= j < m.states@.len() implies (#[trigger] m.states@[j].is_initial
            <==> m.states@[j].id == 0) by {
            assert(fi(m.states@[j]).len() == 0);
        }
        assert forall|j: int, k: int|
            0 <= j < m.states@.len() && 0 <= k < m.states@[j].transitions@.len()
                implies net.transition_ok(m, #[trigger] m.states@[j].transitions@[k]) by {
            assert(ft(m.states@[j]).len() == 0);
        }
    }
}

impl MachineNet {
    /// Runs every check; true when none fails.
    pub fn validate(&self) -> (r: bool)
        ensures
            r == self.well_formed(),
            r == (defects(self).len() == 0),
    {
        let errors = self.validation_errors();
        proof {
            let ms = self.machines@;
            lemma_concat_map_empty(ms, no_states_check());
            lemma_concat_map_empty(ms, initial_check());
            lemma_concat_map_empty(ms, final_check());
            lemma_concat_map_empty(ms, zero_check());
            lemma_concat_map_empty(ms, transitions_check(self));
            assert forall|i: int| 0 <= i < ms.len() implies #[trigger] self.machine_ok(ms[i]) <==> (
            no_states_check()(ms[i]).len() == 0 && initial_check()(ms[i]).len() == 0 && final_check()(
                ms[i],
            ).len() == 0 && zero_check()(ms[i]).len() == 0 && transitions_check(self)(ms[i]).len() == 0) by {
                lemma_machine_checks(self, ms[i]);
            }
            if defects(self).len() == 0 {
                assert(ms.len() > 0);
                assert(self.has_machine('S'));
                assert forall|i: int| 0 <= i < ms.len() implies #[trigger] self.machine_ok(ms[i]) by {
                    assert(no_states_check()(ms[i]).len() == 0);
                    assert(initial_check()(ms[i]).len() == 0);
                    assert(final_check()(ms[i]).len() == 0);
                    assert(zero_check()(ms[i]).len() == 0);
                    assert(transitions_check(self)(ms[i]).len() == 0);
                }
            }
            if self.well_formed() {
                assert forall|i: int| 0 <= i < ms.len() implies (#[trigger] no_states_check()(ms[i])).len() == 0 by {
                    assert(self.machine_ok(ms[i]));
                }
                assert forall|i: int| 0 <= i < ms.len() implies (#[trigger] initial_check()(ms[i])).len() == 0 by {
                    assert(self.machine_ok(ms[i]));
                }
                assert forall|i: int| 0 <= i < ms.len() implies (#[trigger] final_check()(ms[i])).len() == 0 by {
                    assert(self.machine_ok(ms[i]));
                }
                assert forall|i: int| 0 <= i < ms.len() implies (#[trigger] zero_check()(ms[i])).len() == 0 by {
                    assert(self.machine_ok(ms[i]));
                }
                assert forall|i: int| 0 <= i < ms.len() implies (#[trigger] transitions_check(self)(ms[i])).len() == 0 by {
                    assert(self.machine_ok(ms[i]));
                }
            }
        }
        errors.len() == 0
    }
}

} // verus!