//! The machine network and its structural validation.
use vstd::prelude::*;
use crate::fsm::{Machine, State, Transition};

verus! {

/// An ordered sequence of machines, each naming a nonterminal.
#[derive(Debug)]
pub struct MachineNet {
    pub machines: Vec<Machine>,
}

/// A structural defect of a machine network.
#[derive(Debug, Clone, Copy, PartialEq, Eq, Structural)]
pub enum NetError {
    NoMachines,
    MissingAxiom,
    NoStates { machine: char },
    NoStateZero { machine: char },
    CannotBeInitial { machine: char, state: i32 },
    MustBeInitial { machine: char },
    NoFinalState { machine: char },
    UnknownMachine { machine: char, state: i32, character: char },
    UnknownState { machine: char, state: i32, dest_id: i32 },
}

impl MachineNet {
    /// `i` is the first position of a machine named `c`.
    pub open spec fn is_first_machine(&self, c: char, i: int) -> bool {
        &&& 0 <= i < self.machines@.len()
        &&& self.machines@[i].name == c
        &&& forall|k: int| 0 <= k < i ==> self.machines@[k].name != c
    }

    pub open spec fn has_machine(&self, c: char) -> bool {
        exists|i: int| 0 <= i < self.machines@.len() && self.machines@[i].name == c
    }

    /// Position of the machine that a lookup of `c` finds.
    pub open spec fn machine_pos(&self, c: char) -> int {
        choose|i: int| self.is_first_machine(c, i)
    }

    pub open spec fn spec_machine(&self, c: char) -> Machine {
        self.machines@[self.machine_pos(c)]
    }

    /// The machine `c` exists and has a state numbered `id`.
    pub open spec fn has_position(&self, c: char, id: i32) -> bool {
        self.has_machine(c) && self.spec_machine(c).has_state(id)
    }

    pub open spec fn spec_state(&self, c: char, id: i32) -> State {
        self.spec_machine(c).spec_state(id)
    }

    pub proof fn lemma_machine_pos(&self, c: char)
        requires
            self.has_machine(c),
        ensures
            self.is_first_machine(c, self.machine_pos(c)),
    {
        let i = choose|i: int| 0 <= i < self.machines@.len() && self.machines@[i].name == c;
        lemma_first_machine_exists(self.machines@, c, i);
        let f = choose|f: int|
            0 <= f < self.machines@.len() && self.machines@[f].name == c && forall|k: int|
                0 <= k < f ==> self.machines@[k].name != c;
        assert(self.is_first_machine(c, f));
    }

    /// Finds the first machine named `c`.
    pub fn find_machine(&self, c: char) -> (r: Option<usize>)
        ensures
            r.is_some() == self.has_machine(c),
            r.is_some() ==> r.unwrap() == self.machine_pos(c) && self.is_first_machine(
                c,
                self.machine_pos(c),
            ),
    {
        let mut i: usize = 0;
        while i < self.machines.len()
            invariant
                i <= self.machines@.len(),
                forall|k: int| 0 <= k < i ==> self.machines@[k].name != c,
            decreases self.machines@.len() - i,
        {
            if self.machines[i].name == c {
                proof {
                    self.lemma_machine_pos(c);
                }
                return Some(i);
            }
            i += 1;
        }
        None
    }

    pub fn lookup_machine(&self, c: char) -> (r: &Machine)
        requires
            self.has_machine(c),
        ensures
            *r == self.spec_machine(c),
    {
        match self.find_machine(c) {
            Some(i) => &self.machines[i],
            None => {
                proof {
                    assert(false);
                }
                &self.machines[0]
            },
        }
    }

    pub fn lookup_state(&self, c: char, id: i32) -> (r: &State)
        requires
            self.has_position(c, id),
        ensures
            *r == self.spec_state(c, id),
    {
        self.lookup_machine(c).lookup_state(id)
    }

    // ----- structural well-formedness -----
    pub open spec fn transition_ok(&self, m: Machine, t: Transition) -> bool {
        &&& t.spec_is_nonterminal() ==> self.has_machine(t.character)
        &&& m.has_state(t.dest_id)
    }

    pub open spec fn machine_ok(&self, m: Machine) -> bool {
        &&& m.states@.len() > 0
        &&& m.has_state(0)
        &&& forall|j: int|
            0 <= j < m.states@.len() ==> (#[trigger] m.states@[j].is_initial <==> m.states@[j].id
                == 0)
        &&& exists|j: int| 0 <= j < m.states@.len() && #[trigger] m.states@[j].is_final
        &&& forall|j: int, k: int|
            0 <= j < m.states@.len() && 0 <= k < m.states@[j].transitions@.len()
                ==> self.transition_ok(m, #[trigger] m.states@[j].transitions@[k])
    }

    /// The invariants that pilot construction relies on.
    pub open spec fn well_formed(&self) -> bool {
        &&& self.machines@.len() > 0
        &&& self.has_machine('S')
        &&& forall|i: int| 0 <= i < self.machines@.len() ==> self.machine_ok(#[trigger] self.machines@[i])
    }
}

impl MachineNet {
    /// In a well-formed network every machine has a state 0.
    pub proof fn lemma_initial_position(&self, c: char)
        requires
            self.well_formed(),
            self.has_machine(c),
        ensures
            self.has_position(c, 0),
            self.is_first_machine(c, self.machine_pos(c)),
    {
        self.lemma_machine_pos(c);
        assert(self.machine_ok(self.machines@[self.machine_pos(c)]));
    }
}

proof fn lemma_first_machine_exists(ms: Seq<Machine>, c: char, j: int)
    requires
        0 <= j < ms.len(),
        ms[j].name == c,
    ensures
        exists|f: int|
            0 <= f < ms.len() && ms[f].name == c && forall|k: int| 0 <= k < f ==> ms[k].name != c,
    decreases j,
{
    if exists|k: int| 0 <= k < j && ms[k].name == c {
        let k = choose|k: int| 0 <= k < j && ms[k].name == c;
        lemma_first_machine_exists(ms, c, k);
    }
}

} // verus!
