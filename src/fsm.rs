//! Machines, states and transitions of a machine network.
use vstd::prelude::*;

verus! {

/// An uppercase ASCII letter: a nonterminal, naming a machine.
pub open spec fn is_upper(c: char) -> bool {
    'A' <= c && c <= 'Z'
}

/// A labelled edge towards the state `dest_id` of the same machine.
#[derive(Debug, Clone, Copy, PartialEq, Eq, Hash, Structural)]
pub struct Transition {
    pub character: char,
    pub dest_id: i32,
}

impl Transition {
    pub open spec fn spec_is_nonterminal(&self) -> bool {
        is_upper(self.character)
    }

    pub fn is_nonterminal(&self) -> (r: bool)
        ensures
            r == self.spec_is_nonterminal(),
    {
        'A' <= self.character && self.character <= 'Z'
    }
}

#[derive(Debug)]
pub struct State {
    pub id: i32,
    pub transitions: Vec<Transition>,
    pub is_initial: bool,
    pub is_final: bool,
}

#[derive(Debug)]
pub struct Machine {
    pub name: char,
    pub states: Vec<State>,
}

impl Machine {
    /// `j` is the first position of a state numbered `id`.
    pub open spec fn is_first_state(&self, id: i32, j: int) -> bool {
        &&& 0 <= j < self.states@.len()
        &&& self.states@[j].id == id
        &&& forall|k: int| 0 <= k < j ==> self.states@[k].id != id
    }

    pub open spec fn has_state(&self, id: i32) -> bool {
        exists|j: int| 0 <= j < self.states@.len() && self.states@[j].id == id
    }

    /// Position of the state that a lookup of `id` finds.
    pub open spec fn state_pos(&self, id: i32) -> int {
        choose|j: int| self.is_first_state(id, j)
    }

    pub open spec fn spec_state(&self, id: i32) -> State {
        self.states@[self.state_pos(id)]
    }

    pub proof fn lemma_state_pos(&self, id: i32)
        requires
            self.has_state(id),
        ensures
            self.is_first_state(id, self.state_pos(id)),
    {
        let j = choose|j: int| 0 <= j < self.states@.len() && self.states@[j].id == id;
        lemma_first_exists(self.states@, id, j);
        let f = choose|f: int|
            0 <= f < self.states@.len() && self.states@[f].id == id && forall|k: int|
                0 <= k < f ==> self.states@[k].id != id;
        assert(self.is_first_state(id, f));
    }

    pub proof fn lemma_first_unique(&self, id: i32, a: int, b: int)
        requires
            self.is_first_state(id, a),
            self.is_first_state(id, b),
        ensures
            a == b,
    {
    }

    pub fn try_lookup_state(&self, id: i32) -> (r: Option<&State>)
        ensures
            r.is_some() == self.has_state(id),
            r.is_some() ==> self.is_first_state(id, self.state_pos(id)) && *r.unwrap()
                == self.spec_state(id),
    {
        let mut i: usize = 0;
        while i < self.states.len()
            invariant
                i <= self.states@.len(),
                forall|k: int| 0 <= k < i ==> self.states@[k].id != id,
            decreases self.states@.len() - i,
        {
            if self.states[i].id == id {
                proof {
                    self.lemma_state_pos(id);
                    self.lemma_first_unique(id, i as int, self.state_pos(id));
                }
                return Some(&self.states[i]);
            }
            i += 1;
        }
        None
    }

    /// Position of the first state numbered `id`.
    pub fn find_state(&self, id: i32) -> (r: Option<usize>)
        ensures
            r.is_some() == self.has_state(id),
            r.is_some() ==> r.unwrap() == self.state_pos(id) && self.is_first_state(
                id,
                self.state_pos(id),
            ),
    {
        let mut i: usize = 0;
        while i < self.states.len()
            invariant
                i <= self.states@.len(),
                forall|k: int| 0 <= k < i ==> self.states@[k].id != id,
            decreases self.states@.len() - i,
        {
            if self.states[i].id == id {
                proof {
                    self.lemma_state_pos(id);
                    self.lemma_first_unique(id, i as int, self.state_pos(id));
                }
                return Some(i);
            }
            i += 1;
        }
        None
    }

    pub fn lookup_state(&self, id: i32) -> (r: &State)
        requires
            self.has_state(id),
        ensures
            self.is_first_state(id, self.state_pos(id)),
            *r == self.spec_state(id),
    {
        match self.try_lookup_state(id) {
            Some(s) => s,
            None => {
                proof {
                    assert(false);
                }
                &self.states[0]
            },
        }
    }
}

proof fn lemma_first_exists(states: Seq<State>, id: i32, j: int)
    requires
        0 <= j < states.len(),
        states[j].id == id,
    ensures
        exists|f: int|
            0 <= f < states.len() && states[f].id == id && forall|k: int|
                0 <= k < f ==> states[k].id != id,
    decreases j,
{
    if exists|k: int| 0 <= k < j && states[k].id == id {
        let k = choose|k: int| 0 <= k < j && states[k].id == id;
        lemma_first_exists(states, id, k);
    }
}

} // verus!
