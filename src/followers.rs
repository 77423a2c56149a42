//! Terminals that may follow a position of the machine network.
//!
//! The walk shares one set of visited transitions across all its recursive
//! calls: a transition is explored at most once per walk, whatever the
//! context in which it is reached again.
use vstd::prelude::*;
use crate::charset::{is_char_set, insert_char, union_chars};
use crate::net::MachineNet;

verus! {

/// A transition, identified by the positions of its machine, of its state
/// within the machine, and of itself within the state.
pub type TransitionId = (usize, usize, usize);

/// A bound on the nesting of the walk. Each nested call marks a transition
/// that was not yet visited, so no walk on a network that fits in memory
/// comes near it.
pub const WALK_DEPTH: u64 = 0xffff_ffff_ffff_ffff;

/// Contributions of the transitions `k..` of the state `(c, id)`, and the
/// visited set after them.
pub open spec fn walk(
    net: &MachineNet,
    fuel: nat,
    c: char,
    id: i32,
    k: int,
    visited: Set<TransitionId>,
    next: Set<char>,
) -> (Set<char>, Set<TransitionId>)
    decreases fuel, net.spec_state(c, id).transitions@.len() - k + 1,
{
    let trans = net.spec_state(c, id).transitions@;
    if !net.has_position(c, id) || k < 0 || k >= trans.len() {
        (Set::empty(), visited)
    } else {
        let tid = (net.machine_pos(c) as usize, net.spec_machine(c).state_pos(id) as usize, k as usize);
        let t = trans[k];
        if visited.contains(tid) {
            walk(net, fuel, c, id, k + 1, visited, next)
        } else if !t.spec_is_nonterminal() {
            let rest = walk(net, fuel, c, id, k + 1, visited.insert(tid), next);
            (rest.0.insert(t.character), rest.1)
        } else {
            let after = visit(net, fuel, c, t.dest_id, visited.insert(tid), next);
            let inner = visit(net, fuel, t.character, 0, after.1, after.0);
            let rest = walk(net, fuel, c, id, k + 1, inner.1, next);
            (inner.0.union(rest.0), rest.1)
        }
    }
}

/// The terminals that may follow a recognition starting at `(c, id)` when
/// `next` may follow the machine `c`, and the visited set after the walk.
pub open spec fn visit(
    net: &MachineNet,
    fuel: nat,
    c: char,
    id: i32,
    visited: Set<TransitionId>,
    next: Set<char>,
) -> (Set<char>, Set<TransitionId>)
    decreases fuel, 0int,
{
    if fuel == 0 || !net.has_position(c, id) {
        (Set::empty(), visited)
    } else {
        let r = walk(net, (fuel - 1) as nat, c, id, 0, visited, next);
        if net.spec_state(c, id).is_final {
            (r.0.union(next), r.1)
        } else {
            r
        }
    }
}

/// The followers of `(c, id)` under `next`, walked from an empty visited set.
pub open spec fn spec_followers(net: &MachineNet, c: char, id: i32, next: Set<char>) -> Set<char> {
    visit(net, WALK_DEPTH as nat, c, id, Set::empty(), next).0
}

impl MachineNet {
    pub proof fn lemma_position(&self, c: char, id: i32)
        requires
            self.well_formed(),
            self.has_position(c, id),
        ensures
            self.is_first_machine(c, self.machine_pos(c)),
            self.spec_machine(c).is_first_state(id, self.spec_machine(c).state_pos(id)),
            self.machine_ok(self.spec_machine(c)),
            forall|k: int|
                0 <= k < self.spec_state(c, id).transitions@.len() ==> self.transition_ok(
                    self.spec_machine(c),
                    #[trigger] self.spec_state(c, id).transitions@[k],
                ),
    {
        self.lemma_machine_pos(c);
        self.spec_machine(c).lemma_state_pos(id);
        let m = self.spec_machine(c);
        assert(self.machine_ok(m));
        let j = m.state_pos(id);
        assert forall|k: int|
            0 <= k < self.spec_state(c, id).transitions@.len() implies self.transition_ok(
            m,
            #[trigger] self.spec_state(c, id).transitions@[k],
        ) by {
            assert(m.states@[j].transitions@[k] == self.spec_state(c, id).transitions@[k]);
        }
    }

    fn followers_impl(
        &self,
        c: char,
        id: i32,
        visited: &mut Vec<TransitionId>,
        next: &Vec<char>,
        fuel: u64,
    ) -> (r: Vec<char>)
        requires
            self.well_formed(),
            self.has_position(c, id),
            is_char_set(next@),
        ensures
            is_char_set(r@),
            (r@.to_set(), final(visited)@.to_set()) == visit(
                self,
                fuel as nat,
                c,
                id,
                old(visited)@.to_set(),
                next@.to_set(),
            ),
        decreases fuel, 0int,
    {
        let mut res: Vec<char> = Vec::new();
        if fuel == 0 {
            proof {
                assert(res@.to_set() =~= Set::empty());
            }
            return res;
        }
        let f: u64 = fuel - 1;
        let mi = self.find_machine(c).unwrap();
        let machine = &self.machines[mi];
        let si = machine.find_state(id).unwrap();
        let state = &machine.states[si];
        proof {
            self.lemma_position(c, id);
            assert(res@.to_set() =~= Set::empty());
        }
        let ghost v0 = visited@.to_set();
        let ghost n = next@.to_set();
        let ghost total = walk(self, f as nat, c, id, 0, v0, n);
        let mut k: usize = 0;
        while k < state.transitions.len()
            invariant
                self.well_formed(),
                self.has_position(c, id),
                is_char_set(next@),
                is_char_set(res@),
                n == next@.to_set(),
                fuel == f + 1,
                *state == self.spec_state(c, id),
                mi == self.machine_pos(c),
                si == self.spec_machine(c).state_pos(id),
                forall|q: int|
                    0 <= q < self.spec_state(c, id).transitions@.len() ==> self.transition_ok(
                        self.spec_machine(c),
                        #[trigger] self.spec_state(c, id).transitions@[q],
                    ),
                self.machine_ok(self.spec_machine(c)),
                k <= state.transitions@.len(),
                total == walk(self, f as nat, c, id, 0, v0, n),
                total.1 == walk(self, f as nat, c, id, k as int, visited@.to_set(), n).1,
                total.0 == res@.to_set().union(
                    walk(self, f as nat, c, id, k as int, visited@.to_set(), n).0,
                ),
            decreases state.transitions@.len() - k,
        {
            let t = state.transitions[k];
            let tid: TransitionId = (mi, si, k);
            let ghost vs = visited@.to_set();
            let ghost res0 = res@.to_set();
            let ghost step = walk(self, f as nat, c, id, k as int, vs, n);
            if !contains_tid(visited, tid) {
                let ghost pre = visited@;
                visited.push(tid);
                proof {
                    pre.lemma_push_to_set_commute(tid);
                }
                if !t.is_nonterminal() {
                    insert_char(&mut res, t.character);
                    proof {
                        let rest = walk(self, f as nat, c, id, k + 1, vs.insert(tid), n);
                        assert(step == (rest.0.insert(t.character), rest.1));
                        assert(total.0 =~= res@.to_set().union(rest.0));
                    }
                } else {
                    proof {
                        assert(self.transition_ok(self.spec_machine(c), t));
                        self.lemma_machine_pos(t.character);
                        assert(self.machine_ok(self.machines@[self.machine_pos(t.character)]));
                    }
                    let nextnext = self.followers_impl(c, t.dest_id, visited, next, f);
                    let rec_fol = self.followers_impl(t.character, 0, visited, &nextnext, f);
                    union_chars(&mut res, &rec_fol);
                    proof {
                        let after = visit(self, f as nat, c, t.dest_id, vs.insert(tid), n);
                        let inner = visit(self, f as nat, t.character, 0, after.1, after.0);
                        let rest = walk(self, f as nat, c, id, k + 1, inner.1, n);
                        assert(step == (inner.0.union(rest.0), rest.1));
                        assert(total.0 =~= res@.to_set().union(rest.0));
                    }
                }
            } else {
                proof {
                    assert(vs.contains(tid));
                }
            }
            k += 1;
        }
        proof {
            assert(walk(self, f as nat, c, id, k as int, visited@.to_set(), n).0 =~= Set::empty());
            assert(total.0 =~= res@.to_set());
        }
        if state.is_final {
            union_chars(&mut res, next);
        }
        res
    }

    /// The terminals that may appear right after a recognition starting at
    /// the state `id` of the machine `c`, when `next` may follow the machine.
    /// The result is strictly increasing.
    pub fn followers(&self, c: char, id: i32, next: &Vec<char>) -> (r: Vec<char>)
        requires
            self.well_formed(),
            self.has_position(c, id),
            is_char_set(next@),
        ensures
            is_char_set(r@),
            r@.to_set() == spec_followers(self, c, id, next@.to_set()),
    {
        let mut visited: Vec<TransitionId> = Vec::new();
        proof {
            assert(visited@.to_set() =~= Set::empty());
        }
        self.followers_impl(c, id, &mut visited, next, WALK_DEPTH)
    }
}

proof fn lemma_walk_monotone(
    net: &MachineNet,
    fuel: nat,
    c: char,
    id: i32,
    k: int,
    visited: Set<TransitionId>,
    n1: Set<char>,
    n2: Set<char>,
)
    requires
        n1.subset_of(n2),
    ensures
        walk(net, fuel, c, id, k, visited, n1).1 == walk(net, fuel, c, id, k, visited, n2).1,
        walk(net, fuel, c, id, k, visited, n1).0.subset_of(walk(net, fuel, c, id, k, visited, n2).0),
    decreases fuel, net.spec_state(c, id).transitions@.len() - k + 1,
{
    let trans = net.spec_state(c, id).transitions@;
    if !net.has_position(c, id) || k < 0 || k >= trans.len() {
    } else {
        let tid = (net.machine_pos(c) as usize, net.spec_machine(c).state_pos(id) as usize, k as usize);
        let t = trans[k];
        if visited.contains(tid) {
            lemma_walk_monotone(net, fuel, c, id, k + 1, visited, n1, n2);
        } else if !t.spec_is_nonterminal() {
            lemma_walk_monotone(net, fuel, c, id, k + 1, visited.insert(tid), n1, n2);
        } else {
            let a1 = visit(net, fuel, c, t.dest_id, visited.insert(tid), n1);
            let a2 = visit(net, fuel, c, t.dest_id, visited.insert(tid), n2);
            lemma_visit_monotone(net, fuel, c, t.dest_id, visited.insert(tid), n1, n2);
            lemma_visit_monotone(net, fuel, t.character, 0, a1.1, a1.0, a2.0);
            let i1 = visit(net, fuel, t.character, 0, a1.1, a1.0);
            lemma_walk_monotone(net, fuel, c, id, k + 1, i1.1, n1, n2);
        }
    }
}

proof fn lemma_visit_monotone(
    net: &MachineNet,
    fuel: nat,
    c: char,
    id: i32,
    visited: Set<TransitionId>,
    n1: Set<char>,
    n2: Set<char>,
)
    requires
        n1.subset_of(n2),
    ensures
        visit(net, fuel, c, id, visited, n1).1 == visit(net, fuel, c, id, visited, n2).1,
        visit(net, fuel, c, id, visited, n1).0.subset_of(visit(net, fuel, c, id, visited, n2).0),
    decreases fuel, 0int,
{
    if fuel == 0 || !net.has_position(c, id) {
    } else {
        lemma_walk_monotone(net, (fuel - 1) as nat, c, id, 0, visited, n1, n2);
    }
}

/// A wider context never loses a follower: if `n1` is a subset of `n2`, the
/// followers of a position under `n1` are among its followers under `n2`.
pub proof fn lemma_followers_monotone(net: &MachineNet, c: char, id: i32, n1: Set<char>, n2: Set<char>)
    requires
        n1.subset_of(n2),
    ensures
        spec_followers(net, c, id, n1).subset_of(spec_followers(net, c, id, n2)),
{
    lemma_visit_monotone(net, WALK_DEPTH as nat, c, id, Set::empty(), n1, n2);
}

/// `ch` labels some transition of the network.
pub open spec fn is_label(net: &MachineNet, ch: char) -> bool {
    exists|i: int, j: int, k: int|
        0 <= i < net.machines@.len() && 0 <= j < net.machines@[i].states@.len() && 0 <= k
            < net.machines@[i].states@[j].transitions@.len()
            && #[trigger] net.machines@[i].states@[j].transitions@[k].character == ch
}

proof fn lemma_walk_labels(
    net: &MachineNet,
    fuel: nat,
    c: char,
    id: i32,
    k: int,
    visited: Set<TransitionId>,
    next: Set<char>,
)
    ensures
        forall|ch: char|
            #[trigger] walk(net, fuel, c, id, k, visited, next).0.contains(ch) ==> is_label(net, ch)
                || next.contains(ch),
    decreases fuel, net.spec_state(c, id).transitions@.len() - k + 1,
{
    let trans = net.spec_state(c, id).transitions@;
    if !net.has_position(c, id) || k < 0 || k >= trans.len() {
        assert(walk(net, fuel, c, id, k, visited, next).0 == Set::<char>::empty());
    } else {
        let tid = (net.machine_pos(c) as usize, net.spec_machine(c).state_pos(id) as usize, k as usize);
        let t = trans[k];
        let w = walk(net, fuel, c, id, k, visited, next);
        if visited.contains(tid) {
            lemma_walk_labels(net, fuel, c, id, k + 1, visited, next);
            assert(w == walk(net, fuel, c, id, k + 1, visited, next));
        } else if !t.spec_is_nonterminal() {
            lemma_walk_labels(net, fuel, c, id, k + 1, visited.insert(tid), next);
            net.lemma_machine_pos(c);
            net.spec_machine(c).lemma_state_pos(id);
            let i = net.machine_pos(c);
            let j = net.spec_machine(c).state_pos(id);
            assert(net.machines@[i].states@[j].transitions@[k].character == t.character);
            let rest = walk(net, fuel, c, id, k + 1, visited.insert(tid), next);
            assert(w.0 == rest.0.insert(t.character));
            assert forall|ch: char| #[trigger] w.0.contains(ch) implies is_label(net, ch)
                || next.contains(ch) by {
                if ch != t.character {
                    assert(rest.0.contains(ch));
                }
            }
        } else {
            let a = visit(net, fuel, c, t.dest_id, visited.insert(tid), next);
            lemma_visit_labels(net, fuel, c, t.dest_id, visited.insert(tid), next);
            lemma_visit_labels(net, fuel, t.character, 0, a.1, a.0);
            let inner = visit(net, fuel, t.character, 0, a.1, a.0);
            lemma_walk_labels(net, fuel, c, id, k + 1, inner.1, next);
            let rest = walk(net, fuel, c, id, k + 1, inner.1, next);
            assert(w.0 == inner.0.union(rest.0));
            assert forall|ch: char| #[trigger] w.0.contains(ch) implies is_label(net, ch)
                || next.contains(ch) by {
                if inner.0.contains(ch) {
                    assert(is_label(net, ch) || a.0.contains(ch));
                } else {
                    assert(rest.0.contains(ch));
                }
            }
        }
    }
}

proof fn lemma_visit_labels(
    net: &MachineNet,
    fuel: nat,
    c: char,
    id: i32,
    visited: Set<TransitionId>,
    next: Set<char>,
)
    ensures
        forall|ch: char|
            #[trigger] visit(net, fuel, c, id, visited, next).0.contains(ch) ==> is_label(net, ch)
                || next.contains(ch),
    decreases fuel, 0int,
{
    if fuel == 0 || !net.has_position(c, id) {
    } else {
        lemma_walk_labels(net, (fuel - 1) as nat, c, id, 0, visited, next);
        let r = walk(net, (fuel - 1) as nat, c, id, 0, visited, next);
        assert forall|ch: char|
            #[trigger] visit(net, fuel, c, id, visited, next).0.contains(ch) implies is_label(net, ch)
                || next.contains(ch) by {
            assert(r.0.contains(ch) || next.contains(ch));
        }
    }
}

/// Every follower labels a transition of the network or belongs to the context.
pub proof fn lemma_followers_labels(net: &MachineNet, c: char, id: i32, next: Set<char>)
    ensures
        forall|ch: char|
            #[trigger] spec_followers(net, c, id, next).contains(ch) ==> is_label(net, ch)
                || next.contains(ch),
{
    lemma_visit_labels(net, WALK_DEPTH as nat, c, id, Set::empty(), next);
}

fn contains_tid(v: &Vec<TransitionId>, t: TransitionId) -> (r: bool)
    ensures
        r == v@.to_set().contains(t),
{
    let mut i: usize = 0;
    while i < v.len()
        invariant
            i <= v@.len(),
            forall|k: int| 0 <= k < i ==> v@[k] != t,
        decreases v@.len() - i,
    {
        let x = v[i];
        if x.0 == t.0 && x.1 == t.1 && x.2 == t.2 {
            proof {
                assert(v@.contains(t) && v@.to_set().contains(t)) by {
                    assert(v@[i as int] == t);
                }
            }
            return true;
        }
        i += 1;
    }
    false
}

} // verus!
