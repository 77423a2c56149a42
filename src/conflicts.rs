//! Shift-reduce, reduce-reduce and convergence conflicts of a pilot.
use vstd::prelude::*;
use crate::candidate::Candidate;
use crate::dot::{decimal, push_decimal, push_str, string_from_chars, text_line};
use crate::pilot::{Pilot, PilotState, PilotTransition, seeds_of};

verus! {

/// The final candidate `candidate_idx` of the state `state_id` reduces on a
/// lookahead on which the state also shifts.
#[derive(Debug, Clone, Copy, PartialEq, Eq, Structural)]
pub struct ShiftReduceConflict {
    pub state_id: usize,
    pub candidate_idx: usize,
}

/// Two final candidates of the state `state_id` reduce on one lookahead.
#[derive(Debug, Clone, Copy, PartialEq, Eq, Structural)]
pub struct ReduceReduceConflict {
    pub state_id: usize,
    pub candidate_1_idx: usize,
    pub candidate_2_idx: usize,
}

/// The transition on `transition_char` from `state_1_id` to `state_2_id`
/// merged seeds: its multiplicity differs from the seed count of its target.
#[derive(Debug, Clone, Copy, PartialEq, Eq, Structural)]
pub struct ConvergenceConflict {
    pub state_1_id: usize,
    pub transition_char: char,
    pub state_2_id: usize,
}

/// The candidate `k` of `st` is final and its lookahead labels a transition.
pub open spec fn is_shift_reduce(st: PilotState, k: int) -> bool {
    &&& 0 <= k < st.candidates@.len()
    &&& st.candidates@[k].is_final
    &&& exists|q: int|
        0 <= q < st.transitions@.len() && (#[trigger] st.transitions@[q]).character
            == st.candidates@[k].lookahead
}

/// The candidates `i < j` of `st` are final with equal lookaheads.
pub open spec fn is_reduce_reduce(st: PilotState, i: int, j: int) -> bool {
    &&& 0 <= i < j < st.candidates@.len()
    &&& st.candidates@[i].is_final
    &&& st.candidates@[j].is_final
    &&& st.candidates@[i].lookahead == st.candidates@[j].lookahead
}

/// The shift-reduce conflicts of the first `n` candidates of `st`, in order.
pub open spec fn sr_list(st: PilotState, n: int) -> Seq<ShiftReduceConflict>
    decreases n,
{
    if n <= 0 {
        Seq::empty()
    } else {
        sr_list(st, n - 1) + if is_shift_reduce(st, n - 1) {
            seq![ShiftReduceConflict { state_id: st.id, candidate_idx: (n - 1) as usize }]
        } else {
            Seq::empty()
        }
    }
}

/// The reduce-reduce conflicts of the candidate `i` with the candidates
/// after it and before `m`, in order.
pub open spec fn rr_row(st: PilotState, i: int, m: int) -> Seq<ReduceReduceConflict>
    decreases m - i,
{
    if m <= i + 1 {
        Seq::empty()
    } else {
        rr_row(st, i, m - 1) + if is_reduce_reduce(st, i, m - 1) {
            seq![
                ReduceReduceConflict {
                    state_id: st.id,
                    candidate_1_idx: i as usize,
                    candidate_2_idx: (m - 1) as usize,
                },
            ]
        } else {
            Seq::empty()
        }
    }
}

/// The reduce-reduce conflicts whose first candidate is before `n`, by
/// increasing pair of indices.
pub open spec fn rr_list(st: PilotState, n: int) -> Seq<ReduceReduceConflict>
    decreases n,
{
    if n <= 0 {
        Seq::empty()
    } else {
        rr_list(st, n - 1) + rr_row(st, n - 1, st.candidates@.len() as int)
    }
}

fn has_transition_char(ts: &Vec<PilotTransition>, c: char) -> (r: bool)
    ensures
        r == exists|q: int| 0 <= q < ts@.len() && (#[trigger] ts@[q]).character == c,
{
    let mut q: usize = 0;
    while q < ts.len()
        invariant
            q <= ts@.len(),
            forall|p: int| 0 <= p < q ==> ts@[p].character != c,
        decreases ts@.len() - q,
    {
        if ts[q].character == c {
            return true;
        }
        q += 1;
    }
    false
}

/// The transition `t` of `p` leads to a state whose number of seeds is not
/// its multiplicity.
pub open spec fn diverges(p: &Pilot, t: PilotTransition) -> bool {
    seeds_of(p.spec_lookup(t.dest_id).candidates@).len() != t.multiplicity
}

pub open spec fn convergence_of(st: PilotState, t: PilotTransition) -> ConvergenceConflict {
    ConvergenceConflict { state_1_id: st.id, transition_char: t.character, state_2_id: t.dest_id }
}

/// The convergence conflicts of the first `n` transitions of `st`.
pub open spec fn state_convergences(p: &Pilot, st: PilotState, n: int) -> Seq<ConvergenceConflict>
    decreases n,
{
    if n <= 0 {
        Seq::empty()
    } else {
        let t = st.transitions@[n - 1];
        state_convergences(p, st, n - 1) + if diverges(p, t) {
            seq![convergence_of(st, t)]
        } else {
            Seq::empty()
        }
    }
}

/// The convergence conflicts of the first `n` states of `p`, state by state.
pub open spec fn convergences(p: &Pilot, n: int) -> Seq<ConvergenceConflict>
    decreases n,
{
    if n <= 0 {
        Seq::empty()
    } else {
        let st = p.states@[n - 1];
        convergences(p, n - 1) + state_convergences(p, st, st.transitions@.len() as int)
    }
}

/// Every transition of `p` leads to a state of `p`.
pub open spec fn targets_exist(p: &Pilot) -> bool {
    forall|s: int, q: int|
        0 <= s < p.states@.len() && 0 <= q < p.states@[s].transitions@.len() ==> p.has_state(
            (#[trigger] p.states@[s].transitions@[q]).dest_id,
        )
}

impl Pilot {
    /// Every convergence conflict, state by state and transition by transition.
    pub fn convergence_conflicts(&self) -> (r: Vec<ConvergenceConflict>)
        requires
            targets_exist(self),
        ensures
            r@ == convergences(self, self.states@.len() as int),
    {
        let mut res: Vec<ConvergenceConflict> = Vec::new();
        let mut s: usize = 0;
        while s < self.states.len()
            invariant
                targets_exist(self),
                s <= self.states@.len(),
                res@ == convergences(self, s as int),
            decreases self.states@.len() - s,
        {
            let state = &self.states[s];
            let ghost base = res@;
            let mut q: usize = 0;
            while q < state.transitions.len()
                invariant
                    targets_exist(self),
                    s < self.states@.len(),
                    *state == self.states@[s as int],
                    q <= state.transitions@.len(),
                    res@ == base + state_convergences(self, *state, q as int),
                decreases state.transitions@.len() - q,
            {
                let trans = state.transitions[q];
                proof {
                    assert(self.has_state(self.states@[s as int].transitions@[q as int].dest_id));
                }
                let dest_state = self.lookup_state(trans.dest_id);
                let n_seeds = dest_state.seed_count();
                if n_seeds != trans.multiplicity {
                    res.push(ConvergenceConflict { state_1_id: state.id, transition_char: trans.character, state_2_id: trans.dest_id });
                }
                proof {
                    assert(res@ =~= base + state_convergences(self, *state, q + 1));
                }
                q += 1;
            }
            s += 1;
        }
        res
    }
}

impl PilotState {
    /// Every shift-reduce conflict of the state, by increasing candidate index.
    pub fn shift_reduce_conflicts(&self) -> (r: Vec<ShiftReduceConflict>)
        ensures
            r@ == sr_list(*self, self.candidates@.len() as int),
    {
        let mut res: Vec<ShiftReduceConflict> = Vec::new();
        let mut i: usize = 0;
        while i < self.candidates.len()
            invariant
                i <= self.candidates@.len(),
                res@ == sr_list(*self, i as int),
            decreases self.candidates@.len() - i,
        {
            let cand = &self.candidates[i];
            let ghost before = res@;
            if cand.is_final && has_transition_char(&self.transitions, cand.lookahead) {
                res.push(ShiftReduceConflict { state_id: self.id, candidate_idx: i });
            }
            proof {
                assert(res@ =~= sr_list(*self, i + 1));
            }
            i += 1;
        }
        res
    }

    /// Every reduce-reduce conflict of the state, by increasing pair of
    /// candidate indices.
    pub fn reduce_reduce_conflicts(&self) -> (r: Vec<ReduceReduceConflict>)
        ensures
            r@ == rr_list(*self, self.candidates@.len() as int),
    {
        let mut res: Vec<ReduceReduceConflict> = Vec::new();
        let n = self.candidates.len();
        let mut i: usize = 0;
        while i < n
            invariant
                n == self.candidates@.len(),
                i <= n,
                res@ == rr_list(*self, i as int),
            decreases n - i,
        {
            let ghost r0 = res@;
            let mut j: usize = i + 1;
            proof {
                assert(rr_row(*self, i as int, j as int) =~= Seq::empty());
                assert(res@ =~= r0 + rr_row(*self, i as int, j as int));
            }
            while j < n
                invariant
                    n == self.candidates@.len(),
                    i < n,
                    i + 1 <= j <= n,
                    res@ == r0 + rr_row(*self, i as int, j as int),
                decreases n - j,
            {
                let ci = &self.candidates[i];
                let cj = &self.candidates[j];
                if ci.is_final && cj.is_final && ci.lookahead == cj.lookahead {
                    res.push(ReduceReduceConflict { state_id: self.id, candidate_1_idx: i, candidate_2_idx: j });
                }
                proof {
                    assert(res@ =~= r0 + rr_row(*self, i as int, j + 1));
                }
                j += 1;
            }
            proof {
                assert(res@ =~= rr_list(*self, i + 1));
            }
            i += 1;
        }
        res
    }

    /// The number of distinct seed candidates.
    pub fn seed_count(&self) -> (r: usize)
        ensures
            r == seeds_of(self.candidates@).len(),
    {
        let ghost s = self.candidates@;
        let mut n: usize = 0;
        let mut i: usize = 0;
        proof {
            assert(seeds_of(s.subrange(0, 0)) =~= Set::empty());
        }
        while i < self.candidates.len()
            invariant
                s == self.candidates@,
                i <= s.len(),
                n <= i,
                seeds_of(s.subrange(0, i as int)).finite(),
                n == seeds_of(s.subrange(0, i as int)).len(),
            decreases s.len() - i,
        {
            let c = self.candidates[i];
            let ghost prev = seeds_of(s.subrange(0, i as int));
            let mut seen = false;
            let mut k: usize = 0;
            while k < i
                invariant
                    s == self.candidates@,
                    i < s.len(),
                    k <= i,
                    c == s[i as int],
                    seen == exists|p: int| 0 <= p < k && s[p] == c,
                decreases i - k,
            {
                if self.candidates[k] == c {
                    seen = true;
                }
                k += 1;
            }
            proof {
                let p = s.subrange(0, i as int);
                let q = s.subrange(0, i + 1);
                assert(q =~= p.push(c));
                if c.is_seed && !seen {
                    assert(!prev.contains(c)) by {
                        if prev.contains(c) {
                            let w = choose|w: int| 0 <= w < p.len() && p[w] == c;
                            assert(s[w] == c);
                        }
                    }
                    assert(seeds_of(q) =~= prev.insert(c)) by {
                        assert forall|d: Candidate| seeds_of(q).contains(d) <==> prev.insert(c).contains(d) by {
                            if seeds_of(q).contains(d) && d != c {
                                let w = choose|w: int| 0 <= w < q.len() && q[w] == d;
                                assert(p[w] == d);
                            }
                            if prev.contains(d) {
                                let w = choose|w: int| 0 <= w < p.len() && p[w] == d;
                                assert(q[w] == d);
                            }
                            if d == c {
                                assert(q[i as int] == c);
                            }
                        }
                    }
                } else {
                    assert(seeds_of(q) =~= prev) by {
                        assert forall|d: Candidate| seeds_of(q).contains(d) <==> prev.contains(d) by {
                            if seeds_of(q).contains(d) {
                                let w = choose|w: int| 0 <= w < q.len() && q[w] == d;
                                if w == i {
                                    let v = choose|v: int| 0 <= v < i && s[v] == c;
                                    assert(p[v] == d);
                                } else {
                                    assert(p[w] == d);
                                }
                            }
                            if prev.contains(d) {
                                let w = choose|w: int| 0 <= w < p.len() && p[w] == d;
                                assert(q[w] == d);
                            }
                        }
                    }
                }
            }
            if c.is_seed && !seen {
                n += 1;
            }
            i += 1;
        }
        proof {
            assert(s.subrange(0, s.len() as int) =~= s);
        }
        n
    }
}

/// A conflict of any of the three kinds.
#[derive(Debug, Clone, Copy, PartialEq, Eq, Structural)]
pub enum Conflict {
    ShiftReduce(ShiftReduceConflict),
    ReduceReduce(ReduceReduceConflict),
    Convergence(ConvergenceConflict),
}

/// The conflicts found in one state: its shift-reduce conflicts, then its
/// reduce-reduce conflicts.
pub open spec fn state_report(st: PilotState) -> Seq<Conflict> {
    let n = st.candidates@.len() as int;
    sr_list(st, n).map_values(|c: ShiftReduceConflict| Conflict::ShiftReduce(c)) + rr_list(st, n).map_values(
        |c: ReduceReduceConflict| Conflict::ReduceReduce(c),
    )
}

/// The conflicts found in the first `n` states, state by state.
pub open spec fn states_report(states: Seq<PilotState>, n: int) -> Seq<Conflict>
    decreases n,
{
    if n <= 0 {
        Seq::empty()
    } else {
        states_report(states, n - 1) + state_report(states[n - 1])
    }
}

/// Every conflict of `p`: state by state its shift-reduce then its
/// reduce-reduce conflicts, then the convergence conflicts.
pub open spec fn report(p: &Pilot) -> Seq<Conflict> {
    states_report(p.states@, p.states@.len() as int) + convergences(p, p.states@.len() as int).map_values(
        |c: ConvergenceConflict| Conflict::Convergence(c),
    )
}

/// The line that reports a conflict.
pub open spec fn line_text(c: Conflict) -> Seq<char> {
    match c {
        Conflict::ShiftReduce(c) => "shift-reduce conflict in state "@ + decimal(c.state_id as nat)
            + ", candidate "@ + decimal(c.candidate_idx as nat) + " is final"@,
        Conflict::ReduceReduce(c) => "reduce-reduce conflict in state "@ + decimal(c.state_id as nat)
            + ", candidates "@ + decimal(c.candidate_1_idx as nat) + " and "@ + decimal(
            c.candidate_2_idx as nat,
        ),
        Conflict::Convergence(c) => "convergence conflict: multiple transition from state "@ + decimal(
            c.state_1_id as nat,
        ) + " character "@ + seq![c.transition_char] + " leads to merged base set in state "@
            + decimal(c.state_2_id as nat),
    }
}

fn conflict_line(c: Conflict) -> (r: String)
    ensures
        r@ == line_text(c),
{
    let mut out: Vec<char> = Vec::new();
    match c {
        Conflict::ShiftReduce(c) => {
            push_str(&mut out, "shift-reduce conflict in state ");
            push_decimal(&mut out, c.state_id as u64);
            push_str(&mut out, ", candidate ");
            push_decimal(&mut out, c.candidate_idx as u64);
            push_str(&mut out, " is final");
        },
        Conflict::ReduceReduce(c) => {
            push_str(&mut out, "reduce-reduce conflict in state ");
            push_decimal(&mut out, c.state_id as u64);
            push_str(&mut out, ", candidates ");
            push_decimal(&mut out, c.candidate_1_idx as u64);
            push_str(&mut out, " and ");
            push_decimal(&mut out, c.candidate_2_idx as u64);
        },
        Conflict::Convergence(c) => {
            push_str(&mut out, "convergence conflict: multiple transition from state ");
            push_decimal(&mut out, c.state_1_id as u64);
            push_str(&mut out, " character ");
            out.push(c.transition_char);
            push_str(&mut out, " leads to merged base set in state ");
            push_decimal(&mut out, c.state_2_id as u64);
        },
    }
    assert(out@ =~= line_text(c));
    string_from_chars(out)
}

impl Pilot {
    /// Every conflict of the pilot, in the order in which it is reported.
    pub fn conflicts(&self) -> (r: Vec<Conflict>)
        requires
            targets_exist(self),
        ensures
            r@ == report(self),
    {
        let mut res: Vec<Conflict> = Vec::new();
        let mut s: usize = 0;
        while s < self.states.len()
            invariant
                s <= self.states@.len(),
                res@ == states_report(self.states@, s as int),
            decreases self.states@.len() - s,
        {
            let st = &self.states[s];
            let sr = st.shift_reduce_conflicts();
            let rr = st.reduce_reduce_conflicts();
            let ghost r0 = res@;
            let mut k: usize = 0;
            while k < sr.len()
                invariant
                    k <= sr@.len(),
                    res@ == r0 + sr@.take(k as int).map_values(|c: ShiftReduceConflict| Conflict::ShiftReduce(c)),
                decreases sr@.len() - k,
            {
                res.push(Conflict::ShiftReduce(sr[k]));
                proof {
                    assert(sr@.take(k + 1) =~= sr@.take(k as int).push(sr@[k as int]));
                }
                k += 1;
                assert(res@ =~= r0 + sr@.take(k as int).map_values(|c: ShiftReduceConflict| Conflict::ShiftReduce(c)));
            }
            let ghost r1 = res@;
            let mut k: usize = 0;
            while k < rr.len()
                invariant
                    k <= rr@.len(),
                    res@ == r1 + rr@.take(k as int).map_values(|c: ReduceReduceConflict| Conflict::ReduceReduce(c)),
                decreases rr@.len() - k,
            {
                res.push(Conflict::ReduceReduce(rr[k]));
                proof {
                    assert(rr@.take(k + 1) =~= rr@.take(k as int).push(rr@[k as int]));
                }
                k += 1;
                assert(res@ =~= r1 + rr@.take(k as int).map_values(|c: ReduceReduceConflict| Conflict::ReduceReduce(c)));
            }
            proof {
                assert(sr@.take(sr@.len() as int) =~= sr@);
                assert(rr@.take(rr@.len() as int) =~= rr@);
                assert(res@ =~= states_report(self.states@, s + 1));
            }
            s += 1;
        }
        let conv = self.convergence_conflicts();
        let ghost r2 = res@;
        let mut k: usize = 0;
        while k < conv.len()
            invariant
                k <= conv@.len(),
                res@ == r2 + conv@.take(k as int).map_values(|c: ConvergenceConflict| Conflict::Convergence(c)),
            decreases conv@.len() - k,
        {
            res.push(Conflict::Convergence(conv[k]));
            proof {
                assert(conv@.take(k + 1) =~= conv@.take(k as int).push(conv@[k as int]));
            }
            k += 1;
            assert(res@ =~= r2 + conv@.take(k as int).map_values(|c: ConvergenceConflict| Conflict::Convergence(c)));
        }
        proof {
            assert(conv@.take(conv@.len() as int) =~= conv@);
            assert(res@ =~= report(self));
        }
        res
    }

    /// The lines of the conflict report: one per conflict, or the single
    /// line `no conflicts`.
    pub fn conflict_report(&self) -> (r: Vec<String>)
        requires
            targets_exist(self),
        ensures
            report(self).len() == 0 ==> r@.len() == 1 && r@[0]@ == "no conflicts"@,
            report(self).len() > 0 ==> r@.len() == report(self).len() && forall|i: int|
                0 <= i < r@.len() ==> (#[trigger] r@[i])@ == line_text(report(self)[i]),
    {
        let cs = self.conflicts();
        let mut lines: Vec<String> = Vec::new();
        if cs.len() == 0 {
            lines.push(string_from_chars(text_line("no conflicts")));
            return lines;
        }
        let mut k: usize = 0;
        while k < cs.len()
            invariant
                k <= cs@.len(),
                cs@ == report(self),
                lines@.len() == k,
                forall|i: int| 0 <= i < k ==> (#[trigger] lines@[i])@ == line_text(cs@[i]),
            decreases cs@.len() - k,
        {
            lines.push(conflict_line(cs[k]));
            k += 1;
        }
        lines
    }
}

} // verus!