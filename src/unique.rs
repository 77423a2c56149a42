//! A network has one pilot: the contract of pilot construction fixes its
//! result, so two constructions on one network give the same pilot.
use vstd::prelude::*;
use crate::candidate::{Candidate, cand_lt, is_cand_set, lemma_cand_lt_total};
use crate::closure::{is_closure_of, lemma_closure_unique};
use crate::conflicts::{
    convergences, diverges, report, rr_list, rr_row, sr_list, state_convergences, state_report,
    states_report,
};
use crate::dot::{dot_text, state_lines};
use crate::net::MachineNet;
use crate::pilot::{
    Pilot, PilotState, PilotTransition, distinct_seeds, initial_candidate, is_pilot_of, lemma_closure_keeps_seeds,
    numbered_in_order, reached_before, referenced_before, seeds_of, state_built,
    transitions_built,
};
use crate::shift::{outgoing, shift_set};

verus! {

proof fn lemma_cand_sets_equal(x: Seq<Candidate>, y: Seq<Candidate>)
    requires
        is_cand_set(x),
        is_cand_set(y),
        x.to_set() == y.to_set(),
    ensures
        x == y,
    decreases x.len(),
{
    if x.len() == 0 {
        if y.len() > 0 {
            assert(y.to_set().contains(y[0]));
        }
        assert(x =~= y);
    } else {
        assert(x.to_set().contains(x[0]));
        assert(y.len() > 0);
        assert(y.to_set().contains(y[0]));
        let k = choose|k: int| 0 <= k < y.len() && y[k] == x[0];
        let m = choose|m: int| 0 <= m < x.len() && x[m] == y[0];
        lemma_cand_lt_total(x[0], y[0]);
        if k > 0 {
            assert(cand_lt(y[0], x[0]));
            if m > 0 {
                assert(cand_lt(x[0], y[0]));
            }
        }
        assert(x[0] == y[0]);
        let x1 = x.drop_first();
        let y1 = y.drop_first();
        assert forall|c: Candidate| x1.to_set().contains(c) <==> y1.to_set().contains(c) by {
            if x1.contains(c) {
                let i = choose|i: int| 0 <= i < x1.len() && x1[i] == c;
                assert(x.contains(c) && c != x[0]) by {
                    assert(x[i + 1] == c);
                    assert(cand_lt(x[0], x[i + 1]));
                    lemma_cand_lt_total(c, c);
                }
                assert(y.to_set().contains(c));
                let w = choose|w: int| 0 <= w < y.len() && y[w] == c;
                assert(w > 0);
                assert(y1[w - 1] == c);
            }
            if y1.contains(c) {
                let i = choose|i: int| 0 <= i < y1.len() && y1[i] == c;
                assert(y.contains(c) && c != y[0]) by {
                    assert(y[i + 1] == c);
                    assert(cand_lt(y[0], y[i + 1]));
                    lemma_cand_lt_total(c, c);
                }
                assert(x.to_set().contains(c));
                let w = choose|w: int| 0 <= w < x.len() && x[w] == c;
                assert(w > 0);
                assert(x1[w - 1] == c);
            }
        }
        assert(x1.to_set() =~= y1.to_set());
        lemma_cand_sets_equal(x1, y1);
        assert(x =~= seq![x[0]] + x1);
        assert(y =~= seq![y[0]] + y1);
    }
}

/// Some transition of `x` is on `c`.
pub open spec fn has_char(x: Seq<PilotTransition>, c: char) -> bool {
    exists|q: int| 0 <= q < x.len() && (#[trigger] x[q]).character == c
}

proof fn lemma_char_seqs_equal(x: Seq<PilotTransition>, y: Seq<PilotTransition>)
    requires
        forall|a: int, b: int| 0 <= a < b < x.len() ==> (#[trigger] x[a]).character < (#[trigger] x[b]).character,
        forall|a: int, b: int| 0 <= a < b < y.len() ==> (#[trigger] y[a]).character < (#[trigger] y[b]).character,
        forall|c: char| #[trigger] has_char(x, c) <==> has_char(y, c),
    ensures
        x.len() == y.len(),
        forall|q: int| 0 <= q < x.len() ==> (#[trigger] x[q]).character == y[q].character,
    decreases x.len(),
{
    if x.len() == 0 {
        if y.len() > 0 {
            assert(has_char(y, y[0].character));
            assert(has_char(x, y[0].character));
        }
    } else {
        assert(has_char(x, x[0].character));
        assert(has_char(y, x[0].character));
        let k = choose|k: int| 0 <= k < y.len() && (#[trigger] y[k]).character == x[0].character;
        assert(has_char(y, y[0].character));
        assert(has_char(x, y[0].character));
        let m = choose|m: int| 0 <= m < x.len() && (#[trigger] x[m]).character == y[0].character;
        if k > 0 {
            assert(y[0].character < y[k].character);
            if m > 0 {
                assert(x[0].character < x[m].character);
            }
        }
        assert(x[0].character == y[0].character);
        let x1 = x.drop_first();
        let y1 = y.drop_first();
        assert forall|c: char| #[trigger] has_char(x1, c) <==> has_char(y1, c) by {
            if has_char(x1, c) {
                let i = choose|i: int| 0 <= i < x1.len() && (#[trigger] x1[i]).character == c;
                assert(x[i + 1].character == c);
                assert(has_char(x, c));
                assert(has_char(y, c));
                assert(x[0].character < c);
                let w = choose|w: int| 0 <= w < y.len() && (#[trigger] y[w]).character == c;
                assert(w > 0);
                assert(y1[w - 1].character == c);
            }
            if has_char(y1, c) {
                let i = choose|i: int| 0 <= i < y1.len() && (#[trigger] y1[i]).character == c;
                assert(y[i + 1].character == c);
                assert(has_char(y, c));
                assert(has_char(x, c));
                assert(y[0].character < c);
                let w = choose|w: int| 0 <= w < x.len() && (#[trigger] x[w]).character == c;
                assert(w > 0);
                assert(x1[w - 1].character == c);
            }
        }
        lemma_char_seqs_equal(x1, y1);
        assert forall|q: int| 0 <= q < x.len() implies (#[trigger] x[q]).character == y[q].character by {
            if q > 0 {
                assert(x1[q - 1] == x[q] && y1[q - 1] == y[q]);
            }
        }
    }
}

proof fn lemma_initial_states(net: &MachineNet, a: Seq<PilotState>, b: Seq<PilotState>)
    requires
        is_pilot_of(net, a),
        is_pilot_of(net, b),
    ensures
        a[0].candidates@ == b[0].candidates@,
{
    assert(state_built(net, a[0], 0));
    assert(state_built(net, b[0], 0));
    lemma_closure_unique(net, seq![initial_candidate(net)], a[0].candidates@, b[0].candidates@);
}

/// The seed prefix of a state other than the first is its seeds in order.
proof fn lemma_seed_prefix(net: &MachineNet, st: PilotState, i: int) -> (n: int)
    requires
        state_built(net, st, i),
        i != 0,
    ensures
        0 < n <= st.candidates@.len(),
        is_cand_set(st.candidates@.subrange(0, n)),
        is_closure_of(net, st.candidates@.subrange(0, n), st.candidates@),
        st.candidates@.subrange(0, n).to_set() == seeds_of(st.candidates@),
{
    let cs = st.candidates@;
    let n = choose|n: int|
        0 < n <= cs.len() && is_cand_set(cs.subrange(0, n)) && (forall|j: int|
            0 <= j < n ==> (#[trigger] cs[j]).is_seed) && is_closure_of(net, cs.subrange(0, n), cs);
    let p = cs.subrange(0, n);
    lemma_closure_keeps_seeds(net, p, cs);
    assert forall|c: Candidate| p.to_set().contains(c) <==> seeds_of(p).contains(c) by {
        if p.contains(c) {
            let w = choose|w: int| 0 <= w < p.len() && p[w] == c;
            assert(cs[w] == c);
        }
    }
    assert(p.to_set() =~= seeds_of(p));
    n
}

proof fn lemma_same_candidates(net: &MachineNet, a: Seq<PilotState>, i: int, b: Seq<PilotState>, k: int)
    requires
        is_pilot_of(net, a),
        is_pilot_of(net, b),
        0 < i < a.len(),
        0 < k < b.len(),
        seeds_of(a[i].candidates@) == seeds_of(b[k].candidates@),
    ensures
        a[i].candidates@ == b[k].candidates@,
{
    assert(state_built(net, a[i], i));
    assert(state_built(net, b[k], k));
    let na = lemma_seed_prefix(net, a[i], i);
    let nb = lemma_seed_prefix(net, b[k], k);
    let pa = a[i].candidates@.subrange(0, na);
    let pb = b[k].candidates@.subrange(0, nb);
    lemma_cand_sets_equal(pa, pb);
    lemma_closure_unique(net, pa, a[i].candidates@, b[k].candidates@);
}

/// The seeds of the states of `a` before `j` are those of `b`.
pub open spec fn same_seeds_before(a: Seq<PilotState>, b: Seq<PilotState>, j: int) -> bool {
    &&& j <= a.len()
    &&& j <= b.len()
    &&& forall|d: int| 0 <= d < j ==> seeds_of((#[trigger] a[d]).candidates@) == seeds_of(b[d].candidates@)
}

proof fn lemma_same_candidates_at(net: &MachineNet, a: Seq<PilotState>, b: Seq<PilotState>, j: int, i: int)
    requires
        is_pilot_of(net, a),
        is_pilot_of(net, b),
        same_seeds_before(a, b, j),
        0 <= i < j,
    ensures
        a[i].candidates@ == b[i].candidates@,
{
    if i == 0 {
        lemma_initial_states(net, a, b);
    } else {
        assert(seeds_of(a[i].candidates@) == seeds_of(b[i].candidates@));
        lemma_same_candidates(net, a, i, b, i);
    }
}

proof fn lemma_same_chars(net: &MachineNet, a: Seq<PilotState>, b: Seq<PilotState>, i: int)
    requires
        is_pilot_of(net, a),
        is_pilot_of(net, b),
        0 <= i < a.len(),
        0 <= i < b.len(),
        a[i].candidates@ == b[i].candidates@,
    ensures
        a[i].transitions@.len() == b[i].transitions@.len(),
        forall|q: int|
            0 <= q < a[i].transitions@.len() ==> (#[trigger] a[i].transitions@[q]).character
                == b[i].transitions@[q].character,
{
    assert(transitions_built(net, a, i));
    assert(transitions_built(net, b, i));
    let ta = a[i].transitions@;
    let tb = b[i].transitions@;
    assert forall|c: char| #[trigger] has_char(ta, c) <==> has_char(tb, c) by {
        assert(outgoing(net, a[i].candidates@).contains(c) <==> has_char(ta, c));
        assert(outgoing(net, b[i].candidates@).contains(c) <==> has_char(tb, c));
    }
    lemma_char_seqs_equal(ta, tb);
}

proof fn lemma_first_ref(st: Seq<PilotState>, j: int, s: int, q: int) -> (r: (int, int))
    requires
        0 <= s < st.len(),
        0 <= q < st[s].transitions@.len(),
        st[s].transitions@[q].dest_id == j,
    ensures
        0 <= r.0 < st.len(),
        0 <= r.1 < st[r.0].transitions@.len(),
        st[r.0].transitions@[r.1].dest_id == j,
        !referenced_before(st, j, r.0, r.1),
        r.0 < s || (r.0 == s && r.1 <= q),
    decreases s, q,
{
    if referenced_before(st, j, s, q) {
        let (s2, q2) = choose|s2: int, q2: int|
            0 <= s2 < st.len() && 0 <= q2 < st[s2].transitions@.len() && (s2 < s || (s2 == s && q2 < q))
                && (#[trigger] st[s2].transitions@[q2]).dest_id == j;
        lemma_first_ref(st, j, s2, q2)
    } else {
        (s, q)
    }
}

/// With the seeds of the states before `j` shared, the state `j` of `a` is
/// a state of `b` with the same seeds.
proof fn lemma_next_state(net: &MachineNet, a: Seq<PilotState>, b: Seq<PilotState>, j: int)
    requires
        is_pilot_of(net, a),
        is_pilot_of(net, b),
        same_seeds_before(a, b, j),
        1 <= j < a.len(),
    ensures
        j < b.len(),
        seeds_of(a[j].candidates@) == seeds_of(b[j].candidates@),
{
    assert(reached_before(a, j, j));
    let (s1, q1) = choose|s1: int, q1: int|
        0 <= s1 < j && s1 < j && 0 <= q1 < a[s1].transitions@.len()
            && (#[trigger] a[s1].transitions@[q1]).dest_id == j;
    let (s, q) = lemma_first_ref(a, j, s1, q1);
    assert(s < j);
    lemma_same_candidates_at(net, a, b, j, s);
    lemma_same_chars(net, a, b, s);
    assert(transitions_built(net, a, s));
    assert(transitions_built(net, b, s));
    let x = a[s].transitions@[q].character;
    let db = b[s].transitions@[q].dest_id as int;
    assert(b[s].transitions@[q].character == x);
    assert(seeds_of(a[j].candidates@) == shift_set(net, a[s].candidates@, x));
    assert(seeds_of(b[db].candidates@) == shift_set(net, b[s].candidates@, x));
    assert(distinct_seeds(a));
    assert(distinct_seeds(b));
    if db < j {
        assert(seeds_of(a[db].candidates@) == seeds_of(b[db].candidates@));
        assert(a[db] != a[j] || db == j);
    } else if db > j {
        assert(numbered_in_order(b, b.len() as int));
        assert(referenced_before(b, j, s, q));
        let (s2, q2) = choose|s2: int, q2: int|
            0 <= s2 < b.len() && 0 <= q2 < b[s2].transitions@.len() && (s2 < s || (s2 == s && q2 < q))
                && (#[trigger] b[s2].transitions@[q2]).dest_id == j;
        lemma_same_candidates_at(net, a, b, j, s2);
        lemma_same_chars(net, a, b, s2);
        assert(transitions_built(net, a, s2));
        assert(transitions_built(net, b, s2));
        let x2 = b[s2].transitions@[q2].character;
        assert(a[s2].transitions@[q2].character == x2);
        let da = a[s2].transitions@[q2].dest_id as int;
        if da == j {
            assert(referenced_before(a, j, s, q));
        }
        if da > j {
            assert(numbered_in_order(a, a.len() as int));
            assert(referenced_before(a, j, s2, q2));
            let (s3, q3) = choose|s3: int, q3: int|
                0 <= s3 < a.len() && 0 <= q3 < a[s3].transitions@.len() && (s3 < s2 || (s3 == s2 && q3 < q2))
                    && (#[trigger] a[s3].transitions@[q3]).dest_id == j;
            assert(referenced_before(a, j, s, q));
        }
        assert(da < j);
        assert(seeds_of(a[da].candidates@) == shift_set(net, a[s2].candidates@, x2));
        assert(seeds_of(b[j].candidates@) == shift_set(net, b[s2].candidates@, x2));
        assert(seeds_of(a[da].candidates@) == seeds_of(b[da].candidates@));
        assert(seeds_of(b[da].candidates@) == seeds_of(b[j].candidates@));
    }
    assert(db == j);
}

proof fn lemma_seeds_from(net: &MachineNet, a: Seq<PilotState>, b: Seq<PilotState>, j: int)
    requires
        is_pilot_of(net, a),
        is_pilot_of(net, b),
        same_seeds_before(a, b, j),
        1 <= j,
    ensures
        a.len() == b.len(),
        same_seeds_before(a, b, a.len() as int),
    decreases a.len() + b.len() - 2 * j,
{
    if j < a.len() {
        lemma_next_state(net, a, b, j);
        lemma_seeds_from(net, a, b, j + 1);
    } else if j < b.len() {
        lemma_next_state(net, b, a, j);
    }
}

proof fn lemma_same_transitions(net: &MachineNet, a: Seq<PilotState>, b: Seq<PilotState>, i: int)
    requires
        is_pilot_of(net, a),
        is_pilot_of(net, b),
        a.len() == b.len(),
        same_seeds_before(a, b, a.len() as int),
        0 <= i < a.len(),
    ensures
        a[i].transitions@ == b[i].transitions@,
{
    lemma_same_candidates_at(net, a, b, a.len() as int, i);
    lemma_same_chars(net, a, b, i);
    assert(transitions_built(net, a, i));
    assert(transitions_built(net, b, i));
    assert(distinct_seeds(a));
    let ta = a[i].transitions@;
    let tb = b[i].transitions@;
    assert forall|q: int| 0 <= q < ta.len() implies ta[q] == tb[q] by {
        let da = ta[q].dest_id as int;
        let db = tb[q].dest_id as int;
        assert(ta[q].character == tb[q].character);
        assert(seeds_of(a[da].candidates@) == seeds_of(b[db].candidates@));
        assert(seeds_of(a[db].candidates@) == seeds_of(b[db].candidates@));
        assert(da == db);
    }
    assert(ta =~= tb);
}

/// Pilot construction is deterministic: any two pilots of one network,
/// such as the results of two constructions, are the same state for state,
/// with the same candidates in the same order and the same transitions.
pub proof fn lemma_pilot_unique(net: &MachineNet, a: Seq<PilotState>, b: Seq<PilotState>)
    requires
        is_pilot_of(net, a),
        is_pilot_of(net, b),
    ensures
        a.len() == b.len(),
        forall|i: int|
            0 <= i < a.len() ==> (#[trigger] a[i]).id == b[i].id && a[i].candidates@ == b[i].candidates@
                && a[i].transitions@ == b[i].transitions@,
{
    lemma_initial_states(net, a, b);
    lemma_seeds_from(net, a, b, 1);
    assert forall|i: int| 0 <= i < a.len() implies (#[trigger] a[i]).id == b[i].id && a[i].candidates@
        == b[i].candidates@ && a[i].transitions@ == b[i].transitions@ by {
        assert(state_built(net, a[i], i));
        assert(state_built(net, b[i], i));
        lemma_same_candidates_at(net, a, b, a.len() as int, i);
        lemma_same_transitions(net, a, b, i);
    }
}

/// Two states that agree on number, candidates and transitions.
pub open spec fn same_state(x: PilotState, y: PilotState) -> bool {
    x.id == y.id && x.candidates@ == y.candidates@ && x.transitions@ == y.transitions@
}

proof fn lemma_sr_same(x: PilotState, y: PilotState, n: int)
    requires
        same_state(x, y),
    ensures
        sr_list(x, n) == sr_list(y, n),
    decreases n,
{
    if n > 0 {
        lemma_sr_same(x, y, n - 1);
    }
}

proof fn lemma_rr_row_same(x: PilotState, y: PilotState, i: int, m: int)
    requires
        same_state(x, y),
    ensures
        rr_row(x, i, m) == rr_row(y, i, m),
    decreases m - i,
{
    if m > i + 1 {
        lemma_rr_row_same(x, y, i, m - 1);
    }
}

proof fn lemma_rr_same(x: PilotState, y: PilotState, n: int)
    requires
        same_state(x, y),
    ensures
        rr_list(x, n) == rr_list(y, n),
    decreases n,
{
    if n > 0 {
        lemma_rr_same(x, y, n - 1);
        lemma_rr_row_same(x, y, n - 1, x.candidates@.len() as int);
    }
}

proof fn lemma_states_report_same(a: Seq<PilotState>, b: Seq<PilotState>, n: int)
    requires
        n <= a.len(),
        n <= b.len(),
        forall|i: int| 0 <= i < n ==> same_state(#[trigger] a[i], b[i]),
    ensures
        states_report(a, n) == states_report(b, n),
    decreases n,
{
    if n > 0 {
        lemma_states_report_same(a, b, n - 1);
        let x = a[n - 1];
        let y = b[n - 1];
        assert(same_state(x, y));
        lemma_sr_same(x, y, x.candidates@.len() as int);
        lemma_rr_same(x, y, x.candidates@.len() as int);
        assert(state_report(x) == state_report(y));
    }
}

/// In a pilot, looking up a number finds the state at that position.
proof fn lemma_lookup_index(net: &MachineNet, p: &Pilot, d: int)
    requires
        is_pilot_of(net, p.states@),
        0 <= d < p.states@.len(),
    ensures
        p.spec_lookup(d as usize) == p.states@[d],
{
    assert(state_built(net, p.states@[d], d));
    assert forall|k: int| 0 <= k < d implies p.states@[k].id != d as usize by {
        assert(state_built(net, p.states@[k], k));
    }
    let id = d as usize;
    assert(p.is_first_state(id, d));
    let f = choose|f: int| p.is_first_state(id, f);
    if f != d {
        if f < d {
            assert(state_built(net, p.states@[f], f));
        }
    }
}

proof fn lemma_state_convergences_same(net: &MachineNet, p1: &Pilot, p2: &Pilot, x: PilotState, y: PilotState, n: int)
    requires
        is_pilot_of(net, p1.states@),
        is_pilot_of(net, p2.states@),
        p1.states@.len() == p2.states@.len(),
        forall|i: int| 0 <= i < p1.states@.len() ==> same_state(#[trigger] p1.states@[i], p2.states@[i]),
        same_state(x, y),
        n <= x.transitions@.len(),
        forall|q: int| 0 <= q < x.transitions@.len() ==> (#[trigger] x.transitions@[q]).dest_id < p1.states@.len(),
    ensures
        state_convergences(p1, x, n) == state_convergences(p2, y, n),
    decreases n,
{
    if n > 0 {
        lemma_state_convergences_same(net, p1, p2, x, y, n - 1);
        let t = x.transitions@[n - 1];
        let d = t.dest_id as int;
        lemma_lookup_index(net, p1, d);
        lemma_lookup_index(net, p2, d);
        assert(same_state(p1.states@[d], p2.states@[d]));
        assert(diverges(p1, t) == diverges(p2, t));
    }
}

proof fn lemma_convergences_same(net: &MachineNet, p1: &Pilot, p2: &Pilot, n: int)
    requires
        is_pilot_of(net, p1.states@),
        is_pilot_of(net, p2.states@),
        p1.states@.len() == p2.states@.len(),
        forall|i: int| 0 <= i < p1.states@.len() ==> same_state(#[trigger] p1.states@[i], p2.states@[i]),
        n <= p1.states@.len(),
    ensures
        convergences(p1, n) == convergences(p2, n),
    decreases n,
{
    if n > 0 {
        lemma_convergences_same(net, p1, p2, n - 1);
        let x = p1.states@[n - 1];
        let y = p2.states@[n - 1];
        assert(same_state(x, y));
        assert(transitions_built(net, p1.states@, n - 1));
        lemma_state_convergences_same(net, p1, p2, x, y, x.transitions@.len() as int);
    }
}

/// Two constructions on one network print the same Graphviz text and the
/// same conflict report.
pub proof fn lemma_outputs_deterministic(net: &MachineNet, p1: &Pilot, p2: &Pilot)
    requires
        is_pilot_of(net, p1.states@),
        is_pilot_of(net, p2.states@),
    ensures
        dot_text(*p1) == dot_text(*p2),
        report(p1) == report(p2),
{
    let a = p1.states@;
    let b = p2.states@;
    lemma_pilot_unique(net, a, b);
    assert forall|i: int| 0 <= i < a.len() implies same_state(#[trigger] a[i], b[i]) by {}
    assert forall|i: int| 0 <= i < a.len() implies state_lines(#[trigger] a[i]) == state_lines(b[i]) by {}
    assert(a.map_values(|st: PilotState| crate::dot::join_lines(state_lines(st))) =~= b.map_values(
        |st: PilotState| crate::dot::join_lines(state_lines(st)),
    ));
    lemma_states_report_same(a, b, a.len() as int);
    lemma_convergences_same(net, p1, p2, a.len() as int);
}

} // verus!