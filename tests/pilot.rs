use elr_pilot::{closure, create_pilot, Machine, MachineNet, NetError, Pilot, State, Transition};

fn st(id: i32, initial: bool, fin: bool, ts: &[(char, i32)]) -> State {
    State {
        id,
        transitions: ts.iter().map(|&(c, d)| Transition { character: c, dest_id: d }).collect(),
        is_initial: initial,
        is_final: fin,
    }
}

fn machine(name: char, states: Vec<State>) -> Machine {
    Machine { name, states }
}

fn dangling_else() -> MachineNet {
    MachineNet {
        machines: vec![machine(
            'S',
            vec![
                st(0, true, false, &[('i', 1), ('a', 4)]),
                st(1, false, false, &[('S', 2)]),
                st(2, false, true, &[('e', 3)]),
                st(3, false, false, &[('S', 4)]),
                st(4, false, true, &[]),
            ],
        )],
    }
}

fn two_reductions() -> MachineNet {
    MachineNet {
        machines: vec![
            machine('S', vec![st(0, true, false, &[('A', 1), ('B', 1)]), st(1, false, true, &[])]),
            machine('A', vec![st(0, true, false, &[('a', 1)]), st(1, false, true, &[])]),
            machine('B', vec![st(0, true, false, &[('a', 1)]), st(1, false, true, &[])]),
        ],
    }
}

fn converging() -> MachineNet {
    MachineNet {
        machines: vec![
            machine('S', vec![st(0, true, false, &[('A', 1)]), st(1, false, true, &[('C', 1)])]),
            machine(
                'A',
                vec![
                    st(0, true, true, &[('a', 1)]),
                    st(1, false, false, &[('C', 2)]),
                    st(2, false, false, &[('b', 3)]),
                    st(3, false, true, &[]),
                ],
            ),
            machine(
                'C',
                vec![
                    st(0, true, false, &[('c', 1)]),
                    st(1, false, true, &[('A', 2)]),
                    st(2, false, false, &[('d', 3)]),
                    st(3, false, true, &[]),
                ],
            ),
        ],
    }
}

fn sr_count(p: &Pilot) -> usize {
    p.states.iter().map(|s| s.shift_reduce_conflicts().len()).sum()
}

fn rr_count(p: &Pilot) -> usize {
    p.states.iter().map(|s| s.reduce_reduce_conflicts().len()).sum()
}

#[test]
fn trivial_accept() {
    let net = MachineNet { machines: vec![machine('S', vec![st(0, true, true, &[])])] };
    assert!(net.validate());
    let pilot = create_pilot(&net);
    assert_eq!(pilot.states.len(), 1);
    assert_eq!(pilot.states[0].candidates.len(), 1);
    let c = pilot.states[0].candidates[0];
    assert_eq!((c.machine, c.state, c.lookahead, c.is_seed, c.is_final), ('S', 0, '$', false, true));
    assert!(pilot.states[0].transitions.is_empty());
    assert_eq!(sr_count(&pilot), 0);
    assert_eq!(rr_count(&pilot), 0);
    assert!(pilot.convergence_conflicts().is_empty());
}

#[test]
fn dangling_else_has_one_shift_reduce_conflict() {
    let net = dangling_else();
    assert!(net.validate());
    let pilot = create_pilot(&net);
    assert_eq!(pilot.states.len(), 9);
    let all: Vec<(usize, usize)> = pilot
        .states
        .iter()
        .flat_map(|s| s.shift_reduce_conflicts().into_iter().map(|c| (c.state_id, c.candidate_idx)))
        .collect();
    assert_eq!(all, vec![(7, 1)]);
    let c = pilot.states[7].candidates[1];
    assert!(c.is_final);
    assert!(pilot.states[7].transitions.iter().any(|t| t.character == c.lookahead));
    assert_eq!(rr_count(&pilot), 0);
    assert!(pilot.convergence_conflicts().is_empty());
}

#[test]
fn two_final_candidates_give_one_reduce_reduce_conflict() {
    let net = two_reductions();
    assert!(net.validate());
    let pilot = create_pilot(&net);
    let all: Vec<(usize, usize, usize)> = pilot
        .states
        .iter()
        .flat_map(|s| {
            s.reduce_reduce_conflicts()
                .into_iter()
                .map(|c| (c.state_id, c.candidate_1_idx, c.candidate_2_idx))
        })
        .collect();
    assert_eq!(all, vec![(2, 0, 1)]);
    assert_eq!(sr_count(&pilot), 0);
}

fn check_convergences(pilot: &Pilot) {
    for c in &pilot.convergence_conflicts() {
        let t = pilot.states[c.state_1_id]
            .transitions
            .iter()
            .find(|t| t.character == c.transition_char)
            .unwrap();
        assert_eq!(t.dest_id, c.state_2_id);
        assert_ne!(pilot.states[c.state_2_id].seed_count(), t.multiplicity);
    }
}

#[test]
fn merged_seeds_give_a_convergence_conflict() {
    // a seed and a closure candidate on the same position shift into one seed
    let net = MachineNet {
        machines: vec![machine('S', vec![st(0, true, true, &[('a', 0), ('S', 1)]), st(1, false, true, &[])])],
    };
    assert!(net.validate());
    let pilot = create_pilot(&net);
    let conv: Vec<(usize, char, usize)> =
        pilot.convergence_conflicts().iter().map(|c| (c.state_1_id, c.transition_char, c.state_2_id)).collect();
    assert_eq!(conv, vec![(2, 'S', 1), (2, 'a', 2)]);
    let t = pilot.states[2].transitions.iter().find(|t| t.character == 'a').unwrap();
    assert_eq!(t.multiplicity, 2);
    assert_eq!(pilot.states[2].seed_count(), 1);
    check_convergences(&pilot);
}

#[test]
fn convergence_reports_have_their_shape() {
    let net = converging();
    assert!(net.validate());
    let pilot = create_pilot(&net);
    check_convergences(&pilot);
    // No machine of this network has two transitions on one symbol into one
    // state, and no transition enters a state 0, so no shift merges two
    // candidates: every multiplicity equals the seed count of its target.
    assert!(pilot.convergence_conflicts().is_empty());
    for s in &pilot.states {
        for t in &s.transitions {
            assert_eq!(pilot.states[t.dest_id].seed_count(), t.multiplicity);
        }
    }
}

#[test]
fn missing_axiom_fails_validation() {
    let net = MachineNet { machines: vec![machine('A', vec![st(0, true, true, &[])])] };
    assert!(!net.validate());
    assert_eq!(net.validation_errors(), vec![NetError::MissingAxiom]);
}

#[test]
fn initial_state_rules() {
    let net = MachineNet {
        machines: vec![machine('S', vec![st(0, false, true, &[('a', 1)]), st(1, true, false, &[])])],
    };
    assert!(!net.validate());
    let errs = net.validation_errors();
    assert!(errs.contains(&NetError::MustBeInitial { machine: 'S' }));
    assert!(errs.contains(&NetError::CannotBeInitial { machine: 'S', state: 1 }));
    assert_eq!(errs.len(), 2);
}

#[test]
fn every_defect_is_reported() {
    assert_eq!(MachineNet { machines: vec![] }.validation_errors(), vec![NetError::NoMachines, NetError::MissingAxiom]);
    let net = MachineNet {
        machines: vec![
            machine('S', vec![st(0, true, false, &[('X', 1), ('b', 7)]), st(1, false, true, &[])]),
            machine('A', vec![]),
            machine('B', vec![st(1, false, true, &[])]),
            machine('C', vec![st(0, true, false, &[])]),
        ],
    };
    assert_eq!(
        net.validation_errors(),
        vec![
            NetError::NoStates { machine: 'A' },
            NetError::NoFinalState { machine: 'A' },
            NetError::NoFinalState { machine: 'C' },
            NetError::NoStateZero { machine: 'B' },
            NetError::UnknownMachine { machine: 'S', state: 0, character: 'X' },
            NetError::UnknownState { machine: 'S', state: 0, dest_id: 7 },
        ]
    );
}

#[test]
fn each_failed_check_is_reported_once_in_order() {
    let no_states = MachineNet { machines: vec![machine('A', vec![])] };
    assert_eq!(
        no_states.validation_errors(),
        vec![NetError::MissingAxiom, NetError::NoStates { machine: 'A' }, NetError::NoFinalState { machine: 'A' }]
    );
    let not_initial = MachineNet { machines: vec![machine('S', vec![st(0, false, true, &[])])] };
    assert_eq!(not_initial.validation_errors(), vec![NetError::MustBeInitial { machine: 'S' }]);
    let two_initial = MachineNet { machines: vec![machine('S', vec![st(0, true, false, &[]), st(1, true, true, &[])])] };
    assert_eq!(two_initial.validation_errors(), vec![NetError::CannotBeInitial { machine: 'S', state: 1 }]);
}

#[test]
fn multiplicities_count_the_shifting_candidates() {
    for net in [dangling_else(), two_reductions(), converging()] {
        let pilot = create_pilot(&net);
        for s in &pilot.states {
            for t in &s.transitions {
                let n = s
                    .candidates
                    .iter()
                    .filter(|c| {
                        let m = net.lookup_state(c.machine, c.state);
                        m.transitions.iter().any(|x| x.character == t.character)
                    })
                    .count();
                assert_eq!(t.multiplicity, n);
            }
        }
    }
}

#[test]
fn pilot_states_have_distinct_seeds() {
    for net in [dangling_else(), two_reductions(), converging()] {
        let pilot = create_pilot(&net);
        for a in &pilot.states {
            for b in &pilot.states {
                if a.id != b.id {
                    assert!(!a.is_equivalent(b));
                }
            }
        }
    }
}

#[test]
fn finality_follows_the_machine_state() {
    for net in [dangling_else(), two_reductions(), converging()] {
        let pilot = create_pilot(&net);
        for s in &pilot.states {
            for c in &s.candidates {
                assert_eq!(c.is_final, net.lookup_state(c.machine, c.state).is_final);
            }
        }
    }
}

#[test]
fn followers_grow_with_the_context() {
    let net = converging();
    let small = net.followers('A', 1, &vec!['$']);
    let large = net.followers('A', 1, &vec!['$', 'z']);
    assert_eq!(small, vec!['c']);
    for c in &small {
        assert!(large.contains(c));
    }
    let fin = net.followers('A', 0, &vec!['$', 'z']);
    assert_eq!(fin, vec!['$', 'a', 'z']);
}

#[test]
fn closing_twice_changes_nothing() {
    let net = converging();
    let pilot = create_pilot(&net);
    for s in &pilot.states {
        let mut again = s.clone();
        closure(&mut again, &net);
        assert_eq!(again.candidates, s.candidates);
    }
}

#[test]
fn construction_is_deterministic() {
    for net in [dangling_else(), two_reductions(), converging()] {
        let a = create_pilot(&net);
        let b = create_pilot(&net);
        assert_eq!(format!("{:?}", a), format!("{:?}", b));
        assert_eq!(format!("{:?}", a.convergence_conflicts().iter().map(|c| (c.state_1_id, c.transition_char, c.state_2_id)).collect::<Vec<_>>()),
            format!("{:?}", b.convergence_conflicts().iter().map(|c| (c.state_1_id, c.transition_char, c.state_2_id)).collect::<Vec<_>>()));
    }
}

#[test]
fn terminal_self_loop_and_left_recursion() {
    // S -> S a | b, written with a left-recursive call and a terminal loop
    let net = MachineNet {
        machines: vec![machine(
            'S',
            vec![st(0, true, false, &[('S', 1), ('b', 2)]), st(1, false, false, &[('a', 2)]), st(2, false, true, &[('c', 2)])],
        )],
    };
    assert!(net.validate());
    let pilot = create_pilot(&net);
    let init = &pilot.states[0];
    assert_eq!(init.candidates[0].lookahead, '$');
    assert!(init.candidates.iter().all(|c| c.machine == 'S' && c.state == 0));
    let chars: Vec<char> = init.transitions.iter().map(|t| t.character).collect();
    assert_eq!(chars, vec!['S', 'b']);
}

#[test]
fn lookaheads_pass_through_nullable_machines() {
    // S -> A x, A -> B, B -> empty or b
    let net = MachineNet {
        machines: vec![
            machine('S', vec![st(0, true, false, &[('A', 1)]), st(1, false, false, &[('x', 2)]), st(2, false, true, &[])]),
            machine('A', vec![st(0, true, false, &[('B', 1)]), st(1, false, true, &[])]),
            machine('B', vec![st(0, true, true, &[('b', 1)]), st(1, false, true, &[])]),
        ],
    };
    let pilot = create_pilot(&net);
    let init = &pilot.states[0];
    let b_looks: Vec<char> = init.candidates.iter().filter(|c| c.machine == 'B').map(|c| c.lookahead).collect();
    assert_eq!(b_looks, vec!['x']);
    assert!(init.candidates.iter().any(|c| c.machine == 'B' && c.is_final));
}

#[test]
fn states_are_reached_from_earlier_states() {
    for net in [dangling_else(), two_reductions(), converging()] {
        let pilot = create_pilot(&net);
        for (j, s) in pilot.states.iter().enumerate() {
            assert_eq!(s.id, j);
            if j > 0 {
                assert!(pilot.states[..j].iter().any(|p| p.transitions.iter().any(|t| t.dest_id == j)));
            }
        }
    }
}

#[test]
fn lookup_finds_states_by_number() {
    let pilot = create_pilot(&dangling_else());
    assert_eq!(pilot.lookup_state(3).id, 3);
    let net = dangling_else();
    assert!(net.lookup_machine('S').states.len() == 5);
    assert!(net.machines[0].try_lookup_state(7).is_none());
    assert_eq!(net.machines[0].lookup_state(4).id, 4);
    assert!(Transition { character: 'S', dest_id: 0 }.is_nonterminal());
    assert!(!Transition { character: 's', dest_id: 0 }.is_nonterminal());
}

#[test]
fn conflict_reports_have_the_fixed_lines() {
    let trivial = MachineNet { machines: vec![machine('S', vec![st(0, true, true, &[])])] };
    assert_eq!(create_pilot(&trivial).conflict_report(), vec!["no conflicts".to_string()]);
    assert_eq!(
        create_pilot(&dangling_else()).conflict_report(),
        vec!["shift-reduce conflict in state 7, candidate 1 is final".to_string()]
    );
    assert_eq!(
        create_pilot(&two_reductions()).conflict_report(),
        vec!["reduce-reduce conflict in state 2, candidates 0 and 1".to_string()]
    );
    let merging = MachineNet {
        machines: vec![machine('S', vec![st(0, true, true, &[('a', 0), ('S', 1)]), st(1, false, true, &[])])],
    };
    let lines = create_pilot(&merging).conflict_report();
    assert_eq!(
        lines[lines.len() - 2..].to_vec(),
        vec![
            "convergence conflict: multiple transition from state 2 character S leads to merged base set in state 1".to_string(),
            "convergence conflict: multiple transition from state 2 character a leads to merged base set in state 2".to_string(),
        ]
    );
    assert_eq!(create_pilot(&merging).conflicts().len(), lines.len());
}
