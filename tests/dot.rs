use elr_pilot::{create_pilot, Lexer, Machine, MachineNet, Parser, State, Transition};

#[test]
fn trivial_pilot_as_dot() {
    let net = MachineNet {
        machines: vec![Machine {
            name: 'S',
            states: vec![State { id: 0, transitions: vec![], is_initial: true, is_final: true }],
        }],
    };
    let pilot = create_pilot(&net);
    let expected = "digraph {\n  node [shape=\"plain\", forcelabels=true];\n  i0 [label=<\n    <table border=\"0\" cellborder=\"1\" cellspacing=\"0\">\n    <tr><td colspan=\"2\" sides=\"t\"></td></tr>\n    <tr><td sides=\"ltb\">(0<sub>S</sub>)</td><td sides=\"trb\">\u{22A3}</td></tr>\n    </table>\n  >, xlabel=<I<sub>0</sub>>];\n}";
    assert_eq!(pilot.to_dot(), expected);
}

#[test]
fn merged_rows_and_edges() {
    let text = "mnet { machine S { state 0 { initial; A -> 1; B -> 1; } state 1 { final; } } machine A { state 0 { initial; a -> 1; } state 1 { final; } } machine B { state 0 { initial; a -> 1; } state 1 { final; } } }";
    let net = Parser::new(Lexer::new(text.chars().collect())).parse_mnet().unwrap();
    let pilot = create_pilot(&net);
    let dot = pilot.to_dot();
    assert!(dot.contains("  i0 -> i1 [label=\"A\"];\n  i0 -> i1 [label=\"B\"];\n  i0 -> i2 [label=\"a\"];"));
    assert!(dot.contains("    <tr><td sides=\"ltb\">(1<sub>A</sub>)</td><td sides=\"trb\">\u{22A3}</td></tr>\n    <tr><td sides=\"ltb\">(1<sub>B</sub>)</td><td sides=\"trb\">\u{22A3}</td></tr>\n    <tr><td colspan=\"2\" sides=\"b\"></td></tr>"));
    assert!(dot.ends_with("\n}"));
    assert_eq!(dot, create_pilot(&net).to_dot());
}

#[test]
fn lookaheads_are_sorted_and_joined() {
    // S -> A x | A y, so A starts with lookaheads x and y
    let net = MachineNet {
        machines: vec![
            Machine {
                name: 'S',
                states: vec![
                    State {
                        id: 0,
                        transitions: vec![Transition { character: 'A', dest_id: 1 }],
                        is_initial: true,
                        is_final: false,
                    },
                    State {
                        id: 1,
                        transitions: vec![
                            Transition { character: 'y', dest_id: 2 },
                            Transition { character: 'x', dest_id: 2 },
                        ],
                        is_initial: false,
                        is_final: false,
                    },
                    State { id: 2, transitions: vec![], is_initial: false, is_final: true },
                ],
            },
            Machine {
                name: 'A',
                states: vec![
                    State {
                        id: 0,
                        transitions: vec![Transition { character: 'a', dest_id: 1 }],
                        is_initial: true,
                        is_final: false,
                    },
                    State { id: 1, transitions: vec![], is_initial: false, is_final: true },
                ],
            },
        ],
    };
    let dot = create_pilot(&net).to_dot();
    assert!(dot.contains("<tr><td sides=\"ltb\">0<sub>A</sub></td><td sides=\"trb\">x, y</td></tr>"));
    assert!(dot.contains("<tr><td sides=\"ltb\">0<sub>S</sub></td><td sides=\"trb\">\u{22A3}</td></tr>"));
}
