//! The parser of the machine-network language:
//!
//! ```text
//! mnet    ::= "mnet" "{" machine* "}"
//! machine ::= "machine" IDENT "{" state* "}"
//! state   ::= "state" NUMBER "{" item* "}"
//! item    ::= "initial" ";" | "final" ";" | IDENT "->" NUMBER ";"
//! ```
use vstd::prelude::*;
use crate::fsm::{is_upper, Machine, State, Transition};
use crate::lexer::{diagnostics_of, lex, tokens_of, LexDiagnostic, Lexer, SourceLocation, Token, TokenValue};
use crate::net::MachineNet;

verus! {

/// What the parser expected where it stopped.
#[derive(Debug, Clone, Copy, PartialEq, Eq, Structural)]
pub enum SyntaxError {
    ExpectedState,
    ExpectedStateId,
    ExpectedStateBody,
    ExpectedSemicolon,
    ExpectedArrow,
    ExpectedDestination,
    ExpectedTransitionOrProperty,
    ExpectedMachine,
    ExpectedMachineName,
    MachineNameNotUppercase,
    ExpectedMachineBody,
    ExpectedStateList,
    ExpectedMachineNet,
    ExpectedNetBody,
    UnmatchedBrace,
}

/// A syntax error, at the token where it was found (none at the end).
#[derive(Debug, Clone, Copy, PartialEq, Eq, Structural)]
pub struct ParseError {
    pub location: Option<SourceLocation>,
    pub kind: SyntaxError,
}

pub struct StateView {
    pub id: i32,
    pub transitions: Seq<Transition>,
    pub is_initial: bool,
    pub is_final: bool,
}

pub struct MachineView {
    pub name: char,
    pub states: Seq<StateView>,
}

pub open spec fn view_state(s: State) -> StateView {
    StateView { id: s.id, transitions: s.transitions@, is_initial: s.is_initial, is_final: s.is_final }
}

pub open spec fn view_machine(m: Machine) -> MachineView {
    MachineView { name: m.name, states: m.states@.map_values(|s: State| view_state(s)) }
}

pub open spec fn view_net(n: MachineNet) -> Seq<MachineView> {
    n.machines@.map_values(|m: Machine| view_machine(m))
}

pub open spec fn value_at(ts: Seq<Token>, p: int) -> Option<TokenValue> {
    if 0 <= p < ts.len() {
        Some(ts[p].value)
    } else {
        None
    }
}

/// The items of a state body from `p` on, added to `st`: the state and the
/// position after the items, or where and what went wrong.
pub open spec fn parse_items(ts: Seq<Token>, p: int, st: StateView) -> Result<(StateView, int), (int, SyntaxError)>
    decreases ts.len() - p,
{
    if p < 0 || p >= ts.len() {
        Ok((st, p))
    } else {
        match ts[p].value {
            TokenValue::KwInitial => if value_at(ts, p + 1) == Some(TokenValue::Semi) {
                parse_items(ts, p + 2, StateView { is_initial: true, ..st })
            } else {
                Err((p + 1, SyntaxError::ExpectedSemicolon))
            },
            TokenValue::KwFinal => if value_at(ts, p + 1) == Some(TokenValue::Semi) {
                parse_items(ts, p + 2, StateView { is_final: true, ..st })
            } else {
                Err((p + 1, SyntaxError::ExpectedSemicolon))
            },
            TokenValue::Ident(c) => if value_at(ts, p + 1) != Some(TokenValue::RArrow) {
                Err((p + 1, SyntaxError::ExpectedArrow))
            } else {
                match value_at(ts, p + 2) {
                    Some(TokenValue::Number(d)) => if value_at(ts, p + 3) == Some(TokenValue::Semi) {
                        parse_items(
                            ts,
                            p + 4,
                            StateView {
                                transitions: st.transitions.push(Transition { character: c, dest_id: d }),
                                ..st
                            },
                        )
                    } else {
                        Err((p + 3, SyntaxError::ExpectedSemicolon))
                    },
                    _ => Err((p + 2, SyntaxError::ExpectedDestination)),
                }
            },
            _ => Ok((st, p)),
        }
    }
}

/// A state from `p` on.
pub open spec fn parse_state(ts: Seq<Token>, p: int) -> Result<(StateView, int), (int, SyntaxError)> {
    if value_at(ts, p) != Some(TokenValue::KwState) {
        Err((p, SyntaxError::ExpectedState))
    } else {
        match value_at(ts, p + 1) {
            Some(TokenValue::Number(id)) => if value_at(ts, p + 2) != Some(TokenValue::LBrace) {
                Err((p + 2, SyntaxError::ExpectedStateBody))
            } else {
                match parse_items(
                    ts,
                    p + 3,
                    StateView { id, transitions: Seq::empty(), is_initial: false, is_final: false },
                ) {
                    Err(e) => Err(e),
                    Ok((st, q)) => if value_at(ts, q) == Some(TokenValue::RBrace) {
                        Ok((st, q + 1))
                    } else {
                        Err((q, SyntaxError::ExpectedTransitionOrProperty))
                    },
                }
            },
            _ => Err((p + 1, SyntaxError::ExpectedStateId)),
        }
    }
}

/// The states from `p` on, while a state keyword comes, after `acc`.
pub open spec fn parse_states(ts: Seq<Token>, p: int, acc: Seq<StateView>) -> Result<(Seq<StateView>, int), (int, SyntaxError)>
    decreases ts.len() - p,
{
    if value_at(ts, p) == Some(TokenValue::KwState) {
        match parse_state(ts, p) {
            Err(e) => Err(e),
            Ok((st, q)) => if p < q {
                parse_states(ts, q, acc.push(st))
            } else {
                Err((q, SyntaxError::ExpectedState))
            },
        }
    } else {
        Ok((acc, p))
    }
}

/// A machine from `p` on.
pub open spec fn parse_machine(ts: Seq<Token>, p: int) -> Result<(MachineView, int), (int, SyntaxError)> {
    if value_at(ts, p) != Some(TokenValue::KwMachine) {
        Err((p, SyntaxError::ExpectedMachine))
    } else {
        match value_at(ts, p + 1) {
            Some(TokenValue::Ident(name)) => if !is_upper(name) {
                Err((p + 1, SyntaxError::MachineNameNotUppercase))
            } else if value_at(ts, p + 2) != Some(TokenValue::LBrace) {
                Err((p + 2, SyntaxError::ExpectedMachineBody))
            } else {
                match parse_states(ts, p + 3, Seq::empty()) {
                    Err(e) => Err(e),
                    Ok((states, q)) => if value_at(ts, q) == Some(TokenValue::RBrace) {
                        Ok((MachineView { name, states }, q + 1))
                    } else {
                        Err((q, SyntaxError::ExpectedStateList))
                    },
                }
            },
            _ => Err((p + 1, SyntaxError::ExpectedMachineName)),
        }
    }
}

/// The machines from `p` on, while a machine keyword comes, after `acc`.
pub open spec fn parse_machines(ts: Seq<Token>, p: int, acc: Seq<MachineView>) -> Result<(Seq<MachineView>, int), (int, SyntaxError)>
    decreases ts.len() - p,
{
    if value_at(ts, p) == Some(TokenValue::KwMachine) {
        match parse_machine(ts, p) {
            Err(e) => Err(e),
            Ok((m, q)) => if p < q {
                parse_machines(ts, q, acc.push(m))
            } else {
                Err((q, SyntaxError::ExpectedMachine))
            },
        }
    } else {
        Ok((acc, p))
    }
}

/// A machine network at the start of `ts`; tokens after its closing brace
/// are not read.
pub open spec fn parse_net(ts: Seq<Token>) -> Result<Seq<MachineView>, (int, SyntaxError)> {
    if value_at(ts, 0) != Some(TokenValue::KwMNet) {
        Err((0, SyntaxError::ExpectedMachineNet))
    } else if value_at(ts, 1) != Some(TokenValue::LBrace) {
        Err((1, SyntaxError::ExpectedNetBody))
    } else {
        match parse_machines(ts, 2, Seq::empty()) {
            Err(e) => Err(e),
            Ok((ms, q)) => if value_at(ts, q) == Some(TokenValue::RBrace) {
                Ok(ms)
            } else {
                Err((q, SyntaxError::UnmatchedBrace))
            },
        }
    }
}

/// The error that a failure at `p` reports.
pub open spec fn error_at(ts: Seq<Token>, p: int, kind: SyntaxError) -> ParseError {
    ParseError { location: if 0 <= p < ts.len() { Some(ts[p].location) } else { None }, kind }
}

pub open spec fn view_states(v: Seq<State>) -> Seq<StateView> {
    v.map_values(|s: State| view_state(s))
}

pub open spec fn view_machines(v: Seq<Machine>) -> Seq<MachineView> {
    v.map_values(|m: Machine| view_machine(m))
}

/// Reads a machine network from the tokens of a lexer.
pub struct Parser {
    tokens: Vec<Token>,
    lex_errors: Vec<LexDiagnostic>,
    error: Option<ParseError>,
}

impl Parser {
    pub closed spec fn spec_tokens(&self) -> Seq<Token> {
        self.tokens@
    }

    pub closed spec fn spec_lex_errors(&self) -> Seq<LexDiagnostic> {
        self.lex_errors@
    }

    pub closed spec fn spec_error(&self) -> Option<ParseError> {
        self.error
    }

    /// A parser over every token that `lexer` has left.
    pub fn new(lexer: Lexer) -> (r: Parser)
        requires
            lexer.wf(),
        ensures
            r.spec_tokens() == tokens_of(lex(lexer.text(), lexer.position())),
            r.spec_lex_errors() == diagnostics_of(lex(lexer.text(), lexer.position())),
            r.spec_error().is_none(),
    {
        let mut lexer = lexer;
        let (tokens, lex_errors) = lexer.tokenize();
        Parser { tokens, lex_errors, error: None }
    }

    /// The lexical errors, in the order of the text.
    pub fn lexical_errors(&self) -> (r: &Vec<LexDiagnostic>)
        ensures
            r@ == self.spec_lex_errors(),
    {
        &self.lex_errors
    }

    /// The syntax error that stopped the last parse, if any.
    pub fn syntax_error(&self) -> (r: Option<ParseError>)
        ensures
            r == self.spec_error(),
    {
        self.error
    }

    fn value_at(&self, p: usize) -> (r: Option<TokenValue>)
        ensures
            r == value_at(self.tokens@, p as int),
    {
        if p < self.tokens.len() {
            Some(self.tokens[p].value)
        } else {
            None
        }
    }

    fn parse_items(&self, p: usize, st: &mut State) -> (r: Result<usize, (usize, SyntaxError)>)
        requires
            p <= self.tokens@.len(),
        ensures
            match r {
                Ok(q) => p <= q <= self.tokens@.len() && parse_items(self.tokens@, p as int, view_state(*old(st)))
                    == Ok::<(StateView, int), (int, SyntaxError)>((view_state(*final(st)), q as int)),
                Err((q, k)) => q <= self.tokens@.len() && parse_items(self.tokens@, p as int, view_state(*old(st)))
                    == Err::<(StateView, int), (int, SyntaxError)>((q as int, k)),
            },
    {
        let ghost ts = self.tokens@;
        let ghost total = parse_items(ts, p as int, view_state(*st));
        let n = self.tokens.len();
        let mut q = p;
        loop
            invariant
                p <= q <= n,
                n == ts.len(),
                ts == self.tokens@,
                total == parse_items(ts, p as int, view_state(*old(st))),
                total == parse_items(ts, q as int, view_state(*st)),
            decreases n - q,
        {
            if q >= n {
                return Ok(q);
            }
            match self.tokens[q].value {
                TokenValue::KwInitial => {
                    if self.value_at(q + 1) != Some(TokenValue::Semi) {
                        return Err((q + 1, SyntaxError::ExpectedSemicolon));
                    }
                    st.is_initial = true;
                    q = q + 2;
                },
                TokenValue::KwFinal => {
                    if self.value_at(q + 1) != Some(TokenValue::Semi) {
                        return Err((q + 1, SyntaxError::ExpectedSemicolon));
                    }
                    st.is_final = true;
                    q = q + 2;
                },
                TokenValue::Ident(c) => {
                    if self.value_at(q + 1) != Some(TokenValue::RArrow) {
                        return Err((q + 1, SyntaxError::ExpectedArrow));
                    }
                    match self.value_at(q + 2) {
                        Some(TokenValue::Number(d)) => {
                            if self.value_at(q + 3) != Some(TokenValue::Semi) {
                                return Err((q + 3, SyntaxError::ExpectedSemicolon));
                            }
                            st.transitions.push(Transition { character: c, dest_id: d });
                            q = q + 4;
                        },
                        _ => {
                            return Err((q + 2, SyntaxError::ExpectedDestination));
                        },
                    }
                },
                _ => {
                    return Ok(q);
                },
            }
        }
    }

    fn parse_state(&self, p: usize) -> (r: Result<(State, usize), (usize, SyntaxError)>)
        requires
            p <= self.tokens@.len(),
        ensures
            match r {
                Ok((st, q)) => p < q <= self.tokens@.len() && parse_state(self.tokens@, p as int)
                    == Ok::<(StateView, int), (int, SyntaxError)>((view_state(st), q as int)),
                Err((q, k)) => q <= self.tokens@.len() && parse_state(self.tokens@, p as int)
                    == Err::<(StateView, int), (int, SyntaxError)>((q as int, k)),
            },
    {
        let n = self.tokens.len();
        if self.value_at(p) != Some(TokenValue::KwState) {
            return Err((p, SyntaxError::ExpectedState));
        }
        let id = match self.value_at(p + 1) {
            Some(TokenValue::Number(id)) => id,
            _ => {
                return Err((p + 1, SyntaxError::ExpectedStateId));
            },
        };
        if self.value_at(p + 2) != Some(TokenValue::LBrace) {
            return Err((p + 2, SyntaxError::ExpectedStateBody));
        }
        let mut state = State { id, transitions: Vec::new(), is_initial: false, is_final: false };
        proof {
            assert(view_state(state).transitions =~= Seq::<Transition>::empty());
        }
        match self.parse_items(p + 3, &mut state) {
            Err(e) => Err(e),
            Ok(q) => {
                if self.value_at(q) == Some(TokenValue::RBrace) {
                    Ok((state, q + 1))
                } else {
                    Err((q, SyntaxError::ExpectedTransitionOrProperty))
                }
            },
        }
    }

    fn parse_machine(&self, p: usize) -> (r: Result<(Machine, usize), (usize, SyntaxError)>)
        requires
            p <= self.tokens@.len(),
        ensures
            match r {
                Ok((m, q)) => p < q <= self.tokens@.len() && parse_machine(self.tokens@, p as int)
                    == Ok::<(MachineView, int), (int, SyntaxError)>((view_machine(m), q as int)),
                Err((q, k)) => q <= self.tokens@.len() && parse_machine(self.tokens@, p as int)
                    == Err::<(MachineView, int), (int, SyntaxError)>((q as int, k)),
            },
    {
        let ghost ts = self.tokens@;
        let n = self.tokens.len();
        if self.value_at(p) != Some(TokenValue::KwMachine) {
            return Err((p, SyntaxError::ExpectedMachine));
        }
        let name = match self.value_at(p + 1) {
            Some(TokenValue::Ident(name)) => name,
            _ => {
                return Err((p + 1, SyntaxError::ExpectedMachineName));
            },
        };
        if !('A' <= name && name <= 'Z') {
            return Err((p + 1, SyntaxError::MachineNameNotUppercase));
        }
        if self.value_at(p + 2) != Some(TokenValue::LBrace) {
            return Err((p + 2, SyntaxError::ExpectedMachineBody));
        }
        let mut states: Vec<State> = Vec::new();
        let mut q = p + 3;
        let ghost total = parse_states(ts, q as int, Seq::empty());
        proof {
            assert(view_states(states@) =~= Seq::empty());
        }
        while self.value_at(q) == Some(TokenValue::KwState)
            invariant
                p + 3 <= q <= n,
                n == ts.len(),
                ts == self.tokens@,
                total == parse_states(ts, p + 3, Seq::empty()),
                value_at(ts, p as int) == Some(TokenValue::KwMachine),
                value_at(ts, p + 1) == Some(TokenValue::Ident(name)),
                is_upper(name),
                value_at(ts, p + 2) == Some(TokenValue::LBrace),
                total == parse_states(ts, q as int, view_states(states@)),
            decreases n - q,
        {
            match self.parse_state(q) {
                Err(e) => {
                    proof {
                        assert(total == Err::<(Seq<StateView>, int), (int, SyntaxError)>((e.0 as int, e.1)));
                        assert(parse_machine(ts, p as int) == Err::<(MachineView, int), (int, SyntaxError)>((e.0 as int, e.1)));
                    }
                    return Err(e);
                },
                Ok((st, q2)) => {
                    let ghost before = states@;
                    states.push(st);
                    proof {
                        assert(view_states(states@) =~= view_states(before).push(view_state(st)));
                    }
                    q = q2;
                },
            }
        }
        if self.value_at(q) != Some(TokenValue::RBrace) {
            return Err((q, SyntaxError::ExpectedStateList));
        }
        let m = Machine { name, states };
        proof {
            assert(view_machine(m).states == view_states(m.states@));
        }
        Ok((m, q + 1))
    }

    /// Parses the whole token sequence as a machine network. On failure the
    /// error is kept, at the token where it was found.
    pub fn parse_mnet(&mut self) -> (r: Option<MachineNet>)
        ensures
            final(self).spec_tokens() == old(self).spec_tokens(),
            final(self).spec_lex_errors() == old(self).spec_lex_errors(),
            match parse_net(old(self).spec_tokens()) {
                Ok(ms) => r.is_some() && view_net(r.unwrap()) == ms && final(self).spec_error().is_none(),
                Err((q, k)) => r.is_none() && final(self).spec_error() == Some(
                    error_at(old(self).spec_tokens(), q, k),
                ),
            },
    {
        let ghost ts = self.tokens@;
        match self.parse_net_tokens() {
            Ok(net) => {
                self.error = None;
                Some(net)
            },
            Err((q, k)) => {
                let location = if q < self.tokens.len() {
                    Some(self.tokens[q].location)
                } else {
                    None
                };
                self.error = Some(ParseError { location, kind: k });
                None
            },
        }
    }

    fn parse_net_tokens(&self) -> (r: Result<MachineNet, (usize, SyntaxError)>)
        ensures
            match r {
                Ok(net) => parse_net(self.tokens@) == Ok::<Seq<MachineView>, (int, SyntaxError)>(view_net(net)),
                Err((q, k)) => parse_net(self.tokens@) == Err::<Seq<MachineView>, (int, SyntaxError)>((q as int, k)),
            },
    {
        let ghost ts = self.tokens@;
        if self.value_at(0) != Some(TokenValue::KwMNet) {
            return Err((0, SyntaxError::ExpectedMachineNet));
        }
        if self.value_at(1) != Some(TokenValue::LBrace) {
            return Err((1, SyntaxError::ExpectedNetBody));
        }
        let n = self.tokens.len();
        let mut machines: Vec<Machine> = Vec::new();
        let mut q: usize = 2;
        let ghost total = parse_machines(ts, 2, Seq::empty());
        proof {
            assert(view_machines(machines@) =~= Seq::empty());
        }
        while self.value_at(q) == Some(TokenValue::KwMachine)
            invariant
                2 <= q <= n,
                n == ts.len(),
                ts == self.tokens@,
                total == parse_machines(ts, 2, Seq::empty()),
                value_at(ts, 0) == Some(TokenValue::KwMNet),
                value_at(ts, 1) == Some(TokenValue::LBrace),
                total == parse_machines(ts, q as int, view_machines(machines@)),
            decreases n - q,
        {
            match self.parse_machine(q) {
                Err(e) => {
                    proof {
                        assert(total == Err::<(Seq<MachineView>, int), (int, SyntaxError)>((e.0 as int, e.1)));
                    }
                    return Err(e);
                },
                Ok((m, q2)) => {
                    let ghost before = machines@;
                    machines.push(m);
                    proof {
                        assert(view_machines(machines@) =~= view_machines(before).push(view_machine(m)));
                    }
                    q = q2;
                },
            }
        }
        if self.value_at(q) != Some(TokenValue::RBrace) {
            return Err((q, SyntaxError::UnmatchedBrace));
        }
        let net = MachineNet { machines };
        proof {
            assert(view_net(net) == view_machines(net.machines@));
        }
        Ok(net)
    }
}

} // verus!
