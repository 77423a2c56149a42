//! The lexer of the machine-network language.
use vstd::prelude::*;

verus! {

/// A position in the source text, counted from zero.
#[derive(Debug, Clone, Copy, PartialEq, Eq, Structural)]
pub struct SourceLocation {
    pub row: usize,
    pub col: usize,
}

impl SourceLocation {
    pub fn new() -> (r: SourceLocation)
        ensures
            r == (SourceLocation { row: 0, col: 0 }),
    {
        SourceLocation { row: 0, col: 0 }
    }
}

#[derive(Debug, Clone, Copy, PartialEq, Eq, Structural)]
pub enum TokenValue {
    Invalid,
    Number(i32),
    Ident(char),
    Semi,
    LBrace,
    RBrace,
    RArrow,
    KwMNet,
    KwMachine,
    KwState,
    KwInitial,
    KwFinal,
}

#[derive(Debug, Clone, Copy, PartialEq, Eq, Structural)]
pub struct Token {
    pub location: SourceLocation,
    pub value: TokenValue,
}

/// A lexical error; the lexer goes on after it with an `Invalid` token.
#[derive(Debug, Clone, Copy, PartialEq, Eq, Structural)]
pub enum LexError {
    IdentifierTooLong,
    NumberTooLarge,
    UnrecognisedCharacter,
}

#[derive(Debug, Clone, Copy, PartialEq, Eq, Structural)]
pub struct LexDiagnostic {
    pub location: SourceLocation,
    pub error: LexError,
}

pub open spec fn is_ws(c: char) -> bool {
    c == ' ' || c == '\t' || c == '\n' || c == '\x0C' || c == '\r'
}

pub open spec fn is_alpha(c: char) -> bool {
    ('a' <= c && c <= 'z') || ('A' <= c && c <= 'Z')
}

pub open spec fn is_digit(c: char) -> bool {
    '0' <= c && c <= '9'
}

pub open spec fn is_word_char(c: char) -> bool {
    is_alpha(c) || is_digit(c) || c == '_'
}

pub open spec fn digit_value(c: char) -> nat {
    if c == '1' { 1 } else if c == '2' { 2 } else if c == '3' { 3 } else if c == '4' { 4 }
    else if c == '5' { 5 } else if c == '6' { 6 } else if c == '7' { 7 } else if c == '8' { 8 }
    else if c == '9' { 9 } else { 0 }
}

/// The value of a sequence of decimal digits.
pub open spec fn digits_value(s: Seq<char>) -> nat
    decreases s.len(),
{
    if s.len() == 0 {
        0
    } else {
        digits_value(s.drop_last()) * 10 + digit_value(s.last())
    }
}

/// The location after reading `c` at `l`: a line feed starts a new row, a
/// carriage return moves nothing.
pub open spec fn step_loc(l: SourceLocation, c: char) -> SourceLocation {
    if c == '\n' {
        SourceLocation { row: (l.row + 1) as usize, col: 0 }
    } else if c == '\r' {
        l
    } else {
        SourceLocation { row: l.row, col: (l.col + 1) as usize }
    }
}

/// The location of the character at `k`.
pub open spec fn loc_at(input: Seq<char>, k: int) -> SourceLocation
    decreases k,
{
    if k <= 0 {
        SourceLocation { row: 0, col: 0 }
    } else {
        step_loc(loc_at(input, k - 1), input[k - 1])
    }
}

/// The first position from `i` on that holds no whitespace.
pub open spec fn ws_end(input: Seq<char>, i: int) -> int
    decreases input.len() - i,
{
    if 0 <= i < input.len() && is_ws(input[i]) {
        ws_end(input, i + 1)
    } else {
        i
    }
}

/// The first position from `i` on that holds no letter, digit or underscore.
pub open spec fn word_end(input: Seq<char>, i: int) -> int
    decreases input.len() - i,
{
    if 0 <= i < input.len() && is_word_char(input[i]) {
        word_end(input, i + 1)
    } else {
        i
    }
}

/// The first position from `i` on that holds no digit.
pub open spec fn digits_end(input: Seq<char>, i: int) -> int
    decreases input.len() - i,
{
    if 0 <= i < input.len() && is_digit(input[i]) {
        digits_end(input, i + 1)
    } else {
        i
    }
}

pub open spec fn keyword(word: Seq<char>) -> Option<TokenValue> {
    if word == seq!['m', 'n', 'e', 't'] {
        Some(TokenValue::KwMNet)
    } else if word == seq!['m', 'a', 'c', 'h', 'i', 'n', 'e'] {
        Some(TokenValue::KwMachine)
    } else if word == seq!['s', 't', 'a', 't', 'e'] {
        Some(TokenValue::KwState)
    } else if word == seq!['i', 'n', 'i', 't', 'i', 'a', 'l'] {
        Some(TokenValue::KwInitial)
    } else if word == seq!['f', 'i', 'n', 'a', 'l'] {
        Some(TokenValue::KwFinal)
    } else {
        None
    }
}

/// The token that starts at `start`, a position before the end that holds
/// no whitespace: its value, the position after it, and its error if any.
pub open spec fn scan(input: Seq<char>, start: int) -> (TokenValue, int, Option<LexError>) {
    let c = input[start];
    if c == ';' {
        (TokenValue::Semi, start + 1, None)
    } else if c == '{' {
        (TokenValue::LBrace, start + 1, None)
    } else if c == '}' {
        (TokenValue::RBrace, start + 1, None)
    } else if c == '-' && start + 1 < input.len() && input[start + 1] == '>' {
        (TokenValue::RArrow, start + 2, None)
    } else if is_alpha(c) || c == '_' {
        let end = word_end(input, start + 1);
        let word = input.subrange(start, end);
        if keyword(word).is_some() {
            (keyword(word).unwrap(), end, None)
        } else if end == start + 1 {
            (TokenValue::Ident(c), end, None)
        } else {
            (TokenValue::Invalid, end, Some(LexError::IdentifierTooLong))
        }
    } else if is_digit(c) {
        let end = digits_end(input, start + 1);
        let v = digits_value(input.subrange(start, end));
        if v <= i32::MAX {
            (TokenValue::Number(v as i32), end, None)
        } else {
            (TokenValue::Invalid, end, Some(LexError::NumberTooLarge))
        }
    } else {
        (TokenValue::Invalid, start + 1, Some(LexError::UnrecognisedCharacter))
    }
}

/// The tokens of `input` from position `i` on, each with its error if any.
pub open spec fn lex(input: Seq<char>, i: int) -> Seq<(Token, Option<LexError>)>
    decreases input.len() - i,
{
    let s = ws_end(input, i);
    if i < 0 || s >= input.len() || s < i {
        Seq::empty()
    } else {
        let (v, end, err) = scan(input, s);
        if end <= s || end > input.len() {
            Seq::empty()
        } else {
            seq![(Token { location: loc_at(input, s), value: v }, err)] + lex(input, end)
        }
    }
}

/// The tokens of a sequence of scanned tokens.
pub open spec fn tokens_of(ts: Seq<(Token, Option<LexError>)>) -> Seq<Token> {
    ts.map_values(|p: (Token, Option<LexError>)| p.0)
}

/// The diagnostics of a sequence of scanned tokens, in order.
pub open spec fn diagnostics_of(ts: Seq<(Token, Option<LexError>)>) -> Seq<LexDiagnostic>
    decreases ts.len(),
{
    if ts.len() == 0 {
        Seq::empty()
    } else {
        let rest = diagnostics_of(ts.drop_first());
        match ts[0].1 {
            Some(e) => seq![LexDiagnostic { location: ts[0].0.location, error: e }] + rest,
            None => rest,
        }
    }
}

proof fn lemma_diagnostics_cons(x: (Token, Option<LexError>), s: Seq<(Token, Option<LexError>)>)
    ensures
        diagnostics_of(seq![x] + s) == diagnostics_of(seq![x]) + diagnostics_of(s),
{
    assert((seq![x] + s).drop_first() =~= s);
    assert(seq![x].drop_first() =~= Seq::empty());
    assert(diagnostics_of(Seq::<(Token, Option<LexError>)>::empty()) == Seq::<LexDiagnostic>::empty());
    assert(diagnostics_of(seq![x] + s) =~= diagnostics_of(seq![x]) + diagnostics_of(s));
}

proof fn lemma_ws_end(input: Seq<char>, i: int)
    requires
        0 <= i <= input.len(),
    ensures
        i <= ws_end(input, i) <= input.len(),
        ws_end(input, i) < input.len() ==> !is_ws(input[ws_end(input, i)]),
    decreases input.len() - i,
{
    if i < input.len() && is_ws(input[i]) {
        lemma_ws_end(input, i + 1);
    }
}

proof fn lemma_loc_bound(input: Seq<char>, k: int)
    requires
        0 <= k,
    ensures
        loc_at(input, k).row <= k,
        loc_at(input, k).col <= k,
    decreases k,
{
    if k > 0 {
        lemma_loc_bound(input, k - 1);
    }
}

proof fn lemma_word_end(input: Seq<char>, i: int)
    requires
        0 <= i <= input.len(),
    ensures
        i <= word_end(input, i) <= input.len(),
        forall|j: int| i <= j < word_end(input, i) ==> is_word_char(#[trigger] input[j]),
    decreases input.len() - i,
{
    if i < input.len() && is_word_char(input[i]) {
        lemma_word_end(input, i + 1);
    }
}

proof fn lemma_digits_end(input: Seq<char>, i: int)
    requires
        0 <= i <= input.len(),
    ensures
        i <= digits_end(input, i) <= input.len(),
    decreases input.len() - i,
{
    if i < input.len() && is_digit(input[i]) {
        lemma_digits_end(input, i + 1);
    }
}

fn digit(c: char) -> (r: u64)
    ensures
        r == digit_value(c),
{
    if c == '1' { 1 } else if c == '2' { 2 } else if c == '3' { 3 } else if c == '4' { 4 }
    else if c == '5' { 5 } else if c == '6' { 6 } else if c == '7' { 7 } else if c == '8' { 8 }
    else if c == '9' { 9 } else { 0 }
}

fn is_word_char_exec(c: char) -> (r: bool)
    ensures
        r == is_word_char(c),
{
    ('a' <= c && c <= 'z') || ('A' <= c && c <= 'Z') || ('0' <= c && c <= '9') || c == '_'
}

/// Reads the text of a machine network token by token.
pub struct Lexer {
    input: Vec<char>,
    read_idx: usize,
    read_loc: SourceLocation,
}

impl Lexer {
    pub closed spec fn text(&self) -> Seq<char> {
        self.input@
    }

    /// The position of the next character to read.
    pub closed spec fn position(&self) -> int {
        self.read_idx as int
    }

    pub closed spec fn wf(&self) -> bool {
        &&& self.read_idx <= self.input@.len()
        &&& self.read_loc == loc_at(self.input@, self.read_idx as int)
    }

    /// A lexer at the start of `input`.
    pub fn new(input: Vec<char>) -> (r: Lexer)
        ensures
            r.wf(),
            r.text() == input@,
            r.position() == 0,
    {
        Lexer { input, read_idx: 0, read_loc: SourceLocation::new() }
    }

    /// Reads up to `end`, keeping track of the location.
    fn advance(&mut self, end: usize)
        requires
            old(self).wf(),
            old(self).position() <= end <= old(self).text().len(),
        ensures
            final(self).wf(),
            final(self).text() == old(self).text(),
            final(self).position() == end,
    {
        while self.read_idx < end
            invariant
                self.wf(),
                self.input@ == old(self).input@,
                self.read_idx <= end <= self.input@.len(),
            decreases end - self.read_idx,
        {
            let c = self.input[self.read_idx];
            proof {
                lemma_loc_bound(self.input@, self.read_idx as int);
            }
            if c == '\n' {
                self.read_loc = SourceLocation { row: self.read_loc.row + 1, col: 0 };
            } else if c != '\r' {
                self.read_loc = SourceLocation { row: self.read_loc.row, col: self.read_loc.col + 1 };
            }
            self.read_idx += 1;
        }
    }

    fn skip_whitespace(&mut self)
        requires
            old(self).wf(),
        ensures
            final(self).wf(),
            final(self).text() == old(self).text(),
            final(self).position() == ws_end(old(self).text(), old(self).position()),
    {
        let mut end = self.read_idx;
        while end < self.input.len() && (self.input[end] == ' ' || self.input[end] == '\t'
            || self.input[end] == '\n' || self.input[end] == '\x0C' || self.input[end] == '\r')
            invariant
                self.wf(),
                self.read_idx <= end <= self.input@.len(),
                ws_end(self.input@, self.read_idx as int) == ws_end(self.input@, end as int),
            decreases self.input@.len() - end,
        {
            end += 1;
        }
        self.advance(end);
    }

    /// The keyword spelled by `start..end`, if any.
    fn keyword_at(&self, start: usize, end: usize) -> (r: Option<TokenValue>)
        requires
            start <= end <= self.input@.len(),
        ensures
            r == keyword(self.input@.subrange(start as int, end as int)),
    {
        let ghost w = self.input@.subrange(start as int, end as int);
        let n = end - start;
        let i = &self.input;
        if n == 4 && i[start] == 'm' && i[start + 1] == 'n' && i[start + 2] == 'e' && i[start + 3] == 't' {
            assert(w =~= seq!['m', 'n', 'e', 't']);
            return Some(TokenValue::KwMNet);
        }
        if n == 7 && i[start] == 'm' && i[start + 1] == 'a' && i[start + 2] == 'c' && i[start + 3] == 'h'
            && i[start + 4] == 'i' && i[start + 5] == 'n' && i[start + 6] == 'e' {
            assert(w =~= seq!['m', 'a', 'c', 'h', 'i', 'n', 'e']);
            return Some(TokenValue::KwMachine);
        }
        if n == 5 && i[start] == 's' && i[start + 1] == 't' && i[start + 2] == 'a' && i[start + 3] == 't'
            && i[start + 4] == 'e' {
            assert(w =~= seq!['s', 't', 'a', 't', 'e']);
            return Some(TokenValue::KwState);
        }
        if n == 7 && i[start] == 'i' && i[start + 1] == 'n' && i[start + 2] == 'i' && i[start + 3] == 't'
            && i[start + 4] == 'i' && i[start + 5] == 'a' && i[start + 6] == 'l' {
            assert(w =~= seq!['i', 'n', 'i', 't', 'i', 'a', 'l']);
            return Some(TokenValue::KwInitial);
        }
        if n == 5 && i[start] == 'f' && i[start + 1] == 'i' && i[start + 2] == 'n' && i[start + 3] == 'a'
            && i[start + 4] == 'l' {
            assert(w =~= seq!['f', 'i', 'n', 'a', 'l']);
            return Some(TokenValue::KwFinal);
        }
        proof {
            assert(w.len() == n);
            assert(forall|k: int| 0 <= k < w.len() ==> w[k] == self.input@[start + k]);
            if w == seq!['m', 'n', 'e', 't'] {
                assert(w[0] == 'm' && w[1] == 'n' && w[2] == 'e' && w[3] == 't');
            }
            if w == seq!['m', 'a', 'c', 'h', 'i', 'n', 'e'] {
                assert(w[0] == 'm' && w[1] == 'a' && w[2] == 'c' && w[3] == 'h' && w[4] == 'i' && w[5] == 'n' && w[6] == 'e');
            }
            if w == seq!['s', 't', 'a', 't', 'e'] {
                assert(w[0] == 's' && w[1] == 't' && w[2] == 'a' && w[3] == 't' && w[4] == 'e');
            }
            if w == seq!['i', 'n', 'i', 't', 'i', 'a', 'l'] {
                assert(w[0] == 'i' && w[1] == 'n' && w[2] == 'i' && w[3] == 't' && w[4] == 'i' && w[5] == 'a' && w[6] == 'l');
            }
            if w == seq!['f', 'i', 'n', 'a', 'l'] {
                assert(w[0] == 'f' && w[1] == 'i' && w[2] == 'n' && w[3] == 'a' && w[4] == 'l');
            }
        }
        None
    }

    /// The token at `start`, which holds no whitespace, as `scan` gives it.
    fn scan_at(&self, start: usize) -> (r: (TokenValue, usize, Option<LexError>))
        requires
            start < self.input@.len(),
            !is_ws(self.input@[start as int]),
        ensures
            (r.0, r.1 as int, r.2) == scan(self.input@, start as int),
            start < r.1 <= self.input@.len(),
    {
        let input = &self.input;
        let n = input.len();
        let c = input[start];
        if c == ';' {
            return (TokenValue::Semi, start + 1, None);
        } else if c == '{' {
            return (TokenValue::LBrace, start + 1, None);
        } else if c == '}' {
            return (TokenValue::RBrace, start + 1, None);
        } else if c == '-' && start + 1 < n && input[start + 1] == '>' {
            return (TokenValue::RArrow, start + 2, None);
        } else if ('a' <= c && c <= 'z') || ('A' <= c && c <= 'Z') || c == '_' {
            let mut end = start + 1;
            while end < input.len() && is_word_char_exec(input[end])
                invariant
                    start < end <= input@.len(),
                    word_end(input@, start + 1) == word_end(input@, end as int),
                decreases input@.len() - end,
            {
                end += 1;
            }
            match self.keyword_at(start, end) {
                Some(k) => {
                    return (k, end, None);
                },
                None => {
                    if end == start + 1 {
                        return (TokenValue::Ident(c), end, None);
                    }
                    return (TokenValue::Invalid, end, Some(LexError::IdentifierTooLong));
                },
            }
        } else if '0' <= c && c <= '9' {
            let mut end = start + 1;
            let mut v: u64 = digit(c);
            let mut too_big = false;
            proof {
                assert(input@.subrange(start as int, start + 1).drop_last() =~= Seq::<char>::empty());
                assert(digits_value(Seq::<char>::empty()) == 0);
                assert(input@.subrange(start as int, start + 1).last() == c);
            }
            while end < input.len() && '0' <= input[end] && input[end] <= '9'
                invariant
                    start < end <= input@.len(),
                    digits_end(input@, start + 1) == digits_end(input@, end as int),
                    !too_big ==> v == digits_value(input@.subrange(start as int, end as int)) && v <= i32::MAX,
                    too_big ==> digits_value(input@.subrange(start as int, end as int)) > i32::MAX,
                decreases input@.len() - end,
            {
                let d = digit(input[end]);
                proof {
                    assert(input@.subrange(start as int, end + 1).drop_last() =~= input@.subrange(start as int, end as int));
                }
                if !too_big {
                    let w = v * 10 + d;
                    if w > 2147483647 {
                        too_big = true;
                    } else {
                        v = w;
                    }
                }
                end += 1;
            }
            if too_big {
                return (TokenValue::Invalid, end, Some(LexError::NumberTooLarge));
            }
            return (TokenValue::Number(v as i32), end, None);
        }
        (TokenValue::Invalid, start + 1, Some(LexError::UnrecognisedCharacter))
    }

    /// The next token, if any is left; a lexical error is added to `errors`.
    pub fn next_token(&mut self, errors: &mut Vec<LexDiagnostic>) -> (r: Option<Token>)
        requires
            old(self).wf(),
        ensures
            final(self).wf(),
            final(self).text() == old(self).text(),
            lex(old(self).text(), old(self).position()) == if r.is_some() {
                seq![(r.unwrap(), scan(old(self).text(), ws_end(old(self).text(), old(self).position())).2)] + lex(
                    final(self).text(),
                    final(self).position(),
                )
            } else {
                Seq::empty()
            },
            final(errors)@ == old(errors)@ + diagnostics_of(
                lex(old(self).text(), old(self).position()).subrange(0, if r.is_some() { 1int } else { 0 }),
            ),
            r.is_some() ==> old(self).position() < final(self).position(),
    {
        proof {
            lemma_ws_end(self.input@, self.read_idx as int);
        }
        self.skip_whitespace();
        let ghost t = self.input@;
        let ghost l0 = lex(t, old(self).position());
        if self.read_idx >= self.input.len() {
            proof {
                assert(l0.subrange(0, 0) =~= Seq::empty());
            }
            return None;
        }
        let start = self.read_idx;
        let location = self.read_loc;
        let (value, end, err) = self.scan_at(start);
        self.advance(end);
        let tok = Token { location, value };
        let ghost first = (tok, err);
        proof {
            assert(l0 == seq![first] + lex(t, end as int));
            assert(l0.subrange(0, 1) =~= seq![first]);
            assert(seq![first].drop_first() =~= Seq::empty());
        }
        match err {
            Some(e) => {
                errors.push(LexDiagnostic { location, error: e });
            },
            None => {},
        }
        proof {
            assert(seq![first].drop_first() =~= Seq::empty());
            assert(diagnostics_of(Seq::<(Token, Option<LexError>)>::empty()) == Seq::<LexDiagnostic>::empty());
            assert(errors@ =~= old(errors)@ + diagnostics_of(l0.subrange(0, 1)));
        }
        Some(tok)
    }

    /// Every token from the position on, and the lexical errors met.
    pub fn tokenize(&mut self) -> (r: (Vec<Token>, Vec<LexDiagnostic>))
        requires
            old(self).wf(),
        ensures
            r.0@ == tokens_of(lex(old(self).text(), old(self).position())),
            r.1@ == diagnostics_of(lex(old(self).text(), old(self).position())),
    {
        let ghost t = self.input@;
        let ghost all = lex(t, self.read_idx as int);
        let mut tokens: Vec<Token> = Vec::new();
        let mut errors: Vec<LexDiagnostic> = Vec::new();
        loop
            invariant_except_break
                tokens_of(all) == tokens@ + tokens_of(lex(t, self.read_idx as int)),
                diagnostics_of(all) == errors@ + diagnostics_of(lex(t, self.read_idx as int)),
            invariant
                self.wf(),
                self.input@ == t,
                all == lex(t, old(self).position()),
            ensures
                tokens_of(all) == tokens@,
                diagnostics_of(all) == errors@,
            decreases t.len() - self.read_idx,
        {
            let ghost rest = lex(t, self.read_idx as int);
            match self.next_token(&mut errors) {
                Some(tok) => {
                    proof {
                        let tail = lex(t, self.read_idx as int);
                        assert(tokens_of(rest) =~= seq![tok] + tokens_of(tail));
                        assert(rest.drop_first() =~= tail);
                        assert(rest =~= seq![rest[0]] + tail);
                        assert(rest.subrange(0, 1) =~= seq![rest[0]]);
                        lemma_diagnostics_cons(rest[0], tail);
                        assert(diagnostics_of(rest) =~= diagnostics_of(rest.subrange(0, 1)) + diagnostics_of(tail));
                    }
                    tokens.push(tok);
                    proof {
                        assert(tokens_of(all) =~= tokens@ + tokens_of(lex(t, self.read_idx as int)));
                    }
                },
                None => {
                    proof {
                        assert(tokens_of(rest) =~= Seq::empty());
                        assert(rest.subrange(0, 0) =~= Seq::empty());
                        assert(tokens@ =~= tokens@ + tokens_of(rest));
                        assert(errors@ =~= errors@ + diagnostics_of(rest));
                    }
                    break;
                },
            }
        }
        (tokens, errors)
    }
}

} // verus!
