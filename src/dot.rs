//! Graphviz rendering of a pilot.
use vstd::prelude::*;
use vstd::std_specs::iter::IteratorSpec;
use crate::candidate::Candidate;
use crate::pilot::{Pilot, PilotState, PilotTransition};

verus! {

broadcast use vstd::string::axiom_spec_iter, vstd::string::next_postcondition;

/// Appends the characters of `s`.
pub(crate) fn push_str(out: &mut Vec<char>, s: &str)
    ensures
        final(out)@ == old(out)@ + s@,
{
    let mut chars = s.chars();
    loop
        invariant
            chars.obeys_prophetic_iter_laws(),
            out@ + chars.remaining() == old(out)@ + s@,
            chars.decrease() is Some,
        ensures
            out@ == old(out)@ + s@,
        decreases chars.decrease()->0,
    {
        let ghost before = chars.remaining();
        match chars.next() {
            Some(c) => {
                let ghost o = out@;
                out.push(c);
                assert(out@ + chars.remaining() =~= o + before);
            },
            None => {
                assert(before.len() == 0);
                assert(out@ =~= out@ + before);
                break;
            },
        }
    }
}

pub open spec fn digit_char(d: int) -> char {
    if d == 0 { '0' } else if d == 1 { '1' } else if d == 2 { '2' } else if d == 3 { '3' }
    else if d == 4 { '4' } else if d == 5 { '5' } else if d == 6 { '6' } else if d == 7 { '7' }
    else if d == 8 { '8' } else { '9' }
}

/// The decimal digits of `n`.
pub open spec fn decimal(n: nat) -> Seq<char>
    decreases n,
{
    if n < 10 {
        seq![digit_char(n as int)]
    } else {
        decimal(n / 10).push(digit_char((n % 10) as int))
    }
}

/// `n` in decimal, with a minus sign when negative.
pub open spec fn int_text(n: int) -> Seq<char> {
    if n < 0 {
        seq!['-'] + decimal((-n) as nat)
    } else {
        decimal(n as nat)
    }
}

fn push_digit(out: &mut Vec<char>, d: u64)
    requires
        d < 10,
    ensures
        final(out)@ == old(out)@.push(digit_char(d as int)),
{
    let c = if d == 0 { '0' } else if d == 1 { '1' } else if d == 2 { '2' } else if d == 3 { '3' }
    else if d == 4 { '4' } else if d == 5 { '5' } else if d == 6 { '6' } else if d == 7 { '7' }
    else if d == 8 { '8' } else { '9' };
    out.push(c);
}

pub(crate) fn push_decimal(out: &mut Vec<char>, n: u64)
    ensures
        final(out)@ == old(out)@ + decimal(n as nat),
    decreases n,
{
    if n >= 10 {
        push_decimal(out, n / 10);
    }
    push_digit(out, n % 10);
    proof {
        if n < 10 {
            assert(decimal(n as nat) == seq![digit_char(n as int)]);
        }
    }
    assert(out@ =~= old(out)@ + decimal(n as nat));
}

fn push_int(out: &mut Vec<char>, n: i64)
    requires
        n > i64::MIN,
    ensures
        final(out)@ == old(out)@ + int_text(n as int),
{
    if n < 0 {
        out.push('-');
        push_decimal(out, (-n) as u64);
        assert(out@ =~= old(out)@ + int_text(n as int));
    } else {
        push_decimal(out, n as u64);
    }
}

/// How a lookahead is shown: the end-of-input marker as `⊣`.
pub open spec fn shown(c: char) -> char {
    if c == '$' {
        '\u{22A3}'
    } else {
        c
    }
}

/// `c` inserted into the sorted `t` after the elements not above it.
pub open spec fn insert_sorted(t: Seq<char>, c: char) -> Seq<char>
    decreases t.len(),
{
    if t.len() == 0 {
        seq![c]
    } else if c < t[0] {
        seq![c] + t
    } else {
        seq![t[0]] + insert_sorted(t.drop_first(), c)
    }
}

/// `s` in increasing order, repetitions kept.
pub open spec fn sort_chars(s: Seq<char>) -> Seq<char>
    decreases s.len(),
{
    if s.len() == 0 {
        s
    } else {
        insert_sorted(sort_chars(s.drop_last()), s.last())
    }
}

pub open spec fn pair_lt(a: (char, i32), b: (char, i32)) -> bool {
    a.0 < b.0 || (a.0 == b.0 && a.1 < b.1)
}

/// `x` inserted into the strictly sorted `t` unless it is there.
pub open spec fn insert_pair(t: Seq<(char, i32)>, x: (char, i32)) -> Seq<(char, i32)>
    decreases t.len(),
{
    if t.len() == 0 {
        seq![x]
    } else if x == t[0] {
        t
    } else if pair_lt(x, t[0]) {
        seq![x] + t
    } else {
        seq![t[0]] + insert_pair(t.drop_first(), x)
    }
}

/// The positions of the candidates of `s`, sorted, each once.
pub open spec fn positions(s: Seq<Candidate>) -> Seq<(char, i32)>
    decreases s.len(),
{
    if s.len() == 0 {
        Seq::empty()
    } else {
        insert_pair(positions(s.drop_last()), (s.last().machine, s.last().state))
    }
}

/// The candidates of `s` at the position `p`, in order.
pub open spec fn group(s: Seq<Candidate>, p: (char, i32)) -> Seq<Candidate>
    decreases s.len(),
{
    if s.len() == 0 {
        Seq::empty()
    } else if s.last().machine == p.0 && s.last().state == p.1 {
        group(s.drop_last(), p).push(s.last())
    } else {
        group(s.drop_last(), p)
    }
}

/// The lookaheads of `g` as shown, sorted.
pub open spec fn group_lookaheads(g: Seq<Candidate>) -> Seq<char> {
    sort_chars(g.map_values(|c: Candidate| shown(c.lookahead)))
}

pub open spec fn group_is_seed(g: Seq<Candidate>) -> bool {
    exists|k: int| 0 <= k < g.len() && (#[trigger] g[k]).is_seed
}

/// `s` with `", "` between its characters.
pub open spec fn comma_list(s: Seq<char>) -> Seq<char>
    decreases s.len(),
{
    if s.len() == 0 {
        Seq::empty()
    } else if s.len() == 1 {
        seq![s[0]]
    } else {
        comma_list(s.drop_last()) + ", "@ + seq![s.last()]
    }
}

/// The table row of the candidates of a position.
pub open spec fn row_text(p: (char, i32), g: Seq<Candidate>) -> Seq<char> {
    let label = int_text(p.1 as int) + "<sub>"@ + seq![p.0] + "</sub>"@;
    let label = if g[0].is_final {
        "("@ + label + ")"@
    } else {
        label
    };
    "    <tr><td sides=\"ltb\">"@ + label + "</td><td sides=\"trb\">"@ + comma_list(group_lookaheads(g))
        + "</td></tr>"@
}

/// The rows of the positions `ps` whose candidates hold a seed, or hold
/// none, after `seeded` says which.
pub open spec fn rows(s: Seq<Candidate>, ps: Seq<(char, i32)>, seeded: bool) -> Seq<Seq<char>>
    decreases ps.len(),
{
    if ps.len() == 0 {
        Seq::empty()
    } else {
        let g = group(s, ps.last());
        let rest = rows(s, ps.drop_last(), seeded);
        if group_is_seed(g) == seeded {
            rest.push(row_text(ps.last(), g))
        } else {
            rest
        }
    }
}

pub open spec fn separator(base_empty: bool, others_empty: bool) -> Seq<char> {
    let sides = if base_empty || others_empty {
        "sides=\""@ + (if base_empty { "t"@ } else { Seq::empty() }) + (if others_empty {
            "b"@
        } else {
            Seq::empty()
        }) + "\""@
    } else {
        "border=\"0\""@
    };
    "    <tr><td colspan=\"2\" "@ + sides + "></td></tr>"@
}

pub open spec fn transition_text(id: usize, t: PilotTransition) -> Seq<char> {
    "  i"@ + decimal(id as nat) + " -> i"@ + decimal(t.dest_id as nat) + " [label=\""@ + seq![t.character]
        + "\"];"@
}

/// The lines that describe a pilot state.
pub open spec fn state_lines(st: PilotState) -> Seq<Seq<char>> {
    let cs = st.candidates@;
    let ps = positions(cs);
    let base = rows(cs, ps, true);
    let others = rows(cs, ps, false);
    seq!["  i"@ + decimal(st.id as nat) + " [label=<"@, "    <table border=\"0\" cellborder=\"1\" cellspacing=\"0\">"@]
        + base + seq![separator(base.len() == 0, others.len() == 0)] + others + seq![
        "    </table>"@,
        "  >, xlabel=<I<sub>"@ + decimal(st.id as nat) + "</sub>>];"@,
    ] + st.transitions@.map_values(|t: PilotTransition| transition_text(st.id, t))
}

/// `ls` with a line feed between each two.
pub open spec fn join_lines(ls: Seq<Seq<char>>) -> Seq<char>
    decreases ls.len(),
{
    if ls.len() == 0 {
        Seq::empty()
    } else if ls.len() == 1 {
        ls[0]
    } else {
        join_lines(ls.drop_last()) + seq!['\n'] + ls.last()
    }
}

/// The Graphviz text of a pilot.
pub open spec fn dot_text(p: Pilot) -> Seq<char> {
    "digraph {\n  node [shape=\"plain\", forcelabels=true];\n"@ + join_lines(
        p.states@.map_values(|st: PilotState| join_lines(state_lines(st))),
    ) + "\n}"@
}

proof fn lemma_insert_sorted(t: Seq<char>, c: char, p: int)
    requires
        0 <= p <= t.len(),
        forall|k: int| 0 <= k < p ==> !(c < #[trigger] t[k]),
        p < t.len() ==> c < t[p],
    ensures
        insert_sorted(t, c) == t.insert(p, c),
    decreases t.len(),
{
    if t.len() == 0 {
        assert(t.insert(p, c) =~= seq![c]);
    } else if p == 0 {
        assert(t.insert(p, c) =~= seq![c] + t);
    } else {
        assert(!(c < t[0]));
        lemma_insert_sorted(t.drop_first(), c, p - 1);
        assert(t.insert(p, c) =~= seq![t[0]] + t.drop_first().insert(p - 1, c));
    }
}

fn insert_sorted_char(v: &mut Vec<char>, c: char)
    ensures
        final(v)@ == insert_sorted(old(v)@, c),
{
    let mut p: usize = 0;
    while p < v.len() && !(c < v[p])
        invariant
            p <= v@.len(),
            forall|k: int| 0 <= k < p ==> !(c < #[trigger] v@[k]),
        decreases v@.len() - p,
    {
        p += 1;
    }
    proof {
        lemma_insert_sorted(v@, c, p as int);
    }
    v.insert(p, c);
}

/// The shown lookaheads of `g`, sorted.
fn lookaheads_of(g: &Vec<Candidate>) -> (r: Vec<char>)
    ensures
        r@ == group_lookaheads(g@),
{
    let ghost shown_all = g@.map_values(|c: Candidate| shown(c.lookahead));
    let mut r: Vec<char> = Vec::new();
    let mut i: usize = 0;
    proof {
        assert(shown_all.take(0) =~= Seq::<char>::empty());
    }
    while i < g.len()
        invariant
            i <= g@.len(),
            shown_all == g@.map_values(|c: Candidate| shown(c.lookahead)),
            r@ == sort_chars(shown_all.take(i as int)),
        decreases g@.len() - i,
    {
        let l = g[i].lookahead;
        let c = if l == '$' { '\u{22A3}' } else { l };
        insert_sorted_char(&mut r, c);
        proof {
            assert(shown_all.take(i + 1).drop_last() =~= shown_all.take(i as int));
            assert(shown_all.take(i + 1).last() == c);
        }
        i += 1;
    }
    proof {
        assert(shown_all.take(g@.len() as int) =~= shown_all);
    }
    r
}

proof fn lemma_insert_pair(t: Seq<(char, i32)>, x: (char, i32), p: int)
    requires
        0 <= p <= t.len(),
        forall|k: int| 0 <= k < p ==> pair_lt(#[trigger] t[k], x),
        p < t.len() ==> !pair_lt(t[p], x),
    ensures
        insert_pair(t, x) == if p < t.len() && t[p] == x {
            t
        } else {
            t.insert(p, x)
        },
    decreases t.len(),
{
    if t.len() == 0 {
        assert(t.insert(p, x) =~= seq![x]);
    } else if p == 0 {
        if x != t[0] {
            assert(t.insert(p, x) =~= seq![x] + t);
        }
    } else {
        assert(pair_lt(t[0], x));
        lemma_insert_pair(t.drop_first(), x, p - 1);
        if p < t.len() && t[p] == x {
            assert(t =~= seq![t[0]] + t.drop_first());
        } else {
            assert(t.insert(p, x) =~= seq![t[0]] + t.drop_first().insert(p - 1, x));
        }
    }
}

fn pair_less(a: (char, i32), b: (char, i32)) -> (r: bool)
    ensures
        r == pair_lt(a, b),
{
    a.0 < b.0 || (a.0 == b.0 && a.1 < b.1)
}

/// The sorted positions of the candidates, each once.
fn positions_of(cs: &Vec<Candidate>) -> (r: Vec<(char, i32)>)
    ensures
        r@ == positions(cs@),
{
    let mut r: Vec<(char, i32)> = Vec::new();
    let mut i: usize = 0;
    proof {
        assert(cs@.take(0) =~= Seq::<Candidate>::empty());
    }
    while i < cs.len()
        invariant
            i <= cs@.len(),
            r@ == positions(cs@.take(i as int)),
        decreases cs@.len() - i,
    {
        let x = (cs[i].machine, cs[i].state);
        let mut p: usize = 0;
        while p < r.len() && pair_less(r[p], x)
            invariant
                p <= r@.len(),
                forall|k: int| 0 <= k < p ==> pair_lt(#[trigger] r@[k], x),
            decreases r@.len() - p,
        {
            p += 1;
        }
        proof {
            lemma_insert_pair(r@, x, p as int);
            assert(cs@.take(i + 1).drop_last() =~= cs@.take(i as int));
        }
        if !(p < r.len() && r[p].0 == x.0 && r[p].1 == x.1) {
            r.insert(p, x);
        } else {
            proof {
                assert(r@[p as int] == x);
            }
        }
        i += 1;
    }
    proof {
        assert(cs@.take(cs@.len() as int) =~= cs@);
    }
    r
}

/// The candidates at position `p`, in order.
fn group_of(cs: &Vec<Candidate>, p: (char, i32)) -> (r: Vec<Candidate>)
    ensures
        r@ == group(cs@, p),
{
    let mut r: Vec<Candidate> = Vec::new();
    let mut i: usize = 0;
    proof {
        assert(cs@.take(0) =~= Seq::<Candidate>::empty());
    }
    while i < cs.len()
        invariant
            i <= cs@.len(),
            r@ == group(cs@.take(i as int), p),
        decreases cs@.len() - i,
    {
        proof {
            assert(cs@.take(i + 1).drop_last() =~= cs@.take(i as int));
        }
        if cs[i].machine == p.0 && cs[i].state == p.1 {
            r.push(cs[i]);
        }
        i += 1;
    }
    proof {
        assert(cs@.take(cs@.len() as int) =~= cs@);
    }
    r
}

fn any_seed(g: &Vec<Candidate>) -> (r: bool)
    ensures
        r == group_is_seed(g@),
{
    let mut i: usize = 0;
    while i < g.len()
        invariant
            i <= g@.len(),
            forall|k: int| 0 <= k < i ==> !(#[trigger] g@[k]).is_seed,
        decreases g@.len() - i,
    {
        if g[i].is_seed {
            return true;
        }
        i += 1;
    }
    false
}

fn push_comma_list(out: &mut Vec<char>, s: &Vec<char>)
    ensures
        final(out)@ == old(out)@ + comma_list(s@),
{
    let mut i: usize = 0;
    proof {
        assert(s@.take(0) =~= Seq::<char>::empty());
        assert(out@ =~= old(out)@ + comma_list(s@.take(0)));
    }
    while i < s.len()
        invariant
            i <= s@.len(),
            out@ == old(out)@ + comma_list(s@.take(i as int)),
        decreases s@.len() - i,
    {
        let ghost before = out@;
        if i > 0 {
            push_str(out, ", ");
        }
        out.push(s[i]);
        proof {
            let t = s@.take(i + 1);
            assert(t.drop_last() =~= s@.take(i as int));
            if i == 0 {
                assert(comma_list(t) =~= seq![s@[0]]);
            }
            assert(out@ =~= old(out)@ + comma_list(t));
        }
        i += 1;
    }
    proof {
        assert(s@.take(s@.len() as int) =~= s@);
    }
}

fn row_line(p: (char, i32), g: &Vec<Candidate>) -> (r: Vec<char>)
    requires
        g@.len() > 0,
    ensures
        r@ == row_text(p, g@),
{
    let mut label: Vec<char> = Vec::new();
    push_int(&mut label, p.1 as i64);
    push_str(&mut label, "<sub>");
    label.push(p.0);
    push_str(&mut label, "</sub>");
    let mut out: Vec<char> = Vec::new();
    push_str(&mut out, "    <tr><td sides=\"ltb\">");
    if g[0].is_final {
        push_str(&mut out, "(");
        append(&mut out, &label);
        push_str(&mut out, ")");
    } else {
        append(&mut out, &label);
    }
    push_str(&mut out, "</td><td sides=\"trb\">");
    let looks = lookaheads_of(g);
    push_comma_list(&mut out, &looks);
    push_str(&mut out, "</td></tr>");
    proof {
        let l = int_text(p.1 as int) + "<sub>"@ + seq![p.0] + "</sub>"@;
        assert(label@ =~= l);
        let l2 = if g@[0].is_final { "("@ + l + ")"@ } else { l };
        assert(out@ =~= "    <tr><td sides=\"ltb\">"@ + l2 + "</td><td sides=\"trb\">"@ + comma_list(group_lookaheads(g@))
            + "</td></tr>"@);
    }
    out
}

fn append(out: &mut Vec<char>, s: &Vec<char>)
    ensures
        final(out)@ == old(out)@ + s@,
{
    let mut i: usize = 0;
    while i < s.len()
        invariant
            i <= s@.len(),
            out@ == old(out)@ + s@.take(i as int),
        decreases s@.len() - i,
    {
        out.push(s[i]);
        proof {
            assert(s@.take(i + 1) =~= s@.take(i as int).push(s@[i as int]));
        }
        i += 1;
        assert(out@ =~= old(out)@ + s@.take(i as int));
    }
    assert(s@.take(s@.len() as int) =~= s@);
}

pub open spec fn line_views(ls: Seq<Vec<char>>) -> Seq<Seq<char>> {
    ls.map_values(|l: Vec<char>| l@)
}

/// Adds the rows of the positions `ps` whose candidates hold a seed, or
/// hold none, to `lines`.
fn push_rows(lines: &mut Vec<Vec<char>>, cs: &Vec<Candidate>, ps: &Vec<(char, i32)>, seeded: bool)
    requires
        forall|j: int| 0 <= j < ps@.len() ==> group(cs@, #[trigger] ps@[j]).len() > 0,
    ensures
        line_views(final(lines)@) == line_views(old(lines)@) + rows(cs@, ps@, seeded),
{
    let mut j: usize = 0;
    proof {
        assert(ps@.take(0) =~= Seq::<(char, i32)>::empty());
        assert(line_views(lines@) =~= line_views(old(lines)@) + rows(cs@, ps@.take(0), seeded));
    }
    while j < ps.len()
        invariant
            j <= ps@.len(),
            forall|k: int| 0 <= k < ps@.len() ==> group(cs@, #[trigger] ps@[k]).len() > 0,
            line_views(lines@) == line_views(old(lines)@) + rows(cs@, ps@.take(j as int), seeded),
        decreases ps@.len() - j,
    {
        let g = group_of(cs, ps[j]);
        let ghost before = lines@;
        proof {
            assert(ps@.take(j + 1).drop_last() =~= ps@.take(j as int));
            assert(ps@.take(j + 1).last() == ps@[j as int]);
            assert(group(cs@, ps@[j as int]).len() > 0);
        }
        if any_seed(&g) == seeded {
            let row = row_line(ps[j], &g);
            lines.push(row);
            proof {
                assert(line_views(lines@) =~= line_views(before).push(row@));
            }
        }
        j += 1;
        proof {
            assert(line_views(lines@) =~= line_views(old(lines)@) + rows(cs@, ps@.take(j as int), seeded));
        }
    }
    proof {
        assert(ps@.take(ps@.len() as int) =~= ps@);
    }
}

proof fn lemma_insert_pair_from(t: Seq<(char, i32)>, x: (char, i32))
    ensures
        forall|y: (char, i32)| #[trigger] insert_pair(t, x).contains(y) ==> t.contains(y) || y == x,
    decreases t.len(),
{
    if t.len() > 0 {
        lemma_insert_pair_from(t.drop_first(), x);
        assert forall|y: (char, i32)| #[trigger] insert_pair(t, x).contains(y) implies t.contains(y) || y == x by {
            if x != t[0] && !pair_lt(x, t[0]) {
                let r = insert_pair(t.drop_first(), x);
                assert(insert_pair(t, x) == seq![t[0]] + r);
                let k = choose|k: int| 0 <= k < insert_pair(t, x).len() && insert_pair(t, x)[k] == y;
                if k > 0 {
                    assert(r[k - 1] == y);
                    assert(r.contains(y));
                    if t.drop_first().contains(y) {
                        let m = choose|m: int| 0 <= m < t.drop_first().len() && t.drop_first()[m] == y;
                        assert(t[m + 1] == y);
                    }
                } else {
                    assert(t[0] == y);
                }
            } else if x != t[0] {
                let k = choose|k: int| 0 <= k < insert_pair(t, x).len() && insert_pair(t, x)[k] == y;
                if k > 0 {
                    assert(t[k - 1] == y);
                }
            }
        }
    }
}

proof fn lemma_positions_from(cs: Seq<Candidate>)
    ensures
        forall|y: (char, i32)|
            #[trigger] positions(cs).contains(y) ==> exists|k: int|
                0 <= k < cs.len() && cs[k].machine == y.0 && cs[k].state == y.1,
    decreases cs.len(),
{
    if cs.len() > 0 {
        let d = cs.drop_last();
        lemma_positions_from(d);
        lemma_insert_pair_from(positions(d), (cs.last().machine, cs.last().state));
        assert forall|y: (char, i32)| #[trigger] positions(cs).contains(y) implies exists|k: int|
            0 <= k < cs.len() && cs[k].machine == y.0 && cs[k].state == y.1 by {
            if positions(d).contains(y) {
                let k = choose|k: int| 0 <= k < d.len() && d[k].machine == y.0 && d[k].state == y.1;
                assert(cs[k] == d[k]);
            } else {
                assert(cs[cs.len() - 1].machine == y.0);
            }
        }
    }
}

proof fn lemma_group_nonempty(cs: Seq<Candidate>, k: int, p: (char, i32))
    requires
        0 <= k < cs.len(),
        cs[k].machine == p.0,
        cs[k].state == p.1,
    ensures
        group(cs, p).len() > 0,
    decreases cs.len(),
{
    if k < cs.len() - 1 {
        lemma_group_nonempty(cs.drop_last(), k, p);
    }
}

proof fn lemma_positions_nonempty(cs: Seq<Candidate>)
    ensures
        forall|j: int| 0 <= j < positions(cs).len() ==> group(cs, #[trigger] positions(cs)[j]).len() > 0,
{
    lemma_positions_from(cs);
    assert forall|j: int| 0 <= j < positions(cs).len() implies group(cs, #[trigger] positions(cs)[j]).len() > 0 by {
        let y = positions(cs)[j];
        assert(positions(cs).contains(y));
        let k = choose|k: int| 0 <= k < cs.len() && cs[k].machine == y.0 && cs[k].state == y.1;
        lemma_group_nonempty(cs, k, y);
    }
}

pub(crate) fn text_line(s: &str) -> (r: Vec<char>)
    ensures
        r@ == s@,
{
    let mut v: Vec<char> = Vec::new();
    push_str(&mut v, s);
    assert(v@ =~= s@);
    v
}

fn separator_line(base_empty: bool, others_empty: bool) -> (r: Vec<char>)
    ensures
        r@ == separator(base_empty, others_empty),
{
    let mut out: Vec<char> = Vec::new();
    push_str(&mut out, "    <tr><td colspan=\"2\" ");
    if base_empty || others_empty {
        push_str(&mut out, "sides=\"");
        if base_empty {
            push_str(&mut out, "t");
        }
        if others_empty {
            push_str(&mut out, "b");
        }
        push_str(&mut out, "\"");
    } else {
        push_str(&mut out, "border=\"0\"");
    }
    push_str(&mut out, "></td></tr>");
    assert(out@ =~= separator(base_empty, others_empty));
    out
}

/// The lines that describe `st`.
fn lines_of(st: &PilotState) -> (r: Vec<Vec<char>>)
    requires
        st.id <= u64::MAX,
    ensures
        line_views(r@) == state_lines(*st),
{
    let cs = &st.candidates;
    let ps = positions_of(cs);
    proof {
        lemma_positions_nonempty(cs@);
    }
    let mut lines: Vec<Vec<char>> = Vec::new();
    let mut first: Vec<char> = Vec::new();
    push_str(&mut first, "  i");
    push_decimal(&mut first, st.id as u64);
    push_str(&mut first, " [label=<");
    let ghost first_text = first@;
    lines.push(first);
    lines.push(text_line("    <table border=\"0\" cellborder=\"1\" cellspacing=\"0\">"));
    let ghost l0 = lines@;
    let ghost base = rows(cs@, ps@, true);
    let ghost oth = rows(cs@, ps@, false);
    proof {
        assert(line_views(l0) =~= seq![first_text, "    <table border=\"0\" cellborder=\"1\" cellspacing=\"0\">"@]);
    }
    let n0 = lines.len();
    push_rows(&mut lines, cs, &ps, true);
    let n1 = lines.len();
    proof {
        assert(line_views(lines@).len() == lines@.len());
        assert(line_views(l0).len() == l0.len());
        assert(n1 - n0 == base.len());
    }
    let mut others: Vec<Vec<char>> = Vec::new();
    push_rows(&mut others, cs, &ps, false);
    proof {
        assert(line_views(Seq::<Vec<char>>::empty()) =~= Seq::<Seq<char>>::empty());
        assert(line_views(others@) =~= oth);
        assert(line_views(others@).len() == others@.len());
    }
    let ghost l1 = lines@;
    lines.push(separator_line(n1 == n0, others.len() == 0));
    let ghost before_others = lines@;
    proof {
        assert(line_views(before_others) =~= line_views(l0) + base + seq![separator(base.len() == 0, oth.len() == 0)]);
    }
    let mut k: usize = 0;
    while k < others.len()
        invariant
            k <= others@.len(),
            line_views(lines@) == line_views(before_others) + line_views(others@).take(k as int),
        decreases others@.len() - k,
    {
        let ghost b = lines@;
        let line = others[k].clone();
        lines.push(line);
        proof {
            assert(line_views(lines@) =~= line_views(b).push(line@));
            assert(line_views(others@).take(k + 1) =~= line_views(others@).take(k as int).push(others@[k as int]@));
        }
        k += 1;
    }
    let ghost l2 = lines@;
    lines.push(text_line("    </table>"));
    let mut last: Vec<char> = Vec::new();
    push_str(&mut last, "  >, xlabel=<I<sub>");
    push_decimal(&mut last, st.id as u64);
    push_str(&mut last, "</sub>>];");
    let ghost last_text = last@;
    lines.push(last);
    let ghost before_trans = lines@;
    proof {
        assert(line_views(others@).take(others@.len() as int) =~= line_views(others@));
        assert(line_views(before_trans) =~= line_views(before_others) + oth + seq!["    </table>"@, last_text]);
    }
    let mut q: usize = 0;
    while q < st.transitions.len()
        invariant
            q <= st.transitions@.len(),
            st.id <= u64::MAX,
            line_views(lines@) == line_views(before_trans) + st.transitions@.take(q as int).map_values(
                |t: PilotTransition| transition_text(st.id, t),
            ),
        decreases st.transitions@.len() - q,
    {
        let t = st.transitions[q];
        let ghost b = lines@;
        let mut line: Vec<char> = Vec::new();
        push_str(&mut line, "  i");
        push_decimal(&mut line, st.id as u64);
        push_str(&mut line, " -> i");
        push_decimal(&mut line, t.dest_id as u64);
        push_str(&mut line, " [label=\"");
        line.push(t.character);
        push_str(&mut line, "\"];");
        proof {
            assert(line@ =~= transition_text(st.id, t));
        }
        lines.push(line);
        proof {
            assert(line_views(lines@) =~= line_views(b).push(transition_text(st.id, t)));
            assert(st.transitions@.take(q + 1).map_values(|t: PilotTransition| transition_text(st.id, t))
                =~= st.transitions@.take(q as int).map_values(|t: PilotTransition| transition_text(st.id, t)).push(
                transition_text(st.id, t),
            ));
        }
        q += 1;
    }
    proof {
        assert(st.transitions@.take(st.transitions@.len() as int) =~= st.transitions@);
        assert(line_views(lines@) =~= state_lines(*st));
    }
    lines
}

/// Appends the lines, a line feed between each two.
fn push_joined(out: &mut Vec<char>, lines: &Vec<Vec<char>>)
    ensures
        final(out)@ == old(out)@ + join_lines(line_views(lines@)),
{
    let mut k: usize = 0;
    proof {
        assert(line_views(lines@).take(0) =~= Seq::<Seq<char>>::empty());
        assert(out@ =~= old(out)@ + join_lines(line_views(lines@).take(0)));
    }
    while k < lines.len()
        invariant
            k <= lines@.len(),
            out@ == old(out)@ + join_lines(line_views(lines@).take(k as int)),
        decreases lines@.len() - k,
    {
        if k > 0 {
            out.push('\n');
        }
        append(out, &lines[k]);
        proof {
            let t = line_views(lines@).take(k + 1);
            assert(t.drop_last() =~= line_views(lines@).take(k as int));
            assert(t.last() == lines@[k as int]@);
            assert(out@ =~= old(out)@ + join_lines(t));
        }
        k += 1;
    }
    proof {
        assert(line_views(lines@).take(lines@.len() as int) =~= line_views(lines@));
    }
}

/// Relies on `String`'s `FromIterator<char>`: the string holds the given
/// characters, in order.
#[verifier::external_body]
pub(crate) fn string_from_chars(chars: Vec<char>) -> (r: String)
    ensures
        r@ == chars@,
{
    chars.into_iter().collect()
}

impl Pilot {
    /// The pilot as a Graphviz digraph: one table per state, seed rows above
    /// the separator, and one labelled edge per transition.
    pub fn to_dot(&self) -> (r: String)
        ensures
            r@ == dot_text(*self),
    {
        let mut texts: Vec<Vec<char>> = Vec::new();
        let mut i: usize = 0;
        while i < self.states.len()
            invariant
                i <= self.states@.len(),
                line_views(texts@) == self.states@.take(i as int).map_values(
                    |st: PilotState| join_lines(state_lines(st)),
                ),
            decreases self.states@.len() - i,
        {
            let st = &self.states[i];
            let lines = lines_of(st);
            let mut text: Vec<char> = Vec::new();
            push_joined(&mut text, &lines);
            let ghost b = texts@;
            texts.push(text);
            proof {
                assert(line_views(texts@) =~= line_views(b).push(join_lines(state_lines(*st))));
                assert(self.states@.take(i + 1).map_values(|st: PilotState| join_lines(state_lines(st)))
                    =~= self.states@.take(i as int).map_values(|st: PilotState| join_lines(state_lines(st))).push(
                    join_lines(state_lines(*st)),
                ));
            }
            i += 1;
        }
        let mut out: Vec<char> = Vec::new();
        push_str(&mut out, "digraph {\n  node [shape=\"plain\", forcelabels=true];\n");
        push_joined(&mut out, &texts);
        push_str(&mut out, "\n}");
        proof {
            assert(self.states@.take(self.states@.len() as int) =~= self.states@);
            assert(out@ =~= dot_text(*self));
        }
        string_from_chars(out)
    }
}

} // verus!