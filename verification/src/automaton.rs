//! Deterministic automata as transition tables, the semantics of running a
//! table over a byte string, and the derivative-based construction of an
//! automaton from a regular expression, proved to accept exactly the
//! expression's language.

use vstd::prelude::*;

use crate::ast::{deriv, deriv_word, deriv_x, in_lang, lemma_deriv, lemma_deriv_word_snoc,
    lemma_nullable_iff, nullable, nullable_x, regex_clone, regex_eq, Regex};
use crate::errors::RegexError;

verus! {

/// Upper bound on the number of states a built automaton may have.
pub const MAX_DFA_STATES: usize = 4096;

/// One serialized transition: from `state`, reading `byte`, go to `next`;
/// `is_accept` records whether `next` is an accepting state.
#[derive(Clone, Copy, PartialEq, Eq, Structural, Debug)]
pub struct TransitionRow {
    pub state: usize,
    pub byte: u8,
    pub next: usize,
    pub is_accept: bool,
}

/// The first row matching `(q, b)`, if any: tables are deterministic, so at
/// most one row ever matches.
pub open spec fn spec_step(t: Seq<TransitionRow>, q: usize, b: u8) -> Option<usize>
    decreases t.len(),
{
    if t.len() == 0 {
        None
    } else if t[0].state == q && t[0].byte == b {
        Some(t[0].next)
    } else {
        spec_step(t.drop_first(), q, b)
    }
}

/// Running a table over a byte string from state `q`: the reached state, or
/// `None` once a transition is undefined (an implicit rejecting transition).
pub open spec fn spec_run(t: Seq<TransitionRow>, q: usize, s: Seq<u8>) -> Option<usize>
    decreases s.len(),
{
    if s.len() == 0 {
        Some(q)
    } else {
        match spec_step(t, q, s[0]) {
            Some(n) => spec_run(t, n, s.drop_first()),
            None => None,
        }
    }
}

/// Whether some row marks `q` as accepting. Serialized tables carry
/// acceptance only on incoming rows, so the start state's acceptance is
/// visible only when a row leads back into it.
pub open spec fn spec_marked_accept(t: Seq<TransitionRow>, q: usize) -> bool {
    exists|i: int| 0 <= i < t.len() && (#[trigger] t[i]).next == q && t[i].is_accept
}

/// Acceptance of a byte string by a bare transition table.
pub open spec fn table_accepts(t: Seq<TransitionRow>, s: Seq<u8>) -> bool {
    match spec_run(t, 0, s) {
        Some(q) => spec_marked_accept(t, q),
        None => false,
    }
}

/// If no row matches `(q, b)`, the step is undefined.
pub proof fn lemma_step_none(t: Seq<TransitionRow>, q: usize, b: u8)
    requires
        forall|k: int| 0 <= k < t.len() ==> !((#[trigger] t[k]).state == q && t[k].byte == b),
    ensures
        spec_step(t, q, b) is None,
    decreases t.len(),
{
    if t.len() > 0 {
        assert(t.drop_first() =~= t.skip(1));
        assert(forall|k: int|
            0 <= k < t.drop_first().len() ==> t.drop_first()[k] == t[k + 1]);
        lemma_step_none(t.drop_first(), q, b);
    }
}

/// Appending a row changes a step only where no earlier row matched.
pub proof fn lemma_step_push(t: Seq<TransitionRow>, r: TransitionRow, q: usize, b: u8)
    ensures
        spec_step(t.push(r), q, b) == (match spec_step(t, q, b) {
            Some(n) => Some(n),
            None => if r.state == q && r.byte == b {
                Some(r.next)
            } else {
                None::<usize>
            },
        }),
    decreases t.len(),
{
    if t.len() == 0 {
        assert(t.push(r)[0] == r);
        assert(t.push(r).drop_first() =~= Seq::<TransitionRow>::empty());
        assert(spec_step(Seq::<TransitionRow>::empty(), q, b) is None);
        assert(spec_step(t, q, b) is None);
    } else {
        assert(t.push(r)[0] == t[0]);
        assert(t.push(r).drop_first() =~= t.drop_first().push(r));
        lemma_step_push(t.drop_first(), r, q, b);
    }
}

/// Running over a concatenation runs each part in turn.
pub proof fn lemma_run_app(t: Seq<TransitionRow>, q: usize, s1: Seq<u8>, s2: Seq<u8>)
    ensures
        spec_run(t, q, s1 + s2) == (match spec_run(t, q, s1) {
            Some(m) => spec_run(t, m, s2),
            None => None::<usize>,
        }),
    decreases s1.len(),
{
    if s1.len() == 0 {
        assert(s1 + s2 =~= s2);
    } else {
        assert((s1 + s2)[0] == s1[0]);
        assert((s1 + s2).drop_first() =~= s1.drop_first() + s2);
        match spec_step(t, q, s1[0]) {
            Some(n) => {
                lemma_run_app(t, n, s1.drop_first(), s2);
            },
            None => {},
        }
    }
}

/// Extending a run by one byte takes one more step.
pub proof fn lemma_run_snoc(t: Seq<TransitionRow>, q: usize, s: Seq<u8>, x: u8)
    ensures
        spec_run(t, q, s.push(x)) == (match spec_run(t, q, s) {
            Some(m) => spec_step(t, m, x),
            None => None::<usize>,
        }),
{
    assert(s.push(x) =~= s + seq![x]);
    lemma_run_app(t, q, s, seq![x]);
    match spec_run(t, q, s) {
        Some(m) => {
            assert(seq![x].drop_first() =~= Seq::<u8>::empty());
            assert(seq![x][0] == x);
            match spec_step(t, m, x) {
                Some(n) => {
                    assert(spec_run(t, n, Seq::<u8>::empty()) == Some(n));
                    assert(spec_run(t, m, seq![x]) == Some(n));
                },
                None => {
                    assert(spec_run(t, m, seq![x]) is None);
                },
            }
        },
        None => {},
    }
}

/// Executable table step: the first matching row.
pub fn table_step(rows: &Vec<TransitionRow>, q: usize, b: u8) -> (out: Option<usize>)
    ensures
        out == spec_step(rows@, q, b),
{
    let mut k: usize = 0;
    proof {
        assert(rows@.skip(0) =~= rows@);
    }
    while k < rows.len()
        invariant
            k <= rows@.len(),
            spec_step(rows@, q, b) == spec_step(rows@.skip(k as int), q, b),
        decreases rows@.len() - k,
    {
        proof {
            assert(rows@.skip(k as int)[0] == rows@[k as int]);
            assert(rows@.skip(k as int).drop_first() =~= rows@.skip(k as int + 1));
        }
        let row = rows[k];
        if row.state == q && row.byte == b {
            return Some(row.next);
        }
        k += 1;
    }
    proof {
        assert(rows@.skip(rows@.len() as int) =~= Seq::<TransitionRow>::empty());
    }
    None
}

/// Executable acceptance mark lookup.
pub fn table_marked_accept(rows: &Vec<TransitionRow>, q: usize) -> (out: bool)
    ensures
        out == spec_marked_accept(rows@, q),
{
    let mut k: usize = 0;
    while k < rows.len()
        invariant
            k <= rows@.len(),
            forall|m: int| 0 <= m < k ==> !((#[trigger] rows@[m]).next == q && rows@[m].is_accept),
        decreases rows@.len() - k,
    {
        let row = rows[k];
        if row.next == q && row.is_accept {
            return true;
        }
        k += 1;
    }
    false
}

/// Runs the table over `s[from..to]` starting at state `q`.
pub fn table_run_range(rows: &Vec<TransitionRow>, q: usize, s: &Vec<u8>, from: usize, to: usize)
    -> (out: Option<usize>)
    requires
        from <= to <= s@.len(),
    ensures
        out == spec_run(rows@, q, s@.subrange(from as int, to as int)),
{
    let mut cur: usize = q;
    let mut p: usize = from;
    while p < to
        invariant
            from <= p <= to <= s@.len(),
            spec_run(rows@, q, s@.subrange(from as int, p as int)) == Some(cur),
            spec_run(rows@, q, s@.subrange(from as int, to as int)) == spec_run(
                rows@,
                cur,
                s@.subrange(p as int, to as int),
            ),
        decreases to - p,
    {
        proof {
            assert(s@.subrange(p as int, to as int)[0] == s@[p as int]);
            assert(s@.subrange(p as int, to as int).drop_first() =~= s@.subrange(
                p as int + 1,
                to as int,
            ));
            assert(s@.subrange(from as int, p as int + 1) =~= s@.subrange(
                from as int,
                p as int,
            ).push(s@[p as int]));
            lemma_run_snoc(rows@, q, s@.subrange(from as int, p as int), s@[p as int]);
        }
        match table_step(rows, cur, s[p]) {
            Some(n) => {
                cur = n;
            },
            None => {
                return None;
            },
        }
        p += 1;
    }
    Some(cur)
}

/// Whether the table accepts the whole byte string.
pub fn table_accepts_bytes(rows: &Vec<TransitionRow>, s: &Vec<u8>) -> (out: bool)
    ensures
        out == table_accepts(rows@, s@),
{
    proof {
        assert(s@.subrange(0, s@.len() as int) =~= s@);
    }
    match table_run_range(rows, 0, s, 0, s.len()) {
        Some(q) => table_marked_accept(rows, q),
        None => false,
    }
}

/// More pairwise-distinct residuals of `r` exist than the state budget
/// admits: the only reason building its automaton can fail.
pub open spec fn deriv_budget_exceeded(r: Regex) -> bool {
    exists|ws: Seq<Seq<u8>>|
        #![trigger ws.len()]
        ws.len() == MAX_DFA_STATES + 1 && (forall|k1: int, k2: int|
            0 <= k1 < k2 < ws.len() ==> deriv_word(r, ws[k1]) != deriv_word(r, ws[k2]))
}

/// A built automaton: its rows, a per-state acceptance vector, and, as ghost
/// information, the residual regular expression each state stands for and a
/// byte string whose residual that state is.
pub struct Automaton {
    pub rows: Vec<TransitionRow>,
    pub accept: Vec<bool>,
    pub states: Ghost<Seq<Regex>>,
    pub words: Ghost<Seq<Seq<u8>>>,
}

/// A step agrees with the derivative of the state's residual expression.
pub open spec fn step_matches_deriv(
    rows: Seq<TransitionRow>,
    states: Seq<Regex>,
    q: usize,
    b: u8,
) -> bool {
    match spec_step(rows, q, b) {
        Some(j) => j < states.len() && states[j as int] == deriv(states[q as int], b),
        None => deriv(states[q as int], b) == Regex::Empty,
    }
}

/// Well-formedness of a built automaton. Every state is the residual of the
/// start expression by its witness word, so every state is reachable.
pub open spec fn aut_wf(a: Automaton) -> bool {
    &&& 1 <= a.states@.len()
    &&& a.words@.len() == a.states@.len()
    &&& (forall|q: int| 0 <= q < a.states@.len() ==> deriv_word(a.states@[0], a.words@[q])
        == a.states@[q])
    &&& a.words@[0] == Seq::<u8>::empty()
    &&& a.accept@.len() == a.states@.len()
    &&& (forall|q: int| 0 <= q < a.states@.len() ==> a.accept@[q] == nullable(a.states@[q]))
    &&& (forall|k: int| 0 <= k < a.rows@.len() ==> (#[trigger] a.rows@[k]).state < a.states@.len()
        && a.rows@[k].next < a.states@.len()
        && a.rows@[k].is_accept == nullable(a.states@[a.rows@[k].next as int]))
    &&& (forall|q: usize, b: u8| q < a.states@.len() ==> #[trigger] step_matches_deriv(
        a.rows@,
        a.states@,
        q,
        b,
    ))
}

/// The run outcome, read through the per-state acceptance vector.
pub open spec fn run_accepting(a: Automaton, q: usize, s: Seq<u8>) -> bool {
    match spec_run(a.rows@, q, s) {
        Some(p) => p < a.accept@.len() && a.accept@[p as int],
        None => false,
    }
}

/// Acceptance of a byte string by a built automaton.
pub open spec fn aut_accepts(a: Automaton, s: Seq<u8>) -> bool {
    run_accepting(a, 0, s)
}

/// From any state of a well-formed automaton, the run accepts exactly the
/// language of that state's residual expression.
pub proof fn lemma_aut_run(a: Automaton, q: usize, s: Seq<u8>)
    requires
        aut_wf(a),
        q < a.states@.len(),
    ensures
        in_lang(a.states@[q as int], s) <==> run_accepting(a, q, s),
    decreases s.len(),
{
    if s.len() == 0 {
        lemma_nullable_iff(a.states@[q as int]);
        assert(s =~= Seq::<u8>::empty());
    } else {
        let b0 = s[0];
        let rest = s.drop_first();
        assert(s =~= seq![b0] + rest);
        lemma_deriv(a.states@[q as int], b0, rest);
        assert(step_matches_deriv(a.rows@, a.states@, q, b0));
        match spec_step(a.rows@, q, b0) {
            Some(j) => {
                lemma_aut_run(a, j, rest);
            },
            None => {},
        }
    }
}

/// A well-formed automaton accepts exactly the language of its start state.
pub proof fn lemma_aut_language(a: Automaton, s: Seq<u8>)
    requires
        aut_wf(a),
    ensures
        aut_accepts(a, s) <==> in_lang(a.states@[0], s),
{
    lemma_aut_run(a, 0, s);
}

/// A step-derivative agreement survives appending states.
proof fn lemma_smd_more_states(
    rows: Seq<TransitionRow>,
    states0: Seq<Regex>,
    states1: Seq<Regex>,
    q: usize,
    b: u8,
)
    requires
        step_matches_deriv(rows, states0, q, b),
        q < states0.len(),
        states0.len() <= states1.len(),
        forall|k: int| 0 <= k < states0.len() ==> states1[k] == states0[k],
    ensures
        step_matches_deriv(rows, states1, q, b),
{
}

/// A step-derivative agreement survives appending a row with another key.
proof fn lemma_smd_push_row(
    rows: Seq<TransitionRow>,
    states: Seq<Regex>,
    row: TransitionRow,
    q: usize,
    b: u8,
)
    requires
        step_matches_deriv(rows, states, q, b),
        q < states.len(),
        !(row.state == q && row.byte == b),
    ensures
        step_matches_deriv(rows.push(row), states, q, b),
{
    lemma_step_push(rows, row, q, b);
}

fn find_state(states: &Vec<Regex>, d: &Regex) -> (out: Option<usize>)
    ensures
        match out {
            Some(j) => j < states@.len() && states@[j as int] == *d,
            None => forall|k: int| 0 <= k < states@.len() ==> states@[k] != *d,
        },
{
    let mut k: usize = 0;
    while k < states.len()
        invariant
            k <= states@.len(),
            forall|m: int| 0 <= m < k ==> states@[m] != *d,
        decreases states@.len() - k,
    {
        if regex_eq(&states[k], d) {
            return Some(k);
        }
        k += 1;
    }
    None
}

/// Builds the derivative automaton of a regular expression: state 0 is the
/// expression itself, every byte leads from a state to its derivative, and a
/// state is accepting exactly when its residual expression is nullable.
/// Fails only when the number of distinct residuals exceeds the state budget.
pub fn build_automaton(ast: &Regex) -> (out: Result<Automaton, RegexError>)
    ensures
        match out {
            Ok(a) => aut_wf(a) && a.states@[0] == *ast && a.states@.len() <= MAX_DFA_STATES,
            Err(e) => e == RegexError::InvalidPattern && deriv_budget_exceeded(*ast),
        },
{
    let mut states: Vec<Regex> = Vec::new();
    states.push(regex_clone(ast));
    let mut accept: Vec<bool> = Vec::new();
    accept.push(nullable_x(ast));
    let mut rows: Vec<TransitionRow> = Vec::new();
    let ghost mut wit: Seq<Seq<u8>> = seq![Seq::<u8>::empty()];
    proof {
        assert(deriv_word(*ast, Seq::<u8>::empty()) == *ast);
    }
    let mut i: usize = 0;
    while i < states.len()
        invariant
            1 <= states@.len() <= MAX_DFA_STATES,
            i <= states@.len(),
            accept@.len() == states@.len(),
            states@[0] == *ast,
            forall|k: int| 0 <= k < states@.len() ==> accept@[k] == nullable(states@[k]),
            forall|k: int| 0 <= k < rows@.len() ==> (#[trigger] rows@[k]).state < i
                && rows@[k].next < states@.len()
                && rows@[k].is_accept == nullable(states@[rows@[k].next as int]),
            forall|q: usize, b: u8| q < i ==> #[trigger] step_matches_deriv(
                rows@,
                states@,
                q,
                b,
            ),
            wit.len() == states@.len(),
            wit[0] == Seq::<u8>::empty(),
            forall|k: int| 0 <= k < states@.len() ==> deriv_word(*ast, wit[k]) == states@[k],
            forall|k1: int, k2: int| 0 <= k1 < k2 < states@.len() ==> states@[k1]
                != states@[k2],
        decreases MAX_DFA_STATES - i,
    {
        let cur = regex_clone(&states[i]);
        let mut b: usize = 0;
        while b < 256
            invariant
                1 <= states@.len() <= MAX_DFA_STATES,
                i < states@.len(),
                accept@.len() == states@.len(),
                states@[0] == *ast,
                cur == states@[i as int],
                b <= 256,
                forall|k: int| 0 <= k < states@.len() ==> accept@[k] == nullable(states@[k]),
                forall|k: int| 0 <= k < rows@.len() ==> ((#[trigger] rows@[k]).state < i || (
                    rows@[k].state == i && rows@[k].byte < b))
                    && rows@[k].next < states@.len()
                    && rows@[k].is_accept == nullable(states@[rows@[k].next as int]),
                forall|q: usize, bb: u8| q < i ==> #[trigger] step_matches_deriv(
                    rows@,
                    states@,
                    q,
                    bb,
                ),
                forall|bb: u8| bb < b ==> #[trigger] step_matches_deriv(
                    rows@,
                    states@,
                    i,
                    bb,
                ),
                wit.len() == states@.len(),
                wit[0] == Seq::<u8>::empty(),
                forall|k: int| 0 <= k < states@.len() ==> deriv_word(*ast, wit[k])
                    == states@[k],
                forall|k1: int, k2: int| 0 <= k1 < k2 < states@.len() ==> states@[k1]
                    != states@[k2],
            decreases 256 - b,
        {
            let bb = b as u8;
            let d = deriv_x(&cur, bb);
            let ghost rows0 = rows@;
            let ghost states0 = states@;
            if matches!(d, Regex::Empty) {
                proof {
                    lemma_step_none(rows@, i, bb);
                    assert(step_matches_deriv(rows@, states@, i, bb));
                }
            } else {
                let j: usize;
                match find_state(&states, &d) {
                    Some(jj) => {
                        j = jj;
                    },
                    None => {
                        proof {
                            let wi = wit[i as int];
                            lemma_deriv_word_snoc(*ast, wi, bb);
                            assert(deriv_word(*ast, wi.push(bb)) == d);
                        }
                        if states.len() >= MAX_DFA_STATES {
                            proof {
                                let ws = wit.push(wit[i as int].push(bb));
                                assert(ws.len() == MAX_DFA_STATES + 1);
                                assert forall|k1: int, k2: int|
                                    0 <= k1 < k2 < ws.len() implies deriv_word(*ast, ws[k1])
                                    != deriv_word(*ast, ws[k2]) by {
                                    if k2 < wit.len() {
                                        assert(ws[k1] == wit[k1] && ws[k2] == wit[k2]);
                                        assert(deriv_word(*ast, wit[k1]) == states@[k1]);
                                        assert(deriv_word(*ast, wit[k2]) == states@[k2]);
                                        assert(states@[k1] != states@[k2]);
                                    } else {
                                        assert(ws[k1] == wit[k1]);
                                        assert(deriv_word(*ast, wit[k1]) == states@[k1]);
                                        assert(ws[k2] == wit[i as int].push(bb));
                                        assert(deriv_word(*ast, ws[k2]) == d);
                                        assert(states@[k1] != d);
                                    }
                                }
                                assert(deriv_budget_exceeded(*ast));
                            }
                            return Err(RegexError::InvalidPattern);
                        }
                        let nl = nullable_x(&d);
                        let ghost gd = d;
                        proof {
                            wit = wit.push(wit[i as int].push(bb));
                        }
                        states.push(d);
                        accept.push(nl);
                        j = states.len() - 1;
                        proof {
                            assert(states@[j as int] == gd);
                            assert(wit[j as int] == wit[i as int].push(bb));
                            assert(deriv_word(*ast, wit[j as int]) == gd);
                        }
                    },
                }
                let acc_j = accept[j];
                let ghost states1 = states@;
                let row = TransitionRow { state: i, byte: bb, next: j, is_accept: acc_j };
                rows.push(row);
                proof {
                    lemma_step_none(rows0, i, bb);
                    lemma_step_push(rows0, row, i, bb);
                    assert(spec_step(rows@, i, bb) == Some(j));
                    assert(states@[j as int] == deriv(states@[i as int], bb));
                    assert(step_matches_deriv(rows@, states@, i, bb));
                    assert forall|q: usize, bb2: u8| q < i implies #[trigger] step_matches_deriv(
                        rows@,
                        states@,
                        q,
                        bb2,
                    ) by {
                        assert(step_matches_deriv(rows0, states0, q, bb2));
                        lemma_smd_more_states(rows0, states0, states1, q, bb2);
                        lemma_smd_push_row(rows0, states1, row, q, bb2);
                    }
                    assert forall|bb2: u8| bb2 < bb implies #[trigger] step_matches_deriv(
                        rows@,
                        states@,
                        i,
                        bb2,
                    ) by {
                        assert(step_matches_deriv(rows0, states0, i, bb2));
                        lemma_smd_more_states(rows0, states0, states1, i, bb2);
                        lemma_smd_push_row(rows0, states1, row, i, bb2);
                    }
                }
            }
            b += 1;
        }
        i += 1;
    }
    let ghost gstates = states@;
    let ghost gwords = wit;
    Ok(Automaton { rows, accept, states: Ghost(gstates), words: Ghost(gwords) })
}

} // verus!
