//! The decomposed-regex compiler: parses each fragment, builds the
//! derivative automaton of the whole concatenation and one automaton per
//! public fragment, rejects configurations whose public fragments could
//! claim the same input position, and hands back the transition tables.

use vstd::prelude::*;

use crate::ast::{deriv, deriv_word, in_lang, lemma_deriv_word_accept, lemma_deriv_word_snoc,
    nullable, nullable_x, regex_clone, Regex};
use crate::automaton::{aut_accepts, aut_wf, build_automaton, deriv_budget_exceeded,
    lemma_aut_language, lemma_run_snoc, spec_marked_accept, spec_run, spec_step,
    step_matches_deriv, table_accepts, Automaton, TransitionRow};
use crate::engine::RegexDefs;
use crate::errors::RegexError;
use crate::parser::{parse_pattern, spec_parse};

verus! {

/// One ordered piece of a decomposed pattern.
pub struct RegexFragment {
    pub pattern: Vec<u8>,
    pub is_public: bool,
}

/// An ordered list of fragments; their concatenation is the full pattern.
pub struct DecomposedRegexConfig {
    pub parts: Vec<RegexFragment>,
}

/// Every fragment pattern is inside the supported grammar.
pub open spec fn all_parse(parts: Seq<RegexFragment>) -> bool {
    forall|j: int| 0 <= j < parts.len() ==> spec_parse((#[trigger] parts[j]).pattern@) is Some
}

/// The expression a fragment denotes.
pub open spec fn part_ast(p: RegexFragment) -> Regex {
    match spec_parse(p.pattern@) {
        Some(r) => r,
        None => Regex::Empty,
    }
}

/// The concatenation of all fragment expressions, in order.
pub open spec fn concat_asts(parts: Seq<RegexFragment>) -> Regex
    decreases parts.len(),
{
    if parts.len() == 0 {
        Regex::Eps
    } else if parts.len() == 1 {
        part_ast(parts[0])
    } else {
        Regex::Concat(
            Box::new(part_ast(parts[0])),
            Box::new(concat_asts(parts.drop_first())),
        )
    }
}

/// The expressions of the public fragments, in fragment order.
pub open spec fn pub_asts(parts: Seq<RegexFragment>) -> Seq<Regex>
    decreases parts.len(),
{
    if parts.len() == 0 {
        Seq::<Regex>::empty()
    } else {
        pub_asts(parts.drop_last()) + (if parts.last().is_public {
            seq![part_ast(parts.last())]
        } else {
            Seq::<Regex>::empty()
        })
    }
}

/// Whether only empty-matching fragments follow the last public fragment.
pub open spec fn trailing_nullable(parts: Seq<RegexFragment>) -> bool
    decreases parts.len(),
{
    if parts.len() == 0 {
        true
    } else if parts.last().is_public {
        true
    } else {
        nullable(part_ast(parts.last())) && trailing_nullable(parts.drop_last())
    }
}

/// For each public fragment, whether every private fragment separating it
/// from the previous public fragment accepts the empty string; only then can
/// the two public fragments' matches touch.
pub open spec fn pub_gaps(parts: Seq<RegexFragment>) -> Seq<bool>
    decreases parts.len(),
{
    if parts.len() == 0 {
        Seq::<bool>::empty()
    } else {
        pub_gaps(parts.drop_last()) + (if parts.last().is_public {
            seq![trailing_nullable(parts.drop_last())]
        } else {
            Seq::<bool>::empty()
        })
    }
}

/// Some accepted string of `r` stays accepted with `b` appended.
pub open spec fn can_extend(r: Regex, b: u8) -> bool {
    exists|u: Seq<u8>| #[trigger] in_lang(r, u) && in_lang(r, u.push(b))
}

/// Some accepted string of `r` begins with `b`.
pub open spec fn can_begin(r: Regex, b: u8) -> bool {
    exists|v: Seq<u8>| #[trigger] in_lang(r, seq![b] + v)
}

/// `r` accepts anything at all.
pub open spec fn lang_nonempty(r: Regex) -> bool {
    exists|w: Seq<u8>| #[trigger] in_lang(r, w)
}

/// A single byte could move from the end of one public fragment's match to
/// the start of the next one's: the boundary between them is ambiguous.
pub open spec fn byte_shift_ambiguous(ri: Regex, rj: Regex) -> bool {
    exists|b: u8| #[trigger] can_extend(ri, b) && can_begin(rj, b) && lang_nonempty(rj)
}

/// No two successive public fragments that can touch (only empty-matching
/// private fragments between them) admit a byte-shift ambiguity.
pub open spec fn config_overlap_free(parts: Seq<RegexFragment>) -> bool {
    forall|m: int| 0 <= m && m + 1 < pub_asts(parts).len() && pub_gaps(parts)[m + 1]
        ==> !byte_shift_ambiguous(#[trigger] pub_asts(parts)[m], pub_asts(parts)[m + 1])
}

/// There is one gap flag per public expression.
proof fn lemma_pub_lens(parts: Seq<RegexFragment>)
    ensures
        pub_gaps(parts).len() == pub_asts(parts).len(),
    decreases parts.len(),
{
    if parts.len() > 0 {
        lemma_pub_lens(parts.drop_last());
    }
}

/// The public expressions of a prefix of the fragment list are a prefix of
/// the whole list's public expressions, and likewise for the gap flags.
proof fn lemma_pub_prefix(parts: Seq<RegexFragment>, j: int)
    requires
        0 <= j <= parts.len(),
    ensures
        pub_asts(parts.take(j)).len() <= pub_asts(parts).len(),
        pub_gaps(parts.take(j)).len() == pub_asts(parts.take(j)).len(),
        forall|m: int| 0 <= m < pub_asts(parts.take(j)).len() ==> pub_asts(parts)[m]
            == pub_asts(parts.take(j))[m] && pub_gaps(parts)[m] == pub_gaps(
            parts.take(j),
        )[m],
    decreases parts.len() - j,
{
    lemma_pub_lens(parts.take(j));
    if j == parts.len() {
        assert(parts.take(j) =~= parts);
    } else {
        lemma_pub_prefix(parts, j + 1);
        assert(parts.take(j + 1).drop_last() =~= parts.take(j));
        assert(parts.take(j + 1).last() == parts[j]);
    }
}

/// Concatenating one accepted string per fragment, in fragment order,
/// yields a string of the full concatenated language.
pub proof fn lemma_concat_fragments(parts: Seq<RegexFragment>, ws: Seq<Seq<u8>>)
    requires
        parts.len() >= 1,
        ws.len() == parts.len(),
        forall|i: int| 0 <= i < parts.len() ==> in_lang(
            part_ast(#[trigger] parts[i]),
            ws[i],
        ),
    ensures
        in_lang(concat_asts(parts), ws.flatten()),
    decreases parts.len(),
{
    if parts.len() == 1 {
        assert(ws.flatten() == ws[0] + ws.drop_first().flatten());
        assert(ws.drop_first().len() == 0);
        assert(ws.drop_first().flatten() =~= Seq::<u8>::empty());
        assert(ws.flatten() =~= ws[0]);
    } else {
        let rest_parts = parts.drop_first();
        let rest_ws = ws.drop_first();
        assert(forall|i: int| 0 <= i < rest_parts.len() ==> rest_parts[i] == parts[i + 1]
            && rest_ws[i] == ws[i + 1]);
        lemma_concat_fragments(rest_parts, rest_ws);
        let w = ws.flatten();
        let n0 = ws[0].len() as int;
        assert(w == ws[0] + rest_ws.flatten());
        assert(w.take(n0) =~= ws[0]);
        assert(w.skip(n0) =~= rest_ws.flatten());
        assert(concat_asts(parts) == Regex::Concat(
            Box::new(part_ast(parts[0])),
            Box::new(concat_asts(rest_parts)),
        ));
        assert(0 <= n0 <= w.len() && in_lang(part_ast(parts[0]), w.take(n0)) && in_lang(
            concat_asts(rest_parts),
            w.skip(n0),
        ));
    }
}

/// A defined step is witnessed by a row.
proof fn lemma_step_exists(t: Seq<TransitionRow>, q: usize, b: u8)
    ensures
        match spec_step(t, q, b) {
            Some(n) => exists|k: int| 0 <= k < t.len() && (#[trigger] t[k]).state == q
                && t[k].byte == b && t[k].next == n,
            None => true,
        },
    decreases t.len(),
{
    if t.len() > 0 {
        if t[0].state == q && t[0].byte == b {
            assert(t[0].state == q && t[0].byte == b && t[0].next == spec_step(t, q, b)->0);
        } else {
            lemma_step_exists(t.drop_first(), q, b);
            match spec_step(t.drop_first(), q, b) {
                Some(n) => {
                    let k = choose|k: int| 0 <= k < t.drop_first().len() && (#[trigger] t.drop_first()[k]).state == q
                        && t.drop_first()[k].byte == b && t.drop_first()[k].next == n;
                    assert(t[k + 1] == t.drop_first()[k]);
                },
                None => {},
            }
        }
    }
}

/// For nonempty strings, acceptance read off the rows (via incoming accept
/// marks) agrees with acceptance read off the per-state accept vector.
pub proof fn lemma_table_vs_aut(a: Automaton, s: Seq<u8>)
    requires
        aut_wf(a),
        s.len() > 0,
    ensures
        table_accepts(a.rows@, s) <==> aut_accepts(a, s),
{
    match spec_run(a.rows@, 0, s) {
        None => {},
        Some(q) => {
            assert(s =~= s.drop_last().push(s.last()));
            lemma_run_snoc(a.rows@, 0, s.drop_last(), s.last());
            match spec_run(a.rows@, 0, s.drop_last()) {
                None => {},
                Some(m) => {
                    assert(spec_step(a.rows@, m, s.last()) == Some(q));
                    lemma_step_exists(a.rows@, m, s.last());
                    let k = choose|k: int| 0 <= k < a.rows@.len() && (#[trigger] a.rows@[k]).state
                        == m && a.rows@[k].byte == s.last() && a.rows@[k].next == q;
                    // the witnessing row carries q's acceptance mark
                    if a.accept@[q as int] {
                        assert(a.rows@[k].next == q && a.rows@[k].is_accept);
                    }
                    if spec_marked_accept(a.rows@, q) {
                        let k2 = choose|k2: int| 0 <= k2 < a.rows@.len() && (#[trigger] a.rows@[k2]).next
                            == q && a.rows@[k2].is_accept;
                        assert(a.accept@[q as int]);
                    }
                },
            }
        },
    }
}

/// Acceptance marks are sound for the empty string as well.
pub proof fn lemma_table_vs_aut_empty(a: Automaton)
    requires
        aut_wf(a),
    ensures
        table_accepts(a.rows@, Seq::<u8>::empty()) ==> aut_accepts(a, Seq::<u8>::empty()),
{
    if table_accepts(a.rows@, Seq::<u8>::empty()) {
        let k2 = choose|k2: int| 0 <= k2 < a.rows@.len() && (#[trigger] a.rows@[k2]).next == 0
            && a.rows@[k2].is_accept;
        assert(a.accept@[0]);
    }
}

/// Whether any accepting state is marked in the vector.
fn any_accept(a: &Automaton) -> (out: bool)
    ensures
        out == exists|q: int| 0 <= q < a.accept@.len() && a.accept@[q],
{
    let mut q: usize = 0;
    while q < a.accept.len()
        invariant
            q <= a.accept@.len(),
            forall|m: int| 0 <= m < q ==> !a.accept@[m],
        decreases a.accept@.len() - q,
    {
        if a.accept[q] {
            return true;
        }
        q += 1;
    }
    false
}

/// An accepting state with an accepting successor on byte `b`.
spec fn has_accepting_extension(a: Automaton, b: u8) -> bool {
    exists|q: usize| q < a.accept@.len() && a.accept@[q as int] && (match spec_step(
        a.rows@,
        q,
        b,
    ) {
        Some(p) => p < a.accept@.len() && a.accept@[p as int],
        None => false,
    })
}

fn accepting_extension(a: &Automaton, b: u8) -> (out: bool)
    ensures
        out == has_accepting_extension(*a, b),
{
    let mut q: usize = 0;
    while q < a.accept.len()
        invariant
            q <= a.accept@.len(),
            forall|m: usize| m < q ==> !(a.accept@[m as int] && (match spec_step(
                a.rows@,
                m,
                b,
            ) {
                Some(p) => p < a.accept@.len() && a.accept@[p as int],
                None => false,
            })),
        decreases a.accept@.len() - q,
    {
        if a.accept[q] {
            match crate::automaton::table_step(&a.rows, q, b) {
                Some(p) => {
                    if p < a.accept.len() && a.accept[p] {
                        return true;
                    }
                },
                None => {},
            }
        }
        q += 1;
    }
    false
}

/// Conservative boundary check for two successive public fragments: flags
/// any byte that can extend an accepted string of the first automaton while
/// also starting some run of the second, the second accepting something.
/// A `false` answer rules single-byte shift ambiguity out; a `true` answer
/// always comes with a byte that genuinely extends the first fragment and a
/// nonempty second language, both witnessed by state residuals.
fn pair_may_overlap(ai: &Automaton, aj: &Automaton) -> (out: bool)
    requires
        aut_wf(*ai),
        aut_wf(*aj),
    ensures
        !out ==> !byte_shift_ambiguous(ai.states@[0], aj.states@[0]),
        out ==> (exists|b: u8| #[trigger] can_extend(ai.states@[0], b)) && lang_nonempty(
            aj.states@[0],
        ),
{
    let cond3 = any_accept(aj);
    let mut b: usize = 0;
    while b < 256
        invariant
            b <= 256,
            aut_wf(*ai),
            aut_wf(*aj),
            cond3 == exists|q: int| 0 <= q < aj.accept@.len() && aj.accept@[q],
            forall|bb: u8| (bb as usize) < b ==> !(has_accepting_extension(*ai, bb)
                && spec_step(aj.rows@, 0, bb) is Some && cond3),
        decreases 256 - b,
    {
        let bb = b as u8;
        if accepting_extension(ai, bb) {
            match crate::automaton::table_step(&aj.rows, 0, bb) {
                Some(_n) => {
                    if cond3 {
                        proof {
                            // an accepting state's witness word, extended by
                            // the byte, witnesses the extension
                            let q = choose|q: usize| q < ai.accept@.len() && ai.accept@[q as int]
                                && (match spec_step(ai.rows@, q, bb) {
                                Some(pn) => pn < ai.accept@.len() && ai.accept@[pn as int],
                                None => false,
                            });
                            let u = ai.words@[q as int];
                            assert(deriv_word(ai.states@[0], u) == ai.states@[q as int]);
                            lemma_deriv_word_accept(ai.states@[0], u);
                            assert(step_matches_deriv(ai.rows@, ai.states@, q, bb));
                            match spec_step(ai.rows@, q, bb) {
                                Some(pn) => {
                                    assert(ai.states@[pn as int] == deriv(
                                        ai.states@[q as int],
                                        bb,
                                    ));
                                    assert(nullable(ai.states@[pn as int]));
                                },
                                None => {
                                    assert(false);
                                },
                            }
                            lemma_deriv_word_snoc(ai.states@[0], u, bb);
                            lemma_deriv_word_accept(ai.states@[0], u.push(bb));
                            assert(in_lang(ai.states@[0], u) && in_lang(
                                ai.states@[0],
                                u.push(bb),
                            ));
                            assert(can_extend(ai.states@[0], bb));
                            // the second automaton accepts some string
                            let q3 = choose|q3: int| 0 <= q3 < aj.accept@.len()
                                && aj.accept@[q3];
                            let w = aj.words@[q3];
                            lemma_deriv_word_accept(aj.states@[0], w);
                            assert(in_lang(aj.states@[0], w));
                            assert(lang_nonempty(aj.states@[0]));
                        }
                        return true;
                    }
                },
                None => {},
            }
        }
        b += 1;
    }
    proof {
        if byte_shift_ambiguous(ai.states@[0], aj.states@[0]) {
            let b0 = choose|b0: u8| #[trigger] can_extend(ai.states@[0], b0) && can_begin(
                aj.states@[0],
                b0,
            ) && lang_nonempty(aj.states@[0]);
            // extension witness in the first automaton
            let u = choose|u: Seq<u8>| #[trigger] in_lang(ai.states@[0], u) && in_lang(
                ai.states@[0],
                u.push(b0),
            );
            crate::automaton::lemma_aut_run(*ai, 0, u);
            crate::automaton::lemma_aut_run(*ai, 0, u.push(b0));
            lemma_run_snoc(ai.rows@, 0, u, b0);
            let q1 = spec_run(ai.rows@, 0, u)->0;
            assert(q1 < ai.accept@.len() && ai.accept@[q1 as int] && (match spec_step(
                ai.rows@,
                q1,
                b0,
            ) {
                Some(p) => p < ai.accept@.len() && ai.accept@[p as int],
                None => false,
            }));
            assert(has_accepting_extension(*ai, b0));
            // a run of the second automaton starting with b0
            let v = choose|v: Seq<u8>| #[trigger] in_lang(aj.states@[0], seq![b0] + v);
            crate::automaton::lemma_aut_run(*aj, 0, seq![b0] + v);
            assert((seq![b0] + v)[0] == b0);
            assert((seq![b0] + v).len() > 0);
            assert(spec_step(aj.rows@, 0, b0) is Some);
            // the second automaton accepts something
            let w = choose|w: Seq<u8>| #[trigger] in_lang(aj.states@[0], w);
            crate::automaton::lemma_aut_run(*aj, 0, w);
            let q3 = spec_run(aj.rows@, 0, w)->0;
            assert(0 <= q3 as int && (q3 as int) < aj.accept@.len() && aj.accept@[q3 as int]);
            assert(false);
        }
    }
    false
}

/// Compiles an ordered fragment list: the full concatenation's transition
/// table plus one table per public fragment, in order. Fails with
/// `InvalidConfig` exactly on an empty list, and with `InvalidPattern` only
/// when a fragment does not parse or an automaton's distinct residuals
/// exceed the state budget. Fails with `OverlapViolation` when two
/// successive public fragments that can touch (only empty-matching private
/// fragments between them) admit a single-byte boundary-shift ambiguity:
/// such a byte could belong to either fragment's revealed substring. The
/// check does not cover shifts of two or more bytes at once, so an
/// ambiguity visible only through a longer shift passes. On success the
/// tables accept exactly the fragment languages (for the empty string the
/// table form can only under-approve).
pub fn compile(config: &DecomposedRegexConfig) -> (out: Result<RegexDefs, RegexError>)
    ensures
        (config.parts@.len() == 0) <==> (out == Err::<RegexDefs, RegexError>(
            RegexError::InvalidConfig,
        )),
        (config.parts@.len() > 0 && !all_parse(config.parts@)) ==> out == Err::<
            RegexDefs,
            RegexError,
        >(RegexError::InvalidPattern),
        out == Err::<RegexDefs, RegexError>(RegexError::InvalidPattern) ==> !all_parse(
            config.parts@,
        ) || deriv_budget_exceeded(concat_asts(config.parts@)) || (exists|m: int|
            0 <= m < pub_asts(config.parts@).len() && deriv_budget_exceeded(
                #[trigger] pub_asts(config.parts@)[m],
            )),
        out == Err::<RegexDefs, RegexError>(RegexError::OverlapViolation) ==> all_parse(
            config.parts@,
        ) && config.parts@.len() > 0 && (exists|m: int, b: u8|
            0 <= m && m + 1 < pub_asts(config.parts@).len() && pub_gaps(config.parts@)[m + 1]
                && #[trigger] can_extend(pub_asts(config.parts@)[m], b) && lang_nonempty(
                pub_asts(config.parts@)[m + 1],
            )),
        match out {
            Ok(defs) => {
                &&& all_parse(config.parts@)
                &&& config_overlap_free(config.parts@)
                &&& defs.substrs@.len() == pub_asts(config.parts@).len()
                &&& (forall|s: Seq<u8>| s.len() > 0 ==> (table_accepts(defs.allstr@, s)
                    <==> in_lang(concat_asts(config.parts@), s)))
                &&& (table_accepts(defs.allstr@, Seq::<u8>::empty()) ==> in_lang(
                    concat_asts(config.parts@),
                    Seq::<u8>::empty(),
                ))
                &&& (forall|m: int, s: Seq<u8>| 0 <= m < defs.substrs@.len() && s.len() > 0 ==> (
                table_accepts(defs.substrs@[m]@, s) <==> in_lang(
                    pub_asts(config.parts@)[m],
                    s,
                )))
                &&& (forall|m: int| 0 <= m < defs.substrs@.len() ==> (table_accepts(
                    defs.substrs@[m]@,
                    Seq::<u8>::empty(),
                ) ==> in_lang(pub_asts(config.parts@)[m], Seq::<u8>::empty())))
                &&& (forall|k: int| 0 <= k < defs.allstr@.len() ==> (#[trigger] defs.allstr@[k]).state
                    < 1000000000 && defs.allstr@[k].next < 1000000000)
                &&& (forall|m: int, k: int| 0 <= m < defs.substrs@.len() && 0 <= k
                    < defs.substrs@[m]@.len() ==> (#[trigger] defs.substrs@[m]@[k]).state
                    < 1000000000 && defs.substrs@[m]@[k].next < 1000000000)
            },
            Err(e) => e == RegexError::InvalidConfig || e == RegexError::InvalidPattern || e
                == RegexError::OverlapViolation,
        },
{
    let n = config.parts.len();
    if n == 0 {
        return Err(RegexError::InvalidConfig);
    }
    // parse every fragment
    let mut asts: Vec<Regex> = Vec::new();
    let mut j: usize = 0;
    while j < n
        invariant
            j <= n,
            n == config.parts@.len(),
            asts@.len() == j,
            forall|k: int| 0 <= k < j ==> spec_parse((#[trigger] config.parts@[k]).pattern@)
                == Some(asts@[k]),
        decreases n - j,
    {
        match parse_pattern(&config.parts[j].pattern) {
            Ok(r) => {
                asts.push(r);
            },
            Err(e) => {
                proof {
                    assert(spec_parse(config.parts@[j as int].pattern@) is None);
                    assert(!all_parse(config.parts@));
                }
                return Err(RegexError::InvalidPattern);
            },
        }
        j += 1;
    }
    proof {
        assert(all_parse(config.parts@));
        assert(forall|k: int| 0 <= k < n ==> part_ast(#[trigger] config.parts@[k]) == asts@[k]);
    }
    // the full concatenation
    let mut full = regex_clone(&asts[n - 1]);
    proof {
        assert(config.parts@.skip(n - 1).len() == 1);
        assert(config.parts@.skip(n - 1)[0] == config.parts@[n - 1]);
    }
    let mut k: usize = n - 1;
    while k > 0
        invariant
            k < n,
            n == config.parts@.len(),
            asts@.len() == n,
            forall|m: int| 0 <= m < n ==> part_ast(#[trigger] config.parts@[m]) == asts@[m],
            full == concat_asts(config.parts@.skip(k as int)),
        decreases k,
    {
        k -= 1;
        let piece = regex_clone(&asts[k]);
        full = Regex::Concat(Box::new(piece), Box::new(full));
        proof {
            assert(config.parts@.skip(k as int).len() >= 2);
            assert(config.parts@.skip(k as int)[0] == config.parts@[k as int]);
            assert(config.parts@.skip(k as int).drop_first() =~= config.parts@.skip(k as int + 1));
        }
    }
    proof {
        assert(config.parts@.skip(0) =~= config.parts@);
    }
    let full_aut = match build_automaton(&full) {
        Ok(a) => a,
        Err(e) => {
            proof {
                assert(deriv_budget_exceeded(concat_asts(config.parts@)));
            }
            return Err(RegexError::InvalidPattern);
        },
    };
    // one automaton per public fragment
    let mut pub_auts: Vec<Automaton> = Vec::new();
    let mut pub_flags: Vec<bool> = Vec::new();
    let mut gap_null: bool = true;
    let mut j2: usize = 0;
    while j2 < n
        invariant
            j2 <= n,
            n == config.parts@.len(),
            all_parse(config.parts@),
            asts@.len() == n,
            forall|m: int| 0 <= m < n ==> part_ast(#[trigger] config.parts@[m]) == asts@[m],
            pub_auts@.len() == pub_asts(config.parts@.take(j2 as int)).len(),
            forall|m: int| 0 <= m < pub_auts@.len() ==> aut_wf(#[trigger] pub_auts@[m])
                && pub_auts@[m].states@.len() <= crate::automaton::MAX_DFA_STATES
                && pub_auts@[m].states@[0] == pub_asts(config.parts@.take(j2 as int))[m],
            gap_null == trailing_nullable(config.parts@.take(j2 as int)),
            pub_flags@.len() == pub_auts@.len(),
            pub_gaps(config.parts@.take(j2 as int)).len() == pub_auts@.len(),
            forall|m: int| 0 <= m < pub_flags@.len() ==> pub_flags@[m] == pub_gaps(
                config.parts@.take(j2 as int),
            )[m],
        decreases n - j2,
    {
        let ghost old_pubs = pub_asts(config.parts@.take(j2 as int));
        proof {
            assert(config.parts@.take(j2 as int + 1).drop_last() =~= config.parts@.take(
                j2 as int,
            ));
            assert(config.parts@.take(j2 as int + 1).last() == config.parts@[j2 as int]);
        }
        if config.parts[j2].is_public {
            match build_automaton(&asts[j2]) {
                Ok(a) => {
                    pub_auts.push(a);
                    pub_flags.push(gap_null);
                    gap_null = true;
                },
                Err(e) => {
                    proof {
                        let pre = pub_asts(config.parts@.take(j2 as int + 1));
                        let m0 = pre.len() - 1;
                        assert(pre[m0] == part_ast(config.parts@[j2 as int]));
                        lemma_pub_prefix(config.parts@, j2 as int + 1);
                        assert(pub_asts(config.parts@)[m0] == part_ast(
                            config.parts@[j2 as int],
                        ));
                        assert(deriv_budget_exceeded(pub_asts(config.parts@)[m0]));
                    }
                    return Err(RegexError::InvalidPattern);
                },
            }
        } else {
            let nn = nullable_x(&asts[j2]);
            gap_null = gap_null && nn;
            proof {
                assert(pub_asts(config.parts@.take(j2 as int + 1)) =~= old_pubs);
                assert(pub_gaps(config.parts@.take(j2 as int + 1)) =~= pub_gaps(
                    config.parts@.take(j2 as int),
                ));
            }
        }
        j2 += 1;
    }
    proof {
        assert(config.parts@.take(n as int) =~= config.parts@);
    }
    // boundary ambiguity between successive public fragments
    if pub_auts.len() > 0 {
        let mut m: usize = 0;
        while m < pub_auts.len() - 1
            invariant
                n == config.parts@.len(),
                n >= 1,
                all_parse(config.parts@),
                pub_auts@.len() >= 1,
                m <= pub_auts@.len(),
                pub_auts@.len() == pub_asts(config.parts@).len(),
                pub_flags@.len() == pub_auts@.len(),
                pub_gaps(config.parts@).len() == pub_auts@.len(),
                forall|m2: int| 0 <= m2 < pub_flags@.len() ==> pub_flags@[m2] == pub_gaps(
                    config.parts@,
                )[m2],
                forall|m2: int| 0 <= m2 < pub_auts@.len() ==> aut_wf(#[trigger] pub_auts@[m2])
                    && pub_auts@[m2].states@.len() <= crate::automaton::MAX_DFA_STATES
                    && pub_auts@[m2].states@[0] == pub_asts(config.parts@)[m2],
                forall|m2: int| 0 <= m2 < m && pub_gaps(config.parts@)[m2 + 1]
                    ==> !byte_shift_ambiguous(
                    #[trigger] pub_asts(config.parts@)[m2],
                    pub_asts(config.parts@)[m2 + 1],
                ),
            decreases pub_auts@.len() - m,
        {
            if pub_flags[m + 1] {
                if pair_may_overlap(&pub_auts[m], &pub_auts[m + 1]) {
                    proof {
                        let b0 = choose|b0: u8| #[trigger] can_extend(
                            pub_auts@[m as int].states@[0],
                            b0,
                        );
                        assert(can_extend(pub_asts(config.parts@)[m as int], b0));
                        assert(lang_nonempty(pub_asts(config.parts@)[m as int + 1]));
                        assert(pub_gaps(config.parts@)[m as int + 1]);
                    }
                    return Err(RegexError::OverlapViolation);
                }
            }
            m += 1;
        }
    }
    // hand the tables out
    let allstr = full_aut.rows;
    let ghost gfull = full_aut;
    let mut substrs: Vec<Vec<TransitionRow>> = Vec::new();
    let ghost gpubs = pub_auts@;
    let mut taken: usize = 0;
    let total = pub_auts.len();
    let mut rest = pub_auts;
    proof {
        assert(gpubs.skip(0) =~= gpubs);
    }
    while taken < total
        invariant
            taken <= total,
            total == gpubs.len(),
            substrs@.len() == taken,
            rest@ == gpubs.skip(taken as int),
            forall|m2: int| 0 <= m2 < taken ==> substrs@[m2]@ == (#[trigger] gpubs[m2]).rows@,
        decreases total - taken,
    {
        proof {
            assert(rest@[0] == gpubs[taken as int]);
            assert(rest@.drop_first() =~= gpubs.skip(taken as int + 1));
        }
        let a = rest.remove(0);
        substrs.push(a.rows);
        taken += 1;
    }
    let defs = RegexDefs { allstr, substrs };
    proof {
        let parts = config.parts@;
        assert(aut_wf(gfull) && gfull.states@[0] == concat_asts(parts));
        assert(defs.allstr@ == gfull.rows@);
        assert forall|s: Seq<u8>| s.len() > 0 implies (table_accepts(defs.allstr@, s)
            <==> in_lang(concat_asts(parts), s)) by {
            lemma_table_vs_aut(gfull, s);
            lemma_aut_language(gfull, s);
        }
        lemma_table_vs_aut_empty(gfull);
        lemma_aut_language(gfull, Seq::<u8>::empty());
        assert forall|m2: int, s: Seq<u8>| 0 <= m2 < defs.substrs@.len() && s.len() > 0 implies (
        table_accepts(defs.substrs@[m2]@, s) <==> in_lang(pub_asts(parts)[m2], s)) by {
            lemma_table_vs_aut(gpubs[m2], s);
            lemma_aut_language(gpubs[m2], s);
        }
        assert forall|m2: int|
            0 <= m2 < defs.substrs@.len() && table_accepts(
                defs.substrs@[m2]@,
                Seq::<u8>::empty(),
            ) implies in_lang(pub_asts(parts)[m2], Seq::<u8>::empty()) by {
            lemma_table_vs_aut_empty(gpubs[m2]);
            lemma_aut_language(gpubs[m2], Seq::<u8>::empty());
        }
        assert forall|k: int| 0 <= k < defs.allstr@.len() implies (#[trigger] defs.allstr@[k]).state
            < 1000000000 && defs.allstr@[k].next < 1000000000 by {
            assert(defs.allstr@[k].state < gfull.states@.len());
        }
        assert forall|m2: int, k: int| 0 <= m2 < defs.substrs@.len() && 0 <= k
            < defs.substrs@[m2]@.len() implies (#[trigger] defs.substrs@[m2]@[k]).state
            < 1000000000 && defs.substrs@[m2]@[k].next < 1000000000 by {
            assert(aut_wf(gpubs[m2]));
            assert(defs.substrs@[m2]@[k].state < gpubs[m2].states@.len());
        }
    }
    Ok(defs)
}

} // verus!
