//! The matching and masking engine: given the input bytes and the loaded
//! transition tables, derives for every position the active public-substring
//! id and the masked character.
//!
//! The full-pattern table must accept the whole input, else everything is
//! unmatched. Each public fragment is then given the leftmost nonempty
//! substring match of its own table starting at or after the end of the
//! previous fragment's span, extended as far as possible (leftmost-longest);
//! positions inside that span carry the fragment's 1-based id and keep their
//! original byte, all other positions carry 0. Positions past the input's
//! true length are padding and always carry 0.

use vstd::prelude::*;

use crate::automaton::{lemma_run_app, lemma_run_snoc, spec_run, table_accepts,
    table_marked_accept, table_step, TransitionRow, table_accepts_bytes};
use crate::errors::RegexError;
use crate::MAX_STRING_LEN;

verus! {

/// The loaded tables: the full pattern's, and one per public fragment in
/// fragment order.
pub struct RegexDefs {
    pub allstr: Vec<TransitionRow>,
    pub substrs: Vec<Vec<TransitionRow>>,
}

/// The engine's output: both sequences have length `MAX_STRING_LEN`.
pub struct MatchResult {
    pub masked_characters: Vec<u8>,
    pub all_substr_ids: Vec<usize>,
}

/// The table accepts the nonempty substring `s[o..e]`.
pub open spec fn sub_accepts(t: Seq<TransitionRow>, s: Seq<u8>, o: int, e: int) -> bool {
    table_accepts(t, s.subrange(o, e))
}

/// Some nonempty match of the table starts at `o`.
pub open spec fn has_match_at(t: Seq<TransitionRow>, s: Seq<u8>, o: int) -> bool {
    exists|e: int| o < e <= s.len() && #[trigger] sub_accepts(t, s, o, e)
}

/// The least start position at or after `from` where the table has a
/// nonempty match.
pub open spec fn first_start(t: Seq<TransitionRow>, s: Seq<u8>, from: int) -> Option<int>
    decreases s.len() - from,
{
    if from < 0 || from >= s.len() {
        None
    } else if has_match_at(t, s, from) {
        Some(from)
    } else {
        first_start(t, s, from + 1)
    }
}

/// The greatest end `e <= m` with a nonempty match `s[o..e]`.
pub open spec fn best_end_up_to(t: Seq<TransitionRow>, s: Seq<u8>, o: int, m: int) -> Option<int>
    decreases m - o,
{
    if m <= o {
        None
    } else if sub_accepts(t, s, o, m) {
        Some(m)
    } else {
        best_end_up_to(t, s, o, (m - 1) as int)
    }
}

/// The longest match end from start `o`.
pub open spec fn longest_end(t: Seq<TransitionRow>, s: Seq<u8>, o: int) -> Option<int> {
    best_end_up_to(t, s, o, s.len() as int)
}

/// The id sequence produced by assigning each remaining fragment its
/// leftmost-longest span, starting the search at `from`, with `idx`
/// fragments already placed.
pub open spec fn spec_ids(subs: Seq<Vec<TransitionRow>>, s: Seq<u8>, from: int, idx: int)
    -> Seq<int>
    decreases subs.len(),
{
    if subs.len() == 0 {
        Seq::new(MAX_STRING_LEN as nat, |p: int| 0)
    } else {
        match first_start(subs[0]@, s, from) {
            None => spec_ids(subs.drop_first(), s, from, idx + 1),
            Some(o) => match longest_end(subs[0]@, s, o) {
                None => spec_ids(subs.drop_first(), s, from, idx + 1),
                Some(e) => {
                    let rest = spec_ids(subs.drop_first(), s, e, idx + 1);
                    Seq::new(
                        MAX_STRING_LEN as nat,
                        |p: int|
                            if o <= p < e {
                                idx + 1
                            } else {
                                rest[p]
                            },
                    )
                },
            },
        }
    }
}

/// The substring ids the engine owes: all zero unless the full table
/// accepts the whole input.
pub open spec fn spec_all_ids(defs: RegexDefs, s: Seq<u8>) -> Seq<int> {
    if table_accepts(defs.allstr@, s) {
        spec_ids(defs.substrs@, s, 0, 0)
    } else {
        Seq::new(MAX_STRING_LEN as nat, |p: int| 0)
    }
}

/// The masked characters the engine owes: the original byte inside a public
/// span, 0 elsewhere and on padding.
pub open spec fn spec_masked(defs: RegexDefs, s: Seq<u8>) -> Seq<u8> {
    Seq::new(
        MAX_STRING_LEN as nat,
        |p: int|
            if spec_all_ids(defs, s)[p] != 0 && 0 <= p < s.len() {
                s[p]
            } else {
                0u8
            },
    )
}

/// What `best_end_up_to` returns is a match end, and `None` means there is
/// no match end up to `m`.
pub proof fn lemma_best_props(t: Seq<TransitionRow>, s: Seq<u8>, o: int, m: int)
    requires
        0 <= o,
        m <= s.len(),
    ensures
        match best_end_up_to(t, s, o, m) {
            Some(e) => o < e <= m && sub_accepts(t, s, o, e),
            None => forall|e: int| o < e <= m ==> !sub_accepts(t, s, o, e),
        },
    decreases m - o,
{
    if m <= o {
    } else if sub_accepts(t, s, o, m) {
    } else {
        lemma_best_props(t, s, o, m - 1);
    }
}

/// With no match end in `(m1, m2]`, the best end up to `m2` is that up to
/// `m1`.
pub proof fn lemma_best_skip(t: Seq<TransitionRow>, s: Seq<u8>, o: int, m1: int, m2: int)
    requires
        o <= m1 <= m2,
        forall|e: int| m1 < e <= m2 ==> !sub_accepts(t, s, o, e),
    ensures
        best_end_up_to(t, s, o, m2) == best_end_up_to(t, s, o, m1),
    decreases m2 - m1,
{
    if m2 > m1 {
        lemma_best_skip(t, s, o, m1, m2 - 1);
    }
}

/// A first start lies at or after the search origin.
pub proof fn lemma_first_start_ge(t: Seq<TransitionRow>, s: Seq<u8>, from: int)
    ensures
        match first_start(t, s, from) {
            Some(o) => from <= o < s.len() && has_match_at(t, s, o),
            None => true,
        },
    decreases s.len() - from,
{
    if 0 <= from && from < s.len() && !has_match_at(t, s, from) {
        lemma_first_start_ge(t, s, from + 1);
    }
}

/// The id sequence always has the fixed length.
pub proof fn lemma_ids_len(subs: Seq<Vec<TransitionRow>>, s: Seq<u8>, from: int, idx: int)
    ensures
        spec_ids(subs, s, from, idx).len() == MAX_STRING_LEN,
    decreases subs.len(),
{
    if subs.len() > 0 {
        match first_start(subs[0]@, s, from) {
            None => {
                lemma_ids_len(subs.drop_first(), s, from, idx + 1);
            },
            Some(o) => match longest_end(subs[0]@, s, o) {
                None => {
                    lemma_ids_len(subs.drop_first(), s, from, idx + 1);
                },
                Some(e) => {
                    lemma_ids_len(subs.drop_first(), s, e, idx + 1);
                },
            },
        }
    }
}

/// Positions before the search origin never carry an id.
pub proof fn lemma_ids_low(subs: Seq<Vec<TransitionRow>>, s: Seq<u8>, from: int, idx: int)
    requires
        0 <= from,
        from <= s.len(),
    ensures
        forall|p: int| 0 <= p < from && p < MAX_STRING_LEN ==> spec_ids(subs, s, from, idx)[p]
            == 0,
    decreases subs.len(),
{
    if subs.len() == 0 {
        assert forall|p: int| 0 <= p < from && p < MAX_STRING_LEN implies spec_ids(
            subs,
            s,
            from,
            idx,
        )[p] == 0 by {
            assert(spec_ids(subs, s, from, idx)[p] == 0);
        }
    } else {
        match first_start(subs[0]@, s, from) {
            None => {
                lemma_ids_low(subs.drop_first(), s, from, idx + 1);
                assert forall|p: int| 0 <= p < from && p < MAX_STRING_LEN implies spec_ids(
                    subs,
                    s,
                    from,
                    idx,
                )[p] == 0 by {
                    assert(spec_ids(subs, s, from, idx) == spec_ids(
                        subs.drop_first(),
                        s,
                        from,
                        idx + 1,
                    ));
                }
            },
            Some(o) => {
                lemma_first_start_ge(subs[0]@, s, from);
                match longest_end(subs[0]@, s, o) {
                    None => {
                        lemma_ids_low(subs.drop_first(), s, from, idx + 1);
                        assert forall|p: int| 0 <= p < from && p < MAX_STRING_LEN implies
                            spec_ids(subs, s, from, idx)[p] == 0 by {
                            assert(spec_ids(subs, s, from, idx) == spec_ids(
                                subs.drop_first(),
                                s,
                                from,
                                idx + 1,
                            ));
                        }
                    },
                    Some(e) => {
                        lemma_best_props(subs[0]@, s, o, s.len() as int);
                        lemma_ids_low(subs.drop_first(), s, e, idx + 1);
                        let rest = spec_ids(subs.drop_first(), s, e, idx + 1);
                        assert forall|p: int| 0 <= p < from && p < MAX_STRING_LEN implies
                            spec_ids(subs, s, from, idx)[p] == 0 by {
                            assert(spec_ids(subs, s, from, idx)[p] == rest[p]);
                            assert(rest[p] == 0);
                        }
                    },
                }
            },
        }
    }
}

/// Every nonzero id the engine assigns is backed by a nonempty substring,
/// covering that position, that the fragment's own table accepts.
proof fn lemma_ids_sound(
    subs: Seq<Vec<TransitionRow>>,
    s: Seq<u8>,
    from: int,
    idx: int,
    p: int,
)
    requires
        0 <= from <= s.len(),
        0 <= p < MAX_STRING_LEN,
    ensures
        spec_ids(subs, s, from, idx)[p] != 0 ==> {
            let v = spec_ids(subs, s, from, idx)[p];
            &&& idx + 1 <= v <= idx + subs.len()
            &&& exists|o: int, e: int|
                0 <= o <= p < e <= s.len() && #[trigger] sub_accepts(
                    subs[v - idx - 1]@,
                    s,
                    o,
                    e,
                )
        },
    decreases subs.len(),
{
    lemma_ids_len(subs, s, from, idx);
    if subs.len() == 0 {
        assert(spec_ids(subs, s, from, idx)[p] == 0);
    } else {
        match first_start(subs[0]@, s, from) {
            None => {
                lemma_ids_sound(subs.drop_first(), s, from, idx + 1, p);
                let v = spec_ids(subs, s, from, idx)[p];
                if v != 0 {
                    assert(v == spec_ids(subs.drop_first(), s, from, idx + 1)[p]);
                    let (o2, e2) = choose|o2: int, e2: int|
                        0 <= o2 <= p < e2 <= s.len() && #[trigger] sub_accepts(
                            subs.drop_first()[v - idx - 2]@,
                            s,
                            o2,
                            e2,
                        );
                    assert(subs.drop_first()[v - idx - 2] == subs[v - idx - 1]);
                    assert(sub_accepts(subs[v - idx - 1]@, s, o2, e2));
                }
            },
            Some(o) => {
                lemma_first_start_ge(subs[0]@, s, from);
                match longest_end(subs[0]@, s, o) {
                    None => {
                        lemma_ids_sound(subs.drop_first(), s, from, idx + 1, p);
                let v = spec_ids(subs, s, from, idx)[p];
                if v != 0 {
                    assert(v == spec_ids(subs.drop_first(), s, from, idx + 1)[p]);
                    let (o2, e2) = choose|o2: int, e2: int|
                        0 <= o2 <= p < e2 <= s.len() && #[trigger] sub_accepts(
                            subs.drop_first()[v - idx - 2]@,
                            s,
                            o2,
                            e2,
                        );
                    assert(subs.drop_first()[v - idx - 2] == subs[v - idx - 1]);
                    assert(sub_accepts(subs[v - idx - 1]@, s, o2, e2));
                }
                    },
                    Some(e) => {
                        lemma_best_props(subs[0]@, s, o, s.len() as int);
                        let rest = spec_ids(subs.drop_first(), s, e, idx + 1);
                        if o <= p < e {
                            let v = spec_ids(subs, s, from, idx)[p];
                            assert(v == idx + 1);
                            assert(subs[v - idx - 1] == subs[0]);
                            assert(0 <= o <= p < e <= s.len() && sub_accepts(
                                subs[v - idx - 1]@,
                                s,
                                o,
                                e,
                            ));
                        } else {
                            assert(spec_ids(subs, s, from, idx)[p] == rest[p]);
                            lemma_ids_sound(subs.drop_first(), s, e, idx + 1, p);
                            let v = spec_ids(subs, s, from, idx)[p];
                            if v != 0 {
                                assert(v == spec_ids(subs.drop_first(), s, e, idx + 1)[p]);
                                let (o2, e2) = choose|o2: int, e2: int|
                                    0 <= o2 <= p < e2 <= s.len() && #[trigger] sub_accepts(
                                        subs.drop_first()[v - idx - 2]@,
                                        s,
                                        o2,
                                        e2,
                                    );
                                assert(subs.drop_first()[v - idx - 2] == subs[v - idx - 1]);
                                assert(sub_accepts(subs[v - idx - 1]@, s, o2, e2));
                            }
                        }
                    },
                }
            },
        }
    }
}

/// A position carrying id `m + 1` lies inside a nonempty substring accepted
/// by the `m`-th public fragment's table, and the full table accepts the
/// whole input.
pub proof fn lemma_cover_sound(defs: RegexDefs, s: Seq<u8>, p: int)
    requires
        0 <= p < MAX_STRING_LEN,
        s.len() <= MAX_STRING_LEN,
    ensures
        spec_all_ids(defs, s)[p] != 0 ==> {
            let m = spec_all_ids(defs, s)[p] - 1;
            &&& table_accepts(defs.allstr@, s)
            &&& 0 <= m < defs.substrs@.len()
            &&& exists|o: int, e: int|
                0 <= o <= p < e <= s.len() && #[trigger] sub_accepts(defs.substrs@[m]@, s, o, e)
        },
{
    if table_accepts(defs.allstr@, s) {
        lemma_ids_sound(defs.substrs@, s, 0, 0, p);
    }
}

/// Replacing a span of the input with some bytes, leaving the rest alone.
pub open spec fn splice(s: Seq<u8>, o: int, txt: Seq<u8>) -> Seq<u8> {
    Seq::new(
        s.len(),
        |p: int|
            if o <= p < o + txt.len() {
                txt[p - o]
            } else {
                s[p]
            },
    )
}

/// Masking is idempotent: writing a public span's own text back over the
/// input and re-evaluating yields the identical masked characters and ids.
pub proof fn lemma_masking_idempotent(defs: RegexDefs, s: Seq<u8>, o: int, e: int)
    requires
        0 <= o <= e <= s.len(),
    ensures
        spec_masked(defs, splice(s, o, s.subrange(o, e))) == spec_masked(defs, s),
        spec_all_ids(defs, splice(s, o, s.subrange(o, e))) == spec_all_ids(defs, s),
{
    assert(splice(s, o, s.subrange(o, e)) =~= s);
}

/// The longest nonempty match of the table from start `o`, scanned forward.
fn best_end(t: &Vec<TransitionRow>, s: &Vec<u8>, o: usize) -> (out: Option<usize>)
    requires
        o < s@.len(),
    ensures
        match out {
            Some(e) => longest_end(t@, s@, o as int) == Some(e as int) && o < e <= s@.len(),
            None => longest_end(t@, s@, o as int) is None,
        },
{
    let mut st: usize = 0;
    let mut best: Option<usize> = None;
    let mut m: usize = o;
    proof {
        assert(s@.subrange(o as int, o as int) =~= Seq::<u8>::empty());
    }
    while m < s.len()
        invariant
            o <= m <= s@.len(),
            o < s@.len(),
            spec_run(t@, 0, s@.subrange(o as int, m as int)) == Some(st),
            match best {
                Some(e) => best_end_up_to(t@, s@, o as int, m as int) == Some(e as int) && o < e
                    <= m,
                None => best_end_up_to(t@, s@, o as int, m as int) is None,
            },
        decreases s@.len() - m,
    {
        match table_step(t, st, s[m]) {
            None => {
                proof {
                    assert forall|e: int| m < e <= s@.len() implies !sub_accepts(
                        t@,
                        s@,
                        o as int,
                        e,
                    ) by {
                        assert(s@.subrange(o as int, e) =~= s@.subrange(o as int, m as int)
                            + s@.subrange(m as int, e));
                        lemma_run_app(
                            t@,
                            0,
                            s@.subrange(o as int, m as int),
                            s@.subrange(m as int, e),
                        );
                        assert(s@.subrange(m as int, e)[0] == s@[m as int]);
                    }
                    lemma_best_skip(t@, s@, o as int, m as int, s@.len() as int);
                }
                return best;
            },
            Some(n) => {
                proof {
                    assert(s@.subrange(o as int, m as int + 1).drop_last() =~= s@.subrange(
                        o as int,
                        m as int,
                    ));
                    assert(s@.subrange(o as int, m as int + 1).last() == s@[m as int]);
                    assert(s@.subrange(o as int, m as int + 1) =~= s@.subrange(
                        o as int,
                        m as int,
                    ).push(s@[m as int]));
                    lemma_run_snoc(t@, 0, s@.subrange(o as int, m as int), s@[m as int]);
                }
                st = n;
                m += 1;
                if table_marked_accept(t, st) {
                    proof {
                        assert(sub_accepts(t@, s@, o as int, m as int));
                    }
                    best = Some(m);
                } else {
                    proof {
                        assert(!sub_accepts(t@, s@, o as int, m as int));
                    }
                }
            },
        }
    }
    best
}

/// The leftmost-longest nonempty match of the table starting at or after
/// `from`.
fn find_span(t: &Vec<TransitionRow>, s: &Vec<u8>, from: usize) -> (out: Option<(usize, usize)>)
    requires
        from <= s@.len(),
    ensures
        match out {
            Some((o, e)) => first_start(t@, s@, from as int) == Some(o as int) && longest_end(
                t@,
                s@,
                o as int,
            ) == Some(e as int) && from <= o < e <= s@.len(),
            None => first_start(t@, s@, from as int) is None,
        },
{
    let mut o: usize = from;
    while o < s.len()
        invariant
            from <= o <= s@.len(),
            first_start(t@, s@, from as int) == first_start(t@, s@, o as int),
        decreases s@.len() - o,
    {
        match best_end(t, s, o) {
            Some(e) => {
                proof {
                    lemma_best_props(t@, s@, o as int, s@.len() as int);
                    assert(sub_accepts(t@, s@, o as int, e as int));
                    assert(has_match_at(t@, s@, o as int));
                }
                return Some((o, e));
            },
            None => {
                proof {
                    lemma_best_props(t@, s@, o as int, s@.len() as int);
                    if has_match_at(t@, s@, o as int) {
                        let e = choose|e: int| o < e <= s@.len() && #[trigger] sub_accepts(
                            t@,
                            s@,
                            o as int,
                            e,
                        );
                        assert(false);
                    }
                }
                o += 1;
            },
        }
    }
    None
}

/// Derives the masked characters and substring ids for an input against the
/// loaded tables. Fails exactly when the input is longer than
/// `MAX_STRING_LEN`.
pub fn evaluate(characters: &Vec<u8>, defs: &RegexDefs) -> (out: Result<MatchResult, RegexError>)
    ensures
        characters@.len() > MAX_STRING_LEN ==> out == Err::<MatchResult, RegexError>(
            RegexError::LengthExceeded,
        ),
        characters@.len() <= MAX_STRING_LEN ==> match out {
            Ok(m) => m.all_substr_ids@.len() == MAX_STRING_LEN && m.masked_characters@.len()
                == MAX_STRING_LEN && (forall|p: int| 0 <= p < MAX_STRING_LEN
                ==> m.all_substr_ids@[p] == spec_all_ids(*defs, characters@)[p]
                && m.masked_characters@[p] == spec_masked(*defs, characters@)[p]),
            Err(e) => false,
        },
{
    if characters.len() > MAX_STRING_LEN {
        return Err(RegexError::LengthExceeded);
    }
    let s = characters;
    let accepted = table_accepts_bytes(&defs.allstr, s);
    let mut ids: Vec<usize> = Vec::new();
    let mut masked: Vec<u8> = Vec::new();
    let mut z: usize = 0;
    while z < MAX_STRING_LEN
        invariant
            z <= MAX_STRING_LEN,
            ids@.len() == z,
            masked@.len() == z,
            forall|p: int| 0 <= p < z ==> ids@[p] == 0 && masked@[p] == 0,
        decreases MAX_STRING_LEN - z,
    {
        ids.push(0);
        masked.push(0);
        z += 1;
    }
    if !accepted {
        return Ok(MatchResult { masked_characters: masked, all_substr_ids: ids });
    }
    let mut prev: usize = 0;
    let mut i: usize = 0;
    proof {
        assert(defs.substrs@.skip(0) =~= defs.substrs@);
        lemma_ids_len(defs.substrs@, s@, 0, 0);
    }
    while i < defs.substrs.len()
        invariant
            i <= defs.substrs@.len(),
            prev <= s@.len(),
            s@.len() <= MAX_STRING_LEN,
            accepted == table_accepts(defs.allstr@, s@),
            accepted,
            ids@.len() == MAX_STRING_LEN,
            masked@.len() == MAX_STRING_LEN,
            spec_ids(defs.substrs@, s@, 0, 0).len() == MAX_STRING_LEN,
            forall|p: int| 0 <= p < MAX_STRING_LEN ==> spec_ids(defs.substrs@, s@, 0, 0)[p] == (
            if spec_ids(defs.substrs@.skip(i as int), s@, prev as int, i as int)[p] != 0 {
                spec_ids(defs.substrs@.skip(i as int), s@, prev as int, i as int)[p]
            } else {
                ids@[p] as int
            }),
            forall|p: int| 0 <= p < MAX_STRING_LEN ==> masked@[p] == (
            if ids@[p] != 0 && 0 <= p < s@.len() {
                s@[p]
            } else {
                0u8
            }),
        decreases defs.substrs@.len() - i,
    {
        let sub = &defs.substrs[i];
        let ghost pre = defs.substrs@.skip(i as int);
        proof {
            assert(pre[0] == defs.substrs@[i as int]);
            assert(pre.drop_first() =~= defs.substrs@.skip(i as int + 1));
            lemma_ids_len(defs.substrs@.skip(i as int + 1), s@, prev as int, i as int + 1);
        }
        match find_span(sub, s, prev) {
            None => {
                proof {
                    assert(spec_ids(pre, s@, prev as int, i as int) == spec_ids(
                        defs.substrs@.skip(i as int + 1),
                        s@,
                        prev as int,
                        i as int + 1,
                    ));
                }
                i += 1;
            },
            Some((o, e)) => {
                proof {
                    lemma_ids_len(defs.substrs@.skip(i as int + 1), s@, e as int, i as int + 1);
                    lemma_ids_low(defs.substrs@.skip(i as int + 1), s@, e as int, i as int + 1);
                }
                let ghost ids_pre = ids@;
                let ghost masked_pre = masked@;
                let idv: usize = i + 1;
                let mut p: usize = o;
                while p < e
                    invariant
                        o <= p <= e,
                        e <= s@.len(),
                        s@.len() <= MAX_STRING_LEN,
                        i < defs.substrs@.len(),
                        ids@.len() == MAX_STRING_LEN,
                        masked@.len() == MAX_STRING_LEN,
                        forall|q: int| 0 <= q < MAX_STRING_LEN && !(o <= q < p) ==> ids@[q]
                            == ids_pre[q] && masked@[q] == masked_pre[q],
                        idv == i + 1,
                        ids_pre.len() == MAX_STRING_LEN,
                        masked_pre.len() == MAX_STRING_LEN,
                        forall|q: int| o <= q < p ==> ids@[q] == i + 1 && masked@[q] == s@[q],
                    decreases e - p,
                {
                    ids.set(p, idv);
                    masked.set(p, s[p]);
                    p += 1;
                }
                proof {
                    let full = spec_ids(defs.substrs@, s@, 0, 0);
                    let cur = spec_ids(pre, s@, prev as int, i as int);
                    let nxt = spec_ids(
                        defs.substrs@.skip(i as int + 1),
                        s@,
                        e as int,
                        i as int + 1,
                    );
                    assert(cur =~= Seq::new(
                        MAX_STRING_LEN as nat,
                        |p: int|
                            if o <= p < e {
                                i + 1
                            } else {
                                nxt[p]
                            },
                    ));
                    assert forall|p: int| 0 <= p < MAX_STRING_LEN implies full[p] == (
                    if nxt[p] != 0 {
                        nxt[p]
                    } else {
                        ids@[p] as int
                    }) by {
                        if o <= p < e {
                            assert(cur[p] == i + 1);
                            assert(full[p] == i + 1);
                            assert(nxt[p] == 0);
                            assert(ids@[p] == i + 1);
                        } else {
                            assert(cur[p] == nxt[p]);
                            assert(ids@[p] == ids_pre[p]);
                        }
                    }
                    assert forall|p2: int| 0 <= p2 < MAX_STRING_LEN implies masked@[p2] == (
                    if ids@[p2] != 0 && 0 <= p2 < s@.len() {
                        s@[p2]
                    } else {
                        0u8
                    }) by {
                        if o <= p2 < e {
                            assert(ids@[p2] == i + 1);
                            assert(masked@[p2] == s@[p2]);
                        } else {
                            assert(ids@[p2] == ids_pre[p2]);
                            assert(masked@[p2] == masked_pre[p2]);
                        }
                    }
                }
                prev = e;
                i += 1;
            },
        }
    }
    proof {
        assert(defs.substrs@.skip(defs.substrs@.len() as int) =~= Seq::<Vec<TransitionRow>>::empty());
        assert(spec_ids(Seq::<Vec<TransitionRow>>::empty(), s@, prev as int, i as int)
            =~= Seq::new(MAX_STRING_LEN as nat, |p: int| 0int));
        assert forall|p: int| 0 <= p < MAX_STRING_LEN implies ids@[p] as int == spec_all_ids(
            *defs,
            s@,
        )[p] && masked@[p] == spec_masked(*defs, s@)[p] by {
            assert(spec_ids(defs.substrs@.skip(i as int), s@, prev as int, i as int)[p] == 0);
        }
    }
    Ok(MatchResult { masked_characters: masked, all_substr_ids: ids })
}

} // verus!
