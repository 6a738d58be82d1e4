//! Witness assertion logic: compares the engine's derived sequences against
//! the caller's claimed substrings, in success mode (everything must agree)
//! or failure mode (the sequences must differ somewhere).

use vstd::prelude::*;

use crate::engine::MatchResult;
use crate::errors::RegexError;
use crate::MAX_STRING_LEN;

verus! {

/// Whether a claim `(offset, text)` covers position `p`.
pub open spec fn claim_covers(c: (usize, Vec<u8>), p: int) -> bool {
    c.0 <= p < c.0 + c.1@.len()
}

/// The expected 1-based id at `p`: the last claim covering it, 0 if none.
pub open spec fn expected_id(claims: Seq<(usize, Vec<u8>)>, p: int) -> int
    decreases claims.len(),
{
    if claims.len() == 0 {
        0
    } else if claim_covers(claims.last(), p) {
        claims.len() as int
    } else {
        expected_id(claims.drop_last(), p)
    }
}

/// The expected masked byte at `p`: the covering claim's byte, 0 if none.
pub open spec fn expected_masked(claims: Seq<(usize, Vec<u8>)>, p: int) -> u8
    decreases claims.len(),
{
    if claims.len() == 0 {
        0
    } else if claim_covers(claims.last(), p) {
        claims.last().1@[p - claims.last().0]
    } else {
        expected_masked(claims.drop_last(), p)
    }
}

/// Every claim fits inside the fixed witness length.
pub open spec fn claims_in_bounds(claims: Seq<(usize, Vec<u8>)>) -> bool {
    forall|j: int| 0 <= j < claims.len() ==> (#[trigger] claims[j]).0 + claims[j].1@.len()
        <= MAX_STRING_LEN
}

/// The derived sequences agree with the claims at every position.
pub open spec fn seqs_match(ids: Seq<usize>, masked: Seq<u8>, claims: Seq<(usize, Vec<u8>)>)
    -> bool {
    forall|p: int| 0 <= p < MAX_STRING_LEN ==> ids[p] == expected_id(claims, p) && masked[p]
        == expected_masked(claims, p)
}

/// The assertion's outcome: out-of-bounds claims fail with `LengthExceeded`;
/// success mode requires agreement everywhere and fails with
/// `AssertionFailure` on any mismatch; failure mode requires a mismatch and
/// fails with `UnexpectedMatch` when the sequences agree everywhere.
pub open spec fn spec_assert_outcome(
    ids: Seq<usize>,
    masked: Seq<u8>,
    claims: Seq<(usize, Vec<u8>)>,
    is_success: bool,
) -> Result<(), RegexError> {
    if !claims_in_bounds(claims) {
        Err(RegexError::LengthExceeded)
    } else if is_success {
        if seqs_match(ids, masked, claims) {
            Ok(())
        } else {
            Err(RegexError::AssertionFailure)
        }
    } else {
        if seqs_match(ids, masked, claims) {
            Err(RegexError::UnexpectedMatch)
        } else {
            Ok(())
        }
    }
}

/// Success mode holds when the derived sequences match the claims exactly.
pub proof fn lemma_success_mode(
    ids: Seq<usize>,
    masked: Seq<u8>,
    claims: Seq<(usize, Vec<u8>)>,
)
    requires
        claims_in_bounds(claims),
        seqs_match(ids, masked, claims),
    ensures
        spec_assert_outcome(ids, masked, claims, true) == Ok::<(), RegexError>(()),
{
}

/// With any mismatch, failure mode holds and success mode fails.
pub proof fn lemma_failure_mode(
    ids: Seq<usize>,
    masked: Seq<u8>,
    claims: Seq<(usize, Vec<u8>)>,
)
    requires
        claims_in_bounds(claims),
        !seqs_match(ids, masked, claims),
    ensures
        spec_assert_outcome(ids, masked, claims, false) == Ok::<(), RegexError>(()),
        spec_assert_outcome(ids, masked, claims, true) == Err::<(), RegexError>(
            RegexError::AssertionFailure,
        ),
{
}

/// Compares a derived result against the claimed substrings.
pub fn assert_claims(
    result: &MatchResult,
    claims: &Vec<(usize, Vec<u8>)>,
    is_success: bool,
) -> (out: Result<(), RegexError>)
    requires
        result.all_substr_ids@.len() == MAX_STRING_LEN,
        result.masked_characters@.len() == MAX_STRING_LEN,
    ensures
        out == spec_assert_outcome(
            result.all_substr_ids@,
            result.masked_characters@,
            claims@,
            is_success,
        ),
{
    // bounds of every claim
    let mut j: usize = 0;
    while j < claims.len()
        invariant
            j <= claims@.len(),
            forall|k: int| 0 <= k < j ==> (#[trigger] claims@[k]).0 + claims@[k].1@.len()
                <= MAX_STRING_LEN,
        decreases claims@.len() - j,
    {
        let off = claims[j].0;
        let tlen = claims[j].1.len();
        if off > MAX_STRING_LEN || tlen > MAX_STRING_LEN - off {
            return Err(RegexError::LengthExceeded);
        }
        j += 1;
    }
    // expected sequences, later claims overwriting earlier ones
    let mut exp_ids: Vec<usize> = Vec::new();
    let mut exp_m: Vec<u8> = Vec::new();
    let mut z: usize = 0;
    while z < MAX_STRING_LEN
        invariant
            z <= MAX_STRING_LEN,
            exp_ids@.len() == z,
            exp_m@.len() == z,
            forall|p: int| 0 <= p < z ==> exp_ids@[p] == 0 && exp_m@[p] == 0,
        decreases MAX_STRING_LEN - z,
    {
        exp_ids.push(0);
        exp_m.push(0);
        z += 1;
    }
    proof {
        assert(claims@.take(0) =~= Seq::<(usize, Vec<u8>)>::empty());
    }
    let mut j2: usize = 0;
    while j2 < claims.len()
        invariant
            j2 <= claims@.len(),
            claims_in_bounds(claims@),
            exp_ids@.len() == MAX_STRING_LEN,
            exp_m@.len() == MAX_STRING_LEN,
            forall|p: int| 0 <= p < MAX_STRING_LEN ==> exp_ids@[p] == expected_id(
                claims@.take(j2 as int),
                p,
            ) && exp_m@[p] == expected_masked(claims@.take(j2 as int), p),
        decreases claims@.len() - j2,
    {
        let off = claims[j2].0;
        let ghost pre_ids = exp_ids@;
        let ghost pre_m = exp_m@;
        let idv: usize = j2 + 1;
        let mut k: usize = 0;
        while k < claims[j2].1.len()
            invariant
                j2 < claims@.len(),
                off == claims@[j2 as int].0,
                idv == j2 + 1,
                claims_in_bounds(claims@),
                k <= claims@[j2 as int].1@.len(),
                exp_ids@.len() == MAX_STRING_LEN,
                exp_m@.len() == MAX_STRING_LEN,
                pre_ids.len() == MAX_STRING_LEN,
                pre_m.len() == MAX_STRING_LEN,
                forall|p: int| 0 <= p < MAX_STRING_LEN && !(off <= p < off + k) ==> exp_ids@[p]
                    == pre_ids[p] && exp_m@[p] == pre_m[p],
                forall|p: int| off <= p < off + k ==> exp_ids@[p] == j2 + 1 && exp_m@[p]
                    == claims@[j2 as int].1@[p - off],
            decreases claims@[j2 as int].1@.len() - k,
        {
            exp_ids.set(off + k, idv);
            let cb = claims[j2].1[k];
            exp_m.set(off + k, cb);
            k += 1;
        }
        proof {
            let cl1 = claims@.take(j2 as int + 1);
            assert(cl1.drop_last() =~= claims@.take(j2 as int));
            assert(cl1.last() == claims@[j2 as int]);
            assert forall|p: int| 0 <= p < MAX_STRING_LEN implies exp_ids@[p] == expected_id(
                cl1,
                p,
            ) && exp_m@[p] == expected_masked(cl1, p) by {
                if claim_covers(claims@[j2 as int], p) {
                    assert(exp_ids@[p] == j2 + 1);
                } else {
                    assert(exp_ids@[p] == pre_ids[p]);
                }
            }
        }
        j2 += 1;
    }
    proof {
        assert(claims@.take(claims@.len() as int) =~= claims@);
    }
    // compare
    let mut ok = true;
    let mut p: usize = 0;
    while p < MAX_STRING_LEN
        invariant
            p <= MAX_STRING_LEN,
            exp_ids@.len() == MAX_STRING_LEN,
            exp_m@.len() == MAX_STRING_LEN,
            result.all_substr_ids@.len() == MAX_STRING_LEN,
            result.masked_characters@.len() == MAX_STRING_LEN,
            ok == (forall|q: int| 0 <= q < p ==> result.all_substr_ids@[q] == exp_ids@[q]
                && result.masked_characters@[q] == exp_m@[q]),
        decreases MAX_STRING_LEN - p,
    {
        if result.all_substr_ids[p] != exp_ids[p] || result.masked_characters[p] != exp_m[p] {
            ok = false;
        }
        p += 1;
    }
    proof {
        let ids = result.all_substr_ids@;
        let masked = result.masked_characters@;
        if ok {
            assert forall|q: int| 0 <= q < MAX_STRING_LEN implies ids[q] == expected_id(
                claims@,
                q,
            ) && masked[q] == expected_masked(claims@, q) by {
                assert(ids[q] == exp_ids@[q] && masked[q] == exp_m@[q]);
            }
            assert(seqs_match(ids, masked, claims@));
        } else {
            let q = choose|q: int| 0 <= q < MAX_STRING_LEN && !(ids[q] == exp_ids@[q]
                && masked[q] == exp_m@[q]);
            assert(exp_ids@[q] == expected_id(claims@, q) && exp_m@[q] == expected_masked(
                claims@,
                q,
            ));
            assert(!seqs_match(ids, masked, claims@));
        }
        assert(ok == seqs_match(ids, masked, claims@));
    }
    if is_success {
        if ok {
            Ok(())
        } else {
            Err(RegexError::AssertionFailure)
        }
    } else {
        if ok {
            Err(RegexError::UnexpectedMatch)
        } else {
            Ok(())
        }
    }
}

} // verus!
