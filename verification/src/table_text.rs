//! The transition-table text format: one row per line, four space-separated
//! decimal fields `state byte next is_accept`, and the equivalent
//! circuit-description emission for a second proving toolchain.
//!
//! The loader accepts one row per line, the four fields separated by single
//! spaces and the row closed by a newline; each number is one to nine
//! decimal digits (leading zeros allowed; the nine-digit bound keeps every
//! value inside the machine word), the byte field is at most 255 and the
//! accept field is 0 or 1.

use vstd::prelude::*;

use crate::automaton::TransitionRow;
use crate::errors::RegexError;

verus! {

pub open spec fn is_digit(b: u8) -> bool {
    48 <= b && b <= 57
}

pub open spec fn pow10(k: nat) -> int
    decreases k,
{
    if k == 0 {
        1
    } else {
        10 * pow10((k - 1) as nat)
    }
}

/// Decimal digits of a number, most significant first.
pub open spec fn dec_of(n: nat) -> Seq<u8>
    decreases n,
{
    if n < 10 {
        seq![(48 + n) as u8]
    } else {
        dec_of(n / 10).push((48 + n % 10) as u8)
    }
}

/// The number denoted by a digit string.
pub open spec fn dec_val(s: Seq<u8>) -> int
    decreases s.len(),
{
    if s.len() == 0 {
        0
    } else {
        dec_val(s.drop_last()) * 10 + (s.last() - 48)
    }
}

/// The canonical serialization of one row.
pub open spec fn spec_emit_row(r: TransitionRow) -> Seq<u8> {
    dec_of(r.state as nat) + seq![32u8] + dec_of(r.byte as nat) + seq![32u8] + dec_of(
        r.next as nat,
    ) + seq![32u8] + seq![if r.is_accept { 49u8 } else { 48u8 }] + seq![10u8]
}

/// The canonical serialization of a whole table.
pub open spec fn spec_emit(rows: Seq<TransitionRow>) -> Seq<u8>
    decreases rows.len(),
{
    if rows.len() == 0 {
        Seq::<u8>::empty()
    } else {
        spec_emit_row(rows[0]) + spec_emit(rows.drop_first())
    }
}

/// Serializing one more row appends one more line.
pub proof fn lemma_emit_snoc(rows: Seq<TransitionRow>, r: TransitionRow)
    ensures
        spec_emit(rows.push(r)) == spec_emit(rows) + spec_emit_row(r),
    decreases rows.len(),
{
    if rows.len() == 0 {
        assert(rows.push(r)[0] == r);
        assert(rows.push(r).drop_first() =~= Seq::<TransitionRow>::empty());
        assert(spec_emit(Seq::<TransitionRow>::empty()) =~= Seq::<u8>::empty());
        assert(spec_emit(rows.push(r)) == spec_emit_row(r) + spec_emit(
            Seq::<TransitionRow>::empty(),
        ));
        assert(spec_emit_row(r) + Seq::<u8>::empty() =~= spec_emit_row(r));
        assert(spec_emit(rows) + spec_emit_row(r) =~= spec_emit_row(r));
    } else {
        assert(rows.push(r)[0] == rows[0]);
        assert(rows.push(r).drop_first() =~= rows.drop_first().push(r));
        lemma_emit_snoc(rows.drop_first(), r);
        assert(spec_emit(rows.push(r)) == spec_emit_row(rows[0]) + (spec_emit(rows.drop_first())
            + spec_emit_row(r)));
        assert(spec_emit_row(rows[0]) + (spec_emit(rows.drop_first()) + spec_emit_row(r)) =~= (
        spec_emit_row(rows[0]) + spec_emit(rows.drop_first())) + spec_emit_row(r));
    }
}

/// Appends the decimal digits of `n`.
fn push_dec(out: &mut Vec<u8>, n: usize)
    ensures
        final(out)@ == old(out)@ + dec_of(n as nat),
    decreases n,
{
    if n < 10 {
        out.push(48 + n as u8);
        proof {
            assert(out@ =~= old(out)@ + dec_of(n as nat));
        }
    } else {
        push_dec(out, n / 10);
        out.push(48 + (n % 10) as u8);
        proof {
            assert(out@ =~= old(out)@ + dec_of(n as nat));
        }
    }
}

/// Appends a copy of `xs`.
fn extend_bytes(out: &mut Vec<u8>, xs: &Vec<u8>)
    ensures
        final(out)@ == old(out)@ + xs@,
{
    let mut i: usize = 0;
    while i < xs.len()
        invariant
            i <= xs@.len(),
            out@ == old(out)@ + xs@.take(i as int),
        decreases xs@.len() - i,
    {
        out.push(xs[i]);
        proof {
            assert(old(out)@ + xs@.take(i as int) + seq![xs@[i as int]] =~= old(out)@ + xs@.take(
                i as int + 1,
            ));
        }
        i += 1;
    }
    proof {
        assert(xs@.take(xs@.len() as int) =~= xs@);
    }
}

fn push_row(out: &mut Vec<u8>, r: TransitionRow)
    ensures
        final(out)@ == old(out)@ + spec_emit_row(r),
{
    push_dec(out, r.state);
    out.push(32u8);
    push_dec(out, r.byte as usize);
    proof {
        assert(dec_of(r.byte as nat) == dec_of((r.byte as usize) as nat));
    }
    out.push(32u8);
    push_dec(out, r.next);
    out.push(32u8);
    if r.is_accept {
        out.push(49u8);
    } else {
        out.push(48u8);
    }
    out.push(10u8);
    proof {
        assert(out@ =~= old(out)@ + spec_emit_row(r));
    }
}

/// Serializes a table in the canonical text form.
pub fn emit_table(rows: &Vec<TransitionRow>) -> (out: Vec<u8>)
    ensures
        out@ == spec_emit(rows@),
{
    let mut out: Vec<u8> = Vec::new();
    let mut i: usize = 0;
    proof {
        assert(rows@.take(0) =~= Seq::<TransitionRow>::empty());
        assert(out@ =~= spec_emit(rows@.take(0)));
    }
    while i < rows.len()
        invariant
            i <= rows@.len(),
            out@ == spec_emit(rows@.take(i as int)),
        decreases rows@.len() - i,
    {
        push_row(&mut out, rows[i]);
        proof {
            assert(rows@.take(i as int + 1) =~= rows@.take(i as int).push(rows@[i as int]));
            lemma_emit_snoc(rows@.take(i as int), rows@[i as int]);
        }
        i += 1;
    }
    proof {
        assert(rows@.take(rows@.len() as int) =~= rows@);
    }
    out
}

/// End of the maximal digit run starting at `pos`.
pub open spec fn digits_end(t: Seq<u8>, pos: int) -> int
    decreases t.len() - pos,
{
    if 0 <= pos && pos < t.len() && is_digit(t[pos]) {
        digits_end(t, pos + 1)
    } else {
        pos
    }
}

/// A decimal number token: one to nine digits.
pub open spec fn spec_num(t: Seq<u8>, pos: int) -> Option<(int, int)> {
    let e = digits_end(t, pos);
    if e > pos && e - pos <= 9 {
        Some((dec_val(t.subrange(pos, e)), e))
    } else {
        None
    }
}

/// One serialized row starting at `pos`.
pub open spec fn spec_row(t: Seq<u8>, pos: int) -> Option<(TransitionRow, int)> {
    match spec_num(t, pos) {
        None => None,
        Some((v1, p1)) => if p1 < t.len() && t[p1] == 32 {
            match spec_num(t, p1 + 1) {
                None => None,
                Some((v2, p2)) => if v2 <= 255 && p2 < t.len() && t[p2] == 32 {
                    match spec_num(t, p2 + 1) {
                        None => None,
                        Some((v3, p3)) => if p3 + 2 < t.len() && t[p3] == 32 && (t[p3 + 1] == 48
                            || t[p3 + 1] == 49) && t[p3 + 2] == 10 {
                            Some(
                                (
                                    TransitionRow {
                                        state: v1 as usize,
                                        byte: v2 as u8,
                                        next: v3 as usize,
                                        is_accept: t[p3 + 1] == 49,
                                    },
                                    p3 + 3,
                                ),
                            )
                        } else {
                            None
                        },
                    }
                } else {
                    None
                },
            }
        } else {
            None
        },
    }
}

/// All rows from `pos` to the end of the text.
pub open spec fn spec_load_from(t: Seq<u8>, pos: int) -> Option<Seq<TransitionRow>>
    decreases t.len() - pos,
{
    if pos == t.len() {
        Some(Seq::<TransitionRow>::empty())
    } else {
        match spec_row(t, pos) {
            None => None,
            Some((row, p)) => if pos < p && p <= t.len() {
                match spec_load_from(t, p) {
                    None => None,
                    Some(rest) => Some(seq![row] + rest),
                }
            } else {
                None
            },
        }
    }
}

/// The table a text denotes, if it is well formed.
pub open spec fn spec_load(t: Seq<u8>) -> Option<Seq<TransitionRow>> {
    spec_load_from(t, 0)
}

proof fn lemma_dec_val_bound(s: Seq<u8>)
    requires
        forall|k: int| 0 <= k < s.len() ==> is_digit(#[trigger] s[k]),
    ensures
        0 <= dec_val(s) < pow10(s.len() as nat),
    decreases s.len(),
{
    if s.len() > 0 {
        assert(forall|k: int| 0 <= k < s.drop_last().len() ==> s.drop_last()[k] == s[k]);
        lemma_dec_val_bound(s.drop_last());
    }
}

fn num_x(t: &Vec<u8>, pos: usize) -> (out: Option<(usize, usize)>)
    requires
        pos <= t@.len(),
    ensures
        match out {
            Some((v, e)) => spec_num(t@, pos as int) == Some((v as int, e as int)) && pos < e
                <= t@.len(),
            None => spec_num(t@, pos as int) is None,
        },
{
    let mut e: usize = pos;
    while e < t.len() && t[e] >= 48 && t[e] <= 57
        invariant
            pos <= e <= t@.len(),
            digits_end(t@, pos as int) == digits_end(t@, e as int),
            forall|k: int| pos <= k < e ==> is_digit(#[trigger] t@[k]),
        decreases t@.len() - e,
    {
        e += 1;
    }
    if e == pos || e - pos > 9 {
        return None;
    }
    let ghost tok = t@.subrange(pos as int, e as int);
    proof {
        assert(forall|k: int| 0 <= k < tok.len() ==> is_digit(#[trigger] tok[k]));
        lemma_dec_val_bound(tok);
        reveal_with_fuel(pow10, 10);
    }
    let mut v: usize = 0;
    let mut m: usize = pos;
    proof {
        assert(t@.subrange(pos as int, pos as int) =~= Seq::<u8>::empty());
    }
    while m < e
        invariant
            pos <= m <= e <= t@.len(),
            e - pos <= 9,
            forall|k: int| pos <= k < e ==> is_digit(#[trigger] t@[k]),
            v == dec_val(t@.subrange(pos as int, m as int)),
            0 <= v < pow10((m - pos) as nat),
            pow10(9) == 1000000000,
            forall|k: nat| k < 9 ==> 10 * #[trigger] pow10(k) == pow10((k + 1) as nat),
        decreases e - m,
    {
        proof {
            assert(t@.subrange(pos as int, m as int + 1).drop_last() =~= t@.subrange(
                pos as int,
                m as int,
            ));
            assert(t@.subrange(pos as int, m as int + 1).last() == t@[m as int]);
            assert(pow10(((m - pos) as nat)) <= pow10(8)) by {
                reveal_with_fuel(pow10, 10);
            }
            assert(pow10(8) == 100000000) by {
                reveal_with_fuel(pow10, 10);
            }
        }
        v = v * 10 + ((t[m] - 48) as usize);
        m += 1;
    }
    Some((v, e))
}

fn row_x(t: &Vec<u8>, pos: usize) -> (out: Option<(TransitionRow, usize)>)
    requires
        pos <= t@.len(),
    ensures
        match out {
            Some((row, p)) => spec_row(t@, pos as int) == Some((row, p as int)) && pos < p
                <= t@.len(),
            None => spec_row(t@, pos as int) is None,
        },
{
    let (v1, p1) = match num_x(t, pos) {
        None => {
            return None;
        },
        Some(x) => x,
    };
    if !(p1 < t.len() && t[p1] == 32) {
        return None;
    }
    let (v2, p2) = match num_x(t, p1 + 1) {
        None => {
            return None;
        },
        Some(x) => x,
    };
    if !(v2 <= 255 && p2 < t.len() && t[p2] == 32) {
        return None;
    }
    let (v3, p3) = match num_x(t, p2 + 1) {
        None => {
            return None;
        },
        Some(x) => x,
    };
    if !(p3 < t.len() && p3 + 1 < t.len() && p3 + 2 < t.len() && t[p3] == 32 && (t[p3 + 1] == 48
        || t[p3 + 1] == 49) && t[p3 + 2] == 10) {
        return None;
    }
    Some(
        (
            TransitionRow { state: v1, byte: v2 as u8, next: v3, is_accept: t[p3 + 1] == 49 },
            p3 + 3,
        ),
    )
}

fn load_from_x(t: &Vec<u8>, pos: usize) -> (out: Option<Vec<TransitionRow>>)
    requires
        pos <= t@.len(),
    ensures
        match out {
            Some(rows) => spec_load_from(t@, pos as int) == Some(rows@),
            None => spec_load_from(t@, pos as int) is None,
        },
    decreases t@.len() - pos,
{
    if pos == t.len() {
        return Some(Vec::new());
    }
    match row_x(t, pos) {
        None => None,
        Some((row, p)) => {
            match load_from_x(t, p) {
                None => None,
                Some(mut rest) => {
                    let ghost rest0 = rest@;
                    rest.insert(0, row);
                    proof {
                        assert(rest@ =~= seq![row] + rest0);
                    }
                    Some(rest)
                },
            }
        },
    }
}

/// Parses transition-table text; fails with `MalformedTable` exactly when
/// the text is not a canonical serialization.
pub fn load_table(text: &Vec<u8>) -> (out: Result<Vec<TransitionRow>, RegexError>)
    ensures
        match out {
            Ok(rows) => spec_load(text@) == Some(rows@),
            Err(e) => e == RegexError::MalformedTable && spec_load(text@) is None,
        },
{
    match load_from_x(text, 0) {
        None => Err(RegexError::MalformedTable),
        Some(rows) => Ok(rows),
    }
}

/// The bytes of the fixed circuit-template header, `template` and a space.
pub open spec fn circom_header() -> Seq<u8> {
    seq![116u8, 101u8, 109u8, 112u8, 108u8, 97u8, 116u8, 101u8, 32u8]
}

/// The bytes of the closing keyword `end`.
pub open spec fn circom_footer() -> Seq<u8> {
    seq![101u8, 110u8, 100u8, 10u8]
}

/// One transition in the circuit-description syntax:
/// `state -byte-> next accept;` on its own line.
pub open spec fn spec_circom_row(r: TransitionRow) -> Seq<u8> {
    dec_of(r.state as nat) + seq![32u8, 45u8] + dec_of(r.byte as nat) + seq![45u8, 62u8, 32u8]
        + dec_of(r.next as nat) + seq![32u8] + seq![if r.is_accept {
        49u8
    } else {
        48u8
    }] + seq![59u8, 10u8]
}

/// All transitions in the circuit-description syntax.
pub open spec fn spec_circom_rows(rows: Seq<TransitionRow>) -> Seq<u8>
    decreases rows.len(),
{
    if rows.len() == 0 {
        Seq::<u8>::empty()
    } else {
        spec_circom_row(rows[0]) + spec_circom_rows(rows.drop_first())
    }
}

/// Rendering one more transition appends one more line.
proof fn lemma_circom_snoc(rows: Seq<TransitionRow>, r: TransitionRow)
    ensures
        spec_circom_rows(rows.push(r)) == spec_circom_rows(rows) + spec_circom_row(r),
    decreases rows.len(),
{
    if rows.len() == 0 {
        assert(rows.push(r)[0] == r);
        assert(rows.push(r).drop_first() =~= Seq::<TransitionRow>::empty());
        assert(spec_circom_rows(Seq::<TransitionRow>::empty()) =~= Seq::<u8>::empty());
        assert(spec_circom_rows(rows.push(r)) == spec_circom_row(r) + spec_circom_rows(
            Seq::<TransitionRow>::empty(),
        ));
        assert(spec_circom_row(r) + Seq::<u8>::empty() =~= spec_circom_row(r));
        assert(spec_circom_rows(rows) + spec_circom_row(r) =~= spec_circom_row(r));
    } else {
        assert(rows.push(r)[0] == rows[0]);
        assert(rows.push(r).drop_first() =~= rows.drop_first().push(r));
        lemma_circom_snoc(rows.drop_first(), r);
        assert(spec_circom_rows(rows.push(r)) == spec_circom_row(rows[0]) + (spec_circom_rows(
            rows.drop_first(),
        ) + spec_circom_row(r)));
        assert(spec_circom_row(rows[0]) + (spec_circom_rows(rows.drop_first())
            + spec_circom_row(r)) =~= (spec_circom_row(rows[0]) + spec_circom_rows(
            rows.drop_first(),
        )) + spec_circom_row(r));
    }
}

fn push_circom_row(out: &mut Vec<u8>, r: TransitionRow)
    ensures
        final(out)@ == old(out)@ + spec_circom_row(r),
{
    push_dec(out, r.state);
    out.push(32u8);
    out.push(45u8);
    push_dec(out, r.byte as usize);
    proof {
        assert(dec_of(r.byte as nat) == dec_of((r.byte as usize) as nat));
    }
    out.push(45u8);
    out.push(62u8);
    out.push(32u8);
    push_dec(out, r.next);
    out.push(32u8);
    if r.is_accept {
        out.push(49u8);
    } else {
        out.push(48u8);
    }
    out.push(59u8);
    out.push(10u8);
    proof {
        assert(out@ =~= old(out)@ + spec_circom_row(r));
    }
}

/// The circuit-description text: a named template over the same transition
/// rows in the second toolchain's arrow syntax, with identical semantics.
pub open spec fn spec_emit_circom(rows: Seq<TransitionRow>, name: Seq<u8>) -> Seq<u8> {
    circom_header() + name + seq![10u8] + spec_circom_rows(rows) + circom_footer()
}

/// Serializes a table as a named circuit-description template carrying the
/// identical transition semantics as the lookup-table text.
pub fn emit_circom(rows: &Vec<TransitionRow>, name: &Vec<u8>) -> (out: Vec<u8>)
    ensures
        out@ == spec_emit_circom(rows@, name@),
{
    let mut out: Vec<u8> = Vec::new();
    out.push(116u8);
    out.push(101u8);
    out.push(109u8);
    out.push(112u8);
    out.push(108u8);
    out.push(97u8);
    out.push(116u8);
    out.push(101u8);
    out.push(32u8);
    proof {
        assert(out@ =~= circom_header());
    }
    extend_bytes(&mut out, name);
    out.push(10u8);
    let ghost head = out@;
    let mut i: usize = 0;
    proof {
        assert(rows@.take(0) =~= Seq::<TransitionRow>::empty());
        assert(out@ =~= head + spec_circom_rows(rows@.take(0)));
    }
    while i < rows.len()
        invariant
            i <= rows@.len(),
            out@ == head + spec_circom_rows(rows@.take(i as int)),
        decreases rows@.len() - i,
    {
        push_circom_row(&mut out, rows[i]);
        proof {
            assert(rows@.take(i as int + 1) =~= rows@.take(i as int).push(rows@[i as int]));
            lemma_circom_snoc(rows@.take(i as int), rows@[i as int]);
            assert(head + spec_circom_rows(rows@.take(i as int)) + spec_circom_row(
                rows@[i as int],
            ) =~= head + spec_circom_rows(rows@.take(i as int + 1)));
        }
        i += 1;
    }
    proof {
        assert(rows@.take(rows@.len() as int) =~= rows@);
    }
    out.push(101u8);
    out.push(110u8);
    out.push(100u8);
    out.push(10u8);
    proof {
        assert(out@ =~= spec_emit_circom(rows@, name@));
    }
    out
}

proof fn lemma_dec_of_digits(n: nat)
    ensures
        dec_of(n).len() >= 1,
        forall|k: int| 0 <= k < dec_of(n).len() ==> is_digit(#[trigger] dec_of(n)[k]),
        n >= 1 ==> dec_of(n)[0] != 48,
        n == 0 ==> dec_of(n) =~= seq![48u8],
    decreases n,
{
    if n >= 10 {
        lemma_dec_of_digits(n / 10);
        assert(dec_of(n) == dec_of(n / 10).push((48 + n % 10) as u8));
        assert(dec_of(n)[0] == dec_of(n / 10)[0]);
    }
}

proof fn lemma_dec_of_len(n: nat, k: nat)
    requires
        k >= 1,
        n < pow10(k),
    ensures
        dec_of(n).len() <= k,
    decreases k,
{
    if n < 10 {
    } else {
        assert(pow10(k) == 10 * pow10((k - 1) as nat));
        assert(pow10((k - 1) as nat) >= 1) by {
            lemma_pow10_pos((k - 1) as nat);
        }
        assert(k >= 2) by {
            if k == 1 {
                assert(pow10(1nat) == 10);
            }
        }
        assert(n / 10 < pow10((k - 1) as nat)) by (nonlinear_arith)
            requires
                n < 10 * pow10((k - 1) as nat),
                n >= 10,
        ;
        lemma_dec_of_len(n / 10, (k - 1) as nat);
    }
}

proof fn lemma_pow10_pos(k: nat)
    ensures
        pow10(k) >= 1,
    decreases k,
{
    if k > 0 {
        lemma_pow10_pos((k - 1) as nat);
    }
}

proof fn lemma_dec_val_of(n: nat)
    ensures
        dec_val(dec_of(n)) == n,
    decreases n,
{
    if n < 10 {
        assert(dec_of(n).drop_last() =~= Seq::<u8>::empty());
        assert(dec_val(Seq::<u8>::empty()) == 0);
        assert(dec_of(n).last() == (48 + n) as u8);
    } else {
        lemma_dec_val_of(n / 10);
        assert(dec_of(n).drop_last() =~= dec_of(n / 10));
        assert(dec_of(n).last() == (48 + n % 10) as u8);
    }
}

proof fn lemma_digits_end_at(t: Seq<u8>, pos: int, e: int)
    requires
        0 <= pos <= e <= t.len(),
        forall|k: int| pos <= k < e ==> is_digit(#[trigger] t[k]),
        e == t.len() || !is_digit(t[e]),
    ensures
        digits_end(t, pos) == e,
    decreases e - pos,
{
    if pos < e {
        lemma_digits_end_at(t, pos + 1, e);
    }
}

proof fn lemma_num_at(t: Seq<u8>, pos: int, n: nat)
    requires
        0 <= pos,
        n < 1000000000,
        pos + dec_of(n).len() < t.len(),
        t.subrange(pos, pos + dec_of(n).len()) == dec_of(n),
        !is_digit(t[pos + dec_of(n).len()]),
    ensures
        spec_num(t, pos) == Some((n as int, pos + dec_of(n).len())),
{
    let d = dec_of(n);
    lemma_dec_of_digits(n);
    assert forall|k: int| pos <= k < pos + d.len() implies is_digit(#[trigger] t[k]) by {
        assert(t.subrange(pos, pos + d.len())[k - pos] == t[k]);
    }
    lemma_digits_end_at(t, pos, pos + d.len());
    assert(pow10(9) == 1000000000) by {
        reveal_with_fuel(pow10, 10);
    }
    lemma_dec_of_len(n, 9);
    lemma_dec_val_of(n);
    assert(t.subrange(pos, pos + d.len()) == d);
}

proof fn lemma_row_at(t: Seq<u8>, pos: int, r: TransitionRow)
    requires
        0 <= pos,
        pos + spec_emit_row(r).len() <= t.len(),
        t.subrange(pos, pos + spec_emit_row(r).len()) == spec_emit_row(r),
        r.state < 1000000000,
        r.next < 1000000000,
    ensures
        spec_row(t, pos) == Some((r, pos + spec_emit_row(r).len())),
        spec_emit_row(r).len() >= 1,
{
    let line = spec_emit_row(r);
    let d1 = dec_of(r.state as nat);
    let d2 = dec_of(r.byte as nat);
    let d3 = dec_of(r.next as nat);
    let acc: u8 = if r.is_accept {
        49u8
    } else {
        48u8
    };
    let l1 = d1.len() as int;
    let l2 = d2.len() as int;
    let l3 = d3.len() as int;
    lemma_dec_of_digits(r.state as nat);
    lemma_dec_of_digits(r.byte as nat);
    lemma_dec_of_digits(r.next as nat);
    let c1 = d1 + seq![32u8];
    let c2 = c1 + d2;
    let c3 = c2 + seq![32u8];
    let c4 = c3 + d3;
    let c5 = c4 + seq![32u8];
    let c6 = c5 + seq![acc];
    let cc = c6 + seq![10u8];
    assert(line == cc);
    assert(line.len() == l1 + l2 + l3 + 5);
    assert forall|k: int| 0 <= k < line.len() implies t[pos + k] == line[k] by {
        assert(t.subrange(pos, pos + line.len())[k] == t[pos + k]);
    }
    // region of the first number, then its separator
    assert forall|k: int| 0 <= k < l1 implies line[k] == d1[k] by {
        assert(c1[k] == d1[k]);
        assert(c2[k] == c1[k]);
        assert(c3[k] == c2[k]);
        assert(c4[k] == c3[k]);
        assert(c5[k] == c4[k]);
        assert(c6[k] == c5[k]);
        assert(cc[k] == c6[k]);
    }
    assert(line[l1] == 32) by {
        assert(c1[l1] == 32);
        assert(c2[l1] == c1[l1]);
        assert(c3[l1] == c2[l1]);
        assert(c4[l1] == c3[l1]);
        assert(c5[l1] == c4[l1]);
        assert(c6[l1] == c5[l1]);
        assert(cc[l1] == c6[l1]);
    }
    // region of the second number, then its separator
    assert forall|k: int| 0 <= k < l2 implies line[l1 + 1 + k] == d2[k] by {
        assert(c2[l1 + 1 + k] == d2[k]);
        assert(c3[l1 + 1 + k] == c2[l1 + 1 + k]);
        assert(c4[l1 + 1 + k] == c3[l1 + 1 + k]);
        assert(c5[l1 + 1 + k] == c4[l1 + 1 + k]);
        assert(c6[l1 + 1 + k] == c5[l1 + 1 + k]);
        assert(cc[l1 + 1 + k] == c6[l1 + 1 + k]);
    }
    assert(line[l1 + 1 + l2] == 32) by {
        assert(c3[l1 + 1 + l2] == 32);
        assert(c4[l1 + 1 + l2] == c3[l1 + 1 + l2]);
        assert(c5[l1 + 1 + l2] == c4[l1 + 1 + l2]);
        assert(c6[l1 + 1 + l2] == c5[l1 + 1 + l2]);
        assert(cc[l1 + 1 + l2] == c6[l1 + 1 + l2]);
    }
    // region of the third number, then separator, accept flag, newline
    assert forall|k: int| 0 <= k < l3 implies line[l1 + l2 + 2 + k] == d3[k] by {
        assert(c4[l1 + l2 + 2 + k] == d3[k]);
        assert(c5[l1 + l2 + 2 + k] == c4[l1 + l2 + 2 + k]);
        assert(c6[l1 + l2 + 2 + k] == c5[l1 + l2 + 2 + k]);
        assert(cc[l1 + l2 + 2 + k] == c6[l1 + l2 + 2 + k]);
    }
    assert(line[l1 + l2 + l3 + 2] == 32) by {
        assert(c5[l1 + l2 + l3 + 2] == 32);
        assert(c6[l1 + l2 + l3 + 2] == c5[l1 + l2 + l3 + 2]);
        assert(cc[l1 + l2 + l3 + 2] == c6[l1 + l2 + l3 + 2]);
    }
    assert(line[l1 + l2 + l3 + 3] == acc) by {
        assert(c6[l1 + l2 + l3 + 3] == acc);
        assert(cc[l1 + l2 + l3 + 3] == c6[l1 + l2 + l3 + 3]);
    }
    assert(line[l1 + l2 + l3 + 4] == 10) by {
        assert(cc[l1 + l2 + l3 + 4] == 10);
    }
    // the three tokens parse in place
    assert(t.subrange(pos, pos + l1) =~= d1);
    assert(t[pos + l1] == 32);
    lemma_num_at(t, pos, r.state as nat);
    let q1 = pos + l1 + 1;
    assert(t.subrange(q1, q1 + l2) =~= d2);
    assert(t[q1 + l2] == 32);
    lemma_num_at(t, q1, r.byte as nat);
    let q2 = q1 + l2 + 1;
    assert(t.subrange(q2, q2 + l3) =~= d3);
    assert(t[q2 + l3] == 32);
    lemma_num_at(t, q2, r.next as nat);
    let q3 = q2 + l3;
    assert(t[q3 + 1] == acc);
    assert(t[q3 + 2] == 10);
    assert(spec_num(t, pos) == Some((r.state as int, pos + l1)));
    assert(spec_num(t, pos + l1 + 1) == Some((r.byte as int, q1 + l2)));
    assert(spec_num(t, q2) == Some((r.next as int, q2 + l3)));
    assert((t[q3 + 1] == 49) == r.is_accept);
}

proof fn lemma_load_emit_from(t: Seq<u8>, pos: int, rows: Seq<TransitionRow>)
    requires
        0 <= pos <= t.len(),
        t.subrange(pos, t.len() as int) == spec_emit(rows),
        forall|k: int| 0 <= k < rows.len() ==> (#[trigger] rows[k]).state < 1000000000
            && rows[k].next < 1000000000,
    ensures
        spec_load_from(t, pos) == Some(rows),
    decreases rows.len(),
{
    if rows.len() == 0 {
        assert(t.subrange(pos, t.len() as int).len() == 0);
        assert(pos == t.len());
    } else {
        let line = spec_emit_row(rows[0]);
        let rest = spec_emit(rows.drop_first());
        assert(spec_emit(rows) == line + rest);
        assert(pos + line.len() <= t.len());
        assert(t.subrange(pos, pos + line.len()) =~= line) by {
            assert forall|k: int| 0 <= k < line.len() implies t.subrange(
                pos,
                pos + line.len(),
            )[k] == line[k] by {
                assert(t.subrange(pos, t.len() as int)[k] == t[pos + k]);
                assert((line + rest)[k] == line[k]);
                assert(t.subrange(pos, pos + line.len())[k] == t[pos + k]);
            }
        }
        lemma_row_at(t, pos, rows[0]);
        assert(t.subrange(pos + line.len(), t.len() as int) =~= rest) by {
            assert forall|k: int| 0 <= k < rest.len() implies t.subrange(
                pos + line.len(),
                t.len() as int,
            )[k] == rest[k] by {
                assert(t.subrange(pos, t.len() as int)[line.len() + k] == t[pos + line.len()
                    + k]);
                assert((line + rest)[line.len() + k] == rest[k]);
            }
        }
        assert(forall|k: int| 0 <= k < rows.drop_first().len()
            ==> rows.drop_first()[k] == rows[k + 1]);
        lemma_load_emit_from(t, pos + line.len(), rows.drop_first());
        assert(seq![rows[0]] + rows.drop_first() =~= rows);
    }
}

/// Serialization is lossless: loading an emitted table gives back exactly
/// the same rows, for any table whose state numbers fit the canonical
/// nine-digit form.
pub proof fn lemma_emit_load_round_trip(rows: Seq<TransitionRow>)
    requires
        forall|k: int| 0 <= k < rows.len() ==> (#[trigger] rows[k]).state < 1000000000
            && rows[k].next < 1000000000,
    ensures
        spec_load(spec_emit(rows)) == Some(rows),
{
    let t = spec_emit(rows);
    assert(t.subrange(0, t.len() as int) =~= t);
    lemma_load_emit_from(t, 0, rows);
}

} // verus!
