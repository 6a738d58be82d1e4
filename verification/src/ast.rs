//! Byte-level regular expressions: the abstract syntax, the language each
//! expression denotes, and Brzozowski derivatives, which drive the
//! deterministic automaton construction.

use vstd::prelude::*;

verus! {

/// A regular expression over the full byte alphabet 0..=255.
///
/// `Range(lo, hi)` matches exactly one byte `b` with `lo <= b <= hi`;
/// a single literal byte `c` is `Range(c, c)`.
pub enum Regex {
    /// Rejects every string.
    Empty,
    /// Accepts exactly the empty string.
    Eps,
    /// Accepts exactly one byte inside the closed range.
    Range(u8, u8),
    Concat(Box<Regex>, Box<Regex>),
    Alt(Box<Regex>, Box<Regex>),
    Star(Box<Regex>),
}

/// The language of a regular expression: whether `s` is accepted by `r`.
///
/// A `Star` decomposition always peels a nonempty first chunk, which is
/// equivalent to the usual Kleene star and keeps the definition well founded.
pub open spec fn in_lang(r: Regex, s: Seq<u8>) -> bool
    decreases s.len(), r,
{
    match r {
        Regex::Empty => false,
        Regex::Eps => s.len() == 0,
        Regex::Range(lo, hi) => s.len() == 1 && lo <= s[0] && s[0] <= hi,
        Regex::Concat(a, b) => exists|i: int|
            #![trigger s.take(i)]
            0 <= i <= s.len() && in_lang(*a, s.take(i)) && in_lang(*b, s.skip(i)),
        Regex::Alt(a, b) => in_lang(*a, s) || in_lang(*b, s),
        Regex::Star(a) => s.len() == 0 || exists|i: int|
            #![trigger s.take(i)]
            1 <= i <= s.len() && in_lang(*a, s.take(i)) && in_lang(Regex::Star(a), s.skip(i)),
    }
}

/// Whether `r` accepts the empty string, computed structurally.
pub open spec fn nullable(r: Regex) -> bool
    decreases r,
{
    match r {
        Regex::Empty => false,
        Regex::Eps => true,
        Regex::Range(lo, hi) => false,
        Regex::Concat(a, b) => nullable(*a) && nullable(*b),
        Regex::Alt(a, b) => nullable(*a) || nullable(*b),
        Regex::Star(a) => true,
    }
}

/// Whether `y` already occurs as a leaf of the alternation tree `x`.
pub open spec fn alt_member(x: Regex, y: Regex) -> bool
    decreases x,
{
    if x == y {
        true
    } else {
        match x {
            Regex::Alt(a, b) => alt_member(*a, y) || alt_member(*b, y),
            _ => false,
        }
    }
}

/// Alternation with the rejecting expression as a unit and duplicate
/// branches absorbed, so derivatives stay in a small normal form.
pub open spec fn mk_alt(x: Regex, y: Regex) -> Regex {
    if x == Regex::Empty {
        y
    } else if y == Regex::Empty {
        x
    } else if alt_member(x, y) {
        x
    } else {
        Regex::Alt(Box::new(x), Box::new(y))
    }
}

/// A branch of an alternation tree accepts no more than the whole tree.
pub proof fn lemma_alt_member(x: Regex, y: Regex, s: Seq<u8>)
    requires
        alt_member(x, y),
    ensures
        in_lang(y, s) ==> in_lang(x, s),
    decreases x,
{
    if x != y {
        match x {
            Regex::Alt(a, b) => {
                if alt_member(*a, y) {
                    lemma_alt_member(*a, y, s);
                } else {
                    lemma_alt_member(*b, y, s);
                }
            },
            _ => {},
        }
    }
}

/// Concatenation with `Empty` absorbing and `Eps` as a unit.
pub open spec fn mk_concat(x: Regex, y: Regex) -> Regex {
    if x == Regex::Empty || y == Regex::Empty {
        Regex::Empty
    } else if x == Regex::Eps {
        y
    } else if y == Regex::Eps {
        x
    } else {
        Regex::Concat(Box::new(x), Box::new(y))
    }
}

/// The Brzozowski derivative: the residual language of `r` after reading `b`.
pub open spec fn deriv(r: Regex, b: u8) -> Regex
    decreases r,
{
    match r {
        Regex::Empty => Regex::Empty,
        Regex::Eps => Regex::Empty,
        Regex::Range(lo, hi) => if lo <= b && b <= hi {
            Regex::Eps
        } else {
            Regex::Empty
        },
        Regex::Concat(a, c) => if nullable(*a) {
            mk_alt(mk_concat(deriv(*a, b), *c), deriv(*c, b))
        } else {
            mk_concat(deriv(*a, b), *c)
        },
        Regex::Alt(a, c) => mk_alt(deriv(*a, b), deriv(*c, b)),
        Regex::Star(a) => mk_concat(deriv(*a, b), Regex::Star(a)),
    }
}

/// `nullable` agrees with membership of the empty string.
pub proof fn lemma_nullable_iff(r: Regex)
    ensures
        nullable(r) <==> in_lang(r, Seq::<u8>::empty()),
    decreases r,
{
    let e = Seq::<u8>::empty();
    match r {
        Regex::Empty => {},
        Regex::Eps => {},
        Regex::Range(lo, hi) => {},
        Regex::Concat(a, b) => {
            lemma_nullable_iff(*a);
            lemma_nullable_iff(*b);
            assert(e.take(0) =~= e);
            assert(e.skip(0) =~= e);
            if nullable(r) {
                assert(in_lang(*a, e.take(0)) && in_lang(*b, e.skip(0)));
            }
            if in_lang(r, e) {
                let i = choose|i: int|
                    #![trigger e.take(i)]
                    0 <= i <= e.len() && in_lang(*a, e.take(i)) && in_lang(*b, e.skip(i));
                assert(i == 0);
            }
        },
        Regex::Alt(a, b) => {
            lemma_nullable_iff(*a);
            lemma_nullable_iff(*b);
        },
        Regex::Star(a) => {},
    }
}

/// Splitting a string with one byte prepended, at a positive index.
proof fn lemma_cons_split(b: u8, s: Seq<u8>, i: int)
    requires
        1 <= i <= s.len() + 1,
    ensures
        (seq![b] + s).take(i) == seq![b] + s.take(i - 1),
        (seq![b] + s).skip(i) == s.skip(i - 1),
{
    assert((seq![b] + s).take(i) =~= seq![b] + s.take(i - 1));
    assert((seq![b] + s).skip(i) =~= s.skip(i - 1));
}

/// `mk_alt` denotes the union of the two languages.
pub proof fn lemma_mk_alt(x: Regex, y: Regex, s: Seq<u8>)
    ensures
        in_lang(mk_alt(x, y), s) <==> (in_lang(x, s) || in_lang(y, s)),
{
    if x != Regex::Empty && y != Regex::Empty && alt_member(x, y) {
        lemma_alt_member(x, y, s);
    }
}

/// `mk_concat` denotes the concatenation of the two languages.
pub proof fn lemma_mk_concat(x: Regex, y: Regex, s: Seq<u8>)
    ensures
        in_lang(mk_concat(x, y), s) <==> exists|i: int|
            #![trigger s.take(i)]
            0 <= i <= s.len() && in_lang(x, s.take(i)) && in_lang(y, s.skip(i)),
{
    let n = s.len() as int;
    if x == Regex::Empty || y == Regex::Empty {
        assert(forall|i: int| 0 <= i <= n ==> !in_lang(x, #[trigger] s.take(i)) || !in_lang(
            y,
            s.skip(i),
        ));
    } else if x == Regex::Eps {
        if in_lang(y, s) {
            assert(s.take(0) =~= Seq::<u8>::empty());
            assert(s.skip(0) =~= s);
            assert(in_lang(x, s.take(0)) && in_lang(y, s.skip(0)));
        }
        if exists|i: int|
            #![trigger s.take(i)]
            0 <= i <= s.len() && in_lang(x, s.take(i)) && in_lang(y, s.skip(i)) {
            let i = choose|i: int|
                #![trigger s.take(i)]
                0 <= i <= s.len() && in_lang(x, s.take(i)) && in_lang(y, s.skip(i));
            assert(s.take(i).len() == 0);
            assert(i == 0);
            assert(s.skip(0) =~= s);
        }
    } else if y == Regex::Eps {
        if in_lang(x, s) {
            assert(s.take(n) =~= s);
            assert(s.skip(n) =~= Seq::<u8>::empty());
            assert(in_lang(x, s.take(n)) && in_lang(y, s.skip(n)));
        }
        if exists|i: int|
            #![trigger s.take(i)]
            0 <= i <= s.len() && in_lang(x, s.take(i)) && in_lang(y, s.skip(i)) {
            let i = choose|i: int|
                #![trigger s.take(i)]
                0 <= i <= s.len() && in_lang(x, s.take(i)) && in_lang(y, s.skip(i));
            assert(s.skip(i).len() == 0);
            assert(i == n);
            assert(s.take(n) =~= s);
        }
    } else {
        let m = mk_concat(x, y);
        assert(m == Regex::Concat(Box::new(x), Box::new(y)));
        assert(in_lang(m, s) == exists|i: int|
            #![trigger s.take(i)]
            0 <= i <= s.len() && in_lang(x, s.take(i)) && in_lang(y, s.skip(i)));
    }
}

/// The fundamental derivative property: `r` accepts `b` followed by `s`
/// exactly when the derivative of `r` by `b` accepts `s`.
pub proof fn lemma_deriv(r: Regex, b: u8, s: Seq<u8>)
    ensures
        in_lang(deriv(r, b), s) <==> in_lang(r, seq![b] + s),
    decreases r,
{
    let c = seq![b] + s;
    assert(c.len() == s.len() + 1);
    assert(c[0] == b);
    match r {
        Regex::Empty => {
            assert(!in_lang(r, c));
        },
        Regex::Eps => {
            assert(!in_lang(r, c));
        },
        Regex::Range(lo, hi) => {
            if lo <= b && b <= hi {
                assert(in_lang(deriv(r, b), s) <==> s.len() == 0);
                if s.len() == 0 {
                    assert(c.len() == 1 && lo <= c[0] <= hi);
                }
            } else {
                if in_lang(r, c) {
                    assert(c.len() == 1 && lo <= c[0] <= hi);
                    assert(false);
                }
            }
        },
        Regex::Concat(a, y) => {
            let d1 = deriv(*a, b);
            let d2 = deriv(*y, b);
            lemma_nullable_iff(*a);
            if nullable(*a) {
                lemma_mk_alt(mk_concat(d1, *y), d2, s);
            }
            lemma_mk_concat(d1, *y, s);
            // forward: derivative acceptance gives acceptance of b + s
            if in_lang(deriv(r, b), s) {
                if nullable(*a) && in_lang(d2, s) {
                    lemma_deriv(*y, b, s);
                    assert(c.take(0) =~= Seq::<u8>::empty());
                    assert(c.skip(0) =~= c);
                    assert(in_lang(*a, c.take(0)) && in_lang(*y, c.skip(0)));
                } else {
                    assert(in_lang(mk_concat(d1, *y), s));
                    let i = choose|i: int|
                        #![trigger s.take(i)]
                        0 <= i <= s.len() && in_lang(d1, s.take(i)) && in_lang(*y, s.skip(i));
                    lemma_deriv(*a, b, s.take(i));
                    lemma_cons_split(b, s, i + 1);
                    assert(in_lang(*a, c.take(i + 1)) && in_lang(*y, c.skip(i + 1)));
                }
                assert(in_lang(r, c));
            }
            // backward
            if in_lang(r, c) {
                let i = choose|i: int|
                    #![trigger c.take(i)]
                    0 <= i <= c.len() && in_lang(*a, c.take(i)) && in_lang(*y, c.skip(i));
                if i == 0 {
                    assert(c.take(0) =~= Seq::<u8>::empty());
                    assert(c.skip(0) =~= c);
                    assert(nullable(*a));
                    lemma_deriv(*y, b, s);
                    assert(in_lang(d2, s));
                } else {
                    lemma_cons_split(b, s, i);
                    assert(c.take(i) == seq![b] + s.take(i - 1));
                    lemma_deriv(*a, b, s.take(i - 1));
                    assert(in_lang(d1, s.take(i - 1)));
                    assert(in_lang(*y, s.skip(i - 1)));
                    assert(in_lang(mk_concat(d1, *y), s));
                }
                assert(in_lang(deriv(r, b), s));
            }
        },
        Regex::Alt(a, y) => {
            lemma_mk_alt(deriv(*a, b), deriv(*y, b), s);
            lemma_deriv(*a, b, s);
            lemma_deriv(*y, b, s);
        },
        Regex::Star(a) => {
            let d1 = deriv(*a, b);
            let star = Regex::Star(a);
            lemma_mk_concat(d1, star, s);
            if in_lang(deriv(r, b), s) {
                let i = choose|i: int|
                    #![trigger s.take(i)]
                    0 <= i <= s.len() && in_lang(d1, s.take(i)) && in_lang(star, s.skip(i));
                lemma_deriv(*a, b, s.take(i));
                lemma_cons_split(b, s, i + 1);
                assert(in_lang(*a, c.take(i + 1)) && in_lang(star, c.skip(i + 1)));
                assert(1 <= i + 1 <= c.len());
                assert(in_lang(r, c));
            }
            if in_lang(r, c) {
                let j = choose|j: int|
                    #![trigger c.take(j)]
                    1 <= j <= c.len() && in_lang(*a, c.take(j)) && in_lang(star, c.skip(j));
                lemma_cons_split(b, s, j);
                assert(c.take(j) == seq![b] + s.take(j - 1));
                lemma_deriv(*a, b, s.take(j - 1));
                assert(in_lang(d1, s.take(j - 1)));
                assert(in_lang(star, s.skip(j - 1)));
                assert(in_lang(deriv(r, b), s));
            }
        },
    }
}

/// The residual of `r` after reading a whole byte string.
pub open spec fn deriv_word(r: Regex, x: Seq<u8>) -> Regex
    decreases x.len(),
{
    if x.len() == 0 {
        r
    } else {
        deriv_word(deriv(r, x[0]), x.drop_first())
    }
}

/// Reading one more byte takes one more derivative.
pub proof fn lemma_deriv_word_snoc(r: Regex, x: Seq<u8>, b: u8)
    ensures
        deriv_word(r, x.push(b)) == deriv(deriv_word(r, x), b),
    decreases x.len(),
{
    if x.len() == 0 {
        assert(x.push(b)[0] == b);
        assert(x.push(b).drop_first() =~= Seq::<u8>::empty());
        assert(deriv_word(deriv(r, b), Seq::<u8>::empty()) == deriv(r, b));
        assert(deriv_word(r, x) == r);
    } else {
        assert(x.push(b)[0] == x[0]);
        assert(x.push(b).drop_first() =~= x.drop_first().push(b));
        lemma_deriv_word_snoc(deriv(r, x[0]), x.drop_first(), b);
    }
}

/// The word derivative carries the fundamental property to whole strings.
pub proof fn lemma_deriv_word_lang(r: Regex, x: Seq<u8>, s: Seq<u8>)
    ensures
        in_lang(deriv_word(r, x), s) <==> in_lang(r, x + s),
    decreases x.len(),
{
    if x.len() == 0 {
        assert(x + s =~= s);
    } else {
        lemma_deriv_word_lang(deriv(r, x[0]), x.drop_first(), s);
        lemma_deriv(r, x[0], x.drop_first() + s);
        assert(x + s =~= seq![x[0]] + (x.drop_first() + s));
    }
}

/// A string is accepted exactly when its whole-word residual is nullable.
pub proof fn lemma_deriv_word_accept(r: Regex, x: Seq<u8>)
    ensures
        in_lang(r, x) <==> nullable(deriv_word(r, x)),
{
    lemma_deriv_word_lang(r, x, Seq::<u8>::empty());
    lemma_nullable_iff(deriv_word(r, x));
    assert(x + Seq::<u8>::empty() =~= x);
}

/// Structural copy of a regular expression.
pub fn regex_clone(r: &Regex) -> (out: Regex)
    ensures
        out == *r,
    decreases *r,
{
    match r {
        Regex::Empty => Regex::Empty,
        Regex::Eps => Regex::Eps,
        Regex::Range(lo, hi) => Regex::Range(*lo, *hi),
        Regex::Concat(a, b) => Regex::Concat(Box::new(regex_clone(a)), Box::new(regex_clone(b))),
        Regex::Alt(a, b) => Regex::Alt(Box::new(regex_clone(a)), Box::new(regex_clone(b))),
        Regex::Star(a) => Regex::Star(Box::new(regex_clone(a))),
    }
}

/// Structural equality test.
pub fn regex_eq(x: &Regex, y: &Regex) -> (out: bool)
    ensures
        out == (*x == *y),
    decreases *x,
{
    match (x, y) {
        (Regex::Empty, Regex::Empty) => true,
        (Regex::Eps, Regex::Eps) => true,
        (Regex::Range(a, b), Regex::Range(c, d)) => *a == *c && *b == *d,
        (Regex::Concat(a, b), Regex::Concat(c, d)) => regex_eq(a, c) && regex_eq(b, d),
        (Regex::Alt(a, b), Regex::Alt(c, d)) => regex_eq(a, c) && regex_eq(b, d),
        (Regex::Star(a), Regex::Star(c)) => regex_eq(a, c),
        _ => false,
    }
}

/// Executable nullability test.
pub fn nullable_x(r: &Regex) -> (out: bool)
    ensures
        out == nullable(*r),
    decreases *r,
{
    match r {
        Regex::Empty => false,
        Regex::Eps => true,
        Regex::Range(lo, hi) => false,
        Regex::Concat(a, b) => nullable_x(a) && nullable_x(b),
        Regex::Alt(a, b) => nullable_x(a) || nullable_x(b),
        Regex::Star(a) => true,
    }
}

fn alt_member_x(x: &Regex, y: &Regex) -> (out: bool)
    ensures
        out == alt_member(*x, *y),
    decreases *x,
{
    if regex_eq(x, y) {
        true
    } else {
        match x {
            Regex::Alt(a, b) => alt_member_x(a, y) || alt_member_x(b, y),
            _ => false,
        }
    }
}

pub fn mk_alt_x(x: Regex, y: Regex) -> (out: Regex)
    ensures
        out == mk_alt(x, y),
{
    if matches!(x, Regex::Empty) {
        y
    } else if matches!(y, Regex::Empty) {
        x
    } else if alt_member_x(&x, &y) {
        x
    } else {
        Regex::Alt(Box::new(x), Box::new(y))
    }
}

pub fn mk_concat_x(x: Regex, y: Regex) -> (out: Regex)
    ensures
        out == mk_concat(x, y),
{
    if matches!(x, Regex::Empty) || matches!(y, Regex::Empty) {
        Regex::Empty
    } else if matches!(x, Regex::Eps) {
        y
    } else if matches!(y, Regex::Eps) {
        x
    } else {
        Regex::Concat(Box::new(x), Box::new(y))
    }
}

/// Executable derivative, in the same normal form as the specification.
pub fn deriv_x(r: &Regex, b: u8) -> (out: Regex)
    ensures
        out == deriv(*r, b),
    decreases *r,
{
    match r {
        Regex::Empty => Regex::Empty,
        Regex::Eps => Regex::Empty,
        Regex::Range(lo, hi) => if *lo <= b && b <= *hi {
            Regex::Eps
        } else {
            Regex::Empty
        },
        Regex::Concat(a, c) => {
            let da = deriv_x(a, b);
            if nullable_x(a) {
                let dc = deriv_x(c, b);
                mk_alt_x(mk_concat_x(da, regex_clone(c)), dc)
            } else {
                mk_concat_x(da, regex_clone(c))
            }
        },
        Regex::Alt(a, c) => mk_alt_x(deriv_x(a, b), deriv_x(c, b)),
        Regex::Star(a) => {
            let da = deriv_x(a, b);
            mk_concat_x(da, Regex::Star(Box::new(regex_clone(a))))
        },
    }
}

} // verus!
