//! A recursive-descent parser for the supported regex grammar, over bytes.
//!
//! Grammar: alternation `|`, grouping `(..)`, character classes `[a-z0-9]`
//! (ranges and single bytes, no negation), `.` for any byte, the postfix
//! operators `*`, `+`, `?`, escapes `\n`, `\r`, `\t` and `\c` for any
//! non-alphanumeric byte `c`. Constructs with no finite-automaton
//! equivalent (backreferences, lookaround) are rejected, as is anything
//! outside this grammar.

use vstd::prelude::*;

use crate::ast::{mk_alt, mk_concat, Regex};
use crate::errors::RegexError;

verus! {

/// ASCII byte values of the grammar's metacharacters.
pub const B_LPAREN: u8 = 40;
pub const B_RPAREN: u8 = 41;
pub const B_STAR: u8 = 42;
pub const B_PLUS: u8 = 43;
pub const B_DASH: u8 = 45;
pub const B_DOT: u8 = 46;
pub const B_QMARK: u8 = 63;
pub const B_LBRACK: u8 = 91;
pub const B_BSLASH: u8 = 92;
pub const B_RBRACK: u8 = 93;
pub const B_CARET: u8 = 94;
pub const B_DOLLAR: u8 = 36;
pub const B_LBRACE: u8 = 123;
pub const B_PIPE: u8 = 124;
pub const B_RBRACE: u8 = 125;


pub open spec fn is_alnum(b: u8) -> bool {
    (48u8 <= b && b <= 57u8) || (97u8 <= b && b <= 122u8) || (65u8 <= b && b <= 90u8)
}

/// The byte an escape sequence stands for, if the escape is supported.
pub open spec fn esc_val(e: u8) -> Option<u8> {
    if e == 110u8 {
        Some(10u8)
    } else if e == 114u8 {
        Some(13u8)
    } else if e == 116u8 {
        Some(9u8)
    } else if is_alnum(e) {
        None
    } else {
        Some(e)
    }
}

/// One byte inside a character class, possibly escaped.
pub open spec fn sp_cbyte(s: Seq<u8>, i: int) -> Option<(u8, int)> {
    if i < 0 || i >= s.len() {
        None
    } else if s[i] == B_RBRACK {
        None
    } else if s[i] == B_BSLASH {
        if i + 1 < s.len() {
            match esc_val(s[i + 1]) {
                Some(v) => Some((v, i + 2)),
                None => None,
            }
        } else {
            None
        }
    } else {
        Some((s[i], i + 1))
    }
}

/// One class item: a single byte or a `lo-hi` range.
pub open spec fn sp_class_item(s: Seq<u8>, i: int) -> Option<(Regex, int)> {
    match sp_cbyte(s, i) {
        None => None,
        Some((lo, j)) => if j + 1 < s.len() && s[j] == B_DASH && s[j + 1] != B_RBRACK {
            match sp_cbyte(s, j + 1) {
                None => None,
                Some((hi, k)) => if lo <= hi {
                    Some((Regex::Range(lo, hi), k))
                } else {
                    None
                },
            }
        } else {
            Some((Regex::Range(lo, lo), j))
        },
    }
}

/// One or more class items followed by the closing bracket.
pub open spec fn sp_class_items(s: Seq<u8>, i: int) -> Option<(Regex, int)>
    decreases s.len() - i,
{
    match sp_class_item(s, i) {
        None => None,
        Some((r, j)) => if j < s.len() && s[j] == B_RBRACK {
            Some((r, j + 1))
        } else if i < j && j <= s.len() {
            match sp_class_items(s, j) {
                None => None,
                Some((r2, k)) => Some((mk_alt(r, r2), k)),
            }
        } else {
            None
        },
    }
}

/// An atom: a group, a class, `.`, an escape, or a literal byte.
pub open spec fn sp_atom(s: Seq<u8>, i: int) -> Option<(Regex, int)>
    decreases s.len() - i, 0int,
{
    if i < 0 || i >= s.len() {
        None
    } else {
        let c = s[i];
        if c == B_LPAREN {
            if i + 1 < s.len() && s[i + 1] == B_QMARK {
                None
            } else {
                match sp_alt(s, i + 1) {
                    None => None,
                    Some((r, j)) => if j < s.len() && s[j] == B_RPAREN {
                        Some((r, j + 1))
                    } else {
                        None
                    },
                }
            }
        } else if c == B_LBRACK {
            if i + 1 < s.len() && s[i + 1] == B_CARET {
                None
            } else {
                sp_class_items(s, i + 1)
            }
        } else if c == B_DOT {
            Some((Regex::Range(0u8, 255u8), i + 1))
        } else if c == B_BSLASH {
            if i + 1 < s.len() {
                match esc_val(s[i + 1]) {
                    Some(v) => Some((Regex::Range(v, v), i + 2)),
                    None => None,
                }
            } else {
                None
            }
        } else if c == B_RPAREN || c == B_PIPE || c == B_STAR || c == B_PLUS || c == B_QMARK || c == B_RBRACK
            || c == B_CARET || c == B_DOLLAR || c == B_LBRACE || c == B_RBRACE {
            None
        } else {
            Some((Regex::Range(c, c), i + 1))
        }
    }
}

/// Postfix operators applied to an atom.
pub open spec fn sp_postfix(s: Seq<u8>, j: int, r: Regex) -> Option<(Regex, int)>
    decreases s.len() - j,
{
    if 0 <= j && j < s.len() && s[j] == B_STAR {
        sp_postfix(s, j + 1, Regex::Star(Box::new(r)))
    } else if 0 <= j && j < s.len() && s[j] == B_PLUS {
        sp_postfix(s, j + 1, mk_concat(r, Regex::Star(Box::new(r))))
    } else if 0 <= j && j < s.len() && s[j] == B_QMARK {
        sp_postfix(s, j + 1, mk_alt(r, Regex::Eps))
    } else {
        Some((r, j))
    }
}

/// An atom with its postfix operators.
pub open spec fn sp_repeat(s: Seq<u8>, i: int) -> Option<(Regex, int)>
    decreases s.len() - i, 1int,
{
    match sp_atom(s, i) {
        None => None,
        Some((r, j)) => sp_postfix(s, j, r),
    }
}

/// A possibly empty sequence of repeats.
pub open spec fn sp_concat(s: Seq<u8>, i: int) -> Option<(Regex, int)>
    decreases s.len() - i, 2int,
{
    match sp_repeat(s, i) {
        None => Some((Regex::Eps, i)),
        Some((r, j)) => if i < j && j <= s.len() {
            match sp_concat(s, j) {
                None => None,
                Some((r2, k)) => Some((mk_concat(r, r2), k)),
            }
        } else {
            Some((r, j))
        },
    }
}

/// Alternation: concats separated by `|`.
pub open spec fn sp_alt(s: Seq<u8>, i: int) -> Option<(Regex, int)>
    decreases s.len() - i, 3int,
{
    match sp_concat(s, i) {
        None => None,
        Some((r, j)) => if i <= j && j < s.len() && s[j] == B_PIPE {
            match sp_alt(s, j + 1) {
                None => None,
                Some((r2, k)) => Some((mk_alt(r, r2), k)),
            }
        } else {
            Some((r, j))
        },
    }
}

/// The whole pattern must be consumed.
pub open spec fn spec_parse(s: Seq<u8>) -> Option<Regex> {
    match sp_alt(s, 0) {
        None => None,
        Some((r, j)) => if j == s.len() {
            Some(r)
        } else {
            None
        },
    }
}

fn cbyte_x(s: &Vec<u8>, i: usize) -> (out: Option<(u8, usize)>)
    ensures
        match out {
            Some((v, j)) => sp_cbyte(s@, i as int) == Some((v, j as int)) && i < j <= s@.len(),
            None => sp_cbyte(s@, i as int) is None,
        },
{
    if i >= s.len() {
        None
    } else if s[i] == B_RBRACK {
        None
    } else if s[i] == B_BSLASH {
        if i + 1 < s.len() {
            let e = s[i + 1];
            if e == 110u8 {
                Some((10u8, i + 2))
            } else if e == 114u8 {
                Some((13u8, i + 2))
            } else if e == 116u8 {
                Some((9u8, i + 2))
            } else if (48u8 <= e && e <= 57u8) || (97u8 <= e && e <= 122u8) || (65u8 <= e && e
                <= 90u8) {
                None
            } else {
                Some((e, i + 2))
            }
        } else {
            None
        }
    } else {
        Some((s[i], i + 1))
    }
}

fn class_item_x(s: &Vec<u8>, i: usize) -> (out: Option<(Regex, usize)>)
    ensures
        match out {
            Some((r, j)) => sp_class_item(s@, i as int) == Some((r, j as int)) && i < j
                <= s@.len(),
            None => sp_class_item(s@, i as int) is None,
        },
{
    match cbyte_x(s, i) {
        None => None,
        Some((lo, j)) => {
            if j < s.len() && j + 1 < s.len() && s[j] == B_DASH && s[j + 1] != B_RBRACK {
                match cbyte_x(s, j + 1) {
                    None => None,
                    Some((hi, k)) => if lo <= hi {
                        Some((Regex::Range(lo, hi), k))
                    } else {
                        None
                    },
                }
            } else {
                Some((Regex::Range(lo, lo), j))
            }
        },
    }
}

fn class_items_x(s: &Vec<u8>, i: usize) -> (out: Option<(Regex, usize)>)
    ensures
        match out {
            Some((r, j)) => sp_class_items(s@, i as int) == Some((r, j as int)) && i < j
                <= s@.len(),
            None => sp_class_items(s@, i as int) is None,
        },
    decreases s@.len() - i,
{
    match class_item_x(s, i) {
        None => None,
        Some((r, j)) => {
            if j < s.len() && s[j] == B_RBRACK {
                Some((r, j + 1))
            } else {
                match class_items_x(s, j) {
                    None => None,
                    Some((r2, k)) => Some((crate::ast::mk_alt_x(r, r2), k)),
                }
            }
        },
    }
}

fn atom_x(s: &Vec<u8>, i: usize) -> (out: Option<(Regex, usize)>)
    ensures
        match out {
            Some((r, j)) => sp_atom(s@, i as int) == Some((r, j as int)) && i < j <= s@.len(),
            None => sp_atom(s@, i as int) is None,
        },
    decreases s@.len() - i, 0int,
{
    if i >= s.len() {
        None
    } else {
        let c = s[i];
        if c == B_LPAREN {
            if i + 1 < s.len() && s[i + 1] == B_QMARK {
                None
            } else {
                match alt_x(s, i + 1) {
                    None => None,
                    Some((r, j)) => if j < s.len() && s[j] == B_RPAREN {
                        Some((r, j + 1))
                    } else {
                        None
                    },
                }
            }
        } else if c == B_LBRACK {
            if i + 1 < s.len() && s[i + 1] == B_CARET {
                None
            } else {
                class_items_x(s, i + 1)
            }
        } else if c == B_DOT {
            Some((Regex::Range(0u8, 255u8), i + 1))
        } else if c == B_BSLASH {
            if i + 1 < s.len() {
                let e = s[i + 1];
                if e == 110u8 {
                    Some((Regex::Range(10u8, 10u8), i + 2))
                } else if e == 114u8 {
                    Some((Regex::Range(13u8, 13u8), i + 2))
                } else if e == 116u8 {
                    Some((Regex::Range(9u8, 9u8), i + 2))
                } else if (48u8 <= e && e <= 57u8) || (97u8 <= e && e <= 122u8) || (65u8 <= e && e
                    <= 90u8) {
                    None
                } else {
                    Some((Regex::Range(e, e), i + 2))
                }
            } else {
                None
            }
        } else if c == B_RPAREN || c == B_PIPE || c == B_STAR || c == B_PLUS || c == B_QMARK || c == B_RBRACK
            || c == B_CARET || c == B_DOLLAR || c == B_LBRACE || c == B_RBRACE {
            None
        } else {
            Some((Regex::Range(c, c), i + 1))
        }
    }
}

fn postfix_x(s: &Vec<u8>, j: usize, r: Regex) -> (out: Option<(Regex, usize)>)
    requires
        j <= s@.len(),
    ensures
        match out {
            Some((r2, k)) => sp_postfix(s@, j as int, r) == Some((r2, k as int)) && j <= k
                <= s@.len(),
            None => sp_postfix(s@, j as int, r) is None,
        },
    decreases s@.len() - j,
{
    if j < s.len() && s[j] == B_STAR {
        postfix_x(s, j + 1, Regex::Star(Box::new(r)))
    } else if j < s.len() && s[j] == B_PLUS {
        let r2 = crate::ast::regex_clone(&r);
        postfix_x(s, j + 1, crate::ast::mk_concat_x(r, Regex::Star(Box::new(r2))))
    } else if j < s.len() && s[j] == B_QMARK {
        postfix_x(s, j + 1, crate::ast::mk_alt_x(r, Regex::Eps))
    } else {
        Some((r, j))
    }
}

fn repeat_x(s: &Vec<u8>, i: usize) -> (out: Option<(Regex, usize)>)
    ensures
        match out {
            Some((r, j)) => sp_repeat(s@, i as int) == Some((r, j as int)) && i < j <= s@.len(),
            None => sp_repeat(s@, i as int) is None,
        },
    decreases s@.len() - i, 1int,
{
    match atom_x(s, i) {
        None => None,
        Some((r, j)) => {
            match postfix_x(s, j, r) {
                None => None,
                Some((r2, k)) => Some((r2, k)),
            }
        },
    }
}

fn concat_x(s: &Vec<u8>, i: usize) -> (out: Option<(Regex, usize)>)
    requires
        i <= s@.len(),
    ensures
        match out {
            Some((r, j)) => sp_concat(s@, i as int) == Some((r, j as int)) && i <= j <= s@.len(),
            None => sp_concat(s@, i as int) is None,
        },
    decreases s@.len() - i, 2int,
{
    match repeat_x(s, i) {
        None => Some((Regex::Eps, i)),
        Some((r, j)) => {
            match concat_x(s, j) {
                None => None,
                Some((r2, k)) => Some((crate::ast::mk_concat_x(r, r2), k)),
            }
        },
    }
}

fn alt_x(s: &Vec<u8>, i: usize) -> (out: Option<(Regex, usize)>)
    requires
        i <= s@.len(),
    ensures
        match out {
            Some((r, j)) => sp_alt(s@, i as int) == Some((r, j as int)) && i <= j <= s@.len(),
            None => sp_alt(s@, i as int) is None,
        },
    decreases s@.len() - i, 3int,
{
    match concat_x(s, i) {
        None => None,
        Some((r, j)) => {
            if j < s.len() && s[j] == B_PIPE {
                match alt_x(s, j + 1) {
                    None => None,
                    Some((r2, k)) => Some((crate::ast::mk_alt_x(r, r2), k)),
                }
            } else {
                Some((r, j))
            }
        },
    }
}

/// Parses a whole pattern into a regular expression, or reports that it
/// falls outside the supported grammar.
pub fn parse_pattern(pattern: &Vec<u8>) -> (out: Result<Regex, RegexError>)
    ensures
        match out {
            Ok(r) => spec_parse(pattern@) == Some(r),
            Err(e) => e == RegexError::InvalidPattern && spec_parse(pattern@) is None,
        },
{
    match alt_x(pattern, 0) {
        None => Err(RegexError::InvalidPattern),
        Some((r, j)) => {
            if j == pattern.len() {
                Ok(r)
            } else {
                Err(RegexError::InvalidPattern)
            }
        },
    }
}

} // verus!
