//! A regex-to-automaton compiler and lookup-based matching engine for
//! zero-knowledge regex circuits: decomposed patterns are compiled into
//! deterministic transition tables (proved to accept exactly the patterns'
//! languages), serialized as text, loaded back, and evaluated over
//! fixed-length byte witnesses to derive masked characters and public
//! substring ids, with success- and failure-mode assertion of claimed
//! substrings.

pub mod assertion;
pub mod ast;
pub mod automaton;
pub mod compiler;
pub mod engine;
pub mod errors;
pub mod parser;
pub mod table_text;

use vstd::prelude::*;

verus! {

/// Maximum number of input positions a witness may occupy; shorter inputs
/// are conceptually padded with zero bytes up to this length.
pub const MAX_STRING_LEN: usize = 1024;

/// Explicit configuration for the regex verification circuit: the row-count
/// degree and the paths of the two transition-table text files.
pub struct RegexVerifyConfigParams {
    /// The degree of the number of rows, i.e., 2^(`degree`) rows are set.
    pub k: usize,
    pub allstr_file_path: String,
    pub substr_file_path: String,
}

/// Sets the two transition-table file paths, leaving the degree unchanged.
pub fn set_config_params(params: &mut RegexVerifyConfigParams, allstr: String, substr: String)
    ensures
        final(params).allstr_file_path == allstr,
        final(params).substr_file_path == substr,
        final(params).k == old(params).k,
{
    params.allstr_file_path = allstr;
    params.substr_file_path = substr;
}

/// Sets the row-count degree, leaving the file paths unchanged.
pub fn set_config_k(params: &mut RegexVerifyConfigParams, k: usize)
    ensures
        final(params).k == k,
        final(params).allstr_file_path == old(params).allstr_file_path,
        final(params).substr_file_path == old(params).substr_file_path,
{
    params.k = k;
}

} // verus!
