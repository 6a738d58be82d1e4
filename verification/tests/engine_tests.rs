use regex_circuit::assertion::assert_claims;
use regex_circuit::automaton::table_accepts_bytes;
use regex_circuit::compiler::{compile, DecomposedRegexConfig, RegexFragment};
use regex_circuit::engine::evaluate;
use regex_circuit::engine::RegexDefs;
use regex_circuit::errors::RegexError;
use regex_circuit::table_text::{emit_table, load_table};
use regex_circuit::MAX_STRING_LEN;

fn config(parts: &[(&str, bool)]) -> DecomposedRegexConfig {
    let mut v = Vec::new();
    for (pat, is_public) in parts {
        v.push(RegexFragment { pattern: pat.as_bytes().to_vec(), is_public: *is_public });
    }
    DecomposedRegexConfig { parts: v }
}

#[test]
fn concrete_scenario_ids_and_masks() {
    let cfg = config(&[("a+b", false), ("[c]+", true), ("d", false)]);
    let defs = compile(&cfg).unwrap();
    let input = b"aabccd".to_vec();
    let result = evaluate(&input, &defs).unwrap();
    let expected_ids = [0usize, 0, 0, 1, 1, 0];
    let expected_masked = [0u8, 0, 0, b'c', b'c', 0];
    for p in 0..6 {
        assert_eq!(result.all_substr_ids[p], expected_ids[p]);
        assert_eq!(result.masked_characters[p], expected_masked[p]);
    }
    for p in 6..MAX_STRING_LEN {
        assert_eq!(result.all_substr_ids[p], 0);
        assert_eq!(result.masked_characters[p], 0);
    }
    let claims = vec![(3usize, b"cc".to_vec())];
    assert_eq!(assert_claims(&result, &claims, true), Ok(()));
}

#[test]
fn success_mode_on_full_match() {
    let cfg = config(&[("x", false), ("[yz]+", true)]);
    let defs = compile(&cfg).unwrap();
    let input = b"xyzzy".to_vec();
    let result = evaluate(&input, &defs).unwrap();
    let claims = vec![(1usize, b"yzzy".to_vec())];
    assert_eq!(assert_claims(&result, &claims, true), Ok(()));
}

#[test]
fn failure_mode_on_wrong_claim() {
    let cfg = config(&[("a+b", false), ("[c]+", true), ("d", false)]);
    let defs = compile(&cfg).unwrap();
    let input = b"aabccd".to_vec();
    let result = evaluate(&input, &defs).unwrap();
    // wrong offset
    let wrong_offset = vec![(2usize, b"cc".to_vec())];
    assert_eq!(assert_claims(&result, &wrong_offset, false), Ok(()));
    assert_eq!(
        assert_claims(&result, &wrong_offset, true),
        Err(RegexError::AssertionFailure)
    );
    // wrong text
    let wrong_text = vec![(3usize, b"cd".to_vec())];
    assert_eq!(assert_claims(&result, &wrong_text, false), Ok(()));
    assert_eq!(
        assert_claims(&result, &wrong_text, true),
        Err(RegexError::AssertionFailure)
    );
    // correct claim must not pass failure mode
    let right = vec![(3usize, b"cc".to_vec())];
    assert_eq!(assert_claims(&result, &right, false), Err(RegexError::UnexpectedMatch));
}

#[test]
fn overlap_rejected_at_compile_time() {
    let cfg = config(&[("[a]+", true), ("[a]+", true)]);
    assert_eq!(compile(&cfg).err(), Some(RegexError::OverlapViolation));
}

#[test]
fn empty_config_rejected() {
    let cfg = config(&[]);
    assert_eq!(compile(&cfg).err(), Some(RegexError::InvalidConfig));
}

#[test]
fn lookaround_and_backreference_rejected() {
    let cfg = config(&[("(?=a)b", false)]);
    assert_eq!(compile(&cfg).err(), Some(RegexError::InvalidPattern));
    let cfg2 = config(&[("(a)\\1", false)]);
    assert_eq!(compile(&cfg2).err(), Some(RegexError::InvalidPattern));
}

#[test]
fn input_longer_than_maximum_rejected() {
    let cfg = config(&[("[a]*", false)]);
    let defs = compile(&cfg).unwrap();
    let input = vec![b'a'; MAX_STRING_LEN + 1];
    assert_eq!(evaluate(&input, &defs).err(), Some(RegexError::LengthExceeded));
}

#[test]
fn claim_past_maximum_rejected() {
    let cfg = config(&[("[a]+", true)]);
    let defs = compile(&cfg).unwrap();
    let input = b"aaa".to_vec();
    let result = evaluate(&input, &defs).unwrap();
    let claims = vec![(MAX_STRING_LEN - 1, b"aa".to_vec())];
    assert_eq!(assert_claims(&result, &claims, true), Err(RegexError::LengthExceeded));
}

#[test]
fn two_public_fragments_numbered_in_order() {
    let cfg = config(&[
        ("a+", false),
        ("[b]+", true),
        ("c", false),
        ("[d]+", true),
        ("e", false),
    ]);
    let defs = compile(&cfg).unwrap();
    let input = b"aabbcdde".to_vec();
    let result = evaluate(&input, &defs).unwrap();
    let expected_ids = [0usize, 0, 1, 1, 0, 2, 2, 0];
    let expected_masked = [0u8, 0, b'b', b'b', 0, b'd', b'd', 0];
    for p in 0..8 {
        assert_eq!(result.all_substr_ids[p], expected_ids[p]);
        assert_eq!(result.masked_characters[p], expected_masked[p]);
    }
    for p in 8..MAX_STRING_LEN {
        assert_eq!(result.all_substr_ids[p], 0);
    }
}

#[test]
fn masking_idempotent_on_same_text() {
    let cfg = config(&[("a+b", false), ("[c]+", true), ("d", false)]);
    let defs = compile(&cfg).unwrap();
    let input = b"aabccd".to_vec();
    let first = evaluate(&input, &defs).unwrap();
    // rewrite the public span with its own text and evaluate again
    let mut rewritten = input.clone();
    rewritten[3] = b'c';
    rewritten[4] = b'c';
    let second = evaluate(&rewritten, &defs).unwrap();
    assert_eq!(first.masked_characters, second.masked_characters);
    assert_eq!(first.all_substr_ids, second.all_substr_ids);
}

#[test]
fn non_matching_input_yields_all_zeros() {
    let cfg = config(&[("a+b", false), ("[c]+", true), ("d", false)]);
    let defs = compile(&cfg).unwrap();
    let input = b"zzzz".to_vec();
    let result = evaluate(&input, &defs).unwrap();
    for p in 0..MAX_STRING_LEN {
        assert_eq!(result.all_substr_ids[p], 0);
        assert_eq!(result.masked_characters[p], 0);
    }
}

#[test]
fn full_table_accepts_exactly_the_concatenation() {
    let cfg = config(&[("a+b", false), ("[c]+", true), ("d", false)]);
    let defs = compile(&cfg).unwrap();
    assert!(table_accepts_bytes(&defs.allstr, &b"aabccd".to_vec()));
    assert!(table_accepts_bytes(&defs.allstr, &b"abcd".to_vec()));
    assert!(!table_accepts_bytes(&defs.allstr, &b"abd".to_vec()));
    assert!(!table_accepts_bytes(&defs.allstr, &b"aabcc".to_vec()));
    assert!(!table_accepts_bytes(&defs.allstr, &b"".to_vec()));
}

#[test]
fn class_ranges_and_escapes() {
    let cfg = config(&[("[a-c]+\\n", false)]);
    let defs = compile(&cfg).unwrap();
    assert!(table_accepts_bytes(&defs.allstr, &b"abcb\n".to_vec()));
    assert!(!table_accepts_bytes(&defs.allstr, &b"abd\n".to_vec()));
    assert!(!table_accepts_bytes(&defs.allstr, &b"abc".to_vec()));
}

#[test]
fn alternation_and_grouping() {
    let cfg = config(&[("(ab|cd)+e?", false)]);
    let defs = compile(&cfg).unwrap();
    assert!(table_accepts_bytes(&defs.allstr, &b"abcd".to_vec()));
    assert!(table_accepts_bytes(&defs.allstr, &b"cde".to_vec()));
    assert!(!table_accepts_bytes(&defs.allstr, &b"e".to_vec()));
    assert!(!table_accepts_bytes(&defs.allstr, &b"abc".to_vec()));
}

#[test]
fn compile_emit_load_evaluate_pipeline() {
    let cfg = config(&[("a+b", false), ("[c]+", true), ("d", false)]);
    let defs = compile(&cfg).unwrap();
    // serialize every table and load it back, as the circuit setup does
    let allstr = load_table(&emit_table(&defs.allstr)).unwrap();
    let mut substrs = Vec::new();
    for sub in &defs.substrs {
        substrs.push(load_table(&emit_table(sub)).unwrap());
    }
    let loaded = RegexDefs { allstr, substrs };
    let input = b"aabccd".to_vec();
    let result = evaluate(&input, &loaded).unwrap();
    let expected_ids = [0usize, 0, 0, 1, 1, 0];
    for p in 0..6 {
        assert_eq!(result.all_substr_ids[p], expected_ids[p]);
    }
    let claims = vec![(3usize, b"cc".to_vec())];
    assert_eq!(assert_claims(&result, &claims, true), Ok(()));
}

#[test]
fn public_fragments_with_a_private_separator_compile() {
    let cfg = config(&[("[a-z]+", true), ("@", false), ("[a-z]+", true)]);
    let defs = compile(&cfg).unwrap();
    let input = b"ab@cd".to_vec();
    let result = evaluate(&input, &defs).unwrap();
    let expected_ids = [1usize, 1, 0, 2, 2];
    let expected_masked = [b'a', b'b', 0, b'c', b'd'];
    for p in 0..5 {
        assert_eq!(result.all_substr_ids[p], expected_ids[p]);
        assert_eq!(result.masked_characters[p], expected_masked[p]);
    }
    let claims = vec![(0usize, b"ab".to_vec()), (3usize, b"cd".to_vec())];
    assert_eq!(assert_claims(&result, &claims, true), Ok(()));
}

#[test]
fn ambiguous_pair_behind_empty_matching_separator_rejected() {
    let cfg = config(&[("[a]+", true), ("b?", false), ("[a]+", true)]);
    assert_eq!(compile(&cfg).err(), Some(RegexError::OverlapViolation));
}
