use regex_circuit::automaton::{table_accepts_bytes, TransitionRow};
use regex_circuit::compiler::{compile, DecomposedRegexConfig, RegexFragment};
use regex_circuit::errors::RegexError;
use regex_circuit::table_text::{emit_circom, emit_table, load_table};
use regex_circuit::{set_config_k, set_config_params, RegexVerifyConfigParams};

fn config(parts: &[(&str, bool)]) -> DecomposedRegexConfig {
    let mut v = Vec::new();
    for (pat, is_public) in parts {
        v.push(RegexFragment { pattern: pat.as_bytes().to_vec(), is_public: *is_public });
    }
    DecomposedRegexConfig { parts: v }
}

/// All strings over `alpha` of length at most `max_len`, depth-first.
fn enumerate(alpha: &[u8], max_len: usize) -> Vec<Vec<u8>> {
    let mut out: Vec<Vec<u8>> = vec![Vec::new()];
    let mut frontier: Vec<Vec<u8>> = vec![Vec::new()];
    for _ in 0..max_len {
        let mut next = Vec::new();
        for w in &frontier {
            for b in alpha {
                let mut w2 = w.clone();
                w2.push(*b);
                out.push(w2.clone());
                next.push(w2);
            }
        }
        frontier = next;
    }
    out
}

#[test]
fn emit_then_load_round_trips_rows() {
    let cfg = config(&[("(a|b)*c", false)]);
    let defs = compile(&cfg).unwrap();
    let text = emit_table(&defs.allstr);
    let loaded = load_table(&text).unwrap();
    assert_eq!(loaded, defs.allstr);
}

#[test]
fn emit_then_load_preserves_the_accepted_language() {
    let cfg = config(&[("(a|bb)+c?", false)]);
    let defs = compile(&cfg).unwrap();
    let text = emit_table(&defs.allstr);
    let loaded = load_table(&text).unwrap();
    for w in enumerate(b"abc", 8) {
        assert_eq!(
            table_accepts_bytes(&defs.allstr, &w),
            table_accepts_bytes(&loaded, &w)
        );
    }
}

#[test]
fn loaded_table_matches_handwritten_rows() {
    let text = b"0 97 1 1\n1 98 0 0\n".to_vec();
    let rows = load_table(&text).unwrap();
    assert_eq!(
        rows,
        vec![
            TransitionRow { state: 0, byte: 97, next: 1, is_accept: true },
            TransitionRow { state: 1, byte: 98, next: 0, is_accept: false },
        ]
    );
    assert_eq!(emit_table(&rows), text);
}

#[test]
fn malformed_tables_rejected() {
    // an accept flag that is not 0 or 1
    assert_eq!(load_table(&b"1 2 3 7\n".to_vec()).err(), Some(RegexError::MalformedTable));
    // too few fields
    assert_eq!(load_table(&b"1 2 3\n".to_vec()).err(), Some(RegexError::MalformedTable));
    // not a number
    assert_eq!(load_table(&b"x y z w\n".to_vec()).err(), Some(RegexError::MalformedTable));
    // a byte value out of range
    assert_eq!(load_table(&b"0 256 1 1\n".to_vec()).err(), Some(RegexError::MalformedTable));
    // missing trailing newline
    assert_eq!(load_table(&b"0 97 1 1".to_vec()).err(), Some(RegexError::MalformedTable));
}

#[test]
fn leading_zeros_are_plain_integers() {
    let rows = load_table(&b"01 097 002 1\n".to_vec()).unwrap();
    assert_eq!(
        rows,
        vec![TransitionRow { state: 1, byte: 97, next: 2, is_accept: true }]
    );
}

#[test]
fn empty_text_is_an_empty_table() {
    let rows = load_table(&Vec::new()).unwrap();
    assert_eq!(rows, Vec::new());
}

#[test]
fn circom_emission_wraps_the_same_rows() {
    let rows = vec![TransitionRow { state: 0, byte: 97, next: 1, is_accept: true }];
    let out = emit_circom(&rows, &b"MyRegex".to_vec());
    let expected = b"template MyRegex\n0 -97-> 1 1;\nend\n".to_vec();
    assert_eq!(out, expected);
}

#[test]
fn config_params_are_updated_in_place() {
    let mut params = RegexVerifyConfigParams {
        k: 17,
        allstr_file_path: String::new(),
        substr_file_path: String::new(),
    };
    set_config_params(&mut params, String::from("all.txt"), String::from("sub.txt"));
    assert_eq!(params.allstr_file_path, "all.txt");
    assert_eq!(params.substr_file_path, "sub.txt");
    assert_eq!(params.k, 17);
    set_config_k(&mut params, 19);
    assert_eq!(params.k, 19);
    assert_eq!(params.allstr_file_path, "all.txt");
}

#[test]
fn substring_tables_accept_their_fragment_language() {
    let cfg = config(&[("a+", false), ("[bc]+", true), ("d", false)]);
    let defs = compile(&cfg).unwrap();
    assert_eq!(defs.substrs.len(), 1);
    assert!(table_accepts_bytes(&defs.substrs[0], &b"bcb".to_vec()));
    assert!(!table_accepts_bytes(&defs.substrs[0], &b"ad".to_vec()));
}
