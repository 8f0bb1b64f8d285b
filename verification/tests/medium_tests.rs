use csv_resolve::csv::medium::resolve;
use csv_resolve::csv::medium::CharacterClass;
use csv_resolve::csv::medium::ColumnComplexity;
use csv_resolve::csv::medium::Solution;
use csv_resolve::csv::medium::GINI_SCALE;
use csv_resolve::errors::CsvError;
use csv_resolve::Position;

fn b(s: &str) -> Vec<u8> {
    s.as_bytes().to_vec()
}

fn row(cells: &[&str]) -> Vec<Vec<u8>> {
    cells.iter().map(|c| c.as_bytes().to_vec()).collect()
}

#[test]
fn test_character_classes() {
    assert_eq!(CharacterClass::from_byte(b'7', b','), CharacterClass::Digit);
    assert_eq!(CharacterClass::from_byte(b'x', b','), CharacterClass::Letter);
    assert_eq!(CharacterClass::from_byte(b'!', b','), CharacterClass::Punctuation);
    assert_eq!(CharacterClass::from_byte(b' ', b','), CharacterClass::Whitespace);
    assert_eq!(CharacterClass::from_byte(b'"', b','), CharacterClass::Quote);
    assert_eq!(CharacterClass::from_byte(b',', b','), CharacterClass::Delimiter);
    assert_eq!(CharacterClass::from_byte(b'\t', b','), CharacterClass::Tab);
    assert_eq!(CharacterClass::from_byte(b'\n', b','), CharacterClass::Newline);
    assert_eq!(CharacterClass::from_byte(b'\r', b','), CharacterClass::Newline);
    assert_eq!(CharacterClass::from_byte(200, b','), CharacterClass::Other);
    // the classifier follows the configured delimiter
    assert_eq!(CharacterClass::from_byte(b';', b';'), CharacterClass::Delimiter);
    assert_eq!(CharacterClass::from_byte(b',', b';'), CharacterClass::Punctuation);
    // vertical tab is not ASCII whitespace
    assert_eq!(CharacterClass::from_byte(11, b','), CharacterClass::Other);
    assert_eq!(CharacterClass::from_byte(12, b','), CharacterClass::Whitespace);
}

#[test]
fn test_gini_impurity_values() {
    // one class only: impurity 0
    let pure = ColumnComplexity::from_byte_slice_iter(&vec![b("aaa")], b',');
    assert_eq!(pure.gini_impurity(), 0);
    // two classes evenly: 1 - (1/4 + 1/4) = 1/2 of the scale
    let half = ColumnComplexity::from_byte_slice_iter(&vec![b("a1")], b',');
    assert_eq!(half.gini_impurity(), GINI_SCALE / 2);
    // empty column scores 0
    let empty = ColumnComplexity::from_byte_slice_iter(&vec![], b',');
    assert_eq!(empty.gini_impurity(), 0);
}

#[test]
fn test_gini_monotonicity_examples() {
    // adding a byte of the dominant class never raises the score
    let before = ColumnComplexity::from_byte_slice_iter(&vec![b("aa1")], b',');
    let after = ColumnComplexity::from_byte_slice_iter(&vec![b("aaa1")], b',');
    assert!(after.gini_impurity() <= before.gini_impurity());
    // adding a byte of a class not yet present never lowers it
    let base = ColumnComplexity::from_byte_slice_iter(&vec![b("aa")], b',');
    let widened = ColumnComplexity::from_byte_slice_iter(&vec![b("aa1")], b',');
    assert!(widened.gini_impurity() >= base.gini_impurity());
    // the exact widened value: 1 - (4/9 + 1/9), scaled and floored
    let expect = (4u128 * (GINI_SCALE as u128) / 9) as u64;
    assert_eq!(widened.gini_impurity(), expect);
}

#[test]
fn test_add_remove_bytes() {
    let mut h = ColumnComplexity::new();
    h.add_bytes(b"ab12".as_slice(), b',');
    h.add_bytes(b"cd".as_slice(), b',');
    h.remove_bytes(b"12".as_slice(), b',');
    // four letters remain: a pure column
    assert_eq!(h.gini_impurity(), 0);
}

#[test]
fn test_solution_cells_naive() {
    let raw = b("a,b\nc,d");
    let sol = Solution::new(&raw, b',', b'\"');
    let cells = sol.iter_cells(&raw);
    assert_eq!(cells, row(&["a", "b", "c", "d"]));
    // no quote candidate survives pairing in this buffer
    assert!(sol.iter_quote_pairs().is_empty());
}

#[test]
fn test_resolve_well_formed_matches_simple_path() {
    let raw = b("a,b,c\n1,2,3\n4,5,6");
    let rows = resolve(&raw, b',', b'"', Some(3), 8).unwrap();
    let simple = csv_resolve::csv::easy::fast_stream_valid_csv(&raw, b',', b'"');
    assert_eq!(rows, simple);
    assert_eq!(rows.len(), 3);
    assert_eq!(rows[0], row(&["a", "b", "c"]));
}

#[test]
fn test_resolve_infers_header_count() {
    let raw = b("h1,h2\nv1,v2");
    let rows = resolve(&raw, b',', b'"', None, 8).unwrap();
    assert_eq!(rows, vec![row(&["h1", "h2"]), row(&["v1", "v2"])]);
}

#[test]
fn test_resolve_idempotent_on_resolved_output() {
    let raw = b("a,b\n1,2");
    let rows = resolve(&raw, b',', b'"', Some(2), 8).unwrap();
    // re-serialize the resolved cells with consistent quoting and resolve again
    let mut out: Vec<u8> = Vec::new();
    for (i, r) in rows.iter().enumerate() {
        if i > 0 {
            out.push(b'\n');
        }
        let line = csv_resolve::csv::easy::serialize_row_bytes(r, b',', b'"');
        out.extend_from_slice(&line);
    }
    let rows2 = resolve(&out, b',', b'"', Some(2), 8).unwrap();
    assert_eq!(rows2, rows);
}

#[test]
fn test_resolve_budget_ambiguity() {
    // a row that can never reach the fixed count: the search exhausts its
    // budget and reports ambiguity at that row, never hanging
    let raw = b("a,b\n1");
    let err = resolve(&raw, b',', b'"', Some(2), 4).unwrap_err();
    match err {
        CsvError::Ambiguity(pos, _) => {
            assert_eq!(pos, Position { line: 1, column: 2 });
        }
        other => panic!("expected an ambiguity failure, got {:?}", other),
    }
}

#[test]
fn test_resolve_literal_delimiters_inside_pair() {
    // delimiters between a resolved quote pair become literal, letting the
    // row match a smaller column count
    let raw = b("a\",b,\"c");
    // naive reading has 3 cells; with the pair active it has 1
    let naive = resolve(&raw, b',', b'"', Some(3), 1).unwrap();
    assert_eq!(naive, vec![row(&["a\"", "b", "\"c"])]);
    let resolved = resolve(&raw, b',', b'"', Some(1), 8).unwrap();
    assert_eq!(resolved, vec![row(&["a\",b,\"c"])]);
}

#[test]
fn test_resolve_budget_one_only_naive() {
    // with a budget of one trial, only the naive assignment is examined
    let raw = b("a\",b,\"c");
    let err = resolve(&raw, b',', b'"', Some(1), 1).unwrap_err();
    assert!(matches!(err, CsvError::Ambiguity(_, _)));
}
