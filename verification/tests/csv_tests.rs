use csv_resolve::csv::easy::fast_stream_csv_with_unescaped_delimiters;
use csv_resolve::csv::easy::fast_stream_valid_csv;
use csv_resolve::csv::easy::parse_line;
use csv_resolve::csv::easy::serialize_row_bytes;
use csv_resolve::csv::easy::split_into_lines;
use csv_resolve::csv::easy::NOT_ENOUGH_COLUMNS_MSG;
use csv_resolve::errors::CsvError;
use csv_resolve::Position;

fn b(s: &str) -> Vec<u8> {
    s.as_bytes().to_vec()
}

fn row(cells: &[&str]) -> Vec<Vec<u8>> {
    cells.iter().map(|c| c.as_bytes().to_vec()).collect()
}

#[test]
fn test_fast_stream_valid_csv() {
    let input = b("a,b,c\n1,2,3\n4,5,6");
    let rows = fast_stream_valid_csv(&input, b',', b'"');
    assert_eq!(rows[0], row(&["a", "b", "c"]));
    assert_eq!(rows[1], row(&["1", "2", "3"]));
    assert_eq!(rows[2], row(&["4", "5", "6"]));
    assert!(rows.len() == 3);
}

#[test]
fn test_fast_stream_csv_with_unescaped_delimiters() {
    let input = b("a,b,c\n1,2,3\n4,5,6,7,8,9");
    let rows = fast_stream_csv_with_unescaped_delimiters(&input, b',', b'"', 2, 3);
    assert_eq!(rows[0], Ok(row(&["a", "b", "c"])));
    assert_eq!(rows[1], Ok(row(&["1", "2", "3"])));
    assert_eq!(rows[2], Ok(row(&["4", "5", "6,7,8,9"])));
    assert!(rows.len() == 3);
}

#[test]
fn test_fast_stream_csv_with_unescaped_delimiters_error() {
    let input = b("a,b,c\n1,2,3\n4,5\n10,11,12");
    let rows = fast_stream_csv_with_unescaped_delimiters(&input, b',', b'"', 2, 3);
    assert_eq!(rows[0], Ok(row(&["a", "b", "c"])));
    assert_eq!(rows[1], Ok(row(&["1", "2", "3"])));
    assert_eq!(
        rows[2],
        Err(CsvError::Invalid(
            Position { line: 2, column: 3 },
            NOT_ENOUGH_COLUMNS_MSG
        ))
    );
    assert_eq!(rows[3], Ok(row(&["10", "11", "12"])));
    assert!(rows.len() == 4);
}

#[test]
fn test_parse_line_doubled_quote() {
    // a quoted cell with a doubled internal quote extracts to one quote
    let line = b("\"a\"\"b\",c");
    let fields = parse_line(&line, b',', b'"');
    assert_eq!(fields, row(&["a\"b", "c"]));
}

#[test]
fn test_parse_line_quoted_delimiter() {
    let line = b("\"x,y\",z");
    let fields = parse_line(&line, b',', b'"');
    assert_eq!(fields, row(&["x,y", "z"]));
}

#[test]
fn test_split_into_lines_styles() {
    let lines = split_into_lines(&b("a\r\nb\nc"));
    assert_eq!(lines, vec![b("a"), b("b"), b("c")]);
    let lines2 = split_into_lines(&b("a\n\nb\n"));
    assert_eq!(lines2, vec![b("a"), b(""), b("b")]);
    let lines3 = split_into_lines(&b(""));
    assert!(lines3.is_empty());
}

#[test]
fn test_serialize_roundtrip() {
    // tokenize . serialize is the identity on rows: re-serialized output
    // parses back to the same cells
    let fields = row(&["plain", "with,comma", "with\"quote", ""]);
    let line = serialize_row_bytes(&fields, b',', b'"');
    assert_eq!(line, b("plain,\"with,comma\",\"with\"\"quote\","));
    let back = parse_line(&line, b',', b'"');
    assert_eq!(back, fields);
    // and serializing the parsed row again gives the same bytes
    let line2 = serialize_row_bytes(&back, b',', b'"');
    assert_eq!(line2, line);
}

#[test]
fn test_serialize_single_quote_cell() {
    let fields = row(&["\""]);
    let line = serialize_row_bytes(&fields, b',', b'"');
    assert_eq!(line, b("\"\"\"\""));
    assert_eq!(parse_line(&line, b',', b'"'), fields);
}

#[test]
fn test_repair_boundaries() {
    // exactly the expected count passes through unchanged
    let rows = fast_stream_csv_with_unescaped_delimiters(&b("p,q"), b',', b'"', 0, 2);
    assert_eq!(rows[0], Ok(row(&["p", "q"])));
    // excess merges into the first column when index 0 absorbs it
    let rows2 = fast_stream_csv_with_unescaped_delimiters(&b("p,q,r"), b',', b'"', 0, 2);
    assert_eq!(rows2[0], Ok(row(&["p,q", "r"])));
}
